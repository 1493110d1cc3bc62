use fractonkv::codec::DecodeResult;
use fractonkv::codec::Frame;
use fractonkv::codec::RedisCodec;
use fractonkv::MAX_REQ_BYTES;

fn b(s: &str) -> Vec<u8> {
    s.as_bytes().to_vec()
}

fn encode(f: &Frame) -> Vec<u8> {
    let codec = RedisCodec::new();
    let mut out: Vec<u8> = Vec::new();
    codec.encode(f, &mut out);
    out
}

fn decode(bytes: &[u8]) -> DecodeResult {
    RedisCodec::new().decode(&bytes.to_vec())
}

#[test]
fn codec_encodes_simple_string() {
    assert_eq!(encode(&Frame::Simple(b("OK"))), b("+OK\r\n"));
}

#[test]
fn codec_encodes_error() {
    assert_eq!(encode(&Frame::Error(b("ERR boom"))), b("-ERR boom\r\n"));
}

#[test]
fn codec_encodes_integers() {
    assert_eq!(encode(&Frame::Integer(0)), b(":0\r\n"));
    assert_eq!(encode(&Frame::Integer(123)), b(":123\r\n"));
    assert_eq!(encode(&Frame::Integer(-5)), b(":-5\r\n"));
    assert_eq!(encode(&Frame::Integer(i64::MIN)), b(":-9223372036854775808\r\n"));
    assert_eq!(encode(&Frame::Integer(i64::MAX)), b(":9223372036854775807\r\n"));
}

#[test]
fn codec_encodes_bulk_and_null() {
    assert_eq!(encode(&Frame::Bulk(b("abc"))), b("$3\r\nabc\r\n"));
    assert_eq!(encode(&Frame::Bulk(Vec::new())), b("$0\r\n\r\n"));
    assert_eq!(encode(&Frame::Null), b("$-1\r\n"));
}

#[test]
fn codec_encodes_nested_arrays() {
    let f = Frame::Array(vec![
        Frame::Simple(b("a")),
        Frame::Array(vec![Frame::Integer(7), Frame::Null]),
        Frame::Bulk(b("xy")),
    ]);
    assert_eq!(encode(&f), b("*3\r\n+a\r\n*2\r\n:7\r\n$-1\r\n$2\r\nxy\r\n"));
}

#[test]
fn codec_decodes_each_kind() {
    assert_eq!(decode(b"+OK\r\n"), DecodeResult::Done(Frame::Simple(b("OK")), 5));
    assert_eq!(decode(b"-ERR x\r\n"), DecodeResult::Done(Frame::Error(b("ERR x")), 8));
    assert_eq!(decode(b":42\r\n"), DecodeResult::Done(Frame::Integer(42), 5));
    assert_eq!(decode(b":-42\r\n"), DecodeResult::Done(Frame::Integer(-42), 6));
    assert_eq!(decode(b"$3\r\nabc\r\n"), DecodeResult::Done(Frame::Bulk(b("abc")), 9));
    assert_eq!(decode(b"$-1\r\n"), DecodeResult::Done(Frame::Null, 5));
    assert_eq!(decode(b"*-1\r\n"), DecodeResult::Done(Frame::Null, 5));
}

#[test]
fn codec_decode_leaves_trailing_bytes() {
    match decode(b"+OK\r\n+NEXT\r\n") {
        DecodeResult::Done(f, n) => {
            assert_eq!(f, Frame::Simple(b("OK")));
            assert_eq!(n, 5);
        },
        other => panic!("unexpected: {:?}", other),
    }
}

#[test]
fn codec_decode_round_trips_every_kind() {
    let frames = vec![
        Frame::Simple(b("status")),
        Frame::Error(b("ERR e")),
        Frame::Integer(-123456789),
        Frame::Bulk(vec![0u8, 13u8, 10u8, 255u8]),
        Frame::Null,
        Frame::Array(vec![
            Frame::Bulk(b("GET")),
            Frame::Bulk(b("key")),
            Frame::Array(vec![Frame::Integer(1)]),
        ]),
    ];
    for f in frames {
        let bytes = encode(&f);
        match decode(&bytes) {
            DecodeResult::Done(g, n) => {
                assert_eq!(g, f);
                assert_eq!(n, bytes.len());
            },
            other => panic!("no round trip for {:?}: {:?}", f, other),
        }
    }
}

#[test]
fn codec_reports_incomplete_frames() {
    assert_eq!(decode(b""), DecodeResult::Incomplete);
    assert_eq!(decode(b"+OK"), DecodeResult::Incomplete);
    assert_eq!(decode(b"+OK\r"), DecodeResult::Incomplete);
    assert_eq!(decode(b"$3\r\nab"), DecodeResult::Incomplete);
    assert_eq!(decode(b"$3\r\nabc\r"), DecodeResult::Incomplete);
    assert_eq!(decode(b"*2\r\n+a\r\n"), DecodeResult::Incomplete);
    assert_eq!(decode(b"*1\r\n"), DecodeResult::Incomplete);
}

#[test]
fn codec_reports_malformed_frames() {
    assert_eq!(decode(b"x garbage"), DecodeResult::Malformed);
    assert_eq!(decode(b"+OK\rX"), DecodeResult::Malformed);
    assert_eq!(decode(b":\r\n"), DecodeResult::Malformed);
    assert_eq!(decode(b":12a\r\n"), DecodeResult::Malformed);
    assert_eq!(decode(b":99999999999999999999\r\n"), DecodeResult::Malformed);
    assert_eq!(decode(b":9223372036854775808\r\n"), DecodeResult::Malformed);
    assert_eq!(decode(b"$3\r\nabcXY"), DecodeResult::Malformed);
    assert_eq!(decode(b"$x\r\n"), DecodeResult::Malformed);
    assert_eq!(decode(b"$-2\r\n"), DecodeResult::Malformed);
    assert_eq!(decode(b"*x\r\n"), DecodeResult::Malformed);
}

#[test]
fn codec_decodes_extreme_integers() {
    assert_eq!(
        decode(b":9223372036854775807\r\n"),
        DecodeResult::Done(Frame::Integer(i64::MAX), 22)
    );
    assert_eq!(
        decode(b":-9223372036854775808\r\n"),
        DecodeResult::Done(Frame::Integer(i64::MIN), 23)
    );
}

#[test]
fn codec_enforces_buffer_ceiling() {
    let big = vec![b'+'; MAX_REQ_BYTES + 1];
    assert_eq!(RedisCodec::new().decode(&big), DecodeResult::Oversize);
    // At the ceiling itself the decoder still works.
    let mut exact = b"+OK\r\n".to_vec();
    exact.resize(MAX_REQ_BYTES, b' ');
    match RedisCodec::new().decode(&exact) {
        DecodeResult::Done(f, 5) => assert_eq!(f, Frame::Simple(b("OK"))),
        other => panic!("unexpected: {:?}", other),
    }
}
