//! Cross-checks against outside implementations of the same wire format
//! and hash: the codec must agree with redis-protocol's RESP2 codec, and
//! the ring's placement must agree with a direct xxHash64 computation.

use fractonkv::codec::DecodeResult;
use fractonkv::codec::Frame;
use fractonkv::codec::RedisCodec;
use fractonkv::ring::ConsistentHashRing;
use redis_protocol::resp2::decode as rp_decode;
use redis_protocol::resp2::encode as rp_encode;
use redis_protocol::resp2::types::OwnedFrame;
use redis_protocol::resp2::types::Resp2Frame;

fn b(s: &str) -> Vec<u8> {
    s.as_bytes().to_vec()
}

fn to_owned_frame(f: &Frame) -> OwnedFrame {
    match f {
        Frame::Simple(d) => OwnedFrame::SimpleString(d.clone()),
        Frame::Error(d) => OwnedFrame::Error(String::from_utf8(d.clone()).unwrap()),
        Frame::Integer(i) => OwnedFrame::Integer(*i),
        Frame::Bulk(d) => OwnedFrame::BulkString(d.clone()),
        Frame::Null => OwnedFrame::Null,
        Frame::Array(v) => OwnedFrame::Array(v.iter().map(to_owned_frame).collect()),
    }
}

fn encode_mine(f: &Frame) -> Vec<u8> {
    let mut out: Vec<u8> = Vec::new();
    RedisCodec::new().encode(f, &mut out);
    out
}

fn encode_theirs(f: &OwnedFrame) -> Vec<u8> {
    let mut out: Vec<u8> = vec![0u8; f.encode_len(false)];
    let n = rp_encode::encode(&mut out, f, false).unwrap();
    out.truncate(n);
    out
}

fn sample_frames() -> Vec<Frame> {
    vec![
        Frame::Simple(b("OK")),
        Frame::Error(b("ERR unknown command")),
        Frame::Integer(0),
        Frame::Integer(-91283),
        Frame::Integer(i64::MAX),
        Frame::Bulk(b("")),
        Frame::Bulk(vec![0u8, 255u8, 13u8, 10u8]),
        Frame::Null,
        Frame::Array(vec![Frame::Bulk(b("SET")), Frame::Bulk(b("a")), Frame::Bulk(b("1"))]),
        Frame::Array(vec![
            Frame::Simple(b("nested")),
            Frame::Array(vec![Frame::Integer(1), Frame::Null]),
        ]),
        Frame::Array(Vec::new()),
    ]
}

#[test]
fn encoding_agrees_with_redis_protocol() {
    for f in sample_frames() {
        let mine = encode_mine(&f);
        let theirs = encode_theirs(&to_owned_frame(&f));
        assert_eq!(mine, theirs, "encodings differ for {:?}", f);
    }
}

#[test]
fn redis_protocol_decodes_my_encodings() {
    for f in sample_frames() {
        let bytes = encode_mine(&f);
        let (decoded, consumed) = rp_decode::decode(&bytes).unwrap().unwrap();
        assert_eq!(consumed, bytes.len());
        assert_eq!(decoded, to_owned_frame(&f));
    }
}

#[test]
fn my_decoder_reads_redis_protocol_encodings() {
    for f in sample_frames() {
        let bytes = encode_theirs(&to_owned_frame(&f));
        match RedisCodec::new().decode(&bytes) {
            DecodeResult::Done(decoded, consumed) => {
                assert_eq!(consumed, bytes.len());
                assert_eq!(decoded, f);
            },
            other => panic!("decode of {:?} gave {:?}", f, other),
        }
    }
}

#[test]
fn ring_placement_agrees_with_direct_xxhash() {
    // Rebuild the ring's placement directly from twox-hash and check that
    // routing agrees; this fails if the hash in the library is not the
    // seed-zero xxHash64 of exactly the key bytes.
    let ids: Vec<usize> = vec![0, 1, 2, 3, 4];
    let vnodes: usize = 8;
    let ring = ConsistentHashRing::new(ids.clone(), vnodes);

    let mut entries: Vec<(u64, usize)> = Vec::new();
    for id in &ids {
        for v in 0..vnodes {
            let label = format!("{}-{}", id, v);
            let h = twox_hash::XxHash64::oneshot(0, label.as_bytes());
            entries.push((h, *id));
        }
    }
    entries.sort_by_key(|e| e.0);

    for key in ["alpha", "beta", "user:42", "", "0-3"] {
        let h = twox_hash::XxHash64::oneshot(0, key.as_bytes());
        let expected = match entries.iter().find(|e| e.0 >= h) {
            Some(e) => e.1,
            None => entries[0].1,
        };
        assert_eq!(ring.get_shard(&b(key)), expected, "route differs for {:?}", key);
    }
}
