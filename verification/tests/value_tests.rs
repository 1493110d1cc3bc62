use fractonkv::codec::Frame;
use fractonkv::value::DataKind;
use fractonkv::value::Entry;

fn b(s: &str) -> Vec<u8> {
    s.as_bytes().to_vec()
}

fn simple(s: &str) -> Frame {
    Frame::Simple(b(s))
}

#[test]
fn values_present_as_their_wire_frames() {
    assert_eq!(DataKind::Str(b("hello")).to_bytes_frame(), simple("hello"));
    assert_eq!(DataKind::Blob(b("bin")).to_bytes_frame(), Frame::Bulk(b("bin")));
    assert_eq!(
        DataKind::List(vec![DataKind::Str(b("a")), DataKind::Blob(b("b"))]).to_bytes_frame(),
        Frame::Array(vec![simple("a"), Frame::Bulk(b("b"))])
    );
    assert_eq!(
        DataKind::SetOf(vec![b("m1"), b("m2")]).to_bytes_frame(),
        Frame::Array(vec![simple("m1"), simple("m2")])
    );
    assert_eq!(
        DataKind::Hash(vec![(b("k1"), b("v1")), (b("k2"), b("v2"))]).to_bytes_frame(),
        Frame::Array(vec![simple("k1"), simple("v1"), simple("k2"), simple("v2")])
    );
    assert_eq!(
        DataKind::Sorted(vec![(1, b("a")), (2, b("b"))]).to_bytes_frame(),
        Frame::Array(vec![simple("1"), simple("a"), simple("2"), simple("b")])
    );
    assert_eq!(
        DataKind::Sorted(vec![(-3, b("neg"))]).to_bytes_frame(),
        Frame::Array(vec![simple("-3"), simple("neg")])
    );
}

#[test]
fn frames_read_back_as_values() {
    assert_eq!(
        DataKind::from_bytes_frame(&simple("ok")),
        Some(DataKind::Str(b("ok")))
    );
    assert_eq!(
        DataKind::from_bytes_frame(&Frame::Bulk(b("raw"))),
        Some(DataKind::Blob(b("raw")))
    );
    // An even run of simple strings reads as a hash of pairs.
    let arr = Frame::Array(vec![simple("k1"), simple("v1"), simple("k2"), simple("v2")]);
    assert_eq!(
        DataKind::from_bytes_frame(&arr),
        Some(DataKind::Hash(vec![(b("k1"), b("v1")), (b("k2"), b("v2"))]))
    );
    // A repeated field keeps the later value, in the first field's slot.
    let arr = Frame::Array(vec![simple("k"), simple("v1"), simple("k"), simple("v2")]);
    assert_eq!(
        DataKind::from_bytes_frame(&arr),
        Some(DataKind::Hash(vec![(b("k"), b("v2"))]))
    );
    // An empty array is an empty hash.
    assert_eq!(
        DataKind::from_bytes_frame(&Frame::Array(Vec::new())),
        Some(DataKind::Hash(Vec::new()))
    );
    // A mixed or odd array reads as a list instead.
    let arr = Frame::Array(vec![simple("a"), Frame::Bulk(b("b"))]);
    assert_eq!(
        DataKind::from_bytes_frame(&arr),
        Some(DataKind::List(vec![DataKind::Str(b("a")), DataKind::Blob(b("b"))]))
    );
    let arr = Frame::Array(vec![simple("a"), simple("b"), simple("c")]);
    assert_eq!(
        DataKind::from_bytes_frame(&arr),
        Some(DataKind::List(vec![
            DataKind::Str(b("a")),
            DataKind::Str(b("b")),
            DataKind::Str(b("c")),
        ]))
    );
    // Frames with no value reading: integers, errors, nulls.
    assert_eq!(DataKind::from_bytes_frame(&Frame::Integer(1)), None);
    assert_eq!(DataKind::from_bytes_frame(&Frame::Null), None);
    assert_eq!(
        DataKind::from_bytes_frame(&Frame::Array(vec![Frame::Integer(1)])),
        None
    );
}

#[test]
fn values_render_as_numbered_lines() {
    assert_eq!(DataKind::Str(b("text")).render_bytes(), b("text"));
    assert_eq!(DataKind::Blob(vec![1u8, 2u8]).render_bytes(), vec![1u8, 2u8]);
    assert_eq!(
        DataKind::List(vec![DataKind::Str(b("x")), DataKind::Str(b("y"))]).render_bytes(),
        b("1) x\n2) y\n")
    );
    assert_eq!(
        DataKind::SetOf(vec![b("a"), b("b")]).render_bytes(),
        b("1) a\n2) b\n")
    );
    assert_eq!(
        DataKind::Hash(vec![(b("k"), b("v")), (b("k2"), b("v2"))]).render_bytes(),
        b("1) k: v\n2) k2: v2\n")
    );
    assert_eq!(
        DataKind::Sorted(vec![(5, b("m")), (-2, b("n"))]).render_bytes(),
        b("1) m (5)\n2) n (-2)\n")
    );
    assert_eq!(DataKind::List(Vec::new()).render_bytes(), Vec::<u8>::new());
}

#[test]
fn entry_fields_carry_metadata() {
    let e = Entry { value: DataKind::Str(b("v")), ttl: Some(1000), created_at: 5, last_accessed: 7 };
    assert_eq!(e.ttl, Some(1000));
    assert_eq!(e.created_at, 5);
    assert_eq!(e.last_accessed, 7);
    assert_eq!(e.value, DataKind::Str(b("v")));
}
