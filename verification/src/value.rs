//! The value model: the tagged value types a key can hold, and the entry
//! metadata (TTL, creation time, last access time) kept beside each value.
//!
//! Timestamps are milliseconds on a monotonic clock supplied by the caller;
//! a TTL is relative to the entry's creation time, so the absolute expiry
//! of an entry is `created_at + ttl`.

use vstd::prelude::*;

use crate::codec::copy_range;
use crate::codec::frame_view;
use crate::codec::frames_view;
use crate::codec::int_rep;
use crate::codec::dec_rep;
use crate::codec::push_all;
use crate::codec::push_i64_dec;
use crate::codec::push_u64_dec;
use crate::codec::Frame;
use crate::codec::FrameV;

verus! {

/// A stored value: opaque text, a binary blob, a list of nested values, a
/// set of unique members, a field-to-value hash, or a score-ordered set.
///
/// Scores are 64-bit signed integers; ordering on them is the ordinary
/// integer order.
#[derive(Debug, PartialEq, Eq)]
pub enum DataKind {
    /// Simple text, encoded to the wire as a status string.
    Str(Vec<u8>),
    /// A binary-safe value, encoded to the wire as a bulk string.
    Blob(Vec<u8>),
    /// An ordered list of nested values.
    List(Vec<DataKind>),
    /// Unique members, in insertion order.
    SetOf(Vec<Vec<u8>>),
    /// Field-to-value pairs with unique fields, in insertion order.
    Hash(Vec<(Vec<u8>, Vec<u8>)>),
    /// Score-to-member pairs, ordered by score.
    Sorted(Vec<(i64, Vec<u8>)>),
}

/// The mathematical model of a [`DataKind`].
pub enum ValueV {
    Str(Seq<u8>),
    Blob(Seq<u8>),
    List(Seq<ValueV>),
    SetOf(Seq<Seq<u8>>),
    Hash(Seq<(Seq<u8>, Seq<u8>)>),
    Sorted(Seq<(i64, Seq<u8>)>),
}

/// Model of a run of nested values, element by element.
pub open spec fn values_view(s: Seq<DataKind>) -> Seq<ValueV>
    decreases s,
{
    Seq::new(
        s.len(),
        |i: int|
            if 0 <= i < s.len() {
                value_view(s[i])
            } else {
                ValueV::Str(Seq::empty())
            },
    )
}

/// Model of a run of field-value pairs, element by element.
pub open spec fn pairs_view(s: Seq<(Vec<u8>, Vec<u8>)>) -> Seq<(Seq<u8>, Seq<u8>)> {
    Seq::new(s.len(), |i: int| (s[i].0@, s[i].1@))
}

/// Model of a stored value, element by element.
pub open spec fn value_view(v: DataKind) -> ValueV
    decreases v,
{
    match v {
        DataKind::Str(d) => ValueV::Str(d@),
        DataKind::Blob(d) => ValueV::Blob(d@),
        DataKind::List(vs) => ValueV::List(values_view(vs@)),
        DataKind::SetOf(ms) => ValueV::SetOf(Seq::new(ms@.len(), |i: int| ms@[i]@)),
        DataKind::Hash(ps) => ValueV::Hash(pairs_view(ps@)),
        DataKind::Sorted(es) => ValueV::Sorted(Seq::new(es@.len(), |i: int| (es@[i].0, es@[i].1@))),
    }
}

impl View for DataKind {
    type V = ValueV;

    open spec fn view(&self) -> ValueV {
        value_view(*self)
    }
}

/// No two slots of a pair run hold the same field.
pub open spec fn fields_unique(ps: Seq<(Seq<u8>, Seq<u8>)>) -> bool {
    forall|i: int, j: int|
        0 <= i < j < ps.len() ==> (#[trigger] ps[i]).0 != (#[trigger] ps[j]).0
}

/// The structural invariants of a stored value: set members are unique,
/// hash fields are unique, and a score-ordered set is sorted by score.
pub open spec fn value_wf(v: ValueV) -> bool
    decreases v,
{
    match v {
        ValueV::Str(d) => true,
        ValueV::Blob(d) => true,
        ValueV::List(vs) => forall|i: int| 0 <= i < vs.len() ==> value_wf(#[trigger] vs[i]),
        ValueV::SetOf(ms) => forall|i: int, j: int|
            0 <= i < j < ms.len() ==> ms[i] != ms[j],
        ValueV::Hash(ps) => fields_unique(ps),
        ValueV::Sorted(es) => forall|i: int, j: int|
            0 <= i < j < es.len() ==> (#[trigger] es[i]).0 <= (#[trigger] es[j]).0,
    }
}

/// One key's record in a partition store: the value and its metadata.
///
/// `ttl` is relative to `created_at`; absence of a TTL means the entry
/// never expires.  `last_accessed` is updated only by successful,
/// non-expired reads and by writes.
#[derive(Debug, PartialEq, Eq)]
pub struct Entry {
    pub value: DataKind,
    pub ttl: Option<u64>,
    pub created_at: u64,
    pub last_accessed: u64,
}

/// The mathematical model of an [`Entry`].
pub struct EntryV {
    pub value: ValueV,
    pub ttl: Option<u64>,
    pub created_at: u64,
    pub last_accessed: u64,
}

impl View for Entry {
    type V = EntryV;

    open spec fn view(&self) -> EntryV {
        EntryV {
            value: self.value@,
            ttl: self.ttl,
            created_at: self.created_at,
            last_accessed: self.last_accessed,
        }
    }
}

/// Whether the entry's absolute expiry has passed at time `now`: it carries
/// a TTL and `created_at + ttl <= now`.
pub open spec fn entry_expired(e: EntryV, now: u64) -> bool {
    e.ttl matches Some(t) && e.created_at + t <= now
}

/// The wire frame that presents a stored value: text and blobs become
/// string frames; lists, sets, hashes and score-ordered sets become arrays,
/// the keyed forms flattened to alternating key and value elements.
pub open spec fn value_frame(v: ValueV) -> FrameV
    decreases v,
{
    match v {
        ValueV::Str(d) => FrameV::Simple(d),
        ValueV::Blob(d) => FrameV::Bulk(d),
        ValueV::List(vs) => FrameV::Array(
            Seq::new(
                vs.len(),
                |i: int|
                    if 0 <= i < vs.len() {
                        value_frame(vs[i])
                    } else {
                        FrameV::Null
                    },
            ),
        ),
        ValueV::SetOf(ms) => FrameV::Array(Seq::new(ms.len(), |i: int| FrameV::Simple(ms[i]))),
        ValueV::Hash(ps) => FrameV::Array(
            Seq::new(
                2 * ps.len(),
                |i: int|
                    if i % 2 == 0 {
                        FrameV::Simple(ps[i / 2].0)
                    } else {
                        FrameV::Simple(ps[i / 2].1)
                    },
            ),
        ),
        ValueV::Sorted(es) => FrameV::Array(
            Seq::new(
                2 * es.len(),
                |i: int|
                    if i % 2 == 0 {
                        FrameV::Simple(int_rep(es[i / 2].0 as int))
                    } else {
                        FrameV::Simple(es[i / 2].1)
                    },
            ),
        ),
    }
}

impl DataKind {
    /// Present this value as its wire frame.
    pub fn to_bytes_frame(&self) -> (r: Frame)
        ensures
            r@ == value_frame(self@),
        decreases self,
    {
        match self {
            DataKind::Str(d) => {
                let c = copy_range(d, 0, d.len());
                proof {
                    assert(c@ =~= d@);
                }
                Frame::Simple(c)
            },
            DataKind::Blob(d) => {
                let c = copy_range(d, 0, d.len());
                proof {
                    assert(c@ =~= d@);
                }
                Frame::Bulk(c)
            },
            DataKind::List(vs) => {
                let ghost target: Seq<FrameV> = value_frame(self@)->Array_0;
                let mut out: Vec<Frame> = Vec::new();
                let mut i: usize = 0;
                while i < vs.len()
                    invariant
                        i <= vs@.len(),
                        *self == DataKind::List(*vs),
                        target == value_frame(self@)->Array_0,
                        target.len() == vs@.len(),
                        frames_view(out@) =~= target.subrange(0, i as int),
                        out@.len() == i,
                    decreases vs@.len() - i,
                {
                    proof {
                        assert(decreases_to!(*self => (*self)->List_0));
                        assert((*self)->List_0 == *vs);
                        assert(decreases_to!(*vs => vs@));
                        assert(decreases_to!(vs@ => vs@[i as int]));
                        assert(decreases_to!(*self => vs@[i as int]));
                    }
                    let elem = vs[i].to_bytes_frame();
                    proof {
                        crate::codec::lemma_frames_view_push(out@, elem);
                        assert(target[i as int] == value_frame(value_view(vs@[i as int])));
                    }
                    out.push(elem);
                    i = i + 1;
                    assert(frames_view(out@) =~= target.subrange(0, i as int));
                }
                proof {
                    assert(target.subrange(0, target.len() as int) =~= target);
                }
                Frame::Array(out)
            },
            DataKind::SetOf(ms) => {
                let ghost target: Seq<FrameV> = value_frame(self@)->Array_0;
                let mut out: Vec<Frame> = Vec::new();
                let mut i: usize = 0;
                while i < ms.len()
                    invariant
                        i <= ms@.len(),
                        *self == DataKind::SetOf(*ms),
                        target == value_frame(self@)->Array_0,
                        target.len() == ms@.len(),
                        frames_view(out@) =~= target.subrange(0, i as int),
                        out@.len() == i,
                    decreases ms@.len() - i,
                {
                    let m = &ms[i];
                    let c = copy_range(m, 0, m.len());
                    proof {
                        assert(c@ =~= ms@[i as int]@);
                    }
                    let elem = Frame::Simple(c);
                    proof {
                        assert(elem@ == target[i as int]);
                        crate::codec::lemma_frames_view_push(out@, elem);
                    }
                    out.push(elem);
                    i = i + 1;
                    assert(frames_view(out@) =~= target.subrange(0, i as int));
                }
                proof {
                    assert(target.subrange(0, target.len() as int) =~= target);
                }
                Frame::Array(out)
            },
            DataKind::Hash(ps) => {
                let ghost target: Seq<FrameV> = value_frame(self@)->Array_0;
                let mut out: Vec<Frame> = Vec::new();
                let mut i: usize = 0;
                while i < ps.len()
                    invariant
                        i <= ps@.len(),
                        *self == DataKind::Hash(*ps),
                        target == value_frame(self@)->Array_0,
                        target.len() == 2 * ps@.len(),
                        frames_view(out@) =~= target.subrange(0, 2 * i as int),
                        out@.len() == 2 * i,
                    decreases ps@.len() - i,
                {
                    let k = &ps[i].0;
                    let v = &ps[i].1;
                    let c0 = copy_range(k, 0, k.len());
                    let c1 = copy_range(v, 0, v.len());
                    proof {
                        assert(c0@ =~= ps@[i as int].0@);
                        assert(c1@ =~= ps@[i as int].1@);
                    }
                    let kf = Frame::Simple(c0);
                    let vf = Frame::Simple(c1);
                    proof {
                        assert((2 * i as int) % 2 == 0);
                        assert((2 * i as int) / 2 == i as int);
                        assert((2 * i + 1) % 2 == 1);
                        assert((2 * i + 1) / 2 == i as int);
                        assert(kf@ == target[2 * i as int]);
                        assert(vf@ == target[2 * i + 1]);
                        crate::codec::lemma_frames_view_push(out@, kf);
                        crate::codec::lemma_frames_view_push(out@.push(kf), vf);
                    }
                    out.push(kf);
                    out.push(vf);
                    i = i + 1;
                    assert(frames_view(out@) =~= target.subrange(0, 2 * i as int));
                }
                proof {
                    assert(target.subrange(0, target.len() as int) =~= target);
                }
                Frame::Array(out)
            },
            DataKind::Sorted(es) => {
                let ghost target: Seq<FrameV> = value_frame(self@)->Array_0;
                let mut out: Vec<Frame> = Vec::new();
                let mut i: usize = 0;
                while i < es.len()
                    invariant
                        i <= es@.len(),
                        *self == DataKind::Sorted(*es),
                        target == value_frame(self@)->Array_0,
                        target.len() == 2 * es@.len(),
                        frames_view(out@) =~= target.subrange(0, 2 * i as int),
                        out@.len() == 2 * i,
                    decreases es@.len() - i,
                {
                    let score: i64 = es[i].0;
                    let member = &es[i].1;
                    let mut sbytes: Vec<u8> = Vec::new();
                    push_i64_dec(&mut sbytes, score);
                    let cm = copy_range(member, 0, member.len());
                    proof {
                        assert(sbytes@ =~= int_rep(score as int));
                        assert(cm@ =~= es@[i as int].1@);
                    }
                    let sf = Frame::Simple(sbytes);
                    let mf = Frame::Simple(cm);
                    proof {
                        assert((2 * i as int) % 2 == 0);
                        assert((2 * i as int) / 2 == i as int);
                        assert((2 * i + 1) % 2 == 1);
                        assert((2 * i + 1) / 2 == i as int);
                        assert(sf@ == target[2 * i as int]);
                        assert(mf@ == target[2 * i + 1]);
                        crate::codec::lemma_frames_view_push(out@, sf);
                        crate::codec::lemma_frames_view_push(out@.push(sf), mf);
                    }
                    out.push(sf);
                    out.push(mf);
                    i = i + 1;
                    assert(frames_view(out@) =~= target.subrange(0, 2 * i as int));
                }
                proof {
                    assert(target.subrange(0, target.len() as int) =~= target);
                }
                Frame::Array(out)
            },
        }
    }
}

/// Whether every frame of the run is a simple string.
pub open spec fn all_simple(s: Seq<FrameV>) -> bool {
    forall|i: int| 0 <= i < s.len() ==> (#[trigger] s[i]) is Simple
}

/// The first slot holding field `k`, or the length when none does.
pub open spec fn find_field(m: Seq<(Seq<u8>, Seq<u8>)>, k: Seq<u8>) -> int
    decreases m.len(),
{
    if m.len() == 0 {
        0
    } else if m[0].0 == k {
        0
    } else {
        1 + find_field(m.drop_first(), k)
    }
}

/// Put `k -> v` into the pair run: replace the value in the slot that
/// already holds `k`, or append a new slot.
pub open spec fn hash_put(m: Seq<(Seq<u8>, Seq<u8>)>, k: Seq<u8>, v: Seq<u8>) -> Seq<
    (Seq<u8>, Seq<u8>),
> {
    let i = find_field(m, k);
    if i < m.len() {
        m.update(i, (k, v))
    } else {
        m.push((k, v))
    }
}

/// The field-value pairs that a run of simple-string frames denotes, read
/// two at a time, a later duplicate field replacing the earlier value.
pub open spec fn hash_of_pairs(s: Seq<FrameV>) -> Seq<(Seq<u8>, Seq<u8>)>
    recommends
        s.len() % 2 == 0,
        all_simple(s),
    decreases s.len(),
{
    if s.len() < 2 {
        Seq::empty()
    } else {
        hash_put(
            hash_of_pairs(s.drop_last().drop_last()),
            s[s.len() - 2]->Simple_0,
            s[s.len() - 1]->Simple_0,
        )
    }
}

/// The nested values that a run of frames denotes, or nothing when some
/// frame denotes no value.
pub open spec fn list_of_frames(s: Seq<FrameV>) -> Option<Seq<ValueV>>
    decreases s,
{
    if s.len() == 0 {
        Option::Some(Seq::empty())
    } else {
        match value_of_frame(s[0]) {
            Option::None => Option::None,
            Option::Some(v) => match list_of_frames(s.drop_first()) {
                Option::None => Option::None,
                Option::Some(rest) => Option::Some(seq![v] + rest),
            },
        }
    }
}

/// The stored value a reply-shaped frame denotes, if any: strings map back
/// to text and blobs, and an array maps to a hash when it alternates
/// simple-string fields and values an even number of times, else to a list
/// of nested values.
pub open spec fn value_of_frame(f: FrameV) -> Option<ValueV>
    decreases f,
{
    match f {
        FrameV::Simple(d) => Option::Some(ValueV::Str(d)),
        FrameV::Bulk(d) => Option::Some(ValueV::Blob(d)),
        FrameV::Array(s) => if s.len() % 2 == 0 && all_simple(s) {
            Option::Some(ValueV::Hash(hash_of_pairs(s)))
        } else {
            match list_of_frames(s) {
                Option::None => Option::None,
                Option::Some(vs) => Option::Some(ValueV::List(vs)),
            }
        },
        _ => Option::None,
    }
}

/// A run of values, glued onto the outcome of the rest of a run.
pub open spec fn list_combine(prefix: Seq<ValueV>, o: Option<Seq<ValueV>>) -> Option<Seq<ValueV>> {
    match o {
        Option::None => Option::None,
        Option::Some(rest) => Option::Some(prefix + rest),
    }
}

proof fn lemma_list_combine_assoc(a: Seq<ValueV>, x: ValueV, o: Option<Seq<ValueV>>)
    ensures
        list_combine(a, list_combine(seq![x], o)) == list_combine(a.push(x), o),
{
    match o {
        Option::Some(rest) => {
            assert(a + (seq![x] + rest) =~= a.push(x) + rest);
        },
        _ => {},
    }
}

proof fn lemma_values_view_push(s: Seq<DataKind>, v: DataKind)
    ensures
        values_view(s.push(v)) == values_view(s).push(value_view(v)),
{
    assert(values_view(s.push(v)) =~= values_view(s).push(value_view(v)));
}

/// The first slot holding `k` stands exactly where a left-to-right scan
/// stops.
proof fn lemma_find_field_at(m: Seq<(Seq<u8>, Seq<u8>)>, k: Seq<u8>, i: int)
    requires
        0 <= i <= m.len(),
        forall|j: int| 0 <= j < i ==> (#[trigger] m[j]).0 != k,
        i == m.len() || m[i].0 == k,
    ensures
        find_field(m, k) == i,
    decreases i,
{
    if i > 0 {
        assert(forall|j: int| 0 <= j < i - 1 ==> (#[trigger] m.drop_first()[j]) == m[j + 1]);
        if i < m.len() {
            assert(m.drop_first()[i - 1] == m[i]);
        }
        lemma_find_field_at(m.drop_first(), k, i - 1);
    }
}

/// Put `k -> v` into the pair slots, as [`hash_put`] reads it.
fn vec_hash_put(m: &mut Vec<(Vec<u8>, Vec<u8>)>, k: Vec<u8>, v: Vec<u8>)
    ensures
        pairs_view(final(m)@) == hash_put(pairs_view(old(m)@), k@, v@),
{
    let ghost pv: Seq<(Seq<u8>, Seq<u8>)> = pairs_view(m@);
    let mut j: usize = 0;
    while j < m.len()
        invariant
            j <= m@.len(),
            m@ == old(m)@,
            pv == pairs_view(m@),
            pv.len() == m@.len(),
            forall|jj: int| 0 <= jj < j ==> (#[trigger] pv[jj]).0 != k@,
        decreases m@.len() - j,
    {
        if crate::store::bytes_eq(&m[j].0, &k) {
            proof {
                lemma_find_field_at(pv, k@, j as int);
            }
            let ghost pre: Seq<(Vec<u8>, Vec<u8>)> = m@;
            m.remove(j);
            m.insert(j, (k, v));
            proof {
                assert(pairs_view(m@) =~= hash_put(pv, k@, v@));
            }
            return ;
        }
        proof {
            assert(pv[j as int].0 == m@[j as int].0@);
        }
        j = j + 1;
    }
    proof {
        lemma_find_field_at(pv, k@, m@.len() as int);
    }
    m.push((k, v));
    proof {
        assert(pairs_view(m@) =~= hash_put(pv, k@, v@));
    }
}

impl DataKind {
    /// Read a reply-shaped frame back into a stored value, if it denotes
    /// one, as [`value_of_frame`] reads it.
    pub fn from_bytes_frame(frame: &Frame) -> (r: Option<DataKind>)
        ensures
            match r {
                Option::None => value_of_frame(frame@) is None,
                Option::Some(v) => value_of_frame(frame@) == Option::Some(v@),
            },
        decreases frame,
    {
        match frame {
            Frame::Simple(d) => {
                let c = copy_range(d, 0, d.len());
                proof {
                    assert(c@ =~= d@);
                }
                Option::Some(DataKind::Str(c))
            },
            Frame::Bulk(d) => {
                let c = copy_range(d, 0, d.len());
                proof {
                    assert(c@ =~= d@);
                }
                Option::Some(DataKind::Blob(c))
            },
            Frame::Array(elems) => {
                let ghost fs: Seq<FrameV> = frames_view(elems@);
                // Decide the shape: an even run of simple strings is a hash.
                let mut all_simple_run: bool = true;
                let mut i: usize = 0;
                while i < elems.len()
                    invariant
                        i <= elems@.len(),
                        fs == frames_view(elems@),
                        fs.len() == elems@.len(),
                        all_simple_run == (forall|j: int| 0 <= j < i ==> (#[trigger] fs[j]) is Simple),
                    decreases elems@.len() - i,
                {
                    proof {
                        assert(fs[i as int] == frame_view(elems@[i as int]));
                    }
                    let this_simple: bool = match &elems[i] {
                        Frame::Simple(_) => true,
                        _ => false,
                    };
                    all_simple_run = all_simple_run && this_simple;
                    i = i + 1;
                }
                if elems.len() % 2 == 0 && all_simple_run {
                    proof {
                        assert(all_simple(fs));
                    }
                    let pairs: usize = elems.len() / 2;
                    let mut m: Vec<(Vec<u8>, Vec<u8>)> = Vec::new();
                    let mut p: usize = 0;
                    while p < pairs
                        invariant
                            p <= pairs,
                            pairs == elems@.len() / 2,
                            elems@.len() % 2 == 0,
                            fs == frames_view(elems@),
                            fs.len() == elems@.len(),
                            all_simple(fs),
                            pairs_view(m@) == hash_of_pairs(fs.subrange(0, 2 * p as int)),
                        decreases pairs - p,
                    {
                        proof {
                            assert(elems.len() == elems@.len());
                            assert(2 * p + 1 < elems@.len());
                            assert(fs[2 * p as int] == frame_view(elems@[2 * p as int]));
                            assert(fs[2 * p + 1] == frame_view(elems@[2 * p + 1]));
                        }
                        let kf: &Vec<u8> = match &elems[2 * p] {
                            Frame::Simple(d) => d,
                            _ => {
                                proof {
                                    assert(false);
                                }
                                return Option::None;
                            },
                        };
                        let vf: &Vec<u8> = match &elems[2 * p + 1] {
                            Frame::Simple(d) => d,
                            _ => {
                                proof {
                                    assert(false);
                                }
                                return Option::None;
                            },
                        };
                        let kc = copy_range(kf, 0, kf.len());
                        let vc = copy_range(vf, 0, vf.len());
                        proof {
                            assert(kc@ =~= kf@);
                            assert(vc@ =~= vf@);
                            let s2 = fs.subrange(0, 2 * p + 2);
                            assert(s2.drop_last().drop_last() =~= fs.subrange(0, 2 * p as int));
                            assert(s2[s2.len() - 2] == fs[2 * p as int]);
                            assert(s2[s2.len() - 1] == fs[2 * p + 1]);
                        }
                        vec_hash_put(&mut m, kc, vc);
                        p = p + 1;
                    }
                    proof {
                        assert(fs.subrange(0, 2 * ((elems@.len() / 2) as int)) =~= fs);
                    }
                    Option::Some(DataKind::Hash(m))
                } else {
                    proof {
                        if elems@.len() % 2 == 0 {
                            assert(!all_simple(fs));
                        }
                    }
                    let mut acc: Vec<DataKind> = Vec::new();
                    let mut i2: usize = 0;
                    proof {
                        assert(fs.skip(0) =~= fs);
                        assert(values_view(acc@) =~= Seq::<ValueV>::empty());
                        assert(list_combine(Seq::<ValueV>::empty(), list_of_frames(fs))
                            == list_of_frames(fs));
                    }
                    while i2 < elems.len()
                        invariant
                            i2 <= elems@.len(),
                            *frame == Frame::Array(*elems),
                            fs == frames_view(elems@),
                            fs.len() == elems@.len(),
                            acc@.len() == i2,
                            list_of_frames(fs) == list_combine(
                                values_view(acc@),
                                list_of_frames(fs.skip(i2 as int)),
                            ),
                        decreases elems@.len() - i2,
                    {
                        proof {
                            assert(fs[i2 as int] == frame_view(elems@[i2 as int]));
                            assert(fs.skip(i2 as int)[0] == fs[i2 as int]);
                            assert(fs.skip(i2 as int).drop_first() =~= fs.skip(i2 + 1));
                            assert(decreases_to!(*frame => (*frame)->Array_0));
                            assert((*frame)->Array_0 == *elems);
                            assert(decreases_to!(*elems => elems@));
                            assert(decreases_to!(elems@ => elems@[i2 as int]));
                            assert(decreases_to!(*frame => elems@[i2 as int]));
                        }
                        let sub = DataKind::from_bytes_frame(&elems[i2]);
                        match sub {
                            Option::None => {
                                return Option::None;
                            },
                            Option::Some(v) => {
                                proof {
                                    lemma_list_combine_assoc(
                                        values_view(acc@),
                                        v@,
                                        list_of_frames(fs.skip(i2 + 1)),
                                    );
                                    lemma_values_view_push(acc@, v);
                                }
                                acc.push(v);
                                i2 = i2 + 1;
                            },
                        }
                    }
                    proof {
                        assert(fs.skip(fs.len() as int) =~= Seq::<FrameV>::empty());
                        assert(values_view(acc@) + Seq::<ValueV>::empty() =~= values_view(acc@));
                    }
                    Option::Some(DataKind::List(acc))
                }
            },
            _ => Option::None,
        }
    }
}

/// One numbered line of a rendering: the one-based index, a closing
/// parenthesis and a space, the body, and a line feed.
pub open spec fn render_line(n: nat, body: Seq<u8>) -> Seq<u8> {
    dec_rep(n) + seq![41u8, 32u8] + body + seq![10u8]
}

/// The numbered lines of a list's items, from item `i` on.
pub open spec fn render_list_from(vs: Seq<ValueV>, i: int) -> Seq<u8>
    decreases vs, vs.len() - i,
{
    if i < 0 || i >= vs.len() {
        Seq::empty()
    } else {
        render_line((i + 1) as nat, render_val(vs[i])) + render_list_from(vs, i + 1)
    }
}

/// The numbered lines of a set's members, from member `i` on.
pub open spec fn render_members_from(ms: Seq<Seq<u8>>, i: int) -> Seq<u8>
    decreases ms.len() - i,
{
    if i < 0 || i >= ms.len() {
        Seq::empty()
    } else {
        render_line((i + 1) as nat, ms[i]) + render_members_from(ms, i + 1)
    }
}

/// The numbered "field: value" lines of a hash, from pair `i` on.
pub open spec fn render_pairs_from(ps: Seq<(Seq<u8>, Seq<u8>)>, i: int) -> Seq<u8>
    decreases ps.len() - i,
{
    if i < 0 || i >= ps.len() {
        Seq::empty()
    } else {
        render_line((i + 1) as nat, ps[i].0 + seq![58u8, 32u8] + ps[i].1) + render_pairs_from(
            ps,
            i + 1,
        )
    }
}

/// The numbered "member (score)" lines of a score-ordered set, from pair
/// `i` on.
pub open spec fn render_scored_from(es: Seq<(i64, Seq<u8>)>, i: int) -> Seq<u8>
    decreases es.len() - i,
{
    if i < 0 || i >= es.len() {
        Seq::empty()
    } else {
        render_line(
            (i + 1) as nat,
            es[i].1 + seq![32u8, 40u8] + int_rep(es[i].0 as int) + seq![41u8],
        ) + render_scored_from(es, i + 1)
    }
}

/// A human-readable rendering of a stored value: text and blobs as their
/// bytes, and every keyed or ordered form as numbered lines.
pub open spec fn render_val(v: ValueV) -> Seq<u8>
    decreases v,
{
    match v {
        ValueV::Str(d) => d,
        ValueV::Blob(d) => d,
        ValueV::List(vs) => render_list_from(vs, 0),
        ValueV::SetOf(ms) => render_members_from(ms, 0),
        ValueV::Hash(ps) => render_pairs_from(ps, 0),
        ValueV::Sorted(es) => render_scored_from(es, 0),
    }
}

impl DataKind {
    /// Render this value as human-readable bytes, as [`render_val`] reads
    /// it.
    pub fn render_bytes(&self) -> (r: Vec<u8>)
        ensures
            r@ == render_val(self@),
        decreases self,
    {
        let mut out: Vec<u8> = Vec::new();
        match self {
            DataKind::Str(d) => {
                push_all(&mut out, d.as_slice());
                proof {
                    assert(out@ =~= render_val(self@));
                }
            },
            DataKind::Blob(d) => {
                push_all(&mut out, d.as_slice());
                proof {
                    assert(out@ =~= render_val(self@));
                }
            },
            DataKind::List(vs) => {
                let ghost target: Seq<ValueV> = value_view(*self)->List_0;
                let mut i: usize = 0;
                proof {
                    assert(render_list_from(target, 0) == render_val(self@));
                }
                while i < vs.len()
                    invariant
                        i <= vs@.len(),
                        *self == DataKind::List(*vs),
                        target == value_view(*self)->List_0,
                        target.len() == vs@.len(),
                        render_val(self@) == out@ + render_list_from(target, i as int),
                    decreases vs@.len() - i,
                {
                    proof {
                        assert(decreases_to!(*self => (*self)->List_0));
                        assert((*self)->List_0 == *vs);
                        assert(decreases_to!(*vs => vs@));
                        assert(decreases_to!(vs@ => vs@[i as int]));
                        assert(decreases_to!(*self => vs@[i as int]));
                        assert(target[i as int] == value_view(vs@[i as int]));
                    }
                    let ghost pre: Seq<u8> = out@;
                    push_u64_dec(&mut out, (i + 1) as u64);
                    out.push(41u8);
                    out.push(32u8);
                    let body = vs[i].render_bytes();
                    push_all(&mut out, body.as_slice());
                    out.push(10u8);
                    i = i + 1;
                    proof {
                        assert(out@ =~= pre + render_line(i as nat, render_val(target[i - 1])));
                        assert(render_val(self@) =~= out@ + render_list_from(target, i as int));
                    }
                }
            },
            DataKind::SetOf(ms) => {
                let ghost target: Seq<Seq<u8>> = value_view(*self)->SetOf_0;
                let mut i: usize = 0;
                while i < ms.len()
                    invariant
                        i <= ms@.len(),
                        *self == DataKind::SetOf(*ms),
                        target == value_view(*self)->SetOf_0,
                        target.len() == ms@.len(),
                        render_val(self@) == out@ + render_members_from(target, i as int),
                    decreases ms@.len() - i,
                {
                    proof {
                        assert(target[i as int] == ms@[i as int]@);
                    }
                    let ghost pre: Seq<u8> = out@;
                    push_u64_dec(&mut out, (i + 1) as u64);
                    out.push(41u8);
                    out.push(32u8);
                    push_all(&mut out, ms[i].as_slice());
                    out.push(10u8);
                    i = i + 1;
                    proof {
                        assert(out@ =~= pre + render_line(i as nat, target[i - 1]));
                        assert(render_val(self@) =~= out@ + render_members_from(target, i as int));
                    }
                }
            },
            DataKind::Hash(ps) => {
                let ghost target: Seq<(Seq<u8>, Seq<u8>)> = value_view(*self)->Hash_0;
                let mut i: usize = 0;
                while i < ps.len()
                    invariant
                        i <= ps@.len(),
                        *self == DataKind::Hash(*ps),
                        target == value_view(*self)->Hash_0,
                        target.len() == ps@.len(),
                        render_val(self@) == out@ + render_pairs_from(target, i as int),
                    decreases ps@.len() - i,
                {
                    proof {
                        assert(target[i as int] == (ps@[i as int].0@, ps@[i as int].1@));
                    }
                    let ghost pre: Seq<u8> = out@;
                    push_u64_dec(&mut out, (i + 1) as u64);
                    out.push(41u8);
                    out.push(32u8);
                    push_all(&mut out, ps[i].0.as_slice());
                    out.push(58u8);
                    out.push(32u8);
                    push_all(&mut out, ps[i].1.as_slice());
                    out.push(10u8);
                    i = i + 1;
                    proof {
                        assert(out@ =~= pre + render_line(
                            i as nat,
                            target[i - 1].0 + seq![58u8, 32u8] + target[i - 1].1,
                        ));
                        assert(render_val(self@) =~= out@ + render_pairs_from(target, i as int));
                    }
                }
            },
            DataKind::Sorted(es) => {
                let ghost target: Seq<(i64, Seq<u8>)> = value_view(*self)->Sorted_0;
                let mut i: usize = 0;
                while i < es.len()
                    invariant
                        i <= es@.len(),
                        *self == DataKind::Sorted(*es),
                        target == value_view(*self)->Sorted_0,
                        target.len() == es@.len(),
                        render_val(self@) == out@ + render_scored_from(target, i as int),
                    decreases es@.len() - i,
                {
                    proof {
                        assert(target[i as int] == (es@[i as int].0, es@[i as int].1@));
                    }
                    let ghost pre: Seq<u8> = out@;
                    push_u64_dec(&mut out, (i + 1) as u64);
                    out.push(41u8);
                    out.push(32u8);
                    push_all(&mut out, es[i].1.as_slice());
                    out.push(32u8);
                    out.push(40u8);
                    push_i64_dec(&mut out, es[i].0);
                    out.push(41u8);
                    out.push(10u8);
                    i = i + 1;
                    proof {
                        assert(out@ =~= pre + render_line(
                            i as nat,
                            target[i - 1].1 + seq![32u8, 40u8] + int_rep(target[i - 1].0 as int)
                                + seq![41u8],
                        ));
                        assert(render_val(self@) =~= out@ + render_scored_from(target, i as int));
                    }
                }
            },
        }
        out
    }
}

/// Where the first slot holding `k` stands: nothing before it holds `k`,
/// and it holds `k` when it is in range.
proof fn lemma_find_field_props(m: Seq<(Seq<u8>, Seq<u8>)>, k: Seq<u8>)
    ensures
        0 <= find_field(m, k) <= m.len(),
        find_field(m, k) < m.len() ==> m[find_field(m, k)].0 == k,
        forall|j: int| 0 <= j < find_field(m, k) ==> (#[trigger] m[j]).0 != k,
    decreases m.len(),
{
    if m.len() > 0 && m[0].0 != k {
        lemma_find_field_props(m.drop_first(), k);
        let d = m.drop_first();
        let p = find_field(m, k);
        assert(p == 1 + find_field(d, k));
        if p < m.len() {
            assert(d[p - 1] == m[p]);
        }
        assert forall|j: int| 0 <= j < p implies (#[trigger] m[j]).0 != k by {
            if j >= 1 {
                assert(d[j - 1] == m[j]);
            }
        }
    }
}

/// Putting a field into a run of unique fields keeps the fields unique.
proof fn lemma_hash_put_unique(m: Seq<(Seq<u8>, Seq<u8>)>, k: Seq<u8>, v: Seq<u8>)
    requires
        fields_unique(m),
    ensures
        fields_unique(hash_put(m, k, v)),
{
    lemma_find_field_props(m, k);
    let p = find_field(m, k);
    if p < m.len() {
        let m2 = m.update(p, (k, v));
        assert forall|i: int, j: int| 0 <= i < j < m2.len() implies (#[trigger] m2[i]).0 != (
        #[trigger] m2[j]).0 by {
            assert(fields_unique(m));
            if i != p && j != p {
                assert(m2[i] == m[i] && m2[j] == m[j]);
            } else if i == p {
                assert(m2[i].0 == k);
                assert(k == m[p].0);
                assert(m2[j] == m[j]);
            } else {
                assert(m2[j].0 == k);
                assert(k == m[p].0);
                assert(m2[i] == m[i]);
            }
        }
    } else {
        let m2 = m.push((k, v));
        assert forall|i: int, j: int| 0 <= i < j < m2.len() implies (#[trigger] m2[i]).0 != (
        #[trigger] m2[j]).0 by {
            if j == m.len() {
                assert(m2[i] == m[i]);
                assert(m2[j].0 == k);
            } else {
                assert(m2[i] == m[i] && m2[j] == m[j]);
            }
        }
    }
}

/// A hash read back from alternating field and value frames has unique
/// fields.
pub proof fn lemma_hash_of_pairs_wf(s: Seq<FrameV>)
    ensures
        value_wf(ValueV::Hash(hash_of_pairs(s))),
    decreases s.len(),
{
    if s.len() >= 2 {
        lemma_hash_of_pairs_wf(s.drop_last().drop_last());
        let prev = hash_of_pairs(s.drop_last().drop_last());
        assert(value_wf(ValueV::Hash(prev)));
        lemma_hash_put_unique(prev, s[s.len() - 2]->Simple_0, s[s.len() - 1]->Simple_0);
        assert(hash_of_pairs(s) == hash_put(
            prev,
            s[s.len() - 2]->Simple_0,
            s[s.len() - 1]->Simple_0,
        ));
    }
}

/// Every value read back from a frame satisfies the value invariants.
pub proof fn lemma_value_of_frame_wf(f: FrameV)
    ensures
        value_of_frame(f) matches Some(v) ==> value_wf(v),
    decreases f,
{
    match f {
        FrameV::Array(s) => {
            if s.len() % 2 == 0 && all_simple(s) {
                lemma_hash_of_pairs_wf(s);
            } else {
                lemma_list_of_frames_wf(s);
            }
        },
        _ => {},
    }
}

/// Every value in a run read back from frames satisfies the value
/// invariants.
proof fn lemma_list_of_frames_wf(s: Seq<FrameV>)
    ensures
        list_of_frames(s) matches Some(vs) ==> forall|i: int|
            0 <= i < vs.len() ==> value_wf(#[trigger] vs[i]),
    decreases s,
{
    if s.len() > 0 {
        lemma_value_of_frame_wf(s[0]);
        lemma_list_of_frames_wf(s.drop_first());
        match list_of_frames(s) {
            Option::Some(vs) => {
                let v0 = value_of_frame(s[0])->Some_0;
                let rest = list_of_frames(s.drop_first())->Some_0;
                assert(vs == seq![v0] + rest);
                assert(forall|i: int| 1 <= i < vs.len() ==> #[trigger] vs[i] == rest[i - 1]);
                assert(vs[0] == v0);
            },
            Option::None => {},
        }
    }
}

} // verus!
