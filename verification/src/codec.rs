//! The wire codec: a stateless framer for the binary request/response
//! protocol.
//!
//! A frame is a simple status string, an error string, a signed integer, a
//! binary-safe bulk string, a null marker, or an array of frames.  Every
//! frame has exactly one wire representation, given by [`frame_bytes`];
//! [`encode_frame`] produces it and the decoder in this module parses it
//! back from the front of a byte buffer.

use vstd::prelude::*;

verus! {

/// One self-delimited unit of the wire protocol.
#[derive(Debug, PartialEq, Eq)]
pub enum Frame {
    /// A simple status string; the payload must not contain CR or LF.
    Simple(Vec<u8>),
    /// An error string; the payload must not contain CR or LF.
    Error(Vec<u8>),
    /// A signed 64-bit integer.
    Integer(i64),
    /// A binary-safe string.
    Bulk(Vec<u8>),
    /// The null marker.
    Null,
    /// An ordered sequence of frames.
    Array(Vec<Frame>),
}

/// The mathematical model of a [`Frame`].
pub enum FrameV {
    Simple(Seq<u8>),
    Error(Seq<u8>),
    Integer(int),
    Bulk(Seq<u8>),
    Null,
    Array(Seq<FrameV>),
}

/// Model of a frame: payload byte vectors become sequences, element by
/// element.
pub open spec fn frame_view(f: Frame) -> FrameV
    decreases f,
{
    match f {
        Frame::Simple(d) => FrameV::Simple(d@),
        Frame::Error(d) => FrameV::Error(d@),
        Frame::Integer(i) => FrameV::Integer(i as int),
        Frame::Bulk(d) => FrameV::Bulk(d@),
        Frame::Null => FrameV::Null,
        Frame::Array(v) => FrameV::Array(frames_view(v@)),
    }
}

/// Model of a run of frames, element by element.
pub open spec fn frames_view(s: Seq<Frame>) -> Seq<FrameV>
    decreases s,
{
    Seq::new(
        s.len(),
        |i: int|
            if 0 <= i < s.len() {
                frame_view(s[i])
            } else {
                FrameV::Null
            },
    )
}

impl View for Frame {
    type V = FrameV;

    open spec fn view(&self) -> FrameV {
        frame_view(*self)
    }
}

/// Whether a status or error payload can sit on a protocol line: it may not
/// contain CR or LF, which terminate the line.
pub open spec fn line_ok(d: Seq<u8>) -> bool {
    forall|i: int| 0 <= i < d.len() ==> d[i] != 13 && d[i] != 10
}

/// Well-formed frames: the ones this store produces and accepts.  Integer
/// values fit in 64 bits, payload and array lengths fit in 32 bits, and
/// line-oriented payloads contain no line terminator.
pub open spec fn frame_wf(f: FrameV) -> bool
    decreases f,
{
    match f {
        FrameV::Simple(d) => line_ok(d),
        FrameV::Error(d) => line_ok(d),
        FrameV::Integer(i) => i64::MIN <= i <= i64::MAX,
        FrameV::Bulk(d) => d.len() <= u32::MAX,
        FrameV::Null => true,
        FrameV::Array(s) => s.len() <= u32::MAX && forall|i: int|
            0 <= i < s.len() ==> frame_wf(#[trigger] s[i]),
    }
}

/// The shortest decimal form of `n`: no sign, no leading zero.
pub open spec fn dec_rep(n: nat) -> Seq<u8>
    decreases n,
{
    if n < 10 {
        seq![(48 + n) as u8]
    } else {
        dec_rep(n / 10).push((48 + (n % 10)) as u8)
    }
}

/// The shortest decimal form of `i`, with a leading minus sign when
/// negative.
pub open spec fn int_rep(i: int) -> Seq<u8> {
    if i < 0 {
        seq![45u8] + dec_rep((-i) as nat)
    } else {
        dec_rep(i as nat)
    }
}

/// The wire representation of one frame.
pub open spec fn frame_bytes(f: FrameV) -> Seq<u8>
    decreases f,
{
    match f {
        FrameV::Simple(d) => seq![43u8] + d + seq![13u8, 10u8],
        FrameV::Error(d) => seq![45u8] + d + seq![13u8, 10u8],
        FrameV::Integer(i) => seq![58u8] + int_rep(i) + seq![13u8, 10u8],
        FrameV::Bulk(d) => seq![36u8] + dec_rep(d.len()) + seq![13u8, 10u8] + d + seq![13u8, 10u8],
        FrameV::Null => seq![36u8, 45u8, 49u8, 13u8, 10u8],
        FrameV::Array(s) => seq![42u8] + dec_rep(s.len()) + seq![13u8, 10u8] + frames_bytes(s),
    }
}

/// The wire representations of a run of frames, in order.
pub open spec fn frames_bytes(s: Seq<FrameV>) -> Seq<u8>
    decreases s,
{
    if s.len() == 0 {
        Seq::empty()
    } else {
        frame_bytes(s[0]) + frames_bytes(s.drop_first())
    }
}

/// Appending a frame to a run appends its bytes.
pub proof fn lemma_frames_bytes_push(s: Seq<FrameV>, f: FrameV)
    ensures
        frames_bytes(s.push(f)) == frames_bytes(s) + frame_bytes(f),
    decreases s,
{
    if s.len() == 0 {
        let s1 = s.push(f);
        assert(s1.len() == 1);
        assert(s1.drop_first() =~= Seq::empty());
        assert(s1[0] == f);
        assert(frames_bytes(s1) == frame_bytes(s1[0]) + frames_bytes(s1.drop_first()));
        assert(frames_bytes(Seq::<FrameV>::empty()) == Seq::<u8>::empty());
        assert(frames_bytes(s.push(f)) =~= frame_bytes(f));
        assert(frames_bytes(s) + frame_bytes(f) =~= frame_bytes(f));
    } else {
        assert(s.push(f).drop_first() =~= s.drop_first().push(f));
        lemma_frames_bytes_push(s.drop_first(), f);
        assert(frames_bytes(s.push(f)) =~= frames_bytes(s) + frame_bytes(f));
    }
}

/// What decoding one frame from position `pos` of a buffer yields: more
/// bytes are needed, the bytes cannot begin a frame, or a frame together
/// with the position just past it.
pub enum DecodeOutcome {
    Incomplete,
    Malformed,
    Done(FrameV, int),
}

/// What decoding a run of frames yields.
pub enum ElemsOutcome {
    Incomplete,
    Malformed,
    Done(Seq<FrameV>, int),
}

/// What scanning for one CRLF-terminated line yields: the payload before
/// the terminator and the position just past it.
pub enum LineOut {
    Incomplete,
    Malformed,
    Done(Seq<u8>, int),
}

/// Number of bytes from `from` up to the first CR, or up to the end of the
/// buffer when no CR follows.
pub open spec fn cr_dist(buf: Seq<u8>, from: int) -> nat
    decreases buf.len() - from,
{
    if from < 0 || from >= buf.len() {
        0
    } else if buf[from] == 13 {
        0
    } else {
        1 + cr_dist(buf, from + 1)
    }
}

/// One CRLF-terminated line starting at `from`: its payload runs to the
/// first CR, which must be directly followed by LF.
pub open spec fn spec_line(buf: Seq<u8>, from: int) -> LineOut {
    let cr = from + cr_dist(buf, from);
    if cr + 1 >= buf.len() {
        LineOut::Incomplete
    } else if buf[cr + 1] != 10 {
        LineOut::Malformed
    } else {
        LineOut::Done(buf.subrange(from, cr), cr + 2)
    }
}

pub open spec fn is_digit(b: u8) -> bool {
    48 <= b <= 57
}

pub open spec fn all_digits(s: Seq<u8>) -> bool {
    forall|i: int| 0 <= i < s.len() ==> is_digit(#[trigger] s[i])
}

/// Value of a run of decimal digits.
pub open spec fn seq_dec_val(s: Seq<u8>) -> int
    recommends
        all_digits(s),
    decreases s.len(),
{
    if s.len() == 0 {
        0
    } else {
        seq_dec_val(s.drop_last()) * 10 + (s.last() - 48)
    }
}

pub open spec fn pow10(n: nat) -> nat
    decreases n,
{
    if n == 0 {
        1
    } else {
        10 * pow10((n - 1) as nat)
    }
}

/// A length field: one to ten digits, worth at most `u32::MAX`.
pub open spec fn parse_len(s: Seq<u8>) -> Option<int> {
    if s.len() == 0 || s.len() > 10 || !all_digits(s) {
        Option::None
    } else if seq_dec_val(s) > u32::MAX {
        Option::None
    } else {
        Option::Some(seq_dec_val(s))
    }
}

/// An integer field: an optional minus sign and one to nineteen digits,
/// worth a 64-bit signed value.
pub open spec fn parse_int(s: Seq<u8>) -> Option<int> {
    let neg = s.len() > 0 && s[0] == 45;
    let ds = if neg {
        s.drop_first()
    } else {
        s
    };
    if ds.len() == 0 || ds.len() > 19 || !all_digits(ds) {
        Option::None
    } else if neg {
        if seq_dec_val(ds) > 0x8000_0000_0000_0000 {
            Option::None
        } else {
            Option::Some(-seq_dec_val(ds))
        }
    } else {
        if seq_dec_val(ds) > 0x7fff_ffff_ffff_ffff {
            Option::None
        } else {
            Option::Some(seq_dec_val(ds))
        }
    }
}

/// The null marker's length field.
pub open spec fn is_null_len(s: Seq<u8>) -> bool {
    s =~= seq![45u8, 49u8]
}

/// Decode one frame from position `pos` of `buf`.
///
/// This is the grammar of the wire protocol: the byte at `pos` names the
/// frame kind, a CRLF-terminated header follows, and bulk strings and
/// arrays continue with their payload.  A negative-one length field in a
/// bulk-string or array header denotes the null marker.
pub open spec fn spec_decode(buf: Seq<u8>, pos: int) -> DecodeOutcome
    decreases buf.len() - pos, 0int,
{
    if !(0 <= pos < buf.len()) {
        DecodeOutcome::Incomplete
    } else {
        let t = buf[pos];
        if t == 43 || t == 45 {
            match spec_line(buf, pos + 1) {
                LineOut::Incomplete => DecodeOutcome::Incomplete,
                LineOut::Malformed => DecodeOutcome::Malformed,
                LineOut::Done(payload, end) => if t == 43 {
                    DecodeOutcome::Done(FrameV::Simple(payload), end)
                } else {
                    DecodeOutcome::Done(FrameV::Error(payload), end)
                },
            }
        } else if t == 58 {
            match spec_line(buf, pos + 1) {
                LineOut::Incomplete => DecodeOutcome::Incomplete,
                LineOut::Malformed => DecodeOutcome::Malformed,
                LineOut::Done(payload, end) => match parse_int(payload) {
                    Option::None => DecodeOutcome::Malformed,
                    Option::Some(i) => DecodeOutcome::Done(FrameV::Integer(i), end),
                },
            }
        } else if t == 36 {
            match spec_line(buf, pos + 1) {
                LineOut::Incomplete => DecodeOutcome::Incomplete,
                LineOut::Malformed => DecodeOutcome::Malformed,
                LineOut::Done(payload, end) => if is_null_len(payload) {
                    DecodeOutcome::Done(FrameV::Null, end)
                } else {
                    match parse_len(payload) {
                        Option::None => DecodeOutcome::Malformed,
                        Option::Some(n) => if end + n + 2 > buf.len() {
                            DecodeOutcome::Incomplete
                        } else if buf[end + n] != 13 || buf[end + n + 1] != 10 {
                            DecodeOutcome::Malformed
                        } else {
                            DecodeOutcome::Done(
                                FrameV::Bulk(buf.subrange(end, end + n)),
                                end + n + 2,
                            )
                        },
                    }
                },
            }
        } else if t == 42 {
            match spec_line(buf, pos + 1) {
                LineOut::Incomplete => DecodeOutcome::Incomplete,
                LineOut::Malformed => DecodeOutcome::Malformed,
                LineOut::Done(payload, end) => if is_null_len(payload) {
                    DecodeOutcome::Done(FrameV::Null, end)
                } else {
                    match parse_len(payload) {
                        Option::None => DecodeOutcome::Malformed,
                        Option::Some(n) => match spec_decode_elems(buf, end, n as nat) {
                            ElemsOutcome::Incomplete => DecodeOutcome::Incomplete,
                            ElemsOutcome::Malformed => DecodeOutcome::Malformed,
                            ElemsOutcome::Done(s, e2) => DecodeOutcome::Done(
                                FrameV::Array(s),
                                e2,
                            ),
                        },
                    }
                },
            }
        } else {
            DecodeOutcome::Malformed
        }
    }
}

/// Decode a run of `n` frames starting at position `pos` of `buf`.
pub open spec fn spec_decode_elems(buf: Seq<u8>, pos: int, n: nat) -> ElemsOutcome
    decreases buf.len() - pos, n,
{
    if n == 0 {
        ElemsOutcome::Done(Seq::empty(), pos)
    } else if !(0 <= pos < buf.len()) {
        ElemsOutcome::Incomplete
    } else {
        match spec_decode(buf, pos) {
            DecodeOutcome::Incomplete => ElemsOutcome::Incomplete,
            DecodeOutcome::Malformed => ElemsOutcome::Malformed,
            DecodeOutcome::Done(f, end) => {
                let next = if end <= pos {
                    pos + 1
                } else if end > buf.len() {
                    buf.len() as int
                } else {
                    end
                };
                match spec_decode_elems(buf, next, (n - 1) as nat) {
                    ElemsOutcome::Incomplete => ElemsOutcome::Incomplete,
                    ElemsOutcome::Malformed => ElemsOutcome::Malformed,
                    ElemsOutcome::Done(s, e2) => ElemsOutcome::Done(seq![f] + s, e2),
                }
            },
        }
    }
}

/// A frame and the run it heads, glued onto the outcome of the rest of the
/// run.
pub open spec fn elems_combine(prefix: Seq<FrameV>, o: ElemsOutcome) -> ElemsOutcome {
    match o {
        ElemsOutcome::Incomplete => ElemsOutcome::Incomplete,
        ElemsOutcome::Malformed => ElemsOutcome::Malformed,
        ElemsOutcome::Done(s, e) => ElemsOutcome::Done(prefix + s, e),
    }
}

pub proof fn lemma_pow10_mono(a: nat, b: nat)
    requires
        a <= b,
    ensures
        pow10(a) <= pow10(b),
    decreases b,
{
    if a < b {
        lemma_pow10_mono(a, (b - 1) as nat);
    }
}

/// The first CR at or after `from` stands where the scan that produced `i`
/// stopped.
proof fn lemma_cr_dist_at(buf: Seq<u8>, from: int, i: int)
    requires
        0 <= from <= i <= buf.len(),
        forall|j: int| from <= j < i ==> buf[j] != 13,
        i == buf.len() || buf[i] == 13,
    ensures
        from + cr_dist(buf, from) == i,
    decreases i - from,
{
    if from < i {
        lemma_cr_dist_at(buf, from + 1, i);
    }
}

pub proof fn lemma_frames_view_push(s: Seq<Frame>, f: Frame)
    ensures
        frames_view(s.push(f)) == frames_view(s).push(frame_view(f)),
{
    assert(frames_view(s.push(f)) =~= frames_view(s).push(frame_view(f)));
}

proof fn lemma_combine_assoc(a: Seq<FrameV>, x: FrameV, o: ElemsOutcome)
    ensures
        elems_combine(a, elems_combine(seq![x], o)) == elems_combine(a.push(x), o),
{
    match o {
        ElemsOutcome::Done(s, e) => {
            assert(a + (seq![x] + s) =~= a.push(x) + s);
        },
        _ => {},
    }
}

/// A fresh copy of the bytes of `buf` between `a` and `b`.
pub(crate) fn copy_range(buf: &Vec<u8>, a: usize, b: usize) -> (r: Vec<u8>)
    requires
        a <= b <= buf@.len(),
    ensures
        r@ == buf@.subrange(a as int, b as int),
{
    let mut r: Vec<u8> = Vec::new();
    let mut i: usize = a;
    while i < b
        invariant
            a <= i <= b <= buf@.len(),
            r@ == buf@.subrange(a as int, i as int),
        decreases b - i,
    {
        r.push(buf[i]);
        i = i + 1;
        assert(r@ =~= buf@.subrange(a as int, i as int));
    }
    r
}

enum LineScan {
    Incomplete,
    Malformed,
    Done(usize, usize),
}

/// Scan for the CRLF that terminates the line starting at `from`; yields
/// the CR's position and the position just past the LF.
fn scan_line(buf: &Vec<u8>, from: usize) -> (r: LineScan)
    requires
        from <= buf@.len(),
    ensures
        match r {
            LineScan::Incomplete => spec_line(buf@, from as int) is Incomplete,
            LineScan::Malformed => spec_line(buf@, from as int) is Malformed,
            LineScan::Done(cr, end) => {
                &&& spec_line(buf@, from as int) == LineOut::Done(
                    buf@.subrange(from as int, cr as int),
                    end as int,
                )
                &&& from <= cr
                &&& end == cr + 2
                &&& end <= buf@.len()
            },
        },
{
    let mut i: usize = from;
    while i < buf.len() && buf[i] != 13
        invariant
            from <= i <= buf@.len(),
            forall|j: int| from <= j < i ==> buf@[j] != 13,
        decreases buf@.len() - i,
    {
        i = i + 1;
    }
    proof {
        lemma_cr_dist_at(buf@, from as int, i as int);
    }
    if buf.len() - i < 2 {
        LineScan::Incomplete
    } else if buf[i + 1] != 10 {
        LineScan::Malformed
    } else {
        LineScan::Done(i, i + 2)
    }
}

/// Parse the bytes of `buf` between `a` and `b` as a length field.
pub(crate) fn parse_len_range(buf: &Vec<u8>, a: usize, b: usize) -> (r: Option<u64>)
    requires
        a <= b <= buf@.len(),
    ensures
        match r {
            Option::None => parse_len(buf@.subrange(a as int, b as int)) is None,
            Option::Some(v) => {
                &&& parse_len(buf@.subrange(a as int, b as int)) == Option::Some(v as int)
                &&& v <= u32::MAX
            },
        },
{
    let ghost s: Seq<u8> = buf@.subrange(a as int, b as int);
    let n: usize = b - a;
    if n == 0 || n > 10 {
        return Option::None;
    }
    let mut acc: u64 = 0;
    let mut i: usize = 0;
    while i < n
        invariant
            0 <= i <= n,
            n == s.len(),
            a + n == b <= buf@.len(),
            s == buf@.subrange(a as int, b as int),
            n <= 10,
            all_digits(s.subrange(0, i as int)),
            acc == seq_dec_val(s.subrange(0, i as int)),
            acc < pow10(i as nat),
        decreases n - i,
    {
        let c: u8 = buf[a + i];
        if c < 48 || c > 57 {
            proof {
                assert(s[i as int] == c);
                assert(!all_digits(s));
            }
            return Option::None;
        }
        proof {
            assert(s.subrange(0, i + 1).drop_last() =~= s.subrange(0, i as int));
            assert(s.subrange(0, i + 1).last() == s[i as int] == c);
            lemma_pow10_mono(i as nat, 9);
            assert(pow10(10) == 10_000_000_000) by {
                reveal_with_fuel(pow10, 11);
            }
            lemma_pow10_mono((i + 1) as nat, 10);
        }
        acc = acc * 10 + ((c - 48) as u64);
        i = i + 1;
        proof {
            assert(all_digits(s.subrange(0, i as int)));
        }
    }
    proof {
        assert(s.subrange(0, n as int) =~= s);
    }
    if acc > 0xffff_ffff {
        Option::None
    } else {
        Option::Some(acc)
    }
}

/// Parse the bytes of `buf` between `a` and `b` as a signed integer field.
fn parse_int_range(buf: &Vec<u8>, a: usize, b: usize) -> (r: Option<i64>)
    requires
        a <= b <= buf@.len(),
    ensures
        match r {
            Option::None => parse_int(buf@.subrange(a as int, b as int)) is None,
            Option::Some(v) => parse_int(buf@.subrange(a as int, b as int)) == Option::Some(
                v as int,
            ),
        },
{
    let ghost s: Seq<u8> = buf@.subrange(a as int, b as int);
    let neg: bool = b > a && buf[a] == 45;
    let a2: usize = if neg {
        a + 1
    } else {
        a
    };
    let ghost ds: Seq<u8> = buf@.subrange(a2 as int, b as int);
    proof {
        if neg {
            assert(ds =~= s.drop_first());
        } else {
            assert(ds =~= s);
        }
    }
    let n: usize = b - a2;
    if n == 0 || n > 19 {
        return Option::None;
    }
    let mut acc: u64 = 0;
    let mut i: usize = 0;
    while i < n
        invariant
            0 <= i <= n,
            n == ds.len(),
            a <= a2,
            a2 + n == b <= buf@.len(),
            s == buf@.subrange(a as int, b as int),
            neg == (s.len() > 0 && s[0] == 45),
            ds == if neg {
                s.drop_first()
            } else {
                s
            },
            ds == buf@.subrange(a2 as int, b as int),
            n <= 19,
            all_digits(ds.subrange(0, i as int)),
            acc == seq_dec_val(ds.subrange(0, i as int)),
            acc < pow10(i as nat),
        decreases n - i,
    {
        let c: u8 = buf[a2 + i];
        if c < 48 || c > 57 {
            proof {
                assert(ds[i as int] == c);
                assert(!all_digits(ds));
            }
            return Option::None;
        }
        proof {
            assert(ds.subrange(0, i + 1).drop_last() =~= ds.subrange(0, i as int));
            assert(ds.subrange(0, i + 1).last() == ds[i as int] == c);
            lemma_pow10_mono(i as nat, 18);
            assert(pow10(19) == 10_000_000_000_000_000_000) by {
                reveal_with_fuel(pow10, 20);
            }
            lemma_pow10_mono((i + 1) as nat, 19);
        }
        acc = acc * 10 + ((c - 48) as u64);
        i = i + 1;
        proof {
            assert(all_digits(ds.subrange(0, i as int)));
        }
    }
    proof {
        assert(ds.subrange(0, n as int) =~= ds);
    }
    if neg {
        if acc > 0x8000_0000_0000_0000 {
            Option::None
        } else {
            Option::Some((-(acc as i128)) as i64)
        }
    } else {
        if acc > 0x7fff_ffff_ffff_ffff {
            Option::None
        } else {
            Option::Some(acc as i64)
        }
    }
}

enum Step {
    Incomplete,
    Malformed,
    Done(Frame, usize),
}

enum StepMany {
    Incomplete,
    Malformed,
    Done(Vec<Frame>, usize),
}

/// Decode one frame from position `pos` of `buf`, exactly as
/// [`spec_decode`] reads the grammar.
fn decode_at(buf: &Vec<u8>, pos: usize) -> (r: Step)
    requires
        pos <= buf@.len(),
    ensures
        match r {
            Step::Incomplete => spec_decode(buf@, pos as int) is Incomplete,
            Step::Malformed => spec_decode(buf@, pos as int) is Malformed,
            Step::Done(f, end) => {
                &&& spec_decode(buf@, pos as int) == DecodeOutcome::Done(f@, end as int)
                &&& pos < end <= buf@.len()
            },
        },
    decreases buf@.len() - pos, 0int,
{
    if pos >= buf.len() {
        return Step::Incomplete;
    }
    let t: u8 = buf[pos];
    if t == 43 || t == 45 {
        match scan_line(buf, pos + 1) {
            LineScan::Incomplete => Step::Incomplete,
            LineScan::Malformed => Step::Malformed,
            LineScan::Done(cr, end) => {
                let payload = copy_range(buf, pos + 1, cr);
                if t == 43 {
                    Step::Done(Frame::Simple(payload), end)
                } else {
                    Step::Done(Frame::Error(payload), end)
                }
            },
        }
    } else if t == 58 {
        match scan_line(buf, pos + 1) {
            LineScan::Incomplete => Step::Incomplete,
            LineScan::Malformed => Step::Malformed,
            LineScan::Done(cr, end) => match parse_int_range(buf, pos + 1, cr) {
                Option::None => Step::Malformed,
                Option::Some(v) => Step::Done(Frame::Integer(v), end),
            },
        }
    } else if t == 36 {
        match scan_line(buf, pos + 1) {
            LineScan::Incomplete => Step::Incomplete,
            LineScan::Malformed => Step::Malformed,
            LineScan::Done(cr, end) => {
                let ghost payload: Seq<u8> = buf@.subrange(pos + 1, cr as int);
                if cr == pos + 3 && buf[pos + 1] == 45 && buf[pos + 2] == 49 {
                    proof {
                        assert(payload =~= seq![45u8, 49u8]);
                    }
                    Step::Done(Frame::Null, end)
                } else {
                    proof {
                        if payload.len() == 2 {
                            assert(payload[0] == buf@[pos + 1]);
                            assert(payload[1] == buf@[pos + 2]);
                        }
                        assert(!is_null_len(payload));
                    }
                    match parse_len_range(buf, pos + 1, cr) {
                        Option::None => Step::Malformed,
                        Option::Some(v) => {
                            if (end as u128) + (v as u128) + 2 > (buf.len() as u128) {
                                Step::Incomplete
                            } else {
                                let tail: usize = end + (v as usize);
                                if buf[tail] != 13 || buf[tail + 1] != 10 {
                                    Step::Malformed
                                } else {
                                    let data = copy_range(buf, end, tail);
                                    Step::Done(Frame::Bulk(data), tail + 2)
                                }
                            }
                        },
                    }
                }
            },
        }
    } else if t == 42 {
        match scan_line(buf, pos + 1) {
            LineScan::Incomplete => Step::Incomplete,
            LineScan::Malformed => Step::Malformed,
            LineScan::Done(cr, end) => {
                let ghost payload: Seq<u8> = buf@.subrange(pos + 1, cr as int);
                if cr == pos + 3 && buf[pos + 1] == 45 && buf[pos + 2] == 49 {
                    proof {
                        assert(payload =~= seq![45u8, 49u8]);
                    }
                    Step::Done(Frame::Null, end)
                } else {
                    proof {
                        if payload.len() == 2 {
                            assert(payload[0] == buf@[pos + 1]);
                            assert(payload[1] == buf@[pos + 2]);
                        }
                        assert(!is_null_len(payload));
                    }
                    match parse_len_range(buf, pos + 1, cr) {
                        Option::None => Step::Malformed,
                        Option::Some(v) => match decode_elems(buf, end, v) {
                            StepMany::Incomplete => Step::Incomplete,
                            StepMany::Malformed => Step::Malformed,
                            StepMany::Done(elems, e2) => Step::Done(Frame::Array(elems), e2),
                        },
                    }
                }
            },
        }
    } else {
        Step::Malformed
    }
}

/// Decode a run of `n` frames from position `pos` of `buf`, exactly as
/// [`spec_decode_elems`] reads the grammar.
fn decode_elems(buf: &Vec<u8>, pos: usize, n: u64) -> (r: StepMany)
    requires
        pos <= buf@.len(),
    ensures
        match r {
            StepMany::Incomplete => spec_decode_elems(buf@, pos as int, n as nat)
                is Incomplete,
            StepMany::Malformed => spec_decode_elems(buf@, pos as int, n as nat) is Malformed,
            StepMany::Done(v, e) => {
                &&& spec_decode_elems(buf@, pos as int, n as nat) == ElemsOutcome::Done(
                    frames_view(v@),
                    e as int,
                )
                &&& pos <= e <= buf@.len()
            },
        },
    decreases buf@.len() - pos, n as int,
{
    let mut acc: Vec<Frame> = Vec::new();
    let mut cur: usize = pos;
    let mut rem: u64 = n;
    while rem > 0
        invariant
            pos <= cur <= buf@.len(),
            rem <= n,
            cur == pos ==> rem == n,
            acc@.len() == n - rem,
            spec_decode_elems(buf@, pos as int, n as nat) == elems_combine(
                frames_view(acc@),
                spec_decode_elems(buf@, cur as int, rem as nat),
            ),
        decreases rem,
    {
        match decode_at(buf, cur) {
            Step::Incomplete => {
                proof {
                    assert(spec_decode_elems(buf@, cur as int, rem as nat)
                        is Incomplete);
                }
                return StepMany::Incomplete;
            },
            Step::Malformed => {
                proof {
                    assert(spec_decode_elems(buf@, cur as int, rem as nat) is Malformed);
                }
                return StepMany::Malformed;
            },
            Step::Done(f, e) => {
                proof {
                    assert(spec_decode_elems(buf@, cur as int, rem as nat) == elems_combine(
                        seq![f@],
                        spec_decode_elems(buf@, e as int, (rem - 1) as nat),
                    ));
                    lemma_combine_assoc(
                        frames_view(acc@),
                        f@,
                        spec_decode_elems(buf@, e as int, (rem - 1) as nat),
                    );
                    lemma_frames_view_push(acc@, f);
                }
                acc.push(f);
                cur = e;
                rem = rem - 1;
            },
        }
    }
    proof {
        assert(spec_decode_elems(buf@, cur as int, 0nat) == ElemsOutcome::Done(
            Seq::empty(),
            cur as int,
        ));
        assert(frames_view(acc@) + Seq::<FrameV>::empty() =~= frames_view(acc@));
    }
    StepMany::Done(acc, cur)
}

/// What one decoding attempt on a connection's buffer yields.
#[derive(Debug, PartialEq, Eq)]
pub enum DecodeResult {
    /// The buffer holds only part of a frame; more bytes are needed.
    Incomplete,
    /// The buffer cannot be a prefix of any valid frame.
    Malformed,
    /// The buffer has grown past the per-connection ceiling.
    Oversize,
    /// One whole frame, and how many bytes of the buffer it occupied.
    Done(Frame, usize),
}

/// The stateless framer: decodes one frame from the front of a buffer and
/// encodes reply frames back to bytes.
pub struct RedisCodec;

impl RedisCodec {
    pub fn new() -> (r: RedisCodec) {
        RedisCodec
    }

    /// Try to decode exactly one frame from the front of `buf`.
    ///
    /// On [`DecodeResult::Done`] the caller must drop the consumed bytes
    /// from the front of the buffer; on [`DecodeResult::Incomplete`] it must
    /// keep them and read more; the other two results are fatal to the
    /// connection.
    pub fn decode(&self, buf: &Vec<u8>) -> (r: DecodeResult)
        ensures
            buf@.len() > crate::MAX_REQ_BYTES ==> (r is Oversize),
            buf@.len() <= crate::MAX_REQ_BYTES ==> match r {
                DecodeResult::Incomplete => spec_decode(buf@, 0) is Incomplete,
                DecodeResult::Malformed => spec_decode(buf@, 0) is Malformed,
                DecodeResult::Oversize => false,
                DecodeResult::Done(f, n) => {
                    &&& spec_decode(buf@, 0) == DecodeOutcome::Done(f@, n as int)
                    &&& 0 < n <= buf@.len()
                },
            },
    {
        if buf.len() > crate::MAX_REQ_BYTES {
            return DecodeResult::Oversize;
        }
        match decode_at(buf, 0) {
            Step::Incomplete => DecodeResult::Incomplete,
            Step::Malformed => DecodeResult::Malformed,
            Step::Done(f, end) => DecodeResult::Done(f, end),
        }
    }

    /// Append the wire representation of `f` to `out`.
    pub fn encode(&self, f: &Frame, out: &mut Vec<u8>)
        ensures
            final(out)@ == old(out)@ + frame_bytes(f@),
    {
        encode_frame(f, out);
    }
}

/// Append every byte of `src` to `out`.
pub(crate) fn push_all(out: &mut Vec<u8>, src: &[u8])
    ensures
        final(out)@ == old(out)@ + src@,
{
    let mut i: usize = 0;
    while i < src.len()
        invariant
            i <= src@.len(),
            out@ == old(out)@ + src@.subrange(0, i as int),
        decreases src@.len() - i,
    {
        out.push(src[i]);
        i = i + 1;
        assert(out@ =~= old(out)@ + src@.subrange(0, i as int));
    }
    assert(out@ =~= old(out)@ + src@);
}

/// Append the decimal form of `n` to `out`.
pub(crate) fn push_u64_dec(out: &mut Vec<u8>, n: u64)
    ensures
        final(out)@ == old(out)@ + dec_rep(n as nat),
    decreases n,
{
    if n < 10 {
        out.push((48 + n) as u8);
        assert(out@ =~= old(out)@ + dec_rep(n as nat));
    } else {
        push_u64_dec(out, n / 10);
        out.push((48 + (n % 10)) as u8);
        assert(out@ =~= old(out)@ + dec_rep(n as nat));
    }
}

/// Append the signed decimal form of `i` to `out`.
pub(crate) fn push_i64_dec(out: &mut Vec<u8>, i: i64)
    ensures
        final(out)@ == old(out)@ + int_rep(i as int),
{
    if i < 0 {
        out.push(45u8);
        let m: u64 = (-(i as i128)) as u64;
        assert(m as nat == (-(i as int)) as nat);
        push_u64_dec(out, m);
        assert(out@ =~= old(out)@ + int_rep(i as int));
    } else {
        push_u64_dec(out, i as u64);
    }
}

/// Append the wire representation of `f` to `out`.
pub fn encode_frame(f: &Frame, out: &mut Vec<u8>)
    ensures
        final(out)@ == old(out)@ + frame_bytes(f@),
    decreases f,
{
    match f {
        Frame::Simple(d) => {
            out.push(43u8);
            push_all(out, d.as_slice());
            out.push(13u8);
            out.push(10u8);
            assert(out@ =~= old(out)@ + frame_bytes(f@));
        },
        Frame::Error(d) => {
            out.push(45u8);
            push_all(out, d.as_slice());
            out.push(13u8);
            out.push(10u8);
            assert(out@ =~= old(out)@ + frame_bytes(f@));
        },
        Frame::Integer(i) => {
            out.push(58u8);
            push_i64_dec(out, *i);
            out.push(13u8);
            out.push(10u8);
            assert(out@ =~= old(out)@ + frame_bytes(f@));
        },
        Frame::Bulk(d) => {
            out.push(36u8);
            push_u64_dec(out, d.len() as u64);
            out.push(13u8);
            out.push(10u8);
            push_all(out, d.as_slice());
            out.push(13u8);
            out.push(10u8);
            assert(out@ =~= old(out)@ + frame_bytes(f@));
        },
        Frame::Null => {
            out.push(36u8);
            out.push(45u8);
            out.push(49u8);
            out.push(13u8);
            out.push(10u8);
            assert(out@ =~= old(out)@ + frame_bytes(f@));
        },
        Frame::Array(v) => {
            out.push(42u8);
            push_u64_dec(out, v.len() as u64);
            out.push(13u8);
            out.push(10u8);
            let ghost elems: Seq<FrameV> = f@->Array_0;
            let ghost mid: Seq<u8> = out@;
            let mut i: usize = 0;
            while i < v.len()
                invariant
                    i <= v@.len(),
                    *f == Frame::Array(*v),
                    elems == frame_view(*f)->Array_0,
                    out@ == mid + frames_bytes(elems.subrange(0, i as int)),
                decreases v@.len() - i,
            {
                proof {
                    assert(elems.subrange(0, i + 1) =~= elems.subrange(0, i as int).push(
                        elems[i as int]));
                    lemma_frames_bytes_push(elems.subrange(0, i as int), elems[i as int]);
                    assert(decreases_to!(*f => (*f)->Array_0));
                    assert((*f)->Array_0 == *v);
                    assert(decreases_to!(*v => v@));
                    assert(decreases_to!(v@ => v@[i as int]));
                    assert(decreases_to!(*f => v@[i as int]));
                }
                encode_frame(&v[i], out);
                i = i + 1;
            }
            proof {
                assert(elems.subrange(0, elems.len() as int) =~= elems);
                assert(out@ =~= old(out)@ + frame_bytes(f@));
            }
        },
    }
}

/// The decimal form of a number is one or more digits.
pub proof fn lemma_dec_rep_digits(n: nat)
    ensures
        all_digits(dec_rep(n)),
        dec_rep(n).len() >= 1,
    decreases n,
{
    if n >= 10 {
        lemma_dec_rep_digits(n / 10);
        assert(all_digits(dec_rep(n)));
    }
}

/// Reading the decimal form of a number back gives the number.
pub proof fn lemma_dec_val_of_rep(n: nat)
    ensures
        seq_dec_val(dec_rep(n)) == n,
    decreases n,
{
    if n < 10 {
        assert(dec_rep(n) =~= seq![(48 + n) as u8]);
        assert(dec_rep(n).drop_last() =~= Seq::empty());
        assert(seq_dec_val(Seq::<u8>::empty()) == 0);
        assert(dec_rep(n).last() == (48 + n) as u8);
        assert(((48 + n) as u8) as int == 48 + n);
    } else {
        lemma_dec_val_of_rep(n / 10);
        assert(dec_rep(n).drop_last() =~= dec_rep(n / 10));
        assert(dec_rep(n).last() == (48 + (n % 10)) as u8);
        assert((n / 10) * 10 + n % 10 == n) by (nonlinear_arith);
    }
}

/// A number below ten to the `k` has at most `k` decimal digits.
pub proof fn lemma_dec_rep_len_bound(n: nat, k: nat)
    requires
        n < pow10(k),
        k >= 1,
    ensures
        dec_rep(n).len() <= k,
    decreases n,
{
    if n >= 10 {
        assert(pow10(k) == 10 * pow10((k - 1) as nat));
        assert(n / 10 < pow10((k - 1) as nat)) by (nonlinear_arith)
            requires
                n < 10 * pow10((k - 1) as nat),
        ;
        assert(k >= 2) by {
            if k == 1 {
                reveal_with_fuel(pow10, 2);
            }
        }
        lemma_dec_rep_len_bound(n / 10, (k - 1) as nat);
    }
}

/// Every frame occupies at least three bytes on the wire.
pub proof fn lemma_frame_bytes_min_len(f: FrameV)
    ensures
        frame_bytes(f).len() >= 3,
{
    match f {
        FrameV::Integer(i) => {
            if i < 0 {
                lemma_dec_rep_digits((-i) as nat);
            } else {
                lemma_dec_rep_digits(i as nat);
            }
        },
        FrameV::Bulk(d) => {
            lemma_dec_rep_digits(d.len());
        },
        FrameV::Array(s) => {
            lemma_dec_rep_digits(s.len());
        },
        _ => {},
    }
}

/// A rendered length field parses back to its value.
pub proof fn lemma_parse_len_of_rep(n: nat)
    requires
        n <= u32::MAX,
    ensures
        parse_len(dec_rep(n)) == Option::Some(n as int),
{
    lemma_dec_rep_digits(n);
    lemma_dec_val_of_rep(n);
    assert(n < pow10(10)) by {
        reveal_with_fuel(pow10, 11);
    }
    lemma_dec_rep_len_bound(n, 10);
}

/// A rendered integer field parses back to its value.
pub proof fn lemma_parse_int_of_rep(i: int)
    requires
        i64::MIN <= i <= i64::MAX,
    ensures
        parse_int(int_rep(i)) == Option::Some(i),
{
    assert(pow10(19) == 10_000_000_000_000_000_000) by {
        reveal_with_fuel(pow10, 20);
    }
    if i < 0 {
        let m = (-i) as nat;
        lemma_dec_rep_digits(m);
        lemma_dec_val_of_rep(m);
        lemma_dec_rep_len_bound(m, 19);
        let s = int_rep(i);
        assert(s[0] == 45);
        assert(s.drop_first() =~= dec_rep(m));
    } else {
        let m = i as nat;
        lemma_dec_rep_digits(m);
        lemma_dec_val_of_rep(m);
        lemma_dec_rep_len_bound(m, 19);
        let s = int_rep(i);
        assert(is_digit(s[0]));
        assert(s[0] != 45);
    }
}

/// Where each part of a header-framed byte run stands: the marker byte, the
/// header field, CRLF, then the tail.
proof fn lemma_hdr_indexes(t: u8, mid: Seq<u8>, tail: Seq<u8>)
    ensures
        (seq![t] + mid + seq![13u8, 10u8] + tail).len() == mid.len() + 3 + tail.len(),
        (seq![t] + mid + seq![13u8, 10u8] + tail)[0] == t,
        forall|j: int|
            0 <= j < mid.len() ==> (seq![t] + mid + seq![13u8, 10u8] + tail)[1 + j] == mid[j],
        (seq![t] + mid + seq![13u8, 10u8] + tail)[mid.len() as int + 1] == 13,
        (seq![t] + mid + seq![13u8, 10u8] + tail)[mid.len() as int + 2] == 10,
        forall|j: int|
            0 <= j < tail.len() ==> (seq![t] + mid + seq![13u8, 10u8] + tail)[mid.len() as int + 3 + j]
                == tail[j],
{
    let whole = seq![t] + mid + seq![13u8, 10u8] + tail;
    assert forall|j: int| 0 <= j < mid.len() implies whole[1 + j] == mid[j] by {
        assert((seq![t] + mid)[1 + j] == mid[j]);
        assert((seq![t] + mid + seq![13u8, 10u8])[1 + j] == (seq![t] + mid)[1 + j]);
    }
    assert((seq![t] + mid + seq![13u8, 10u8])[mid.len() as int + 1] == 13);
    assert((seq![t] + mid + seq![13u8, 10u8])[mid.len() as int + 2] == 10);
    assert forall|j: int| 0 <= j < tail.len() implies whole[mid.len() as int + 3 + j] == tail[j] by {
    }
}

/// Decoding at a position where a well-formed frame's bytes stand yields
/// exactly that frame and stops just past it.
#[verifier::rlimit(60)]
#[verifier::spinoff_prover]
pub proof fn lemma_decode_of_encode_at(buf: Seq<u8>, pos: int, f: FrameV)
    requires
        frame_wf(f),
        0 <= pos,
        pos + frame_bytes(f).len() <= buf.len(),
        buf.subrange(pos, pos + frame_bytes(f).len() as int) == frame_bytes(f),
    ensures
        spec_decode(buf, pos) == DecodeOutcome::Done(f, pos + frame_bytes(f).len()),
    decreases f,
{
    let fb = frame_bytes(f);
    lemma_frame_bytes_min_len(f);
    assert forall|j: int| 0 <= j < fb.len() implies buf[pos + j] == fb[j] by {
        assert(buf.subrange(pos, pos + fb.len() as int)[j] == buf[pos + j]);
    }
    match f {
        FrameV::Simple(d) => {
            assert(fb == seq![43u8] + d + seq![13u8, 10u8] + Seq::<u8>::empty()) by {
                assert(seq![43u8] + d + seq![13u8, 10u8] + Seq::<u8>::empty() =~= seq![43u8] + d
                    + seq![13u8, 10u8]);
            }
            lemma_hdr_indexes(43u8, d, Seq::empty());
            assert(forall|j: int| 0 <= j < d.len() ==> buf[pos + 1 + j] == d[j]);
            assert forall|j: int| pos + 1 <= j < pos + 1 + d.len() implies buf[j] != 13 by {
                assert(buf[j] == d[j - (pos + 1)]);
            }
            lemma_cr_dist_at(buf, pos + 1, pos + 1 + d.len());
            assert(buf.subrange(pos + 1, pos + 1 + d.len() as int) =~= d);
        },
        FrameV::Error(d) => {
            assert(fb == seq![45u8] + d + seq![13u8, 10u8] + Seq::<u8>::empty()) by {
                assert(seq![45u8] + d + seq![13u8, 10u8] + Seq::<u8>::empty() =~= seq![45u8] + d
                    + seq![13u8, 10u8]);
            }
            lemma_hdr_indexes(45u8, d, Seq::empty());
            assert(forall|j: int| 0 <= j < d.len() ==> buf[pos + 1 + j] == d[j]);
            assert forall|j: int| pos + 1 <= j < pos + 1 + d.len() implies buf[j] != 13 by {
                assert(buf[j] == d[j - (pos + 1)]);
            }
            lemma_cr_dist_at(buf, pos + 1, pos + 1 + d.len());
            assert(buf.subrange(pos + 1, pos + 1 + d.len() as int) =~= d);
        },
        FrameV::Integer(i) => {
            let ir = int_rep(i);
            assert(fb == seq![58u8] + ir + seq![13u8, 10u8] + Seq::<u8>::empty()) by {
                assert(seq![58u8] + ir + seq![13u8, 10u8] + Seq::<u8>::empty() =~= seq![58u8] + ir
                    + seq![13u8, 10u8]);
            }
            lemma_hdr_indexes(58u8, ir, Seq::empty());
            if i < 0 {
                lemma_dec_rep_digits((-i) as nat);
            } else {
                lemma_dec_rep_digits(i as nat);
            }
            assert(forall|j: int| 0 <= j < ir.len() ==> buf[pos + 1 + j] == ir[j]);
            assert(forall|j: int| 0 <= j < ir.len() ==> ir[j] != 13) by {
                if i < 0 {
                    assert(forall|j: int|
                        1 <= j < ir.len() ==> ir[j] == dec_rep((-i) as nat)[j - 1]);
                }
            }
            assert forall|j: int| pos + 1 <= j < pos + 1 + ir.len() implies buf[j] != 13 by {
                assert(buf[j] == ir[j - (pos + 1)]);
            }
            lemma_cr_dist_at(buf, pos + 1, pos + 1 + ir.len());
            assert(buf.subrange(pos + 1, pos + 1 + ir.len() as int) =~= ir);
            lemma_parse_int_of_rep(i);
        },
        FrameV::Null => {
            assert(fb =~= seq![36u8] + seq![45u8, 49u8] + seq![13u8, 10u8] + Seq::<u8>::empty());
            lemma_hdr_indexes(36u8, seq![45u8, 49u8], Seq::empty());
            assert(buf[pos] == 36);
            assert(buf[pos + 1] == 45);
            assert(buf[pos + 2] == 49);
            assert(buf[pos + 3] == 13);
            assert(buf[pos + 4] == 10);
            lemma_cr_dist_at(buf, pos + 1, pos + 3);
            assert(buf.subrange(pos + 1, pos + 3) =~= seq![45u8, 49u8]);
        },
        FrameV::Bulk(d) => {
            let dl = dec_rep(d.len());
            assert(fb == seq![36u8] + dl + seq![13u8, 10u8] + (d + seq![13u8, 10u8])) by {
                assert(seq![36u8] + dl + seq![13u8, 10u8] + (d + seq![13u8, 10u8]) =~= seq![36u8]
                    + dl + seq![13u8, 10u8] + d + seq![13u8, 10u8]);
            }
            lemma_hdr_indexes(36u8, dl, d + seq![13u8, 10u8]);
            lemma_dec_rep_digits(d.len());
            assert(forall|j: int| 0 <= j < dl.len() ==> buf[pos + 1 + j] == dl[j]);
            assert forall|j: int| pos + 1 <= j < pos + 1 + dl.len() implies buf[j] != 13 by {
                assert(buf[j] == dl[j - (pos + 1)]);
                assert(is_digit(dl[j - (pos + 1)]));
            }
            lemma_cr_dist_at(buf, pos + 1, pos + 1 + dl.len());
            let payload = buf.subrange(pos + 1, pos + 1 + dl.len() as int);
            assert(payload =~= dl);
            assert(!is_null_len(payload)) by {
                assert(is_digit(dl[0]));
            }
            lemma_parse_len_of_rep(d.len());
            let end = pos + 3 + dl.len();
            let tail = d + seq![13u8, 10u8];
            assert(forall|j: int| 0 <= j < tail.len() ==> buf[end + j] == tail[j]);
            assert forall|j: int| 0 <= j < d.len() implies buf[end + j] == d[j] by {
                assert(tail[j] == d[j]);
            }
            assert(tail[d.len() as int] == 13);
            assert(tail[d.len() as int + 1] == 10);
            assert(buf[end + d.len()] == 13);
            assert(buf[end + d.len() + 1] == 10);
            assert(buf.subrange(end, end + d.len() as int) =~= d);
        },
        FrameV::Array(elems) => {
            let dl = dec_rep(elems.len());
            let fbs = frames_bytes(elems);
            assert(fb == seq![42u8] + dl + seq![13u8, 10u8] + fbs);
            lemma_hdr_indexes(42u8, dl, fbs);
            lemma_dec_rep_digits(elems.len());
            assert(forall|j: int| 0 <= j < dl.len() ==> buf[pos + 1 + j] == dl[j]);
            assert forall|j: int| pos + 1 <= j < pos + 1 + dl.len() implies buf[j] != 13 by {
                assert(buf[j] == dl[j - (pos + 1)]);
                assert(is_digit(dl[j - (pos + 1)]));
            }
            lemma_cr_dist_at(buf, pos + 1, pos + 1 + dl.len());
            let payload = buf.subrange(pos + 1, pos + 1 + dl.len() as int);
            assert(payload =~= dl);
            assert(!is_null_len(payload)) by {
                assert(is_digit(dl[0]));
            }
            lemma_parse_len_of_rep(elems.len());
            let end = pos + 3 + dl.len();
            assert(forall|j: int| 0 <= j < fbs.len() ==> buf[end + j] == fbs[j]);
            assert(buf.subrange(end, end + fbs.len() as int) =~= fbs);
            lemma_decode_elems_of_encode_at(buf, end, elems);
        },
    }
}

/// Decoding a run of well-formed frames at the position where their bytes
/// stand yields exactly those frames, in order.
pub proof fn lemma_decode_elems_of_encode_at(buf: Seq<u8>, pos: int, s: Seq<FrameV>)
    requires
        forall|i: int| 0 <= i < s.len() ==> frame_wf(#[trigger] s[i]),
        0 <= pos,
        pos + frames_bytes(s).len() <= buf.len(),
        buf.subrange(pos, pos + frames_bytes(s).len() as int) == frames_bytes(s),
    ensures
        spec_decode_elems(buf, pos, s.len()) == ElemsOutcome::Done(s, pos + frames_bytes(s).len()),
    decreases s,
{
    if s.len() == 0 {
        assert(spec_decode_elems(buf, pos, 0) == ElemsOutcome::Done(Seq::<FrameV>::empty(), pos));
        assert(s =~= Seq::<FrameV>::empty());
    } else {
        let f0 = s[0];
        let fb0 = frame_bytes(f0);
        let rest = s.drop_first();
        let fbs = frames_bytes(s);
        assert(fbs == fb0 + frames_bytes(rest));
        lemma_frame_bytes_min_len(f0);
        assert forall|j: int| 0 <= j < fbs.len() implies buf[pos + j] == fbs[j] by {
            assert(buf.subrange(pos, pos + fbs.len() as int)[j] == buf[pos + j]);
        }
        assert(forall|j: int| 0 <= j < fb0.len() ==> fbs[j] == fb0[j]);
        assert(forall|j: int|
            0 <= j < frames_bytes(rest).len() ==> fbs[fb0.len() + j] == frames_bytes(rest)[j]);
        assert(buf.subrange(pos, pos + fb0.len() as int) =~= fb0);
        lemma_decode_of_encode_at(buf, pos, f0);
        let end0 = pos + fb0.len();
        assert(forall|i: int| 0 <= i < rest.len() ==> rest[i] == s[i + 1]);
        assert(buf.subrange(end0, end0 + frames_bytes(rest).len() as int) =~= frames_bytes(rest));
        lemma_decode_elems_of_encode_at(buf, end0, rest);
        assert(seq![f0] + rest =~= s);
    }
}

/// The round trip: a well-formed frame decodes back from its own encoding,
/// whatever buffered bytes follow it, consuming exactly its own bytes.
pub proof fn lemma_decode_of_encode(f: FrameV, rest: Seq<u8>)
    requires
        frame_wf(f),
    ensures
        spec_decode(frame_bytes(f) + rest, 0) == DecodeOutcome::Done(
            f,
            frame_bytes(f).len() as int,
        ),
{
    let buf = frame_bytes(f) + rest;
    assert(buf.subrange(0, frame_bytes(f).len() as int) =~= frame_bytes(f));
    lemma_decode_of_encode_at(buf, 0, f);
}

} // verus!
