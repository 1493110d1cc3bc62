//! The read and write command handlers.
//!
//! Both handlers work on one shard's [`Store`] and take the current time in
//! milliseconds as an argument; expiry is enforced lazily, at access time.
//! On any argument or parameter error the store is left unchanged.

use vstd::prelude::*;

use crate::codec::copy_range;
use crate::codec::frames_view;
use crate::codec::parse_len;
use crate::codec::parse_len_range;
use crate::codec::Frame;
use crate::codec::FrameV;
use crate::commands::frame_str;
use crate::commands::to_upper_ascii;
use crate::commands::upper_seq;
use crate::commands::CommandKind;
use crate::errors::CmdErrV;
use crate::errors::CommandExecutionError;
use crate::store::Store;
use crate::value::entry_expired;
use crate::value::value_frame;
use crate::value::DataKind;
use crate::value::Entry;
use crate::value::EntryV;
use crate::value::ValueV;

verus! {

/// Whether `k` is live in `db` at time `now`: present and not expired.
pub open spec fn live(db: Map<Seq<u8>, EntryV>, k: Seq<u8>, now: u64) -> bool {
    db.contains_key(k) && !entry_expired(db[k], now)
}

/// The key argument of a read or write call: the first argument, which must
/// be string-like.
pub open spec fn arg_key(args: Seq<FrameV>) -> Option<Seq<u8>> {
    if args.len() < 1 {
        Option::None
    } else {
        frame_str(args[0])
    }
}

/// What a read of `k` at time `now` does to `db` and returns.
///
/// An absent key reads as null.  An expired entry reads as null and is left
/// exactly as it stands, its last access time included.  A live entry has
/// its last access time set to `now` and its value presented as a frame.
pub open spec fn get_effect(db: Map<Seq<u8>, EntryV>, k: Seq<u8>, now: u64) -> (
    Map<Seq<u8>, EntryV>,
    FrameV,
) {
    if !live(db, k, now) {
        (db, FrameV::Null)
    } else {
        (
            db.insert(k, (EntryV { last_accessed: now, ..db[k] })),
            value_frame(db[k].value),
        )
    }
}

/// What a whole read call does, given its argument frames: the key check,
/// then [`get_effect`].
pub open spec fn get_call(args: Seq<FrameV>, db: Map<Seq<u8>, EntryV>, now: u64) -> (
    Map<Seq<u8>, EntryV>,
    Result<FrameV, CmdErrV>,
) {
    match arg_key(args) {
        Option::None => (db, Result::Err(CmdErrV::WrongArity(CommandKind::Get))),
        Option::Some(k) => (
            get_effect(db, k, now).0,
            Result::Ok(get_effect(db, k, now).1),
        ),
    }
}

/// Retrieve the value under the key argument, honoring TTL and updating the
/// access time.
pub fn handle_get(args: &[Frame], db: &mut Store, now: u64) -> (r: Result<
    Frame,
    CommandExecutionError,
>)
    requires
        old(db).wf(),
    ensures
        final(db).wf(),
        final(db)@ == get_call(frames_view(args@), old(db)@, now).0,
        match get_call(frames_view(args@), old(db)@, now).1 {
            Result::Ok(fv) => r matches Ok(f) && f@ == fv,
            Result::Err(ev) => r matches Err(e) && e@ == ev,
        },
{
    proof {
        if args@.len() > 0 {
            assert(frames_view(args@)[0] == crate::codec::frame_view(args@[0]));
        }
    }
    if args.len() < 1 {
        return Result::Err(CommandExecutionError::WrongArity(CommandKind::Get));
    }
    let key: &Vec<u8> = match &args[0] {
        Frame::Simple(d) => d,
        Frame::Bulk(d) => d,
        _ => {
            return Result::Err(CommandExecutionError::WrongArity(CommandKind::Get));
        },
    };
    let mut reply: Option<Frame> = Option::None;
    match db.get(key) {
        Option::None => {
            return Result::Ok(Frame::Null);
        },
        Option::Some(e) => {
            let expired: bool = match e.ttl {
                Option::Some(t) => match e.created_at.checked_add(t) {
                    Option::Some(abs) => now >= abs,
                    Option::None => false,
                },
                Option::None => false,
            };
            if expired {
                return Result::Ok(Frame::Null);
            }
            reply = Option::Some(e.value.to_bytes_frame());
        },
    }
    db.touch(key, now);
    match reply {
        Option::Some(f) => Result::Ok(f),
        Option::None => Result::Ok(Frame::Null),
    }
}

/// The options a write call can carry.
#[derive(Clone, Copy)]
pub struct SetOpts {
    /// A fresh relative TTL in milliseconds.
    pub ttl: Option<u64>,
    /// Keep the TTL the key already carries instead of clearing it.
    pub keep_ttl: bool,
    /// Write only if the key is absent.
    pub nx: bool,
    /// Write only if the key is present.
    pub xx: bool,
    /// Reply with the prior value instead of a status.
    pub get_old: bool,
}

/// The options of a write call with no flags.
pub open spec fn opts_default() -> SetOpts {
    SetOpts { ttl: Option::None, keep_ttl: false, nx: false, xx: false, get_old: false }
}

pub open spec fn flag_ex() -> Seq<u8> {
    seq![69u8, 88u8]
}

pub open spec fn flag_px() -> Seq<u8> {
    seq![80u8, 88u8]
}

pub open spec fn flag_nx() -> Seq<u8> {
    seq![78u8, 88u8]
}

pub open spec fn flag_xx() -> Seq<u8> {
    seq![88u8, 88u8]
}

pub open spec fn flag_get() -> Seq<u8> {
    seq![71u8, 69u8, 84u8]
}

pub open spec fn flag_keepttl() -> Seq<u8> {
    seq![75u8, 69u8, 69u8, 80u8, 84u8, 84u8, 76u8]
}

/// A TTL token read as milliseconds: one to ten decimal digits worth at
/// most `u32::MAX` units, and at least one unit.  Seconds are scaled by a
/// thousand.
pub open spec fn parse_ttl_ms(s: Seq<u8>, is_px: bool) -> Option<u64> {
    match parse_len(s) {
        Option::None => Option::None,
        Option::Some(v) => if v == 0 {
            Option::None
        } else if is_px {
            Option::Some(v as u64)
        } else {
            Option::Some((v * 1000) as u64)
        },
    }
}

/// What parsing a write call's flag tokens yields.
pub enum FlagsOut {
    Done(SetOpts),
    Fail(CmdErrV),
}

/// Parse the flag tokens of a write call, from token `i` on, against the
/// options gathered so far.
///
/// `EX` and `PX` take a following value; `NX`, `XX`, `GET` and `KEEPTTL`
/// stand alone.  At most one of `EX`, `PX` and `KEEPTTL` may appear, and
/// `NX` and `XX` exclude each other.  An unrecognized token is a syntax
/// error; a token that is not string-like is an invalid parameter.
pub open spec fn parse_set_flags(toks: Seq<FrameV>, i: int, acc: SetOpts) -> FlagsOut
    decreases toks.len() - i,
{
    if i >= toks.len() {
        FlagsOut::Done(acc)
    } else {
        match frame_str(toks[i]) {
            Option::None => FlagsOut::Fail(CmdErrV::InvalidParams(CommandKind::SetCmd)),
            Option::Some(t) => {
                let u = upper_seq(t);
                if u == flag_ex() || u == flag_px() {
                    if acc.ttl is Some || acc.keep_ttl {
                        FlagsOut::Fail(CmdErrV::SyntaxError(t))
                    } else if i + 1 >= toks.len() {
                        FlagsOut::Fail(CmdErrV::MissingExpire)
                    } else {
                        match frame_str(toks[i + 1]) {
                            Option::None => FlagsOut::Fail(CmdErrV::InvalidExpire),
                            Option::Some(vb) => match parse_ttl_ms(vb, u == flag_px()) {
                                Option::None => FlagsOut::Fail(CmdErrV::InvalidExpire),
                                Option::Some(ms) => parse_set_flags(
                                    toks,
                                    i + 2,
                                    (SetOpts { ttl: Option::Some(ms), ..acc }),
                                ),
                            },
                        }
                    }
                } else if u == flag_keepttl() {
                    if acc.ttl is Some || acc.keep_ttl {
                        FlagsOut::Fail(CmdErrV::SyntaxError(t))
                    } else {
                        parse_set_flags(toks, i + 1, (SetOpts { keep_ttl: true, ..acc }))
                    }
                } else if u == flag_nx() {
                    if acc.xx {
                        FlagsOut::Fail(CmdErrV::InvalidParams(CommandKind::SetCmd))
                    } else {
                        parse_set_flags(toks, i + 1, (SetOpts { nx: true, ..acc }))
                    }
                } else if u == flag_xx() {
                    if acc.nx {
                        FlagsOut::Fail(CmdErrV::InvalidParams(CommandKind::SetCmd))
                    } else {
                        parse_set_flags(toks, i + 1, (SetOpts { xx: true, ..acc }))
                    }
                } else if u == flag_get() {
                    parse_set_flags(toks, i + 1, (SetOpts { get_old: true, ..acc }))
                } else {
                    FlagsOut::Fail(CmdErrV::SyntaxError(t))
                }
            },
        }
    }
}

/// Whether the write's existence condition holds against the store.
pub open spec fn set_cond_ok(db: Map<Seq<u8>, EntryV>, k: Seq<u8>, o: SetOpts, now: u64) -> bool {
    &&& o.nx ==> !live(db, k, now)
    &&& o.xx ==> live(db, k, now)
}

/// The reply a write makes when asked for the prior value: the live prior
/// value as a frame, or null.
pub open spec fn set_prior_reply(
    db: Map<Seq<u8>, EntryV>,
    k: Seq<u8>,
    o: SetOpts,
    now: u64,
) -> FrameV {
    if o.get_old && live(db, k, now) {
        value_frame(db[k].value)
    } else {
        FrameV::Null
    }
}

/// The entry a write creates: the value as an opaque blob, both timestamps
/// at `now`, and the TTL per the flags — a fresh one from `EX`/`PX`, the
/// live prior TTL under `KEEPTTL`, and none otherwise.
pub open spec fn set_new_entry(
    db: Map<Seq<u8>, EntryV>,
    k: Seq<u8>,
    v: Seq<u8>,
    o: SetOpts,
    now: u64,
) -> EntryV {
    EntryV {
        value: ValueV::Blob(v),
        ttl: if o.ttl is Some {
            o.ttl
        } else if o.keep_ttl && live(db, k, now) {
            db[k].ttl
        } else {
            Option::None
        },
        created_at: now,
        last_accessed: now,
    }
}

/// The OK status reply.
pub open spec fn ok_status() -> FrameV {
    FrameV::Simple(seq![79u8, 75u8])
}

/// What a write of `v` under `k` at `now` does to `db` and returns.
///
/// The existence condition is evaluated against current liveness before any
/// mutation; when it fails the store is unchanged and the reply is null, or
/// the prior value when asked for.  When it holds, the entry is created or
/// overwritten and the reply is a status, or the prior value when asked
/// for.
pub open spec fn set_effect(
    db: Map<Seq<u8>, EntryV>,
    k: Seq<u8>,
    v: Seq<u8>,
    o: SetOpts,
    now: u64,
) -> (Map<Seq<u8>, EntryV>, FrameV) {
    if !set_cond_ok(db, k, o, now) {
        (db, set_prior_reply(db, k, o, now))
    } else {
        (
            db.insert(k, set_new_entry(db, k, v, o, now)),
            if o.get_old {
                set_prior_reply(db, k, o, now)
            } else {
                ok_status()
            },
        )
    }
}

/// What a whole write call does, given its argument frames: the checks on
/// the key and value arguments, flag parsing, and then [`set_effect`].
pub open spec fn set_call(args: Seq<FrameV>, db: Map<Seq<u8>, EntryV>, now: u64) -> (
    Map<Seq<u8>, EntryV>,
    Result<FrameV, CmdErrV>,
) {
    if args.len() < 2 {
        (db, Result::Err(CmdErrV::WrongArity(CommandKind::SetCmd)))
    } else {
        match (frame_str(args[0]), frame_str(args[1])) {
            (Option::Some(k), Option::Some(v)) => match parse_set_flags(args, 2, opts_default()) {
                FlagsOut::Fail(e) => (db, Result::Err(e)),
                FlagsOut::Done(o) => {
                    let eff = set_effect(db, k, v, o, now);
                    (eff.0, Result::Ok(eff.1))
                },
            },
            _ => (db, Result::Err(CmdErrV::InvalidParams(CommandKind::SetCmd))),
        }
    }
}

/// Create or overwrite the entry under the key argument, applying the TTL,
/// existence and reply flags.
pub fn handle_set(args: &[Frame], db: &mut Store, now: u64) -> (r: Result<
    Frame,
    CommandExecutionError,
>)
    requires
        old(db).wf(),
    ensures
        final(db).wf(),
        final(db)@ == set_call(frames_view(args@), old(db)@, now).0,
        match set_call(frames_view(args@), old(db)@, now).1 {
            Result::Ok(fv) => r matches Ok(f) && f@ == fv,
            Result::Err(ev) => r matches Err(e) && e@ == ev,
        },
{
    let ghost fs: Seq<FrameV> = frames_view(args@);
    proof {
        if args@.len() > 0 {
            assert(fs[0] == crate::codec::frame_view(args@[0]));
        }
        if args@.len() > 1 {
            assert(fs[1] == crate::codec::frame_view(args@[1]));
        }
    }
    if args.len() < 2 {
        return Result::Err(CommandExecutionError::WrongArity(CommandKind::SetCmd));
    }
    let key: &Vec<u8> = match &args[0] {
        Frame::Simple(d) => d,
        Frame::Bulk(d) => d,
        _ => {
            return Result::Err(CommandExecutionError::InvalidParams(CommandKind::SetCmd));
        },
    };
    let val: &Vec<u8> = match &args[1] {
        Frame::Simple(d) => d,
        Frame::Bulk(d) => d,
        _ => {
            return Result::Err(CommandExecutionError::InvalidParams(CommandKind::SetCmd));
        },
    };

    // Parse the flag tokens, mirroring `parse_set_flags` step by step.
    let mut o: SetOpts = SetOpts {
        ttl: Option::None,
        keep_ttl: false,
        nx: false,
        xx: false,
        get_old: false,
    };
    let mut i: usize = 2;
    while i < args.len()
        invariant
            2 <= i <= args@.len(),
            fs == frames_view(args@),
            fs.len() == args@.len(),
            frame_str(fs[0]) == Option::Some(key@),
            frame_str(fs[1]) == Option::Some(val@),
            old(db).wf(),
            *db == *old(db),
            parse_set_flags(fs, 2, opts_default()) == parse_set_flags(fs, i as int, o),
        decreases args@.len() - i,
    {
        proof {
            assert(fs[i as int] == crate::codec::frame_view(args@[i as int]));
        }
        let tok: &Vec<u8> = match &args[i] {
            Frame::Simple(d) => d,
            Frame::Bulk(d) => d,
            _ => {
                return Result::Err(CommandExecutionError::InvalidParams(CommandKind::SetCmd));
            },
        };
        let ghost t: Seq<u8> = tok@;
        let up = to_upper_ascii(tok);
        let ghost u: Seq<u8> = upper_seq(t);
        let is_ex: bool = up.len() == 2 && up[0] == 69 && up[1] == 88;
        let is_px: bool = up.len() == 2 && up[0] == 80 && up[1] == 88;
        let is_nx: bool = up.len() == 2 && up[0] == 78 && up[1] == 88;
        let is_xx: bool = up.len() == 2 && up[0] == 88 && up[1] == 88;
        let is_get: bool = up.len() == 3 && up[0] == 71 && up[1] == 69 && up[2] == 84;
        let is_keepttl: bool = up.len() == 7 && up[0] == 75 && up[1] == 69 && up[2] == 69
            && up[3] == 80 && up[4] == 84 && up[5] == 84 && up[6] == 76;
        proof {
            assert(is_ex == (u == flag_ex())) by {
                if is_ex {
                    assert(u =~= flag_ex());
                }
            }
            assert(is_px == (u == flag_px())) by {
                if is_px {
                    assert(u =~= flag_px());
                }
            }
            assert(is_nx == (u == flag_nx())) by {
                if is_nx {
                    assert(u =~= flag_nx());
                }
            }
            assert(is_xx == (u == flag_xx())) by {
                if is_xx {
                    assert(u =~= flag_xx());
                }
            }
            assert(is_get == (u == flag_get())) by {
                if is_get {
                    assert(u =~= flag_get());
                }
            }
            assert(is_keepttl == (u == flag_keepttl())) by {
                if is_keepttl {
                    assert(u =~= flag_keepttl());
                }
            }
        }
        if is_ex || is_px {
            if o.ttl.is_some() || o.keep_ttl {
                let c = copy_range(tok, 0, tok.len());
                proof {
                    assert(c@ =~= tok@);
                }
                return Result::Err(CommandExecutionError::SyntaxError(c));
            }
            if i + 1 >= args.len() {
                return Result::Err(CommandExecutionError::MissingExpire);
            }
            proof {
                assert(fs[i + 1] == crate::codec::frame_view(args@[i + 1]));
            }
            let vtok: &Vec<u8> = match &args[i + 1] {
                Frame::Simple(d) => d,
                Frame::Bulk(d) => d,
                _ => {
                    return Result::Err(CommandExecutionError::InvalidExpire);
                },
            };
            proof {
                assert(vtok@.subrange(0, vtok@.len() as int) =~= vtok@);
            }
            let ms: u64 = match parse_len_range(vtok, 0, vtok.len()) {
                Option::None => {
                    return Result::Err(CommandExecutionError::InvalidExpire);
                },
                Option::Some(v) => {
                    if v == 0 {
                        return Result::Err(CommandExecutionError::InvalidExpire);
                    }
                    if is_px {
                        v
                    } else {
                        v * 1000
                    }
                },
            };
            o = SetOpts { ttl: Option::Some(ms), ..o };
            i = i + 2;
        } else if is_keepttl {
            if o.ttl.is_some() || o.keep_ttl {
                let c = copy_range(tok, 0, tok.len());
                proof {
                    assert(c@ =~= tok@);
                }
                return Result::Err(CommandExecutionError::SyntaxError(c));
            }
            o = SetOpts { keep_ttl: true, ..o };
            i = i + 1;
        } else if is_nx {
            if o.xx {
                return Result::Err(CommandExecutionError::InvalidParams(CommandKind::SetCmd));
            }
            o = SetOpts { nx: true, ..o };
            i = i + 1;
        } else if is_xx {
            if o.nx {
                return Result::Err(CommandExecutionError::InvalidParams(CommandKind::SetCmd));
            }
            o = SetOpts { xx: true, ..o };
            i = i + 1;
        } else if is_get {
            o = SetOpts { get_old: true, ..o };
            i = i + 1;
        } else {
            let c = copy_range(tok, 0, tok.len());
            proof {
                assert(c@ =~= tok@);
            }
            return Result::Err(CommandExecutionError::SyntaxError(c));
        }
    }

    // The flags are parsed; evaluate liveness and the existence condition.
    let ghost k: Seq<u8> = key@;
    let mut is_live: bool = false;
    let mut prior: Option<Frame> = Option::None;
    let mut kept_ttl: Option<u64> = Option::None;
    match db.get(key) {
        Option::None => {},
        Option::Some(e) => {
            let expired: bool = match e.ttl {
                Option::Some(t) => match e.created_at.checked_add(t) {
                    Option::Some(abs) => now >= abs,
                    Option::None => false,
                },
                Option::None => false,
            };
            if !expired {
                is_live = true;
                kept_ttl = e.ttl;
                if o.get_old {
                    prior = Option::Some(e.value.to_bytes_frame());
                }
            }
        },
    }
    proof {
        assert(is_live == live(db@, k, now));
    }
    if (o.nx && is_live) || (o.xx && !is_live) {
        return Result::Ok(
            match prior {
                Option::Some(f) => f,
                Option::None => Frame::Null,
            },
        );
    }
    let new_ttl: Option<u64> = match o.ttl {
        Option::Some(ms) => Option::Some(ms),
        Option::None => if o.keep_ttl {
            kept_ttl
        } else {
            Option::None
        },
    };
    let vcopy = copy_range(val, 0, val.len());
    let kcopy = copy_range(key, 0, key.len());
    proof {
        assert(vcopy@ =~= val@);
        assert(kcopy@ =~= key@);
    }
    let entry = Entry {
        value: DataKind::Blob(vcopy),
        ttl: new_ttl,
        created_at: now,
        last_accessed: now,
    };
    db.insert(kcopy, entry);
    if o.get_old {
        Result::Ok(
            match prior {
                Option::Some(f) => f,
                Option::None => Frame::Null,
            },
        )
    } else {
        Result::Ok(Frame::Simple(vec![79u8, 75u8]))
    }
}

/// A key that was never written reads as null, and the read leaves the
/// store exactly as it stands.
pub proof fn lemma_get_unwritten(db: Map<Seq<u8>, EntryV>, k: Seq<u8>, now: u64)
    requires
        !db.contains_key(k),
    ensures
        get_effect(db, k, now).0 == db,
        get_effect(db, k, now).1 == FrameV::Null,
{
}

/// A read after the entry's absolute expiry returns null and changes
/// nothing — in particular it does not update the last access time.
pub proof fn lemma_get_expired(db: Map<Seq<u8>, EntryV>, k: Seq<u8>, now: u64)
    requires
        db.contains_key(k),
        db[k].ttl matches Some(t) && db[k].created_at + t <= now,
    ensures
        get_effect(db, k, now).0 == db,
        get_effect(db, k, now).1 == FrameV::Null,
{
}

/// A write that takes effect, read back before its expiry, returns the
/// written bytes bit for bit.
pub proof fn lemma_set_then_get(
    db: Map<Seq<u8>, EntryV>,
    k: Seq<u8>,
    v: Seq<u8>,
    o: SetOpts,
    now: u64,
    later: u64,
)
    requires
        set_cond_ok(db, k, o, now),
        !entry_expired(set_new_entry(db, k, v, o, now), later),
    ensures
        get_effect(set_effect(db, k, v, o, now).0, k, later).1 == FrameV::Bulk(v),
{
}

/// A conditional write on a key that is already live, under the
/// only-if-absent option, leaves the store unchanged and replies null — or
/// with the prior value when the prior value was asked for.
pub proof fn lemma_set_nx_existing(
    db: Map<Seq<u8>, EntryV>,
    k: Seq<u8>,
    v: Seq<u8>,
    o: SetOpts,
    now: u64,
)
    requires
        o.nx,
        live(db, k, now),
    ensures
        set_effect(db, k, v, o, now).0 == db,
        o.get_old ==> set_effect(db, k, v, o, now).1 == value_frame(db[k].value),
        !o.get_old ==> set_effect(db, k, v, o, now).1 == FrameV::Null,
{
}

/// A conditional write on an absent key, under the only-if-present option,
/// leaves the store unchanged and replies null.
pub proof fn lemma_set_xx_absent(
    db: Map<Seq<u8>, EntryV>,
    k: Seq<u8>,
    v: Seq<u8>,
    o: SetOpts,
    now: u64,
)
    requires
        o.xx,
        !db.contains_key(k),
    ensures
        set_effect(db, k, v, o, now).0 == db,
        set_effect(db, k, v, o, now).1 == FrameV::Null,
{
}

} // verus!
