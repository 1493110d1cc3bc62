//! The shard: the exclusive owner of one partition of the keyspace.
//!
//! A shard executes the jobs from its mailbox strictly in arrival order,
//! one at a time, each against its own store only; no other component ever
//! reads or mutates that store.  Executing a job never fails: every
//! command-level error becomes an error reply frame, so the caller always
//! receives exactly one reply per job, in submission order.

use vstd::prelude::*;

use crate::codec::frame_view;
use crate::codec::frames_view;
use crate::codec::Frame;
use crate::codec::FrameV;
use crate::commands::spec_resolve;
use crate::commands::CommandKind;
use crate::errors::cmd_err_msg;
use crate::errors::frame_err_msg;
use crate::handlers::arg_key;
use crate::handlers::get_call;
use crate::handlers::handle_get;
use crate::handlers::handle_set;
use crate::handlers::set_call;
use crate::store::Store;
use crate::value::EntryV;

verus! {

/// The reply to a request that is not a non-empty array.
pub open spec fn invalid_frame_reply() -> FrameV {
    FrameV::Error(
        seq![
            69u8,
            82u8,
            82u8,
            32u8,
            105u8,
            110u8,
            118u8,
            97u8,
            108u8,
            105u8,
            100u8,
            32u8,
            102u8,
            114u8,
            97u8,
            109u8,
            101u8,
        ],
    )
}

/// What executing one request frame does to a shard's store, and the one
/// reply it produces.
///
/// A request that is not a non-empty array earns an error reply and changes
/// nothing; so does one whose command does not resolve, or whose handler
/// rejects its arguments.  Only a read or write that its handler accepts
/// touches the store.
pub open spec fn step_spec(db: Map<Seq<u8>, EntryV>, f: FrameV, now: u64) -> (
    Map<Seq<u8>, EntryV>,
    FrameV,
) {
    match f {
        FrameV::Array(elems) => if elems.len() == 0 {
            (db, invalid_frame_reply())
        } else {
            match spec_resolve(f) {
                Result::Err(e) => (db, FrameV::Error(frame_err_msg(e))),
                Result::Ok(k) => {
                    let out = if k is Get {
                        get_call(elems.drop_first(), db, now)
                    } else {
                        set_call(elems.drop_first(), db, now)
                    };
                    match out.1 {
                        Result::Ok(fv) => (out.0, fv),
                        Result::Err(ev) => (db, FrameV::Error(cmd_err_msg(ev))),
                    }
                },
            }
        },
        _ => (db, invalid_frame_reply()),
    }
}

/// Execute one request frame against `db`, yielding the reply frame.
pub fn handle_frame(frame: &Frame, db: &mut Store, now: u64) -> (r: Frame)
    requires
        old(db).wf(),
    ensures
        final(db).wf(),
        final(db)@ == step_spec(old(db)@, frame@, now).0,
        r@ == step_spec(old(db)@, frame@, now).1,
{
    match frame {
        Frame::Array(v) => {
            if v.len() == 0 {
                proof {
                    assert(frames_view(v@).len() == 0);
                }
                return Frame::Error(
                    vec![
                        69u8,
                        82u8,
                        82u8,
                        32u8,
                        105u8,
                        110u8,
                        118u8,
                        97u8,
                        108u8,
                        105u8,
                        100u8,
                        32u8,
                        102u8,
                        114u8,
                        97u8,
                        109u8,
                        101u8,
                    ],
                );
            }
            let kind = match CommandKind::from_frame(frame) {
                Result::Ok(k) => k,
                Result::Err(e) => {
                    return e.to_frame();
                },
            };
            let args: &[Frame] = vstd::slice::slice_subrange(v.as_slice(), 1, v.len());
            proof {
                assert(frames_view(args@) =~= frames_view(v@).drop_first());
            }
            let outcome = match kind {
                CommandKind::Get => handle_get(args, db, now),
                CommandKind::SetCmd => handle_set(args, db, now),
            };
            match outcome {
                Result::Ok(f) => f,
                Result::Err(e) => e.to_frame(),
            }
        },
        _ => Frame::Error(
            vec![
                69u8,
                82u8,
                82u8,
                32u8,
                105u8,
                110u8,
                118u8,
                97u8,
                108u8,
                105u8,
                100u8,
                32u8,
                102u8,
                114u8,
                97u8,
                109u8,
                101u8,
            ],
        ),
    }
}

/// One unit of work for a shard: a job identifier, fresh per request, and
/// the parsed request frame.  The router pairs each job with a private
/// completion channel on which the shard's one reply travels back.
pub struct ShardJob {
    pub id: u128,
    pub frame: Frame,
}

/// The request frames of a run of jobs, in order.
pub open spec fn jobs_frames(s: Seq<ShardJob>) -> Seq<FrameV> {
    Seq::new(
        s.len(),
        |i: int|
            if 0 <= i < s.len() {
                frame_view(s[i].frame)
            } else {
                FrameV::Null
            },
    )
}

/// What executing a run of request frames in order does: the store each
/// step leaves becomes the next step's store, and the replies stand in
/// submission order, one per request.
pub open spec fn run_spec(db: Map<Seq<u8>, EntryV>, frames: Seq<FrameV>, now: u64) -> (
    Map<Seq<u8>, EntryV>,
    Seq<FrameV>,
)
    decreases frames.len(),
{
    if frames.len() == 0 {
        (db, Seq::empty())
    } else {
        let first = step_spec(db, frames[0], now);
        let rest = run_spec(first.0, frames.drop_first(), now);
        (rest.0, seq![first.1] + rest.1)
    }
}

/// A run of steps answers every request: one reply per request frame.
pub proof fn lemma_run_len(db: Map<Seq<u8>, EntryV>, frames: Seq<FrameV>, now: u64)
    ensures
        run_spec(db, frames, now).1.len() == frames.len(),
    decreases frames.len(),
{
    if frames.len() > 0 {
        lemma_run_len(step_spec(db, frames[0], now).0, frames.drop_first(), now);
    }
}

/// Replies come back in submission order: the i-th reply is exactly the
/// step reply of the i-th request against the store as the requests before
/// it left it.
pub proof fn lemma_replies_in_order(
    db: Map<Seq<u8>, EntryV>,
    frames: Seq<FrameV>,
    now: u64,
    i: int,
)
    requires
        0 <= i < frames.len(),
    ensures
        run_spec(db, frames, now).1.len() == frames.len(),
        run_spec(db, frames, now).1[i] == step_spec(
            run_spec(db, frames.take(i), now).0,
            frames[i],
            now,
        ).1,
    decreases i,
{
    lemma_run_len(db, frames, now);
    let first = step_spec(db, frames[0], now);
    if i == 0 {
        assert(frames.take(0) =~= Seq::empty());
    } else {
        lemma_replies_in_order(first.0, frames.drop_first(), now, i - 1);
        assert(frames.drop_first().take(i - 1) =~= frames.take(i).drop_first());
        assert(frames.take(i)[0] == frames[0]);
        assert(frames.drop_first()[i - 1] == frames[i]);
        lemma_run_len(first.0, frames.drop_first(), now);
    }
}

/// The key a request addresses: the first argument of its command.
pub open spec fn cmd_key(f: FrameV) -> Option<Seq<u8>> {
    match f {
        FrameV::Array(elems) => arg_key(elems.drop_first()),
        _ => Option::None,
    }
}

/// Whether a request could write key `k`: it resolves to the write command
/// and addresses `k`.
pub open spec fn writes_key(f: FrameV, k: Seq<u8>) -> bool {
    &&& spec_resolve(f) == Result::<CommandKind, crate::errors::FrameError>::Ok(
        CommandKind::SetCmd,
    )
    &&& cmd_key(f) == Option::Some(k)
}

/// Whether a request is a read of key `k`.
pub open spec fn reads_key(f: FrameV, k: Seq<u8>) -> bool {
    &&& spec_resolve(f) == Result::<CommandKind, crate::errors::FrameError>::Ok(CommandKind::Get)
    &&& cmd_key(f) == Option::Some(k)
}

/// A step on a request that does not write `k` leaves `k` absent.
pub proof fn lemma_step_preserves_absent(
    db: Map<Seq<u8>, EntryV>,
    f: FrameV,
    now: u64,
    k: Seq<u8>,
)
    requires
        !db.contains_key(k),
        !writes_key(f, k),
    ensures
        !step_spec(db, f, now).0.contains_key(k),
{
}

/// A key never written reads as null: in any run of requests none of which
/// writes `k`, starting from a store without `k`, every read of `k` is
/// answered with the null reply.
pub proof fn lemma_unwritten_reads_null(
    db: Map<Seq<u8>, EntryV>,
    frames: Seq<FrameV>,
    now: u64,
    k: Seq<u8>,
    i: int,
)
    requires
        !db.contains_key(k),
        forall|j: int| 0 <= j < frames.len() ==> !writes_key(#[trigger] frames[j], k),
        0 <= i < frames.len(),
        reads_key(frames[i], k),
    ensures
        run_spec(db, frames, now).1.len() == frames.len(),
        run_spec(db, frames, now).1[i] == FrameV::Null,
    decreases i,
{
    lemma_run_len(db, frames, now);
    let first = step_spec(db, frames[0], now);
    if i == 0 {
    } else {
        lemma_step_preserves_absent(db, frames[0], now, k);
        assert(forall|j: int|
            0 <= j < frames.drop_first().len() ==> !writes_key(
                #[trigger] frames.drop_first()[j],
                k,
            ));
        assert(frames.drop_first()[i - 1] == frames[i]);
        lemma_unwritten_reads_null(first.0, frames.drop_first(), now, k, i - 1);
        lemma_run_len(first.0, frames.drop_first(), now);
    }
}

/// One shard: its index and the partition store it exclusively owns.
pub struct Shard {
    pub id: usize,
    pub db: Store,
}

impl Shard {
    /// A fresh shard with an empty store.
    pub fn new(id: usize) -> (r: Shard)
        ensures
            r.id == id,
            r.db.wf(),
            r.db@ == Map::<Seq<u8>, EntryV>::empty(),
    {
        Shard { id, db: Store::new() }
    }

    /// Execute one job against this shard's own store and yield the reply
    /// to send back on the job's completion channel.
    pub fn handle_job(&mut self, job: &ShardJob, now: u64) -> (r: Frame)
        requires
            old(self).db.wf(),
        ensures
            final(self).db.wf(),
            final(self).id == old(self).id,
            final(self).db@ == step_spec(old(self).db@, job.frame@, now).0,
            r@ == step_spec(old(self).db@, job.frame@, now).1,
    {
        handle_frame(&job.frame, &mut self.db, now)
    }

    /// Execute a run of jobs strictly in order, yielding one reply per job,
    /// in submission order.
    pub fn run_jobs(&mut self, jobs: &Vec<ShardJob>, now: u64) -> (rs: Vec<Frame>)
        requires
            old(self).db.wf(),
        ensures
            final(self).db.wf(),
            final(self).id == old(self).id,
            rs@.len() == jobs@.len(),
            final(self).db@ == run_spec(old(self).db@, jobs_frames(jobs@), now).0,
            frames_view(rs@) == run_spec(old(self).db@, jobs_frames(jobs@), now).1,
    {
        let ghost fs: Seq<FrameV> = jobs_frames(jobs@);
        let ghost db0: Map<Seq<u8>, EntryV> = self.db@;
        let mut rs: Vec<Frame> = Vec::new();
        let mut i: usize = 0;
        proof {
            assert(fs.skip(0) =~= fs);
            assert(frames_view(rs@) =~= Seq::<FrameV>::empty());
            assert(Seq::<FrameV>::empty() + run_spec(self.db@, fs, now).1 =~= run_spec(
                self.db@,
                fs,
                now,
            ).1);
        }
        while i < jobs.len()
            invariant
                i <= jobs@.len(),
                fs == jobs_frames(jobs@),
                fs.len() == jobs@.len(),
                self.db.wf(),
                self.id == old(self).id,
                rs@.len() == i,
                run_spec(db0, fs, now).0 == run_spec(self.db@, fs.skip(i as int), now).0,
                run_spec(db0, fs, now).1 == frames_view(rs@) + run_spec(
                    self.db@,
                    fs.skip(i as int),
                    now,
                ).1,
            decreases jobs@.len() - i,
        {
            let ghost pre: Map<Seq<u8>, EntryV> = self.db@;
            proof {
                assert(fs.skip(i as int)[0] == fs[i as int]);
                assert(fs.skip(i as int).drop_first() =~= fs.skip(i + 1));
            }
            let reply = handle_frame(&jobs[i].frame, &mut self.db, now);
            proof {
                crate::codec::lemma_frames_view_push(rs@, reply);
                assert(frames_view(rs@).push(reply@) + run_spec(self.db@, fs.skip(i + 1), now).1
                    =~= frames_view(rs@) + (seq![reply@] + run_spec(
                    self.db@,
                    fs.skip(i + 1),
                    now,
                ).1));
            }
            rs.push(reply);
            i = i + 1;
        }
        proof {
            assert(fs.skip(fs.len() as int) =~= Seq::<FrameV>::empty());
            assert(frames_view(rs@) + Seq::<FrameV>::empty() =~= frames_view(rs@));
        }
        rs
    }
}

} // verus!
