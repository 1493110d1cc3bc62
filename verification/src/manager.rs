//! The router/manager: owns the fixed set of shards' routing state.
//!
//! At startup the manager builds the consistent hash ring over shard
//! indices `0` to `shard count - 1`, each with a fixed number of virtual
//! nodes.  Dispatching a command means extracting its key, routing the key
//! on the ring, and handing the job to that shard's mailbox; the async
//! mailbox plumbing lives outside this library, which supplies the routing
//! decision.

use vstd::prelude::*;

use crate::ring::labels_injective;
use crate::ring::ring_covers;
use crate::ring::ring_entry_of;
use crate::ring::spec_route;
use crate::ring::xxhash64_of;
use crate::ring::ConsistentHashRing;

verus! {

/// How many ring positions each shard contributes.
pub const VNODES_PER_SHARD: usize = 64;

/// The shard indices a manager of `n` shards owns: `0` to `n - 1`.
pub open spec fn shard_id_seq(n: usize) -> Seq<usize> {
    Seq::new(n as nat, |i: int| i as usize)
}

/// The routing state over a fixed set of shards.
pub struct ShardManager {
    num_shards: usize,
    ring: ConsistentHashRing,
}

impl ShardManager {
    /// Internal invariant: the ring is well formed and every ring entry
    /// names a shard below the shard count.
    pub closed spec fn wf(&self) -> bool {
        &&& self.ring.wf()
        &&& self.ring@.len() >= 1
        &&& self.num_shards >= 1
        &&& forall|j: int|
            0 <= j < self.ring@.len() ==> (#[trigger] self.ring@[j]).1 < self.num_shards
    }

    /// The fixed shard count.
    pub closed spec fn spec_num_shards(&self) -> usize {
        self.num_shards
    }

    /// The ring's entries.
    pub closed spec fn ring_view(&self) -> Seq<(u64, usize)> {
        self.ring@
    }

    /// Build the routing state for `num_shards` shards: the ring holds, for
    /// every shard index below `num_shards`, one position per virtual node.
    /// When no two virtual-node labels collide in the hash, every shard is
    /// reachable.
    pub fn new(num_shards: usize) -> (r: ShardManager)
        requires
            1 <= num_shards,
        ensures
            r.wf(),
            r.spec_num_shards() == num_shards,
            labels_injective(shard_id_seq(num_shards), VNODES_PER_SHARD) ==> forall|id: usize|
                id < num_shards ==> ring_covers(r.ring_view(), id),
    {
        let mut ids: Vec<usize> = Vec::new();
        let mut i: usize = 0;
        while i < num_shards
            invariant
                i <= num_shards,
                ids@.len() == i,
                forall|j: int| 0 <= j < i ==> #[trigger] ids@[j] == j,
            decreases num_shards - i,
        {
            ids.push(i);
            i = i + 1;
        }
        let ring = ConsistentHashRing::new(ids, VNODES_PER_SHARD);
        proof {
            assert(ids@ =~= shard_id_seq(num_shards));
            assert forall|j: int| 0 <= j < ring@.len() implies (#[trigger] ring@[j]).1
                < num_shards by {
                assert(ring_entry_of(ring@[j], ids@, VNODES_PER_SHARD));
                let (a, b): (int, usize) = choose|a: int, b: usize|
                    0 <= a < ids@.len() && 0 <= b < VNODES_PER_SHARD && ring@[j] == (
                        xxhash64_of(crate::ring::vnode_label(ids@[a], b)),
                        ids@[a],
                    );
                assert(ring@[j].1 == ids@[a] == a);
            }
            if labels_injective(shard_id_seq(num_shards), VNODES_PER_SHARD) {
                assert forall|id: usize| id < num_shards implies ring_covers(ring@, id) by {
                    assert(ids@[id as int] == id);
                    assert(ring_covers(ring@, ids@[id as int]));
                }
            }
        }
        ShardManager { num_shards, ring }
    }

    /// The fixed shard count.
    pub fn num_shards(&self) -> (r: usize)
        ensures
            r == self.spec_num_shards(),
    {
        self.num_shards
    }

    /// The shard that owns `key`: route the key's hash on the ring.  The
    /// result always names one of this manager's shards.
    pub fn shard_for_key(&self, key: &Vec<u8>) -> (r: usize)
        requires
            self.wf(),
        ensures
            r == spec_route(self.ring_view(), xxhash64_of(key@)),
            r < self.spec_num_shards(),
    {
        proof {
            crate::ring::lemma_first_ge_le_len(self.ring@, xxhash64_of(key@));
        }
        self.ring.get_shard(key)
    }

    /// Borrow the ring itself, for callers that route directly.
    pub fn ring(&self) -> (r: &ConsistentHashRing)
        ensures
            r@ == self.ring_view(),
            self.wf() ==> r.wf(),
    {
        &self.ring
    }
}

} // verus!
