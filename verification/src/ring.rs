//! The consistent hash ring: maps an arbitrary key to the shard that owns
//! it, using virtual nodes to spread routing load.
//!
//! The ring is an ordered mapping from 64-bit position to shard id, held as
//! a run of pairs in strictly increasing position order.  At construction,
//! every shard contributes one position per virtual node: the 64-bit hash
//! of the label "id-index"; when two labels hash to one position, the later
//! insertion replaces the earlier entry, as in a mapping.  A key routes to
//! the shard at the first position at or after the key's own hash, wrapping
//! around to the first position when none follows.  The hash is a pure
//! function of the bytes, so routing is stable across processes and
//! restarts.

use vstd::prelude::*;

use crate::codec::dec_rep;
use crate::codec::push_u64_dec;

verus! {

/// The 64-bit hash this ring hashes labels and keys with.
pub uninterp spec fn xxhash64_of(bytes: Seq<u8>) -> u64;

/// Relies on `twox_hash::XxHash64::oneshot` with seed zero: the 64-bit
/// xxHash of the bytes, a pure function of the byte string alone, with no
/// per-process state.
#[verifier::external_body]
fn xxhash64(bytes: &Vec<u8>) -> (r: u64)
    ensures
        r == xxhash64_of(bytes@),
{
    twox_hash::XxHash64::oneshot(0, bytes.as_slice())
}

/// The composite label hashed for shard `id`'s virtual node `v`: the
/// decimal of `id`, a hyphen, the decimal of `v`.
pub open spec fn vnode_label(id: usize, v: usize) -> Seq<u8> {
    dec_rep(id as nat) + seq![45u8] + dec_rep(v as nat)
}

/// Ring entries stand in strictly increasing position order, so the run
/// reads as an ordered mapping from position to shard id.
pub open spec fn ring_sorted(s: Seq<(u64, usize)>) -> bool {
    forall|i: int, j: int| 0 <= i < j < s.len() ==> (#[trigger] s[i]).0 < (#[trigger] s[j]).0
}

/// Whether the pair is one of the entries that shards `ids` with `vnodes`
/// virtual nodes each would contribute.
pub open spec fn ring_entry_of(p: (u64, usize), ids: Seq<usize>, vnodes: usize) -> bool {
    exists|a: int, b: usize|
        0 <= a < ids.len() && 0 <= b < vnodes && p == (
            xxhash64_of(vnode_label(ids[a], b)),
            ids[a],
        )
}

/// Whether some ring entry belongs to shard `id`.
pub open spec fn ring_covers(s: Seq<(u64, usize)>, id: usize) -> bool {
    exists|j: int| 0 <= j < s.len() && (#[trigger] s[j]).1 == id
}

/// Whether some ring entry stands at position `h`.
pub open spec fn ring_has_pos(s: Seq<(u64, usize)>, h: u64) -> bool {
    exists|j: int| 0 <= j < s.len() && (#[trigger] s[j]).0 == h
}

/// Whether no two distinct virtual-node labels of the given shards hash to
/// the same position.
pub open spec fn labels_injective(ids: Seq<usize>, vnodes: usize) -> bool {
    forall|a1: int, b1: usize, a2: int, b2: usize|
        #![trigger vnode_label(ids[a1], b1), vnode_label(ids[a2], b2)]
        0 <= a1 < ids.len() && b1 < vnodes && 0 <= a2 < ids.len() && b2 < vnodes && (a1 != a2 || b1
            != b2) ==> xxhash64_of(vnode_label(ids[a1], b1)) != xxhash64_of(
            vnode_label(ids[a2], b2),
        )
}

/// The mapping that construction denotes after the virtual nodes strictly
/// before shard `a`'s node `b` have been inserted, in construction order:
/// shard by shard, node by node, a later insertion at an already-present
/// position replacing the earlier entry.
pub open spec fn ring_model_upto(ids: Seq<usize>, vnodes: usize, a: int, b: int) -> Map<
    u64,
    usize,
>
    decreases a, b,
{
    if a < 0 || b < 0 {
        Map::empty()
    } else if b == 0 {
        if a == 0 {
            Map::empty()
        } else {
            ring_model_upto(ids, vnodes, a - 1, vnodes as int)
        }
    } else {
        ring_model_upto(ids, vnodes, a, b - 1).insert(
            xxhash64_of(vnode_label(ids[a], (b - 1) as usize)),
            ids[a],
        )
    }
}

/// The mapping the whole construction denotes.
pub open spec fn ring_model(ids: Seq<usize>, vnodes: usize) -> Map<u64, usize> {
    ring_model_upto(ids, vnodes, ids.len() as int, 0)
}

/// When no two labels collide, the constructed mapping sends every virtual
/// node's position to its own shard.
proof fn lemma_model_pairs(ids: Seq<usize>, vnodes: usize, a: int, b: int)
    requires
        labels_injective(ids, vnodes),
        0 <= a <= ids.len(),
        0 <= b <= vnodes,
        b > 0 ==> a < ids.len(),
    ensures
        forall|x: int, w: usize|
            #![trigger vnode_label(ids[x], w)]
            0 <= x < ids.len() && w < vnodes && (x < a || (x == a && (w as int) < b))
                ==> ring_model_upto(ids, vnodes, a, b).contains_key(
                xxhash64_of(vnode_label(ids[x], w)),
            ) && ring_model_upto(ids, vnodes, a, b)[xxhash64_of(vnode_label(ids[x], w))] == ids[x],
    decreases a, b,
{
    if b == 0 {
        if a > 0 {
            lemma_model_pairs(ids, vnodes, a - 1, vnodes as int);
        }
    } else {
        lemma_model_pairs(ids, vnodes, a, b - 1);
        let m0 = ring_model_upto(ids, vnodes, a, b - 1);
        let key = xxhash64_of(vnode_label(ids[a], (b - 1) as usize));
        assert forall|x: int, w: usize|
            #![trigger vnode_label(ids[x], w)]
            0 <= x < ids.len() && w < vnodes && (x < a || (x == a && (w as int) < b))
                implies ring_model_upto(ids, vnodes, a, b).contains_key(
                xxhash64_of(vnode_label(ids[x], w)),
            ) && ring_model_upto(ids, vnodes, a, b)[xxhash64_of(vnode_label(ids[x], w))]
                == ids[x] by {
            if x == a && w as int == b - 1 {
            } else {
                assert(xxhash64_of(vnode_label(ids[x], w)) != key);
            }
        }
    }
}

/// The first index whose position is at or after `h`, or the length when
/// none is.
pub open spec fn first_ge(s: Seq<(u64, usize)>, h: u64) -> int
    decreases s.len(),
{
    if s.len() == 0 {
        0
    } else if s[0].0 >= h {
        0
    } else {
        1 + first_ge(s.drop_first(), h)
    }
}

/// Where a hash routes on a ring: the shard at the first position at or
/// after it, wrapping around to the first entry.
pub open spec fn spec_route(s: Seq<(u64, usize)>, h: u64) -> usize
    recommends
        s.len() > 0,
{
    if first_ge(s, h) < s.len() {
        s[first_ge(s, h)].1
    } else {
        s[0].1
    }
}

/// `first_ge` never runs past the ring.
pub proof fn lemma_first_ge_le_len(s: Seq<(u64, usize)>, h: u64)
    ensures
        0 <= first_ge(s, h) <= s.len(),
    decreases s.len(),
{
    if s.len() > 0 && s[0].0 < h {
        lemma_first_ge_le_len(s.drop_first(), h);
    }
}

/// `first_ge` stands exactly where a left-to-right scan for a position at
/// or after `h` stops.
proof fn lemma_first_ge_at(s: Seq<(u64, usize)>, h: u64, i: int)
    requires
        0 <= i <= s.len(),
        forall|j: int| 0 <= j < i ==> (#[trigger] s[j]).0 < h,
        i == s.len() || s[i].0 >= h,
    ensures
        first_ge(s, h) == i,
    decreases i,
{
    if i > 0 {
        assert(s.drop_first().len() == s.len() - 1);
        assert(forall|j: int|
            0 <= j < i - 1 ==> (#[trigger] s.drop_first()[j]).0 == s[j + 1].0 < h);
        if i < s.len() {
            assert(s.drop_first()[i - 1] == s[i]);
        }
        lemma_first_ge_at(s.drop_first(), h, i - 1);
    }
}

/// Routing is deterministic: one ring and one key name one shard, because
/// the route is a function of the ring's entries and the key's hash alone.
pub proof fn lemma_route_deterministic(
    s1: Seq<(u64, usize)>,
    s2: Seq<(u64, usize)>,
    k1: Seq<u8>,
    k2: Seq<u8>,
)
    requires
        s1 == s2,
        k1 == k2,
    ensures
        spec_route(s1, xxhash64_of(k1)) == spec_route(s2, xxhash64_of(k2)),
{
}

/// The consistent hash ring over a fixed set of shards, immutable once
/// constructed.
pub struct ConsistentHashRing {
    ring: Vec<(u64, usize)>,
    vnodes: usize,
}

impl View for ConsistentHashRing {
    type V = Seq<(u64, usize)>;

    closed spec fn view(&self) -> Seq<(u64, usize)> {
        self.ring@
    }
}

impl ConsistentHashRing {
    /// Internal invariant: the ring is strictly sorted by position — the
    /// positions are the keys of a mapping — and has at least one entry.
    pub closed spec fn wf(&self) -> bool {
        &&& ring_sorted(self.ring@)
        &&& self.ring@.len() >= 1
    }

    /// How many virtual nodes each shard contributed.
    pub closed spec fn spec_vnodes(&self) -> usize {
        self.vnodes
    }

    /// Build the ordered mapping that holds, for every shard id given and
    /// every virtual node index below `vnodes`, the hash of the composite
    /// label paired with the shard id, inserted in that order; a later
    /// insertion whose label hashes to an already-present position replaces
    /// the entry there.  The result is exactly the sorted form of
    /// [`ring_model`]: every entry agrees with the mapping, and every
    /// position of the mapping stands in the ring.
    ///
    /// When no two labels collide — [`labels_injective`] — every listed
    /// shard id appears in the ring, so no shard is unreachable.
    pub fn new(shard_ids: Vec<usize>, vnodes: usize) -> (r: ConsistentHashRing)
        requires
            shard_ids@.len() >= 1,
            vnodes >= 1,
        ensures
            r.wf(),
            r.spec_vnodes() == vnodes,
            1 <= r@.len() <= shard_ids@.len() * vnodes,
            forall|j: int| 0 <= j < r@.len() ==> ring_entry_of(#[trigger] r@[j], shard_ids@, vnodes),
            forall|j: int|
                0 <= j < r@.len() ==> ring_model(shard_ids@, vnodes).contains_key(
                    (#[trigger] r@[j]).0,
                ) && ring_model(shard_ids@, vnodes)[r@[j].0] == r@[j].1,
            forall|h: u64|
                #![trigger ring_model(shard_ids@, vnodes).contains_key(h)]
                ring_model(shard_ids@, vnodes).contains_key(h) ==> ring_has_pos(r@, h),
            labels_injective(shard_ids@, vnodes) ==> forall|a: int|
                0 <= a < shard_ids@.len() ==> ring_covers(r@, #[trigger] shard_ids@[a]),
    {
        let mut ring: Vec<(u64, usize)> = Vec::new();
        let mut a: usize = 0;
        while a < shard_ids.len()
            invariant
                a <= shard_ids@.len(),
                vnodes >= 1,
                ring_sorted(ring@),
                ring@.len() <= a * vnodes,
                a >= 1 ==> ring@.len() >= 1,
                forall|j: int|
                    0 <= j < ring@.len() ==> ring_entry_of(#[trigger] ring@[j], shard_ids@, vnodes),
                forall|j: int|
                    0 <= j < ring@.len() ==> ring_model_upto(
                        shard_ids@,
                        vnodes,
                        a as int,
                        0,
                    ).contains_key((#[trigger] ring@[j]).0) && ring_model_upto(
                        shard_ids@,
                        vnodes,
                        a as int,
                        0,
                    )[ring@[j].0] == ring@[j].1,
                forall|h: u64|
                    #![trigger ring_model_upto(shard_ids@, vnodes, a as int, 0).contains_key(h)]
                    ring_model_upto(shard_ids@, vnodes, a as int, 0).contains_key(h)
                        ==> ring_has_pos(ring@, h),
            decreases shard_ids@.len() - a,
        {
            let id: usize = shard_ids[a];
            let mut b: usize = 0;
            while b < vnodes
                invariant
                    b <= vnodes,
                    a < shard_ids@.len(),
                    vnodes >= 1,
                    id == shard_ids@[a as int],
                    ring_sorted(ring@),
                    ring@.len() <= a * vnodes + b,
                    a >= 1 || b >= 1 ==> ring@.len() >= 1,
                    forall|j: int|
                        0 <= j < ring@.len() ==> ring_entry_of(
                            #[trigger] ring@[j],
                            shard_ids@,
                            vnodes,
                        ),
                    forall|j: int|
                        0 <= j < ring@.len() ==> ring_model_upto(
                            shard_ids@,
                            vnodes,
                            a as int,
                            b as int,
                        ).contains_key((#[trigger] ring@[j]).0) && ring_model_upto(
                            shard_ids@,
                            vnodes,
                            a as int,
                            b as int,
                        )[ring@[j].0] == ring@[j].1,
                    forall|h: u64|
                        #![trigger ring_model_upto(shard_ids@, vnodes, a as int, b as int).contains_key(h)]
                        ring_model_upto(shard_ids@, vnodes, a as int, b as int).contains_key(h)
                            ==> ring_has_pos(ring@, h),
                decreases vnodes - b,
            {
                let mut label: Vec<u8> = Vec::new();
                push_u64_dec(&mut label, id as u64);
                label.push(45u8);
                push_u64_dec(&mut label, b as u64);
                proof {
                    assert(label@ =~= vnode_label(id, b));
                }
                let h: u64 = xxhash64(&label);
                let ghost m0: Map<u64, usize> = ring_model_upto(
                    shard_ids@,
                    vnodes,
                    a as int,
                    b as int,
                );
                let ghost m1: Map<u64, usize> = ring_model_upto(
                    shard_ids@,
                    vnodes,
                    a as int,
                    b + 1,
                );
                proof {
                    assert(m1 == m0.insert(h, id));
                }

                // Find the first entry whose position is at or after `h`.
                let mut pos: usize = 0;
                while pos < ring.len() && ring[pos].0 < h
                    invariant
                        pos <= ring@.len(),
                        forall|j: int| 0 <= j < pos ==> (#[trigger] ring@[j]).0 < h,
                        ring_sorted(ring@),
                    decreases ring@.len() - pos,
                {
                    pos = pos + 1;
                }
                let ghost pre: Seq<(u64, usize)> = ring@;
                if pos < ring.len() && ring[pos].0 == h {
                    // The position is already taken: the later insertion
                    // replaces the entry there, as a mapping would.
                    ring.remove(pos);
                    ring.insert(pos, (h, id));
                    proof {
                        let cur = ring@;
                        assert(cur =~= pre.update(pos as int, (h, id)));
                        assert(forall|j: int|
                            0 <= j < cur.len() ==> #[trigger] cur[j] == (if j == pos {
                                (h, id)
                            } else {
                                pre[j]
                            }));
                        assert(ring_sorted(cur));
                        assert(ring_entry_of(cur[pos as int], shard_ids@, vnodes)) by {
                            assert(0 <= a < shard_ids@.len() && 0 <= b < vnodes && cur[pos as int]
                                == (
                                xxhash64_of(vnode_label(shard_ids@[a as int], b)),
                                shard_ids@[a as int],
                            ));
                        }
                        assert forall|j: int| 0 <= j < cur.len() implies m1.contains_key(
                            (#[trigger] cur[j]).0,
                        ) && m1[cur[j].0] == cur[j].1 by {
                            if j != pos {
                                assert(cur[j] == pre[j]);
                                assert(pre[j].0 != h);
                            }
                        }
                        assert forall|h2: u64| #![trigger m1.contains_key(h2)] m1.contains_key(
                            h2,
                        ) implies ring_has_pos(cur, h2) by {
                            if h2 == h {
                                assert(cur[pos as int].0 == h2);
                            } else {
                                let j0 = choose|j: int|
                                    0 <= j < pre.len() && (#[trigger] pre[j]).0 == h2;
                                assert(cur[j0].0 == h2);
                            }
                        }
                    }
                } else {
                    // A fresh position: insert it, keeping the order.
                    proof {
                        assert(forall|j: int|
                            pos <= j < pre.len() ==> (#[trigger] pre[j]).0 > h);
                    }
                    ring.insert(pos, (h, id));
                    proof {
                        let cur = ring@;
                        assert(forall|j: int|
                            0 <= j < cur.len() ==> #[trigger] cur[j] == (if j < pos {
                                pre[j]
                            } else if j == pos {
                                (h, id)
                            } else {
                                pre[j - 1]
                            }));
                        assert(ring_sorted(cur));
                        assert(ring_entry_of(cur[pos as int], shard_ids@, vnodes)) by {
                            assert(0 <= a < shard_ids@.len() && 0 <= b < vnodes && cur[pos as int]
                                == (
                                xxhash64_of(vnode_label(shard_ids@[a as int], b)),
                                shard_ids@[a as int],
                            ));
                        }
                        assert forall|j: int| 0 <= j < cur.len() implies m1.contains_key(
                            (#[trigger] cur[j]).0,
                        ) && m1[cur[j].0] == cur[j].1 by {
                            if j < pos {
                                assert(cur[j] == pre[j]);
                                assert(pre[j].0 < h);
                            } else if j > pos {
                                assert(cur[j] == pre[j - 1]);
                                assert(pre[j - 1].0 > h);
                            }
                        }
                        assert forall|h2: u64| #![trigger m1.contains_key(h2)] m1.contains_key(
                            h2,
                        ) implies ring_has_pos(cur, h2) by {
                            if h2 == h {
                                assert(cur[pos as int].0 == h2);
                            } else {
                                let j0 = choose|j: int|
                                    0 <= j < pre.len() && (#[trigger] pre[j]).0 == h2;
                                let j1: int = if j0 < pos {
                                    j0
                                } else {
                                    j0 + 1
                                };
                                assert(cur[j1].0 == h2);
                            }
                        }
                    }
                }
                b = b + 1;
            }
            proof {
                assert(ring_model_upto(shard_ids@, vnodes, a + 1, 0) == ring_model_upto(
                    shard_ids@,
                    vnodes,
                    a as int,
                    vnodes as int,
                ));
                assert((a + 1) * vnodes == a * vnodes + vnodes) by (nonlinear_arith);
            }
            a = a + 1;
        }
        proof {
            assert(ring_model_upto(shard_ids@, vnodes, shard_ids@.len() as int, 0) == ring_model(
                shard_ids@,
                vnodes,
            ));
            if labels_injective(shard_ids@, vnodes) {
                lemma_model_pairs(shard_ids@, vnodes, shard_ids@.len() as int, 0);
                assert forall|x: int| 0 <= x < shard_ids@.len() implies ring_covers(
                    ring@,
                    #[trigger] shard_ids@[x],
                ) by {
                    let key = xxhash64_of(vnode_label(shard_ids@[x], 0));
                    assert(ring_model(shard_ids@, vnodes).contains_key(key));
                    assert(ring_has_pos(ring@, key));
                    let j0 = choose|j: int| 0 <= j < ring@.len() && (#[trigger] ring@[j]).0 == key;
                    assert(ring@[j0].1 == shard_ids@[x]);
                }
            }
        }
        ConsistentHashRing { ring, vnodes }
    }

    /// The shard that owns `key`: hash the key and take the shard at the
    /// first ring position at or after the hash, wrapping around to the
    /// first entry.
    pub fn get_shard(&self, key: &Vec<u8>) -> (r: usize)
        requires
            self.wf(),
        ensures
            r == spec_route(self@, xxhash64_of(key@)),
    {
        let h: u64 = xxhash64(key);
        let mut i: usize = 0;
        while i < self.ring.len() && self.ring[i].0 < h
            invariant
                i <= self.ring@.len(),
                forall|j: int| 0 <= j < i ==> (#[trigger] self.ring@[j]).0 < h,
            decreases self.ring@.len() - i,
        {
            i = i + 1;
        }
        proof {
            lemma_first_ge_at(self.ring@, h, i as int);
        }
        if i < self.ring.len() {
            self.ring[i].1
        } else {
            self.ring[0].1
        }
    }
}

} // verus!
