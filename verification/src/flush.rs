//! Spreading persistence over fixed ticks: players whose state changed are
//! marked dirty; each flush boundary moves them to the flush set, which is
//! written back a few players per tick in ascending order; a failed write
//! pauses the flush until the next boundary, keeping the player queued.
use std::collections::BTreeSet;
use vstd::prelude::*;
use vstd::std_specs::btree::{increasing_seq, spec_btree_keys_iter};
use vstd::std_specs::cmp::OrdSpec;
use vstd::std_specs::iter::IteratorSpec;

verus! {

broadcast use {vstd::std_specs::btree::group_btree_axioms, vstd::laws_cmp::group_laws_cmp};

/// Most players written back per tick.
pub const DIRTY_DB_UPDATES_PER_TICK: usize = 8;

/// The dirty and flush sets and whether the flush is paused.
pub struct DirtyFlush {
    dirty: BTreeSet<u64>,
    flush: BTreeSet<u64>,
    paused: bool,
}

/// `r` holds, in increasing order, the `min(limit, |s|)` smallest members of
/// `s`.
pub open spec fn smallest_in_order(s: Set<u64>, limit: nat, r: Seq<u64>) -> bool {
    &&& r.len() == if limit < s.len() {
        limit
    } else {
        s.len()
    }
    &&& forall|i: int, j: int| 0 <= i < j < r.len() ==> r[i] < r[j]
    &&& forall|i: int| 0 <= i < r.len() ==> s.contains(#[trigger] r[i])
    &&& forall|x: u64| s.contains(x) && !r.contains(x) ==> forall|i: int| 0 <= i < r.len() ==> r[i] < x
}

/// The keys a `BTreeSet<u64>` walk yields are strictly ascending.
proof fn lemma_increasing_keys(ks: Seq<&u64>)
    requires
        increasing_seq(ks),
    ensures
        forall|i: int, j: int| 0 <= i < j < ks.len() ==> *ks[i] < *ks[j],
{
    assert(vstd::laws_cmp::obeys_cmp::<u64>());
    assert(vstd::laws_cmp::obeys_cmp::<&u64>());
    vstd::std_specs::btree::axiom_increasing_seq_meaning(ks);
    assert forall|i: int, j: int| 0 <= i < j < ks.len() implies *ks[i] < *ks[j] by {
        assert(OrdSpec::cmp_spec(&ks[i], &ks[j]) is Less);
    }
}

impl DirtyFlush {
    /// Players changed since the last flush boundary.
    pub closed spec fn dirty_set(&self) -> Set<u64> {
        self.dirty@
    }

    /// Players still to be written back in the current flush.
    pub closed spec fn flush_set(&self) -> Set<u64> {
        self.flush@
    }

    /// Whether a failed write paused the current flush.
    pub closed spec fn is_paused(&self) -> bool {
        self.paused
    }

    /// Nothing dirty, nothing queued, not paused.
    pub fn new() -> (r: DirtyFlush)
        ensures
            r.dirty_set() == Set::<u64>::empty(),
            r.flush_set() == Set::<u64>::empty(),
            !r.is_paused(),
    {
        DirtyFlush { dirty: BTreeSet::new(), flush: BTreeSet::new(), paused: false }
    }

    /// Mark `player` as changed.
    pub fn mark_dirty(&mut self, player: u64)
        ensures
            final(self).dirty_set() == old(self).dirty_set().insert(player),
            final(self).flush_set() == old(self).flush_set(),
            final(self).is_paused() == old(self).is_paused(),
    {
        self.dirty.insert(player);
    }

    /// A flush boundary: every dirty player joins the flush set, and a
    /// paused flush resumes.
    pub fn begin(&mut self)
        ensures
            final(self).flush_set() == old(self).flush_set().union(old(self).dirty_set()),
            final(self).dirty_set() == Set::<u64>::empty(),
            !final(self).is_paused(),
    {
        self.paused = false;
        let ghost ks = spec_btree_keys_iter(&self.dirty).remaining();
        let ghost start = self.flush@;
        let ghost d = self.dirty@;
        let ghost mut n: int = 0;
        for x in it: self.dirty.iter()
            invariant
                it.seq() == ks,
                ks.unref().to_set() == d,
                d == self.dirty@,
                !self.paused,
                n == it.index(),
                0 <= n <= ks.len(),
                self.flush@ == start.union(ks.unref().take(n).to_set()),
        {
            proof {
                assert(*x == ks.unref()[n]);
                assert(ks.unref().take(n + 1) =~= ks.unref().take(n).push(*x));
                ks.unref().take(n).lemma_push_to_set_commute(*x);
            }
            self.flush.insert(*x);
            proof {
                assert(self.flush@ =~= start.union(ks.unref().take(n + 1).to_set()));
                n = n + 1;
            }
        }
        proof {
            assert(ks.unref().take(n) =~= ks.unref());
        }
        self.dirty.clear();
    }

    /// The players to write back this tick: none while paused, else the
    /// `limit` smallest of the flush set in ascending order.
    pub fn next_batch(&self, limit: usize) -> (r: Vec<u64>)
        ensures
            self.is_paused() ==> r@.len() == 0,
            !self.is_paused() ==> smallest_in_order(self.flush_set(), limit as nat, r@),
    {
        let mut out: Vec<u64> = Vec::new();
        if self.paused {
            return out;
        }
        let ghost ks = spec_btree_keys_iter(&self.flush).remaining();
        let ghost s = self.flush@;
        proof {
            assert(increasing_seq(ks));
        }
        let ghost mut n: int = 0;
        for x in it: self.flush.iter()
            invariant
                it.seq() == ks,
                ks.unref().to_set() == s,
                ks.no_duplicates(),
                ks.len() == s.len(),
                increasing_seq(ks),
                n == it.index(),
                0 <= n <= ks.len(),
                out@.len() == if n < limit {
                    n
                } else {
                    limit as int
                },
                forall|i: int| 0 <= i < out@.len() ==> out@[i] == *ks[i],
        {
            proof {
                assert(*x == *ks[n]);
            }
            if out.len() < limit {
                out.push(*x);
            }
            proof {
                n = n + 1;
            }
        }
        proof {
            assert(n == ks.len());
            assert(out@.len() == if limit < s.len() {
                limit as nat
            } else {
                s.len()
            });
            lemma_increasing_keys(ks);
            assert forall|i: int| 0 <= i < out@.len() implies s.contains(#[trigger] out@[i]) by {
                assert(ks.unref()[i] == *ks[i]);
                assert(ks.unref().contains(*ks[i]));
            }
            assert forall|x: u64| s.contains(x) && !out@.contains(x) implies forall|i: int|
                0 <= i < out@.len() ==> out@[i] < x by {
                assert(ks.unref().to_set().contains(x));
                let j = choose|j: int| 0 <= j < ks.len() && ks.unref()[j] == x;
                assert(*ks[j] == x);
                if j < out@.len() {
                    assert(out@[j] == x);
                }
                assert forall|i: int| 0 <= i < out@.len() implies out@[i] < x by {
                    assert(out@[i] == *ks[i]);
                }
            }
            assert forall|i: int, j: int| 0 <= i < j < out@.len() implies out@[i] < out@[j] by {
                assert(out@[i] == *ks[i] && out@[j] == *ks[j]);
            }
        }
        out
    }

    /// `player` was written back: it leaves the flush set; whether it is
    /// dirty again (changed meanwhile).
    pub fn flushed(&mut self, player: u64) -> (still_dirty: bool)
        ensures
            final(self).flush_set() == old(self).flush_set().remove(player),
            final(self).dirty_set() == old(self).dirty_set(),
            final(self).is_paused() == old(self).is_paused(),
            still_dirty == old(self).dirty_set().contains(player),
    {
        self.flush.remove(&player);
        self.dirty.contains(&player)
    }

    /// Queue `player` for write-back now (a session that ended is written
    /// at once and stays queued until that write succeeds).
    pub fn queue(&mut self, player: u64)
        ensures
            final(self).flush_set() == old(self).flush_set().insert(player),
            final(self).dirty_set() == old(self).dirty_set(),
            final(self).is_paused() == old(self).is_paused(),
    {
        self.flush.insert(player);
    }

    /// A write failed: the flush pauses until the next boundary and keeps
    /// every player queued.
    pub fn failed(&mut self)
        ensures
            final(self).flush_set() == old(self).flush_set(),
            final(self).dirty_set() == old(self).dirty_set(),
            final(self).is_paused(),
    {
        self.paused = true;
    }

    /// `player` was written back outside the tick flush (on disconnect or
    /// shutdown): it is neither queued nor dirty any more.
    pub fn settled(&mut self, player: u64)
        ensures
            final(self).flush_set() == old(self).flush_set().remove(player),
            final(self).dirty_set() == old(self).dirty_set().remove(player),
            final(self).is_paused() == old(self).is_paused(),
    {
        self.flush.remove(&player);
        self.dirty.remove(&player);
    }
}

} // verus!
