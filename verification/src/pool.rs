//! The arbiter for a small set of expensive, mutually-exclusive rendering
//! devices: reuse a free one, grow by one when none is free, never shrink.
//!
//! This is the pool's decision core over plain state — which entry an
//! acquire takes, and when the pool grows.  A driver pairs each entry with
//! the real device and a lock; device creation and lock contention are its
//! outside work, and on the narrow race where a freshly grown entry is
//! immediately contended it retries the whole acquire.
use vstd::prelude::*;

verus! {

/// How many entries of the pool are held.
pub open spec fn held_count(s: Seq<bool>) -> int
    decreases s,
{
    if s.len() == 0 {
        0
    } else {
        held_count(s.drop_last()) + if s.last() {
            1int
        } else {
            0int
        }
    }
}

/// The least index not currently held, when one is free.
pub open spec fn has_free(s: Seq<bool>) -> bool {
    exists|j: int| 0 <= j < s.len() && s[j] == false
}

/// What one acquire does to the pool: mark the first free entry held, or
/// append a held entry.
pub open spec fn acquire_spec(s: Seq<bool>) -> Seq<bool> {
    if has_free(s) {
        s.update(first_free(s), true)
    } else {
        s.push(true)
    }
}

/// The least free index of a pool that has one.
pub open spec fn first_free(s: Seq<bool>) -> int {
    choose|j: int|
        0 <= j < s.len() && s[j] == false && forall|k: int| 0 <= k < j ==> s[k] == true
}

/// The growable pool of device slots; `true` marks a held slot.  Entries
/// are never removed, so the pool converges to the peak concurrent demand
/// seen so far.
pub struct Pool {
    pub held: Vec<bool>,
}

impl Pool {
    /// An empty pool: nothing is pre-sized.
    pub fn new() -> (r: Pool)
        ensures
            r.held@.len() == 0,
    {
        Pool { held: Vec::new() }
    }

    /// Take exclusive hold of a slot: the first free one, or a fresh slot
    /// appended when every existing one is held.  The returned slot was not
    /// held before and is held after, so no two holders share a slot.
    pub fn acquire(&mut self) -> (i: usize)
        ensures
            final(self).held@ == acquire_spec(old(self).held@),
            i < final(self).held@.len(),
            final(self).held@[i as int] == true,
            i < old(self).held@.len() ==> old(self).held@[i as int] == false,
            has_free(old(self).held@) ==> (final(self).held@.len() == old(self).held@.len() && i
                == first_free(old(self).held@)),
            !has_free(old(self).held@) ==> (final(self).held@.len() == old(self).held@.len() + 1
                && i == old(self).held@.len()),
    {
        let n = self.held.len();
        let mut j: usize = 0;
        while j < n
            invariant
                self.held@ == old(self).held@,
                n == self.held@.len(),
                0 <= j <= n,
                forall|k: int| 0 <= k < j ==> self.held@[k] == true,
            decreases n - j,
        {
            if !self.held[j] {
                proof {
                    assert(self.held@[j as int] == false);
                    assert(first_free(self.held@) == j) by {
                        let f = first_free(self.held@);
                        assert(0 <= f < self.held@.len() && self.held@[f] == false && forall|
                            k: int,
                        | 0 <= k < f ==> self.held@[k] == true);
                        if f < j {
                            assert(self.held@[f] == true);
                        } else if f > j {
                            assert(self.held@[j as int] == true);
                        }
                    }
                }
                let e = vstd::std_specs::vec::vec_index_mut(&mut self.held, j);
                *e = true;
                return j;
            }
            j = j + 1;
        }
        proof {
            assert(!has_free(self.held@));
        }
        self.held.push(true);
        n
    }

    /// Give a held slot back.
    pub fn release(&mut self, i: usize)
        requires
            i < old(self).held@.len(),
            old(self).held@[i as int] == true,
        ensures
            final(self).held@ == old(self).held@.update(i as int, false),
    {
        let e = vstd::std_specs::vec::vec_index_mut(&mut self.held, i);
        *e = false;
    }

    /// How many slots exist.
    pub fn len(&self) -> (r: usize)
        ensures
            r == self.held@.len(),
    {
        self.held.len()
    }
}

/// A pool with a free slot has a least free slot.
proof fn lemma_first_free_props(s: Seq<bool>)
    requires
        has_free(s),
    ensures
        0 <= first_free(s) < s.len(),
        s[first_free(s)] == false,
        forall|k: int| 0 <= k < first_free(s) ==> s[k] == true,
    decreases s,
{
    if s[0] == false {
        assert(0 <= 0 < s.len() && s[0] == false && forall|k: int| 0 <= k < 0 ==> s[k] == true);
    } else {
        let d = s.drop_first();
        assert(has_free(d)) by {
            let j = choose|j: int| 0 <= j < s.len() && s[j] == false;
            assert(d[j - 1] == false);
        }
        lemma_first_free_props(d);
        let f = first_free(d);
        assert(0 <= f + 1 < s.len() && s[f + 1] == false && forall|k: int|
            0 <= k < f + 1 ==> s[k] == true) by {
            assert(forall|k: int| 0 <= k < f ==> d[k] == true);
            assert(forall|k: int| 1 <= k < f + 1 ==> s[k] == d[k - 1]);
        }
    }
}

proof fn lemma_held_count_all(s: Seq<bool>)
    requires
        forall|j: int| 0 <= j < s.len() ==> s[j] == true,
    ensures
        held_count(s) == s.len(),
    decreases s,
{
    if s.len() > 0 {
        assert(forall|j: int| 0 <= j < s.drop_last().len() ==> s.drop_last()[j] == true);
        lemma_held_count_all(s.drop_last());
    }
}

proof fn lemma_held_count_push(s: Seq<bool>, v: bool)
    ensures
        held_count(s.push(v)) == held_count(s) + if v {
            1int
        } else {
            0int
        },
{
    assert(s.push(v).drop_last() =~= s);
}

/// One recorded step of pool history: an acquire, or the release of a slot.
pub enum PoolOp {
    Acquire,
    Release(int),
}

/// The pool state after a history of steps, starting empty.  A release of
/// a slot that does not exist or is not held changes nothing.
pub open spec fn replay(ops: Seq<PoolOp>) -> Seq<bool>
    decreases ops,
{
    if ops.len() == 0 {
        Seq::empty()
    } else {
        let s = replay(ops.drop_last());
        match ops.last() {
            PoolOp::Acquire => acquire_spec(s),
            PoolOp::Release(i) => if 0 <= i < s.len() && s[i] == true {
                s.update(i, false)
            } else {
                s
            },
        }
    }
}

/// Law: a pool driven by any history whose concurrent holders never pass
/// `k` grows to at most `k` slots — it never constructs more devices than
/// the peak demand.
#[verifier::rlimit(60)]
pub proof fn lemma_pool_growth_bounded(ops: Seq<PoolOp>, k: int)
    requires
        k >= 0,
        forall|p: int|
            0 <= p <= ops.len() ==> held_count(#[trigger] replay(ops.subrange(0, p))) <= k,
    ensures
        replay(ops).len() <= k,
    decreases ops,
{
    if ops.len() == 0 {
    } else {
        let prev = ops.drop_last();
        assert(prev =~= ops.subrange(0, ops.len() - 1));
        assert forall|p: int|
            0 <= p <= prev.len() implies held_count(#[trigger] replay(prev.subrange(0, p)))
            <= k by {
            assert(prev.subrange(0, p) =~= ops.subrange(0, p));
        }
        lemma_pool_growth_bounded(prev, k);
        let s = replay(prev);
        match ops.last() {
            PoolOp::Acquire => {
                if has_free(s) {
                    lemma_first_free_props(s);
                    assert(replay(ops).len() == s.len());
                } else {
                    // every slot is held, so the holders equal the slots,
                    // and the grown pool stays within the demand cap
                    assert(forall|j: int| 0 <= j < s.len() ==> s[j] == true);
                    lemma_held_count_all(s);
                    lemma_held_count_push(s, true);
                    assert(ops.subrange(0, ops.len() as int) =~= ops);
                    assert(held_count(replay(ops)) <= k);
                    assert(replay(ops).len() == s.len() + 1);
                }
            },
            PoolOp::Release(i) => {
                assert(replay(ops).len() == s.len());
            },
        }
    }
}

} // verus!
