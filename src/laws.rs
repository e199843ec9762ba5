//! Properties of the pool that hold across its operations.
use vstd::prelude::*;
use crate::ledger::{BufView, total, key_lt, evict_from, lemma_total_nonneg, lemma_total_remove};
use crate::pool::{RustyBuffers, first_fit, holds};

verus! {

/// In every consistent pool, the bytes in use never exceed the bytes
/// allocated.
pub proof fn lemma_in_use_within_allocated(p: &RustyBuffers)
    requires
        p.wf(),
    ensures
        p.in_use() <= p.allocated(),
{
    lemma_total_nonneg(p.free_view());
}

/// The buffer that `acquire` reuses is the smallest free buffer that fits
/// the request, and the one with the lowest handle among those of that
/// capacity.
pub proof fn lemma_reuse_is_best_fit(p: &RustyBuffers, size: int, k: int)
    requires
        p.wf(),
        first_fit(p.free_view(), size, k),
    ensures
        forall|j: int| 0 <= j < p.free_view().len() && j != k && p.free_view()[j].1.len() >= size
            ==> key_lt(p.free_view()[k], #[trigger] p.free_view()[j]),
{
    assert forall|j: int| 0 <= j < p.free_view().len() && j != k && p.free_view()[j].1.len() >= size
        implies key_lt(p.free_view()[k], #[trigger] p.free_view()[j]) by {
        if j > k {
            assert(key_lt(p.free_view()[k], p.free_view()[j]));
        }
    }
}

/// A handle is lent out to at most one holder, and a lent buffer is never
/// in the free index at the same time.
pub proof fn lemma_lent_at_most_once(p: &RustyBuffers, id: u64)
    requires
        p.wf(),
    ensures
        forall|i: int, j: int|
            0 <= i < p.lent_view().len() && 0 <= j < p.lent_view().len() && p.lent_view()[i].0 == id
                && p.lent_view()[j].0 == id ==> i == j,
        p.is_lent(id) ==> !holds(p.free_view(), id),
{
}

/// Eviction only ever takes buffers from the two ends of the free index:
/// what survives is a contiguous run of it.
pub proof fn lemma_eviction_keeps_a_middle_run(s: Seq<BufView>, need: int, top: bool)
    ensures
        exists|a: int, b: int| 0 <= a <= b <= s.len() && evict_from(s, need, top) == s.subrange(a, b),
    decreases s.len(),
{
    if need <= 0 || s.len() == 0 {
        assert(s.subrange(0, s.len() as int) =~= s);
    } else if top {
        let t = s.drop_last();
        lemma_eviction_keeps_a_middle_run(t, need - s.last().1.len(), false);
        let (a, b) = choose|a: int, b: int| 0 <= a <= b <= t.len()
            && evict_from(t, need - s.last().1.len(), false) == t.subrange(a, b);
        assert(t.subrange(a, b) =~= s.subrange(a, b));
    } else {
        let t = s.subrange(1, s.len() as int);
        lemma_eviction_keeps_a_middle_run(t, need - s[0].1.len(), true);
        let (a, b) = choose|a: int, b: int| 0 <= a <= b <= t.len()
            && evict_from(t, need - s[0].1.len(), true) == t.subrange(a, b);
        assert(t.subrange(a, b) =~= s.subrange(a + 1, b + 1));
    }
}

/// Eviction frees at least the bytes asked for, where the free buffers hold
/// that many.
pub proof fn lemma_eviction_frees_enough(s: Seq<BufView>, need: int, top: bool)
    requires
        need <= total(s),
    ensures
        total(s) - total(evict_from(s, need, top)) >= need,
    decreases s.len(),
{
    if need <= 0 || s.len() == 0 {
    } else if top {
        let t = s.drop_last();
        lemma_eviction_frees_enough(t, need - s.last().1.len(), false);
    } else {
        let t = s.subrange(1, s.len() as int);
        lemma_total_remove(s, 0);
        assert(s.remove(0) =~= t);
        lemma_eviction_frees_enough(t, need - s[0].1.len(), true);
    }
}

} // verus!
