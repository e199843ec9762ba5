//! Spec-level bookkeeping over sequences of buffers, each seen as a pair of
//! its handle and its contents.
use vstd::prelude::*;

verus! {

/// A buffer as the contracts see it: its handle and its bytes.
pub type BufView = (u64, Seq<u8>);

/// The sum of the capacities of the buffers in `s`.
pub open spec fn total(s: Seq<BufView>) -> int
    decreases s.len(),
{
    if s.len() == 0 {
        0
    } else {
        total(s.drop_last()) + s.last().1.len()
    }
}

/// `a` comes strictly before `b` in (capacity, handle) order.
pub open spec fn key_lt(a: BufView, b: BufView) -> bool {
    a.1.len() < b.1.len() || (a.1.len() == b.1.len() && a.0 < b.0)
}

/// `s` is strictly ascending in (capacity, handle) order.
pub open spec fn sorted_by_key(s: Seq<BufView>) -> bool {
    forall|i: int, j: int| 0 <= i < j < s.len() ==> #[trigger] key_lt(s[i], s[j])
}

/// `n` zero bytes.
pub open spec fn zeros(n: nat) -> Seq<u8> {
    Seq::new(n, |i: int| 0u8)
}

/// The free buffers that remain after evicting from `s` until at least `need`
/// bytes are freed, taking alternately the last (largest) and the first
/// (smallest) buffer, starting with the last when `top` holds.
pub open spec fn evict_from(s: Seq<BufView>, need: int, top: bool) -> Seq<BufView>
    decreases s.len(),
{
    if need <= 0 || s.len() == 0 {
        s
    } else if top {
        evict_from(s.drop_last(), need - s.last().1.len(), false)
    } else {
        evict_from(s.subrange(1, s.len() as int), need - s[0].1.len(), true)
    }
}

/// A total is never negative.
pub proof fn lemma_total_nonneg(s: Seq<BufView>)
    ensures
        total(s) >= 0,
    decreases s.len(),
{
    if s.len() > 0 {
        lemma_total_nonneg(s.drop_last());
    }
}

/// Removing one buffer takes its capacity off the total.
pub proof fn lemma_total_remove(s: Seq<BufView>, i: int)
    requires
        0 <= i < s.len(),
    ensures
        total(s.remove(i)) == total(s) - s[i].1.len(),
    decreases s.len(),
{
    if i < s.len() - 1 {
        lemma_total_remove(s.drop_last(), i);
        assert(s.remove(i).drop_last() =~= s.drop_last().remove(i));
        assert(s.remove(i).last() == s.last());
    } else {
        assert(s.remove(i) =~= s.drop_last());
    }
}

/// Inserting one buffer adds its capacity to the total.
pub proof fn lemma_total_insert(s: Seq<BufView>, i: int, b: BufView)
    requires
        0 <= i <= s.len(),
    ensures
        total(s.insert(i, b)) == total(s) + b.1.len(),
{
    lemma_total_remove(s.insert(i, b), i);
    assert(s.insert(i, b).remove(i) =~= s);
}

/// Appending one buffer adds its capacity to the total.
pub proof fn lemma_total_push(s: Seq<BufView>, b: BufView)
    ensures
        total(s.push(b)) == total(s) + b.1.len(),
{
    assert(s.push(b).drop_last() =~= s);
}

/// Each buffer's capacity is at most the total.
pub proof fn lemma_total_bounds(s: Seq<BufView>, i: int)
    requires
        0 <= i < s.len(),
    ensures
        s[i].1.len() <= total(s),
{
    lemma_total_remove(s, i);
    lemma_total_nonneg(s.remove(i));
}

} // verus!
