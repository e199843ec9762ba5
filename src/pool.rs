//! The buffer pool: storage of every live buffer, the free index and the
//! budget counters.
use vstd::prelude::*;
use crate::error::RBError;
use crate::ledger::{BufView, total, key_lt, sorted_by_key, zeros, evict_from};
use crate::ledger::{lemma_total_nonneg, lemma_total_remove, lemma_total_insert, lemma_total_push, lemma_total_bounds};

verus! {

/// The total budget of a pool that was never configured: 1 GiB.
pub const DEFAULT_MAX_TOTAL_SIZE: usize = 1024 * 1024 * 1024;

/// The per-buffer ceiling of a pool that was never configured: 10 MiB.
pub const DEFAULT_MAX_BUFFER_SIZE: usize = 10 * 1024 * 1024;

/// The byte storage of one buffer. Its capacity is the length of `data`.
pub struct RBEntry {
    pub data: Vec<u8>,
}

impl RBEntry {
    /// A buffer of `size` zero bytes.
    pub fn new(size: usize) -> (r: RBEntry)
        ensures
            r.data@ == zeros(size as nat),
    {
        let data: Vec<u8> = vec![0u8; size];
        assert(data@ =~= zeros(size as nat));
        RBEntry { data }
    }
}

/// A buffer together with its handle, as the contracts see it.
pub open spec fn view_of(e: (u64, RBEntry)) -> BufView {
    (e.0, e.1.data@)
}

/// The handles in `s` are pairwise distinct.
pub open spec fn distinct_handles(s: Seq<BufView>) -> bool {
    forall|i: int, j: int| 0 <= i < s.len() && 0 <= j < s.len() && i != j ==> s[i].0 != s[j].0
}

/// Some buffer in `s` has handle `id`.
pub open spec fn holds(s: Seq<BufView>, id: u64) -> bool {
    exists|i: int| 0 <= i < s.len() && s[i].0 == id
}

/// `b` comes strictly before a buffer of capacity `cap` and handle `id` in
/// (capacity, handle) order.
pub open spec fn below(b: BufView, cap: int, id: u64) -> bool {
    b.1.len() < cap || (b.1.len() == cap && b.0 < id)
}

/// Some buffer in `s` can hold `size` bytes.
pub open spec fn has_fit(s: Seq<BufView>, size: int) -> bool {
    exists|i: int| 0 <= i < s.len() && s[i].1.len() >= size
}

/// `k` is the first buffer in `s` that can hold `size` bytes.
pub open spec fn first_fit(s: Seq<BufView>, size: int, k: int) -> bool {
    &&& 0 <= k < s.len()
    &&& s[k].1.len() >= size
    &&& forall|j: int| 0 <= j < k ==> s[j].1.len() < size
}

/// Sets every byte of `data` to zero.
fn zero_fill(data: &mut Vec<u8>)
    ensures
        final(data)@ == zeros(old(data)@.len()),
{
    let n = data.len();
    let mut i: usize = 0;
    while i < n
        invariant
            data.len() == n,
            n == old(data)@.len(),
            i <= n,
            forall|j: int| 0 <= j < i ==> data@[j] == 0u8,
        decreases n - i,
    {
        data.set(i, 0u8);
        i = i + 1;
    }
    assert(data@ =~= zeros(n as nat));
}

/// A process-wide pool of reusable byte buffers.
///
/// Every live buffer is either lent out (in `lent`, in the order of lending)
/// or free (in `free`, ascending by capacity then handle). Handles come from
/// a counter and are never reused.
pub struct RustyBuffers {
    lent: Vec<(u64, RBEntry)>,
    free: Vec<(u64, RBEntry)>,
    bytes_allocated: usize,
    bytes_in_use: usize,
    max_total_size: usize,
    max_buffer_size: usize,
    next_id: u64,
}

impl RustyBuffers {
    /// The buffers currently lent out, with their contents.
    pub closed spec fn lent_view(&self) -> Seq<BufView> {
        self.lent@.map_values(|e: (u64, RBEntry)| view_of(e))
    }

    /// The free index: the free buffers, with their contents, in
    /// (capacity, handle) order.
    pub closed spec fn free_view(&self) -> Seq<BufView> {
        self.free@.map_values(|e: (u64, RBEntry)| view_of(e))
    }

    /// Bytes allocated: the sum of the capacities of all live buffers.
    pub closed spec fn allocated(&self) -> int {
        self.bytes_allocated as int
    }

    /// Bytes in use: the sum of the capacities of the lent buffers.
    pub closed spec fn in_use(&self) -> int {
        self.bytes_in_use as int
    }

    /// The ceiling on bytes allocated.
    pub closed spec fn max_total(&self) -> int {
        self.max_total_size as int
    }

    /// The ceiling on the capacity of one buffer.
    pub closed spec fn max_buffer(&self) -> int {
        self.max_buffer_size as int
    }

    /// The handle that the next fresh buffer will get.
    pub closed spec fn next_handle(&self) -> u64 {
        self.next_id
    }

    /// `id` names a buffer that is currently lent out.
    pub open spec fn is_lent(&self, id: u64) -> bool {
        holds(self.lent_view(), id)
    }

    /// The internal consistency of the pool.
    pub open spec fn wf(&self) -> bool {
        &&& sorted_by_key(self.free_view())
        &&& distinct_handles(self.lent_view())
        &&& distinct_handles(self.free_view())
        &&& forall|i: int, j: int|
            0 <= i < self.lent_view().len() && 0 <= j < self.free_view().len()
                ==> self.lent_view()[i].0 != self.free_view()[j].0
        &&& forall|i: int| 0 <= i < self.lent_view().len() ==> self.lent_view()[i].0 < self.next_handle()
        &&& forall|i: int| 0 <= i < self.free_view().len() ==> self.free_view()[i].0 < self.next_handle()
        &&& self.in_use() == total(self.lent_view())
        &&& self.allocated() == self.in_use() + total(self.free_view())
    }

    /// The budget holds: bytes in use never exceed bytes allocated, which
    /// never exceed the total ceiling.
    pub open spec fn within_budget(&self) -> bool {
        self.in_use() <= self.allocated() <= self.max_total()
    }

    /// An empty pool with the default ceilings.
    pub fn new() -> (r: RustyBuffers)
        ensures
            r.wf(),
            r.within_budget(),
            r.lent_view().len() == 0,
            r.free_view().len() == 0,
            r.allocated() == 0,
            r.in_use() == 0,
            r.max_total() == DEFAULT_MAX_TOTAL_SIZE,
            r.max_buffer() == DEFAULT_MAX_BUFFER_SIZE,
            r.next_handle() == 1,
    {
        let r = RustyBuffers {
            lent: Vec::new(),
            free: Vec::new(),
            bytes_allocated: 0,
            bytes_in_use: 0,
            max_total_size: DEFAULT_MAX_TOTAL_SIZE,
            max_buffer_size: DEFAULT_MAX_BUFFER_SIZE,
            next_id: 1,
        };
        assert(r.lent_view() =~= Seq::empty());
        assert(r.free_view() =~= Seq::empty());
        r
    }

    /// Replaces both ceilings. Existing buffers are left as they are.
    pub fn configure(&mut self, max_total_size: usize, max_buffer_size: usize) -> (r: Result<(), RBError>)
        requires
            old(self).wf(),
        ensures
            r == Ok::<(), RBError>(()),
            final(self).wf(),
            final(self).max_total() == max_total_size,
            final(self).max_buffer() == max_buffer_size,
            final(self).lent_view() == old(self).lent_view(),
            final(self).free_view() == old(self).free_view(),
            final(self).allocated() == old(self).allocated(),
            final(self).in_use() == old(self).in_use(),
            final(self).next_handle() == old(self).next_handle(),
            old(self).within_budget() && old(self).allocated() <= max_total_size ==> final(self).within_budget(),
    {
        self.max_total_size = max_total_size;
        self.max_buffer_size = max_buffer_size;
        Ok(())
    }
    /// Makes room for a new buffer of `size` bytes, if the budget allows it.
    ///
    /// Returns whether `size` more bytes fit under the total ceiling once
    /// every free buffer that must go is evicted. Where they already fit,
    /// nothing is evicted; where they cannot fit even after evicting every
    /// free buffer, nothing changes. Otherwise free buffers are evicted
    /// alternately from the largest and the smallest end of the free index
    /// until enough bytes are freed.
    pub fn can_allocate(&mut self, size: usize) -> (r: bool)
        requires
            old(self).wf(),
        ensures
            final(self).wf(),
            r == (old(self).in_use() + size <= old(self).max_total()),
            !r ==> *final(self) == *old(self),
            r ==> final(self).allocated() + size <= final(self).max_total(),
            r ==> final(self).free_view() == evict_from(
                old(self).free_view(),
                old(self).allocated() + size - old(self).max_total(),
                true,
            ),
            final(self).allocated() == old(self).allocated() - (total(old(self).free_view())
                - total(final(self).free_view())),
            final(self).lent_view() == old(self).lent_view(),
            final(self).in_use() == old(self).in_use(),
            final(self).max_total() == old(self).max_total(),
            final(self).max_buffer() == old(self).max_buffer(),
            final(self).next_handle() == old(self).next_handle(),
    {
        proof {
            lemma_total_nonneg(self.free_view());
            lemma_total_nonneg(self.lent_view());
        }
        if self.bytes_allocated <= self.max_total_size && size <= self.max_total_size - self.bytes_allocated {
            return true;
        }
        if self.bytes_in_use > self.max_total_size || size > self.max_total_size - self.bytes_in_use {
            return false;
        }
        // At least this many bytes of free buffers must go.
        let required: usize = self.bytes_allocated - (self.max_total_size - size);
        let ghost start = self.free_view();
        let ghost target = evict_from(start, required as int, true);
        let mut freed: usize = 0;
        let mut top: bool = true;
        while freed < required
            invariant
                sorted_by_key(self.free_view()),
                distinct_handles(self.free_view()),
                forall|j: int| 0 <= j < self.free_view().len() ==> exists|i: int|
                    0 <= i < start.len() && #[trigger] self.free_view()[j] == start[i],
                self.lent == old(self).lent,
                self.bytes_allocated == old(self).bytes_allocated,
                self.bytes_in_use == old(self).bytes_in_use,
                self.max_total_size == old(self).max_total_size,
                self.max_buffer_size == old(self).max_buffer_size,
                self.next_id == old(self).next_id,
                start == old(self).free_view(),
                target == evict_from(start, required as int, true),
                old(self).wf(),
                required <= total(start),
                freed + total(self.free_view()) == total(start),
                evict_from(self.free_view(), required - freed, top) == target,
            decreases self.free.len(),
        {
            let ghost prev = self.free_view();
            let entry: (u64, RBEntry);
            if top {
                entry = self.free.pop().unwrap();
                proof {
                    assert(self.free_view() =~= prev.drop_last());
                    lemma_total_remove(prev, prev.len() - 1);
                    assert(prev.remove(prev.len() - 1) =~= prev.drop_last());
                }
            } else {
                entry = self.free.remove(0);
                proof {
                    assert(self.free_view() =~= prev.subrange(1, prev.len() as int));
                    lemma_total_remove(prev, 0);
                    assert(prev.remove(0) =~= prev.subrange(1, prev.len() as int));
                }
            }
            proof {
                lemma_total_nonneg(self.free_view());
                assert forall|j: int| 0 <= j < self.free_view().len() implies exists|i: int|
                    0 <= i < start.len() && #[trigger] self.free_view()[j] == start[i] by {
                    if top {
                        assert(self.free_view()[j] == prev[j]);
                    } else {
                        assert(self.free_view()[j] == prev[j + 1]);
                    }
                }
            }
            freed = freed + entry.1.data.len();
            top = !top;
        }
        proof {
            lemma_total_nonneg(self.free_view());
        }
        self.bytes_allocated = self.bytes_allocated - freed;
        proof {
            assert forall|i: int, j: int|
                0 <= i < self.lent_view().len() && 0 <= j < self.free_view().len()
                    implies self.lent_view()[i].0 != self.free_view()[j].0 by {
                let k = choose|k: int| 0 <= k < start.len() && self.free_view()[j] == start[k];
                assert(old(self).free_view()[k] == start[k]);
            }
            assert forall|j: int| 0 <= j < self.free_view().len()
                implies self.free_view()[j].0 < self.next_handle() by {
                let k = choose|k: int| 0 <= k < start.len() && self.free_view()[j] == start[k];
                assert(old(self).free_view()[k] == start[k]);
            }
        }
        true
    }
    /// The position in the free index of the smallest free buffer that can
    /// hold `size` bytes, or the length of the free index if none can.
    /// A binary search: capacities ascend along the free index.
    fn best_fit(&self, size: usize) -> (k: usize)
        requires
            sorted_by_key(self.free_view()),
        ensures
            k <= self.free_view().len(),
            k < self.free_view().len() ==> first_fit(self.free_view(), size as int, k as int),
            k == self.free_view().len() ==> !has_fit(self.free_view(), size as int),
    {
        let ghost s = self.free_view();
        let mut lo: usize = 0;
        let mut hi: usize = self.free.len();
        while lo < hi
            invariant
                s == self.free_view(),
                sorted_by_key(s),
                lo <= hi <= s.len(),
                forall|j: int| 0 <= j < lo ==> s[j].1.len() < size,
                forall|j: int| hi <= j < s.len() ==> s[j].1.len() >= size,
            decreases hi - lo,
        {
            let mid = lo + (hi - lo) / 2;
            if self.free[mid].1.data.len() >= size {
                proof {
                    assert forall|j: int| mid <= j < s.len() implies s[j].1.len() >= size by {
                        if j > mid {
                            assert(key_lt(s[mid as int], s[j]));
                        }
                    }
                }
                hi = mid;
            } else {
                proof {
                    assert forall|j: int| 0 <= j <= mid implies s[j].1.len() < size by {
                        if j < mid {
                            assert(key_lt(s[j], s[mid as int]));
                        }
                    }
                }
                lo = mid + 1;
            }
        }
        lo
    }

    /// Lends out a zero-filled buffer that can hold `size` bytes and returns
    /// its handle.
    ///
    /// The smallest free buffer that is large enough is reused (by handle
    /// where capacities tie). Otherwise a fresh buffer of exactly `size`
    /// bytes is allocated, after evicting free buffers where the budget
    /// requires it.
    pub fn acquire(&mut self, size: usize) -> (r: Result<u64, RBError>)
        requires
            old(self).wf(),
        ensures
            final(self).wf(),
            old(self).within_budget() ==> final(self).within_budget(),
            final(self).max_total() == old(self).max_total(),
            final(self).max_buffer() == old(self).max_buffer(),
            r.is_ok() ==> final(self).lent_view().len() == old(self).lent_view().len() + 1
                && final(self).lent_view().last().0 == r.unwrap()
                && final(self).lent_view().last().1 == zeros(final(self).lent_view().last().1.len())
                && final(self).lent_view().last().1.len() >= size,
            size > old(self).max_buffer() ==> r == Err::<u64, RBError>(RBError::SizeTooBig)
                && *final(self) == *old(self),
            size <= old(self).max_buffer() && has_fit(old(self).free_view(), size as int) ==> exists|k: int|
                first_fit(old(self).free_view(), size as int, k)
                && r == Ok::<u64, RBError>(old(self).free_view()[k].0)
                && final(self).free_view() == old(self).free_view().remove(k)
                && final(self).lent_view() == old(self).lent_view().push(
                    (old(self).free_view()[k].0, zeros(old(self).free_view()[k].1.len())))
                && final(self).allocated() == old(self).allocated()
                && final(self).in_use() == old(self).in_use() + old(self).free_view()[k].1.len()
                && final(self).next_handle() == old(self).next_handle(),
            size <= old(self).max_buffer() && !has_fit(old(self).free_view(), size as int)
                && (old(self).next_handle() == u64::MAX || old(self).in_use() + size > old(self).max_total())
                ==> r == Err::<u64, RBError>(RBError::NoBufferAvailable) && *final(self) == *old(self),
            size <= old(self).max_buffer() && !has_fit(old(self).free_view(), size as int)
                && old(self).next_handle() < u64::MAX && old(self).in_use() + size <= old(self).max_total()
                ==> r == Ok::<u64, RBError>(old(self).next_handle())
                && final(self).lent_view() == old(self).lent_view().push((old(self).next_handle(), zeros(size as nat)))
                && final(self).free_view() == evict_from(
                    old(self).free_view(),
                    old(self).allocated() + size - old(self).max_total(),
                    true,
                )
                && final(self).allocated() == old(self).allocated() - (total(old(self).free_view())
                    - total(final(self).free_view())) + size
                && final(self).allocated() <= final(self).max_total()
                && final(self).in_use() == old(self).in_use() + size
                && final(self).next_handle() == old(self).next_handle() + 1,
    {
        if size > self.max_buffer_size {
            return Err(RBError::SizeTooBig);
        }
        let k = self.best_fit(size);
        if k < self.free.len() {
            let ghost prev_free = self.free_view();
            let ghost prev_lent = self.lent_view();
            proof {
                lemma_total_bounds(prev_free, k as int);
                lemma_total_remove(prev_free, k as int);
                lemma_total_nonneg(prev_free.remove(k as int));
            }
            let (id, mut entry) = self.free.remove(k);
            zero_fill(&mut entry.data);
            self.bytes_in_use = self.bytes_in_use + entry.data.len();
            self.lent.push((id, entry));
            proof {
                assert(self.free_view() =~= prev_free.remove(k as int));
                assert(self.lent_view() =~= prev_lent.push((id, zeros(prev_free[k as int].1.len()))));
                lemma_total_push(prev_lent, (id, zeros(prev_free[k as int].1.len())));
                assert forall|i: int, j: int|
                    0 <= i < self.lent_view().len() && 0 <= j < self.free_view().len()
                        implies self.lent_view()[i].0 != self.free_view()[j].0 by {
                    if j >= k {
                        assert(self.free_view()[j] == prev_free[j + 1]);
                    }
                }
                assert(distinct_handles(self.lent_view())) by {
                    assert forall|i: int, j: int|
                        0 <= i < self.lent_view().len() && 0 <= j < self.lent_view().len() && i != j
                            implies self.lent_view()[i].0 != self.lent_view()[j].0 by {
                        if i == prev_lent.len() && j < prev_lent.len() {
                            assert(self.lent_view()[j] == prev_lent[j]);
                        } else if j == prev_lent.len() && i < prev_lent.len() {
                            assert(self.lent_view()[i] == prev_lent[i]);
                        }
                    }
                }
                assert(distinct_handles(self.free_view())) by {
                    assert forall|i: int, j: int|
                        0 <= i < self.free_view().len() && 0 <= j < self.free_view().len() && i != j
                            implies self.free_view()[i].0 != self.free_view()[j].0 by {
                        let a = if i < k { i } else { i + 1 };
                        let b = if j < k { j } else { j + 1 };
                        assert(self.free_view()[i] == prev_free[a]);
                        assert(self.free_view()[j] == prev_free[b]);
                    }
                }
                assert(sorted_by_key(self.free_view())) by {
                    assert forall|i: int, j: int| 0 <= i < j < self.free_view().len()
                        implies #[trigger] key_lt(self.free_view()[i], self.free_view()[j]) by {
                        let a = if i < k { i } else { i + 1 };
                        let b = if j < k { j } else { j + 1 };
                        assert(self.free_view()[i] == prev_free[a]);
                        assert(self.free_view()[j] == prev_free[b]);
                    }
                }
                assert forall|j: int| 0 <= j < self.free_view().len()
                    implies self.free_view()[j].0 < self.next_handle() by {
                    if j >= k {
                        assert(self.free_view()[j] == prev_free[j + 1]);
                    }
                }
            }
            return Ok(id);
        }
        if self.next_id == u64::MAX {
            return Err(RBError::NoBufferAvailable);
        }
        if !self.can_allocate(size) {
            return Err(RBError::NoBufferAvailable);
        }
        let ghost prev_lent = self.lent_view();
        let id = self.next_id;
        let entry = RBEntry::new(size);
        self.next_id = id + 1;
        self.bytes_allocated = self.bytes_allocated + size;
        self.bytes_in_use = self.bytes_in_use + size;
        self.lent.push((id, entry));
        proof {
            assert(self.lent_view() =~= prev_lent.push((id, zeros(size as nat))));
            lemma_total_push(prev_lent, (id, zeros(size as nat)));
            lemma_total_nonneg(self.free_view());
            assert(distinct_handles(self.lent_view())) by {
                assert forall|i: int, j: int|
                    0 <= i < self.lent_view().len() && 0 <= j < self.lent_view().len() && i != j
                        implies self.lent_view()[i].0 != self.lent_view()[j].0 by {
                    if i < prev_lent.len() {
                        assert(self.lent_view()[i] == prev_lent[i]);
                    }
                    if j < prev_lent.len() {
                        assert(self.lent_view()[j] == prev_lent[j]);
                    }
                }
            }
            assert forall|i: int| 0 <= i < self.lent_view().len()
                implies self.lent_view()[i].0 < self.next_handle() by {
                if i < prev_lent.len() {
                    assert(self.lent_view()[i] == prev_lent[i]);
                }
            }
        }
        Ok(id)
    }
    /// The position of the lent buffer with handle `id`, or the number of
    /// lent buffers if there is none.
    fn find_lent(&self, id: u64) -> (i: usize)
        ensures
            i <= self.lent_view().len(),
            i < self.lent_view().len() ==> self.lent_view()[i as int].0 == id,
            i == self.lent_view().len() ==> !self.is_lent(id),
    {
        let mut i: usize = 0;
        while i < self.lent.len()
            invariant
                i <= self.lent_view().len(),
                forall|j: int| 0 <= j < i ==> self.lent_view()[j].0 != id,
            decreases self.lent.len() - i,
        {
            if self.lent[i].0 == id {
                return i;
            }
            i = i + 1;
        }
        i
    }

    /// The position at which a free buffer with handle `id` and capacity
    /// `cap` keeps the free index in (capacity, handle) order.
    fn insert_position(&self, cap: usize, id: u64) -> (p: usize)
        requires
            sorted_by_key(self.free_view()),
        ensures
            p <= self.free_view().len(),
            forall|j: int| 0 <= j < p ==> below(self.free_view()[j], cap as int, id),
            forall|j: int| p <= j < self.free_view().len() ==> !below(self.free_view()[j], cap as int, id),
    {
        let ghost s = self.free_view();
        let mut lo: usize = 0;
        let mut hi: usize = self.free.len();
        while lo < hi
            invariant
                s == self.free_view(),
                sorted_by_key(s),
                lo <= hi <= s.len(),
                forall|j: int| 0 <= j < lo ==> below(s[j], cap as int, id),
                forall|j: int| hi <= j < s.len() ==> !below(s[j], cap as int, id),
            decreases hi - lo,
        {
            let mid = lo + (hi - lo) / 2;
            let c = self.free[mid].1.data.len();
            if c > cap || (c == cap && self.free[mid].0 >= id) {
                proof {
                    assert forall|j: int| mid <= j < s.len() implies !below(s[j], cap as int, id) by {
                        if j > mid {
                            assert(key_lt(s[mid as int], s[j]));
                        }
                    }
                }
                hi = mid;
            } else {
                proof {
                    assert forall|j: int| 0 <= j <= mid implies below(s[j], cap as int, id) by {
                        if j < mid {
                            assert(key_lt(s[j], s[mid as int]));
                        }
                    }
                }
                lo = mid + 1;
            }
        }
        lo
    }

    /// Takes back the lent buffer with handle `id` and adds it to the free
    /// index. Its contents are kept until it is reused.
    pub fn release(&mut self, id: u64) -> (r: Result<(), RBError>)
        requires
            old(self).wf(),
        ensures
            final(self).wf(),
            old(self).within_budget() ==> final(self).within_budget(),
            !old(self).is_lent(id) ==> r == Err::<(), RBError>(RBError::InvalidPointer)
                && *final(self) == *old(self),
            old(self).is_lent(id) ==> r == Ok::<(), RBError>(()) && exists|i: int, p: int|
                0 <= i < old(self).lent_view().len() && old(self).lent_view()[i].0 == id
                && 0 <= p <= old(self).free_view().len()
                && final(self).lent_view() == old(self).lent_view().remove(i)
                && final(self).free_view() == old(self).free_view().insert(p, old(self).lent_view()[i])
                && final(self).in_use() == old(self).in_use() - old(self).lent_view()[i].1.len(),
            final(self).allocated() == old(self).allocated(),
            final(self).max_total() == old(self).max_total(),
            final(self).max_buffer() == old(self).max_buffer(),
            final(self).next_handle() == old(self).next_handle(),
    {
        let i = self.find_lent(id);
        if i == self.lent.len() {
            return Err(RBError::InvalidPointer);
        }
        let ghost prev_free = self.free_view();
        let ghost prev_lent = self.lent_view();
        let ghost b = prev_lent[i as int];
        proof {
            lemma_total_bounds(prev_lent, i as int);
            lemma_total_remove(prev_lent, i as int);
            lemma_total_insert(prev_free, 0, b);
        }
        let entry = self.lent.remove(i);
        let cap = entry.1.data.len();
        let p = self.insert_position(cap, id);
        self.free.insert(p, entry);
        self.bytes_in_use = self.bytes_in_use - cap;
        proof {
            assert(self.lent_view() =~= prev_lent.remove(i as int));
            assert(self.free_view() =~= prev_free.insert(p as int, b));
            lemma_total_insert(prev_free, p as int, b);
            let fv = self.free_view();
            assert forall|x: int, y: int| 0 <= x < y < fv.len() implies #[trigger] key_lt(fv[x], fv[y]) by {
                let a = if x < p { x } else if x == p { -1 } else { x - 1 };
                let c = if y < p { y } else if y == p { -1 } else { y - 1 };
                if x != p && y != p {
                    assert(fv[x] == prev_free[a]);
                    assert(fv[y] == prev_free[c]);
                    assert(key_lt(prev_free[a], prev_free[c]));
                } else if x == p {
                    assert(fv[y] == prev_free[c]);
                    assert(prev_free[c].0 != prev_lent[i as int].0);
                    assert(!below(prev_free[c], cap as int, id));
                } else {
                    assert(fv[x] == prev_free[a]);
                    assert(below(prev_free[a], cap as int, id));
                }
            }
            assert forall|x: int, y: int|
                0 <= x < fv.len() && 0 <= y < fv.len() && x != y implies fv[x].0 != fv[y].0 by {
                if x == p {
                    let c = if y < p { y } else { y - 1 };
                    assert(fv[y] == prev_free[c]);
                } else if y == p {
                    let a = if x < p { x } else { x - 1 };
                    assert(fv[x] == prev_free[a]);
                } else {
                    let a = if x < p { x } else { x - 1 };
                    let c = if y < p { y } else { y - 1 };
                    assert(fv[x] == prev_free[a]);
                    assert(fv[y] == prev_free[c]);
                }
            }
            let lv = self.lent_view();
            assert forall|x: int, y: int|
                0 <= x < lv.len() && 0 <= y < lv.len() && x != y implies lv[x].0 != lv[y].0 by {
                let a = if x < i { x } else { x + 1 };
                let c = if y < i { y } else { y + 1 };
                assert(lv[x] == prev_lent[a]);
                assert(lv[y] == prev_lent[c]);
            }
            assert forall|x: int, y: int| 0 <= x < lv.len() && 0 <= y < fv.len() implies lv[x].0 != fv[y].0 by {
                let a = if x < i { x } else { x + 1 };
                assert(lv[x] == prev_lent[a]);
                if y != p {
                    let c = if y < p { y } else { y - 1 };
                    assert(fv[y] == prev_free[c]);
                }
            }
            assert forall|x: int| 0 <= x < lv.len() implies lv[x].0 < self.next_handle() by {
                let a = if x < i { x } else { x + 1 };
                assert(lv[x] == prev_lent[a]);
            }
            assert forall|y: int| 0 <= y < fv.len() implies fv[y].0 < self.next_handle() by {
                if y != p {
                    let c = if y < p { y } else { y - 1 };
                    assert(fv[y] == prev_free[c]);
                }
            }
        }
        Ok(())
    }
    /// Whether `id` names a buffer that is currently lent out.
    pub fn is_checked_out(&self, id: u64) -> (r: bool)
        ensures
            r == self.is_lent(id),
    {
        self.find_lent(id) < self.lent.len()
    }

    /// The contents of the lent buffer with handle `id`, if there is one.
    pub fn contents(&self, id: u64) -> (r: Option<&[u8]>)
        ensures
            !self.is_lent(id) ==> r.is_none(),
            self.is_lent(id) ==> exists|i: int| 0 <= i < self.lent_view().len()
                && self.lent_view()[i].0 == id && r.is_some() && r.unwrap()@ == self.lent_view()[i].1,
    {
        let i = self.find_lent(id);
        if i == self.lent.len() {
            return None;
        }
        Some(self.lent[i].1.data.as_slice())
    }

    /// Writes `value` at `offset` into the lent buffer with handle `id`.
    /// Returns false, and changes nothing, where `id` is not lent out or
    /// `offset` is past the buffer's end.
    pub fn write(&mut self, id: u64, offset: usize, value: u8) -> (r: bool)
        requires
            old(self).wf(),
        ensures
            final(self).wf(),
            r == exists|i: int| 0 <= i < old(self).lent_view().len() && old(self).lent_view()[i].0 == id
                && offset < old(self).lent_view()[i].1.len(),
            !r ==> *final(self) == *old(self),
            r ==> exists|i: int| 0 <= i < old(self).lent_view().len() && old(self).lent_view()[i].0 == id
                && final(self).lent_view() == old(self).lent_view().update(
                    i, (id, old(self).lent_view()[i].1.update(offset as int, value))),
            final(self).free_view() == old(self).free_view(),
            final(self).allocated() == old(self).allocated(),
            final(self).in_use() == old(self).in_use(),
            final(self).max_total() == old(self).max_total(),
            final(self).max_buffer() == old(self).max_buffer(),
            final(self).next_handle() == old(self).next_handle(),
    {
        let i = self.find_lent(id);
        if i == self.lent.len() {
            return false;
        }
        if offset >= self.lent[i].1.data.len() {
            proof {
                assert forall|j: int| 0 <= j < self.lent_view().len() && self.lent_view()[j].0 == id
                    implies j == i by {}
            }
            return false;
        }
        let ghost prev = self.lent_view();
        let mut entry = self.lent.remove(i);
        entry.1.data.set(offset, value);
        self.lent.insert(i, entry);
        proof {
            let b = (id, prev[i as int].1.update(offset as int, value));
            assert(self.lent_view() =~= prev.update(i as int, b));
            assert(prev.update(i as int, b) =~= prev.remove(i as int).insert(i as int, b));
            lemma_total_remove(prev, i as int);
            lemma_total_insert(prev.remove(i as int), i as int, b);
            let lv = self.lent_view();
            assert forall|x: int| 0 <= x < lv.len() implies lv[x].0 == prev[x].0 by {}
        }
        true
    }

    /// Bytes allocated: the sum of the capacities of all live buffers.
    pub fn bytes_allocated(&self) -> (r: usize)
        ensures
            r == self.allocated(),
    {
        self.bytes_allocated
    }

    /// Bytes in use: the sum of the capacities of the lent buffers.
    pub fn bytes_in_use(&self) -> (r: usize)
        ensures
            r == self.in_use(),
    {
        self.bytes_in_use
    }

    /// The total ceiling on bytes allocated.
    pub fn max_total_size(&self) -> (r: usize)
        ensures
            r == self.max_total(),
    {
        self.max_total_size
    }

    /// The ceiling on the capacity of one buffer.
    pub fn max_buffer_size(&self) -> (r: usize)
        ensures
            r == self.max_buffer(),
    {
        self.max_buffer_size
    }

    /// The free index as (capacity, handle) pairs, in ascending order.
    pub fn free_index(&self) -> (r: Vec<(usize, u64)>)
        ensures
            r@.len() == self.free_view().len(),
            forall|j: int| 0 <= j < r@.len() ==> r@[j].0 == self.free_view()[j].1.len()
                && r@[j].1 == self.free_view()[j].0,
    {
        let mut r: Vec<(usize, u64)> = Vec::new();
        let mut i: usize = 0;
        while i < self.free.len()
            invariant
                i <= self.free_view().len(),
                r@.len() == i,
                forall|j: int| 0 <= j < i ==> r@[j].0 == self.free_view()[j].1.len()
                    && r@[j].1 == self.free_view()[j].0,
            decreases self.free.len() - i,
        {
            r.push((self.free[i].1.data.len(), self.free[i].0));
            i = i + 1;
        }
        r
    }
}

} // verus!
