//! The disk manager: the allocation bitmap over page identifiers and the
//! placement of each page in the backing file. The file's reads and writes
//! are done by the caller at the offset the manager gives.
use vstd::prelude::*;
use crate::bitmap::{bit_is_set, get_nth_bit, set_nth_bit, lemma_zero_word_clear};
use crate::constants::{BITS_PER_WORD, CATALOG_ROOT_ID, MAX_WORDS, PAGE_SIZE};

verus! {

/// Errors of the disk manager.
#[derive(Debug, PartialEq, Eq, Structural)]
pub enum DiskErr {
    /// Access to a page identifier that is not allocated.
    InvalidPageAccess,
    /// Every `u32` page identifier is allocated.
    OutOfSpace,
}

/// Owns the allocation bitmap: bit `p % 64` of word `p / 64` is set exactly
/// when page `p` is allocated. Page `p` occupies bytes
/// `[p * PAGE_SIZE, (p + 1) * PAGE_SIZE)` of the backing file.
pub struct DiskManager {
    words: Vec<u64>,
}

/// Whether identifier `p` is marked in the bitmap `words`.
pub open spec fn word_bit(words: Seq<u64>, p: int) -> bool {
    0 <= p < words.len() * 64 && bit_is_set(words[p / 64], (p % 64) as u32)
}

impl DiskManager {
    /// The bitmap never has more words than `u32` identifiers need.
    pub closed spec fn wf(&self) -> bool {
        self.words@.len() <= MAX_WORDS
    }

    /// Whether page identifier `p` is allocated.
    pub closed spec fn allocated(&self, p: int) -> bool {
        word_bit(self.words@, p)
    }

    /// Number of identifiers the bitmap currently has a bit for.
    pub closed spec fn capacity(&self) -> int {
        (self.words@.len() * 64) as int
    }

    /// `after` is `self` with `p` allocated, `p` being the lowest
    /// identifier that `self` has not allocated.
    pub open spec fn allocation_step(&self, after: &DiskManager, p: int) -> bool {
        &&& !self.allocated(p)
        &&& forall|q: int| 0 <= q < p ==> self.allocated(q)
        &&& forall|q: int| #[trigger] after.allocated(q) == (self.allocated(q) || q == p)
    }

    /// Marks identifier `p` as allocated in the bitmap.
    fn mark(&mut self, p: u64)
        requires
            old(self).wf(),
            p < old(self).capacity(),
        ensures
            final(self).wf(),
            final(self).words@.len() == old(self).words@.len(),
            forall|q: int| #[trigger] final(self).allocated(q) == (old(self).allocated(q) || q == p),
    {
        let w: usize = (p / 64) as usize;
        let b: u32 = (p % 64) as u32;
        let mut word: u64 = self.words[w];
        let _ = set_nth_bit(&mut word, b);
        let ghost old_words = self.words@;
        self.words.set(w, word);
        assert forall|q: int| #[trigger] self.allocated(q) == (word_bit(old_words, q) || q == p) by {
            if 0 <= q < self.capacity() {
                if q / 64 == w as int {
                    assert((q % 64) as u32 == b <==> q == p);
                    assert(bit_is_set(word, (q % 64) as u32) == ((q % 64) as u32 == b || bit_is_set(old_words[w as int], (q % 64) as u32)));
                }
            }
        }
    }

    /// A disk manager whose only allocated identifier is `CATALOG_ROOT_ID`.
    pub fn new() -> (r: DiskManager)
        ensures
            r.wf(),
            only_root_allocated(r),
    {
        let mut dm = DiskManager { words: Vec::new() };
        dm.words.push(0u64);
        assert forall|q: int| !#[trigger] word_bit(dm.words@, q) by {
            if 0 <= q < dm.capacity() {
                lemma_zero_word_clear((q % 64) as u64);
            }
        }
        dm.mark(CATALOG_ROOT_ID as u64);
        dm
    }

    /// Whether `page_id` is allocated; identifiers beyond the bitmap are not.
    pub fn is_allocated(&self, page_id: u32) -> (r: bool)
        requires
            self.wf(),
        ensures
            r == self.allocated(page_id as int),
    {
        let w: usize = (page_id / BITS_PER_WORD) as usize;
        if w >= self.words.len() {
            return false;
        }
        match get_nth_bit(&self.words[w], page_id % BITS_PER_WORD) {
            Ok(v) => v == 1u64,
            Err(_) => false,
        }
    }

    /// Byte offset of page `page_id` in the backing file, `page_id * PAGE_SIZE`;
    /// fails when the page is not allocated.
    pub fn page_offset(&self, page_id: u32) -> (r: Result<u64, DiskErr>)
        requires
            self.wf(),
        ensures
            self.allocated(page_id as int) ==> r == Ok::<u64, DiskErr>((page_id * PAGE_SIZE) as u64),
            !self.allocated(page_id as int) ==> r == Err::<u64, DiskErr>(DiskErr::InvalidPageAccess),
    {
        if !self.is_allocated(page_id) {
            return Err(DiskErr::InvalidPageAccess);
        }
        Ok(page_id as u64 * PAGE_SIZE as u64)
    }

    /// Allocates the lowest identifier that is not yet allocated, adding a
    /// bitmap word when every identifier the bitmap covers is taken.
    pub fn allocate_page(&mut self) -> (r: Result<u32, DiskErr>)
        requires
            old(self).wf(),
        ensures
            final(self).wf(),
            match r {
                Ok(p) => old(self).allocation_step(&*final(self), p as int),
                Err(e) => {
                    &&& e == DiskErr::OutOfSpace
                    &&& forall|q: int| 0 <= q <= u32::MAX ==> old(self).allocated(q)
                    &&& *final(self) == *old(self)
                },
            },
    {
        let cap: u64 = self.words.len() as u64 * 64;
        let mut p: u64 = 0;
        while p < cap
            invariant
                self.wf(),
                cap == self.capacity(),
                *self == *old(self),
                0 <= p <= cap,
                forall|q: int| 0 <= q < p ==> self.allocated(q),
            decreases cap - p,
        {
            match get_nth_bit(&self.words[(p / 64) as usize], (p % 64) as u32) {
                Ok(v) => {
                    if v == 0u64 {
                        self.mark(p);
                        return Ok(p as u32);
                    }
                },
                Err(_) => {},
            }
            p = p + 1;
        }
        if self.words.len() >= MAX_WORDS as usize {
            return Err(DiskErr::OutOfSpace);
        }
        let ghost before = *self;
        self.words.push(0u64);
        assert forall|q: int| #[trigger] self.allocated(q) == (before.allocated(q) || q >= cap && q < cap + 64 && bit_is_set(0u64, (q % 64) as u32)) by {
            if 0 <= q < cap {
                assert(self.words@[q / 64] == before.words@[q / 64]);
            }
        }
        assert(!bit_is_set(0u64, 0u32)) by {
            lemma_zero_word_clear(0u64);
        }
        self.mark(cap);
        assert forall|q: int| #[trigger] self.allocated(q) == (before.allocated(q) || q == cap) by {
            if cap < q < cap + 64 {
                lemma_zero_word_clear((q % 64) as u64);
            }
        }
        Ok(cap as u32)
    }
}

/// The allocation state of a freshly constructed disk manager: only
/// `CATALOG_ROOT_ID` is allocated.
pub open spec fn only_root_allocated(dm: DiskManager) -> bool {
    forall|q: int| #[trigger] dm.allocated(q) == (q == CATALOG_ROOT_ID)
}

/// Starting from a fresh disk manager, successive allocations without any
/// deallocation hand out `CATALOG_ROOT_ID + 1`, `CATALOG_ROOT_ID + 2`, ... in
/// order with no gap; after the `i`-th allocation exactly the identifiers up
/// to `CATALOG_ROOT_ID + i` are allocated. In particular an identifier is
/// unallocated until the allocation that returns it, and allocated right after.
pub proof fn lemma_allocation_sequence(states: Seq<DiskManager>, ids: Seq<u32>)
    requires
        states.len() == ids.len() + 1,
        only_root_allocated(states[0]),
        forall|i: int| 0 <= i < ids.len() ==> #[trigger] states[i].allocation_step(&states[i + 1], ids[i] as int),
    ensures
        forall|i: int| 0 <= i < ids.len() ==> #[trigger] ids[i] == CATALOG_ROOT_ID + 1 + i,
        forall|i: int, q: int| 0 <= i < states.len() ==> (#[trigger] states[i].allocated(q) == (CATALOG_ROOT_ID <= q <= CATALOG_ROOT_ID + i)),
        forall|i: int| 0 <= i < ids.len() ==> !(#[trigger] states[i].allocated(ids[i] as int)) && states[i + 1].allocated(ids[i] as int),
    decreases ids.len(),
{
    if ids.len() > 0 {
        let n = ids.len() - 1;
        lemma_allocation_sequence(states.drop_last(), ids.drop_last());
        assert(states.drop_last()[n].allocation_step(&states[n + 1], ids[n] as int));
        let p = ids[n] as int;
        assert(states[n].allocated(n)) by {
            assert(states.drop_last()[n] == states[n]);
        }
        assert(p == n + 1) by {
            if p < n + 1 {
                assert(states.drop_last()[n].allocated(p));
            } else if p > n + 1 {
                assert(states.drop_last()[n].allocated(n + 1));
            }
        }
        assert forall|i: int| 0 <= i < ids.len() implies #[trigger] ids[i] == CATALOG_ROOT_ID + 1 + i by {
            if i < n {
                assert(ids.drop_last()[i] == ids[i]);
            }
        }
        assert forall|i: int, q: int| 0 <= i < states.len() implies (#[trigger] states[i].allocated(q) == (CATALOG_ROOT_ID <= q <= CATALOG_ROOT_ID + i)) by {
            if i <= n {
                assert(states.drop_last()[i] == states[i]);
            } else {
                assert(states.drop_last()[n].allocated(q) == (0 <= q <= n));
            }
        }
        assert forall|i: int| 0 <= i < ids.len() implies !(#[trigger] states[i].allocated(ids[i] as int)) && states[i + 1].allocated(ids[i] as int) by {
            assert(states[i].allocation_step(&states[i + 1], ids[i] as int));
        }
    }
}

} // verus!
