//! The buffer pool: a fixed set of frames caching disk pages, a page table
//! from page identifier to frame, and an eviction policy over unpinned frames.
//!
//! The pool decides; its caller moves bytes. A fetch that misses names the
//! frame to fill and, for a dirty victim, the page and bytes to write back;
//! the caller writes those to the backing file, reads the requested page and
//! hands it to `install_page`. A flush hands back the bytes to write.
use vstd::prelude::*;
use std::collections::HashMap;
use crate::constants::PAGE_SIZE;
use crate::disk::DiskManager;
use crate::policy::Policy;

verus! {

broadcast use vstd::std_specs::hash::group_hash_axioms;

/// Errors of the buffer pool.
#[derive(Debug, PartialEq, Eq, Structural)]
pub enum BufferErr {
    /// The page is not resident and every frame is pinned.
    BufferFull,
    /// Unpin of a page that is not resident or whose pin count is zero.
    PageNotPinned,
    /// Flush of a page that is not resident.
    PageNotResident,
    /// The page identifier is not allocated on disk.
    InvalidPageAccess,
}

/// The database buffer and its data structures, frame `f` being described
/// by entry `f` of each per-frame vector.
pub struct Buffer<P: Policy> {
    frame_pages: Vec<Option<u32>>,
    pins: Vec<u32>,
    dirty: Vec<bool>,
    data: Vec<Vec<u8>>,
    page_table: HashMap<u32, u32>,
    policy: P,
}

/// Bytes of a page that the caller must write to the backing file.
pub struct WriteBack {
    pub page_id: u32,
    pub bytes: Vec<u8>,
}

/// What a successful fetch asks of the caller.
pub enum Fetch {
    /// The page is resident in this frame; nothing is read from disk.
    Hit(u32),
    /// The page now owns `frame`. The caller writes `write_back` (the dirty
    /// victim) if there is one, then reads the page from disk and installs it.
    Load { frame: u32, write_back: Option<WriteBack> },
}

/// A copy of `b`.
fn copy_bytes(b: &[u8]) -> (r: Vec<u8>)
    ensures
        r@ == b@,
{
    let mut r: Vec<u8> = Vec::new();
    let mut i: usize = 0;
    while i < b.len()
        invariant
            0 <= i <= b@.len(),
            r@ == b@.subrange(0, i as int),
        decreases b@.len() - i,
    {
        r.push(b[i]);
        i = i + 1;
    }
    assert(r@ =~= b@);
    r
}

/// A page of zero bytes.
fn zeroed_page() -> (r: Vec<u8>)
    ensures
        r@.len() == PAGE_SIZE,
        forall|i: int| 0 <= i < PAGE_SIZE ==> r@[i] == 0u8,
{
    let mut r: Vec<u8> = Vec::new();
    let mut i: usize = 0;
    while i < PAGE_SIZE as usize
        invariant
            0 <= i <= PAGE_SIZE,
            r@.len() == i,
            forall|k: int| 0 <= k < i ==> r@[k] == 0u8,
        decreases PAGE_SIZE - i,
    {
        r.push(0u8);
        i = i + 1;
    }
    r
}

impl<P: Policy> Buffer<P> {
    /// Internal consistency of the pool.
    pub closed spec fn wf(&self) -> bool {
        let n = self.frame_pages@.len();
        &&& self.policy.wf()
        &&& n <= u32::MAX
        &&& self.pins@.len() == n
        &&& self.dirty@.len() == n
        &&& self.data@.len() == n
        &&& forall|f: int| 0 <= f < n ==> (#[trigger] self.data@[f])@.len() == PAGE_SIZE
        &&& forall|p: u32| #[trigger] self.page_table@.contains_key(p) ==> {
            &&& self.page_table@[p] < n
            &&& self.frame_pages@[self.page_table@[p] as int] == Some(p)
        }
        &&& forall|f: int| 0 <= f < n && (#[trigger] self.frame_pages@[f]) is Some ==> {
            &&& self.page_table@.contains_key(self.frame_pages@[f]->0)
            &&& self.page_table@[self.frame_pages@[f]->0] == f
        }
        &&& forall|f: u32| #[trigger] self.policy.candidates().contains(f) == (f < n && self.pins@[f as int] == 0)
    }

    /// Number of frames.
    pub closed spec fn frame_count(&self) -> nat {
        self.frame_pages@.len()
    }

    /// Whether page `p` resides in some frame.
    pub closed spec fn resident(&self, p: u32) -> bool {
        self.page_table@.contains_key(p)
    }

    /// The frame that holds page `p`, when `p` is resident.
    pub closed spec fn frame_of(&self, p: u32) -> u32 {
        self.page_table@[p]
    }

    /// The page held by frame `f`.
    pub closed spec fn frame_page(&self, f: int) -> Option<u32> {
        self.frame_pages@[f]
    }

    /// Pin count of frame `f`.
    pub closed spec fn pin_count(&self, f: int) -> nat {
        self.pins@[f] as nat
    }

    /// Whether frame `f` was changed since it was last loaded or flushed.
    pub closed spec fn is_dirty(&self, f: int) -> bool {
        self.dirty@[f]
    }

    /// Bytes held by frame `f`.
    pub closed spec fn frame_data(&self, f: int) -> Seq<u8> {
        self.data@[f]@
    }

    /// The eviction policy of the pool.
    pub closed spec fn policy(&self) -> P {
        self.policy
    }

    /// Whether every frame is pinned.
    pub open spec fn all_pinned(&self) -> bool {
        forall|f: int| 0 <= f < self.frame_count() ==> #[trigger] self.pin_count(f) > 0
    }

    /// A pool of `size` empty, unpinned frames.
    pub fn new(size: u32) -> (r: Self)
        ensures
            r.wf(),
            r.frame_count() == size,
            forall|p: u32| !#[trigger] r.resident(p),
            forall|f: int| 0 <= f < size ==> #[trigger] r.frame_page(f) == None::<u32> && r.pin_count(f) == 0
                && !r.is_dirty(f),
    {
        let mut frame_pages: Vec<Option<u32>> = Vec::new();
        let mut pins: Vec<u32> = Vec::new();
        let mut dirty: Vec<bool> = Vec::new();
        let mut data: Vec<Vec<u8>> = Vec::new();
        let mut policy = P::new();
        let mut i: u32 = 0;
        while i < size
            invariant
                0 <= i <= size,
                frame_pages@.len() == i,
                pins@.len() == i,
                dirty@.len() == i,
                data@.len() == i,
                policy.wf(),
                forall|f: int| 0 <= f < i ==> #[trigger] frame_pages@[f] == None::<u32>,
                forall|f: int| 0 <= f < i ==> #[trigger] pins@[f] == 0,
                forall|f: int| 0 <= f < i ==> !#[trigger] dirty@[f],
                forall|f: int| 0 <= f < i ==> (#[trigger] data@[f])@.len() == PAGE_SIZE,
                forall|f: u32| #[trigger] policy.candidates().contains(f) == (f < i),
            decreases size - i,
        {
            frame_pages.push(None);
            pins.push(0);
            dirty.push(false);
            data.push(zeroed_page());
            policy.unpin(i);
            i = i + 1;
        }
        let r = Buffer { frame_pages, pins, dirty, data, page_table: HashMap::new(), policy };
        assert(r.page_table@ =~= Map::<u32, u32>::empty());
        assert forall|f: int| 0 <= f < size implies #[trigger] r.frame_page(f) == None::<u32> && r.pin_count(f) == 0
            && !r.is_dirty(f) by {
            assert(r.pins@[f] == 0);
            assert(!r.dirty@[f]);
        }
        r
    }

    /// The frame states other than `f`, the page table and the frame count
    /// agree between `self` and `other`.
    pub open spec fn agrees_except(&self, other: &Self, f: int) -> bool {
        &&& other.frame_count() == self.frame_count()
        &&& forall|p: u32| #[trigger] other.resident(p) == self.resident(p)
        &&& forall|p: u32| self.resident(p) ==> #[trigger] other.frame_of(p) == self.frame_of(p)
        &&& forall|g: int| 0 <= g < self.frame_count() && g != f ==> {
            &&& #[trigger] other.frame_page(g) == self.frame_page(g)
            &&& other.pin_count(g) == self.pin_count(g)
            &&& other.is_dirty(g) == self.is_dirty(g)
            &&& other.frame_data(g) == self.frame_data(g)
        }
    }

    /// The frame holding `page_id`, if it is resident.
    pub fn frame_for_page(&self, page_id: u32) -> (r: Option<u32>)
        requires
            self.wf(),
        ensures
            r == (if self.resident(page_id) { Some(self.frame_of(page_id)) } else { None::<u32> }),
    {
        match self.page_table.get(&page_id) {
            Some(f) => Some(*f),
            None => None,
        }
    }

    /// Releases one pin on `page_id`, marking the frame dirty when
    /// `mark_dirty` holds; the frame becomes an eviction candidate when its
    /// pin count drops to zero.
    pub fn unpin_page(&mut self, page_id: u32, mark_dirty: bool) -> (r: Result<(), BufferErr>)
        requires
            old(self).wf(),
        ensures
            final(self).wf(),
            !old(self).resident(page_id) || old(self).pin_count(old(self).frame_of(page_id) as int) == 0 ==> {
                &&& r == Err::<(), BufferErr>(BufferErr::PageNotPinned)
                &&& *final(self) == *old(self)
            },
            old(self).resident(page_id) && old(self).pin_count(old(self).frame_of(page_id) as int) > 0 ==> {
                let f = old(self).frame_of(page_id) as int;
                &&& r == Ok::<(), BufferErr>(())
                &&& old(self).agrees_except(&*final(self), f)
                &&& final(self).frame_page(f) == old(self).frame_page(f)
                &&& final(self).frame_data(f) == old(self).frame_data(f)
                &&& final(self).pin_count(f) == old(self).pin_count(f) - 1
                &&& final(self).is_dirty(f) == (old(self).is_dirty(f) || mark_dirty)
                &&& old(self).pin_count(f) == 1 ==> old(self).policy().unpin_step(f as u32, &final(self).policy())
                &&& old(self).pin_count(f) > 1 ==> final(self).policy() == old(self).policy()
            },
    {
        let f = match self.frame_for_page(page_id) {
            Some(f) => f,
            None => return Err(BufferErr::PageNotPinned),
        };
        let fi: usize = f as usize;
        let pins: u32 = self.pins[fi];
        if pins == 0 {
            return Err(BufferErr::PageNotPinned);
        }
        self.pins.set(fi, pins - 1);
        if mark_dirty {
            self.dirty.set(fi, true);
        }
        if pins == 1 {
            self.policy.unpin(f);
        }
        assert forall|g: u32| #[trigger] self.policy.candidates().contains(g) == (g < self.frame_pages@.len() && self.pins@[g as int] == 0) by {
            if g != f {
                assert(old(self).policy.candidates().contains(g) == (g < self.frame_pages@.len() && old(self).pins@[g as int] == 0));
            }
        }
        Ok(())
    }

    /// Clears the dirty flag of the frame holding `page_id`, keeping it
    /// resident, and hands back its bytes for the caller to write to disk.
    pub fn flush_page(&mut self, page_id: u32) -> (r: Result<WriteBack, BufferErr>)
        requires
            old(self).wf(),
        ensures
            final(self).wf(),
            !old(self).resident(page_id) ==> {
                &&& r is Err
                &&& r->Err_0 == BufferErr::PageNotResident
                &&& *final(self) == *old(self)
            },
            old(self).resident(page_id) ==> {
                let f = old(self).frame_of(page_id) as int;
                &&& r is Ok
                &&& r->Ok_0.page_id == page_id
                &&& r->Ok_0.bytes@ == old(self).frame_data(f)
                &&& old(self).agrees_except(&*final(self), f)
                &&& final(self).frame_page(f) == old(self).frame_page(f)
                &&& final(self).frame_data(f) == old(self).frame_data(f)
                &&& final(self).pin_count(f) == old(self).pin_count(f)
                &&& !final(self).is_dirty(f)
                &&& final(self).policy() == old(self).policy()
            },
    {
        let f = match self.frame_for_page(page_id) {
            Some(f) => f,
            None => return Err(BufferErr::PageNotResident),
        };
        let fi: usize = f as usize;
        let bytes = copy_bytes(self.data[fi].as_slice());
        self.dirty.set(fi, false);
        Ok(WriteBack { page_id, bytes })
    }

    /// Whether some frame has pin count zero.
    fn any_unpinned(&self) -> (r: bool)
        requires
            self.wf(),
        ensures
            r == !self.all_pinned(),
    {
        let mut i: usize = 0;
        while i < self.pins.len()
            invariant
                self.wf(),
                0 <= i <= self.pins@.len(),
                forall|g: int| 0 <= g < i ==> #[trigger] self.pin_count(g) > 0,
            decreases self.pins@.len() - i,
        {
            if self.pins[i] == 0 {
                assert(self.pin_count(i as int) == 0);
                return true;
            }
            i = i + 1;
        }
        false
    }

    /// Pins the frame for `page_id`. On a hit the page's frame is returned.
    /// On a miss the policy's victim frame is taken over for `page_id`: the
    /// result names it and, if the victim held a dirty page, that page and its
    /// bytes for the caller to write back before it installs the new page.
    /// Fails with `BufferFull` when every frame is pinned, and with
    /// `InvalidPageAccess` when `page_id` is not allocated on `disk`.
    pub fn fetch_page(&mut self, page_id: u32, disk: &DiskManager) -> (r: Result<Fetch, BufferErr>)
        requires
            old(self).wf(),
            disk.wf(),
            old(self).resident(page_id) ==> old(self).pin_count(old(self).frame_of(page_id) as int) < u32::MAX,
        ensures
            final(self).wf(),
            old(self).resident(page_id) ==> {
                let f = old(self).frame_of(page_id) as int;
                &&& r matches Ok(Fetch::Hit(h)) && h == f
                &&& old(self).agrees_except(&*final(self), f)
                &&& final(self).frame_page(f) == old(self).frame_page(f)
                &&& final(self).frame_data(f) == old(self).frame_data(f)
                &&& final(self).is_dirty(f) == old(self).is_dirty(f)
                &&& final(self).pin_count(f) == old(self).pin_count(f) + 1
                &&& old(self).policy().pin_step(f as u32, &final(self).policy())
            },
            !old(self).resident(page_id) && old(self).all_pinned() ==> {
                &&& r is Err
                &&& r->Err_0 == BufferErr::BufferFull
                &&& *final(self) == *old(self)
            },
            !old(self).resident(page_id) && !old(self).all_pinned() && !disk.allocated(page_id as int) ==> {
                &&& r is Err
                &&& r->Err_0 == BufferErr::InvalidPageAccess
                &&& *final(self) == *old(self)
            },
            !old(self).resident(page_id) && !old(self).all_pinned() && disk.allocated(page_id as int) ==> (
            r matches Ok(Fetch::Load { frame: f, write_back }) && {
                &&& f < old(self).frame_count()
                &&& f == old(self).policy().next_victim()
                &&& old(self).policy().evict_step(&final(self).policy())
                &&& old(self).pin_count(f as int) == 0
                &&& final(self).frame_count() == old(self).frame_count()
                &&& final(self).frame_of(page_id) == f
                &&& final(self).frame_page(f as int) == Some(page_id)
                &&& final(self).frame_data(f as int) == old(self).frame_data(f as int)
                &&& final(self).pin_count(f as int) == 1
                &&& !final(self).is_dirty(f as int)
                &&& (old(self).is_dirty(f as int) && old(self).frame_page(f as int) is Some) ==> (write_back matches Some(wb)
                    && wb.page_id == old(self).frame_page(f as int)->0 && wb.bytes@ == old(self).frame_data(f as int))
                &&& !(old(self).is_dirty(f as int) && old(self).frame_page(f as int) is Some) ==> write_back is None
                &&& forall|g: int| 0 <= g < old(self).frame_count() && g != f ==> {
                    &&& #[trigger] final(self).frame_page(g) == old(self).frame_page(g)
                    &&& final(self).pin_count(g) == old(self).pin_count(g)
                    &&& final(self).is_dirty(g) == old(self).is_dirty(g)
                    &&& final(self).frame_data(g) == old(self).frame_data(g)
                }
                &&& forall|q: u32| #[trigger] final(self).resident(q) == (q == page_id
                    || (old(self).resident(q) && old(self).frame_page(f as int) != Some(q)))
                &&& forall|q: u32| q != page_id && #[trigger] final(self).resident(q) ==> final(self).frame_of(q) == old(self).frame_of(q)
            }),
    {
        if let Some(f) = self.frame_for_page(page_id) {
            let fi: usize = f as usize;
            self.pins.set(fi, self.pins[fi] + 1);
            self.policy.pin(f);
            assert forall|g: u32| #[trigger] self.policy.candidates().contains(g) == (g < self.frame_pages@.len() && self.pins@[g as int] == 0) by {
                if g != f {
                    assert(old(self).policy.candidates().contains(g) == (g < self.frame_pages@.len() && old(self).pins@[g as int] == 0));
                }
            }
            return Ok(Fetch::Hit(f));
        }
        if !self.any_unpinned() {
            return Err(BufferErr::BufferFull);
        }
        if !disk.is_allocated(page_id) {
            return Err(BufferErr::InvalidPageAccess);
        }
        let f = match self.policy.evict() {
            Ok(f) => f,
            Err(_) => {
                proof {
                    let g = choose|g: int| 0 <= g < self.frame_count() && !(self.pin_count(g) > 0);
                    assert(self.policy.candidates().contains(g as u32));
                }
                return Err(BufferErr::BufferFull);
            },
        };
        assert(old(self).policy.candidates().contains(f));
        assert(old(self).pin_count(f as int) == 0);
        let fi: usize = f as usize;
        let mut write_back: Option<WriteBack> = None;
        if let Some(q) = self.frame_pages[fi] {
            if self.dirty[fi] {
                write_back = Some(WriteBack { page_id: q, bytes: copy_bytes(self.data[fi].as_slice()) });
            }
            self.page_table.remove(&q);
        }
        self.frame_pages.set(fi, Some(page_id));
        self.pins.set(fi, 1);
        self.dirty.set(fi, false);
        self.page_table.insert(page_id, f);
        proof {
            let o = old(self);
            let n = self.frame_pages@.len();
            assert(o.frame_pages@[f as int] matches Some(q) ==> o.page_table@.contains_key(q) && o.page_table@[q] == f);
            assert forall|k: u32| #[trigger] self.page_table@.contains_key(k) implies
                self.page_table@[k] < n && self.frame_pages@[self.page_table@[k] as int] == Some(k) by {
                if k != page_id {
                    assert(o.page_table@.contains_key(k));
                    assert(o.frame_pages@[o.page_table@[k] as int] == Some(k));
                }
            }
            assert forall|g: int| 0 <= g < n && (#[trigger] self.frame_pages@[g]) is Some implies {
                &&& self.page_table@.contains_key(self.frame_pages@[g]->0)
                &&& self.page_table@[self.frame_pages@[g]->0] == g
            } by {
                if g != f {
                    assert(o.frame_pages@[g] is Some);
                    let k = o.frame_pages@[g]->0;
                    assert(o.page_table@.contains_key(k) && o.page_table@[k] == g);
                }
            }
            assert forall|g: u32| #[trigger] self.policy.candidates().contains(g) == (g < n && self.pins@[g as int] == 0) by {
                if g != f {
                    assert(o.policy.candidates().contains(g) == (g < n && o.pins@[g as int] == 0));
                }
            }
            assert forall|k: u32| #[trigger] self.resident(k) == (k == page_id
                || (o.resident(k) && o.frame_page(f as int) != Some(k))) by {
                if o.resident(k) && k != page_id && o.frame_page(f as int) == Some(k) {
                    assert(!self.page_table@.contains_key(k));
                }
                if o.resident(k) && k != page_id && o.frame_page(f as int) != Some(k) {
                    assert(o.frame_pages@[o.page_table@[k] as int] == Some(k));
                }
            }
        }
        Ok(Fetch::Load { frame: f, write_back })
    }

    /// Puts the bytes read from disk into a frame that a fetch has just taken
    /// over; the frame is clean afterwards.
    pub fn install_page(&mut self, frame_id: u32, bytes: &[u8])
        requires
            old(self).wf(),
            frame_id < old(self).frame_count(),
            bytes@.len() == PAGE_SIZE,
        ensures
            final(self).wf(),
            old(self).agrees_except(&*final(self), frame_id as int),
            final(self).frame_data(frame_id as int) == bytes@,
            final(self).frame_page(frame_id as int) == old(self).frame_page(frame_id as int),
            final(self).pin_count(frame_id as int) == old(self).pin_count(frame_id as int),
            !final(self).is_dirty(frame_id as int),
            final(self).policy() == old(self).policy(),
    {
        let page = copy_bytes(bytes);
        self.data.set(frame_id as usize, page);
        self.dirty.set(frame_id as usize, false);
        assert forall|g: int| 0 <= g < self.frame_pages@.len() implies (#[trigger] self.data@[g])@.len() == PAGE_SIZE by {
            if g != frame_id {
                assert(old(self).data@[g]@.len() == PAGE_SIZE);
            }
        }
    }

    /// Number of frames.
    pub fn size(&self) -> (r: u32)
        requires
            self.wf(),
        ensures
            r == self.frame_count(),
    {
        self.frame_pages.len() as u32
    }

    /// The bytes held by frame `frame_id`.
    pub fn page_data(&self, frame_id: u32) -> (r: &[u8])
        requires
            self.wf(),
            frame_id < self.frame_count(),
        ensures
            r@ == self.frame_data(frame_id as int),
    {
        self.data[frame_id as usize].as_slice()
    }

    /// Pin count of frame `frame_id`.
    pub fn pins_of(&self, frame_id: u32) -> (r: u32)
        requires
            self.wf(),
            frame_id < self.frame_count(),
        ensures
            r == self.pin_count(frame_id as int),
    {
        self.pins[frame_id as usize]
    }

    /// Whether frame `frame_id` is dirty.
    pub fn dirty_of(&self, frame_id: u32) -> (r: bool)
        requires
            self.wf(),
            frame_id < self.frame_count(),
        ensures
            r == self.is_dirty(frame_id as int),
    {
        self.dirty[frame_id as usize]
    }

    /// Replaces the bytes of a pinned frame. The change is handed back for
    /// writing when the page is flushed, or when its frame is evicted after an
    /// unpin that marks it dirty.
    pub fn write_frame(&mut self, frame_id: u32, bytes: &[u8])
        requires
            old(self).wf(),
            frame_id < old(self).frame_count(),
            old(self).pin_count(frame_id as int) > 0,
            bytes@.len() == PAGE_SIZE,
        ensures
            final(self).wf(),
            old(self).agrees_except(&*final(self), frame_id as int),
            final(self).frame_data(frame_id as int) == bytes@,
            final(self).frame_page(frame_id as int) == old(self).frame_page(frame_id as int),
            final(self).pin_count(frame_id as int) == old(self).pin_count(frame_id as int),
            final(self).is_dirty(frame_id as int) == old(self).is_dirty(frame_id as int),
    {
        let page = copy_bytes(bytes);
        self.data.set(frame_id as usize, page);
        assert forall|g: int| 0 <= g < self.frame_pages@.len() implies (#[trigger] self.data@[g])@.len() == PAGE_SIZE by {
            if g != frame_id {
                assert(old(self).data@[g]@.len() == PAGE_SIZE);
            }
        }
    }


}

} // verus!
