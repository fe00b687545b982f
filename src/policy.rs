//! The eviction-policy interface used by the buffer pool.
use vstd::prelude::*;

verus! {

/// Errors of an eviction policy.
#[derive(Debug, PartialEq, Eq, Structural)]
pub enum PolicyErr {
    /// No frame is a candidate for eviction.
    NoEvictableFrame,
}

/// Decides which unpinned frame to reclaim. The policy's bookkeeping covers
/// exactly the candidate set: the frames whose pin count is zero.
pub trait Policy: Sized {
    /// Internal consistency of the policy's bookkeeping.
    spec fn wf(&self) -> bool;

    /// The frames that may be evicted.
    spec fn candidates(&self) -> Set<u32>;

    /// The frame that the next call of `evict` returns, when there is a
    /// candidate.
    spec fn next_victim(&self) -> u32;

    /// `after` is the state of `self` once `f` has been pinned.
    spec fn pin_step(&self, f: u32, after: &Self) -> bool;

    /// `after` is the state of `self` once `f` has been unpinned.
    spec fn unpin_step(&self, f: u32, after: &Self) -> bool;

    /// `after` is the state of `self` once its next victim has been evicted.
    spec fn evict_step(&self, after: &Self) -> bool;

    /// A policy with no candidate.
    fn new() -> (r: Self)
        ensures
            r.wf(),
            r.candidates() == Set::<u32>::empty(),
    ;

    /// Removes and returns a candidate; fails when there is none.
    fn evict(&mut self) -> (r: Result<u32, PolicyErr>)
        requires
            old(self).wf(),
        ensures
            final(self).wf(),
            old(self).candidates().is_empty() ==> r == Err::<u32, PolicyErr>(PolicyErr::NoEvictableFrame)
                && *final(self) == *old(self),
            !old(self).candidates().is_empty() ==> r is Ok,
            r matches Ok(f) ==> f == old(self).next_victim() && old(self).candidates().contains(f)
                && old(self).evict_step(&*final(self))
                && final(self).candidates() == old(self).candidates().remove(f),
    ;

    /// Removes `frame_id` from the candidates (nothing happens if absent).
    fn pin(&mut self, frame_id: u32)
        requires
            old(self).wf(),
        ensures
            final(self).wf(),
            final(self).candidates() == old(self).candidates().remove(frame_id),
            old(self).pin_step(frame_id, &*final(self)),
    ;

    /// Makes `frame_id` a candidate, as the most recently used one.
    fn unpin(&mut self, frame_id: u32)
        requires
            old(self).wf(),
        ensures
            final(self).wf(),
            final(self).candidates() == old(self).candidates().insert(frame_id),
            old(self).unpin_step(frame_id, &*final(self)),
    ;
}

} // verus!
