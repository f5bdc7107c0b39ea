//! The pool of physical frames, kept as a count: every mapped page of every
//! address space holds one frame of the pool.
use vstd::prelude::*;

verus! {

/// A pool of `capacity` frames, `allocated` of which are handed out.
pub struct FrameAllocator {
    capacity: usize,
    allocated: usize,
}

impl FrameAllocator {
    /// Number of frames in the pool.
    pub closed spec fn spec_capacity(&self) -> int {
        self.capacity as int
    }

    /// Number of frames handed out.
    pub closed spec fn spec_allocated(&self) -> int {
        self.allocated as int
    }

    /// Number of frames left.
    pub open spec fn spec_available(&self) -> int {
        self.spec_capacity() - self.spec_allocated()
    }

    /// No more frames are handed out than the pool has.
    pub closed spec fn wf(&self) -> bool {
        self.allocated <= self.capacity
    }

    /// What `wf` says, over the two counts.
    pub proof fn lemma_wf(&self)
        ensures
            self.wf() == (0 <= self.spec_allocated() <= self.spec_capacity()),
            self.spec_capacity() <= usize::MAX,
    {
    }

    /// A pool of `capacity` frames, all of them free.
    pub fn new(capacity: usize) -> (pool: FrameAllocator)
        ensures
            pool.wf(),
            pool.spec_capacity() == capacity,
            pool.spec_allocated() == 0,
    {
        FrameAllocator { capacity, allocated: 0 }
    }

    /// Number of frames in the pool.
    pub fn capacity(&self) -> (count: usize)
        ensures
            count == self.spec_capacity(),
    {
        self.capacity
    }

    /// Number of frames handed out.
    pub fn allocated(&self) -> (count: usize)
        ensures
            count == self.spec_allocated(),
    {
        self.allocated
    }

    /// Number of frames left.
    pub fn available(&self) -> (count: usize)
        requires
            self.wf(),
        ensures
            count == self.spec_available(),
    {
        self.capacity - self.allocated
    }

    /// Takes `count` frames from the pool, if it has that many left.
    pub fn reserve(&mut self, count: usize) -> (done: bool)
        requires
            old(self).wf(),
        ensures
            final(self).wf(),
            final(self).spec_capacity() == old(self).spec_capacity(),
            done == (count <= old(self).spec_available()),
            done ==> final(self).spec_allocated() == old(self).spec_allocated() + count,
            !done ==> final(self).spec_allocated() == old(self).spec_allocated(),
    {
        if count <= self.capacity - self.allocated {
            self.allocated = self.allocated + count;
            true
        } else {
            false
        }
    }

    /// Gives `count` frames back to the pool.
    pub fn release(&mut self, count: usize)
        requires
            old(self).wf(),
            count <= old(self).spec_allocated(),
        ensures
            final(self).wf(),
            final(self).spec_capacity() == old(self).spec_capacity(),
            final(self).spec_allocated() == old(self).spec_allocated() - count,
    {
        self.allocated = self.allocated - count;
    }
}

} // verus!
