//! One mapped area: a run of pages with one permission and its backing bytes.
use crate::config::PAGE_SIZE;
use crate::mm::address::spec_page_limit;
use crate::mm::permission::MapPermission;
use vstd::prelude::*;

verus! {

/// What an area is, mathematically: the pages `start..end`, the rights that
/// hold on all of them, and the bytes behind them, page after page.
pub struct AreaView {
    pub start: int,
    pub end: int,
    pub perm: MapPermission,
    pub data: Seq<u8>,
}

impl AreaView {
    /// A proper area: at least one page, inside the address space, with
    /// exactly one page of bytes for each page.
    pub open spec fn wf(self) -> bool {
        &&& 0 <= self.start < self.end <= spec_page_limit()
        &&& self.data.len() == (self.end - self.start) * PAGE_SIZE
    }

    /// Number of pages.
    pub open spec fn pages(self) -> int {
        self.end - self.start
    }

    /// Address of the first byte.
    pub open spec fn base(self) -> int {
        self.start * PAGE_SIZE
    }

    /// Whether page `vpn` belongs to the area.
    pub open spec fn has_page(self, vpn: int) -> bool {
        self.start <= vpn < self.end
    }

    /// Whether the area shares no page with `start..end`.
    pub open spec fn misses(self, start: int, end: int) -> bool {
        self.end <= start || end <= self.start || end <= start
    }

    /// A fresh area over `start..end`, every byte zero.
    pub open spec fn zeroed(start: int, end: int, perm: MapPermission) -> AreaView {
        AreaView {
            start,
            end,
            perm,
            data: Seq::new(((end - start) * PAGE_SIZE) as nat, |i: int| 0u8),
        }
    }

    /// The part of the area below page `vpn`.
    pub open spec fn below(self, vpn: int) -> AreaView {
        AreaView {
            start: self.start,
            end: vpn,
            perm: self.perm,
            data: self.data.subrange(0, (vpn - self.start) * PAGE_SIZE),
        }
    }

    /// The part of the area from page `vpn` on.
    pub open spec fn from(self, vpn: int) -> AreaView {
        AreaView {
            start: vpn,
            end: self.end,
            perm: self.perm,
            data: self.data.subrange((vpn - self.start) * PAGE_SIZE, self.data.len() as int),
        }
    }

    /// The area extended to end at page `vpn`, the new pages zero.
    pub open spec fn grown(self, vpn: int) -> AreaView {
        AreaView {
            start: self.start,
            end: vpn,
            perm: self.perm,
            data: self.data + Seq::new(((vpn - self.end) * PAGE_SIZE) as nat, |i: int| 0u8),
        }
    }

    /// The area after `bytes` were stored at address `addr`: the bytes that
    /// fall inside the area replace what was there, the others are dropped.
    pub open spec fn overlaid(self, addr: int, bytes: Seq<u8>) -> AreaView {
        AreaView {
            start: self.start,
            end: self.end,
            perm: self.perm,
            data: Seq::new(
                self.data.len(),
                |i: int|
                    if addr <= self.base() + i < addr + bytes.len() {
                        bytes[self.base() + i - addr]
                    } else {
                        self.data[i]
                    },
            ),
        }
    }

    /// What is left of the area once the pages `start..end` are taken out:
    /// the area itself where it shares no page with them, and else nothing,
    /// one piece, or a piece on each side.
    pub open spec fn without(self, start: int, end: int) -> Seq<AreaView> {
        if self.misses(start, end) {
            seq![self]
        } else {
            let low = if self.start < start {
                seq![self.below(start)]
            } else {
                Seq::empty()
            };
            let high = if end < self.end {
                seq![self.from(end)]
            } else {
                Seq::empty()
            };
            low + high
        }
    }
}

/// A mapped area with its backing store.
pub struct MemoryArea {
    start: usize,
    end: usize,
    perm: MapPermission,
    data: Vec<u8>,
}

impl View for MemoryArea {
    type V = AreaView;

    closed spec fn view(&self) -> AreaView {
        AreaView {
            start: self.start as int,
            end: self.end as int,
            perm: self.perm,
            data: self.data@,
        }
    }
}

impl MemoryArea {
    /// The invariant of every area that the library hands out.
    pub open spec fn wf(&self) -> bool {
        self@.wf()
    }

    /// Maps the pages `start..end` afresh, every byte zero.
    pub(crate) fn new(start: usize, end: usize, perm: MapPermission) -> (area: MemoryArea)
        requires
            start < end <= spec_page_limit(),
        ensures
            area.wf(),
            area@ == AreaView::zeroed(start as int, end as int, perm),
    {
        assert((end - start) * PAGE_SIZE <= usize::MAX) by (nonlinear_arith)
            requires
                0 <= start < end,
                end <= usize::MAX as int / PAGE_SIZE as int,
                PAGE_SIZE == 4096,
        ;
        let len: usize = (end - start) * PAGE_SIZE;
        let data = vec![0u8; len];
        assert(data@ =~= Seq::new(len as nat, |i: int| 0u8));
        MemoryArea { start, end, perm, data }
    }

    /// First page of the area.
    pub fn start(&self) -> (vpn: usize)
        ensures
            vpn == self@.start,
    {
        self.start
    }

    /// Page just past the area.
    pub fn end(&self) -> (vpn: usize)
        ensures
            vpn == self@.end,
    {
        self.end
    }

    /// Rights that hold on every page of the area.
    pub fn perm(&self) -> (perm: MapPermission)
        ensures
            perm == self@.perm,
    {
        self.perm
    }

    /// Number of pages in the area.
    pub fn pages(&self) -> (count: usize)
        requires
            self.wf(),
        ensures
            count == self@.pages(),
    {
        self.end - self.start
    }

    /// Gives up the pages from `vpn` on.
    pub(crate) fn shrink_end(&mut self, vpn: usize)
        requires
            old(self).wf(),
            old(self)@.start < vpn <= old(self)@.end,
        ensures
            final(self).wf(),
            final(self)@ == old(self)@.below(vpn as int),
    {
        assert((vpn - self.start) * PAGE_SIZE <= (self.end - self.start) * PAGE_SIZE)
            by (nonlinear_arith)
            requires
                self.start < vpn <= self.end,
        ;
        let keep: usize = (vpn - self.start) * PAGE_SIZE;
        self.data.truncate(keep);
        self.end = vpn;
    }

    /// Gives up the pages below `vpn`.
    pub(crate) fn shrink_start(&mut self, vpn: usize)
        requires
            old(self).wf(),
            old(self)@.start <= vpn < old(self)@.end,
        ensures
            final(self).wf(),
            final(self)@ == old(self)@.from(vpn as int),
    {
        assert((vpn - self.start) * PAGE_SIZE <= (self.end - self.start) * PAGE_SIZE
            && (self.end - self.start) * PAGE_SIZE - (vpn - self.start) * PAGE_SIZE == (self.end
            - vpn) * PAGE_SIZE) by (nonlinear_arith)
            requires
                self.start <= vpn < self.end,
        ;
        let skip: usize = (vpn - self.start) * PAGE_SIZE;
        let rest = self.data.split_off(skip);
        self.data = rest;
        self.start = vpn;
    }

    /// Splits the area in two at page `vpn`: `self` keeps the pages below,
    /// the result holds the pages from `vpn` on.
    pub(crate) fn split_at(&mut self, vpn: usize) -> (high: MemoryArea)
        requires
            old(self).wf(),
            old(self)@.start < vpn < old(self)@.end,
        ensures
            final(self).wf(),
            high.wf(),
            final(self)@ == old(self)@.below(vpn as int),
            high@ == old(self)@.from(vpn as int),
    {
        assert((vpn - self.start) * PAGE_SIZE <= (self.end - self.start) * PAGE_SIZE
            && (self.end - self.start) * PAGE_SIZE - (vpn - self.start) * PAGE_SIZE == (self.end
            - vpn) * PAGE_SIZE) by (nonlinear_arith)
            requires
                self.start < vpn < self.end,
        ;
        let keep: usize = (vpn - self.start) * PAGE_SIZE;
        let rest = self.data.split_off(keep);
        let high = MemoryArea { start: vpn, end: self.end, perm: self.perm, data: rest };
        self.end = vpn;
        high
    }

    /// Extends the area to end at page `vpn`; the new pages are zero.
    pub(crate) fn grow_end(&mut self, vpn: usize)
        requires
            old(self).wf(),
            old(self)@.end <= vpn <= spec_page_limit(),
        ensures
            final(self).wf(),
            final(self)@ == old(self)@.grown(vpn as int),
    {
        assert((vpn - self.start) * PAGE_SIZE <= usize::MAX && (vpn - self.start) * PAGE_SIZE
            - (self.end - self.start) * PAGE_SIZE == (vpn - self.end) * PAGE_SIZE
            && (vpn - self.end) * PAGE_SIZE >= 0) by (nonlinear_arith)
            requires
                0 <= self.start < self.end <= vpn,
                vpn <= usize::MAX as int / PAGE_SIZE as int,
                PAGE_SIZE == 4096,
        ;
        let len: usize = (vpn - self.start) * PAGE_SIZE;
        let ghost before = self.data@;
        self.data.resize(len, 0u8);
        assert(self.data@ =~= before + Seq::new(((vpn - self.end) * PAGE_SIZE) as nat, |i: int| 0u8))
            by {
            assert(self.data@.subrange(0, before.len() as int) == before);
            assert forall|i: int| 0 <= i < before.len() implies self.data@[i] == before[i] by {
                assert(self.data@.subrange(0, before.len() as int)[i] == self.data@[i]);
            }
        }
        self.end = vpn;
    }

    /// Stores those of `bytes`, laid out from address `addr` on, that fall
    /// inside the area; the others are passed over.
    pub(crate) fn store(&mut self, addr: usize, bytes: &[u8])
        requires
            old(self).wf(),
            addr + bytes@.len() <= usize::MAX,
        ensures
            final(self).wf(),
            final(self)@ == old(self)@.overlaid(addr as int, bytes@),
    {
        assert(self.start * PAGE_SIZE + self.data@.len() == self.end * PAGE_SIZE && self.end
            * PAGE_SIZE <= usize::MAX) by (nonlinear_arith)
            requires
                0 <= self.start < self.end,
                self.end <= usize::MAX as int / PAGE_SIZE as int,
                self.data@.len() == (self.end - self.start) * PAGE_SIZE,
                PAGE_SIZE == 4096,
        ;
        let base: usize = self.start * PAGE_SIZE;
        let top: usize = self.end * PAGE_SIZE;
        let limit: usize = addr + bytes.len();
        let low: usize = if addr > base {
            addr
        } else {
            base
        };
        let high: usize = if limit < top {
            limit
        } else {
            top
        };
        let ghost before = self.data@;
        let mut at: usize = low;
        while at < high
            invariant
                base <= low <= at,
                at <= high || at == low,
                addr <= low,
                high <= limit,
                high <= top,
                limit == addr + bytes@.len(),
                top == base + before.len(),
                self.data@.len() == before.len(),
                self.start == old(self).start,
                self.end == old(self).end,
                self.perm == old(self).perm,
                forall|i: int|
                    0 <= i < before.len() ==> #[trigger] self.data@[i] == if low <= base + i < at {
                        bytes@[base + i - addr]
                    } else {
                        before[i]
                    },
            decreases high - at,
        {
            let byte: u8 = bytes[at - addr];
            self.data[at - base] = byte;
            at += 1;
        }
        assert(self.data@ =~= old(self)@.overlaid(addr as int, bytes@).data);
    }

    /// The byte at address `addr`, which lies inside the area.
    pub(crate) fn load(&self, addr: usize) -> (byte: u8)
        requires
            self.wf(),
            self@.base() <= addr < self@.base() + self@.data.len(),
        ensures
            byte == self@.data[addr - self@.base()],
    {
        assert(self.start * PAGE_SIZE <= usize::MAX) by (nonlinear_arith)
            requires
                0 <= self.start < self.end,
                self.end <= usize::MAX as int / PAGE_SIZE as int,
                PAGE_SIZE == 4096,
        ;
        self.data[addr - self.start * PAGE_SIZE]
    }
}

} // verus!
