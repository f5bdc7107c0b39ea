//! The address space of a task: its mapped areas, kept in address order.
use crate::config::PAGE_SIZE;
use crate::mm::address::{page_ceil, page_floor, page_limit, spec_page_floor, spec_page_limit};
use crate::mm::area::{AreaView, MemoryArea};
use crate::mm::layout::{
    appended, area_at, byte_at, can_append, can_shrink, inserted, loaded, ordered, page_allows,
    page_mapped, range_allows, range_free, range_mapped, removed, shrunk, span_allows, stored,
    total_pages,
};
use crate::mm::lemmas::{
    lemma_appended_ordered, lemma_inserted_ordered, lemma_rank_at_split, lemma_removed_ordered,
    lemma_removed_step, lemma_shrunk_ordered, lemma_splice_drop, lemma_splice_keep,
    lemma_splice_one, lemma_splice_two, lemma_stored_ordered, lemma_total_pages_bounds,
    lemma_total_pages_by_range, lemma_total_pages_insert, lemma_total_pages_remove,
    lemma_total_pages_update,
};
use crate::mm::permission::MapPermission;
use vstd::prelude::*;

verus! {

/// An address space.  Its view is the sequence of its areas in address
/// order; no page belongs to two of them.
pub struct MemorySet {
    areas: Vec<MemoryArea>,
    pages: usize,
}

impl View for MemorySet {
    type V = Seq<AreaView>;

    closed spec fn view(&self) -> Seq<AreaView> {
        Seq::new(self.areas@.len(), |i: int| self.areas@[i]@)
    }
}

impl MemorySet {
    /// The page count that the set keeps beside its areas.
    pub closed spec fn spec_pages(&self) -> int {
        self.pages as int
    }

    /// The invariant of every address space that the library hands out: the
    /// areas are in order and disjoint, and the page count is theirs.
    pub open spec fn wf(&self) -> bool {
        &&& ordered(self@)
        &&& self.spec_pages() == total_pages(self@)
    }

    /// An address space with nothing mapped.
    pub fn new() -> (set: MemorySet)
        ensures
            set.wf(),
            set@ == Seq::<AreaView>::empty(),
    {
        let set = MemorySet { areas: Vec::new(), pages: 0 };
        assert(set@ =~= Seq::<AreaView>::empty());
        set
    }

    /// Number of mapped pages, which is the number of frames the set holds.
    pub fn pages(&self) -> (count: usize)
        requires
            self.wf(),
        ensures
            count == total_pages(self@),
    {
        self.pages
    }

    /// Number of areas.
    pub fn area_count(&self) -> (count: usize)
        ensures
            count == self@.len(),
    {
        self.areas.len()
    }

    /// The area at index `index`, counting in address order.
    pub fn area(&self, index: usize) -> (area: &MemoryArea)
        requires
            self.wf(),
            index < self@.len(),
        ensures
            area.wf(),
            area@ == self@[index as int],
    {
        assert(self@[index as int].wf());
        &self.areas[index]
    }

    /// Whether no page of `start..end` is mapped.
    pub fn is_free(&self, start: usize, end: usize) -> (free: bool)
        requires
            self.wf(),
        ensures
            free == range_free(self@, start as int, end as int),
    {
        let mut i: usize = 0;
        while i < self.areas.len()
            invariant
                i <= self.areas.len(),
                forall|j: int| 0 <= j < i ==> (#[trigger] self@[j]).misses(start as int, end as int),
            decreases self.areas.len() - i,
        {
            let area = &self.areas[i];
            if !(area.end() <= start || end <= area.start() || end <= start) {
                assert(!self@[i as int].misses(start as int, end as int));
                return false;
            }
            i += 1;
        }
        true
    }

    /// Whether every page of `start..end` is mapped with every right in
    /// `need`.
    pub fn allows(&self, start: usize, end: usize, need: MapPermission) -> (all: bool)
        requires
            self.wf(),
        ensures
            all == range_allows(self@, start as int, end as int, need),
    {
        let mut cursor: usize = start;
        let mut i: usize = 0;
        while i < self.areas.len() && cursor < end
            invariant
                self.wf(),
                i <= self.areas.len(),
                start <= cursor,
                forall|vpn: int| start <= vpn < cursor && vpn < end ==> page_allows(self@, vpn, need),
                forall|j: int| 0 <= j < i ==> (#[trigger] self@[j]).end <= cursor,
            decreases self.areas.len() - i,
        {
            let area = &self.areas[i];
            if area.end() <= cursor {
                i += 1;
            } else if area.start() > cursor || !area.perm().contains(need) {
                assert(!page_allows(self@, cursor as int, need)) by {
                    assert forall|k: int| 0 <= k < self@.len() implies !((#[trigger] self@[k]).has_page(
                        cursor as int,
                    ) && self@[k].perm.spec_contains(need)) by {
                        if k > i {
                            assert(self@[i as int].end <= self@[k].start);
                        }
                    }
                }
                return false;
            } else {
                let ghost low = cursor;
                cursor = area.end();
                assert forall|vpn: int| start <= vpn < cursor && vpn < end implies page_allows(
                    self@,
                    vpn,
                    need,
                ) by {
                    if vpn >= low {
                        assert(self@[i as int].has_page(vpn));
                    }
                }
                i += 1;
            }
        }
        if cursor < end {
            assert(!page_allows(self@, cursor as int, need));
            false
        } else {
            true
        }
    }

    /// Whether every page of `start..end` is mapped.
    pub fn covers(&self, start: usize, end: usize) -> (all: bool)
        requires
            self.wf(),
        ensures
            all == range_mapped(self@, start as int, end as int),
    {
        let none = MapPermission::empty();
        let all = self.allows(start, end, none);
        proof {
            assert forall|vpn: int|
                #![trigger page_allows(self@, vpn, none)]
                #![trigger page_mapped(self@, vpn)]
                page_allows(self@, vpn, none) == page_mapped(self@, vpn) by {
                if page_mapped(self@, vpn) {
                    let i = choose|i: int| 0 <= i < self@.len() && (#[trigger] self@[i]).has_page(vpn);
                    assert(self@[i].perm.spec_contains(none));
                }
            }
        }
        all
    }

    /// Maps the pages `start..end` afresh with the rights `perm`, every byte
    /// zero.
    pub fn insert_framed_area(&mut self, start: usize, end: usize, perm: MapPermission)
        requires
            old(self).wf(),
            start < end <= spec_page_limit(),
            range_free(old(self)@, start as int, end as int),
            total_pages(old(self)@) + (end - start) <= usize::MAX,
        ensures
            final(self).wf(),
            final(self)@ == inserted(
                old(self)@,
                AreaView::zeroed(start as int, end as int, perm),
            ),
            total_pages(final(self)@) == total_pages(old(self)@) + (end - start),
    {
        let ghost before = self@;
        let mut k: usize = 0;
        while k < self.areas.len() && self.areas[k].start() < start
            invariant
                k <= self.areas.len(),
                self@ == before,
                forall|j: int| 0 <= j < k ==> (#[trigger] before[j]).start < start,
            decreases self.areas.len() - k,
        {
            k += 1;
        }
        let area = MemoryArea::new(start, end, perm);
        proof {
            assert forall|j: int| k <= j < before.len() implies (#[trigger] before[j]).start
                >= start by {
                if j > k {
                    assert(before[k as int].end <= before[j].start);
                }
            }
            lemma_rank_at_split(before, start as int, k as int);
            lemma_inserted_ordered(before, area@);
        }
        self.areas.insert(k, area);
        self.pages = self.pages + (end - start);
        assert(self@ =~= inserted(before, AreaView::zeroed(start as int, end as int, perm)));
    }

    /// Unmaps whatever is mapped of the pages `start..end`: areas inside the
    /// range go, areas that reach into it are cut back, and one that spans it
    /// is split.  Returns the number of pages that were unmapped.
    pub fn remove_range(&mut self, start: usize, end: usize) -> (freed: usize)
        requires
            old(self).wf(),
        ensures
            final(self).wf(),
            final(self)@ == removed(old(self)@, start as int, end as int),
            freed == total_pages(old(self)@) - total_pages(final(self)@),
    {
        let ghost before = self@;
        let ghost mut k: int = 0;
        let mut i: usize = 0;
        let mut freed: usize = 0;
        proof {
            assert(before.take(0) =~= Seq::<AreaView>::empty());
            assert(before.skip(0) =~= before);
            assert(removed(before.take(0), start as int, end as int) + before.skip(0) =~= before);
        }
        while i < self.areas.len()
            invariant
                ordered(before),
                0 <= k <= before.len(),
                i == removed(before.take(k), start as int, end as int).len(),
                self@ == removed(before.take(k), start as int, end as int) + before.skip(k),
                forall|j: int| 0 <= j < self@.len() ==> (#[trigger] self@[j]).wf(),
                self.spec_pages() == total_pages(self@),
                freed + self.spec_pages() == total_pages(before),
                total_pages(before) <= usize::MAX,
            decreases before.len() - k,
        {
            let ghost done = removed(before.take(k), start as int, end as int);
            let ghost tail = before.skip(k);
            let ghost cur = self@;
            let ghost old_area = before[k];
            proof {
                assert(tail[0] == old_area);
                assert(cur[i as int] == old_area);
                assert(tail.skip(1) =~= before.skip(k + 1));
                lemma_removed_step(before, k, start as int, end as int);
                lemma_total_pages_bounds(cur);
            }
            let a_start = self.areas[i].start();
            let a_end = self.areas[i].end();
            if a_end <= start || end <= a_start || end <= start {
                proof {
                    lemma_splice_keep(done, tail);
                }
                i += 1;
            } else if start <= a_start && a_end <= end {
                let gone = self.areas.remove(i);
                proof {
                    assert(self@ =~= cur.remove(i as int));
                    lemma_total_pages_remove(cur, i as int);
                    lemma_splice_drop(done, tail);
                    assert(old_area.without(start as int, end as int) =~= Seq::<AreaView>::empty());
                }
                self.pages = self.pages - (a_end - a_start);
                freed = freed + (a_end - a_start);
            } else if a_start < start && a_end <= end {
                self.areas[i].shrink_end(start);
                proof {
                    let piece = old_area.below(start as int);
                    assert(self@ =~= cur.update(i as int, piece));
                    lemma_total_pages_update(cur, i as int, piece);
                    lemma_splice_one(done, tail, piece);
                    assert(old_area.without(start as int, end as int) =~= seq![piece]);
                }
                self.pages = self.pages - (a_end - start);
                freed = freed + (a_end - start);
                i += 1;
            } else if start <= a_start {
                self.areas[i].shrink_start(end);
                proof {
                    let piece = old_area.from(end as int);
                    assert(self@ =~= cur.update(i as int, piece));
                    lemma_total_pages_update(cur, i as int, piece);
                    lemma_splice_one(done, tail, piece);
                    assert(old_area.without(start as int, end as int) =~= seq![piece]);
                }
                self.pages = self.pages - (end - a_start);
                freed = freed + (end - a_start);
                i += 1;
            } else {
                let high = self.areas[i].split_at(end);
                self.areas[i].shrink_end(start);
                let ghost low_piece = old_area.below(start as int);
                let ghost high_piece = old_area.from(end as int);
                proof {
                    let twice = old_area.below(end as int).below(start as int);
                    assert(twice.data =~= low_piece.data) by {
                        assert((start - a_start) * PAGE_SIZE <= (end - a_start) * PAGE_SIZE)
                            by (nonlinear_arith)
                            requires
                                a_start < start < end,
                        ;
                    }
                    assert(twice == low_piece);
                    let mid = cur.update(i as int, low_piece);
                    assert(self@ =~= mid);
                    lemma_total_pages_update(cur, i as int, low_piece);
                    lemma_total_pages_insert(mid, i + 1, high_piece);
                }
                self.areas.insert(i + 1, high);
                proof {
                    let mid = cur.update(i as int, low_piece);
                    assert(self@ =~= mid.insert(i + 1, high_piece));
                    lemma_splice_two(done, tail, low_piece, high_piece);
                }
                self.pages = self.pages - (end - start);
                freed = freed + (end - start);
                assert(i + 2 <= self.areas.len()) by {
                    assert(self@.len() == cur.len() + 1);
                }
                i += 2;
            }
            proof {
                k = k + 1;
            }
        }
        proof {
            assert(before.take(k) =~= before);
            assert(self@ =~= removed(before, start as int, end as int));
            lemma_removed_ordered(before, start as int, end as int, spec_page_limit());
        }
        freed
    }

    /// Copies `bytes` into the address space at address `addr`, as a store
    /// from user code would: every page touched must be mapped writable and
    /// user-accessible.  Where one is not, nothing is written at all.
    pub fn write_bytes(&mut self, addr: usize, bytes: &[u8]) -> (done: bool)
        requires
            old(self).wf(),
        ensures
            final(self).wf(),
            done == span_allows(
                old(self)@,
                addr as int,
                bytes@.len() as int,
                MapPermission::spec_user_write(),
            ),
            done ==> final(self)@ == stored(old(self)@, addr as int, bytes@),
            !done ==> final(self)@ == old(self)@,
            total_pages(final(self)@) == total_pages(old(self)@),
    {
        let ghost before = self@;
        let len = bytes.len();
        if len == 0 {
            proof {
                let after = stored(before, addr as int, bytes@);
                assert forall|i: int| 0 <= i < before.len() implies #[trigger] after[i]
                    == before[i] by {
                    assert(after[i].data =~= before[i].data);
                }
                assert(after =~= before);
            }
            return true;
        }
        if len > usize::MAX - addr {
            return false;
        }
        if !self.allows(page_floor(addr), page_ceil(addr + len), MapPermission::user_write()) {
            return false;
        }
        let mut i: usize = 0;
        while i < self.areas.len()
            invariant
                ordered(before),
                addr + bytes@.len() <= usize::MAX,
                i <= self.areas.len(),
                self.areas@.len() == before.len(),
                self.pages == old(self).pages,
                forall|j: int|
                    0 <= j < before.len() ==> #[trigger] self@[j] == if j < i {
                        before[j].overlaid(addr as int, bytes@)
                    } else {
                        before[j]
                    },
            decreases self.areas.len() - i,
        {
            let ghost cur = self@;
            assert(cur[i as int].wf());
            self.areas[i].store(addr, bytes);
            assert forall|j: int| 0 <= j < before.len() implies #[trigger] self@[j] == if j < i + 1 {
                before[j].overlaid(addr as int, bytes@)
            } else {
                before[j]
            } by {
                if j != i {
                    assert(self@[j] == cur[j]);
                }
            }
            i += 1;
        }
        proof {
            let after = stored(before, addr as int, bytes@);
            assert(self@ =~= after);
            lemma_total_pages_by_range(before, after);
            lemma_stored_ordered(before, addr as int, bytes@);
        }
        true
    }

    /// Copies `len` bytes out of the address space from address `addr` on,
    /// as loads from user code would: every page touched must be mapped
    /// readable and user-accessible.
    pub fn read_bytes(&self, addr: usize, len: usize) -> (bytes: Option<Vec<u8>>)
        requires
            self.wf(),
        ensures
            bytes.is_some() == span_allows(
                self@,
                addr as int,
                len as int,
                MapPermission::spec_user_read(),
            ),
            bytes matches Some(b) ==> b@ == loaded(self@, addr as int, len as int),
    {
        let mut out: Vec<u8> = Vec::new();
        if len == 0 {
            assert(out@ =~= loaded(self@, addr as int, len as int));
            return Some(out);
        }
        if len > usize::MAX - addr {
            return None;
        }
        if !self.allows(page_floor(addr), page_ceil(addr + len), MapPermission::user_read()) {
            return None;
        }
        let mut k: usize = 0;
        while k < len
            invariant
                self.wf(),
                k <= len,
                addr + len <= usize::MAX,
                range_allows(
                    self@,
                    spec_page_floor(addr as int),
                    crate::mm::address::spec_page_ceil(addr + len),
                    MapPermission::spec_user_read(),
                ),
                out@.len() == k,
                forall|j: int| 0 <= j < k ==> #[trigger] out@[j] == byte_at(self@, addr + j),
            decreases len - k,
        {
            let byte = self.byte(addr + k);
            out.push(byte);
            k += 1;
        }
        assert(out@ =~= loaded(self@, addr as int, len as int));
        Some(out)
    }

    /// The byte at address `addr`; zero where nothing is mapped.
    pub fn byte(&self, addr: usize) -> (byte: u8)
        requires
            self.wf(),
        ensures
            byte == byte_at(self@, addr as int),
    {
        let vpn = page_floor(addr);
        let mut i: usize = self.areas.len();
        assert(self@.take(i as int) =~= self@);
        while i > 0
            invariant
                self.wf(),
                i <= self.areas.len(),
                vpn == spec_page_floor(addr as int),
                byte_at(self@, addr as int) == byte_at(self@.take(i as int), addr as int),
            decreases i,
        {
            i -= 1;
            let area = &self.areas[i];
            proof {
                assert(self@.take(i + 1).drop_last() =~= self@.take(i as int));
                assert(self@.take(i + 1).last() == self@[i as int]);
                assert(self@[i as int].wf());
            }
            if area.start() <= vpn && vpn < area.end() {
                assert(area@.base() <= addr < area@.base() + area@.data.len()) by (nonlinear_arith)
                    requires
                        area@.start <= vpn < area@.end,
                        vpn * PAGE_SIZE <= addr < (vpn + 1) * PAGE_SIZE,
                        area@.data.len() == (area@.end - area@.start) * PAGE_SIZE,
                        area@.base() == area@.start * PAGE_SIZE,
                ;
                return area.load(addr);
            }
        }
        assert(self@.take(0) =~= Seq::<AreaView>::empty());
        0
    }

    /// Index of the area that starts at page `vpn`, if there is one.
    pub fn find_area(&self, vpn: usize) -> (found: Option<usize>)
        requires
            self.wf(),
        ensures
            found.is_some() == area_at(self@, vpn as int).is_some(),
            found matches Some(k) ==> area_at(self@, vpn as int) == Some(k as int),
    {
        let mut k: usize = 0;
        while k < self.areas.len() && self.areas[k].start() < vpn
            invariant
                k <= self.areas.len(),
                forall|j: int| 0 <= j < k ==> (#[trigger] self@[j]).start < vpn,
            decreases self.areas.len() - k,
        {
            k += 1;
        }
        proof {
            assert forall|j: int| k <= j < self@.len() implies (#[trigger] self@[j]).start >= vpn by {
                if j > k {
                    assert(self@[k as int].wf());
                    assert(self@[k as int].end <= self@[j].start);
                }
            }
            lemma_rank_at_split(self@, vpn as int, k as int);
        }
        if k < self.areas.len() && self.areas[k].start() == vpn {
            Some(k)
        } else {
            None
        }
    }

    /// Extends the area that starts at page `start` to end at page
    /// `new_end`, using at most `budget` new pages, which are zero.  Returns
    /// the number of pages added, or `None`, with nothing changed, where
    /// that cannot be done.
    pub fn append_to(&mut self, start: usize, new_end: usize, budget: usize) -> (added: Option<usize>)
        requires
            old(self).wf(),
            total_pages(old(self)@) + budget <= usize::MAX,
        ensures
            final(self).wf(),
            added.is_some() == can_append(old(self)@, start as int, new_end as int, budget as int),
            (added matches Some(n) ==> {
                &&& final(self)@ == appended(old(self)@, start as int, new_end as int)
                &&& total_pages(final(self)@) == total_pages(old(self)@) + n
                &&& n <= budget
            }),
            added is None ==> final(self)@ == old(self)@,
    {
        let ghost before = self@;
        let k = match self.find_area(start) {
            Some(k) => k,
            None => {
                return None;
            },
        };
        assert(before[k as int].wf());
        let old_end = self.areas[k].end();
        if new_end < old_end || new_end > page_limit() {
            return None;
        }
        if !self.is_free(old_end, new_end) {
            return None;
        }
        let more: usize = new_end - old_end;
        if more > budget {
            return None;
        }
        proof {
            lemma_appended_ordered(before, start as int, new_end as int, budget as int);
        }
        self.areas[k].grow_end(new_end);
        self.pages = self.pages + more;
        assert(self@ =~= appended(before, start as int, new_end as int));
        Some(more)
    }

    /// Cuts the area that starts at page `start` back to end at page
    /// `new_end`, or unmaps it where `new_end` is `start`.  Returns the
    /// number of pages given up, or `None`, with nothing changed, where no
    /// area starts at `start` or `new_end` lies outside it.
    pub fn shrink_to(&mut self, start: usize, new_end: usize) -> (freed: Option<usize>)
        requires
            old(self).wf(),
        ensures
            final(self).wf(),
            freed.is_some() == can_shrink(old(self)@, start as int, new_end as int),
            (freed matches Some(n) ==> {
                &&& final(self)@ == shrunk(old(self)@, start as int, new_end as int)
                &&& total_pages(final(self)@) == total_pages(old(self)@) - n
            }),
            freed is None ==> final(self)@ == old(self)@,
    {
        let ghost before = self@;
        let k = match self.find_area(start) {
            Some(k) => k,
            None => {
                return None;
            },
        };
        assert(before[k as int].wf());
        let old_end = self.areas[k].end();
        if new_end < start || new_end > old_end {
            return None;
        }
        let less: usize = old_end - new_end;
        proof {
            lemma_total_pages_bounds(before);
            lemma_shrunk_ordered(before, start as int, new_end as int);
        }
        if new_end == start {
            self.areas.remove(k);
        } else {
            self.areas[k].shrink_end(new_end);
        }
        assert(self@ =~= shrunk(before, start as int, new_end as int));
        self.pages = self.pages - less;
        Some(less)
    }

    /// Unmaps everything.  Returns the number of pages given up.
    pub fn clear(&mut self) -> (freed: usize)
        requires
            old(self).wf(),
        ensures
            final(self).wf(),
            final(self)@ == Seq::<AreaView>::empty(),
            freed == total_pages(old(self)@),
    {
        let freed = self.pages;
        self.areas.clear();
        self.pages = 0;
        assert(self@ =~= Seq::<AreaView>::empty());
        freed
    }
}

} // verus!
