//! What holds of address spaces: the lemmas about the sequence of areas
//! that the code and the laws of the system calls rest on.
use crate::config::PAGE_SIZE;
use crate::mm::address::{spec_page_ceil, spec_page_floor};
use crate::mm::area::AreaView;
use crate::mm::layout::{
    appended, area_at, byte_at, can_append, can_shrink, inserted, loaded, ordered, page_mapped,
    range_free, range_mapped, rank, removed, shrunk, stored, total_pages,
};
use vstd::prelude::*;

verus! {

/// A sequence cut in two, with the first item of the second part moved to
/// the end of the first.
pub proof fn lemma_splice_keep<A>(low: Seq<A>, tail: Seq<A>)
    requires
        tail.len() > 0,
    ensures
        low + tail == (low + seq![tail[0]]) + tail.skip(1),
{
    assert(low + tail =~= (low + seq![tail[0]]) + tail.skip(1));
}

/// A sequence cut in two, with the first item of the second part dropped.
pub proof fn lemma_splice_drop<A>(low: Seq<A>, tail: Seq<A>)
    requires
        tail.len() > 0,
    ensures
        (low + tail).remove(low.len() as int) == (low + Seq::<A>::empty()) + tail.skip(1),
{
    assert((low + tail).remove(low.len() as int) =~= (low + Seq::<A>::empty()) + tail.skip(1));
}

/// A sequence cut in two, with the first item of the second part replaced
/// by `item`.
pub proof fn lemma_splice_one<A>(low: Seq<A>, tail: Seq<A>, item: A)
    requires
        tail.len() > 0,
    ensures
        (low + tail).update(low.len() as int, item) == (low + seq![item]) + tail.skip(1),
{
    assert((low + tail).update(low.len() as int, item) =~= (low + seq![item]) + tail.skip(1));
}

/// A sequence cut in two, with the first item of the second part replaced
/// by `first` and `second`.
pub proof fn lemma_splice_two<A>(low: Seq<A>, tail: Seq<A>, first: A, second: A)
    requires
        tail.len() > 0,
    ensures
        (low + tail).update(low.len() as int, first).insert(low.len() as int + 1, second) == (low + (
        seq![first] + seq![second])) + tail.skip(1),
{
    assert((low + tail).update(low.len() as int, first).insert(low.len() as int + 1, second) =~= (low + (
    seq![first] + seq![second])) + tail.skip(1));
}

/// In a sequence split at `k` so that exactly the areas before `k` start
/// below `vpn`, the rank of `vpn` is `k`.
pub proof fn lemma_rank_at_split(areas: Seq<AreaView>, vpn: int, k: int)
    requires
        0 <= k <= areas.len(),
        forall|j: int| 0 <= j < k ==> (#[trigger] areas[j]).start < vpn,
        forall|j: int| k <= j < areas.len() ==> (#[trigger] areas[j]).start >= vpn,
    ensures
        rank(areas, vpn) == k,
    decreases areas.len(),
{
    if areas.len() > 0 {
        let front = areas.drop_last();
        if k == areas.len() {
            lemma_rank_at_split(front, vpn, k - 1);
        } else {
            lemma_rank_at_split(front, vpn, k);
        }
    }
}

/// The rank of two sequences put end to end is the sum of theirs.
pub proof fn lemma_rank_concat(left: Seq<AreaView>, right: Seq<AreaView>, vpn: int)
    ensures
        rank(left + right, vpn) == rank(left, vpn) + rank(right, vpn),
        0 <= rank(right, vpn) <= right.len(),
    decreases right.len(),
{
    if right.len() == 0 {
        assert(left + right =~= left);
    } else {
        assert((left + right).drop_last() =~= left + right.drop_last());
        lemma_rank_concat(left, right.drop_last(), vpn);
    }
}

/// A rank is an index into the sequence, or its length.
pub proof fn lemma_rank_bounds(areas: Seq<AreaView>, vpn: int)
    ensures
        0 <= rank(areas, vpn) <= areas.len(),
{
    lemma_rank_concat(Seq::empty(), areas, vpn);
}

/// An area added anywhere raises the rank of the pages above its start
/// by one, and leaves the others.
pub proof fn lemma_rank_insert(areas: Seq<AreaView>, k: int, area: AreaView, vpn: int)
    requires
        0 <= k <= areas.len(),
    ensures
        (rank(areas.insert(k, area), vpn) == rank(areas, vpn) + if area.start < vpn {
            1int
        } else {
            0int
        }),
{
    let low = areas.take(k);
    let high = areas.skip(k);
    let one = seq![area];
    assert(areas =~= low + high);
    assert(areas.insert(k, area) =~= (low + one) + high);
    lemma_rank_concat(low, high, vpn);
    lemma_rank_concat(low + one, high, vpn);
    lemma_rank_concat(low, one, vpn);
    assert(one.drop_last() =~= Seq::<AreaView>::empty());
    assert(rank(Seq::<AreaView>::empty(), vpn) == 0);
}

/// The rank depends on where the areas start alone.
pub proof fn lemma_rank_by_start(left: Seq<AreaView>, right: Seq<AreaView>, vpn: int)
    requires
        left.len() == right.len(),
        forall|i: int| 0 <= i < left.len() ==> (#[trigger] left[i]).start == right[i].start,
    ensures
        rank(left, vpn) == rank(right, vpn),
    decreases left.len(),
{
    if left.len() > 0 {
        assert(left[left.len() - 1].start == right[left.len() - 1].start);
        assert forall|i: int| 0 <= i < left.drop_last().len() implies (
        #[trigger] left.drop_last()[i]).start == right.drop_last()[i].start by {
            assert(left[i].start == right[i].start);
        }
        lemma_rank_by_start(left.drop_last(), right.drop_last(), vpn);
    }
}

/// In an ordered sequence the rank of a page splits the areas: those
/// before it start below the page, the others at it or above.
pub proof fn lemma_rank_splits(areas: Seq<AreaView>, vpn: int)
    requires
        ordered(areas),
    ensures
        0 <= rank(areas, vpn) <= areas.len(),
        forall|j: int| 0 <= j < rank(areas, vpn) ==> (#[trigger] areas[j]).start < vpn,
        forall|j: int| rank(areas, vpn) <= j < areas.len() ==> (#[trigger] areas[j]).start >= vpn,
    decreases areas.len(),
{
    if areas.len() > 0 {
        let front = areas.drop_last();
        let last = areas.len() - 1;
        assert forall|i: int, j: int| 0 <= i < j < front.len() implies (#[trigger] front[i]).end <= (
        #[trigger] front[j]).start by {
            assert(areas[i].end <= areas[j].start);
        }
        assert forall|i: int| 0 <= i < front.len() implies (#[trigger] front[i]).wf() by {
            assert(areas[i].wf());
        }
        lemma_rank_splits(front, vpn);
        let below = rank(front, vpn);
        if areas[last].start < vpn {
            assert forall|j: int| 0 <= j < front.len() implies (#[trigger] front[j]).start < vpn by {
                assert(areas[j].wf());
                assert(areas[j].end <= areas[last].start);
            }
            if below < front.len() {
                assert(front[below].start >= vpn);
            }
            assert(below == front.len());
        }
        assert forall|j: int| 0 <= j < rank(areas, vpn) implies (#[trigger] areas[j]).start < vpn by {
            if j < front.len() {
                assert(front[j].start < vpn);
            }
        }
        assert forall|j: int| rank(areas, vpn) <= j < areas.len() implies (#[trigger] areas[j]).start
            >= vpn by {
            if j < front.len() {
                assert(front[j].start >= vpn);
            }
        }
    }
}

/// The page count of two sequences put end to end is the sum of theirs.
pub proof fn lemma_total_pages_concat(left: Seq<AreaView>, right: Seq<AreaView>)
    ensures
        total_pages(left + right) == total_pages(left) + total_pages(right),
    decreases right.len(),
{
    if right.len() == 0 {
        assert(left + right =~= left);
    } else {
        assert((left + right).drop_last() =~= left + right.drop_last());
        lemma_total_pages_concat(left, right.drop_last());
    }
}

/// Adding an area adds its pages to the count.
pub proof fn lemma_total_pages_insert(areas: Seq<AreaView>, k: int, area: AreaView)
    requires
        0 <= k <= areas.len(),
    ensures
        total_pages(areas.insert(k, area)) == total_pages(areas) + area.pages(),
{
    let low = areas.take(k);
    let high = areas.skip(k);
    let one = seq![area];
    assert(areas =~= low + high);
    assert(areas.insert(k, area) =~= (low + one) + high);
    lemma_total_pages_concat(low, high);
    lemma_total_pages_concat(low + one, high);
    lemma_total_pages_concat(low, one);
    assert(one.drop_last() =~= Seq::<AreaView>::empty());
    assert(total_pages(Seq::<AreaView>::empty()) == 0);
    assert(total_pages(one) == area.pages());
}

/// Taking an area out takes its pages off the count.
pub proof fn lemma_total_pages_remove(areas: Seq<AreaView>, k: int)
    requires
        0 <= k < areas.len(),
    ensures
        total_pages(areas.remove(k)) == total_pages(areas) - areas[k].pages(),
{
    let rest = areas.remove(k);
    assert(rest.insert(k, areas[k]) =~= areas);
    lemma_total_pages_insert(rest, k, areas[k]);
}

/// Replacing an area changes the count by the difference of the two.
pub proof fn lemma_total_pages_update(areas: Seq<AreaView>, k: int, area: AreaView)
    requires
        0 <= k < areas.len(),
    ensures
        total_pages(areas.update(k, area)) == total_pages(areas) - areas[k].pages() + area.pages(),
{
    let rest = areas.remove(k);
    assert(rest.insert(k, area) =~= areas.update(k, area));
    lemma_total_pages_remove(areas, k);
    lemma_total_pages_insert(rest, k, area);
}

/// Proper areas never count below zero, and none holds more pages than
/// all together.
pub proof fn lemma_total_pages_bounds(areas: Seq<AreaView>)
    requires
        forall|i: int| 0 <= i < areas.len() ==> (#[trigger] areas[i]).wf(),
    ensures
        total_pages(areas) >= 0,
        forall|i: int| 0 <= i < areas.len() ==> (#[trigger] areas[i]).pages() <= total_pages(areas),
    decreases areas.len(),
{
    if areas.len() > 0 {
        let front = areas.drop_last();
        lemma_total_pages_bounds(front);
        assert(areas.last().wf());
        assert forall|i: int| 0 <= i < areas.len() implies (#[trigger] areas[i]).pages()
            <= total_pages(areas) by {
            if i < front.len() {
                assert(front[i].pages() <= total_pages(front));
            }
        }
    }
}

/// The page count depends on the ranges of the areas alone.
pub proof fn lemma_total_pages_by_range(left: Seq<AreaView>, right: Seq<AreaView>)
    requires
        left.len() == right.len(),
        forall|i: int| 0 <= i < left.len() ==> (#[trigger] left[i]).pages() == right[i].pages(),
    ensures
        total_pages(left) == total_pages(right),
    decreases left.len(),
{
    if left.len() > 0 {
        assert(left.last().pages() == right.last().pages()) by {
            assert(left[left.len() - 1].pages() == right[left.len() - 1].pages());
        }
        assert forall|i: int| 0 <= i < left.drop_last().len() implies (#[trigger] left.drop_last()[i]).pages()
            == right.drop_last()[i].pages() by {
            assert(left[i].pages() == right[i].pages());
        }
        lemma_total_pages_by_range(left.drop_last(), right.drop_last());
    }
}

/// One area counts its own pages.
pub proof fn lemma_total_pages_one(area: AreaView)
    ensures
        total_pages(seq![area]) == area.pages(),
        total_pages(Seq::<AreaView>::empty()) == 0,
{
    assert(seq![area].drop_last() =~= Seq::<AreaView>::empty());
    assert(total_pages(Seq::<AreaView>::empty()) == 0);
    assert(seq![area].last() == area);
}

/// What is left of a proper area is made of proper areas inside it.
pub proof fn lemma_without_wf(area: AreaView, start: int, end: int)
    requires
        area.wf(),
    ensures
        (forall|i: int|
            0 <= i < area.without(start, end).len() ==> {
                &&& (#[trigger] area.without(start, end)[i]).wf()
                &&& area.start <= area.without(start, end)[i].start
                &&& area.without(start, end)[i].end <= area.end
            }),
        forall|i: int, j: int|
            0 <= i < j < area.without(start, end).len() ==> (#[trigger] area.without(
                start,
                end,
            )[i]).end <= (#[trigger] area.without(start, end)[j]).start,
{
    if !area.misses(start, end) {
        if area.start < start {
            assert((start - area.start) * PAGE_SIZE <= (area.end - area.start) * PAGE_SIZE)
                by (nonlinear_arith)
                requires
                    area.start < start < area.end,
            ;
        }
        if end < area.end {
            assert((end - area.start) * PAGE_SIZE <= (area.end - area.start) * PAGE_SIZE && (
            area.end - area.start) * PAGE_SIZE - (end - area.start) * PAGE_SIZE == (area.end - end)
                * PAGE_SIZE) by (nonlinear_arith)
                requires
                    area.start < end < area.end,
            ;
        }
    }
}

/// Taking a range out of the first `k + 1` areas is taking it out of the
/// first `k` and then out of the next one.
pub proof fn lemma_removed_step(areas: Seq<AreaView>, k: int, start: int, end: int)
    requires
        0 <= k < areas.len(),
    ensures
        removed(areas.take(k + 1), start, end) == removed(areas.take(k), start, end)
            + areas[k].without(start, end),
{
    assert(areas.take(k + 1).drop_last() =~= areas.take(k));
}

/// Taking a range out of an ordered sequence leaves an ordered sequence,
/// none of whose areas reaches past `bound` if none did before.
pub proof fn lemma_removed_ordered(areas: Seq<AreaView>, start: int, end: int, bound: int)
    requires
        ordered(areas),
        forall|i: int| 0 <= i < areas.len() ==> (#[trigger] areas[i]).end <= bound,
    ensures
        ordered(removed(areas, start, end)),
        forall|i: int|
            0 <= i < removed(areas, start, end).len() ==> (#[trigger] removed(
                areas,
                start,
                end,
            )[i]).end <= bound,
    decreases areas.len(),
{
    if areas.len() > 0 {
        let front = areas.drop_last();
        let last = areas.last();
        let low = removed(front, start, end);
        let high = last.without(start, end);
        assert forall|i: int| 0 <= i < front.len() implies (#[trigger] front[i]).end
            <= last.start by {
            assert(areas[i].end <= areas[areas.len() - 1].start);
        }
        lemma_removed_ordered(front, start, end, last.start);
        lemma_without_wf(last, start, end);
        let all = low + high;
        assert forall|i: int, j: int| 0 <= i < j < all.len() implies (#[trigger] all[i]).end <= (
        #[trigger] all[j]).start by {
            if j < low.len() {
                assert(low[i].end <= low[j].start);
            } else if i < low.len() {
                assert(low[i].end <= last.start);
                assert(last.start <= high[j - low.len()].start);
            } else {
                assert(high[i - low.len()].end <= high[j - low.len()].start);
            }
        }
        assert forall|i: int| 0 <= i < all.len() implies (#[trigger] all[i]).wf() && all[i].end
            <= bound by {
            if i < low.len() {
                assert(low[i].wf());
            } else {
                assert(high[i - low.len()].wf());
            }
        }
    }
}

/// Taking a range out of two sequences put end to end is taking it out of
/// each.
pub proof fn lemma_removed_concat(left: Seq<AreaView>, right: Seq<AreaView>, start: int, end: int)
    ensures
        removed(left + right, start, end) == removed(left, start, end) + removed(
            right,
            start,
            end,
        ),
    decreases right.len(),
{
    if right.len() == 0 {
        assert(left + right =~= left);
        assert(removed(left, start, end) + removed(right, start, end) =~= removed(
            left,
            start,
            end,
        ));
    } else {
        assert((left + right).drop_last() =~= left + right.drop_last());
        lemma_removed_concat(left, right.drop_last(), start, end);
        assert((removed(left, start, end) + removed(right.drop_last(), start, end))
            + right.last().without(start, end) =~= removed(left, start, end) + (removed(
            right.drop_last(),
            start,
            end,
        ) + right.last().without(start, end)));
    }
}

/// Taking out a range that is free changes nothing.
pub proof fn lemma_removed_free(areas: Seq<AreaView>, start: int, end: int)
    requires
        range_free(areas, start, end),
    ensures
        removed(areas, start, end) == areas,
    decreases areas.len(),
{
    if areas.len() == 0 {
        assert(areas =~= Seq::<AreaView>::empty());
    } else {
        assert(areas[areas.len() - 1].misses(start, end));
        assert forall|i: int| 0 <= i < areas.drop_last().len() implies (
        #[trigger] areas.drop_last()[i]).misses(start, end) by {
            assert(areas[i].misses(start, end));
        }
        lemma_removed_free(areas.drop_last(), start, end);
        assert(areas.drop_last() + seq![areas.last()] =~= areas);
    }
}

/// Unmapping takes pages off the count, never more than there are.
pub proof fn lemma_removed_pages(areas: Seq<AreaView>, start: int, end: int)
    requires
        forall|i: int| 0 <= i < areas.len() ==> (#[trigger] areas[i]).wf(),
    ensures
        0 <= total_pages(removed(areas, start, end)) <= total_pages(areas),
    decreases areas.len(),
{
    if areas.len() > 0 {
        let front = areas.drop_last();
        let last = areas.last();
        assert forall|i: int| 0 <= i < front.len() implies (#[trigger] front[i]).wf() by {
            assert(areas[i].wf());
        }
        lemma_removed_pages(front, start, end);
        lemma_total_pages_concat(removed(front, start, end), last.without(start, end));
        assert(areas[areas.len() - 1].wf());
        assert(0 <= total_pages(last.without(start, end)) <= last.pages()) by {
            lemma_total_pages_one(last);
            if !last.misses(start, end) {
                let low = if last.start < start {
                    seq![last.below(start)]
                } else {
                    Seq::empty()
                };
                let high = if end < last.end {
                    seq![last.from(end)]
                } else {
                    Seq::empty()
                };
                lemma_total_pages_concat(low, high);
                lemma_total_pages_one(last.below(start));
                lemma_total_pages_one(last.from(end));
            }
        }
    }
}

/// Unmapping the pages of an area that was just mapped gives back the
/// areas as they were.
pub proof fn lemma_insert_then_remove(areas: Seq<AreaView>, area: AreaView)
    requires
        area.wf(),
        range_free(areas, area.start, area.end),
    ensures
        removed(inserted(areas, area), area.start, area.end) == areas,
        range_mapped(inserted(areas, area), area.start, area.end),
{
    let k = rank(areas, area.start);
    lemma_rank_bounds(areas, area.start);
    let low = areas.take(k);
    let high = areas.skip(k);
    let one = seq![area];
    let all = inserted(areas, area);
    assert(areas =~= low + high);
    assert(all =~= (low + one) + high);
    lemma_removed_concat(low + one, high, area.start, area.end);
    lemma_removed_concat(low, one, area.start, area.end);
    assert forall|i: int| 0 <= i < low.len() implies (#[trigger] low[i]).misses(
        area.start,
        area.end,
    ) by {
        assert(areas[i].misses(area.start, area.end));
    }
    assert forall|i: int| 0 <= i < high.len() implies (#[trigger] high[i]).misses(
        area.start,
        area.end,
    ) by {
        assert(areas[k + i].misses(area.start, area.end));
    }
    lemma_removed_free(low, area.start, area.end);
    lemma_removed_free(high, area.start, area.end);
    assert(one.drop_last() =~= Seq::<AreaView>::empty());
    assert(removed(Seq::<AreaView>::empty(), area.start, area.end) =~= Seq::<AreaView>::empty());
    assert(area.without(area.start, area.end) =~= Seq::<AreaView>::empty());
    assert(removed(one, area.start, area.end) =~= Seq::<AreaView>::empty());
    assert((low + Seq::<AreaView>::empty()) + high =~= areas);
    assert forall|vpn: int| area.start <= vpn < area.end implies page_mapped(all, vpn) by {
        assert(all[k].has_page(vpn));
    }
}

/// After an area was mapped, a range is free where it was free before and
/// the area misses it.
pub proof fn lemma_inserted_free(areas: Seq<AreaView>, area: AreaView, start: int, end: int)
    ensures
        range_free(inserted(areas, area), start, end) == (range_free(areas, start, end)
            && area.misses(start, end)),
{
    let k = rank(areas, area.start);
    lemma_rank_bounds(areas, area.start);
    let all = inserted(areas, area);
    if range_free(all, start, end) {
        assert(all[k].misses(start, end));
        assert forall|i: int| 0 <= i < areas.len() implies (#[trigger] areas[i]).misses(
            start,
            end,
        ) by {
            if i < k {
                assert(all[i].misses(start, end));
            } else {
                assert(all[i + 1].misses(start, end));
            }
        }
    }
    if range_free(areas, start, end) && area.misses(start, end) {
        assert forall|i: int| 0 <= i < all.len() implies (#[trigger] all[i]).misses(start, end) by {
            if i < k {
                assert(areas[i].misses(start, end));
            } else if i > k {
                assert(areas[i - 1].misses(start, end));
            }
        }
    }
}

/// After an area was mapped, it is found at its start.
pub proof fn lemma_inserted_found(areas: Seq<AreaView>, area: AreaView)
    ensures
        area_at(inserted(areas, area), area.start) == Some(rank(areas, area.start)),
{
    let k = rank(areas, area.start);
    lemma_rank_bounds(areas, area.start);
    lemma_rank_insert(areas, k, area, area.start);
}

/// Mapping a free range keeps the areas in order and adds its pages to
/// the count.
pub proof fn lemma_inserted_ordered(areas: Seq<AreaView>, area: AreaView)
    requires
        ordered(areas),
        area.wf(),
        range_free(areas, area.start, area.end),
    ensures
        ordered(inserted(areas, area)),
        total_pages(inserted(areas, area)) == total_pages(areas) + area.pages(),
{
    let k = rank(areas, area.start);
    let after = inserted(areas, area);
    lemma_rank_splits(areas, area.start);
    lemma_total_pages_insert(areas, k, area);
    assert forall|i: int| 0 <= i < after.len() implies (#[trigger] after[i]).wf() by {
        if i < k {
            assert(areas[i].wf());
        } else if i > k {
            assert(areas[i - 1].wf());
        }
    }
    assert forall|i: int, j: int| 0 <= i < j < after.len() implies (#[trigger] after[i]).end <= (
    #[trigger] after[j]).start by {
        if j < k {
            assert(areas[i].end <= areas[j].start);
        } else if j == k {
            assert(areas[i].misses(area.start, area.end));
            assert(areas[i].wf());
        } else if i == k {
            assert(areas[j - 1].misses(area.start, area.end));
            assert(areas[j - 1].wf());
        } else if i < k {
            assert(areas[i].end <= areas[j - 1].start);
        } else {
            assert(areas[i - 1].end <= areas[j - 1].start);
        }
    }
}

/// Extending an area into free pages keeps the areas in order and adds
/// the new pages to the count.
pub proof fn lemma_appended_ordered(areas: Seq<AreaView>, vpn: int, new_end: int, budget: int)
    requires
        ordered(areas),
        can_append(areas, vpn, new_end, budget),
    ensures
        ordered(appended(areas, vpn, new_end)),
        total_pages(appended(areas, vpn, new_end)) == total_pages(areas) + new_end - areas[area_at(
            areas,
            vpn,
        ).unwrap()].end,
{
    let k = area_at(areas, vpn).unwrap();
    let old = areas[k];
    let after = appended(areas, vpn, new_end);
    assert(old.wf());
    lemma_total_pages_update(areas, k, old.grown(new_end));
    assert(old.grown(new_end).wf()) by {
        assert((old.end - old.start) * PAGE_SIZE + (new_end - old.end) * PAGE_SIZE == (new_end
            - old.start) * PAGE_SIZE && (new_end - old.end) * PAGE_SIZE >= 0) by (nonlinear_arith)
            requires
                old.start < old.end <= new_end,
        ;
    }
    assert forall|i: int| 0 <= i < after.len() implies (#[trigger] after[i]).wf() by {
        assert(areas[i].wf());
    }
    assert forall|i: int, j: int| 0 <= i < j < after.len() implies (#[trigger] after[i]).end <= (
    #[trigger] after[j]).start by {
        assert(areas[i].end <= areas[j].start);
        if i == k {
            assert(areas[j].misses(old.end, new_end));
            assert(areas[j].wf());
        }
    }
}

/// Cutting an area back keeps the areas in order and takes the pages given
/// up off the count.
pub proof fn lemma_shrunk_ordered(areas: Seq<AreaView>, vpn: int, new_end: int)
    requires
        ordered(areas),
        can_shrink(areas, vpn, new_end),
    ensures
        ordered(shrunk(areas, vpn, new_end)),
        total_pages(shrunk(areas, vpn, new_end)) == total_pages(areas) - (areas[area_at(
            areas,
            vpn,
        ).unwrap()].end - new_end),
{
    let k = area_at(areas, vpn).unwrap();
    let old = areas[k];
    let after = shrunk(areas, vpn, new_end);
    assert(old.wf());
    if new_end == vpn {
        lemma_total_pages_remove(areas, k);
        assert forall|i: int| 0 <= i < after.len() implies (#[trigger] after[i]).wf() by {
            let i0 = if i < k { i } else { i + 1 };
            assert(areas[i0].wf());
        }
        assert forall|i: int, j: int| 0 <= i < j < after.len() implies (#[trigger] after[i]).end <= (
        #[trigger] after[j]).start by {
            let i0 = if i < k { i } else { i + 1 };
            let j0 = if j < k { j } else { j + 1 };
            assert(areas[i0].end <= areas[j0].start);
        }
    } else {
        lemma_total_pages_update(areas, k, old.below(new_end));
        assert(old.below(new_end).wf()) by {
            assert((new_end - old.start) * PAGE_SIZE <= (old.end - old.start) * PAGE_SIZE)
                by (nonlinear_arith)
                requires
                    old.start < new_end <= old.end,
            ;
        }
        assert forall|i: int| 0 <= i < after.len() implies (#[trigger] after[i]).wf() by {
            assert(areas[i].wf());
        }
        assert forall|i: int, j: int| 0 <= i < j < after.len() implies (#[trigger] after[i]).end <= (
        #[trigger] after[j]).start by {
            assert(areas[i].end <= areas[j].start);
        }
    }
}

/// In an ordered sequence the byte at an address is found in the one area
/// that holds its page.
pub proof fn lemma_byte_at_area(areas: Seq<AreaView>, addr: int, k: int)
    requires
        ordered(areas),
        0 <= k < areas.len(),
        areas[k].has_page(spec_page_floor(addr)),
    ensures
        byte_at(areas, addr) == areas[k].data[addr - areas[k].base()],
    decreases areas.len(),
{
    let last = areas.len() - 1;
    if k < last {
        assert(areas[k].end <= areas[last].start);
        assert forall|i: int, j: int| 0 <= i < j < areas.drop_last().len() implies (
        #[trigger] areas.drop_last()[i]).end <= (#[trigger] areas.drop_last()[j]).start by {
            assert(areas[i].end <= areas[j].start);
        }
        assert forall|i: int| 0 <= i < areas.drop_last().len() implies (
        #[trigger] areas.drop_last()[i]).wf() by {
            assert(areas[i].wf());
        }
        lemma_byte_at_area(areas.drop_last(), addr, k);
    }
}

/// Storing bytes changes no range and no right, so the areas stay in
/// order.
pub proof fn lemma_stored_ordered(areas: Seq<AreaView>, addr: int, bytes: Seq<u8>)
    requires
        ordered(areas),
    ensures
        ordered(stored(areas, addr, bytes)),
        forall|vpn: int|
            page_mapped(stored(areas, addr, bytes), vpn) == #[trigger] page_mapped(areas, vpn),
{
    let after = stored(areas, addr, bytes);
    assert forall|i: int| 0 <= i < after.len() implies (#[trigger] after[i]).wf() by {
        assert(areas[i].wf());
    }
    assert forall|i: int, j: int| 0 <= i < j < after.len() implies (#[trigger] after[i]).end <= (
    #[trigger] after[j]).start by {
        assert(areas[i].end <= areas[j].start);
    }
    assert forall|vpn: int| page_mapped(after, vpn) == #[trigger] page_mapped(areas, vpn) by {
        if page_mapped(after, vpn) {
            let i = choose|i: int| 0 <= i < after.len() && (#[trigger] after[i]).has_page(vpn);
            assert(areas[i].has_page(vpn));
        }
        if page_mapped(areas, vpn) {
            let i = choose|i: int| 0 <= i < areas.len() && (#[trigger] areas[i]).has_page(vpn);
            assert(after[i].has_page(vpn));
        }
    }
}

/// What was stored is what is loaded: after bytes were stored at an
/// address, every mapped byte in their range holds the byte stored there,
/// and every other byte holds what it held.
pub proof fn lemma_store_then_load(areas: Seq<AreaView>, addr: int, bytes: Seq<u8>, at: int)
    requires
        ordered(areas),
        0 <= at,
        page_mapped(areas, spec_page_floor(at)),
    ensures
        (byte_at(stored(areas, addr, bytes), at) == if addr <= at < addr + bytes.len() {
            bytes[at - addr]
        } else {
            byte_at(areas, at)
        }),
{
    let after = stored(areas, addr, bytes);
    let vpn = spec_page_floor(at);
    let i = choose|i: int| 0 <= i < areas.len() && (#[trigger] areas[i]).has_page(vpn);
    lemma_stored_ordered(areas, addr, bytes);
    assert(after[i].has_page(vpn));
    lemma_byte_at_area(areas, at, i);
    lemma_byte_at_area(after, at, i);
    assert(areas[i].wf());
    vstd::arithmetic::div_mod::lemma_fundamental_div_mod(at, PAGE_SIZE as int);
    assert(0 <= at - areas[i].base() < areas[i].data.len()) by (nonlinear_arith)
        requires
            areas[i].start <= vpn < areas[i].end,
            vpn * PAGE_SIZE <= at < (vpn + 1) * PAGE_SIZE,
            areas[i].data.len() == (areas[i].end - areas[i].start) * PAGE_SIZE,
            areas[i].base() == areas[i].start * PAGE_SIZE,
    ;
}

/// All of what was stored is loaded again, where every page that the bytes
/// touch is mapped.
pub proof fn lemma_store_then_load_all(areas: Seq<AreaView>, addr: int, bytes: Seq<u8>)
    requires
        ordered(areas),
        0 <= addr,
        range_mapped(areas, spec_page_floor(addr), spec_page_ceil(addr + bytes.len())),
    ensures
        loaded(stored(areas, addr, bytes), addr, bytes.len() as int) == bytes,
{
    let after = stored(areas, addr, bytes);
    assert forall|k: int| 0 <= k < bytes.len() implies byte_at(after, addr + k) == bytes[k] by {
        let at = addr + k;
        vstd::arithmetic::div_mod::lemma_div_is_ordered(addr, at, PAGE_SIZE as int);
        vstd::arithmetic::div_mod::lemma_fundamental_div_mod(at, PAGE_SIZE as int);
        vstd::arithmetic::div_mod::lemma_fundamental_div_mod(
            addr + bytes.len() + PAGE_SIZE - 1,
            PAGE_SIZE as int,
        );
        assert(spec_page_floor(addr) <= spec_page_floor(at) < spec_page_ceil(addr + bytes.len()));
        assert(page_mapped(areas, spec_page_floor(at)));
        lemma_store_then_load(areas, addr, bytes, at);
    }
    assert(loaded(after, addr, bytes.len() as int) =~= bytes);
}

} // verus!
