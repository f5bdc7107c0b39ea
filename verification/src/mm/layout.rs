//! An address space as mathematics: the sequence of its areas, in address
//! order, and what mapping, unmapping and storing do to that sequence.
use crate::mm::address::{spec_page_ceil, spec_page_floor, spec_page_limit};
use crate::mm::area::AreaView;
use crate::mm::permission::MapPermission;
use vstd::prelude::*;

verus! {

/// The areas are proper, lie in ascending order and share no page.
pub open spec fn ordered(areas: Seq<AreaView>) -> bool {
    &&& forall|i: int| 0 <= i < areas.len() ==> (#[trigger] areas[i]).wf()
    &&& forall|i: int, j: int|
        0 <= i < j < areas.len() ==> (#[trigger] areas[i]).end <= (#[trigger] areas[j]).start
}

/// Whether some area holds page `vpn`.
pub open spec fn page_mapped(areas: Seq<AreaView>, vpn: int) -> bool {
    exists|i: int| 0 <= i < areas.len() && (#[trigger] areas[i]).has_page(vpn)
}

/// Whether some area holds page `vpn` and grants every right in `need`.
pub open spec fn page_allows(areas: Seq<AreaView>, vpn: int, need: MapPermission) -> bool {
    exists|i: int|
        0 <= i < areas.len() && (#[trigger] areas[i]).has_page(vpn) && areas[i].perm.spec_contains(
            need,
        )
}

/// Whether no page of `start..end` is mapped.
pub open spec fn range_free(areas: Seq<AreaView>, start: int, end: int) -> bool {
    forall|i: int| 0 <= i < areas.len() ==> (#[trigger] areas[i]).misses(start, end)
}

/// Whether every page of `start..end` is mapped.
pub open spec fn range_mapped(areas: Seq<AreaView>, start: int, end: int) -> bool {
    forall|vpn: int| start <= vpn < end ==> page_mapped(areas, vpn)
}

/// Whether every page of `start..end` is mapped with every right in `need`.
pub open spec fn range_allows(
    areas: Seq<AreaView>,
    start: int,
    end: int,
    need: MapPermission,
) -> bool {
    forall|vpn: int| start <= vpn < end ==> page_allows(areas, vpn, need)
}

/// Number of areas that start below page `vpn`: the place at which an area
/// starting at `vpn` is put to keep the sequence in order.
pub open spec fn rank(areas: Seq<AreaView>, vpn: int) -> int
    decreases areas.len(),
{
    if areas.len() == 0 {
        0
    } else {
        rank(areas.drop_last(), vpn) + if areas.last().start < vpn {
            1int
        } else {
            0int
        }
    }
}

/// Index of the area that starts at page `vpn`, if there is one.
pub open spec fn area_at(areas: Seq<AreaView>, vpn: int) -> Option<int> {
    let k = rank(areas, vpn);
    if 0 <= k < areas.len() && areas[k].start == vpn {
        Some(k)
    } else {
        None
    }
}

/// Whether the area that starts at page `vpn` can be extended to end at
/// page `new_end`: there is such an area, it ends at or before `new_end`,
/// the pages between are free, and they number at most `budget`.
pub open spec fn can_append(areas: Seq<AreaView>, vpn: int, new_end: int, budget: int) -> bool {
    &&& area_at(areas, vpn) matches Some(k)
    &&& areas[k].end <= new_end <= spec_page_limit()
    &&& range_free(areas, areas[k].end, new_end)
    &&& new_end - areas[k].end <= budget
}

/// The areas with the one that starts at page `vpn` extended to end at
/// page `new_end`.
pub open spec fn appended(areas: Seq<AreaView>, vpn: int, new_end: int) -> Seq<AreaView> {
    let k = area_at(areas, vpn).unwrap();
    areas.update(k, areas[k].grown(new_end))
}

/// Whether the area that starts at page `vpn` can be cut back to end at
/// page `new_end`: there is such an area and `new_end` lies in it or at
/// one of its ends.
pub open spec fn can_shrink(areas: Seq<AreaView>, vpn: int, new_end: int) -> bool {
    &&& area_at(areas, vpn) matches Some(k)
    &&& vpn <= new_end <= areas[k].end
}

/// The areas with the one that starts at page `vpn` cut back to end at
/// page `new_end`; it goes altogether where `new_end` is `vpn`.
pub open spec fn shrunk(areas: Seq<AreaView>, vpn: int, new_end: int) -> Seq<AreaView> {
    let k = area_at(areas, vpn).unwrap();
    if new_end == vpn {
        areas.remove(k)
    } else {
        areas.update(k, areas[k].below(new_end))
    }
}

/// The areas with `area` added at its place.
pub open spec fn inserted(areas: Seq<AreaView>, area: AreaView) -> Seq<AreaView> {
    areas.insert(rank(areas, area.start), area)
}

/// The areas with the pages `start..end` taken out of each.
pub open spec fn removed(areas: Seq<AreaView>, start: int, end: int) -> Seq<AreaView>
    decreases areas.len(),
{
    if areas.len() == 0 {
        Seq::empty()
    } else {
        removed(areas.drop_last(), start, end) + areas.last().without(start, end)
    }
}

/// Number of mapped pages, which is the number of frames in use.
pub open spec fn total_pages(areas: Seq<AreaView>) -> int
    decreases areas.len(),
{
    if areas.len() == 0 {
        0
    } else {
        total_pages(areas.drop_last()) + areas.last().pages()
    }
}

/// The areas after `bytes` were stored at address `addr`.
pub open spec fn stored(areas: Seq<AreaView>, addr: int, bytes: Seq<u8>) -> Seq<AreaView> {
    Seq::new(areas.len(), |i: int| areas[i].overlaid(addr, bytes))
}

/// Whether every page touched by the `len` bytes at address `addr` is
/// mapped with every right in `need`.  No byte touches no page.
pub open spec fn span_allows(areas: Seq<AreaView>, addr: int, len: int, need: MapPermission) -> bool {
    len == 0 || (addr + len <= usize::MAX && range_allows(
        areas,
        spec_page_floor(addr),
        spec_page_ceil(addr + len),
        need,
    ))
}

/// The byte at address `addr`; zero where nothing is mapped.
pub open spec fn byte_at(areas: Seq<AreaView>, addr: int) -> u8
    decreases areas.len(),
{
    if areas.len() == 0 {
        0u8
    } else if areas.last().has_page(spec_page_floor(addr)) {
        areas.last().data[addr - areas.last().base()]
    } else {
        byte_at(areas.drop_last(), addr)
    }
}

/// The `len` bytes from address `addr` on.
pub open spec fn loaded(areas: Seq<AreaView>, addr: int, len: int) -> Seq<u8> {
    Seq::new(len as nat, |k: int| byte_at(areas, addr + k))
}

} // verus!
