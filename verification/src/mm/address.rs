//! Arithmetic on byte addresses and virtual page numbers.
use crate::config::PAGE_SIZE;
use vstd::prelude::*;

verus! {

/// Page that holds the byte at `addr`.
pub open spec fn spec_page_floor(addr: int) -> int {
    addr / (PAGE_SIZE as int)
}

/// First page that starts at or after `addr`.
pub open spec fn spec_page_ceil(addr: int) -> int {
    (addr + PAGE_SIZE - 1) / (PAGE_SIZE as int)
}

/// Whether `addr` is the first byte of a page.
pub open spec fn spec_is_aligned(addr: int) -> bool {
    addr % (PAGE_SIZE as int) == 0
}

/// Page that holds the byte at `addr`.
pub fn page_floor(addr: usize) -> (vpn: usize)
    ensures
        vpn == spec_page_floor(addr as int),
        vpn * PAGE_SIZE <= addr < (vpn + 1) * PAGE_SIZE,
{
    addr / PAGE_SIZE
}

/// First page that starts at or after `addr`.
pub fn page_ceil(addr: usize) -> (vpn: usize)
    ensures
        vpn == spec_page_ceil(addr as int),
        (vpn - 1) * PAGE_SIZE < addr <= vpn * PAGE_SIZE,
{
    if addr % PAGE_SIZE == 0 {
        addr / PAGE_SIZE
    } else {
        addr / PAGE_SIZE + 1
    }
}

/// Whether `addr` is the first byte of a page.
pub fn is_aligned(addr: usize) -> (aligned: bool)
    ensures
        aligned == spec_is_aligned(addr as int),
{
    addr % PAGE_SIZE == 0
}

/// Number of pages that lie wholly inside the address space; no area reaches
/// beyond this page number, so every byte of an area has an address.
pub open spec fn spec_page_limit() -> int {
    usize::MAX as int / PAGE_SIZE as int
}

/// Number of pages that lie wholly inside the address space.
pub fn page_limit() -> (limit: usize)
    ensures
        limit == spec_page_limit(),
        limit * PAGE_SIZE <= usize::MAX,
{
    usize::MAX / PAGE_SIZE
}

} // verus!
