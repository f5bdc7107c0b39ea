use syscall_core::mm::address::{is_aligned, page_ceil, page_floor, page_limit};
use syscall_core::mm::memory_set::MemorySet;
use syscall_core::mm::permission::MapPermission;

fn rw_user() -> MapPermission {
    MapPermission { readable: true, writable: true, executable: false, user: true }
}

fn ranges(set: &MemorySet) -> Vec<(usize, usize)> {
    let mut out = Vec::new();
    for i in 0..set.area_count() {
        out.push((set.area(i).start(), set.area(i).end()));
    }
    out
}

#[test]
fn page_rounding_on_boundaries() {
    assert_eq!(page_floor(0), 0);
    assert_eq!(page_floor(4095), 0);
    assert_eq!(page_floor(4096), 1);
    assert_eq!(page_ceil(0), 0);
    assert_eq!(page_ceil(1), 1);
    assert_eq!(page_ceil(4096), 1);
    assert_eq!(page_ceil(4097), 2);
    assert_eq!(page_ceil(usize::MAX), usize::MAX / 4096 + 1);
    assert!(is_aligned(8192));
    assert!(!is_aligned(8193));
    assert_eq!(page_limit(), usize::MAX / 4096);
}

#[test]
fn permission_bits_and_sets() {
    let none = MapPermission::empty();
    assert!(none.is_empty());
    assert_eq!(none.bits(), 0);
    assert_eq!(MapPermission::default(), none);
    let data = MapPermission::user_data();
    assert_eq!(data.bits(), 0x02 | 0x04 | 0x10);
    assert!(data.contains(MapPermission::user_write()));
    assert!(data.contains(MapPermission::user_read()));
    assert!(!MapPermission::user_read().contains(MapPermission::user_write()));
    let exec = MapPermission { readable: false, writable: false, executable: true, user: false };
    assert_eq!(exec.bits(), 0x08);
    assert_eq!(exec.union(data).bits(), 0x1e);
    assert!(exec.union(data).contains(exec));
}

#[test]
fn areas_are_kept_in_address_order() {
    let mut set = MemorySet::new();
    set.insert_framed_area(10, 12, rw_user());
    set.insert_framed_area(2, 4, rw_user());
    set.insert_framed_area(5, 6, rw_user());
    assert_eq!(ranges(&set), vec![(2, 4), (5, 6), (10, 12)]);
    assert_eq!(set.pages(), 5);
    assert!(set.is_free(4, 5));
    assert!(set.is_free(6, 10));
    assert!(!set.is_free(3, 5));
    assert!(!set.is_free(0, 100));
    assert!(set.is_free(3, 3));
    assert_eq!(set.find_area(5), Some(1));
    assert_eq!(set.find_area(3), None);
}

#[test]
fn coverage_needs_every_page() {
    let mut set = MemorySet::new();
    set.insert_framed_area(2, 4, rw_user());
    set.insert_framed_area(4, 6, MapPermission::user_read());
    set.insert_framed_area(8, 9, rw_user());
    assert!(set.covers(2, 6));
    assert!(set.covers(3, 5));
    assert!(!set.covers(2, 7));
    assert!(!set.covers(1, 3));
    assert!(!set.covers(6, 9));
    assert!(set.covers(8, 9));
    assert!(set.covers(7, 7));
    assert!(set.allows(2, 4, MapPermission::user_write()));
    assert!(!set.allows(2, 6, MapPermission::user_write()));
    assert!(set.allows(2, 6, MapPermission::user_read()));
}

#[test]
fn removing_a_range_cuts_and_splits() {
    let mut set = MemorySet::new();
    set.insert_framed_area(0, 10, rw_user());
    set.insert_framed_area(12, 14, rw_user());
    set.insert_framed_area(20, 30, rw_user());
    // inside one area: it is split
    assert_eq!(set.remove_range(3, 5), 2);
    assert_eq!(ranges(&set), vec![(0, 3), (5, 10), (12, 14), (20, 30)]);
    // across areas: the first loses its end, the middle goes, the last loses its start
    assert_eq!(set.remove_range(8, 22), 2 + 2 + 2);
    assert_eq!(ranges(&set), vec![(0, 3), (5, 8), (22, 30)]);
    // nothing mapped there
    assert_eq!(set.remove_range(10, 20), 0);
    // an empty range
    assert_eq!(set.remove_range(25, 25), 0);
    assert_eq!(ranges(&set), vec![(0, 3), (5, 8), (22, 30)]);
    assert_eq!(set.pages(), 3 + 3 + 8);
    assert_eq!(set.clear(), 14);
    assert_eq!(set.area_count(), 0);
}

#[test]
fn bytes_survive_a_split() {
    let mut set = MemorySet::new();
    set.insert_framed_area(1, 4, rw_user());
    let first = 4096usize;
    assert!(set.write_bytes(first + 5, &[1, 2, 3]));
    assert!(set.write_bytes(first + 2 * 4096 + 7, &[9, 8]));
    assert_eq!(set.remove_range(2, 3), 1);
    assert_eq!(ranges(&set), vec![(1, 2), (3, 4)]);
    assert_eq!(set.read_bytes(first + 5, 3), Some(vec![1, 2, 3]));
    assert_eq!(set.read_bytes(first + 2 * 4096 + 7, 2), Some(vec![9, 8]));
    assert_eq!(set.read_bytes(first + 4096, 1), None);
    assert_eq!(set.byte(first + 4096), 0);
}

#[test]
fn a_store_across_areas_is_all_or_nothing() {
    let mut set = MemorySet::new();
    set.insert_framed_area(1, 2, rw_user());
    set.insert_framed_area(2, 3, rw_user());
    set.insert_framed_area(3, 4, MapPermission::user_read());
    // across the border of two writable areas
    assert!(set.write_bytes(2 * 4096 - 2, &[1, 2, 3, 4]));
    assert_eq!(set.read_bytes(2 * 4096 - 2, 4), Some(vec![1, 2, 3, 4]));
    assert_eq!(set.byte(2 * 4096 - 1), 2);
    assert_eq!(set.byte(2 * 4096), 3);
    // into a page that may only be read: nothing is written
    assert!(!set.write_bytes(3 * 4096 - 2, &[7, 7, 7, 7]));
    assert_eq!(set.read_bytes(3 * 4096 - 2, 4), Some(vec![0, 0, 0, 0]));
    // past the last mapped page
    assert!(!set.write_bytes(4 * 4096 - 1, &[7, 7]));
    // below the first
    assert!(!set.write_bytes(4095, &[7, 7]));
    assert_eq!(set.byte(4096), 0);
    // no byte touches no page
    assert!(set.write_bytes(100, &[]));
    assert_eq!(set.read_bytes(100, 0), Some(vec![]));
    // the end of the range must have an address
    assert!(!set.write_bytes(usize::MAX, &[1, 2]));
}

#[test]
fn heap_area_grows_and_shrinks() {
    let mut set = MemorySet::new();
    set.insert_framed_area(4, 5, rw_user());
    set.insert_framed_area(8, 9, rw_user());
    assert!(set.write_bytes(4 * 4096, &[5]));
    assert_eq!(set.append_to(4, 7, 10), Some(2));
    assert_eq!(ranges(&set), vec![(4, 7), (8, 9)]);
    assert_eq!(set.byte(4 * 4096), 5);
    assert_eq!(set.byte(6 * 4096), 0);
    // into the next area
    assert_eq!(set.append_to(4, 9, 10), None);
    // up to the next area
    assert_eq!(set.append_to(4, 8, 10), Some(1));
    // more than the budget
    assert_eq!(set.append_to(8, 20, 10), None);
    // no area starts there
    assert_eq!(set.append_to(5, 6, 10), None);
    assert_eq!(set.shrink_to(5, 5), None);
    // below its end it cannot grow
    assert_eq!(set.append_to(4, 6, 10), None);
    assert_eq!(set.shrink_to(4, 9), None);
    assert_eq!(set.shrink_to(4, 3), None);
    assert_eq!(set.shrink_to(4, 8), Some(0));
    assert_eq!(set.shrink_to(4, 5), Some(3));
    assert_eq!(ranges(&set), vec![(4, 5), (8, 9)]);
    assert_eq!(set.shrink_to(4, 4), Some(1));
    assert_eq!(ranges(&set), vec![(8, 9)]);
    assert_eq!(set.pages(), 1);
}
