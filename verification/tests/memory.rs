use m3::addr::GlobAddr;
use m3::errors::{Code, Error};
use m3::mem::main::{init, Allocation, MainMemory};
use m3::mem::map::MemMap;
use m3::mem::memmod::MemMod;

fn one_mib() -> MainMemory {
    let mut mem = init();
    mem.add(MemMod::new(GlobAddr::new_with(0, 0), 0x10_0000));
    mem
}

#[test]
fn error_carries_its_code() {
    assert_eq!(Error::new(Code::OutOfMem).code(), Code::OutOfMem);
    assert_ne!(Error::new(Code::OutOfMem), Error::new(Code::InvArgs));
}

#[test]
fn init_has_no_modules() {
    let mem = init();
    assert_eq!(mem.capacity(), 0);
    assert_eq!(mem.available(), 0);
}

#[test]
fn allocate_without_modules_is_out_of_mem() {
    let mut mem = init();
    assert_eq!(mem.allocate(1, 1).unwrap_err().code(), Code::OutOfMem);
}

#[test]
fn capacity_and_available_add_up_over_modules() {
    let mut mem = init();
    mem.add(MemMod::new(GlobAddr::new_with(0, 0), 0x1000));
    mem.add(MemMod::new(GlobAddr::new_with(1, 0x4000), 0x3000));
    assert_eq!(mem.capacity(), 0x4000);
    assert_eq!(mem.available(), 0x4000);
    let a = mem.allocate(0x800, 1).unwrap();
    assert_eq!(a.size(), 0x800);
    assert_eq!(mem.capacity(), 0x4000);
    assert_eq!(mem.available(), 0x3800);
}

#[test]
fn exhausting_one_mib_page_by_page() {
    let mut mem = one_mib();
    let mut handles: Vec<Allocation> = Vec::new();
    for i in 0..256u64 {
        let a = mem.allocate(0x1000, 0x1000).unwrap();
        assert_eq!(a.global(), GlobAddr::new_with(0, i * 0x1000));
        assert_eq!(a.size(), 0x1000);
        handles.push(a);
    }
    assert_eq!(mem.available(), 0);
    assert_eq!(mem.allocate(0x1000, 0x1000).unwrap_err().code(), Code::OutOfMem);
    assert_eq!(mem.available(), 0);
    mem.free(&handles[17]);
    assert_eq!(mem.available(), 0x1000);
    let again = mem.allocate(0x1000, 0x1000).unwrap();
    assert_eq!(again.global(), GlobAddr::new_with(0, 17 * 0x1000));
}

#[test]
fn allocate_then_free_restores_available() {
    let mut mem = one_mib();
    let keep = mem.allocate(0x300, 0x100).unwrap();
    let before = mem.available();
    let a = mem.allocate(0x2345, 0x40).unwrap();
    assert_eq!(mem.available(), before - 0x2345);
    mem.free(&a);
    assert_eq!(mem.available(), before);
    let b = mem.allocate(0x2345, 0x40).unwrap();
    assert_eq!(b.global(), a.global());
    assert_eq!(keep.global(), GlobAddr::new_with(0, 0));
}

#[test]
fn more_than_available_is_out_of_mem() {
    let mut mem = one_mib();
    let _a = mem.allocate(0x1000, 1).unwrap();
    let left = mem.available();
    assert_eq!(mem.allocate(left + 1, 1).unwrap_err().code(), Code::OutOfMem);
    assert_eq!(mem.available(), left);
    assert!(mem.allocate(left, 1).is_ok());
    assert_eq!(mem.available(), 0);
}

#[test]
fn first_fit_across_modules() {
    let mut mem = init();
    mem.add(MemMod::new(GlobAddr::new_with(3, 0x1000), 0x1000));
    mem.add(MemMod::new(GlobAddr::new_with(4, 0), 0x8000));
    let a = mem.allocate(0x800, 1).unwrap();
    assert_eq!(a.global(), GlobAddr::new_with(3, 0x1000));
    let b = mem.allocate(0x1000, 1).unwrap();
    assert_eq!(b.global(), GlobAddr::new_with(4, 0));
    let c = mem.allocate(0x800, 1).unwrap();
    assert_eq!(c.global(), GlobAddr::new_with(3, 0x1800));
    mem.free(&b);
    assert_eq!(mem.available(), 0x8000);
}

#[test]
fn alignment_leaves_the_gap_free() {
    let mut mem = init();
    mem.add(MemMod::new(GlobAddr::new_with(0, 0x10), 0x1000));
    let a = mem.allocate(0x100, 0x100).unwrap();
    assert_eq!(a.global(), GlobAddr::new_with(0, 0x100));
    let b = mem.allocate(0xf0, 1).unwrap();
    assert_eq!(b.global(), GlobAddr::new_with(0, 0x10));
    let c = mem.allocate(1, 1).unwrap();
    assert_eq!(c.global(), GlobAddr::new_with(0, 0x200));
}

#[test]
fn alignment_that_is_no_power_of_two() {
    let mut mem = init();
    mem.add(MemMod::new(GlobAddr::new_with(0, 1), 100));
    let a = mem.allocate(10, 7).unwrap();
    assert_eq!(a.global(), GlobAddr::new_with(0, 7));
}

#[test]
fn alignment_zero_fits_nowhere() {
    let mut mem = one_mib();
    assert_eq!(mem.allocate(0x10, 0).unwrap_err().code(), Code::OutOfMem);
    assert_eq!(mem.available(), 0x10_0000);
}

#[test]
fn size_zero_takes_nothing() {
    let mut mem = one_mib();
    let a = mem.allocate(0, 0x1000).unwrap();
    assert_eq!(a.size(), 0);
    assert_eq!(a.global(), GlobAddr::new_with(0, 0));
    assert_eq!(mem.available(), 0x10_0000);
    mem.free(&a);
    assert_eq!(mem.available(), 0x10_0000);
}

#[test]
fn freed_neighbours_merge() {
    let mut mem = init();
    mem.add(MemMod::new(GlobAddr::new_with(0, 0), 0x3000));
    let a = mem.allocate(0x1000, 1).unwrap();
    let b = mem.allocate(0x1000, 1).unwrap();
    let c = mem.allocate(0x1000, 1).unwrap();
    assert_eq!(mem.allocate(1, 1).unwrap_err().code(), Code::OutOfMem);
    mem.free(&a);
    mem.free(&c);
    assert_eq!(mem.allocate(0x2000, 1).unwrap_err().code(), Code::OutOfMem);
    mem.free(&b);
    let all = mem.allocate(0x3000, 1).unwrap();
    assert_eq!(all.global(), GlobAddr::new_with(0, 0));
}

#[test]
fn claimed_handle_answers_for_nothing() {
    let mut mem = one_mib();
    let mut a = mem.allocate(0x1000, 1).unwrap();
    let addr = a.global();
    a.claim();
    assert_eq!(a.size(), 0);
    assert_eq!(a.global(), addr);
    mem.free(&a);
    assert_eq!(mem.available(), 0x10_0000 - 0x1000);
}

#[test]
fn allocate_at_marks_nothing() {
    let mut mem = init();
    mem.add(MemMod::new(GlobAddr::new_with(2, 0x1000), 0x4000));
    let a = mem.allocate_at(0x200, 0x300).unwrap();
    assert_eq!(a.global(), GlobAddr::new_with(2, 0x1200));
    assert_eq!(a.size(), 0x300);
    assert_eq!(mem.available(), 0x4000);
}

#[test]
fn allocation_new_keeps_its_parts() {
    let a = Allocation::new(GlobAddr::new_with(5, 0x40), 0x80);
    assert_eq!(a.global().pe(), 5);
    assert_eq!(a.global().offset(), 0x40);
    assert_eq!(a.size(), 0x80);
    assert_eq!(GlobAddr::new_with(5, 0x40).offset_by(0x10), GlobAddr::new_with(5, 0x50));
}

#[test]
fn module_claims_only_its_range() {
    let mut m = MemMod::new(GlobAddr::new_with(1, 0x1000), 0x1000);
    assert_eq!(m.addr(), GlobAddr::new_with(1, 0x1000));
    assert_eq!(m.capacity(), 0x1000);
    let g = m.allocate(0x100, 1).unwrap();
    assert_eq!(g, GlobAddr::new_with(1, 0x1000));
    assert_eq!(m.available(), 0xf00);
    assert!(!m.free(GlobAddr::new_with(2, 0x1000), 0x100));
    assert!(!m.free(GlobAddr::new_with(1, 0x800), 0x100));
    assert_eq!(m.available(), 0xf00);
    assert!(m.free(g, 0x100));
    assert_eq!(m.available(), 0x1000);
    assert!(m.has_fit(0x1000, 1));
    assert!(!m.has_fit(0x1001, 1));
}

#[test]
fn map_merges_with_both_neighbours() {
    let mut map = MemMap::new(0x100, 0x300);
    assert_eq!(map.size(), 0x300);
    assert_eq!(map.allocate(0x100, 1).unwrap(), 0x100);
    assert_eq!(map.allocate(0x100, 1).unwrap(), 0x200);
    assert_eq!(map.allocate(0x100, 1).unwrap(), 0x300);
    assert_eq!(map.allocate(1, 1).unwrap_err().code(), Code::OutOfMem);
    map.free(0x100, 0x100);
    map.free(0x300, 0x100);
    assert_eq!(map.size(), 0x200);
    assert_eq!(map.find_fit(0x101, 1), None);
    map.free(0x200, 0x100);
    assert_eq!(map.size(), 0x300);
    assert_eq!(map.find_fit(0x300, 1), Some((0, 0x100)));
}

#[test]
fn map_carves_from_the_middle_of_an_area() {
    let mut map = MemMap::new(0x10, 0x100);
    assert_eq!(map.allocate(0x20, 0x40).unwrap(), 0x40);
    assert_eq!(map.size(), 0xe0);
    assert_eq!(map.allocate(0x30, 1).unwrap(), 0x10);
    assert_eq!(map.allocate(0x30, 1).unwrap(), 0x60);
    map.free(0x40, 0x20);
    assert_eq!(map.allocate(0x20, 0x20).unwrap(), 0x40);
}
