use m3::addr::GlobAddr;
use m3::cap::{CapTable, Capability, KObject};
use m3::errors::Code;
use m3::kif::{CapRngDesc, CapType, Perm, INVALID_SEL, MAP_SEL_END};

fn rgate() -> KObject {
    KObject::RGate { slot_order: 6, total_order: 8 }
}

fn ids(caps: &[Capability]) -> Vec<u64> {
    caps.iter().map(|c| c.id).collect()
}

#[test]
fn create_installs_and_get_finds() {
    let mut t = CapTable::new();
    let c = t.create(1, 5, CapType::Object, rgate(), None).unwrap();
    assert_eq!(c.id, 0);
    assert_eq!((c.vpe, c.sel, c.ty), (1, 5, CapType::Object));
    assert_eq!(c.parent, None);
    let d = t.create(1, 5, CapType::Mapping, rgate(), Some(0)).unwrap();
    assert_eq!(d.id, 1);
    assert_eq!(d.parent, Some(0));
    assert_eq!(t.len(), 2);
    assert_eq!(t.get(1, CapType::Object, 5).unwrap().id, 0);
    assert_eq!(t.get(1, CapType::Mapping, 5).unwrap().id, 1);
    assert!(t.get(2, CapType::Object, 5).is_none());
    assert!(t.get(1, CapType::Object, 6).is_none());
    assert_eq!(t.get_by_id(1).unwrap().sel, 5);
    assert!(t.get_by_id(2).is_none());
    assert_eq!(t.nth(1).id, 1);
}

#[test]
fn create_refuses_what_it_must() {
    let mut t = CapTable::new();
    t.create(0, 7, CapType::Object, rgate(), None).unwrap();
    assert_eq!(t.create(0, 7, CapType::Object, rgate(), None).unwrap_err().code(), Code::AlreadyExists);
    assert_eq!(
        t.create(0, INVALID_SEL, CapType::Object, rgate(), None).unwrap_err().code(),
        Code::InvArgs
    );
    assert_eq!(
        t.create(0, MAP_SEL_END, CapType::Mapping, rgate(), None).unwrap_err().code(),
        Code::InvArgs
    );
    assert!(t.create(0, INVALID_SEL, CapType::Mapping, rgate(), None).is_ok());
    assert_eq!(t.create(0, 8, CapType::Object, rgate(), Some(77)).unwrap_err().code(), Code::NoSuchCap);
    assert_eq!(t.check_create(0, 7, CapType::Object, None), Some(Code::AlreadyExists));
    assert_eq!(t.check_create(0, 8, CapType::Object, None), None);
    assert_eq!(t.len(), 2);
}

#[test]
fn revoke_takes_descendants_in_all_vpes() {
    let mut t = CapTable::new();
    let root = t.create(0, 10, CapType::Object, rgate(), None).unwrap();
    let child = t.create(1, 3, CapType::Object, rgate(), Some(root.id)).unwrap();
    let grand = t.create(2, 4, CapType::Object, rgate(), Some(child.id)).unwrap();
    let other = t.create(0, 11, CapType::Object, rgate(), None).unwrap();
    let d = t.revoke(0, CapRngDesc::new(CapType::Object, 10, 1), true).unwrap();
    assert_eq!(ids(&d), vec![grand.id, child.id, root.id]);
    assert!(t.get(0, CapType::Object, 10).is_none());
    assert!(t.get(1, CapType::Object, 3).is_none());
    assert!(t.get(2, CapType::Object, 4).is_none());
    assert_eq!(t.get(0, CapType::Object, 11).unwrap().id, other.id);
    assert_eq!(t.len(), 1);
}

#[test]
fn revoke_without_own_keeps_the_root() {
    let mut t = CapTable::new();
    let root = t.create(0, 10, CapType::Object, rgate(), None).unwrap();
    let a = t.create(1, 3, CapType::Object, rgate(), Some(root.id)).unwrap();
    let b = t.create(1, 4, CapType::Object, rgate(), Some(root.id)).unwrap();
    let d = t.revoke(0, CapRngDesc::new(CapType::Object, 10, 1), false).unwrap();
    assert_eq!(ids(&d), vec![b.id, a.id]);
    assert_eq!(t.get(0, CapType::Object, 10).unwrap().id, root.id);
    assert_eq!(t.len(), 1);
    let again = t.revoke(0, CapRngDesc::new(CapType::Object, 10, 1), false).unwrap();
    assert!(again.is_empty());
    assert_eq!(t.len(), 1);
}

#[test]
fn revoke_without_own_loses_a_root_derived_from_the_run() {
    let mut t = CapTable::new();
    let parent = t.create(0, 6, CapType::Object, rgate(), None).unwrap();
    let child = t.create(0, 5, CapType::Object, rgate(), Some(parent.id)).unwrap();
    let d = t.revoke(0, CapRngDesc::new(CapType::Object, 5, 2), false).unwrap();
    assert_eq!(ids(&d), vec![child.id]);
    assert!(t.get(0, CapType::Object, 5).is_none());
    assert_eq!(t.get(0, CapType::Object, 6).unwrap().id, parent.id);
}

#[test]
fn revoke_walks_selectors_in_ascending_order() {
    let mut t = CapTable::new();
    let late = t.create(0, 21, CapType::Object, rgate(), None).unwrap();
    let early = t.create(0, 20, CapType::Object, rgate(), None).unwrap();
    let of_late = t.create(1, 2, CapType::Object, rgate(), Some(late.id)).unwrap();
    let of_early = t.create(1, 3, CapType::Object, rgate(), Some(early.id)).unwrap();
    let d = t.revoke(0, CapRngDesc::new(CapType::Object, 20, 2), true).unwrap();
    assert_eq!(ids(&d), vec![of_early.id, early.id, of_late.id, late.id]);
    assert_eq!(t.len(), 0);
}

#[test]
fn revoke_passes_over_empty_selectors() {
    let mut t = CapTable::new();
    let c = t.create(0, 4, CapType::Object, rgate(), None).unwrap();
    let d = t.revoke(0, CapRngDesc::new(CapType::Object, 2, 5), true).unwrap();
    assert_eq!(ids(&d), vec![c.id]);
    let e = t.revoke(0, CapRngDesc::new(CapType::Object, 2, 5), true).unwrap();
    assert!(e.is_empty());
    let f = t.revoke(3, CapRngDesc::new(CapType::Mapping, 0, 0), true).unwrap();
    assert!(f.is_empty());
}

#[test]
fn revoke_refuses_a_run_outside_its_space() {
    let mut t = CapTable::new();
    t.create(0, 0xfffe, CapType::Object, rgate(), None).unwrap();
    let r = t.revoke(0, CapRngDesc::new(CapType::Object, 0xfffe, 2), true);
    assert_eq!(r.unwrap_err().code(), Code::InvArgs);
    assert_eq!(t.len(), 1);
    assert!(CapRngDesc::new(CapType::Object, 0xfffe, 1).is_valid());
    assert!(!CapRngDesc::new(CapType::Object, 0xfffe, 2).is_valid());
    assert!(CapRngDesc::new(CapType::Mapping, 0x3fbff, 1).is_valid());
}

#[test]
fn revoke_one_appends_to_what_was_destroyed() {
    let mut t = CapTable::new();
    let a = t.create(0, 2, CapType::Object, rgate(), None).unwrap();
    let b = t.create(0, 3, CapType::Object, rgate(), Some(a.id)).unwrap();
    let mut d = vec![b];
    t.revoke_one(0, CapType::Object, 9, true, &mut d);
    assert_eq!(d.len(), 1);
    t.revoke_one(0, CapType::Object, 2, true, &mut d);
    assert_eq!(ids(&d), vec![b.id, b.id, a.id]);
}

#[test]
fn exchange_with_obtain_makes_derived_copies() {
    let mut t = CapTable::new();
    let mem = KObject::MGate {
        addr: GlobAddr::new_with(0, 0x1000),
        size: 0x100,
        perm: Perm::rw(),
        owned: true,
    };
    let a = t.create(0, 4, CapType::Object, mem, None).unwrap();
    let b = t.create(0, 5, CapType::Object, rgate(), None).unwrap();
    t.exchange(0, CapRngDesc::new(CapType::Object, 4, 2), 1, 9, true).unwrap();
    let ca = t.get(1, CapType::Object, 9).unwrap();
    let cb = t.get(1, CapType::Object, 10).unwrap();
    assert_eq!(ca.parent, Some(a.id));
    assert_eq!(cb.parent, Some(b.id));
    assert_eq!((ca.id, cb.id), (2, 3));
    match ca.obj {
        KObject::MGate { addr, size, perm, owned } => {
            assert_eq!(addr, GlobAddr::new_with(0, 0x1000));
            assert_eq!(size, 0x100);
            assert_eq!(perm, Perm::rw());
            assert!(!owned);
        },
        _ => panic!("the copy is no memory gate"),
    }
    assert!(t.get(0, CapType::Object, 4).is_some());
    let d = t.revoke(1, CapRngDesc::new(CapType::Object, 9, 1), true).unwrap();
    assert_eq!(ids(&d), vec![ca.id]);
    assert!(t.get(0, CapType::Object, 4).is_some());
    let d2 = t.revoke(0, CapRngDesc::new(CapType::Object, 5, 1), true).unwrap();
    assert_eq!(ids(&d2), vec![cb.id, b.id]);
}

#[test]
fn exchange_without_obtain_moves() {
    let mut t = CapTable::new();
    let a = t.create(0, 4, CapType::Object, rgate(), None).unwrap();
    let child = t.create(2, 1, CapType::Object, rgate(), Some(a.id)).unwrap();
    t.exchange(0, CapRngDesc::new(CapType::Object, 4, 1), 1, 30, false).unwrap();
    assert!(t.get(0, CapType::Object, 4).is_none());
    let m = t.get(1, CapType::Object, 30).unwrap();
    assert_eq!(m.id, a.id);
    assert_eq!(t.len(), 2);
    let d = t.revoke(1, CapRngDesc::new(CapType::Object, 30, 1), true).unwrap();
    assert_eq!(ids(&d), vec![child.id, a.id]);
}

#[test]
fn exchange_refuses_what_it_must() {
    let mut t = CapTable::new();
    t.create(0, 4, CapType::Object, rgate(), None).unwrap();
    t.create(0, 5, CapType::Object, rgate(), None).unwrap();
    t.create(1, 8, CapType::Object, rgate(), None).unwrap();
    let run = CapRngDesc::new(CapType::Object, 4, 2);
    assert_eq!(t.exchange(0, run, 1, 7, true).unwrap_err().code(), Code::AlreadyExists);
    assert_eq!(t.exchange(0, run, 1, 0xfffe, true).unwrap_err().code(), Code::InvArgs);
    assert_eq!(t.exchange(0, run, 0, 5, false).unwrap_err().code(), Code::InvArgs);
    assert_eq!(
        t.exchange(0, CapRngDesc::new(CapType::Object, 4, 3), 1, 20, false).unwrap_err().code(),
        Code::NoSuchCap
    );
    assert_eq!(
        t.exchange(0, CapRngDesc::new(CapType::Mapping, 4, 2), 1, 20, false).unwrap_err().code(),
        Code::NoSuchCap
    );
    assert_eq!(t.len(), 3);
    assert!(t.exchange(0, CapRngDesc::new(CapType::Object, 4, 0), 1, 8, false).is_ok());
    assert!(t.exchange(0, run, 0, 6, true).is_ok());
    assert_eq!(t.len(), 5);
}

#[test]
fn create_run_installs_every_selector_or_none() {
    let mut t = CapTable::new();
    let p = t.create(0, 2, CapType::Object, rgate(), None).unwrap();
    t.create(1, 0x102, CapType::Mapping, rgate(), None).unwrap();
    let obj = KObject::Mapped { addr: GlobAddr::new_with(0, 0), first: 0x100, perm: Perm::rw() };
    let r = t.create_run(1, CapRngDesc::new(CapType::Mapping, 0x100, 3), obj, Some(p.id));
    assert_eq!(r.unwrap_err().code(), Code::AlreadyExists);
    assert_eq!(t.len(), 2);
    t.create_run(1, CapRngDesc::new(CapType::Mapping, 0x103, 3), obj, Some(p.id)).unwrap();
    assert_eq!(t.len(), 5);
    let c = t.get(1, CapType::Mapping, 0x105).unwrap();
    assert_eq!((c.id, c.parent), (4, Some(p.id)));
    assert_eq!(
        t.create_run(1, CapRngDesc::new(CapType::Mapping, 0x200, 1), obj, Some(99)).unwrap_err().code(),
        Code::NoSuchCap
    );
}

#[test]
fn permissions_are_ordered_by_inclusion() {
    assert!(Perm::rw().is_subset_of(Perm::rwx()));
    assert!(!Perm::rwx().is_subset_of(Perm::rw()));
    assert!(Perm::empty().is_subset_of(Perm::empty()));
    assert!(Perm::new(true, false, false).is_subset_of(Perm::rw()));
    assert!(!Perm::new(false, false, true).is_subset_of(Perm::rw()));
}
