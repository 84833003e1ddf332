use m3::addr::GlobAddr;
use m3::cap::KObject;
use m3::cfg::EP_COUNT;
use m3::dtu::Endpoint;
use m3::errors::Code;
use m3::cfg::MEM_CAP_END;
use m3::kernel::{Kernel, ALL_MEM, MEM_SEL, VPE_SEL};
use m3::kif::{CapRngDesc, CapType, Perm, ServName, INVALID_SEL};
use m3::mem::main::init;
use m3::mem::memmod::MemMod;

fn kernel() -> Kernel {
    let mut mem = init();
    mem.add(MemMod::new(GlobAddr::new_with(0, 0), 0x10_0000));
    let mut k = Kernel::new(mem);
    assert_eq!(k.add_vpe(1).unwrap(), 0);
    assert_eq!(k.add_vpe(2).unwrap(), 1);
    k
}

fn object(sel: u32, count: u32) -> CapRngDesc {
    CapRngDesc::new(CapType::Object, sel, count)
}

#[test]
fn a_vpe_starts_with_its_own_capability_and_free_endpoints() {
    let k = kernel();
    assert!(k.noop().is_ok());
    let c = k.caps.get(1, CapType::Object, VPE_SEL).unwrap();
    assert!(matches!(c.obj, KObject::Vpe { id: 1 }));
    let m = k.caps.get(1, CapType::Object, MEM_SEL).unwrap();
    assert_eq!((c.id, m.id, c.parent, m.parent), (2, 3, None, None));
    match m.obj {
        KObject::MGate { addr, size, perm, owned } => {
            assert_eq!(addr, GlobAddr::new_with(2, 0));
            assert_eq!(size, MEM_CAP_END);
            assert_eq!(perm, Perm::rwx());
            assert!(!owned);
        },
        _ => panic!("no memory capability"),
    }
    assert_eq!((VPE_SEL, MEM_SEL), (0, 1));
    assert!(k.caps.get(1, CapType::Object, 2).is_none());
    assert_eq!(k.caps.len(), 4);
    assert_eq!(k.vpes[1].pe, 2);
    assert_eq!(k.vpes[1].eps.len(), EP_COUNT);
    assert_eq!(k.find_free_ep(1), Some(0));
    assert_eq!(k.vpe_of(0, VPE_SEL).unwrap(), 0);
    assert_eq!(k.vpe_of(0, 5).unwrap_err().code(), Code::NoSuchCap);
}

#[test]
fn create_rgate_checks_the_orders() {
    let mut k = kernel();
    assert_eq!(k.create_rgate(0, 2, 10, 9).unwrap_err().code(), Code::InvArgs);
    assert_eq!(k.create_rgate(0, 2, 10, 15).unwrap_err().code(), Code::NoSpace);
    assert_eq!(k.create_rgate(7, 2, 9, 9).unwrap_err().code(), Code::InvArgs);
    assert_eq!(k.create_rgate(0, INVALID_SEL, 9, 9).unwrap_err().code(), Code::InvArgs);
    assert_eq!(k.create_rgate(0, VPE_SEL, 9, 9).unwrap_err().code(), Code::InvArgs);
    assert_eq!(k.create_rgate(0, MEM_SEL, 9, 9).unwrap_err().code(), Code::InvArgs);
    assert_eq!(k.create_rgate(0, MEM_SEL, 9, 15).unwrap_err().code(), Code::InvArgs);
    assert!(k.create_rgate(0, 2, 9, 9).is_ok());
    assert!(k.create_rgate(0, 3, 0, 14).is_ok());
    assert_eq!(k.create_rgate(0, 2, 9, 9).unwrap_err().code(), Code::AlreadyExists);
    assert_eq!(k.vpe_of(0, 2).unwrap_err().code(), Code::InvArgs);
}

#[test]
fn create_sgate_needs_a_receive_gate() {
    let mut k = kernel();
    k.create_rgate(0, 2, 9, 9).unwrap();
    assert_eq!(k.create_sgate(0, 3, 7, 0x1234, 1).unwrap_err().code(), Code::NoSuchCap);
    assert_eq!(k.create_sgate(0, 3, VPE_SEL, 0x1234, 1).unwrap_err().code(), Code::InvArgs);
    assert_eq!(k.create_sgate(0, INVALID_SEL, 2, 0x1234, 1).unwrap_err().code(), Code::InvArgs);
    assert_eq!(k.create_sgate(0, 1, 2, 0x1234, 1).unwrap_err().code(), Code::InvArgs);
    assert_eq!(k.create_sgate(0, 0, 2, 0x1234, 1).unwrap_err().code(), Code::InvArgs);
    assert_eq!(k.create_sgate(0, 1, 7, 0x1234, 1).unwrap_err().code(), Code::InvArgs);
    assert!(k.caps.get(0, CapType::Object, 1).is_some());
    assert_eq!(k.create_sgate(0, 2, 2, 0x1234, 1).unwrap_err().code(), Code::AlreadyExists);
    k.create_sgate(0, 3, 2, 0x1234, 1024).unwrap();
    let rg = k.caps.get(0, CapType::Object, 2).unwrap();
    let sg = k.caps.get(0, CapType::Object, 3).unwrap();
    match sg.obj {
        KObject::SGate { rgate, label, credits } => {
            assert_eq!((rgate, label, credits), (rg.id, 0x1234, 1024));
        },
        _ => panic!("no send gate"),
    }
}

#[test]
fn create_mgate_takes_memory_and_revoke_gives_it_back() {
    let mut k = kernel();
    let before = k.mem.available();
    k.create_mgate(0, 4, ALL_MEM, 0x1000, Perm::rw()).unwrap();
    assert_eq!(k.mem.available(), before - 0x1000);
    k.create_mgate(0, 5, ALL_MEM, 0x800, Perm::rwx()).unwrap();
    assert_eq!(k.mem.available(), before - 0x1800);
    match k.caps.get(0, CapType::Object, 5).unwrap().obj {
        KObject::MGate { addr, size, perm, owned } => {
            assert_eq!(addr, GlobAddr::new_with(0, 0x1000));
            assert_eq!(size, 0x800);
            assert_eq!(perm, Perm::rwx());
            assert!(owned);
        },
        _ => panic!("no memory gate"),
    }
    k.revoke(0, VPE_SEL, object(4, 1), true).unwrap();
    assert_eq!(k.mem.available(), before - 0x800);
    assert!(k.caps.get(0, CapType::Object, 4).is_none());
    k.revoke(0, VPE_SEL, object(4, 2), true).unwrap();
    assert_eq!(k.mem.available(), before);
}

#[test]
fn create_mgate_refuses_what_it_must() {
    let mut k = kernel();
    assert_eq!(k.create_mgate(0, 4, ALL_MEM, 0, Perm::rw()).unwrap_err().code(), Code::InvArgs);
    assert_eq!(k.create_mgate(0, 4, ALL_MEM, 0x10_0001, Perm::rw()).unwrap_err().code(), Code::OutOfMem);
    assert_eq!(ALL_MEM, !0);
    assert_eq!(k.create_mgate(0, VPE_SEL, ALL_MEM, 0x10, Perm::rw()).unwrap_err().code(), Code::InvArgs);
    assert_eq!(k.create_mgate(0, MEM_SEL, ALL_MEM, 0x10, Perm::rw()).unwrap_err().code(), Code::InvArgs);
    assert_eq!(k.create_mgate(0, 4, 9, 0x10, Perm::rw()).unwrap_err().code(), Code::NoSuchCap);
    assert_eq!(k.create_mgate(0, 4, INVALID_SEL, 0x10, Perm::rw()).unwrap_err().code(), Code::NoSuchCap);
    assert_eq!(k.create_mgate(0, 4, MEM_SEL, 0x10, Perm::rw()).unwrap_err().code(), Code::InvArgs);
    assert_eq!(k.mem.available(), 0x10_0000);
    k.create_mgate(0, 4, VPE_SEL, 0x2000, Perm::rw()).unwrap();
    assert_eq!(k.create_mgate(0, 4, ALL_MEM, 0x10, Perm::rw()).unwrap_err().code(), Code::AlreadyExists);
    assert_eq!(k.create_mgate(0, 4, VPE_SEL, 0x10, Perm::rw()).unwrap_err().code(), Code::AlreadyExists);
    assert_eq!(k.mem.available(), 0x10_0000);
    match k.caps.get(0, CapType::Object, 4).unwrap().obj {
        KObject::MGate { addr, size, owned, .. } => {
            assert_eq!(addr, GlobAddr::new_with(1, 0));
            assert_eq!(size, 0x2000);
            assert!(!owned);
        },
        _ => panic!("no memory gate"),
    }
}

#[test]
fn derive_mem_narrows_and_never_widens() {
    let mut k = kernel();
    k.create_mgate(0, 4, ALL_MEM, 0x1000, Perm::rw()).unwrap();
    assert_eq!(k.derive_mem(0, 5, 4, 0, 0x1000, Perm::rwx()).unwrap_err().code(), Code::InvArgs);
    assert_eq!(k.derive_mem(0, 5, 4, 0x800, 0x801, Perm::rw()).unwrap_err().code(), Code::InvArgs);
    assert_eq!(k.derive_mem(0, 5, 4, 0x1001, 0, Perm::rw()).unwrap_err().code(), Code::InvArgs);
    assert_eq!(k.derive_mem(0, 5, 4, usize::MAX, 2, Perm::rw()).unwrap_err().code(), Code::InvArgs);
    assert_eq!(k.derive_mem(0, 5, 9, 0, 0x10, Perm::rw()).unwrap_err().code(), Code::NoSuchCap);
    assert_eq!(k.derive_mem(0, 5, VPE_SEL, 0, 0x10, Perm::rw()).unwrap_err().code(), Code::InvArgs);
    assert_eq!(k.derive_mem(0, 4, 4, 0, 0x10, Perm::rw()).unwrap_err().code(), Code::AlreadyExists);
    assert_eq!(k.derive_mem(0, 4, 4, 0, 0x10, Perm::rwx()).unwrap_err().code(), Code::InvArgs);
    k.derive_mem(0, 5, 4, 0x800, 0x800, Perm::new(true, false, false)).unwrap();
    let src = k.caps.get(0, CapType::Object, 4).unwrap();
    let d = k.caps.get(0, CapType::Object, 5).unwrap();
    assert_eq!(d.parent, Some(src.id));
    match d.obj {
        KObject::MGate { addr, size, perm, owned } => {
            assert_eq!(addr, GlobAddr::new_with(0, 0x800));
            assert_eq!(size, 0x800);
            assert_eq!(perm, Perm::new(true, false, false));
            assert!(!owned);
        },
        _ => panic!("no memory gate"),
    }
    assert_eq!(k.derive_mem(0, 6, 5, 0, 0x10, Perm::rw()).unwrap_err().code(), Code::InvArgs);
    assert_eq!(k.derive_mem(0, 1, 5, 0, 0x10, Perm::new(true, false, false)).unwrap_err().code(), Code::InvArgs);
    k.derive_mem(0, 6, MEM_SEL, 0x1000, 0x2000, Perm::rwx()).unwrap();
    match k.caps.get(0, CapType::Object, 6).unwrap().obj {
        KObject::MGate { addr, size, .. } => {
            assert_eq!((addr, size), (GlobAddr::new_with(1, 0x1000), 0x2000));
        },
        _ => panic!("no memory gate"),
    }
    assert_eq!(k.derive_mem(0, 7, MEM_SEL, MEM_CAP_END, 1, Perm::rwx()).unwrap_err().code(), Code::InvArgs);
    let avail = k.mem.available();
    k.revoke(0, VPE_SEL, object(5, 1), true).unwrap();
    assert_eq!(k.mem.available(), avail);
    k.derive_mem(0, 5, 4, 0, 0x1000, Perm::rw()).unwrap();
    k.revoke(0, VPE_SEL, object(4, 1), true).unwrap();
    assert!(k.caps.get(0, CapType::Object, 5).is_none());
    assert_eq!(k.mem.available(), 0x10_0000);
}

#[test]
fn exchange_names_the_target_by_a_vpe_capability() {
    let mut k = kernel();
    k.create_rgate(0, 2, 9, 9).unwrap();
    assert_eq!(k.exchange(0, 9, object(2, 1), 6, true).unwrap_err().code(), Code::NoSuchCap);
    assert_eq!(k.exchange(0, 2, object(2, 1), 6, true).unwrap_err().code(), Code::InvArgs);
    assert_eq!(k.exchange(1, VPE_SEL, object(0, 1), 0, true).unwrap_err().code(), Code::InvArgs);
    k.exchange(1, VPE_SEL, object(0, 1), 30, true).unwrap();
    k.exchange(1, VPE_SEL, object(30, 1), 5, true).unwrap();
    k.exchange(1, VPE_SEL, object(5, 1), 6, false).unwrap();
    assert!(k.caps.get(1, CapType::Object, 5).is_none());
    let own = k.caps.get(1, CapType::Object, VPE_SEL).unwrap();
    let first = k.caps.get(1, CapType::Object, 30).unwrap();
    let second = k.caps.get(1, CapType::Object, 6).unwrap();
    assert_eq!(first.parent, Some(own.id));
    assert_eq!(second.parent, Some(first.id));
    k.revoke(1, 6, object(VPE_SEL, 1), false).unwrap();
    assert!(k.caps.get(1, CapType::Object, VPE_SEL).is_some());
    assert!(k.caps.get(1, CapType::Object, 30).is_none());
    assert!(k.caps.get(1, CapType::Object, 6).is_none());
}

#[test]
fn a_moved_gate_is_revoked_where_it_went() {
    let mut k = kernel();
    k.exchange(0, VPE_SEL, object(0, 1), 40, true).unwrap();
    assert_eq!(k.create_vpe(0, 40, 3).unwrap_err().code(), Code::AlreadyExists);
    assert_eq!(k.create_vpe(9, 41, 3).unwrap_err().code(), Code::InvArgs);
    assert_eq!(k.create_vpe(0, MEM_SEL, 3).unwrap_err().code(), Code::InvArgs);
    assert_eq!(k.create_vpe(0, 41, 3).unwrap(), 2);
    let other = k.caps.get(0, CapType::Object, 41).unwrap();
    let own = k.caps.get(2, CapType::Object, VPE_SEL).unwrap();
    assert!(matches!(other.obj, KObject::Vpe { id: 2 }));
    assert_eq!(other.parent, Some(own.id));
    assert_eq!(k.vpes[2].pe, 3);
    assert!(k.caps.get(2, CapType::Object, MEM_SEL).is_some());
    k.create_mgate(0, 4, ALL_MEM, 0x1000, Perm::rw()).unwrap();
    k.exchange(0, 41, object(4, 1), 8, false).unwrap();
    assert!(k.caps.get(0, CapType::Object, 4).is_none());
    assert!(k.caps.get(2, CapType::Object, 8).is_some());
    assert_eq!(k.mem.available(), 0x10_0000 - 0x1000);
    assert_eq!(k.revoke(0, 40, object(4, 1), true), Ok(()));
    assert_eq!(k.mem.available(), 0x10_0000 - 0x1000);
    k.revoke(0, 41, object(8, 1), true).unwrap();
    assert_eq!(k.mem.available(), 0x10_0000);
}

#[test]
fn revoke_refuses_what_it_must() {
    let mut k = kernel();
    assert_eq!(k.revoke(0, 3, object(0, 1), true).unwrap_err().code(), Code::NoSuchCap);
    assert_eq!(k.revoke(0, VPE_SEL, object(0xffff, 1), true).unwrap_err().code(), Code::InvArgs);
    k.create_rgate(0, 2, 9, 9).unwrap();
    assert_eq!(k.revoke(0, 2, object(2, 1), true).unwrap_err().code(), Code::InvArgs);
    assert!(k.caps.get(0, CapType::Object, 2).is_some());
}

#[test]
fn activate_binds_and_revoke_releases() {
    let mut k = kernel();
    k.create_rgate(0, 2, 8, 9).unwrap();
    k.create_sgate(0, 3, 2, 7, 5).unwrap();
    k.create_mgate(0, 4, ALL_MEM, 0x1000, Perm::rw()).unwrap();
    assert_eq!(k.activate(0, EP_COUNT, 2, 0).unwrap_err().code(), Code::InvArgs);
    assert_eq!(k.activate(0, 0, 9, 0).unwrap_err().code(), Code::NoSuchCap);
    assert_eq!(k.activate(0, 0, VPE_SEL, 0).unwrap_err().code(), Code::InvArgs);
    assert_eq!(k.activate(0, 0, 4, 0x1001).unwrap_err().code(), Code::InvArgs);
    k.activate(0, 0, 2, 0).unwrap();
    k.activate(0, 0, 2, 0).unwrap();
    assert_eq!(k.activate(0, 1, 2, 0).unwrap_err().code(), Code::AlreadyExists);
    assert_eq!(k.activate(0, 0, 3, 0).unwrap_err().code(), Code::AlreadyExists);
    k.activate(0, 1, 3, 0).unwrap();
    k.activate(0, 2, 4, 0x100).unwrap();
    let rg = k.caps.get(0, CapType::Object, 2).unwrap();
    let sg = k.caps.get(0, CapType::Object, 3).unwrap();
    let mg = k.caps.get(0, CapType::Object, 4).unwrap();
    match &k.vpes[0].eps[0] {
        Endpoint::Recv { gate, buf } => {
            assert_eq!(*gate, rg.id);
            assert_eq!(buf.slots.len(), 2);
            assert_eq!((buf.slot_order, buf.total_order), (8, 9));
        },
        _ => panic!("no receive endpoint"),
    }
    match &k.vpes[0].eps[1] {
        Endpoint::Send { gate, rgate, label, credits, limited } => {
            assert_eq!((*gate, *rgate, *label, *credits, *limited), (sg.id, rg.id, 7, 5, true));
        },
        _ => panic!("no send endpoint"),
    }
    match &k.vpes[0].eps[2] {
        Endpoint::Mem { gate, addr, size, perm } => {
            assert_eq!(*gate, mg.id);
            assert_eq!(*addr, GlobAddr::new_with(0, 0x100));
            assert_eq!(*size, 0xf00);
            assert_eq!(*perm, Perm::rw());
        },
        _ => panic!("no memory endpoint"),
    }
    assert_eq!(k.find_ep_of(sg.id), Some((0, 1)));
    assert_eq!(k.find_free_ep(0), Some(3));
    k.revoke(0, VPE_SEL, object(2, 2), true).unwrap();
    assert!(matches!(k.vpes[0].eps[0], Endpoint::Free));
    assert!(matches!(k.vpes[0].eps[1], Endpoint::Free));
    assert!(matches!(k.vpes[0].eps[2], Endpoint::Mem { .. }));
    assert_eq!(k.find_ep_of(sg.id), None);
    k.deactivate(0, 2).unwrap();
    assert!(matches!(k.vpes[0].eps[2], Endpoint::Free));
    assert_eq!(k.deactivate(0, EP_COUNT).unwrap_err().code(), Code::InvArgs);
    k.release_eps(mg.id);
    assert_eq!(k.find_free_ep(0), Some(0));
}

#[test]
fn services_and_sessions() {
    let mut k = kernel();
    k.create_rgate(0, 2, 9, 9).unwrap();
    assert_eq!(k.create_srv(0, 3, 2, "test").unwrap_err().code(), Code::InvArgs);
    k.activate(0, 0, 2, 0).unwrap();
    assert_eq!(k.create_srv(0, 3, 9, "test").unwrap_err().code(), Code::NoSuchCap);
    assert_eq!(k.create_srv(0, 3, VPE_SEL, "test").unwrap_err().code(), Code::InvArgs);
    assert_eq!(
        k.create_srv(0, 3, 2, "a-name-that-is-far-too-long-for-a-service").unwrap_err().code(),
        Code::InvArgs
    );
    assert_eq!(k.open_sess(1, 5, "test", 0).unwrap_err().code(), Code::InvArgs);
    k.create_srv(0, 3, 2, "test").unwrap();
    assert_eq!(k.create_srv(0, 4, 2, "test").unwrap_err().code(), Code::AlreadyExists);
    k.create_srv(0, 4, 2, "m3fs").unwrap();
    let srv = k.caps.get(0, CapType::Object, 4).unwrap();
    let name = ServName::new("m3fs").unwrap();
    assert_eq!(k.find_service(&name).unwrap().id, srv.id);
    assert!(k.find_service(&ServName::new("m3f").unwrap()).is_none());
    assert!(ServName::new("m3fs").unwrap().same(&name));
    assert!(!ServName::new("m3fs2").unwrap().same(&name));
    assert!(ServName::new("123456789012345678901234567890123").is_none());
    assert_eq!(k.open_sess(1, VPE_SEL, "m3fs", 0).unwrap_err().code(), Code::InvArgs);
    assert_eq!(k.open_sess(1, MEM_SEL, "m3fs", 0).unwrap_err().code(), Code::InvArgs);
    assert_eq!(k.open_sess(0, 3, "m3fs", 0).unwrap_err().code(), Code::AlreadyExists);
    assert_eq!(k.create_srv(0, 1, 2, "other").unwrap_err().code(), Code::InvArgs);
    k.open_sess(1, 5, "m3fs", 42).unwrap();
    let sess = k.caps.get(1, CapType::Object, 5).unwrap();
    assert_eq!(sess.parent, Some(srv.id));
    assert!(matches!(sess.obj, KObject::Sess { arg: 42, .. }));
    k.revoke(0, VPE_SEL, object(4, 1), true).unwrap();
    assert!(k.caps.get(1, CapType::Object, 5).is_none());
    assert_eq!(k.open_sess(1, 5, "m3fs", 0).unwrap_err().code(), Code::InvArgs);
    assert!(k.open_sess(1, 5, "test", 0).is_ok());
}

#[test]
fn create_map_makes_one_capability_for_each_page() {
    let mut k = kernel();
    k.create_mgate(0, 4, ALL_MEM, 0x4000, Perm::rw()).unwrap();
    let dest = 0x30000;
    assert_eq!(k.create_map(0, dest, 9, 4, 0, 1, Perm::rw()).unwrap_err().code(), Code::NoSuchCap);
    assert_eq!(k.create_map(0, dest, VPE_SEL, 9, 0, 1, Perm::rw()).unwrap_err().code(), Code::NoSuchCap);
    assert_eq!(k.create_map(0, dest, VPE_SEL, VPE_SEL, 0, 1, Perm::rw()).unwrap_err().code(), Code::InvArgs);
    assert_eq!(k.create_map(0, dest, VPE_SEL, 4, 0, 0, Perm::rw()).unwrap_err().code(), Code::InvArgs);
    assert_eq!(k.create_map(0, dest, VPE_SEL, 4, 3, 2, Perm::rw()).unwrap_err().code(), Code::InvArgs);
    assert_eq!(k.create_map(0, dest, VPE_SEL, 4, 0, 1, Perm::rwx()).unwrap_err().code(), Code::InvArgs);
    assert_eq!(k.create_map(0, 0x3fbff, VPE_SEL, 4, 0, 2, Perm::rw()).unwrap_err().code(), Code::InvArgs);
    k.create_map(0, dest, VPE_SEL, 4, 1, 3, Perm::new(true, false, false)).unwrap();
    assert_eq!(k.create_map(0, dest + 2, VPE_SEL, 4, 0, 1, Perm::rw()).unwrap_err().code(), Code::AlreadyExists);
    let mem = k.caps.get(0, CapType::Object, 4).unwrap();
    for page in 0..3 {
        let c = k.caps.get(0, CapType::Mapping, dest + page).unwrap();
        assert_eq!(c.parent, Some(mem.id));
        match c.obj {
            KObject::Mapped { addr, first, perm } => {
                assert_eq!(addr, GlobAddr::new_with(0, 0x1000));
                assert_eq!(first, dest);
                assert_eq!(perm, Perm::new(true, false, false));
            },
            _ => panic!("no mapping"),
        }
    }
    assert!(k.caps.get(0, CapType::Mapping, dest + 3).is_none());
    k.revoke(0, VPE_SEL, CapRngDesc::new(CapType::Mapping, dest, 1), true).unwrap();
    assert!(k.caps.get(0, CapType::Mapping, dest).is_none());
    assert!(k.caps.get(0, CapType::Mapping, dest + 1).is_some());
    k.revoke(0, VPE_SEL, object(4, 1), false).unwrap();
    assert!(k.caps.get(0, CapType::Mapping, dest + 1).is_none());
    assert!(k.caps.get(0, CapType::Object, 4).is_some());
}
