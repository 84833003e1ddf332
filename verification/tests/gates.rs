use m3::addr::GlobAddr;
use m3::cap::KObject;
use m3::cfg::EP_COUNT;
use m3::com::gate::{Flags, Gate};
use m3::com::mgate::MemGate;
use m3::com::rgate::RecvGate;
use m3::com::sgate::{SGateArgs, SendGate};
use m3::dtu::{Endpoint, HEADER_SIZE};
use m3::errors::Code;
use m3::kernel::{Kernel, MEM_SEL, VPE_SEL};
use m3::kif::{CapType, Perm, FIRST_FREE_SEL, INVALID_SEL};
use m3::mem::main::init;
use m3::mem::memmod::MemMod;
use m3::selftest::{create, run, send_recv, send_reply, setup, Tester};
use m3::vpe::VPE;

fn world() -> (Kernel, VPE) {
    let mut mem = init();
    mem.add(MemMod::new(GlobAddr::new_with(0, 0), 0x10_0000));
    let mut k = Kernel::new(mem);
    let id = k.add_vpe(1).unwrap();
    (k, VPE::new(id))
}

fn reply_gate(k: &mut Kernel, vpe: &mut VPE) -> RecvGate {
    let mut g = RecvGate::new(k, vpe, 8, 10).unwrap();
    g.activate(k).unwrap();
    g
}

#[test]
fn a_vpe_hands_out_selectors_in_order() {
    let mut vpe = VPE::new(3);
    assert_eq!(vpe.id(), 3);
    assert_eq!(vpe.alloc_sel(), FIRST_FREE_SEL);
    assert_eq!(vpe.alloc_cap(), FIRST_FREE_SEL + 1);
    for _ in FIRST_FREE_SEL + 2..INVALID_SEL {
        vpe.alloc_sel();
    }
    assert_eq!(vpe.alloc_sel(), INVALID_SEL);
    assert_eq!(vpe.alloc_sel(), INVALID_SEL);
}

#[test]
fn recv_gate_new_succeeds_for_all_orders_that_fit() {
    for total in 0..=14u32 {
        for slot in 0..=total {
            let (mut k, mut vpe) = world();
            let mut g = RecvGate::new(&mut k, &mut vpe, slot, total).unwrap();
            assert_eq!(g.sel(), FIRST_FREE_SEL);
            assert_eq!(g.ep(), None);
            g.activate(&mut k).unwrap();
            match &k.vpes[0].eps[0] {
                Endpoint::Recv { buf, .. } => {
                    assert_eq!(buf.slots.len(), 1usize << (total - slot));
                    assert!(buf.slots.len() >= 1);
                },
                _ => panic!("no receive endpoint"),
            }
        }
    }
}

#[test]
fn recv_gate_new_refuses_bad_orders() {
    let (mut k, mut vpe) = world();
    assert_eq!(RecvGate::new(&mut k, &mut vpe, 10, 9).unwrap_err().code(), Code::InvArgs);
    assert_eq!(RecvGate::new(&mut k, &mut vpe, 9, 15).unwrap_err().code(), Code::NoSpace);
    let g = RecvGate::new(&mut k, &mut vpe, 9, 9).unwrap();
    assert_eq!(g.sel(), FIRST_FREE_SEL + 2);
}

#[test]
fn one_slot_one_credit() {
    let (mut k, mut vpe) = world();
    let replies = reply_gate(&mut k, &mut vpe);
    let mut rgate = RecvGate::new(&mut k, &mut vpe, 9, 9).unwrap();
    rgate.activate(&mut k).unwrap();
    let mut sgate =
        SendGate::new_with(&mut k, &mut vpe, SGateArgs::new(&rgate).credits(1).label(0x1234)).unwrap();
    let data = vec![7u8; 16];
    sgate.send(&mut k, &data, &replies).unwrap();
    assert_eq!(sgate.send(&mut k, &data, &replies).unwrap_err().code(), Code::MissCredits);
    let msg = rgate.wait(&mut k, None).unwrap().unwrap();
    assert_eq!(msg.header.label, 0x1234);
    assert_eq!(msg.header.length, 16);
    assert_eq!(msg.data, data);
    assert_eq!(msg.slot, 0);
    assert!(!msg.header.is_reply);
    assert_eq!(msg.header.sender_ep, sgate.ep().unwrap());
    assert_eq!(msg.header.reply_ep, replies.ep().unwrap());
    assert!(rgate.wait(&mut k, None).unwrap().is_none());
    rgate.mark_read(&mut k, &msg).unwrap();
    assert_eq!(sgate.send(&mut k, &data, &replies).unwrap_err().code(), Code::MissCredits);
}

#[test]
fn a_full_buffer_refuses_until_a_slot_is_freed() {
    let (mut k, mut vpe) = world();
    let replies = reply_gate(&mut k, &mut vpe);
    let mut rgate = RecvGate::new(&mut k, &mut vpe, 9, 9).unwrap();
    rgate.activate(&mut k).unwrap();
    let mut sgate = SendGate::new_with(&mut k, &mut vpe, SGateArgs::new(&rgate).credits(2)).unwrap();
    let data = vec![1u8; 16];
    sgate.send(&mut k, &data, &replies).unwrap();
    assert_eq!(sgate.send(&mut k, &data, &replies).unwrap_err().code(), Code::NoSpace);
    let msg = rgate.wait(&mut k, None).unwrap().unwrap();
    assert_eq!(sgate.send(&mut k, &data, &replies).unwrap_err().code(), Code::NoSpace);
    rgate.mark_read(&mut k, &msg).unwrap();
    sgate.send(&mut k, &data, &replies).unwrap();
    assert_eq!(sgate.send(&mut k, &data, &replies).unwrap_err().code(), Code::MissCredits);
}

#[test]
fn n_credits_allow_n_messages() {
    for n in 1..6u64 {
        let (mut k, mut vpe) = world();
        let replies = reply_gate(&mut k, &mut vpe);
        let mut rgate = RecvGate::new(&mut k, &mut vpe, 6, 9).unwrap();
        rgate.activate(&mut k).unwrap();
        let mut sgate = SendGate::new_with(&mut k, &mut vpe, SGateArgs::new(&rgate).credits(n)).unwrap();
        let data = vec![0u8; 8];
        for _ in 0..n {
            assert!(sgate.send(&mut k, &data, &replies).is_ok());
        }
        for _ in 0..3 {
            assert_eq!(sgate.send(&mut k, &data, &replies).unwrap_err().code(), Code::MissCredits);
        }
    }
}

#[test]
fn zero_credits_never_run_out() {
    let (mut k, mut vpe) = world();
    let replies = reply_gate(&mut k, &mut vpe);
    let mut rgate = RecvGate::new(&mut k, &mut vpe, 6, 7).unwrap();
    rgate.activate(&mut k).unwrap();
    let mut sgate = SendGate::new(&mut k, &mut vpe, &rgate).unwrap();
    let data = vec![0u8; 8];
    for i in 0..1000u32 {
        sgate.send(&mut k, &data, &replies).unwrap();
        let msg = rgate.wait(&mut k, Some(&sgate)).unwrap().unwrap();
        assert_eq!(msg.header.label, 0);
        assert_eq!(msg.slot, (i % 2) as usize);
        rgate.mark_read(&mut k, &msg).unwrap();
    }
}

#[test]
fn send_binds_lazily_to_the_first_free_endpoint() {
    let (mut k, mut vpe) = world();
    let replies = reply_gate(&mut k, &mut vpe);
    let mut rgate = RecvGate::new(&mut k, &mut vpe, 8, 9).unwrap();
    let mut sgate = SendGate::new_with(&mut k, &mut vpe, SGateArgs::new(&rgate).credits(3)).unwrap();
    assert_eq!(sgate.ep(), None);
    let data = vec![0u8; 4];
    assert_eq!(sgate.send(&mut k, &data, &replies).unwrap_err().code(), Code::InvArgs);
    assert_eq!(sgate.ep(), Some(1));
    rgate.activate(&mut k).unwrap();
    assert_eq!(rgate.ep(), Some(2));
    rgate.activate(&mut k).unwrap();
    assert_eq!(rgate.ep(), Some(2));
    sgate.send(&mut k, &data, &replies).unwrap();
    match &k.vpes[0].eps[1] {
        Endpoint::Send { credits, limited, .. } => assert_eq!((*credits, *limited), (2, true)),
        _ => panic!("no send endpoint"),
    }
}

#[test]
fn send_needs_a_bound_reply_gate() {
    let (mut k, mut vpe) = world();
    let unbound = RecvGate::new(&mut k, &mut vpe, 8, 9).unwrap();
    let mut rgate = RecvGate::new(&mut k, &mut vpe, 8, 9).unwrap();
    rgate.activate(&mut k).unwrap();
    let mut sgate = SendGate::new(&mut k, &mut vpe, &rgate).unwrap();
    assert_eq!(sgate.ep(), None);
    assert_eq!(sgate.send(&mut k, &vec![1u8], &unbound).unwrap_err().code(), Code::InvArgs);
    assert_eq!(sgate.ep(), Some(1));
    assert!(matches!(k.vpes[0].eps[1], Endpoint::Send { .. }));
    assert!(rgate.wait(&mut k, None).unwrap().is_none());
}

#[test]
fn a_message_must_fit_into_a_slot() {
    let (mut k, mut vpe) = world();
    let replies = reply_gate(&mut k, &mut vpe);
    let mut rgate = RecvGate::new(&mut k, &mut vpe, 6, 8).unwrap();
    rgate.activate(&mut k).unwrap();
    let mut sgate = SendGate::new_with(&mut k, &mut vpe, SGateArgs::new(&rgate).credits(1)).unwrap();
    let too_long = vec![0u8; 64 - HEADER_SIZE + 1];
    assert_eq!(sgate.send(&mut k, &too_long, &replies).unwrap_err().code(), Code::InvArgs);
    let fits = vec![0u8; 64 - HEADER_SIZE];
    sgate.send(&mut k, &fits, &replies).unwrap();
    let mut tiny = RecvGate::new(&mut k, &mut vpe, 3, 3).unwrap();
    tiny.activate(&mut k).unwrap();
    let mut to_tiny = SendGate::new(&mut k, &mut vpe, &tiny).unwrap();
    assert_eq!(to_tiny.send(&mut k, &Vec::new(), &replies).unwrap_err().code(), Code::InvArgs);
}

#[test]
fn send_bytes_sends_a_prefix() {
    let (mut k, mut vpe) = world();
    let replies = reply_gate(&mut k, &mut vpe);
    let mut rgate = RecvGate::new(&mut k, &mut vpe, 8, 9).unwrap();
    rgate.activate(&mut k).unwrap();
    let mut sgate = SendGate::new(&mut k, &mut vpe, &rgate).unwrap();
    let data = vec![1u8, 2, 3, 4, 5];
    assert_eq!(sgate.send_bytes(&mut k, &data, 6, &replies).unwrap_err().code(), Code::InvArgs);
    sgate.send_bytes(&mut k, &data, 3, &replies).unwrap();
    let msg = rgate.wait(&mut k, None).unwrap().unwrap();
    assert_eq!(msg.data, vec![1u8, 2, 3]);
    assert_eq!(msg.header.length, 3);
}

#[test]
fn wait_for_a_sender_passes_over_the_others() {
    let (mut k, mut vpe) = world();
    let replies = reply_gate(&mut k, &mut vpe);
    let mut rgate = RecvGate::new(&mut k, &mut vpe, 6, 9).unwrap();
    rgate.activate(&mut k).unwrap();
    let mut first = SendGate::new_with(&mut k, &mut vpe, SGateArgs::new(&rgate).label(1)).unwrap();
    let mut second = SendGate::new_with(&mut k, &mut vpe, SGateArgs::new(&rgate).label(2)).unwrap();
    assert_eq!(rgate.wait(&mut k, Some(&second)).unwrap_err().code(), Code::InvArgs);
    first.send(&mut k, &vec![10u8], &replies).unwrap();
    second.send(&mut k, &vec![20u8], &replies).unwrap();
    first.send(&mut k, &vec![11u8], &replies).unwrap();
    let m = rgate.wait(&mut k, Some(&second)).unwrap().unwrap();
    assert_eq!((m.header.label, m.slot, m.data[0]), (2, 1, 20));
    assert!(rgate.wait(&mut k, Some(&second)).unwrap().is_none());
    let a = rgate.wait(&mut k, None).unwrap().unwrap();
    assert_eq!((a.header.label, a.slot, a.data[0]), (1, 2, 11));
    let b = rgate.wait(&mut k, Some(&first)).unwrap().unwrap();
    assert_eq!((b.header.label, b.slot, b.data[0]), (1, 0, 10));
    assert!(rgate.wait(&mut k, None).unwrap().is_none());
}

#[test]
fn wait_needs_a_bound_gate() {
    let (mut k, mut vpe) = world();
    let rgate = RecvGate::new(&mut k, &mut vpe, 6, 9).unwrap();
    assert_eq!(rgate.wait(&mut k, None).unwrap_err().code(), Code::InvArgs);
}

#[test]
fn a_reply_goes_where_the_sender_said() {
    let (mut k, mut vpe) = world();
    let replies = reply_gate(&mut k, &mut vpe);
    let mut rgate = RecvGate::new(&mut k, &mut vpe, 6, 6).unwrap();
    rgate.activate(&mut k).unwrap();
    let mut sgate = SendGate::new_with(&mut k, &mut vpe, SGateArgs::new(&rgate).label(0x77)).unwrap();
    sgate.send(&mut k, &vec![1u8, 2, 3], &replies).unwrap();
    let msg = rgate.wait(&mut k, None).unwrap().unwrap();
    rgate.reply(&mut k, &msg, &vec![44u8, 3]).unwrap();
    assert_eq!(rgate.reply(&mut k, &msg, &vec![44u8, 3]).unwrap_err().code(), Code::InvArgs);
    assert_eq!(rgate.mark_read(&mut k, &msg).unwrap_err().code(), Code::InvArgs);
    assert!(replies.wait(&mut k, Some(&SendGate::new_bind(0, 0))).unwrap_err().code() == Code::InvArgs);
    let reply = replies.wait(&mut k, Some(&sgate)).unwrap().unwrap();
    assert_eq!(reply.data, vec![44u8, 3]);
    assert!(reply.header.is_reply);
    assert_eq!(reply.header.label, 0);
    assert_eq!(reply.header.sender_ep, sgate.ep().unwrap());
    assert_eq!(replies.reply(&mut k, &reply, &vec![0u8]).unwrap_err().code(), Code::InvArgs);
    replies.mark_read(&mut k, &reply).unwrap();
    sgate.send(&mut k, &vec![9u8], &replies).unwrap();
    let next = rgate.wait(&mut k, None).unwrap().unwrap();
    assert_eq!(next.slot, 0);
}

#[test]
fn a_message_that_was_marked_read_takes_no_reply() {
    let (mut k, mut vpe) = world();
    let replies = reply_gate(&mut k, &mut vpe);
    let mut rgate = RecvGate::new(&mut k, &mut vpe, 6, 6).unwrap();
    rgate.activate(&mut k).unwrap();
    let mut sgate = SendGate::new(&mut k, &mut vpe, &rgate).unwrap();
    sgate.send(&mut k, &vec![1u8], &replies).unwrap();
    let msg = rgate.wait(&mut k, None).unwrap().unwrap();
    rgate.mark_read(&mut k, &msg).unwrap();
    assert_eq!(rgate.reply(&mut k, &msg, &vec![2u8]).unwrap_err().code(), Code::InvArgs);
    assert!(replies.wait(&mut k, None).unwrap().is_none());
}

#[test]
fn a_reply_needs_room_at_the_sender() {
    let (mut k, mut vpe) = world();
    let mut replies = RecvGate::new(&mut k, &mut vpe, 5, 5).unwrap();
    replies.activate(&mut k).unwrap();
    let mut rgate = RecvGate::new(&mut k, &mut vpe, 6, 7).unwrap();
    rgate.activate(&mut k).unwrap();
    let mut sgate = SendGate::new(&mut k, &mut vpe, &rgate).unwrap();
    sgate.send(&mut k, &vec![1u8], &replies).unwrap();
    sgate.send(&mut k, &vec![2u8], &replies).unwrap();
    let one = rgate.wait(&mut k, None).unwrap().unwrap();
    let two = rgate.wait(&mut k, None).unwrap().unwrap();
    assert_eq!(rgate.reply(&mut k, &one, &vec![0u8; 17]).unwrap_err().code(), Code::InvArgs);
    rgate.reply(&mut k, &one, &vec![0u8; 16]).unwrap();
    assert_eq!(rgate.reply(&mut k, &two, &vec![0u8; 1]).unwrap_err().code(), Code::NoSpace);
    let r = replies.wait(&mut k, None).unwrap().unwrap();
    replies.mark_read(&mut k, &r).unwrap();
    rgate.reply(&mut k, &two, &vec![0u8; 1]).unwrap();
}

#[test]
fn the_seventeenth_gate_finds_no_endpoint() {
    let (mut k, mut vpe) = world();
    let mut gates = Vec::new();
    for e in 0..EP_COUNT {
        let mut g = RecvGate::new(&mut k, &mut vpe, 6, 6).unwrap();
        g.activate(&mut k).unwrap();
        assert_eq!(g.ep(), Some(e));
        gates.push(g);
    }
    let mut late = RecvGate::new(&mut k, &mut vpe, 6, 6).unwrap();
    assert_eq!(late.activate(&mut k).unwrap_err().code(), Code::NoFreeEps);
    assert_eq!(late.ep(), None);
    let mut sgate = SendGate::new(&mut k, &mut vpe, &gates[0]).unwrap();
    assert_eq!(sgate.send(&mut k, &vec![0u8], &gates[1]).unwrap_err().code(), Code::NoFreeEps);
    assert_eq!(sgate.send(&mut k, &vec![0u8], &late).unwrap_err().code(), Code::NoFreeEps);
    assert_eq!(sgate.send_bytes(&mut k, &vec![0u8], 1, &late).unwrap_err().code(), Code::NoFreeEps);
    assert_eq!(sgate.send_bytes(&mut k, &vec![0u8], 2, &gates[1]).unwrap_err().code(), Code::NoFreeEps);
    assert_eq!(sgate.ep(), None);
    let gone = gates.remove(5);
    let gone_sel = gone.sel();
    assert_eq!(gone_sel, FIRST_FREE_SEL + 5);
    gone.close(&mut k).unwrap();
    assert!(k.caps.get(0, CapType::Object, gone_sel).is_none());
    late.activate(&mut k).unwrap();
    assert_eq!(late.ep(), Some(5));
}

#[test]
fn create_below_the_first_free_selector_is_refused() {
    let (mut k, mut vpe) = world();
    let rgate = RecvGate::new(&mut k, &mut vpe, 8, 9).unwrap();
    let before = k.caps.len();
    let r = SendGate::new_with(&mut k, &mut vpe, SGateArgs::new(&rgate).sel(1));
    assert_eq!(r.unwrap_err().code(), Code::InvArgs);
    assert_eq!(MEM_SEL, 1);
    assert!(matches!(k.caps.get(0, CapType::Object, 1).unwrap().obj, KObject::MGate { .. }));
    let r = SendGate::new_with(&mut k, &mut vpe, SGateArgs::new(&rgate).sel(VPE_SEL));
    assert_eq!(r.unwrap_err().code(), Code::InvArgs);
    let r = SendGate::new_with(&mut k, &mut vpe, SGateArgs::new(&rgate).sel(0x1_0000));
    assert_eq!(r.unwrap_err().code(), Code::InvArgs);
    let r = SendGate::new_with(&mut k, &mut vpe, SGateArgs::new(&rgate).sel(rgate.sel()));
    assert_eq!(r.unwrap_err().code(), Code::AlreadyExists);
    assert_eq!(k.caps.len(), before);
    let g = SendGate::new_with(&mut k, &mut vpe, SGateArgs::new(&rgate).sel(7)).unwrap();
    assert_eq!(g.sel(), 7);
    assert_eq!(vpe.alloc_sel(), FIRST_FREE_SEL + 1);
}

#[test]
fn sgate_args_build_up() {
    let (mut k, mut vpe) = world();
    let rgate = RecvGate::new(&mut k, &mut vpe, 8, 9).unwrap();
    let a = SGateArgs::new(&rgate);
    assert_eq!((a.rgate_sel, a.label, a.credits, a.sel, a.flags), (rgate.sel(), 0, 0, INVALID_SEL, Flags::empty()));
    let b = a.credits(5).label(9).sel(12);
    assert_eq!((b.rgate_sel, b.label, b.credits, b.sel), (rgate.sel(), 9, 5, 12));
    assert_ne!(Flags::empty(), Flags::keep_cap());
}

#[test]
fn rebind_unbinds() {
    let (mut k, mut vpe) = world();
    let replies = reply_gate(&mut k, &mut vpe);
    let mut one = RecvGate::new(&mut k, &mut vpe, 6, 6).unwrap();
    one.activate(&mut k).unwrap();
    let mut two = RecvGate::new(&mut k, &mut vpe, 6, 6).unwrap();
    two.activate(&mut k).unwrap();
    let mut to_one = SendGate::new_with(&mut k, &mut vpe, SGateArgs::new(&one).label(1)).unwrap();
    let to_two = SendGate::new_with(&mut k, &mut vpe, SGateArgs::new(&two).label(2)).unwrap();
    to_one.send(&mut k, &vec![1u8], &replies).unwrap();
    let ep = to_one.ep().unwrap();
    to_one.rebind(&mut k, to_two.sel()).unwrap();
    assert_eq!(to_one.ep(), None);
    assert_eq!(to_one.sel(), to_two.sel());
    assert!(matches!(k.vpes[0].eps[ep], Endpoint::Free));
    to_one.send(&mut k, &vec![2u8], &replies).unwrap();
    assert_eq!(to_one.ep(), Some(ep));
    let m = two.wait(&mut k, None).unwrap().unwrap();
    assert_eq!((m.header.label, m.data[0]), (2, 2));
}

#[test]
fn a_bound_gate_keeps_its_capability_when_closed() {
    let (mut k, mut vpe) = world();
    let replies = reply_gate(&mut k, &mut vpe);
    let mut rgate = RecvGate::new(&mut k, &mut vpe, 6, 6).unwrap();
    rgate.activate(&mut k).unwrap();
    let made = SendGate::new(&mut k, &mut vpe, &rgate).unwrap();
    let mut bound = SendGate::new_bind(0, made.sel());
    assert_eq!(bound.gate.flags, Flags::keep_cap());
    bound.send(&mut k, &vec![1u8], &replies).unwrap();
    let ep = bound.ep().unwrap();
    bound.close(&mut k).unwrap();
    assert!(matches!(k.vpes[0].eps[ep], Endpoint::Free));
    assert!(k.caps.get(0, CapType::Object, made.sel()).is_some());
    let made_sel = made.sel();
    made.close(&mut k).unwrap();
    assert!(k.caps.get(0, CapType::Object, made_sel).is_none());
    let mut plain = Gate::new(0, rgate.sel(), Flags::empty());
    assert_eq!(plain.activate(&mut k).unwrap_err().code(), Code::AlreadyExists);
    assert_eq!(plain.sel(), rgate.sel());
    assert_eq!(plain.ep(), None);
}

#[test]
fn mem_gates_derive_narrower_ones() {
    let (mut k, mut vpe) = world();
    let mut g = MemGate::new(&mut k, &mut vpe, 0x1000, Perm::rw()).unwrap();
    assert_eq!(k.mem.available(), 0x10_0000 - 0x1000);
    assert_eq!(g.ep(), None);
    assert_eq!(g.activate(&mut k).unwrap(), 0);
    assert_eq!(g.activate(&mut k).unwrap(), 0);
    assert_eq!(g.ep(), Some(0));
    assert!(matches!(k.vpes[0].eps[0], Endpoint::Mem { size: 0x1000, .. }));
    assert_eq!(g.derive(&mut k, &mut vpe, 0, 0x1000, Perm::rwx()).unwrap_err().code(), Code::InvArgs);
    assert_eq!(g.derive(&mut k, &mut vpe, 1, 0x1000, Perm::rw()).unwrap_err().code(), Code::InvArgs);
    let d = g.derive(&mut k, &mut vpe, 0x10, 0x20, Perm::new(false, true, false)).unwrap();
    assert_eq!(d.sel(), g.sel() + 3);
    assert_eq!(d.derive(&mut k, &mut vpe, 0, 0x20, Perm::rw()).unwrap_err().code(), Code::InvArgs);
    let d_sel = d.sel();
    g.close(&mut k).unwrap();
    assert!(k.caps.get(0, CapType::Object, d_sel).is_none());
    assert!(matches!(k.vpes[0].eps[0], Endpoint::Free));
    assert_eq!(k.mem.available(), 0x10_0000);
    assert_eq!(MemGate::new(&mut k, &mut vpe, 0x10_0001, Perm::rw()).unwrap_err().code(), Code::OutOfMem);
}

#[test]
fn the_scenarios_go_as_expected() {
    assert!(setup().is_some());
    assert!(create());
    assert!(send_recv());
    assert!(send_reply());
    let mut t = Tester::new();
    t.run_test(true);
    run(&mut t);
    assert_eq!(t.results, vec![true, true, true, true]);
    assert_eq!(t.failed(), 0);
    t.run_test(false);
    assert_eq!(t.failed(), 1);
}
