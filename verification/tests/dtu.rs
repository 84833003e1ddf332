use m3::addr::GlobAddr;
use m3::dtu::{copy_bytes, pow2_of, Header, RecvBuf, SlotState, HEADER_SIZE, MAX_RBUF_ORDER};
use m3::errors::Code;
use m3::kernel::Kernel;
use m3::kif::{sel_valid, CapRngDesc, CapType, INVALID_SEL, MAP_SEL_END};
use m3::mem::main::init;
use m3::mem::memmod::MemMod;

fn header(label: u64, vpe: usize, ep: usize) -> Header {
    Header { label, length: 0, sender_vpe: vpe, sender_ep: ep, reply_ep: 0, is_reply: false }
}

#[test]
fn powers_of_two() {
    assert_eq!(pow2_of(0), 1);
    assert_eq!(pow2_of(9), 512);
    assert_eq!(pow2_of(MAX_RBUF_ORDER), 16384);
}

#[test]
fn copy_bytes_copies() {
    assert_eq!(copy_bytes(&vec![1u8, 2, 3]), vec![1u8, 2, 3]);
    assert!(copy_bytes(&Vec::new()).is_empty());
}

#[test]
fn a_run_knows_its_parts() {
    let crd = CapRngDesc::new(CapType::Mapping, 7, 3);
    assert_eq!(crd.cap_type(), CapType::Mapping);
    assert_eq!(crd.start(), 7);
    assert_eq!(crd.count(), 3);
    assert!(crd.is_valid());
    assert!(sel_valid(CapType::Object, INVALID_SEL - 1));
    assert!(!sel_valid(CapType::Object, INVALID_SEL));
    assert!(sel_valid(CapType::Mapping, MAP_SEL_END - 1));
    assert!(!sel_valid(CapType::Mapping, MAP_SEL_END));
    assert!(!CapRngDesc::new(CapType::Object, u32::MAX, 2).is_valid());
}

#[test]
fn a_new_buffer_is_empty() {
    let b = RecvBuf::new(6, 8);
    assert_eq!((b.slot_order, b.total_order, b.rd_pos, b.wr_pos), (6, 8, 0, 0));
    assert_eq!(b.slots.len(), 4);
    assert!(b.slots.iter().all(|s| s.state == SlotState::Free));
    assert!(!b.has_unread(None));
    assert_eq!(b.fetched(0), None);
    assert_eq!(b.check_deposit(64 - HEADER_SIZE), None);
    assert_eq!(b.check_deposit(64 - HEADER_SIZE + 1), Some(Code::InvArgs));
}

#[test]
fn the_ring_wraps() {
    let mut b = RecvBuf::new(6, 8);
    for i in 0..4u8 {
        assert_eq!(b.deposit(header(i as u64, 0, 1), &vec![i]).unwrap(), i as usize);
    }
    assert_eq!(b.wr_pos, 0);
    assert_eq!(b.check_deposit(1), Some(Code::NoSpace));
    assert_eq!(b.deposit(header(9, 0, 1), &vec![9]).unwrap_err().code(), Code::NoSpace);
    assert_eq!(b.deposit(header(9, 0, 1), &vec![0; 49]).unwrap_err().code(), Code::InvArgs);
    let m = b.fetch(None).unwrap();
    assert_eq!((m.slot, m.header.label, m.data[0]), (0, 0, 0));
    let m = b.fetch(None).unwrap();
    assert_eq!((m.slot, m.header.label, m.data[0]), (1, 1, 1));
    assert_eq!(b.rd_pos, 2);
    assert_eq!(b.fetched(1), Some(header(1, 0, 1)));
    assert_eq!(b.fetched(2), None);
    assert_eq!(b.fetched(4), None);
    assert_eq!(b.ack(1).unwrap(), header(1, 0, 1));
    assert_eq!(b.ack(1).unwrap_err().code(), Code::InvArgs);
    assert_eq!(b.ack(2).unwrap_err().code(), Code::InvArgs);
    assert_eq!(b.ack(4).unwrap_err().code(), Code::InvArgs);
    assert_eq!(b.deposit(header(5, 0, 1), &vec![5]).unwrap(), 1);
    assert_eq!(b.wr_pos, 2);
    b.ack(0).unwrap();
    assert_eq!(b.deposit(header(6, 0, 1), &vec![6]).unwrap(), 0);
    assert_eq!(b.wr_pos, 1);
    let m = b.fetch(None).unwrap();
    assert_eq!((m.slot, m.header.label), (2, 2));
    let m = b.fetch(None).unwrap();
    assert_eq!((m.slot, m.header.label), (3, 3));
    let m = b.fetch(None).unwrap();
    assert_eq!((m.slot, m.header.label), (0, 6));
    let m = b.fetch(None).unwrap();
    assert_eq!((m.slot, m.header.label), (1, 5));
    assert!(b.fetch(None).is_none());
}

#[test]
fn fetch_for_a_sender_skips_the_rest() {
    let mut b = RecvBuf::new(5, 7);
    b.deposit(header(1, 0, 3), &vec![1]).unwrap();
    b.deposit(header(2, 1, 3), &vec![2]).unwrap();
    b.deposit(header(3, 0, 4), &vec![3]).unwrap();
    assert!(b.has_unread(Some((0, 4))));
    assert!(!b.has_unread(Some((1, 4))));
    assert!(b.fetch(Some((1, 4))).is_none());
    let m = b.fetch(Some((0, 4))).unwrap();
    assert_eq!((m.slot, m.header.label), (2, 3));
    assert_eq!(b.rd_pos, 3);
    let m = b.fetch(Some((0, 3))).unwrap();
    assert_eq!((m.slot, m.header.label), (0, 1));
    assert!(!b.has_unread(Some((0, 3))));
    assert!(b.has_unread(None));
}

#[test]
fn endpoints_that_are_none_or_of_another_kind_are_refused() {
    let mut mem = init();
    mem.add(MemMod::new(GlobAddr::new_with(0, 0), 0x1000));
    let mut k = Kernel::new(mem);
    k.add_vpe(0).unwrap();
    k.create_rgate(0, 2, 6, 6).unwrap();
    k.activate(0, 0, 2, 0).unwrap();
    let data = vec![1u8];
    assert_eq!(k.send(0, 0, &data, 0).unwrap_err().code(), Code::InvArgs);
    assert_eq!(k.send(0, 1, &data, 0).unwrap_err().code(), Code::InvArgs);
    assert_eq!(k.send(0, 16, &data, 0).unwrap_err().code(), Code::InvArgs);
    assert_eq!(k.send(1, 0, &data, 0).unwrap_err().code(), Code::InvArgs);
    assert_eq!(k.fetch(0, 1, None).unwrap_err().code(), Code::InvArgs);
    assert_eq!(k.fetch(3, 0, None).unwrap_err().code(), Code::InvArgs);
    assert!(k.fetch(0, 0, None).unwrap().is_none());
    assert_eq!(k.mark_read(0, 0, 0).unwrap_err().code(), Code::InvArgs);
    assert_eq!(k.mark_read(0, 1, 0).unwrap_err().code(), Code::InvArgs);
    assert_eq!(k.reply(0, 0, 0, &data).unwrap_err().code(), Code::InvArgs);
    assert_eq!(k.reply(0, 5, 0, &data).unwrap_err().code(), Code::InvArgs);
}

#[test]
fn a_reply_cannot_go_to_the_endpoint_it_comes_from() {
    let mut mem = init();
    mem.add(MemMod::new(GlobAddr::new_with(0, 0), 0x1000));
    let mut k = Kernel::new(mem);
    k.add_vpe(0).unwrap();
    k.create_rgate(0, 2, 6, 7).unwrap();
    k.create_sgate(0, 3, 2, 1, 0).unwrap();
    k.activate(0, 0, 2, 0).unwrap();
    k.activate(0, 1, 3, 0).unwrap();
    k.send(0, 1, &vec![1u8], 0).unwrap();
    k.send(0, 1, &vec![2u8], 5).unwrap();
    let a = k.fetch(0, 0, None).unwrap().unwrap();
    let b = k.fetch(0, 0, None).unwrap().unwrap();
    assert_eq!(k.reply(0, 0, a.slot, &vec![0u8]).unwrap_err().code(), Code::InvArgs);
    assert_eq!(k.reply(0, 0, b.slot, &vec![0u8]).unwrap_err().code(), Code::InvArgs);
    k.mark_read(0, 0, a.slot).unwrap();
    k.mark_read(0, 0, b.slot).unwrap();
}
