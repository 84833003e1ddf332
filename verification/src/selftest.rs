//! Scenarios that exercise all gates against a kernel of their own, and the
//! record of how they went.

use vstd::prelude::*;
use vstd::arithmetic::power2::lemma2_to64;
use crate::addr::GlobAddr;
use crate::cap::{lemma_at, lemma_at_index, Capability, KObject};
use crate::cfg::EP_COUNT;
use crate::com::gate::{Flags, Gate};
use crate::com::rgate::RecvGate;
use crate::com::sgate::{SGateArgs, SendGate};
use crate::dtu::{
    accepts, ring_at, spend, Endpoint, EpId, Header, Message, RecvBuf, SlotState, MAX_RBUF_ORDER,
};
use crate::eps::configured;
use crate::errors::{Code, Error};
use crate::kernel::{mem_cap, vpe_cap, Kernel, MEM_SEL};
use crate::kif::{CapSel, CapType, VpeId, FIRST_FREE_SEL};
use crate::mem::main::init;
use crate::mem::memmod::MemMod;
use crate::vpe::VPE;

verus! {

/// The record of a run of scenarios: for each, in the order in which they
/// ran, whether all that was expected of it came about.
#[derive(Debug)]
pub struct Tester {
    pub results: Vec<bool>,
}

impl Tester {
    /// A record without entries.
    pub fn new() -> (t: Tester)
        ensures
            t.results@ == Seq::<bool>::empty(),
    {
        Tester { results: Vec::new() }
    }

    /// Records that a scenario went as `ok` says.
    pub fn run_test(&mut self, ok: bool)
        ensures
            final(self).results@ == old(self).results@.push(ok),
    {
        self.results.push(ok);
    }

    /// The number of scenarios that went wrong.
    pub fn failed(&self) -> (n: usize)
        ensures
            n == count_failed(self.results@),
    {
        let mut n: usize = 0;
        let mut i: usize = 0;
        while i < self.results.len()
            invariant
                0 <= i <= self.results@.len(),
                n <= i,
                n == count_failed(self.results@.take(i as int)),
            decreases self.results@.len() - i,
        {
            proof {
                assert(self.results@.take(i as int + 1).drop_last() =~= self.results@.take(i as int));
            }
            if !self.results[i] {
                n += 1;
            }
            i += 1;
        }
        proof {
            assert(self.results@.take(self.results@.len() as int) =~= self.results@);
        }
        n
    }
}

/// The number of entries of `results` that say that a scenario went wrong.
pub open spec fn count_failed(results: Seq<bool>) -> nat
    decreases results.len(),
{
    if results.len() == 0 {
        0
    } else {
        count_failed(results.drop_last()) + if results.last() {
            0nat
        } else {
            1nat
        }
    }
}

/// A kernel and the state of one of its VPEs.
pub struct World {
    pub k: Kernel,
    pub vpe: VPE,
}

/// The two capabilities that the first VPE, which runs on processing element
/// 1, is created with: the one for itself and the one for its memory.
pub open spec fn own_caps() -> Seq<Capability> {
    seq![vpe_cap(0, 0), mem_cap(1, 0, 1)]
}

/// The capability of the `n`-th gate that the first VPE creates for `obj`.
pub open spec fn gate_cap(n: int, obj: KObject) -> Capability {
    Capability {
        id: (n + 1) as u64,
        vpe: 0,
        ty: CapType::Object,
        sel: (FIRST_FREE_SEL + n - 1) as CapSel,
        parent: None,
        obj,
    }
}

/// `w` is a kernel with one VPE that holds nothing but the capabilities it
/// was created with, has all its endpoints free and has handed out no
/// selector.
pub open spec fn fresh(w: World) -> bool {
    &&& w.k.wf()
    &&& w.vpe.wf()
    &&& w.vpe.id_spec() == 0
    &&& w.vpe.next_sel() == FIRST_FREE_SEL
    &&& w.k.vpes@.len() == 1
    &&& forall|e: int| 0 <= e < EP_COUNT ==> #[trigger] w.k.ep(0, e) is Free
    &&& w.k.caps.caps() == own_caps()
    &&& w.k.caps.next_id() == 2
}

/// A kernel with one VPE and a main memory of one module of 1 MiB.
pub fn setup() -> (r: Option<World>)
    ensures
        r is Some,
        fresh(r->0),
{
    let mut mem = init();
    mem.add(MemMod::new(GlobAddr::new_with(0, 0), 0x10_0000));
    let mut k = Kernel::new(mem);
    match k.add_vpe(1) {
        Ok(id) => {
            proof {
                assert(k.caps.caps() =~= own_caps());
            }
            Some(World { k, vpe: VPE::new(id) })
        },
        Err(_) => None,
    }
}

/// A send gate cannot be created at a selector below those a VPE hands out:
/// the request is refused with `InvArgs`.
pub fn create() -> (ok: bool)
    ensures
        ok,
{
    let World { mut k, mut vpe } = match setup() {
        Some(s) => s,
        None => {
            return false;
        },
    };
    proof {
        lemma_found(&k, 0, FIRST_FREE_SEL);
    }
    let rgate = match RecvGate::new(&mut k, &mut vpe, 8, 9) {
        Ok(g) => g,
        Err(_) => {
            return false;
        },
    };
    match SendGate::new_with(&mut k, &mut vpe, SGateArgs::new(&rgate).sel(MEM_SEL)) {
        Ok(_) => false,
        Err(e) => match e.code() {
            Code::InvArgs => true,
            _ => false,
        },
    }
}

/// In a well-formed table, `cap_at` finds the capability at place `i` at
/// its selector, and nothing at an object selector of the first VPE that no
/// capability of the table is at.
proof fn lemma_found(k: &Kernel, i: int, free: CapSel)
    requires
        k.wf(),
        0 <= i < k.caps.caps().len(),
        forall|j: int|
            0 <= j < k.caps.caps().len() ==> !(#[trigger] k.caps.caps()[j]).is_at(
                0,
                CapType::Object,
                free,
            ),
    ensures
        k.caps.at(k.caps.caps()[i].vpe, k.caps.caps()[i].ty, k.caps.caps()[i].sel) == Some(
            k.caps.caps()[i],
        ),
        k.caps.at(0, CapType::Object, free) is None,
{
    lemma_at_index(k.caps.caps(), i);
    lemma_at(k.caps.caps(), 0, CapType::Object, free);
    if k.caps.at(0, CapType::Object, free) is Some {
        let c = k.caps.at(0, CapType::Object, free)->0;
        let j = choose|j: int| 0 <= j < k.caps.caps().len() && k.caps.caps()[j] == c;
        assert(k.caps.caps()[j].is_at(0, CapType::Object, free));
    }
}

/// The capabilities of the gates of `send_recv` and `send_reply`: a receive
/// gate, a receive gate for the replies, and a send gate to the first.
pub open spec fn three_gates(slot: u32, total: u32, reply: u32, credits: u64) -> Seq<Capability> {
    seq![
        vpe_cap(0, 0),
        mem_cap(1, 0, 1),
        gate_cap(1, KObject::RGate { slot_order: slot, total_order: total }),
        gate_cap(2, KObject::RGate { slot_order: reply, total_order: reply }),
        gate_cap(3, KObject::SGate { rgate: 2, label: 0x1234, credits }),
    ]
}

/// A kernel, the state of its VPE, and the gates of `send_recv` and
/// `send_reply`.
pub struct Stage {
    pub k: Kernel,
    pub vpe: VPE,
    pub rgate: RecvGate,
    pub reply_gate: RecvGate,
    pub sgate: SendGate,
}

/// `g` is what `make_gates` makes of a fresh kernel: the three gates are
/// created, the two receive gates are bound to the first two endpoints, with
/// empty buffers, and the send gate is not bound.
pub open spec fn gates_made(g: Stage, slot: u32, total: u32, reply: u32, credits: u64) -> bool {
    let w = g;
    &&& w.k.wf()
    &&& w.vpe.wf()
    &&& w.k.vpes@.len() == 1
    &&& w.k.caps.caps() == three_gates(slot, total, reply, credits)
    &&& g.rgate.gate == (Gate { vpe: 0, sel: FIRST_FREE_SEL, flags: Flags { keep: false }, ep: Some(0) })
    &&& g.reply_gate.gate == (Gate {
        vpe: 0,
        sel: (FIRST_FREE_SEL + 1) as CapSel,
        flags: Flags { keep: false },
        ep: Some(1),
    })
    &&& g.sgate.gate == (Gate {
        vpe: 0,
        sel: (FIRST_FREE_SEL + 2) as CapSel,
        flags: Flags { keep: false },
        ep: None,
    })
    &&& configured(w.k.caps.caps()[2], 0, w.k.ep(0, 0))
    &&& configured(w.k.caps.caps()[3], 0, w.k.ep(0, 1))
    &&& forall|e: int| 2 <= e < EP_COUNT ==> #[trigger] w.k.ep(0, e) is Free
}

/// Creates, in a fresh kernel, a receive gate with the given orders, a
/// receive gate for replies with one slot of `2^reply` bytes, and a send
/// gate to the first with the label `0x1234` and the given budget, and
/// binds the two receive gates.
pub fn make_gates(slot: u32, total: u32, reply: u32, credits: u64) -> (r: Option<Stage>)
    requires
        slot <= total <= MAX_RBUF_ORDER,
        reply <= MAX_RBUF_ORDER,
    ensures
        r is Some,
        gates_made(r->0, slot, total, reply, credits),
{
    let World { mut k, mut vpe } = match setup() {
        Some(s) => s,
        None => {
            return None;
        },
    };
    let ghost fresh_k = k;
    proof {
        lemma_found(&k, 0, FIRST_FREE_SEL);
    }
    let mut rgate = match RecvGate::new(&mut k, &mut vpe, slot, total) {
        Ok(g) => g,
        Err(_) => {
            return None;
        },
    };
    proof {
        assert(k.caps.caps() =~= seq![
            vpe_cap(0, 0),
            mem_cap(1, 0, 1),
            gate_cap(1, KObject::RGate { slot_order: slot, total_order: total }),
        ]);
        lemma_found(&k, 0, (FIRST_FREE_SEL + 1) as CapSel);
    }
    let mut reply_gate = match RecvGate::new(&mut k, &mut vpe, reply, reply) {
        Ok(g) => g,
        Err(_) => {
            return None;
        },
    };
    proof {
        assert(k.caps.caps() =~= seq![
            vpe_cap(0, 0),
            mem_cap(1, 0, 1),
            gate_cap(1, KObject::RGate { slot_order: slot, total_order: total }),
            gate_cap(2, KObject::RGate { slot_order: reply, total_order: reply }),
        ]);
        lemma_found(&k, 2, (FIRST_FREE_SEL + 2) as CapSel);
    }
    let sgate = match SendGate::new_with(
        &mut k,
        &mut vpe,
        SGateArgs::new(&rgate).credits(credits).label(0x1234),
    ) {
        Ok(g) => g,
        Err(_) => {
            return None;
        },
    };
    proof {
        assert(k.caps.caps() =~= three_gates(slot, total, reply, credits));
        lemma_found(&k, 2, (FIRST_FREE_SEL + 3) as CapSel);
        lemma_found(&k, 3, (FIRST_FREE_SEL + 3) as CapSel);
        assert forall|e: int| 0 <= e < EP_COUNT implies #[trigger] k.ep(0, e) is Free by {
            assert(fresh_k.ep(0, e) is Free);
        }
        assert(k.ep(0, 0) is Free);
        assert(k.free_ep(0) == 0);
    }
    let ghost k0 = k;
    if rgate.activate(&mut k).is_err() {
        return None;
    }
    proof {
        assert(k.ep(0, 1) == k0.ep(0, 1));
        assert(k.free_ep_from(0, 1) == 1);
        assert(k.free_ep(0) == 1);
        assert forall|v: int, e: int| k.is_ep(v, e) implies (#[trigger] k.ep(v, e)).gate() != Some(
            3u64,
        ) by {
            if e != 0 {
                assert(k.ep(v, e) == k0.ep(v, e));
            }
        }
    }
    let ghost k1 = k;
    if reply_gate.activate(&mut k).is_err() {
        return None;
    }
    proof {
        assert(k.ep(0, 0) == k1.ep(0, 0));
        assert forall|e: int| 2 <= e < EP_COUNT implies #[trigger] k.ep(0, e) is Free by {
            assert(k.ep(0, e) == k1.ep(0, e));
            assert(k1.ep(0, e) == k0.ep(0, e));
        }
    }
    Some(Stage { k, vpe, rgate, reply_gate, sgate })
}

/// What a slot holds: the header and the payload of a message, and whether
/// the message was fetched.
pub struct Held {
    pub header: Header,
    pub data: Seq<u8>,
    pub fetched: bool,
}

/// The slots of `b` hold what `exp` says, nothing where it says nothing,
/// and the searches for the next unread message and the next free slot start
/// at `rd` and `wr`.
pub open spec fn buf_like(b: RecvBuf, exp: Seq<Option<Held>>, rd: int, wr: int) -> bool {
    &&& b.wf()
    &&& b.slots@.len() == exp.len()
    &&& b.rd_pos == rd
    &&& b.wr_pos == wr
    &&& forall|i: int|
        0 <= i < exp.len() ==> match #[trigger] exp[i] {
            None => b.slots@[i].state is Free,
            Some(h) => {
                &&& b.slots@[i].state == if h.fetched {
                    SlotState::Fetched
                } else {
                    SlotState::Unread
                }
                &&& b.slots@[i].header == h.header
                &&& b.slots@[i].data@ == h.data
            },
        }
}

/// The header of a message with `len` bytes that the send gate of the
/// scenarios sends.
pub open spec fn sent_header(len: int) -> Header {
    Header { label: 0x1234, length: len as usize, sender_vpe: 0, sender_ep: 2, reply_ep: 1, is_reply: false }
}

/// The state of the kernel of a scenario: the two receive gates are bound
/// to the first two endpoints, with buffers that hold what `exp0` and `exp1`
/// say; the send gate is bound to the third with `left` credits of a budget
/// of `credits`, or not bound where `left` is nothing; and the other
/// endpoints are free.
pub open spec fn staged(
    k: Kernel,
    slot: u32,
    total: u32,
    reply: u32,
    credits: u64,
    exp0: Seq<Option<Held>>,
    rd0: int,
    wr0: int,
    exp1: Seq<Option<Held>>,
    rd1: int,
    wr1: int,
    left: Option<u64>,
) -> bool {
    &&& k.wf()
    &&& k.vpes@.len() == 1
    &&& k.caps.caps() == three_gates(slot, total, reply, credits)
    &&& k.ep(0, 0) is Recv
    &&& k.ep(0, 0)->Recv_gate == 2
    &&& k.ep(0, 0)->buf.slot_order == slot
    &&& k.ep(0, 0)->buf.total_order == total
    &&& buf_like(k.ep(0, 0)->buf, exp0, rd0, wr0)
    &&& k.ep(0, 1) is Recv
    &&& k.ep(0, 1)->Recv_gate == 3
    &&& k.ep(0, 1)->buf.slot_order == reply
    &&& k.ep(0, 1)->buf.total_order == reply
    &&& buf_like(k.ep(0, 1)->buf, exp1, rd1, wr1)
    &&& match left {
        None => k.ep(0, 2) is Free,
        Some(c) => k.ep(0, 2) == (Endpoint::Send {
            gate: 4,
            rgate: 2,
            label: 0x1234,
            credits: c,
            limited: credits != 0,
        }),
    }
    &&& forall|e: int| 3 <= e < EP_COUNT ==> #[trigger] k.ep(0, e) is Free
}

/// What a message that goes into a buffer makes of what the buffer holds:
/// the message lies in slot `idx`, the first free slot from `wr` on.
proof fn lemma_buf_got(
    b: RecvBuf,
    b2: RecvBuf,
    exp: Seq<Option<Held>>,
    rd: int,
    wr: int,
    idx: int,
    dist: int,
    at: int,
    h: Header,
    data: Seq<u8>,
)
    requires
        buf_like(b, exp, rd, wr),
        b2.wf(),
        b2.got(&b, at, h, data),
        0 <= dist < exp.len(),
        idx == ring_at(wr, dist, exp.len() as int),
        exp[idx] is None,
        forall|j: int| 0 <= j < dist ==> exp[#[trigger] ring_at(wr, j, exp.len() as int)] is Some,
    ensures
        at == idx,
        buf_like(
            b2,
            exp.update(idx, Some(Held { header: h, data, fetched: false })),
            rd,
            ring_at(idx, 1, exp.len() as int),
        ),
{
    let n = exp.len() as int;
    let d = choose|d: int|
        {
            &&& 0 <= d < b.slots@.len()
            &&& at == #[trigger] ring_at(b.wr_pos as int, d, b.slots@.len() as int)
            &&& b.slots@[at].state is Free
            &&& forall|j: int|
                0 <= j < d ==> !(b.slots@[#[trigger] ring_at(
                    b.wr_pos as int,
                    j,
                    b.slots@.len() as int,
                )].state is Free)
        };
    if d < dist {
        assert(exp[ring_at(wr, d, n)] is Some);
    } else if d > dist {
        assert(!(b.slots@[ring_at(b.wr_pos as int, dist, b.slots@.len() as int)].state is Free));
        assert(exp[idx] is None);
    }
    let exp2 = exp.update(idx, Some(Held { header: h, data, fetched: false }));
    assert forall|i: int| 0 <= i < exp2.len() implies match #[trigger] exp2[i] {
        None => b2.slots@[i].state is Free,
        Some(x) => {
            &&& b2.slots@[i].state == if x.fetched {
                SlotState::Fetched
            } else {
                SlotState::Unread
            }
            &&& b2.slots@[i].header == x.header
            &&& b2.slots@[i].data@ == x.data
        },
    } by {
        if i != idx {
            assert(b2.slots@[i] == b.slots@[i]);
            assert(exp2[i] == exp[i]);
        }
    }
}

/// What `exp` says of slot `i`: it holds an unread message that `from`
/// accepts.
pub open spec fn exp_wanted(exp: Seq<Option<Held>>, from: Option<(VpeId, EpId)>, i: int) -> bool {
    exp[i] is Some && !exp[i]->0.fetched && accepts(from, exp[i]->0.header)
}

/// What fetching a message makes of what a buffer holds: the message in
/// slot `idx`, the first from `rd` on with an unread message that `from`
/// accepts, counts as fetched.
proof fn lemma_buf_gave(
    b: RecvBuf,
    b2: RecvBuf,
    exp: Seq<Option<Held>>,
    rd: int,
    wr: int,
    from: Option<(VpeId, EpId)>,
    idx: int,
    dist: int,
    at: int,
)
    requires
        buf_like(b, exp, rd, wr),
        b2.wf(),
        b2.gave(&b, from, at),
        0 <= dist < exp.len(),
        idx == ring_at(rd, dist, exp.len() as int),
        exp_wanted(exp, from, idx),
        forall|j: int|
            0 <= j < dist ==> !exp_wanted(exp, from, #[trigger] ring_at(rd, j, exp.len() as int)),
    ensures
        at == idx,
        buf_like(
            b2,
            exp.update(
                idx,
                Some(Held { header: exp[idx]->0.header, data: exp[idx]->0.data, fetched: true }),
            ),
            ring_at(idx, 1, exp.len() as int),
            wr,
        ),
{
    let n = exp.len() as int;
    let d = choose|d: int|
        {
            &&& 0 <= d < b.slots@.len()
            &&& at == #[trigger] ring_at(b.rd_pos as int, d, b.slots@.len() as int)
            &&& b.wanted(from, at)
            &&& forall|j: int|
                0 <= j < d ==> !b.wanted(
                    from,
                    #[trigger] ring_at(b.rd_pos as int, j, b.slots@.len() as int),
                )
        };
    assert(exp[idx] is Some);
    assert(b.wanted(from, idx));
    if d < dist {
        let x = ring_at(rd, d, n);
        assert(!exp_wanted(exp, from, x));
        assert(b.wanted(from, x));
        assert(exp[x] is None || exp[x] is Some);
    } else if d > dist {
        assert(!b.wanted(from, ring_at(b.rd_pos as int, dist, b.slots@.len() as int)));
    }
    let exp2 = exp.update(
        idx,
        Some(Held { header: exp[idx]->0.header, data: exp[idx]->0.data, fetched: true }),
    );
    assert forall|i: int| 0 <= i < exp2.len() implies match #[trigger] exp2[i] {
        None => b2.slots@[i].state is Free,
        Some(x) => {
            &&& b2.slots@[i].state == if x.fetched {
                SlotState::Fetched
            } else {
                SlotState::Unread
            }
            &&& b2.slots@[i].header == x.header
            &&& b2.slots@[i].data@ == x.data
        },
    } by {
        if i != idx {
            assert(b2.slots@[i] == b.slots@[i]);
            assert(exp2[i] == exp[i]);
        }
    }
}

/// What freeing a slot makes of what a buffer holds.
proof fn lemma_buf_freed(b: RecvBuf, b2: RecvBuf, exp: Seq<Option<Held>>, rd: int, wr: int, idx: int)
    requires
        buf_like(b, exp, rd, wr),
        b2.wf(),
        b2.freed(&b, idx),
    ensures
        buf_like(b2, exp.update(idx, None), rd, wr),
{
    let exp2 = exp.update(idx, None);
    assert forall|i: int| 0 <= i < exp2.len() implies match #[trigger] exp2[i] {
        None => b2.slots@[i].state is Free,
        Some(x) => {
            &&& b2.slots@[i].state == if x.fetched {
                SlotState::Fetched
            } else {
                SlotState::Unread
            }
            &&& b2.slots@[i].header == x.header
            &&& b2.slots@[i].data@ == x.data
        },
    } by {
        if i != idx {
            assert(b2.slots@[i] == b.slots@[i]);
            assert(exp2[i] == exp[i]);
        }
    }
}

/// What binding the unbound send gate of a scenario makes of the kernel:
/// it is bound to the third endpoint, with its whole budget.
proof fn lemma_bind(
    k: Kernel,
    mid: Kernel,
    slot: u32,
    total: u32,
    reply: u32,
    credits: u64,
    exp0: Seq<Option<Held>>,
    rd0: int,
    wr0: int,
    exp1: Seq<Option<Held>>,
    rd1: int,
    wr1: int,
)
    requires
        staged(k, slot, total, reply, credits, exp0, rd0, wr0, exp1, rd1, wr1, None),
        mid.wf(),
        mid.bound(&k, 0, 2, (FIRST_FREE_SEL + 2) as CapSel, 0),
    ensures
        staged(mid, slot, total, reply, credits, exp0, rd0, wr0, exp1, rd1, wr1, Some(credits)),
{
    lemma_found(&k, 4, (FIRST_FREE_SEL + 3) as CapSel);
    assert(mid.ep(0, 0) == k.ep(0, 0));
    assert(mid.ep(0, 1) == k.ep(0, 1));
    assert forall|e: int| 3 <= e < EP_COUNT implies #[trigger] mid.ep(0, e) is Free by {
        assert(mid.ep(0, e) == k.ep(0, e));
    }
}

/// An unbound send gate of a scenario can be bound, and to the third
/// endpoint.
proof fn lemma_can_bind(
    k: Kernel,
    slot: u32,
    total: u32,
    reply: u32,
    credits: u64,
    exp0: Seq<Option<Held>>,
    rd0: int,
    wr0: int,
    exp1: Seq<Option<Held>>,
    rd1: int,
    wr1: int,
)
    requires
        staged(k, slot, total, reply, credits, exp0, rd0, wr0, exp1, rd1, wr1, None),
    ensures
        Gate::activate_error(&k, 0, (FIRST_FREE_SEL + 2) as CapSel) is None,
        k.free_ep(0) == 2,
{
    lemma_found(&k, 4, (FIRST_FREE_SEL + 3) as CapSel);
    assert(k.free_ep_from(0, 2) == 2);
    assert(k.free_ep_from(0, 1) == 2);
    assert(k.free_ep_from(0, 0) == 2);
    assert forall|v: int, e: int| k.is_ep(v, e) implies (#[trigger] k.ep(v, e)).gate() != Some(4u64) by {
        if e >= 3 {
            assert(k.ep(0, e) is Free);
        }
    }
}

/// What sending through the bound send gate of a scenario makes of the
/// kernel, where the budget is not used up, the message goes into a slot and
/// slot `idx` is the first free slot from `wr0` on: the message lies in that
/// slot, and the send gate has one credit less.
proof fn lemma_sent(
    k: Kernel,
    k2: Kernel,
    r: Result<(), Error>,
    data: Seq<u8>,
    idx: int,
    dist: int,
    slot: u32,
    total: u32,
    reply: u32,
    credits: u64,
    exp0: Seq<Option<Held>>,
    rd0: int,
    wr0: int,
    exp1: Seq<Option<Held>>,
    rd1: int,
    wr1: int,
    left: u64,
)
    requires
        staged(k, slot, total, reply, credits, exp0, rd0, wr0, exp1, rd1, wr1, Some(left)),
        credits != 0 ==> left > 0,
        k.ep(0, 0)->buf.takes(data.len() as int),
        data.len() <= usize::MAX,
        0 <= dist < exp0.len(),
        idx == ring_at(wr0, dist, exp0.len() as int),
        exp0[idx] is None,
        forall|j: int| 0 <= j < dist ==> exp0[#[trigger] ring_at(wr0, j, exp0.len() as int)] is Some,
        k2.wf(),
        k2.send_outcome(&k, 0, 2, data, 1, r),
    ensures
        r is Ok,
        staged(
            k2,
            slot,
            total,
            reply,
            credits,
            exp0.update(idx, Some(Held { header: sent_header(data.len() as int), data, fetched: false })),
            rd0,
            ring_at(idx, 1, exp0.len() as int),
            exp1,
            rd1,
            wr1,
            Some(if credits != 0 { (left - 1) as u64 } else { left }),
        ),
{
    k.lemma_recv_unique(2, 0, 0);
    assert(k.recv_at(2, 0, 0));
    let b = k.ep(0, 0)->buf;
    assert(exp0[idx] is None);
    assert(b.slots@[idx].state is Free);
    assert(!b.full());
    assert(k.ep(0, 2) is Send);
    assert(spend(k.ep(0, 2)->limited, k.ep(0, 2)->credits) is Some);
    let se = k.ep(0, 2);
    assert(se->rgate == 2);
    assert(k.recv_at(se->rgate, 0, 0));
    assert(!(forall|v: int, e: int| !k.recv_at(se->rgate, v, e)));
    assert(!(exists|v: int, e: int|
        k.recv_at(se->rgate, v, e) && !k.ep(v, e)->buf.takes(data.len() as int)));
    assert(!(exists|v: int, e: int| k.recv_at(se->rgate, v, e) && k.ep(v, e)->buf.full()));
    assert(k.send_error(0, 2, data.len() as int) is None);
    let (tv, te, at) = choose|tv: int, te: int, at: int| k2.delivered(&k, 0, 2, tv, te, at, data, 1);
    assert(k.recv_at(2, tv, te));
    assert(tv == 0 && te == 0);
    lemma_buf_got(
        b,
        k2.ep(0, 0)->buf,
        exp0,
        rd0,
        wr0,
        idx,
        dist,
        at,
        sent_header(data.len() as int),
        data,
    );
    assert(k2.ep(0, 1) == k.ep(0, 1));
    assert forall|e: int| 3 <= e < EP_COUNT implies #[trigger] k2.ep(0, e) is Free by {
        assert(k2.ep(0, e) == k.ep(0, e));
    }
}

/// A send through the bound send gate of a scenario whose budget is used up
/// is refused for want of credits, and nothing changes.
proof fn lemma_refused(
    k: Kernel,
    k2: Kernel,
    r: Result<(), Error>,
    data: Seq<u8>,
    slot: u32,
    total: u32,
    reply: u32,
    credits: u64,
    exp0: Seq<Option<Held>>,
    rd0: int,
    wr0: int,
    exp1: Seq<Option<Held>>,
    rd1: int,
    wr1: int,
)
    requires
        staged(k, slot, total, reply, credits, exp0, rd0, wr0, exp1, rd1, wr1, Some(0)),
        credits != 0,
        k2.send_outcome(&k, 0, 2, data, 1, r),
    ensures
        r is Err,
        r->Err_0.code() == Code::MissCredits,
        k2 == k,
{
    assert(k.ep(0, 2) is Send);
    assert(spend(k.ep(0, 2)->limited, k.ep(0, 2)->credits) is None);
}

/// What fetching at the first receive gate of a scenario makes of the
/// kernel, where slot `idx` is the first from `rd0` on with an unread
/// message that `from` accepts: that message is returned and counts as
/// fetched.
proof fn lemma_waited(
    k: Kernel,
    k2: Kernel,
    r: Result<Option<Message>, Error>,
    from: Option<(VpeId, EpId)>,
    idx: int,
    dist: int,
    slot: u32,
    total: u32,
    reply: u32,
    credits: u64,
    exp0: Seq<Option<Held>>,
    rd0: int,
    wr0: int,
    exp1: Seq<Option<Held>>,
    rd1: int,
    wr1: int,
    left: Option<u64>,
)
    requires
        staged(k, slot, total, reply, credits, exp0, rd0, wr0, exp1, rd1, wr1, left),
        k2.wf(),
        k2.fetch_outcome(&k, 0, 0, from, r),
        0 <= dist < exp0.len(),
        idx == ring_at(rd0, dist, exp0.len() as int),
        exp_wanted(exp0, from, idx),
        forall|j: int|
            0 <= j < dist ==> !exp_wanted(exp0, from, #[trigger] ring_at(rd0, j, exp0.len() as int)),
    ensures
        r is Ok,
        r->Ok_0 is Some,
        r->Ok_0->0.slot == idx,
        r->Ok_0->0.header == exp0[idx]->0.header,
        r->Ok_0->0.data@ == exp0[idx]->0.data,
        staged(
            k2,
            slot,
            total,
            reply,
            credits,
            exp0.update(
                idx,
                Some(Held { header: exp0[idx]->0.header, data: exp0[idx]->0.data, fetched: true }),
            ),
            ring_at(idx, 1, exp0.len() as int),
            wr0,
            exp1,
            rd1,
            wr1,
            left,
        ),
{
    let b = k.ep(0, 0)->buf;
    assert(exp0[idx] is Some);
    assert(b.wanted(from, idx));
    assert(!b.none_unread(from));
    let m = r->Ok_0->0;
    lemma_buf_gave(b, k2.ep(0, 0)->buf, exp0, rd0, wr0, from, idx, dist, m.slot as int);
    assert(k2.ep(0, 1) == k.ep(0, 1));
    assert(k2.ep(0, 2) == k.ep(0, 2));
    assert forall|e: int| 3 <= e < EP_COUNT implies #[trigger] k2.ep(0, e) is Free by {
        assert(k2.ep(0, e) == k.ep(0, e));
    }
}

/// What fetching at the receive gate for replies of a scenario makes of
/// the kernel, as `lemma_waited` says it of the first receive gate.
proof fn lemma_waited_reply(
    k: Kernel,
    k2: Kernel,
    r: Result<Option<Message>, Error>,
    from: Option<(VpeId, EpId)>,
    idx: int,
    dist: int,
    slot: u32,
    total: u32,
    reply: u32,
    credits: u64,
    exp0: Seq<Option<Held>>,
    rd0: int,
    wr0: int,
    exp1: Seq<Option<Held>>,
    rd1: int,
    wr1: int,
    left: Option<u64>,
)
    requires
        staged(k, slot, total, reply, credits, exp0, rd0, wr0, exp1, rd1, wr1, left),
        k2.wf(),
        k2.fetch_outcome(&k, 0, 1, from, r),
        0 <= dist < exp1.len(),
        idx == ring_at(rd1, dist, exp1.len() as int),
        exp_wanted(exp1, from, idx),
        forall|j: int|
            0 <= j < dist ==> !exp_wanted(exp1, from, #[trigger] ring_at(rd1, j, exp1.len() as int)),
    ensures
        r is Ok,
        r->Ok_0 is Some,
        r->Ok_0->0.slot == idx,
        r->Ok_0->0.header == exp1[idx]->0.header,
        r->Ok_0->0.data@ == exp1[idx]->0.data,
        staged(
            k2,
            slot,
            total,
            reply,
            credits,
            exp0,
            rd0,
            wr0,
            exp1.update(
                idx,
                Some(Held { header: exp1[idx]->0.header, data: exp1[idx]->0.data, fetched: true }),
            ),
            ring_at(idx, 1, exp1.len() as int),
            wr1,
            left,
        ),
{
    let b = k.ep(0, 1)->buf;
    assert(exp1[idx] is Some);
    assert(b.wanted(from, idx));
    assert(!b.none_unread(from));
    let m = r->Ok_0->0;
    lemma_buf_gave(b, k2.ep(0, 1)->buf, exp1, rd1, wr1, from, idx, dist, m.slot as int);
    assert(k2.ep(0, 0) == k.ep(0, 0));
    assert(k2.ep(0, 2) == k.ep(0, 2));
    assert forall|e: int| 3 <= e < EP_COUNT implies #[trigger] k2.ep(0, e) is Free by {
        assert(k2.ep(0, e) == k.ep(0, e));
    }
}

/// What marking a fetched message at the first receive gate of a scenario
/// read makes of the kernel: its slot is free.
proof fn lemma_marked(
    k: Kernel,
    k2: Kernel,
    r: Result<(), Error>,
    idx: usize,
    slot: u32,
    total: u32,
    reply: u32,
    credits: u64,
    exp0: Seq<Option<Held>>,
    rd0: int,
    wr0: int,
    exp1: Seq<Option<Held>>,
    rd1: int,
    wr1: int,
    left: Option<u64>,
)
    requires
        staged(k, slot, total, reply, credits, exp0, rd0, wr0, exp1, rd1, wr1, left),
        k2.wf(),
        k2.mark_outcome(&k, 0, 0, idx, r),
        idx < exp0.len(),
        exp0[idx as int] is Some,
        exp0[idx as int]->0.fetched,
    ensures
        r is Ok,
        staged(
            k2,
            slot,
            total,
            reply,
            credits,
            exp0.update(idx as int, None),
            rd0,
            wr0,
            exp1,
            rd1,
            wr1,
            left,
        ),
{
    let b = k.ep(0, 0)->buf;
    assert(b.slots@[idx as int].state is Fetched);
    lemma_buf_freed(b, k2.ep(0, 0)->buf, exp0, rd0, wr0, idx as int);
    assert(k2.ep(0, 1) == k.ep(0, 1));
    assert(k2.ep(0, 2) == k.ep(0, 2));
    assert forall|e: int| 3 <= e < EP_COUNT implies #[trigger] k2.ep(0, e) is Free by {
        assert(k2.ep(0, e) == k.ep(0, e));
    }
}

/// The header of a reply with `len` bytes to a message that the send gate
/// of the scenarios has sent.
pub open spec fn reply_header(len: int) -> Header {
    Header { label: 0, length: len as usize, sender_vpe: 0, sender_ep: 2, reply_ep: 0, is_reply: true }
}

/// What replying to a fetched message at the first receive gate of a
/// scenario makes of the kernel, where the reply goes into a slot and slot
/// `idx1` is the first free slot of the buffer for replies: the slot of the
/// message is free, and the reply lies in that slot.
proof fn lemma_replied(
    k: Kernel,
    k2: Kernel,
    r: Result<(), Error>,
    idx: usize,
    data: Seq<u8>,
    idx1: int,
    dist1: int,
    slot: u32,
    total: u32,
    reply: u32,
    credits: u64,
    exp0: Seq<Option<Held>>,
    rd0: int,
    wr0: int,
    exp1: Seq<Option<Held>>,
    rd1: int,
    wr1: int,
    left: Option<u64>,
)
    requires
        staged(k, slot, total, reply, credits, exp0, rd0, wr0, exp1, rd1, wr1, left),
        k2.wf(),
        k2.reply_outcome(&k, 0, 0, idx, data, r),
        idx < exp0.len(),
        exp0[idx as int] is Some,
        exp0[idx as int]->0.fetched,
        exp0[idx as int]->0.header.sender_vpe == 0,
        exp0[idx as int]->0.header.sender_ep == 2,
        exp0[idx as int]->0.header.reply_ep == 1,
        !exp0[idx as int]->0.header.is_reply,
        k.ep(0, 1)->buf.takes(data.len() as int),
        data.len() <= usize::MAX,
        0 <= dist1 < exp1.len(),
        idx1 == ring_at(wr1, dist1, exp1.len() as int),
        exp1[idx1] is None,
        forall|j: int| 0 <= j < dist1 ==> exp1[#[trigger] ring_at(wr1, j, exp1.len() as int)] is Some,
    ensures
        r is Ok,
        staged(
            k2,
            slot,
            total,
            reply,
            credits,
            exp0.update(idx as int, None),
            rd0,
            wr0,
            exp1.update(
                idx1,
                Some(Held { header: reply_header(data.len() as int), data, fetched: false }),
            ),
            rd1,
            ring_at(idx1, 1, exp1.len() as int),
            left,
        ),
{
    let b = k.ep(0, 0)->buf;
    let b1 = k.ep(0, 1)->buf;
    assert(b.slots@[idx as int].state is Fetched);
    assert(b.slots@[idx as int].header == exp0[idx as int]->0.header);
    assert(b1.slots@[idx1].state is Free);
    assert(!b1.full());
    assert(k.reply_error(0, 0, idx, data.len() as int) is None);
    let at = choose|at: int| k2.replied(&k, 0, 0, idx as int, at, data);
    lemma_buf_freed(b, k2.ep(0, 0)->buf, exp0, rd0, wr0, idx as int);
    lemma_buf_got(
        b1,
        k2.ep(0, 1)->buf,
        exp1,
        rd1,
        wr1,
        idx1,
        dist1,
        at,
        reply_header(data.len() as int),
        data,
    );
    assert(k2.ep(0, 2) == k.ep(0, 2));
    assert forall|e: int| 3 <= e < EP_COUNT implies #[trigger] k2.ep(0, e) is Free by {
        assert(k2.ep(0, e) == k.ep(0, e));
    }
}

/// Two messages go through a send gate with two credits into a buffer of
/// two slots, the third is refused for want of credits, and the two arrive
/// with the label of the send gate.
pub fn send_recv() -> (ok: bool)
    ensures
        ok,
{
    let Stage { mut k, vpe, rgate, reply_gate, mut sgate } = match make_gates(8, 9, 8, 2) {
        Some(s) => s,
        None => {
            return false;
        },
    };
    let mut data: Vec<u8> = Vec::new();
    let mut i: usize = 0;
    while i < 16
        invariant
            0 <= i <= 16,
            data@.len() == i,
        decreases 16 - i,
    {
        data.push(0);
        i += 1;
    }
    let ghost none2 = seq![None::<Held>, None::<Held>];
    let ghost none1 = seq![None::<Held>];
    let ghost msg = Held { header: sent_header(16), data: data@, fetched: false };
    proof {
        lemma2_to64();
        assert(staged(k, 8, 9, 8, 2, none2, 0, 0, none1, 0, 0, None));
        lemma_can_bind(k, 8, 9, 8, 2, none2, 0, 0, none1, 0, 0);
    }
    let ghost k0 = k;
    let r1 = sgate.send(&mut k, &data, &reply_gate);
    proof {
        let mid = choose|mid: Kernel|
            mid.wf() && #[trigger] mid.bound(&k0, 0, 2, (FIRST_FREE_SEL + 2) as CapSel, 0)
                && SendGate::passed(&k, &mid, 0, 2, data@, Some(1usize), true, r1);
        lemma_bind(k0, mid, 8, 9, 8, 2, none2, 0, 0, none1, 0, 0);
        lemma_sent(mid, k, r1, data@, 0, 0, 8, 9, 8, 2, none2, 0, 0, none1, 0, 0, 2);
    }
    if r1.is_err() {
        return false;
    }
    if sgate.ep().is_none() {
        return false;
    }
    let ghost one = seq![Some(msg), None::<Held>];
    let ghost two = seq![Some(msg), Some(msg)];
    proof {
        assert(none2.update(0, Some(msg)) =~= one);
    }
    let ghost k1 = k;
    let r2 = sgate.send(&mut k, &data, &reply_gate);
    proof {
        lemma_sent(k1, k, r2, data@, 1, 0, 8, 9, 8, 2, one, 0, 1, none1, 0, 0, 1);
        assert(one.update(1, Some(msg)) =~= two);
    }
    if r2.is_err() {
        return false;
    }
    let ghost k2 = k;
    let r3 = sgate.send(&mut k, &data, &reply_gate);
    proof {
        lemma_refused(k2, k, r3, data@, 8, 9, 8, 2, two, 0, 0, none1, 0, 0);
    }
    match r3 {
        Ok(_) => {
            return false;
        },
        Err(e) => match e.code() {
            Code::MissCredits => {},
            _ => {
                return false;
            },
        },
    }
    let ghost from = Some((0usize, 2usize));
    let ghost seen = Held { header: sent_header(16), data: data@, fetched: true };
    let r4 = rgate.wait(&mut k, Some(&sgate));
    proof {
        lemma_waited(k2, k, r4, from, 0, 0, 8, 9, 8, 2, two, 0, 0, none1, 0, 0, Some(0));
        assert(two.update(0, Some(seen)) =~= seq![Some(seen), Some(msg)]);
    }
    let ghost k4 = k;
    match r4 {
        Ok(Some(m)) => {
            if m.header.label != 0x1234 {
                return false;
            }
            let r5 = rgate.mark_read(&mut k, &m);
            proof {
                lemma_marked(
                    k4,
                    k,
                    r5,
                    0,
                    8,
                    9,
                    8,
                    2,
                    seq![Some(seen), Some(msg)],
                    1,
                    0,
                    none1,
                    0,
                    0,
                    Some(0),
                );
                assert(seq![Some(seen), Some(msg)].update(0, None) =~= seq![None, Some(msg)]);
            }
            if r5.is_err() {
                return false;
            }
        },
        _ => {
            return false;
        },
    }
    let ghost k5 = k;
    let r6 = rgate.wait(&mut k, Some(&sgate));
    proof {
        lemma_waited(
            k5,
            k,
            r6,
            from,
            1,
            0,
            8,
            9,
            8,
            2,
            seq![None, Some(msg)],
            1,
            0,
            none1,
            0,
            0,
            Some(0),
        );
        assert(seq![None, Some(msg)].update(1, Some(seen)) =~= seq![None, Some(seen)]);
    }
    let ghost k6 = k;
    match r6 {
        Ok(Some(m)) => {
            if m.header.label != 0x1234 {
                return false;
            }
            let r7 = rgate.mark_read(&mut k, &m);
            proof {
                lemma_marked(
                    k6,
                    k,
                    r7,
                    1,
                    8,
                    9,
                    8,
                    2,
                    seq![None, Some(seen)],
                    0,
                    0,
                    none1,
                    0,
                    0,
                    Some(0),
                );
            }
            r7.is_ok()
        },
        _ => false,
    }
}

/// A message goes through a send gate, the receiver replies to it, and the
/// reply arrives at the one gate that the sender named for it.
pub fn send_reply() -> (ok: bool)
    ensures
        ok,
{
    let Stage { mut k, vpe, rgate, reply_gate, mut sgate } = match make_gates(6, 6, 6, 64) {
        Some(s) => s,
        None => {
            return false;
        },
    };
    let mut request: Vec<u8> = Vec::new();
    request.push(0x23);
    request.push(0x01);
    request.push(12);
    let mut answer: Vec<u8> = Vec::new();
    answer.push(44);
    answer.push(3);
    let ghost none = seq![None::<Held>];
    let ghost msg = Held { header: sent_header(3), data: request@, fetched: false };
    let ghost seen = Held { header: sent_header(3), data: request@, fetched: true };
    let ghost rep = Held { header: reply_header(2), data: answer@, fetched: false };
    proof {
        lemma2_to64();
        assert(staged(k, 6, 6, 6, 64, none, 0, 0, none, 0, 0, None));
        lemma_can_bind(k, 6, 6, 6, 64, none, 0, 0, none, 0, 0);
    }
    let ghost k0 = k;
    let r1 = sgate.send(&mut k, &request, &reply_gate);
    proof {
        let mid = choose|mid: Kernel|
            mid.wf() && #[trigger] mid.bound(&k0, 0, 2, (FIRST_FREE_SEL + 2) as CapSel, 0)
                && SendGate::passed(&k, &mid, 0, 2, request@, Some(1usize), true, r1);
        lemma_bind(k0, mid, 6, 6, 6, 64, none, 0, 0, none, 0, 0);
        lemma_sent(mid, k, r1, request@, 0, 0, 6, 6, 6, 64, none, 0, 0, none, 0, 0, 64);
        assert(none.update(0, Some(msg)) =~= seq![Some(msg)]);
    }
    if r1.is_err() {
        return false;
    }
    let ghost k1 = k;
    let r2 = rgate.wait(&mut k, None);
    proof {
        lemma_waited(k1, k, r2, None, 0, 0, 6, 6, 6, 64, seq![Some(msg)], 0, 0, none, 0, 0, Some(63));
        assert(seq![Some(msg)].update(0, Some(seen)) =~= seq![Some(seen)]);
    }
    let ghost k2 = k;
    match r2 {
        Ok(Some(m)) => {
            if m.data.len() != 3 || m.data[0] != 0x23 || m.data[1] != 0x01 || m.data[2] != 12 {
                return false;
            }
            let r3 = rgate.reply(&mut k, &m, &answer);
            proof {
                lemma_replied(
                    k2,
                    k,
                    r3,
                    0,
                    answer@,
                    0,
                    0,
                    6,
                    6,
                    6,
                    64,
                    seq![Some(seen)],
                    0,
                    0,
                    none,
                    0,
                    0,
                    Some(63),
                );
                assert(seq![Some(seen)].update(0, None) =~= none);
                assert(none.update(0, Some(rep)) =~= seq![Some(rep)]);
            }
            if r3.is_err() {
                return false;
            }
        },
        _ => {
            return false;
        },
    }
    let ghost k3 = k;
    let r4 = reply_gate.wait(&mut k, Some(&sgate));
    proof {
        lemma_waited_reply(
            k3,
            k,
            r4,
            Some((0usize, 2usize)),
            0,
            0,
            6,
            6,
            6,
            64,
            none,
            0,
            0,
            seq![Some(rep)],
            0,
            0,
            Some(63),
        );
    }
    match r4 {
        Ok(Some(reply)) => reply.data.len() == 2 && reply.data[0] == 44 && reply.data[1] == 3,
        _ => false,
    }
}

/// Runs the scenarios of all gates and records how each went: each goes
/// as expected.
pub fn run(t: &mut Tester)
    ensures
        final(t).results@ == old(t).results@ + seq![true, true, true],
{
    t.run_test(create());
    t.run_test(send_recv());
    t.run_test(send_reply());
}

} // verus!
