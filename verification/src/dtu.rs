//! The data transfer unit: endpoints, message headers and the ring buffer
//! of a receive endpoint.

use vstd::prelude::*;
use vstd::arithmetic::power2::{lemma2_to64, lemma_pow2_strictly_increases, lemma_pow2_unfold, pow2};
use crate::addr::GlobAddr;
use crate::errors::{Code, Error};
use crate::kif::{Perm, VpeId};

verus! {

/// The number of an endpoint of a VPE.
pub type EpId = usize;

/// The tag that a send gate writes into the header of its messages.
pub type Label = u64;

/// The bytes of a slot that the header of a message takes.
pub const HEADER_SIZE: usize = 16;

/// The greatest order of a receive buffer: no buffer has more than
/// `2^MAX_RBUF_ORDER` bytes. Each buffer is held to this bound by itself;
/// the buffers of a VPE are not added up.
pub const MAX_RBUF_ORDER: u32 = 14;

/// The header of a message.
#[derive(Clone, Copy, Debug, PartialEq, Eq, Structural)]
pub struct Header {
    /// The label of the send gate the message came through; zero in a reply.
    pub label: Label,
    /// The number of bytes of the payload.
    pub length: usize,
    /// The VPE of the send endpoint that the message, or the message that
    /// this one replies to, came from.
    pub sender_vpe: VpeId,
    /// That send endpoint.
    pub sender_ep: EpId,
    /// The endpoint of the sender at which it takes the reply.
    pub reply_ep: EpId,
    /// The message is a reply.
    pub is_reply: bool,
}

/// What a slot of a receive buffer holds.
#[derive(Clone, Copy, Debug, PartialEq, Eq, Structural)]
pub enum SlotState {
    /// Nothing.
    Free,
    /// A message that the receiver has not seen.
    Unread,
    /// A message that the receiver has fetched and neither replied to nor
    /// marked read.
    Fetched,
}

/// A slot of a receive buffer.
#[derive(Debug)]
pub struct Slot {
    pub state: SlotState,
    pub header: Header,
    pub data: Vec<u8>,
}

/// A message as the receiver gets it: the slot it lies in, its header and a
/// copy of its payload.
#[derive(Debug)]
pub struct Message {
    pub slot: usize,
    pub header: Header,
    pub data: Vec<u8>,
}

/// The `k`-th place after `pos` in a ring of `n` places.
pub open spec fn ring_at(pos: int, k: int, n: int) -> int {
    if pos + k < n {
        pos + k
    } else {
        pos + k - n
    }
}

/// A message with header `h` is one that a receiver waiting for `from`
/// accepts: any message where `from` is nothing, else one that came from, or
/// replies to, the given send endpoint.
pub open spec fn accepts(from: Option<(VpeId, EpId)>, h: Header) -> bool {
    match from {
        None => true,
        Some((vpe, ep)) => h.sender_vpe == vpe && h.sender_ep == ep,
    }
}

/// A copy of `src`.
pub fn copy_bytes(src: &Vec<u8>) -> (dst: Vec<u8>)
    ensures
        dst@ == src@,
{
    let mut dst: Vec<u8> = Vec::new();
    let mut i: usize = 0;
    while i < src.len()
        invariant
            0 <= i <= src@.len(),
            dst@ == src@.take(i as int),
        decreases src@.len() - i,
    {
        dst.push(src[i]);
        proof {
            assert(dst@ =~= src@.take(i as int + 1));
        }
        i += 1;
    }
    proof {
        assert(src@.take(src@.len() as int) =~= src@);
    }
    dst
}

/// The ring buffer of a receive endpoint: `2^total_order` bytes in slots of
/// `2^slot_order` bytes.
#[derive(Debug)]
pub struct RecvBuf {
    pub slot_order: u32,
    pub total_order: u32,
    pub slots: Vec<Slot>,
    /// The slot at which the search for the next unread message starts.
    pub rd_pos: usize,
    /// The slot at which the search for the next free slot starts.
    pub wr_pos: usize,
}

impl RecvBuf {
    /// The representation invariant.
    pub open spec fn wf(&self) -> bool {
        &&& self.slot_order <= self.total_order <= MAX_RBUF_ORDER
        &&& self.slots@.len() == pow2((self.total_order - self.slot_order) as nat)
        &&& self.slots@.len() >= 1
        &&& self.rd_pos < self.slots@.len()
        &&& self.wr_pos < self.slots@.len()
    }

    /// The number of bytes of a slot.
    pub open spec fn slot_size(&self) -> nat {
        pow2(self.slot_order as nat)
    }

    /// Slot `idx` is the first free slot from `wr_pos` on.
    pub open spec fn next_free(&self, idx: int) -> bool {
        exists|k: int|
            {
                &&& 0 <= k < self.slots@.len()
                &&& idx == #[trigger] ring_at(self.wr_pos as int, k, self.slots@.len() as int)
                &&& self.slots@[idx].state is Free
                &&& forall|j: int|
                    0 <= j < k ==> !(self.slots@[#[trigger] ring_at(
                        self.wr_pos as int,
                        j,
                        self.slots@.len() as int,
                    )].state is Free)
            }
    }

    /// Slot `idx` holds an unread message that `from` accepts.
    pub open spec fn wanted(&self, from: Option<(VpeId, EpId)>, idx: int) -> bool {
        self.slots@[idx].state is Unread && accepts(from, self.slots@[idx].header)
    }

    /// Slot `idx` is the first from `rd_pos` on that holds an unread message
    /// that `from` accepts.
    pub open spec fn next_unread(&self, from: Option<(VpeId, EpId)>, idx: int) -> bool {
        exists|k: int|
            {
                &&& 0 <= k < self.slots@.len()
                &&& idx == #[trigger] ring_at(self.rd_pos as int, k, self.slots@.len() as int)
                &&& self.wanted(from, idx)
                &&& forall|j: int|
                    0 <= j < k ==> !self.wanted(
                        from,
                        #[trigger] ring_at(self.rd_pos as int, j, self.slots@.len() as int),
                    )
            }
    }

    /// No slot is free.
    pub open spec fn full(&self) -> bool {
        forall|i: int| 0 <= i < self.slots@.len() ==> !((#[trigger] self.slots@[i]).state is Free)
    }

    /// No slot holds an unread message that `from` accepts.
    pub open spec fn none_unread(&self, from: Option<(VpeId, EpId)>) -> bool {
        forall|i: int| 0 <= i < self.slots@.len() ==> !#[trigger] self.wanted(from, i)
    }

    /// `self` is `before` but for slot `idx`.
    pub open spec fn same_but(&self, before: &RecvBuf, idx: int) -> bool {
        &&& self.slot_order == before.slot_order
        &&& self.total_order == before.total_order
        &&& self.slots@.len() == before.slots@.len()
        &&& forall|i: int|
            0 <= i < self.slots@.len() && i != idx ==> #[trigger] self.slots@[i] == before.slots@[i]
    }

    /// `self` is `before` after a message with header `h` and payload `data`
    /// went into slot `idx`, the first free slot from `wr_pos` on.
    pub open spec fn got(&self, before: &RecvBuf, idx: int, h: Header, data: Seq<u8>) -> bool {
        &&& before.next_free(idx)
        &&& self.same_but(before, idx)
        &&& self.slots@[idx].state is Unread
        &&& self.slots@[idx].header == h
        &&& self.slots@[idx].data@ == data
        &&& self.rd_pos == before.rd_pos
        &&& self.wr_pos == ring_at(idx, 1, before.slots@.len() as int)
    }

    /// `self` is `before` after the message in slot `idx`, the first unread
    /// one from `rd_pos` on that `from` accepts, was fetched.
    pub open spec fn gave(&self, before: &RecvBuf, from: Option<(VpeId, EpId)>, idx: int) -> bool {
        &&& before.next_unread(from, idx)
        &&& self.same_but(before, idx)
        &&& self.slots@[idx].state is Fetched
        &&& self.slots@[idx].header == before.slots@[idx].header
        &&& self.slots@[idx].data@ == before.slots@[idx].data@
        &&& self.wr_pos == before.wr_pos
        &&& self.rd_pos == ring_at(idx, 1, before.slots@.len() as int)
    }

    /// `self` is `before` after slot `idx`, which held a fetched message,
    /// was freed.
    pub open spec fn freed(&self, before: &RecvBuf, idx: int) -> bool {
        &&& 0 <= idx < before.slots@.len()
        &&& before.slots@[idx].state is Fetched
        &&& self.same_but(before, idx)
        &&& self.slots@[idx].state is Free
        &&& self.rd_pos == before.rd_pos
        &&& self.wr_pos == before.wr_pos
    }

    /// Whether a payload of `len` bytes and its header go into one slot.
    pub open spec fn takes(&self, len: int) -> bool {
        HEADER_SIZE + len <= self.slot_size()
    }

    /// A buffer of `2^total_order` bytes in slots of `2^slot_order` bytes,
    /// all of them free.
    pub fn new(slot_order: u32, total_order: u32) -> (b: RecvBuf)
        requires
            slot_order <= total_order <= MAX_RBUF_ORDER,
        ensures
            b.wf(),
            b.slot_order == slot_order,
            b.total_order == total_order,
            b.rd_pos == 0,
            b.wr_pos == 0,
            forall|i: int| 0 <= i < b.slots@.len() ==> (#[trigger] b.slots@[i]).state is Free,
    {
        let n = pow2_of(total_order - slot_order);
        let mut slots: Vec<Slot> = Vec::new();
        let mut i: usize = 0;
        while i < n
            invariant
                0 <= i <= n,
                slots@.len() == i,
                forall|j: int| 0 <= j < i ==> (#[trigger] slots@[j]).state is Free,
            decreases n - i,
        {
            slots.push(
                Slot {
                    state: SlotState::Free,
                    header: Header {
                        label: 0,
                        length: 0,
                        sender_vpe: 0,
                        sender_ep: 0,
                        reply_ep: 0,
                        is_reply: false,
                    },
                    data: Vec::new(),
                },
            );
            i += 1;
        }
        RecvBuf { slot_order, total_order, slots, rd_pos: 0, wr_pos: 0 }
    }

    /// What `deposit` would answer for a payload of `len` bytes: the error,
    /// or nothing where the message would go into a slot.
    pub fn check_deposit(&self, len: usize) -> (r: Option<Code>)
        requires
            self.wf(),
        ensures
            r == if !self.takes(len as int) {
                Some(Code::InvArgs)
            } else if self.full() {
                Some(Code::NoSpace)
            } else {
                None
            },
    {
        let size = pow2_of(self.slot_order);
        if size < HEADER_SIZE || len > size - HEADER_SIZE {
            return Some(Code::InvArgs);
        }
        let n = self.slots.len();
        let mut i: usize = 0;
        while i < n
            invariant
                0 <= i <= n,
                n == self.slots@.len(),
                self.takes(len as int),
                forall|j: int| 0 <= j < i ==> !((#[trigger] self.slots@[j]).state is Free),
            decreases n - i,
        {
            if let SlotState::Free = self.slots[i].state {
                proof {
                    assert(self.slots@[i as int].state is Free);
                }
                return None;
            }
            i += 1;
        }
        Some(Code::NoSpace)
    }

    /// Puts a message with header `h` and payload `data` into the first free
    /// slot from `wr_pos` on, and returns the slot. Fails with `InvArgs`
    /// where header and payload do not go into one slot, and with `NoSpace`
    /// where no slot is free; the buffer then stays as it is.
    pub fn deposit(&mut self, h: Header, data: &Vec<u8>) -> (r: Result<usize, Error>)
        requires
            old(self).wf(),
        ensures
            final(self).wf(),
            match r {
                Ok(idx) => {
                    &&& old(self).takes(data@.len() as int)
                    &&& idx < old(self).slots@.len()
                    &&& final(self).got(old(self), idx as int, h, data@)
                },
                Err(e) => {
                    &&& *final(self) == *old(self)
                    &&& e.code() == if !old(self).takes(data@.len() as int) {
                        Code::InvArgs
                    } else {
                        Code::NoSpace
                    }
                    &&& old(self).takes(data@.len() as int) ==> old(self).full()
                },
            },
    {
        let size = pow2_of(self.slot_order);
        if size < HEADER_SIZE || data.len() > size - HEADER_SIZE {
            return Err(Error::new(Code::InvArgs));
        }
        let n = self.slots.len();
        let mut k: usize = 0;
        let mut idx: usize = self.wr_pos;
        while k < n
            invariant
                0 <= k <= n,
                n == self.slots@.len(),
                *self == *old(self),
                self.wf(),
                idx < n,
                idx == ring_at(self.wr_pos as int, k as int, n as int) || k == n,
                self.takes(data@.len() as int),
                forall|j: int|
                    0 <= j < k ==> !(self.slots@[#[trigger] ring_at(self.wr_pos as int, j, n as int)].state is Free),
            decreases n - k,
        {
            if let SlotState::Free = self.slots[idx].state {
                let next = if idx + 1 == n {
                    0
                } else {
                    idx + 1
                };
                self.slots.set(idx, Slot { state: SlotState::Unread, header: h, data: copy_bytes(data) });
                self.wr_pos = next;
                proof {
                    assert(old(self).next_free(idx as int));
                }
                return Ok(idx);
            }
            k += 1;
            idx = if idx + 1 == n {
                0
            } else {
                idx + 1
            };
        }
        proof {
            assert forall|i: int| 0 <= i < n implies !((#[trigger] self.slots@[i]).state is Free) by {
                let j = if i >= self.wr_pos { i - self.wr_pos } else { i + n - self.wr_pos };
                assert(ring_at(self.wr_pos as int, j, n as int) == i);
            }
        }
        Err(Error::new(Code::NoSpace))
    }

    /// Whether a slot holds an unread message that `from` accepts.
    pub fn has_unread(&self, from: Option<(VpeId, EpId)>) -> (b: bool)
        requires
            self.wf(),
        ensures
            b == !self.none_unread(from),
    {
        let n = self.slots.len();
        let mut i: usize = 0;
        while i < n
            invariant
                0 <= i <= n,
                n == self.slots@.len(),
                forall|j: int| 0 <= j < i ==> !#[trigger] self.wanted(from, j),
            decreases n - i,
        {
            let h = self.slots[i].header;
            let unread = match self.slots[i].state {
                SlotState::Unread => true,
                _ => false,
            };
            let ok = match from {
                None => true,
                Some((vpe, ep)) => h.sender_vpe == vpe && h.sender_ep == ep,
            };
            if unread && ok {
                proof {
                    assert(self.wanted(from, i as int));
                }
                return true;
            }
            i += 1;
        }
        false
    }

    /// The header of the fetched message in slot `idx`; nothing where there
    /// is no such slot or it holds no fetched message.
    pub fn fetched(&self, idx: usize) -> (r: Option<Header>)
        requires
            self.wf(),
        ensures
            r == if idx < self.slots@.len() && self.slots@[idx as int].state is Fetched {
                Some(self.slots@[idx as int].header)
            } else {
                None
            },
    {
        if idx >= self.slots.len() {
            return None;
        }
        match self.slots[idx].state {
            SlotState::Fetched => Some(self.slots[idx].header),
            _ => None,
        }
    }

    /// Fetches the first unread message from `rd_pos` on that `from`
    /// accepts: the slot counts as fetched from then on. Returns nothing,
    /// and changes nothing, where there is no such message.
    pub fn fetch(&mut self, from: Option<(VpeId, EpId)>) -> (r: Option<Message>)
        requires
            old(self).wf(),
        ensures
            final(self).wf(),
            match r {
                Some(m) => {
                    &&& m.slot < old(self).slots@.len()
                    &&& m.header == old(self).slots@[m.slot as int].header
                    &&& m.data@ == old(self).slots@[m.slot as int].data@
                    &&& final(self).gave(old(self), from, m.slot as int)
                },
                None => *final(self) == *old(self) && old(self).none_unread(from),
            },
    {
        let n = self.slots.len();
        let mut k: usize = 0;
        let mut idx: usize = self.rd_pos;
        while k < n
            invariant
                0 <= k <= n,
                n == self.slots@.len(),
                *self == *old(self),
                self.wf(),
                idx < n,
                idx == ring_at(self.rd_pos as int, k as int, n as int) || k == n,
                forall|j: int|
                    0 <= j < k ==> !self.wanted(
                        from,
                        #[trigger] ring_at(self.rd_pos as int, j, n as int),
                    ),
            decreases n - k,
        {
            let h = self.slots[idx].header;
            let unread = match self.slots[idx].state {
                SlotState::Unread => true,
                _ => false,
            };
            let ok = match from {
                None => true,
                Some((vpe, ep)) => h.sender_vpe == vpe && h.sender_ep == ep,
            };
            if unread && ok {
                let data = copy_bytes(&self.slots[idx].data);
                let kept = copy_bytes(&data);
                let next = if idx + 1 == n {
                    0
                } else {
                    idx + 1
                };
                self.slots.set(idx, Slot { state: SlotState::Fetched, header: h, data: kept });
                self.rd_pos = next;
                proof {
                    assert(old(self).next_unread(from, idx as int));
                }
                return Some(Message { slot: idx, header: h, data });
            }
            k += 1;
            idx = if idx + 1 == n {
                0
            } else {
                idx + 1
            };
        }
        proof {
            assert forall|i: int| 0 <= i < n implies !#[trigger] self.wanted(from, i) by {
                let j = if i >= self.rd_pos { i - self.rd_pos } else { i + n - self.rd_pos };
                assert(ring_at(self.rd_pos as int, j, n as int) == i);
            }
        }
        None
    }

    /// Frees slot `idx`, which holds a fetched message. Fails with
    /// `InvArgs`, and changes nothing, where there is no such slot or the
    /// slot holds no fetched message.
    pub fn ack(&mut self, idx: usize) -> (r: Result<Header, Error>)
        requires
            old(self).wf(),
        ensures
            final(self).wf(),
            match r {
                Ok(h) => {
                    &&& h == old(self).slots@[idx as int].header
                    &&& final(self).freed(old(self), idx as int)
                },
                Err(e) => {
                    &&& e.code() == Code::InvArgs
                    &&& !(idx < old(self).slots@.len() && old(self).slots@[idx as int].state is Fetched)
                    &&& *final(self) == *old(self)
                },
            },
    {
        if idx >= self.slots.len() {
            return Err(Error::new(Code::InvArgs));
        }
        let h = self.slots[idx].header;
        match self.slots[idx].state {
            SlotState::Fetched => {
                self.slots.set(idx, Slot { state: SlotState::Free, header: h, data: Vec::new() });
                Ok(h)
            },
            _ => Err(Error::new(Code::InvArgs)),
        }
    }
}

/// Two to the power of `e`.
pub fn pow2_of(e: u32) -> (n: usize)
    requires
        e <= MAX_RBUF_ORDER,
    ensures
        n == pow2(e as nat),
        1 <= n <= 16384,
{
    let mut n: usize = 1;
    let mut i: u32 = 0;
    proof {
        lemma2_to64();
    }
    while i < e
        invariant
            0 <= i <= e <= MAX_RBUF_ORDER,
            n == pow2(i as nat),
            pow2(14) == 16384,
            1 <= n,
        decreases e - i,
    {
        proof {
            lemma_pow2_unfold((i + 1) as nat);
            if i + 1 < 14 {
                lemma_pow2_strictly_increases((i + 1) as nat, 14);
            }
        }
        n = n * 2;
        i += 1;
    }
    proof {
        if e < 14 {
            lemma_pow2_strictly_increases(e as nat, 14);
        }
    }
    n
}

/// What an endpoint is configured as.
#[derive(Debug)]
pub enum Endpoint {
    /// Nothing: the endpoint is free.
    Free,
    /// The send endpoint of a gate whose capability has the identity
    /// `gate`, to the receive gate with the identity `rgate`. `credits`
    /// counts the messages that may still be sent if `limited` is set.
    Send { gate: u64, rgate: u64, label: Label, credits: u64, limited: bool },
    /// The receive endpoint of a gate whose capability has the identity `gate`.
    Recv { gate: u64, buf: RecvBuf },
    /// The memory endpoint of a gate whose capability has the identity `gate`.
    Mem { gate: u64, addr: GlobAddr, size: usize, perm: Perm },
}

impl Endpoint {
    /// The identity of the capability of whichever gate is bound to the
    /// endpoint.
    pub open spec fn gate(&self) -> Option<u64> {
        match *self {
            Endpoint::Free => None,
            Endpoint::Send { gate, .. } => Some(gate),
            Endpoint::Recv { gate, .. } => Some(gate),
            Endpoint::Mem { gate, .. } => Some(gate),
        }
    }

    /// The endpoint is in a state that the kernel can have brought it to.
    pub open spec fn wf(&self) -> bool {
        match *self {
            Endpoint::Recv { buf, .. } => buf.wf(),
            _ => true,
        }
    }
}

/// What one attempt to send makes of a credit budget: nothing where a
/// limited budget is used up, else the budget that is left.
pub open spec fn spend(limited: bool, credits: u64) -> Option<u64> {
    if !limited {
        Some(credits)
    } else if credits == 0 {
        None
    } else {
        Some((credits - 1) as u64)
    }
}

/// What `n` attempts to send in a row make of a credit budget: nothing
/// where one of them finds a limited budget used up.
pub open spec fn spend_n(limited: bool, credits: u64, n: nat) -> Option<u64>
    decreases n,
{
    if n == 0 {
        Some(credits)
    } else {
        match spend(limited, credits) {
            None => None,
            Some(c) => spend_n(limited, c, (n - 1) as nat),
        }
    }
}

/// With a budget of `credits` messages exactly `credits` attempts to send
/// in a row find credit, and the next one finds none; without a limit every
/// attempt finds credit.
pub proof fn lemma_credits(limited: bool, credits: u64, n: nat)
    ensures
        limited && n <= credits ==> spend_n(limited, credits, n) == Some((credits - n) as u64),
        limited && n > credits ==> spend_n(limited, credits, n) is None,
        !limited ==> spend_n(limited, credits, n) == Some(credits),
    decreases n,
{
    if n > 0 {
        match spend(limited, credits) {
            None => {},
            Some(c) => {
                lemma_credits(limited, c, (n - 1) as nat);
            },
        }
    }
}

} // verus!
