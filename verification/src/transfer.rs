//! The commands of the data transfer unit: sending a message through a send
//! endpoint, fetching one from a receive endpoint, replying to it and
//! marking it read.

use vstd::prelude::*;
use crate::cfg::EP_COUNT;
use crate::dtu::{spend, Endpoint, EpId, Header, Message};
use crate::errors::{Code, Error};
use crate::kernel::Kernel;
use crate::kif::VpeId;

verus! {

impl Kernel {
    /// Endpoint `e` of VPE `v` is the receive endpoint of a gate with
    /// identity `id`.
    pub open spec fn recv_at(&self, id: u64, v: int, e: int) -> bool {
        self.is_ep(v, e) && self.ep(v, e) is Recv && self.ep(v, e)->Recv_gate == id
    }

    /// `self` has the VPEs of `before`, with the endpoints of `before` but
    /// for endpoint `e` of VPE `v` and endpoint `e2` of VPE `v2`.
    pub open spec fn eps_same_but2(&self, before: &Kernel, v: int, e: int, v2: int, e2: int) -> bool {
        &&& self.vpes@.len() == before.vpes@.len()
        &&& forall|x: int|
            0 <= x < self.vpes@.len() ==> (#[trigger] self.vpes@[x]).pe == before.vpes@[x].pe
                && self.vpes@[x].eps@.len()
                == before.vpes@[x].eps@.len()
        &&& forall|x: int, y: int|
            before.is_ep(x, y) && (x != v || y != e) && (x != v2 || y != e2) ==> #[trigger] self.ep(
                x,
                y,
            ) == before.ep(x, y)
    }

    /// Puts a message into the buffer of receive endpoint `e` of VPE `v`.
    fn deposit_at(&mut self, v: VpeId, e: EpId, h: Header, data: &Vec<u8>) -> (r: Result<usize, Error>)
        requires
            old(self).wf(),
            old(self).is_ep(v as int, e as int),
            old(self).ep(v as int, e as int) is Recv,
        ensures
            final(self).wf(),
            final(self).mem == old(self).mem,
            final(self).caps == old(self).caps,
            match r {
                Ok(idx) => {
                    &&& old(self).ep(v as int, e as int)->buf.takes(data@.len() as int)
                    &&& final(self).eps_same_but(old(self), v as int, e as int)
                    &&& final(self).ep(v as int, e as int) is Recv
                    &&& final(self).ep(v as int, e as int)->Recv_gate == old(self).ep(
                        v as int,
                        e as int,
                    )->Recv_gate
                    &&& final(self).ep(v as int, e as int)->buf.got(
                        &old(self).ep(v as int, e as int)->buf,
                        idx as int,
                        h,
                        data@,
                    )
                },
                Err(err) => {
                    &&& *final(self) == *old(self)
                    &&& err.code() == if !old(self).ep(v as int, e as int)->buf.takes(
                        data@.len() as int,
                    ) {
                        Code::InvArgs
                    } else {
                        Code::NoSpace
                    }
                    &&& old(self).ep(v as int, e as int)->buf.takes(data@.len() as int) ==> old(
                        self,
                    ).ep(v as int, e as int)->buf.full()
                },
            },
    {
        let check = match &self.vpes[v].eps[e] {
            Endpoint::Recv { gate, buf } => buf.check_deposit(data.len()),
            _ => Some(Code::InvArgs),
        };
        if let Some(code) = check {
            return Err(Error::new(code));
        }
        let r = match &mut self.vpes[v].eps[e] {
            Endpoint::Recv { gate, buf } => buf.deposit(h, data),
            _ => Err(Error::new(Code::InvArgs)),
        };
        proof {
            assert(r is Ok);
            self.lemma_one_ep_changed(old(self), v as int, e as int);
        }
        r
    }

    /// Where the VPEs are those of `before` but for one endpoint, which is
    /// well-formed and bound to what it was bound to, the kernel is
    /// well-formed.
    pub proof fn lemma_one_ep_changed(&self, before: &Kernel, v: int, e: int)
        requires
            before.wf(),
            before.is_ep(v, e),
            self.mem == before.mem,
            self.caps == before.caps,
            self.vpes@.len() == before.vpes@.len(),
            forall|x: int| 0 <= x < self.vpes@.len() && x != v ==> #[trigger] self.vpes@[x] == before.vpes@[x],
            self.vpes@[v].pe == before.vpes@[v].pe,
            self.vpes@[v].eps@.len() == before.vpes@[v].eps@.len(),
            forall|y: int|
                0 <= y < EP_COUNT && y != e ==> #[trigger] self.vpes@[v].eps@[y] == before.vpes@[v].eps@[y],
            self.ep(v, e).wf(),
            self.ep(v, e).gate() == before.ep(v, e).gate(),
        ensures
            self.wf(),
            self.eps_same_but(before, v, e),
    {
        assert forall|x: int, y: int| before.is_ep(x, y) && (x != v || y != e) implies #[trigger] self.ep(
            x,
            y,
        ) == before.ep(x, y) by {
            if x != v {
                assert(self.vpes@[x] == before.vpes@[x]);
            } else {
                assert(self.vpes@[v].eps@[y] == before.vpes@[v].eps@[y]);
            }
        }
        assert forall|x: int| 0 <= x < self.vpes@.len() implies (#[trigger] self.vpes@[x]).eps@.len()
            == EP_COUNT && self.vpes@[x].pe == before.vpes@[x].pe by {
            if x != v {
                assert(self.vpes@[x] == before.vpes@[x]);
            }
        }
        assert forall|x: int, y: int| self.is_ep(x, y) implies (#[trigger] self.vpes@[x].eps@[y]).wf() by {
            if x != v || y != e {
                assert(self.ep(x, y) == before.ep(x, y));
                assert(before.vpes@[x].eps@[y].wf());
            }
        }
        assert forall|x: int, y: int, x2: int, y2: int|
            0 <= x < self.vpes@.len() && 0 <= y < EP_COUNT && 0 <= x2 < self.vpes@.len() && 0 <= y2
                < EP_COUNT && (x != x2 || y != y2) && (#[trigger] self.vpes@[x].eps@[y]).gate() is Some implies self.vpes@[x].eps@[y].gate()
            != (#[trigger] self.vpes@[x2].eps@[y2]).gate() by {
            assert(self.ep(x, y).gate() == before.ep(x, y).gate());
            assert(self.ep(x2, y2).gate() == before.ep(x2, y2).gate());
            assert(before.vpes@[x].eps@[y].gate() != before.vpes@[x2].eps@[y2].gate());
        }
    }

    /// What `send` answers for the given arguments: the error, or nothing
    /// where the message is delivered.
    pub open spec fn send_error(&self, vpe: VpeId, ep: EpId, len: int) -> Option<Code> {
        if !self.is_ep(vpe as int, ep as int) || !(self.ep(vpe as int, ep as int) is Send) {
            Some(Code::InvArgs)
        } else {
            let s = self.ep(vpe as int, ep as int);
            if spend(s->limited, s->credits) is None {
                Some(Code::MissCredits)
            } else if forall|v: int, e: int| !self.recv_at(s->rgate, v, e) {
                Some(Code::InvArgs)
            } else if exists|v: int, e: int|
                self.recv_at(s->rgate, v, e) && !self.ep(v, e)->buf.takes(len) {
                Some(Code::InvArgs)
            } else if exists|v: int, e: int| self.recv_at(s->rgate, v, e) && self.ep(v, e)->buf.full() {
                Some(Code::NoSpace)
            } else {
                None
            }
        }
    }

    /// `self` is `before` after the send endpoint `ep` of `vpe` has put a
    /// message with the payload `data` into slot `idx` of the receive
    /// endpoint `te` of VPE `tv`, for a reply at `reply_ep`.
    pub open spec fn delivered(
        &self,
        before: &Kernel,
        vpe: int,
        ep: int,
        tv: int,
        te: int,
        idx: int,
        data: Seq<u8>,
        reply_ep: EpId,
    ) -> bool {
        let s = before.ep(vpe, ep);
        &&& before.recv_at(s->rgate, tv, te)
        &&& self.eps_same_but2(before, vpe, ep, tv, te)
        &&& self.ep(vpe, ep) == (Endpoint::Send {
            gate: s->Send_gate,
            rgate: s->rgate,
            label: s->label,
            credits: spend(s->limited, s->credits)->0,
            limited: s->limited,
        })
        &&& self.ep(tv, te) is Recv
        &&& self.ep(tv, te)->Recv_gate == s->rgate
        &&& self.ep(tv, te)->buf.got(
            &before.ep(tv, te)->buf,
            idx,
            Header {
                label: s->label,
                length: data.len() as usize,
                sender_vpe: vpe as usize,
                sender_ep: ep as usize,
                reply_ep,
                is_reply: false,
            },
            data,
        )
    }

    /// `self` and `r` are what sending `data` through the send endpoint `ep`
    /// of `vpe` makes of `before`: the message is delivered, or the error
    /// says why it is not and nothing has changed.
    pub open spec fn send_outcome(
        &self,
        before: &Kernel,
        vpe: VpeId,
        ep: EpId,
        data: Seq<u8>,
        reply_ep: EpId,
        r: Result<(), Error>,
    ) -> bool {
        &&& self.mem == before.mem
        &&& self.caps == before.caps
        &&& match r {
            Ok(_) => {
                &&& before.send_error(vpe, ep, data.len() as int) is None
                &&& exists|tv: int, te: int, idx: int|
                    self.delivered(before, vpe as int, ep as int, tv, te, idx, data, reply_ep)
            },
            Err(e) => {
                &&& before.send_error(vpe, ep, data.len() as int) == Some(e.code())
                &&& *self == *before
            },
        }
    }

    /// Sends `data` through the send endpoint `ep` of `vpe`: the message
    /// goes, with the label of the endpoint, into the next free slot of the
    /// receive endpoint that the target gate is bound to, and a limited
    /// budget has one credit less. `reply_ep` is the endpoint of `vpe` at
    /// which it takes the reply. Fails with `InvArgs` where `ep` is no send
    /// endpoint, with `MissCredits` where a limited budget is used up, with
    /// `InvArgs` where the target gate is bound to no receive endpoint or
    /// the message does not go into a slot, and with `NoSpace` where no slot
    /// is free; the kernel then stays as it is.
    pub fn send(&mut self, vpe: VpeId, ep: EpId, data: &Vec<u8>, reply_ep: EpId) -> (r: Result<
        (),
        Error,
    >)
        requires
            old(self).wf(),
        ensures
            final(self).wf(),
            final(self).mem == old(self).mem,
            final(self).caps == old(self).caps,
            final(self).send_outcome(old(self), vpe, ep, data@, reply_ep, r),
    {
        if vpe >= self.vpes.len() || ep >= EP_COUNT {
            return Err(Error::new(Code::InvArgs));
        }
        let (gate, rgate, label, credits, limited) = match &self.vpes[vpe].eps[ep] {
            Endpoint::Send { gate, rgate, label, credits, limited } => (
                *gate,
                *rgate,
                *label,
                *credits,
                *limited,
            ),
            _ => {
                return Err(Error::new(Code::InvArgs));
            },
        };
        if limited && credits == 0 {
            return Err(Error::new(Code::MissCredits));
        }
        let (tv, te) = match self.find_ep_of(rgate) {
            None => {
                return Err(Error::new(Code::InvArgs));
            },
            Some(t) => t,
        };
        proof {
            self.lemma_recv_unique(rgate, tv as int, te as int);
        }
        let is_recv = match &self.vpes[tv].eps[te] {
            Endpoint::Recv { .. } => true,
            _ => false,
        };
        if !is_recv {
            return Err(Error::new(Code::InvArgs));
        }
        let h = Header {
            label,
            length: data.len(),
            sender_vpe: vpe,
            sender_ep: ep,
            reply_ep,
            is_reply: false,
        };
        let idx = match self.deposit_at(tv, te, h, data) {
            Ok(idx) => idx,
            Err(e) => {
                proof {
                    assert(old(self).recv_at(rgate, tv as int, te as int));
                }
                return Err(e);
            },
        };
        let ghost mid = *self;
        let left = if limited {
            credits - 1
        } else {
            credits
        };
        self.vpes[vpe].eps.set(ep, Endpoint::Send { gate, rgate, label, credits: left, limited });
        proof {
            assert(mid.ep(vpe as int, ep as int) == old(self).ep(vpe as int, ep as int));
            self.lemma_one_ep_changed(&mid, vpe as int, ep as int);
            assert forall|x: int, y: int|
                old(self).is_ep(x, y) && (x != vpe || y != ep) && (x != tv || y != te) implies #[trigger] self.ep(
                x,
                y,
            ) == old(self).ep(x, y) by {
                assert(self.ep(x, y) == mid.ep(x, y));
            }
            assert(self.ep(tv as int, te as int) == mid.ep(tv as int, te as int));
            assert(self.delivered(
                old(self),
                vpe as int,
                ep as int,
                tv as int,
                te as int,
                idx as int,
                data@,
                reply_ep,
            ));
        }
        Ok(())
    }

    /// `self` and `r` are what fetching from the receive endpoint `ep` of
    /// `vpe` a message that `from` accepts makes of `before`.
    pub open spec fn fetch_outcome(
        &self,
        before: &Kernel,
        vpe: VpeId,
        ep: EpId,
        from: Option<(VpeId, EpId)>,
        r: Result<Option<Message>, Error>,
    ) -> bool {
        &&& self.mem == before.mem
        &&& self.caps == before.caps
        &&& match r {
            Ok(Some(m)) => {
                &&& before.is_ep(vpe as int, ep as int)
                &&& before.ep(vpe as int, ep as int) is Recv
                &&& m.slot < before.ep(vpe as int, ep as int)->buf.slots@.len()
                &&& m.header == before.ep(vpe as int, ep as int)->buf.slots@[m.slot as int].header
                &&& m.data@ == before.ep(vpe as int, ep as int)->buf.slots@[m.slot as int].data@
                &&& self.eps_same_but(before, vpe as int, ep as int)
                &&& self.ep(vpe as int, ep as int) is Recv
                &&& self.ep(vpe as int, ep as int)->Recv_gate == before.ep(
                    vpe as int,
                    ep as int,
                )->Recv_gate
                &&& self.ep(vpe as int, ep as int)->buf.gave(
                    &before.ep(vpe as int, ep as int)->buf,
                    from,
                    m.slot as int,
                )
            },
            Ok(None) => {
                &&& before.is_ep(vpe as int, ep as int)
                &&& before.ep(vpe as int, ep as int) is Recv
                &&& before.ep(vpe as int, ep as int)->buf.none_unread(from)
                &&& *self == *before
            },
            Err(e) => {
                &&& !(before.is_ep(vpe as int, ep as int) && before.ep(
                    vpe as int,
                    ep as int,
                ) is Recv)
                &&& e.code() == Code::InvArgs
                &&& *self == *before
            },
        }
    }

    /// Fetches, from the receive endpoint `ep` of `vpe`, the next unread
    /// message that `from` accepts: its slot counts as fetched from then on.
    /// Returns nothing, and changes nothing, where there is no such message.
    /// Fails with `InvArgs` where `ep` is no receive endpoint.
    pub fn fetch(&mut self, vpe: VpeId, ep: EpId, from: Option<(VpeId, EpId)>) -> (r: Result<
        Option<Message>,
        Error,
    >)
        requires
            old(self).wf(),
        ensures
            final(self).wf(),
            final(self).mem == old(self).mem,
            final(self).caps == old(self).caps,
            final(self).fetch_outcome(old(self), vpe, ep, from, r),
    {
        if vpe >= self.vpes.len() || ep >= EP_COUNT {
            return Err(Error::new(Code::InvArgs));
        }
        let any = match &self.vpes[vpe].eps[ep] {
            Endpoint::Recv { gate, buf } => buf.has_unread(from),
            _ => {
                return Err(Error::new(Code::InvArgs));
            },
        };
        if !any {
            return Ok(None);
        }
        let m = match &mut self.vpes[vpe].eps[ep] {
            Endpoint::Recv { gate, buf } => buf.fetch(from),
            _ => None,
        };
        proof {
            assert(m is Some);
            self.lemma_one_ep_changed(old(self), vpe as int, ep as int);
        }
        Ok(m)
    }

    /// `self` and `r` are what marking the message in slot `slot` of the
    /// receive endpoint `ep` of `vpe` read makes of `before`.
    pub open spec fn mark_outcome(&self, before: &Kernel, vpe: VpeId, ep: EpId, slot: usize, r: Result<(), Error>) -> bool {
        &&& self.mem == before.mem
        &&& self.caps == before.caps
        &&& match r {
            Ok(_) => {
                &&& before.is_ep(vpe as int, ep as int)
                &&& before.ep(vpe as int, ep as int) is Recv
                &&& self.eps_same_but(before, vpe as int, ep as int)
                &&& self.ep(vpe as int, ep as int) is Recv
                &&& self.ep(vpe as int, ep as int)->Recv_gate == before.ep(
                    vpe as int,
                    ep as int,
                )->Recv_gate
                &&& self.ep(vpe as int, ep as int)->buf.freed(
                    &before.ep(vpe as int, ep as int)->buf,
                    slot as int,
                )
            },
            Err(e) => {
                &&& !(before.is_ep(vpe as int, ep as int) && before.ep(
                    vpe as int,
                    ep as int,
                ) is Recv && slot < before.ep(vpe as int, ep as int)->buf.slots@.len() && before.ep(vpe as int, ep as int)->buf.slots@[slot as int].state is Fetched)
                &&& e.code() == Code::InvArgs
                &&& *self == *before
            },
        }
    }

    /// Marks the fetched message in slot `slot` of the receive endpoint `ep`
    /// of `vpe` read: the slot is free again. Fails with `InvArgs`, and
    /// changes nothing, where `ep` is no receive endpoint or the slot holds
    /// no fetched message.
    pub fn mark_read(&mut self, vpe: VpeId, ep: EpId, slot: usize) -> (r: Result<(), Error>)
        requires
            old(self).wf(),
        ensures
            final(self).wf(),
            final(self).mem == old(self).mem,
            final(self).caps == old(self).caps,
            final(self).mark_outcome(old(self), vpe, ep, slot, r),
    {
        if vpe >= self.vpes.len() || ep >= EP_COUNT {
            return Err(Error::new(Code::InvArgs));
        }
        let h = match &self.vpes[vpe].eps[ep] {
            Endpoint::Recv { gate, buf } => buf.fetched(slot),
            _ => None,
        };
        if h.is_none() {
            return Err(Error::new(Code::InvArgs));
        }
        let r = match &mut self.vpes[vpe].eps[ep] {
            Endpoint::Recv { gate, buf } => buf.ack(slot),
            _ => Err(Error::new(Code::InvArgs)),
        };
        proof {
            assert(r is Ok);
            self.lemma_one_ep_changed(old(self), vpe as int, ep as int);
        }
        Ok(())
    }

    /// What `reply` answers for the given arguments: the error, or nothing
    /// where the reply is delivered.
    pub open spec fn reply_error(&self, vpe: VpeId, ep: EpId, slot: usize, len: int) -> Option<Code> {
        if !(self.is_ep(vpe as int, ep as int) && self.ep(vpe as int, ep as int) is Recv && slot
            < self.ep(vpe as int, ep as int)->buf.slots@.len() && self.ep(
            vpe as int,
            ep as int,
        )->buf.slots@[slot as int].state is Fetched) {
            Some(Code::InvArgs)
        } else {
            let h = self.ep(vpe as int, ep as int)->buf.slots@[slot as int].header;
            let tv = h.sender_vpe as int;
            let te = h.reply_ep as int;
            if h.is_reply || !self.is_ep(tv, te) || !(self.ep(tv, te) is Recv) || (tv == vpe && te
                == ep) || !self.ep(tv, te)->buf.takes(len) {
                Some(Code::InvArgs)
            } else if self.ep(tv, te)->buf.full() {
                Some(Code::NoSpace)
            } else {
                None
            }
        }
    }

    /// `self` is `before` after the message in slot `slot` of the receive
    /// endpoint `ep` of `vpe` was answered with the payload `data`, which
    /// went into slot `idx` of the endpoint that the message named for the
    /// reply, and the slot of the message was freed.
    pub open spec fn replied(&self, before: &Kernel, vpe: int, ep: int, slot: int, idx: int, data: Seq<u8>) -> bool {
        let h = before.ep(vpe, ep)->buf.slots@[slot].header;
        let tv = h.sender_vpe as int;
        let te = h.reply_ep as int;
        &&& self.eps_same_but2(before, vpe, ep, tv, te)
        &&& self.ep(vpe, ep) is Recv
        &&& self.ep(vpe, ep)->Recv_gate == before.ep(vpe, ep)->Recv_gate
        &&& self.ep(vpe, ep)->buf.freed(&before.ep(vpe, ep)->buf, slot)
        &&& self.ep(tv, te) is Recv
        &&& self.ep(tv, te)->Recv_gate == before.ep(tv, te)->Recv_gate
        &&& self.ep(tv, te)->buf.got(
            &before.ep(tv, te)->buf,
            idx,
            Header {
                label: 0,
                length: data.len() as usize,
                sender_vpe: h.sender_vpe,
                sender_ep: h.sender_ep,
                reply_ep: 0,
                is_reply: true,
            },
            data,
        )
    }

    /// `self` and `r` are what replying with `data` to the message in slot
    /// `slot` of the receive endpoint `ep` of `vpe` makes of `before`.
    pub open spec fn reply_outcome(
        &self,
        before: &Kernel,
        vpe: VpeId,
        ep: EpId,
        slot: usize,
        data: Seq<u8>,
        r: Result<(), Error>,
    ) -> bool {
        &&& self.mem == before.mem
        &&& self.caps == before.caps
        &&& match r {
            Ok(_) => {
                &&& before.reply_error(vpe, ep, slot, data.len() as int) is None
                &&& exists|idx: int| self.replied(before, vpe as int, ep as int, slot as int, idx, data)
            },
            Err(e) => {
                &&& before.reply_error(vpe, ep, slot, data.len() as int) == Some(e.code())
                &&& *self == *before
            },
        }
    }

    /// Replies with `data` to the fetched message in slot `slot` of the
    /// receive endpoint `ep` of `vpe`: the reply goes to the endpoint that
    /// the message names for it, and the slot of the message is free again.
    /// Fails with `InvArgs` where the slot holds no fetched message (it was
    /// replied to or marked read), where the message is itself a reply,
    /// where the endpoint for the reply is no receive endpoint or is `ep`
    /// itself, or where the reply does not go into a slot, and with
    /// `NoSpace` where no slot is free; the kernel then stays as it is.
    pub fn reply(&mut self, vpe: VpeId, ep: EpId, slot: usize, data: &Vec<u8>) -> (r: Result<(), Error>)
        requires
            old(self).wf(),
        ensures
            final(self).wf(),
            final(self).mem == old(self).mem,
            final(self).caps == old(self).caps,
            final(self).reply_outcome(old(self), vpe, ep, slot, data@, r),
    {
        if vpe >= self.vpes.len() || ep >= EP_COUNT {
            return Err(Error::new(Code::InvArgs));
        }
        let h = match &self.vpes[vpe].eps[ep] {
            Endpoint::Recv { gate, buf } => match buf.fetched(slot) {
                Some(h) => h,
                None => {
                    return Err(Error::new(Code::InvArgs));
                },
            },
            _ => {
                return Err(Error::new(Code::InvArgs));
            },
        };
        let tv = h.sender_vpe;
        let te = h.reply_ep;
        if h.is_reply || tv >= self.vpes.len() || te >= EP_COUNT || (tv == vpe && te == ep) {
            return Err(Error::new(Code::InvArgs));
        }
        let is_recv = match &self.vpes[tv].eps[te] {
            Endpoint::Recv { .. } => true,
            _ => false,
        };
        if !is_recv {
            return Err(Error::new(Code::InvArgs));
        }
        let rh = Header {
            label: 0,
            length: data.len(),
            sender_vpe: h.sender_vpe,
            sender_ep: h.sender_ep,
            reply_ep: 0,
            is_reply: true,
        };
        let idx = match self.deposit_at(tv, te, rh, data) {
            Ok(idx) => idx,
            Err(e) => {
                return Err(e);
            },
        };
        let ghost mid = *self;
        proof {
            assert(mid.ep(vpe as int, ep as int) == old(self).ep(vpe as int, ep as int));
        }
        let r = match &mut self.vpes[vpe].eps[ep] {
            Endpoint::Recv { gate, buf } => buf.ack(slot),
            _ => Err(Error::new(Code::InvArgs)),
        };
        proof {
            assert(r is Ok);
            self.lemma_one_ep_changed(&mid, vpe as int, ep as int);
            assert forall|x: int, y: int|
                old(self).is_ep(x, y) && (x != vpe || y != ep) && (x != tv || y != te) implies #[trigger] self.ep(
                x,
                y,
            ) == old(self).ep(x, y) by {
                assert(self.ep(x, y) == mid.ep(x, y));
            }
            assert(self.ep(tv as int, te as int) == mid.ep(tv as int, te as int));
            assert(self.replied(old(self), vpe as int, ep as int, slot as int, idx as int, data@));
        }
        Ok(())
    }

    /// What sending through a send endpoint makes of its budget: the send
    /// fails with `MissCredits` exactly where the budget is limited and used
    /// up; a send that succeeds leaves what `spend` leaves of the budget;
    /// and one that fails leaves the budget as it was. With `lemma_credits`:
    /// of the sends through an endpoint with a budget of `n` messages that
    /// fail for no other reason, the first `n` succeed and the next fails
    /// with `MissCredits`, and without a limit none fails with it.
    pub proof fn lemma_send_credits(
        &self,
        before: &Kernel,
        vpe: VpeId,
        ep: EpId,
        data: Seq<u8>,
        reply_ep: EpId,
        r: Result<(), Error>,
    )
        requires
            before.wf(),
            before.is_ep(vpe as int, ep as int),
            before.ep(vpe as int, ep as int) is Send,
            self.send_outcome(before, vpe, ep, data, reply_ep, r),
        ensures
            (r is Err && r->Err_0.code() == Code::MissCredits) <==> spend(
                before.ep(vpe as int, ep as int)->limited,
                before.ep(vpe as int, ep as int)->credits,
            ) is None,
            self.ep(vpe as int, ep as int) is Send,
            self.ep(vpe as int, ep as int)->limited == before.ep(vpe as int, ep as int)->limited,
            self.ep(vpe as int, ep as int)->credits == if r is Ok {
                spend(
                    before.ep(vpe as int, ep as int)->limited,
                    before.ep(vpe as int, ep as int)->credits,
                )->0
            } else {
                before.ep(vpe as int, ep as int)->credits
            },
    {
    }

    /// The endpoint that a gate is bound to is the only one.
    pub proof fn lemma_recv_unique(&self, id: u64, v: int, e: int)
        requires
            self.wf(),
            self.is_ep(v, e),
            self.ep(v, e).gate() == Some(id),
        ensures
            forall|x: int, y: int| #[trigger] self.recv_at(id, x, y) ==> x == v && y == e,
            self.ep(v, e) is Recv ==> self.recv_at(id, v, e),
    {
        assert forall|x: int, y: int| #[trigger] self.recv_at(id, x, y) implies x == v && y == e by {
            if x != v || y != e {
                assert(self.vpes@[v].eps@[e].gate() is Some);
                assert(self.vpes@[v].eps@[e].gate() != self.vpes@[x].eps@[y].gate());
            }
        }
    }
}

} // verus!
