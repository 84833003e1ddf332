//! Receive gates.

use vstd::prelude::*;
use vstd::arithmetic::power2::{lemma_pow2_pos, pow2};
use crate::com::gate::{Flags, Gate};
use crate::com::sgate::SendGate;
use crate::dtu::{EpId, Message, MAX_RBUF_ORDER};
use crate::errors::{Code, Error};
use crate::kernel::Kernel;
use crate::kif::{CapSel, CapType, VpeId};
use crate::vpe::VPE;

verus! {

/// A receive gate: a gate with a ring buffer of `2^total_order` bytes in
/// slots of `2^slot_order` bytes.
#[derive(Debug)]
pub struct RecvGate {
    pub gate: Gate,
    pub slot_order: u32,
    pub total_order: u32,
}

impl RecvGate {
    /// The number of slots of the buffer.
    pub open spec fn slots(&self) -> nat {
        pow2((self.total_order - self.slot_order) as nat)
    }

    /// Creates a receive gate for `vpe`, at the next selector it hands out,
    /// with a buffer of `2^total_order` bytes in slots of `2^slot_order`
    /// bytes. This succeeds exactly where `create_rgate` does: for all orders
    /// with `slot_order <= total_order <= MAX_RBUF_ORDER` where a capability
    /// can be created at the selector; not where `slot_order` is greater than
    /// `total_order` (`InvArgs`) and not where the buffer has more than
    /// `2^MAX_RBUF_ORDER` bytes (`NoSpace`). The buffer has at least one slot.
    pub fn new(k: &mut Kernel, vpe: &mut VPE, slot_order: u32, total_order: u32) -> (r: Result<
        RecvGate,
        Error,
    >)
        requires
            old(k).wf(),
            old(vpe).wf(),
        ensures
            final(k).wf(),
            final(vpe).wf(),
            final(vpe).id_spec() == old(vpe).id_spec(),
            final(vpe).next_sel() == Gate::next_after(old(vpe).next_sel()),
            final(k).create_rgate_outcome(
                old(k),
                old(vpe).id_spec(),
                old(vpe).next_sel(),
                slot_order,
                total_order,
                match r {
                    Ok(_) => Ok(()),
                    Err(e) => Err(e),
                },
            ),
            slot_order <= total_order <= MAX_RBUF_ORDER && old(vpe).id_spec() < old(k).vpes@.len() && old(
                k,
            ).caps.create_error(old(vpe).id_spec(), old(vpe).next_sel(), CapType::Object, None) is None
                ==> r is Ok,
            match r {
                Ok(g) => {
                    &&& g == (RecvGate {
                        gate: Gate {
                            vpe: old(vpe).id_spec(),
                            sel: old(vpe).next_sel(),
                            flags: Flags { keep: false },
                            ep: None,
                        },
                        slot_order,
                        total_order,
                    })
                    &&& g.slots() >= 1
                },
                Err(_) => true,
            },
    {
        let sel = vpe.alloc_sel();
        match k.create_rgate(vpe.id(), sel, slot_order, total_order) {
            Ok(_) => {
                proof {
                    lemma_pow2_pos((total_order - slot_order) as nat);
                }
                Ok(RecvGate { gate: Gate::new(vpe.id(), sel, Flags::empty()), slot_order, total_order })
            },
            Err(e) => Err(e),
        }
    }

    /// The selector of the capability of this gate.
    pub fn sel(&self) -> (sel: CapSel)
        ensures
            sel == self.gate.sel,
    {
        self.gate.sel
    }

    /// The endpoint this gate is bound to.
    pub fn ep(&self) -> (ep: Option<EpId>)
        ensures
            ep == self.gate.ep,
    {
        self.gate.ep
    }

    /// Binds this gate to the first free endpoint of its VPE, unless it is
    /// bound. Fails with `NoFreeEps` where no endpoint is free, and as the
    /// kernel refuses to bind the capability; gate and kernel then stay as
    /// they are.
    pub fn activate(&mut self, k: &mut Kernel) -> (r: Result<(), Error>)
        requires
            old(k).wf(),
        ensures
            final(k).wf(),
            final(self).slot_order == old(self).slot_order,
            final(self).total_order == old(self).total_order,
            Gate::activated(
                final(k),
                &final(self).gate,
                old(k),
                &old(self).gate,
                match r {
                    Ok(_) => Ok(final(self).gate.ep->0),
                    Err(e) => Err(e),
                },
            ),
    {
        match self.gate.activate(k) {
            Ok(_) => Ok(()),
            Err(e) => Err(e),
        }
    }

    /// Closes this gate: its endpoint is freed, and its capability is
    /// revoked, as `Gate::close` says.
    pub fn close(self, k: &mut Kernel) -> (r: Result<(), Error>)
        requires
            old(k).wf(),
        ensures
            final(k).wf(),
            Gate::closed(final(k), old(k), &self.gate, r),
    {
        self.gate.close(k)
    }

    /// The message that a `wait` for `sender` accepts: any where `sender`
    /// is nothing, else those that came from, or reply to, the endpoint of
    /// that send gate.
    pub open spec fn from(sender: Option<&SendGate>) -> Option<(VpeId, EpId)> {
        match sender {
            None => None,
            Some(s) => Some((s.gate.vpe, s.gate.ep->0)),
        }
    }

    /// Looks for the next unread message at this gate; where `sender` is
    /// given, for the next one that came through that send gate or replies
    /// to a message sent through it. Returns the message, whose slot stays
    /// taken until it is replied to or marked read, or nothing where no such
    /// message has arrived: there a caller that waits suspends and looks
    /// again. Fails with `InvArgs`, and changes nothing, where this gate or
    /// the given send gate is bound to no endpoint.
    pub fn wait(&self, k: &mut Kernel, sender: Option<&SendGate>) -> (r: Result<Option<Message>, Error>)
        requires
            old(k).wf(),
        ensures
            final(k).wf(),
            if self.gate.ep is None || (sender is Some && sender->0.gate.ep is None) {
                r is Err && r->Err_0.code() == Code::InvArgs && *final(k) == *old(k)
            } else {
                final(k).fetch_outcome(old(k), self.gate.vpe, self.gate.ep->0, Self::from(sender), r)
            },
    {
        let ep = match self.gate.ep {
            Some(e) => e,
            None => {
                return Err(Error::new(Code::InvArgs));
            },
        };
        let from = match sender {
            None => None,
            Some(s) => match s.gate.ep {
                Some(e) => Some((s.gate.vpe, e)),
                None => {
                    return Err(Error::new(Code::InvArgs));
                },
            },
        };
        k.fetch(self.gate.vpe, ep, from)
    }

    /// Marks the message `msg`, which `wait` returned, read: its slot is
    /// free again. Fails with `InvArgs`, and changes nothing, where this gate
    /// is bound to no endpoint or the slot of the message holds no fetched
    /// message.
    pub fn mark_read(&self, k: &mut Kernel, msg: &Message) -> (r: Result<(), Error>)
        requires
            old(k).wf(),
        ensures
            final(k).wf(),
            match self.gate.ep {
                None => r is Err && r->Err_0.code() == Code::InvArgs && *final(k) == *old(k),
                Some(e) => final(k).mark_outcome(old(k), self.gate.vpe, e, msg.slot, r),
            },
    {
        match self.gate.ep {
            Some(e) => k.mark_read(self.gate.vpe, e, msg.slot),
            None => Err(Error::new(Code::InvArgs)),
        }
    }

    /// Replies with `data` to the message `msg`, which `wait` returned: the
    /// reply goes to the endpoint that the sender named for it, and the slot
    /// of the message is free again. Fails with `InvArgs` where this gate is
    /// bound to no endpoint, and as the reply at the endpoint fails, among
    /// others where the message was replied to or marked read; the kernel
    /// then stays as it is.
    pub fn reply(&self, k: &mut Kernel, msg: &Message, data: &Vec<u8>) -> (r: Result<(), Error>)
        requires
            old(k).wf(),
        ensures
            final(k).wf(),
            match self.gate.ep {
                None => r is Err && r->Err_0.code() == Code::InvArgs && *final(k) == *old(k),
                Some(e) => final(k).reply_outcome(old(k), self.gate.vpe, e, msg.slot, data@, r),
            },
    {
        match self.gate.ep {
            Some(e) => k.reply(self.gate.vpe, e, msg.slot, data),
            None => Err(Error::new(Code::InvArgs)),
        }
    }
}

} // verus!
