//! Send gates.

use vstd::prelude::*;
use crate::com::gate::{Flags, Gate};
use crate::com::rgate::RecvGate;
use crate::dtu::{EpId, Label};
use crate::errors::{Code, Error};
use crate::kernel::Kernel;
use crate::kif::{CapSel, VpeId, INVALID_SEL};
use crate::vpe::VPE;

verus! {

/// A send gate: a gate through which messages go to one receive gate.
#[derive(Debug)]
pub struct SendGate {
    pub gate: Gate,
}

/// What a send gate is created with.
#[derive(Clone, Copy, Debug)]
pub struct SGateArgs {
    pub rgate_sel: CapSel,
    pub label: Label,
    pub credits: u64,
    pub sel: CapSel,
    pub flags: Flags,
}

impl SGateArgs {
    /// The arguments for a send gate to `rgate` with label zero, without a
    /// limit on the messages, at the next selector the VPE hands out.
    pub fn new(rgate: &RecvGate) -> (a: SGateArgs)
        ensures
            a == (SGateArgs {
                rgate_sel: rgate.gate.sel,
                label: 0,
                credits: 0,
                sel: INVALID_SEL,
                flags: Flags { keep: false },
            }),
    {
        SGateArgs {
            rgate_sel: rgate.sel(),
            label: 0,
            credits: 0,
            sel: INVALID_SEL,
            flags: Flags::empty(),
        }
    }

    /// The same arguments with a budget of `credits` messages; zero stands
    /// for no limit.
    pub fn credits(self, credits: u64) -> (a: SGateArgs)
        ensures
            a == (SGateArgs { credits, ..self }),
    {
        let mut a = self;
        a.credits = credits;
        a
    }

    /// The same arguments with the label `label`.
    pub fn label(self, label: Label) -> (a: SGateArgs)
        ensures
            a == (SGateArgs { label, ..self }),
    {
        let mut a = self;
        a.label = label;
        a
    }

    /// The same arguments with the selector `sel`.
    pub fn sel(self, sel: CapSel) -> (a: SGateArgs)
        ensures
            a == (SGateArgs { sel, ..self }),
    {
        let mut a = self;
        a.sel = sel;
        a
    }
}

impl SendGate {
    /// The selector that a gate made with `args` gets.
    pub open spec fn sel_for(args: SGateArgs, vpe: &VPE) -> CapSel {
        if args.sel == INVALID_SEL {
            vpe.next_sel()
        } else {
            args.sel
        }
    }

    /// Creates a send gate for `vpe` to `rgate`, with label zero and without
    /// a limit on the messages.
    pub fn new(k: &mut Kernel, vpe: &mut VPE, rgate: &RecvGate) -> (r: Result<SendGate, Error>)
        requires
            old(k).wf(),
            old(vpe).wf(),
        ensures
            final(k).wf(),
            final(vpe).wf(),
            final(vpe).id_spec() == old(vpe).id_spec(),
            final(vpe).next_sel() == Gate::next_after(old(vpe).next_sel()),
            final(k).create_sgate_outcome(
                old(k),
                old(vpe).id_spec(),
                old(vpe).next_sel(),
                rgate.gate.sel,
                0,
                0,
                match r {
                    Ok(_) => Ok(()),
                    Err(e) => Err(e),
                },
            ),
            r is Ok ==> r->Ok_0.gate == (Gate {
                vpe: old(vpe).id_spec(),
                sel: old(vpe).next_sel(),
                flags: Flags { keep: false },
                ep: None,
            }),
    {
        Self::new_with(k, vpe, SGateArgs::new(rgate))
    }

    /// Creates a send gate for `vpe` as `args` describe it: at the selector
    /// they name, or at the next one that `vpe` hands out where they name
    /// none. Succeeds exactly where `create_sgate` does; a selector that
    /// is none is refused with `InvArgs`.
    pub fn new_with(k: &mut Kernel, vpe: &mut VPE, args: SGateArgs) -> (r: Result<SendGate, Error>)
        requires
            old(k).wf(),
            old(vpe).wf(),
        ensures
            final(k).wf(),
            final(vpe).wf(),
            final(vpe).id_spec() == old(vpe).id_spec(),
            final(vpe).next_sel() == if args.sel == INVALID_SEL {
                Gate::next_after(old(vpe).next_sel())
            } else {
                old(vpe).next_sel()
            },
            final(k).create_sgate_outcome(
                old(k),
                old(vpe).id_spec(),
                Self::sel_for(args, old(vpe)),
                args.rgate_sel,
                args.label,
                args.credits,
                match r {
                    Ok(_) => Ok(()),
                    Err(e) => Err(e),
                },
            ),
            r is Ok ==> r->Ok_0.gate == (Gate {
                vpe: old(vpe).id_spec(),
                sel: Self::sel_for(args, old(vpe)),
                flags: args.flags,
                ep: None,
            }),
    {
        let sel = if args.sel == INVALID_SEL {
            vpe.alloc_cap()
        } else {
            args.sel
        };
        match k.create_sgate(vpe.id(), sel, args.rgate_sel, args.label, args.credits) {
            Ok(_) => Ok(SendGate { gate: Gate::new(vpe.id(), sel, args.flags) }),
            Err(e) => Err(e),
        }
    }

    /// A send gate of the VPE `vpe` for the capability it holds at `sel`.
    /// The capability stays when this gate is closed.
    pub fn new_bind(vpe: VpeId, sel: CapSel) -> (g: SendGate)
        ensures
            g.gate == (Gate { vpe, sel, flags: Flags { keep: true }, ep: None }),
    {
        SendGate { gate: Gate::new(vpe, sel, Flags::keep_cap()) }
    }

    /// The selector of the capability of this gate.
    pub fn sel(&self) -> (sel: CapSel)
        ensures
            sel == self.gate.sel,
    {
        self.gate.sel()
    }

    /// The endpoint this gate is bound to.
    pub fn ep(&self) -> (ep: Option<EpId>)
        ensures
            ep == self.gate.ep,
    {
        self.gate.ep()
    }

    /// Gives this gate the selector `sel`. This gate is unbound afterwards:
    /// its endpoint is freed, and the next message binds it again.
    pub fn rebind(&mut self, k: &mut Kernel, sel: CapSel) -> (r: Result<(), Error>)
        requires
            old(k).wf(),
        ensures
            final(k).wf(),
            final(k).mem == old(k).mem,
            final(k).caps == old(k).caps,
            r is Ok,
            final(self).gate == (Gate {
                vpe: old(self).gate.vpe,
                sel,
                flags: old(self).gate.flags,
                ep: None,
            }),
            match old(self).gate.ep {
                Some(e) => if old(k).is_ep(old(self).gate.vpe as int, e as int) {
                    final(k).eps_same_but(old(k), old(self).gate.vpe as int, e as int) && final(k).ep(old(self).gate.vpe as int, e as int) is Free
                } else {
                    *final(k) == *old(k)
                },
                None => *final(k) == *old(k),
            },
    {
        self.gate.rebind(k, sel)
    }

    /// Closes this gate: its endpoint is freed, and its capability is
    /// revoked unless it was made to stay, as `Gate::close` says.
    pub fn close(self, k: &mut Kernel) -> (r: Result<(), Error>)
        requires
            old(k).wf(),
        ensures
            final(k).wf(),
            Gate::closed(final(k), old(k), &self.gate, r),
    {
        self.gate.close(k)
    }

    /// `k2` and `r` are what handing `data` to the bound send endpoint `e` of
    /// `vpe` makes of `k`, for a reply at the endpoint `rep`: where there is
    /// no endpoint for the reply, or `whole` says that the bytes asked for
    /// are not all there, the error is `InvArgs` and nothing changes; else
    /// the endpoint sends.
    pub open spec fn passed(
        k2: &Kernel,
        k: &Kernel,
        vpe: VpeId,
        e: EpId,
        data: Seq<u8>,
        rep: Option<EpId>,
        whole: bool,
        r: Result<(), Error>,
    ) -> bool {
        if rep is None || !whole {
            r is Err && r->Err_0.code() == Code::InvArgs && *k2 == *k
        } else {
            k2.send_outcome(k, vpe, e, data, rep->0, r)
        }
    }

    /// `k2`, `g2` and `r` are what sending `data` through a send gate `g`
    /// makes of `k`, for a reply at the endpoint `rep`. First `g` is bound,
    /// if it is not: to the first free endpoint, and it stays bound
    /// whatever becomes of the message; where it cannot be bound, that is
    /// the error and nothing has changed. Then the message is handed to the
    /// endpoint, as `passed` says.
    pub open spec fn sent(
        k2: &Kernel,
        g2: &Gate,
        k: &Kernel,
        g: &Gate,
        data: Seq<u8>,
        rep: Option<EpId>,
        whole: bool,
        r: Result<(), Error>,
    ) -> bool {
        match g.ep {
            Some(e) => Self::passed(k2, k, g.vpe, e, data, rep, whole, r) && *g2 == *g,
            None => match Gate::activate_error(k, g.vpe, g.sel) {
                Some(code) => r is Err && r->Err_0.code() == code && *k2 == *k && *g2 == *g,
                None => {
                    let e = k.free_ep(g.vpe as int) as usize;
                    &&& *g2 == (Gate { vpe: g.vpe, sel: g.sel, flags: g.flags, ep: Some(e) })
                    &&& exists|mid: Kernel|
                        mid.wf() && #[trigger] mid.bound(k, g.vpe, e, g.sel, 0) && Self::passed(
                            k2,
                            &mid,
                            g.vpe,
                            e,
                            data,
                            rep,
                            whole,
                            r,
                        )
                },
            },
        }
    }

    /// Sends the bytes `msg` through this gate, for a reply at `reply_gate`.
    /// This gate is bound to an endpoint first if it is not, and where that
    /// fails, its error is the error: `NoFreeEps` where no endpoint is free.
    /// Then fails with `InvArgs` where `reply_gate` is bound to no endpoint,
    /// and as sending at the endpoint fails: with `MissCredits` where the
    /// budget is limited and used up, else with `InvArgs` or `NoSpace` where
    /// the message cannot be delivered. A message that is sent takes one
    /// credit of a limited budget.
    pub fn send(&mut self, k: &mut Kernel, msg: &Vec<u8>, reply_gate: &RecvGate) -> (r: Result<(), Error>)
        requires
            old(k).wf(),
        ensures
            final(k).wf(),
            Self::sent(
                final(k),
                &final(self).gate,
                old(k),
                &old(self).gate,
                msg@,
                reply_gate.gate.ep,
                true,
                r,
            ),
    {
        proof {
            assert(msg@.take(msg@.len() as int) =~= msg@);
        }
        self.send_bytes(k, msg, msg.len(), reply_gate)
    }

    /// Sends the first `size` bytes of `msg` through this gate, as `send`
    /// sends a message. After this gate is bound and `reply_gate` is found
    /// bound, fails with `InvArgs` where `msg` has fewer bytes.
    pub fn send_bytes(&mut self, k: &mut Kernel, msg: &Vec<u8>, size: usize, reply_gate: &RecvGate) -> (r:
        Result<(), Error>)
        requires
            old(k).wf(),
        ensures
            final(k).wf(),
            Self::sent(
                final(k),
                &final(self).gate,
                old(k),
                &old(self).gate,
                msg@.take(size as int),
                reply_gate.gate.ep,
                size <= msg@.len(),
                r,
            ),
    {
        let ep = match self.gate.activate(k) {
            Ok(e) => e,
            Err(e) => {
                return Err(e);
            },
        };
        let ghost mid = *k;
        proof {
            if old(self).gate.ep is None {
                assert(mid.bound(old(k), self.gate.vpe, ep, self.gate.sel, 0));
            }
        }
        let rep = match reply_gate.ep() {
            Some(e) => e,
            None => {
                return Err(Error::new(Code::InvArgs));
            },
        };
        if size > msg.len() {
            return Err(Error::new(Code::InvArgs));
        }
        let mut data: Vec<u8> = Vec::new();
        let mut i: usize = 0;
        while i < size
            invariant
                0 <= i <= size <= msg@.len(),
                data@ == msg@.take(i as int),
            decreases size - i,
        {
            data.push(msg[i]);
            proof {
                assert(data@ =~= msg@.take(i as int + 1));
            }
            i += 1;
        }
        let r = k.send(self.gate.vpe, ep, &data, rep);
        proof {
            assert(Self::passed(
                k,
                &mid,
                self.gate.vpe,
                ep,
                msg@.take(size as int),
                reply_gate.gate.ep,
                size <= msg@.len(),
                r,
            ));
        }
        r
    }
}

} // verus!
