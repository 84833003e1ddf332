//! What all gates share: the selector of the capability, and the endpoint
//! this gate is bound to.

use vstd::prelude::*;
use crate::cap::Capability;
use crate::cfg::EP_COUNT;
use crate::dtu::EpId;
use crate::errors::{Code, Error};
use crate::kernel::{Kernel, VPE_SEL};
use crate::kif::{CapRngDesc, CapSel, CapType, VpeId, INVALID_SEL};

verus! {

/// How a gate treats its capability when it is closed.
#[derive(Clone, Copy, Debug, PartialEq, Eq, Structural)]
pub struct Flags {
    /// The capability stays when this gate is closed.
    pub keep: bool,
}

impl Flags {
    /// No flag: the capability is revoked when this gate is closed.
    pub fn empty() -> (f: Flags)
        ensures
            f == (Flags { keep: false }),
    {
        Flags { keep: false }
    }

    /// The capability stays when this gate is closed.
    pub fn keep_cap() -> (f: Flags)
        ensures
            f == (Flags { keep: true }),
    {
        Flags { keep: true }
    }
}

/// A gate of a VPE: the selector of its capability, and the endpoint it is
/// bound to, if it is bound.
#[derive(Debug)]
pub struct Gate {
    pub vpe: VpeId,
    pub sel: CapSel,
    pub flags: Flags,
    pub ep: Option<EpId>,
}

impl Gate {
    /// What `activate` answers for an unbound gate of `vpe` with the
    /// selector `sel`: the error, or nothing where this gate is bound.
    pub open spec fn activate_error(k: &Kernel, vpe: VpeId, sel: CapSel) -> Option<Code> {
        if vpe >= k.vpes@.len() {
            Some(Code::InvArgs)
        } else if k.free_ep(vpe as int) == EP_COUNT {
            Some(Code::NoFreeEps)
        } else {
            k.activate_error(vpe, k.free_ep(vpe as int) as usize, sel, 0)
        }
    }

    /// The selector that a VPE hands out after `sel`.
    pub open spec fn next_after(sel: CapSel) -> CapSel {
        if sel == INVALID_SEL {
            sel
        } else {
            (sel + 1) as CapSel
        }
    }

    /// An unbound gate of `vpe` for the capability at `sel`.
    pub fn new(vpe: VpeId, sel: CapSel, flags: Flags) -> (g: Gate)
        ensures
            g == (Gate { vpe, sel, flags, ep: None }),
    {
        Gate { vpe, sel, flags, ep: None }
    }

    /// The selector of the capability of this gate.
    pub fn sel(&self) -> (sel: CapSel)
        ensures
            sel == self.sel,
    {
        self.sel
    }

    /// The endpoint this gate is bound to.
    pub fn ep(&self) -> (ep: Option<EpId>)
        ensures
            ep == self.ep,
    {
        self.ep
    }

    /// `k2`, `g2` and `r` are what binding a gate `g` makes of `k`:
    /// a gate that is bound stays as it is, and so does the kernel; one that
    /// is not is bound to the first free endpoint of its VPE, or the error
    /// says why it is not and nothing has changed. `r` is the endpoint.
    pub open spec fn activated(k2: &Kernel, g2: &Gate, k: &Kernel, g: &Gate, r: Result<EpId, Error>) -> bool {
        match g.ep {
            Some(e) => r == Ok::<EpId, Error>(e) && *k2 == *k && *g2 == *g,
            None => match r {
                Ok(e) => {
                    &&& Self::activate_error(k, g.vpe, g.sel) is None
                    &&& e == k.free_ep(g.vpe as int)
                    &&& k2.bound(k, g.vpe, e, g.sel, 0)
                    &&& *g2 == (Gate { vpe: g.vpe, sel: g.sel, flags: g.flags, ep: Some(e) })
                },
                Err(err) => {
                    &&& Self::activate_error(k, g.vpe, g.sel) == Some(err.code())
                    &&& *k2 == *k
                    &&& *g2 == *g
                },
            },
        }
    }

    /// Binds this gate to the first free endpoint of its VPE, unless it is
    /// bound, and returns the endpoint. Fails with `InvArgs` where there is
    /// no such VPE, with `NoFreeEps` where no endpoint is free, and as the
    /// kernel refuses to bind the capability; gate and kernel then stay as
    /// they are.
    pub fn activate(&mut self, k: &mut Kernel) -> (r: Result<EpId, Error>)
        requires
            old(k).wf(),
        ensures
            final(k).wf(),
            Self::activated(final(k), final(self), old(k), old(self), r),
    {
        if let Some(e) = self.ep {
            return Ok(e);
        }
        if self.vpe >= k.vpes.len() {
            return Err(Error::new(Code::InvArgs));
        }
        let e = match k.find_free_ep(self.vpe) {
            Some(e) => e,
            None => {
                return Err(Error::new(Code::NoFreeEps));
            },
        };
        match k.activate(self.vpe, e, self.sel, 0) {
            Ok(_) => {
                self.ep = Some(e);
                Ok(e)
            },
            Err(err) => Err(err),
        }
    }

    /// Gives this gate the selector `sel`. This gate is unbound afterwards: a
    /// gate that was bound has its endpoint freed and has to be activated
    /// again before it is used.
    pub fn rebind(&mut self, k: &mut Kernel, sel: CapSel) -> (r: Result<(), Error>)
        requires
            old(k).wf(),
        ensures
            final(k).wf(),
            final(k).mem == old(k).mem,
            final(k).caps == old(k).caps,
            r is Ok,
            *final(self) == (Gate { vpe: old(self).vpe, sel, flags: old(self).flags, ep: None }),
            match old(self).ep {
                Some(e) => if old(k).is_ep(old(self).vpe as int, e as int) {
                    final(k).eps_same_but(old(k), old(self).vpe as int, e as int) && final(k).ep(
                        old(self).vpe as int,
                        e as int,
                    ) is Free
                } else {
                    *final(k) == *old(k)
                },
                None => *final(k) == *old(k),
            },
    {
        if let Some(e) = self.ep {
            let _ = k.deactivate(self.vpe, e);
        }
        self.sel = sel;
        self.ep = None;
        Ok(())
    }

    /// `k2` and `r` are what closing a gate `g` makes of `k`: a gate that
    /// keeps its capability has its endpoint freed; of any other the
    /// capability is revoked, with what was derived from it.
    pub open spec fn closed(k2: &Kernel, k: &Kernel, g: &Gate, r: Result<(), Error>) -> bool {
        &&& g.flags.keep ==> r is Ok && k2.mem == k.mem && k2.caps == k.caps
            && match g.ep {
            Some(e) => if k.is_ep(g.vpe as int, e as int) {
                k2.eps_same_but(k, g.vpe as int, e as int) && k2.ep(
                    g.vpe as int,
                    e as int,
                ) is Free
            } else {
                *k2 == *k
            },
            None => *k2 == *k,
        }
        &&& !g.flags.keep ==> match r {
            Ok(_) => {
                let crd = CapRngDesc { ty: CapType::Object, start: g.sel, count: 1 };
                &&& k.revoke_error(g.vpe, VPE_SEL, crd) is None
                &&& exists|d: Seq<Capability>|
                    k2.revoked(k, k.vpe_at(g.vpe, VPE_SEL)->Ok_0, crd, true, d)
            },
            Err(e) => {
                let crd = CapRngDesc { ty: CapType::Object, start: g.sel, count: 1 };
                &&& k.revoke_error(g.vpe, VPE_SEL, crd) == Some(e.code())
                &&& *k2 == *k
            },
        }
    }

    /// Closes this gate: its endpoint is freed, and its capability is revoked
    /// unless this gate was made to keep it. Fails as the revocation fails.
    pub fn close(self, k: &mut Kernel) -> (r: Result<(), Error>)
        requires
            old(k).wf(),
        ensures
            final(k).wf(),
            Self::closed(final(k), old(k), &self, r),
    {
        if self.flags.keep {
            if let Some(e) = self.ep {
                let _ = k.deactivate(self.vpe, e);
            }
            Ok(())
        } else {
            k.revoke(self.vpe, VPE_SEL, CapRngDesc::new(CapType::Object, self.sel, 1), true)
        }
    }
}

} // verus!
