//! Memory gates.

use vstd::prelude::*;
use crate::com::gate::{Flags, Gate};
use crate::dtu::EpId;
use crate::errors::Error;
use crate::kernel::{Kernel, ALL_MEM};
use crate::kif::{CapSel, Perm};
use crate::vpe::VPE;

verus! {

/// A memory gate: a gate to a window of memory.
#[derive(Debug)]
pub struct MemGate {
    pub gate: Gate,
}

impl MemGate {
    /// Creates a memory gate for `vpe`, at the next selector it hands out,
    /// to `size` bytes taken from the main memory, with the permissions
    /// `perm`. Succeeds exactly where `create_mgate` does.
    pub fn new(k: &mut Kernel, vpe: &mut VPE, size: usize, perm: Perm) -> (r: Result<MemGate, Error>)
        requires
            old(k).wf(),
            old(vpe).wf(),
        ensures
            final(k).wf(),
            final(vpe).wf(),
            final(vpe).id_spec() == old(vpe).id_spec(),
            final(vpe).next_sel() == Gate::next_after(old(vpe).next_sel()),
            final(k).create_mgate_outcome(
                old(k),
                old(vpe).id_spec(),
                old(vpe).next_sel(),
                ALL_MEM,
                size,
                perm,
                match r {
                    Ok(_) => Ok(()),
                    Err(e) => Err(e),
                },
            ),
            r is Ok ==> r->Ok_0.gate == (Gate {
                vpe: old(vpe).id_spec(),
                sel: old(vpe).next_sel(),
                flags: Flags { keep: false },
                ep: None,
            }),
    {
        let sel = vpe.alloc_sel();
        match k.create_mgate(vpe.id(), sel, ALL_MEM, size, perm) {
            Ok(_) => Ok(MemGate { gate: Gate::new(vpe.id(), sel, Flags::empty()) }),
            Err(e) => Err(e),
        }
    }

    /// Derives from this gate, at the next selector that `vpe` hands out, a
    /// gate to the `size` bytes from `offset` on of its window, with the
    /// permissions `perm`. Succeeds exactly where `derive_mem` does: not
    /// where `perm` allows what this gate does not, and not where the bytes
    /// do not lie in its window (`InvArgs`).
    pub fn derive(&self, k: &mut Kernel, vpe: &mut VPE, offset: usize, size: usize, perm: Perm) -> (r:
        Result<MemGate, Error>)
        requires
            old(k).wf(),
            old(vpe).wf(),
        ensures
            final(k).wf(),
            final(vpe).wf(),
            final(vpe).id_spec() == old(vpe).id_spec(),
            final(vpe).next_sel() == Gate::next_after(old(vpe).next_sel()),
            final(k).derive_mem_outcome(
                old(k),
                old(vpe).id_spec(),
                old(vpe).next_sel(),
                self.gate.sel,
                offset,
                size,
                perm,
                match r {
                    Ok(_) => Ok(()),
                    Err(e) => Err(e),
                },
            ),
            r is Ok ==> r->Ok_0.gate == (Gate {
                vpe: old(vpe).id_spec(),
                sel: old(vpe).next_sel(),
                flags: Flags { keep: false },
                ep: None,
            }),
    {
        let sel = vpe.alloc_sel();
        match k.derive_mem(vpe.id(), sel, self.gate.sel, offset, size, perm) {
            Ok(_) => Ok(MemGate { gate: Gate::new(vpe.id(), sel, Flags::empty()) }),
            Err(e) => Err(e),
        }
    }

    /// Binds this gate to the first free endpoint of its VPE, unless it is
    /// bound, and returns the endpoint, as `Gate::activate` says.
    pub fn activate(&mut self, k: &mut Kernel) -> (r: Result<EpId, Error>)
        requires
            old(k).wf(),
        ensures
            final(k).wf(),
            Gate::activated(final(k), &final(self).gate, old(k), &old(self).gate, r),
    {
        self.gate.activate(k)
    }

    /// Closes this gate: its endpoint is freed, and its capability is
    /// revoked, with what was derived from it, as `Gate::close` says.
    pub fn close(self, k: &mut Kernel) -> (r: Result<(), Error>)
        requires
            old(k).wf(),
        ensures
            final(k).wf(),
            Gate::closed(final(k), old(k), &self.gate, r),
    {
        self.gate.close(k)
    }

    /// The selector of the capability of this gate.
    pub fn sel(&self) -> (sel: CapSel)
        ensures
            sel == self.gate.sel,
    {
        self.gate.sel()
    }

    /// The endpoint this gate is bound to.
    pub fn ep(&self) -> (ep: Option<EpId>)
        ensures
            ep == self.gate.ep,
    {
        self.gate.ep()
    }
}

} // verus!
