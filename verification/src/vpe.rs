//! What a VPE keeps for itself: its number and the selectors it has handed
//! out.

use vstd::prelude::*;
use crate::kif::{CapSel, VpeId, FIRST_FREE_SEL, INVALID_SEL};

verus! {

/// The state of a VPE at user level.
#[derive(Debug)]
pub struct VPE {
    id: VpeId,
    next_sel: CapSel,
}

impl VPE {
    /// The number of the VPE.
    pub closed spec fn id_spec(&self) -> VpeId {
        self.id
    }

    /// The selector that `alloc_sel` hands out next; `INVALID_SEL` where
    /// all are handed out.
    pub closed spec fn next_sel(&self) -> CapSel {
        self.next_sel
    }

    /// The representation invariant.
    pub open spec fn wf(&self) -> bool {
        FIRST_FREE_SEL <= self.next_sel() <= INVALID_SEL
    }

    /// The state of the VPE with number `id` that has handed out no
    /// selector.
    pub fn new(id: VpeId) -> (v: VPE)
        ensures
            v.wf(),
            v.id_spec() == id,
            v.next_sel() == FIRST_FREE_SEL,
    {
        VPE { id, next_sel: FIRST_FREE_SEL }
    }

    /// The number of the VPE.
    #[verifier::when_used_as_spec(id_spec)]
    pub fn id(&self) -> (id: VpeId)
        ensures
            id == self.id_spec(),
    {
        self.id
    }

    /// Hands out the next selector. Where all are handed out, the answer is
    /// `INVALID_SEL`, which no capability can be created at.
    pub fn alloc_sel(&mut self) -> (sel: CapSel)
        requires
            old(self).wf(),
        ensures
            final(self).wf(),
            final(self).id_spec() == old(self).id_spec(),
            sel == old(self).next_sel(),
            final(self).next_sel() == if sel == INVALID_SEL {
                INVALID_SEL
            } else {
                (sel + 1) as CapSel
            },
    {
        let sel = self.next_sel;
        if sel != INVALID_SEL {
            self.next_sel = sel + 1;
        }
        sel
    }

    /// Hands out the next selector, for a capability.
    pub fn alloc_cap(&mut self) -> (sel: CapSel)
        requires
            old(self).wf(),
        ensures
            final(self).wf(),
            final(self).id_spec() == old(self).id_spec(),
            sel == old(self).next_sel(),
            final(self).next_sel() == if sel == INVALID_SEL {
                INVALID_SEL
            } else {
                (sel + 1) as CapSel
            },
    {
        self.alloc_sel()
    }
}

} // verus!
