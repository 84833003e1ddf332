//! Endpoints: binding gates to them and releasing them.

use vstd::prelude::*;
use crate::addr::GlobAddr;
use crate::cap::{lemma_at, Capability, KObject};
use crate::cfg::EP_COUNT;
use crate::dtu::{Endpoint, EpId, RecvBuf};
use crate::errors::{Code, Error};
use crate::kernel::{bound_once, Kernel};
use crate::kif::{CapSel, CapType, VpeId};

verus! {

/// The endpoint that activating a gate with the capability `c`, with `off` for
/// the address, configures.
pub open spec fn configured(c: Capability, off: usize, ep: Endpoint) -> bool {
    match c.obj {
        KObject::SGate { rgate, label, credits } => ep == (Endpoint::Send {
            gate: c.id,
            rgate,
            label,
            credits,
            limited: credits != 0,
        }),
        KObject::RGate { slot_order, total_order } => {
            &&& ep is Recv
            &&& ep->Recv_gate == c.id
            &&& ep->buf.wf()
            &&& ep->buf.slot_order == slot_order
            &&& ep->buf.total_order == total_order
            &&& ep->buf.rd_pos == 0
            &&& ep->buf.wr_pos == 0
            &&& forall|i: int|
                0 <= i < ep->buf.slots@.len() ==> (#[trigger] ep->buf.slots@[i]).state is Free
        },
        KObject::MGate { addr, size, perm, owned } => ep == (Endpoint::Mem {
            gate: c.id,
            addr: GlobAddr { pe: addr.pe, offset: (addr.offset + off) as u64 },
            size: (size - off) as usize,
            perm,
        }),
        _ => false,
    }
}

impl Kernel {
    /// `(vpe, ep)` names an endpoint.
    pub open spec fn is_ep(&self, vpe: int, ep: int) -> bool {
        0 <= vpe < self.vpes@.len() && 0 <= ep < EP_COUNT
    }

    /// No endpoint is bound to a gate with identity `id`.
    pub open spec fn unbound(&self, id: u64) -> bool {
        forall|v: int, e: int| self.is_ep(v, e) ==> (#[trigger] self.ep(v, e)).gate() != Some(id)
    }

    /// `self` has the VPEs of `before`, with the endpoints of `before` but
    /// for endpoint `e` of VPE `v`.
    pub open spec fn eps_same_but(&self, before: &Kernel, v: int, e: int) -> bool {
        &&& self.vpes@.len() == before.vpes@.len()
        &&& forall|x: int|
            0 <= x < self.vpes@.len() ==> (#[trigger] self.vpes@[x]).pe == before.vpes@[x].pe
                && self.vpes@[x].eps@.len()
                == before.vpes@[x].eps@.len()
        &&& forall|x: int, y: int|
            before.is_ep(x, y) && (x != v || y != e) ==> #[trigger] self.ep(x, y) == before.ep(x, y)
    }

    /// The endpoint that a gate with identity `id` is bound to.
    pub fn find_ep_of(&self, id: u64) -> (r: Option<(VpeId, EpId)>)
        requires
            self.wf(),
        ensures
            match r {
                Some((v, e)) => self.is_ep(v as int, e as int) && self.ep(v as int, e as int).gate()
                    == Some(id),
                None => self.unbound(id),
            },
    {
        let n = self.vpes.len();
        let mut v: usize = 0;
        while v < n
            invariant
                0 <= v <= n,
                n == self.vpes@.len(),
                self.wf(),
                forall|x: int, y: int|
                    0 <= x < v && 0 <= y < EP_COUNT ==> (#[trigger] self.ep(x, y)).gate() != Some(id),
            decreases n - v,
        {
            let mut e: usize = 0;
            while e < EP_COUNT
                invariant
                    0 <= e <= EP_COUNT,
                    0 <= v < n,
                    n == self.vpes@.len(),
                    self.wf(),
                    forall|x: int, y: int|
                        0 <= x < v && 0 <= y < EP_COUNT ==> (#[trigger] self.ep(x, y)).gate()
                            != Some(id),
                    forall|y: int| 0 <= y < e ==> (#[trigger] self.ep(v as int, y)).gate() != Some(id),
                decreases EP_COUNT - e,
            {
                let hit = match &self.vpes[v].eps[e] {
                    Endpoint::Free => false,
                    Endpoint::Send { gate, .. } => *gate == id,
                    Endpoint::Recv { gate, .. } => *gate == id,
                    Endpoint::Mem { gate, .. } => *gate == id,
                };
                if hit {
                    return Some((v, e));
                }
                e += 1;
            }
            v += 1;
        }
        None
    }

    /// Frees the endpoint that a gate with identity `id` is bound to, if
    /// it is bound to one.
    pub fn release_eps(&mut self, id: u64)
        requires
            old(self).wf(),
        ensures
            final(self).wf(),
            final(self).mem == old(self).mem,
            final(self).caps == old(self).caps,
            final(self).vpes@.len() == old(self).vpes@.len(),
            forall|v: int|
                0 <= v < final(self).vpes@.len() ==> (#[trigger] final(self).vpes@[v]).pe == old(
                    self,
                ).vpes@[v].pe,
            forall|v: int, e: int|
                old(self).is_ep(v, e) ==> if old(self).ep(v, e).gate() == Some(id) {
                    #[trigger] final(self).ep(v, e) is Free
                } else {
                    final(self).ep(v, e) == old(self).ep(v, e)
                },
    {
        match self.find_ep_of(id) {
            None => {},
            Some((v, e)) => {
                self.vpes[v].eps.set(e, Endpoint::Free);
                proof {
                    assert forall|x: int, y: int|
                        old(self).is_ep(x, y) && (x != v || y != e) implies #[trigger] self.ep(x, y)
                        == old(self).ep(x, y) by {
                        if x != v {
                            assert(self.vpes@[x] == old(self).vpes@[x]);
                        }
                    }
                    assert forall|x: int|
                        0 <= x < self.vpes@.len() implies (#[trigger] self.vpes@[x]).eps@.len()
                        == EP_COUNT by {
                        if x != v {
                            assert(self.vpes@[x] == old(self).vpes@[x]);
                        }
                    }
                    assert(self.eps_same_but(old(self), v as int, e as int));
                    assert forall|x: int, y: int| self.is_ep(x, y) implies (#[trigger] self.ep(
                        x,
                        y,
                    )).wf() by {
                        if x != v || y != e {
                            assert(self.ep(x, y) == old(self).ep(x, y));
                            assert(old(self).vpes@[x].eps@[y].wf());
                        }
                    }
                    assert forall|x: int, y: int|
                        old(self).is_ep(x, y) implies if old(self).ep(x, y).gate() == Some(id) {
                        #[trigger] self.ep(x, y) is Free
                    } else {
                        self.ep(x, y) == old(self).ep(x, y)
                    } by {
                        if x != v || y != e {
                            assert(old(self).vpes@[v as int].eps@[e as int].gate() is Some);
                            assert(old(self).vpes@[v as int].eps@[e as int].gate() != old(
                                self,
                            ).vpes@[x].eps@[y].gate());
                        }
                    }
                    self.lemma_bound_once_kept(old(self), v as int, e as int);
                }
            },
        }
    }

    /// `self` is `before` after a gate, the one that `vpe` holds at `gate_sel`, was
    /// bound to its endpoint `ep`: the endpoint is as it was where it was
    /// bound to that gate, else as that gate configures it; nothing else has
    /// changed.
    pub open spec fn bound(&self, before: &Kernel, vpe: VpeId, ep: EpId, gate_sel: CapSel, off: usize) -> bool {
        &&& self.mem == before.mem
        &&& self.caps == before.caps
        &&& self.eps_same_but(before, vpe as int, ep as int)
        &&& if before.ep(vpe as int, ep as int).gate() == Some(before.obj_at(vpe, gate_sel)->0.id) {
            self.ep(vpe as int, ep as int) == before.ep(vpe as int, ep as int)
        } else {
            configured(before.obj_at(vpe, gate_sel)->0, off, self.ep(vpe as int, ep as int))
        }
    }

    /// The first free endpoint of `vpe` from endpoint `e` on; `EP_COUNT`
    /// where there is none.
    pub open spec fn free_ep_from(&self, vpe: int, e: int) -> int
        decreases EP_COUNT - e,
    {
        if e < 0 || e >= EP_COUNT {
            EP_COUNT as int
        } else if self.ep(vpe, e) is Free {
            e
        } else {
            self.free_ep_from(vpe, e + 1)
        }
    }

    /// The first free endpoint of `vpe`; `EP_COUNT` where there is none.
    pub open spec fn free_ep(&self, vpe: int) -> int {
        self.free_ep_from(vpe, 0)
    }

    /// The first free endpoint of `vpe`; nothing where there is none.
    pub fn find_free_ep(&self, vpe: VpeId) -> (r: Option<EpId>)
        requires
            self.wf(),
            vpe < self.vpes@.len(),
        ensures
            match r {
                Some(e) => e < EP_COUNT && e == self.free_ep(vpe as int) && self.ep(
                    vpe as int,
                    e as int,
                ) is Free,
                None => self.free_ep(vpe as int) == EP_COUNT,
            },
    {
        let mut e: usize = 0;
        while e < EP_COUNT
            invariant
                0 <= e <= EP_COUNT,
                vpe < self.vpes@.len(),
                self.wf(),
                self.free_ep(vpe as int) == self.free_ep_from(vpe as int, e as int),
            decreases EP_COUNT - e,
        {
            if let Endpoint::Free = &self.vpes[vpe].eps[e] {
                return Some(e);
            }
            e += 1;
        }
        None
    }

    /// Frees endpoint `ep` of `vpe`, whatever it is bound to. Fails with
    /// `InvArgs`, and changes nothing, where there is no such endpoint.
    pub fn deactivate(&mut self, vpe: VpeId, ep: EpId) -> (r: Result<(), Error>)
        requires
            old(self).wf(),
        ensures
            final(self).wf(),
            final(self).mem == old(self).mem,
            final(self).caps == old(self).caps,
            match r {
                Ok(_) => {
                    &&& old(self).is_ep(vpe as int, ep as int)
                    &&& final(self).eps_same_but(old(self), vpe as int, ep as int)
                    &&& final(self).ep(vpe as int, ep as int) is Free
                },
                Err(e) => {
                    &&& !old(self).is_ep(vpe as int, ep as int)
                    &&& e.code() == Code::InvArgs
                    &&& *final(self) == *old(self)
                },
            },
    {
        if vpe >= self.vpes.len() || ep >= EP_COUNT {
            return Err(Error::new(Code::InvArgs));
        }
        self.vpes[vpe].eps.set(ep, Endpoint::Free);
        proof {
            assert forall|x: int, y: int|
                old(self).is_ep(x, y) && (x != vpe || y != ep) implies #[trigger] self.ep(x, y)
                == old(self).ep(x, y) by {
                if x != vpe {
                    assert(self.vpes@[x] == old(self).vpes@[x]);
                }
            }
            assert forall|x: int| 0 <= x < self.vpes@.len() implies (#[trigger] self.vpes@[x]).eps@.len()
                == EP_COUNT by {
                if x != vpe {
                    assert(self.vpes@[x] == old(self).vpes@[x]);
                }
            }
            assert(self.eps_same_but(old(self), vpe as int, ep as int));
            assert forall|x: int, y: int| self.is_ep(x, y) implies (#[trigger] self.ep(x, y)).wf() by {
                if x != vpe || y != ep {
                    assert(self.ep(x, y) == old(self).ep(x, y));
                    assert(old(self).vpes@[x].eps@[y].wf());
                }
            }
            self.lemma_bound_once_kept(old(self), vpe as int, ep as int);
        }
        Ok(())
    }

    /// What `activate` answers for the given arguments: the error, or
    /// nothing where a gate is, or already was, bound to the endpoint.
    pub open spec fn activate_error(&self, vpe: VpeId, ep: EpId, gate_sel: CapSel, off: usize) -> Option<
        Code,
    > {
        if !self.is_ep(vpe as int, ep as int) {
            Some(Code::InvArgs)
        } else {
            match self.obj_at(vpe, gate_sel) {
                None => Some(Code::NoSuchCap),
                Some(c) => if !(c.obj is SGate || c.obj is RGate || c.obj is MGate) || (c.obj is MGate
                    && off > c.obj->MGate_size) {
                    Some(Code::InvArgs)
                } else if self.ep(vpe as int, ep as int).gate() == Some(c.id) {
                    None
                } else if !(self.ep(vpe as int, ep as int) is Free) || !self.unbound(c.id) {
                    Some(Code::AlreadyExists)
                } else {
                    None
                },
            }
        }
    }

    /// Binds a gate, the one that `vpe` holds at `gate_sel`, to endpoint `ep`.
    /// A send endpoint starts with the budget of its gate, a receive
    /// endpoint with an empty buffer, and a memory endpoint shows the window
    /// of its gate from `off` on. Binding a gate to the endpoint it is bound
    /// to changes nothing. Fails with `InvArgs` where there is no such
    /// endpoint, with `NoSuchCap` where the selector is empty, with `InvArgs`
    /// where it holds no gate or `off` lies behind the window, and with
    /// `AlreadyExists` where the endpoint is taken by another gate or this
    /// gate is bound to another endpoint; the kernel then stays as it is.
    pub fn activate(&mut self, vpe: VpeId, ep: EpId, gate_sel: CapSel, off: usize) -> (r: Result<
        (),
        Error,
    >)
        requires
            old(self).wf(),
        ensures
            final(self).wf(),
            final(self).mem == old(self).mem,
            final(self).caps == old(self).caps,
            match r {
                Ok(_) => {
                    &&& old(self).activate_error(vpe, ep, gate_sel, off) is None
                    &&& final(self).bound(old(self), vpe, ep, gate_sel, off)
                },
                Err(e) => {
                    &&& old(self).activate_error(vpe, ep, gate_sel, off) == Some(e.code())
                    &&& *final(self) == *old(self)
                },
            },
    {
        if vpe >= self.vpes.len() || ep >= EP_COUNT {
            return Err(Error::new(Code::InvArgs));
        }
        let c = match self.caps.get(vpe, CapType::Object, gate_sel) {
            None => {
                return Err(Error::new(Code::NoSuchCap));
            },
            Some(c) => c,
        };
        proof {
            lemma_at(self.caps.caps(), vpe, CapType::Object, gate_sel);
        }
        let is_gate = match c.obj {
            KObject::SGate { .. } => true,
            KObject::RGate { .. } => true,
            KObject::MGate { addr, size, perm, owned } => off <= size,
            _ => false,
        };
        if !is_gate {
            return Err(Error::new(Code::InvArgs));
        }
        let (same, free) = match &self.vpes[vpe].eps[ep] {
            Endpoint::Free => (false, true),
            Endpoint::Send { gate, .. } => (*gate == c.id, false),
            Endpoint::Recv { gate, .. } => (*gate == c.id, false),
            Endpoint::Mem { gate, .. } => (*gate == c.id, false),
        };
        if same {
            proof {
                assert(self.eps_same_but(old(self), vpe as int, ep as int));
            }
            return Ok(());
        }
        if !free || self.find_ep_of(c.id).is_some() {
            return Err(Error::new(Code::AlreadyExists));
        }
        let new_ep = match c.obj {
            KObject::SGate { rgate, label, credits } => Endpoint::Send {
                gate: c.id,
                rgate,
                label,
                credits,
                limited: credits != 0,
            },
            KObject::RGate { slot_order, total_order } => Endpoint::Recv {
                gate: c.id,
                buf: RecvBuf::new(slot_order, total_order),
            },
            KObject::MGate { addr, size, perm, owned } => Endpoint::Mem {
                gate: c.id,
                addr: addr.offset_by(off as u64),
                size: size - off,
                perm,
            },
            _ => Endpoint::Free,
        };
        self.vpes[vpe].eps.set(ep, new_ep);
        proof {
            assert forall|x: int, y: int|
                old(self).is_ep(x, y) && (x != vpe || y != ep) implies #[trigger] self.ep(x, y)
                == old(self).ep(x, y) by {
                if x != vpe {
                    assert(self.vpes@[x] == old(self).vpes@[x]);
                }
            }
            assert forall|x: int| 0 <= x < self.vpes@.len() implies (#[trigger] self.vpes@[x]).eps@.len()
                == EP_COUNT by {
                if x != vpe {
                    assert(self.vpes@[x] == old(self).vpes@[x]);
                }
            }
            assert(self.eps_same_but(old(self), vpe as int, ep as int));
            assert forall|x: int, y: int| self.is_ep(x, y) implies (#[trigger] self.ep(x, y)).wf() by {
                if x != vpe || y != ep {
                    assert(self.ep(x, y) == old(self).ep(x, y));
                    assert(old(self).vpes@[x].eps@[y].wf());
                }
            }
            self.lemma_bound_once_kept(old(self), vpe as int, ep as int);
        }
        Ok(())
    }

    /// Where one endpoint changes and its gate is none or one that was bound
    /// to no other endpoint, no gate is bound to two endpoints.
    pub proof fn lemma_bound_once_kept(&self, before: &Kernel, v: int, e: int)
        requires
            before.wf(),
            before.is_ep(v, e),
            self.eps_same_but(before, v, e),
            self.ep(v, e).gate() is Some ==> forall|x: int, y: int|
                before.is_ep(x, y) && (x != v || y != e) ==> (#[trigger] before.ep(x, y)).gate()
                    != self.ep(v, e).gate(),
        ensures
            bound_once(self.vpes@),
    {
        assert forall|x: int, y: int, x2: int, y2: int|
            0 <= x < self.vpes@.len() && 0 <= y < EP_COUNT && 0 <= x2 < self.vpes@.len() && 0 <= y2
                < EP_COUNT && (x != x2 || y != y2) && (#[trigger] self.vpes@[x].eps@[y]).gate() is Some implies self.vpes@[x].eps@[y].gate()
            != (#[trigger] self.vpes@[x2].eps@[y2]).gate() by {
            if x != v || y != e {
                assert(self.ep(x, y) == before.ep(x, y));
            }
            if x2 != v || y2 != e {
                assert(self.ep(x2, y2) == before.ep(x2, y2));
            }
            if (x != v || y != e) && (x2 != v || y2 != e) {
                assert(before.vpes@[x].eps@[y].gate() != before.vpes@[x2].eps@[y2].gate());
            } else if x == v && y == e {
                assert(before.ep(x2, y2).gate() != self.ep(v, e).gate());
            } else {
                if self.ep(v, e).gate() is Some {
                    assert(before.ep(x, y).gate() != self.ep(v, e).gate());
                }
            }
        }
    }
}

} // verus!
