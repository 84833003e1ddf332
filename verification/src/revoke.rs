//! The system calls that pass capabilities on and take them back: exchange
//! and revoke, with the teardown of what a revoked capability answers for.

use vstd::prelude::*;
use crate::cap::{
    cap_at, cap_by_id, copied, copy_of, dies, lemma_at, lemma_by_id_at, lemma_same, moved, revoke_order,
    Capability, KObject,
};
use crate::dtu::MAX_RBUF_ORDER;
use crate::errors::{Code, Error};
use crate::kernel::{
    apart, backed, lemma_narrowed_append, lemma_narrowed_same, lemma_narrowed_sub, narrowed,
    owned_region, vpes_known, within, Kernel,
};
use crate::kif::{CapRngDesc, CapSel, VpeId};
use crate::mem::main::{Allocation, MainMemory};
use crate::syscalls::lemma_allocated_kept;

verus! {

/// The bytes of the regions that the capabilities of `d` answer for.
pub open spec fn owned_bytes(d: Seq<Capability>) -> nat
    decreases d.len(),
{
    if d.len() == 0 {
        0
    } else {
        owned_bytes(d.drop_last()) + match owned_region(d.last()) {
            Some(r) => r.size as nat,
            None => 0,
        }
    }
}

/// One of the first `j` capabilities of `d` has the identity `id`.
pub open spec fn torn(d: Seq<Capability>, j: int, id: u64) -> bool {
    exists|x: int| 0 <= x < j && (#[trigger] d[x]).id == id
}

/// Byte `b` of the memory of `pe` lies in a region that one of the first `j`
/// capabilities of `d` answered for.
pub open spec fn given_back(d: Seq<Capability>, j: int, pe: usize, b: int) -> bool {
    exists|x: int|
        0 <= x < j && owned_region(#[trigger] d[x]) is Some && MainMemory::in_region(
            owned_region(d[x])->0.addr,
            owned_region(d[x])->0.size as int,
            pe,
            b,
        )
}

impl Kernel {
    /// What `exchange` answers for the given arguments: the error, or
    /// nothing where the capabilities are exchanged.
    pub open spec fn exchange_error(
        &self,
        vpe: VpeId,
        dst_vpe_sel: CapSel,
        crd: CapRngDesc,
        dst_sel: CapSel,
        obtain: bool,
    ) -> Option<Code> {
        match self.vpe_at(vpe, dst_vpe_sel) {
            Err(code) => Some(code),
            Ok(dst) => self.caps.exchange_error(vpe, crd, dst, dst_sel, obtain),
        }
    }

    /// Gives the VPE that `vpe` names by `dst_vpe_sel`, at its selectors
    /// from `dst_sel` on, the capabilities that `vpe` holds in the run
    /// `crd`. With `obtain` each is a copy derived from its source, which
    /// can be revoked by itself; without, the capabilities themselves move
    /// and leave their selectors empty. Fails as the look-up of the VPE and
    /// the exchange in the capability table fail; the kernel then stays as
    /// it is.
    pub fn exchange(
        &mut self,
        vpe: VpeId,
        dst_vpe_sel: CapSel,
        crd: CapRngDesc,
        dst_sel: CapSel,
        obtain: bool,
    ) -> (r: Result<(), Error>)
        requires
            old(self).wf(),
        ensures
            final(self).wf(),
            final(self).mem == old(self).mem,
            final(self).vpes == old(self).vpes,
            match r {
                Ok(_) => {
                    let dst = old(self).vpe_at(vpe, dst_vpe_sel)->Ok_0;
                    &&& old(self).exchange_error(vpe, dst_vpe_sel, crd, dst_sel, obtain) is None
                    &&& obtain ==> {
                        &&& final(self).caps.next_id() == old(self).caps.next_id() + crd.count
                        &&& final(self).caps.caps() == old(self).caps.caps() + Seq::new(
                            crd.count as nat,
                            |k: int|
                                copied(
                                    old(self).caps.caps(),
                                    old(self).caps.next_id(),
                                    vpe,
                                    crd,
                                    dst,
                                    dst_sel,
                                    k,
                                ),
                        )
                    }
                    &&& !obtain ==> {
                        &&& final(self).caps.next_id() == old(self).caps.next_id()
                        &&& final(self).caps.caps() == Seq::new(
                            old(self).caps.caps().len(),
                            |i: int| moved(old(self).caps.caps()[i], vpe, crd, dst, dst_sel),
                        )
                    }
                },
                Err(e) => {
                    &&& old(self).exchange_error(vpe, dst_vpe_sel, crd, dst_sel, obtain) == Some(
                        e.code(),
                    )
                    &&& *final(self) == *old(self)
                },
            },
    {
        let dst = match self.vpe_of(vpe, dst_vpe_sel) {
            Ok(id) => id,
            Err(e) => {
                return Err(e);
            },
        };
        let ghost s = self.caps.caps();
        let ghost next = self.caps.next_id();
        match self.caps.exchange(vpe, crd, dst, dst_sel, obtain) {
            Ok(_) => {
                proof {
                    let t = self.caps.caps();
                    let n = self.vpes@.len() as int;
                    // each capability of the new table has the object of one of
                    // the old table, or a copy of it, and its identity if it
                    // answers for a region
                    assert forall|c: Capability| #[trigger] t.contains(c) implies c.vpe < n
                        && exists|o: Capability|
                        #[trigger] s.contains(o) && (c.obj == o.obj && c.id == o.id || c.obj
                            == copy_of(o.obj)) by {
                        let i = choose|i: int| 0 <= i < t.len() && t[i] == c;
                        if obtain {
                            if i < s.len() {
                                assert(s.contains(s[i]));
                                assert(c == s[i]);
                            } else {
                                let k = i - s.len();
                                lemma_at(s, vpe, crd.ty, (crd.start + k) as CapSel);
                                assert(cap_at(s, vpe, crd.ty, (crd.start + k) as CapSel) is Some);
                                let o = cap_at(s, vpe, crd.ty, (crd.start + k) as CapSel)->0;
                                assert(s.contains(o));
                            }
                        } else {
                            assert(s.contains(s[i]));
                            assert(c == moved(s[i], vpe, crd, dst, dst_sel));
                        }
                    }
                    assert(narrowed(t)) by {
                        if obtain {
                            let f = Seq::new(
                                crd.count as nat,
                                |k: int| copied(s, next, vpe, crd, dst, dst_sel, k),
                            );
                            assert forall|k: int|
                                0 <= k < f.len() && (#[trigger] f[k]).parent is Some implies cap_by_id(
                                s,
                                f[k].parent->0,
                            ) is Some && within(
                                f[k].obj,
                                cap_by_id(s, f[k].parent->0)->0.obj,
                            ) by {
                                let sel = (crd.start + k) as CapSel;
                                assert(cap_at(s, vpe, crd.ty, sel) is Some);
                                lemma_at(s, vpe, crd.ty, sel);
                                let o = cap_at(s, vpe, crd.ty, sel)->0;
                                let x = choose|x: int| 0 <= x < s.len() && s[x] == o;
                                lemma_by_id_at(s, x);
                                assert(s.contains(o));
                            }
                            lemma_narrowed_append(s, next, f);
                        } else {
                            lemma_narrowed_same(s, next, t);
                        }
                    }
                    assert(vpes_known(t, n)) by {
                        assert forall|c: Capability| #[trigger] t.contains(c) implies c.vpe < n
                            && match c.obj {
                            KObject::Vpe { id } => id < n,
                            KObject::RGate { slot_order, total_order } => slot_order <= total_order
                                <= MAX_RBUF_ORDER,
                            KObject::Serv { rgate, name } => name.wf(),
                            _ => true,
                        } by {
                            let o = choose|o: Capability|
                                #[trigger] s.contains(o) && (c.obj == o.obj && c.id == o.id || c.obj
                                    == copy_of(o.obj));
                        }
                    }
                    assert(backed(t, self.mem)) by {
                        assert forall|c: Capability| #[trigger] t.contains(c) implies match c.obj {
                            KObject::MGate { addr, size, perm, owned } => addr.offset + size
                                <= u64::MAX,
                            _ => true,
                        } by {
                            let o = choose|o: Capability|
                                #[trigger] s.contains(o) && (c.obj == o.obj && c.id == o.id || c.obj
                                    == copy_of(o.obj));
                        }
                        assert forall|c: Capability| #[trigger]
                            t.contains(c) && owned_region(c) is Some implies {
                            let r = owned_region(c)->0;
                            r.size > 0 && self.mem.allocated(r.addr, r.size as int)
                        } by {
                            let o = choose|o: Capability|
                                #[trigger] s.contains(o) && (c.obj == o.obj && c.id == o.id || c.obj
                                    == copy_of(o.obj));
                            assert(owned_region(o) == owned_region(c));
                        }
                        assert forall|c1: Capability, c2: Capability| #[trigger]
                            t.contains(c1) && #[trigger] t.contains(c2) && c1.id != c2.id
                                && owned_region(c1) is Some && owned_region(c2) is Some implies apart(
                            owned_region(c1)->0,
                            owned_region(c2)->0,
                        ) by {
                            let o1 = choose|o: Capability|
                                #[trigger] s.contains(o) && (c1.obj == o.obj && c1.id == o.id
                                    || c1.obj == copy_of(o.obj));
                            let o2 = choose|o: Capability|
                                #[trigger] s.contains(o) && (c2.obj == o.obj && c2.id == o.id
                                    || c2.obj == copy_of(o.obj));
                            assert(owned_region(o1) == owned_region(c1));
                            assert(owned_region(o2) == owned_region(c2));
                        }
                    }
                }
                Ok(())
            },
            Err(e) => Err(e),
        }
    }

    /// `self` is `before` after the revocation of the run `crd` of VPE
    /// `target` has destroyed the capabilities `d`, in this order: these are
    /// the capabilities that the revocation takes away; they have left the
    /// table; the endpoints their gates were bound to are free; and the
    /// regions they answered for are free memory again.
    pub open spec fn revoked(
        &self,
        before: &Kernel,
        target: VpeId,
        crd: CapRngDesc,
        own: bool,
        d: Seq<Capability>,
    ) -> bool {
        let s = before.caps.caps();
        &&& forall|c: Capability| #[trigger] d.contains(c) <==> s.contains(c) && dies(s, target, crd, own, c)
        &&& forall|x: int, y: int| 0 <= x < y < d.len() ==> (#[trigger] d[x]).id != (#[trigger] d[y]).id
        &&& revoke_order(s, d, target, crd.ty, crd.start as int, own)
        &&& forall|c: Capability|
            #[trigger] self.caps.caps().contains(c) <==> s.contains(c) && !dies(s, target, crd, own, c)
        &&& self.caps.next_id() == before.caps.next_id()
        &&& self.vpes@.len() == before.vpes@.len()
        &&& forall|v: int|
            0 <= v < self.vpes@.len() ==> (#[trigger] self.vpes@[v]).pe == before.vpes@[v].pe
        &&& forall|v: int, e: int|
            before.is_ep(v, e) ==> if before.ep(v, e).gate() is Some && torn(
                d,
                d.len() as int,
                before.ep(v, e).gate()->0,
            ) {
                #[trigger] self.ep(v, e) is Free
            } else {
                self.ep(v, e) == before.ep(v, e)
            }
        &&& self.mem.capacity_spec() == before.mem.capacity_spec()
        &&& self.mem.available_spec() == before.mem.available_spec() + owned_bytes(d)
        &&& self.mem.same_layout(&before.mem)
        &&& forall|pe: usize, b: int|
            #[trigger] self.mem.is_free(pe, b) <==> before.mem.is_free(pe, b) || given_back(
                d,
                d.len() as int,
                pe,
                b,
            )
    }

    /// What `revoke` answers for the given arguments: the error, or nothing
    /// where the run is revoked.
    pub open spec fn revoke_error(&self, vpe: VpeId, vpe_sel: CapSel, crd: CapRngDesc) -> Option<Code> {
        match self.vpe_at(vpe, vpe_sel) {
            Err(code) => Some(code),
            Ok(_) => if crd.valid() {
                None
            } else {
                Some(Code::InvArgs)
            },
        }
    }

    /// Revokes the run `crd` of the VPE that `vpe` names by `vpe_sel`,
    /// selector by selector in ascending order, each subtree from the leaves
    /// up: what was derived from the capabilities at these selectors leaves
    /// the tables of all VPEs, and so do these capabilities themselves if
    /// `own` is set. With each capability goes what it answered for: the
    /// endpoint its gate was bound to is freed, and the memory it owned goes
    /// back to the main memory. Empty selectors are passed over. Fails as the
    /// look-up of the VPE fails and with `InvArgs` where the run does not lie
    /// in its space; the kernel then stays as it is.
    pub fn revoke(&mut self, vpe: VpeId, vpe_sel: CapSel, crd: CapRngDesc, own: bool) -> (r: Result<
        (),
        Error,
    >)
        requires
            old(self).wf(),
        ensures
            final(self).wf(),
            match r {
                Ok(_) => {
                    &&& old(self).revoke_error(vpe, vpe_sel, crd) is None
                    &&& exists|d: Seq<Capability>|
                        final(self).revoked(
                            old(self),
                            old(self).vpe_at(vpe, vpe_sel)->Ok_0,
                            crd,
                            own,
                            d,
                        )
                },
                Err(e) => {
                    &&& old(self).revoke_error(vpe, vpe_sel, crd) == Some(e.code())
                    &&& *final(self) == *old(self)
                },
            },
    {
        let target = match self.vpe_of(vpe, vpe_sel) {
            Ok(id) => id,
            Err(e) => {
                return Err(e);
            },
        };
        let ghost s = self.caps.caps();
        let ghost next = self.caps.next_id();
        let d = match self.caps.revoke(target, crd, own) {
            Ok(d) => d,
            Err(e) => {
                return Err(e);
            },
        };
        let ghost t = self.caps.caps();
        proof {
            lemma_narrowed_sub(s, next, t);
            assert forall|x: int| 0 <= x < d@.len() implies s.contains(#[trigger] d@[x]) by {
                assert(d@.contains(d@[x]));
            }
            assert(owned_bytes(d@.take(0)) == 0);
        }
        let n = d.len();
        let mut j: usize = 0;
        while j < n
            invariant
                0 <= j <= n,
                n == d@.len(),
                old(self).wf(),
                s == old(self).caps.caps(),
                self.caps.caps() == t,
                self.caps.next_id() == next,
                self.wf(),
                forall|c: Capability| #[trigger] t.contains(c) ==> s.contains(c),
                forall|c: Capability| #[trigger] t.contains(c) ==> !d@.contains(c),
                forall|x: int| 0 <= x < n ==> s.contains(#[trigger] d@[x]),
                forall|x: int, y: int| 0 <= x < y < n ==> (#[trigger] d@[x]).id != (#[trigger] d@[y]).id,
                forall|x: int|
                    j <= x < n && owned_region(#[trigger] d@[x]) is Some ==> self.mem.allocated(
                        owned_region(d@[x])->0.addr,
                        owned_region(d@[x])->0.size as int,
                    ),
                self.mem.same_layout(&old(self).mem),
                forall|pe: usize, b: int|
                    #[trigger] self.mem.is_free(pe, b) <==> old(self).mem.is_free(pe, b)
                        || given_back(d@, j as int, pe, b),
                self.mem.capacity_spec() == old(self).mem.capacity_spec(),
                self.mem.available_spec() == old(self).mem.available_spec() + owned_bytes(
                    d@.take(j as int),
                ),
                self.vpes@.len() == old(self).vpes@.len(),
                forall|v: int|
                    0 <= v < self.vpes@.len() ==> (#[trigger] self.vpes@[v]).pe == old(self).vpes@[v].pe,
                forall|v: int, e: int|
                    old(self).is_ep(v, e) ==> if old(self).ep(v, e).gate() is Some && torn(
                        d@,
                        j as int,
                        old(self).ep(v, e).gate()->0,
                    ) {
                        #[trigger] self.ep(v, e) is Free
                    } else {
                        self.ep(v, e) == old(self).ep(v, e)
                    },
            decreases n - j,
        {
            let c = d[j];
            let ghost mem0 = self.mem;
            proof {
                assert(d@.take(j as int + 1).drop_last() =~= d@.take(j as int));
                assert(d@.take(j as int + 1).last() == d@[j as int]);
            }
            if let KObject::MGate { addr, size, perm, owned } = c.obj {
                if owned {
                    let alloc = Allocation::new(addr, size);
                    self.mem.free(&alloc);
                    proof {
                        let r = owned_region(c)->0;
                        assert(s.contains(c));
                        assert(r.size > 0);
                        let i = choose|i: int| self.mem.gave_back(&mem0, i, addr, size as int);
                        assert forall|x: int|
                            j < x < n && owned_region(#[trigger] d@[x]) is Some implies self.mem.allocated(
                            owned_region(d@[x])->0.addr,
                            owned_region(d@[x])->0.size as int,
                        ) by {
                            let r2 = owned_region(d@[x])->0;
                            assert(s.contains(d@[x]) && s.contains(c) && d@[x].id != d@[j as int].id);
                            assert(apart(r2, r));
                            lemma_allocated_kept(
                                mem0,
                                self.mem,
                                i,
                                addr,
                                size as int,
                                true,
                                r2.addr,
                                r2.size as int,
                            );
                        }
                        assert(backed(t, self.mem)) by {
                            assert forall|c2: Capability| #[trigger]
                                t.contains(c2) && owned_region(c2) is Some implies {
                                let r2 = owned_region(c2)->0;
                                r2.size > 0 && self.mem.allocated(r2.addr, r2.size as int)
                            } by {
                                let r2 = owned_region(c2)->0;
                                assert(s.contains(c2));
                                if c2.id == c.id {
                                    lemma_same(s, old(self).caps.next_id(), c2, c);
                                    assert(d@.contains(d@[j as int]));
                                }
                                assert(apart(r2, r));
                                lemma_allocated_kept(
                                    mem0,
                                    self.mem,
                                    i,
                                    addr,
                                    size as int,
                                    true,
                                    r2.addr,
                                    r2.size as int,
                                );
                            }
                        }
                    }
                }
            }
            proof {
                assert forall|pe: usize, b: int| #[trigger]
                    self.mem.is_free(pe, b) <==> old(self).mem.is_free(pe, b) || given_back(
                        d@,
                        j as int + 1,
                        pe,
                        b,
                    ) by {
                    let here = owned_region(c) is Some && MainMemory::in_region(
                        owned_region(c)->0.addr,
                        owned_region(c)->0.size as int,
                        pe,
                        b,
                    );
                    assert(self.mem.is_free(pe, b) <==> mem0.is_free(pe, b) || here);
                    assert(mem0.is_free(pe, b) <==> old(self).mem.is_free(pe, b) || given_back(
                        d@,
                        j as int,
                        pe,
                        b,
                    ));
                    if given_back(d@, j as int, pe, b) {
                        let x = choose|x: int|
                            0 <= x < j && owned_region(#[trigger] d@[x]) is Some
                                && MainMemory::in_region(
                                owned_region(d@[x])->0.addr,
                                owned_region(d@[x])->0.size as int,
                                pe,
                                b,
                            );
                        assert(0 <= x < j + 1);
                    }
                    if here {
                        assert(owned_region(d@[j as int]) is Some);
                    }
                    if given_back(d@, j as int + 1, pe, b) {
                        let x = choose|x: int|
                            0 <= x < j + 1 && owned_region(#[trigger] d@[x]) is Some
                                && MainMemory::in_region(
                                owned_region(d@[x])->0.addr,
                                owned_region(d@[x])->0.size as int,
                                pe,
                                b,
                            );
                        if x < j {
                            assert(given_back(d@, j as int, pe, b));
                        }
                    }
                }
            }
            let ghost k1 = *self;
            self.release_eps(c.id);
            proof {
                assert forall|v: int, e: int| old(self).is_ep(v, e) implies if old(self).ep(
                    v,
                    e,
                ).gate() is Some && torn(d@, j as int + 1, old(self).ep(v, e).gate()->0) {
                    #[trigger] self.ep(v, e) is Free
                } else {
                    self.ep(v, e) == old(self).ep(v, e)
                } by {
                    let g = old(self).ep(v, e).gate();
                    assert(k1.is_ep(v, e));
                    if g is Some && torn(d@, j as int + 1, g->0) {
                        if torn(d@, j as int, g->0) {
                            assert(k1.ep(v, e) is Free);
                        } else {
                            let x = choose|x: int| 0 <= x < j + 1 && (#[trigger] d@[x]).id == g->0;
                            assert(x == j);
                            assert(k1.ep(v, e) == old(self).ep(v, e));
                        }
                    } else {
                        if g is Some {
                            if c.id == g->0 {
                                assert(d@[j as int].id == g->0);
                                assert(torn(d@, j as int + 1, g->0));
                            }
                            if torn(d@, j as int, g->0) {
                                let x = choose|x: int| 0 <= x < j && (#[trigger] d@[x]).id == g->0;
                                assert(torn(d@, j as int + 1, g->0));
                            }
                        }
                        assert(k1.ep(v, e) == old(self).ep(v, e));
                    }
                }
                assert forall|v: int| 0 <= v < self.vpes@.len() implies (#[trigger] self.vpes@[v]).pe
                    == old(self).vpes@[v].pe by {
                    assert(k1.vpes@[v].pe == old(self).vpes@[v].pe);
                }
            }
            j += 1;
        }
        proof {
            assert(d@.take(n as int) =~= d@);
            assert(self.revoked(old(self), old(self).vpe_at(vpe, vpe_sel)->Ok_0, crd, own, d@));
        }
        Ok(())
    }
}

} // verus!
