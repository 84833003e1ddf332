//! The system calls that make capabilities: gates, memory windows and
//! mappings.

use vstd::prelude::*;
use crate::addr::GlobAddr;
use crate::cap::{cap_by_id, lemma_at, lemma_by_id_at, Capability, KObject};
use crate::cfg::PAGE_SIZE;
use crate::dtu::{Label, MAX_RBUF_ORDER};
use crate::errors::{Code, Error};
use crate::kernel::{
    apart,  lemma_narrowed_push, lemma_push_contains, owned_region,  within, Kernel,
    ALL_MEM};
use crate::kif::{creatable, sel_creatable, CapSel, CapType, Perm, VpeId};
use crate::mem::main::MainMemory;

verus! {

/// `obj` is an object that a capability can stand for without the memory
/// having handed out anything for it, where there are `n` VPEs.
pub open spec fn plain(obj: KObject, n: int) -> bool {
    match obj {
        KObject::MGate { addr, size, perm, owned } => !owned && addr.offset + size <= u64::MAX,
        KObject::Vpe { id } => id < n,
        KObject::RGate { slot_order, total_order } => slot_order <= total_order <= MAX_RBUF_ORDER,
        KObject::Serv { rgate, name } => name.wf(),
        _ => true,
    }
}

/// A region that `before` has handed out and that shares no byte with the
/// region that was taken from or given back to module `i` is one that
/// `after` has handed out.
pub proof fn lemma_allocated_kept(
    before: MainMemory,
    after: MainMemory,
    i: int,
    g: GlobAddr,
    size: int,
    freed: bool,
    a: GlobAddr,
    n: int,
)
    requires
        before.wf(),
        after.differs_at(&before, i, g.offset as int, size, freed),
        before.mods()[i].covers(g, size),
        before.allocated(a, n),
        n > 0,
        freed ==> a.pe != g.pe || a.offset + n <= g.offset || g.offset + size <= a.offset,
    ensures
        after.allocated(a, n),
{
    let k = choose|k: int| 0 <= k < before.mods().len() && (#[trigger] before.mods()[k]).holds(a, n);
    if k == i {
        assert forall|b: int| a.offset <= b < a.offset + n implies !after.mods()[i].map().is_free(
            b,
        ) by {
            assert(!before.mods()[i].map().is_free(b));
            assert(after.mods()[i].is_free(b) == if g.offset <= b < g.offset + size {
                freed
            } else {
                before.mods()[i].is_free(b)
            });
        }
        assert(after.mods()[i].holds(a, n));
    } else {
        assert(after.mods()[k] == before.mods()[k]);
        assert(after.mods()[k].holds(a, n));
    }
}

/// A region that was free shares no byte with a region that was handed out.
pub proof fn lemma_fresh_apart(before: MainMemory, i: int, g: GlobAddr, size: int, a: GlobAddr, n: int)
    requires
        before.wf(),
        0 <= i < before.mods().len(),
        before.mods()[i].covers(g, size),
        before.mods()[i].map().range_free(g.offset as int, size),
        before.allocated(a, n),
        n > 0,
        size > 0,
    ensures
        a.pe != g.pe || a.offset + n <= g.offset || g.offset + size <= a.offset,
{
    let k = choose|k: int| 0 <= k < before.mods().len() && (#[trigger] before.mods()[k]).holds(a, n);
    if !(a.pe != g.pe || a.offset + n <= g.offset || g.offset + size <= a.offset) {
        let b = if a.offset >= g.offset { a.offset as int } else { g.offset as int };
        assert(a.offset <= b < a.offset + n && g.offset <= b < g.offset + size);
        if k < i {
            assert(before.mods()[k].disjoint(before.mods()[i]));
        } else if i < k {
            assert(before.mods()[i].disjoint(before.mods()[k]));
        }
        assert(k == i);
        assert(before.mods()[i].map().is_free(b));
        assert(!before.mods()[k].map().is_free(b));
    }
}

impl Kernel {
    /// Installs a capability for the plain object `obj`.
    pub fn install(
        &mut self,
        vpe: VpeId,
        sel: CapSel,
        ty: CapType,
        obj: KObject,
        parent: Option<u64>,
    ) -> (r: Result<Capability, Error>)
        requires
            old(self).wf(),
            vpe < old(self).vpes@.len(),
            plain(obj, old(self).vpes@.len() as int),
            parent is Some && cap_by_id(old(self).caps.caps(), parent->0) is Some ==> within(
                obj,
                cap_by_id(old(self).caps.caps(), parent->0)->0.obj,
            ),
        ensures
            final(self).wf(),
            final(self).mem == old(self).mem,
            final(self).vpes == old(self).vpes,
            match r {
                Ok(c) => {
                    &&& old(self).caps.create_error(vpe, sel, ty, parent) is None
                    &&& c == (Capability { id: old(self).caps.next_id(), vpe, ty, sel, parent, obj })
                    &&& final(self).caps.caps() == old(self).caps.caps().push(c)
                    &&& final(self).caps.next_id() == old(self).caps.next_id() + 1
                },
                Err(e) => {
                    &&& old(self).caps.create_error(vpe, sel, ty, parent) == Some(e.code())
                    &&& *final(self) == *old(self)
                },
            },
    {
        let ghost s = self.caps.caps();
        match self.caps.create(vpe, sel, ty, obj, parent) {
            Ok(c) => {
                proof {
                    lemma_push_contains(s, c);
                    assert(owned_region(c) is None);
                    lemma_narrowed_push(s, old(self).caps.next_id(), c);
                }
                Ok(c)
            },
            Err(e) => Err(e),
        }
    }

    /// What `create_rgate` answers for the given arguments: the error, or
    /// nothing where a gate is created.
    pub open spec fn create_rgate_error(
        &self,
        vpe: VpeId,
        sel: CapSel,
        slot_order: u32,
        total_order: u32,
    ) -> Option<Code> {
        if vpe >= self.vpes@.len() || !creatable(sel) || slot_order > total_order {
            Some(Code::InvArgs)
        } else if total_order > MAX_RBUF_ORDER {
            Some(Code::NoSpace)
        } else {
            self.caps.create_error(vpe, sel, CapType::Object, None)
        }
    }

    /// `self` and `r` are what `create_rgate` with the given arguments makes of
    /// `before`.
    pub open spec fn create_rgate_outcome(&self, before: &Kernel, vpe: VpeId, sel: CapSel, slot_order: u32, total_order: u32, r: Result<(), Error>) -> bool {
        &&& self.vpes == before.vpes
        &&& self.mem == before.mem
        &&& match r {
            Ok(_) => {
                &&& before.create_rgate_error(vpe, sel, slot_order, total_order) is None
                &&& self.caps.caps() == before.caps.caps().push(
                    Capability {
                        id: before.caps.next_id(),
                        vpe,
                        ty: CapType::Object,
                        sel,
                        parent: None,
                        obj: KObject::RGate { slot_order, total_order },
                    },
                )
                &&& self.caps.next_id() == before.caps.next_id() + 1
            },
            Err(e) => {
                &&& before.create_rgate_error(vpe, sel, slot_order, total_order) == Some(
                    e.code(),
                )
                &&& *self == *before
            },
        }
    }

    /// Creates, at selector `sel` of `vpe`, a receive gate with a buffer of
    /// `2^total_order` bytes in slots of `2^slot_order` bytes. Fails with
    /// `InvArgs` where `sel` is none of the selectors a capability can be
    /// created at or a slot would be larger than the buffer, with `NoSpace`
    /// where the buffer has more than `2^MAX_RBUF_ORDER` bytes, and as the
    /// creation of a capability fails.
    pub fn create_rgate(&mut self, vpe: VpeId, sel: CapSel, slot_order: u32, total_order: u32) -> (r:
        Result<(), Error>)
        requires
            old(self).wf(),
        ensures
            final(self).wf(),
            final(self).mem == old(self).mem,
            final(self).vpes == old(self).vpes,
            final(self).create_rgate_outcome(old(self), vpe, sel, slot_order, total_order, r),
    {
        if vpe >= self.vpes.len() || !sel_creatable(sel) || slot_order > total_order {
            return Err(Error::new(Code::InvArgs));
        }
        if total_order > MAX_RBUF_ORDER {
            return Err(Error::new(Code::NoSpace));
        }
        match self.install(vpe, sel, CapType::Object, KObject::RGate { slot_order, total_order }, None) {
            Ok(_) => Ok(()),
            Err(e) => Err(e),
        }
    }

    /// What `create_sgate` answers for the given arguments: the error, or
    /// nothing where a gate is created.
    pub open spec fn create_sgate_error(&self, vpe: VpeId, sel: CapSel, rgate_sel: CapSel) -> Option<
        Code,
    > {
        if vpe >= self.vpes@.len() || !creatable(sel) {
            Some(Code::InvArgs)
        } else {
            match self.obj_at(vpe, rgate_sel) {
                None => Some(Code::NoSuchCap),
                Some(c) => match c.obj {
                    KObject::RGate { .. } => self.caps.create_error(vpe, sel, CapType::Object, None),
                    _ => Some(Code::InvArgs),
                },
            }
        }
    }

    /// `self` and `r` are what `create_sgate` with the given arguments makes of
    /// `before`.
    pub open spec fn create_sgate_outcome(&self, before: &Kernel, vpe: VpeId, sel: CapSel, rgate_sel: CapSel, label: Label, credits: u64, r: Result<(), Error>) -> bool {
        &&& self.vpes == before.vpes
        &&& self.mem == before.mem
        &&& match r {
            Ok(_) => {
                &&& before.create_sgate_error(vpe, sel, rgate_sel) is None
                &&& self.caps.caps() == before.caps.caps().push(
                    Capability {
                        id: before.caps.next_id(),
                        vpe,
                        ty: CapType::Object,
                        sel,
                        parent: None,
                        obj: KObject::SGate {
                            rgate: before.obj_at(vpe, rgate_sel)->0.id,
                            label,
                            credits,
                        },
                    },
                )
                &&& self.caps.next_id() == before.caps.next_id() + 1
            },
            Err(e) => {
                &&& before.create_sgate_error(vpe, sel, rgate_sel) == Some(e.code())
                &&& *self == *before
            },
        }
    }

    /// Creates, at selector `sel` of `vpe`, a send gate to the receive gate
    /// that `vpe` holds at `rgate_sel`, with the given label and a budget
    /// of `credits` messages (zero: no limit). Fails with `InvArgs` where
    /// `sel` is none of the selectors a capability can be created at (those
    /// from `FIRST_FREE_SEL` on), with `NoSuchCap` where `rgate_sel` is empty,
    /// with `InvArgs` where it holds no receive gate, and as the creation of
    /// a capability fails.
    pub fn create_sgate(
        &mut self,
        vpe: VpeId,
        sel: CapSel,
        rgate_sel: CapSel,
        label: Label,
        credits: u64,
    ) -> (r: Result<(), Error>)
        requires
            old(self).wf(),
        ensures
            final(self).wf(),
            final(self).mem == old(self).mem,
            final(self).vpes == old(self).vpes,
            final(self).create_sgate_outcome(old(self), vpe, sel, rgate_sel, label, credits, r),
    {
        if vpe >= self.vpes.len() || !sel_creatable(sel) {
            return Err(Error::new(Code::InvArgs));
        }
        let rgate = match self.caps.get(vpe, CapType::Object, rgate_sel) {
            None => {
                return Err(Error::new(Code::NoSuchCap));
            },
            Some(c) => match c.obj {
                KObject::RGate { .. } => c.id,
                _ => {
                    return Err(Error::new(Code::InvArgs));
                },
            },
        };
        match self.install(vpe, sel, CapType::Object, KObject::SGate { rgate, label, credits }, None) {
            Ok(_) => Ok(()),
            Err(e) => Err(e),
        }
    }

    /// What `derive_mem` answers for the given arguments: the error, or
    /// nothing where the window is derived.
    pub open spec fn derive_mem_error(
        &self,
        vpe: VpeId,
        dst_sel: CapSel,
        src_sel: CapSel,
        offset: usize,
        size: usize,
        perm: Perm,
    ) -> Option<Code> {
        if vpe >= self.vpes@.len() || !creatable(dst_sel) {
            Some(Code::InvArgs)
        } else {
            match self.obj_at(vpe, src_sel) {
                None => Some(Code::NoSuchCap),
                Some(c) => match c.obj {
                    KObject::MGate { addr, size: have, perm: may, owned } => if !perm.subset_of(may)
                        || offset + size > have {
                        Some(Code::InvArgs)
                    } else {
                        self.caps.create_error(vpe, dst_sel, CapType::Object, Some(c.id))
                    },
                    _ => Some(Code::InvArgs),
                },
            }
        }
    }

    /// `self` and `r` are what `derive_mem` with the given arguments makes of
    /// `before`.
    pub open spec fn derive_mem_outcome(&self, before: &Kernel, vpe: VpeId, dst_sel: CapSel, src_sel: CapSel, offset: usize, size: usize, perm: Perm, r: Result<(), Error>) -> bool {
        &&& self.vpes == before.vpes
        &&& self.mem == before.mem
        &&& match r {
            Ok(_) => {
                &&& before.derive_mem_error(vpe, dst_sel, src_sel, offset, size, perm) is None
                &&& self.caps.caps() == before.caps.caps().push(
                    Capability {
                        id: before.caps.next_id(),
                        vpe,
                        ty: CapType::Object,
                        sel: dst_sel,
                        parent: Some(before.obj_at(vpe, src_sel)->0.id),
                        obj: match before.obj_at(vpe, src_sel)->0.obj {
                            KObject::MGate { addr, size: have, perm: may, owned } => KObject::MGate {
                                addr: GlobAddr {
                                    pe: addr.pe,
                                    offset: (addr.offset + offset) as u64,
                                },
                                size,
                                perm,
                                owned: false,
                            },
                            o => o,
                        },
                    },
                )
                &&& self.caps.next_id() == before.caps.next_id() + 1
            },
            Err(e) => {
                &&& before.derive_mem_error(vpe, dst_sel, src_sel, offset, size, perm) == Some(
                    e.code(),
                )
                &&& *self == *before
            },
        }
    }

    /// Derives, at selector `dst_sel` of `vpe`, a memory capability for the
    /// `size` bytes from `offset` on of the window that `vpe` holds at
    /// `src_sel`, with the permissions `perm`. Fails with `InvArgs` where
    /// `dst_sel` is none of the selectors a capability can be created at, with
    /// `NoSuchCap` where `src_sel` is empty,
    /// with `InvArgs` where it holds no memory capability, where `perm`
    /// allows what the source does not, or where the bytes do not lie in the
    /// window of the source, and as the creation of a capability fails.
    pub fn derive_mem(
        &mut self,
        vpe: VpeId,
        dst_sel: CapSel,
        src_sel: CapSel,
        offset: usize,
        size: usize,
        perm: Perm,
    ) -> (r: Result<(), Error>)
        requires
            old(self).wf(),
        ensures
            final(self).wf(),
            final(self).mem == old(self).mem,
            final(self).vpes == old(self).vpes,
            final(self).derive_mem_outcome(old(self), vpe, dst_sel, src_sel, offset, size, perm, r),
            old(self).obj_at(vpe, src_sel) is Some && old(self).obj_at(vpe, src_sel)->0.obj is MGate && (
            !perm.subset_of(old(self).obj_at(vpe, src_sel)->0.obj->MGate_perm) || offset + size > old(
                self,
            ).obj_at(vpe, src_sel)->0.obj->MGate_size) ==> r is Err && r->Err_0.code()
                == Code::InvArgs,
    {
        if vpe >= self.vpes.len() || !sel_creatable(dst_sel) {
            return Err(Error::new(Code::InvArgs));
        }
        let src = match self.caps.get(vpe, CapType::Object, src_sel) {
            None => {
                return Err(Error::new(Code::NoSuchCap));
            },
            Some(c) => c,
        };
        proof {
            lemma_at(self.caps.caps(), vpe, CapType::Object, src_sel);
        }
        match src.obj {
            KObject::MGate { addr, size: have, perm: may, owned } => {
                if !perm.is_subset_of(may) || offset > have || size > have - offset {
                    return Err(Error::new(Code::InvArgs));
                }
                let obj = KObject::MGate {
                    addr: addr.offset_by(offset as u64),
                    size,
                    perm,
                    owned: false,
                };
                proof {
                    let i = choose|i: int|
                        0 <= i < self.caps.caps().len() && self.caps.caps()[i] == src;
                    lemma_by_id_at(self.caps.caps(), i);
                }
                match self.install(vpe, dst_sel, CapType::Object, obj, Some(src.id)) {
                    Ok(_) => Ok(()),
                    Err(e) => Err(e),
                }
            },
            _ => Err(Error::new(Code::InvArgs)),
        }
    }

    /// The VPE that the capability of `vpe` at `vpe_sel` stands for.
    pub open spec fn vpe_at(&self, vpe: VpeId, vpe_sel: CapSel) -> Result<VpeId, Code> {
        match self.obj_at(vpe, vpe_sel) {
            None => Err(Code::NoSuchCap),
            Some(c) => match c.obj {
                KObject::Vpe { id } => Ok(id),
                _ => Err(Code::InvArgs),
            },
        }
    }

    /// The VPE that the capability of `vpe` at `vpe_sel` stands for. Fails
    /// with `NoSuchCap` where the selector is empty and with `InvArgs` where
    /// it holds no capability for a VPE.
    pub fn vpe_of(&self, vpe: VpeId, vpe_sel: CapSel) -> (r: Result<VpeId, Error>)
        requires
            self.wf(),
        ensures
            match r {
                Ok(id) => self.vpe_at(vpe, vpe_sel) == Ok::<VpeId, Code>(id) && id < self.vpes@.len(),
                Err(e) => self.vpe_at(vpe, vpe_sel) == Err::<VpeId, Code>(e.code()),
            },
    {
        proof {
            lemma_at(self.caps.caps(), vpe, CapType::Object, vpe_sel);
        }
        match self.caps.get(vpe, CapType::Object, vpe_sel) {
            None => Err(Error::new(Code::NoSuchCap)),
            Some(c) => match c.obj {
                KObject::Vpe { id } => Ok(id),
                _ => Err(Error::new(Code::InvArgs)),
            },
        }
    }

    /// What `create_mgate` answers for the given arguments: the error, or
    /// nothing where a gate is created.
    pub open spec fn create_mgate_error(&self, vpe: VpeId, sel: CapSel, vpe_sel: CapSel, size: usize) -> Option<
        Code,
    > {
        if vpe >= self.vpes@.len() || !creatable(sel) || size == 0 {
            Some(Code::InvArgs)
        } else if vpe_sel != ALL_MEM && self.vpe_at(vpe, vpe_sel) is Err {
            Some(self.vpe_at(vpe, vpe_sel)->Err_0)
        } else if self.caps.create_error(vpe, sel, CapType::Object, None) is Some {
            self.caps.create_error(vpe, sel, CapType::Object, None)
        } else if vpe_sel == ALL_MEM && self.mem.no_fit(size as int, PAGE_SIZE as int) {
            Some(Code::OutOfMem)
        } else {
            None
        }
    }

    /// `self` and `r` are what `create_mgate` with the given arguments makes of
    /// `before`.
    pub open spec fn create_mgate_outcome(&self, before: &Kernel, vpe: VpeId, sel: CapSel, vpe_sel: CapSel, size: usize, perm: Perm, r: Result<(), Error>) -> bool {
        &&& self.vpes == before.vpes
        &&& match r {
            Ok(_) => {
                &&& before.create_mgate_error(vpe, sel, vpe_sel, size) is None
                &&& self.caps.next_id() == before.caps.next_id() + 1
                &&& exists|addr: GlobAddr|
                    #[trigger] self.caps.caps() == before.caps.caps().push(
                        Capability {
                            id: before.caps.next_id(),
                            vpe,
                            ty: CapType::Object,
                            sel,
                            parent: None,
                            obj: KObject::MGate { addr, size, perm, owned: vpe_sel == ALL_MEM },
                        },
                    ) && if vpe_sel == ALL_MEM {
                        exists|i: int|
                            self.mem.took_from(
                                &before.mem,
                                i,
                                addr,
                                size as int,
                                PAGE_SIZE as int,
                            )
                    } else {
                        &&& self.mem == before.mem
                        &&& addr.pe == before.vpes@[before.vpe_at(vpe, vpe_sel)->Ok_0 as int].pe
                        &&& addr.offset == 0
                    }
                &&& vpe_sel == ALL_MEM ==> self.mem.available_spec() == before.mem.available_spec() - size
            },
            Err(e) => {
                &&& before.create_mgate_error(vpe, sel, vpe_sel, size) == Some(e.code())
                &&& *self == *before
            },
        }
    }

    /// Creates, at selector `sel` of `vpe`, a memory gate of `size` bytes
    /// with the permissions `perm`. With `ALL_MEM` for `vpe_sel` the bytes
    /// are taken from the main memory, at a multiple of the page size, and
    /// the capability answers for them; else `vpe_sel` names a VPE, and this
    /// gate is a window on the first `size` bytes of the memory of its
    /// processing element. Fails with `InvArgs` where `sel` is none of the
    /// selectors a capability can be created at or
    /// `size` is zero, as the look-up of the VPE fails, as the creation of a
    /// capability fails, and with `OutOfMem` where the main memory has no
    /// such region.
    pub fn create_mgate(&mut self, vpe: VpeId, sel: CapSel, vpe_sel: CapSel, size: usize, perm: Perm) -> (r:
        Result<(), Error>)
        requires
            old(self).wf(),
        ensures
            final(self).wf(),
            final(self).vpes == old(self).vpes,
            final(self).create_mgate_outcome(old(self), vpe, sel, vpe_sel, size, perm, r),
    {
        if vpe >= self.vpes.len() || !sel_creatable(sel) || size == 0 {
            return Err(Error::new(Code::InvArgs));
        }
        if vpe_sel != ALL_MEM {
            let id = match self.vpe_of(vpe, vpe_sel) {
                Ok(id) => id,
                Err(e) => {
                    return Err(e);
                },
            };
            let addr = GlobAddr::new_with(self.vpes[id].pe, 0);
            let ghost s = self.caps.caps();
            return match self.install(
                vpe,
                sel,
                CapType::Object,
                KObject::MGate { addr, size, perm, owned: false },
                None,
            ) {
                Ok(c) => {
                    proof {
                        assert(self.caps.caps() == s.push(
                            Capability {
                                id: old(self).caps.next_id(),
                                vpe,
                                ty: CapType::Object,
                                sel,
                                parent: None,
                                obj: KObject::MGate { addr, size, perm, owned: vpe_sel == ALL_MEM },
                            },
                        ));
                    }
                    Ok(())
                },
                Err(e) => Err(e),
            };
        }
        if let Some(code) = self.caps.check_create(vpe, sel, CapType::Object, None) {
            return Err(Error::new(code));
        }
        let ghost mem0 = self.mem;
        let ghost s = self.caps.caps();
        let mut alloc = match self.mem.allocate(size, PAGE_SIZE) {
            Ok(a) => a,
            Err(e) => {
                return Err(e);
            },
        };
        let addr = alloc.global();
        alloc.claim();
        proof {
            let i = choose|i: int| self.mem.took_from(&mem0, i, addr, size as int, PAGE_SIZE as int);
            assert(!mem0.no_fit(size as int, PAGE_SIZE as int)) by {
                assert(mem0.mods()[i].fits(addr.offset as int, size as int, PAGE_SIZE as int));
            }
            mem0.mods()[i].map().lemma_bounds();
        }
        match self.caps.create(
            vpe,
            sel,
            CapType::Object,
            KObject::MGate { addr, size, perm, owned: true },
            None,
        ) {
            Ok(c) => {
                proof {
                    let i = choose|i: int|
                        self.mem.took_from(&mem0, i, addr, size as int, PAGE_SIZE as int);
                    lemma_push_contains(s, c);
                    lemma_narrowed_push(s, old(self).caps.next_id(), c);
                    let t = self.caps.caps();
                    assert forall|x: Capability| #[trigger]
                        t.contains(x) && owned_region(x) is Some implies {
                        let r = owned_region(x)->0;
                        r.size > 0 && self.mem.allocated(r.addr, r.size as int)
                    } by {
                        if x != c {
                            let r = owned_region(x)->0;
                            lemma_allocated_kept(
                                mem0,
                                self.mem,
                                i,
                                addr,
                                size as int,
                                false,
                                r.addr,
                                r.size as int,
                            );
                        }
                    }
                    assert forall|c1: Capability, c2: Capability| #[trigger]
                        t.contains(c1) && #[trigger] t.contains(c2) && c1.id != c2.id && owned_region(
                            c1,
                        ) is Some && owned_region(c2) is Some implies apart(
                        owned_region(c1)->0,
                        owned_region(c2)->0,
                    ) by {
                        if c1 == c && c2 != c {
                            let r = owned_region(c2)->0;
                            lemma_fresh_apart(mem0, i, addr, size as int, r.addr, r.size as int);
                        } else if c2 == c && c1 != c {
                            let r = owned_region(c1)->0;
                            lemma_fresh_apart(mem0, i, addr, size as int, r.addr, r.size as int);
                        }
                    }
                }
                Ok(())
            },
            Err(e) => Err(e),
        }
    }
}

} // verus!
