//! The kernel: the capability table, the main memory and the endpoints of
//! all VPEs in one context object, and the system calls on it.

use vstd::prelude::*;
use crate::addr::{GlobAddr, PEId};
use crate::cap::{
    cap_by_id, caps_wf, lemma_at, lemma_at_push, lemma_by_id, lemma_by_id_append, lemma_by_id_push,
    lemma_by_id_same_objs, lemma_by_id_sub, CapTable, Capability, KObject,
};
use crate::cfg::{EP_COUNT, MEM_CAP_END, PAGE_SIZE};
use crate::dtu::{Endpoint, MAX_RBUF_ORDER};
use crate::errors::{Code, Error};
use crate::kif::{creatable, sel_creatable, CapSel, CapType, Perm, VpeId};
use crate::mem::main::MainMemory;

verus! {

/// The selector a VPE holds its own capability at.
pub const VPE_SEL: CapSel = 0;

/// The selector a VPE holds the capability for its own memory at.
pub const MEM_SEL: CapSel = 1;

/// In place of the selector of a VPE: no VPE, but the main memory. All bits
/// are set.
pub const ALL_MEM: CapSel = 0xFFFF_FFFF;

/// The capability with identity `id` that the VPE `vpe` is created with for
/// itself.
pub open spec fn vpe_cap(id: u64, vpe: VpeId) -> Capability {
    Capability {
        id,
        vpe,
        ty: CapType::Object,
        sel: VPE_SEL,
        parent: None,
        obj: KObject::Vpe { id: vpe },
    }
}

/// The capability with identity `id` that the VPE `vpe` on the processing
/// element `pe` is created with for its memory: a window on the first
/// `MEM_CAP_END` bytes of the memory of `pe`, with all permissions.
pub open spec fn mem_cap(id: u64, vpe: VpeId, pe: PEId) -> Capability {
    Capability {
        id,
        vpe,
        ty: CapType::Object,
        sel: MEM_SEL,
        parent: None,
        obj: KObject::MGate {
            addr: GlobAddr { pe, offset: 0 },
            size: MEM_CAP_END,
            perm: Perm { r: true, w: true, x: true },
            owned: false,
        },
    }
}

/// What the kernel keeps of one VPE.
#[derive(Debug)]
pub struct Vpe {
    /// The processing element the VPE runs on.
    pub pe: PEId,
    /// The endpoints of the VPE.
    pub eps: Vec<Endpoint>,
}

/// A region of memory: `size` bytes at `addr`.
pub struct Region {
    pub addr: GlobAddr,
    pub size: usize,
}

/// The memory region that `c` answers for, if it answers for one.
pub open spec fn owned_region(c: Capability) -> Option<Region> {
    match c.obj {
        KObject::MGate { addr, size, perm, owned } => if owned {
            Some(Region { addr, size })
        } else {
            None
        },
        _ => None,
    }
}

/// The two regions share no byte.
pub open spec fn apart(a: Region, b: Region) -> bool {
    a.addr.pe != b.addr.pe || a.addr.offset + a.size <= b.addr.offset || b.addr.offset + b.size
        <= a.addr.offset
}

/// The window of every memory capability ends below `2^64`; every region
/// that a capability answers for is a non-empty region that `mem` has
/// handed out; and no two such regions share a byte.
pub open spec fn backed(caps: Seq<Capability>, mem: MainMemory) -> bool {
    &&& forall|c: Capability|
        #[trigger] caps.contains(c) ==> match c.obj {
            KObject::MGate { addr, size, perm, owned } => addr.offset + size <= u64::MAX,
            _ => true,
        }
    &&& forall|c: Capability|
        #[trigger] caps.contains(c) && owned_region(c) is Some ==> {
            let r = owned_region(c)->0;
            r.size > 0 && mem.allocated(r.addr, r.size as int)
        }
    &&& forall|c1: Capability, c2: Capability|
        #[trigger] caps.contains(c1) && #[trigger] caps.contains(c2) && c1.id != c2.id
            && owned_region(c1) is Some && owned_region(c2) is Some ==> apart(
            owned_region(c1)->0,
            owned_region(c2)->0,
        )
}

/// Every capability belongs to one of the first `n` VPEs, every capability
/// for a VPE names one of them, the buffer of every receive gate has at least
/// one slot and no more than `2^MAX_RBUF_ORDER` bytes, and the name of
/// every service is well-formed.
pub open spec fn vpes_known(caps: Seq<Capability>, n: int) -> bool {
    forall|c: Capability|
        #[trigger] caps.contains(c) ==> c.vpe < n && match c.obj {
            KObject::Vpe { id } => id < n,
            KObject::RGate { slot_order, total_order } => slot_order <= total_order
                <= MAX_RBUF_ORDER,
            KObject::Serv { rgate, name } => name.wf(),
            _ => true,
        }
}

/// The object `child` allows no more than the object `parent`, which it was
/// derived from: a memory window lies in the window with no permission that
/// the window does not have, and the first page of a run of mapped pages
/// lies in the window with no permission that the window does not have.
pub open spec fn within(child: KObject, parent: KObject) -> bool {
    match parent {
        KObject::MGate { addr: pa, size: ps, perm: pp, owned: po } => match child {
            KObject::MGate { addr, size, perm, owned } => addr.pe == pa.pe && pa.offset
                <= addr.offset && addr.offset + size <= pa.offset + ps && perm.subset_of(pp),
            KObject::Mapped { addr, first, perm } => addr.pe == pa.pe && pa.offset <= addr.offset
                && addr.offset + PAGE_SIZE <= pa.offset + ps && perm.subset_of(pp),
            _ => true,
        },
        _ => true,
    }
}

/// No capability allows more than the capability it was derived from.
pub open spec fn narrowed(caps: Seq<Capability>) -> bool {
    forall|c: Capability|
        #[trigger] caps.contains(c) && c.parent is Some ==> within(
            c.obj,
            cap_by_id(caps, c.parent->0)->0.obj,
        )
}

/// A table in which nothing allows more than what it was derived from stays
/// such a table when a capability with a new identity is put behind it that
/// allows no more than what it is derived from.
pub proof fn lemma_narrowed_push(s: Seq<Capability>, next: u64, c: Capability)
    requires
        caps_wf(s, next),
        narrowed(s),
        c.id >= next,
        c.parent is Some ==> cap_by_id(s, c.parent->0) is Some && within(
            c.obj,
            cap_by_id(s, c.parent->0)->0.obj,
        ),
    ensures
        narrowed(s.push(c)),
{
    let t = s.push(c);
    lemma_push_contains(s, c);
    assert forall|x: Capability| #[trigger] t.contains(x) && x.parent is Some implies within(
        x.obj,
        cap_by_id(t, x.parent->0)->0.obj,
    ) by {
        let p = x.parent->0;
        lemma_by_id_push(s, c, p);
        if x == c {
            lemma_by_id(s, p);
            let cp = cap_by_id(s, p)->0;
            let j = choose|j: int| 0 <= j < s.len() && s[j] == cp;
            assert(s[j].id < next);
        } else {
            let i = choose|i: int| 0 <= i < s.len() && s[i] == x;
            assert(s[i].parent is Some);
            assert(s[i].id < next);
        }
    }
}

/// As `lemma_narrowed_push`, for several capabilities.
pub proof fn lemma_narrowed_append(s: Seq<Capability>, next: u64, f: Seq<Capability>)
    requires
        caps_wf(s, next),
        narrowed(s),
        forall|k: int| 0 <= k < f.len() ==> (#[trigger] f[k]).id >= next,
        forall|k: int|
            0 <= k < f.len() && (#[trigger] f[k]).parent is Some ==> cap_by_id(s, f[k].parent->0) is Some
                && within(f[k].obj, cap_by_id(s, f[k].parent->0)->0.obj),
    ensures
        narrowed(s + f),
{
    let t = s + f;
    assert forall|x: Capability| #[trigger] t.contains(x) && x.parent is Some implies within(
        x.obj,
        cap_by_id(t, x.parent->0)->0.obj,
    ) by {
        let p = x.parent->0;
        let i = choose|i: int| 0 <= i < t.len() && t[i] == x;
        if i < s.len() {
            assert(s[i] == x);
            assert(s[i].parent is Some);
            assert(s[i].id < next);
            assert(s.contains(x));
        } else {
            assert(f[i - s.len()] == x);
            lemma_by_id(s, p);
            let cp = cap_by_id(s, p)->0;
            let j = choose|j: int| 0 <= j < s.len() && s[j] == cp;
            assert(s[j].id < next);
        }
        assert(p < next);
        lemma_by_id_append(s, f, p);
    }
}

/// What is left of a table in which nothing allows more than what it was
/// derived from is such a table, if it is well-formed.
pub proof fn lemma_narrowed_sub(s: Seq<Capability>, next: u64, t: Seq<Capability>)
    requires
        caps_wf(s, next),
        caps_wf(t, next),
        narrowed(s),
        forall|c: Capability| t.contains(c) ==> s.contains(c),
    ensures
        narrowed(t),
{
    assert forall|x: Capability| #[trigger] t.contains(x) && x.parent is Some implies within(
        x.obj,
        cap_by_id(t, x.parent->0)->0.obj,
    ) by {
        let i = choose|i: int| 0 <= i < t.len() && t[i] == x;
        assert(t[i].parent is Some);
        assert(s.contains(x));
        lemma_by_id_sub(s, next, t, x.parent->0);
    }
}

/// A table with the identities, parents and objects of a table in which
/// nothing allows more than what it was derived from is such a table.
pub proof fn lemma_narrowed_same(s: Seq<Capability>, next: u64, t: Seq<Capability>)
    requires
        caps_wf(s, next),
        narrowed(s),
        s.len() == t.len(),
        forall|i: int|
            0 <= i < s.len() ==> (#[trigger] s[i]).id == (#[trigger] t[i]).id && s[i].obj == t[i].obj
                && s[i].parent == t[i].parent,
    ensures
        narrowed(t),
{
    assert forall|x: Capability| #[trigger] t.contains(x) && x.parent is Some implies within(
        x.obj,
        cap_by_id(t, x.parent->0)->0.obj,
    ) by {
        let i = choose|i: int| 0 <= i < t.len() && t[i] == x;
        assert(s[i].id == t[i].id && s[i].obj == t[i].obj && s[i].parent == t[i].parent);
        assert(s.contains(s[i]));
        assert(s[i].parent is Some);
        lemma_by_id_same_objs(s, t, x.parent->0);
    }
}

/// No gate is bound to two endpoints.
pub open spec fn bound_once(vpes: Seq<Vpe>) -> bool {
    forall|v: int, e: int, v2: int, e2: int|
        0 <= v < vpes.len() && 0 <= e < EP_COUNT && 0 <= v2 < vpes.len() && 0 <= e2 < EP_COUNT
            && (v != v2 || e != e2) && (#[trigger] vpes[v].eps@[e]).gate() is Some ==> vpes[v].eps@[e].gate()
            != (#[trigger] vpes[v2].eps@[e2]).gate()
}

/// A table with one more capability behind it holds that capability and
/// what the table holds.
pub proof fn lemma_push_contains(s: Seq<Capability>, c: Capability)
    ensures
        forall|x: Capability| #[trigger] s.push(c).contains(x) <==> s.contains(x) || x == c,
{
    let t = s.push(c);
    assert forall|x: Capability| #[trigger] t.contains(x) <==> s.contains(x) || x == c by {
        if t.contains(x) {
            let i = choose|i: int| 0 <= i < t.len() && t[i] == x;
            if i < s.len() {
                assert(s[i] == x);
            }
        }
        if s.contains(x) {
            let i = choose|i: int| 0 <= i < s.len() && s[i] == x;
            assert(t[i] == x);
        }
        assert(t[s.len() as int] == c);
    }
}

/// The context object of the kernel.
pub struct Kernel {
    /// The main memory.
    pub mem: MainMemory,
    /// The capabilities of all VPEs.
    pub caps: CapTable,
    /// The VPEs, by their number.
    pub vpes: Vec<Vpe>,
}

impl Kernel {
    /// The invariant of the kernel's state.
    pub open spec fn wf(&self) -> bool {
        &&& self.mem.wf()
        &&& self.caps.wf()
        &&& backed(self.caps.caps(), self.mem)
        &&& narrowed(self.caps.caps())
        &&& vpes_known(self.caps.caps(), self.vpes@.len() as int)
        &&& forall|v: int|
            0 <= v < self.vpes@.len() ==> (#[trigger] self.vpes@[v]).eps@.len() == EP_COUNT
        &&& forall|v: int, e: int|
            0 <= v < self.vpes@.len() && 0 <= e < EP_COUNT ==> (#[trigger] self.vpes@[v].eps@[e]).wf()
        &&& bound_once(self.vpes@)
    }

    /// The capability that `vpe` holds at the object selector `sel`.
    pub open spec fn obj_at(&self, vpe: VpeId, sel: CapSel) -> Option<Capability> {
        self.caps.at(vpe, CapType::Object, sel)
    }

    /// Endpoint `ep` of `vpe`.
    pub open spec fn ep(&self, vpe: int, ep: int) -> Endpoint {
        self.vpes@[vpe].eps@[ep]
    }

    /// A kernel over the main memory `mem`, without VPEs and capabilities.
    pub fn new(mem: MainMemory) -> (k: Kernel)
        requires
            mem.wf(),
        ensures
            k.wf(),
            k.mem == mem,
            k.caps.caps() == Seq::<Capability>::empty(),
            k.caps.next_id() == 0,
            k.vpes@.len() == 0,
    {
        Kernel { mem, caps: CapTable::new(), vpes: Vec::new() }
    }

    /// The system call that does nothing.
    pub fn noop(&self) -> (r: Result<(), Error>)
        ensures
            r is Ok,
    {
        Ok(())
    }

    /// A new VPE on the processing element `pe`, with all endpoints free,
    /// its own capability at selector 0 and the capability for its memory at
    /// selector 1. Returns its number. Fails with `OutOfMem`, and changes
    /// nothing, where the identities of capabilities are used up.
    pub fn add_vpe(&mut self, pe: PEId) -> (r: Result<VpeId, Error>)
        requires
            old(self).wf(),
        ensures
            final(self).wf(),
            final(self).mem == old(self).mem,
            match r {
                Ok(id) => {
                    &&& old(self).caps.next_id() + 2 <= u64::MAX
                    &&& id == old(self).vpes@.len()
                    &&& final(self).vpes@.len() == id + 1
                    &&& forall|v: int| 0 <= v < id ==> #[trigger] final(self).vpes@[v] == old(self).vpes@[v]
                    &&& final(self).vpes@[id as int].pe == pe
                    &&& forall|e: int|
                        0 <= e < EP_COUNT ==> #[trigger] final(self).ep(id as int, e) is Free
                    &&& final(self).caps.next_id() == old(self).caps.next_id() + 2
                    &&& final(self).caps.caps() == old(self).caps.caps().push(
                        vpe_cap(old(self).caps.next_id(), id),
                    ).push(mem_cap((old(self).caps.next_id() + 1) as u64, id, pe))
                },
                Err(e) => {
                    &&& old(self).caps.next_id() + 2 > u64::MAX
                    &&& e.code() == Code::OutOfMem
                    &&& *final(self) == *old(self)
                },
            },
    {
        let id = self.vpes.len();
        if self.caps.next_free_id() > u64::MAX - 2 {
            return Err(Error::new(Code::OutOfMem));
        }
        let mut eps: Vec<Endpoint> = Vec::new();
        let mut e: usize = 0;
        while e < EP_COUNT
            invariant
                0 <= e <= EP_COUNT,
                eps@.len() == e,
                forall|x: int| 0 <= x < e ==> #[trigger] eps@[x] is Free,
            decreases EP_COUNT - e,
        {
            eps.push(Endpoint::Free);
            e += 1;
        }
        let ghost s = self.caps.caps();
        let ghost next = self.caps.next_id();
        proof {
            lemma_at(s, id, CapType::Object, VPE_SEL);
            lemma_at(s, id, CapType::Object, MEM_SEL);
        }
        let own = match self.caps.create(id, VPE_SEL, CapType::Object, KObject::Vpe { id }, None) {
            Ok(c) => c,
            Err(e) => {
                proof {
                    assert(false);
                }
                return Err(e);
            },
        };
        let ghost s1 = self.caps.caps();
        proof {
            lemma_at_push(s, own, id, CapType::Object, MEM_SEL);
        }
        let window = KObject::MGate {
            addr: GlobAddr::new_with(pe, 0),
            size: MEM_CAP_END,
            perm: Perm::rwx(),
            owned: false,
        };
        match self.caps.create(id, MEM_SEL, CapType::Object, window, None) {
            Ok(c) => {
                self.vpes.push(Vpe { pe, eps });
                proof {
                    lemma_push_contains(s, own);
                    lemma_push_contains(s1, c);
                    lemma_narrowed_push(s, next, own);
                    lemma_narrowed_push(s1, (next + 1) as u64, c);
                    assert(owned_region(own) is None);
                    assert(owned_region(c) is None);
                }
                Ok(id)
            },
            Err(e) => {
                proof {
                    assert(false);
                }
                Err(e)
            },
        }
    }

    /// What `create_vpe` answers for the given arguments: the error, or
    /// nothing where the VPE is created.
    pub open spec fn create_vpe_error(&self, vpe: VpeId, sel: CapSel) -> Option<Code> {
        if vpe >= self.vpes@.len() || !creatable(sel) {
            Some(Code::InvArgs)
        } else if self.caps.create_error(vpe, sel, CapType::Object, None) is Some {
            self.caps.create_error(vpe, sel, CapType::Object, None)
        } else if self.caps.next_id() + 3 > u64::MAX {
            Some(Code::OutOfMem)
        } else {
            None
        }
    }

    /// Creates a VPE on the processing element `pe` as `add_vpe` does, and
    /// gives `vpe`, at its selector `sel`, a capability for the new VPE that
    /// is derived from the one the new VPE holds for itself. Returns the
    /// number of the new VPE. Fails with `InvArgs` where there is no VPE
    /// `vpe` or `sel` is no selector a capability can be created at, as the
    /// creation of a capability at `sel` fails, and with `OutOfMem` where the
    /// identities are used up; the kernel then stays as it is.
    pub fn create_vpe(&mut self, vpe: VpeId, sel: CapSel, pe: PEId) -> (r: Result<VpeId, Error>)
        requires
            old(self).wf(),
        ensures
            final(self).wf(),
            final(self).mem == old(self).mem,
            match r {
                Ok(id) => {
                    &&& old(self).create_vpe_error(vpe, sel) is None
                    &&& id == old(self).vpes@.len()
                    &&& final(self).vpes@.len() == id + 1
                    &&& forall|v: int| 0 <= v < id ==> #[trigger] final(self).vpes@[v] == old(self).vpes@[v]
                    &&& final(self).vpes@[id as int].pe == pe
                    &&& forall|e: int|
                        0 <= e < EP_COUNT ==> #[trigger] final(self).ep(id as int, e) is Free
                    &&& final(self).caps.next_id() == old(self).caps.next_id() + 3
                    &&& final(self).caps.caps() == old(self).caps.caps().push(
                        vpe_cap(old(self).caps.next_id(), id),
                    ).push(mem_cap((old(self).caps.next_id() + 1) as u64, id, pe)).push(
                        Capability {
                            id: (old(self).caps.next_id() + 2) as u64,
                            vpe,
                            ty: CapType::Object,
                            sel,
                            parent: Some(old(self).caps.next_id()),
                            obj: KObject::Vpe { id },
                        },
                    )
                },
                Err(e) => {
                    &&& old(self).create_vpe_error(vpe, sel) == Some(e.code())
                    &&& *final(self) == *old(self)
                },
            },
    {
        if vpe >= self.vpes.len() || !sel_creatable(sel) {
            return Err(Error::new(Code::InvArgs));
        }
        if let Some(code) = self.caps.check_create(vpe, sel, CapType::Object, None) {
            return Err(Error::new(code));
        }
        if self.caps.next_free_id() > u64::MAX - 3 {
            return Err(Error::new(Code::OutOfMem));
        }
        let ghost s = self.caps.caps();
        let ghost next = self.caps.next_id();
        let id = match self.add_vpe(pe) {
            Ok(id) => id,
            Err(e) => {
                return Err(e);
            },
        };
        let ghost s2 = self.caps.caps();
        let ghost mid = *self;
        let root = self.caps.next_free_id() - 2;
        proof {
            let own = vpe_cap(next, id);
            let window = mem_cap((next + 1) as u64, id, pe);
            lemma_at_push(s, own, vpe, CapType::Object, sel);
            lemma_at_push(s.push(own), window, vpe, CapType::Object, sel);
            lemma_by_id_push(s, own, root);
            lemma_by_id_push(s.push(own), window, root);
        }
        match self.caps.create(vpe, sel, CapType::Object, KObject::Vpe { id }, Some(root)) {
            Ok(c) => {
                proof {
                    lemma_push_contains(s2, c);
                    assert(owned_region(c) is None);
                    lemma_narrowed_push(s2, mid.caps.next_id(), c);
                    assert forall|e: int| 0 <= e < EP_COUNT implies #[trigger] self.ep(
                        id as int,
                        e,
                    ) is Free by {
                        assert(mid.ep(id as int, e) is Free);
                    }
                }
                Ok(id)
            },
            Err(e) => {
                proof {
                    assert(false);
                }
                Err(e)
            },
        }
    }
}

} // verus!
