//! The kernel interface: selectors, capability ranges and permissions.

use vstd::prelude::*;
use vstd::string::StringSliceAdditionalSpecFns;

verus! {

/// A selector: the index of a capability in the table of its VPE.
pub type CapSel = u32;

/// The number of a VPE.
pub type VpeId = usize;

/// The selector that stands for "none".
pub const INVALID_SEL: CapSel = 0xFFFF;

/// The first selector above those every VPE is created with.
pub const FIRST_FREE_SEL: CapSel = 2;

/// One past the last page a mapping capability can stand for.
pub const MAP_SEL_END: CapSel = 0x3FC00;

/// The two capability spaces of a VPE.
#[derive(Clone, Copy, Debug, PartialEq, Eq, Structural)]
pub enum CapType {
    /// Gates, VPEs, services and sessions.
    Object,
    /// Mappings of pages; the selector is the page number.
    Mapping,
}

/// One past the last selector of the space `ty`.
pub open spec fn sel_end(ty: CapType) -> int {
    match ty {
        CapType::Object => INVALID_SEL as int,
        CapType::Mapping => MAP_SEL_END as int,
    }
}

/// A run of `count` selectors of one space from `start` on.
#[derive(Clone, Copy, Debug, PartialEq, Eq, Structural)]
pub struct CapRngDesc {
    pub ty: CapType,
    pub start: CapSel,
    pub count: CapSel,
}

impl CapRngDesc {
    /// The run of `count` selectors of space `ty` from `start` on.
    pub fn new(ty: CapType, start: CapSel, count: CapSel) -> (crd: CapRngDesc)
        ensures
            crd.ty == ty,
            crd.start == start,
            crd.count == count,
    {
        CapRngDesc { ty, start, count }
    }

    /// The space of the run.
    pub fn cap_type(&self) -> (ty: CapType)
        ensures
            ty == self.ty,
    {
        self.ty
    }

    /// The first selector of the run.
    pub fn start(&self) -> (sel: CapSel)
        ensures
            sel == self.start,
    {
        self.start
    }

    /// The number of selectors in the run.
    pub fn count(&self) -> (n: CapSel)
        ensures
            n == self.count,
    {
        self.count
    }

    /// The run lies inside its space.
    pub open spec fn valid(&self) -> bool {
        self.start + self.count <= sel_end(self.ty)
    }

    /// `sel` is one of the selectors of the run.
    pub open spec fn has(&self, sel: CapSel) -> bool {
        self.start <= sel < self.start + self.count
    }

    /// Whether the run lies inside its space.
    pub fn is_valid(&self) -> (b: bool)
        ensures
            b == self.valid(),
    {
        let end: CapSel = match self.ty {
            CapType::Object => INVALID_SEL,
            CapType::Mapping => MAP_SEL_END,
        };
        self.start <= end && self.count <= end - self.start
    }
}

/// Whether `sel` is a selector of the space `ty`.
pub fn sel_valid(ty: CapType, sel: CapSel) -> (b: bool)
    ensures
        b == (sel < sel_end(ty)),
{
    match ty {
        CapType::Object => sel < INVALID_SEL,
        CapType::Mapping => sel < MAP_SEL_END,
    }
}

/// `sel` is an object selector at which a VPE can have a capability created:
/// one above those it was created with.
pub open spec fn creatable(sel: CapSel) -> bool {
    FIRST_FREE_SEL <= sel < INVALID_SEL
}

/// Whether `sel` is an object selector at which a VPE can have a capability
/// created.
pub fn sel_creatable(sel: CapSel) -> (b: bool)
    ensures
        b == creatable(sel),
{
    FIRST_FREE_SEL <= sel && sel < INVALID_SEL
}

/// The greatest number of bytes in the name of a service.
pub const MAX_NAME_LEN: usize = 32;

/// The name of a service: at most `MAX_NAME_LEN` bytes.
#[derive(Clone, Copy, Debug)]
pub struct ServName {
    pub len: usize,
    pub bytes: [u8; 32],
}

impl View for ServName {
    type V = Seq<u8>;

    /// The bytes of the name.
    open spec fn view(&self) -> Seq<u8> {
        self.bytes@.take(self.len as int)
    }
}

impl ServName {
    /// The representation invariant.
    pub open spec fn wf(&self) -> bool {
        self.len <= MAX_NAME_LEN
    }

    /// The name that `name` spells in UTF-8; nothing where that takes more
    /// than `MAX_NAME_LEN` bytes.
    pub fn new(name: &str) -> (r: Option<ServName>)
        ensures
            match r {
                Some(n) => n.wf() && n@ == name.spec_bytes(),
                None => name.spec_bytes().len() > MAX_NAME_LEN,
            },
    {
        let src = name.as_bytes();
        if src.len() > MAX_NAME_LEN {
            return None;
        }
        let mut bytes: [u8; 32] = [0u8;32];
        let mut i: usize = 0;
        while i < src.len()
            invariant
                0 <= i <= src@.len() <= MAX_NAME_LEN,
                bytes@.take(i as int) == src@.take(i as int),
            decreases src@.len() - i,
        {
            let ghost before = bytes@;
            bytes[i] = src[i];
            proof {
                assert forall|j: int| 0 <= j < i implies bytes@[j] == src@[j] by {
                    assert(before.take(i as int)[j] == src@.take(i as int)[j]);
                }
                assert(bytes@.take(i as int + 1) =~= src@.take(i as int + 1));
            }
            i += 1;
        }
        proof {
            assert(src@.take(src@.len() as int) =~= src@);
        }
        Some(ServName { len: src.len(), bytes })
    }

    /// Whether the two names have the same bytes.
    pub fn same(&self, other: &ServName) -> (b: bool)
        requires
            self.wf(),
            other.wf(),
        ensures
            b == (self@ == other@),
    {
        if self.len != other.len {
            proof {
                assert(self@.len() == self.len && other@.len() == other.len);
            }
            return false;
        }
        let mut i: usize = 0;
        while i < self.len
            invariant
                0 <= i <= self.len == other.len <= MAX_NAME_LEN,
                forall|j: int| 0 <= j < i ==> self.bytes@[j] == other.bytes@[j],
            decreases self.len - i,
        {
            if self.bytes[i] != other.bytes[i] {
                proof {
                    assert(self@[i as int] != other@[i as int]);
                }
                return false;
            }
            i += 1;
        }
        proof {
            assert(self@ =~= other@);
        }
        true
    }
}

/// What a memory capability allows: reading, writing, executing.
#[derive(Clone, Copy, Debug, PartialEq, Eq, Structural)]
pub struct Perm {
    pub r: bool,
    pub w: bool,
    pub x: bool,
}

impl Perm {
    /// The permissions with the given parts.
    pub fn new(r: bool, w: bool, x: bool) -> (p: Perm)
        ensures
            p == (Perm { r, w, x }),
    {
        Perm { r, w, x }
    }

    /// Nothing is allowed.
    pub fn empty() -> (p: Perm)
        ensures
            p == (Perm { r: false, w: false, x: false }),
    {
        Perm { r: false, w: false, x: false }
    }

    /// Reading and writing.
    pub fn rw() -> (p: Perm)
        ensures
            p == (Perm { r: true, w: true, x: false }),
    {
        Perm { r: true, w: true, x: false }
    }

    /// Reading, writing and executing.
    pub fn rwx() -> (p: Perm)
        ensures
            p == (Perm { r: true, w: true, x: true }),
    {
        Perm { r: true, w: true, x: true }
    }

    /// Everything `self` allows, `other` allows too.
    pub open spec fn subset_of(&self, other: Perm) -> bool {
        &&& self.r ==> other.r
        &&& self.w ==> other.w
        &&& self.x ==> other.x
    }

    /// Whether everything `self` allows, `other` allows too.
    pub fn is_subset_of(&self, other: Perm) -> (b: bool)
        ensures
            b == self.subset_of(other),
    {
        (!self.r || other.r) && (!self.w || other.w) && (!self.x || other.x)
    }
}

} // verus!
