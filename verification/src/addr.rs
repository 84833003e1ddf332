//! Global addresses: a processing element and a byte offset into its memory.

use vstd::prelude::*;

verus! {

/// An offset into the memory of one processing element.
#[allow(non_camel_case_types)]
pub type goff = u64;

/// The number of a processing element.
pub type PEId = usize;

/// A physical address: the processing element that holds the memory, and the
/// offset into it.
#[derive(Clone, Copy, Debug, PartialEq, Eq, Structural)]
pub struct GlobAddr {
    pub pe: PEId,
    pub offset: goff,
}

impl GlobAddr {
    /// The address `off` bytes into the memory of `pe`.
    pub fn new_with(pe: PEId, off: goff) -> (g: GlobAddr)
        ensures
            g.pe == pe,
            g.offset == off,
    {
        GlobAddr { pe, offset: off }
    }

    /// The processing element of this address.
    pub fn pe(&self) -> (pe: PEId)
        ensures
            pe == self.pe,
    {
        self.pe
    }

    /// The offset of this address.
    pub fn offset(&self) -> (off: goff)
        ensures
            off == self.offset,
    {
        self.offset
    }

    /// The address `off` bytes after this one.
    pub fn offset_by(&self, off: goff) -> (g: GlobAddr)
        requires
            self.offset + off <= u64::MAX,
        ensures
            g.pe == self.pe,
            g.offset == self.offset + off,
    {
        GlobAddr { pe: self.pe, offset: self.offset + off }
    }
}

} // verus!
