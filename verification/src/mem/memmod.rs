//! A memory module: a contiguous range of one processing element's memory
//! with its own free-space accounting.

use vstd::prelude::*;
use crate::addr::GlobAddr;
use crate::errors::{Code, Error};
use crate::mem::map::MemMap;

verus! {

/// A memory module.
pub struct MemMod {
    gaddr: GlobAddr,
    size: usize,
    map: MemMap,
}

impl MemMod {
    /// The address at which the module starts.
    pub closed spec fn addr_spec(&self) -> GlobAddr {
        self.gaddr
    }

    /// The number of bytes the module spans.
    pub closed spec fn capacity_spec(&self) -> nat {
        self.size as nat
    }

    /// The free space of the module, by offset.
    pub closed spec fn map(&self) -> MemMap {
        self.map
    }

    /// The representation invariant: the map accounts for the module's range.
    pub open spec fn wf(&self) -> bool {
        &&& self.map().wf()
        &&& self.map().base() == self.addr_spec().offset
        &&& self.map().end() == self.addr_spec().offset + self.capacity_spec()
        &&& self.capacity_spec() <= usize::MAX
    }

    /// The byte at offset `off` is free.
    pub open spec fn is_free(&self, off: int) -> bool {
        self.map().is_free(off)
    }

    /// The number of free bytes.
    pub open spec fn available_spec(&self) -> nat {
        self.map().available()
    }

    /// `size` bytes from the aligned offset `off` on are free.
    pub open spec fn fits(&self, off: int, size: int, align: int) -> bool {
        self.map().fits(off, size, align)
    }

    /// `[g, g + size)` lies in the range of this module.
    pub open spec fn covers(&self, g: GlobAddr, size: int) -> bool {
        &&& g.pe == self.addr_spec().pe
        &&& self.addr_spec().offset <= g.offset
        &&& g.offset + size <= self.addr_spec().offset + self.capacity_spec()
    }

    /// `[g, g + size)` lies in this module and none of it is free.
    pub open spec fn holds(&self, g: GlobAddr, size: int) -> bool {
        self.covers(g, size) && self.map().range_used(g.offset as int, size)
    }

    /// The ranges of the two modules share no byte.
    pub open spec fn disjoint(&self, other: MemMod) -> bool {
        ||| self.addr_spec().pe != other.addr_spec().pe
        ||| self.addr_spec().offset + self.capacity_spec() <= other.addr_spec().offset
        ||| other.addr_spec().offset + other.capacity_spec() <= self.addr_spec().offset
    }

    /// A module of `size` bytes at `gaddr`, all of them free.
    pub fn new(gaddr: GlobAddr, size: usize) -> (m: MemMod)
        requires
            gaddr.offset + size <= u64::MAX,
        ensures
            m.wf(),
            m.addr_spec() == gaddr,
            m.capacity_spec() == size,
            m.available_spec() == size,
            forall|b: int| m.is_free(b) <==> gaddr.offset <= b < gaddr.offset + size,
    {
        MemMod { gaddr, size, map: MemMap::new(gaddr.offset, size as u64) }
    }

    /// The address at which the module starts.
    pub fn addr(&self) -> (g: GlobAddr)
        ensures
            g == self.addr_spec(),
    {
        self.gaddr
    }

    /// The number of bytes the module spans.
    pub fn capacity(&self) -> (n: usize)
        ensures
            n == self.capacity_spec(),
    {
        self.size
    }

    /// The number of free bytes.
    pub fn available(&self) -> (n: usize)
        requires
            self.wf(),
        ensures
            n == self.available_spec(),
            n <= self.capacity_spec(),
    {
        proof {
            self.map.lemma_bounds();
        }
        self.map.size() as usize
    }

    /// Whether the module has `size` free bytes at a multiple of `align`.
    pub fn has_fit(&self, size: usize, align: usize) -> (b: bool)
        requires
            self.wf(),
        ensures
            b == exists|a: int| self.fits(a, size as int, align as int),
    {
        match self.map.find_fit(size as u64, align as u64) {
            Some((_, start)) => {
                proof {
                    assert(self.fits(start as int, size as int, align as int));
                }
                true
            },
            None => false,
        }
    }

    /// Takes `size` bytes at the lowest offset that is a multiple of `align`
    /// and has that many free bytes from it on. Where there is none, the
    /// module stays as it is and the error is `OutOfMem`.
    pub fn allocate(&mut self, size: usize, align: usize) -> (r: Result<GlobAddr, Error>)
        requires
            old(self).wf(),
        ensures
            final(self).wf(),
            final(self).addr_spec() == old(self).addr_spec(),
            final(self).capacity_spec() == old(self).capacity_spec(),
            match r {
                Ok(g) => {
                    &&& g.pe == old(self).addr_spec().pe
                    &&& old(self).covers(g, size as int)
                    &&& old(self).fits(g.offset as int, size as int, align as int)
                    &&& forall|a: int| a < g.offset ==> !old(self).fits(a, size as int, align as int)
                    &&& forall|b: int|
                        final(self).is_free(b) <==> old(self).is_free(b) && !(g.offset <= b
                            < g.offset + size)
                    &&& final(self).available_spec() == old(self).available_spec() - size
                },
                Err(e) => {
                    &&& e.code() == Code::OutOfMem
                    &&& forall|a: int| !old(self).fits(a, size as int, align as int)
                    &&& *final(self) == *old(self)
                },
            },
    {
        proof {
            self.map.lemma_bounds();
        }
        match self.map.allocate(size as u64, align as u64) {
            Ok(off) => {
                proof {
                    self.map.lemma_bounds();
                    assert(old(self).map.is_free(off as int));
                    if size > 0 {
                        assert(old(self).map.is_free(off + size - 1));
                    }
                }
                Ok(GlobAddr::new_with(self.gaddr.pe, off))
            },
            Err(e) => Err(e),
        }
    }

    /// Whether `[gaddr, gaddr + size)` lies in the module and none of it is
    /// free.
    pub fn is_held(&self, gaddr: GlobAddr, size: usize) -> (b: bool)
        requires
            self.wf(),
        ensures
            b == self.holds(gaddr, size as int),
    {
        proof {
            self.map.lemma_bounds();
        }
        if gaddr.pe == self.gaddr.pe && self.gaddr.offset <= gaddr.offset && gaddr.offset
            - self.gaddr.offset <= self.size as u64 && size as u64 <= self.size as u64 - (
        gaddr.offset - self.gaddr.offset) {
            self.map.is_used(gaddr.offset, size as u64)
        } else {
            false
        }
    }

    /// Whether the ranges of the two modules share no byte.
    pub fn is_disjoint(&self, other: &MemMod) -> (b: bool)
        requires
            self.wf(),
            other.wf(),
        ensures
            b == self.disjoint(*other),
    {
        proof {
            self.map.lemma_bounds();
            other.map.lemma_bounds();
        }
        self.gaddr.pe != other.gaddr.pe || self.gaddr.offset + (self.size as u64)
            <= other.gaddr.offset || other.gaddr.offset + (other.size as u64) <= self.gaddr.offset
    }

    /// Gives `[gaddr, gaddr + size)` back to the module if it lies in its
    /// range, and says whether it does.
    pub fn free(&mut self, gaddr: GlobAddr, size: usize) -> (claimed: bool)
        requires
            old(self).wf(),
            old(self).covers(gaddr, size as int) ==> old(self).holds(gaddr, size as int),
        ensures
            final(self).wf(),
            final(self).addr_spec() == old(self).addr_spec(),
            final(self).capacity_spec() == old(self).capacity_spec(),
            claimed == old(self).covers(gaddr, size as int),
            claimed ==> (forall|b: int|
                final(self).is_free(b) <==> old(self).is_free(b) || gaddr.offset <= b
                    < gaddr.offset + size),
            claimed ==> final(self).available_spec() == old(self).available_spec() + size,
            !claimed ==> *final(self) == *old(self),
    {
        if gaddr.pe == self.gaddr.pe && self.gaddr.offset <= gaddr.offset && gaddr.offset
            - self.gaddr.offset <= self.size as u64 && size as u64 <= self.size as u64 - (
        gaddr.offset - self.gaddr.offset) {
            self.map.free(gaddr.offset, size as u64);
            true
        } else {
            false
        }
    }
}

} // verus!
