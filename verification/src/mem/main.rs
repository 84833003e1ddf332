//! The main memory: the memory modules the kernel allocates from, and the
//! handle of one allocation.

use vstd::prelude::*;
use crate::addr::{goff, GlobAddr};
use crate::errors::{Code, Error};
use crate::mem::memmod::MemMod;

verus! {

/// The bytes that the modules of `s` span, added up.
pub open spec fn total_capacity(s: Seq<MemMod>) -> nat
    decreases s.len(),
{
    if s.len() == 0 {
        0
    } else {
        total_capacity(s.drop_last()) + s.last().capacity_spec()
    }
}

/// The free bytes of the modules of `s`, added up.
pub open spec fn total_available(s: Seq<MemMod>) -> nat
    decreases s.len(),
{
    if s.len() == 0 {
        0
    } else {
        total_available(s.drop_last()) + s.last().available_spec()
    }
}

/// What replacing one module makes of the sums.
proof fn lemma_totals_update(s: Seq<MemMod>, i: int, m: MemMod)
    requires
        0 <= i < s.len(),
    ensures
        total_capacity(s.update(i, m)) == total_capacity(s) - s[i].capacity_spec()
            + m.capacity_spec(),
        total_available(s.update(i, m)) == total_available(s) - s[i].available_spec()
            + m.available_spec(),
    decreases s.len(),
{
    let t = s.update(i, m);
    if i == s.len() - 1 {
        assert(t.drop_last() =~= s.drop_last());
    } else {
        assert(t.drop_last() =~= s.drop_last().update(i, m));
        lemma_totals_update(s.drop_last(), i, m);
    }
}

/// No more is free than there is.
proof fn lemma_available_le_capacity(s: Seq<MemMod>)
    requires
        forall|i: int| 0 <= i < s.len() ==> (#[trigger] s[i]).wf(),
    ensures
        total_available(s) <= total_capacity(s),
    decreases s.len(),
{
    if s.len() > 0 {
        let t = s.drop_last();
        assert forall|i: int| 0 <= i < t.len() implies (#[trigger] t[i]).wf() by {
            assert(t[i] == s[i]);
        }
        lemma_available_le_capacity(t);
        assert(s.last() == s[s.len() - 1]);
        s.last().map().lemma_bounds();
    }
}

/// The first modules span no more than all of them.
proof fn lemma_prefix_totals(s: Seq<MemMod>, i: int)
    requires
        0 <= i <= s.len(),
    ensures
        total_capacity(s.take(i)) <= total_capacity(s),
    decreases s.len() - i,
{
    if i < s.len() {
        lemma_prefix_totals(s, i + 1);
        assert(s.take(i + 1).drop_last() =~= s.take(i));
    } else {
        assert(s.take(i) =~= s);
    }
}

/// The handle of one allocation: where the region starts and how many bytes
/// it has. A handle of size zero stands for no region.
#[derive(Debug)]
pub struct Allocation {
    gaddr: GlobAddr,
    size: usize,
}

impl Allocation {
    /// Where the region starts.
    pub closed spec fn global_spec(&self) -> GlobAddr {
        self.gaddr
    }

    /// The number of bytes the handle still answers for.
    pub closed spec fn size_spec(&self) -> usize {
        self.size
    }

    /// A handle for `size` bytes at `gaddr`.
    pub fn new(gaddr: GlobAddr, size: usize) -> (a: Allocation)
        ensures
            a.global_spec() == gaddr,
            a.size_spec() == size,
    {
        Allocation { gaddr, size }
    }

    /// Hands the region over to whoever took its address and size: the
    /// handle keeps the address and answers for no bytes any more.
    pub fn claim(&mut self)
        ensures
            final(self).global_spec() == old(self).global_spec(),
            final(self).size_spec() == 0,
    {
        self.size = 0;
    }

    /// Where the region starts.
    #[verifier::when_used_as_spec(global_spec)]
    pub fn global(&self) -> (g: GlobAddr)
        ensures
            g == self.global_spec(),
    {
        self.gaddr
    }

    /// The number of bytes the handle still answers for.
    #[verifier::when_used_as_spec(size_spec)]
    pub fn size(&self) -> (n: usize)
        ensures
            n == self.size_spec(),
    {
        self.size
    }
}

/// The memory modules of the machine, in the order in which they were
/// registered.
pub struct MainMemory {
    mods: Vec<MemMod>,
}

impl MainMemory {
    /// The registered modules.
    pub closed spec fn mods(&self) -> Seq<MemMod> {
        self.mods@
    }

    /// Every module is well-formed, no two modules share a byte, and the
    /// capacities add up to a machine word.
    pub open spec fn wf(&self) -> bool {
        &&& forall|i: int| 0 <= i < self.mods().len() ==> (#[trigger] self.mods()[i]).wf()
        &&& forall|i: int, j: int|
            0 <= i < j < self.mods().len() ==> #[trigger] self.mods()[i].disjoint(self.mods()[j])
        &&& total_capacity(self.mods()) <= usize::MAX
    }

    /// The bytes of all modules.
    pub open spec fn capacity_spec(&self) -> nat {
        total_capacity(self.mods())
    }

    /// The free bytes of all modules.
    pub open spec fn available_spec(&self) -> nat {
        total_available(self.mods())
    }

    /// The byte at offset `off` of the memory of `pe` belongs to a module
    /// and is free.
    pub open spec fn is_free(&self, pe: usize, off: int) -> bool {
        exists|i: int|
            0 <= i < self.mods().len() && (#[trigger] self.mods()[i]).addr_spec().pe == pe
                && self.mods()[i].is_free(off)
    }

    /// `[g, g + size)` lies in one module and none of it is free.
    pub open spec fn allocated(&self, g: GlobAddr, size: int) -> bool {
        exists|i: int| 0 <= i < self.mods().len() && (#[trigger] self.mods()[i]).holds(g, size)
    }

    /// Module `i` is the first with `size` free bytes at a multiple of
    /// `align`, and `off` is the lowest such offset in it.
    pub open spec fn first_fit(&self, i: int, off: int, size: int, align: int) -> bool {
        &&& 0 <= i < self.mods().len()
        &&& self.mods()[i].fits(off, size, align)
        &&& forall|a: int| a < off ==> !self.mods()[i].fits(a, size, align)
        &&& forall|j: int, a: int|
            0 <= j < i ==> !(#[trigger] self.mods()[j].fits(a, size, align))
    }

    /// No module has `size` free bytes at a multiple of `align`.
    pub open spec fn no_fit(&self, size: int, align: int) -> bool {
        forall|j: int, a: int|
            0 <= j < self.mods().len() ==> !(#[trigger] self.mods()[j].fits(a, size, align))
    }

    /// `self` is `before` with `[off, off + size)` of module `i` turned from
    /// free to used (`freed` false) or from used to free (`freed` true), and
    /// nothing else.
    pub open spec fn differs_at(
        &self,
        before: &MainMemory,
        i: int,
        off: int,
        size: int,
        freed: bool,
    ) -> bool {
        &&& 0 <= i < before.mods().len()
        &&& self.mods().len() == before.mods().len()
        &&& forall|j: int|
            0 <= j < self.mods().len() && j != i ==> #[trigger] self.mods()[j] == before.mods()[j]
        &&& self.mods()[i].addr_spec() == before.mods()[i].addr_spec()
        &&& self.mods()[i].capacity_spec() == before.mods()[i].capacity_spec()
        &&& forall|b: int|
            self.mods()[i].is_free(b) <==> if off <= b < off + size {
                freed
            } else {
                before.mods()[i].is_free(b)
            }
    }

    /// `self` is `before` after `size` bytes at `g` were taken from module
    /// `i`, the first fit for `size` and `align`.
    pub open spec fn took_from(
        &self,
        before: &MainMemory,
        i: int,
        g: GlobAddr,
        size: int,
        align: int,
    ) -> bool {
        &&& before.first_fit(i, g.offset as int, size, align)
        &&& before.mods()[i].covers(g, size)
        &&& self.differs_at(before, i, g.offset as int, size, false)
    }

    /// `self` is `before` after the `size` bytes at `g`, which module `i`
    /// held, were given back to it.
    pub open spec fn gave_back(&self, before: &MainMemory, i: int, g: GlobAddr, size: int) -> bool {
        &&& 0 <= i < before.mods().len()
        &&& before.mods()[i].holds(g, size)
        &&& self.differs_at(before, i, g.offset as int, size, true)
    }

    /// `self` has the modules of `before`, in their order, each with its
    /// address and its capacity.
    pub open spec fn same_layout(&self, before: &MainMemory) -> bool {
        &&& self.mods().len() == before.mods().len()
        &&& forall|k: int|
            0 <= k < self.mods().len() ==> (#[trigger] self.mods()[k]).addr_spec()
                == before.mods()[k].addr_spec() && self.mods()[k].capacity_spec()
                == before.mods()[k].capacity_spec()
    }

    /// Byte `b` of the memory of `pe` lies in the `size` bytes at `g`.
    pub open spec fn in_region(g: GlobAddr, size: int, pe: usize, b: int) -> bool {
        pe == g.pe && g.offset <= b < g.offset + size
    }

    /// A main memory without modules.
    pub fn new() -> (m: MainMemory)
        ensures
            m.wf(),
            m.mods().len() == 0,
            m.capacity_spec() == 0,
            m.available_spec() == 0,
    {
        MainMemory { mods: Vec::new() }
    }

    /// The number of modules.
    pub fn len(&self) -> (n: usize)
        ensures
            n == self.mods().len(),
    {
        self.mods.len()
    }

    /// The `i`-th module, in the order in which they were registered.
    pub fn module(&self, i: usize) -> (m: &MemMod)
        requires
            i < self.mods().len(),
        ensures
            *m == self.mods()[i as int],
    {
        &self.mods[i]
    }

    /// Whether `add` can register the module `m`: it shares no byte with a
    /// module that is there, and the capacities add up to a machine word.
    pub fn can_add(&self, m: &MemMod) -> (b: bool)
        requires
            self.wf(),
            m.wf(),
        ensures
            b == ((forall|i: int|
                0 <= i < self.mods().len() ==> (#[trigger] self.mods()[i]).disjoint(*m))
                && self.capacity_spec() + m.capacity_spec() <= usize::MAX),
    {
        let n = self.mods.len();
        let mut i: usize = 0;
        while i < n
            invariant
                0 <= i <= n,
                n == self.mods@.len(),
                self.wf(),
                m.wf(),
                forall|j: int| 0 <= j < i ==> (#[trigger] self.mods@[j]).disjoint(*m),
            decreases n - i,
        {
            if !self.mods[i].is_disjoint(m) {
                return false;
            }
            i += 1;
        }
        m.capacity() <= usize::MAX - self.capacity()
    }

    /// Whether `[g, g + size)` lies in one module and none of it is free:
    /// whether `free` can take it back.
    pub fn is_allocated(&self, g: GlobAddr, size: usize) -> (b: bool)
        requires
            self.wf(),
        ensures
            b == self.allocated(g, size as int),
    {
        let n = self.mods.len();
        let mut i: usize = 0;
        while i < n
            invariant
                0 <= i <= n,
                n == self.mods@.len(),
                self.wf(),
                forall|j: int| 0 <= j < i ==> !(#[trigger] self.mods@[j]).holds(g, size as int),
            decreases n - i,
        {
            if self.mods[i].is_held(g, size) {
                return true;
            }
            i += 1;
        }
        false
    }

    /// Registers the module `m` behind those that are there.
    pub fn add(&mut self, m: MemMod)
        requires
            old(self).wf(),
            m.wf(),
            forall|i: int|
                0 <= i < old(self).mods().len() ==> (#[trigger] old(self).mods()[i]).disjoint(m),
            old(self).capacity_spec() + m.capacity_spec() <= usize::MAX,
        ensures
            final(self).wf(),
            final(self).mods() == old(self).mods().push(m),
            final(self).capacity_spec() == old(self).capacity_spec() + m.capacity_spec(),
            final(self).available_spec() == old(self).available_spec() + m.available_spec(),
    {
        self.mods.push(m);
        proof {
            assert(self.mods@.drop_last() =~= old(self).mods@);
        }
    }

    /// Takes `size` bytes at a multiple of `align` from the first module
    /// that has them, at the lowest such offset in it. Where no module has
    /// them, the memory stays as it is and the error is `OutOfMem`.
    pub fn allocate(&mut self, size: usize, align: usize) -> (r: Result<Allocation, Error>)
        requires
            old(self).wf(),
        ensures
            final(self).wf(),
            final(self).capacity_spec() == old(self).capacity_spec(),
            size > old(self).available_spec() ==> r is Err,
            match r {
                Ok(a) => {
                    &&& a.size_spec() == size
                    &&& exists|i: int|
                        final(self).took_from(
                            old(self),
                            i,
                            a.global_spec(),
                            size as int,
                            align as int,
                        )
                    &&& final(self).allocated(a.global_spec(), size as int)
                    &&& final(self).available_spec() == old(self).available_spec() - size
                },
                Err(e) => {
                    &&& e.code() == Code::OutOfMem
                    &&& old(self).no_fit(size as int, align as int)
                    &&& *final(self) == *old(self)
                },
            },
    {
        let n = self.mods.len();
        let mut i: usize = 0;
        while i < n
            invariant
                0 <= i <= n,
                n == self.mods@.len(),
                self.wf(),
                *self == *old(self),
                forall|j: int, a: int|
                    0 <= j < i ==> !(#[trigger] self.mods@[j].fits(a, size as int, align as int)),
            decreases n - i,
        {
            let ghost before = self.mods@;
            if !self.mods[i].has_fit(size, align) {
                i += 1;
                continue ;
            }
            match self.mods[i].allocate(size, align) {
                Ok(gaddr) => {
                    proof {
                        let m1 = self.mods@[i as int];
                        assert(self.mods@ =~= before.update(i as int, m1));
                        lemma_totals_update(before, i as int, m1);
                        assert forall|x: int, y: int|
                            0 <= x < y < self.mods@.len() implies #[trigger] self.mods@[x].disjoint(
                            self.mods@[y],
                        ) by {
                            assert(before[x].disjoint(before[y]));
                        }
                        assert(self.differs_at(
                            old(self),
                            i as int,
                            gaddr.offset as int,
                            size as int,
                            false,
                        ));
                        assert(old(self).first_fit(
                            i as int,
                            gaddr.offset as int,
                            size as int,
                            align as int,
                        ));
                        assert forall|b: int| gaddr.offset <= b < gaddr.offset + size implies !m1.map().is_free(
                            b,
                        ) by {
                            assert(!m1.is_free(b));
                        }
                        assert(m1.holds(gaddr, size as int));
                        assert(self.took_from(
                            old(self),
                            i as int,
                            gaddr,
                            size as int,
                            align as int,
                        ));
                    }
                    let a = Allocation::new(gaddr, size);
                    proof {
                        assert(self.took_from(
                            old(self),
                            i as int,
                            a.global_spec(),
                            size as int,
                            align as int,
                        ));
                        assert(self.mods()[i as int].holds(a.global_spec(), size as int));
                        assert(self.allocated(a.global_spec(), size as int));
                    }
                    return Ok(a);
                },
                Err(e) => {
                    proof {
                        assert(false);
                    }
                    return Err(e);
                },
            }
        }
        Err(Error::new(Code::OutOfMem))
    }

    /// A handle for `size` bytes at `offset` into the first module. Nothing
    /// is looked up or marked: the free space stays as it is, and that the
    /// region is no one else's is for the caller to know.
    pub fn allocate_at(&mut self, offset: goff, size: usize) -> (r: Result<Allocation, Error>)
        requires
            old(self).mods().len() > 0,
            old(self).mods()[0].addr_spec().offset + offset <= u64::MAX,
        ensures
            *final(self) == *old(self),
            r is Ok,
            r.unwrap().global_spec().pe == old(self).mods()[0].addr_spec().pe,
            r.unwrap().global_spec().offset == old(self).mods()[0].addr_spec().offset + offset,
            r.unwrap().size_spec() == size,
    {
        Ok(Allocation::new(self.mods[0].addr().offset_by(offset), size))
    }

    /// Gives the region of `alloc` back to the module in whose range it
    /// lies. A handle of size zero gives nothing back.
    pub fn free(&mut self, alloc: &Allocation)
        requires
            old(self).wf(),
            alloc.size_spec() > 0 ==> old(self).allocated(
                alloc.global_spec(),
                alloc.size_spec() as int,
            ),
        ensures
            final(self).wf(),
            final(self).capacity_spec() == old(self).capacity_spec(),
            final(self).available_spec() == old(self).available_spec() + alloc.size_spec(),
            alloc.size_spec() == 0 ==> final(self).mods() == old(self).mods(),
            alloc.size_spec() > 0 ==> exists|i: int|
                final(self).gave_back(
                    old(self),
                    i,
                    alloc.global_spec(),
                    alloc.size_spec() as int,
                ),
            final(self).same_layout(old(self)),
            forall|pe: usize, b: int|
                #[trigger] final(self).is_free(pe, b) <==> old(self).is_free(pe, b)
                    || Self::in_region(alloc.global_spec(), alloc.size_spec() as int, pe, b),
    {
        if alloc.size == 0 {
            return ;
        }
        let n = self.mods.len();
        let ghost k = choose|k: int|
            0 <= k < self.mods().len() && (#[trigger] self.mods()[k]).holds(
                alloc.global_spec(),
                alloc.size_spec() as int,
            );
        let mut i: usize = 0;
        while i < n
            invariant
                0 <= i <= k < n,
                n == self.mods@.len(),
                self.wf(),
                self.mods@ == old(self).mods@,
                alloc.size > 0,
                self.mods@[k].holds(alloc.gaddr, alloc.size as int),
            decreases n - i,
        {
            let ghost before = self.mods@;
            proof {
                if i < k {
                    assert(before[i as int].disjoint(before[k]));
                    assert(!before[i as int].covers(alloc.gaddr, alloc.size as int));
                }
            }
            if self.mods[i].free(alloc.gaddr, alloc.size) {
                proof {
                    let m1 = self.mods@[i as int];
                    assert(i == k);
                    assert(self.mods@ =~= before.update(i as int, m1));
                    lemma_totals_update(before, i as int, m1);
                    assert forall|x: int, y: int|
                        0 <= x < y < self.mods@.len() implies #[trigger] self.mods@[x].disjoint(
                        self.mods@[y],
                    ) by {
                        assert(before[x].disjoint(before[y]));
                    }
                    assert(self.differs_at(
                        old(self),
                        i as int,
                        alloc.gaddr.offset as int,
                        alloc.size as int,
                        true,
                    ));
                    assert(self.gave_back(
                        old(self),
                        i as int,
                        alloc.global_spec(),
                        alloc.size_spec() as int,
                    ));
                    lemma_gave_back(
                        *old(self),
                        *self,
                        i as int,
                        alloc.global_spec(),
                        alloc.size_spec() as int,
                    );
                }
                return ;
            }
            proof {
                assert(self.mods@ =~= before);
            }
            i += 1;
        }
    }

    /// The bytes of all modules.
    pub fn capacity(&self) -> (n: usize)
        requires
            self.wf(),
        ensures
            n == self.capacity_spec(),
    {
        let len = self.mods.len();
        let mut total: usize = 0;
        let mut i: usize = 0;
        while i < len
            invariant
                0 <= i <= len,
                len == self.mods@.len(),
                self.wf(),
                total == total_capacity(self.mods@.take(i as int)),
            decreases len - i,
        {
            proof {
                lemma_prefix_totals(self.mods@, i as int + 1);
                assert(self.mods@.take(i as int + 1).drop_last() =~= self.mods@.take(i as int));
            }
            total = total + self.mods[i].capacity();
            i += 1;
        }
        proof {
            assert(self.mods@.take(len as int) =~= self.mods@);
        }
        total
    }

    /// The free bytes of all modules.
    pub fn available(&self) -> (n: usize)
        requires
            self.wf(),
        ensures
            n == self.available_spec(),
            n <= self.capacity_spec(),
    {
        let len = self.mods.len();
        let mut total: usize = 0;
        let mut i: usize = 0;
        while i < len
            invariant
                0 <= i <= len,
                len == self.mods@.len(),
                self.wf(),
                total == total_available(self.mods@.take(i as int)),
            decreases len - i,
        {
            proof {
                let t = self.mods@.take(i as int + 1);
                lemma_prefix_totals(self.mods@, i as int + 1);
                assert(t.drop_last() =~= self.mods@.take(i as int));
                assert forall|x: int| 0 <= x < t.len() implies (#[trigger] t[x]).wf() by {
                    assert(t[x] == self.mods@[x]);
                }
                lemma_available_le_capacity(t);
            }
            total = total + self.mods[i].available();
            i += 1;
        }
        proof {
            assert(self.mods@.take(len as int) =~= self.mods@);
            lemma_available_le_capacity(self.mods@);
        }
        total
    }
}

/// What giving a region back changes: the bytes of the region are free, every
/// other byte is what it was, and the modules keep their order, addresses
/// and capacities.
pub proof fn lemma_gave_back(before: MainMemory, after: MainMemory, i: int, g: GlobAddr, size: int)
    requires
        after.gave_back(&before, i, g, size),
    ensures
        after.same_layout(&before),
        forall|pe: usize, b: int|
            #[trigger] after.is_free(pe, b) <==> before.is_free(pe, b) || MainMemory::in_region(
                g,
                size,
                pe,
                b,
            ),
{
    assert forall|k: int| 0 <= k < after.mods().len() implies (#[trigger] after.mods()[k]).addr_spec()
        == before.mods()[k].addr_spec() && after.mods()[k].capacity_spec()
        == before.mods()[k].capacity_spec() by {
        if k != i {
            assert(after.mods()[k] == before.mods()[k]);
        }
    }
    assert forall|pe: usize, b: int| #[trigger]
        after.is_free(pe, b) <==> before.is_free(pe, b) || MainMemory::in_region(g, size, pe, b) by {
        if after.is_free(pe, b) {
            let k = choose|k: int|
                0 <= k < after.mods().len() && (#[trigger] after.mods()[k]).addr_spec().pe == pe
                    && after.mods()[k].is_free(b);
            if k != i {
                assert(after.mods()[k] == before.mods()[k]);
                assert(before.mods()[k].addr_spec().pe == pe && before.mods()[k].is_free(b));
            } else if !(g.offset <= b < g.offset + size) {
                assert(before.mods()[i].is_free(b));
                assert(before.mods()[i].addr_spec().pe == pe);
            }
        }
        if before.is_free(pe, b) {
            let k = choose|k: int|
                0 <= k < before.mods().len() && (#[trigger] before.mods()[k]).addr_spec().pe == pe
                    && before.mods()[k].is_free(b);
            if k != i {
                assert(after.mods()[k] == before.mods()[k]);
            } else {
                assert(after.mods()[i].is_free(b));
            }
            assert(after.mods()[k].addr_spec().pe == pe && after.mods()[k].is_free(b));
        }
        if MainMemory::in_region(g, size, pe, b) {
            assert(after.mods()[i].is_free(b));
            assert(after.mods()[i].addr_spec().pe == pe);
        }
    }
}

/// Taking a region and giving it back leaves the memory as it was: as many
/// bytes are free as before, and the same ones. `between` is what taking
/// `size` bytes for `align` at `g` makes of `before`, `after` is what giving
/// them back makes of `between`.
pub proof fn lemma_allocate_free(
    before: MainMemory,
    between: MainMemory,
    after: MainMemory,
    g: GlobAddr,
    size: int,
    align: int,
)
    requires
        before.wf(),
        between.wf(),
        size >= 0,
        exists|i: int| between.took_from(&before, i, g, size, align),
        between.available_spec() == before.available_spec() - size,
        size > 0 ==> exists|j: int| after.gave_back(&between, j, g, size),
        size == 0 ==> after.mods() == between.mods(),
        after.available_spec() == between.available_spec() + size,
    ensures
        after.available_spec() == before.available_spec(),
        after.mods().len() == before.mods().len(),
        forall|k: int, b: int|
            0 <= k < before.mods().len() ==> (#[trigger] after.mods()[k].is_free(b)
                <==> before.mods()[k].is_free(b)),
        forall|pe: usize, b: int| after.is_free(pe, b) <==> before.is_free(pe, b),
{
    let i = choose|i: int| between.took_from(&before, i, g, size, align);
    assert forall|k: int, b: int| 0 <= k < before.mods().len() implies (#[trigger] after.mods()[k].is_free(
        b,
    ) <==> before.mods()[k].is_free(b)) by {
        if size > 0 {
            let j = choose|j: int| after.gave_back(&between, j, g, size);
            if i != j {
                if i < j {
                    assert(between.mods()[i].disjoint(between.mods()[j]));
                } else {
                    assert(between.mods()[j].disjoint(between.mods()[i]));
                }
                assert(false);
            }
            if k == i {
                assert(between.mods()[i].is_free(b) == if g.offset <= b < g.offset + size {
                    false
                } else {
                    before.mods()[i].is_free(b)
                });
                assert(after.mods()[i].is_free(b) == if g.offset <= b < g.offset + size {
                    true
                } else {
                    between.mods()[i].is_free(b)
                });
                if g.offset <= b < g.offset + size {
                    assert(before.mods()[i].map().is_free(b));
                }
            } else {
                assert(between.mods()[k] == before.mods()[k]);
                assert(after.mods()[k] == between.mods()[k]);
            }
        } else {
            if k == i {
                assert(between.mods()[i].is_free(b) == if g.offset <= b < g.offset + size {
                    false
                } else {
                    before.mods()[i].is_free(b)
                });
            } else {
                assert(between.mods()[k] == before.mods()[k]);
            }
        }
    }
    assert forall|pe: usize, b: int| after.is_free(pe, b) <==> before.is_free(pe, b) by {
        if after.is_free(pe, b) {
            let k = choose|k: int|
                0 <= k < after.mods().len() && (#[trigger] after.mods()[k]).addr_spec().pe == pe
                    && after.mods()[k].is_free(b);
            assert(before.mods()[k].is_free(b));
            assert(before.mods()[k].addr_spec().pe == pe);
        }
        if before.is_free(pe, b) {
            let k = choose|k: int|
                0 <= k < before.mods().len() && (#[trigger] before.mods()[k]).addr_spec().pe == pe
                    && before.mods()[k].is_free(b);
            assert(after.mods()[k].is_free(b));
            assert(after.mods()[k].addr_spec().pe == pe);
        }
    }
}

/// The main memory as it is when the kernel starts: without modules.
pub fn init() -> (m: MainMemory)
    ensures
        m.wf(),
        m.mods().len() == 0,
        m.capacity_spec() == 0,
        m.available_spec() == 0,
{
    MainMemory::new()
}

} // verus!
