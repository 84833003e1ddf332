//! Free-space accounting of one memory module: a sorted list of free areas
//! with first-fit allocation and merging of neighbours on release.

use vstd::prelude::*;
use vstd::arithmetic::div_mod::lemma_fundamental_div_mod;
use vstd::arithmetic::div_mod::lemma_mod_multiples_basic;
use crate::errors::{Code, Error};

verus! {

/// A run of free bytes: `[addr, addr + size)`.
#[derive(Clone, Copy, Debug, PartialEq, Eq, Structural)]
pub struct Area {
    pub addr: u64,
    pub size: u64,
}

/// Byte `b` lies in area `a`.
pub open spec fn area_has(a: Area, b: int) -> bool {
    a.addr <= b < a.addr + a.size
}

/// Byte `b` lies in one of the areas of `s`.
pub open spec fn areas_have(s: Seq<Area>, b: int) -> bool {
    exists|i: int| 0 <= i < s.len() && area_has(#[trigger] s[i], b)
}

/// The areas of `s` are non-empty, lie in `[base, end)`, ascend, and no two
/// of them touch.
pub open spec fn areas_wf(s: Seq<Area>, base: int, end: int) -> bool {
    &&& forall|i: int|
        0 <= i < s.len() ==> (#[trigger] s[i]).size > 0 && base <= s[i].addr && s[i].addr
            + s[i].size <= end
    &&& forall|i: int, j: int|
        0 <= i < j < s.len() ==> (#[trigger] s[i]).addr + s[i].size < (#[trigger] s[j]).addr
}

/// The number of bytes in the areas of `s`.
pub open spec fn areas_total(s: Seq<Area>) -> nat
    decreases s.len(),
{
    if s.len() == 0 {
        0
    } else {
        areas_total(s.drop_last()) + s.last().size as nat
    }
}

/// `a` is a multiple of `align`; nothing is a multiple of zero.
pub open spec fn is_aligned(a: int, align: int) -> bool {
    align > 0 && a % align == 0
}

/// The distance from `addr` to the next multiple of `align`.
pub open spec fn align_gap(addr: int, align: int) -> int {
    if addr % align == 0 {
        0
    } else {
        align - addr % align
    }
}

/// `x` is an aligned address in `a` with `size` bytes of `a` from it on.
pub open spec fn fits_in(a: Area, x: int, size: int, align: int) -> bool {
    is_aligned(x, align) && area_has(a, x) && x + size <= a.addr + a.size
}

/// What replacing one area makes of the number of bytes.
proof fn lemma_total_update(s: Seq<Area>, i: int, x: Area)
    requires
        0 <= i < s.len(),
    ensures
        areas_total(s.update(i, x)) == areas_total(s) - s[i].size + x.size,
    decreases s.len(),
{
    let t = s.update(i, x);
    if i == s.len() - 1 {
        assert(t.drop_last() =~= s.drop_last());
    } else {
        assert(t.drop_last() =~= s.drop_last().update(i, x));
        lemma_total_update(s.drop_last(), i, x);
    }
}

/// What one more area makes of the number of bytes.
proof fn lemma_total_insert(s: Seq<Area>, i: int, x: Area)
    requires
        0 <= i <= s.len(),
    ensures
        areas_total(s.insert(i, x)) == areas_total(s) + x.size,
    decreases s.len(),
{
    let t = s.insert(i, x);
    if i == s.len() {
        assert(t.drop_last() =~= s);
    } else {
        assert(t.drop_last() =~= s.drop_last().insert(i, x));
        lemma_total_insert(s.drop_last(), i, x);
    }
}

/// What one area less makes of the number of bytes.
proof fn lemma_total_remove(s: Seq<Area>, i: int)
    requires
        0 <= i < s.len(),
    ensures
        areas_total(s.remove(i)) == areas_total(s) - s[i].size,
    decreases s.len(),
{
    let t = s.remove(i);
    if i == s.len() - 1 {
        assert(t =~= s.drop_last());
    } else {
        assert(t.drop_last() =~= s.drop_last().remove(i));
        lemma_total_remove(s.drop_last(), i);
    }
}

/// Areas that ascend inside a range have no more bytes than the range.
proof fn lemma_total_bound(s: Seq<Area>, base: int, end: int)
    requires
        areas_wf(s, base, end),
        base <= end,
    ensures
        s.len() == 0 ==> areas_total(s) == 0,
        s.len() > 0 ==> areas_total(s) <= s.last().addr + s.last().size - base,
        areas_total(s) <= end - base,
    decreases s.len(),
{
    if s.len() > 0 {
        let t = s.drop_last();
        assert(areas_wf(t, base, end)) by {
            assert forall|i: int| 0 <= i < t.len() implies (#[trigger] t[i]).size > 0 && base
                <= t[i].addr && t[i].addr + t[i].size <= end by {
                assert(t[i] == s[i]);
            }
            assert forall|i: int, j: int| 0 <= i < j < t.len() implies (#[trigger] t[i]).addr
                + t[i].size < (#[trigger] t[j]).addr by {
                assert(t[i] == s[i] && t[j] == s[j]);
            }
        }
        lemma_total_bound(t, base, end);
        if t.len() > 0 {
            assert(t.last() == s[s.len() - 2]);
            assert(s[s.len() - 2].addr + s[s.len() - 2].size < s[s.len() - 1].addr);
        }
    }
}

/// An aligned address at or after `addr` is at least `align_gap` away, and
/// the address at that distance is aligned.
proof fn lemma_align_gap(addr: int, align: int, x: int)
    requires
        align > 0,
        addr >= 0,
    ensures
        is_aligned(addr + align_gap(addr, align), align),
        0 <= align_gap(addr, align) < align,
        is_aligned(x, align) && x >= addr ==> x >= addr + align_gap(addr, align),
{
    let r = addr % align;
    let q = addr / align;
    lemma_fundamental_div_mod(addr, align);
    if r != 0 {
        lemma_mod_multiples_basic(q + 1, align);
        assert((q + 1) * align == addr + align - r) by (nonlinear_arith)
            requires
                addr == align * q + r,
        ;
    }
    if is_aligned(x, align) && x >= addr {
        let k = x / align;
        lemma_fundamental_div_mod(x, align);
        if r != 0 {
            assert(k >= q + 1) by (nonlinear_arith)
                requires
                    x == align * k,
                    addr == align * q + r,
                    0 < r < align,
                    x >= addr,
            ;
            assert(x >= addr + align - r) by (nonlinear_arith)
                requires
                    x == align * k,
                    addr == align * q + r,
                    k >= q + 1,
                    align > 0,
            ;
        }
    }
}

/// In a well-formed list a fit lies inside a single area.
proof fn lemma_fit_in_one(s: Seq<Area>, base: int, end: int, x: int, size: int, align: int)
    requires
        areas_wf(s, base, end),
        is_aligned(x, align),
        areas_have(s, x),
        forall|b: int| x <= b < x + size ==> areas_have(s, b),
    ensures
        exists|i: int| 0 <= i < s.len() && fits_in(#[trigger] s[i], x, size, align),
{
    let i = choose|i: int| 0 <= i < s.len() && area_has(#[trigger] s[i], x);
    let e = s[i].addr + s[i].size;
    if x + size > e {
        assert(areas_have(s, e));
        let k = choose|k: int| 0 <= k < s.len() && area_has(#[trigger] s[k], e);
        if k < i {
            assert(s[k].addr + s[k].size < s[i].addr);
        } else if k > i {
            assert(s[i].addr + s[i].size < s[k].addr);
        }
        assert(false);
    }
    assert(fits_in(s[i], x, size, align));
}

/// Areas `i - 1` and `i` of `s`, with `[addr, addr + size)` exactly between
/// them, became one area of `t`.
proof fn lemma_merged(s: Seq<Area>, t: Seq<Area>, i: int, base: int, end: int, addr: int, size: int)
    requires
        0 < i < s.len(),
        size > 0,
        areas_wf(s, base, end),
        s[i - 1].addr + s[i - 1].size == addr,
        addr + size == s[i].addr,
        t == s.update(
            i - 1,
            Area { addr: s[i - 1].addr, size: (s[i - 1].size + size + s[i].size) as u64 },
        ).remove(i),
        s[i - 1].size + size + s[i].size <= u64::MAX,
    ensures
        areas_wf(t, base, end),
        forall|b: int| areas_have(t, b) <==> areas_have(s, b) || addr <= b < addr + size,
{
    let na = Area { addr: s[i - 1].addr, size: (s[i - 1].size + size + s[i].size) as u64 };
    assert forall|k: int| 0 <= k < t.len() implies #[trigger] t[k] == (if k < i - 1 {
        s[k]
    } else if k == i - 1 {
        na
    } else {
        s[k + 1]
    }) by {}
    assert forall|b: int| areas_have(t, b) <==> areas_have(s, b) || addr <= b < addr
        + size by {
        if areas_have(t, b) {
            let k = choose|k: int| 0 <= k < t.len() && area_has(#[trigger] t[k], b);
            if k < i - 1 {
                assert(area_has(s[k], b));
            } else if k > i - 1 {
                assert(area_has(s[k + 1], b));
            } else if b < addr {
                assert(area_has(s[i - 1], b));
            } else if b >= addr + size {
                assert(area_has(s[i], b));
            }
        }
        if areas_have(s, b) {
            let k = choose|k: int| 0 <= k < s.len() && area_has(#[trigger] s[k], b);
            let k2 = if k < i { k } else { k - 1 };
            assert(area_has(t[k2], b));
        }
        if addr <= b < addr + size {
            assert(area_has(t[i - 1], b));
        }
    }
    assert(areas_wf(t, base, end)) by {
        assert forall|x: int| 0 <= x < t.len() implies (#[trigger] t[x]).size > 0
            && base <= t[x].addr && t[x].addr + t[x].size <= end by {
            let x2 = if x < i { x } else { x + 1 };
            assert(s[x2].size > 0);
            assert(s[i].size > 0);
        }
        assert forall|x: int, y: int| 0 <= x < y < t.len() implies (#[trigger] t[x]).addr
            + t[x].size < (#[trigger] t[y]).addr by {
            let x2 = if x < i - 1 { x } else { x + 1 };
            let y2 = if y < i { y } else { y + 1 };
            assert(s[x2].addr + s[x2].size < s[y2].addr);
            if x < i - 1 {
                assert(s[x].addr + s[x].size < s[i - 1].addr);
            }
        }
    }
}

/// `[addr, addr + size)`, which touches no area of `s`, became area `i` of
/// `t`.
proof fn lemma_inserted(s: Seq<Area>, t: Seq<Area>, i: int, base: int, end: int, addr: int, size: int)
    requires
        0 <= i <= s.len(),
        0 < size,
        0 <= addr,
        addr + size <= u64::MAX,
        base <= addr,
        addr + size <= end,
        areas_wf(s, base, end),
        t == s.insert(i, Area { addr: addr as u64, size: size as u64 }),
        forall|j: int| 0 <= j < i ==> (#[trigger] s[j]).addr + s[j].size < addr,
        forall|j: int| i <= j < s.len() ==> (#[trigger] s[j]).addr > addr + size,
    ensures
        areas_wf(t, base, end),
        forall|b: int| areas_have(t, b) <==> areas_have(s, b) || addr <= b < addr + size,
{
    let na = Area { addr: addr as u64, size: size as u64 };
    assert forall|k: int| 0 <= k < t.len() implies #[trigger] t[k] == (if k < i {
        s[k]
    } else if k == i {
        na
    } else {
        s[k - 1]
    }) by {}
    assert forall|b: int| areas_have(t, b) <==> areas_have(s, b) || addr <= b < addr
        + size by {
        if areas_have(t, b) {
            let k = choose|k: int| 0 <= k < t.len() && area_has(#[trigger] t[k], b);
            if k < i {
                assert(area_has(s[k], b));
            } else if k > i {
                assert(area_has(s[k - 1], b));
            }
        }
        if areas_have(s, b) {
            let k = choose|k: int| 0 <= k < s.len() && area_has(#[trigger] s[k], b);
            let k2 = if k < i { k } else { k + 1 };
            assert(area_has(t[k2], b));
        }
        if addr <= b < addr + size {
            assert(area_has(t[i], b));
        }
    }
    assert(areas_wf(t, base, end)) by {
        assert forall|x: int| 0 <= x < t.len() implies (#[trigger] t[x]).size > 0
            && base <= t[x].addr && t[x].addr + t[x].size <= end by {
            let x2 = if x < i { x } else { x - 1 };
            if x != i {
                assert(s[x2].size > 0);
            }
        }
        assert forall|x: int, y: int| 0 <= x < y < t.len() implies (#[trigger] t[x]).addr
            + t[x].size < (#[trigger] t[y]).addr by {
            let x2 = if x < i { x } else { x - 1 };
            let y2 = if y < i { y } else { y - 1 };
            if x != i && y != i {
                assert(s[x2].addr + s[x2].size < s[y2].addr);
            } else if x == i {
                assert(s[y2].addr >= addr + size);
            } else {
                assert(s[x2].addr + s[x2].size <= addr);
            }
        }
    }
}

/// The free space of one memory module.
pub struct MemMap {
    areas: Vec<Area>,
    base: u64,
    end: u64,
}

impl MemMap {
    /// The free areas, in ascending order.
    pub closed spec fn areas(&self) -> Seq<Area> {
        self.areas@
    }

    /// First address the map accounts for.
    pub closed spec fn base(&self) -> int {
        self.base as int
    }

    /// One past the last address the map accounts for.
    pub closed spec fn end(&self) -> int {
        self.end as int
    }

    /// The representation invariant.
    pub closed spec fn wf(&self) -> bool {
        &&& self.base <= self.end
        &&& areas_wf(self.areas@, self.base as int, self.end as int)
    }

    /// Byte `b` is free.
    pub open spec fn is_free(&self, b: int) -> bool {
        areas_have(self.areas(), b)
    }

    /// Every byte of `[a, a + size)` is free.
    pub open spec fn range_free(&self, a: int, size: int) -> bool {
        forall|b: int| a <= b < a + size ==> self.is_free(b)
    }

    /// No byte of `[a, a + size)` is free.
    pub open spec fn range_used(&self, a: int, size: int) -> bool {
        forall|b: int| a <= b < a + size ==> !self.is_free(b)
    }

    /// `a` is aligned and free, and so are the `size` bytes from it on.
    pub open spec fn fits(&self, a: int, size: int, align: int) -> bool {
        is_aligned(a, align) && self.is_free(a) && self.range_free(a, size)
    }

    /// The number of free bytes.
    pub open spec fn available(&self) -> nat {
        areas_total(self.areas())
    }

    /// A free byte lies inside the map, and no more is free than the map
    /// spans.
    pub proof fn lemma_bounds(&self)
        requires
            self.wf(),
        ensures
            self.base() <= self.end(),
            0 <= self.base(),
            self.end() <= u64::MAX,
            self.available() <= self.end() - self.base(),
            forall|b: int| self.is_free(b) ==> self.base() <= b < self.end(),
    {
        lemma_total_bound(self.areas@, self.base as int, self.end as int);
    }

    /// A map over `[addr, addr + size)`, all of it free.
    pub fn new(addr: u64, size: u64) -> (m: MemMap)
        requires
            addr + size <= u64::MAX,
        ensures
            m.wf(),
            m.base() == addr,
            m.end() == addr + size,
            m.available() == size,
            forall|b: int| m.is_free(b) <==> addr <= b < addr + size,
    {
        let mut areas: Vec<Area> = Vec::new();
        if size > 0 {
            areas.push(Area { addr, size });
        }
        let m = MemMap { areas, base: addr, end: addr + size };
        proof {
            if size > 0 {
                assert(m.areas@ =~= seq![Area { addr, size }]);
                assert(m.areas@.drop_last() =~= Seq::<Area>::empty());
                assert(areas_total(m.areas@.drop_last()) == 0);
                assert forall|b: int| addr <= b < addr + size implies m.is_free(b) by {
                    assert(area_has(m.areas@[0], b));
                }
            }
        }
        m
    }

    /// The lowest aligned free address from which `size` bytes are free, and
    /// the area it lies in; nothing where there is no such address.
    pub fn find_fit(&self, size: u64, align: u64) -> (r: Option<(usize, u64)>)
        requires
            self.wf(),
        ensures
            match r {
                Some((i, start)) => {
                    &&& i < self.areas().len()
                    &&& fits_in(self.areas()[i as int], start as int, size as int, align as int)
                    &&& self.fits(start as int, size as int, align as int)
                    &&& forall|a: int| a < start ==> !self.fits(a, size as int, align as int)
                },
                None => forall|a: int| !self.fits(a, size as int, align as int),
            },
    {
        if align == 0 {
            return None;
        }
        let n = self.areas.len();
        let mut i: usize = 0;
        while i < n
            invariant
                0 <= i <= n,
                n == self.areas@.len(),
                align > 0,
                self.wf(),
                forall|j: int, x: int|
                    0 <= j < i ==> !#[trigger] fits_in(
                        self.areas@[j],
                        x,
                        size as int,
                        align as int,
                    ),
            decreases n - i,
        {
            let a = self.areas[i];
            let rem = a.addr % align;
            let gap = if rem == 0 {
                0
            } else {
                align - rem
            };
            proof {
                lemma_align_gap(a.addr as int, align as int, 0);
                assert(gap == align_gap(a.addr as int, align as int));
            }
            if a.size > gap && a.size - gap >= size {
                let start = a.addr + gap;
                proof {
                    let s = self.areas@;
                    assert(fits_in(s[i as int], start as int, size as int, align as int));
                    assert(self.is_free(start as int));
                    assert forall|b: int| start <= b < start + size implies self.is_free(b) by {
                        assert(area_has(s[i as int], b));
                    }
                    assert forall|x: int| x < start implies !self.fits(
                        x,
                        size as int,
                        align as int,
                    ) by {
                        if self.fits(x, size as int, align as int) {
                            assert forall|b: int| x <= b < x + size implies areas_have(s, b) by {
                                assert(self.is_free(b));
                            }
                            lemma_fit_in_one(
                                s,
                                self.base as int,
                                self.end as int,
                                x,
                                size as int,
                                align as int,
                            );
                            let k = choose|k: int|
                                0 <= k < s.len() && fits_in(
                                    #[trigger] s[k],
                                    x,
                                    size as int,
                                    align as int,
                                );
                            if k == i {
                                lemma_align_gap(a.addr as int, align as int, x);
                            } else if k > i {
                                assert(s[i as int].addr + s[i as int].size < s[k].addr);
                            }
                        }
                    }
                }
                return Some((i, start));
            }
            proof {
                assert forall|x: int| !fits_in(
                    self.areas@[i as int],
                    x,
                    size as int,
                    align as int,
                ) by {
                    lemma_align_gap(a.addr as int, align as int, x);
                }
            }
            i += 1;
        }
        proof {
            let s = self.areas@;
            assert forall|x: int| !self.fits(x, size as int, align as int) by {
                if self.fits(x, size as int, align as int) {
                    assert forall|b: int| x <= b < x + size implies areas_have(s, b) by {
                        assert(self.is_free(b));
                    }
                    lemma_fit_in_one(
                        s,
                        self.base as int,
                        self.end as int,
                        x,
                        size as int,
                        align as int,
                    );
                }
            }
        }
        None
    }

    /// Takes `size` bytes at the lowest aligned free address from which that
    /// many bytes are free, and returns this address. Where there is none,
    /// the map stays as it is and the error is `OutOfMem`.
    pub fn allocate(&mut self, size: u64, align: u64) -> (r: Result<u64, Error>)
        requires
            old(self).wf(),
        ensures
            final(self).wf(),
            final(self).base() == old(self).base(),
            final(self).end() == old(self).end(),
            match r {
                Ok(addr) => {
                    &&& old(self).fits(addr as int, size as int, align as int)
                    &&& forall|a: int| a < addr ==> !old(self).fits(a, size as int, align as int)
                    &&& forall|b: int|
                        final(self).is_free(b) <==> old(self).is_free(b) && !(addr <= b < addr
                            + size)
                    &&& final(self).available() == old(self).available() - size
                },
                Err(e) => {
                    &&& e.code() == Code::OutOfMem
                    &&& forall|a: int| !old(self).fits(a, size as int, align as int)
                    &&& *final(self) == *old(self)
                },
            },
    {
        match self.find_fit(size, align) {
            None => Err(Error::new(Code::OutOfMem)),
            Some((i, start)) => {
                if size > 0 {
                    let gap = start - self.areas[i].addr;
                    self.carve(i, gap, size);
                }
                Ok(start)
            },
        }
    }

    /// Removes `[addr + gap, addr + gap + size)` from area `i`, whose start is
    /// `addr`.
    fn carve(&mut self, i: usize, gap: u64, size: u64)
        requires
            old(self).wf(),
            i < old(self).areas@.len(),
            gap < old(self).areas@[i as int].size,
            gap + size <= old(self).areas@[i as int].size,
            size > 0,
        ensures
            final(self).wf(),
            final(self).base == old(self).base,
            final(self).end == old(self).end,
            forall|b: int|
                final(self).is_free(b) <==> old(self).is_free(b) && !(old(self).areas@[i as int].addr
                    + gap <= b < old(self).areas@[i as int].addr + gap + size),
            final(self).available() == old(self).available() - size,
    {
        let n = self.areas.len();
        let a = self.areas[i];
        let start = a.addr + gap;
        let rest = a.size - gap - size;
        let ghost s = self.areas@;
        if gap == 0 && rest == 0 {
            self.areas.remove(i);
            proof {
                let t = self.areas@;
                lemma_total_remove(s, i as int);
                assert forall|k: int| 0 <= k < t.len() implies #[trigger] t[k] == s[if k < i {
                    k
                } else {
                    k + 1
                }] by {}
                assert forall|b: int| areas_have(t, b) <==> areas_have(s, b) && !(start <= b
                    < start + size) by {
                    if areas_have(t, b) {
                        let k = choose|k: int| 0 <= k < t.len() && area_has(#[trigger] t[k], b);
                        let k2 = if k < i { k } else { k + 1 };
                        assert(area_has(s[k2], b));
                        if k2 < i {
                            assert(s[k2].addr + s[k2].size < s[i as int].addr);
                        } else {
                            assert(s[i as int].addr + s[i as int].size < s[k2].addr);
                        }
                    }
                    if areas_have(s, b) && !(start <= b < start + size) {
                        let k = choose|k: int| 0 <= k < s.len() && area_has(#[trigger] s[k], b);
                        let k2 = if k < i { k } else { k - 1 };
                        assert(area_has(t[k2], b));
                    }
                }
                assert(areas_wf(t, self.base as int, self.end as int)) by {
                    assert forall|x: int, y: int| 0 <= x < y < t.len() implies (#[trigger] t[x]).addr
                        + t[x].size < (#[trigger] t[y]).addr by {
                        let x2 = if x < i { x } else { x + 1 };
                        let y2 = if y < i { y } else { y + 1 };
                        assert(s[x2].addr + s[x2].size < s[y2].addr);
                    }
                }
            }
        } else if gap == 0 {
            let na = Area { addr: start + size, size: rest };
            self.areas.set(i, na);
            proof {
                lemma_total_update(s, i as int, na);
                self.lemma_shrunk(s, i as int, na, start as int, size as int);
            }
        } else if rest == 0 {
            let na = Area { addr: a.addr, size: gap };
            self.areas.set(i, na);
            proof {
                lemma_total_update(s, i as int, na);
                self.lemma_shrunk(s, i as int, na, start as int, size as int);
            }
        } else {
            let front = Area { addr: a.addr, size: gap };
            let back = Area { addr: start + size, size: rest };
            self.areas.set(i, front);
            self.areas.insert(i + 1, back);
            proof {
                let m = s.update(i as int, front);
                let t = self.areas@;
                assert(t == m.insert(i as int + 1, back));
                lemma_total_update(s, i as int, front);
                lemma_total_insert(m, i as int + 1, back);
                assert forall|k: int| 0 <= k < t.len() implies #[trigger] t[k] == (if k < i {
                    s[k]
                } else if k == i {
                    front
                } else if k == i + 1 {
                    back
                } else {
                    s[k - 1]
                }) by {}
                assert forall|b: int| areas_have(t, b) <==> areas_have(s, b) && !(start <= b
                    < start + size) by {
                    if areas_have(t, b) {
                        let k = choose|k: int| 0 <= k < t.len() && area_has(#[trigger] t[k], b);
                        let k2 = if k <= i { k } else { k - 1 };
                        assert(area_has(s[k2], b));
                        if k2 < i {
                            assert(s[k2].addr + s[k2].size < s[i as int].addr);
                        } else if k2 > i {
                            assert(s[i as int].addr + s[i as int].size < s[k2].addr);
                        }
                    }
                    if areas_have(s, b) && !(start <= b < start + size) {
                        let k = choose|k: int| 0 <= k < s.len() && area_has(#[trigger] s[k], b);
                        if k < i {
                            assert(area_has(t[k], b));
                        } else if k > i {
                            assert(area_has(t[k + 1], b));
                        } else if b < start {
                            assert(area_has(t[i as int], b));
                        } else {
                            assert(area_has(t[i as int + 1], b));
                        }
                    }
                }
                assert(areas_wf(t, self.base as int, self.end as int)) by {
                    assert forall|x: int| 0 <= x < t.len() implies (#[trigger] t[x]).size > 0
                        && self.base <= t[x].addr && t[x].addr + t[x].size <= self.end by {
                        let x2 = if x <= i { x } else { x - 1 };
                        assert(s[x2].size > 0);
                    }
                    assert forall|x: int, y: int| 0 <= x < y < t.len() implies (#[trigger] t[x]).addr
                        + t[x].size < (#[trigger] t[y]).addr by {
                        let x2 = if x <= i { x } else { x - 1 };
                        let y2 = if y <= i { y } else { y - 1 };
                        if x2 < y2 {
                            assert(s[x2].addr + s[x2].size < s[y2].addr);
                        }
                    }
                }
            }
        }
    }

    /// Whether no byte of `[addr, addr + size)` is free.
    pub fn is_used(&self, addr: u64, size: u64) -> (b: bool)
        requires
            self.wf(),
            addr + size <= u64::MAX,
        ensures
            b == self.range_used(addr as int, size as int),
    {
        if size == 0 {
            return true;
        }
        let n = self.areas.len();
        let mut i: usize = 0;
        while i < n
            invariant
                0 <= i <= n,
                n == self.areas@.len(),
                self.wf(),
                size > 0,
                addr + size <= u64::MAX,
                forall|j: int, b: int|
                    0 <= j < i && addr <= b < addr + size ==> !#[trigger] area_has(self.areas@[j], b),
            decreases n - i,
        {
            let a = self.areas[i];
            if a.addr < addr + size && addr < a.addr + a.size {
                proof {
                    let b = if a.addr >= addr { a.addr as int } else { addr as int };
                    assert(area_has(self.areas@[i as int], b));
                    assert(self.is_free(b));
                }
                return false;
            }
            i += 1;
        }
        true
    }

    /// Gives `[addr, addr + size)`, none of which is free, back to the map and
    /// merges it with the free areas that it touches.
    pub fn free(&mut self, addr: u64, size: u64)
        requires
            old(self).wf(),
            old(self).base() <= addr,
            addr + size <= old(self).end(),
            old(self).range_used(addr as int, size as int),
        ensures
            final(self).wf(),
            final(self).base() == old(self).base(),
            final(self).end() == old(self).end(),
            forall|b: int|
                final(self).is_free(b) <==> old(self).is_free(b) || addr <= b < addr + size,
            final(self).available() == old(self).available() + size,
    {
        if size == 0 {
            return ;
        }
        let n = self.areas.len();
        let ghost s = self.areas@;
        let mut i: usize = 0;
        while i < n && self.areas[i].addr <= addr
            invariant
                0 <= i <= n,
                n == self.areas@.len(),
                *self == *old(self),
                forall|j: int| 0 <= j < i ==> (#[trigger] self.areas@[j]).addr <= addr,
            decreases n - i,
        {
            i += 1;
        }
        proof {
            assert(!self.is_free(addr as int));
            assert(!self.is_free(addr + size - 1));
            assert forall|j: int| 0 <= j < i implies (#[trigger] s[j]).addr + s[j].size
                <= addr by {
                if s[j].addr + s[j].size > addr {
                    assert(area_has(s[j], addr as int));
                }
            }
            assert forall|j: int| i <= j < n implies (#[trigger] s[j]).addr >= addr + size by {
                if i < j {
                    assert(s[i as int].addr + s[i as int].size < s[j].addr);
                }
                if s[j].addr < addr + size {
                    assert(!self.is_free(s[j].addr as int));
                    assert(area_has(s[j], s[j].addr as int));
                }
            }
        }
        let with_prev = i > 0 && self.areas[i - 1].addr + self.areas[i - 1].size == addr;
        let with_next = i < n && addr + size == self.areas[i].addr;
        if with_prev && with_next {
            let p = self.areas[i - 1];
            let x = self.areas[i];
            let na = Area { addr: p.addr, size: p.size + size + x.size };
            self.areas.set(i - 1, na);
            self.areas.remove(i);
            proof {
                let m = s.update(i - 1, na);
                assert(self.areas@ == m.remove(i as int));
                lemma_total_update(s, i - 1, na);
                lemma_total_remove(m, i as int);
                lemma_merged(s, self.areas@, i as int, self.base as int, self.end as int, addr as int, size as int);
            }
        } else if with_prev {
            let p = self.areas[i - 1];
            let na = Area { addr: p.addr, size: p.size + size };
            self.areas.set(i - 1, na);
            proof {
                lemma_total_update(s, i - 1, na);
                self.lemma_grown(s, i - 1, na, addr as int, size as int);
            }
        } else if with_next {
            let x = self.areas[i];
            let na = Area { addr: addr, size: size + x.size };
            self.areas.set(i, na);
            proof {
                lemma_total_update(s, i as int, na);
                self.lemma_grown(s, i as int, na, addr as int, size as int);
            }
        } else {
            let na = Area { addr, size };
            self.areas.insert(i, na);
            proof {
                lemma_total_insert(s, i as int, na);
                lemma_inserted(s, self.areas@, i as int, self.base as int, self.end as int, addr as int, size as int);
            }
        }
    }

    /// The number of free bytes.
    pub fn size(&self) -> (total: u64)
        requires
            self.wf(),
        ensures
            total == self.available(),
    {
        let n = self.areas.len();
        let mut total: u64 = 0;
        let mut i: usize = 0;
        while i < n
            invariant
                0 <= i <= n,
                n == self.areas@.len(),
                self.wf(),
                total == areas_total(self.areas@.take(i as int)),
            decreases n - i,
        {
            proof {
                let t = self.areas@.take(i as int + 1);
                assert(t.drop_last() =~= self.areas@.take(i as int));
                assert(areas_wf(t, self.base as int, self.end as int));
                lemma_total_bound(t, self.base as int, self.end as int);
            }
            total = total + self.areas[i].size;
            i += 1;
        }
        proof {
            assert(self.areas@.take(n as int) =~= self.areas@);
        }
        total
    }

    /// Area `i` of `s` was replaced by `na`, which is that area and
    /// `[start, start + size)`, free of all areas, at one of its ends.
    proof fn lemma_grown(&self, s: Seq<Area>, i: int, na: Area, start: int, size: int)
        requires
            0 <= i < s.len(),
            self.base <= self.end,
            areas_wf(s, self.base as int, self.end as int),
            self.areas@ == s.update(i, na),
            size > 0,
            self.base <= start,
            start + size <= self.end,
            forall|j: int| 0 <= j < i ==> (#[trigger] s[j]).addr + s[j].size < na.addr,
            forall|j: int| i < j < s.len() ==> na.addr + na.size < (#[trigger] s[j]).addr,
            (na.addr == s[i].addr && start == s[i].addr + s[i].size && start + size == na.addr
                + na.size) || (start == na.addr && s[i].addr == start + size && na.addr + na.size
                == s[i].addr + s[i].size),
        ensures
            self.wf(),
            forall|b: int| areas_have(self.areas@, b) <==> areas_have(s, b) || start <= b < start + size,
    {
        let t = self.areas@;
        assert(s[i].size > 0);
        assert forall|b: int| areas_have(t, b) <==> areas_have(s, b) || start <= b < start
            + size by {
            if areas_have(t, b) {
                let k = choose|k: int| 0 <= k < t.len() && area_has(#[trigger] t[k], b);
                if k != i {
                    assert(area_has(s[k], b));
                } else if !(start <= b < start + size) {
                    assert(area_has(s[i], b));
                }
            }
            if areas_have(s, b) {
                let k = choose|k: int| 0 <= k < s.len() && area_has(#[trigger] s[k], b);
                assert(area_has(t[k], b));
            }
            if start <= b < start + size {
                assert(area_has(t[i], b));
            }
        }
        assert(areas_wf(t, self.base as int, self.end as int)) by {
            assert forall|x: int| 0 <= x < t.len() implies (#[trigger] t[x]).size > 0 && self.base
                <= t[x].addr && t[x].addr + t[x].size <= self.end by {
                assert(s[x].size > 0);
            }
            assert forall|x: int, y: int| 0 <= x < y < t.len() implies (#[trigger] t[x]).addr
                + t[x].size < (#[trigger] t[y]).addr by {
                assert(s[x].addr + s[x].size < s[y].addr);
            }
        }
    }

    /// Area `i` of `s` was replaced by `na`, which is what is left of it
    /// without `[start, start + size)` at one of its ends.
    proof fn lemma_shrunk(&self, s: Seq<Area>, i: int, na: Area, start: int, size: int)
        requires
            0 <= i < s.len(),
            self.base <= self.end,
            areas_wf(s, self.base as int, self.end as int),
            self.areas@ == s.update(i, na),
            na.size > 0,
            size >= 0,
            (na.addr == s[i].addr && start == na.addr + na.size && start + size == s[i].addr
                + s[i].size) || (start == s[i].addr && na.addr == start + size && na.addr
                + na.size == s[i].addr + s[i].size),
        ensures
            self.wf(),
            forall|b: int|
                areas_have(self.areas@, b) <==> areas_have(s, b) && !(start <= b < start + size),
    {
        let t = self.areas@;
        assert forall|b: int| areas_have(t, b) <==> areas_have(s, b) && !(start <= b < start
            + size) by {
            if areas_have(t, b) {
                let k = choose|k: int| 0 <= k < t.len() && area_has(#[trigger] t[k], b);
                assert(area_has(s[k], b));
                if k < i {
                    assert(s[k].addr + s[k].size < s[i].addr);
                } else if k > i {
                    assert(s[i].addr + s[i].size < s[k].addr);
                }
            }
            if areas_have(s, b) && !(start <= b < start + size) {
                let k = choose|k: int| 0 <= k < s.len() && area_has(#[trigger] s[k], b);
                assert(area_has(t[k], b));
            }
        }
        assert(areas_wf(t, self.base as int, self.end as int)) by {
            assert forall|x: int| 0 <= x < t.len() implies (#[trigger] t[x]).size > 0 && self.base
                <= t[x].addr && t[x].addr + t[x].size <= self.end by {
                assert(s[x].size > 0);
            }
            assert forall|x: int, y: int| 0 <= x < y < t.len() implies (#[trigger] t[x]).addr
                + t[x].size < (#[trigger] t[y]).addr by {
                assert(s[x].addr + s[x].size < s[y].addr);
            }
        }
    }
}

} // verus!
