//! The capability table: which VPE holds which capability at which selector,
//! and from which capability each one was derived.

use vstd::prelude::*;
use crate::addr::GlobAddr;
use crate::errors::{Code, Error};
use crate::kif::{sel_end, sel_valid, CapRngDesc, CapSel, CapType, Perm, ServName, VpeId};

verus! {

/// The kernel object a capability stands for.
#[derive(Clone, Copy, Debug)]
pub enum KObject {
    /// A receive gate with a buffer of `2^total_order` bytes in slots of
    /// `2^slot_order` bytes.
    RGate { slot_order: u32, total_order: u32 },
    /// A send gate to the receive gate whose capability has the identity
    /// `rgate`.
    SGate { rgate: u64, label: u64, credits: u64 },
    /// A window of `size` bytes at `addr`. The capability that is `owned`
    /// answers for the region: the memory goes back when it is destroyed.
    MGate { addr: GlobAddr, size: usize, perm: Perm, owned: bool },
    /// A VPE.
    Vpe { id: VpeId },
    /// The service `name`, which takes its requests at the receive gate whose
    /// capability has the identity `rgate`.
    Serv { rgate: u64, name: ServName },
    /// A session at the service whose capability has the identity `srv`.
    Sess { srv: u64, arg: u64 },
    /// The mapping of one page of a run of pages that starts with page
    /// `first`, which is mapped to the memory at `addr`.
    Mapped { addr: GlobAddr, first: CapSel, perm: Perm },
}

/// A capability. `id` is its identity, which it keeps when it moves to another
/// selector; `parent` is the identity of the capability it was derived from.
#[derive(Clone, Copy, Debug)]
pub struct Capability {
    pub id: u64,
    pub vpe: VpeId,
    pub ty: CapType,
    pub sel: CapSel,
    pub parent: Option<u64>,
    pub obj: KObject,
}

impl Capability {
    /// The capability is the one of `vpe` at `sel` in space `ty`.
    pub open spec fn is_at(&self, vpe: VpeId, ty: CapType, sel: CapSel) -> bool {
        self.vpe == vpe && self.ty == ty && self.sel == sel
    }

    /// The capability is one of `vpe` in the run `crd`.
    pub open spec fn in_range(&self, vpe: VpeId, crd: CapRngDesc) -> bool {
        self.vpe == vpe && self.ty == crd.ty && crd.has(self.sel)
    }
}

/// The capability of `s` with the identity `id`.
pub open spec fn cap_by_id(s: Seq<Capability>, id: u64) -> Option<Capability>
    decreases s.len(),
{
    if s.len() == 0 {
        None
    } else if s.last().id == id {
        Some(s.last())
    } else {
        cap_by_id(s.drop_last(), id)
    }
}

/// The capability of `s` that `vpe` holds at `sel` in space `ty`.
pub open spec fn cap_at(s: Seq<Capability>, vpe: VpeId, ty: CapType, sel: CapSel) -> Option<
    Capability,
>
    decreases s.len(),
{
    if s.len() == 0 {
        None
    } else if s.last().is_at(vpe, ty, sel) {
        Some(s.last())
    } else {
        cap_at(s.drop_last(), vpe, ty, sel)
    }
}

/// The capability with identity `d` was derived, in one step or several,
/// from the one with identity `a`.
pub open spec fn descends(s: Seq<Capability>, d: u64, a: u64) -> bool
    decreases d,
{
    match cap_by_id(s, d) {
        Some(c) => match c.parent {
            Some(p) => p < d && (p == a || descends(s, p, a)),
            None => false,
        },
        None => false,
    }
}

/// Identities ascend along `s` and lie below `next_id`, no selector is taken
/// twice, and each parent stands in `s` before what was derived from it.
pub open spec fn caps_wf(s: Seq<Capability>, next_id: u64) -> bool {
    &&& forall|i: int, j: int| 0 <= i < j < s.len() ==> (#[trigger] s[i]).id < (#[trigger] s[j]).id
    &&& forall|i: int| 0 <= i < s.len() ==> (#[trigger] s[i]).id < next_id
    &&& forall|i: int, j: int|
        0 <= i < j < s.len() ==> !(#[trigger] s[i]).is_at(
            (#[trigger] s[j]).vpe,
            s[j].ty,
            s[j].sel,
        )
    &&& forall|i: int|
        0 <= i < s.len() && (#[trigger] s[i]).parent is Some ==> s[i].parent->0 < s[i].id
            && cap_by_id(s, s[i].parent->0) is Some
}

/// What `cap_by_id` finds has the identity and stands in the table; where
/// it finds nothing, no capability of the table has the identity.
pub proof fn lemma_by_id(s: Seq<Capability>, id: u64)
    ensures
        match cap_by_id(s, id) {
            Some(c) => c.id == id && s.contains(c),
            None => forall|i: int| 0 <= i < s.len() ==> (#[trigger] s[i]).id != id,
        },
    decreases s.len(),
{
    if s.len() > 0 {
        if s.last().id == id {
            assert(s[s.len() - 1] == s.last());
        } else {
            let t = s.drop_last();
            lemma_by_id(t, id);
            match cap_by_id(t, id) {
                Some(c) => {
                    let i = choose|i: int| 0 <= i < t.len() && t[i] == c;
                    assert(s[i] == c);
                },
                None => {
                    assert forall|i: int| 0 <= i < s.len() implies (#[trigger] s[i]).id != id by {
                        if i < t.len() {
                            assert(t[i] == s[i]);
                        }
                    }
                },
            }
        }
    }
}

/// Where identities ascend, `cap_by_id` finds each capability of the table by
/// its identity.
pub proof fn lemma_by_id_at(s: Seq<Capability>, i: int)
    requires
        0 <= i < s.len(),
        forall|x: int, y: int| 0 <= x < y < s.len() ==> (#[trigger] s[x]).id < (#[trigger] s[y]).id,
    ensures
        cap_by_id(s, s[i].id) == Some(s[i]),
    decreases s.len(),
{
    if i < s.len() - 1 {
        assert(s[i].id < s[s.len() - 1].id);
        let t = s.drop_last();
        assert(t[i] == s[i]);
        assert forall|x: int, y: int| 0 <= x < y < t.len() implies (#[trigger] t[x]).id < (
        #[trigger] t[y]).id by {
            assert(t[x] == s[x] && t[y] == s[y]);
        }
        lemma_by_id_at(t, i);
    }
}

/// What `cap_at` finds is at the selector and stands in the table; where it
/// finds nothing, no capability of the table is at the selector.
pub proof fn lemma_at(s: Seq<Capability>, vpe: VpeId, ty: CapType, sel: CapSel)
    ensures
        match cap_at(s, vpe, ty, sel) {
            Some(c) => c.is_at(vpe, ty, sel) && s.contains(c),
            None => forall|i: int| 0 <= i < s.len() ==> !(#[trigger] s[i]).is_at(vpe, ty, sel),
        },
    decreases s.len(),
{
    if s.len() > 0 {
        if s.last().is_at(vpe, ty, sel) {
            assert(s[s.len() - 1] == s.last());
        } else {
            let t = s.drop_last();
            lemma_at(t, vpe, ty, sel);
            match cap_at(t, vpe, ty, sel) {
                Some(c) => {
                    let i = choose|i: int| 0 <= i < t.len() && t[i] == c;
                    assert(s[i] == c);
                },
                None => {
                    assert forall|i: int| 0 <= i < s.len() implies !(#[trigger] s[i]).is_at(
                        vpe,
                        ty,
                        sel,
                    ) by {
                        if i < t.len() {
                            assert(t[i] == s[i]);
                        }
                    }
                },
            }
        }
    }
}

/// Where no selector is taken twice, `cap_at` finds each capability of the
/// table at its selector.
pub proof fn lemma_at_index(s: Seq<Capability>, i: int)
    requires
        0 <= i < s.len(),
        forall|x: int, y: int|
            0 <= x < y < s.len() ==> !(#[trigger] s[x]).is_at(
                (#[trigger] s[y]).vpe,
                s[y].ty,
                s[y].sel,
            ),
    ensures
        cap_at(s, s[i].vpe, s[i].ty, s[i].sel) == Some(s[i]),
    decreases s.len(),
{
    if i < s.len() - 1 {
        assert(!s[i].is_at(s[s.len() - 1].vpe, s[s.len() - 1].ty, s[s.len() - 1].sel));
        let t = s.drop_last();
        assert(t[i] == s[i]);
        assert forall|x: int, y: int| 0 <= x < y < t.len() implies !(#[trigger] t[x]).is_at(
            (#[trigger] t[y]).vpe,
            t[y].ty,
            t[y].sel,
        ) by {
            assert(t[x] == s[x] && t[y] == s[y]);
        }
        lemma_at_index(t, i);
    }
}

/// What `cap_at` finds in a table with one more capability behind it: that
/// capability if it is at the selector, else what it finds in the table.
pub proof fn lemma_at_push(s: Seq<Capability>, c: Capability, vpe: VpeId, ty: CapType, sel: CapSel)
    ensures
        cap_at(s.push(c), vpe, ty, sel) == if c.is_at(vpe, ty, sel) {
            Some(c)
        } else {
            cap_at(s, vpe, ty, sel)
        },
{
    assert(s.push(c).drop_last() =~= s);
}

/// What `cap_by_id` finds in a table with one more capability behind it:
/// that capability if it has the identity, else what it finds in the table.
pub proof fn lemma_by_id_push(s: Seq<Capability>, c: Capability, id: u64)
    ensures
        cap_by_id(s.push(c), id) == if c.id == id {
            Some(c)
        } else {
            cap_by_id(s, id)
        },
{
    assert(s.push(c).drop_last() =~= s);
}

/// In a table that holds nothing but capabilities of a well-formed table
/// `s`, `cap_by_id` finds what it finds in `s`, if it finds anything.
pub proof fn lemma_by_id_sub(s: Seq<Capability>, next: u64, t: Seq<Capability>, id: u64)
    requires
        caps_wf(s, next),
        forall|c: Capability| t.contains(c) ==> s.contains(c),
        cap_by_id(t, id) is Some,
    ensures
        cap_by_id(t, id) == cap_by_id(s, id),
{
    lemma_by_id(t, id);
    let c = cap_by_id(t, id)->0;
    assert(s.contains(c));
    let i = choose|i: int| 0 <= i < s.len() && s[i] == c;
    lemma_by_id_at(s, i);
}

/// In two tables with the same identities and objects at the same places,
/// `cap_by_id` finds capabilities for the same object, or nothing in both.
pub proof fn lemma_by_id_same_objs(s: Seq<Capability>, t: Seq<Capability>, id: u64)
    requires
        s.len() == t.len(),
        forall|i: int|
            0 <= i < s.len() ==> (#[trigger] s[i]).id == (#[trigger] t[i]).id && s[i].obj == t[i].obj,
    ensures
        cap_by_id(s, id) is Some <==> cap_by_id(t, id) is Some,
        cap_by_id(s, id) is Some ==> cap_by_id(s, id)->0.obj == cap_by_id(t, id)->0.obj,
    decreases s.len(),
{
    if s.len() > 0 {
        assert(s.last().id == t.last().id && s.last().obj == t.last().obj);
        let s1 = s.drop_last();
        let t1 = t.drop_last();
        assert forall|i: int| 0 <= i < s1.len() implies (#[trigger] s1[i]).id == (#[trigger] t1[i]).id
            && s1[i].obj == t1[i].obj by {
            assert(s1[i] == s[i] && t1[i] == t[i]);
        }
        lemma_by_id_same_objs(s1, t1, id);
    }
}

/// Derivation is transitive.
pub proof fn lemma_descends_trans(s: Seq<Capability>, c: u64, b: u64, a: u64)
    requires
        descends(s, c, b),
        descends(s, b, a),
    ensures
        descends(s, c, a),
    decreases c,
{
    let p = cap_by_id(s, c)->0.parent->0;
    if p != b {
        lemma_descends_trans(s, p, b, a);
    }
}

/// What was derived has the greater identity.
pub proof fn lemma_descends_greater(s: Seq<Capability>, d: u64, a: u64)
    requires
        descends(s, d, a),
    ensures
        a < d,
    decreases d,
{
    let p = cap_by_id(s, d)->0.parent->0;
    if p != a {
        lemma_descends_greater(s, p, a);
    }
}

/// In a well-formed table that holds nothing but capabilities of `s`,
/// a capability descends from what it descends from in `s`.
pub proof fn lemma_descends_sub(
    s: Seq<Capability>,
    ns: u64,
    t: Seq<Capability>,
    nt: u64,
    d: u64,
    a: u64,
)
    requires
        caps_wf(s, ns),
        caps_wf(t, nt),
        forall|c: Capability| t.contains(c) ==> s.contains(c),
        cap_by_id(t, d) is Some,
    ensures
        descends(t, d, a) == descends(s, d, a),
    decreases d,
{
    lemma_by_id(t, d);
    let c = cap_by_id(t, d)->0;
    assert(s.contains(c));
    let i = choose|i: int| 0 <= i < s.len() && s[i] == c;
    lemma_by_id_at(s, i);
    if let Some(p) = c.parent {
        if p < d && p != a {
            let x = choose|x: int| 0 <= x < t.len() && t[x] == c;
            assert(t[x].parent is Some);
            lemma_descends_sub(s, ns, t, nt, p, a);
        }
    }
}

/// Revoking the capability with identity `root` takes `c` away: `c` was
/// derived from it, or is that capability and `own` is set.
pub open spec fn gone(s: Seq<Capability>, root: u64, own: bool, c: Capability) -> bool {
    (own && c.id == root) || descends(s, c.id, root)
}

/// `part` holds, by ascending identity, the capabilities of `s` that go
/// (`want` true) or stay (`want` false) when `root` is revoked.
pub open spec fn is_part(
    s: Seq<Capability>,
    part: Seq<Capability>,
    root: u64,
    own: bool,
    want: bool,
) -> bool {
    &&& forall|c: Capability|
        #[trigger] part.contains(c) <==> s.contains(c) && gone(s, root, own, c) == want
    &&& forall|x: int, y: int|
        0 <= x < y < part.len() ==> (#[trigger] part[x]).id < (#[trigger] part[y]).id
}

/// `batch` holds, by descending identity, the capabilities of `s` that go
/// when `root` is revoked: what was derived stands before what it was
/// derived from.
pub open spec fn is_batch(s: Seq<Capability>, batch: Seq<Capability>, root: u64, own: bool) -> bool {
    &&& forall|c: Capability|
        #[trigger] batch.contains(c) <==> s.contains(c) && gone(s, root, own, c)
    &&& forall|x: int, y: int|
        0 <= x < y < batch.len() ==> (#[trigger] batch[x]).id > (#[trigger] batch[y]).id
}

/// What stays of a well-formed table when a capability is revoked is a
/// well-formed table.
pub proof fn lemma_kept_wf(s: Seq<Capability>, next: u64, kept: Seq<Capability>, root: u64, own: bool)
    requires
        caps_wf(s, next),
        is_part(s, kept, root, own, false),
    ensures
        caps_wf(kept, next),
{
    assert forall|i: int| 0 <= i < kept.len() implies (#[trigger] kept[i]).id < next by {
        assert(kept.contains(kept[i]));
        let j = choose|j: int| 0 <= j < s.len() && s[j] == kept[i];
        assert(s[j].id < next);
    }
    assert forall|x: int, y: int| 0 <= x < y < kept.len() implies !(#[trigger] kept[x]).is_at(
        (#[trigger] kept[y]).vpe,
        kept[y].ty,
        kept[y].sel,
    ) by {
        assert(kept.contains(kept[x]));
        assert(kept.contains(kept[y]));
        let jx = choose|j: int| 0 <= j < s.len() && s[j] == kept[x];
        let jy = choose|j: int| 0 <= j < s.len() && s[j] == kept[y];
        if jx < jy {
            assert(!s[jx].is_at(s[jy].vpe, s[jy].ty, s[jy].sel));
        } else if jy < jx {
            assert(!s[jy].is_at(s[jx].vpe, s[jx].ty, s[jx].sel));
        }
    }
    assert forall|i: int| 0 <= i < kept.len() && (#[trigger] kept[i]).parent is Some implies kept[i].parent->0
        < kept[i].id && cap_by_id(kept, kept[i].parent->0) is Some by {
        let c = kept[i];
        let p = c.parent->0;
        assert(kept.contains(c));
        let j = choose|j: int| 0 <= j < s.len() && s[j] == c;
        assert(s[j].parent is Some);
        lemma_by_id(s, p);
        let cp = cap_by_id(s, p)->0;
        lemma_by_id_at(s, j);
        assert(!gone(s, root, own, cp)) by {
            if gone(s, root, own, cp) {
                assert(descends(s, c.id, root));
            }
        }
        assert(kept.contains(cp));
        let x = choose|x: int| 0 <= x < kept.len() && kept[x] == cp;
        lemma_by_id_at(kept, x);
    }
}

/// Revoking, with `own`, the selectors `lo` to `hi - 1` of `vpe` in space `ty`
/// takes `c` away: one of the capabilities of `s` at these selectors takes it
/// with it.
pub open spec fn killed(
    s: Seq<Capability>,
    vpe: VpeId,
    ty: CapType,
    lo: int,
    hi: int,
    own: bool,
    c: Capability,
) -> bool {
    exists|r: Capability|
        #[trigger] s.contains(r) && r.vpe == vpe && r.ty == ty && lo <= r.sel < hi && gone(
            s,
            r.id,
            own,
            c,
        )
}

/// Revoking the run `crd` of `vpe` takes `c` away.
pub open spec fn dies(s: Seq<Capability>, vpe: VpeId, crd: CapRngDesc, own: bool, c: Capability) -> bool {
    killed(s, vpe, crd.ty, crd.start as int, crd.start + crd.count, own, c)
}

/// `d` lists what a revocation of the selectors from `lo` on has destroyed in
/// an order that a walk by ascending selector, each subtree from the leaves
/// up, can give: nothing stands behind what it was derived from, and what a
/// shorter run of selectors takes away stands before what only a longer one
/// does.
pub open spec fn revoke_order(
    s: Seq<Capability>,
    d: Seq<Capability>,
    vpe: VpeId,
    ty: CapType,
    lo: int,
    own: bool,
) -> bool {
    &&& forall|x: int, y: int|
        0 <= x < y < d.len() ==> !descends(s, (#[trigger] d[y]).id, (#[trigger] d[x]).id)
    &&& forall|x: int, y: int, hi: int|
        0 <= x < y < d.len() && #[trigger] killed(s, vpe, ty, lo, hi, own, d[y]) ==> #[trigger] killed(
            s,
            vpe,
            ty,
            lo,
            hi,
            own,
            d[x],
        )
}

/// What a run of selectors takes away, a longer run takes away too.
proof fn lemma_killed_mono(
    s: Seq<Capability>,
    vpe: VpeId,
    ty: CapType,
    lo: int,
    hi: int,
    hi2: int,
    own: bool,
    c: Capability,
)
    requires
        killed(s, vpe, ty, lo, hi, own, c),
        hi <= hi2,
    ensures
        killed(s, vpe, ty, lo, hi2, own, c),
{
    let r = choose|r: Capability|
        #[trigger] s.contains(r) && r.vpe == vpe && r.ty == ty && lo <= r.sel < hi && gone(
            s,
            r.id,
            own,
            c,
        );
    assert(s.contains(r) && lo <= r.sel < hi2);
}

/// Two capabilities of a well-formed table with one identity, or at one
/// selector, are the same.
pub proof fn lemma_same(s: Seq<Capability>, next: u64, a: Capability, b: Capability)
    requires
        caps_wf(s, next),
        s.contains(a),
        s.contains(b),
        a.id == b.id || a.is_at(b.vpe, b.ty, b.sel),
    ensures
        a == b,
{
    let i = choose|i: int| 0 <= i < s.len() && s[i] == a;
    let j = choose|j: int| 0 <= j < s.len() && s[j] == b;
    if i < j {
        assert(s[i].id < s[j].id);
        assert(!s[i].is_at(s[j].vpe, s[j].ty, s[j].sel));
    } else if j < i {
        assert(s[j].id < s[i].id);
        assert(!s[j].is_at(s[i].vpe, s[i].ty, s[i].sel));
    }
}

/// Where `t` is what the selectors `lo` to `sel - 1` leave of `s`, and the
/// next selector is empty in `t`, that selector takes nothing more away.
proof fn lemma_step_none(
    s: Seq<Capability>,
    next: u64,
    t: Seq<Capability>,
    vpe: VpeId,
    ty: CapType,
    lo: int,
    sel: CapSel,
    own: bool,
    c: Capability,
)
    requires
        caps_wf(s, next),
        forall|c: Capability|
            #[trigger] t.contains(c) <==> s.contains(c) && !killed(s, vpe, ty, lo, sel as int, own, c),
        cap_at(t, vpe, ty, sel) is None,
        lo <= sel,
        killed(s, vpe, ty, lo, sel + 1, own, c),
    ensures
        killed(s, vpe, ty, lo, sel as int, own, c),
{
    let r = choose|r: Capability|
        #[trigger] s.contains(r) && r.vpe == vpe && r.ty == ty && lo <= r.sel < sel + 1 && gone(
            s,
            r.id,
            own,
            c,
        );
    if r.sel == sel {
        lemma_at(t, vpe, ty, sel);
        if t.contains(r) {
            let i = choose|i: int| 0 <= i < t.len() && t[i] == r;
            assert(t[i].is_at(vpe, ty, sel));
        }
        assert(killed(s, vpe, ty, lo, sel as int, own, r));
        let r2 = choose|r2: Capability|
            #[trigger] s.contains(r2) && r2.vpe == vpe && r2.ty == ty && lo <= r2.sel < sel && gone(
                s,
                r2.id,
                own,
                r,
            );
        if r.id == r2.id {
            lemma_same(s, next, r, r2);
        }
        assert(descends(s, r.id, r2.id));
        if descends(s, c.id, r.id) {
            lemma_descends_trans(s, c.id, r.id, r2.id);
        }
        assert(gone(s, r2.id, own, c));
    }
}

/// One step of the walk over the selectors: `t` and `d0` are the table and
/// the destroyed capabilities after the selectors `lo` to `sel - 1`, `t2` and
/// `d2` are what revoking `sel` in `t` makes of them.
proof fn lemma_after_one(
    s: Seq<Capability>,
    next: u64,
    t: Seq<Capability>,
    t2: Seq<Capability>,
    d0: Seq<Capability>,
    d2: Seq<Capability>,
    vpe: VpeId,
    ty: CapType,
    lo: int,
    sel: CapSel,
    own: bool,
)
    requires
        caps_wf(s, next),
        caps_wf(t, next),
        lo <= sel,
        forall|c: Capability|
            #[trigger] t.contains(c) <==> s.contains(c) && !killed(s, vpe, ty, lo, sel as int, own, c),
        forall|c: Capability|
            #[trigger] d0.contains(c) <==> s.contains(c) && killed(s, vpe, ty, lo, sel as int, own, c),
        forall|x: int, y: int|
            0 <= x < y < d0.len() ==> (#[trigger] d0[x]).id != (#[trigger] d0[y]).id,
        revoke_order(s, d0, vpe, ty, lo, own),
        d2.len() >= d0.len(),
        d2.take(d0.len() as int) == d0,
        match cap_at(t, vpe, ty, sel) {
            None => t2 == t && d2 == d0,
            Some(r) => is_part(t, t2, r.id, own, false) && is_batch(
                t,
                d2.skip(d0.len() as int),
                r.id,
                own,
            ),
        },
    ensures
        forall|c: Capability|
            #[trigger] t2.contains(c) <==> s.contains(c) && !killed(s, vpe, ty, lo, sel + 1, own, c),
        forall|c: Capability|
            #[trigger] d2.contains(c) <==> s.contains(c) && killed(s, vpe, ty, lo, sel + 1, own, c),
        forall|x: int, y: int|
            0 <= x < y < d2.len() ==> (#[trigger] d2[x]).id != (#[trigger] d2[y]).id,
        revoke_order(s, d2, vpe, ty, lo, own),
{
    let n0 = d0.len() as int;
    assert forall|c: Capability| killed(s, vpe, ty, lo, sel as int, own, c) implies killed(
        s,
        vpe,
        ty,
        lo,
        sel + 1,
        own,
        c,
    ) by {
        lemma_killed_mono(s, vpe, ty, lo, sel as int, sel + 1, own, c);
    }
    match cap_at(t, vpe, ty, sel) {
        None => {
            assert forall|c: Capability| killed(s, vpe, ty, lo, sel + 1, own, c) implies killed(
                s,
                vpe,
                ty,
                lo,
                sel as int,
                own,
                c,
            ) by {
                lemma_step_none(s, next, t, vpe, ty, lo, sel, own, c);
            }
            assert forall|x: int, y: int, hi: int|
                0 <= x < y < d2.len() && #[trigger] killed(
                    s,
                    vpe,
                    ty,
                    lo,
                    hi,
                    own,
                    d2[y],
                ) implies #[trigger] killed(s, vpe, ty, lo, hi, own, d2[x]) by {}
        },
        Some(r) => {
            let batch = d2.skip(n0);
            lemma_at(t, vpe, ty, sel);
            assert(s.contains(r));
            assert forall|x: int| 0 <= x < n0 implies #[trigger] d2[x] == d0[x] by {
                assert(d2.take(n0)[x] == d2[x]);
            }
            assert forall|x: int| n0 <= x < d2.len() implies #[trigger] d2[x] == batch[x - n0] by {}
            // in `t`, derivation is what it is in `s`
            assert forall|c: Capability| t.contains(c) implies gone(t, r.id, own, c) == gone(
                s,
                r.id,
                own,
                c,
            ) by {
                let i = choose|i: int| 0 <= i < t.len() && t[i] == c;
                lemma_by_id_at(t, i);
                lemma_descends_sub(s, next, t, next, c.id, r.id);
            }
            // what `sel` adds to the killed is what `r` takes away
            assert forall|c: Capability| s.contains(c) implies (killed(
                s,
                vpe,
                ty,
                lo,
                sel + 1,
                own,
                c,
            ) <==> killed(s, vpe, ty, lo, sel as int, own, c) || gone(s, r.id, own, c)) by {
                if killed(s, vpe, ty, lo, sel + 1, own, c) && !killed(
                    s,
                    vpe,
                    ty,
                    lo,
                    sel as int,
                    own,
                    c,
                ) {
                    let r2 = choose|r2: Capability|
                        #[trigger] s.contains(r2) && r2.vpe == vpe && r2.ty == ty && lo <= r2.sel
                            < sel + 1 && gone(s, r2.id, own, c);
                    assert(r2.sel == sel);
                    lemma_same(s, next, r, r2);
                }
                if gone(s, r.id, own, c) {
                    assert(s.contains(r) && lo <= r.sel < sel + 1);
                }
            }
            assert forall|c: Capability| #[trigger] t2.contains(c) <==> s.contains(c) && !killed(
                s,
                vpe,
                ty,
                lo,
                sel + 1,
                own,
                c,
            ) by {
                if t2.contains(c) {
                    assert(t.contains(c));
                }
                if s.contains(c) && !killed(s, vpe, ty, lo, sel + 1, own, c) {
                    assert(t.contains(c));
                }
            }
            assert forall|c: Capability| #[trigger] d2.contains(c) <==> s.contains(c) && killed(
                s,
                vpe,
                ty,
                lo,
                sel + 1,
                own,
                c,
            ) by {
                if d2.contains(c) {
                    let x = choose|x: int| 0 <= x < d2.len() && d2[x] == c;
                    if x < n0 {
                        assert(d0.contains(c));
                    } else {
                        assert(batch[x - n0] == c);
                        assert(batch.contains(c));
                        assert(t.contains(c));
                    }
                }
                if s.contains(c) && killed(s, vpe, ty, lo, sel + 1, own, c) {
                    if killed(s, vpe, ty, lo, sel as int, own, c) {
                        assert(d0.contains(c));
                        let x = choose|x: int| 0 <= x < d0.len() && d0[x] == c;
                        assert(d2[x] == c);
                    } else {
                        assert(t.contains(c));
                        assert(batch.contains(c));
                        let x = choose|x: int| 0 <= x < batch.len() && batch[x] == c;
                        assert(d2[x + n0] == c);
                    }
                }
            }
            // what the batch holds is in `t`, so no earlier selector took it
            assert forall|y: int| n0 <= y < d2.len() implies s.contains(#[trigger] d2[y]) && !killed(
                s,
                vpe,
                ty,
                lo,
                sel as int,
                own,
                d2[y],
            ) && gone(s, r.id, own, d2[y]) by {
                assert(batch.contains(batch[y - n0]));
                assert(t.contains(d2[y]));
            }
            assert forall|x: int| 0 <= x < n0 implies s.contains(#[trigger] d2[x]) && killed(
                s,
                vpe,
                ty,
                lo,
                sel as int,
                own,
                d2[x],
            ) by {
                assert(d0.contains(d0[x]));
            }
            assert forall|x: int, y: int| 0 <= x < y < d2.len() implies (#[trigger] d2[x]).id != (
            #[trigger] d2[y]).id by {
                if y < n0 {
                    assert(d0[x].id != d0[y].id);
                } else if x >= n0 {
                    assert(batch[x - n0].id > batch[y - n0].id);
                } else if d2[x].id == d2[y].id {
                    lemma_same(s, next, d2[x], d2[y]);
                }
            }
            assert forall|x: int, y: int| 0 <= x < y < d2.len() implies !descends(
                s,
                (#[trigger] d2[y]).id,
                (#[trigger] d2[x]).id,
            ) by {
                if y < n0 {
                    assert(!descends(s, d0[y].id, d0[x].id));
                } else if x >= n0 {
                    assert(batch[x - n0].id > batch[y - n0].id);
                    if descends(s, d2[y].id, d2[x].id) {
                        lemma_descends_greater(s, d2[y].id, d2[x].id);
                    }
                } else if descends(s, d2[y].id, d2[x].id) {
                    let r2 = choose|r2: Capability|
                        #[trigger] s.contains(r2) && r2.vpe == vpe && r2.ty == ty && lo <= r2.sel
                            < sel && gone(s, r2.id, own, d2[x]);
                    if descends(s, d2[x].id, r2.id) {
                        lemma_descends_trans(s, d2[y].id, d2[x].id, r2.id);
                    }
                    assert(gone(s, r2.id, own, d2[y]));
                    assert(killed(s, vpe, ty, lo, sel as int, own, d2[y]));
                }
            }
            assert forall|x: int, y: int, hi: int|
                0 <= x < y < d2.len() && #[trigger] killed(
                    s,
                    vpe,
                    ty,
                    lo,
                    hi,
                    own,
                    d2[y],
                ) implies #[trigger] killed(s, vpe, ty, lo, hi, own, d2[x]) by {
                if y < n0 {
                    assert(killed(s, vpe, ty, lo, hi, own, d0[y]));
                    assert(killed(s, vpe, ty, lo, hi, own, d0[x]));
                } else {
                    if hi <= sel {
                        lemma_killed_mono(s, vpe, ty, lo, hi, sel as int, own, d2[y]);
                    }
                    assert(hi > sel);
                    if x < n0 {
                        lemma_killed_mono(s, vpe, ty, lo, sel as int, hi, own, d2[x]);
                    } else {
                        assert(s.contains(r) && lo <= r.sel < hi && gone(s, r.id, own, d2[x]));
                    }
                }
            }
        },
    }
}

/// The object of a copy of a capability for `obj`: the same object, but a
/// copy of a memory capability does not answer for the region.
pub open spec fn copy_of(obj: KObject) -> KObject {
    match obj {
        KObject::MGate { addr, size, perm, owned } => KObject::MGate {
            addr,
            size,
            perm,
            owned: false,
        },
        _ => obj,
    }
}

/// Every selector of the run `crd` of `vpe` holds a capability.
pub open spec fn all_present(s: Seq<Capability>, vpe: VpeId, crd: CapRngDesc) -> bool {
    forall|k: int|
        0 <= k < crd.count ==> (#[trigger] cap_at(s, vpe, crd.ty, (crd.start + k) as CapSel)) is Some
}

/// No selector of the run `crd` of `vpe` holds a capability.
pub open spec fn all_absent(s: Seq<Capability>, vpe: VpeId, crd: CapRngDesc) -> bool {
    forall|k: int|
        0 <= k < crd.count ==> (#[trigger] cap_at(s, vpe, crd.ty, (crd.start + k) as CapSel)) is None
}

/// The two runs are runs of one VPE and share a selector.
pub open spec fn overlap(src_vpe: VpeId, src: CapRngDesc, dst_vpe: VpeId, dst_sel: CapSel) -> bool {
    src_vpe == dst_vpe && src.start < dst_sel + src.count && dst_sel < src.start + src.count
}

/// The capability `c` after the run `src` of `src_vpe` has moved to the
/// selectors of `dst_vpe` from `dst_sel` on.
pub open spec fn moved(
    c: Capability,
    src_vpe: VpeId,
    src: CapRngDesc,
    dst_vpe: VpeId,
    dst_sel: CapSel,
) -> Capability {
    if c.in_range(src_vpe, src) {
        Capability {
            id: c.id,
            vpe: dst_vpe,
            ty: c.ty,
            sel: (dst_sel + (c.sel - src.start)) as CapSel,
            parent: c.parent,
            obj: c.obj,
        }
    } else {
        c
    }
}

/// The copy of the capability at the `k`-th selector of the run `src` of
/// `src_vpe`, made for the `k`-th selector of `dst_vpe` from `dst_sel` on.
pub open spec fn copied(
    s: Seq<Capability>,
    next: u64,
    src_vpe: VpeId,
    src: CapRngDesc,
    dst_vpe: VpeId,
    dst_sel: CapSel,
    k: int,
) -> Capability {
    let c = cap_at(s, src_vpe, src.ty, (src.start + k) as CapSel)->0;
    Capability {
        id: (next + k) as u64,
        vpe: dst_vpe,
        ty: src.ty,
        sel: (dst_sel + k) as CapSel,
        parent: Some(c.id),
        obj: copy_of(c.obj),
    }
}

/// Two tables with the same identities at the same places hold a capability
/// with the identity `id`, or both hold none.
proof fn lemma_by_id_same_ids(s: Seq<Capability>, t: Seq<Capability>, id: u64)
    requires
        s.len() == t.len(),
        forall|i: int| 0 <= i < s.len() ==> (#[trigger] s[i]).id == (#[trigger] t[i]).id,
    ensures
        cap_by_id(s, id) is Some <==> cap_by_id(t, id) is Some,
    decreases s.len(),
{
    if s.len() > 0 {
        assert(s.last().id == t.last().id);
        let s1 = s.drop_last();
        let t1 = t.drop_last();
        assert forall|i: int| 0 <= i < s1.len() implies (#[trigger] s1[i]).id == (#[trigger] t1[i]).id by {
            assert(s1[i] == s[i] && t1[i] == t[i]);
        }
        lemma_by_id_same_ids(s1, t1, id);
    }
}

/// Capabilities with other identities behind a table change nothing in what
/// `cap_by_id` finds for `id`.
pub proof fn lemma_by_id_append(s: Seq<Capability>, f: Seq<Capability>, id: u64)
    requires
        forall|k: int| 0 <= k < f.len() ==> (#[trigger] f[k]).id != id,
    ensures
        cap_by_id(s + f, id) == cap_by_id(s, id),
    decreases f.len(),
{
    if f.len() == 0 {
        assert(s + f =~= s);
    } else {
        let f1 = f.drop_last();
        assert((s + f).drop_last() =~= s + f1);
        assert((s + f).last() == f[f.len() - 1]);
        assert forall|k: int| 0 <= k < f1.len() implies (#[trigger] f1[k]).id != id by {
            assert(f1[k] == f[k]);
        }
        lemma_by_id_append(s, f1, id);
    }
}

/// A well-formed table stays well-formed when a run of capabilities moves
/// to a run of empty selectors.
proof fn lemma_moved_wf(
    s: Seq<Capability>,
    next: u64,
    t: Seq<Capability>,
    src_vpe: VpeId,
    src: CapRngDesc,
    dst_vpe: VpeId,
    dst_sel: CapSel,
)
    requires
        caps_wf(s, next),
        src.valid(),
        dst_sel + src.count <= sel_end(src.ty),
        !overlap(src_vpe, src, dst_vpe, dst_sel),
        all_absent(s, dst_vpe, CapRngDesc { ty: src.ty, start: dst_sel, count: src.count }),
        t.len() == s.len(),
        forall|i: int|
            0 <= i < s.len() ==> #[trigger] t[i] == moved(s[i], src_vpe, src, dst_vpe, dst_sel),
    ensures
        caps_wf(t, next),
{
    let dst = CapRngDesc { ty: src.ty, start: dst_sel, count: src.count };
    assert forall|i: int, j: int| 0 <= i < j < t.len() implies (#[trigger] t[i]).id < (
    #[trigger] t[j]).id by {
        assert(s[i].id < s[j].id);
    }
    assert forall|i: int| 0 <= i < t.len() implies (#[trigger] t[i]).id < next by {
        assert(s[i].id < next);
    }
    assert forall|i: int| 0 <= i < t.len() && t[i].in_range(dst_vpe, dst) implies s[i].in_range(
        src_vpe,
        src,
    ) by {
        if !s[i].in_range(src_vpe, src) {
            let k = s[i].sel - dst_sel;
            assert(cap_at(s, dst_vpe, dst.ty, (dst.start + k) as CapSel) is None);
            lemma_at(s, dst_vpe, src.ty, s[i].sel);
        }
    }
    assert forall|i: int, j: int| 0 <= i < j < t.len() implies !(#[trigger] t[i]).is_at(
        (#[trigger] t[j]).vpe,
        t[j].ty,
        t[j].sel,
    ) by {
        assert(!s[i].is_at(s[j].vpe, s[j].ty, s[j].sel));
        assert(t[i] == moved(s[i], src_vpe, src, dst_vpe, dst_sel));
        assert(t[j] == moved(s[j], src_vpe, src, dst_vpe, dst_sel));
        if t[i].is_at(t[j].vpe, t[j].ty, t[j].sel) {
            if s[i].in_range(src_vpe, src) && !s[j].in_range(src_vpe, src) {
                assert(t[j].in_range(dst_vpe, dst));
            }
            if !s[i].in_range(src_vpe, src) && s[j].in_range(src_vpe, src) {
                assert(t[i].in_range(dst_vpe, dst));
            }
        }
    }
    assert forall|i: int| 0 <= i < t.len() && (#[trigger] t[i]).parent is Some implies t[i].parent->0
        < t[i].id && cap_by_id(t, t[i].parent->0) is Some by {
        assert(s[i].parent is Some);
        assert forall|x: int| 0 <= x < s.len() implies (#[trigger] s[x]).id == (#[trigger] t[x]).id by {}
        lemma_by_id_same_ids(s, t, s[i].parent->0);
    }
}

/// A well-formed table stays well-formed when copies of a run of its
/// capabilities are put behind it for a run of empty selectors.
proof fn lemma_copied_wf(
    s: Seq<Capability>,
    next: u64,
    f: Seq<Capability>,
    src_vpe: VpeId,
    src: CapRngDesc,
    dst_vpe: VpeId,
    dst_sel: CapSel,
)
    requires
        caps_wf(s, next),
        src.valid(),
        dst_sel + src.count <= sel_end(src.ty),
        next + src.count <= u64::MAX,
        all_present(s, src_vpe, src),
        all_absent(s, dst_vpe, CapRngDesc { ty: src.ty, start: dst_sel, count: src.count }),
        f.len() == src.count,
        forall|k: int|
            0 <= k < f.len() ==> #[trigger] f[k] == copied(s, next, src_vpe, src, dst_vpe, dst_sel, k),
    ensures
        caps_wf(s + f, (next + src.count) as u64),
{
    let t = s + f;
    let n = s.len() as int;
    let dst = CapRngDesc { ty: src.ty, start: dst_sel, count: src.count };
    assert forall|i: int| 0 <= i < n implies #[trigger] t[i] == s[i] by {}
    assert forall|i: int| n <= i < t.len() implies #[trigger] t[i] == f[i - n] by {}
    assert forall|i: int, j: int| 0 <= i < j < t.len() implies (#[trigger] t[i]).id < (
    #[trigger] t[j]).id by {
        if j < n {
            assert(s[i].id < s[j].id);
        } else if i < n {
            assert(s[i].id < next);
        }
    }
    assert forall|i: int| 0 <= i < t.len() implies (#[trigger] t[i]).id < next + src.count by {
        if i < n {
            assert(s[i].id < next);
        }
    }
    assert forall|i: int, j: int| 0 <= i < j < t.len() implies !(#[trigger] t[i]).is_at(
        (#[trigger] t[j]).vpe,
        t[j].ty,
        t[j].sel,
    ) by {
        if j < n {
            assert(!s[i].is_at(s[j].vpe, s[j].ty, s[j].sel));
        } else if i < n {
            let k = j - n;
            assert(cap_at(s, dst_vpe, dst.ty, (dst.start + k) as CapSel) is None);
            lemma_at(s, dst_vpe, src.ty, (dst_sel + k) as CapSel);
        }
    }
    assert forall|i: int| 0 <= i < t.len() && (#[trigger] t[i]).parent is Some implies t[i].parent->0
        < t[i].id && cap_by_id(t, t[i].parent->0) is Some by {
        let p = t[i].parent->0;
        if i < n {
            assert(s[i].parent is Some);
        } else {
            let k = i - n;
            assert(cap_at(s, src_vpe, src.ty, (src.start + k) as CapSel) is Some);
            lemma_at(s, src_vpe, src.ty, (src.start + k) as CapSel);
            let c = cap_at(s, src_vpe, src.ty, (src.start + k) as CapSel)->0;
            let x = choose|x: int| 0 <= x < s.len() && s[x] == c;
            assert(s[x].id < next);
            lemma_by_id_at(s, x);
        }
        assert(p < next);
        lemma_by_id_append(s, f, p);
    }
}

/// The `k`-th capability of a run made for `vpe` from the selector
/// `crd.start` on.
pub open spec fn run_cap(
    next: u64,
    vpe: VpeId,
    crd: CapRngDesc,
    parent: Option<u64>,
    obj: KObject,
    k: int,
) -> Capability {
    Capability {
        id: (next + k) as u64,
        vpe,
        ty: crd.ty,
        sel: (crd.start + k) as CapSel,
        parent,
        obj,
    }
}

/// A well-formed table stays well-formed when a run of new capabilities
/// for empty selectors is put behind it.
proof fn lemma_run_wf(
    s: Seq<Capability>,
    next: u64,
    f: Seq<Capability>,
    vpe: VpeId,
    crd: CapRngDesc,
    parent: Option<u64>,
    obj: KObject,
)
    requires
        caps_wf(s, next),
        crd.valid(),
        next + crd.count <= u64::MAX,
        parent is Some ==> cap_by_id(s, parent->0) is Some,
        all_absent(s, vpe, crd),
        f.len() == crd.count,
        forall|k: int| 0 <= k < f.len() ==> #[trigger] f[k] == run_cap(next, vpe, crd, parent, obj, k),
    ensures
        caps_wf(s + f, (next + crd.count) as u64),
{
    let t = s + f;
    let n = s.len() as int;
    assert forall|i: int| 0 <= i < n implies #[trigger] t[i] == s[i] by {}
    assert forall|i: int| n <= i < t.len() implies #[trigger] t[i] == f[i - n] by {}
    assert forall|i: int, j: int| 0 <= i < j < t.len() implies (#[trigger] t[i]).id < (
    #[trigger] t[j]).id by {
        if j < n {
            assert(s[i].id < s[j].id);
        } else if i < n {
            assert(s[i].id < next);
        }
    }
    assert forall|i: int| 0 <= i < t.len() implies (#[trigger] t[i]).id < next + crd.count by {
        if i < n {
            assert(s[i].id < next);
        }
    }
    assert forall|i: int, j: int| 0 <= i < j < t.len() implies !(#[trigger] t[i]).is_at(
        (#[trigger] t[j]).vpe,
        t[j].ty,
        t[j].sel,
    ) by {
        if j < n {
            assert(!s[i].is_at(s[j].vpe, s[j].ty, s[j].sel));
        } else if i < n {
            let k = j - n;
            assert(cap_at(s, vpe, crd.ty, (crd.start + k) as CapSel) is None);
            lemma_at(s, vpe, crd.ty, (crd.start + k) as CapSel);
        }
    }
    assert forall|i: int| 0 <= i < t.len() && (#[trigger] t[i]).parent is Some implies t[i].parent->0
        < t[i].id && cap_by_id(t, t[i].parent->0) is Some by {
        let p = t[i].parent->0;
        if i < n {
            assert(s[i].parent is Some);
        } else {
            lemma_by_id(s, p);
            let c = cap_by_id(s, p)->0;
            let x = choose|x: int| 0 <= x < s.len() && s[x] == c;
            assert(s[x].id < next);
        }
        assert(p < next);
        lemma_by_id_append(s, f, p);
    }
}

/// What `t`, the table that the revocation of the run `crd` of `vpe` makes of
/// `s`, holds of a capability `r` of the run and a capability `c` of any
/// VPE: if `c` was derived from `r`, it is gone and its selector is empty;
/// with `own`, `r` is gone and its selector is empty; without `own`, and
/// unless `r` itself was derived from a capability of the run, `r` is where
/// it was, and nothing in `t` is derived from it.
pub proof fn lemma_revoked(
    s: Seq<Capability>,
    next: u64,
    t: Seq<Capability>,
    vpe: VpeId,
    crd: CapRngDesc,
    own: bool,
    r: Capability,
    c: Capability,
)
    requires
        caps_wf(s, next),
        caps_wf(t, next),
        forall|x: Capability| #[trigger] t.contains(x) <==> s.contains(x) && !dies(s, vpe, crd, own, x),
        s.contains(r),
        r.in_range(vpe, crd),
        s.contains(c),
    ensures
        descends(s, c.id, r.id) ==> !t.contains(c) && cap_at(t, c.vpe, c.ty, c.sel) is None,
        own ==> !t.contains(r) && cap_at(t, r.vpe, r.ty, r.sel) is None,
        !own && (forall|o: Capability|
            #[trigger] s.contains(o) && o.in_range(vpe, crd) ==> !descends(s, r.id, o.id)) ==> {
            &&& cap_at(t, r.vpe, r.ty, r.sel) == Some(r)
            &&& forall|x: Capability| #[trigger] t.contains(x) ==> x.parent != Some(r.id)
        },
{
    if descends(s, c.id, r.id) {
        assert(gone(s, r.id, own, c));
        assert(dies(s, vpe, crd, own, c));
        lemma_slot_empty(s, next, t, c);
    }
    if own {
        assert(gone(s, r.id, own, r));
        assert(dies(s, vpe, crd, own, r));
        lemma_slot_empty(s, next, t, r);
    }
    if !own && (forall|o: Capability|
        #[trigger] s.contains(o) && o.in_range(vpe, crd) ==> !descends(s, r.id, o.id)) {
        assert(!dies(s, vpe, crd, own, r)) by {
            if dies(s, vpe, crd, own, r) {
                let o = choose|o: Capability|
                    #[trigger] s.contains(o) && o.vpe == vpe && o.ty == crd.ty && crd.start <= o.sel
                        < crd.start + crd.count && gone(s, o.id, own, r);
                assert(o.in_range(vpe, crd));
            }
        }
        assert(t.contains(r));
        let i = choose|i: int| 0 <= i < t.len() && t[i] == r;
        lemma_at_index(t, i);
        assert forall|x: Capability| #[trigger] t.contains(x) implies x.parent != Some(r.id) by {
            if x.parent == Some(r.id) {
                let j = choose|j: int| 0 <= j < s.len() && s[j] == x;
                lemma_by_id_at(s, j);
                assert(s[j].parent is Some);
                assert(descends(s, x.id, r.id));
                assert(gone(s, r.id, own, x));
                assert(dies(s, vpe, crd, own, x));
            }
        }
    }
}

/// The selector of a capability of `s` that is not in `t`, which holds
/// nothing but capabilities of `s`, is empty in `t`.
proof fn lemma_slot_empty(s: Seq<Capability>, next: u64, t: Seq<Capability>, c: Capability)
    requires
        caps_wf(s, next),
        forall|x: Capability| #[trigger] t.contains(x) ==> s.contains(x),
        s.contains(c),
        !t.contains(c),
    ensures
        cap_at(t, c.vpe, c.ty, c.sel) is None,
{
    lemma_at(t, c.vpe, c.ty, c.sel);
    if cap_at(t, c.vpe, c.ty, c.sel) is Some {
        let x = cap_at(t, c.vpe, c.ty, c.sel)->0;
        lemma_same(s, next, x, c);
    }
}

/// The capabilities of all VPEs.
pub struct CapTable {
    caps: Vec<Capability>,
    next_id: u64,
}

impl CapTable {
    /// The capabilities, in the order in which they were made.
    pub closed spec fn caps(&self) -> Seq<Capability> {
        self.caps@
    }

    /// The identity that the next capability gets.
    pub closed spec fn next_id(&self) -> u64 {
        self.next_id
    }

    /// The representation invariant.
    pub open spec fn wf(&self) -> bool {
        caps_wf(self.caps(), self.next_id())
    }

    /// The capability that `vpe` holds at `sel` in space `ty`.
    pub open spec fn at(&self, vpe: VpeId, ty: CapType, sel: CapSel) -> Option<Capability> {
        cap_at(self.caps(), vpe, ty, sel)
    }

    /// A table without capabilities.
    pub fn new() -> (t: CapTable)
        ensures
            t.wf(),
            t.caps() == Seq::<Capability>::empty(),
            t.next_id() == 0,
    {
        CapTable { caps: Vec::new(), next_id: 0 }
    }

    /// The place in the table of the capability that `vpe` holds at `sel`.
    fn find(&self, vpe: VpeId, ty: CapType, sel: CapSel) -> (r: Option<usize>)
        requires
            self.wf(),
        ensures
            match r {
                Some(i) => i < self.caps@.len() && self.at(vpe, ty, sel) == Some(self.caps@[i as int]),
                None => self.at(vpe, ty, sel) is None,
            },
    {
        let n = self.caps.len();
        let mut i: usize = 0;
        while i < n
            invariant
                0 <= i <= n,
                n == self.caps@.len(),
                self.wf(),
                forall|j: int| 0 <= j < i ==> !(#[trigger] self.caps@[j]).is_at(vpe, ty, sel),
            decreases n - i,
        {
            let c = self.caps[i];
            if c.vpe == vpe && c.ty == ty && c.sel == sel {
                proof {
                    lemma_at_index(self.caps@, i as int);
                }
                return Some(i);
            }
            i += 1;
        }
        proof {
            lemma_at(self.caps@, vpe, ty, sel);
        }
        None
    }

    /// The place in the table of the capability with the identity `id`.
    fn find_id(&self, id: u64) -> (r: Option<usize>)
        requires
            self.wf(),
        ensures
            match r {
                Some(i) => i < self.caps@.len() && cap_by_id(self.caps@, id) == Some(
                    self.caps@[i as int],
                ),
                None => cap_by_id(self.caps@, id) is None,
            },
    {
        let n = self.caps.len();
        let mut i: usize = 0;
        while i < n
            invariant
                0 <= i <= n,
                n == self.caps@.len(),
                self.wf(),
                forall|j: int| 0 <= j < i ==> (#[trigger] self.caps@[j]).id != id,
            decreases n - i,
        {
            if self.caps[i].id == id {
                proof {
                    lemma_by_id_at(self.caps@, i as int);
                }
                return Some(i);
            }
            i += 1;
        }
        proof {
            lemma_by_id(self.caps@, id);
        }
        None
    }

    /// The capability that `vpe` holds at `sel` in space `ty`.
    pub fn get(&self, vpe: VpeId, ty: CapType, sel: CapSel) -> (r: Option<Capability>)
        requires
            self.wf(),
        ensures
            r == self.at(vpe, ty, sel),
    {
        match self.find(vpe, ty, sel) {
            Some(i) => Some(self.caps[i]),
            None => None,
        }
    }

    /// The capability with the identity `id`.
    pub fn get_by_id(&self, id: u64) -> (r: Option<Capability>)
        requires
            self.wf(),
        ensures
            r == cap_by_id(self.caps(), id),
    {
        match self.find_id(id) {
            Some(i) => Some(self.caps[i]),
            None => None,
        }
    }

    /// What `create` answers for the given arguments: the error, or nothing
    /// where the capability is installed.
    pub open spec fn create_error(
        &self,
        vpe: VpeId,
        sel: CapSel,
        ty: CapType,
        parent: Option<u64>,
    ) -> Option<Code> {
        if sel >= sel_end(ty) {
            Some(Code::InvArgs)
        } else if self.at(vpe, ty, sel) is Some {
            Some(Code::AlreadyExists)
        } else if parent is Some && cap_by_id(self.caps(), parent->0) is None {
            Some(Code::NoSuchCap)
        } else if self.next_id() == u64::MAX {
            Some(Code::OutOfMem)
        } else {
            None
        }
    }

    /// Installs a capability for `obj` at selector `sel` of `vpe`, derived
    /// from the capability with identity `parent` if one is given. Fails with
    /// `InvArgs` where `sel` lies outside the space, `AlreadyExists` where
    /// the selector is taken, `NoSuchCap` where the parent is not in the
    /// table, and `OutOfMem` where the identities are used up; the table then
    /// stays as it is.
    pub fn create(
        &mut self,
        vpe: VpeId,
        sel: CapSel,
        ty: CapType,
        obj: KObject,
        parent: Option<u64>,
    ) -> (r: Result<Capability, Error>)
        requires
            old(self).wf(),
        ensures
            final(self).wf(),
            match r {
                Ok(c) => {
                    &&& old(self).create_error(vpe, sel, ty, parent) is None
                    &&& c == (Capability { id: old(self).next_id(), vpe, ty, sel, parent, obj })
                    &&& final(self).caps() == old(self).caps().push(c)
                    &&& final(self).next_id() == old(self).next_id() + 1
                },
                Err(e) => {
                    &&& old(self).create_error(vpe, sel, ty, parent) == Some(e.code())
                    &&& *final(self) == *old(self)
                },
            },
    {
        if !sel_valid(ty, sel) {
            return Err(Error::new(Code::InvArgs));
        }
        if self.find(vpe, ty, sel).is_some() {
            return Err(Error::new(Code::AlreadyExists));
        }
        if let Some(p) = parent {
            if self.find_id(p).is_none() {
                return Err(Error::new(Code::NoSuchCap));
            }
        }
        if self.next_id == u64::MAX {
            return Err(Error::new(Code::OutOfMem));
        }
        let c = Capability { id: self.next_id, vpe, ty, sel, parent, obj };
        proof {
            lemma_at(self.caps@, vpe, ty, sel);
            if let Some(p) = parent {
                lemma_by_id(self.caps@, p);
            }
        }
        self.caps.push(c);
        self.next_id = self.next_id + 1;
        proof {
            let s = old(self).caps@;
            let t = self.caps@;
            assert(t.drop_last() =~= s);
            assert forall|i: int| 0 <= i < t.len() && (#[trigger] t[i]).parent is Some implies t[i].parent->0
                < t[i].id && cap_by_id(t, t[i].parent->0) is Some by {
                if i < s.len() {
                    assert(t[i] == s[i]);
                } else {
                    let c0 = cap_by_id(s, parent->0)->0;
                    let j = choose|j: int| 0 <= j < s.len() && s[j] == c0;
                    assert(s[j].id < old(self).next_id);
                }
            }
        }
        Ok(c)
    }

    /// For each place in the table, whether the capability there was derived
    /// from the one with identity `root`.
    fn marks(&self, root: u64) -> (marks: Vec<bool>)
        requires
            self.wf(),
        ensures
            marks@.len() == self.caps@.len(),
            forall|x: int|
                0 <= x < marks@.len() ==> marks@[x] == descends(
                    self.caps@,
                    (#[trigger] self.caps@[x]).id,
                    root,
                ),
    {
        let n = self.caps.len();
        let mut marks: Vec<bool> = Vec::new();
        let mut d: usize = 0;
        while d < n
            invariant
                0 <= d <= n,
                n == self.caps@.len(),
                self.wf(),
                marks@.len() == d,
                forall|x: int|
                    0 <= x < d ==> marks@[x] == descends(
                        self.caps@,
                        (#[trigger] self.caps@[x]).id,
                        root,
                    ),
            decreases n - d,
        {
            let c = self.caps[d];
            proof {
                lemma_by_id_at(self.caps@, d as int);
                assert(self.caps@[d as int].parent is Some ==> c.parent->0 < c.id);
            }
            let m = match c.parent {
                None => false,
                Some(p) => {
                    if p == root {
                        true
                    } else {
                        match self.find_id(p) {
                            Some(j) => {
                                proof {
                                    lemma_by_id(self.caps@, p);
                                    if j >= d {
                                        if j > d {
                                            assert(self.caps@[d as int].id < self.caps@[j as int].id);
                                        }
                                        assert(false);
                                    }
                                }
                                marks[j]
                            },
                            None => false,
                        }
                    }
                },
            };
            marks.push(m);
            d += 1;
        }
        marks
    }

    /// The capabilities that stay and those that go when the capability at
    /// place `r` is revoked, each by ascending identity.
    fn split(&self, marks: &Vec<bool>, r: usize, own: bool) -> (parts: (
        Vec<Capability>,
        Vec<Capability>,
    ))
        requires
            self.wf(),
            r < self.caps@.len(),
            marks@.len() == self.caps@.len(),
            forall|x: int|
                0 <= x < marks@.len() ==> marks@[x] == descends(
                    self.caps@,
                    (#[trigger] self.caps@[x]).id,
                    self.caps@[r as int].id,
                ),
        ensures
            is_part(self.caps@, parts.0@, self.caps@[r as int].id, own, false),
            is_part(self.caps@, parts.1@, self.caps@[r as int].id, own, true),
    {
        let n = self.caps.len();
        let ghost s = self.caps@;
        let ghost root = self.caps@[r as int].id;
        let mut kept: Vec<Capability> = Vec::new();
        let mut dead: Vec<Capability> = Vec::new();
        let mut i: usize = 0;
        while i < n
            invariant
                0 <= i <= n,
                n == s.len(),
                s == self.caps@,
                r < n,
                root == s[r as int].id,
                self.wf(),
                marks@.len() == n,
                forall|x: int|
                    0 <= x < n ==> marks@[x] == descends(s, (#[trigger] s[x]).id, root),
                forall|c: Capability|
                    #[trigger] kept@.contains(c) ==> s.contains(c) && !gone(s, root, own, c),
                forall|c: Capability|
                    #[trigger] dead@.contains(c) ==> s.contains(c) && gone(s, root, own, c),
                forall|j: int|
                    0 <= j < i ==> if gone(s, root, own, #[trigger] s[j]) {
                        dead@.contains(s[j])
                    } else {
                        kept@.contains(s[j])
                    },
                forall|x: int, y: int|
                    0 <= x < y < kept@.len() ==> (#[trigger] kept@[x]).id < (#[trigger] kept@[y]).id,
                forall|x: int, y: int|
                    0 <= x < y < dead@.len() ==> (#[trigger] dead@[x]).id < (#[trigger] dead@[y]).id,
                forall|x: int, j: int|
                    0 <= x < kept@.len() && i <= j < n ==> (#[trigger] kept@[x]).id < (
                    #[trigger] s[j]).id,
                forall|x: int, j: int|
                    0 <= x < dead@.len() && i <= j < n ==> (#[trigger] dead@[x]).id < (
                    #[trigger] s[j]).id,
            decreases n - i,
        {
            let c = self.caps[i];
            let g = marks[i] || (own && i == r);
            let ghost k0 = kept@;
            let ghost d0 = dead@;
            proof {
                assert(s.contains(s[i as int]));
                if i != r {
                    if i < r {
                        assert(s[i as int].id < s[r as int].id);
                    } else {
                        assert(s[r as int].id < s[i as int].id);
                    }
                }
                assert(g == gone(s, root, own, c));
            }
            if g {
                dead.push(c);
                proof {
                    assert(dead@[d0.len() as int] == c);
                    assert forall|c2: Capability| #[trigger] dead@.contains(c2) implies s.contains(c2)
                        && gone(s, root, own, c2) by {
                        let x = choose|x: int| 0 <= x < dead@.len() && dead@[x] == c2;
                        if x < d0.len() {
                            assert(d0[x] == c2);
                            assert(d0.contains(c2));
                        }
                    }
                    assert forall|j: int| 0 <= j < i + 1 implies if gone(
                        s,
                        root,
                        own,
                        #[trigger] s[j],
                    ) {
                        dead@.contains(s[j])
                    } else {
                        kept@.contains(s[j])
                    } by {
                        if j < i && gone(s, root, own, s[j]) {
                            let x = choose|x: int| 0 <= x < d0.len() && d0[x] == s[j];
                            assert(dead@[x] == s[j]);
                        }
                    }
                }
            } else {
                kept.push(c);
                proof {
                    assert(kept@[k0.len() as int] == c);
                    assert forall|c2: Capability| #[trigger] kept@.contains(c2) implies s.contains(c2)
                        && !gone(s, root, own, c2) by {
                        let x = choose|x: int| 0 <= x < kept@.len() && kept@[x] == c2;
                        if x < k0.len() {
                            assert(k0[x] == c2);
                            assert(k0.contains(c2));
                        }
                    }
                    assert forall|j: int| 0 <= j < i + 1 implies if gone(
                        s,
                        root,
                        own,
                        #[trigger] s[j],
                    ) {
                        dead@.contains(s[j])
                    } else {
                        kept@.contains(s[j])
                    } by {
                        if j < i && !gone(s, root, own, s[j]) {
                            let x = choose|x: int| 0 <= x < k0.len() && k0[x] == s[j];
                            assert(kept@[x] == s[j]);
                        }
                    }
                }
            }
            i += 1;
        }
        proof {
            assert forall|c: Capability| s.contains(c) && !gone(s, root, own, c) implies kept@.contains(
                c,
            ) by {
                let j = choose|j: int| 0 <= j < s.len() && s[j] == c;
                assert(!gone(s, root, own, s[j]));
            }
            assert forall|c: Capability| s.contains(c) && gone(s, root, own, c) implies dead@.contains(
                c,
            ) by {
                let j = choose|j: int| 0 <= j < s.len() && s[j] == c;
                assert(gone(s, root, own, s[j]));
            }
        }
        (kept, dead)
    }

    /// Revokes the capability that `vpe` holds at `sel`: takes from the table
    /// what was derived from it, and the capability itself if `own` is set.
    /// What is taken is put behind `destroyed`, the derived before what it
    /// was derived from. An empty selector changes nothing.
    pub fn revoke_one(
        &mut self,
        vpe: VpeId,
        ty: CapType,
        sel: CapSel,
        own: bool,
        destroyed: &mut Vec<Capability>,
    )
        requires
            old(self).wf(),
        ensures
            final(self).wf(),
            final(self).next_id() == old(self).next_id(),
            final(destroyed)@.len() >= old(destroyed)@.len(),
            final(destroyed)@.take(old(destroyed)@.len() as int) == old(destroyed)@,
            match old(self).at(vpe, ty, sel) {
                None => final(self).caps() == old(self).caps() && final(destroyed)@ == old(
                    destroyed,
                )@,
                Some(r) => {
                    &&& is_part(old(self).caps(), final(self).caps(), r.id, own, false)
                    &&& is_batch(
                        old(self).caps(),
                        final(destroyed)@.skip(old(destroyed)@.len() as int),
                        r.id,
                        own,
                    )
                },
            },
    {
        let r = match self.find(vpe, ty, sel) {
            None => {
                proof {
                    assert(destroyed@.take(destroyed@.len() as int) =~= destroyed@);
                }
                return ;
            },
            Some(r) => r,
        };
        let root = self.caps[r].id;
        let marks = self.marks(root);
        let (kept, dead) = self.split(&marks, r, own);
        let ghost s = self.caps@;
        let ghost d0 = destroyed@;
        proof {
            lemma_kept_wf(s, self.next_id, kept@, root, own);
        }
        let mut j: usize = dead.len();
        while j > 0
            invariant
                0 <= j <= dead@.len(),
                destroyed@.len() == d0.len() + dead@.len() - j,
                destroyed@.take(d0.len() as int) == d0,
                forall|x: int|
                    0 <= x < dead@.len() - j ==> #[trigger] destroyed@[d0.len() + x] == dead@[dead@.len()
                        - 1 - x],
            decreases j,
        {
            j -= 1;
            let ghost before = destroyed@;
            destroyed.push(dead[j]);
            proof {
                assert(destroyed@.take(d0.len() as int) =~= before.take(d0.len() as int));
            }
        }
        self.caps = kept;
        proof {
            let batch = destroyed@.skip(d0.len() as int);
            assert(batch.len() == dead@.len());
            assert forall|x: int| 0 <= x < batch.len() implies #[trigger] batch[x] == dead@[dead@.len()
                - 1 - x] by {
                assert(batch[x] == destroyed@[d0.len() + x]);
            }
            assert forall|c: Capability| #[trigger] batch.contains(c) <==> s.contains(c) && gone(
                s,
                root,
                own,
                c,
            ) by {
                if batch.contains(c) {
                    let x = choose|x: int| 0 <= x < batch.len() && batch[x] == c;
                    assert(dead@[dead@.len() - 1 - x] == c);
                    assert(dead@.contains(c));
                }
                if s.contains(c) && gone(s, root, own, c) {
                    assert(dead@.contains(c));
                    let y = choose|y: int| 0 <= y < dead@.len() && dead@[y] == c;
                    assert(batch[dead@.len() - 1 - y] == c);
                }
            }
            assert forall|x: int, y: int| 0 <= x < y < batch.len() implies (#[trigger] batch[x]).id > (
            #[trigger] batch[y]).id by {
                assert(dead@[dead@.len() - 1 - y].id < dead@[dead@.len() - 1 - x].id);
            }
        }
    }

    /// Revokes the run `crd` of `vpe`, selector by selector in ascending
    /// order: what was derived from the capabilities at these selectors
    /// leaves the tables of all VPEs, and so do these capabilities themselves
    /// if `own` is set. Returns what was destroyed, in the order in which it
    /// was. Fails with `InvArgs`, and changes nothing, where the run does not
    /// lie in its space.
    pub fn revoke(&mut self, vpe: VpeId, crd: CapRngDesc, own: bool) -> (r: Result<
        Vec<Capability>,
        Error,
    >)
        requires
            old(self).wf(),
        ensures
            final(self).wf(),
            final(self).next_id() == old(self).next_id(),
            match r {
                Ok(d) => {
                    &&& crd.valid()
                    &&& forall|c: Capability|
                        #[trigger] final(self).caps().contains(c) <==> old(self).caps().contains(c)
                            && !dies(old(self).caps(), vpe, crd, own, c)
                    &&& forall|c: Capability|
                        #[trigger] d@.contains(c) <==> old(self).caps().contains(c) && dies(
                            old(self).caps(),
                            vpe,
                            crd,
                            own,
                            c,
                        )
                    &&& forall|x: int, y: int|
                        0 <= x < y < d@.len() ==> (#[trigger] d@[x]).id != (#[trigger] d@[y]).id
                    &&& revoke_order(old(self).caps(), d@, vpe, crd.ty, crd.start as int, own)
                },
                Err(e) => {
                    &&& !crd.valid()
                    &&& e.code() == Code::InvArgs
                    &&& *final(self) == *old(self)
                },
            },
    {
        if !crd.is_valid() {
            return Err(Error::new(Code::InvArgs));
        }
        let ghost s = self.caps@;
        let ghost next = self.next_id;
        let ty = crd.ty;
        let ghost lo = crd.start as int;
        let mut d: Vec<Capability> = Vec::new();
        let mut k: CapSel = 0;
        while k < crd.count
            invariant
                0 <= k <= crd.count,
                crd.valid(),
                ty == crd.ty,
                lo == crd.start,
                self.wf(),
                caps_wf(s, next),
                self.next_id == next,
                forall|c: Capability|
                    #[trigger] self.caps@.contains(c) <==> s.contains(c) && !killed(
                        s,
                        vpe,
                        ty,
                        lo,
                        lo + k,
                        own,
                        c,
                    ),
                forall|c: Capability|
                    #[trigger] d@.contains(c) <==> s.contains(c) && killed(
                        s,
                        vpe,
                        ty,
                        lo,
                        lo + k,
                        own,
                        c,
                    ),
                forall|x: int, y: int|
                    0 <= x < y < d@.len() ==> (#[trigger] d@[x]).id != (#[trigger] d@[y]).id,
                revoke_order(s, d@, vpe, ty, lo, own),
            decreases crd.count - k,
        {
            let sel: CapSel = crd.start + k;
            let ghost t = self.caps@;
            let ghost d0 = d@;
            self.revoke_one(vpe, ty, sel, own, &mut d);
            proof {
                lemma_after_one(s, next, t, self.caps@, d0, d@, vpe, ty, lo, sel, own);
            }
            k += 1;
        }
        Ok(d)
    }

    /// Whether every selector of the run `crd` of `vpe` holds a capability
    /// (`want` true), or none does (`want` false).
    fn check_run(&self, vpe: VpeId, crd: CapRngDesc, want: bool) -> (b: bool)
        requires
            self.wf(),
            crd.valid(),
        ensures
            b == if want {
                all_present(self.caps(), vpe, crd)
            } else {
                all_absent(self.caps(), vpe, crd)
            },
    {
        let mut k: CapSel = 0;
        while k < crd.count
            invariant
                0 <= k <= crd.count,
                crd.valid(),
                self.wf(),
                forall|j: int|
                    0 <= j < k ==> (#[trigger] cap_at(
                        self.caps@,
                        vpe,
                        crd.ty,
                        (crd.start + j) as CapSel,
                    )) is Some == want,
            decreases crd.count - k,
        {
            if self.find(vpe, crd.ty, crd.start + k).is_some() != want {
                proof {
                    assert(cap_at(self.caps@, vpe, crd.ty, (crd.start + k) as CapSel) is Some
                        != want);
                }
                return false;
            }
            k += 1;
        }
        true
    }

    /// What `exchange` answers for the given arguments: the error, or nothing
    /// where the capabilities are exchanged.
    pub open spec fn exchange_error(
        &self,
        src_vpe: VpeId,
        src: CapRngDesc,
        dst_vpe: VpeId,
        dst_sel: CapSel,
        obtain: bool,
    ) -> Option<Code> {
        let dst = CapRngDesc { ty: src.ty, start: dst_sel, count: src.count };
        if !src.valid() || !dst.valid() || overlap(src_vpe, src, dst_vpe, dst_sel) {
            Some(Code::InvArgs)
        } else if !all_present(self.caps(), src_vpe, src) {
            Some(Code::NoSuchCap)
        } else if !all_absent(self.caps(), dst_vpe, dst) {
            Some(Code::AlreadyExists)
        } else if obtain && self.next_id() + src.count > u64::MAX {
            Some(Code::OutOfMem)
        } else {
            None
        }
    }

    /// Gives `dst_vpe`, at the selectors from `dst_sel` on, the capabilities
    /// of the run `src` of `src_vpe`. With `obtain` each is a copy derived
    /// from its source; without, the capabilities themselves move and leave
    /// their old selectors empty. Fails with `InvArgs` where a run does not
    /// lie in its space or the two runs share a selector, `NoSuchCap` where
    /// a selector of the source is empty, `AlreadyExists` where one of the
    /// destination is taken, and `OutOfMem` where the identities are used
    /// up; the table then stays as it is.
    pub fn exchange(
        &mut self,
        src_vpe: VpeId,
        src: CapRngDesc,
        dst_vpe: VpeId,
        dst_sel: CapSel,
        obtain: bool,
    ) -> (r: Result<(), Error>)
        requires
            old(self).wf(),
        ensures
            final(self).wf(),
            match r {
                Ok(_) => {
                    &&& old(self).exchange_error(src_vpe, src, dst_vpe, dst_sel, obtain) is None
                    &&& obtain ==> {
                        &&& final(self).next_id() == old(self).next_id() + src.count
                        &&& final(self).caps() == old(self).caps() + Seq::new(
                            src.count as nat,
                            |k: int|
                                copied(
                                    old(self).caps(),
                                    old(self).next_id(),
                                    src_vpe,
                                    src,
                                    dst_vpe,
                                    dst_sel,
                                    k,
                                ),
                        )
                    }
                    &&& !obtain ==> {
                        &&& final(self).next_id() == old(self).next_id()
                        &&& final(self).caps() == Seq::new(
                            old(self).caps().len(),
                            |i: int| moved(old(self).caps()[i], src_vpe, src, dst_vpe, dst_sel),
                        )
                    }
                },
                Err(e) => {
                    &&& old(self).exchange_error(src_vpe, src, dst_vpe, dst_sel, obtain) == Some(
                        e.code(),
                    )
                    &&& *final(self) == *old(self)
                },
            },
    {
        let dst = CapRngDesc::new(src.ty, dst_sel, src.count);
        if !src.is_valid() || !dst.is_valid() || (src_vpe == dst_vpe && src.start < dst_sel
            + src.count && dst_sel < src.start + src.count) {
            return Err(Error::new(Code::InvArgs));
        }
        if !self.check_run(src_vpe, src, true) {
            return Err(Error::new(Code::NoSuchCap));
        }
        if !self.check_run(dst_vpe, dst, false) {
            return Err(Error::new(Code::AlreadyExists));
        }
        let ghost s = self.caps@;
        let ghost next = self.next_id;
        if obtain {
            if src.count as u64 > u64::MAX - self.next_id {
                return Err(Error::new(Code::OutOfMem));
            }
            let mut fresh: Vec<Capability> = Vec::new();
            let mut k: CapSel = 0;
            while k < src.count
                invariant
                    0 <= k <= src.count,
                    src.valid(),
                    dst_sel + src.count <= sel_end(src.ty),
                    next + src.count <= u64::MAX,
                    self.wf(),
                    self.caps@ == s,
                    self.next_id == next,
                    all_present(s, src_vpe, src),
                    fresh@.len() == k,
                    forall|j: int|
                        0 <= j < k ==> #[trigger] fresh@[j] == copied(
                            s,
                            next,
                            src_vpe,
                            src,
                            dst_vpe,
                            dst_sel,
                            j,
                        ),
                decreases src.count - k,
            {
                proof {
                    assert(cap_at(s, src_vpe, src.ty, (src.start + k) as CapSel) is Some);
                }
                if let Some(i) = self.find(src_vpe, src.ty, src.start + k) {
                    let c = self.caps[i];
                    let obj = match c.obj {
                        KObject::MGate { addr, size, perm, owned } => KObject::MGate {
                            addr,
                            size,
                            perm,
                            owned: false,
                        },
                        o => o,
                    };
                    fresh.push(
                        Capability {
                            id: self.next_id + k as u64,
                            vpe: dst_vpe,
                            ty: src.ty,
                            sel: dst_sel + k,
                            parent: Some(c.id),
                            obj,
                        },
                    );
                }
                k += 1;
            }
            let mut j: usize = 0;
            while j < fresh.len()
                invariant
                    0 <= j <= fresh@.len(),
                    self.next_id == next,
                    self.caps@ == s + fresh@.take(j as int),
                decreases fresh@.len() - j,
            {
                self.caps.push(fresh[j]);
                proof {
                    assert(self.caps@ =~= s + fresh@.take(j as int + 1));
                }
                j += 1;
            }
            proof {
                assert(fresh@.take(fresh@.len() as int) =~= fresh@);
                assert(fresh@ =~= Seq::new(
                    src.count as nat,
                    |j: int| copied(s, next, src_vpe, src, dst_vpe, dst_sel, j),
                ));
            }
            self.next_id = self.next_id + src.count as u64;
            proof {
                let f = Seq::new(
                    src.count as nat,
                    |j: int| copied(s, next, src_vpe, src, dst_vpe, dst_sel, j),
                );
                lemma_copied_wf(s, next, f, src_vpe, src, dst_vpe, dst_sel);
            }
        } else {
            let n = self.caps.len();
            let mut i: usize = 0;
            while i < n
                invariant
                    0 <= i <= n,
                    n == s.len(),
                    self.caps@.len() == n,
                    src.valid(),
                    dst_sel + src.count <= sel_end(src.ty),
                    self.next_id == next,
                    forall|x: int|
                        0 <= x < i ==> #[trigger] self.caps@[x] == moved(
                            s[x],
                            src_vpe,
                            src,
                            dst_vpe,
                            dst_sel,
                        ),
                    forall|x: int| i <= x < n ==> #[trigger] self.caps@[x] == s[x],
                decreases n - i,
            {
                let c = self.caps[i];
                if c.vpe == src_vpe && c.ty == src.ty && src.start <= c.sel && c.sel - src.start
                    < src.count {
                    let m = Capability {
                        id: c.id,
                        vpe: dst_vpe,
                        ty: c.ty,
                        sel: dst_sel + (c.sel - src.start),
                        parent: c.parent,
                        obj: c.obj,
                    };
                    self.caps.set(i, m);
                }
                i += 1;
            }
            proof {
                lemma_moved_wf(s, next, self.caps@, src_vpe, src, dst_vpe, dst_sel);
                assert(self.caps@ =~= Seq::new(
                    s.len(),
                    |i: int| moved(s[i], src_vpe, src, dst_vpe, dst_sel),
                ));
            }
        }
        Ok(())
    }

    /// What `create` would answer for the given arguments; the table stays
    /// as it is.
    pub fn check_create(&self, vpe: VpeId, sel: CapSel, ty: CapType, parent: Option<u64>) -> (r:
        Option<Code>)
        requires
            self.wf(),
        ensures
            r == self.create_error(vpe, sel, ty, parent),
    {
        if !sel_valid(ty, sel) {
            return Some(Code::InvArgs);
        }
        if self.find(vpe, ty, sel).is_some() {
            return Some(Code::AlreadyExists);
        }
        if let Some(p) = parent {
            if self.find_id(p).is_none() {
                return Some(Code::NoSuchCap);
            }
        }
        if self.next_id == u64::MAX {
            return Some(Code::OutOfMem);
        }
        None
    }

    /// What `create_run` answers for the given arguments: the error, or
    /// nothing where the capabilities are installed.
    pub open spec fn create_run_error(&self, vpe: VpeId, crd: CapRngDesc, parent: Option<u64>) -> Option<
        Code,
    > {
        if !crd.valid() {
            Some(Code::InvArgs)
        } else if !all_absent(self.caps(), vpe, crd) {
            Some(Code::AlreadyExists)
        } else if parent is Some && cap_by_id(self.caps(), parent->0) is None {
            Some(Code::NoSuchCap)
        } else if self.next_id() + crd.count > u64::MAX {
            Some(Code::OutOfMem)
        } else {
            None
        }
    }

    /// Installs a capability for `obj` at each selector of the run `crd` of
    /// `vpe`, each derived from the capability with identity `parent` if one
    /// is given. Fails with `InvArgs` where the run does not lie in its
    /// space, `AlreadyExists` where one of its selectors is taken,
    /// `NoSuchCap` where the parent is not in the table, and `OutOfMem`
    /// where the identities are used up; the table then stays as it is.
    pub fn create_run(&mut self, vpe: VpeId, crd: CapRngDesc, obj: KObject, parent: Option<u64>) -> (r:
        Result<(), Error>)
        requires
            old(self).wf(),
        ensures
            final(self).wf(),
            match r {
                Ok(_) => {
                    &&& old(self).create_run_error(vpe, crd, parent) is None
                    &&& final(self).next_id() == old(self).next_id() + crd.count
                    &&& final(self).caps() == old(self).caps() + Seq::new(
                        crd.count as nat,
                        |k: int| run_cap(old(self).next_id(), vpe, crd, parent, obj, k),
                    )
                },
                Err(e) => {
                    &&& old(self).create_run_error(vpe, crd, parent) == Some(e.code())
                    &&& *final(self) == *old(self)
                },
            },
    {
        if !crd.is_valid() {
            return Err(Error::new(Code::InvArgs));
        }
        if !self.check_run(vpe, crd, false) {
            return Err(Error::new(Code::AlreadyExists));
        }
        if let Some(p) = parent {
            if self.find_id(p).is_none() {
                return Err(Error::new(Code::NoSuchCap));
            }
        }
        if crd.count as u64 > u64::MAX - self.next_id {
            return Err(Error::new(Code::OutOfMem));
        }
        let ghost s = self.caps@;
        let ghost next = self.next_id;
        let mut k: CapSel = 0;
        while k < crd.count
            invariant
                0 <= k <= crd.count,
                crd.valid(),
                next + crd.count <= u64::MAX,
                self.next_id == next,
                self.caps@ == s + Seq::new(
                    k as nat,
                    |j: int| run_cap(next, vpe, crd, parent, obj, j),
                ),
            decreases crd.count - k,
        {
            self.caps.push(
                Capability {
                    id: self.next_id + k as u64,
                    vpe,
                    ty: crd.ty,
                    sel: crd.start + k,
                    parent,
                    obj,
                },
            );
            proof {
                assert(self.caps@ =~= s + Seq::new(
                    (k + 1) as nat,
                    |j: int| run_cap(next, vpe, crd, parent, obj, j),
                ));
            }
            k += 1;
        }
        self.next_id = self.next_id + crd.count as u64;
        proof {
            let f = Seq::new(crd.count as nat, |j: int| run_cap(next, vpe, crd, parent, obj, j));
            lemma_run_wf(s, next, f, vpe, crd, parent, obj);
        }
        Ok(())
    }

    /// The number of capabilities in the table.
    pub fn len(&self) -> (n: usize)
        ensures
            n == self.caps().len(),
    {
        self.caps.len()
    }

    /// The `i`-th capability of the table, in the order in which they were
    /// made.
    pub fn nth(&self, i: usize) -> (c: Capability)
        requires
            i < self.caps().len(),
        ensures
            c == self.caps()[i as int],
    {
        self.caps[i]
    }

    /// The identity that the next capability gets.
    pub fn next_free_id(&self) -> (n: u64)
        ensures
            n == self.next_id(),
    {
        self.next_id
    }
}

} // verus!
