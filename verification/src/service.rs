//! The system calls for services, sessions and mappings.

use vstd::prelude::*;
use vstd::string::StringSliceAdditionalSpecFns;
use crate::addr::GlobAddr;
use crate::cap::{cap_by_id, lemma_at, lemma_by_id_at, run_cap, Capability, KObject};
use crate::cfg::PAGE_SIZE;
use crate::dtu::Endpoint;
use crate::errors::{Code, Error};
use crate::kernel::{lemma_narrowed_append, owned_region, within, Kernel};
use crate::kif::{
    creatable, sel_creatable, CapRngDesc, CapSel, CapType, Perm, ServName, VpeId, MAX_NAME_LEN,
};
use crate::syscalls::plain;

verus! {

/// `c` is a capability for the service with the name `name`.
pub open spec fn is_serv(c: Capability, name: Seq<u8>) -> bool {
    c.obj is Serv && c.obj->name@ == name
}

/// The first capability of `s` from place `i` on that is one for the
/// service with the name `name`.
pub open spec fn serv_from(s: Seq<Capability>, name: Seq<u8>, i: int) -> Option<Capability>
    decreases s.len() - i,
{
    if i < 0 || i >= s.len() {
        None
    } else if is_serv(s[i], name) {
        Some(s[i])
    } else {
        serv_from(s, name, i + 1)
    }
}

/// The oldest capability of `s` for the service with the name `name`.
pub open spec fn service_named(s: Seq<Capability>, name: Seq<u8>) -> Option<Capability> {
    serv_from(s, name, 0)
}

impl Kernel {
    /// Installs a capability for the plain object `obj` at each selector of
    /// the run `crd` of `vpe`.
    pub fn install_run(&mut self, vpe: VpeId, crd: CapRngDesc, obj: KObject, parent: Option<u64>) -> (r:
        Result<(), Error>)
        requires
            old(self).wf(),
            vpe < old(self).vpes@.len(),
            plain(obj, old(self).vpes@.len() as int),
            parent is Some && cap_by_id(old(self).caps.caps(), parent->0) is Some ==> within(
                obj,
                cap_by_id(old(self).caps.caps(), parent->0)->0.obj,
            ),
        ensures
            final(self).wf(),
            final(self).mem == old(self).mem,
            final(self).vpes == old(self).vpes,
            match r {
                Ok(_) => {
                    &&& old(self).caps.create_run_error(vpe, crd, parent) is None
                    &&& final(self).caps.next_id() == old(self).caps.next_id() + crd.count
                    &&& final(self).caps.caps() == old(self).caps.caps() + Seq::new(
                        crd.count as nat,
                        |k: int| run_cap(old(self).caps.next_id(), vpe, crd, parent, obj, k),
                    )
                },
                Err(e) => {
                    &&& old(self).caps.create_run_error(vpe, crd, parent) == Some(e.code())
                    &&& *final(self) == *old(self)
                },
            },
    {
        let ghost s = self.caps.caps();
        let ghost next = self.caps.next_id();
        match self.caps.create_run(vpe, crd, obj, parent) {
            Ok(_) => {
                proof {
                    let t = self.caps.caps();
                    assert forall|c: Capability| #[trigger] t.contains(c) implies s.contains(c) || (c.vpe
                        == vpe && c.obj == obj) by {
                        let i = choose|i: int| 0 <= i < t.len() && t[i] == c;
                        if i < s.len() {
                            assert(s[i] == c);
                        } else {
                            assert(c == run_cap(next, vpe, crd, parent, obj, i - s.len()));
                        }
                    }
                    assert forall|c: Capability| #[trigger]
                        t.contains(c) && owned_region(c) is Some implies s.contains(c) by {}
                    lemma_narrowed_append(
                        s,
                        next,
                        Seq::new(crd.count as nat, |k: int| run_cap(next, vpe, crd, parent, obj, k)),
                    );
                }
                Ok(())
            },
            Err(e) => Err(e),
        }
    }

    /// The oldest capability for the service with the name `name`.
    pub fn find_service(&self, name: &ServName) -> (r: Option<Capability>)
        requires
            self.wf(),
            name.wf(),
        ensures
            r == service_named(self.caps.caps(), name@),
    {
        let n = self.caps.len();
        let mut i: usize = 0;
        while i < n
            invariant
                0 <= i <= n,
                n == self.caps.caps().len(),
                self.wf(),
                name.wf(),
                service_named(self.caps.caps(), name@) == serv_from(self.caps.caps(), name@, i as int),
            decreases n - i,
        {
            let c = self.caps.nth(i);
            proof {
                assert(self.caps.caps().contains(c));
            }
            if let KObject::Serv { rgate, name: have } = c.obj {
                if have.same(name) {
                    return Some(c);
                }
            }
            i += 1;
        }
        None
    }

    /// The receive gate with identity `id` is bound to a receive endpoint.
    pub open spec fn listening(&self, id: u64) -> bool {
        exists|v: int, e: int| self.recv_at(id, v, e)
    }

    /// What `create_srv` answers for the given arguments: the error, or
    /// nothing where the service is created.
    pub open spec fn create_srv_error(&self, vpe: VpeId, sel: CapSel, rgate_sel: CapSel, name: Seq<u8>) -> Option<
        Code,
    > {
        if vpe >= self.vpes@.len() || !creatable(sel) || name.len() > MAX_NAME_LEN {
            Some(Code::InvArgs)
        } else {
            match self.obj_at(vpe, rgate_sel) {
                None => Some(Code::NoSuchCap),
                Some(c) => if !(c.obj is RGate) || !self.listening(c.id) {
                    Some(Code::InvArgs)
                } else if service_named(self.caps.caps(), name) is Some {
                    Some(Code::AlreadyExists)
                } else {
                    self.caps.create_error(vpe, sel, CapType::Object, None)
                },
            }
        }
    }

    /// Creates, at selector `sel` of `vpe`, the service `name`, which takes
    /// its requests at the receive gate that `vpe` holds at `rgate_sel`.
    /// Fails with `InvArgs` where `sel` is none of the selectors a capability
    /// can be created at or the name is too
    /// long, with `NoSuchCap` where `rgate_sel` is empty, with `InvArgs`
    /// where it holds no receive gate or one that is bound to no endpoint,
    /// with `AlreadyExists` where there is a service of that name, and as
    /// the creation of a capability fails; the kernel then stays as it is.
    pub fn create_srv(&mut self, vpe: VpeId, sel: CapSel, rgate_sel: CapSel, name: &str) -> (r: Result<
        (),
        Error,
    >)
        requires
            old(self).wf(),
        ensures
            final(self).wf(),
            final(self).mem == old(self).mem,
            final(self).vpes == old(self).vpes,
            match r {
                Ok(_) => {
                    &&& old(self).create_srv_error(vpe, sel, rgate_sel, name.spec_bytes()) is None
                    &&& final(self).caps.next_id() == old(self).caps.next_id() + 1
                    &&& exists|n: ServName|
                        n@ == name.spec_bytes() && #[trigger] final(self).caps.caps() == old(
                            self,
                        ).caps.caps().push(
                            Capability {
                                id: old(self).caps.next_id(),
                                vpe,
                                ty: CapType::Object,
                                sel,
                                parent: None,
                                obj: KObject::Serv { rgate: old(self).obj_at(vpe, rgate_sel)->0.id, name: n },
                            },
                        )
                },
                Err(e) => {
                    &&& old(self).create_srv_error(vpe, sel, rgate_sel, name.spec_bytes()) == Some(
                        e.code(),
                    )
                    &&& *final(self) == *old(self)
                },
            },
    {
        if vpe >= self.vpes.len() || !sel_creatable(sel) {
            return Err(Error::new(Code::InvArgs));
        }
        let n = match ServName::new(name) {
            Some(n) => n,
            None => {
                return Err(Error::new(Code::InvArgs));
            },
        };
        let rgate = match self.caps.get(vpe, CapType::Object, rgate_sel) {
            None => {
                return Err(Error::new(Code::NoSuchCap));
            },
            Some(c) => match c.obj {
                KObject::RGate { .. } => c.id,
                _ => {
                    return Err(Error::new(Code::InvArgs));
                },
            },
        };
        let bound = match self.find_ep_of(rgate) {
            None => false,
            Some((v, e)) => {
                proof {
                    self.lemma_recv_unique(rgate, v as int, e as int);
                }
                match &self.vpes[v].eps[e] {
                    Endpoint::Recv { .. } => true,
                    _ => false,
                }
            },
        };
        if !bound {
            return Err(Error::new(Code::InvArgs));
        }
        if self.find_service(&n).is_some() {
            return Err(Error::new(Code::AlreadyExists));
        }
        let ghost s = self.caps.caps();
        match self.install(vpe, sel, CapType::Object, KObject::Serv { rgate, name: n }, None) {
            Ok(_) => {
                proof {
                    assert(self.caps.caps() == s.push(
                        Capability {
                            id: old(self).caps.next_id(),
                            vpe,
                            ty: CapType::Object,
                            sel,
                            parent: None,
                            obj: KObject::Serv { rgate: old(self).obj_at(vpe, rgate_sel)->0.id, name: n },
                        },
                    ));
                }
                Ok(())
            },
            Err(e) => Err(e),
        }
    }

    /// What `open_sess` answers for the given arguments: the error, or
    /// nothing where the session is opened.
    pub open spec fn open_sess_error(&self, vpe: VpeId, sel: CapSel, name: Seq<u8>) -> Option<Code> {
        if vpe >= self.vpes@.len() || !creatable(sel) || name.len() > MAX_NAME_LEN {
            Some(Code::InvArgs)
        } else {
            match service_named(self.caps.caps(), name) {
                None => Some(Code::InvArgs),
                Some(srv) => self.caps.create_error(vpe, sel, CapType::Object, Some(srv.id)),
            }
        }
    }

    /// Opens, at selector `sel` of `vpe`, a session at the service `name`
    /// with the argument `arg`. The session is derived from the oldest
    /// capability for the service: it goes when the service is revoked.
    /// Fails with `InvArgs` where `sel` is none of the selectors a capability
    /// can be created at, the name is too long
    /// or there is no service of that name, and as the creation of a
    /// capability fails; the kernel then stays as it is.
    pub fn open_sess(&mut self, vpe: VpeId, sel: CapSel, name: &str, arg: u64) -> (r: Result<(), Error>)
        requires
            old(self).wf(),
        ensures
            final(self).wf(),
            final(self).mem == old(self).mem,
            final(self).vpes == old(self).vpes,
            match r {
                Ok(_) => {
                    let srv = service_named(old(self).caps.caps(), name.spec_bytes())->0;
                    &&& old(self).open_sess_error(vpe, sel, name.spec_bytes()) is None
                    &&& final(self).caps.next_id() == old(self).caps.next_id() + 1
                    &&& final(self).caps.caps() == old(self).caps.caps().push(
                        Capability {
                            id: old(self).caps.next_id(),
                            vpe,
                            ty: CapType::Object,
                            sel,
                            parent: Some(srv.id),
                            obj: KObject::Sess { srv: srv.id, arg },
                        },
                    )
                },
                Err(e) => {
                    &&& old(self).open_sess_error(vpe, sel, name.spec_bytes()) == Some(e.code())
                    &&& *final(self) == *old(self)
                },
            },
    {
        if vpe >= self.vpes.len() || !sel_creatable(sel) {
            return Err(Error::new(Code::InvArgs));
        }
        let n = match ServName::new(name) {
            Some(n) => n,
            None => {
                return Err(Error::new(Code::InvArgs));
            },
        };
        let srv = match self.find_service(&n) {
            Some(c) => c,
            None => {
                return Err(Error::new(Code::InvArgs));
            },
        };
        match self.install(
            vpe,
            sel,
            CapType::Object,
            KObject::Sess { srv: srv.id, arg },
            Some(srv.id),
        ) {
            Ok(_) => Ok(()),
            Err(e) => Err(e),
        }
    }

    /// What `create_map` answers for the given arguments: the error, or
    /// nothing where the pages are mapped.
    pub open spec fn create_map_error(
        &self,
        vpe: VpeId,
        dest_page: CapSel,
        vpe_sel: CapSel,
        mem_sel: CapSel,
        page_off: CapSel,
        page_count: CapSel,
        perm: Perm,
    ) -> Option<Code> {
        match self.vpe_at(vpe, vpe_sel) {
            Err(code) => Some(code),
            Ok(target) => match self.obj_at(vpe, mem_sel) {
                None => Some(Code::NoSuchCap),
                Some(c) => match c.obj {
                    KObject::MGate { addr, size, perm: may, owned } => if page_count == 0
                        || !perm.subset_of(may) || (page_off + page_count) * PAGE_SIZE > size {
                        Some(Code::InvArgs)
                    } else {
                        self.caps.create_run_error(
                            target,
                            CapRngDesc { ty: CapType::Mapping, start: dest_page, count: page_count },
                            Some(c.id),
                        )
                    },
                    _ => Some(Code::InvArgs),
                },
            },
        }
    }

    /// Maps, for the VPE that `vpe` names by `vpe_sel`, the `page_count`
    /// pages from page `dest_page` on to the pages from page `page_off` on
    /// of the memory window that `vpe` holds at `mem_sel`, with the
    /// permissions `perm`: each page gets a mapping capability of its own,
    /// derived from the memory capability. Fails as the look-up of the VPE
    /// fails, with `NoSuchCap` where `mem_sel` is empty, with `InvArgs`
    /// where it holds no memory capability, where no page is asked for,
    /// where `perm` allows what the window does not or where the pages do
    /// not lie in the window, and as the creation of the capabilities fails;
    /// the kernel then stays as it is.
    pub fn create_map(
        &mut self,
        vpe: VpeId,
        dest_page: CapSel,
        vpe_sel: CapSel,
        mem_sel: CapSel,
        page_off: CapSel,
        page_count: CapSel,
        perm: Perm,
    ) -> (r: Result<(), Error>)
        requires
            old(self).wf(),
        ensures
            final(self).wf(),
            final(self).mem == old(self).mem,
            final(self).vpes == old(self).vpes,
            match r {
                Ok(_) => {
                    let target = old(self).vpe_at(vpe, vpe_sel)->Ok_0;
                    let mem = old(self).obj_at(vpe, mem_sel)->0;
                    &&& old(self).create_map_error(
                        vpe,
                        dest_page,
                        vpe_sel,
                        mem_sel,
                        page_off,
                        page_count,
                        perm,
                    ) is None
                    &&& final(self).caps.next_id() == old(self).caps.next_id() + page_count
                    &&& final(self).caps.caps() == old(self).caps.caps() + Seq::new(
                        page_count as nat,
                        |k: int|
                            run_cap(
                                old(self).caps.next_id(),
                                target,
                                CapRngDesc { ty: CapType::Mapping, start: dest_page, count: page_count },
                                Some(mem.id),
                                KObject::Mapped {
                                    addr: GlobAddr {
                                        pe: mem.obj->MGate_addr.pe,
                                        offset: (mem.obj->MGate_addr.offset + page_off * PAGE_SIZE) as u64,
                                    },
                                    first: dest_page,
                                    perm,
                                },
                                k,
                            ),
                    )
                },
                Err(e) => {
                    &&& old(self).create_map_error(
                        vpe,
                        dest_page,
                        vpe_sel,
                        mem_sel,
                        page_off,
                        page_count,
                        perm,
                    ) == Some(e.code())
                    &&& *final(self) == *old(self)
                },
            },
    {
        let target = match self.vpe_of(vpe, vpe_sel) {
            Ok(id) => id,
            Err(e) => {
                return Err(e);
            },
        };
        let mem = match self.caps.get(vpe, CapType::Object, mem_sel) {
            None => {
                return Err(Error::new(Code::NoSuchCap));
            },
            Some(c) => c,
        };
        proof {
            lemma_at(self.caps.caps(), vpe, CapType::Object, mem_sel);
        }
        match mem.obj {
            KObject::MGate { addr, size, perm: may, owned } => {
                let pages: u64 = page_off as u64 + page_count as u64;
                if page_count == 0 || !perm.is_subset_of(may) || pages * 0x1000 > size as u64 {
                    return Err(Error::new(Code::InvArgs));
                }
                let obj = KObject::Mapped {
                    addr: addr.offset_by(page_off as u64 * 0x1000),
                    first: dest_page,
                    perm,
                };
                let crd = CapRngDesc::new(CapType::Mapping, dest_page, page_count);
                proof {
                    let i = choose|i: int|
                        0 <= i < self.caps.caps().len() && self.caps.caps()[i] == mem;
                    lemma_by_id_at(self.caps.caps(), i);
                }
                self.install_run(target, crd, obj, Some(mem.id))
            },
            _ => Err(Error::new(Code::InvArgs)),
        }
    }
}

} // verus!
