//! Directory entries as they lie in the bytes of a directory: a header of
//! three little-endian words (the inode, the length of the name, and the
//! distance to the next entry), then the name.

use vstd::prelude::*;
use vstd::utf8::{decode_utf8, valid_utf8};

verus! {

/// The number of an inode.
pub type INodeId = u32;

/// The bytes of the header of an entry.
pub const HEADER_LEN: usize = 12;

/// An entry of a directory.
#[derive(Debug)]
pub struct DirEntry {
    inode: INodeId,
    name: String,
}

impl DirEntry {
    /// The inode of the entry.
    pub closed spec fn inode_spec(&self) -> INodeId {
        self.inode
    }

    /// The name of the entry.
    pub closed spec fn name_spec(&self) -> Seq<char> {
        self.name@
    }

    /// The entry for `inode` with the name `name`.
    pub fn new(inode: INodeId, name: String) -> (e: DirEntry)
        ensures
            e.inode_spec() == inode,
            e.name_spec() == name@,
    {
        DirEntry { inode, name }
    }

    /// The inode of the entry.
    pub fn inode(&self) -> (inode: INodeId)
        ensures
            inode == self.inode_spec(),
    {
        self.inode
    }

    /// The name of the entry.
    pub fn file_name(&self) -> (name: &str)
        ensures
            name@ == self.name_spec(),
    {
        self.name.as_str()
    }
}

/// The little-endian word in the four bytes of `d` from `at` on.
pub open spec fn le32(d: Seq<u8>, at: int) -> int {
    d[at] + 0x100 * d[at + 1] + 0x1_0000 * d[at + 2] + 0x100_0000 * d[at + 3]
}

/// An entry as it lies in the bytes of a directory.
pub struct RawEntry {
    pub inode: INodeId,
    pub name: Seq<u8>,
    /// Where the next entry starts.
    pub next: int,
}

/// The entry that starts at byte `pos` of `d`: nothing where header or name
/// do not lie in `d`, where the name is no UTF-8, or where the distance to
/// the next entry is less than this entry is long or leads out of `d`.
pub open spec fn entry_at(d: Seq<u8>, pos: int) -> Option<RawEntry> {
    if pos < 0 || pos + HEADER_LEN > d.len() {
        None
    } else {
        let name_len = le32(d, pos + 4);
        let next = le32(d, pos + 8);
        if pos + HEADER_LEN + name_len > d.len() || next < HEADER_LEN + name_len || pos + next
            > d.len() || !valid_utf8(d.subrange(pos + HEADER_LEN, pos + HEADER_LEN + name_len)) {
            None
        } else {
            Some(
                RawEntry {
                    inode: le32(d, pos) as u32,
                    name: d.subrange(pos + HEADER_LEN, pos + HEADER_LEN + name_len),
                    next: pos + next,
                },
            )
        }
    }
}

/// The entries of `d` from byte `pos` on, up to the first place at which
/// there is none.
pub open spec fn entries_from(d: Seq<u8>, pos: int) -> Seq<RawEntry>
    decreases d.len() - pos,
{
    match entry_at(d, pos) {
        None => Seq::empty(),
        Some(e) => seq![e] + entries_from(d, e.next),
    }
}

/// `String::from_utf8` of the standard library: the string that `bytes`
/// spell, if they are UTF-8, and nothing if they are not.
#[verifier::external_body]
fn string_from_utf8(bytes: Vec<u8>) -> (r: Option<String>)
    ensures
        match r {
            Some(s) => valid_utf8(bytes@) && s@ == decode_utf8(bytes@),
            None => !valid_utf8(bytes@),
        },
{
    String::from_utf8(bytes).ok()
}

/// The word in the four bytes of `d` from `at` on.
fn read_le32(d: &Vec<u8>, at: usize) -> (w: u32)
    requires
        at + 4 <= d@.len(),
    ensures
        w == le32(d@, at as int),
{
    let n = d.len();
    let b0 = d[at] as u32;
    let b1 = d[at + 1] as u32;
    let b2 = d[at + 2] as u32;
    let b3 = d[at + 3] as u32;
    b0 + 0x100 * b1 + 0x1_0000 * b2 + 0x100_0000 * b3
}

/// A reader of the entries of a directory.
#[derive(Debug)]
pub struct ReadDir {
    data: Vec<u8>,
    pos: usize,
}

impl ReadDir {
    /// The bytes of the directory.
    pub closed spec fn data(&self) -> Seq<u8> {
        self.data@
    }

    /// The byte at which the next entry starts.
    pub closed spec fn pos(&self) -> int {
        self.pos as int
    }

    /// The representation invariant.
    pub closed spec fn wf(&self) -> bool {
        self.pos <= self.data@.len()
    }

    /// The next entry, after which the reader stands behind it; nothing,
    /// with the reader where it stood, where there is no entry.
    pub fn next(&mut self) -> (r: Option<DirEntry>)
        requires
            old(self).wf(),
        ensures
            final(self).wf(),
            final(self).data() == old(self).data(),
            match entry_at(old(self).data(), old(self).pos()) {
                None => r is None && final(self).pos() == old(self).pos(),
                Some(e) => {
                    &&& r is Some
                    &&& r->0.inode_spec() == e.inode
                    &&& r->0.name_spec() == decode_utf8(e.name)
                    &&& final(self).pos() == e.next
                },
            },
    {
        let len = self.data.len();
        let pos = self.pos;
        if len - pos < HEADER_LEN {
            return None;
        }
        let inode = read_le32(&self.data, pos);
        let name_len = read_le32(&self.data, pos + 4) as usize;
        let next = read_le32(&self.data, pos + 8) as usize;
        let rest = len - pos - HEADER_LEN;
        if name_len > rest || next < HEADER_LEN || next - HEADER_LEN < name_len || next > len - pos {
            return None;
        }
        let start = pos + HEADER_LEN;
        let mut bytes: Vec<u8> = Vec::new();
        let mut i: usize = 0;
        while i < name_len
            invariant
                0 <= i <= name_len,
                start + name_len <= self.data@.len() == len,
                bytes@ == self.data@.subrange(start as int, start + i),
            decreases name_len - i,
        {
            bytes.push(self.data[start + i]);
            proof {
                assert(bytes@ =~= self.data@.subrange(start as int, start + i + 1));
            }
            i += 1;
        }
        match string_from_utf8(bytes) {
            None => None,
            Some(name) => {
                self.pos = pos + next;
                Some(DirEntry::new(inode, name))
            },
        }
    }

    /// The entries from where the reader stands on, in their order.
    pub fn entries(&mut self) -> (r: Vec<DirEntry>)
        requires
            old(self).wf(),
        ensures
            final(self).wf(),
            final(self).data() == old(self).data(),
            r@.len() == entries_from(old(self).data(), old(self).pos()).len(),
            forall|i: int|
                0 <= i < r@.len() ==> (#[trigger] r@[i]).inode_spec() == entries_from(
                    old(self).data(),
                    old(self).pos(),
                )[i].inode && r@[i].name_spec() == decode_utf8(
                    entries_from(old(self).data(), old(self).pos())[i].name,
                ),
            entry_at(final(self).data(), final(self).pos()) is None,
    {
        let mut out: Vec<DirEntry> = Vec::new();
        let ghost all = entries_from(self.data@, self.pos as int);
        loop
            invariant
                self.wf(),
                self.data@ == old(self).data@,
                all == entries_from(old(self).data@, old(self).pos as int),
                all == Seq::new(out@.len(), |i: int| all[i]) + entries_from(self.data@, self.pos as int),
                forall|i: int|
                    0 <= i < out@.len() ==> (#[trigger] out@[i]).inode_spec() == all[i].inode
                        && out@[i].name_spec() == decode_utf8(all[i].name),
            ensures
                entry_at(self.data@, self.pos as int) is None,
                out@.len() == all.len(),
            decreases self.data@.len() - self.pos,
        {
            let ghost before = self.pos as int;
            let ghost done = Seq::new(out@.len(), |i: int| all[i]);
            match self.next() {
                None => {
                    proof {
                        assert(entries_from(self.data@, before) =~= Seq::<RawEntry>::empty());
                        assert(all =~= done);
                    }
                    break ;
                },
                Some(e) => {
                    proof {
                        let raw = entry_at(self.data@, before)->0;
                        assert(entries_from(self.data@, before) == seq![raw] + entries_from(
                            self.data@,
                            raw.next,
                        ));
                        assert(all[out@.len() as int] == raw);
                        assert(all =~= Seq::new(out@.len() + 1, |i: int| all[i]) + entries_from(
                            self.data@,
                            raw.next,
                        ));
                    }
                    out.push(e);
                },
            }
        }
        out
    }
}

/// A reader of the entries of the directory whose bytes are `data`, at its
/// first entry.
pub fn read_dir(data: Vec<u8>) -> (r: ReadDir)
    ensures
        r.wf(),
        r.data() == data@,
        r.pos() == 0,
{
    ReadDir { data, pos: 0 }
}

} // verus!
