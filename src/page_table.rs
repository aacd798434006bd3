//! Page-table entries and a page table from virtual to physical page numbers.

use std::collections::BTreeMap;
use vstd::prelude::*;

use crate::frame_allocator::FrameTracker;

verus! {

/// The flag bits of a page-table entry.
#[derive(Clone, Copy, Debug, PartialEq, Eq, Structural)]
pub struct PTEFlags {
    pub v: bool,
    pub r: bool,
    pub w: bool,
    pub x: bool,
    pub u: bool,
}

impl PTEFlags {
    /// The hardware encoding: V, R, W, X and U in bits 0 to 4.
    pub open spec fn bits_spec(&self) -> u8 {
        ((if self.v { 1u8 } else { 0u8 }) + (if self.r { 2u8 } else { 0u8 }) + (if self.w {
            4u8
        } else {
            0u8
        }) + (if self.x { 8u8 } else { 0u8 }) + (if self.u { 16u8 } else { 0u8 })) as u8
    }

    /// The hardware encoding: V, R, W, X and U in bits 0 to 4.
    pub fn bits(&self) -> (r: u8)
        ensures
            r == self.bits_spec(),
    {
        let mut b: u8 = 0;
        if self.v {
            b = b + 1;
        }
        if self.r {
            b = b + 2;
        }
        if self.w {
            b = b + 4;
        }
        if self.x {
            b = b + 8;
        }
        if self.u {
            b = b + 16;
        }
        b
    }
}

/// One entry of a page table: the physical page and the flags it is mapped with.
#[derive(Clone, Copy, Debug, PartialEq, Eq, Structural)]
pub struct PageTableEntry {
    pub ppn: usize,
    pub flags: PTEFlags,
}

impl PageTableEntry {
    /// An entry for page `ppn` with `flags`.
    pub fn new(ppn: usize, flags: PTEFlags) -> (r: PageTableEntry)
        ensures
            r.ppn == ppn,
            r.flags == flags,
    {
        PageTableEntry { ppn, flags }
    }

    /// The physical page number.
    pub fn ppn(&self) -> (r: usize)
        ensures
            r == self.ppn,
    {
        self.ppn
    }

    /// The flags.
    pub fn flags(&self) -> (r: PTEFlags)
        ensures
            r == self.flags,
    {
        self.flags
    }

    /// Whether the entry is valid.
    pub fn is_valid(&self) -> (r: bool)
        ensures
            r == self.flags.v,
    {
        self.flags.v
    }

    /// Whether the page can be read.
    pub fn readable(&self) -> (r: bool)
        ensures
            r == self.flags.r,
    {
        self.flags.r
    }

    /// Whether the page can be written.
    pub fn writable(&self) -> (r: bool)
        ensures
            r == self.flags.w,
    {
        self.flags.w
    }

    /// Whether the page can be executed.
    pub fn executable(&self) -> (r: bool)
        ensures
            r == self.flags.x,
    {
        self.flags.x
    }

    /// Whether user mode can reach the page.
    pub fn user_accessible(&self) -> (r: bool)
        ensures
            r == self.flags.u,
    {
        self.flags.u
    }
}

/// The entry that `map(vpn, ppn, flags)` installs.
pub open spec fn mapped_entry(ppn: usize, flags: PTEFlags) -> PageTableEntry {
    PageTableEntry { ppn, flags: PTEFlags { v: true, ..flags } }
}

/// A page table: which virtual page maps to which physical page, with which
/// flags. It owns the frame that its root stands in.
pub struct PageTable {
    root: FrameTracker,
    entries: BTreeMap<usize, PageTableEntry>,
}

impl View for PageTable {
    type V = Map<usize, PageTableEntry>;

    closed spec fn view(&self) -> Map<usize, PageTableEntry> {
        self.entries@
    }
}

impl PageTable {
    /// The physical page of the root.
    pub closed spec fn root_ppn(&self) -> usize {
        self.root.ppn
    }

    /// The value that the MMU's address-translation register is loaded with:
    /// the paging mode in the top four bits, the root page below.
    pub closed spec fn token_spec(&self) -> usize {
        ((8u64 << 60u64) | (self.root.ppn as u64)) as usize
    }

    /// An empty page table whose root stands in `root`.
    pub fn new(root: FrameTracker) -> (r: PageTable)
        ensures
            r@ == Map::<usize, PageTableEntry>::empty(),
            r.root_ppn() == root.ppn,
    {
        PageTable { root, entries: BTreeMap::new() }
    }

    /// Maps `vpn` to `ppn` with `flags`, marked valid.
    pub fn map(&mut self, vpn: usize, ppn: usize, flags: PTEFlags)
        requires
            !old(self)@.contains_key(vpn),
        ensures
            final(self)@ == old(self)@.insert(vpn, mapped_entry(ppn, flags)),
            final(self).root_ppn() == old(self).root_ppn(),
    {
        let entry = PageTableEntry::new(ppn, PTEFlags { v: true, ..flags });
        self.entries.insert(vpn, entry);
    }

    /// Removes the entry of `vpn`.
    pub fn unmap(&mut self, vpn: usize)
        requires
            old(self)@.contains_key(vpn),
        ensures
            final(self)@ == old(self)@.remove(vpn),
            final(self).root_ppn() == old(self).root_ppn(),
    {
        self.entries.remove(&vpn);
    }

    /// The entry of `vpn`, if it is mapped.
    pub fn translate(&self, vpn: usize) -> (r: Option<PageTableEntry>)
        ensures
            r == (if self@.contains_key(vpn) {
                Some(self@[vpn])
            } else {
                None::<PageTableEntry>
            }),
    {
        match self.entries.get(&vpn) {
            Some(e) => Some(*e),
            None => None,
        }
    }

    /// Gives up the table, handing back the frame of its root.
    pub fn into_root(self) -> (r: FrameTracker)
        ensures
            r.ppn == self.root_ppn(),
    {
        self.root
    }

    /// The value that the MMU's address-translation register is loaded with.
    pub fn token(&self) -> (r: usize)
        ensures
            r == self.token_spec(),
    {
        ((8u64 << 60u64) | (self.root.ppn as u64)) as usize
    }
}

} // verus!
