//! Page-table entries and the three-level page table.
use vstd::prelude::*;
use crate::address::{idx0, idx1, idx2, lemma_indexes_determine_vpn, PhysPageNum, VirtPageNum, VirtAddr, PPN_LIMIT, VPN_LIMIT, PAGE_SIZE};
use crate::frame_allocator::{only_took, FrameTracker, StackFrameAllocator};

verus! {

/// Valid.
pub const PTE_V: u8 = 1;
/// Readable.
pub const PTE_R: u8 = 2;
/// Writable.
pub const PTE_W: u8 = 4;
/// Executable.
pub const PTE_X: u8 = 8;
/// Accessible from user mode.
pub const PTE_U: u8 = 16;
/// Global.
pub const PTE_G: u8 = 32;
/// Accessed.
pub const PTE_A: u8 = 64;
/// Dirty.
pub const PTE_D: u8 = 128;

/// The eight flag bits of a page-table entry, at their hardware positions.
#[derive(Clone, Copy, Debug, PartialEq, Eq, Structural)]
pub struct PTEFlags {
    pub bits: u8,
}

impl PTEFlags {
    pub fn from_bits(bits: u8) -> (r: Self)
        ensures
            r.bits == bits,
    {
        PTEFlags { bits }
    }

    pub fn empty() -> (r: Self)
        ensures
            r.bits == 0,
    {
        PTEFlags { bits: 0 }
    }

    /// The flags of both sets.
    pub fn union(self, other: Self) -> (r: Self)
        ensures
            r.bits == self.bits | other.bits,
    {
        PTEFlags { bits: self.bits | other.bits }
    }

    /// Whether every flag of `other` is set.
    pub fn contains(self, other: Self) -> (r: bool)
        ensures
            r == (self.bits & other.bits == other.bits),
    {
        self.bits & other.bits == other.bits
    }
}

/// One slot of a table: a 44-bit physical page number above ten flag bits.
#[derive(Clone, Copy, Debug, PartialEq, Eq, Structural)]
pub struct PageTableEntry {
    pub bits: u64,
}

/// The entry that points at `ppn` with `flags`.
pub open spec fn pte_bits(ppn: u64, flags: u8) -> u64 {
    (ppn << 10u64) | (flags as u64)
}

impl PageTableEntry {
    pub open spec fn ppn_spec(&self) -> u64 {
        (self.bits >> 10u64) & 0xfff_ffff_ffffu64
    }

    pub open spec fn flags_spec(&self) -> u8 {
        (self.bits & 0xffu64) as u8
    }

    pub open spec fn valid_spec(&self) -> bool {
        self.bits & 1u64 != 0
    }

    pub open spec fn empty_spec() -> PageTableEntry {
        PageTableEntry { bits: 0 }
    }

    pub fn new(ppn: PhysPageNum, flags: PTEFlags) -> (r: Self)
        requires
            ppn.0 < PPN_LIMIT,
        ensures
            r.bits == pte_bits(ppn.0, flags.bits),
            r.ppn_spec() == ppn.0,
            r.flags_spec() == flags.bits,
            r.valid_spec() == (flags.bits & 1 != 0),
    {
        let f = flags.bits as u64;
        let p = ppn.0;
        proof { lemma_pte_fields(p, f); }
        PageTableEntry { bits: (p << 10u64) | f }
    }

    /// The all-zero entry, which is not valid.
    pub fn empty() -> (r: Self)
        ensures
            r == Self::empty_spec(),
            !r.valid_spec(),
    {
        assert(0u64 & 1u64 == 0) by (bit_vector);
        PageTableEntry { bits: 0 }
    }

    pub fn ppn(&self) -> (r: PhysPageNum)
        ensures
            r.0 == self.ppn_spec(),
            r.0 < PPN_LIMIT,
    {
        let b = self.bits;
        assert((b >> 10u64) & 0xfff_ffff_ffffu64 < 17592186044416u64) by (bit_vector);
        PhysPageNum((b >> 10u64) & 0xfff_ffff_ffffu64)
    }

    pub fn flags(&self) -> (r: PTEFlags)
        ensures
            r.bits == self.flags_spec(),
    {
        PTEFlags { bits: (self.bits & 0xffu64) as u8 }
    }

    pub fn is_valid(&self) -> (r: bool)
        ensures
            r == self.valid_spec(),
    {
        self.bits & 1u64 != 0
    }

    pub fn readable(&self) -> (r: bool)
        ensures
            r == (self.flags_spec() & PTE_R != 0),
    {
        self.flags().bits & PTE_R != 0
    }

    pub fn writable(&self) -> (r: bool)
        ensures
            r == (self.flags_spec() & PTE_W != 0),
    {
        self.flags().bits & PTE_W != 0
    }

    pub fn executable(&self) -> (r: bool)
        ensures
            r == (self.flags_spec() & PTE_X != 0),
    {
        self.flags().bits & PTE_X != 0
    }
}

proof fn lemma_pte_fields(p: u64, f: u64)
    requires
        p < 17592186044416u64,
        f < 256,
    ensures
        ((p << 10u64) | f) >> 10u64 & 0xfff_ffff_ffffu64 == p,
        (((p << 10u64) | f) & 0xffu64) as u8 == f as u8,
        (((p << 10u64) | f) & 1u64 != 0) == (f as u8 & 1u8 != 0),
{
    assert(((p << 10u64) | f) >> 10u64 & 0xfff_ffff_ffffu64 == p) by (bit_vector)
        requires p < 17592186044416u64, f < 256u64;
    assert(((p << 10u64) | f) & 0xffu64 == f) by (bit_vector)
        requires f < 256u64;
    assert((((p << 10u64) | f) & 1u64 != 0) == (f & 1u64 != 0)) by (bit_vector)
        requires f < 256u64;
    assert((f & 1u64 != 0) == (f as u8 & 1u8 != 0)) by (bit_vector)
        requires f < 256u64;
}

/// The entry that `map(vpn, ppn, flags)` installs, and that `translate(vpn)`
/// then returns, holds `ppn` and the flags `flags` plus Valid.
pub proof fn lemma_mapped_entry(ppn: u64, flags: u8)
    requires
        ppn < PPN_LIMIT,
    ensures
        (PageTableEntry { bits: pte_bits(ppn, flags | PTE_V) }).ppn_spec() == ppn,
        (PageTableEntry { bits: pte_bits(ppn, flags | PTE_V) }).flags_spec() == flags | PTE_V,
        (PageTableEntry { bits: pte_bits(ppn, flags | PTE_V) }).valid_spec(),
{
    let f = flags | PTE_V;
    assert(f & 1u8 != 0) by (bit_vector)
        requires f == flags | 1u8;
    lemma_pte_fields(ppn, f as u64);
}

/// A three-level page table. Table `k` lives in `frames[k]` (table 0 is the
/// root); `tables[k]` holds its 512 entries and `links[k][i]` the index of the
/// table that a valid non-leaf entry `tables[k][i]` points at.
pub struct PageTable {
    root_ppn: PhysPageNum,
    frames: Vec<FrameTracker>,
    tables: Vec<Vec<PageTableEntry>>,
    links: Vec<Vec<usize>>,
}

impl View for PageTable {
    /// The completed mappings: each mapped page and its valid leaf entry.
    type V = Map<usize, PageTableEntry>;

    closed spec fn view(&self) -> Map<usize, PageTableEntry> {
        Map::new(
            |v: usize| v < VPN_LIMIT && self.walk(v) is Some && self.walk(v).unwrap().valid_spec(),
            |v: usize| self.walk(v).unwrap(),
        )
    }
}

impl PageTable {
    closed spec fn ent(&self, k: int, i: int) -> PageTableEntry {
        self.tables@[k]@[i]
    }

    closed spec fn mid(&self, i0: int) -> int {
        self.links@[0]@[i0] as int
    }

    closed spec fn leaf(&self, i0: int, i1: int) -> int {
        self.links@[self.mid(i0)]@[i1] as int
    }

    closed spec fn root_valid(&self, i0: int) -> bool {
        self.ent(0, i0).valid_spec()
    }

    closed spec fn mid_valid(&self, i0: int, i1: int) -> bool {
        self.root_valid(i0) && self.ent(self.mid(i0), i1).valid_spec()
    }

    /// What the read-walk finds for `vpn`: the leaf slot, or nothing when an
    /// intermediate entry is not valid.
    pub closed spec fn walk(&self, vpn: usize) -> Option<PageTableEntry> {
        if !self.root_valid(idx0(vpn)) {
            None
        } else if !self.mid_valid(idx0(vpn), idx1(vpn)) {
            None
        } else {
            Some(self.ent(self.leaf(idx0(vpn), idx1(vpn)), idx2(vpn)))
        }
    }

    /// The frames that hold this table's own levels.
    pub closed spec fn table_frames(&self) -> Seq<u64> {
        self.frames@.map_values(|f: FrameTracker| f.ppn.0)
    }

    pub closed spec fn root(&self) -> u64 {
        self.root_ppn.0
    }

    pub closed spec fn wf(&self) -> bool {
        let n = self.tables.len();
        &&& n >= 1
        &&& self.frames.len() == n
        &&& self.links.len() == n
        &&& self.frames@[0].ppn == self.root_ppn
        &&& forall|k: int| 0 <= k < n ==> (#[trigger] self.tables@[k]).len() == 512
        &&& forall|k: int| 0 <= k < n ==> (#[trigger] self.links@[k]).len() == 512
        &&& forall|i0: int| 0 <= i0 < 512 && #[trigger] self.root_valid(i0) ==> {
            &&& 0 < self.mid(i0) < n
            &&& self.ent(0, i0).ppn_spec() == self.frames@[self.mid(i0)].ppn.0
        }
        &&& forall|i0: int, i1: int| 0 <= i0 < 512 && 0 <= i1 < 512 && #[trigger] self.mid_valid(i0, i1) ==> {
            &&& 0 < self.leaf(i0, i1) < n
            &&& self.ent(self.mid(i0), i1).ppn_spec() == self.frames@[self.leaf(i0, i1)].ppn.0
        }
        &&& forall|i0: int, j0: int| 0 <= i0 < 512 && 0 <= j0 < 512 && #[trigger] self.root_valid(i0)
            && #[trigger] self.root_valid(j0) && self.mid(i0) == self.mid(j0) ==> i0 == j0
        &&& forall|i0: int, i1: int, j0: int, j1: int|
            0 <= i0 < 512 && 0 <= i1 < 512 && 0 <= j0 < 512 && 0 <= j1 < 512
            && #[trigger] self.mid_valid(i0, i1) && #[trigger] self.mid_valid(j0, j1)
            && self.leaf(i0, i1) == self.leaf(j0, j1) ==> i0 == j0 && i1 == j1
        &&& forall|i0: int, j0: int, j1: int| 0 <= i0 < 512 && 0 <= j0 < 512 && 0 <= j1 < 512
            && #[trigger] self.root_valid(i0) && #[trigger] self.mid_valid(j0, j1)
            ==> self.mid(i0) != self.leaf(j0, j1)
    }

    /// A table with an empty root in a frame taken from `allocator`.
    pub fn new(allocator: &mut StackFrameAllocator) -> (r: Self)
        requires
            old(allocator).wf(),
            old(allocator).available() >= 1,
        ensures
            r.wf(),
            r@ == Map::<usize, PageTableEntry>::empty(),
            forall|v: usize| r.walk(v) is None,
            r.table_frames() == seq![r.root()],
            final(allocator).wf(),
            final(allocator).available() == old(allocator).available() - 1,
            final(allocator).free() == old(allocator).free().remove(r.root()),
            old(allocator).free().contains(r.root()),
    {
        let frame = allocator.frame_alloc().unwrap();
        let root_ppn = frame.ppn;
        let mut frames = Vec::new();
        frames.push(frame);
        let mut tables = Vec::new();
        tables.push(empty_table());
        let mut links = Vec::new();
        links.push(zero_links());
        let r = PageTable { root_ppn, frames, tables, links };
        assert(r@ =~= Map::<usize, PageTableEntry>::empty());
        assert(r.table_frames() =~= seq![r.root()]);
        r
    }

    /// Frames that mapping `vpn` takes for tables: one for each intermediate
    /// entry on its path that is not yet valid.
    pub closed spec fn path_frames(&self, vpn: usize) -> nat {
        if !self.root_valid(idx0(vpn)) {
            2
        } else if !self.mid_valid(idx0(vpn), idx1(vpn)) {
            1
        } else {
            0
        }
    }

    /// What the read-walk of `vpn` means to a caller: it finds a slot exactly
    /// when mapping `vpn` needs no new table; it finds a valid entry exactly
    /// when `vpn` is mapped, and then that mapping.
    pub proof fn lemma_walk(&self, vpn: usize)
        requires
            vpn < VPN_LIMIT,
        ensures
            self.path_frames(vpn) <= 2,
            self.walk(vpn) is Some <==> self.path_frames(vpn) == 0,
            (self.walk(vpn) matches Some(e) && e.valid_spec()) <==> self@.contains_key(vpn),
            self@.contains_key(vpn) ==> self.walk(vpn) == Some(self@[vpn]),
    {
    }

    /// Read-walk: the leaf slot for `vpn`, or `None` at the first intermediate
    /// entry that is not valid. Allocates nothing.
    fn find_pte(&self, vpn: VirtPageNum) -> (r: Option<&PageTableEntry>)
        requires
            self.wf(),
        ensures
            match r {
                Some(e) => self.walk(vpn.0) == Some(*e),
                None => self.walk(vpn.0) is None,
            },
    {
        let idxs = vpn.indexes();
        let e0 = &self.tables[0][idxs[0]];
        if !e0.is_valid() {
            return None;
        }
        let k1 = self.links[0][idxs[0]];
        assert(self.root_valid(idx0(vpn.0)));
        let e1 = &self.tables[k1][idxs[1]];
        if !e1.is_valid() {
            return None;
        }
        let k2 = self.links[k1][idxs[1]];
        assert(self.mid_valid(idx0(vpn.0), idx1(vpn.0)));
        Some(&self.tables[k2][idxs[2]])
    }

    /// A copy of the leaf entry for `vpn`, or `None` where no leaf table
    /// covers it. A page is mapped exactly when a valid entry comes back.
    pub fn translate(&self, vpn: VirtPageNum) -> (r: Option<PageTableEntry>)
        requires
            self.wf(),
            vpn.0 < VPN_LIMIT,
        ensures
            r == self.walk(vpn.0),
            self@.contains_key(vpn.0) ==> r == Some(self@[vpn.0]),
            (r matches Some(e) && e.valid_spec()) <==> self@.contains_key(vpn.0),
            !self@.contains_key(vpn.0) ==> (r is None || !r.unwrap().valid_spec()),
    {
        match self.find_pte(vpn) {
            Some(e) => Some(*e),
            None => None,
        }
    }

    /// Appends an empty table backed by `frame`; nothing points at it yet.
    fn push_table(&mut self, frame: FrameTracker) -> (k: usize)
        requires
            old(self).wf(),
        ensures
            final(self).wf(),
            final(self)@ == old(self)@,
            k == old(self).tables.len(),
            final(self).tables.len() == k + 1,
            final(self).tables@.subrange(0, k as int) == old(self).tables@,
            final(self).links@.subrange(0, k as int) == old(self).links@,
            final(self).table_frames() == old(self).table_frames().push(frame.ppn.0),
            final(self).frames@.subrange(0, k as int) == old(self).frames@,
            final(self).root_ppn == old(self).root_ppn,
            forall|i: int| 0 <= i < 512 ==> !(#[trigger] final(self).ent(k as int, i)).valid_spec(),
    {
        let k = self.tables.len();
        self.frames.push(frame);
        self.tables.push(empty_table());
        self.links.push(zero_links());
        proof {
            let o = old(self);
            assert(self.tables@.subrange(0, k as int) =~= o.tables@);
            assert(self.links@.subrange(0, k as int) =~= o.links@);
            assert(self.frames@.subrange(0, k as int) =~= o.frames@);
            assert(self.table_frames() =~= o.table_frames().push(frame.ppn.0));
            assert forall|i: int| 0 <= i < k implies self.tables@[i] == o.tables@[i] && self.links@[i] == o.links@[i]
                && self.frames@[i] == o.frames@[i] by {}
            assert forall|i0: int| 0 <= i0 < 512 implies self.root_valid(i0) == o.root_valid(i0)
                && self.mid(i0) == o.mid(i0) by {}
            assert forall|i0: int, i1: int| 0 <= i0 < 512 && 0 <= i1 < 512 && o.root_valid(i0) implies
                self.mid_valid(i0, i1) == o.mid_valid(i0, i1) && self.leaf(i0, i1) == o.leaf(i0, i1) by {}
            assert forall|v: usize| self.walk(v) == o.walk(v) by {
                let (i0, i1) = (idx0(v), idx1(v));
                if o.root_valid(i0) && o.mid_valid(i0, i1) {
                    assert(o.leaf(i0, i1) < k);
                }
            }
            assert(self@ =~= o@);
        }
        k
    }

    /// Makes root slot `i0` valid, pointing at a fresh empty table, unless it
    /// already is. Returns the index of the middle table.
    fn find_or_create_mid(&mut self, i0: usize, allocator: &mut StackFrameAllocator) -> (k1: usize)
        requires
            old(self).wf(),
            i0 < 512,
            old(allocator).wf(),
            !old(self).root_valid(i0 as int) ==> old(allocator).available() >= 1,
        ensures
            final(self).wf(),
            final(self)@ == old(self)@,
            final(self).root_valid(i0 as int),
            final(self).mid(i0 as int) == k1,
            final(self).root_ppn == old(self).root_ppn,
            final(allocator).wf(),
            old(self).root_valid(i0 as int) ==> *final(allocator) == *old(allocator),
            old(self).root_valid(i0 as int) ==> *final(self) == *old(self),
            !old(self).root_valid(i0 as int) ==> final(allocator).available() + 1 == old(allocator).available(),
            !old(self).root_valid(i0 as int) ==> forall|i1: int| 0 <= i1 < 512 ==> !final(self).mid_valid(i0 as int, i1),
            final(allocator).free().subset_of(old(allocator).free()),
            forall|i1: int| 0 <= i1 < 512 && old(self).mid_valid(i0 as int, i1) ==> {
                &&& final(self).mid_valid(i0 as int, i1)
                &&& final(self).leaf(i0 as int, i1) == old(self).leaf(i0 as int, i1)
            },
            only_took(*old(allocator), *final(allocator)),
    {
        if self.tables[0][i0].is_valid() {
            assert(self.root_valid(i0 as int));
            return self.links[0][i0];
        }
        let frame = allocator.frame_alloc().unwrap();
        let ppn = frame.ppn;
        let ghost o = *old(self);
        assert(o.root_ppn == self.root_ppn);
        let k = self.push_table(frame);
        let ghost p = *self;
        assert forall|t: int| 0 <= t < k implies p.tables@[t] == o.tables@[t] && p.links@[t] == o.links@[t]
            && p.frames@[t] == o.frames@[t] by {
            assert(p.tables@.subrange(0, k as int)[t] == p.tables@[t]);
            assert(p.links@.subrange(0, k as int)[t] == p.links@[t]);
            assert(p.frames@.subrange(0, k as int)[t] == p.frames@[t]);
        }
        assert(PTE_V & 1u8 != 0) by (bit_vector);
        let e = PageTableEntry::new(ppn, PTEFlags::from_bits(PTE_V));
        self.tables[0][i0] = e;
        self.links[0][i0] = k;
        proof {
            assert(self.tables@[0]@ == p.tables@[0]@.update(i0 as int, e));
            assert(self.links@[0]@ == p.links@[0]@.update(i0 as int, k));
            assert forall|t: int| 0 < t <= k implies self.tables@[t] == p.tables@[t] && self.links@[t] == p.links@[t] by {}
            assert(self.frames@ == p.frames@);
            assert(self.frames@[k as int].ppn == ppn) by {
                assert(p.table_frames()[k as int] == ppn.0);
            }
            assert forall|j0: int| 0 <= j0 < 512 && j0 != i0 implies self.root_valid(j0) == o.root_valid(j0)
                && self.mid(j0) == o.mid(j0) by {
                assert(p.tables@[0] == o.tables@[0]);
                assert(p.links@[0] == o.links@[0]);
            }
            assert forall|j0: int| 0 <= j0 < 512 && #[trigger] o.root_valid(j0) implies o.mid(j0) < k by {}
            assert forall|j0: int, j1: int| 0 <= j0 < 512 && 0 <= j1 < 512 && j0 != i0 && o.root_valid(j0) implies
                self.mid_valid(j0, j1) == o.mid_valid(j0, j1) && self.leaf(j0, j1) == o.leaf(j0, j1)
                && (o.mid_valid(j0, j1) ==> o.leaf(j0, j1) < k) by {
                assert(p.tables@[o.mid(j0)] == o.tables@[o.mid(j0)]);
                assert(p.links@[o.mid(j0)] == o.links@[o.mid(j0)]);
            }
            assert forall|j1: int| 0 <= j1 < 512 implies !self.mid_valid(i0 as int, j1) by {
                assert(self.mid(i0 as int) == k);
                assert(self.tables@[k as int] == p.tables@[k as int]);
                assert(!p.ent(k as int, j1).valid_spec());
            }
            assert forall|v: usize| self.walk(v) == o.walk(v) by {
                if idx0(v) != i0 {
                    if o.root_valid(idx0(v)) && o.mid_valid(idx0(v), idx1(v)) {
                        let l = o.leaf(idx0(v), idx1(v));
                        assert(p.tables@[l] == o.tables@[l]);
                    }
                }
            }
            assert(self@ =~= o@);
            let n = self.tables.len();
            assert forall|t: int| 0 <= t < n implies (#[trigger] self.tables@[t]).len() == 512
                && self.links@[t].len() == 512 by {
                if t > 0 { assert(self.tables@[t] == p.tables@[t]); }
            }
            assert forall|j0: int| 0 <= j0 < 512 && #[trigger] self.root_valid(j0) implies
                0 < self.mid(j0) < n && self.ent(0, j0).ppn_spec() == self.frames@[self.mid(j0)].ppn.0 by {
                if j0 != i0 {
                    assert(o.root_valid(j0));
                    assert(o.tables@[o.mid(j0)] == p.tables@[o.mid(j0)]);
                    assert(o.frames@[o.mid(j0)] == p.frames@[o.mid(j0)]);
                    assert(self.ent(0, j0) == o.ent(0, j0));
                }
            }
            assert forall|j0: int, j1: int| 0 <= j0 < 512 && 0 <= j1 < 512 && #[trigger] self.mid_valid(j0, j1) implies
                0 < self.leaf(j0, j1) < n && self.ent(self.mid(j0), j1).ppn_spec() == self.frames@[self.leaf(j0, j1)].ppn.0 by {
                assert(j0 != i0);
                assert(o.root_valid(j0));
                assert(o.mid_valid(j0, j1));
                assert(p.frames@[o.leaf(j0, j1)] == o.frames@[o.leaf(j0, j1)]);
                assert(self.tables@[o.mid(j0)] == p.tables@[o.mid(j0)]);
                assert(self.ent(o.mid(j0), j1) == o.ent(o.mid(j0), j1));
            }
            assert forall|i: int, j: int| 0 <= i < 512 && 0 <= j < 512 && #[trigger] self.root_valid(i)
                && #[trigger] self.root_valid(j) && self.mid(i) == self.mid(j) implies i == j by {
                if i != i0 && j != i0 {
                    assert(o.root_valid(i) && o.root_valid(j));
                } else if i != i0 {
                    assert(o.root_valid(i));
                } else if j != i0 {
                    assert(o.root_valid(j));
                }
            }
            assert forall|a0: int, a1: int, b0: int, b1: int|
                0 <= a0 < 512 && 0 <= a1 < 512 && 0 <= b0 < 512 && 0 <= b1 < 512
                && #[trigger] self.mid_valid(a0, a1) && #[trigger] self.mid_valid(b0, b1)
                && self.leaf(a0, a1) == self.leaf(b0, b1) implies a0 == b0 && a1 == b1 by {
                assert(a0 != i0 && b0 != i0);
                assert(o.root_valid(a0) && o.root_valid(b0));
                assert(o.mid_valid(a0, a1) && o.mid_valid(b0, b1));
            }
            assert forall|a0: int, b0: int, b1: int| 0 <= a0 < 512 && 0 <= b0 < 512 && 0 <= b1 < 512
                && #[trigger] self.root_valid(a0) && #[trigger] self.mid_valid(b0, b1)
                implies self.mid(a0) != self.leaf(b0, b1) by {
                assert(b0 != i0);
                assert(o.root_valid(b0));
                assert(o.mid_valid(b0, b1));
                if a0 != i0 {
                    assert(o.root_valid(a0));
                }
            }
            assert(self.wf());
        }
        k
    }

    /// Makes slot `i1` of the middle table under root slot `i0` valid, pointing
    /// at a fresh empty leaf table, unless it already is. Returns the index of
    /// the leaf table.
    fn find_or_create_leaf(&mut self, i0: usize, i1: usize, allocator: &mut StackFrameAllocator) -> (k2: usize)
        requires
            old(self).wf(),
            i0 < 512,
            i1 < 512,
            old(self).root_valid(i0 as int),
            old(allocator).wf(),
            !old(self).mid_valid(i0 as int, i1 as int) ==> old(allocator).available() >= 1,
        ensures
            final(self).wf(),
            final(self)@ == old(self)@,
            final(self).mid_valid(i0 as int, i1 as int),
            final(self).leaf(i0 as int, i1 as int) == k2,
            final(self).root_ppn == old(self).root_ppn,
            final(allocator).wf(),
            old(self).mid_valid(i0 as int, i1 as int) ==> *final(allocator) == *old(allocator),
            !old(self).mid_valid(i0 as int, i1 as int) ==> final(allocator).available() + 1 == old(allocator).available(),
            final(allocator).free().subset_of(old(allocator).free()),
            only_took(*old(allocator), *final(allocator)),
    {
        let k1 = self.links[0][i0];
        assert(0 < k1 < self.tables.len());
        if self.tables[k1][i1].is_valid() {
            assert(self.mid_valid(i0 as int, i1 as int));
            return self.links[k1][i1];
        }
        let frame = allocator.frame_alloc().unwrap();
        let ppn = frame.ppn;
        let ghost o = *old(self);
        let k = self.push_table(frame);
        let ghost p = *self;
        assert forall|t: int| 0 <= t < k implies p.tables@[t] == o.tables@[t] && p.links@[t] == o.links@[t]
            && p.frames@[t] == o.frames@[t] by {
            assert(p.tables@.subrange(0, k as int)[t] == p.tables@[t]);
            assert(p.links@.subrange(0, k as int)[t] == p.links@[t]);
            assert(p.frames@.subrange(0, k as int)[t] == p.frames@[t]);
        }
        assert(PTE_V & 1u8 != 0) by (bit_vector);
        let e = PageTableEntry::new(ppn, PTEFlags::from_bits(PTE_V));
        self.tables[k1][i1] = e;
        self.links[k1][i1] = k;
        proof {
            let m = k1 as int;
            assert(self.tables@[m]@ == p.tables@[m]@.update(i1 as int, e));
            assert(self.links@[m]@ == p.links@[m]@.update(i1 as int, k));
            assert forall|t: int| 0 <= t <= k && t != m implies self.tables@[t] == p.tables@[t] && self.links@[t] == p.links@[t] by {}
            assert(self.frames@ == p.frames@);
            assert(self.frames@[k as int].ppn == ppn) by {
                assert(p.table_frames()[k as int] == ppn.0);
            }
            // the root is untouched
            assert(self.tables@[0] == o.tables@[0] && self.links@[0] == o.links@[0]);
            assert forall|j0: int| 0 <= j0 < 512 implies self.root_valid(j0) == o.root_valid(j0)
                && self.mid(j0) == o.mid(j0) by {}
            assert forall|j0: int| 0 <= j0 < 512 && #[trigger] o.root_valid(j0) implies 0 < o.mid(j0) < k by {}
            // middle slots other than (i0, i1) are untouched
            assert forall|j0: int, j1: int| 0 <= j0 < 512 && 0 <= j1 < 512 && o.root_valid(j0)
                && !(j0 == i0 && j1 == i1) implies
                self.mid_valid(j0, j1) == o.mid_valid(j0, j1) && self.leaf(j0, j1) == o.leaf(j0, j1) by {
                let mj = o.mid(j0);
                if mj == m {
                    assert(j0 == i0);
                    assert(j1 != i1);
                } else {
                    assert(self.tables@[mj] == p.tables@[mj]);
                    assert(self.links@[mj] == p.links@[mj]);
                }
            }
            assert(self.mid_valid(i0 as int, i1 as int));
            assert(self.leaf(i0 as int, i1 as int) == k);
            assert forall|j2: int| 0 <= j2 < 512 implies !self.ent(k as int, j2).valid_spec() by {
                assert(self.tables@[k as int] == p.tables@[k as int]);
                assert(!p.ent(k as int, j2).valid_spec());
            }
            // leaf tables other than the new one are unchanged
            assert forall|j0: int, j1: int| 0 <= j0 < 512 && 0 <= j1 < 512 && #[trigger] o.mid_valid(j0, j1)
                implies 0 < o.leaf(j0, j1) < k && o.leaf(j0, j1) != m
                && self.tables@[o.leaf(j0, j1)] == o.tables@[o.leaf(j0, j1)] by {
                assert(o.root_valid(i0 as int));
                let l = o.leaf(j0, j1);
                assert(self.tables@[l] == p.tables@[l]);
            }
            assert forall|v: usize| self.walk(v) == o.walk(v) || (o.walk(v) is None
                && !self.walk(v).unwrap().valid_spec()) by {
                let (j0, j1) = (idx0(v), idx1(v));
                if o.root_valid(j0) {
                    if j0 == i0 && j1 == i1 {
                        assert(!o.mid_valid(j0, j1));
                        assert(0 <= idx2(v) < 512);
                    } else if o.mid_valid(j0, j1) {
                        assert(self.mid_valid(j0, j1));
                    }
                }
            }
            assert(self@ =~= o@);
            let n = self.tables.len();
            assert forall|t: int| 0 <= t < n implies (#[trigger] self.tables@[t]).len() == 512 by {
                if t != m { assert(self.tables@[t] == p.tables@[t]); }
            }
            assert forall|t: int| 0 <= t < n implies (#[trigger] self.links@[t]).len() == 512 by {
                if t != m { assert(self.links@[t] == p.links@[t]); }
            }
            assert forall|j0: int| 0 <= j0 < 512 && #[trigger] self.root_valid(j0) implies
                0 < self.mid(j0) < n && self.ent(0, j0).ppn_spec() == self.frames@[self.mid(j0)].ppn.0 by {
                assert(o.root_valid(j0));
                assert(o.frames@[o.mid(j0)] == p.frames@[o.mid(j0)]);
            }
            assert forall|j0: int, j1: int| 0 <= j0 < 512 && 0 <= j1 < 512 && #[trigger] self.mid_valid(j0, j1) implies
                0 < self.leaf(j0, j1) < n && self.ent(self.mid(j0), j1).ppn_spec() == self.frames@[self.leaf(j0, j1)].ppn.0 by {
                assert(o.root_valid(j0));
                if !(j0 == i0 && j1 == i1) {
                    assert(o.mid_valid(j0, j1));
                    assert(p.frames@[o.leaf(j0, j1)] == o.frames@[o.leaf(j0, j1)]);
                    let mj = o.mid(j0);
                    if mj == m {
                        assert(self.tables@[m]@[j1] == o.tables@[m]@[j1]);
                    } else {
                        assert(self.tables@[mj] == p.tables@[mj]);
                    }
                    assert(self.ent(o.mid(j0), j1) == o.ent(o.mid(j0), j1));
                }
            }
            assert forall|a0: int, a1: int, b0: int, b1: int|
                0 <= a0 < 512 && 0 <= a1 < 512 && 0 <= b0 < 512 && 0 <= b1 < 512
                && #[trigger] self.mid_valid(a0, a1) && #[trigger] self.mid_valid(b0, b1)
                && self.leaf(a0, a1) == self.leaf(b0, b1) implies a0 == b0 && a1 == b1 by {
                assert(o.root_valid(a0) && o.root_valid(b0));
                let a_new = a0 == i0 && a1 == i1;
                let b_new = b0 == i0 && b1 == i1;
                if !a_new { assert(o.mid_valid(a0, a1)); }
                if !b_new { assert(o.mid_valid(b0, b1)); }
            }
            assert forall|a0: int, b0: int, b1: int| 0 <= a0 < 512 && 0 <= b0 < 512 && 0 <= b1 < 512
                && #[trigger] self.root_valid(a0) && #[trigger] self.mid_valid(b0, b1)
                implies self.mid(a0) != self.leaf(b0, b1) by {
                assert(o.root_valid(a0) && o.root_valid(b0));
                if !(b0 == i0 && b1 == i1) {
                    assert(o.mid_valid(b0, b1));
                }
            }
            assert forall|a: int, b: int| 0 <= a < 512 && 0 <= b < 512 && #[trigger] self.root_valid(a)
                && #[trigger] self.root_valid(b) && self.mid(a) == self.mid(b) implies a == b by {
                assert(o.root_valid(a) && o.root_valid(b));
            }
            assert(self.wf());
        }
        k
    }

    /// Create-walk: makes both intermediate levels on the path of `vpn` valid,
    /// taking at most two frames, and returns the leaf table's index.
    fn find_pte_create(&mut self, vpn: VirtPageNum, allocator: &mut StackFrameAllocator) -> (k2: usize)
        requires
            old(self).wf(),
            old(allocator).wf(),
            old(allocator).available() >= old(self).path_frames(vpn.0),
        ensures
            final(self).wf(),
            final(self)@ == old(self)@,
            final(self).mid_valid(idx0(vpn.0), idx1(vpn.0)),
            final(self).leaf(idx0(vpn.0), idx1(vpn.0)) == k2,
            final(self).root_ppn == old(self).root_ppn,
            final(allocator).wf(),
            final(allocator).available() + old(self).path_frames(vpn.0) == old(allocator).available(),
            old(self).path_frames(vpn.0) == 0 ==> *final(allocator) == *old(allocator),
            final(allocator).free().subset_of(old(allocator).free()),
            only_took(*old(allocator), *final(allocator)),
    {
        let idxs = vpn.indexes();
        let ghost o = *old(self);
        self.find_or_create_mid(idxs[0], allocator);
        assert(o.root_valid(idx0(vpn.0)) ==> self.mid_valid(idx0(vpn.0), idx1(vpn.0)) == o.mid_valid(idx0(vpn.0), idx1(vpn.0)));
        self.find_or_create_leaf(idxs[0], idxs[1], allocator)
    }

    /// Writes the leaf slot of `vpn`, whose intermediate entries are valid.
    fn set_leaf(&mut self, vpn: VirtPageNum, k2: usize, e: PageTableEntry)
        requires
            old(self).wf(),
            vpn.0 < VPN_LIMIT,
            old(self).mid_valid(idx0(vpn.0), idx1(vpn.0)),
            old(self).leaf(idx0(vpn.0), idx1(vpn.0)) == k2,
        ensures
            final(self).wf(),
            final(self).root_ppn == old(self).root_ppn,
            e.valid_spec() ==> final(self)@ == old(self)@.insert(vpn.0, e),
            !e.valid_spec() ==> final(self)@ == old(self)@.remove(vpn.0),
            final(self).walk(vpn.0) == Some(e),
    {
        let ghost o = *old(self);
        let ghost (i0, i1, i2) = (idx0(vpn.0), idx1(vpn.0), idx2(vpn.0));
        let i = vpn.indexes();
        self.tables[k2][i[2]] = e;
        proof {
            let l = k2 as int;
            assert(0 < l < o.tables.len());
            assert(self.tables@[l]@ == o.tables@[l]@.update(i2, e));
            assert forall|t: int| 0 <= t < o.tables.len() && t != l implies self.tables@[t] == o.tables@[t] by {}
            assert(self.links@ == o.links@ && self.frames@ == o.frames@);
            assert forall|j0: int| 0 <= j0 < 512 implies self.root_valid(j0) == o.root_valid(j0) by {}
            assert forall|j0: int| 0 <= j0 < 512 && o.root_valid(j0) implies o.mid(j0) != l by {
                assert(o.root_valid(i0));
            }
            assert forall|j0: int, j1: int| 0 <= j0 < 512 && 0 <= j1 < 512 && o.root_valid(j0) implies
                self.mid_valid(j0, j1) == o.mid_valid(j0, j1) by {
                assert(self.tables@[o.mid(j0)] == o.tables@[o.mid(j0)]);
            }
            assert forall|v: usize| v != vpn.0 && v < VPN_LIMIT implies self.walk(v) == o.walk(v) by {
                let (j0, j1, j2) = (idx0(v), idx1(v), idx2(v));
                if o.root_valid(j0) && o.mid_valid(j0, j1) {
                    let lj = o.leaf(j0, j1);
                    if lj == l {
                        assert(j0 == i0 && j1 == i1);
                        if j2 == i2 {
                            lemma_indexes_determine_vpn(v, vpn.0);
                        }
                        assert(self.tables@[l]@[j2] == o.tables@[l]@[j2]);
                    } else {
                        assert(self.tables@[lj] == o.tables@[lj]);
                    }
                }
            }
            assert(self.walk(vpn.0) == Some(e));
            if e.valid_spec() {
                assert(self@ =~= o@.insert(vpn.0, e));
            } else {
                assert(self@ =~= o@.remove(vpn.0));
            }
            let n = self.tables.len();
            assert forall|t: int| 0 <= t < n implies (#[trigger] self.tables@[t]).len() == 512 by {
                if t != l { assert(self.tables@[t] == o.tables@[t]); }
            }
            assert forall|j0: int| 0 <= j0 < 512 && #[trigger] self.root_valid(j0) implies
                0 < self.mid(j0) < n && self.ent(0, j0).ppn_spec() == self.frames@[self.mid(j0)].ppn.0 by {
                assert(o.root_valid(j0));
            }
            assert forall|j0: int, j1: int| 0 <= j0 < 512 && 0 <= j1 < 512 && #[trigger] self.mid_valid(j0, j1) implies
                0 < self.leaf(j0, j1) < n && self.ent(self.mid(j0), j1).ppn_spec() == self.frames@[self.leaf(j0, j1)].ppn.0 by {
                assert(o.root_valid(j0));
                assert(o.mid_valid(j0, j1));
                assert(self.tables@[o.mid(j0)] == o.tables@[o.mid(j0)]);
            }
            assert forall|a: int, b: int| 0 <= a < 512 && 0 <= b < 512 && #[trigger] self.root_valid(a)
                && #[trigger] self.root_valid(b) && self.mid(a) == self.mid(b) implies a == b by {
                assert(o.root_valid(a) && o.root_valid(b));
            }
            assert forall|a0: int, a1: int, b0: int, b1: int|
                0 <= a0 < 512 && 0 <= a1 < 512 && 0 <= b0 < 512 && 0 <= b1 < 512
                && #[trigger] self.mid_valid(a0, a1) && #[trigger] self.mid_valid(b0, b1)
                && self.leaf(a0, a1) == self.leaf(b0, b1) implies a0 == b0 && a1 == b1 by {
                assert(o.root_valid(a0) && o.root_valid(b0));
                assert(o.mid_valid(a0, a1) && o.mid_valid(b0, b1));
            }
            assert forall|a0: int, b0: int, b1: int| 0 <= a0 < 512 && 0 <= b0 < 512 && 0 <= b1 < 512
                && #[trigger] self.root_valid(a0) && #[trigger] self.mid_valid(b0, b1)
                implies self.mid(a0) != self.leaf(b0, b1) by {
                assert(o.root_valid(a0) && o.root_valid(b0));
                assert(o.mid_valid(b0, b1));
            }
        }
    }

    /// Maps `vpn` to `ppn` with `flags` plus Valid. The page must not be
    /// mapped yet; up to two frames are taken for intermediate tables.
    pub fn map(&mut self, vpn: VirtPageNum, ppn: PhysPageNum, flags: PTEFlags, allocator: &mut StackFrameAllocator)
        requires
            old(self).wf(),
            vpn.0 < VPN_LIMIT,
            ppn.0 < PPN_LIMIT,
            !old(self)@.contains_key(vpn.0),
            old(allocator).wf(),
            old(allocator).available() >= old(self).path_frames(vpn.0),
        ensures
            final(self).wf(),
            final(self)@ == old(self)@.insert(vpn.0, PageTableEntry { bits: pte_bits(ppn.0, flags.bits | PTE_V) }),
            final(self)@[vpn.0].ppn_spec() == ppn.0,
            final(self)@[vpn.0].flags_spec() == flags.bits | PTE_V,
            final(self).root() == old(self).root(),
            final(allocator).wf(),
            final(allocator).available() + old(self).path_frames(vpn.0) == old(allocator).available(),
            old(self).walk(vpn.0) is Some ==> *final(allocator) == *old(allocator),
            final(allocator).free().subset_of(old(allocator).free()),
            only_took(*old(allocator), *final(allocator)),
    {
        let k2 = self.find_pte_create(vpn, allocator);
        let f = flags.union(PTEFlags::from_bits(PTE_V));
        let b = f.bits;
        let fb = flags.bits;
        assert(b & 1u8 != 0) by (bit_vector)
            requires b == fb | 1u8;
        let e = PageTableEntry::new(ppn, f);
        self.set_leaf(vpn, k2, e);
        assert(self@[vpn.0] == e);
    }

    /// Clears the mapping of `vpn`, which must be mapped.
    pub fn unmap(&mut self, vpn: VirtPageNum)
        requires
            old(self).wf(),
            vpn.0 < VPN_LIMIT,
            old(self)@.contains_key(vpn.0),
        ensures
            final(self).wf(),
            final(self)@ == old(self)@.remove(vpn.0),
            final(self).walk(vpn.0) == Some(PageTableEntry::empty_spec()),
            final(self).root() == old(self).root(),
    {
        let idxs = vpn.indexes();
        let k1 = self.links[0][idxs[0]];
        let k2 = self.links[k1][idxs[1]];
        self.set_leaf(vpn, k2, PageTableEntry::empty());
    }

    /// The address-space token: the Sv39 mode tag above the root's page number.
    pub fn token(&self) -> (r: u64)
        ensures
            r == (8u64 << 60u64) | self.root(),
    {
        (8u64 << 60u64) | self.root_ppn.0
    }
}

fn empty_table() -> (r: Vec<PageTableEntry>)
    ensures
        r.len() == 512,
        forall|i: int| 0 <= i < 512 ==> #[trigger] r@[i] == PageTableEntry::empty_spec(),
        forall|i: int| 0 <= i < 512 ==> !(#[trigger] r@[i]).valid_spec(),
{
    let mut v: Vec<PageTableEntry> = Vec::new();
    let mut i: usize = 0;
    while i < 512
        invariant
            i <= 512,
            v.len() == i,
            forall|j: int| 0 <= j < i ==> #[trigger] v@[j] == PageTableEntry::empty_spec(),
            forall|j: int| 0 <= j < i ==> !(#[trigger] v@[j]).valid_spec(),
        decreases 512 - i,
    {
        v.push(PageTableEntry::empty());
        i = i + 1;
    }
    v
}

fn zero_links() -> (r: Vec<usize>)
    ensures
        r.len() == 512,
{
    let mut v: Vec<usize> = Vec::new();
    let mut i: usize = 0;
    while i < 512
        invariant
            i <= 512,
            v.len() == i,
        decreases 512 - i,
    {
        v.push(0);
        i = i + 1;
    }
    v
}


/// A byte range `[start, end)` inside the physical frame `ppn`.
#[derive(Clone, Copy, Debug, PartialEq, Eq, Structural)]
pub struct PhysSlice {
    pub ppn: PhysPageNum,
    pub start: usize,
    pub end: usize,
}

/// How many pages the bytes `[ptr, ptr + len)` touch.
pub open spec fn pages_touched(ptr: usize, len: usize) -> int {
    if len == 0 {
        0
    } else {
        (ptr as int + len as int - 1) / 4096 - ptr as int / 4096 + 1
    }
}

/// The piece of `[ptr, ptr + len)` that lies in the `i`-th page it touches,
/// as offsets within that page.
pub open spec fn piece_in_page(ptr: usize, len: usize, i: int) -> (int, int) {
    let base = (ptr as int / 4096 + i) * 4096;
    let p = ptr as int;
    let e = p + len as int;
    let lo = if p > base { p } else { base };
    let hi = if e < base + 4096 { e } else { base + 4096 };
    (lo - base, hi - base)
}

/// Every page that the bytes `[ptr, ptr + len)` touch is mapped in `m`.
pub open spec fn range_mapped(m: Map<usize, PageTableEntry>, ptr: usize, len: usize) -> bool {
    forall|v: usize| ptr as int / 4096 <= v < ptr as int / 4096 + pages_touched(ptr, len)
        ==> v < VPN_LIMIT && #[trigger] m.contains_key(v)
}

/// Splits the user bytes `[ptr, ptr + len)` of the address space of `page_table`
/// into one physical range per page they touch, in order. Every page touched
/// must be mapped.
pub fn translated_byte_buffer(page_table: &PageTable, ptr: usize, len: usize) -> (r: Vec<PhysSlice>)
    requires
        page_table.wf(),
        ptr + len <= usize::MAX,
        range_mapped(page_table@, ptr, len),
    ensures
        r.len() == pages_touched(ptr, len),
        forall|i: int| 0 <= i < r.len() ==> {
            let v = (ptr as int / 4096 + i) as usize;
            &&& (#[trigger] r@[i]).ppn.0 == page_table@[v].ppn_spec()
            &&& r@[i].start as int == piece_in_page(ptr, len, i).0
            &&& r@[i].end as int == piece_in_page(ptr, len, i).1
        },
{
    let mut start = ptr;
    let end = ptr + len;
    let mut v: Vec<PhysSlice> = Vec::new();
    while start < end
        invariant
            page_table.wf(),
            end == ptr + len,
            ptr <= start <= end,
            v.len() == 0 ==> start == ptr,
            v.len() > 0 ==> start as int == (ptr as int / 4096 + v.len()) * 4096 || start == end,
            start < end ==> start as int / 4096 == ptr as int / 4096 + v.len(),
            start == end ==> v.len() == pages_touched(ptr, len),
            v.len() <= pages_touched(ptr, len),
            range_mapped(page_table@, ptr, len),
            forall|i: int| 0 <= i < v.len() ==> {
                let w = (ptr as int / 4096 + i) as usize;
                &&& (#[trigger] v@[i]).ppn.0 == page_table@[w].ppn_spec()
                &&& v@[i].start as int == piece_in_page(ptr, len, i).0
                &&& v@[i].end as int == piece_in_page(ptr, len, i).1
            },
        decreases end - start,
    {
        let start_va = VirtAddr(start);
        let vpn = start_va.floor();
        assert(vpn.0 < ptr as int / 4096 + pages_touched(ptr, len));
        assert(page_table@.contains_key(vpn.0));
        let ppn = page_table.translate(vpn).unwrap().ppn();
        let base = start - start_va.page_offset();
        let end_va = if end - base > PAGE_SIZE { base + PAGE_SIZE } else { end };
        let piece = if end_va % PAGE_SIZE == 0 {
            PhysSlice { ppn, start: start_va.page_offset(), end: PAGE_SIZE }
        } else {
            PhysSlice { ppn, start: start_va.page_offset(), end: end_va % PAGE_SIZE }
        };
        v.push(piece);
        start = end_va;
    }
    v
}

/// The physical address behind the user address `va` of the address space of
/// `page_table`; its page must be mapped.
pub fn get_refmut(page_table: &PageTable, va: usize) -> (r: u64)
    requires
        page_table.wf(),
        va / 4096 < VPN_LIMIT,
        page_table@.contains_key(va / 4096),
    ensures
        r as int == page_table@[va / 4096].ppn_spec() * 4096 + va % 4096,
{
    let virtual_address = VirtAddr(va);
    let offset = virtual_address.page_offset();
    let virtual_page_number = virtual_address.floor();
    let physical_page_num = page_table.translate(virtual_page_number).unwrap().ppn();
    let p = physical_page_num.0;
    assert(p * 4096 + offset < 0xffff_ffff_ffff_ffff) by (nonlinear_arith)
        requires p < 17592186044416u64, offset < 4096;
    p * 4096 + offset as u64
}

} // verus!
