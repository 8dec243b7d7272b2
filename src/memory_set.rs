//! Address spaces: one page table plus the framed regions mapped in it.
use vstd::prelude::*;
use crate::address::{ceil_page, PhysPageNum, VirtAddr, VirtPageNum, VPN_LIMIT};
use crate::frame_allocator::{only_took, FrameTracker, StackFrameAllocator};
use crate::page_table::{PTEFlags, PageTable, PageTableEntry, PTE_V};

verus! {

/// Readable.
pub const MAP_R: u8 = 2;
/// Writable.
pub const MAP_W: u8 = 4;
/// Executable.
pub const MAP_X: u8 = 8;
/// Accessible from user mode.
pub const MAP_U: u8 = 16;

/// Permission of a region, at the page-table flag positions.
#[derive(Clone, Copy, Debug, PartialEq, Eq, Structural)]
pub struct MapPermission {
    pub bits: u8,
}

/// A region of pages `[start, end)` with one permission, each page backed by
/// its own frame.
#[derive(Clone, Copy, Debug)]
pub struct MapArea {
    pub start: VirtPageNum,
    pub end: VirtPageNum,
    pub perm: MapPermission,
}

/// A task's address space.
pub struct MemorySet {
    page_table: PageTable,
    areas: Vec<MapArea>,
    data_frames: Vec<(VirtPageNum, FrameTracker)>,
}

/// `new` maps the pages `[s, e)` with leaf flags `flags`, and agrees with
/// `old` everywhere else.
pub open spec fn framed(old: Map<usize, PageTableEntry>, new: Map<usize, PageTableEntry>, s: int, e: int, flags: u8) -> bool {
    &&& forall|v: usize| s <= v < e ==> #[trigger] new.contains_key(v) && new[v].flags_spec() == flags
    &&& forall|v: usize| !(s <= v < e) ==> (#[trigger] new.contains_key(v) == old.contains_key(v))
        && (old.contains_key(v) ==> new[v] == old[v])
}

/// The pages `[s, e)` of `m` are backed by pairwise distinct frames, each
/// free in `before` and not free in `after`.
pub open spec fn fresh_frames(m: Map<usize, PageTableEntry>, s: int, e: int, before: Set<u64>, after: Set<u64>) -> bool {
    &&& forall|v: usize| s <= v < e ==> before.contains(#[trigger] m[v].ppn_spec()) && !after.contains(m[v].ppn_spec())
    &&& forall|v: usize, w: usize| s <= v < e && s <= w < e && v != w ==> #[trigger] m[v].ppn_spec() != #[trigger] m[w].ppn_spec()
}

/// `new` is `old` without the pages `[s, e)`.
pub open spec fn unframed(old: Map<usize, PageTableEntry>, new: Map<usize, PageTableEntry>, s: int, e: int) -> bool {
    new == old.restrict(old.dom().filter(|v: usize| !(s <= v < e)))
}

/// Page `v` lies in region `a`.
pub open spec fn in_area(a: MapArea, v: usize) -> bool {
    a.start.0 <= v < a.end.0
}

/// Two regions share no page.
pub open spec fn disjoint(a: MapArea, b: MapArea) -> bool {
    a.end.0 <= b.start.0 || b.end.0 <= a.start.0
}

impl View for MemorySet {
    type V = Map<usize, PageTableEntry>;

    closed spec fn view(&self) -> Map<usize, PageTableEntry> {
        self.page_table@
    }
}

impl MemorySet {
    /// The recorded regions: each non-empty and inside the address space,
    /// each page of them mapped, no two sharing a page.
    pub closed spec fn wf(&self) -> bool {
        &&& self.page_table.wf()
        &&& forall|i: int| 0 <= i < self.areas.len() ==>
            (#[trigger] self.areas@[i]).start.0 < self.areas@[i].end.0 <= VPN_LIMIT
        &&& forall|i: int, v: usize| 0 <= i < self.areas.len() && #[trigger] in_area(self.areas@[i], v)
            ==> self.page_table@.contains_key(v)
        &&& forall|i: int, j: int| 0 <= i < self.areas.len() && 0 <= j < self.areas.len() && i != j
            ==> disjoint(#[trigger] self.areas@[i], #[trigger] self.areas@[j])
        &&& self.records_wf()
    }

    proof fn lemma_records_kept(a: &MemorySet, b: &MemorySet)
        requires
            a.records_wf(),
            a.page_table@ == b.page_table@,
            a.data_frames@ == b.data_frames@,
        ensures
            b.records_wf(),
    {
        assert forall|v: usize| #[trigger] b.page_table@.contains_key(v) implies exists|i: int|
            0 <= i < b.data_frames.len() && (#[trigger] b.data_frames@[i]).0.0 == v by {
            assert(a.page_table@.contains_key(v));
            let i = choose|i: int| 0 <= i < a.data_frames.len() && (#[trigger] a.data_frames@[i]).0.0 == v;
            assert(b.data_frames@[i] == a.data_frames@[i]);
        }
    }

    /// One record per mapped page, holding the frame that backs it.
    closed spec fn records_wf(&self) -> bool {
        &&& forall|i: int| 0 <= i < self.data_frames.len() ==> {
            &&& self.page_table@.contains_key((#[trigger] self.data_frames@[i]).0.0)
            &&& self.data_frames@[i].1.ppn.0 == self.page_table@[self.data_frames@[i].0.0].ppn_spec()
        }
        &&& forall|v: usize| #[trigger] self.page_table@.contains_key(v) ==> exists|i: int|
            0 <= i < self.data_frames.len() && (#[trigger] self.data_frames@[i]).0.0 == v
        &&& forall|i: int, j: int| 0 <= i < self.data_frames.len() && 0 <= j < self.data_frames.len() && i != j
            ==> (#[trigger] self.data_frames@[i]).0 != (#[trigger] self.data_frames@[j]).0
    }

    /// What the read-walk of the page table finds for `vpn`.
    pub closed spec fn walk(&self, vpn: usize) -> Option<PageTableEntry> {
        self.page_table.walk(vpn)
    }

    /// The regions, as page ranges and permissions.
    pub closed spec fn regions(&self) -> Seq<(int, int, u8)> {
        self.areas@.map_values(|a: MapArea| (a.start.0 as int, a.end.0 as int, a.perm.bits))
    }

    pub closed spec fn token_spec(&self) -> u64 {
        (8u64 << 60u64) | self.page_table.root()
    }

    /// An address space with nothing mapped.
    pub fn new_bare(allocator: &mut StackFrameAllocator) -> (r: Self)
        requires
            old(allocator).wf(),
            old(allocator).available() >= 1,
        ensures
            r.wf(),
            r@ == Map::<usize, PageTableEntry>::empty(),
            final(allocator).wf(),
            final(allocator).available() == old(allocator).available() - 1,
    {
        MemorySet { page_table: PageTable::new(allocator), areas: Vec::new(), data_frames: Vec::new() }
    }

    pub fn token(&self) -> (r: u64)
        ensures
            r == self.token_spec(),
    {
        self.page_table.token()
    }

    pub fn translate(&self, vpn: VirtPageNum) -> (r: Option<PageTableEntry>)
        requires
            self.wf(),
            vpn.0 < VPN_LIMIT,
        ensures
            r == self.walk(vpn.0),
            self@.contains_key(vpn.0) ==> r == Some(self@[vpn.0]),
            (r matches Some(e) && e.valid_spec()) <==> self@.contains_key(vpn.0),
            !self@.contains_key(vpn.0) ==> (r is None || !r.unwrap().valid_spec()),
    {
        self.page_table.translate(vpn)
    }

    /// The page table, for reading user memory through it.
    pub fn page_table(&self) -> (r: &PageTable)
        ensures
            r@ == self@,
            self.wf() ==> r.wf(),
    {
        &self.page_table
    }

    /// Maps every page of `[start_va.floor(), end_va.ceil())` to a fresh frame
    /// with `permission` and records the region. None of those pages may be
    /// mapped, and the pool must hold three frames per page (one for the data,
    /// at most two for tables).
    pub fn insert_framed_area(&mut self, start_va: VirtAddr, end_va: VirtAddr, permission: MapPermission,
        allocator: &mut StackFrameAllocator)
        requires
            old(self).wf(),
            old(allocator).wf(),
            start_va.0 <= end_va.0,
            ceil_page(end_va.0) <= VPN_LIMIT,
            old(allocator).available() >= 3 * (ceil_page(end_va.0) - start_va.0 / 4096),
            forall|v: usize| start_va.0 / 4096 <= v < ceil_page(end_va.0) ==> !(#[trigger] old(self)@.contains_key(v)),
        ensures
            final(self).wf(),
            framed(old(self)@, final(self)@, start_va.0 as int / 4096, ceil_page(end_va.0), permission.bits | PTE_V),
            final(self).token_spec() == old(self).token_spec(),
            final(allocator).wf(),
            final(allocator).available() + 3 * (ceil_page(end_va.0) - start_va.0 / 4096) >= old(allocator).available(),
            fresh_frames(final(self)@, start_va.0 as int / 4096, ceil_page(end_va.0), old(allocator).free(), final(allocator).free()),
            start_va.0 as int / 4096 < ceil_page(end_va.0) ==> final(self).regions() == old(self).regions().push(
                (start_va.0 as int / 4096, ceil_page(end_va.0), permission.bits)),
            start_va.0 as int / 4096 >= ceil_page(end_va.0) ==> final(self).regions() == old(self).regions(),
            only_took(*old(allocator), *final(allocator)),
            forall|v: usize| start_va.0 as int / 4096 <= v < ceil_page(end_va.0) ==> final(allocator).issued(#[trigger] final(self)@[v].ppn_spec()),
    {
        let s = start_va.floor();
        let e = end_va.ceil();
        let flags = PTEFlags::from_bits(permission.bits);
        let mut vpn = s.0;
        while vpn < e.0
            invariant
                self.wf(),
                allocator.wf(),
                self.areas@ == old(self).areas@,
                flags.bits == permission.bits,
                s.0 <= vpn <= e.0 || (s.0 > e.0 && vpn == s.0),
                e.0 <= VPN_LIMIT,
                s.0 == start_va.0 / 4096,
                e.0 == ceil_page(end_va.0),
                allocator.available() >= 3 * (e.0 - vpn),
                allocator.available() + 3 * (vpn - s.0) >= old(allocator).available(),
                self.token_spec() == old(self).token_spec(),
                framed(old(self)@, self@, s.0 as int, vpn as int, permission.bits | PTE_V),
                forall|v: usize| vpn <= v < e.0 ==> !(#[trigger] self@.contains_key(v)),
                only_took(*old(allocator), *allocator),
                fresh_frames(self@, s.0 as int, vpn as int, old(allocator).free(), allocator.free()),
                forall|v: usize| s.0 <= v < vpn ==> allocator.issued(#[trigger] self@[v].ppn_spec()),
            decreases e.0 - vpn,
        {
            let ghost free0 = allocator.free();
            let frame = allocator.frame_alloc().unwrap();
            let ppn = frame.ppn;
            let ghost before = self@;
            let ghost free1 = allocator.free();
            proof { self.page_table.lemma_walk(vpn); }
            self.page_table.map(VirtPageNum(vpn), ppn, flags, allocator);
            let ghost recs = self.data_frames@;
            self.data_frames.push((VirtPageNum(vpn), frame));
            proof {
                let n = recs.len() as int;
                assert(self.data_frames@ == recs.push((VirtPageNum(vpn), frame)));
                assert(self.page_table@ == before.insert(vpn, self.page_table@[vpn]));
                assert forall|i: int| 0 <= i < n implies (#[trigger] recs[i]).0.0 != vpn by {
                    assert(self.data_frames@[i] == recs[i]);
                }
                assert forall|i: int| 0 <= i < self.data_frames.len() implies {
                    &&& self.page_table@.contains_key((#[trigger] self.data_frames@[i]).0.0)
                    &&& self.data_frames@[i].1.ppn.0 == self.page_table@[self.data_frames@[i].0.0].ppn_spec()
                } by {
                    if i < n {
                        assert(self.data_frames@[i] == recs[i]);
                    }
                }
                assert forall|v: usize| #[trigger] self.page_table@.contains_key(v) implies exists|i: int|
                    0 <= i < self.data_frames.len() && (#[trigger] self.data_frames@[i]).0.0 == v by {
                    if v == vpn {
                        assert(self.data_frames@[n].0.0 == v);
                    } else {
                        assert(before.contains_key(v));
                        let i = choose|i: int| 0 <= i < n && (#[trigger] recs[i]).0.0 == v;
                        assert(self.data_frames@[i] == recs[i]);
                    }
                }
                assert forall|i: int, j: int| 0 <= i < self.data_frames.len() && 0 <= j < self.data_frames.len() && i != j
                    implies (#[trigger] self.data_frames@[i]).0 != (#[trigger] self.data_frames@[j]).0 by {
                    if i < n { assert(self.data_frames@[i] == recs[i]); }
                    if j < n { assert(self.data_frames@[j] == recs[j]); }
                }
                assert forall|i: int, v: usize| 0 <= i < self.areas.len() && #[trigger] in_area(self.areas@[i], v)
                    implies self.page_table@.contains_key(v) by {
                    assert(before.contains_key(v));
                }
                let f = (permission.bits | PTE_V) as u8;
                assert(self@[vpn].flags_spec() == f);
                assert forall|v: usize| s.0 <= v < vpn + 1 implies #[trigger] self@.contains_key(v)
                    && self@[v].flags_spec() == f by {
                    if v != vpn {
                        assert(before.contains_key(v));
                    }
                }
                assert forall|v: usize| !(s.0 <= v < vpn + 1) implies (#[trigger] self@.contains_key(v)
                    == old(self)@.contains_key(v)) && (old(self)@.contains_key(v) ==> self@[v] == old(self)@[v]) by {
                    assert(v != vpn);
                    assert(before.contains_key(v) == old(self)@.contains_key(v));
                }
                assert(framed(old(self)@, self@, s.0 as int, vpn as int + 1, permission.bits | PTE_V));
                assert forall|v: usize| vpn < v < e.0 implies !(#[trigger] self@.contains_key(v)) by {
                    assert(!before.contains_key(v));
                }
                assert(self@ == before.insert(vpn, self@[vpn]));
                assert(self@[vpn].ppn_spec() == ppn.0);
                assert(free0.contains(ppn.0) && !free1.contains(ppn.0));
                assert forall|v: usize| s.0 <= v < vpn + 1 implies old(allocator).free().contains(#[trigger] self@[v].ppn_spec())
                    && !allocator.free().contains(self@[v].ppn_spec()) by {
                    if v != vpn {
                        assert(self@[v] == before[v]);
                    }
                }
                assert forall|v: usize, w: usize| s.0 <= v < vpn + 1 && s.0 <= w < vpn + 1 && v != w
                    implies #[trigger] self@[v].ppn_spec() != #[trigger] self@[w].ppn_spec() by {
                    if v != vpn {
                        assert(self@[v] == before[v]);
                    }
                    if w != vpn {
                        assert(self@[w] == before[w]);
                    }
                }
                assert(fresh_frames(self@, s.0 as int, vpn as int + 1, old(allocator).free(), allocator.free()));
                assert forall|v: usize| s.0 <= v < vpn + 1 implies allocator.issued(#[trigger] self@[v].ppn_spec()) by {
                    if v != vpn {
                        assert(self@[v] == before[v]);
                    }
                }
            }
            vpn = vpn + 1;
        }
        let ghost looped = *self;
        if s.0 < e.0 {
            let ghost old_areas = self.areas@;
            let area = MapArea { start: s, end: e, perm: permission };
            self.areas.push(area);
            proof {
                let k = old_areas.len() as int;
                assert(self.areas@ == old_areas.push(area));
                assert(self.regions() =~= old(self).regions().push((s.0 as int, e.0 as int, permission.bits)));
                Self::lemma_records_kept(&looped, self);
                assert forall|i: int| 0 <= i < k implies disjoint(#[trigger] self.areas@[i], area) by {
                    let a = old_areas[i];
                    assert(self.areas@[i] == a);
                    if !disjoint(a, area) {
                        let v: usize = if a.start.0 > s.0 { a.start.0 } else { s.0 };
                        assert(in_area(old(self).areas@[i], v));
                        assert(old(self)@.contains_key(v));
                    }
                }
                assert forall|i: int, j: int| 0 <= i < self.areas.len() && 0 <= j < self.areas.len() && i != j
                    implies disjoint(#[trigger] self.areas@[i], #[trigger] self.areas@[j]) by {
                    if i < k && j < k {
                        assert(old_areas[i] == self.areas@[i] && old_areas[j] == self.areas@[j]);
                    }
                }
                assert forall|i: int, v: usize| 0 <= i < self.areas.len() && #[trigger] in_area(self.areas@[i], v)
                    implies self.page_table@.contains_key(v) by {
                    if i < k {
                        assert(old_areas[i] == self.areas@[i]);
                    }
                }
            }
        }
    }

    /// Removes the mapping of `vpn` and gives its frame back to the pool.
    pub fn munmap(&mut self, vpn: VirtPageNum, allocator: &mut StackFrameAllocator)
        requires
            old(self).wf(),
            old(allocator).wf(),
            vpn.0 < VPN_LIMIT,
            old(self)@.contains_key(vpn.0),
        ensures
            final(self).wf(),
            final(self)@ == old(self)@.remove(vpn.0),
            final(self).token_spec() == old(self).token_spec(),
            final(allocator).wf(),
            ({
                let p = old(self)@[vpn.0].ppn_spec();
                &&& old(allocator).issued(p) && !old(allocator).free().contains(p) ==> {
                    &&& final(allocator).free() == old(allocator).free().insert(p)
                    &&& final(allocator).available() == old(allocator).available() + 1
                }
                &&& !(old(allocator).issued(p) && !old(allocator).free().contains(p)) ==> *final(allocator) == *old(allocator)
            }),
            forall|q: u64| old(allocator).issued(q) <==> final(allocator).issued(q),
            final(allocator).available() >= old(allocator).available(),
    {
        let ghost o = *old(self);
        let i = self.record_of(vpn);
        self.page_table.unmap(vpn);
        let (_, frame) = self.data_frames.remove(i);
        allocator.frame_dealloc(frame);
        proof {
            let r = o.data_frames@;
            let ii = i as int;
            assert(self.data_frames@ == r.remove(ii));
            assert forall|j: int| 0 <= j < self.data_frames.len() implies
                #[trigger] self.data_frames@[j] == r[if j < ii { j } else { j + 1 }] by {}
            assert forall|j: int| 0 <= j < self.data_frames.len() implies {
                &&& self.page_table@.contains_key((#[trigger] self.data_frames@[j]).0.0)
                &&& self.data_frames@[j].1.ppn.0 == self.page_table@[self.data_frames@[j].0.0].ppn_spec()
            } by {
                let oj = if j < ii { j } else { j + 1 };
                assert(r[oj].0 != r[ii].0);
            }
            assert forall|v: usize| #[trigger] self.page_table@.contains_key(v) implies exists|j: int|
                0 <= j < self.data_frames.len() && (#[trigger] self.data_frames@[j]).0.0 == v by {
                assert(o.page_table@.contains_key(v));
                let oj = choose|oj: int| 0 <= oj < r.len() && (#[trigger] r[oj]).0.0 == v;
                assert(oj != ii);
                let j = if oj < ii { oj } else { oj - 1 };
                assert(self.data_frames@[j] == r[oj]);
            }
            assert forall|a: int, b: int| 0 <= a < self.data_frames.len() && 0 <= b < self.data_frames.len() && a != b
                implies (#[trigger] self.data_frames@[a]).0 != (#[trigger] self.data_frames@[b]).0 by {
                let oa = if a < ii { a } else { a + 1 };
                let ob = if b < ii { b } else { b + 1 };
                assert(r[oa].0 != r[ob].0);
            }
            assert forall|k: int, v: usize| 0 <= k < self.areas.len() && #[trigger] in_area(self.areas@[k], v)
                && v != vpn.0 implies self.page_table@.contains_key(v) by {
                assert(in_area(o.areas@[k], v));
            }
        }
        self.trim_areas(vpn);
    }

    /// The record of page `vpn`, which is mapped.
    fn record_of(&self, vpn: VirtPageNum) -> (r: usize)
        requires
            self.wf(),
            self@.contains_key(vpn.0),
        ensures
            r < self.data_frames.len(),
            self.data_frames@[r as int].0 == vpn,
    {
        let mut i: usize = 0;
        while i < self.data_frames.len()
            invariant
                i <= self.data_frames.len(),
                forall|j: int| 0 <= j < i ==> (#[trigger] self.data_frames@[j]).0 != vpn,
            decreases self.data_frames.len() - i,
        {
            if self.data_frames[i].0 == vpn {
                return i;
            }
            i = i + 1;
        }
        proof {
            assert(self.page_table@.contains_key(vpn.0));
            let j = choose|j: int| 0 <= j < self.data_frames.len() && (#[trigger] self.data_frames@[j]).0.0 == vpn.0;
            assert(self.data_frames@[j].0 != vpn);
        }
        0
    }

    /// The region that holds page `vpn`, if one does.
    fn area_of(&self, vpn: VirtPageNum) -> (r: Option<usize>)
        ensures
            r matches Some(k) ==> k < self.areas.len() && in_area(self.areas@[k as int], vpn.0),
            r is None ==> forall|i: int| 0 <= i < self.areas.len() ==> !in_area(#[trigger] self.areas@[i], vpn.0),
    {
        let mut k: usize = 0;
        while k < self.areas.len()
            invariant
                k <= self.areas.len(),
                forall|i: int| 0 <= i < k ==> !in_area(#[trigger] self.areas@[i], vpn.0),
            decreases self.areas.len() - k,
        {
            if self.areas[k].start.0 <= vpn.0 && vpn.0 < self.areas[k].end.0 {
                return Some(k);
            }
            k = k + 1;
        }
        None
    }

    /// Takes page `vpn`, which was just unmapped, out of the region that
    /// holds it: the region shrinks, splits in two, or goes.
    fn trim_areas(&mut self, vpn: VirtPageNum)
        requires
            old(self).page_table.wf(),
            !old(self).page_table@.contains_key(vpn.0),
            forall|i: int| 0 <= i < old(self).areas.len() ==>
                (#[trigger] old(self).areas@[i]).start.0 < old(self).areas@[i].end.0 <= VPN_LIMIT,
            forall|i: int, v: usize| 0 <= i < old(self).areas.len() && #[trigger] in_area(old(self).areas@[i], v)
                && v != vpn.0 ==> old(self).page_table@.contains_key(v),
            forall|i: int, j: int| 0 <= i < old(self).areas.len() && 0 <= j < old(self).areas.len() && i != j
                ==> disjoint(#[trigger] old(self).areas@[i], #[trigger] old(self).areas@[j]),
            old(self).records_wf(),
        ensures
            final(self).wf(),
            final(self).page_table == old(self).page_table,
    {
        let ghost o = old(self).areas@;
        let ghost o_self = *old(self);
        match self.area_of(vpn) {
            None => {
                assert forall|i: int, v: usize| 0 <= i < self.areas.len() && #[trigger] in_area(self.areas@[i], v)
                    implies self.page_table@.contains_key(v) by {
                    assert(v != vpn.0);
                }
            },
            Some(k) => {
                let a = self.areas[k];
                assert forall|j: int| 0 <= j < o.len() && j != k implies !in_area(#[trigger] o[j], vpn.0) by {
                    assert(disjoint(o[j], a));
                }
                if a.start.0 == vpn.0 && a.end.0 == vpn.0 + 1 {
                    self.areas.remove(k);
                    proof {
                        Self::lemma_records_kept(&o_self, self);
                        assert forall|i: int| 0 <= i < self.areas.len() implies
                            #[trigger] self.areas@[i] == o[if i < k { i } else { i + 1 }] by {}
                        assert forall|i: int, v: usize| 0 <= i < self.areas.len() && #[trigger] in_area(self.areas@[i], v)
                            implies self.page_table@.contains_key(v) by {
                            let oi = if i < k { i } else { i + 1 };
                            assert(in_area(o[oi], v));
                        }
                        assert forall|i: int, j: int| 0 <= i < self.areas.len() && 0 <= j < self.areas.len() && i != j
                            implies disjoint(#[trigger] self.areas@[i], #[trigger] self.areas@[j]) by {
                            let oi = if i < k { i } else { i + 1 };
                            let oj = if j < k { j } else { j + 1 };
                            assert(disjoint(o[oi], o[oj]));
                        }
                    }
                } else if a.start.0 == vpn.0 {
                    self.areas.set(k, MapArea { start: VirtPageNum(vpn.0 + 1), end: a.end, perm: a.perm });
                    proof { Self::lemma_records_kept(&o_self, self); self.lemma_trimmed(o, k as int, vpn.0); }
                } else if a.end.0 == vpn.0 + 1 {
                    self.areas.set(k, MapArea { start: a.start, end: vpn, perm: a.perm });
                    proof { Self::lemma_records_kept(&o_self, self); self.lemma_trimmed(o, k as int, vpn.0); }
                } else {
                    self.areas.set(k, MapArea { start: a.start, end: vpn, perm: a.perm });
                    let ghost mid = self.areas@;
                    proof { Self::lemma_records_kept(&o_self, self); self.lemma_trimmed(o, k as int, vpn.0); }
                    let upper = MapArea { start: VirtPageNum(vpn.0 + 1), end: a.end, perm: a.perm };
                    self.areas.push(upper);
                    proof {
                        Self::lemma_records_kept(&o_self, self);
                        let n = mid.len() as int;
                        assert(self.areas@ == mid.push(upper));
                        assert forall|i: int| 0 <= i < n implies disjoint(#[trigger] self.areas@[i], upper) by {
                            assert(self.areas@[i] == mid[i]);
                            if i != k {
                                assert(disjoint(o[i], a));
                            }
                        }
                        assert forall|i: int, j: int| 0 <= i < self.areas.len() && 0 <= j < self.areas.len() && i != j
                            implies disjoint(#[trigger] self.areas@[i], #[trigger] self.areas@[j]) by {
                            if i < n && j < n {
                                assert(self.areas@[i] == mid[i] && self.areas@[j] == mid[j]);
                            }
                        }
                        assert forall|i: int, v: usize| 0 <= i < self.areas.len() && #[trigger] in_area(self.areas@[i], v)
                            implies self.page_table@.contains_key(v) by {
                            if i < n {
                                assert(self.areas@[i] == mid[i]);
                                assert(in_area(mid[i], v));
                            } else {
                                assert(in_area(o[k as int], v));
                            }
                        }
                    }
                }
            },
        }
    }

    /// After region `k` of `o` (which holds `vpn`) is replaced by a part of
    /// it without `vpn`, the regions are well formed again.
    proof fn lemma_trimmed(&self, o: Seq<MapArea>, k: int, vpn: usize)
        requires
            self.page_table.wf(),
            self.records_wf(),
            0 <= k < o.len(),
            self.areas.len() == o.len(),
            in_area(o[k], vpn),
            !in_area(self.areas@[k], vpn),
            o[k].start.0 <= self.areas@[k].start.0 < self.areas@[k].end.0 <= o[k].end.0,
            forall|i: int| 0 <= i < o.len() && i != k ==> #[trigger] self.areas@[i] == o[i],
            forall|i: int| 0 <= i < o.len() ==> (#[trigger] o[i]).start.0 < o[i].end.0 <= VPN_LIMIT,
            forall|i: int, v: usize| 0 <= i < o.len() && #[trigger] in_area(o[i], v) && v != vpn
                ==> self.page_table@.contains_key(v),
            forall|i: int, j: int| 0 <= i < o.len() && 0 <= j < o.len() && i != j
                ==> disjoint(#[trigger] o[i], #[trigger] o[j]),
        ensures
            self.wf(),
    {
        assert forall|i: int, v: usize| 0 <= i < self.areas.len() && #[trigger] in_area(self.areas@[i], v)
            implies self.page_table@.contains_key(v) by {
            if i == k {
                assert(in_area(o[k], v));
            } else {
                assert(in_area(o[i], v));
            }
        }
        assert forall|i: int, j: int| 0 <= i < self.areas.len() && 0 <= j < self.areas.len() && i != j
            implies disjoint(#[trigger] self.areas@[i], #[trigger] self.areas@[j]) by {
            assert(disjoint(o[i], o[j]));
        }
        assert forall|i: int| 0 <= i < self.areas.len() implies
            (#[trigger] self.areas@[i]).start.0 < self.areas@[i].end.0 <= VPN_LIMIT by {
            assert(o[i].start.0 < o[i].end.0);
        }
    }
}

} // verus!
