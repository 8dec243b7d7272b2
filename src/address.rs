//! Page and address numbers of the Sv39 layout.
use vstd::prelude::*;

verus! {

/// Bytes in one page.
pub const PAGE_SIZE: usize = 4096;

/// Number of virtual pages in the 39-bit address space (three 9-bit indexes).
pub const VPN_LIMIT: usize = 134217728;

/// Largest physical page number plus one (44 bits).
pub const PPN_LIMIT: u64 = 17592186044416;

/// A physical page number.
#[derive(Clone, Copy, Debug, PartialEq, Eq, Structural)]
pub struct PhysPageNum(pub u64);

/// A virtual page number.
#[derive(Clone, Copy, Debug, PartialEq, Eq, Structural)]
pub struct VirtPageNum(pub usize);

/// A virtual address.
#[derive(Clone, Copy, Debug, PartialEq, Eq, Structural)]
pub struct VirtAddr(pub usize);

/// Index into the root table.
pub open spec fn idx0(vpn: usize) -> int {
    (vpn as int / 512 / 512) % 512
}

/// Index into the middle table.
pub open spec fn idx1(vpn: usize) -> int {
    (vpn as int / 512) % 512
}

/// Index into the leaf table.
pub open spec fn idx2(vpn: usize) -> int {
    vpn as int % 512
}

/// Two page numbers of the address space with the same three indexes are equal.
pub proof fn lemma_indexes_determine_vpn(a: usize, b: usize)
    requires
        a < VPN_LIMIT,
        b < VPN_LIMIT,
        idx0(a) == idx0(b),
        idx1(a) == idx1(b),
        idx2(a) == idx2(b),
    ensures
        a == b,
{
    let qa = a as int / 512;
    let qb = b as int / 512;
    assert(qa / 512 < 512) by (nonlinear_arith)
        requires a < 134217728, qa == a as int / 512;
    assert(qb / 512 < 512) by (nonlinear_arith)
        requires b < 134217728, qb == b as int / 512;
    assert(qa == qb) by (nonlinear_arith)
        requires qa % 512 == qb % 512, qa / 512 == qb / 512, qa >= 0, qb >= 0;
    assert(a as int == b as int) by (nonlinear_arith)
        requires qa == a as int / 512, qb == b as int / 512, qa == qb,
            a as int % 512 == b as int % 512, a >= 0, b >= 0;
}

impl VirtPageNum {
    /// The three 9-bit table indexes, most significant first.
    pub fn indexes(&self) -> (r: [usize; 3])
        ensures
            r[0] as int == idx0(self.0),
            r[1] as int == idx1(self.0),
            r[2] as int == idx2(self.0),
            r[0] < 512 && r[1] < 512 && r[2] < 512,
    {
        let v = self.0;
        [v / 512 / 512 % 512, v / 512 % 512, v % 512]
    }
}

impl VirtAddr {
    /// Offset of the address within its page.
    pub fn page_offset(&self) -> (r: usize)
        ensures
            r == self.0 % PAGE_SIZE,
    {
        self.0 % PAGE_SIZE
    }

    /// The page that holds the address.
    pub fn floor(&self) -> (r: VirtPageNum)
        ensures
            r.0 == self.0 / PAGE_SIZE,
    {
        VirtPageNum(self.0 / PAGE_SIZE)
    }

    /// The first page that starts at or after the address.
    pub fn ceil(&self) -> (r: VirtPageNum)
        ensures
            r.0 == ceil_page(self.0),
    {
        if self.0 % PAGE_SIZE == 0 {
            VirtPageNum(self.0 / PAGE_SIZE)
        } else {
            VirtPageNum(self.0 / PAGE_SIZE + 1)
        }
    }

    /// Whether the address starts a page.
    pub fn aligned(&self) -> (r: bool)
        ensures
            r == (self.0 % PAGE_SIZE == 0),
    {
        self.0 % PAGE_SIZE == 0
    }
}

/// The number of the first page that starts at or after `va`.
pub open spec fn ceil_page(va: usize) -> int {
    if va % 4096 == 0 {
        va as int / 4096
    } else {
        va as int / 4096 + 1
    }
}

} // verus!
