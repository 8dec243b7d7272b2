//! The pool of free physical frames.
use vstd::prelude::*;
use crate::address::{PhysPageNum, PPN_LIMIT};

verus! {

/// Ownership of one physical frame.
#[derive(Debug)]
pub struct FrameTracker {
    pub ppn: PhysPageNum,
}

/// Hands out frames from `[current, end)` and recycles released ones first.
pub struct StackFrameAllocator {
    current: u64,
    end: u64,
    recycled: Vec<u64>,
}

impl StackFrameAllocator {
    /// The frames that are free to hand out.
    pub closed spec fn free(&self) -> Set<u64> {
        Set::new(|p: u64| (self.current <= p < self.end) || self.recycled@.contains(p))
    }

    /// How many frames can still be handed out.
    pub closed spec fn available(&self) -> nat {
        ((self.end - self.current) + self.recycled.len()) as nat
    }

    /// The frames handed out at some time: those below the untouched part of the pool.
    pub closed spec fn issued(&self, p: u64) -> bool {
        p < self.current
    }

    pub closed spec fn wf(&self) -> bool {
        &&& self.current <= self.end <= PPN_LIMIT
        &&& self.recycled@.no_duplicates()
        &&& forall|i: int| 0 <= i < self.recycled.len() ==> #[trigger] self.recycled@[i] < self.current
    }

    /// A pool holding the frames `[start, end)`.
    pub fn new(start: PhysPageNum, end: PhysPageNum) -> (r: Self)
        requires
            start.0 <= end.0 <= PPN_LIMIT,
        ensures
            r.wf(),
            r.available() == end.0 - start.0,
            r.free() == Set::new(|p: u64| start.0 <= p < end.0),
    {
        let r = StackFrameAllocator { current: start.0, end: end.0, recycled: Vec::new() };
        assert(r.free() =~= Set::new(|p: u64| start.0 <= p < end.0));
        r
    }

    /// How many frames can still be handed out.
    pub fn available_frames(&self) -> (r: u64)
        requires
            self.wf(),
        ensures
            r as nat == self.available(),
    {
        proof { self.lemma_available_bound(); }
        (self.end - self.current) + self.recycled.len() as u64
    }

    proof fn lemma_available_bound(&self)
        requires
            self.wf(),
        ensures
            self.available() <= PPN_LIMIT,
    {
        let s = self.recycled@.to_set();
        assert(s.subset_of(Set::new(|p: u64| p < self.current)));
        vstd::set_lib::lemma_int_range(0, self.current as int);
        let r = Set::new(|p: u64| p < self.current);
        assert(r.finite() && r.len() == self.current as nat) by {
            lemma_u64_prefix(self.current);
        }
        vstd::set_lib::lemma_len_subset(s, r);
        self.recycled@.unique_seq_to_set();
    }

    /// Takes one free frame, or `None` when the pool is exhausted.
    pub fn frame_alloc(&mut self) -> (r: Option<FrameTracker>)
        requires
            old(self).wf(),
        ensures
            final(self).wf(),
            r is Some <==> old(self).available() > 0,
            r is None ==> *final(self) == *old(self),
            r matches Some(f) ==> {
                &&& old(self).free().contains(f.ppn.0)
                &&& f.ppn.0 < PPN_LIMIT
                &&& final(self).free() == old(self).free().remove(f.ppn.0)
                &&& final(self).available() == old(self).available() - 1
                &&& final(self).issued(f.ppn.0)
                &&& forall|p: u64| old(self).issued(p) ==> final(self).issued(p)
            },
    {
        if self.recycled.len() > 0 {
            let p = self.recycled.pop().unwrap();
            proof {
                let s = old(self).recycled@;
                assert(s == self.recycled@.push(p));
                assert(s.last() == p);
                assert forall|q: u64| #[trigger] self.recycled@.contains(q) implies q != p by {
                    let j = choose|j: int| 0 <= j < self.recycled.len() && self.recycled@[j] == q;
                    assert(s[j] == q && s[s.len() - 1] == p);
                }
                assert forall|i: int| 0 <= i < self.recycled.len() implies #[trigger] self.recycled@[i] < self.current by {
                    assert(s[i] == self.recycled@[i]);
                }
                assert(s.contains(p)) by { assert(s[s.len() - 1] == p); }
                assert forall|q: u64| old(self).recycled@.contains(q) && q != p implies #[trigger] self.recycled@.contains(q) by {
                    let j = choose|j: int| 0 <= j < s.len() && s[j] == q;
                    assert(j != s.len() - 1);
                    assert(self.recycled@[j] == q);
                }
                assert(self.free() =~= old(self).free().remove(p));
            }
            Some(FrameTracker { ppn: PhysPageNum(p) })
        } else if self.current == self.end {
            None
        } else {
            let p = self.current;
            self.current = self.current + 1;
            proof {
                assert(self.free() =~= old(self).free().remove(p));
            }
            Some(FrameTracker { ppn: PhysPageNum(p) })
        }
    }

    /// Whether `ppn` was handed out and has not been given back.
    pub fn is_issued(&self, ppn: PhysPageNum) -> (r: bool)
        requires
            self.wf(),
        ensures
            r == (self.issued(ppn.0) && !self.free().contains(ppn.0)),
    {
        if ppn.0 >= self.current {
            return false;
        }
        let mut i: usize = 0;
        while i < self.recycled.len()
            invariant
                i <= self.recycled.len(),
                forall|j: int| 0 <= j < i ==> self.recycled@[j] != ppn.0,
            decreases self.recycled.len() - i,
        {
            if self.recycled[i] == ppn.0 {
                return false;
            }
            i = i + 1;
        }
        true
    }

    /// Gives a frame back to the pool. A frame that is not out (never handed
    /// out, or already given back) leaves the pool as it is.
    pub fn frame_dealloc(&mut self, frame: FrameTracker)
        requires
            old(self).wf(),
        ensures
            final(self).wf(),
            old(self).issued(frame.ppn.0) && !old(self).free().contains(frame.ppn.0) ==> {
                &&& final(self).free() == old(self).free().insert(frame.ppn.0)
                &&& final(self).available() == old(self).available() + 1
            },
            !(old(self).issued(frame.ppn.0) && !old(self).free().contains(frame.ppn.0))
                ==> *final(self) == *old(self),
            forall|p: u64| old(self).issued(p) <==> final(self).issued(p),
    {
        if self.is_issued(frame.ppn) {
            let p = frame.ppn.0;
            self.recycled.push(p);
            proof {
                let s = old(self).recycled@;
                assert(self.recycled@ == s.push(p));
                assert(!s.contains(p));
                assert forall|i: int, j: int| 0 <= i < j < self.recycled.len()
                    implies self.recycled@[i] != self.recycled@[j] by {
                    if j == s.len() {
                        assert(s[i] == self.recycled@[i]);
                    }
                }
                assert forall|i: int| 0 <= i < self.recycled.len() implies #[trigger] self.recycled@[i] < self.current by {
                    if i < s.len() {
                        assert(s[i] == self.recycled@[i]);
                    }
                }
                assert forall|q: u64| #[trigger] self.recycled@.contains(q) <==> (s.contains(q) || q == p) by {
                    if s.contains(q) {
                        let j = choose|j: int| 0 <= j < s.len() && s[j] == q;
                        assert(self.recycled@[j] == q);
                    }
                    if self.recycled@.contains(q) && q != p {
                        let j = choose|j: int| 0 <= j < self.recycled.len() && self.recycled@[j] == q;
                        assert(j < s.len());
                        assert(s[j] == q);
                    }
                    if q == p {
                        assert(self.recycled@[s.len() as int] == p);
                    }
                }
                assert(self.free() =~= old(self).free().insert(p));
            }
        }
    }
}

/// `b` is `a` after frames were only taken: the free set shrank and every
/// frame handed out stays handed out.
pub open spec fn only_took(a: StackFrameAllocator, b: StackFrameAllocator) -> bool {
    &&& b.free().subset_of(a.free())
    &&& forall|q: u64| a.issued(q) ==> #[trigger] b.issued(q)
}

proof fn lemma_u64_prefix(n: u64)
    ensures
        Set::new(|p: u64| p < n).finite(),
        Set::new(|p: u64| p < n).len() == n as nat,
    decreases n,
{
    if n == 0 {
        assert(Set::new(|p: u64| p < n) =~= Set::empty());
    } else {
        lemma_u64_prefix((n - 1) as u64);
        let m = (n - 1) as u64;
        assert(Set::new(|p: u64| p < n) =~= Set::new(|p: u64| p < m).insert(m));
    }
}

} // verus!
