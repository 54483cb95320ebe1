//! The page table: a fixed-fan-out radix tree from page id to the head
//! of that page's delta chain.
//!
//! Page ids are dense small integers, so the table is a two-level trie
//! with fan-out [`RADIX_FAN`]: a lookup costs one step per level, never a
//! scan. A slot holds the page's current head handle; installing a delta
//! swaps the slot by compare-and-swap against the head the writer last
//! observed.

use vstd::prelude::*;

use crate::stack::NodeRef;
use crate::PageID;

verus! {

/// The head handle of a page's delta chain; `None` is an empty chain.
pub type Head = Option<NodeRef>;

/// Fan-out of each trie level.
pub const RADIX_FAN: usize = 64;

/// The page table.
pub struct Radix {
    /// Outer level indexed by `pid / RADIX_FAN`; each inner row indexed
    /// by `pid % RADIX_FAN`. An inner slot of `None` is an unallocated
    /// page id.
    pub slots: Vec<Vec<Option<Head>>>,
}

impl Radix {
    /// Every inner row has exactly the fan-out width.
    pub open spec fn wf(self) -> bool {
        forall|i: int| 0 <= i < self.slots@.len() ==> (#[trigger] self.slots@[i])@.len()
            == RADIX_FAN
    }

    /// The table entry of `pid`: `None` if the id was never installed.
    pub open spec fn entry(self, pid: PageID) -> Option<Head> {
        let hi = pid as int / RADIX_FAN as int;
        let lo = pid as int % RADIX_FAN as int;
        if hi < self.slots@.len() {
            self.slots@[hi]@[lo]
        } else {
            None
        }
    }

    /// An empty table.
    pub fn new() -> (r: Radix)
        ensures
            r.wf(),
            forall|q: PageID| r.entry(q) is None,
    {
        Radix { slots: Vec::new() }
    }

    /// Looks up the chain head of `pid`.
    pub fn get(&self, pid: PageID) -> (r: Option<Head>)
        requires
            self.wf(),
        ensures
            r == self.entry(pid),
    {
        let hi = pid / RADIX_FAN;
        let lo = pid % RADIX_FAN;
        if hi < self.slots.len() {
            let row = &self.slots[hi];
            row[lo]
        } else {
            None
        }
    }

    /// Installs the head of a never-before-seen page id. Racing two
    /// installs of one id would mean the allocator handed it out twice —
    /// a fatal bug, not a runtime condition — so the id must be absent.
    pub fn insert_new(&mut self, pid: PageID, head: Head)
        requires
            old(self).wf(),
            old(self).entry(pid) is None,
        ensures
            final(self).wf(),
            final(self).entry(pid) == Some(head),
            forall|q: PageID| q != pid ==> final(self).entry(q) == old(self).entry(q),
    {
        let hi = pid / RADIX_FAN;
        let lo = pid % RADIX_FAN;
        while self.slots.len() <= hi
            invariant
                self.wf(),
                self.slots@.len() >= old(self).slots@.len(),
                forall|i: int|
                    0 <= i < old(self).slots@.len() ==> #[trigger] self.slots@[i] == old(
                        self,
                    ).slots@[i],
                forall|i: int|
                    old(self).slots@.len() <= i < self.slots@.len() ==> forall|j: int|
                        0 <= j < RADIX_FAN ==> (#[trigger] self.slots@[i])@[j] is None,
            decreases hi + 1 - self.slots@.len(),
        {
            let mut row: Vec<Option<Head>> = Vec::new();
            while row.len() < RADIX_FAN
                invariant
                    row@.len() <= RADIX_FAN,
                    forall|j: int| 0 <= j < row@.len() ==> row@[j] is None,
                decreases RADIX_FAN - row@.len(),
            {
                row.push(None);
            }
            self.slots.push(row);
        }
        let ghost mid = *self;
        let row = &mut self.slots[hi];
        row[lo] = Some(head);
        proof {
            assert(self.slots@[hi as int]@ == mid.slots@[hi as int]@.update(
                lo as int,
                Some(head),
            ));
            assert(forall|i: int|
                0 <= i < self.slots@.len() && i != hi as int ==> #[trigger] self.slots@[i]
                    == mid.slots@[i]);
            assert forall|q: PageID| q != pid implies self.entry(q) == old(self).entry(
                q,
            ) by {
                let qhi = q as int / RADIX_FAN as int;
                let qlo = q as int % RADIX_FAN as int;
                vstd::arithmetic::div_mod::lemma_fundamental_div_mod(q as int, RADIX_FAN as int);
                vstd::arithmetic::div_mod::lemma_fundamental_div_mod(pid as int, RADIX_FAN as int);
            }
        }
    }

    /// Compare-and-swap on the chain head of an allocated page id: the
    /// slot moves to `new` only if it still equals `expected`; otherwise
    /// nothing changes and the caller must re-read and retry.
    pub fn cas(&mut self, pid: PageID, expected: Head, new: Head) -> (r: bool)
        requires
            old(self).wf(),
            old(self).entry(pid) is Some,
        ensures
            final(self).wf(),
            r == (old(self).entry(pid) == Some(expected)),
            r ==> final(self).entry(pid) == Some(new),
            !r ==> *final(self) == *old(self),
            forall|q: PageID| q != pid ==> final(self).entry(q) == old(self).entry(q),
    {
        let hi = pid / RADIX_FAN;
        let lo = pid % RADIX_FAN;
        let cur: Head = match &self.slots[hi][lo] {
            Some(h) => *h,
            None => None,  // unreachable: the entry is allocated
        };
        proof {
            assert(old(self).entry(pid) matches Some(h) && cur == h);
        }
        if crate::stack::opt_ref_eq(cur, expected) {
            let ghost mid = *self;
            let row = &mut self.slots[hi];
            row[lo] = Some(new);
            proof {
                assert(self.slots@[hi as int]@ == mid.slots@[hi as int]@.update(
                    lo as int,
                    Some(new),
                ));
                assert forall|q: PageID| q != pid implies self.entry(q) == old(self).entry(
                    q,
                ) by {
                    vstd::arithmetic::div_mod::lemma_fundamental_div_mod(
                        q as int,
                        RADIX_FAN as int,
                    );
                    vstd::arithmetic::div_mod::lemma_fundamental_div_mod(
                        pid as int,
                        RADIX_FAN as int,
                    );
                }
            }
            true
        } else {
            false
        }
    }
}

} // verus!
