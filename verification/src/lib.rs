//! A lock-free, log-structured B-link tree storage engine core.
//!
//! The engine is built from five layers, leaf-first:
//! - [`stack`]: prepend-only chains of immutable nodes with CAS installation,
//!   the primitive for per-page delta chains;
//! - [`radix`]: the page table, a fixed-fan-out radix tree from page id to
//!   that page's delta chain;
//! - [`log`]: an append-only log image with length-prefixed, checksummed
//!   records and torn-write detection at recovery;
//! - [`page`]: the pagecache, which folds delta chains into page views,
//!   consolidates long chains, and enforces write-ahead logging;
//! - [`tree`]: the B-link tree itself: search, insert and delete over pages,
//!   with right-sibling links so lookups cross pages that are mid-split.

use vstd::prelude::*;

pub mod bound;
pub mod crc16;
pub mod frag;
pub mod log;
pub mod page;
pub mod radix;
pub mod stack;
pub mod tree;

verus! {

/// Byte offset of a record within the log; monotonically increasing and
/// never reused. Doubles as the record's durable address.
pub type LogID = u64;

/// Dense process-local identifier of a logical page.
pub type PageID = usize;

/// Relies on rand::random: draws one random boolean. Nothing is assumed
/// of the outcome; callers must hold for both.
#[verifier::external_body]
fn coin() -> bool {
    rand::random::<bool>()
}

/// Fault-injection hook for exercising recovery paths: when enabled it
/// randomly asks the caller to fail early; disabled — the production
/// setting — it never fires.
pub fn test_fail(enabled: bool) -> (r: bool)
    ensures
        !enabled ==> r == false,
{
    if enabled {
        coin()
    } else {
        false
    }
}

} // verus!
