//! The append-only, log-structured persistence layer.
//!
//! The log is a byte image: an append-only sequence of records
//! `[length: u32][payload][checksum: u16]`, the checksum computed over
//! `length || payload`. A record is valid only if its full span is present
//! and its checksum matches; anything less is a tear. Recovery scans from
//! the front, stops at the first tear, and treats everything beyond it as
//! never written. Reading and writing the image on disk is the caller's
//! business; every rule about what the bytes mean lives here.

use vstd::bytes::{
    lemma_auto_spec_u16_to_from_le_bytes, lemma_auto_spec_u32_to_from_le_bytes,
    spec_u16_from_le_bytes, spec_u16_to_le_bytes, spec_u32_from_le_bytes, spec_u32_to_le_bytes,
    u16_from_le_bytes, u16_to_le_bytes, u32_from_le_bytes, u32_to_le_bytes,
};
use vstd::prelude::*;
use vstd::slice::slice_subrange;

use crate::crc16::{crc16_arr, spec_crc16};
use crate::frag::push_all;
use crate::LogID;

verus! {

/// A checksum mismatch strictly inside the log: fatal, the engine must
/// refuse to serve possibly wrong data.
#[derive(Debug)]
pub enum LogError {
    Corruption,
}

/// The encoding of one record carrying `p`.
pub open spec fn sp_record_bytes(p: Seq<u8>) -> Seq<u8> {
    let body = spec_u32_to_le_bytes(p.len() as u32) + p;
    body + spec_u16_to_le_bytes(spec_crc16(body))
}

/// Parses the record at offset `off`: its full span must be present and
/// its checksum must match; returns the payload and the end offset.
pub open spec fn sp_parse_record(b: Seq<u8>, off: int) -> Option<(Seq<u8>, int)> {
    if 0 <= off && off + 4 <= b.len() {
        let n = spec_u32_from_le_bytes(b.subrange(off, off + 4)) as int;
        if off + 4 + n + 2 <= b.len() {
            let body = b.subrange(off, off + 4 + n);
            let stored = spec_u16_from_le_bytes(b.subrange(off + 4 + n, off + 4 + n + 2));
            if stored == spec_crc16(body) {
                Some((b.subrange(off + 4, off + 4 + n), off + 4 + n + 2))
            } else {
                None
            }
        } else {
            None
        }
    } else {
        None
    }
}

/// Where the valid prefix starting at `off` ends: the first offset at
/// which no whole, checksummed record can be parsed.
pub open spec fn sp_valid_end(b: Seq<u8>, off: int) -> int
    decreases b.len() - off when 0 <= off <= b.len()
{
    if 0 <= off <= b.len() {
        match sp_parse_record(b, off) {
            Some((p, end)) => sp_valid_end(b, end),
            None => off,
        }
    } else {
        off
    }
}

/// The records of the valid prefix starting at `off`, each with the
/// offset it was parsed at.
pub open spec fn sp_records(b: Seq<u8>, off: int) -> Seq<(int, Seq<u8>)>
    decreases b.len() - off when 0 <= off <= b.len()
{
    if 0 <= off <= b.len() {
        match sp_parse_record(b, off) {
            Some((p, end)) => seq![(off, p)] + sp_records(b, end),
            None => Seq::empty(),
        }
    } else {
        Seq::empty()
    }
}

/// Parsing a record where its encoding stands yields the payload.
pub proof fn lemma_parse_record_at(b: Seq<u8>, off: int, p: Seq<u8>)
    requires
        0 <= off,
        p.len() <= u32::MAX,
        off + 6 + p.len() <= b.len(),
        b.subrange(off, off + 6 + p.len()) == sp_record_bytes(p),
    ensures
        sp_parse_record(b, off) == Some((p, off + 6 + p.len())),
{
    lemma_auto_spec_u32_to_from_le_bytes();
    lemma_auto_spec_u16_to_from_le_bytes();
    let n = p.len() as int;
    let enc = sp_record_bytes(p);
    let body = spec_u32_to_le_bytes(p.len() as u32) + p;
    assert(enc.len() == 6 + n);
    assert(b.subrange(off, off + 4) =~= b.subrange(off, off + 6 + n).subrange(0, 4));
    assert(enc.subrange(0, 4) =~= spec_u32_to_le_bytes(p.len() as u32));
    assert(spec_u32_from_le_bytes(b.subrange(off, off + 4)) == p.len() as u32);
    assert(b.subrange(off, off + 4 + n) =~= b.subrange(off, off + 6 + n).subrange(0, 4 + n));
    assert(enc.subrange(0, 4 + n) =~= body);
    assert(b.subrange(off + 4 + n, off + 4 + n + 2) =~= b.subrange(off, off + 6 + n).subrange(
        4 + n,
        6 + n,
    ));
    assert(enc.subrange(4 + n, 6 + n) =~= spec_u16_to_le_bytes(spec_crc16(body)));
    assert(b.subrange(off + 4, off + 4 + n) =~= b.subrange(off, off + 6 + n).subrange(4, 4 + n));
    assert(enc.subrange(4, 4 + n) =~= p);
}

/// A record that parses within a prefix parses identically in any
/// extension of it.
pub proof fn lemma_parse_prefix(a: Seq<u8>, b: Seq<u8>, off: int)
    requires
        a.len() <= b.len(),
        b.subrange(0, a.len() as int) == a,
        sp_parse_record(a, off) is Some,
    ensures
        sp_parse_record(b, off) == sp_parse_record(a, off),
{
    let n = spec_u32_from_le_bytes(a.subrange(off, off + 4)) as int;
    assert(b.subrange(off, off + 4) =~= a.subrange(off, off + 4));
    assert(b.subrange(off, off + 4 + n) =~= a.subrange(off, off + 4 + n));
    assert(b.subrange(off + 4 + n, off + 4 + n + 2) =~= a.subrange(off + 4 + n, off + 4 + n + 2));
    assert(b.subrange(off + 4, off + 4 + n) =~= a.subrange(off + 4, off + 4 + n));
}

/// The valid end lies between the scan start and the end of the bytes.
pub proof fn lemma_valid_end_bounds(b: Seq<u8>, off: int)
    requires
        0 <= off <= b.len(),
    ensures
        off <= sp_valid_end(b, off) <= b.len(),
    decreases b.len() - off,
{
    match sp_parse_record(b, off) {
        Some((p, end)) => {
            lemma_valid_end_bounds(b, end);
        },
        None => {},
    }
}

/// Recovery never accepts a record that does not validate: every record
/// of the scan parses at its offset with a matching checksum, and the
/// offsets advance strictly.
pub proof fn lemma_records_validate(b: Seq<u8>, off: int)
    requires
        0 <= off <= b.len(),
    ensures
        forall|i: int|
            0 <= i < sp_records(b, off).len() ==> (#[trigger] sp_records(b, off)[i]).0 >= off
                && (sp_parse_record(b, sp_records(b, off)[i].0) matches Some((p, end)) && p
                == sp_records(b, off)[i].1),
    decreases b.len() - off,
{
    match sp_parse_record(b, off) {
        Some((p, end)) => {
            lemma_records_validate(b, end);
            assert forall|i: int| 0 <= i < sp_records(b, off).len() implies (#[trigger] sp_records(
                b,
                off,
            )[i]).0 >= off && (sp_parse_record(b, sp_records(b, off)[i].0) matches Some((q, e)) && q
                == sp_records(b, off)[i].1) by {
                if i > 0 {
                    assert(sp_records(b, off)[i] == sp_records(b, end)[i - 1]);
                }
            }
        },
        None => {},
    }
}

/// The length of the recovered valid prefix is monotonic in the length of
/// the bytes: scanning any extension validates at least as far.
pub proof fn lemma_valid_end_monotonic(a: Seq<u8>, b: Seq<u8>, off: int)
    requires
        a.len() <= b.len(),
        b.subrange(0, a.len() as int) == a,
        0 <= off <= a.len(),
    ensures
        sp_valid_end(a, off) <= sp_valid_end(b, off),
    decreases a.len() - off,
{
    match sp_parse_record(a, off) {
        Some((p, end)) => {
            lemma_parse_prefix(a, b, off);
            lemma_valid_end_monotonic(a, b, end);
        },
        None => {
            lemma_valid_end_bounds(b, off);
        },
    }
}

/// The append-only log image.
pub struct Log {
    /// Every byte appended so far, in order. Offsets into this image are
    /// the durable addresses handed out as [`LogID`]s.
    pub buf: Vec<u8>,
}

impl Log {
    /// An empty log.
    pub fn new() -> (l: Log)
        ensures
            l.buf@.len() == 0,
    {
        Log { buf: Vec::new() }
    }

    /// The next free offset, which the next append will return.
    pub fn tail(&self) -> (r: LogID)
        ensures
            r == self.buf@.len() as u64,
    {
        self.buf.len() as u64
    }

    /// Appends one length-prefixed, checksummed record holding `payload`
    /// and returns its offset. The image is extended and nothing before
    /// the returned offset changes, so every previously returned offset
    /// still parses to the same record.
    pub fn append(&mut self, payload: &[u8]) -> (r: LogID)
        requires
            payload@.len() <= u32::MAX,
        ensures
            r == old(self).buf@.len() as u64,
            final(self).buf@ == old(self).buf@ + sp_record_bytes(payload@),
            sp_parse_record(final(self).buf@, r as int) == Some(
                (payload@, final(self).buf@.len() as int),
            ),
    {
        let r = self.buf.len() as u64;
        let mut body = u32_to_le_bytes(payload.len() as u32);
        push_all(&mut body, payload);
        let c = crc16_arr(body.as_slice());
        let cb = u16_to_le_bytes(c);
        push_all(&mut self.buf, body.as_slice());
        push_all(&mut self.buf, cb.as_slice());
        proof {
            lemma_auto_spec_u32_to_from_le_bytes();
            lemma_auto_spec_u16_to_from_le_bytes();
            let p = payload@;
            assert(body@ == spec_u32_to_le_bytes(p.len() as u32) + p);
            assert(self.buf@ =~= old(self).buf@ + sp_record_bytes(p));
            assert(self.buf@.subrange(r as int, r as int + 6 + p.len() as int) =~= sp_record_bytes(
                p,
            ));
            lemma_parse_record_at(self.buf@, r as int, p);
        }
        r
    }

    /// Re-reads the record at `lid` and validates its checksum. Returns
    /// the payload exactly as appended if and only if a whole record with
    /// a matching checksum stands at `lid`; everything else is
    /// corruption.
    pub fn read(&self, lid: LogID) -> (r: Result<Vec<u8>, LogError>)
        ensures
            match sp_parse_record(self.buf@, lid as int) {
                Some((p, end)) => r matches Ok(v) && v@ == p,
                None => r matches Err(e) && e == LogError::Corruption,
            },
    {
        if lid > usize::MAX as u64 {
            proof {
                vstd::std_specs::vec::axiom_spec_len(&self.buf);
            }
            return Err(LogError::Corruption);
        }
        match parse_at(self.buf.as_slice(), lid as usize) {
            Some((v, _)) => Ok(v),
            None => Err(LogError::Corruption),
        }
    }
}

/// Copies `b[i..j]` into a fresh vector.
pub fn copy_range(b: &[u8], i: usize, j: usize) -> (r: Vec<u8>)
    requires
        i <= j <= b@.len(),
    ensures
        r@ == b@.subrange(i as int, j as int),
{
    let mut out: Vec<u8> = Vec::new();
    let mut t: usize = i;
    proof {
        assert(b@.subrange(i as int, i as int) =~= Seq::<u8>::empty());
    }
    while t < j
        invariant
            i <= t <= j <= b@.len(),
            out@ == b@.subrange(i as int, t as int),
        decreases j - t,
    {
        out.push(b[t]);
        proof {
            assert(b@.subrange(i as int, t as int).push(b@[t as int]) =~= b@.subrange(
                i as int,
                t as int + 1,
            ));
        }
        t = t + 1;
    }
    out
}

/// Parses the record at `off`, if a whole valid one stands there.
fn parse_at(b: &[u8], off: usize) -> (r: Option<(Vec<u8>, usize)>)
    ensures
        match sp_parse_record(b@, off as int) {
            Some((p, end)) => r matches Some((v, e)) && v@ == p && e as int == end,
            None => r is None,
        },
{
    let blen = b.len();
    if off > blen || blen - off < 4 {
        return None;
    }
    let lenb = slice_subrange(b, off, off + 4);
    let n = u32_from_le_bytes(lenb) as usize;
    let rem = blen - off - 4;
    if rem < 2 || rem - 2 < n {
        return None;
    }
    let bodyend = off + 4 + n;
    let body = slice_subrange(b, off, bodyend);
    let c = crc16_arr(body);
    let stored = u16_from_le_bytes(slice_subrange(b, bodyend, bodyend + 2));
    if c != stored {
        return None;
    }
    let payload = copy_range(b, off + 4, bodyend);
    Some((payload, bodyend + 2))
}

/// The outcome of scanning a byte image at startup.
pub struct Recovery {
    /// The log, truncated to its valid prefix.
    pub log: Log,
    /// Every whole, checksum-valid record of that prefix, in offset
    /// order: offset and payload.
    pub records: Vec<(LogID, Vec<u8>)>,
}

/// Scans `bytes` from the front, stopping at the first torn or corrupt
/// record. Everything before the tear is recovered exactly; everything
/// from the tear on is discarded, never repaired. Each recovered record
/// re-parses at its own offset, by [`lemma_records_validate`].
pub fn recover(bytes: &[u8]) -> (r: Recovery)
    ensures
        r.log.buf@ == bytes@.subrange(0, sp_valid_end(bytes@, 0)),
        r.records@.map_values(|p: (LogID, Vec<u8>)| (p.0 as int, p.1@)) == sp_records(bytes@, 0),
        r.log.buf@.len() == sp_valid_end(bytes@, 0),
{
    let mut off: usize = 0;
    let mut records: Vec<(LogID, Vec<u8>)> = Vec::new();
    proof {
        assert(records@.map_values(|p: (LogID, Vec<u8>)| (p.0 as int, p.1@)) =~= Seq::<(
            int,
            Seq<u8>,
        )>::empty());
    }
    loop
        invariant
            0 <= off <= bytes@.len(),
            sp_valid_end(bytes@, 0) == sp_valid_end(bytes@, off as int),
            sp_records(bytes@, 0) =~= records@.map_values(|p: (LogID, Vec<u8>)| (p.0 as int, p.1@))
                + sp_records(bytes@, off as int),
        ensures
            0 <= off <= bytes@.len(),
            sp_parse_record(bytes@, off as int) is None,
            sp_valid_end(bytes@, 0) == sp_valid_end(bytes@, off as int),
            sp_records(bytes@, 0) =~= records@.map_values(
                |p: (LogID, Vec<u8>)| (p.0 as int, p.1@),
            ) + sp_records(bytes@, off as int),
        decreases bytes@.len() - off,
    {
        let ghost pre = records@;
        match parse_at(bytes, off) {
            None => {
                break ;
            },
            Some((payload, end)) => {
                records.push((off as u64, payload));
                proof {
                    let f = |p: (LogID, Vec<u8>)| (p.0 as int, p.1@);
                    assert(records@ == pre.push((off as u64, payload)));
                    assert(records@.map_values(f) =~= pre.map_values(f) + seq![
                        (off as int, payload@),
                    ]);
                    assert(pre.map_values(f) + (seq![(off as int, payload@)] + sp_records(
                        bytes@,
                        end as int,
                    )) =~= records@.map_values(f) + sp_records(bytes@, end as int));
                }
                off = end;
            },
        }
    }
    let log = Log { buf: copy_range(bytes, 0, off) };
    proof {
        assert(sp_records(bytes@, off as int) =~= Seq::<(int, Seq<u8>)>::empty());
        assert(records@.map_values(|p: (LogID, Vec<u8>)| (p.0 as int, p.1@)) + Seq::<(
            int,
            Seq<u8>,
        )>::empty() =~= records@.map_values(|p: (LogID, Vec<u8>)| (p.0 as int, p.1@)));
    }
    Recovery { log, records }
}

} // verus!
