//! Page-delta fragments and their wire format.
//!
//! A [`Frag`] is one immutable, incremental mutation of a page: a key
//! set or delete within a leaf, a `ChildSplit` (the page's right half was
//! carved off to a new page, narrowing its high bound), a `ParentSplit`
//! (a new separator and child were installed in an index page), or a
//! consolidated base state. Every fragment is appended to the log before
//! it is linked into a page's delta chain, so fragments have a byte
//! encoding, defined here at the specification level and proved to round
//! trip: parsing the encoding of any fragment yields that fragment back.

use vstd::bytes::{
    lemma_auto_spec_u64_to_from_le_bytes, spec_u64_from_le_bytes, spec_u64_to_le_bytes,
    u64_from_le_bytes, u64_to_le_bytes,
};
use vstd::prelude::*;
use vstd::slice::slice_subrange;

use crate::PageID;

verus! {

/// One incremental mutation of a page.
pub enum Frag {
    /// Bind `key` to `value` in a leaf.
    Put(Vec<u8>, Vec<u8>),
    /// Remove `key` from a leaf.
    Del(Vec<u8>),
    /// The page's keys at and above the separator moved to page `to`:
    /// narrows the high bound and sets the right-sibling link.
    ChildSplit(Vec<u8>, PageID),
    /// A child split completed: route keys at and above the separator to
    /// index entry `to`.
    ParentSplit(Vec<u8>, PageID),
    /// Consolidated state of a leaf: sorted items, high bound (exclusive;
    /// `None` is unbounded), right-sibling link.
    Base(Vec<(Vec<u8>, Vec<u8>)>, Option<Vec<u8>>, Option<PageID>),
    /// Consolidated state of an index page: sorted routing entries, high
    /// bound, right-sibling link. The first entry's key is the empty key.
    IndexBase(Vec<(Vec<u8>, PageID)>, Option<Vec<u8>>, Option<PageID>),
}

/// The mathematical content of a [`Frag`].
pub enum FragModel {
    Put { key: Seq<u8>, value: Seq<u8> },
    Del { key: Seq<u8> },
    ChildSplit { at: Seq<u8>, to: PageID },
    ParentSplit { at: Seq<u8>, to: PageID },
    Base { items: Seq<(Seq<u8>, Seq<u8>)>, hi: Option<Seq<u8>>, right: Option<PageID> },
    IndexBase { kids: Seq<(Seq<u8>, PageID)>, hi: Option<Seq<u8>>, right: Option<PageID> },
}

impl View for Frag {
    type V = FragModel;

    open spec fn view(&self) -> FragModel {
        match self {
            Frag::Put(k, v) => FragModel::Put { key: k@, value: v@ },
            Frag::Del(k) => FragModel::Del { key: k@ },
            Frag::ChildSplit(at, to) => FragModel::ChildSplit { at: at@, to: *to },
            Frag::ParentSplit(at, to) => FragModel::ParentSplit { at: at@, to: *to },
            Frag::Base(items, hi, right) => FragModel::Base {
                items: items@.map_values(|p: (Vec<u8>, Vec<u8>)| (p.0@, p.1@)),
                hi: match hi {
                    Some(h) => Some(h@),
                    None => None,
                },
                right: *right,
            },
            Frag::IndexBase(kids, hi, right) => FragModel::IndexBase {
                kids: kids@.map_values(|p: (Vec<u8>, PageID)| (p.0@, p.1)),
                hi: match hi {
                    Some(h) => Some(h@),
                    None => None,
                },
                right: *right,
            },
        }
    }
}

// ---------------------------------------------------------------------
// Specification-level encoding
// ---------------------------------------------------------------------
/// A length-prefixed byte string: eight little-endian length bytes, then
/// the bytes themselves.
pub open spec fn sp_bytes(b: Seq<u8>) -> Seq<u8> {
    spec_u64_to_le_bytes(b.len() as u64) + b
}

/// An optional key: a presence byte, then the key if present.
pub open spec fn sp_opt_key(k: Option<Seq<u8>>) -> Seq<u8> {
    match k {
        None => seq![0u8],
        Some(h) => seq![1u8] + sp_bytes(h),
    }
}

/// An optional page id: a presence byte, then the id if present.
pub open spec fn sp_opt_pid(p: Option<PageID>) -> Seq<u8> {
    match p {
        None => seq![0u8],
        Some(x) => seq![1u8] + spec_u64_to_le_bytes(x as u64),
    }
}

/// A list of key/value pairs, front to back.
pub open spec fn sp_kv_list(items: Seq<(Seq<u8>, Seq<u8>)>) -> Seq<u8>
    decreases items.len(),
{
    if items.len() == 0 {
        Seq::empty()
    } else {
        sp_bytes(items[0].0) + sp_bytes(items[0].1) + sp_kv_list(items.drop_first())
    }
}

/// A list of key/page-id routing pairs, front to back.
pub open spec fn sp_kp_list(kids: Seq<(Seq<u8>, PageID)>) -> Seq<u8>
    decreases kids.len(),
{
    if kids.len() == 0 {
        Seq::empty()
    } else {
        sp_bytes(kids[0].0) + spec_u64_to_le_bytes(kids[0].1 as u64) + sp_kp_list(
            kids.drop_first(),
        )
    }
}

/// The byte encoding of a fragment: a tag byte, then its fields.
pub open spec fn sp_frag_bytes(f: FragModel) -> Seq<u8> {
    match f {
        FragModel::Put { key, value } => seq![1u8] + sp_bytes(key) + sp_bytes(value),
        FragModel::Del { key } => seq![2u8] + sp_bytes(key),
        FragModel::ChildSplit { at, to } => seq![3u8] + sp_bytes(at) + spec_u64_to_le_bytes(
            to as u64,
        ),
        FragModel::ParentSplit { at, to } => seq![4u8] + sp_bytes(at) + spec_u64_to_le_bytes(
            to as u64,
        ),
        FragModel::Base { items, hi, right } => seq![5u8] + sp_opt_key(hi) + sp_opt_pid(right)
            + spec_u64_to_le_bytes(items.len() as u64) + sp_kv_list(items),
        FragModel::IndexBase { kids, hi, right } => seq![6u8] + sp_opt_key(hi) + sp_opt_pid(right)
            + spec_u64_to_le_bytes(kids.len() as u64) + sp_kp_list(kids),
    }
}

/// The sizes a fragment must respect for its encoding to be parseable:
/// every length and count fits in the length prefix, and page ids fit in
/// the id field. Every fragment held in memory satisfies this.
pub open spec fn sp_frag_wf(f: FragModel) -> bool {
    match f {
        FragModel::Put { key, value } => key.len() <= u64::MAX && value.len() <= u64::MAX,
        FragModel::Del { key } => key.len() <= u64::MAX,
        FragModel::ChildSplit { at, to } => at.len() <= u64::MAX,
        FragModel::ParentSplit { at, to } => at.len() <= u64::MAX,
        FragModel::Base { items, hi, right } => items.len() <= u64::MAX && (forall|i: int|
            0 <= i < items.len() ==> (#[trigger] items[i]).0.len() <= u64::MAX && items[
                i
            ].1.len() <= u64::MAX) && (hi matches Some(h) ==> h.len() <= u64::MAX),
        FragModel::IndexBase { kids, hi, right } => kids.len() <= u64::MAX && (forall|i: int|
            0 <= i < kids.len() ==> (#[trigger] kids[i]).0.len() <= u64::MAX) && (
        hi matches Some(h) ==> h.len() <= u64::MAX),
    }
}

// ---------------------------------------------------------------------
// Specification-level parsing
// ---------------------------------------------------------------------
/// Reads eight little-endian bytes at `i` as a `u64`.
pub open spec fn sp_read_u64(b: Seq<u8>, i: int) -> Option<(u64, int)> {
    if 0 <= i && i + 8 <= b.len() {
        Some((spec_u64_from_le_bytes(b.subrange(i, i + 8)), i + 8))
    } else {
        None
    }
}

/// Reads a length-prefixed byte string at `i`.
pub open spec fn sp_read_bytes(b: Seq<u8>, i: int) -> Option<(Seq<u8>, int)> {
    match sp_read_u64(b, i) {
        None => None,
        Some((n, j)) => if j + n <= b.len() {
            Some((b.subrange(j, j + n as int), j + n as int))
        } else {
            None
        },
    }
}

/// Reads an optional key at `i`.
pub open spec fn sp_read_opt_key(b: Seq<u8>, i: int) -> Option<(Option<Seq<u8>>, int)> {
    if 0 <= i && i < b.len() {
        if b[i] == 0u8 {
            Some((None, i + 1))
        } else if b[i] == 1u8 {
            match sp_read_bytes(b, i + 1) {
                None => None,
                Some((k, j)) => Some((Some(k), j)),
            }
        } else {
            None
        }
    } else {
        None
    }
}

/// Reads a page id at `i`, rejecting values too large for this platform.
pub open spec fn sp_read_pid(b: Seq<u8>, i: int) -> Option<(PageID, int)> {
    match sp_read_u64(b, i) {
        None => None,
        Some((x, j)) => if x <= usize::MAX as u64 {
            Some((x as usize, j))
        } else {
            None
        },
    }
}

/// Reads an optional page id at `i`.
pub open spec fn sp_read_opt_pid(b: Seq<u8>, i: int) -> Option<(Option<PageID>, int)> {
    if 0 <= i && i < b.len() {
        if b[i] == 0u8 {
            Some((None, i + 1))
        } else if b[i] == 1u8 {
            match sp_read_pid(b, i + 1) {
                None => None,
                Some((x, j)) => Some((Some(x), j)),
            }
        } else {
            None
        }
    } else {
        None
    }
}

/// Reads `n` key/value pairs at `i`.
pub open spec fn sp_read_kv_list(b: Seq<u8>, i: int, n: nat) -> Option<(
    Seq<(Seq<u8>, Seq<u8>)>,
    int,
)>
    decreases n,
{
    if n == 0 {
        Some((Seq::empty(), i))
    } else {
        match sp_read_bytes(b, i) {
            None => None,
            Some((k, j)) => match sp_read_bytes(b, j) {
                None => None,
                Some((v, j2)) => match sp_read_kv_list(b, j2, (n - 1) as nat) {
                    None => None,
                    Some((rest, j3)) => Some((seq![(k, v)] + rest, j3)),
                },
            },
        }
    }
}

/// Reads `n` key/page-id pairs at `i`.
pub open spec fn sp_read_kp_list(b: Seq<u8>, i: int, n: nat) -> Option<(
    Seq<(Seq<u8>, PageID)>,
    int,
)>
    decreases n,
{
    if n == 0 {
        Some((Seq::empty(), i))
    } else {
        match sp_read_bytes(b, i) {
            None => None,
            Some((k, j)) => match sp_read_pid(b, j) {
                None => None,
                Some((p, j2)) => match sp_read_kp_list(b, j2, (n - 1) as nat) {
                    None => None,
                    Some((rest, j3)) => Some((seq![(k, p)] + rest, j3)),
                },
            },
        }
    }
}

/// Parses a whole fragment: the tag byte decides the shape, and the
/// fields must consume the input exactly.
pub open spec fn sp_frag_parse(b: Seq<u8>) -> Option<FragModel> {
    if b.len() < 1 {
        None
    } else if b[0] == 1u8 {
        match sp_read_bytes(b, 1) {
            None => None,
            Some((k, j)) => match sp_read_bytes(b, j) {
                None => None,
                Some((v, j2)) => if j2 == b.len() {
                    Some(FragModel::Put { key: k, value: v })
                } else {
                    None
                },
            },
        }
    } else if b[0] == 2u8 {
        match sp_read_bytes(b, 1) {
            None => None,
            Some((k, j)) => if j == b.len() {
                Some(FragModel::Del { key: k })
            } else {
                None
            },
        }
    } else if b[0] == 3u8 || b[0] == 4u8 {
        match sp_read_bytes(b, 1) {
            None => None,
            Some((k, j)) => match sp_read_pid(b, j) {
                None => None,
                Some((p, j2)) => if j2 == b.len() {
                    if b[0] == 3u8 {
                        Some(FragModel::ChildSplit { at: k, to: p })
                    } else {
                        Some(FragModel::ParentSplit { at: k, to: p })
                    }
                } else {
                    None
                },
            },
        }
    } else if b[0] == 5u8 {
        match sp_read_opt_key(b, 1) {
            None => None,
            Some((hi, j)) => match sp_read_opt_pid(b, j) {
                None => None,
                Some((right, j2)) => match sp_read_u64(b, j2) {
                    None => None,
                    Some((n, j3)) => match sp_read_kv_list(b, j3, n as nat) {
                        None => None,
                        Some((items, j4)) => if j4 == b.len() {
                            Some(FragModel::Base { items, hi, right })
                        } else {
                            None
                        },
                    },
                },
            },
        }
    } else if b[0] == 6u8 {
        match sp_read_opt_key(b, 1) {
            None => None,
            Some((hi, j)) => match sp_read_opt_pid(b, j) {
                None => None,
                Some((right, j2)) => match sp_read_u64(b, j2) {
                    None => None,
                    Some((n, j3)) => match sp_read_kp_list(b, j3, n as nat) {
                        None => None,
                        Some((kids, j4)) => if j4 == b.len() {
                            Some(FragModel::IndexBase { kids, hi, right })
                        } else {
                            None
                        },
                    },
                },
            },
        }
    } else {
        None
    }
}

// ---------------------------------------------------------------------
// Round trip: parsing an encoding yields the fragment back
// ---------------------------------------------------------------------
/// Reading a `u64` where its encoding stands yields the value.
pub proof fn lemma_read_u64_at(b: Seq<u8>, i: int, x: u64)
    requires
        0 <= i,
        i + 8 <= b.len(),
        b.subrange(i, i + 8) == spec_u64_to_le_bytes(x),
    ensures
        sp_read_u64(b, i) == Some((x, i + 8)),
{
    lemma_auto_spec_u64_to_from_le_bytes();
}

/// Reading a length-prefixed string where its encoding stands yields the
/// string.
pub proof fn lemma_read_bytes_at(b: Seq<u8>, i: int, data: Seq<u8>)
    requires
        0 <= i,
        data.len() <= u64::MAX,
        i + 8 + data.len() <= b.len(),
        b.subrange(i, i + 8 + data.len()) == sp_bytes(data),
    ensures
        sp_read_bytes(b, i) == Some((data, i + 8 + data.len())),
{
    lemma_auto_spec_u64_to_from_le_bytes();
    let enc = sp_bytes(data);
    assert(enc.len() == 8 + data.len());
    assert(b.subrange(i, i + 8) =~= b.subrange(i, i + 8 + data.len()).subrange(0, 8));
    assert(enc.subrange(0, 8) =~= spec_u64_to_le_bytes(data.len() as u64));
    lemma_read_u64_at(b, i, data.len() as u64);
    assert(b.subrange(i + 8, i + 8 + data.len()) =~= b.subrange(i, i + 8 + data.len()).subrange(
        8,
        8 + data.len() as int,
    ));
    assert(enc.subrange(8, 8 + data.len() as int) =~= data);
}

/// Reading a key/value list where its encoding stands yields the list.
pub proof fn lemma_read_kv_list_at(b: Seq<u8>, i: int, items: Seq<(Seq<u8>, Seq<u8>)>)
    requires
        0 <= i,
        forall|t: int|
            0 <= t < items.len() ==> (#[trigger] items[t]).0.len() <= u64::MAX && items[
                t
            ].1.len() <= u64::MAX,
        i + sp_kv_list(items).len() <= b.len(),
        b.subrange(i, i + sp_kv_list(items).len()) == sp_kv_list(items),
    ensures
        sp_read_kv_list(b, i, items.len()) == Some((items, i + sp_kv_list(items).len())),
    decreases items.len(),
{
    lemma_auto_spec_u64_to_from_le_bytes();
    if items.len() == 0 {
        assert(items =~= Seq::<(Seq<u8>, Seq<u8>)>::empty());
    } else {
        let k0 = items[0].0;
        let v0 = items[0].1;
        let enc = sp_kv_list(items);
        let rest = sp_kv_list(items.drop_first());
        let l0: int = 8 + k0.len() as int;
        let l1: int = 8 + v0.len() as int;
        assert(enc == sp_bytes(k0) + sp_bytes(v0) + rest);
        assert(enc.len() == l0 + l1 + rest.len());
        assert(b.subrange(i, i + l0) =~= b.subrange(i, i + enc.len()).subrange(0, l0 as int));
        assert(enc.subrange(0, l0 as int) =~= sp_bytes(k0));
        lemma_read_bytes_at(b, i, k0);
        assert(b.subrange(i + l0, i + l0 + l1) =~= b.subrange(i, i + enc.len()).subrange(
            l0 as int,
            l0 + l1,
        ));
        assert(enc.subrange(l0 as int, l0 + l1) =~= sp_bytes(v0));
        lemma_read_bytes_at(b, i + l0, v0);
        assert(b.subrange(i + l0 + l1, i + enc.len()) =~= b.subrange(i, i + enc.len()).subrange(
            l0 + l1,
            enc.len() as int,
        ));
        assert(enc.subrange(l0 + l1, enc.len() as int) =~= rest);
        lemma_read_kv_list_at(b, i + l0 + l1, items.drop_first());
        assert(items[0] == (k0, v0));
        assert(seq![(k0, v0)] + items.drop_first() =~= items);
    }
}

/// Reading a key/page-id list where its encoding stands yields the list.
pub proof fn lemma_read_kp_list_at(b: Seq<u8>, i: int, kids: Seq<(Seq<u8>, PageID)>)
    requires
        0 <= i,
        forall|t: int| 0 <= t < kids.len() ==> (#[trigger] kids[t]).0.len() <= u64::MAX,
        i + sp_kp_list(kids).len() <= b.len(),
        b.subrange(i, i + sp_kp_list(kids).len()) == sp_kp_list(kids),
    ensures
        sp_read_kp_list(b, i, kids.len()) == Some((kids, i + sp_kp_list(kids).len())),
    decreases kids.len(),
{
    lemma_auto_spec_u64_to_from_le_bytes();
    if kids.len() == 0 {
        assert(kids =~= Seq::<(Seq<u8>, PageID)>::empty());
    } else {
        let k0 = kids[0].0;
        let p0 = kids[0].1;
        let enc = sp_kp_list(kids);
        let rest = sp_kp_list(kids.drop_first());
        let l0: int = 8 + k0.len() as int;
        assert(enc == sp_bytes(k0) + spec_u64_to_le_bytes(p0 as u64) + rest);
        assert(enc.len() == l0 + 8 + rest.len());
        assert(b.subrange(i, i + l0) =~= b.subrange(i, i + enc.len()).subrange(0, l0 as int));
        assert(enc.subrange(0, l0 as int) =~= sp_bytes(k0));
        lemma_read_bytes_at(b, i, k0);
        assert(b.subrange(i + l0, i + l0 + 8) =~= b.subrange(i, i + enc.len()).subrange(
            l0 as int,
            l0 + 8,
        ));
        assert(enc.subrange(l0 as int, l0 + 8) =~= spec_u64_to_le_bytes(p0 as u64));
        lemma_read_u64_at(b, i + l0, p0 as u64);
        assert(p0 as u64 <= usize::MAX as u64);
        assert((p0 as u64) as usize == p0);
        assert(b.subrange(i + l0 + 8, i + enc.len()) =~= b.subrange(i, i + enc.len()).subrange(
            l0 + 8,
            enc.len() as int,
        ));
        assert(enc.subrange(l0 + 8, enc.len() as int) =~= rest);
        lemma_read_kp_list_at(b, i + l0 + 8, kids.drop_first());
        assert(kids[0] == (k0, p0));
        assert(seq![(k0, p0)] + kids.drop_first() =~= kids);
    }
}

/// Reading an optional key where its encoding stands yields it back.
pub proof fn lemma_read_opt_key_at(b: Seq<u8>, i: int, hi: Option<Seq<u8>>)
    requires
        0 <= i,
        hi matches Some(h) ==> h.len() <= u64::MAX,
        i + sp_opt_key(hi).len() <= b.len(),
        b.subrange(i, i + sp_opt_key(hi).len()) == sp_opt_key(hi),
    ensures
        sp_read_opt_key(b, i) == Some((hi, i + sp_opt_key(hi).len())),
{
    lemma_auto_spec_u64_to_from_le_bytes();
    let enc = sp_opt_key(hi);
    assert(b[i] == b.subrange(i, i + enc.len())[0]);
    match hi {
        None => {},
        Some(h) => {
            assert(enc.len() == 1 + 8 + h.len());
            assert(b.subrange(i + 1, i + 1 + 8 + h.len()) =~= b.subrange(i, i
                + enc.len()).subrange(1, enc.len() as int));
            assert(enc.subrange(1, enc.len() as int) =~= sp_bytes(h));
            lemma_read_bytes_at(b, i + 1, h);
        },
    }
}

/// Reading an optional page id where its encoding stands yields it back.
pub proof fn lemma_read_opt_pid_at(b: Seq<u8>, i: int, p: Option<PageID>)
    requires
        0 <= i,
        i + sp_opt_pid(p).len() <= b.len(),
        b.subrange(i, i + sp_opt_pid(p).len()) == sp_opt_pid(p),
    ensures
        sp_read_opt_pid(b, i) == Some((p, i + sp_opt_pid(p).len())),
{
    lemma_auto_spec_u64_to_from_le_bytes();
    let enc = sp_opt_pid(p);
    assert(b[i] == b.subrange(i, i + enc.len())[0]);
    match p {
        None => {},
        Some(x) => {
            assert(enc.len() == 9);
            assert(b.subrange(i + 1, i + 9) =~= b.subrange(i, i + enc.len()).subrange(1, 9));
            assert(enc.subrange(1, 9) =~= spec_u64_to_le_bytes(x as u64));
            lemma_read_u64_at(b, i + 1, x as u64);
            assert((x as u64) as usize == x);
        },
    }
}

/// Appending a pair to a list appends its encoding.
pub proof fn lemma_kv_list_snoc(items: Seq<(Seq<u8>, Seq<u8>)>, p: (Seq<u8>, Seq<u8>))
    ensures
        sp_kv_list(items.push(p)) == sp_kv_list(items) + (sp_bytes(p.0) + sp_bytes(p.1)),
    decreases items.len(),
{
    if items.len() == 0 {
        assert(items.push(p)[0] == p);
        assert(items.push(p).drop_first() =~= Seq::<(Seq<u8>, Seq<u8>)>::empty());
        assert(sp_kv_list(items) + (sp_bytes(p.0) + sp_bytes(p.1)) =~= sp_bytes(p.0) + sp_bytes(
            p.1,
        ) + Seq::<u8>::empty());
        let q = items.push(p);
        assert(q.len() == 1);
        assert(sp_kv_list(q) == sp_bytes(q[0].0) + sp_bytes(q[0].1) + sp_kv_list(q.drop_first()));
        assert(sp_kv_list(q.drop_first()) == Seq::<u8>::empty());
        assert(sp_kv_list(items.push(p)) =~= sp_kv_list(items) + (sp_bytes(p.0) + sp_bytes(p.1)));
    } else {
        assert(items.push(p).drop_first() =~= items.drop_first().push(p));
        lemma_kv_list_snoc(items.drop_first(), p);
        assert(sp_kv_list(items.push(p)) =~= sp_kv_list(items) + (sp_bytes(p.0) + sp_bytes(p.1)));
    }
}

/// Appending a routing pair to a list appends its encoding.
pub proof fn lemma_kp_list_snoc(kids: Seq<(Seq<u8>, PageID)>, p: (Seq<u8>, PageID))
    ensures
        sp_kp_list(kids.push(p)) == sp_kp_list(kids) + (sp_bytes(p.0) + spec_u64_to_le_bytes(
            p.1 as u64,
        )),
    decreases kids.len(),
{
    if kids.len() == 0 {
        assert(kids.push(p)[0] == p);
        assert(kids.push(p).drop_first() =~= Seq::<(Seq<u8>, PageID)>::empty());
        assert(sp_kp_list(kids) + (sp_bytes(p.0) + spec_u64_to_le_bytes(p.1 as u64)) =~= sp_bytes(
            p.0,
        ) + spec_u64_to_le_bytes(p.1 as u64) + Seq::<u8>::empty());
        let q = kids.push(p);
        assert(q.len() == 1);
        assert(sp_kp_list(q) == sp_bytes(q[0].0) + spec_u64_to_le_bytes(q[0].1 as u64)
            + sp_kp_list(q.drop_first()));
        assert(sp_kp_list(q.drop_first()) == Seq::<u8>::empty());
        assert(sp_kp_list(kids.push(p)) =~= sp_kp_list(kids) + (sp_bytes(p.0)
            + spec_u64_to_le_bytes(p.1 as u64)));
    } else {
        assert(kids.push(p).drop_first() =~= kids.drop_first().push(p));
        lemma_kp_list_snoc(kids.drop_first(), p);
        assert(sp_kp_list(kids.push(p)) =~= sp_kp_list(kids) + (sp_bytes(p.0)
            + spec_u64_to_le_bytes(p.1 as u64)));
    }
}

/// Appends a slice's bytes to `out`.
pub(crate) fn push_all(out: &mut Vec<u8>, src: &[u8])
    ensures
        final(out)@ == old(out)@ + src@,
{
    let mut i: usize = 0;
    proof {
        assert(old(out)@ + src@.take(0) =~= old(out)@);
    }
    while i < src.len()
        invariant
            0 <= i <= src@.len(),
            out@ == old(out)@ + src@.take(i as int),
        decreases src@.len() - i,
    {
        out.push(src[i]);
        proof {
            assert(old(out)@ + src@.take(i as int) + seq![src@[i as int]] =~= old(out)@
                + src@.take(i as int + 1));
        }
        i = i + 1;
    }
    proof {
        assert(src@.take(src@.len() as int) =~= src@);
    }
}

/// Appends the eight little-endian bytes of `x` to `out`.
fn push_u64(out: &mut Vec<u8>, x: u64)
    ensures
        final(out)@ == old(out)@ + spec_u64_to_le_bytes(x),
{
    let b = u64_to_le_bytes(x);
    push_all(out, b.as_slice());
}

/// Appends the length-prefixed encoding of `data` to `out`.
fn push_lp_bytes(out: &mut Vec<u8>, data: &[u8])
    ensures
        final(out)@ == old(out)@ + sp_bytes(data@),
{
    push_u64(out, data.len() as u64);
    push_all(out, data);
    proof {
        assert(old(out)@ + spec_u64_to_le_bytes(data@.len() as u64) + data@ =~= old(out)@
            + sp_bytes(data@));
    }
}

/// Encodes a fragment for the log. The bytes parse back to the fragment.
pub fn encode_frag(f: &Frag) -> (r: Vec<u8>)
    ensures
        r@ == sp_frag_bytes(f@),
        sp_frag_parse(r@) == Some(f@),
{
    let mut out: Vec<u8> = Vec::new();
    match f {
        Frag::Put(k, v) => {
            out.push(1u8);
            proof {
                assert(out@ =~= seq![1u8]);
            }
            push_lp_bytes(&mut out, k.as_slice());
            push_lp_bytes(&mut out, v.as_slice());
        },
        Frag::Del(k) => {
            out.push(2u8);
            proof {
                assert(out@ =~= seq![2u8]);
            }
            push_lp_bytes(&mut out, k.as_slice());
        },
        Frag::ChildSplit(at, to) => {
            out.push(3u8);
            proof {
                assert(out@ =~= seq![3u8]);
            }
            push_lp_bytes(&mut out, at.as_slice());
            push_u64(&mut out, *to as u64);
        },
        Frag::ParentSplit(at, to) => {
            out.push(4u8);
            proof {
                assert(out@ =~= seq![4u8]);
            }
            push_lp_bytes(&mut out, at.as_slice());
            push_u64(&mut out, *to as u64);
        },
        Frag::Base(items, hi, right) => {
            out.push(5u8);
            proof {
                assert(out@ =~= seq![5u8]);
            }
            push_opt_key(&mut out, hi);
            push_opt_pid(&mut out, right);
            push_u64(&mut out, items.len() as u64);
            let ghost pre = out@;
            let ghost m = items@.map_values(|p: (Vec<u8>, Vec<u8>)| (p.0@, p.1@));
            let mut i: usize = 0;
            proof {
                assert(pre + sp_kv_list(m.take(0)) =~= pre);
            }
            while i < items.len()
                invariant
                    0 <= i <= items@.len(),
                    m == items@.map_values(|p: (Vec<u8>, Vec<u8>)| (p.0@, p.1@)),
                    m.len() == items@.len(),
                    out@ == pre + sp_kv_list(m.take(i as int)),
                decreases items@.len() - i,
            {
                let pair = &items[i];
                push_lp_bytes(&mut out, pair.0.as_slice());
                push_lp_bytes(&mut out, pair.1.as_slice());
                proof {
                    assert(m[i as int] == (items@[i as int].0@, items@[i as int].1@));
                    lemma_kv_list_snoc(m.take(i as int), m[i as int]);
                    assert(m.take(i as int).push(m[i as int]) =~= m.take(i as int + 1));
                    assert(pre + sp_kv_list(m.take(i as int)) + sp_bytes(items@[i as int].0@)
                        + sp_bytes(items@[i as int].1@) =~= pre + sp_kv_list(m.take(i as int + 1)));
                }
                i = i + 1;
            }
            proof {
                assert(m.take(m.len() as int) =~= m);
            }
        },
        Frag::IndexBase(kids, hi, right) => {
            out.push(6u8);
            proof {
                assert(out@ =~= seq![6u8]);
            }
            push_opt_key(&mut out, hi);
            push_opt_pid(&mut out, right);
            push_u64(&mut out, kids.len() as u64);
            let ghost pre = out@;
            let ghost m = kids@.map_values(|p: (Vec<u8>, PageID)| (p.0@, p.1));
            let mut i: usize = 0;
            proof {
                assert(pre + sp_kp_list(m.take(0)) =~= pre);
            }
            while i < kids.len()
                invariant
                    0 <= i <= kids@.len(),
                    m == kids@.map_values(|p: (Vec<u8>, PageID)| (p.0@, p.1)),
                    m.len() == kids@.len(),
                    out@ == pre + sp_kp_list(m.take(i as int)),
                decreases kids@.len() - i,
            {
                let pair = &kids[i];
                push_lp_bytes(&mut out, pair.0.as_slice());
                push_u64(&mut out, pair.1 as u64);
                proof {
                    assert(m[i as int] == (kids@[i as int].0@, kids@[i as int].1));
                    lemma_kp_list_snoc(m.take(i as int), m[i as int]);
                    assert(m.take(i as int).push(m[i as int]) =~= m.take(i as int + 1));
                    assert(pre + sp_kp_list(m.take(i as int)) + sp_bytes(kids@[i as int].0@)
                        + spec_u64_to_le_bytes(kids@[i as int].1 as u64) =~= pre + sp_kp_list(
                        m.take(i as int + 1),
                    ));
                }
                i = i + 1;
            }
            proof {
                assert(m.take(m.len() as int) =~= m);
            }
        },
    }
    proof {
        match f {
            Frag::Put(k, v) => {
                vstd::std_specs::vec::axiom_spec_len(k);
                vstd::std_specs::vec::axiom_spec_len(v);
            },
            Frag::Del(k) => {
                vstd::std_specs::vec::axiom_spec_len(k);
            },
            Frag::ChildSplit(at, to) => {
                vstd::std_specs::vec::axiom_spec_len(at);
            },
            Frag::ParentSplit(at, to) => {
                vstd::std_specs::vec::axiom_spec_len(at);
            },
            Frag::Base(items, hi, right) => {
                let m = items@.map_values(|p: (Vec<u8>, Vec<u8>)| (p.0@, p.1@));
                vstd::std_specs::vec::axiom_spec_len(items);
                assert(m.len() == items@.len());
                assert forall|t: int| 0 <= t < m.len() implies (#[trigger] m[t]).0.len()
                    <= u64::MAX && m[t].1.len() <= u64::MAX by {
                    assert(m[t] == (items@[t].0@, items@[t].1@));
                    vstd::std_specs::vec::axiom_spec_len(&items@[t].0);
                    vstd::std_specs::vec::axiom_spec_len(&items@[t].1);
                }
                match hi {
                    Some(h) => {
                        vstd::std_specs::vec::axiom_spec_len(h);
                    },
                    None => {},
                }
            },
            Frag::IndexBase(kids, hi, right) => {
                let m = kids@.map_values(|p: (Vec<u8>, PageID)| (p.0@, p.1));
                vstd::std_specs::vec::axiom_spec_len(kids);
                assert(m.len() == kids@.len());
                assert forall|t: int| 0 <= t < m.len() implies (#[trigger] m[t]).0.len()
                    <= u64::MAX by {
                    assert(m[t] == (kids@[t].0@, kids@[t].1));
                    vstd::std_specs::vec::axiom_spec_len(&kids@[t].0);
                }
                match hi {
                    Some(h) => {
                        vstd::std_specs::vec::axiom_spec_len(h);
                    },
                    None => {},
                }
            },
        }
        lemma_frag_round_trip(f@);
    }
    out
}

/// Appends the encoding of an optional key to `out`.
fn push_opt_key(out: &mut Vec<u8>, k: &Option<Vec<u8>>)
    ensures
        final(out)@ == old(out)@ + sp_opt_key(
            match k {
                Some(h) => Some(h@),
                None => None,
            },
        ),
{
    match k {
        None => {
            out.push(0u8);
            proof {
                assert(old(out)@.push(0u8) =~= old(out)@ + seq![0u8]);
            }
        },
        Some(h) => {
            out.push(1u8);
            proof {
                assert(old(out)@.push(1u8) =~= old(out)@ + seq![1u8]);
            }
            push_lp_bytes(out, h.as_slice());
            proof {
                assert(old(out)@ + seq![1u8] + sp_bytes(h@) =~= old(out)@ + (seq![1u8] + sp_bytes(
                    h@,
                )));
            }
        },
    }
}

/// Appends the encoding of an optional page id to `out`.
fn push_opt_pid(out: &mut Vec<u8>, p: &Option<PageID>)
    ensures
        final(out)@ == old(out)@ + sp_opt_pid(*p),
{
    match p {
        None => {
            out.push(0u8);
            proof {
                assert(old(out)@.push(0u8) =~= old(out)@ + seq![0u8]);
            }
        },
        Some(x) => {
            out.push(1u8);
            proof {
                assert(old(out)@.push(1u8) =~= old(out)@ + seq![1u8]);
            }
            push_u64(out, *x as u64);
            proof {
                assert(old(out)@ + seq![1u8] + spec_u64_to_le_bytes(*x as u64) =~= old(out)@ + (
                seq![1u8] + spec_u64_to_le_bytes(*x as u64)));
            }
        },
    }
}

/// The codec round trips: parsing the encoding of any fragment yields
/// exactly that fragment.
#[verifier::rlimit(60)]
pub proof fn lemma_frag_round_trip(f: FragModel)
    requires
        sp_frag_wf(f),
    ensures
        sp_frag_parse(sp_frag_bytes(f)) == Some(f),
{
    lemma_auto_spec_u64_to_from_le_bytes();
    let b = sp_frag_bytes(f);
    match f {
        FragModel::Put { key, value } => {
            let l0: int = 8 + key.len() as int;
            let l1: int = 8 + value.len() as int;
            assert(b.len() == 1 + l0 + l1);
            assert(b.subrange(1, 1 + l0) =~= sp_bytes(key));
            lemma_read_bytes_at(b, 1, key);
            assert(b.subrange(1 + l0, 1 + l0 + l1) =~= sp_bytes(value));
            lemma_read_bytes_at(b, 1 + l0, value);
        },
        FragModel::Del { key } => {
            let l0: int = 8 + key.len() as int;
            assert(b.len() == 1 + l0);
            assert(b.subrange(1, 1 + l0) =~= sp_bytes(key));
            lemma_read_bytes_at(b, 1, key);
        },
        FragModel::ChildSplit { at, to } => {
            let l0: int = 8 + at.len() as int;
            assert(b.len() == 1 + l0 + 8);
            assert(b.subrange(1, 1 + l0) =~= sp_bytes(at));
            lemma_read_bytes_at(b, 1, at);
            assert(b.subrange(1 + l0, 1 + l0 + 8) =~= spec_u64_to_le_bytes(to as u64));
            lemma_read_u64_at(b, 1 + l0, to as u64);
            assert((to as u64) as usize == to);
        },
        FragModel::ParentSplit { at, to } => {
            let l0: int = 8 + at.len() as int;
            assert(b.len() == 1 + l0 + 8);
            assert(b.subrange(1, 1 + l0) =~= sp_bytes(at));
            lemma_read_bytes_at(b, 1, at);
            assert(b.subrange(1 + l0, 1 + l0 + 8) =~= spec_u64_to_le_bytes(to as u64));
            lemma_read_u64_at(b, 1 + l0, to as u64);
            assert((to as u64) as usize == to);
        },
        FragModel::Base { items, hi, right } => {
            let lh: int = sp_opt_key(hi).len() as int;
            let lr: int = sp_opt_pid(right).len() as int;
            let ll: int = sp_kv_list(items).len() as int;
            assert(b.len() == 1 + lh + lr + 8 + ll);
            assert(b.subrange(1, 1 + lh) =~= sp_opt_key(hi));
            lemma_read_opt_key_at(b, 1, hi);
            assert(b.subrange(1 + lh, 1 + lh + lr) =~= sp_opt_pid(right));
            lemma_read_opt_pid_at(b, 1 + lh, right);
            assert(b.subrange(1 + lh + lr, 1 + lh + lr + 8) =~= spec_u64_to_le_bytes(
                items.len() as u64,
            ));
            lemma_read_u64_at(b, 1 + lh + lr, items.len() as u64);
            assert(b.subrange(1 + lh + lr + 8, 1 + lh + lr + 8 + ll) =~= sp_kv_list(items));
            lemma_read_kv_list_at(b, 1 + lh + lr + 8, items);
        },
        FragModel::IndexBase { kids, hi, right } => {
            let lh: int = sp_opt_key(hi).len() as int;
            let lr: int = sp_opt_pid(right).len() as int;
            let ll: int = sp_kp_list(kids).len() as int;
            assert(b.len() == 1 + lh + lr + 8 + ll);
            assert(b.subrange(1, 1 + lh) =~= sp_opt_key(hi));
            lemma_read_opt_key_at(b, 1, hi);
            assert(b.subrange(1 + lh, 1 + lh + lr) =~= sp_opt_pid(right));
            lemma_read_opt_pid_at(b, 1 + lh, right);
            assert(b.subrange(1 + lh + lr, 1 + lh + lr + 8) =~= spec_u64_to_le_bytes(
                kids.len() as u64,
            ));
            lemma_read_u64_at(b, 1 + lh + lr, kids.len() as u64);
            assert(b.subrange(1 + lh + lr + 8, 1 + lh + lr + 8 + ll) =~= sp_kp_list(kids));
            lemma_read_kp_list_at(b, 1 + lh + lr + 8, kids);
        },
    }
}

// ---------------------------------------------------------------------
// Executable parsing, the mirror of the specification parser
// ---------------------------------------------------------------------
/// Reads eight little-endian bytes at `i` as a `u64`.
fn read_u64_at(b: &[u8], i: usize) -> (r: Option<(u64, usize)>)
    ensures
        match sp_read_u64(b@, i as int) {
            Some((x, j)) => r matches Some(t) && t.0 == x && t.1 as int == j,
            None => r is None,
        },
{
    let blen = b.len();
    if i > blen || blen - i < 8 {
        return None;
    }
    let s = slice_subrange(b, i, i + 8);
    Some((u64_from_le_bytes(s), i + 8))
}

/// Reads a length-prefixed byte string at `i`.
fn read_lp_bytes(b: &[u8], i: usize) -> (r: Option<(Vec<u8>, usize)>)
    ensures
        match sp_read_bytes(b@, i as int) {
            Some((d, j)) => r matches Some(t) && t.0@ == d && t.1 as int == j,
            None => r is None,
        },
{
    match read_u64_at(b, i) {
        None => None,
        Some((n, j)) => {
            if n > (b.len() - j) as u64 {
                return None;
            }
            let nn = n as usize;
            let data = crate::log::copy_range(b, j, j + nn);
            Some((data, j + nn))
        },
    }
}

/// Reads a page id at `i`, rejecting ids too large for this platform.
fn read_pid_at(b: &[u8], i: usize) -> (r: Option<(PageID, usize)>)
    ensures
        match sp_read_pid(b@, i as int) {
            Some((p, j)) => r matches Some(t) && t.0 == p && t.1 as int == j,
            None => r is None,
        },
{
    match read_u64_at(b, i) {
        None => None,
        Some((x, j)) => {
            if x > usize::MAX as u64 {
                None
            } else {
                Some((x as usize, j))
            }
        },
    }
}

/// Reads an optional key at `i`.
fn read_opt_key_at(b: &[u8], i: usize) -> (r: Option<(Option<Vec<u8>>, usize)>)
    ensures
        match sp_read_opt_key(b@, i as int) {
            Some((k, j)) => r matches Some(t) && (match (t.0, k) {
                (Some(v), Some(m)) => v@ == m,
                (None, None) => true,
                _ => false,
            }) && t.1 as int == j,
            None => r is None,
        },
{
    if i >= b.len() {
        return None;
    }
    let tag = b[i];
    if tag == 0u8 {
        Some((None, i + 1))
    } else if tag == 1u8 {
        match read_lp_bytes(b, i + 1) {
            None => None,
            Some((k, j)) => Some((Some(k), j)),
        }
    } else {
        None
    }
}

/// Reads an optional page id at `i`.
fn read_opt_pid_at(b: &[u8], i: usize) -> (r: Option<(Option<PageID>, usize)>)
    ensures
        match sp_read_opt_pid(b@, i as int) {
            Some((p, j)) => r matches Some(t) && t.0 == p && t.1 as int == j,
            None => r is None,
        },
{
    if i >= b.len() {
        return None;
    }
    let tag = b[i];
    if tag == 0u8 {
        Some((None, i + 1))
    } else if tag == 1u8 {
        match read_pid_at(b, i + 1) {
            None => None,
            Some((p, j)) => Some((Some(p), j)),
        }
    } else {
        None
    }
}

/// Reads `n` key/value pairs at `i`.
fn read_kv_list_at(b: &[u8], i: usize, n: u64) -> (r: Option<(Vec<(Vec<u8>, Vec<u8>)>, usize)>)
    ensures
        match sp_read_kv_list(b@, i as int, n as nat) {
            Some((items, j)) => r matches Some(t) && t.0@.map_values(
                |p: (Vec<u8>, Vec<u8>)| (p.0@, p.1@),
            ) == items && t.1 as int == j,
            None => r is None,
        },
    decreases n,
{
    if n == 0 {
        let out: Vec<(Vec<u8>, Vec<u8>)> = Vec::new();
        proof {
            assert(out@.map_values(|p: (Vec<u8>, Vec<u8>)| (p.0@, p.1@)) =~= Seq::<(
                Seq<u8>,
                Seq<u8>,
            )>::empty());
        }
        return Some((out, i));
    }
    match read_lp_bytes(b, i) {
        None => None,
        Some((k, j)) => match read_lp_bytes(b, j) {
            None => None,
            Some((v, j2)) => match read_kv_list_at(b, j2, n - 1) {
                None => None,
                Some((mut rest, j3)) => {
                    let ghost rest_m = rest@.map_values(|p: (Vec<u8>, Vec<u8>)| (p.0@, p.1@));
                    rest.insert(0, (k, v));
                    proof {
                        assert(rest@.map_values(|p: (Vec<u8>, Vec<u8>)| (p.0@, p.1@)) =~= seq![
                            (rest@[0].0@, rest@[0].1@),
                        ] + rest_m);
                    }
                    Some((rest, j3))
                },
            },
        },
    }
}

/// Reads `n` key/page-id pairs at `i`.
fn read_kp_list_at(b: &[u8], i: usize, n: u64) -> (r: Option<(Vec<(Vec<u8>, PageID)>, usize)>)
    ensures
        match sp_read_kp_list(b@, i as int, n as nat) {
            Some((kids, j)) => r matches Some(t) && t.0@.map_values(
                |p: (Vec<u8>, PageID)| (p.0@, p.1),
            ) == kids && t.1 as int == j,
            None => r is None,
        },
    decreases n,
{
    if n == 0 {
        let out: Vec<(Vec<u8>, PageID)> = Vec::new();
        proof {
            assert(out@.map_values(|p: (Vec<u8>, PageID)| (p.0@, p.1)) =~= Seq::<(
                Seq<u8>,
                PageID,
            )>::empty());
        }
        return Some((out, i));
    }
    match read_lp_bytes(b, i) {
        None => None,
        Some((k, j)) => match read_pid_at(b, j) {
            None => None,
            Some((p, j2)) => match read_kp_list_at(b, j2, n - 1) {
                None => None,
                Some((mut rest, j3)) => {
                    let ghost rest_m = rest@.map_values(|p: (Vec<u8>, PageID)| (p.0@, p.1));
                    rest.insert(0, (k, p));
                    proof {
                        assert(rest@.map_values(|p: (Vec<u8>, PageID)| (p.0@, p.1)) =~= seq![
                            (rest@[0].0@, rest@[0].1),
                        ] + rest_m);
                    }
                    Some((rest, j3))
                },
            },
        },
    }
}

/// Parses a whole fragment: exactly what the specification parser
/// accepts, and the fragment it accepts.
pub fn decode_frag(b: &[u8]) -> (r: Option<Frag>)
    ensures
        match r {
            Some(f) => sp_frag_parse(b@) == Some(f@),
            None => sp_frag_parse(b@) is None,
        },
{
    if b.len() < 1 {
        return None;
    }
    let tag = b[0];
    if tag == 1u8 {
        match read_lp_bytes(b, 1) {
            None => None,
            Some((k, j)) => match read_lp_bytes(b, j) {
                None => None,
                Some((v, j2)) => if j2 == b.len() {
                    Some(Frag::Put(k, v))
                } else {
                    None
                },
            },
        }
    } else if tag == 2u8 {
        match read_lp_bytes(b, 1) {
            None => None,
            Some((k, j)) => if j == b.len() {
                Some(Frag::Del(k))
            } else {
                None
            },
        }
    } else if tag == 3u8 || tag == 4u8 {
        match read_lp_bytes(b, 1) {
            None => None,
            Some((k, j)) => match read_pid_at(b, j) {
                None => None,
                Some((p, j2)) => if j2 == b.len() {
                    if tag == 3u8 {
                        Some(Frag::ChildSplit(k, p))
                    } else {
                        Some(Frag::ParentSplit(k, p))
                    }
                } else {
                    None
                },
            },
        }
    } else if tag == 5u8 {
        match read_opt_key_at(b, 1) {
            None => None,
            Some((hi, j)) => match read_opt_pid_at(b, j) {
                None => None,
                Some((right, j2)) => match read_u64_at(b, j2) {
                    None => None,
                    Some((n, j3)) => match read_kv_list_at(b, j3, n) {
                        None => None,
                        Some((items, j4)) => if j4 == b.len() {
                            Some(Frag::Base(items, hi, right))
                        } else {
                            None
                        },
                    },
                },
            },
        }
    } else if tag == 6u8 {
        match read_opt_key_at(b, 1) {
            None => None,
            Some((hi, j)) => match read_opt_pid_at(b, j) {
                None => None,
                Some((right, j2)) => match read_u64_at(b, j2) {
                    None => None,
                    Some((n, j3)) => match read_kp_list_at(b, j3, n) {
                        None => None,
                        Some((kids, j4)) => if j4 == b.len() {
                            Some(Frag::IndexBase(kids, hi, right))
                        } else {
                            None
                        },
                    },
                },
            },
        }
    } else {
        None
    }
}

} // verus!
