//! The pagecache: materializing pages from delta chains, consolidating
//! long chains, and coordinating every mutation with the log.
//!
//! A page's logical state is the fold of its delta chain, newest to
//! oldest, starting from the empty page or from a consolidated base. The
//! fold is a mathematical function of the chain, so the same chain
//! snapshot always folds to the same state. Every mutation is appended to
//! the log first and linked into the chain by compare-and-swap second;
//! the install is acknowledged only once a commit mark for it is durable
//! too, so a record whose install never completed is inert at recovery.

use vstd::prelude::*;

use crate::bound::{key_eq, key_lt, lemma_lex_trichotomy, lex_le, lex_lt};
use crate::frag::{encode_frag, sp_frag_bytes, Frag, FragModel};
use crate::log::{copy_range, sp_parse_record, sp_record_bytes, Log};
use crate::radix::{Head, Radix};
use crate::stack::{NodeRef, Stack};
use crate::{LogID, PageID};

verus! {

/// A key/value entry of a leaf page.
pub type KV = (Vec<u8>, Vec<u8>);

/// A routing entry of an index page: keys at or above the entry's key
/// (and below the next entry's) belong to the child page.
pub type KP = (Vec<u8>, PageID);

/// The mathematical state of a materialized page.
pub struct ViewModel {
    pub is_index: bool,
    pub items: Seq<(Seq<u8>, Seq<u8>)>,
    pub kids: Seq<(Seq<u8>, PageID)>,
    pub hi: Option<Seq<u8>>,
    pub right: Option<PageID>,
}

/// The state of a page nothing was ever installed on: an empty,
/// unbounded leaf.
pub open spec fn sp_empty_view() -> ViewModel {
    ViewModel {
        is_index: false,
        items: Seq::empty(),
        kids: Seq::empty(),
        hi: None,
        right: None,
    }
}

/// Whether `key` lies below the page's high bound, i.e. the page still
/// serves it; keys at or above the bound moved right during a split.
pub open spec fn sp_covers(hi: Option<Seq<u8>>, key: Seq<u8>) -> bool {
    match hi {
        None => true,
        Some(h) => lex_lt(key, h),
    }
}

/// Leaf items with `key` bound to `value`, keeping sort order.
pub open spec fn sp_items_put(
    items: Seq<(Seq<u8>, Seq<u8>)>,
    key: Seq<u8>,
    value: Seq<u8>,
) -> Seq<(Seq<u8>, Seq<u8>)>
    decreases items.len(),
{
    if items.len() == 0 {
        seq![(key, value)]
    } else if lex_lt(key, items[0].0) {
        seq![(key, value)] + items
    } else if key == items[0].0 {
        seq![(key, value)] + items.drop_first()
    } else {
        seq![items[0]] + sp_items_put(items.drop_first(), key, value)
    }
}

/// Leaf items with `key` removed.
pub open spec fn sp_items_del(items: Seq<(Seq<u8>, Seq<u8>)>, key: Seq<u8>) -> Seq<(
    Seq<u8>,
    Seq<u8>,
)>
    decreases items.len(),
{
    if items.len() == 0 {
        Seq::empty()
    } else if key == items[0].0 {
        items.drop_first()
    } else {
        seq![items[0]] + sp_items_del(items.drop_first(), key)
    }
}

/// The value bound to `key` among leaf items, if any.
pub open spec fn sp_items_lookup(items: Seq<(Seq<u8>, Seq<u8>)>, key: Seq<u8>) -> Option<Seq<u8>>
    decreases items.len(),
{
    if items.len() == 0 {
        None
    } else if key == items[0].0 {
        Some(items[0].1)
    } else {
        sp_items_lookup(items.drop_first(), key)
    }
}

/// The leaf items strictly below the separator: what a split page keeps.
pub open spec fn sp_items_below(items: Seq<(Seq<u8>, Seq<u8>)>, at: Seq<u8>) -> Seq<(
    Seq<u8>,
    Seq<u8>,
)>
    decreases items.len(),
{
    if items.len() == 0 {
        Seq::empty()
    } else if lex_lt(items[0].0, at) {
        seq![items[0]] + sp_items_below(items.drop_first(), at)
    } else {
        sp_items_below(items.drop_first(), at)
    }
}

/// The leaf items at or above the separator: what moves to the new
/// right sibling.
pub open spec fn sp_items_from(items: Seq<(Seq<u8>, Seq<u8>)>, at: Seq<u8>) -> Seq<(
    Seq<u8>,
    Seq<u8>,
)>
    decreases items.len(),
{
    if items.len() == 0 {
        Seq::empty()
    } else if lex_lt(items[0].0, at) {
        sp_items_from(items.drop_first(), at)
    } else {
        seq![items[0]] + sp_items_from(items.drop_first(), at)
    }
}

/// Routing entries with `(key, to)` inserted in sort order.
pub open spec fn sp_kids_put(kids: Seq<(Seq<u8>, PageID)>, key: Seq<u8>, to: PageID) -> Seq<(
    Seq<u8>,
    PageID,
)>
    decreases kids.len(),
{
    if kids.len() == 0 {
        seq![(key, to)]
    } else if lex_lt(key, kids[0].0) {
        seq![(key, to)] + kids
    } else if key == kids[0].0 {
        seq![(key, to)] + kids.drop_first()
    } else {
        seq![kids[0]] + sp_kids_put(kids.drop_first(), key, to)
    }
}

/// The routing entries strictly below the separator.
pub open spec fn sp_kids_below(kids: Seq<(Seq<u8>, PageID)>, at: Seq<u8>) -> Seq<(
    Seq<u8>,
    PageID,
)>
    decreases kids.len(),
{
    if kids.len() == 0 {
        Seq::empty()
    } else if lex_lt(kids[0].0, at) {
        seq![kids[0]] + sp_kids_below(kids.drop_first(), at)
    } else {
        sp_kids_below(kids.drop_first(), at)
    }
}

/// The child an index page routes `key` to: the last entry whose key is
/// at or below `key`. The first entry of a well-formed index page holds
/// the empty key, so some entry always applies.
pub open spec fn sp_choose_child(kids: Seq<(Seq<u8>, PageID)>, key: Seq<u8>) -> PageID
    decreases kids.len(),
{
    if kids.len() == 0 {
        0
    } else if kids.len() == 1 {
        kids[0].1
    } else if lex_le(kids[1].0, key) {
        sp_choose_child(kids.drop_first(), key)
    } else {
        kids[0].1
    }
}

/// One fragment applied to a materialized state: the newest delta wins.
pub open spec fn sp_apply(f: FragModel, v: ViewModel) -> ViewModel {
    match f {
        FragModel::Put { key, value } => ViewModel {
            items: sp_items_put(v.items, key, value),
            ..v
        },
        FragModel::Del { key } => ViewModel { items: sp_items_del(v.items, key), ..v },
        FragModel::ChildSplit { at, to } => ViewModel {
            items: sp_items_below(v.items, at),
            kids: sp_kids_below(v.kids, at),
            hi: Some(at),
            right: Some(to),
            ..v
        },
        FragModel::ParentSplit { at, to } => ViewModel { kids: sp_kids_put(v.kids, at, to), ..v },
        FragModel::Base { items, hi, right } => ViewModel {
            is_index: false,
            items,
            kids: Seq::empty(),
            hi,
            right,
        },
        FragModel::IndexBase { kids, hi, right } => ViewModel {
            is_index: true,
            items: Seq::empty(),
            kids,
            hi,
            right,
        },
    }
}

/// The fold of a delta chain, newest first: the newest fragment is
/// applied to the fold of everything older. A fold is a function of the
/// chain alone, so one chain snapshot always folds to one state.
pub open spec fn sp_fold(chain: Seq<FragModel>) -> ViewModel
    decreases chain.len(),
{
    if chain.len() == 0 {
        sp_empty_view()
    } else {
        sp_apply(chain[0], sp_fold(chain.drop_first()))
    }
}

/// The fragments of a chain of (fragment, log offset) nodes.
pub open spec fn sp_chain_frags(chain: Seq<(Frag, LogID)>) -> Seq<FragModel> {
    chain.map_values(|p: (Frag, LogID)| p.0@)
}

/// A materialized page: one consistent snapshot of a page's state.
pub struct PageView {
    pub is_index: bool,
    pub items: Vec<KV>,
    pub kids: Vec<KP>,
    pub hi: Option<Vec<u8>>,
    pub right: Option<PageID>,
}

impl View for PageView {
    type V = ViewModel;

    open spec fn view(&self) -> ViewModel {
        ViewModel {
            is_index: self.is_index,
            items: self.items@.map_values(|p: KV| (p.0@, p.1@)),
            kids: self.kids@.map_values(|p: KP| (p.0@, p.1)),
            hi: match self.hi {
                Some(h) => Some(h@),
                None => None,
            },
            right: self.right,
        }
    }
}

impl PageView {
    /// The page's high bound as a [`crate::bound::Bound`], for callers
    /// that validate key ranges: exclusive at the separator a split
    /// installed, or open when the page was never split.
    pub fn hi_bound(&self) -> (r: crate::bound::Bound)
        ensures
            forall|k: Seq<u8>| r.spec_covers(k) == sp_covers(self@.hi, k),
    {
        match &self.hi {
            None => crate::bound::Bound::Inf,
            Some(h) => crate::bound::Bound::Exclusive(clone_key(h)),
        }
    }
}

/// A `ChildSplit` never widens a page's range: when the separator lies
/// at or below the old high bound — and the tree always splits at one of
/// the page's own keys, which do — every key the narrowed bound admits
/// was admitted before.
pub proof fn lemma_child_split_narrows(hi: Option<Seq<u8>>, at: Seq<u8>)
    requires
        hi matches Some(h) ==> crate::bound::lex_le(at, h),
    ensures
        forall|k: Seq<u8>| #[trigger] sp_covers(Some(at), k) ==> sp_covers(hi, k),
{
    match hi {
        None => {},
        Some(h) => {
            assert forall|k: Seq<u8>| #[trigger] sp_covers(Some(at), k) implies sp_covers(
                hi,
                k,
            ) by {
                if at == h {
                } else {
                    crate::bound::lemma_lex_lt_trans(k, at, h);
                }
            }
        },
    }
}

/// Copies a key.
pub fn clone_key(k: &Vec<u8>) -> (r: Vec<u8>)
    ensures
        r@ == k@,
{
    let r = copy_range(k.as_slice(), 0, k.len());
    proof {
        assert(k@.subrange(0, k@.len() as int) =~= k@);
    }
    r
}

/// The model of a leaf item vector.
pub open spec fn kv_model(items: Seq<KV>) -> Seq<(Seq<u8>, Seq<u8>)> {
    items.map_values(|p: KV| (p.0@, p.1@))
}

/// The model of a routing entry vector.
pub open spec fn kp_model(kids: Seq<KP>) -> Seq<(Seq<u8>, PageID)> {
    kids.map_values(|p: KP| (p.0@, p.1))
}

/// Binds `key` to `value` among sorted leaf items.
pub fn items_put(items: Vec<KV>, key: Vec<u8>, value: Vec<u8>) -> (r: Vec<KV>)
    ensures
        kv_model(r@) == sp_items_put(kv_model(items@), key@, value@),
    decreases items@.len(),
{
    let ghost pre = items@;
    let mut items = items;
    if items.len() == 0 {
        items.push((key, value));
        proof {
            assert(kv_model(items@) =~= seq![(key@, value@)]);
        }
        items
    } else {
        let is_lt = key_lt(key.as_slice(), items[0].0.as_slice());
        let is_eq = key_eq(key.as_slice(), items[0].0.as_slice());
        proof {
            assert(kv_model(pre)[0] == (pre[0].0@, pre[0].1@));
        }
        if is_lt {
            items.insert(0, (key, value));
            proof {
                assert(kv_model(items@) =~= seq![(key@, value@)] + kv_model(pre));
            }
            items
        } else if is_eq {
            let _ = items.remove(0);
            items.insert(0, (key, value));
            proof {
                assert(kv_model(items@) =~= seq![(key@, value@)] + kv_model(pre).drop_first());
            }
            items
        } else {
            let first = items.remove(0);
            let ghost rest_pre = items@;
            let mut rest = items_put(items, key, value);
            rest.insert(0, first);
            proof {
                assert(kv_model(rest_pre) =~= kv_model(pre).drop_first());
                assert(kv_model(rest@) =~= seq![(first.0@, first.1@)] + sp_items_put(
                    kv_model(rest_pre),
                    key@,
                    value@,
                ));
                assert(seq![(first.0@, first.1@)] =~= seq![kv_model(pre)[0]]);
            }
            rest
        }
    }
}

/// Removes `key` from sorted leaf items.
pub fn items_del(items: Vec<KV>, key: &[u8]) -> (r: Vec<KV>)
    ensures
        kv_model(r@) == sp_items_del(kv_model(items@), key@),
    decreases items@.len(),
{
    let ghost pre = items@;
    let mut items = items;
    if items.len() == 0 {
        proof {
            assert(kv_model(pre) =~= Seq::<(Seq<u8>, Seq<u8>)>::empty());
        }
        items
    } else {
        let is_eq = key_eq(key, items[0].0.as_slice());
        proof {
            assert(kv_model(pre)[0] == (pre[0].0@, pre[0].1@));
        }
        if is_eq {
            let _ = items.remove(0);
            proof {
                assert(kv_model(items@) =~= kv_model(pre).drop_first());
            }
            items
        } else {
            let first = items.remove(0);
            let ghost rest_pre = items@;
            let mut rest = items_del(items, key);
            rest.insert(0, first);
            proof {
                assert(kv_model(rest_pre) =~= kv_model(pre).drop_first());
                assert(kv_model(rest@) =~= seq![(first.0@, first.1@)] + sp_items_del(
                    kv_model(rest_pre),
                    key@,
                ));
                assert(seq![(first.0@, first.1@)] =~= seq![kv_model(pre)[0]]);
            }
            rest
        }
    }
}

/// Looks `key` up among leaf items, returning a copy of its value.
pub fn items_lookup(items: &Vec<KV>, key: &[u8]) -> (r: Option<Vec<u8>>)
    ensures
        match r {
            Some(v) => sp_items_lookup(kv_model(items@), key@) == Some(v@),
            None => sp_items_lookup(kv_model(items@), key@) is None,
        },
{
    let mut t: usize = 0;
    let ghost m = kv_model(items@);
    proof {
        assert(m.skip(0) =~= m);
    }
    while t < items.len()
        invariant
            0 <= t <= items@.len(),
            m == kv_model(items@),
            m.len() == items@.len(),
            sp_items_lookup(m, key@) == sp_items_lookup(m.skip(t as int), key@),
        decreases items@.len() - t,
    {
        proof {
            assert(m.skip(t as int)[0] == m[t as int]);
            assert(m[t as int] == (items@[t as int].0@, items@[t as int].1@));
            assert(m.skip(t as int).drop_first() =~= m.skip(t as int + 1));
        }
        if key_eq(key, items[t].0.as_slice()) {
            return Some(clone_key(&items[t].1));
        }
        t = t + 1;
    }
    proof {
        assert(m.skip(m.len() as int) =~= Seq::<(Seq<u8>, Seq<u8>)>::empty());
    }
    None
}

/// Splits sorted leaf items at the separator: what stays, and what moves
/// to the new right sibling.
pub fn items_split(items: Vec<KV>, at: &[u8]) -> (r: (Vec<KV>, Vec<KV>))
    ensures
        kv_model(r.0@) == sp_items_below(kv_model(items@), at@),
        kv_model(r.1@) == sp_items_from(kv_model(items@), at@),
    decreases items@.len(),
{
    let ghost pre = items@;
    let mut items = items;
    if items.len() == 0 {
        proof {
            assert(kv_model(pre) =~= Seq::<(Seq<u8>, Seq<u8>)>::empty());
        }
        (items, Vec::new())
    } else {
        let stays = key_lt(items[0].0.as_slice(), at);
        proof {
            assert(kv_model(pre)[0] == (pre[0].0@, pre[0].1@));
        }
        let first = items.remove(0);
        let ghost rest_pre = items@;
        let (mut below, mut from) = items_split(items, at);
        proof {
            assert(kv_model(rest_pre) =~= kv_model(pre).drop_first());
        }
        if stays {
            below.insert(0, first);
            proof {
                assert(kv_model(below@) =~= seq![kv_model(pre)[0]] + sp_items_below(
                    kv_model(rest_pre),
                    at@,
                ));
            }
        } else {
            from.insert(0, first);
            proof {
                assert(kv_model(from@) =~= seq![kv_model(pre)[0]] + sp_items_from(
                    kv_model(rest_pre),
                    at@,
                ));
            }
        }
        (below, from)
    }
}

/// Inserts a routing entry in sort order.
pub fn kids_put(kids: Vec<KP>, key: Vec<u8>, to: PageID) -> (r: Vec<KP>)
    ensures
        kp_model(r@) == sp_kids_put(kp_model(kids@), key@, to),
    decreases kids@.len(),
{
    let ghost pre = kids@;
    let mut kids = kids;
    if kids.len() == 0 {
        kids.push((key, to));
        proof {
            assert(kp_model(kids@) =~= seq![(key@, to)]);
        }
        kids
    } else {
        let is_lt = key_lt(key.as_slice(), kids[0].0.as_slice());
        let is_eq = key_eq(key.as_slice(), kids[0].0.as_slice());
        proof {
            assert(kp_model(pre)[0] == (pre[0].0@, pre[0].1));
        }
        if is_lt {
            kids.insert(0, (key, to));
            proof {
                assert(kp_model(kids@) =~= seq![(key@, to)] + kp_model(pre));
            }
            kids
        } else if is_eq {
            let _ = kids.remove(0);
            kids.insert(0, (key, to));
            proof {
                assert(kp_model(kids@) =~= seq![(key@, to)] + kp_model(pre).drop_first());
            }
            kids
        } else {
            let first = kids.remove(0);
            let ghost rest_pre = kids@;
            let mut rest = kids_put(kids, key, to);
            rest.insert(0, first);
            proof {
                assert(kp_model(rest_pre) =~= kp_model(pre).drop_first());
                assert(kp_model(rest@) =~= seq![(first.0@, first.1)] + sp_kids_put(
                    kp_model(rest_pre),
                    key@,
                    to,
                ));
                assert(seq![(first.0@, first.1)] =~= seq![kp_model(pre)[0]]);
            }
            rest
        }
    }
}

/// Keeps the routing entries strictly below the separator.
pub fn kids_below(kids: Vec<KP>, at: &[u8]) -> (r: Vec<KP>)
    ensures
        kp_model(r@) == sp_kids_below(kp_model(kids@), at@),
    decreases kids@.len(),
{
    let ghost pre = kids@;
    let mut kids = kids;
    if kids.len() == 0 {
        proof {
            assert(kp_model(pre) =~= Seq::<(Seq<u8>, PageID)>::empty());
        }
        kids
    } else {
        let stays = key_lt(kids[0].0.as_slice(), at);
        proof {
            assert(kp_model(pre)[0] == (pre[0].0@, pre[0].1));
        }
        let first = kids.remove(0);
        let ghost rest_pre = kids@;
        let mut rest = kids_below(kids, at);
        proof {
            assert(kp_model(rest_pre) =~= kp_model(pre).drop_first());
        }
        if stays {
            rest.insert(0, first);
            proof {
                assert(kp_model(rest@) =~= seq![kp_model(pre)[0]] + sp_kids_below(
                    kp_model(rest_pre),
                    at@,
                ));
            }
        }
        rest
    }
}

/// Routes `key` through an index page's entries.
pub fn choose_child(kids: &[KP], key: &[u8]) -> (r: PageID)
    requires
        kids@.len() > 0,
    ensures
        r == sp_choose_child(kp_model(kids@), key@),
    decreases kids@.len(),
{
    let ghost m = kp_model(kids@);
    proof {
        assert(m[0] == (kids@[0].0@, kids@[0].1));
    }
    if kids.len() == 1 {
        kids[0].1
    } else {
        proof {
            assert(m[1] == (kids@[1].0@, kids@[1].1));
            lemma_lex_trichotomy(key@, kids@[1].0@);
        }
        let next_le = !key_lt(key, kids[1].0.as_slice());
        if next_le {
            let rest = vstd::slice::slice_subrange(kids, 1, kids.len());
            let r = choose_child(rest, key);
            proof {
                assert(kp_model(rest@) =~= m.drop_first());
            }
            r
        } else {
            kids[0].1
        }
    }
}

/// Copies a leaf item vector.
pub fn clone_items(items: &Vec<KV>) -> (r: Vec<KV>)
    ensures
        kv_model(r@) == kv_model(items@),
{
    let mut out: Vec<KV> = Vec::new();
    let mut t: usize = 0;
    proof {
        assert(kv_model(out@) =~= kv_model(items@).take(0));
    }
    while t < items.len()
        invariant
            0 <= t <= items@.len(),
            kv_model(out@) == kv_model(items@).take(t as int),
        decreases items@.len() - t,
    {
        let k = clone_key(&items[t].0);
        let v = clone_key(&items[t].1);
        out.push((k, v));
        proof {
            assert(kv_model(items@)[t as int] == (items@[t as int].0@, items@[t as int].1@));
            assert(kv_model(out@) =~= kv_model(items@).take(t as int).push(
                kv_model(items@)[t as int],
            ));
            assert(kv_model(items@).take(t as int).push(kv_model(items@)[t as int])
                =~= kv_model(items@).take(t as int + 1));
        }
        t = t + 1;
    }
    proof {
        assert(kv_model(items@).take(items@.len() as int) =~= kv_model(items@));
    }
    out
}

/// Copies a routing entry vector.
pub fn clone_kids(kids: &Vec<KP>) -> (r: Vec<KP>)
    ensures
        kp_model(r@) == kp_model(kids@),
{
    let mut out: Vec<KP> = Vec::new();
    let mut t: usize = 0;
    proof {
        assert(kp_model(out@) =~= kp_model(kids@).take(0));
    }
    while t < kids.len()
        invariant
            0 <= t <= kids@.len(),
            kp_model(out@) == kp_model(kids@).take(t as int),
        decreases kids@.len() - t,
    {
        let k = clone_key(&kids[t].0);
        out.push((k, kids[t].1));
        proof {
            assert(kp_model(kids@)[t as int] == (kids@[t as int].0@, kids@[t as int].1));
            assert(kp_model(out@) =~= kp_model(kids@).take(t as int).push(
                kp_model(kids@)[t as int],
            ));
            assert(kp_model(kids@).take(t as int).push(kp_model(kids@)[t as int])
                =~= kp_model(kids@).take(t as int + 1));
        }
        t = t + 1;
    }
    proof {
        assert(kp_model(kids@).take(kids@.len() as int) =~= kp_model(kids@));
    }
    out
}

/// Copies an optional key.
pub fn clone_opt_key(k: &Option<Vec<u8>>) -> (r: Option<Vec<u8>>)
    ensures
        (match (k, r) {
            (Some(a), Some(b)) => a@ == b@,
            (None, None) => true,
            _ => false,
        }),
{
    match k {
        Some(h) => Some(clone_key(h)),
        None => None,
    }
}

/// A materialized empty page.
pub fn empty_view() -> (r: PageView)
    ensures
        r@ == sp_empty_view(),
{
    let r = PageView { is_index: false, items: Vec::new(), kids: Vec::new(), hi: None, right: None };
    proof {
        assert(r@.items =~= sp_empty_view().items);
        assert(r@.kids =~= sp_empty_view().kids);
    }
    r
}

/// Applies one fragment to a materialized page.
pub fn apply_frag(f: &Frag, v: PageView) -> (r: PageView)
    ensures
        r@ == sp_apply(f@, v@),
{
    let PageView { is_index, items, kids, hi, right } = v;
    match f {
        Frag::Put(k, val) => {
            let items2 = items_put(items, clone_key(k), clone_key(val));
            PageView { is_index, items: items2, kids, hi, right }
        },
        Frag::Del(k) => {
            let items2 = items_del(items, k.as_slice());
            PageView { is_index, items: items2, kids, hi, right }
        },
        Frag::ChildSplit(at, to) => {
            let (below, _from) = items_split(items, at.as_slice());
            let kids2 = kids_below(kids, at.as_slice());
            PageView { is_index, items: below, kids: kids2, hi: Some(clone_key(at)), right: Some(
                *to,
            ) }
        },
        Frag::ParentSplit(at, to) => {
            let kids2 = kids_put(kids, clone_key(at), *to);
            PageView { is_index, items, kids: kids2, hi, right }
        },
        Frag::Base(bitems, bhi, bright) => {
            let r = PageView {
                is_index: false,
                items: clone_items(bitems),
                kids: Vec::new(),
                hi: clone_opt_key(bhi),
                right: *bright,
            };
            proof {
                assert(r@.kids =~= Seq::<(Seq<u8>, PageID)>::empty());
            }
            r
        },
        Frag::IndexBase(bkids, bhi, bright) => {
            let r = PageView {
                is_index: true,
                items: Vec::new(),
                kids: clone_kids(bkids),
                hi: clone_opt_key(bhi),
                right: *bright,
            };
            proof {
                assert(r@.items =~= Seq::<(Seq<u8>, Seq<u8>)>::empty());
            }
            r
        },
    }
}

/// Folds the chain hanging from node `c` of the arena.
fn fold_at(s: &Stack<(Frag, LogID)>, c: NodeRef) -> (r: PageView)
    requires
        s.wf(),
        c < s.nodes@.len(),
    ensures
        r@ == sp_fold(sp_chain_frags(s.spec_chain_at(c as int))),
    decreases c,
{
    let nxt = s.next_at(c);
    let older = match nxt {
        None => empty_view(),
        Some(n) => fold_at(s, n),
    };
    let pair = s.value_at(c);
    let r = apply_frag(&pair.0, older);
    proof {
        let ch = s.spec_chain_at(c as int);
        let m = sp_chain_frags(ch);
        assert(m.len() == ch.len());
        assert(ch[0] == s.nodes@[c as int].value);
        assert(m[0] == ch[0].0@);
        assert(sp_fold(m) == sp_apply(m[0], sp_fold(m.drop_first())));
        match nxt {
            None => {
                assert(ch =~= seq![s.nodes@[c as int].value]);
                assert(m.drop_first() =~= sp_chain_frags(Seq::<(Frag, LogID)>::empty()));
                assert(sp_chain_frags(Seq::<(Frag, LogID)>::empty()) =~= Seq::<
                    FragModel,
                >::empty());
            },
            Some(n) => {
                assert(ch == seq![s.nodes@[c as int].value] + s.spec_chain_at(n as int));
                assert(m.drop_first() =~= sp_chain_frags(s.spec_chain_at(n as int)));
            },
        }
    }
    r
}

/// Folds the chain reached from head `h`.
pub fn fold_from(s: &Stack<(Frag, LogID)>, h: Head) -> (r: PageView)
    requires
        s.wf(),
        h matches Some(c) ==> c < s.nodes@.len(),
    ensures
        r@ == sp_fold(sp_chain_frags(s.spec_chain_from(h))),
    decreases h,
{
    match h {
        None => {
            let r = empty_view();
            proof {
                assert(sp_chain_frags(Seq::<(Frag, LogID)>::empty()) =~= Seq::<
                    FragModel,
                >::empty());
            }
            r
        },
        Some(c) => fold_at(s, c),
    }
}

/// The number of nodes in the chain hanging from node `c`.
fn chain_len_at(s: &Stack<(Frag, LogID)>, c: NodeRef) -> (r: usize)
    requires
        s.wf(),
        c < s.nodes@.len(),
    ensures
        r == s.spec_chain_at(c as int).len(),
        r >= 1,
    decreases c,
{
    match s.next_at(c) {
        None => 1,
        Some(n) => {
            let rest = chain_len_at(s, n);
            proof {
                vstd::std_specs::vec::axiom_spec_len(&s.nodes);
                assert(s.spec_chain_at(c as int).len() == 1 + s.spec_chain_at(n as int).len());
                assert(s.spec_chain_at(n as int).len() <= n as int + 1) by {
                    lemma_chain_len_bound(s, n as int);
                }
            }
            rest + 1
        },
    }
}

/// A chain hanging from node `i` has at most `i + 1` nodes: links only
/// ever point to strictly older nodes.
pub proof fn lemma_chain_len_bound(s: &Stack<(Frag, LogID)>, i: int)
    requires
        s.wf(),
        0 <= i < s.nodes@.len(),
    ensures
        s.spec_chain_at(i).len() <= i + 1,
    decreases i,
{
    match s.nodes@[i].next {
        Some(n) => {
            lemma_chain_len_bound(s, n as int);
            assert(n < i);
        },
        None => {},
    }
}

/// The log payload installing `f` on page `pid`: an install mark, the
/// page id, and the fragment's encoding.
pub open spec fn sp_install_payload(pid: PageID, f: FragModel) -> Seq<u8> {
    seq![0u8] + vstd::bytes::spec_u64_to_le_bytes(pid as u64) + sp_frag_bytes(f)
}

/// The log payload committing the install whose record sits at `lid`:
/// written only after the chain link succeeded, so recovery applies
/// exactly the installs that completed.
pub open spec fn sp_commit_payload(lid: LogID) -> Seq<u8> {
    seq![1u8] + vstd::bytes::spec_u64_to_le_bytes(lid)
}

/// The log payload marking `pid` as the tree's root.
pub open spec fn sp_root_payload(pid: PageID) -> Seq<u8> {
    seq![2u8] + vstd::bytes::spec_u64_to_le_bytes(pid as u64)
}

/// What an install record's payload says: the page and the fragment, if
/// the payload is a well-formed install for this platform.
pub open spec fn sp_parse_install(p: Seq<u8>) -> Option<(PageID, FragModel)> {
    if p.len() >= 9 && p[0] == 0u8 {
        let x = vstd::bytes::spec_u64_from_le_bytes(p.subrange(1, 9));
        if x <= usize::MAX as u64 {
            match crate::frag::sp_frag_parse(p.subrange(9, p.len() as int)) {
                Some(f) => Some((x as usize, f)),
                None => None,
            }
        } else {
            None
        }
    } else {
        None
    }
}

/// What a commit record's payload says: the offset of the install it
/// commits.
pub open spec fn sp_parse_commit(p: Seq<u8>) -> Option<LogID> {
    if p.len() == 9 && p[0] == 1u8 {
        Some(vstd::bytes::spec_u64_from_le_bytes(p.subrange(1, 9)))
    } else {
        None
    }
}

/// What a root-mark record's payload says: the page that became root.
pub open spec fn sp_parse_root_mark(p: Seq<u8>) -> Option<PageID> {
    if p.len() == 9 && p[0] == 2u8 {
        let x = vstd::bytes::spec_u64_from_le_bytes(p.subrange(1, 9));
        if x <= usize::MAX as u64 {
            Some(x as usize)
        } else {
            None
        }
    } else {
        None
    }
}

/// Whether the install at offset `lid` has a commit mark among `all`.
pub open spec fn sp_committed(all: Seq<(int, Seq<u8>)>, lid: int) -> bool {
    exists|i: int|
        0 <= i < all.len() && ((#[trigger] sp_parse_commit(all[i].1)) matches Some(c) && c as int
            == lid)
}

/// The last durably marked root among the records, if any.
pub open spec fn sp_root_mark(records: Seq<(int, Seq<u8>)>) -> Option<PageID>
    decreases records.len(),
{
    if records.len() == 0 {
        None
    } else {
        match sp_parse_root_mark(records.last().1) {
            Some(p) => Some(p),
            None => sp_root_mark(records.drop_last()),
        }
    }
}

/// Whether a record is an install that recovery applies: a well-formed
/// install whose page id this platform can hold and whose commit mark is
/// among `all`.
pub open spec fn sp_applies(rec: (int, Seq<u8>), all: Seq<(int, Seq<u8>)>) -> Option<(
    PageID,
    FragModel,
)> {
    match sp_parse_install(rec.1) {
        Some((pid, f)) => if pid < usize::MAX && sp_committed(all, rec.0) {
            Some((pid, f))
        } else {
            None
        },
        None => None,
    }
}

/// The delta chain, newest first, that replaying `records` gives page
/// `p`: its committed installs in log order, newest at the front.
pub open spec fn sp_replay_chain(
    records: Seq<(int, Seq<u8>)>,
    all: Seq<(int, Seq<u8>)>,
    p: PageID,
) -> Seq<FragModel>
    decreases records.len(),
{
    if records.len() == 0 {
        Seq::empty()
    } else {
        let rest = sp_replay_chain(records.drop_last(), all, p);
        match sp_applies(records.last(), all) {
            Some((pid, f)) => if pid == p {
                seq![f] + rest
            } else {
                rest
            },
            None => rest,
        }
    }
}

/// The page id allocation cursor that replaying `records` leaves: one
/// past the highest page any applied install names.
pub open spec fn sp_replay_next(records: Seq<(int, Seq<u8>)>, all: Seq<(int, Seq<u8>)>) -> int
    decreases records.len(),
{
    if records.len() == 0 {
        0
    } else {
        let prev = sp_replay_next(records.drop_last(), all);
        match sp_applies(records.last(), all) {
            Some((pid, f)) => if pid + 1 > prev {
                pid + 1
            } else {
                prev
            },
            None => prev,
        }
    }
}

/// Pages at or above the replay cursor have no applied installs, so
/// replay leaves them empty.
pub proof fn lemma_replay_chain_above(
    records: Seq<(int, Seq<u8>)>,
    all: Seq<(int, Seq<u8>)>,
    p: PageID,
)
    requires
        p as int >= sp_replay_next(records, all),
    ensures
        sp_replay_chain(records, all, p) == Seq::<FragModel>::empty(),
    decreases records.len(),
{
    if records.len() > 0 {
        match sp_applies(records.last(), all) {
            Some((pid, f)) => {
                assert(sp_replay_next(records, all) >= pid + 1);
                lemma_replay_chain_above(records.drop_last(), all, p);
            },
            None => {
                lemma_replay_chain_above(records.drop_last(), all, p);
            },
        }
    }
}

/// The replay cursor never goes negative.
pub proof fn lemma_replay_next_nonneg(records: Seq<(int, Seq<u8>)>, all: Seq<(int, Seq<u8>)>)
    ensures
        sp_replay_next(records, all) >= 0,
    decreases records.len(),
{
    if records.len() > 0 {
        lemma_replay_next_nonneg(records.drop_last(), all);
    }
}

/// Appending one whole record to a clean image appends one entry to
/// the recovered record list.
pub proof fn lemma_records_append(b: Seq<u8>, p: Seq<u8>, off: int)
    requires
        0 <= off <= b.len(),
        crate::log::sp_valid_end(b, off) == b.len(),
        p.len() <= u32::MAX,
    ensures
        crate::log::sp_records(b + sp_record_bytes(p), off) == crate::log::sp_records(
            b,
            off,
        ).push((b.len() as int, p)),
    decreases b.len() - off,
{
    vstd::bytes::lemma_auto_spec_u32_to_from_le_bytes();
    vstd::bytes::lemma_auto_spec_u16_to_from_le_bytes();
    let rec = sp_record_bytes(p);
    let b2 = b + rec;
    let newr = (b.len() as int, p);
    assert(rec.len() == 6 + p.len());
    match sp_parse_record(b, off) {
        Some((q, end)) => {
            assert(b2.subrange(0, b.len() as int) =~= b);
            crate::log::lemma_parse_prefix(b, b2, off);
            lemma_records_append(b, p, end);
            assert(crate::log::sp_records(b2, off) == seq![(off, q)] + crate::log::sp_records(
                b2,
                end,
            ));
            assert(seq![(off, q)] + crate::log::sp_records(b, end).push(newr) =~= (seq![(off, q)]
                + crate::log::sp_records(b, end)).push(newr));
        },
        None => {
            assert(off == b.len());
            assert(b2.subrange(off, off + 6 + p.len() as int) =~= rec);
            crate::log::lemma_parse_record_at(b2, off, p);
            assert(crate::log::sp_records(b2, off) == seq![(off, p)] + crate::log::sp_records(
                b2,
                off + 6 + p.len(),
            ));
            assert(off + 6 + p.len() == b2.len());
            assert(crate::log::sp_records(b2, b2.len() as int) =~= Seq::<(int, Seq<u8>)>::empty());
            assert(crate::log::sp_records(b, off) =~= Seq::<(int, Seq<u8>)>::empty());
            assert(seq![(off, p)] + Seq::<(int, Seq<u8>)>::empty() =~= crate::log::sp_records(
                b,
                off,
            ).push(newr));
        },
    }
}

/// A record that is not a commit mark changes nothing about which
/// installs are committed.
pub proof fn lemma_committed_push_non_commit(all: Seq<(int, Seq<u8>)>, r: (int, Seq<u8>))
    requires
        sp_parse_commit(r.1) is None,
    ensures
        forall|lid: int| sp_committed(all.push(r), lid) <==> sp_committed(all, lid),
{
    assert forall|lid: int| sp_committed(all.push(r), lid) implies sp_committed(all, lid) by {
        let i = choose|i: int|
            0 <= i < all.push(r).len() && ((#[trigger] sp_parse_commit(
                all.push(r)[i].1,
            )) matches Some(cc) && cc as int == lid);
        assert(i < all.len());
        assert(all.push(r)[i] == all[i]);
    }
    assert forall|lid: int| sp_committed(all, lid) implies sp_committed(all.push(r), lid) by {
        let i = choose|i: int|
            0 <= i < all.len() && ((#[trigger] sp_parse_commit(all[i].1)) matches Some(cc)
                && cc as int == lid);
        assert(all.push(r)[i] == all[i]);
    }
}

/// Replay depends on the commit marks only through which installs they
/// commit: two record lists that commit the same offsets replay every
/// record list identically.
pub proof fn lemma_replay_same_commits(
    records: Seq<(int, Seq<u8>)>,
    all1: Seq<(int, Seq<u8>)>,
    all2: Seq<(int, Seq<u8>)>,
)
    requires
        forall|lid: int| sp_committed(all1, lid) <==> sp_committed(all2, lid),
    ensures
        forall|q: PageID|
            #[trigger] sp_replay_chain(records, all1, q) == sp_replay_chain(records, all2, q),
        sp_replay_next(records, all1) == sp_replay_next(records, all2),
    decreases records.len(),
{
    if records.len() > 0 {
        lemma_replay_same_commits(records.drop_last(), all1, all2);
        assert(sp_applies(records.last(), all1) == sp_applies(records.last(), all2));
        assert forall|q: PageID|
            #[trigger] sp_replay_chain(records, all1, q) == sp_replay_chain(records, all2, q) by {
            assert(sp_replay_chain(records.drop_last(), all1, q) == sp_replay_chain(
                records.drop_last(),
                all2,
                q,
            ));
        }
    }
}

/// A logged-but-unlinked record is inert: appending an install record
/// that nothing commits (and that is neither a commit nor a root mark)
/// to a clean image leaves what recovery rebuilds — every page's chain,
/// the allocation cursor and the root — exactly as it was. A crash
/// between an install's log append and its commit therefore loses only
/// the unacknowledged operation.
pub proof fn lemma_unlinked_record_inert(b: Seq<u8>, p: Seq<u8>)
    requires
        crate::log::sp_valid_end(b, 0) == b.len(),
        p.len() <= u32::MAX,
        sp_parse_commit(p) is None,
        sp_parse_root_mark(p) is None,
        !sp_committed(crate::log::sp_records(b, 0), b.len() as int),
    ensures
        ({
            let all = crate::log::sp_records(b, 0);
            let all2 = crate::log::sp_records(b + sp_record_bytes(p), 0);
            &&& all2 == all.push((b.len() as int, p))
            &&& forall|q: PageID|
                #[trigger] sp_replay_chain(all2, all2, q) == sp_replay_chain(all, all, q)
            &&& sp_replay_next(all2, all2) == sp_replay_next(all, all)
            &&& sp_root_mark(all2) == sp_root_mark(all)
        }),
{
    let all = crate::log::sp_records(b, 0);
    let newr = (b.len() as int, p);
    let all2 = all.push(newr);
    lemma_records_append(b, p, 0);
    lemma_committed_push_non_commit(all, newr);
    lemma_replay_same_commits(all, all, all2);
    assert(all2.drop_last() =~= all);
    assert(all2.last() == newr);
    assert(sp_applies(newr, all2) is None) by {
        match sp_parse_install(p) {
            Some((pid, f)) => {
                assert(!sp_committed(all2, b.len() as int));
            },
            None => {},
        }
    }
    assert forall|q: PageID|
        #[trigger] sp_replay_chain(all2, all2, q) == sp_replay_chain(all, all, q) by {
        assert(sp_replay_chain(all2, all2, q) == sp_replay_chain(all, all2, q));
        assert(sp_replay_chain(all, all2, q) == sp_replay_chain(all, all, q));
    }
    assert(sp_replay_next(all2, all2) == sp_replay_next(all, all2));
    assert(sp_root_mark(all2) == sp_root_mark(all));
}

/// The consolidated base of a materialized state: its items as a leaf
/// base, or its routing entries as an index base, with the bound and
/// right link carried over.
pub open spec fn sp_base_of(v: ViewModel) -> FragModel {
    if v.is_index {
        FragModel::IndexBase { kids: v.kids, hi: v.hi, right: v.right }
    } else {
        FragModel::Base { items: v.items, hi: v.hi, right: v.right }
    }
}

/// Builds the install payload for `f` on page `pid`.
pub fn encode_install(pid: PageID, f: &Frag) -> (r: Vec<u8>)
    ensures
        r@ == sp_install_payload(pid, f@),
        r@.len() == 9 + sp_frag_bytes(f@).len(),
{
    let mut out: Vec<u8> = Vec::new();
    out.push(0u8);
    proof {
        assert(out@ =~= seq![0u8]);
    }
    let pidb = vstd::bytes::u64_to_le_bytes(pid as u64);
    crate::frag::push_all(&mut out, pidb.as_slice());
    let enc = encode_frag(f);
    crate::frag::push_all(&mut out, enc.as_slice());
    proof {
        vstd::bytes::lemma_auto_spec_u64_to_from_le_bytes();
    }
    out
}

/// Builds the commit payload for the install record at `lid`.
pub fn encode_commit(lid: LogID) -> (r: Vec<u8>)
    ensures
        r@ == sp_commit_payload(lid),
        r@.len() == 9,
{
    let mut out: Vec<u8> = Vec::new();
    out.push(1u8);
    proof {
        assert(out@ =~= seq![1u8]);
    }
    let lidb = vstd::bytes::u64_to_le_bytes(lid);
    crate::frag::push_all(&mut out, lidb.as_slice());
    proof {
        vstd::bytes::lemma_auto_spec_u64_to_from_le_bytes();
    }
    out
}

/// A page whose materialized state matches its role: a leaf routes
/// nothing, an index page stores nothing. Every chain the tree installs
/// keeps its page pure.
pub open spec fn sp_view_pure(v: ViewModel) -> bool {
    if v.is_index {
        v.items.len() == 0
    } else {
        v.kids.len() == 0
    }
}

/// Policy knobs the engine is configured with. The split and
/// consolidation points are policy, not structure, so they are the
/// caller's choice.
pub struct Config {
    /// Consolidate a chain once it grows past this many nodes.
    pub consolidate_threshold: usize,
    /// Split a leaf once it holds more than this many items.
    pub split_threshold: usize,
}

impl Config {
    /// A configuration with the given thresholds.
    pub fn new(consolidate_threshold: usize, split_threshold: usize) -> (r: Config)
        ensures
            r.consolidate_threshold == consolidate_threshold,
            r.split_threshold == split_threshold,
    {
        Config { consolidate_threshold, split_threshold }
    }
}

/// The pagecache: the shared node arena, the page table, the log, and
/// the page id allocator.
pub struct Pages {
    /// Arena shared by every page's delta chain; per-page heads live in
    /// the table. Superseded nodes stay readable to captured snapshots.
    pub arena: Stack<(Frag, LogID)>,
    /// The page table mapping page id to chain head.
    pub table: Radix,
    /// The write-ahead log: every fragment is appended here before it is
    /// linked, and its install is committed here after the link.
    pub log: Log,
    /// The next fresh page id.
    pub next_pid: PageID,
    /// Policy knobs.
    pub config: Config,
}

impl Pages {
    /// Structural soundness: the arena and table are well formed, every
    /// table head points into the arena, and exactly the ids below the
    /// allocation cursor are present.
    pub open spec fn wf(self) -> bool {
        &&& self.arena.wf()
        &&& self.table.wf()
        &&& forall|p: PageID|
            (#[trigger] self.table.entry(p)) matches Some(h) ==> (h matches Some(n) ==> n
                < self.arena.nodes@.len())
        &&& forall|p: PageID| (#[trigger] self.table.entry(p)) is Some <==> p < self.next_pid
    }

    /// The delta chain of page `pid`, newest first.
    pub open spec fn page_chain(self, pid: PageID) -> Seq<(Frag, LogID)> {
        match self.table.entry(pid) {
            Some(h) => self.arena.spec_chain_from(h),
            None => Seq::empty(),
        }
    }

    /// The materialized state of page `pid`.
    pub open spec fn page_view(self, pid: PageID) -> ViewModel {
        sp_fold(sp_chain_frags(self.page_chain(pid)))
    }

    /// A fresh, empty pagecache.
    pub fn new(config: Config) -> (r: Pages)
        ensures
            r.wf(),
            r.next_pid == 0,
            r.log.buf@.len() == 0,
            r.config == config,
    {
        Pages {
            arena: Stack::new(),
            table: Radix::new(),
            log: Log::new(),
            next_pid: 0,
            config,
        }
    }

    /// Mints a fresh page id and installs an empty chain for it.
    pub fn allocate(&mut self) -> (r: PageID)
        requires
            old(self).wf(),
            old(self).next_pid < usize::MAX,
        ensures
            final(self).wf(),
            r == old(self).next_pid,
            final(self).next_pid == r + 1,
            final(self).table.entry(r) == Some(Option::<crate::stack::NodeRef>::None),
            final(self).arena == old(self).arena,
            forall|q: PageID| q != r ==> final(self).table.entry(q) == old(self).table.entry(q),
            final(self).page_chain(r) == Seq::<(Frag, LogID)>::empty(),
            final(self).page_view(r) == sp_empty_view(),
            forall|q: PageID| q != r ==> final(self).page_chain(q) == old(self).page_chain(q),
            final(self).log == old(self).log,
            final(self).config == old(self).config,
    {
        let pid = self.next_pid;
        proof {
            assert(old(self).table.entry(pid) is None);
        }
        self.table.insert_new(pid, None);
        self.next_pid = pid + 1;
        proof {
            assert(sp_chain_frags(Seq::<(Frag, LogID)>::empty()) =~= Seq::<FragModel>::empty());
        }
        pid
    }

    /// The current chain head of an allocated page.
    pub fn head_of(&self, pid: PageID) -> (h: Head)
        requires
            self.wf(),
            pid < self.next_pid,
        ensures
            self.table.entry(pid) == Some(h),
            h matches Some(n) ==> n < self.arena.nodes@.len(),
    {
        match self.table.get(pid) {
            Some(h) => h,
            None => None,  // unreachable: ids below the cursor are present
        }
    }

    /// Materializes one consistent snapshot of page `pid`: the fold of
    /// the chain its head pointed to when the fold began. Returns the
    /// folded view and that head, which a later install CASes against.
    pub fn get_view(&self, pid: PageID) -> (r: (PageView, Head))
        requires
            self.wf(),
            pid < self.next_pid,
        ensures
            self.table.entry(pid) == Some(r.1),
            r.0@ == self.page_view(pid),
            r.1 matches Some(n) ==> n < self.arena.nodes@.len(),
    {
        let h = self.head_of(pid);
        let view = fold_from(&self.arena, h);
        (view, h)
    }

    /// Durably logs `frag`, then links it onto page `pid` by
    /// compare-and-swap against the head the caller observed (write
    /// ahead: log first, publish second). On success a commit mark for
    /// the record is appended too, and only then is the install
    /// acknowledged. On a lost race nothing is published: the logged
    /// record is inert, the caller gets the head actually seen and must
    /// re-fold and retry.
    pub fn install(&mut self, pid: PageID, frag: Frag, expected: Head) -> (r: Result<Head, Head>)
        requires
            old(self).wf(),
            pid < old(self).next_pid,
            9 + sp_frag_bytes(frag@).len() <= u32::MAX,
            expected matches Some(n) ==> n < old(self).arena.nodes@.len(),
        ensures
            final(self).wf(),
            final(self).next_pid == old(self).next_pid,
            final(self).config == old(self).config,
            final(self).arena.nodes@.len() >= old(self).arena.nodes@.len(),
            forall|q: PageID| q != pid ==> final(self).table.entry(q) == old(self).table.entry(q),
            (r is Ok) == (old(self).table.entry(pid) == Some(expected)),
            forall|q: PageID| q != pid ==> final(self).page_chain(q) == old(self).page_chain(q),
            r matches Ok(h) ==> (final(self).table.entry(pid) == Some(h)
                && final(self).page_chain(pid) == seq![(frag, old(self).log.buf@.len() as u64)]
                + old(self).page_chain(pid)
                && final(self).page_view(pid) == sp_apply(frag@, old(self).page_view(pid))
                && final(self).log.buf@ == old(self).log.buf@ + sp_record_bytes(
                sp_install_payload(pid, frag@),
            ) + sp_record_bytes(sp_commit_payload(old(self).log.buf@.len() as u64)) && (
            sp_parse_record(final(self).log.buf@, old(self).log.buf@.len() as int) matches Some(
                (p, e),
            ) && p == sp_install_payload(pid, frag@))),
            r matches Err(a) ==> (old(self).table.entry(pid) == Some(a)
                && final(self).table == old(self).table
                && final(self).page_chain(pid) == old(self).page_chain(pid)
                && final(self).log.buf@ == old(self).log.buf@ + sp_record_bytes(
                sp_install_payload(pid, frag@),
            )),
    {
        let ghost frag_m = frag@;
        let payload = encode_install(pid, &frag);
        let lid = self.log.append(payload.as_slice());
        let ghost after_frag_log = self.log.buf@;
        let nr = crate::stack::raw(&mut self.arena, (frag, lid), expected);
        let ghost mid = *self;
        proof {
            assert forall|q: PageID| true implies #[trigger] mid.page_chain(q) == old(
                self,
            ).page_chain(q) by {
                match old(self).table.entry(q) {
                    Some(hq) => {
                        match hq {
                            Some(n) => {
                                crate::stack::lemma_chain_at_grow(
                                    old(self).arena,
                                    mid.arena,
                                    n as int,
                                );
                            },
                            None => {},
                        }
                    },
                    None => {},
                }
            }
        }
        let ok = self.table.cas(pid, expected, Some(nr));
        if ok {
            let cp = encode_commit(lid);
            let _ = self.log.append(cp.as_slice());
            proof {
                assert(self.log.buf@.subrange(0, after_frag_log.len() as int) =~= after_frag_log);
                crate::log::lemma_parse_prefix(
                    after_frag_log,
                    self.log.buf@,
                    old(self).log.buf@.len() as int,
                );
                let newchain = seq![(frag, lid)] + old(self).arena.spec_chain_from(expected);
                assert(self.page_chain(pid) == newchain);
                assert(old(self).page_chain(pid) == old(self).arena.spec_chain_from(expected));
                assert(sp_chain_frags(newchain) =~= seq![frag_m] + sp_chain_frags(
                    old(self).page_chain(pid),
                ));
                assert(sp_chain_frags(newchain).drop_first() =~= sp_chain_frags(
                    old(self).page_chain(pid),
                ));
                assert forall|q: PageID| q != pid implies self.page_chain(q) == old(
                    self,
                ).page_chain(q) by {
                    assert(self.table.entry(q) == mid.table.entry(q));
                    assert(self.page_chain(q) == mid.page_chain(q));
                }
            }
            Ok(Some(nr))
        } else {
            let actual = match self.table.get(pid) {
                Some(h) => h,
                None => None,  // unreachable: the page is allocated
            };
            proof {
                assert forall|q: PageID| true implies self.page_chain(q) == mid.page_chain(q) by {
                }
            }
            Err(actual)
        }
    }

    /// Consolidates page `pid` if its chain has grown past the
    /// configured threshold: folds the chain once, logs the fold as a
    /// single base fragment, and swaps the whole chain for one holding
    /// just that base. The superseded nodes stay readable to any
    /// iterator still holding the old head. Returns whether a
    /// consolidation was installed; when it was, the page materializes
    /// exactly as before, from a chain of length one.
    pub fn maybe_consolidate(&mut self, pid: PageID) -> (r: bool)
        requires
            old(self).wf(),
            pid < old(self).next_pid,
        ensures
            final(self).wf(),
            final(self).next_pid == old(self).next_pid,
            final(self).config == old(self).config,
            final(self).arena.nodes@.len() >= old(self).arena.nodes@.len(),
            forall|q: PageID| q != pid ==> final(self).page_chain(q) == old(self).page_chain(q),
            !r ==> *final(self) == *old(self),
            old(self).page_chain(pid).len() > old(self).config.consolidate_threshold && 9
                + sp_frag_bytes(sp_base_of(old(self).page_view(pid))).len() <= u32::MAX ==> r,
            r ==> final(self).page_chain(pid).len() == 1 && final(self).log.buf@ == old(
                self,
            ).log.buf@ + sp_record_bytes(
                sp_install_payload(pid, sp_base_of(old(self).page_view(pid))),
            ),
            r && sp_view_pure(old(self).page_view(pid)) ==> final(self).page_view(pid) == old(
                self,
            ).page_view(pid),
    {
        let (view, h) = self.get_view(pid);
        let len: usize = match h {
            None => 0,
            Some(c) => chain_len_at(&self.arena, c),
        };
        proof {
            assert(len == old(self).page_chain(pid).len());
        }
        if len <= self.config.consolidate_threshold {
            return false;
        }
        let PageView { is_index, items, kids, hi, right } = view;
        let base = if is_index {
            Frag::IndexBase(kids, hi, right)
        } else {
            Frag::Base(items, hi, right)
        };
        proof {
            assert(base@ == sp_base_of(old(self).page_view(pid)));
        }
        let payload = encode_install(pid, &base);
        if payload.len() as u64 > u32::MAX as u64 {
            return false;
        }
        let ghost base_m = base@;
        let ghost old_view = old(self).page_view(pid);
        let lid = self.log.append(payload.as_slice());
        let mut one: Vec<(Frag, LogID)> = Vec::new();
        one.push((base, lid));
        let nh = self.arena.chain_of(one, None);
        let ghost mid = *self;
        proof {
            assert forall|q: PageID| true implies #[trigger] mid.page_chain(q) == old(
                self,
            ).page_chain(q) by {
                match old(self).table.entry(q) {
                    Some(hq) => {
                        match hq {
                            Some(n) => {
                                crate::stack::lemma_chain_at_grow(
                                    old(self).arena,
                                    mid.arena,
                                    n as int,
                                );
                            },
                            None => {},
                        }
                    },
                    None => {},
                }
            }
        }
        let ok = self.table.cas(pid, h, nh);
        proof {
            assert(ok);
            let newchain = self.arena.spec_chain_from(nh);
            assert(newchain =~= seq![(base, lid)]);
            assert(self.page_chain(pid) == newchain);
            assert(sp_chain_frags(newchain) =~= seq![base_m]);
            assert(sp_chain_frags(newchain).drop_first() =~= Seq::<FragModel>::empty());
            assert(self.page_view(pid) == sp_apply(base_m, sp_empty_view()));
            if sp_view_pure(old_view) {
                if old_view.is_index {
                    assert(self.page_view(pid).items =~= old_view.items);
                } else {
                    assert(self.page_view(pid).kids =~= old_view.kids);
                }
            }
            assert forall|q: PageID| q != pid implies self.page_chain(q) == old(
                self,
            ).page_chain(q) by {
                assert(self.table.entry(q) == mid.table.entry(q));
                assert(self.page_chain(q) == mid.page_chain(q));
            }
        }
        true
    }

    /// Durably notes that `pid` is now the tree's root, so recovery can
    /// find the root again. Chains are untouched.
    pub fn mark_root(&mut self, pid: PageID)
        requires
            old(self).wf(),
        ensures
            final(self).wf(),
            final(self).next_pid == old(self).next_pid,
            final(self).config == old(self).config,
            final(self).arena == old(self).arena,
            final(self).table == old(self).table,
            forall|q: PageID| final(self).page_chain(q) == old(self).page_chain(q),
            final(self).log.buf@ == old(self).log.buf@ + sp_record_bytes(sp_root_payload(pid)),
    {
        let mark = encode_root_mark(pid);
        let _ = self.log.append(mark.as_slice());
    }

    /// Links an already-logged fragment onto a page without appending
    /// anything: the replay step of recovery, where the record at `lid`
    /// is already part of the recovered image.
    fn link_recovered(&mut self, pid: PageID, frag: Frag, lid: LogID)
        requires
            old(self).wf(),
            pid < old(self).next_pid,
        ensures
            final(self).wf(),
            final(self).next_pid == old(self).next_pid,
            final(self).config == old(self).config,
            final(self).log == old(self).log,
            final(self).page_chain(pid) == seq![(frag, lid)] + old(self).page_chain(pid),
            forall|q: PageID| q != pid ==> final(self).page_chain(q) == old(self).page_chain(q),
    {
        let h = self.head_of(pid);
        let nr = crate::stack::raw(&mut self.arena, (frag, lid), h);
        let ghost mid = *self;
        proof {
            assert forall|q: PageID| true implies #[trigger] mid.page_chain(q) == old(
                self,
            ).page_chain(q) by {
                match old(self).table.entry(q) {
                    Some(hq) => {
                        match hq {
                            Some(n) => {
                                crate::stack::lemma_chain_at_grow(
                                    old(self).arena,
                                    mid.arena,
                                    n as int,
                                );
                            },
                            None => {},
                        }
                    },
                    None => {},
                }
            }
        }
        let ok = self.table.cas(pid, h, Some(nr));
        proof {
            assert(ok);
            assert(self.page_chain(pid) == seq![(frag, lid)] + old(self).arena.spec_chain_from(h));
            assert(old(self).page_chain(pid) == old(self).arena.spec_chain_from(h));
            assert forall|q: PageID| q != pid implies self.page_chain(q) == old(self).page_chain(
                q,
            ) by {
                assert(self.table.entry(q) == mid.table.entry(q));
                assert(self.page_chain(q) == mid.page_chain(q));
            }
        }
    }

    /// Rebuilds a pagecache from a log image: scans the valid prefix,
    /// collects the installs whose commit marks made it to disk, and
    /// replays exactly those, in log order, onto freshly allocated
    /// pages. An install whose link never committed is inert: its record
    /// is skipped, so a crash between append and link loses at most the
    /// unacknowledged operation and corrupts nothing. The result is
    /// pinned to the image: the log is the valid prefix, every page's
    /// chain is the replay of the committed installs, and the returned
    /// root is the last durably marked one, if it names a replayed page.
    pub fn recover_from(bytes: &[u8], config: Config) -> (r: (Pages, Option<PageID>))
        ensures
            ({
                let all = crate::log::sp_records(bytes@, 0);
                &&& r.0.wf()
                &&& r.0.config == config
                &&& r.0.log.buf@ == bytes@.subrange(0, crate::log::sp_valid_end(bytes@, 0))
                &&& r.0.next_pid as int == sp_replay_next(all, all)
                &&& forall|p: PageID|
                    sp_chain_frags(#[trigger] r.0.page_chain(p)) == sp_replay_chain(all, all, p)
                &&& r.1 == (match sp_root_mark(all) {
                    Some(rt) => if (rt as int) < sp_replay_next(all, all) {
                        Some(rt)
                    } else {
                        None
                    },
                    None => None,
                })
            }),
    {
        let ghost all = crate::log::sp_records(bytes@, 0);
        let rec = crate::log::recover(bytes);
        proof {
            assert(all == rec.records@.map_values(|p: (LogID, Vec<u8>)| (p.0 as int, p.1@)));
            assert(all.len() == rec.records@.len());
        }
        let mut committed: Vec<LogID> = Vec::new();
        let mut root: Option<PageID> = None;
        let mut t: usize = 0;
        proof {
            assert(all.take(0) =~= Seq::<(int, Seq<u8>)>::empty());
        }
        while t < rec.records.len()
            invariant
                0 <= t <= rec.records@.len(),
                all.len() == rec.records@.len(),
                all == rec.records@.map_values(|p: (LogID, Vec<u8>)| (p.0 as int, p.1@)),
                forall|c: LogID|
                    committed@.contains(c) <==> sp_committed(all.take(t as int), c as int),
                root == sp_root_mark(all.take(t as int)),
            decreases rec.records@.len() - t,
        {
            let ghost pre_committed = committed@;
            let ghost tt = t as int;
            let payload = &rec.records[t].1;
            proof {
                assert(all[tt] == (rec.records@[tt].0 as int, rec.records@[tt].1@));
                assert(all.take(tt + 1).drop_last() =~= all.take(tt));
                assert(all.take(tt + 1).last() == all[tt]);
            }
            if payload.len() == 9 {
                let tag = payload[0];
                if tag == 1u8 {
                    let sl = vstd::slice::slice_subrange(payload.as_slice(), 1, 9);
                    let c0 = vstd::bytes::u64_from_le_bytes(sl);
                    committed.push(c0);
                    proof {
                        assert(sl@ =~= payload@.subrange(1, 9));
                        assert(sp_parse_commit(all[tt].1) == Some(c0));
                        assert(sp_parse_root_mark(all[tt].1) is None);
                        lemma_commit_step(all, tt, pre_committed, c0);
                        assert(committed@ == pre_committed.push(c0));
                    }
                } else if tag == 2u8 {
                    let sl = vstd::slice::slice_subrange(payload.as_slice(), 1, 9);
                    let x = vstd::bytes::u64_from_le_bytes(sl);
                    proof {
                        assert(sl@ =~= payload@.subrange(1, 9));
                        assert(sp_parse_commit(all[tt].1) is None);
                        lemma_no_commit_step(all, tt, pre_committed);
                    }
                    if x <= usize::MAX as u64 {
                        root = Some(x as usize);
                        proof {
                            assert(sp_parse_root_mark(all[tt].1) == Some(x as usize));
                        }
                    } else {
                        proof {
                            assert(sp_parse_root_mark(all[tt].1) is None);
                        }
                    }
                } else {
                    proof {
                        assert(sp_parse_commit(all[tt].1) is None);
                        assert(sp_parse_root_mark(all[tt].1) is None);
                        lemma_no_commit_step(all, tt, pre_committed);
                    }
                }
            } else {
                proof {
                    assert(sp_parse_commit(all[tt].1) is None);
                    assert(sp_parse_root_mark(all[tt].1) is None);
                    lemma_no_commit_step(all, tt, pre_committed);
                }
            }
            t = t + 1;
        }
        proof {
            assert(all.take(all.len() as int) =~= all);
        }
        let mut pages = Pages::new(config);
        let mut t: usize = 0;
        proof {
            assert(all.take(0) =~= Seq::<(int, Seq<u8>)>::empty());
            assert forall|p: PageID|
                sp_chain_frags(#[trigger] pages.page_chain(p)) == sp_replay_chain(
                    all.take(0),
                    all,
                    p,
                ) by {
                assert(pages.page_chain(p) =~= Seq::<(Frag, LogID)>::empty());
                assert(sp_chain_frags(Seq::<(Frag, LogID)>::empty()) =~= Seq::<
                    FragModel,
                >::empty());
            }
        }
        while t < rec.records.len()
            invariant
                0 <= t <= rec.records@.len(),
                all.len() == rec.records@.len(),
                all == rec.records@.map_values(|p: (LogID, Vec<u8>)| (p.0 as int, p.1@)),
                forall|c: LogID| committed@.contains(c) <==> sp_committed(all, c as int),
                pages.wf(),
                pages.config == config,
                pages.log.buf@.len() == 0,
                pages.next_pid as int == sp_replay_next(all.take(t as int), all),
                forall|p: PageID|
                    sp_chain_frags(#[trigger] pages.page_chain(p)) == sp_replay_chain(
                        all.take(t as int),
                        all,
                        p,
                    ),
            decreases rec.records@.len() - t,
        {
            let ghost tt = t as int;
            let lid = rec.records[t].0;
            let payload = &rec.records[t].1;
            let mut applied: bool = false;
            proof {
                assert(all[tt] == (rec.records@[tt].0 as int, rec.records@[tt].1@));
                assert(all.take(tt + 1).drop_last() =~= all.take(tt));
                assert(all.take(tt + 1).last() == all[tt]);
            }
            if payload.len() >= 9 {
                let tag = payload[0];
                if tag == 0u8 && lid_committed(&committed, lid) {
                    let sl = vstd::slice::slice_subrange(payload.as_slice(), 1, 9);
                    let x = vstd::bytes::u64_from_le_bytes(sl);
                    proof {
                        assert(sl@ =~= payload@.subrange(1, 9));
                    }
                    if x <= usize::MAX as u64 {
                        let pid = x as usize;
                        let body = vstd::slice::slice_subrange(
                            payload.as_slice(),
                            9,
                            payload.len(),
                        );
                        proof {
                            assert(body@ =~= payload@.subrange(9, payload@.len() as int));
                        }
                        match crate::frag::decode_frag(body) {
                            None => {
                                proof {
                                    assert(sp_parse_install(all[tt].1) is None);
                                }
                            },
                            Some(frag) => {
                                proof {
                                    assert(sp_parse_install(all[tt].1) == Some((pid, frag@)));
                                    assert(sp_committed(all, lid as int));
                                }
                                if pid < usize::MAX {
                                    while pages.next_pid <= pid
                                        invariant
                                            pages.wf(),
                                            pages.config == config,
                                            pages.log.buf@.len() == 0,
                                            pid < usize::MAX,
                                            sp_replay_next(all.take(tt), all)
                                                <= pages.next_pid as int,
                                            pages.next_pid as int == sp_replay_next(
                                                all.take(tt),
                                                all,
                                            ) || pages.next_pid as int <= pid + 1,
                                            forall|p: PageID|
                                                sp_chain_frags(
                                                    #[trigger] pages.page_chain(p),
                                                ) == sp_replay_chain(all.take(tt), all, p),
                                        decreases pid + 1 - pages.next_pid,
                                    {
                                        let ghost newp = pages.next_pid;
                                        let _ = pages.allocate();
                                        proof {
                                            lemma_replay_chain_above(all.take(tt), all, newp);
                                            assert(sp_chain_frags(
                                                Seq::<(Frag, LogID)>::empty(),
                                            ) =~= Seq::<FragModel>::empty());
                                        }
                                    }
                                    let ghost mid = pages;
                                    pages.link_recovered(pid, frag, lid);
                                    applied = true;
                                    proof {
                                        assert(sp_applies(all[tt], all) == Some((pid, frag@)));
                                        assert(sp_chain_frags(pages.page_chain(pid)) =~= seq![
                                            frag@,
                                        ] + sp_chain_frags(mid.page_chain(pid)));
                                        assert forall|p: PageID|
                                            sp_chain_frags(#[trigger] pages.page_chain(p))
                                                == sp_replay_chain(
                                                all.take(tt + 1),
                                                all,
                                                p,
                                            ) by {
                                            if p != pid {
                                                assert(pages.page_chain(p) == mid.page_chain(p));
                                            }
                                        }
                                        assert(pages.next_pid as int == sp_replay_next(
                                            all.take(tt + 1),
                                            all,
                                        ));
                                    }
                                } else {
                                    proof {
                                        assert(sp_applies(all[tt], all) is None);
                                    }
                                }
                            },
                        }
                    } else {
                        proof {
                            assert(sp_parse_install(all[tt].1) is None);
                        }
                    }
                } else {
                    proof {
                        if sp_parse_install(all[tt].1) matches Some((pid0, f0)) {
                            assert(!committed@.contains(lid));
                            assert(!sp_committed(all, all[tt].0));
                        }
                    }
                }
            } else {
                proof {
                    assert(sp_parse_install(all[tt].1) is None);
                }
            }
            proof {
                if !applied {
                    assert(sp_applies(all[tt], all) is None);
                    assert(sp_replay_next(all.take(tt + 1), all) == sp_replay_next(
                        all.take(tt),
                        all,
                    ));
                    assert forall|p: PageID|
                        sp_chain_frags(#[trigger] pages.page_chain(p)) == sp_replay_chain(
                            all.take(tt + 1),
                            all,
                            p,
                        ) by {
                        assert(sp_replay_chain(all.take(tt + 1), all, p) == sp_replay_chain(
                            all.take(tt),
                            all,
                            p,
                        ));
                    }
                }
            }
            t = t + 1;
        }
        let ghost pre_log = pages;
        pages.log = rec.log;
        proof {
            assert(all.take(all.len() as int) =~= all);
            assert forall|p: PageID|
                sp_chain_frags(#[trigger] pages.page_chain(p)) == sp_replay_chain(
                    all,
                    all,
                    p,
                ) by {
                assert(pages.table == pre_log.table && pages.arena == pre_log.arena);
                assert(pages.page_chain(p) == pre_log.page_chain(p));
            }
        }
        let out_root = match root {
            Some(rt) => if rt < pages.next_pid {
                Some(rt)
            } else {
                None
            },
            None => None,
        };
        (pages, out_root)
    }
}

/// Pushing a commit mark for `c0` (record `tt` of `all`) keeps the
/// collected set exactly the commits of the prefix.
proof fn lemma_commit_step(all: Seq<(int, Seq<u8>)>, tt: int, pre: Seq<LogID>, c0: LogID)
    requires
        0 <= tt < all.len(),
        sp_parse_commit(all[tt].1) == Some(c0),
        forall|c: LogID| pre.contains(c) <==> sp_committed(all.take(tt), c as int),
    ensures
        forall|c: LogID| pre.push(c0).contains(c) <==> sp_committed(all.take(tt + 1), c as int),
{
    assert forall|c: LogID| pre.push(c0).contains(c) implies sp_committed(
        all.take(tt + 1),
        c as int,
    ) by {
        let j = choose|j: int| 0 <= j < pre.push(c0).len() && pre.push(c0)[j] == c;
        if j < pre.len() {
            assert(pre.contains(c));
            let i = choose|i: int|
                0 <= i < all.take(tt).len() && ((#[trigger] sp_parse_commit(
                    all.take(tt)[i].1,
                )) matches Some(cc) && cc as int == c as int);
            assert(all.take(tt + 1)[i] == all.take(tt)[i]);
            assert(sp_committed(all.take(tt + 1), c as int));
        } else {
            assert(c == c0);
            assert(all.take(tt + 1)[tt] == all[tt]);
            assert(sp_committed(all.take(tt + 1), c as int));
        }
    }
    assert forall|c: LogID| sp_committed(all.take(tt + 1), c as int) implies pre.push(
        c0,
    ).contains(c) by {
        let i = choose|i: int|
            0 <= i < all.take(tt + 1).len() && ((#[trigger] sp_parse_commit(
                all.take(tt + 1)[i].1,
            )) matches Some(cc) && cc as int == c as int);
        if i < tt {
            assert(all.take(tt)[i] == all.take(tt + 1)[i]);
            assert(sp_committed(all.take(tt), c as int));
            assert(pre.contains(c));
            let j = choose|j: int| 0 <= j < pre.len() && pre[j] == c;
            assert(pre.push(c0)[j] == c);
        } else {
            assert(all.take(tt + 1)[i] == all[tt]);
            assert(c as int == c0 as int);
            assert(c == c0);
            assert(pre.push(c0)[pre.len() as int] == c0);
        }
    }
}

/// A record with no commit payload adds nothing to the collected set.
proof fn lemma_no_commit_step(all: Seq<(int, Seq<u8>)>, tt: int, pre: Seq<LogID>)
    requires
        0 <= tt < all.len(),
        sp_parse_commit(all[tt].1) is None,
        forall|c: LogID| pre.contains(c) <==> sp_committed(all.take(tt), c as int),
    ensures
        forall|c: LogID| pre.contains(c) <==> sp_committed(all.take(tt + 1), c as int),
{
    assert forall|c: LogID| pre.contains(c) implies sp_committed(all.take(tt + 1), c as int) by {
        let i = choose|i: int|
            0 <= i < all.take(tt).len() && ((#[trigger] sp_parse_commit(
                all.take(tt)[i].1,
            )) matches Some(cc) && cc as int == c as int);
        assert(all.take(tt + 1)[i] == all.take(tt)[i]);
    }
    assert forall|c: LogID| sp_committed(all.take(tt + 1), c as int) implies pre.contains(c) by {
        let i = choose|i: int|
            0 <= i < all.take(tt + 1).len() && ((#[trigger] sp_parse_commit(
                all.take(tt + 1)[i].1,
            )) matches Some(cc) && cc as int == c as int);
        assert(all.take(tt + 1)[tt] == all[tt]);
        assert(i < tt);
        assert(all.take(tt)[i] == all.take(tt + 1)[i]);
        assert(sp_committed(all.take(tt), c as int));
    }
}

/// Whether the install record at `lid` has a commit mark.
fn lid_committed(committed: &Vec<LogID>, lid: LogID) -> (r: bool)
    ensures
        r == committed@.contains(lid),
{
    let mut t: usize = 0;
    while t < committed.len()
        invariant
            0 <= t <= committed@.len(),
            forall|j: int| 0 <= j < t ==> committed@[j] != lid,
        decreases committed@.len() - t,
    {
        if committed[t] == lid {
            proof {
                assert(committed@.contains(lid));
            }
            return true;
        }
        t = t + 1;
    }
    proof {
        assert(!committed@.contains(lid));
    }
    false
}

/// Builds the root-mark payload for `pid`.
fn encode_root_mark(pid: PageID) -> (r: Vec<u8>)
    ensures
        r@ == sp_root_payload(pid),
        r@.len() == 9,
{
    let mut out: Vec<u8> = Vec::new();
    out.push(2u8);
    let pidb = vstd::bytes::u64_to_le_bytes(pid as u64);
    crate::frag::push_all(&mut out, pidb.as_slice());
    proof {
        vstd::bytes::lemma_auto_spec_u64_to_from_le_bytes();
    }
    out
}

} // verus!
