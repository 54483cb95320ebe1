//! The lock-free B-link tree: ordered keys across pages.
//!
//! Traversal descends from the root; at an index page it follows the
//! child whose key range holds the target, and at any page whose high
//! bound excludes the target — the page is mid-split — it follows the
//! page's right-sibling link instead of failing. A split installs a
//! `ChildSplit` on the overflowing page first and a `ParentSplit` on the
//! parent second; the two installs are not atomic as a pair, and in the
//! window between them the right half is reachable only through the
//! right link (the half-split state, healed by the second install).

use vstd::prelude::*;

use crate::frag::{encode_frag, sp_frag_bytes, Frag};
use crate::page::{
    choose_child, clone_items, clone_key, clone_opt_key, items_lookup, items_split, sp_apply,
    sp_choose_child,
    sp_covers, sp_items_below, sp_items_del, sp_items_from, sp_items_lookup, sp_items_put,
    sp_view_pure, Config, PageView, Pages, ViewModel,
};
use crate::radix::Head;
use crate::PageID;

verus! {

/// Where a traversal from `pid` lands for `key`: the leaf that serves
/// the key, following child choices and right links, spending one unit
/// of fuel per step. `None` means the traversal dead-ends (a dangling
/// link or exhausted fuel); with fuel above the page count a well-formed
/// tree never exhausts it.
pub open spec fn sp_locate(p: Pages, pid: PageID, key: Seq<u8>, fuel: nat) -> Option<PageID>
    decreases fuel,
{
    if fuel == 0 {
        None
    } else if p.table.entry(pid) is None {
        None
    } else {
        let v = p.page_view(pid);
        if !sp_covers(v.hi, key) {
            match v.right {
                Some(rp) => sp_locate(p, rp, key, (fuel - 1) as nat),
                None => None,
            }
        } else if v.is_index {
            sp_locate(p, sp_choose_child(v.kids, key), key, (fuel - 1) as nat)
        } else {
            Some(pid)
        }
    }
}

/// The traversal fuel a tree over `p` gets: one step per page that
/// could ever be visited, plus one.
pub open spec fn sp_fuel(p: Pages) -> nat {
    p.next_pid as nat + 1
}

/// What a search of `key` from `root` returns: the key's binding in the
/// leaf the traversal lands on.
pub open spec fn sp_search(p: Pages, root: PageID, key: Seq<u8>) -> Option<Seq<u8>> {
    match sp_locate(p, root, key, sp_fuel(p)) {
        Some(leaf) => sp_items_lookup(p.page_view(leaf).items, key),
        None => None,
    }
}

/// Binding a key then looking it up yields the bound value, whatever
/// else the leaf holds.
pub proof fn lemma_put_lookup(items: Seq<(Seq<u8>, Seq<u8>)>, key: Seq<u8>, value: Seq<u8>)
    ensures
        sp_items_lookup(sp_items_put(items, key, value), key) == Some(value),
    decreases items.len(),
{
    if items.len() == 0 {
    } else if crate::bound::lex_lt(key, items[0].0) {
        crate::bound::lemma_lex_trichotomy(key, items[0].0);
    } else if key == items[0].0 {
    } else {
        lemma_put_lookup(items.drop_first(), key, value);
        assert((seq![items[0]] + sp_items_put(items.drop_first(), key, value)).drop_first()
            =~= sp_items_put(items.drop_first(), key, value));
    }
}

/// Splitting a leaf loses no binding: a key below the separator keeps
/// its binding among the kept items, and a key at or above it keeps its
/// binding among the items that move right. This is the heart of split
/// correctness: after a `ChildSplit` at `at` carving the upper keys off
/// to a new sibling, every key the page served is found either in the
/// narrowed page (when below the separator) or, through the right link
/// the split leaves behind, in the sibling — however many operations
/// interleave before the parent learns of the split.
pub proof fn lemma_split_lookup(items: Seq<(Seq<u8>, Seq<u8>)>, at: Seq<u8>, key: Seq<u8>)
    ensures
        crate::bound::lex_lt(key, at) ==> sp_items_lookup(sp_items_below(items, at), key)
            == sp_items_lookup(items, key),
        !crate::bound::lex_lt(key, at) ==> sp_items_lookup(sp_items_from(items, at), key)
            == sp_items_lookup(items, key),
    decreases items.len(),
{
    if items.len() == 0 {
    } else {
        lemma_split_lookup(items.drop_first(), at, key);
        let keep = crate::bound::lex_lt(items[0].0, at);
        if keep {
            assert((seq![items[0]] + sp_items_below(items.drop_first(), at)).drop_first()
                =~= sp_items_below(items.drop_first(), at));
        } else {
            assert((seq![items[0]] + sp_items_from(items.drop_first(), at)).drop_first()
                =~= sp_items_from(items.drop_first(), at));
        }
        if key == items[0].0 {
            if crate::bound::lex_lt(key, at) {
                assert(keep);
            } else {
                assert(!keep) by {
                    crate::bound::lemma_lex_trichotomy(items[0].0, at);
                }
            }
        }
    }
}

/// After a `ChildSplit` of view `v` at `at` toward page `rp`, with the
/// moved items becoming the sibling's state: a key the page covered is
/// either still covered, with its binding unchanged, or excluded by the
/// narrowed bound, in which case the right link points at `rp` and the
/// sibling holds its binding unchanged. The delayed `ParentSplit`
/// changes neither side, so the property holds throughout the
/// half-split window.
pub proof fn lemma_split_preserves_search(v: ViewModel, at: Seq<u8>, rp: PageID, key: Seq<u8>)
    requires
        sp_covers(v.hi, key),
    ensures
        ({
            let left = sp_apply(
                crate::frag::FragModel::ChildSplit { at, to: rp },
                v,
            );
            let moved = sp_items_from(v.items, at);
            &&& crate::bound::lex_lt(key, at) ==> sp_covers(left.hi, key) && sp_items_lookup(
                left.items,
                key,
            ) == sp_items_lookup(v.items, key)
            &&& !crate::bound::lex_lt(key, at) ==> !sp_covers(left.hi, key) && left.right == Some(
                rp,
            ) && sp_items_lookup(moved, key) == sp_items_lookup(v.items, key)
        }),
{
    lemma_split_lookup(v.items, at, key);
}

/// Traversal reads only each page's routing state — whether it is an
/// index page, its routing entries, its high bound and its right link —
/// never a leaf's items, so two states whose pages agree on routing
/// send every key down the same path. This is why a leaf install leaves
/// every search path intact.
pub proof fn lemma_locate_stable(p1: Pages, p2: Pages, pid: PageID, key: Seq<u8>, fuel: nat)
    requires
        forall|q: PageID| (#[trigger] p1.table.entry(q)) is Some <==> p2.table.entry(q) is Some,
        forall|q: PageID| (#[trigger] p1.page_view(q)).is_index == p2.page_view(q).is_index,
        forall|q: PageID| (#[trigger] p1.page_view(q)).kids == p2.page_view(q).kids,
        forall|q: PageID| (#[trigger] p1.page_view(q)).hi == p2.page_view(q).hi,
        forall|q: PageID| (#[trigger] p1.page_view(q)).right == p2.page_view(q).right,
    ensures
        sp_locate(p1, pid, key, fuel) == sp_locate(p2, pid, key, fuel),
    decreases fuel,
{
    if fuel == 0 {
    } else if p1.table.entry(pid) is None {
    } else {
        let v1 = p1.page_view(pid);
        if !sp_covers(v1.hi, key) {
            match v1.right {
                Some(rp) => {
                    lemma_locate_stable(p1, p2, rp, key, (fuel - 1) as nat);
                },
                None => {},
            }
        } else if v1.is_index {
            lemma_locate_stable(p1, p2, sp_choose_child(v1.kids, key), key, (fuel - 1) as nat);
        }
    }
}

/// The B-link tree: a pagecache and a root page id.
pub struct Tree {
    pub pages: Pages,
    pub root: PageID,
}

impl Tree {
    /// The pagecache is sound and the root is an allocated page.
    pub open spec fn wf(self) -> bool {
        &&& self.pages.wf()
        &&& (self.root as int) < self.pages.next_pid as int
    }

    /// What a search of `key` in this tree returns.
    pub open spec fn spec_search(self, key: Seq<u8>) -> Option<Seq<u8>> {
        sp_search(self.pages, self.root, key)
    }

    /// A fresh tree: one empty leaf as the root, durably marked, with
    /// nothing to find.
    pub fn new(config: Config) -> (r: Tree)
        ensures
            r.wf(),
            r.pages.next_pid == 1,
            r.root == 0,
            r.pages.config == config,
            r.pages.page_chain(0) == Seq::<(Frag, crate::LogID)>::empty(),
            forall|k: Seq<u8>| r.spec_search(k) is None,
    {
        let mut pages = Pages::new(config);
        let root = pages.allocate();
        pages.mark_root(root);
        let t = Tree { pages, root };
        proof {
            assert(crate::page::sp_chain_frags(Seq::<(Frag, crate::LogID)>::empty()) =~= Seq::<
                crate::frag::FragModel,
            >::empty());
            assert(t.pages.page_view(0) == crate::page::sp_empty_view());
            assert forall|k: Seq<u8>| t.spec_search(k) is None by {
                assert(sp_fuel(t.pages) == 2);
                assert(sp_locate(t.pages, 0, k, 2) == Some(0usize));
                assert(sp_items_lookup(Seq::<(Seq<u8>, Seq<u8>)>::empty(), k) is None);
            }
        }
        t
    }

    /// Reopens an engine from a log image: replays exactly the
    /// committed installs of the image's valid prefix and takes the
    /// last durably marked root (the allocation cursor's floor, or a
    /// freshly marked empty root when the image holds no pages).
    /// Anything after the first torn record, and any install whose link
    /// never committed, is gone — exactly the write-ahead guarantee.
    pub fn recover_from(bytes: &[u8], config: Config) -> (r: Tree)
        ensures
            r.wf(),
            ({
                let all = crate::log::sp_records(bytes@, 0);
                let nxt = crate::page::sp_replay_next(all, all);
                let prefix = bytes@.subrange(0, crate::log::sp_valid_end(bytes@, 0));
                &&& r.pages.config == config
                &&& forall|p: PageID|
                    crate::page::sp_chain_frags(#[trigger] r.pages.page_chain(p))
                        == crate::page::sp_replay_chain(all, all, p)
                &&& r.pages.next_pid as int == (if nxt == 0 {
                    1int
                } else {
                    nxt
                })
                &&& r.root as int == (match crate::page::sp_root_mark(all) {
                    Some(rt) => if (rt as int) < nxt {
                        rt as int
                    } else {
                        0int
                    },
                    None => 0int,
                })
                &&& nxt > 0 ==> r.pages.log.buf@ == prefix
                &&& nxt == 0 ==> r.pages.log.buf@ == prefix + crate::log::sp_record_bytes(
                    crate::page::sp_root_payload(0),
                )
            }),
    {
        let ghost all = crate::log::sp_records(bytes@, 0);
        let (mut pages, root) = Pages::recover_from(bytes, config);
        let rt: PageID = match root {
            Some(rt) => rt,
            None => {
                if pages.next_pid == 0 {
                    let ghost mid = pages;
                    let r0 = pages.allocate();
                    proof {
                        crate::page::lemma_replay_next_nonneg(all, all);
                        crate::page::lemma_replay_chain_above(all, all, r0);
                        assert(crate::page::sp_chain_frags(
                            Seq::<(Frag, crate::LogID)>::empty(),
                        ) =~= Seq::<crate::frag::FragModel>::empty());
                        assert forall|p: PageID|
                            crate::page::sp_chain_frags(#[trigger] pages.page_chain(p))
                                == crate::page::sp_replay_chain(all, all, p) by {
                            if p != r0 {
                                assert(pages.page_chain(p) == mid.page_chain(p));
                            }
                        }
                    }
                    pages.mark_root(r0);
                    r0
                } else {
                    0
                }
            },
        };
        Tree { pages, root: rt }
    }

    /// Descends from the root to the leaf serving `key`, returning the
    /// leaf's id, its folded view, the head the fold was taken at, and
    /// the last index page crossed (the leaf's parent, when the descent
    /// saw one).
    fn locate(&self, key: &[u8]) -> (r: Option<(PageID, PageView, Head, Option<PageID>)>)
        requires
            self.wf(),
        ensures
            match r {
                Some(t) => sp_locate(self.pages, self.root, key@, sp_fuel(self.pages)) == Some(
                    t.0,
                ) && t.0 < self.pages.next_pid && self.pages.table.entry(t.0) == Some(t.2)
                    && t.1@ == self.pages.page_view(t.0) && !t.1@.is_index && (
                t.3 matches Some(pp) ==> pp < self.pages.next_pid),
                None => sp_locate(self.pages, self.root, key@, sp_fuel(self.pages)) is None,
            },
    {
        let mut pid = self.root;
        let mut fuel: u128 = self.pages.next_pid as u128 + 1;
        let mut parent: Option<PageID> = None;
        loop
            invariant
                self.wf(),
                fuel <= sp_fuel(self.pages),
                sp_locate(self.pages, self.root, key@, sp_fuel(self.pages)) == sp_locate(
                    self.pages,
                    pid,
                    key@,
                    fuel as nat,
                ),
                parent matches Some(pp) ==> pp < self.pages.next_pid,
            decreases fuel,
        {
            if fuel == 0 {
                return None;
            }
            if pid >= self.pages.next_pid {
                return None;
            }
            let (view, h) = self.pages.get_view(pid);
            let covered = view.hi_bound().covers(key);
            if !covered {
                match view.right {
                    Some(rp) => {
                        pid = rp;
                        fuel = fuel - 1;
                    },
                    None => {
                        return None;
                    },
                }
            } else if view.is_index {
                let c = if view.kids.len() == 0 {
                    0
                } else {
                    choose_child(view.kids.as_slice(), key)
                };
                proof {
                    assert(c == sp_choose_child(self.pages.page_view(pid).kids, key@));
                }
                parent = Some(pid);
                pid = c;
                fuel = fuel - 1;
            } else {
                return Some((pid, view, h, parent));
            }
        }
    }

    /// Searches `key`: exactly the traversal-and-lookup the
    /// specification describes, following right links through pages that
    /// are mid-split.
    pub fn search(&self, key: &[u8]) -> (r: Option<Vec<u8>>)
        requires
            self.wf(),
        ensures
            match r {
                Some(v) => self.spec_search(key@) == Some(v@),
                None => self.spec_search(key@) is None,
            },
    {
        match self.locate(key) {
            None => None,
            Some((pid, view, _h, _parent)) => items_lookup(&view.items, key),
        }
    }

    /// Every binding at and right of page `pid`, leaf items in page
    /// order followed by everything its right-link chain serves.
    pub open spec fn spec_scan_from(p: Pages, pid: PageID, fuel: nat) -> Seq<(Seq<u8>, Seq<u8>)>
        decreases fuel,
    {
        if fuel == 0 {
            Seq::empty()
        } else if p.table.entry(pid) is None {
            Seq::empty()
        } else {
            let v = p.page_view(pid);
            let rest = match v.right {
                Some(rp) => Self::spec_scan_from(p, rp, (fuel - 1) as nat),
                None => Seq::<(Seq<u8>, Seq<u8>)>::empty(),
            };
            v.items + rest
        }
    }

    /// What a full scan returns: the traversal lands on the leftmost
    /// leaf (the leaf serving the empty key), and the scan walks right
    /// from it, collecting each leaf's items in order.
    pub open spec fn spec_scan(self) -> Seq<(Seq<u8>, Seq<u8>)> {
        match sp_locate(self.pages, self.root, Seq::empty(), sp_fuel(self.pages)) {
            Some(leaf) => Self::spec_scan_from(self.pages, leaf, sp_fuel(self.pages)),
            None => Seq::empty(),
        }
    }

    /// Scans the whole tree in key order: descends to the leftmost leaf
    /// and follows the leaf-level right links, which the splits left
    /// behind, across every sibling.
    pub fn scan(&self) -> (r: Vec<crate::page::KV>)
        requires
            self.wf(),
        ensures
            crate::page::kv_model(r@) == self.spec_scan(),
    {
        let mut out: Vec<crate::page::KV> = Vec::new();
        let empty_key: Vec<u8> = Vec::new();
        let start = self.locate(empty_key.as_slice());
        proof {
            assert(crate::page::kv_model(out@) =~= Seq::<(Seq<u8>, Seq<u8>)>::empty());
            assert(empty_key@ =~= Seq::<u8>::empty());
        }
        match start {
            None => out,
            Some((leaf, _view, _h, _parent)) => {
                let mut cur: Option<PageID> = Some(leaf);
                let mut fuel: u128 = self.pages.next_pid as u128 + 1;
                proof {
                    assert(fuel as nat == sp_fuel(self.pages));
                    assert(crate::page::kv_model(out@) + Self::spec_scan_from(
                        self.pages,
                        leaf,
                        sp_fuel(self.pages),
                    ) =~= Self::spec_scan_from(self.pages, leaf, sp_fuel(self.pages)));
                }
                loop
                    invariant
                        self.wf(),
                        fuel <= sp_fuel(self.pages),
                        sp_locate(self.pages, self.root, Seq::empty(), sp_fuel(self.pages))
                            == Some(leaf),
                        cur matches Some(c) ==> crate::page::kv_model(out@) + Self::spec_scan_from(
                            self.pages,
                            c,
                            fuel as nat,
                        ) == Self::spec_scan_from(
                            self.pages,
                            leaf,
                            sp_fuel(self.pages),
                        ),
                        cur is None ==> crate::page::kv_model(out@) == Self::spec_scan_from(
                            self.pages,
                            leaf,
                            sp_fuel(self.pages),
                        ),
                    decreases fuel,
                {
                    let c = match cur {
                        None => {
                            return out;
                        },
                        Some(c) => c,
                    };
                    if fuel == 0 || c >= self.pages.next_pid {
                        proof {
                            assert(Self::spec_scan_from(self.pages, c, fuel as nat)
                                =~= Seq::<(Seq<u8>, Seq<u8>)>::empty());
                            assert(crate::page::kv_model(out@) + Seq::<(
                                Seq<u8>,
                                Seq<u8>,
                            )>::empty() =~= crate::page::kv_model(out@));
                        }
                        return out;
                    }
                    let (view, _h) = self.pages.get_view(c);
                    let ghost pre = out@;
                    let mut items = clone_items(&view.items);
                    let ghost items_m = crate::page::kv_model(items@);
                    append_items(&mut out, items);
                    proof {
                        let rest = (match self.pages.page_view(c).right {
                            Some(rp) => Self::spec_scan_from(
                                self.pages,
                                rp,
                                (fuel - 1) as nat,
                            ),
                            None => Seq::<(Seq<u8>, Seq<u8>)>::empty(),
                        });
                        assert(Self::spec_scan_from(self.pages, c, fuel as nat)
                            == self.pages.page_view(c).items + rest);
                        assert(crate::page::kv_model(out@) =~= crate::page::kv_model(pre)
                            + items_m);
                        assert(crate::page::kv_model(pre) + (self.pages.page_view(c).items
                            + rest) =~= crate::page::kv_model(out@) + rest);
                        if view.right is None {
                            assert(crate::page::kv_model(out@) + rest =~= crate::page::kv_model(
                                out@,
                            ));
                        }
                    }
                    cur = view.right;
                    fuel = fuel - 1;
                }
            },
        }
    }

    /// Inserts `key` with `value`: installs a `Put` delta on the leaf
    /// the traversal reaches, then consolidates or splits that leaf if
    /// it outgrew its thresholds. Afterwards some leaf of the tree binds
    /// the key to the value — the original leaf, or the right sibling a
    /// split moved it to.
    pub fn insert(&mut self, key: Vec<u8>, value: Vec<u8>)
        requires
            old(self).wf(),
            key@.len() + value@.len() + 26 <= u32::MAX,
        ensures
            final(self).wf(),
            sp_locate(old(self).pages, old(self).root, key@, sp_fuel(old(self).pages)) is Some
                ==> (exists|lp: PageID|
                lp < final(self).pages.next_pid && sp_items_lookup(
                    #[trigger] final(self).pages.page_view(lp).items,
                    key@,
                ) == Some(value@)),
            sp_locate(old(self).pages, old(self).root, key@, sp_fuel(old(self).pages))
                matches Some(leaf) ==> (sp_items_put(
                old(self).pages.page_view(leaf).items,
                key@,
                value@,
            ).len() <= old(self).pages.config.split_threshold ==> final(self).spec_search(key@)
                == Some(value@)),
            sp_locate(old(self).pages, old(self).root, key@, sp_fuel(old(self).pages)) is None
                ==> *final(self) == *old(self),
    {
        let ghost km = key@;
        let ghost vm = value@;
        match self.locate(key.as_slice()) {
            None => {},
            Some((pid, view, h, parent)) => {
                let ghost leaf_items = self.pages.page_view(pid).items;
                let frag = Frag::Put(key, value);
                proof {
                    vstd::bytes::lemma_auto_spec_u64_to_from_le_bytes();
                }
                let res = self.pages.install(pid, frag, h);
                proof {
                    assert(res is Ok);
                    assert(self.pages.page_view(pid).items == sp_items_put(leaf_items, km, vm));
                    lemma_put_lookup(leaf_items, km, vm);
                }
                let ghost s1 = *self;
                self.rebalance(pid, parent, Ghost(km), Ghost(vm));
                proof {
                    if sp_items_put(leaf_items, km, vm).len()
                        <= old(self).pages.config.split_threshold {
                        assert(s1.pages.page_view(pid).items.len()
                            <= s1.pages.config.split_threshold);
                        assert forall|q: PageID|
                            (#[trigger] self.pages.table.entry(q)) is Some <==> old(
                                self,
                            ).pages.table.entry(q) is Some by {
                            assert((s1.pages.table.entry(q) is Some) <==> (old(
                                self,
                            ).pages.table.entry(q) is Some)) by {
                                assert(s1.pages.wf() && old(self).pages.wf());
                                assert(s1.pages.next_pid == old(self).pages.next_pid);
                            }
                        }
                        assert(s1.pages.page_view(pid) == sp_apply(
                            crate::frag::FragModel::Put { key: km, value: vm },
                            old(self).pages.page_view(pid),
                        ));
                        assert forall|q: PageID|
                            (#[trigger] self.pages.page_view(q)).is_index == old(
                                self,
                            ).pages.page_view(q).is_index && self.pages.page_view(q).kids == old(
                                self,
                            ).pages.page_view(q).kids && self.pages.page_view(q).hi == old(
                                self,
                            ).pages.page_view(q).hi && self.pages.page_view(q).right == old(
                                self,
                            ).pages.page_view(q).right by {
                            assert(self.pages.page_view(q) == s1.pages.page_view(q));
                            if q != pid {
                                assert(s1.pages.page_chain(q) == old(self).pages.page_chain(q));
                            }
                        }
                        assert(self.pages.next_pid == old(self).pages.next_pid);
                        assert(sp_fuel(self.pages) == sp_fuel(old(self).pages));
                        lemma_locate_stable(
                            self.pages,
                            old(self).pages,
                            old(self).root,
                            km,
                            sp_fuel(self.pages),
                        );
                        assert(self.root == old(self).root);
                        assert(sp_locate(self.pages, self.root, km, sp_fuel(self.pages)) == Some(
                            pid,
                        ));
                        assert(self.pages.page_view(pid).items == sp_items_put(
                            leaf_items,
                            km,
                            vm,
                        ));
                        assert(self.spec_search(km) == Some(vm));
                    }
                }
            },
        }
    }

    /// Deletes `key`: installs a `Del` delta on the leaf the traversal
    /// reaches and reports whether the key was bound there. The leaf's
    /// materialized items afterwards are exactly its old items with the
    /// key removed.
    pub fn delete(&mut self, key: &[u8]) -> (r: bool)
        requires
            old(self).wf(),
            key@.len() + 18 <= u32::MAX,
        ensures
            final(self).wf(),
            sp_locate(old(self).pages, old(self).root, key@, sp_fuel(old(self).pages))
                matches Some(leaf) ==> (r == (sp_items_lookup(
                old(self).pages.page_view(leaf).items,
                key@,
            ) is Some) && final(self).pages.page_view(leaf).items == sp_items_del(
                old(self).pages.page_view(leaf).items,
                key@,
            ) && final(self).spec_search(key@) == sp_items_lookup(
                sp_items_del(old(self).pages.page_view(leaf).items, key@),
                key@,
            )),
            sp_locate(old(self).pages, old(self).root, key@, sp_fuel(old(self).pages)) is None
                ==> *final(self) == *old(self),
    {
        match self.locate(key) {
            None => false,
            Some((pid, view, h, _parent)) => {
                let ghost km = key@;
                let ghost leaf_items = self.pages.page_view(pid).items;
                let was = match items_lookup(&view.items, key) {
                    Some(_) => true,
                    None => false,
                };
                let kc = key_to_vec(key);
                let frag = Frag::Del(kc);
                proof {
                    vstd::bytes::lemma_auto_spec_u64_to_from_le_bytes();
                }
                let res = self.pages.install(pid, frag, h);
                proof {
                    assert(res is Ok);
                    assert(self.pages.page_view(pid) == sp_apply(
                        crate::frag::FragModel::Del { key: km },
                        old(self).pages.page_view(pid),
                    ));
                    assert forall|q: PageID|
                        (#[trigger] self.pages.table.entry(q)) is Some <==> old(
                            self,
                        ).pages.table.entry(q) is Some by {
                        assert(self.pages.wf() && old(self).pages.wf());
                        assert(self.pages.next_pid == old(self).pages.next_pid);
                    }
                    assert forall|q: PageID|
                        (#[trigger] self.pages.page_view(q)).is_index == old(
                            self,
                        ).pages.page_view(q).is_index && self.pages.page_view(q).kids == old(
                            self,
                        ).pages.page_view(q).kids && self.pages.page_view(q).hi == old(
                            self,
                        ).pages.page_view(q).hi && self.pages.page_view(q).right == old(
                            self,
                        ).pages.page_view(q).right by {
                        if q != pid {
                            assert(self.pages.page_chain(q) == old(self).pages.page_chain(q));
                        }
                    }
                    assert(sp_fuel(self.pages) == sp_fuel(old(self).pages));
                    lemma_locate_stable(
                        self.pages,
                        old(self).pages,
                        old(self).root,
                        km,
                        sp_fuel(self.pages),
                    );
                    assert(sp_locate(self.pages, self.root, km, sp_fuel(self.pages)) == Some(
                        pid,
                    ));
                    assert(self.pages.page_view(pid).items == sp_items_del(leaf_items, km));
                }
                was
            },
        }
    }

    /// Consolidates the leaf if its chain outgrew the threshold, then
    /// splits it if its items outgrew theirs: a `ChildSplit` narrows the
    /// leaf and a new right sibling takes the moved items; a
    /// `ParentSplit` then tells the parent (or a fresh root is made when
    /// there is none). Whatever restructuring runs, a key bound in the
    /// leaf stays bound in some leaf.
    fn rebalance(&mut self, pid: PageID, parent: Option<PageID>, Ghost(km): Ghost<Seq<u8>>, Ghost(
        vm,
    ): Ghost<Seq<u8>>)
        requires
            old(self).wf(),
            pid < old(self).pages.next_pid,
            parent matches Some(pp) ==> pp < old(self).pages.next_pid,
            sp_items_lookup(old(self).pages.page_view(pid).items, km) == Some(vm),
        ensures
            final(self).wf(),
            exists|lp: PageID|
                lp < final(self).pages.next_pid && sp_items_lookup(
                    #[trigger] final(self).pages.page_view(lp).items,
                    km,
                ) == Some(vm),
            old(self).pages.page_view(pid).items.len()
                <= old(self).pages.config.split_threshold ==> (final(self).root == old(self).root
                && final(self).pages.next_pid == old(self).pages.next_pid && (forall|q: PageID|
                (#[trigger] final(self).pages.table.entry(q)) is Some <==> old(
                    self,
                ).pages.table.entry(q) is Some) && (forall|q: PageID|
                #[trigger] final(self).pages.page_view(q) == old(self).pages.page_view(q))),
    {
        let ghost pre = *self;
        let (view2, _h2) = self.pages.get_view(pid);
        if !view2.is_index && view2.kids.len() == 0 {
            proof {
                assert(view2@.kids =~= Seq::<(Seq<u8>, PageID)>::empty());
                assert(sp_view_pure(self.pages.page_view(pid)));
            }
            let _ = self.pages.maybe_consolidate(pid);
        }
        proof {
            assert(sp_items_lookup(self.pages.page_view(pid).items, km) == Some(vm));
            assert(self.pages.page_view(pid) == pre.pages.page_view(pid));
            assert forall|q: PageID|
                #[trigger] self.pages.page_view(q) == pre.pages.page_view(q) by {
                if q != pid {
                    assert(self.pages.page_chain(q) == pre.pages.page_chain(q));
                }
            }
            assert forall|q: PageID|
                (#[trigger] self.pages.table.entry(q)) is Some <==> pre.pages.table.entry(
                    q,
                ) is Some by {
                assert(self.pages.wf() && pre.pages.wf());
                assert(self.pages.next_pid == pre.pages.next_pid);
            }
        }
        let (view3, h3) = self.pages.get_view(pid);
        if view3.is_index || view3.items.len() <= self.pages.config.split_threshold
            || view3.items.len() < 2 || self.pages.next_pid >= usize::MAX - 1 {
            proof {
                witness(*self, pid, km, vm);
            }
            return ;
        }
        proof {
            assert(pre.pages.page_view(pid).items.len()
                > pre.pages.config.split_threshold);
        }
        let mid = view3.items.len() / 2;
        let at = clone_key(&view3.items[mid].0);
        let PageView { is_index: _, items, kids: _, hi, right } = view3;
        let ghost items_m = self.pages.page_view(pid).items;
        let (_below, moved) = items_split(items, at.as_slice());
        let base = Frag::Base(moved, clone_opt_key(&hi), right);
        if !frag_fits(&base) {
            proof {
                witness(*self, pid, km, vm);
            }
            return ;
        }
        let ghost s0 = *self;
        let rp = self.pages.allocate();
        let res_base = self.pages.install(rp, base, None);
        proof {
            assert(res_base is Ok);
            assert(self.pages.page_view(rp).items == sp_items_from(items_m, at@));
            assert(self.pages.page_view(pid).items == items_m);
        }
        let cs = Frag::ChildSplit(clone_key(&at), rp);
        if !frag_fits(&cs) {
            proof {
                witness(*self, pid, km, vm);
            }
            return ;
        }
        let ghost s1 = *self;
        let res_cs = self.pages.install(pid, cs, h3);
        proof {
            assert(res_cs is Ok);
            assert(self.pages.page_view(pid).items == sp_items_below(items_m, at@));
            assert(self.pages.page_view(rp).items == sp_items_from(items_m, at@));
            lemma_split_lookup(items_m, at@, km);
            if crate::bound::lex_lt(km, at@) {
                witness(*self, pid, km, vm);
            } else {
                witness(*self, rp, km, vm);
            }
        }
        let ghost s2 = *self;
        match parent {
            Some(pp) => {
                let ps = Frag::ParentSplit(clone_key(&at), rp);
                if frag_fits(&ps) {
                    let (_pv, ph) = self.pages.get_view(pp);
                    let _ = self.pages.install(pp, ps, ph);
                    proof {
                        assert(sp_items_lookup(self.pages.page_view(pid).items, km)
                            == sp_items_lookup(s2.pages.page_view(pid).items, km));
                        assert(sp_items_lookup(self.pages.page_view(rp).items, km)
                            == sp_items_lookup(s2.pages.page_view(rp).items, km));
                        if crate::bound::lex_lt(km, at@) {
                            witness(*self, pid, km, vm);
                        } else {
                            witness(*self, rp, km, vm);
                        }
                    }
                } else {
                    proof {
                        if crate::bound::lex_lt(km, at@) {
                            witness(*self, pid, km, vm);
                        } else {
                            witness(*self, rp, km, vm);
                        }
                    }
                }
            },
            None => {
                let np = self.pages.allocate();
                let mut rkids: Vec<crate::page::KP> = Vec::new();
                rkids.push((Vec::new(), pid));
                rkids.push((clone_key(&at), rp));
                let ib = Frag::IndexBase(rkids, None, None);
                if frag_fits(&ib) {
                    let res_ib = self.pages.install(np, ib, None);
                    proof {
                        assert(res_ib is Ok);
                    }
                    self.root = np;
                    self.pages.mark_root(np);
                }
                proof {
                    assert(sp_items_lookup(self.pages.page_view(pid).items, km)
                        == sp_items_lookup(s2.pages.page_view(pid).items, km));
                    assert(sp_items_lookup(self.pages.page_view(rp).items, km)
                        == sp_items_lookup(s2.pages.page_view(rp).items, km));
                    if crate::bound::lex_lt(km, at@) {
                        witness(*self, pid, km, vm);
                    } else {
                        witness(*self, rp, km, vm);
                    }
                }
            },
        }
    }
}

/// Supplies `lp` as the leaf that binds `km` to `vm`.
proof fn witness(t: Tree, lp: PageID, km: Seq<u8>, vm: Seq<u8>)
    requires
        lp < t.pages.next_pid,
        sp_items_lookup(t.pages.page_view(lp).items, km) == Some(vm),
    ensures
        exists|q: PageID|
            q < t.pages.next_pid && sp_items_lookup(
                #[trigger] t.pages.page_view(q).items,
                km,
            ) == Some(vm),
{
    assert(lp < t.pages.next_pid && sp_items_lookup(t.pages.page_view(lp).items, km) == Some(vm));
}

/// Whether a fragment's install record fits the log's length prefix.
fn frag_fits(f: &Frag) -> (r: bool)
    ensures
        r == (9 + sp_frag_bytes(f@).len() <= u32::MAX),
{
    let enc = encode_frag(f);
    enc.len() as u64 <= (u32::MAX - 9) as u64
}

/// Moves every pair of `src` onto the end of `dst`.
fn append_items(dst: &mut Vec<crate::page::KV>, src: Vec<crate::page::KV>)
    ensures
        crate::page::kv_model(final(dst)@) == crate::page::kv_model(old(dst)@)
            + crate::page::kv_model(src@),
{
    let ghost src_m = crate::page::kv_model(src@);
    let mut src = src;
    dst.append(&mut src);
    proof {
        assert(crate::page::kv_model(dst@) =~= crate::page::kv_model(old(dst)@) + src_m);
    }
}

/// Copies a key slice into an owned key.
fn key_to_vec(k: &[u8]) -> (r: Vec<u8>)
    ensures
        r@ == k@,
{
    let r = crate::log::copy_range(k, 0, k.len());
    proof {
        assert(k@.subrange(0, k@.len() as int) =~= k@);
    }
    r
}

} // verus!
