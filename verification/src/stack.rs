//! A prepend-only stack of immutable nodes: the primitive for delta chains.
//!
//! Nodes live in an arena and are addressed by [`NodeRef`] handles; a node,
//! once allocated, is never mutated or removed, which models deferred
//! reclamation: a reader holding an old head keeps its whole captured chain
//! readable no matter how many newer nodes are installed. The head moves
//! only by compare-and-swap against an expected value, and every successful
//! install moves it to a freshly allocated node, so a handle that has been
//! superseded can never match the head again (no ABA).

use vstd::prelude::*;

verus! {

/// Handle to a node in a stack's arena.
pub type NodeRef = usize;

/// One immutable chain node: a value and a link to the next older node.
pub struct Node<T> {
    pub value: T,
    pub next: Option<NodeRef>,
}

/// A prepend-only stack with CAS installation.
pub struct Stack<T> {
    /// Arena of every node ever allocated; nodes are immutable once in.
    pub nodes: Vec<Node<T>>,
    /// The current head of the published chain.
    pub head: Option<NodeRef>,
}

/// The mathematical state of a stack: how many nodes were ever allocated,
/// where the head points, and the value sequence of the published chain,
/// newest first.
pub struct StackModel<T> {
    pub len: nat,
    pub head: Option<nat>,
    pub chain: Seq<T>,
}

/// A model head never points at or past the allocation horizon.
pub open spec fn model_wf<T>(m: StackModel<T>) -> bool {
    m.head matches Some(h) ==> h < m.len
}

/// The mathematical transition of `cas_push`: if the head equals the
/// expected handle, a fresh node (id = current allocation count) holding
/// `value` is prepended and becomes the head; otherwise nothing changes.
pub open spec fn spec_cas<T>(m: StackModel<T>, expected: Option<nat>, value: T) -> (StackModel<
    T,
>, bool) {
    if m.head == expected {
        (
            StackModel { len: m.len + 1, head: Some(m.len), chain: seq![value] + m.chain },
            true,
        )
    } else {
        (m, false)
    }
}

/// Of compare-and-swap pushes racing on the same expected head, exactly one
/// succeeds per head value: the winner moves the head to a freshly
/// allocated node, which cannot equal any handle allocated earlier, so the
/// loser's attempt fails, leaves the stack exactly as the winner published
/// it, and hands the loser the new head to retry from. No push is silently
/// lost: a failed attempt changes nothing.
pub proof fn lemma_cas_push_exclusive<T>(m: StackModel<T>, expected: Option<nat>, v1: T, v2: T)
    requires
        model_wf(m),
    ensures
        ({
            let (m1, ok1) = spec_cas(m, expected, v1);
            let (m2, ok2) = spec_cas(m1, expected, v2);
            &&& ok1 == (m.head == expected)
            &&& ok1 ==> m1.head == Some(m.len) && m1.head != expected && model_wf(m1)
            &&& ok1 ==> !ok2 && m2 == m1
            &&& !ok1 ==> m1 == m
        }),
{
}

/// Converts a handle to its model counterpart.
pub open spec fn opt_abs(r: Option<NodeRef>) -> Option<nat> {
    match r {
        Some(h) => Some(h as nat),
        None => None,
    }
}

impl<T> Stack<T> {
    /// Every node links only to a strictly older node, and the head points
    /// into the arena.
    pub open spec fn wf(self) -> bool {
        &&& (self.head matches Some(h) ==> h < self.nodes@.len())
        &&& forall|j: int|
            0 <= j < self.nodes@.len() ==> (#[trigger] self.nodes@[j].next matches Some(n) ==> n
                < j)
    }

    /// The value sequence, newest first, of the chain starting at node `i`.
    pub open spec fn spec_chain_at(self, i: int) -> Seq<T>
        decreases i,
    {
        if 0 <= i < self.nodes@.len() {
            let node = self.nodes@[i];
            match node.next {
                Some(n) => if (n as int) < i {
                    seq![node.value] + self.spec_chain_at(n as int)
                } else {
                    seq![node.value]
                },
                None => seq![node.value],
            }
        } else {
            Seq::empty()
        }
    }

    /// The value sequence of the chain starting at `r`.
    pub open spec fn spec_chain_from(self, r: Option<NodeRef>) -> Seq<T> {
        match r {
            Some(h) => self.spec_chain_at(h as int),
            None => Seq::empty(),
        }
    }

    /// The value sequence of the published chain, newest first.
    pub open spec fn spec_chain(self) -> Seq<T> {
        self.spec_chain_from(self.head)
    }

    /// The mathematical state of this stack.
    pub open spec fn abs(self) -> StackModel<T> {
        StackModel {
            len: self.nodes@.len(),
            head: opt_abs(self.head),
            chain: self.spec_chain(),
        }
    }

    /// A fresh stack: empty arena, no published chain.
    pub fn new() -> (s: Stack<T>)
        ensures
            s.wf(),
            s.nodes@.len() == 0,
            s.head is None,
            s.spec_chain() == Seq::<T>::empty(),
    {
        Stack { nodes: Vec::new(), head: None }
    }

    /// The current head handle.
    pub fn head_ref(&self) -> (r: Option<NodeRef>)
        ensures
            r == self.head,
    {
        self.head
    }

    /// The value held by node `r`.
    pub fn value_at(&self, r: NodeRef) -> (v: &T)
        requires
            r < self.nodes@.len(),
        ensures
            *v == self.nodes@[r as int].value,
    {
        &self.nodes[r].value
    }

    /// The link of node `r` to the next older node.
    pub fn next_at(&self, r: NodeRef) -> (n: Option<NodeRef>)
        requires
            r < self.nodes@.len(),
        ensures
            n == self.nodes@[r as int].next,
    {
        self.nodes[r].next
    }

    /// Unconditionally prepends a node holding `value` ahead of the current
    /// head and publishes it. Returns the fresh handle.
    pub fn push(&mut self, value: T) -> (r: NodeRef)
        requires
            old(self).wf(),
        ensures
            final(self).wf(),
            r == old(self).nodes@.len(),
            final(self).nodes@.len() == old(self).nodes@.len() + 1,
            forall|j: int|
                0 <= j < old(self).nodes@.len() ==> final(self).nodes@[j] == old(self).nodes@[j],
            final(self).head == Some(r),
            final(self).spec_chain() == seq![value] + old(self).spec_chain(),
    {
        let h = self.head;
        let nr = raw(self, value, h);
        let ghost mid = *self;
        self.head = Some(nr);
        proof {
            lemma_chain_at_grow(mid, *self, nr as int);
        }
        nr
    }

    /// Compare-and-swap push: prepends and publishes a node holding `value`
    /// only if the head still equals `expected`; otherwise changes nothing
    /// and returns the head actually observed, so the caller can re-read
    /// and retry. The whole effect, and the exclusivity it gives racing
    /// installers, is [`spec_cas`]; see [`lemma_cas_push_exclusive`].
    pub fn cas_push(&mut self, expected: Option<NodeRef>, value: T) -> (r: Result<
        NodeRef,
        Option<NodeRef>,
    >)
        requires
            old(self).wf(),
        ensures
            final(self).wf(),
            (final(self).abs(), r is Ok) == spec_cas(old(self).abs(), opt_abs(expected), value),
            expected == old(self).head ==> (r matches Ok(nr) && nr == old(self).nodes@.len()
                && final(self).head == Some(nr)
                && final(self).spec_chain() == seq![value] + old(self).spec_chain()
                && final(self).nodes@.len() == old(self).nodes@.len() + 1
                && (forall|j: int|
                    0 <= j < old(self).nodes@.len()
                        ==> final(self).nodes@[j] == old(self).nodes@[j])),
            expected != old(self).head ==> r == Err::<NodeRef, Option<NodeRef>>(old(self).head)
                && *final(self) == *old(self),
    {
        if opt_ref_eq(self.head, expected) {
            let nr = self.push(value);
            proof {
                assert(opt_abs(Some(nr)) == Some(old(self).nodes@.len() as nat));
            }
            Ok(nr)
        } else {
            Err(self.head)
        }
    }

    /// Compare-and-swap head replacement: points the head at the already
    /// allocated chain starting at `new` (or empties it) only if the head
    /// still equals `expected`. Used by consolidation to swap a long chain
    /// for a freshly built compact one; the superseded nodes stay readable
    /// to any reader that captured them.
    pub fn cas(&mut self, expected: Option<NodeRef>, new: Option<NodeRef>) -> (r: Result<
        (),
        Option<NodeRef>,
    >)
        requires
            old(self).wf(),
            new matches Some(n) ==> n < old(self).nodes@.len(),
        ensures
            final(self).wf(),
            final(self).nodes@ == old(self).nodes@,
            expected == old(self).head ==> r is Ok && final(self).head == new
                && final(self).spec_chain() == old(self).spec_chain_from(new),
            expected != old(self).head ==> r == Err::<(), Option<NodeRef>>(old(self).head)
                && *final(self) == *old(self),
    {
        if opt_ref_eq(self.head, expected) {
            let ghost pre = *self;
            self.head = new;
            proof {
                match new {
                    Some(n) => lemma_chain_at_grow(pre, *self, n as int),
                    None => {},
                }
            }
            Ok(())
        } else {
            Err(self.head)
        }
    }

    /// Allocates an unpublished chain holding `values` (first element
    /// newest), linked to `next` at its old end, and returns the handle of
    /// its newest node, or `next` itself if `values` is empty. The head
    /// and published chain are unchanged: a later CAS installs the result.
    pub fn chain_of(&mut self, values: Vec<T>, next: Option<NodeRef>) -> (r: Option<NodeRef>)
        requires
            old(self).wf(),
            next matches Some(n) ==> n < old(self).nodes@.len(),
        ensures
            final(self).wf(),
            final(self).nodes@.len() >= old(self).nodes@.len(),
            forall|j: int|
                0 <= j < old(self).nodes@.len() ==> final(self).nodes@[j] == old(self).nodes@[j],
            final(self).head == old(self).head,
            final(self).spec_chain() == old(self).spec_chain(),
            r matches Some(h) ==> h < final(self).nodes@.len(),
            final(self).spec_chain_from(r) == values@ + old(self).spec_chain_from(next),
            values@.len() > 0 ==> r is Some,
    {
        let ghost pre = *self;
        let mut vals = values;
        let mut cur: Option<NodeRef> = next;
        proof {
            assert(values@.take(values@.len() as int) =~= values@);
            assert(values@.skip(values@.len() as int) =~= Seq::<T>::empty());
            assert(Seq::<T>::empty() + pre.spec_chain_from(next) =~= pre.spec_chain_from(next));
        }
        while vals.len() > 0
            invariant
                self.wf(),
                pre.nodes@.len() <= self.nodes@.len(),
                forall|j: int| 0 <= j < pre.nodes@.len() ==> self.nodes@[j] == pre.nodes@[j],
                self.head == pre.head,
                cur matches Some(c) ==> c < self.nodes@.len(),
                vals@.len() < values@.len() ==> cur is Some,
                vals@.len() <= values@.len(),
                vals@ == values@.take(vals@.len() as int),
                self.spec_chain_from(cur) == values@.skip(vals@.len() as int)
                    + pre.spec_chain_from(next),
            decreases vals@.len(),
        {
            let ghost before = *self;
            let ghost old_vals = vals@;
            let v = vals.pop().unwrap();
            let ghost n = vals@.len() as int;
            proof {
                assert(vals@ == old_vals.take(n));
                assert(values@.take(n + 1).take(n) =~= values@.take(n));
                assert(v == values@.take(n + 1)[n]);
                assert(v == values@[n]);
            }
            let nr = raw(self, v, cur);
            proof {
                assert(self.spec_chain_at(nr as int) == seq![v] + before.spec_chain_from(cur));
                assert(seq![v] + (values@.skip(n + 1) + pre.spec_chain_from(next)) =~= values@.skip(
                    n,
                ) + pre.spec_chain_from(next));
            }
            cur = Some(nr);
        }
        proof {
            assert(values@.skip(0) =~= values@);
            if values@.len() == 0 {
                assert(values@ + pre.spec_chain_from(next) =~= pre.spec_chain_from(next));
            }
            match pre.head {
                Some(h) => lemma_chain_at_grow(pre, *self, h as int),
                None => {},
            }
        }
        cur
    }
}

/// Compares two node handles.
pub fn opt_ref_eq(a: Option<NodeRef>, b: Option<NodeRef>) -> (r: bool)
    ensures
        r == (a == b),
{
    match (a, b) {
        (None, None) => true,
        (Some(x), Some(y)) => x == y,
        _ => false,
    }
}

/// A forward (newest-to-oldest) iterator over the chain captured from a
/// head snapshot at creation time. Installs that happen after the snapshot
/// belong to newer nodes and are invisible to it, and it can be restarted
/// from any captured handle.
pub struct StackIter<'a, T> {
    pub stack: &'a Stack<T>,
    pub cursor: Option<NodeRef>,
}

impl<'a, T> StackIter<'a, T> {
    /// The values not yet yielded, newest first.
    pub open spec fn remaining(self) -> Seq<T> {
        self.stack.spec_chain_from(self.cursor)
    }

    /// The cursor points into the arena of a well-formed stack.
    pub open spec fn wf(self) -> bool {
        &&& self.stack.wf()
        &&& (self.cursor matches Some(c) ==> c < self.stack.nodes@.len())
    }

    /// An iterator over the chain starting at the captured handle `from`.
    pub fn new_from(stack: &'a Stack<T>, from: Option<NodeRef>) -> (it: StackIter<'a, T>)
        requires
            stack.wf(),
            from matches Some(c) ==> c < stack.nodes@.len(),
        ensures
            it.wf(),
            it.stack == stack,
            it.remaining() == stack.spec_chain_from(from),
    {
        StackIter { stack, cursor: from }
    }

    /// Yields the next (younger-to-older) value of the captured chain.
    pub fn next(&mut self) -> (r: Option<&'a T>)
        requires
            old(self).wf(),
        ensures
            final(self).wf(),
            final(self).stack == old(self).stack,
            old(self).remaining().len() == 0 ==> r is None
                && final(self).remaining() == old(self).remaining(),
            old(self).remaining().len() > 0 ==> (r matches Some(v)
                && *v == old(self).remaining()[0]
                && final(self).remaining() == old(self).remaining().drop_first()),
    {
        match self.cursor {
            None => None,
            Some(c) => {
                let st: &'a Stack<T> = self.stack;
                let v: &'a T = &st.nodes[c].value;
                self.cursor = st.nodes[c].next;
                proof {
                    assert(old(self).remaining() == seq![*v] + self.remaining());
                    assert((seq![*v] + self.remaining()).drop_first() =~= self.remaining());
                }
                Some(v)
            },
        }
    }
}

/// Chains already in the arena read the same after more nodes are
/// allocated: a chain depends only on the nodes at or below its head.
pub proof fn lemma_chain_at_grow<T>(pre: Stack<T>, post: Stack<T>, i: int)
    requires
        pre.nodes@.len() <= post.nodes@.len(),
        forall|j: int| 0 <= j < pre.nodes@.len() ==> post.nodes@[j] == pre.nodes@[j],
        i < pre.nodes@.len(),
    ensures
        post.spec_chain_at(i) == pre.spec_chain_at(i),
    decreases i,
{
    if 0 <= i {
        let node = pre.nodes@[i];
        match node.next {
            Some(n) => {
                if (n as int) < i {
                    lemma_chain_at_grow(pre, post, n as int);
                }
            },
            None => {},
        }
    }
}

/// Allocates a node holding `value`, linked to `next`, without publishing
/// it: the head and the published chain are unchanged until a CAS installs
/// the new node. Returns the fresh handle.
pub fn raw<T>(s: &mut Stack<T>, value: T, next: Option<NodeRef>) -> (r: NodeRef)
    requires
        old(s).wf(),
        next matches Some(n) ==> n < old(s).nodes@.len(),
    ensures
        final(s).wf(),
        r == old(s).nodes@.len(),
        final(s).nodes@.len() == old(s).nodes@.len() + 1,
        forall|j: int| 0 <= j < old(s).nodes@.len() ==> final(s).nodes@[j] == old(s).nodes@[j],
        final(s).head == old(s).head,
        final(s).spec_chain() == old(s).spec_chain(),
        final(s).spec_chain_at(r as int) == seq![value] + old(s).spec_chain_from(next),
        final(s).nodes@[r as int].next == next,
{
    let r = s.nodes.len();
    let ghost pre = *s;
    s.nodes.push(Node { value, next });
    proof {
        match pre.head {
            Some(h) => lemma_chain_at_grow(pre, *s, h as int),
            None => {},
        }
        match next {
            Some(n) => lemma_chain_at_grow(pre, *s, n as int),
            None => {},
        }
    }
    r
}

} // verus!
