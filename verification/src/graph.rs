//! The invariant-generation graph: equivalence classes of candidate terms
//! ordered by a domain relation.
//!
//! A node is a class `{rep} ∪ others`; its key is the key of its
//! representative. Edges are kept once, as ordered pairs `(lo, hi)`
//! meaning `lo ≤ hi`; a node's `above` and `below` sets are the two
//! projections of the edge set, so the symmetry between them is
//! structural. The graph's invariants: a representative is never among
//! its own others, classes are pairwise disjoint, and no edge is a
//! self-loop.

use vstd::prelude::*;

use crate::term::Term;

verus! {

/// Some term in the sequence has this key.
pub open spec fn seq_has_key(s: Seq<Term>, h: int) -> bool {
    exists|i: int| 0 <= i < s.len() && (#[trigger] s[i]).hkey == h
}

/// Appending a term adds exactly its key.
pub proof fn lemma_seq_has_key_push(s: Seq<Term>, t: Term, h: int)
    ensures
        seq_has_key(s.push(t), h) == (seq_has_key(s, h) || t.hkey == h),
{
    if seq_has_key(s.push(t), h) {
        let w = choose|i: int| 0 <= i < s.push(t).len() && (#[trigger] s.push(t)[i]).hkey == h;
        if w < s.len() {
            assert(s[w].hkey == h);
        }
    }
    if seq_has_key(s, h) {
        let w = choose|i: int| 0 <= i < s.len() && (#[trigger] s[i]).hkey == h;
        assert(s.push(t)[w].hkey == h);
    }
    if t.hkey == h {
        assert(s.push(t)[s.len() as int].hkey == h);
    }
}

/// Pairwise distinct keys.
pub open spec fn seq_keys_distinct(s: Seq<Term>) -> bool {
    forall|i: int, j: int|
        0 <= i < j < s.len() ==> (#[trigger] s[i]).hkey != (#[trigger] s[j]).hkey
}

/// A set of interned terms: a vector with pairwise distinct keys.
#[derive(Debug, Clone)]
pub struct TermSet {
    items: Vec<Term>,
}

impl TermSet {
    /// The items in insertion order.
    pub closed spec fn view_seq(&self) -> Seq<Term> {
        self.items@
    }

    /// The set holds a term with this key.
    pub open spec fn contains_key(&self, k: int) -> bool {
        seq_has_key(self.view_seq(), k)
    }

    /// Pairwise distinct keys.
    pub open spec fn wf(&self) -> bool {
        seq_keys_distinct(self.view_seq())
    }

    /// An empty set.
    pub fn mk() -> (r: Self)
        ensures
            r.wf(),
            r.view_seq() == Seq::<Term>::empty(),
    {
        TermSet { items: Vec::new() }
    }

    /// How many terms the set holds.
    pub fn len(&self) -> (r: usize)
        ensures
            r == self.view_seq().len(),
    {
        self.items.len()
    }

    /// The term at a position.
    pub fn index(&self, i: usize) -> (r: Term)
        requires
            i < self.view_seq().len(),
        ensures
            r == self.view_seq()[i as int],
    {
        self.items[i]
    }

    /// Whether the set holds this term.
    pub fn contains(&self, t: Term) -> (r: bool)
        ensures
            r == self.contains_key(t.hkey as int),
    {
        let n = self.items.len();
        let mut i: usize = 0;
        while i < n
            invariant
                n == self.view_seq().len(),
                0 <= i <= n,
                forall|j: int| 0 <= j < i ==> (#[trigger] self.view_seq()[j]).hkey != t.hkey,
            decreases n - i,
        {
            if self.items[i].hkey == t.hkey {
                return true;
            }
            i = i + 1;
        }
        false
    }

    /// Adds a term; a term already present is not added again.
    pub fn insert(&mut self, t: Term)
        requires
            old(self).wf(),
        ensures
            final(self).wf(),
            old(self).contains_key(t.hkey as int) ==> *final(self) == *old(self),
            !old(self).contains_key(t.hkey as int) ==> final(self).view_seq()
                == old(self).view_seq().push(t),
            forall|k: int| #[trigger] final(self).contains_key(k) == (old(self).contains_key(k)
                || k == t.hkey),
    {
        if !self.contains(t) {
            self.items.push(t);
            proof {
                let pre = old(self).view_seq();
                let s = self.view_seq();
                assert forall|i: int, j: int| 0 <= i < j < s.len() implies (
                #[trigger] s[i]).hkey != (#[trigger] s[j]).hkey by {
                    if j == s.len() - 1 {
                        assert(s[i] == pre[i]);
                    }
                }
                assert forall|k: int| #[trigger] self.contains_key(k) == (old(self).contains_key(
                    k,
                ) || k == t.hkey) by {
                    lemma_seq_has_key_push(pre, t, k);
                }
            }
        }
    }

    /// The set's keys, as a mathematical set.
    pub open spec fn key_set(&self) -> Set<int> {
        Set::new(|h: int| self.contains_key(h))
    }

    /// Every key points below `bound`.
    pub open spec fn keys_below(&self, bound: int) -> bool {
        forall|i: int|
            0 <= i < self.view_seq().len() ==> (#[trigger] self.view_seq()[i]).hkey < bound
    }

    /// A copy of the set.
    pub fn duplicate(&self) -> (r: TermSet)
        ensures
            r.view_seq() == self.view_seq(),
    {
        let mut items: Vec<Term> = Vec::new();
        let n = self.items.len();
        let mut i: usize = 0;
        while i < n
            invariant
                n == self.view_seq().len(),
                0 <= i <= n,
                items@ == self.view_seq().take(i as int),
            decreases n - i,
        {
            items.push(self.items[i]);
            proof {
                assert(items@ =~= self.view_seq().take(i + 1));
            }
            i = i + 1;
        }
        proof {
            assert(self.view_seq().take(n as int) =~= self.view_seq());
        }
        TermSet { items }
    }

    /// The set without the term of this key.
    pub fn remove_key(&self, k: usize) -> (r: TermSet)
        requires
            self.wf(),
        ensures
            r.wf(),
            forall|h: int| #[trigger] r.contains_key(h) == (self.contains_key(h) && h != k),
            r.view_seq().len() >= self.view_seq().len() - 1,
    {
        let mut out: Vec<Term> = Vec::new();
        let n = self.items.len();
        let mut i: usize = 0;
        while i < n
            invariant
                self.wf(),
                n == self.view_seq().len(),
                0 <= i <= n,
                seq_keys_distinct(out@),
                forall|h: int| #[trigger] seq_has_key(out@, h) == (seq_has_key(
                    self.view_seq().take(i as int),
                    h,
                ) && h != k),
                seq_has_key(self.view_seq().take(i as int), k as int) ==> out@.len() == i - 1,
                !seq_has_key(self.view_seq().take(i as int), k as int) ==> out@.len() == i,
                forall|x: int| 0 <= x < out@.len() ==> seq_has_key(
                    self.view_seq().take(i as int),
                    (#[trigger] out@[x]).hkey as int,
                ),
            decreases n - i,
        {
            let t = self.items[i];
            let ghost pre_out = out@;
            let ghost pre_take = self.view_seq().take(i as int);
            proof {
                assert(self.view_seq().take(i + 1) =~= pre_take.push(t));
            }
            if t.hkey != k {
                proof {
                    assert forall|x: int| 0 <= x < out@.len() implies (#[trigger] out@[x]).hkey
                        != t.hkey by {
                        if out@[x].hkey == t.hkey {
                            let y = choose|y: int|
                                0 <= y < pre_take.len() && (#[trigger] pre_take[y]).hkey
                                    == t.hkey as int;
                            assert(self.view_seq()[y].hkey == self.view_seq()[i as int].hkey);
                        }
                    }
                }
                out.push(t);
                proof {
                    assert forall|i2: int, j2: int| 0 <= i2 < j2 < out@.len() implies (
                    #[trigger] out@[i2]).hkey != (#[trigger] out@[j2]).hkey by {
                        if j2 == out@.len() - 1 {
                            assert(out@[i2] == pre_out[i2]);
                        }
                    }
                    assert forall|h: int| #[trigger] seq_has_key(out@, h) == (seq_has_key(
                        self.view_seq().take(i + 1),
                        h,
                    ) && h != k) by {
                        lemma_seq_has_key_push(pre_out, t, h);
                        lemma_seq_has_key_push(pre_take, t, h);
                    }
                    lemma_seq_has_key_push(pre_take, t, k as int);
                    assert forall|x: int| 0 <= x < out@.len() implies seq_has_key(
                        self.view_seq().take(i + 1),
                        (#[trigger] out@[x]).hkey as int,
                    ) by {
                        lemma_seq_has_key_push(pre_take, t, out@[x].hkey as int);
                        if x < out@.len() - 1 {
                            assert(out@[x] == pre_out[x]);
                            assert(seq_has_key(pre_take, pre_out[x].hkey as int));
                        }
                    }
                }
            } else {
                proof {
                    if seq_has_key(pre_take, k as int) {
                        let y = choose|y: int|
                            0 <= y < pre_take.len() && (#[trigger] pre_take[y]).hkey == k as int;
                        assert(self.view_seq()[y].hkey == self.view_seq()[i as int].hkey);
                        assert(false);
                    }
                    lemma_seq_has_key_push(pre_take, t, k as int);
                    assert forall|h: int| #[trigger] seq_has_key(out@, h) == (seq_has_key(
                        self.view_seq().take(i + 1),
                        h,
                    ) && h != k) by {
                        lemma_seq_has_key_push(pre_take, t, h);
                    }
                    assert forall|x: int| 0 <= x < out@.len() implies seq_has_key(
                        self.view_seq().take(i + 1),
                        (#[trigger] out@[x]).hkey as int,
                    ) by {
                        lemma_seq_has_key_push(pre_take, t, out@[x].hkey as int);
                    }
                }
            }
            i = i + 1;
        }
        proof {
            assert(self.view_seq().take(n as int) =~= self.view_seq());
        }
        TermSet { items: out }
    }

    /// The term with the least key: the deterministic pick.
    pub fn min_key_term(&self) -> (r: Option<Term>)
        requires
            self.wf(),
        ensures
            match r {
                Some(t) => self.contains_key(t.hkey as int) && forall|h: int|
                    self.contains_key(h) ==> t.hkey <= h,
                None => self.view_seq().len() == 0,
            },
    {
        if self.items.len() == 0 {
            return None;
        }
        let n = self.items.len();
        let mut best: Term = self.items[0];
        let mut i: usize = 1;
        while i < n
            invariant
                self.wf(),
                n == self.view_seq().len(),
                1 <= i <= n,
                self.contains_key(best.hkey as int),
                forall|j: int| 0 <= j < i ==> best.hkey <= (#[trigger] self.view_seq()[j]).hkey,
            decreases n - i,
        {
            let t = self.items[i];
            if t.hkey < best.hkey {
                best = t;
            }
            i = i + 1;
        }
        proof {
            assert forall|h: int| self.contains_key(h) implies best.hkey <= h by {
                let w = choose|j: int|
                    0 <= j < self.view_seq().len() && (#[trigger] self.view_seq()[j]).hkey == h;
                assert(best.hkey <= self.view_seq()[w].hkey);
            }
        }
        Some(best)
    }
}


/// One equivalence class: a representative, the other members, and
/// whether the class has been found stable at the current depth.
#[derive(Debug, Clone)]
pub struct Node {
    /// The class representative; its key is the node's key.
    pub rep: Term,
    /// The other members; the representative is not among them.
    pub others: TermSet,
    /// Whether the class is stable at the current depth.
    pub stable: bool,
}

impl Node {
    /// The node's key: the key of its representative.
    pub open spec fn key(&self) -> int {
        self.rep.hkey as int
    }

    /// The term with key `h` belongs to this class.
    pub open spec fn is_member(&self, h: int) -> bool {
        h == self.key() || self.others.contains_key(h)
    }

    /// The class is well formed: distinct members, and the representative
    /// is not among the others.
    pub open spec fn wf(&self) -> bool {
        self.others.wf() && !self.others.contains_key(self.key())
    }

    /// Every member's key points below `bound`.
    pub open spec fn keys_below(&self, bound: int) -> bool {
        self.rep.hkey < bound && self.others.keys_below(bound)
    }

    /// The class's member keys, as a mathematical set.
    pub open spec fn member_keys(&self) -> Set<int> {
        Set::new(|h: int| self.is_member(h))
    }
}

/// The invariant-generation graph: equivalence classes and ordering edges.
#[derive(Debug, Clone)]
pub struct Graph {
    nodes: Vec<Node>,
    edges: Vec<(usize, usize)>,
}

impl Graph {
    /// The classes.
    pub closed spec fn nodes_view(&self) -> Seq<Node> {
        self.nodes@
    }

    /// The ordering edges, each `(lo, hi)` meaning `lo ≤ hi`.
    pub closed spec fn edges_view(&self) -> Seq<(usize, usize)> {
        self.edges@
    }

    /// Some class has this key.
    pub open spec fn has_key(&self, k: int) -> bool {
        exists|i: int|
            0 <= i < self.nodes_view().len() && (#[trigger] self.nodes_view()[i]).key() == k
    }

    /// The edge `(lo, hi)` is in the graph.
    pub open spec fn has_edge(&self, lo: int, hi: int) -> bool {
        exists|i: int|
            0 <= i < self.edges_view().len() && (#[trigger] self.edges_view()[i]).0 == lo
                && self.edges_view()[i].1 == hi
    }

    /// The class keyed `h` is in `above` of the class keyed `k`.
    pub open spec fn in_above(&self, k: int, h: int) -> bool {
        self.has_edge(k, h)
    }

    /// The class keyed `h` is in `below` of the class keyed `k`.
    pub open spec fn in_below(&self, k: int, h: int) -> bool {
        self.has_edge(h, k)
    }

    /// The class keyed `k` is a root: nothing is above it.
    pub open spec fn is_root(&self, k: int) -> bool {
        self.has_key(k) && forall|h: int| !self.in_above(k, h)
    }

    /// Some class holds the term with key `h`.
    pub open spec fn some_member(&self, h: int) -> bool {
        exists|i: int|
            0 <= i < self.nodes_view().len() && (#[trigger] self.nodes_view()[i]).is_member(h)
    }

    /// The graph's invariants: every class is well formed, classes are
    /// pairwise disjoint, and every edge joins two distinct existing
    /// classes, once, and never in both directions — two classes each
    /// below the other would be one class.
    pub open spec fn wf(&self) -> bool {
        &&& forall|i: int|
            0 <= i < self.nodes_view().len() ==> (#[trigger] self.nodes_view()[i]).wf()
        &&& forall|i: int, j: int, h: int|
            0 <= i < j < self.nodes_view().len() ==> !((#[trigger] self.nodes_view()[i].is_member(
                h,
            )) && (#[trigger] self.nodes_view()[j].is_member(h)))
        &&& forall|i: int|
            0 <= i < self.edges_view().len() ==> (#[trigger] self.edges_view()[i]).0
                != self.edges_view()[i].1
        &&& forall|i: int|
            0 <= i < self.edges_view().len() ==> self.has_key(
                (#[trigger] self.edges_view()[i]).0 as int,
            ) && self.has_key(self.edges_view()[i].1 as int)
        &&& forall|i: int, j: int|
            0 <= i < j < self.edges_view().len() ==> (#[trigger] self.edges_view()[i]) != (
            #[trigger] self.edges_view()[j])
        &&& forall|i: int, j: int|
            0 <= i < self.edges_view().len() && 0 <= j < self.edges_view().len() ==> !((
            #[trigger] self.edges_view()[i]).0 == (#[trigger] self.edges_view()[j]).1
                && self.edges_view()[i].1 == self.edges_view()[j].0)
    }

    /// Every class's keys point below `bound`: all terms are interned in
    /// a factory with that many terms.
    pub open spec fn keys_below(&self, bound: int) -> bool {
        forall|i: int|
            0 <= i < self.nodes_view().len() ==> (#[trigger] self.nodes_view()[i]).keys_below(
                bound,
            )
    }

    /// The initial graph: one class holding every candidate term, and no
    /// edges.
    pub fn mk(rep: Term, others: TermSet) -> (r: Self)
        requires
            others.wf(),
            !others.contains_key(rep.hkey as int),
        ensures
            r.wf(),
            r.nodes_view().len() == 1,
            r.nodes_view()[0].rep == rep,
            r.nodes_view()[0].others == others,
            !r.nodes_view()[0].stable,
            r.edges_view().len() == 0,
    {
        let mut nodes: Vec<Node> = Vec::new();
        nodes.push(Node { rep, others, stable: false });
        Graph { nodes, edges: Vec::new() }
    }

    /// How many classes the graph holds.
    pub fn n_nodes(&self) -> (r: usize)
        ensures
            r == self.nodes_view().len(),
    {
        self.nodes.len()
    }

    /// The class at a position.
    pub fn node(&self, i: usize) -> (r: &Node)
        requires
            i < self.nodes_view().len(),
        ensures
            *r == self.nodes_view()[i as int],
    {
        &self.nodes[i]
    }

    /// How many ordering edges the graph holds.
    pub fn n_edges(&self) -> (r: usize)
        ensures
            r == self.edges_view().len(),
    {
        self.edges.len()
    }

    /// The edge at a position.
    pub fn edge(&self, i: usize) -> (r: (usize, usize))
        requires
            i < self.edges_view().len(),
        ensures
            r == self.edges_view()[i as int],
    {
        self.edges[i]
    }

    /// Marks the class at a position stable or unstable.
    pub fn set_stable(&mut self, i: usize, stable: bool)
        requires
            old(self).wf(),
            i < old(self).nodes_view().len(),
        ensures
            final(self).wf(),
            final(self).edges_view() == old(self).edges_view(),
            final(self).nodes_view() == old(self).nodes_view().update(
                i as int,
                Node {
                    rep: old(self).nodes_view()[i as int].rep,
                    others: old(self).nodes_view()[i as int].others,
                    stable,
                },
            ),
    {
        let rep = self.nodes[i].rep;
        // move the member set out without copying it
        let others = {
            let mut tmp = Node { rep, others: TermSet::mk(), stable };
            core::mem::swap(&mut tmp, &mut self.nodes[i]);
            tmp.others
        };
        self.nodes.set(i, Node { rep, others, stable });
        proof {
            let pre = old(self).nodes_view();
            let post = self.nodes_view();
            assert forall|x: int, j: int, h: int| 0 <= x < j < post.len() implies !((
            #[trigger] post[x].is_member(h)) && (#[trigger] post[j].is_member(h))) by {
                assert(pre[x].is_member(h) == post[x].is_member(h));
                assert(pre[j].is_member(h) == post[j].is_member(h));
            }
            assert forall|x: int| 0 <= x < post.len() implies self.has_key(
                (#[trigger] pre[x]).key(),
            ) by {
                assert(post[x].key() == pre[x].key());
            }
            assert forall|x: int| 0 <= x < self.edges_view().len() implies self.has_key(
                (#[trigger] self.edges_view()[x]).0 as int,
            ) && self.has_key(self.edges_view()[x].1 as int) by {
                assert(old(self).edges_view()[x] == self.edges_view()[x]);
                assert(old(self).has_key(self.edges_view()[x].0 as int));
                let w = choose|y: int|
                    0 <= y < pre.len() && (#[trigger] pre[y]).key()
                        == self.edges_view()[x].0 as int;
                assert(post[w].key() == self.edges_view()[x].0 as int);
                assert(old(self).has_key(self.edges_view()[x].1 as int));
                let w2 = choose|y: int|
                    0 <= y < pre.len() && (#[trigger] pre[y]).key()
                        == self.edges_view()[x].1 as int;
                assert(post[w2].key() == self.edges_view()[x].1 as int);
            }
        }
    }

    /// The position of the first class not yet stable.
    pub fn find_unstable(&self) -> (r: Option<usize>)
        ensures
            match r {
                Some(i) => i < self.nodes_view().len() && !self.nodes_view()[i as int].stable
                    && forall|j: int| 0 <= j < i ==> (#[trigger] self.nodes_view()[j]).stable,
                None => forall|j: int|
                    0 <= j < self.nodes_view().len() ==> (#[trigger] self.nodes_view()[j]).stable,
            },
    {
        let n = self.nodes.len();
        let mut i: usize = 0;
        while i < n
            invariant
                n == self.nodes_view().len(),
                0 <= i <= n,
                forall|j: int| 0 <= j < i ==> (#[trigger] self.nodes_view()[j]).stable,
            decreases n - i,
        {
            if !self.nodes[i].stable {
                return Some(i);
            }
            i = i + 1;
        }
        None
    }

    /// Whether anything is above the class keyed `k`.
    pub fn has_above(&self, k: usize) -> (r: bool)
        ensures
            r == exists|h: int| self.in_above(k as int, h),
    {
        let n = self.edges.len();
        let mut i: usize = 0;
        while i < n
            invariant
                n == self.edges_view().len(),
                0 <= i <= n,
                forall|j: int| 0 <= j < i ==> (#[trigger] self.edges_view()[j]).0 != k,
            decreases n - i,
        {
            if self.edges[i].0 == k {
                proof {
                    assert(self.in_above(k as int, self.edges_view()[i as int].1 as int));
                }
                return true;
            }
            i = i + 1;
        }
        proof {
            if exists|h: int| self.in_above(k as int, h) {
                let h = choose|h: int| self.in_above(k as int, h);
                let w = choose|x: int|
                    0 <= x < self.edges_view().len() && (#[trigger] self.edges_view()[x]).0
                        == k as int && self.edges_view()[x].1 == h;
                assert(false);
            }
        }
        false
    }

    /// The keys of the root classes: exactly those with an empty `above`.
    pub fn roots(&self) -> (r: Vec<usize>)
        ensures
            forall|x: int| 0 <= x < r@.len() ==> self.is_root((#[trigger] r@[x]) as int),
            forall|k: int| self.is_root(k) ==> exists|x: int| 0 <= x < r@.len() && (
            #[trigger] r@[x]) as int == k,
    {
        let mut out: Vec<usize> = Vec::new();
        let n = self.nodes.len();
        let mut i: usize = 0;
        while i < n
            invariant
                n == self.nodes_view().len(),
                0 <= i <= n,
                forall|x: int| 0 <= x < out@.len() ==> self.is_root((#[trigger] out@[x]) as int),
                forall|j: int| 0 <= j < i && self.is_root(
                    (#[trigger] self.nodes_view()[j]).key(),
                ) ==> exists|x: int| 0 <= x < out@.len() && (#[trigger] out@[x]) as int
                    == self.nodes_view()[j].key(),
            decreases n - i,
        {
            let k = self.nodes[i].rep.hkey;
            if !self.has_above(k) {
                proof {
                    assert(self.nodes_view()[i as int].key() == k as int);
                    assert(self.has_key(k as int));
                }
                let ghost pre = out@;
                out.push(k);
                proof {
                    assert forall|j: int| 0 <= j < i + 1 && self.is_root(
                        (#[trigger] self.nodes_view()[j]).key(),
                    ) implies exists|x: int| 0 <= x < out@.len() && (#[trigger] out@[x]) as int
                        == self.nodes_view()[j].key() by {
                        if j < i {
                            let x = choose|x: int|
                                0 <= x < pre.len() && (#[trigger] pre[x]) as int
                                    == self.nodes_view()[j].key();
                            assert(out@[x] as int == self.nodes_view()[j].key());
                        } else {
                            assert(out@[out@.len() - 1] as int == self.nodes_view()[j].key());
                        }
                    }
                }
            } else {
                proof {
                    assert forall|j: int| 0 <= j < i + 1 && self.is_root(
                        (#[trigger] self.nodes_view()[j]).key(),
                    ) implies exists|x: int| 0 <= x < out@.len() && (#[trigger] out@[x]) as int
                        == self.nodes_view()[j].key() by {
                        if j == i {
                            assert(!self.is_root(self.nodes_view()[j].key()));
                        }
                    }
                }
            }
            i = i + 1;
        }
        proof {
            assert forall|k: int| self.is_root(k) implies exists|x: int|
                0 <= x < out@.len() && (#[trigger] out@[x]) as int == k by {
                let w = choose|j: int|
                    0 <= j < self.nodes_view().len() && (#[trigger] self.nodes_view()[j]).key()
                        == k;
                assert(self.is_root(self.nodes_view()[w].key()));
            }
        }
        out
    }
}

/// No two classes sit above each other: the order hypothesis has no
/// two-cycle. (A cycle of length two would say both classes are equal,
/// which a split collapses into one class.)
pub proof fn lemma_no_mutual_order(g: Graph, a: int, b: int)
    requires
        g.wf(),
    ensures
        !(g.in_above(a, b) && g.in_above(b, a)),
{
    if g.has_edge(a, b) && g.has_edge(b, a) {
        let i = choose|i: int|
            0 <= i < g.edges_view().len() && (#[trigger] g.edges_view()[i]).0 == a
                && g.edges_view()[i].1 == b;
        let j = choose|j: int|
            0 <= j < g.edges_view().len() && (#[trigger] g.edges_view()[j]).0 == b
                && g.edges_view()[j].1 == a;
        assert(!(g.edges_view()[i].0 == g.edges_view()[j].1 && g.edges_view()[i].1
            == g.edges_view()[j].0));
    }
}

/// A bound on the graph's keys stays a bound when the factory grows.
pub proof fn lemma_keys_below_mono(g: Graph, b1: int, b2: int)
    requires
        g.keys_below(b1),
        b1 <= b2,
    ensures
        g.keys_below(b2),
{
    assert forall|i: int| 0 <= i < g.nodes_view().len() implies (
    #[trigger] g.nodes_view()[i]).keys_below(b2) by {
        assert(g.nodes_view()[i].keys_below(b1));
        let set = g.nodes_view()[i].others;
        assert forall|x: int| 0 <= x < set.view_seq().len() implies (
        #[trigger] set.view_seq()[x]).hkey < b2 by {
            assert(set.view_seq()[x].hkey < b1);
        }
    }
}

/// The `above` and `below` sets are symmetric: `B` is above `A` exactly
/// when `A` is below `B`.
pub proof fn lemma_above_below_symmetry(g: Graph, a: int, b: int)
    ensures
        g.in_above(a, b) <==> g.in_below(b, a),
{
}

/// No class lists its representative among its other members.
pub proof fn lemma_rep_not_in_others(g: Graph, i: int)
    requires
        g.wf(),
        0 <= i < g.nodes_view().len(),
    ensures
        !g.nodes_view()[i].others.contains_key(g.nodes_view()[i].key()),
{
}

/// No class sits above or below itself: the graph has no self-loops.
pub proof fn lemma_no_self_loops(g: Graph, k: int)
    requires
        g.wf(),
    ensures
        !g.in_above(k, k),
        !g.in_below(k, k),
{
    if g.has_edge(k, k) {
        let w = choose|i: int|
            0 <= i < g.edges_view().len() && (#[trigger] g.edges_view()[i]).0 == k
                && g.edges_view()[i].1 == k;
        assert(g.edges_view()[w].0 != g.edges_view()[w].1);
    }
}


/// One edge after a class is replaced by a chain: an edge out of the old
/// class now leaves the chain's greatest node, an edge into it now enters
/// the chain's least node.
pub open spec fn rewire_edge(e: (usize, usize), oldk: usize, hik: usize, lok: usize) -> (
    usize,
    usize,
) {
    (
        if e.0 == oldk {
            hik
        } else {
            e.0
        },
        if e.1 == oldk {
            lok
        } else {
            e.1
        },
    )
}

/// The ordering edges threading a chain of classes together.
pub open spec fn chain_edges(ch: Seq<Node>) -> Seq<(usize, usize)> {
    Seq::new((ch.len() - 1) as nat, |c: int| (ch[c].rep.hkey, ch[c + 1].rep.hkey))
}

impl Graph {
    /// Replaces the class at position `i` by a chain of classes that
    /// partition it, ordered least to greatest. Edges out of the old
    /// class now leave the chain's last node, edges into it now enter the
    /// chain's first node, and the chain is threaded with new edges.
    #[verifier::rlimit(100)]
    pub fn replace_with_chain(&mut self, i: usize, chain: Vec<Node>)
        requires
            old(self).wf(),
            i < old(self).nodes_view().len(),
            chain@.len() > 0,
            forall|c: int| 0 <= c < chain@.len() ==> (#[trigger] chain@[c]).wf(),
            forall|c1: int, c2: int, h: int|
                0 <= c1 < c2 < chain@.len() ==> !((#[trigger] chain@[c1].is_member(h)) && (
                #[trigger] chain@[c2].is_member(h))),
            forall|h: int|
                (exists|c: int| 0 <= c < chain@.len() && (#[trigger] chain@[c]).is_member(h))
                    == old(self).nodes_view()[i as int].is_member(h),
        ensures
            final(self).wf(),
            final(self).nodes_view() == old(self).nodes_view().remove(i as int) + chain@,
            final(self).edges_view() == Seq::new(
                old(self).edges_view().len(),
                |x: int|
                    rewire_edge(
                        old(self).edges_view()[x],
                        old(self).nodes_view()[i as int].rep.hkey,
                        chain@[chain@.len() - 1].rep.hkey,
                        chain@[0].rep.hkey,
                    ),
            ) + chain_edges(chain@),
    {
        let ghost pre = *old(self);
        let ghost ch = chain@;
        let oldk: usize = self.nodes[i].rep.hkey;
        let lok: usize = chain[0].rep.hkey;
        let hik: usize = chain[chain.len() - 1].rep.hkey;
        // rewire the old edges
        let ne = self.edges.len();
        let mut j: usize = 0;
        while j < ne
            invariant
                ne == self.edges@.len(),
                self.edges@.len() == pre.edges_view().len(),
                0 <= j <= ne,
                self.nodes@ == pre.nodes_view(),
                forall|x: int| 0 <= x < j ==> self.edges@[x] == rewire_edge(
                    #[trigger] pre.edges_view()[x],
                    oldk,
                    hik,
                    lok,
                ),
                forall|x: int| j <= x < ne ==> self.edges@[x] == #[trigger] pre.edges_view()[x],
            decreases ne - j,
        {
            let e = self.edges[j];
            let e0 = if e.0 == oldk {
                hik
            } else {
                e.0
            };
            let e1 = if e.1 == oldk {
                lok
            } else {
                e.1
            };
            self.edges.set(j, (e0, e1));
            j = j + 1;
        }
        // thread the chain
        let last: usize = chain.len() - 1;
        let mut c: usize = 0;
        while c < last
            invariant
                ch == chain@,
                ch.len() > 0,
                last == ch.len() - 1,
                0 <= c <= last,
                self.nodes@ == pre.nodes_view(),
                self.edges@.len() == pre.edges_view().len() + c,
                forall|x: int| 0 <= x < pre.edges_view().len() ==> self.edges@[x] == rewire_edge(
                    #[trigger] pre.edges_view()[x],
                    oldk,
                    hik,
                    lok,
                ),
                forall|x: int| 0 <= x < c ==> self.edges@[pre.edges_view().len() + x] == (
                (#[trigger] ch[x]).rep.hkey, ch[x + 1].rep.hkey),
            decreases chain@.len() - c,
        {
            let a: usize = chain[c].rep.hkey;
            let b: usize = chain[c + 1].rep.hkey;
            self.edges.push((a, b));
            c = c + 1;
        }
        // replace the class by the chain
        self.nodes.remove(i);
        let mut chain = chain;
        while chain.len() > 0
            invariant
                self.edges@.len() == pre.edges_view().len() + ch.len() - 1,
                forall|x: int| 0 <= x < pre.edges_view().len() ==> self.edges@[x] == rewire_edge(
                    #[trigger] pre.edges_view()[x],
                    oldk,
                    hik,
                    lok,
                ),
                forall|x: int| 0 <= x < ch.len() - 1 ==> self.edges@[pre.edges_view().len() + x]
                    == ((#[trigger] ch[x]).rep.hkey, ch[x + 1].rep.hkey),
                self.nodes@ + chain@ == pre.nodes_view().remove(i as int) + ch,
            decreases chain@.len(),
        {
            let nd = chain.remove(0);
            self.nodes.push(nd);
            proof {
                assert(self.nodes@ + chain@ =~= pre.nodes_view().remove(i as int) + ch);
            }
        }
        proof {
            assert(self.nodes@ =~= self.nodes@ + chain@);
            assert(self.nodes_view() =~= pre.nodes_view().remove(i as int) + ch);
            assert(self.edges_view() =~= Seq::new(
                pre.edges_view().len(),
                |x: int| rewire_edge(pre.edges_view()[x], oldk, hik, lok),
            ) + chain_edges(ch));
            self.lemma_chain_wf(pre, i as int, ch);
        }
    }

    /// The replaced graph satisfies the invariants again.
    proof fn lemma_chain_wf(&self, pre: Graph, i: int, ch: Seq<Node>)
        requires
            pre.wf(),
            0 <= i < pre.nodes_view().len(),
            ch.len() > 0,
            forall|c: int| 0 <= c < ch.len() ==> (#[trigger] ch[c]).wf(),
            forall|c1: int, c2: int, h: int|
                0 <= c1 < c2 < ch.len() ==> !((#[trigger] ch[c1].is_member(h)) && (
                #[trigger] ch[c2].is_member(h))),
            forall|h: int|
                (exists|c: int| 0 <= c < ch.len() && (#[trigger] ch[c]).is_member(h))
                    == pre.nodes_view()[i].is_member(h),
            self.nodes_view() == pre.nodes_view().remove(i) + ch,
            self.edges_view() == Seq::new(
                pre.edges_view().len(),
                |x: int|
                    rewire_edge(
                        pre.edges_view()[x],
                        pre.nodes_view()[i].rep.hkey,
                        ch[ch.len() - 1].rep.hkey,
                        ch[0].rep.hkey,
                    ),
            ) + chain_edges(ch),
        ensures
            self.wf(),
    {
        let pn = pre.nodes_view();
        let pe = pre.edges_view();
        let kept = pn.remove(i);
        let fnodes = self.nodes_view();
        let fe = self.edges_view();
        let oldk = pn[i].rep.hkey;
        let hik = ch[ch.len() - 1].rep.hkey;
        let lok = ch[0].rep.hkey;
        // every chain member is a member of the old class
        assert forall|c: int, h: int|
            0 <= c < ch.len() && #[trigger] ch[c].is_member(h) implies pn[i].is_member(h) by {
            assert(exists|c2: int| 0 <= c2 < ch.len() && (#[trigger] ch[c2]).is_member(h));
        }
        // kept classes and chain classes are disjoint
        assert forall|x: int, c: int, h: int|
            0 <= x < kept.len() && 0 <= c < ch.len() implies !((#[trigger] kept[x].is_member(h))
            && (#[trigger] ch[c].is_member(h))) by {
            if kept[x].is_member(h) && ch[c].is_member(h) {
                assert(pn[i].is_member(h));
                if x < i {
                    assert(kept[x] == pn[x]);
                    assert(!(pn[x].is_member(h) && pn[i].is_member(h)));
                } else {
                    assert(kept[x] == pn[x + 1]);
                    assert(!(pn[i].is_member(h) && pn[x + 1].is_member(h)));
                }
            }
        }
        // chain keys are pairwise distinct
        assert forall|c1: int, c2: int| 0 <= c1 < c2 < ch.len() implies (
        #[trigger] ch[c1]).rep.hkey != (#[trigger] ch[c2]).rep.hkey by {
            if ch[c1].rep.hkey == ch[c2].rep.hkey {
                assert(ch[c1].is_member(ch[c1].rep.hkey as int));
                assert(ch[c2].is_member(ch[c1].rep.hkey as int));
            }
        }
        // a kept key is never a chain key
        assert forall|x: int, c: int| 0 <= x < kept.len() && 0 <= c < ch.len() implies (
        #[trigger] kept[x]).rep.hkey != (#[trigger] ch[c]).rep.hkey by {
            if kept[x].rep.hkey == ch[c].rep.hkey {
                assert(kept[x].is_member(kept[x].rep.hkey as int));
                assert(ch[c].is_member(kept[x].rep.hkey as int));
            }
        }
        // a kept key is never the old key
        assert forall|x: int| 0 <= x < kept.len() implies (#[trigger] kept[x]).rep.hkey
            != oldk by {
            if kept[x].rep.hkey == oldk {
                assert(kept[x].is_member(oldk as int));
                assert(pn[i].is_member(oldk as int));
                if x < i {
                    assert(kept[x] == pn[x]);
                    assert(!(pn[x].is_member(oldk as int) && pn[i].is_member(oldk as int)));
                } else {
                    assert(kept[x] == pn[x + 1]);
                    assert(!(pn[i].is_member(oldk as int) && pn[x + 1].is_member(oldk as int)));
                }
            }
        }
        // an old edge endpoint is the old key or a kept key
        assert forall|k: int| pre.has_key(k) && k != oldk implies exists|x: int|
            0 <= x < kept.len() && (#[trigger] kept[x]).rep.hkey == k by {
            let w = choose|w: int| 0 <= w < pn.len() && (#[trigger] pn[w]).key() == k;
            if w < i {
                assert(kept[w].rep.hkey == k);
            } else {
                assert(kept[w - 1].rep.hkey == k);
            }
        }
        // every final node key is present
        assert forall|x: int| 0 <= x < fnodes.len() implies self.has_key(
            (#[trigger] fnodes[x]).key(),
        ) by {
            assert(fnodes[x].key() == fnodes[x].key());
        }
        // node well-formedness
        assert forall|x: int| 0 <= x < fnodes.len() implies (#[trigger] fnodes[x]).wf() by {
            if x < kept.len() {
                if x < i {
                    assert(fnodes[x] == pn[x]);
                } else {
                    assert(fnodes[x] == pn[x + 1]);
                }
            } else {
                assert(fnodes[x] == ch[x - kept.len()]);
            }
        }
        // pairwise disjointness of final classes
        assert forall|x: int, y: int, h: int| 0 <= x < y < fnodes.len() implies !((
        #[trigger] fnodes[x].is_member(h)) && (#[trigger] fnodes[y].is_member(h))) by {
            if fnodes[x].is_member(h) && fnodes[y].is_member(h) {
                if y < kept.len() {
                    let x2 = if x < i {
                        x
                    } else {
                        x + 1
                    };
                    let y2 = if y < i {
                        y
                    } else {
                        y + 1
                    };
                    assert(fnodes[x] == pn[x2]);
                    assert(fnodes[y] == pn[y2]);
                    assert(!(pn[x2].is_member(h) && pn[y2].is_member(h)));
                } else if x < kept.len() {
                    assert(fnodes[x] == kept[x]);
                    assert(fnodes[y] == ch[y - kept.len()]);
                } else {
                    assert(fnodes[x] == ch[x - kept.len()]);
                    assert(fnodes[y] == ch[y - kept.len()]);
                }
            }
        }
        // edge endpoints of rewired edges are old keys or chain ends
        assert forall|x: int| 0 <= x < fe.len() implies (#[trigger] fe[x]).0 != fe[x].1
            && self.has_key(fe[x].0 as int) && self.has_key(fe[x].1 as int) by {
            if x < pe.len() {
                let e = pe[x];
                assert(fe[x] == rewire_edge(e, oldk, hik, lok));
                assert(e.0 != e.1);
                assert(pre.has_key(e.0 as int) && pre.has_key(e.1 as int));
                // the final position of each endpoint
                if e.0 == oldk {
                    assert(fnodes[(kept.len() + ch.len() - 1) as int].rep.hkey == hik);
                    assert(self.has_key(hik as int));
                } else {
                    let w = choose|w: int|
                        0 <= w < kept.len() && (#[trigger] kept[w]).rep.hkey == e.0;
                    assert(fnodes[w].rep.hkey == e.0);
                    assert(self.has_key(e.0 as int));
                }
                if e.1 == oldk {
                    assert(fnodes[kept.len() as int].rep.hkey == lok);
                    assert(self.has_key(lok as int));
                } else {
                    let w = choose|w: int|
                        0 <= w < kept.len() && (#[trigger] kept[w]).rep.hkey == e.1;
                    assert(fnodes[w].rep.hkey == e.1);
                    assert(self.has_key(e.1 as int));
                }
                // no self-loop after rewiring
                if e.0 == oldk && e.1 != oldk {
                    let w = choose|w: int|
                        0 <= w < kept.len() && (#[trigger] kept[w]).rep.hkey == e.1;
                    assert(kept[w].rep.hkey != ch[ch.len() - 1].rep.hkey);
                }
                if e.0 != oldk && e.1 == oldk {
                    let w = choose|w: int|
                        0 <= w < kept.len() && (#[trigger] kept[w]).rep.hkey == e.0;
                    assert(kept[w].rep.hkey != ch[0].rep.hkey);
                }
            } else {
                let c = x - pe.len();
                assert(fe[x] == (ch[c].rep.hkey, ch[c + 1].rep.hkey));
                assert(ch[c].rep.hkey != ch[c + 1].rep.hkey);
                assert(fnodes[(kept.len() + c) as int].rep.hkey == ch[c].rep.hkey);
                assert(self.has_key(ch[c].rep.hkey as int));
                assert(fnodes[(kept.len() + c + 1) as int].rep.hkey == ch[c + 1].rep.hkey);
                assert(self.has_key(ch[c + 1].rep.hkey as int));
            }
        }
        // no duplicate edges
        assert forall|x: int, y: int| 0 <= x < y < fe.len() implies (#[trigger] fe[x]) != (
        #[trigger] fe[y]) by {
            if fe[x] == fe[y] {
                if y < pe.len() {
                    let e1 = pe[x];
                    let e2 = pe[y];
                    assert(fe[x] == rewire_edge(e1, oldk, hik, lok));
                    assert(fe[y] == rewire_edge(e2, oldk, hik, lok));
                    assert(e1 != e2);
                    self.lemma_rewire_injective(pre, i, ch, e1, e2);
                } else if x < pe.len() {
                    // a rewired edge never equals a chain edge: compare the
                    // second endpoints
                    let e = pe[x];
                    let c = y - pe.len();
                    assert(fe[y] == (ch[c].rep.hkey, ch[c + 1].rep.hkey));
                    assert(fe[x] == rewire_edge(e, oldk, hik, lok));
                    if e.1 == oldk {
                        // second endpoint is the chain head, never a later link
                        assert(ch[0].rep.hkey == ch[c + 1].rep.hkey);
                        assert(false);
                    } else {
                        let w = choose|w: int|
                            0 <= w < kept.len() && (#[trigger] kept[w]).rep.hkey == e.1;
                        assert(kept[w].rep.hkey != ch[c + 1].rep.hkey);
                    }
                } else {
                    let c1 = x - pe.len();
                    let c2 = y - pe.len();
                    assert(fe[x] == (ch[c1].rep.hkey, ch[c1 + 1].rep.hkey));
                    assert(fe[y] == (ch[c2].rep.hkey, ch[c2 + 1].rep.hkey));
                    assert(ch[c1].rep.hkey != ch[c2].rep.hkey);
                }
            }
        }
    }

    /// Rewiring two distinct old edges yields distinct edges.
    proof fn lemma_rewire_injective(&self, pre: Graph, i: int, ch: Seq<Node>, e1: (usize, usize), e2: (usize, usize))
        requires
            pre.wf(),
            0 <= i < pre.nodes_view().len(),
            ch.len() > 0,
            forall|c1: int, c2: int, h: int|
                0 <= c1 < c2 < ch.len() ==> !((#[trigger] ch[c1].is_member(h)) && (
                #[trigger] ch[c2].is_member(h))),
            forall|h: int|
                (exists|c: int| 0 <= c < ch.len() && (#[trigger] ch[c]).is_member(h))
                    == pre.nodes_view()[i].is_member(h),
            e1 != e2,
            e1.0 != e1.1,
            e2.0 != e2.1,
            pre.has_key(e1.0 as int),
            pre.has_key(e1.1 as int),
            pre.has_key(e2.0 as int),
            pre.has_key(e2.1 as int),
        ensures
            rewire_edge(e1, pre.nodes_view()[i].rep.hkey, ch[ch.len() - 1].rep.hkey,
                ch[0].rep.hkey) != rewire_edge(e2, pre.nodes_view()[i].rep.hkey,
                ch[ch.len() - 1].rep.hkey, ch[0].rep.hkey),
    {
        let pn = pre.nodes_view();
        let kept = pn.remove(i);
        let oldk = pn[i].rep.hkey;
        let hik = ch[ch.len() - 1].rep.hkey;
        let lok = ch[0].rep.hkey;
        assert forall|c: int, h: int|
            0 <= c < ch.len() && #[trigger] ch[c].is_member(h) implies pn[i].is_member(h) by {
            assert(exists|c2: int| 0 <= c2 < ch.len() && (#[trigger] ch[c2]).is_member(h));
        }
        // a pre key other than the old key is a kept key, and kept keys
        // are not chain keys
        assert forall|k: int| pre.has_key(k) && k != oldk && 0 <= k implies !pn[i].is_member(
            k,
        ) by {
            let w = choose|w: int| 0 <= w < pn.len() && (#[trigger] pn[w]).key() == k;
            assert(pn[w].is_member(k));
            if w != i {
                if w < i {
                    assert(!(pn[w].is_member(k) && pn[i].is_member(k)));
                } else {
                    assert(!(pn[i].is_member(k) && pn[w].is_member(k)));
                }
            }
        }
        let r1 = rewire_edge(e1, oldk, hik, lok);
        let r2 = rewire_edge(e2, oldk, hik, lok);
        if r1 == r2 {
            if e1.0 != e2.0 {
                if e1.0 == oldk {
                    assert(e2.0 != oldk);
                    assert(e2.0 == hik);
                    assert(ch[ch.len() - 1].is_member(hik as int));
                    assert(pn[i].is_member(hik as int));
                    assert(false);
                } else if e2.0 == oldk {
                    assert(e1.0 == hik);
                    assert(ch[ch.len() - 1].is_member(hik as int));
                    assert(pn[i].is_member(hik as int));
                    assert(false);
                } else {
                    assert(false);
                }
            } else {
                assert(e1.1 != e2.1);
                if e1.1 == oldk {
                    assert(e2.1 != oldk);
                    assert(e2.1 == lok);
                    assert(ch[0].is_member(lok as int));
                    assert(pn[i].is_member(lok as int));
                    assert(false);
                } else if e2.1 == oldk {
                    assert(e1.1 == lok);
                    assert(ch[0].is_member(lok as int));
                    assert(pn[i].is_member(lok as int));
                    assert(false);
                } else {
                    assert(false);
                }
            }
        }
    }
}

} // verus!
