//! Template-based invariant generation: the learner that refines the
//! class graph and decides what to check and what to publish.
//!
//! The solver sessions run outside; the machine here holds the graph,
//! the depth counter and the decisions of the outer loop: which class to
//! stabilize next, what a check asserts, how a satisfiable answer splits
//! the graph, and what an unsatisfiable step answer lets the worker
//! publish. The graph is well formed after every one of these moves.

use vstd::prelude::*;

use crate::base::Offset2;
use crate::domain::{is_op2_entry, op2_intern_post, Domain};
use crate::eval::{EvalError, Model};
use crate::event::Technique;
use crate::graph::{lemma_keys_below_mono, Graph, Node, TermSet};
use crate::split::{split_class, split_post};
use crate::sys::{STerm, Sys};
use crate::term::{has_next, Factory, Op, Term, TermData};

verus! {

/// The invariant-generation technique.
#[derive(Debug, Clone, Copy, PartialEq, Eq, Structural)]
pub struct Tig;

impl Tig {
    /// The technique's identity.
    pub fn id(&self) -> (r: Technique)
        ensures
            r == Technique::Tig,
    {
        Technique::Tig
    }
}

/// The learner: the class graph over the candidate terms, the current
/// depth, and the run's parameters. The value domain is picked by the
/// caller, once, and passed to every model-driven move.
#[derive(Debug, Clone)]
pub struct InvGen {
    sys: Sys,
    graph: Graph,
    cnt: u16,
    max_k: Option<u16>,
    step_roll: bool,
}

impl InvGen {
    /// The system under analysis.
    pub closed spec fn sys_spec(&self) -> Sys {
        self.sys
    }

    /// The class graph.
    pub closed spec fn graph_spec(&self) -> Graph {
        self.graph
    }

    /// The current depth.
    pub closed spec fn cnt_spec(&self) -> int {
        self.cnt as int
    }

    /// The depth bound, if any.
    pub closed spec fn max_k_spec(&self) -> Option<u16> {
        self.max_k
    }

    /// Whether the step session unrolls alongside the base session.
    pub closed spec fn step_roll_spec(&self) -> bool {
        self.step_roll
    }

    /// The learner is well formed against a factory of `nterms` terms:
    /// the graph's invariants hold and every graph key is interned.
    pub open spec fn wf(&self, nterms: int) -> bool {
        &&& self.graph_spec().wf()
        &&& self.graph_spec().keys_below(nterms)
    }

    /// Builds the learner: one class holding every candidate term, its
    /// representative picked by the domain, at depth one. Fails exactly
    /// on an empty candidate set.
    pub fn mk<D: Domain>(
        f: &Factory,
        sys: Sys,
        candidates: TermSet,
        max_k: Option<u16>,
        step_roll: bool,
    ) -> (r: Result<InvGen, ()>)
        requires
            f.wf(),
            candidates.wf(),
            candidates.keys_below(f.n_terms()),
        ensures
            match r {
                Ok(m) => {
                    &&& m.wf(f.n_terms())
                    &&& m.sys_spec() == sys
                    &&& m.cnt_spec() == 1
                    &&& m.max_k_spec() == max_k
                    &&& m.step_roll_spec() == step_roll
                    &&& m.graph_spec().nodes_view().len() == 1
                    &&& m.graph_spec().edges_view().len() == 0
                    &&& D::rep_ok(*f, candidates.key_set(), m.graph_spec().nodes_view()[0].rep)
                    &&& forall|h: int| m.graph_spec().nodes_view()[0].is_member(h)
                        == candidates.contains_key(h)
                },
                Err(_) => candidates.view_seq().len() == 0,
            },
    {
        let ghost cands = candidates;
        match D::choose_rep(f, candidates) {
            Ok((rep, rest)) => {
                proof {
                    assert forall|x: int| 0 <= x < rest.view_seq().len() implies (
                    #[trigger] rest.view_seq()[x]).hkey < f.n_terms() by {
                        let h = rest.view_seq()[x].hkey as int;
                        assert(rest.contains_key(h));
                        assert(cands.contains_key(h));
                        let w = choose|w: int|
                            0 <= w < cands.view_seq().len() && (
                            #[trigger] cands.view_seq()[w]).hkey == h;
                        assert(cands.view_seq()[w].hkey < f.n_terms());
                    }
                    let w = choose|w: int|
                        0 <= w < cands.view_seq().len() && (#[trigger] cands.view_seq()[w]).hkey
                            == rep.hkey as int;
                    assert(cands.view_seq()[w].hkey < f.n_terms());
                }
                let graph = Graph::mk(rep, rest);
                Ok(InvGen { sys, graph, cnt: 1, max_k, step_roll })
            },
            Err(_) => Err(()),
        }
    }

    /// The system under analysis.
    pub fn sys(&self) -> (r: &Sys)
        ensures
            *r == self.sys_spec(),
    {
        &self.sys
    }

    /// The class graph, read-only.
    pub fn graph(&self) -> (r: &Graph)
        ensures
            *r == self.graph_spec(),
    {
        &self.graph
    }

    /// The current depth.
    pub fn cnt(&self) -> (r: u16)
        ensures
            r == self.cnt_spec(),
    {
        self.cnt
    }

    /// Whether the run is over: the depth passed its bound.
    pub fn done(&self) -> (r: bool)
        ensures
            r == match self.max_k_spec() {
                Some(m) => self.cnt_spec() > m,
                None => false,
            },
    {
        match self.max_k {
            Some(m) => self.cnt > m,
            None => false,
        }
    }

    /// The next class to stabilize: the first unstable one, if any. When
    /// none is left, the graph is stable at this depth.
    pub fn next_class(&self) -> (r: Option<usize>)
        ensures
            match r {
                Some(i) => i < self.graph_spec().nodes_view().len()
                    && !self.graph_spec().nodes_view()[i as int].stable,
                None => forall|j: int|
                    0 <= j < self.graph_spec().nodes_view().len() ==> (
                    #[trigger] self.graph_spec().nodes_view()[j]).stable,
            },
    {
        self.graph.find_unstable()
    }

    /// The check terms of one class: the equalities between the class's
    /// representative and each other member, whose conjunction the base
    /// and step checks try to refute.
    pub fn class_check_terms<D: Domain>(&self, i: usize, f: &mut Factory) -> (r: Vec<Term>)
        requires
            old(f).wf(),
            self.wf(old(f).n_terms()),
            i < self.graph_spec().nodes_view().len(),
        ensures
            final(f).wf(),
            final(f).extends(*old(f)),
            final(f).syms_view() == old(f).syms_view(),
            final(f).csts_view() == old(f).csts_view(),
            self.wf(final(f).n_terms()),
            r@.len() == self.graph_spec().nodes_view()[i as int].others.view_seq().len(),
            forall|j: int|
                0 <= j < r@.len() ==> final(f).term_valid(#[trigger] r@[j]) && is_op2_entry(
                    final(f).term_at(r@[j].hkey as int),
                    Op::Eq,
                    self.graph_spec().nodes_view()[i as int].rep,
                    self.graph_spec().nodes_view()[i as int].others.view_seq()[j],
                ),
    {
        let node = self.graph.node(i);
        let rep = node.rep;
        let others = node.others.duplicate();
        let mut out: Vec<Term> = Vec::new();
        let n = others.len();
        let mut j: usize = 0;
        proof {
            assert(self.graph_spec().nodes_view()[i as int].keys_below(old(f).n_terms()));
        }
        while j < n
            invariant
                old(f).wf(),
                f.wf(),
                f.extends(*old(f)),
                f.syms_view() == old(f).syms_view(),
                f.csts_view() == old(f).csts_view(),
                self.wf(old(f).n_terms()),
                i < self.graph_spec().nodes_view().len(),
                rep == self.graph_spec().nodes_view()[i as int].rep,
                others.view_seq() == self.graph_spec().nodes_view()[i as int].others.view_seq(),
                self.graph_spec().nodes_view()[i as int].keys_below(old(f).n_terms()),
                old(f).n_terms() <= f.n_terms(),
                n == others.view_seq().len(),
                0 <= j <= n,
                out@.len() == j,
                forall|x: int|
                    0 <= x < j ==> f.term_valid(#[trigger] out@[x]) && is_op2_entry(
                        f.term_at(out@[x].hkey as int),
                        Op::Eq,
                        rep,
                        others.view_seq()[x],
                    ),
            decreases n - j,
        {
            let other = others.index(j);
            proof {
                assert(self.graph_spec().nodes_view()[i as int].others.view_seq()[j as int].hkey
                    < old(f).n_terms());
            }
            let ghost pre = *f;
            let t = D::mk_eq(f, rep, other);
            proof {
                assert forall|x: int|
                    0 <= x < j implies f.term_valid(#[trigger] out@[x]) && is_op2_entry(
                    f.term_at(out@[x].hkey as int),
                    Op::Eq,
                    rep,
                    others.view_seq()[x],
                ) by {
                    assert(pre.terms_view().is_prefix_of(f.terms_view()));
                    assert(f.term_at(out@[x].hkey as int) == pre.term_at(out@[x].hkey as int));
                }
            }
            out.push(t);
            j = j + 1;
        }
        proof {
            lemma_keys_below_mono(self.graph_spec(), old(f).n_terms(), f.n_terms());
        }
        out
    }

    /// The check term of one ordering edge: the ordering between the two
    /// representatives the edge joins, unless the domain deems it
    /// vacuous.
    pub fn edge_check_term<D: Domain>(&self, e: usize, f: &mut Factory) -> (r: Option<Term>)
        requires
            old(f).wf(),
            self.wf(old(f).n_terms()),
            e < self.graph_spec().edges_view().len(),
        ensures
            final(f).wf(),
            final(f).extends(*old(f)),
            self.wf(final(f).n_terms()),
            match r {
                Some(t) => op2_intern_post(
                    *old(f),
                    *final(f),
                    D::cmp_op(),
                    Term { hkey: self.graph_spec().edges_view()[e as int].0 },
                    Term { hkey: self.graph_spec().edges_view()[e as int].1 },
                    t,
                ),
                None => *final(f) == *old(f) && !D::cmp_possible(
                    *old(f),
                    Term { hkey: self.graph_spec().edges_view()[e as int].0 },
                    Term { hkey: self.graph_spec().edges_view()[e as int].1 },
                ),
            },
    {
        let (lo, hi) = self.graph.edge(e);
        proof {
            let g = self.graph_spec();
            assert(g.has_key(lo as int) && g.has_key(hi as int));
            let w1 = choose|w: int|
                0 <= w < g.nodes_view().len() && (#[trigger] g.nodes_view()[w]).key() == lo as int;
            assert(g.nodes_view()[w1].keys_below(old(f).n_terms()));
            let w2 = choose|w: int|
                0 <= w < g.nodes_view().len() && (#[trigger] g.nodes_view()[w]).key() == hi as int;
            assert(g.nodes_view()[w2].keys_below(old(f).n_terms()));
        }
        let r = D::mk_cmp(f, Term { hkey: lo }, Term { hkey: hi });
        proof {
            lemma_keys_below_mono(self.graph_spec(), old(f).n_terms(), f.n_terms());
        }
        r
    }

    /// The check term of one class, ready to gate behind an activation
    /// literal: the negation of the conjunction of the class's
    /// equalities, together with the equalities themselves. Nothing for
    /// a singleton class, which has nothing left to check.
    pub fn class_check_query<D: Domain>(&self, i: usize, f: &mut Factory) -> (r: Option<
        (Term, Vec<Term>),
    >)
        requires
            old(f).wf(),
            self.wf(old(f).n_terms()),
            i < self.graph_spec().nodes_view().len(),
        ensures
            final(f).wf(),
            final(f).extends(*old(f)),
            self.wf(final(f).n_terms()),
            match r {
                Some(q) => {
                    &&& q.1@.len()
                        == self.graph_spec().nodes_view()[i as int].others.view_seq().len()
                    &&& q.1@.len() > 0
                    &&& forall|j: int|
                        0 <= j < q.1@.len() ==> final(f).term_valid(#[trigger] q.1@[j])
                            && is_op2_entry(
                            final(f).term_at(q.1@[j].hkey as int),
                            Op::Eq,
                            self.graph_spec().nodes_view()[i as int].rep,
                            self.graph_spec().nodes_view()[i as int].others.view_seq()[j],
                        )
                    &&& final(f).term_valid(q.0)
                    &&& match final(f).term_at(q.0.hkey as int) {
                        TermData::Op(o, args) => o == Op::Not && args@.len() == 1 && is_conj_of(
                            *final(f),
                            args@[0],
                            q.1@,
                        ),
                        _ => false,
                    }
                },
                None => self.graph_spec().nodes_view()[i as int].others.view_seq().len() == 0,
            },
    {
        let eqs = self.class_check_terms::<D>(i, f);
        if eqs.len() == 0 {
            return None;
        }
        let ghost mid = *f;
        let conj = build_conj(f, &eqs);
        let ghost mid2 = *f;
        let neg = crate::domain::intern_op1(f, Op::Not, conj);
        proof {
            lemma_keys_below_mono(self.graph_spec(), mid.n_terms(), f.n_terms());
            assert(mid.terms_view().is_prefix_of(f.terms_view())) by {
                assert(mid.terms_view().is_prefix_of(mid2.terms_view()));
                assert(mid2.terms_view().is_prefix_of(f.terms_view()));
                assert(mid.terms_view() =~= f.terms_view().take(mid.n_terms()));
            }
            lemma_conj_of_prefix(mid2, *f, conj, eqs@);
            assert forall|j: int|
                0 <= j < eqs@.len() implies f.term_valid(#[trigger] eqs@[j]) && is_op2_entry(
                f.term_at(eqs@[j].hkey as int),
                Op::Eq,
                self.graph_spec().nodes_view()[i as int].rep,
                self.graph_spec().nodes_view()[i as int].others.view_seq()[j],
            ) by {
                assert(f.term_at(eqs@[j].hkey as int) == mid.term_at(eqs@[j].hkey as int));
            }
        }
        Some((neg, eqs))
    }

    /// Digests a satisfiable check on a class: the model splits it into
    /// the chain of its observed values.
    pub fn on_sat<D: Domain>(&mut self, f: &Factory, i: usize, off: &Offset2, model: &Model) -> (r:
        Result<(), EvalError>)
        requires
            f.wf(),
            model.wf(),
            old(self).wf(f.n_terms()),
            i < old(self).graph_spec().nodes_view().len(),
        ensures
            final(self).sys_spec() == old(self).sys_spec(),
            final(self).cnt_spec() == old(self).cnt_spec(),
            final(self).max_k_spec() == old(self).max_k_spec(),
            final(self).step_roll_spec() == old(self).step_roll_spec(),
            match r {
                Ok(_) => final(self).wf(f.n_terms()) && split_post::<D>(
                    old(self).graph_spec(),
                    final(self).graph_spec(),
                    *f,
                    i as int,
                    *off,
                    *model,
                ),
                Err(_) => final(self).graph_spec() == old(self).graph_spec() && exists|h: int|
                    old(self).graph_spec().nodes_view()[i as int].is_member(h)
                        && crate::split::key_val::<D>(*f, h, *off, *model) is None,
            },
    {
        split_class::<D>(&mut self.graph, f, i, off, model)
    }

    /// Digests an unsatisfiable step check on a class: its equalities are
    /// inductive; the class is stable at this depth and its facts can be
    /// published.
    pub fn mark_stable(&mut self, i: usize)
        requires
            old(self).graph_spec().wf(),
            i < old(self).graph_spec().nodes_view().len(),
        ensures
            final(self).sys_spec() == old(self).sys_spec(),
            final(self).cnt_spec() == old(self).cnt_spec(),
            final(self).max_k_spec() == old(self).max_k_spec(),
            final(self).step_roll_spec() == old(self).step_roll_spec(),
            final(self).graph_spec().wf(),
            final(self).graph_spec().edges_view() == old(self).graph_spec().edges_view(),
            final(self).graph_spec().nodes_view() == old(self).graph_spec().nodes_view().update(
                i as int,
                Node {
                    rep: old(self).graph_spec().nodes_view()[i as int].rep,
                    others: old(self).graph_spec().nodes_view()[i as int].others,
                    stable: true,
                },
            ),
    {
        self.graph.set_stable(i, true);
    }

    /// The facts a stable class publishes: each surviving equality
    /// between the representative and another member, normalized for
    /// cross-worker sharing. Fails when an equality mentions a next-state
    /// variable, which one-state candidates never do.
    pub fn class_invariants<D: Domain>(&self, i: usize, f: &mut Factory) -> (r: Result<
        Vec<STerm>,
        (),
    >)
        requires
            old(f).wf(),
            self.wf(old(f).n_terms()),
            i < self.graph_spec().nodes_view().len(),
        ensures
            final(f).wf(),
            final(f).extends(*old(f)),
            self.wf(final(f).n_terms()),
            match r {
                Ok(v) => {
                    &&& v@.len()
                        == self.graph_spec().nodes_view()[i as int].others.view_seq().len()
                    &&& forall|j: int|
                        0 <= j < v@.len() ==> (#[trigger] v@[j]).wf_in(final(f).terms_view())
                            && is_op2_entry(
                            final(f).term_at(v@[j].curr_spec().hkey as int),
                            Op::Eq,
                            self.graph_spec().nodes_view()[i as int].rep,
                            self.graph_spec().nodes_view()[i as int].others.view_seq()[j],
                        )
                },
                Err(_) => has_next(
                    final(f).terms_view(),
                    self.graph_spec().nodes_view()[i as int].rep.hkey as int,
                ) || exists|j: int|
                    0 <= j < self.graph_spec().nodes_view()[i as int].others.view_seq().len()
                        && has_next(
                        final(f).terms_view(),
                        (#[trigger] self.graph_spec().nodes_view()[
                            i as int
                        ].others.view_seq()[j]).hkey as int,
                    ),
            },
    {
        let eqs = self.class_check_terms::<D>(i, f);
        let ghost mid = *f;
        let mut out: Vec<STerm> = Vec::new();
        let n = eqs.len();
        let mut j: usize = 0;
        while j < n
            invariant
                mid.wf(),
                f.wf(),
                f.extends(mid),
                mid.extends(*old(f)),
                self.wf(mid.n_terms()),
                i < self.graph_spec().nodes_view().len(),
                n == eqs@.len(),
                n == self.graph_spec().nodes_view()[i as int].others.view_seq().len(),
                forall|x: int|
                    0 <= x < n ==> mid.term_valid(#[trigger] eqs@[x]) && is_op2_entry(
                        mid.term_at(eqs@[x].hkey as int),
                        Op::Eq,
                        self.graph_spec().nodes_view()[i as int].rep,
                        self.graph_spec().nodes_view()[i as int].others.view_seq()[x],
                    ),
                0 <= j <= n,
                out@.len() == j,
                forall|x: int|
                    0 <= x < j ==> (#[trigger] out@[x]).wf_in(f.terms_view()) && is_op2_entry(
                        f.term_at(out@[x].curr_spec().hkey as int),
                        Op::Eq,
                        self.graph_spec().nodes_view()[i as int].rep,
                        self.graph_spec().nodes_view()[i as int].others.view_seq()[x],
                    ),
            decreases n - j,
        {
            let t = eqs[j];
            let ghost pre = *f;
            match STerm::mk(f, t) {
                Ok(st) => {
                    proof {
                        crate::term::lemma_table_wf_keys_lt(pre.terms_view(), pre.n_syms(),
                            pre.n_csts());
                        crate::term::lemma_table_wf_keys_lt(f.terms_view(), f.n_syms(),
                            f.n_csts());
                        assert forall|x: int| 0 <= x < j implies (#[trigger] out@[x]).wf_in(
                            f.terms_view(),
                        ) && is_op2_entry(
                            f.term_at(out@[x].curr_spec().hkey as int),
                            Op::Eq,
                            self.graph_spec().nodes_view()[i as int].rep,
                            self.graph_spec().nodes_view()[i as int].others.view_seq()[x],
                        ) by {
                            crate::term::lemma_is_bump_prefix(pre.terms_view(), f.terms_view(),
                                out@[x].curr_spec().hkey as int, out@[x].next_spec().hkey as int);
                            crate::term::lemma_has_next_prefix(pre.terms_view(), f.terms_view(),
                                out@[x].curr_spec().hkey as int);
                            assert(f.term_at(out@[x].curr_spec().hkey as int) == pre.term_at(
                                out@[x].curr_spec().hkey as int));
                        }
                        assert(f.term_at(st.curr_spec().hkey as int) == mid.term_at(
                            t.hkey as int));
                    }
                    out.push(st);
                },
                Err(_) => {
                    proof {
                        // the equality that refused to normalize mentions a
                        // next-state variable, so the representative or the
                        // other member does
                        crate::term::lemma_table_wf_keys_lt(pre.terms_view(), pre.n_syms(),
                            pre.n_csts());
                        crate::term::lemma_table_wf_keys_lt(f.terms_view(), f.n_syms(),
                            f.n_csts());
                        assert(f.term_at(t.hkey as int) == pre.term_at(t.hkey as int));
                        assert(has_next(f.terms_view(), t.hkey as int));
                        let rep = self.graph_spec().nodes_view()[i as int].rep;
                        let other = self.graph_spec().nodes_view()[
                            i as int
                        ].others.view_seq()[j as int];
                        match f.term_at(t.hkey as int) {
                            TermData::Op(_, args) => {
                                let w = choose|w: int|
                                    0 <= w < args@.len() && has_next(
                                        f.terms_view(),
                                        (#[trigger] args@[w]).hkey as int,
                                    );
                                if w == 0 {
                                    assert(args@[0] == rep);
                                } else {
                                    assert(args@[1] == other);
                                }
                            },
                            _ => {},
                        }
                    }
                    return Err(());
                },
            }
            j = j + 1;
        }
        proof {
            lemma_keys_below_mono(self.graph_spec(), mid.n_terms(), f.n_terms());
        }
        Ok(out)
    }

    /// The fact an inductive ordering edge publishes: the ordering
    /// between the two representatives it joins, normalized for
    /// cross-worker sharing; nothing when the domain deems the ordering
    /// vacuous. Fails when the ordering mentions a next-state variable,
    /// which orderings over one-state candidates never do.
    pub fn edge_invariant<D: Domain>(&self, e: usize, f: &mut Factory) -> (r: Result<
        Option<STerm>,
        (),
    >)
        requires
            old(f).wf(),
            self.wf(old(f).n_terms()),
            e < self.graph_spec().edges_view().len(),
        ensures
            final(f).wf(),
            final(f).extends(*old(f)),
            self.wf(final(f).n_terms()),
            match r {
                Ok(Some(st)) => st.wf_in(final(f).terms_view()) && is_op2_entry(
                    final(f).term_at(st.curr_spec().hkey as int),
                    D::cmp_op(),
                    Term { hkey: self.graph_spec().edges_view()[e as int].0 },
                    Term { hkey: self.graph_spec().edges_view()[e as int].1 },
                ),
                Ok(None) => !D::cmp_possible(
                    *old(f),
                    Term { hkey: self.graph_spec().edges_view()[e as int].0 },
                    Term { hkey: self.graph_spec().edges_view()[e as int].1 },
                ),
                Err(_) => has_next(
                    final(f).terms_view(),
                    self.graph_spec().edges_view()[e as int].0 as int,
                ) || has_next(
                    final(f).terms_view(),
                    self.graph_spec().edges_view()[e as int].1 as int,
                ),
            },
    {
        let t = match self.edge_check_term::<D>(e, f) {
            Some(t) => t,
            None => {
                return Ok(None);
            },
        };
        let ghost mid = *f;
        match STerm::mk(f, t) {
            Ok(st) => {
                proof {
                    assert(f.term_at(st.curr_spec().hkey as int) == mid.term_at(t.hkey as int));
                    lemma_keys_below_mono(self.graph_spec(), mid.n_terms(), f.n_terms());
                }
                Ok(Some(st))
            },
            Err(_) => {
                proof {
                    // the ordering that refused to normalize mentions a
                    // next-state variable, so one of its endpoints does
                    crate::term::lemma_table_wf_keys_lt(mid.terms_view(), mid.n_syms(),
                        mid.n_csts());
                    crate::term::lemma_table_wf_keys_lt(f.terms_view(), f.n_syms(), f.n_csts());
                    assert(f.term_at(t.hkey as int) == mid.term_at(t.hkey as int));
                    assert(has_next(f.terms_view(), t.hkey as int));
                    let lo = Term { hkey: self.graph_spec().edges_view()[e as int].0 };
                    let hi = Term { hkey: self.graph_spec().edges_view()[e as int].1 };
                    match f.term_at(t.hkey as int) {
                        TermData::Op(_, args) => {
                            let w = choose|w: int|
                                0 <= w < args@.len() && has_next(
                                    f.terms_view(),
                                    (#[trigger] args@[w]).hkey as int,
                                );
                            if w == 0 {
                                assert(args@[0] == lo);
                            } else {
                                assert(args@[1] == hi);
                            }
                        },
                        _ => {},
                    }
                }
                Err(())
            },
        }
    }

    /// Moves to the next depth: every class becomes unstable again, to be
    /// re-stabilized after the sessions unroll one more step.
    pub fn advance_k(&mut self)
        requires
            old(self).graph_spec().wf(),
            old(self).cnt_spec() < u16::MAX,
        ensures
            final(self).sys_spec() == old(self).sys_spec(),
            final(self).max_k_spec() == old(self).max_k_spec(),
            final(self).step_roll_spec() == old(self).step_roll_spec(),
            final(self).cnt_spec() == old(self).cnt_spec() + 1,
            final(self).graph_spec().wf(),
            final(self).graph_spec().edges_view() == old(self).graph_spec().edges_view(),
            final(self).graph_spec().nodes_view().len() == old(
                self,
            ).graph_spec().nodes_view().len(),
            forall|x: int|
                0 <= x < old(self).graph_spec().nodes_view().len() ==> {
                    let nd = #[trigger] final(self).graph_spec().nodes_view()[x];
                    &&& nd.rep == old(self).graph_spec().nodes_view()[x].rep
                    &&& nd.others == old(self).graph_spec().nodes_view()[x].others
                    &&& !nd.stable
                },
    {
        self.cnt = self.cnt + 1;
        let n = self.graph.n_nodes();
        let mut x: usize = 0;
        while x < n
            invariant
                self.graph_spec().wf(),
                self.sys_spec() == old(self).sys_spec(),
                self.max_k_spec() == old(self).max_k_spec(),
                self.step_roll_spec() == old(self).step_roll_spec(),
                self.cnt_spec() == old(self).cnt_spec() + 1,
                self.graph_spec().edges_view() == old(self).graph_spec().edges_view(),
                n == self.graph_spec().nodes_view().len(),
                n == old(self).graph_spec().nodes_view().len(),
                0 <= x <= n,
                forall|y: int|
                    0 <= y < n ==> {
                        let nd = #[trigger] self.graph_spec().nodes_view()[y];
                        &&& nd.rep == old(self).graph_spec().nodes_view()[y].rep
                        &&& nd.others == old(self).graph_spec().nodes_view()[y].others
                    },
                forall|y: int|
                    0 <= y < x ==> !(#[trigger] self.graph_spec().nodes_view()[y]).stable,
            decreases n - x,
        {
            self.graph.set_stable(x, false);
            proof {
                assert forall|y: int| 0 <= y < n implies {
                    let nd = #[trigger] self.graph_spec().nodes_view()[y];
                    &&& nd.rep == old(self).graph_spec().nodes_view()[y].rep
                    &&& nd.others == old(self).graph_spec().nodes_view()[y].others
                } by {}
            }
            x = x + 1;
        }
    }
}

/// The term is the left-nested conjunction of the given terms.
pub open spec fn is_conj_of(f: Factory, t: Term, ts: Seq<Term>) -> bool
    decreases ts.len(),
{
    if ts.len() == 0 {
        false
    } else if ts.len() == 1 {
        t == ts[0]
    } else {
        match f.term_at(t.hkey as int) {
            TermData::Op(o, args) => o == Op::And && args@.len() == 2 && args@[1] == ts.last()
                && is_conj_of(f, args@[0], ts.drop_last()),
            _ => false,
        }
    }
}

/// A conjunction built in a smaller factory is still one after the
/// factory grows.
proof fn lemma_conj_of_prefix(pre: Factory, post: Factory, t: Term, ts: Seq<Term>)
    requires
        pre.wf(),
        pre.terms_view().is_prefix_of(post.terms_view()),
        pre.term_valid(t),
        is_conj_of(pre, t, ts),
    ensures
        is_conj_of(post, t, ts),
    decreases ts.len(),
{
    if ts.len() > 1 {
        assert(post.term_at(t.hkey as int) == pre.term_at(t.hkey as int));
        match pre.term_at(t.hkey as int) {
            TermData::Op(_, args) => {
                assert(pre.term_valid(args@[0])) by {
                    crate::term::lemma_table_wf_keys_lt(pre.terms_view(), pre.n_syms(),
                        pre.n_csts());
                }
                lemma_conj_of_prefix(pre, post, args@[0], ts.drop_last());
            },
            _ => {},
        }
    }
}

/// Interns the left-nested conjunction of a nonempty list of terms.
fn build_conj(f: &mut Factory, ts: &Vec<Term>) -> (r: Term)
    requires
        old(f).wf(),
        ts@.len() > 0,
        forall|j: int| 0 <= j < ts@.len() ==> old(f).term_valid(#[trigger] ts@[j]),
    ensures
        final(f).wf(),
        final(f).extends(*old(f)),
        final(f).syms_view() == old(f).syms_view(),
        final(f).csts_view() == old(f).csts_view(),
        final(f).term_valid(r),
        is_conj_of(*final(f), r, ts@),
{
    let mut acc = ts[0];
    let n = ts.len();
    let mut j: usize = 1;
    while j < n
        invariant
            old(f).wf(),
            forall|x: int| 0 <= x < ts@.len() ==> old(f).term_valid(#[trigger] ts@[x]),
            f.wf(),
            f.extends(*old(f)),
            f.syms_view() == old(f).syms_view(),
            f.csts_view() == old(f).csts_view(),
            n == ts@.len(),
            1 <= j <= n,
            f.term_valid(acc),
            is_conj_of(*f, acc, ts@.take(j as int)),
        decreases n - j,
    {
        let ghost pre = *f;
        let next = crate::domain::intern_op2(f, Op::And, acc, ts[j]);
        proof {
            lemma_conj_of_prefix(pre, *f, acc, ts@.take(j as int));
            assert(ts@.take(j + 1).drop_last() =~= ts@.take(j as int));
            assert(ts@.take(j + 1).last() == ts@[j as int]);
            assert(is_conj_of(*f, next, ts@.take(j + 1)));
        }
        acc = next;
        j = j + 1;
    }
    proof {
        assert(ts@.take(n as int) =~= ts@);
    }
    acc
}

} // verus!
