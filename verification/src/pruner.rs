//! The invariant pruner: given a candidate set of one-state invariants,
//! it removes every candidate that the others imply under one transition
//! step, and keeps the non-trivial rest.
//!
//! The solver round-trips are outside; this module holds the decisions.
//! The manager owns one positive activation literal per candidate; a
//! refutation query gates the negation of one undecided candidate's
//! next-state form behind a fresh literal. A satisfiable answer marks
//! every candidate the model falsifies at the next state non-trivial; an
//! unsatisfiable answer marks the picked candidate trivial.

use vstd::prelude::*;

use crate::base::Offset2;
use crate::domain::{is_op1_entry, op1_intern_post, intern_op1};
use crate::eval::{EvalError, Model};
use crate::event::{Info, MsgDown, Technique};
use crate::sys::STerm;
use crate::term::{CstData, Factory, Op, Sym};
use crate::unroll::{Actlit, SmtCmd, Unroller};

verus! {

/// What the pruner knows of one candidate.
#[derive(Debug, Clone, Copy, PartialEq, Eq, Structural)]
pub enum CandState {
    /// Not yet decided either way.
    Undecided,
    /// A model falsified it at the next state: it carries information.
    NonTrivial,
    /// The remaining candidates imply it under one step: drop it.
    Trivial,
}

/// A candidate invariant was falsified at the next state by the model.
pub open spec fn falsified_at_next(f: Factory, st: STerm, off: Offset2, m: Model) -> bool {
    crate::eval::eval_spec(
        f.terms_view(),
        f.csts_view(),
        st.next_spec().hkey as int,
        off,
        m.entries_view(),
    ) == Some(CstData::Bool(false))
}

/// The model leaves the candidate's next-state value open: it gives it
/// no boolean value at all.
pub open spec fn next_not_boolean(f: Factory, st: STerm, off: Offset2, m: Model) -> bool {
    match crate::eval::eval_spec(
        f.terms_view(),
        f.csts_view(),
        st.next_spec().hkey as int,
        off,
        m.entries_view(),
    ) {
        Some(CstData::Bool(_)) => false,
        _ => true,
    }
}

/// The marked indices are exactly the undecided candidates below `hi`
/// that the model falsifies at the next state.
pub open spec fn marked_ok(
    marked: Seq<usize>,
    cands: Seq<(STerm, Actlit, CandState)>,
    hi: int,
    f: Factory,
    off: Offset2,
    m: Model,
) -> bool {
    forall|k: int|
        (exists|x: int| 0 <= x < marked.len() && (#[trigger] marked[x]) as int == k) == (0 <= k
            < hi && cands[k].2 == CandState::Undecided && falsified_at_next(f, cands[k].0, off,
        m))
}

/// The terms of the candidates marked non-trivial, in order.
pub open spec fn nontrivial_terms(s: Seq<(STerm, Actlit, CandState)>) -> Seq<STerm>
    decreases s.len(),
{
    if s.len() == 0 {
        Seq::empty()
    } else {
        let rest = nontrivial_terms(s.drop_last());
        if s.last().2 == CandState::NonTrivial {
            rest.push(s.last().0)
        } else {
            rest
        }
    }
}

/// The kept term at position `x` is the term of some non-trivial
/// candidate.
pub open spec fn kept_from(s: Seq<(STerm, Actlit, CandState)>, x: int) -> bool {
    exists|j: int|
        0 <= j < s.len() && (#[trigger] s[j]).0 == nontrivial_terms(s)[x] && s[j].2
            == CandState::NonTrivial
}

/// What the pruner keeps comes from its candidates: every kept term is
/// the term of some candidate marked non-trivial. The pruned set is a
/// subset of the input set, whatever the solver answered.
pub proof fn lemma_nontrivial_from_candidates(s: Seq<(STerm, Actlit, CandState)>)
    ensures
        nontrivial_terms(s).len() <= s.len(),
        forall|x: int| 0 <= x < nontrivial_terms(s).len() ==> #[trigger] kept_from(s, x),
    decreases s.len(),
{
    if s.len() > 0 {
        let rest = s.drop_last();
        lemma_nontrivial_from_candidates(rest);
        assert(nontrivial_terms(s) == if s.last().2 == CandState::NonTrivial {
            nontrivial_terms(rest).push(s.last().0)
        } else {
            nontrivial_terms(rest)
        });
        assert forall|x: int| 0 <= x < nontrivial_terms(s).len() implies #[trigger] kept_from(
            s,
            x,
        ) by {
            if x < nontrivial_terms(rest).len() {
                assert(kept_from(rest, x));
                let j = choose|j: int|
                    0 <= j < rest.len() && (#[trigger] rest[j]).0 == nontrivial_terms(rest)[x]
                        && rest[j].2 == CandState::NonTrivial;
                assert(s[j].0 == nontrivial_terms(s)[x] && s[j].2 == CandState::NonTrivial);
            } else {
                assert(s[s.len() - 1].0 == nontrivial_terms(s)[x] && s[s.len() - 1].2
                    == CandState::NonTrivial);
            }
        }
    }
}

/// The manager of one pruning run: each candidate, its positive
/// activation literal, and what is known of it.
#[derive(Debug)]
pub struct InvManager {
    cands: Vec<(STerm, Actlit, CandState)>,
}

impl InvManager {
    /// The candidates.
    pub closed spec fn cands_view(&self) -> Seq<(STerm, Actlit, CandState)> {
        self.cands@
    }

    /// Builds the manager over a candidate set: one fresh positive
    /// activation literal per candidate, each gating the candidate's
    /// current-state form at the given offset.
    pub fn mk(invars: Vec<STerm>, unroller: &mut Unroller, off: &Offset2) -> (r: (
        InvManager,
        Vec<SmtCmd>,
    ))
        requires
            old(unroller).wf(),
            old(unroller).actlit_count_spec() + invars@.len() <= usize::MAX,
        ensures
            final(unroller).wf(),
            final(unroller).sys_spec() == old(unroller).sys_spec(),
            final(unroller).kind_spec() == old(unroller).kind_spec(),
            final(unroller).depth_spec() == old(unroller).depth_spec(),
            final(unroller).top_spec() == old(unroller).top_spec(),
            final(unroller).actlit_count_spec() == old(unroller).actlit_count_spec()
                + invars@.len(),
            r.0.cands_view().len() == invars@.len(),
            forall|j: int|
                0 <= j < invars@.len() ==> (#[trigger] r.0.cands_view()[j]).0 == invars@[j]
                    && r.0.cands_view()[j].2 == CandState::Undecided && r.0.cands_view()[j].1.n
                    == old(unroller).actlit_count_spec() + j,
            r.1@.len() == 2 * invars@.len(),
            forall|j: int|
                0 <= j < invars@.len() ==> #[trigger] r.1@[2 * j] == SmtCmd::DeclareActlit(
                    r.0.cands_view()[j].1,
                ) && r.1@[2 * j + 1] == SmtCmd::AssertImplied(
                    r.0.cands_view()[j].1,
                    invars@[j].curr_spec(),
                    *off,
                ),
    {
        let mut cands: Vec<(STerm, Actlit, CandState)> = Vec::new();
        let mut cmds: Vec<SmtCmd> = Vec::new();
        let n = invars.len();
        let mut j: usize = 0;
        while j < n
            invariant
                old(unroller).wf(),
                old(unroller).actlit_count_spec() + invars@.len() <= usize::MAX,
                unroller.wf(),
                unroller.sys_spec() == old(unroller).sys_spec(),
                unroller.kind_spec() == old(unroller).kind_spec(),
                unroller.depth_spec() == old(unroller).depth_spec(),
                unroller.top_spec() == old(unroller).top_spec(),
                unroller.actlit_count_spec() == old(unroller).actlit_count_spec() + j,
                n == invars@.len(),
                0 <= j <= n,
                cands@.len() == j,
                forall|x: int|
                    0 <= x < j ==> (#[trigger] cands@[x]).0 == invars@[x] && cands@[x].2
                        == CandState::Undecided && cands@[x].1.n == old(
                        unroller,
                    ).actlit_count_spec() + x,
                cmds@.len() == 2 * j,
                forall|x: int|
                    0 <= x < j ==> #[trigger] cmds@[2 * x] == SmtCmd::DeclareActlit(cands@[x].1)
                        && cmds@[2 * x + 1] == SmtCmd::AssertImplied(
                        cands@[x].1,
                        invars@[x].curr_spec(),
                        *off,
                    ),
            decreases n - j,
        {
            let inv = invars[j];
            let (a, dcmd) = unroller.fresh_actlit();
            cmds.push(dcmd);
            cmds.push(SmtCmd::AssertImplied(a, inv.curr(), *off));
            cands.push((inv, a, CandState::Undecided));
            j = j + 1;
        }
        (InvManager { cands }, cmds)
    }

    /// The positive activation literals of every candidate, in order:
    /// each check assumes a state where all candidates hold.
    pub fn actlits(&self) -> (r: Vec<Actlit>)
        ensures
            r@.len() == self.cands_view().len(),
            forall|j: int| 0 <= j < r@.len() ==> r@[j] == (#[trigger] self.cands_view()[j]).1,
    {
        let mut out: Vec<Actlit> = Vec::new();
        let n = self.cands.len();
        let mut j: usize = 0;
        while j < n
            invariant
                n == self.cands_view().len(),
                0 <= j <= n,
                out@.len() == j,
                forall|x: int| 0 <= x < j ==> out@[x] == (#[trigger] self.cands_view()[x]).1,
            decreases n - j,
        {
            out.push(self.cands[j].1);
            j = j + 1;
        }
        out
    }

    /// The first candidate not yet decided, if any: the one whose
    /// falsification the next check attempts.
    pub fn one_false_next(&self) -> (r: Option<usize>)
        ensures
            match r {
                Some(j) => j < self.cands_view().len() && self.cands_view()[j as int].2
                    == CandState::Undecided && forall|x: int|
                    0 <= x < j ==> (#[trigger] self.cands_view()[x]).2 != CandState::Undecided,
                None => forall|x: int|
                    0 <= x < self.cands_view().len() ==> (#[trigger] self.cands_view()[x]).2
                        != CandState::Undecided,
            },
    {
        let n = self.cands.len();
        let mut j: usize = 0;
        while j < n
            invariant
                n == self.cands_view().len(),
                0 <= j <= n,
                forall|x: int| 0 <= x < j ==> (#[trigger] self.cands_view()[x]).2
                    != CandState::Undecided,
            decreases n - j,
        {
            if matches!(self.cands[j].2, CandState::Undecided) {
                return Some(j);
            }
            j = j + 1;
        }
        None
    }

    /// The term of a candidate.
    pub fn cand_term(&self, j: usize) -> (r: STerm)
        requires
            j < self.cands_view().len(),
        ensures
            r == self.cands_view()[j as int].0,
    {
        self.cands[j].0
    }

    /// The refutation query for one undecided candidate: a fresh
    /// activation literal gating the negation of the candidate's
    /// next-state form at the given offset.
    pub fn refute_query(
        &self,
        j: usize,
        f: &mut Factory,
        unroller: &mut Unroller,
        off: &Offset2,
    ) -> (r: (Actlit, Vec<SmtCmd>))
        requires
            j < self.cands_view().len(),
            old(f).wf(),
            old(f).term_valid(self.cands_view()[j as int].0.next_spec()),
            old(unroller).wf(),
            old(unroller).actlit_count_spec() < usize::MAX,
        ensures
            final(f).wf(),
            final(f).extends(*old(f)),
            final(unroller).wf(),
            final(unroller).actlit_count_spec() == old(unroller).actlit_count_spec() + 1,
            final(unroller).depth_spec() == old(unroller).depth_spec(),
            final(unroller).top_spec() == old(unroller).top_spec(),
            final(unroller).sys_spec() == old(unroller).sys_spec(),
            final(unroller).kind_spec() == old(unroller).kind_spec(),
            r.0.n == old(unroller).actlit_count_spec(),
            r.1@.len() == 2,
            r.1@[0] == SmtCmd::DeclareActlit(r.0),
            r.1@[1] matches SmtCmd::AssertImplied(a, neg, o2) && a == r.0 && o2 == *off
                && final(f).term_valid(neg) && is_op1_entry(
                final(f).term_at(neg.hkey as int),
                Op::Not,
                self.cands_view()[j as int].0.next_spec(),
            ),
    {
        let (a, dcmd) = unroller.fresh_actlit();
        let neg = intern_op1(f, Op::Not, self.cands[j].0.next());
        let mut cmds: Vec<SmtCmd> = Vec::new();
        cmds.push(dcmd);
        cmds.push(SmtCmd::AssertImplied(a, neg, *off));
        (a, cmds)
    }

    /// Digests a satisfiable refutation check: every undecided candidate
    /// the model falsifies at the next state is non-trivial. Returns the
    /// indices marked, ascending. Fails, changing nothing, when the model
    /// leaves some undecided candidate's next-state value open.
    #[verifier::rlimit(50)]
    pub fn on_sat(&mut self, f: &Factory, off: &Offset2, model: &Model) -> (r: Result<
        Vec<usize>,
        EvalError,
    >)
        requires
            f.wf(),
            model.wf(),
            forall|x: int|
                0 <= x < old(self).cands_view().len() ==> (#[trigger] old(
                    self,
                ).cands_view()[x]).0.next_spec().hkey < f.n_terms(),
        ensures
            r is Ok ==> final(self).cands_view().len() == old(self).cands_view().len(),
            r is Ok ==> forall|x: int|
                0 <= x < old(self).cands_view().len() ==> (
                #[trigger] final(self).cands_view()[x]).0 == old(self).cands_view()[x].0
                    && final(self).cands_view()[x].1 == old(self).cands_view()[x].1,
            r is Ok ==> forall|x: int|
                0 <= x < old(self).cands_view().len() ==> (
                #[trigger] final(self).cands_view()[x]).2 == (if old(self).cands_view()[x].2
                    == CandState::Undecided && falsified_at_next(
                    *f,
                    old(self).cands_view()[x].0,
                    *off,
                    *model,
                ) {
                    CandState::NonTrivial
                } else {
                    old(self).cands_view()[x].2
                }),
            r matches Ok(marked) ==> marked_ok(
                marked@,
                old(self).cands_view(),
                old(self).cands_view().len() as int,
                *f,
                *off,
                *model,
            ),
            r is Err ==> final(self).cands_view() == old(self).cands_view(),
            r is Err ==> exists|x: int|
                0 <= x < old(self).cands_view().len() && (#[trigger] old(
                    self,
                ).cands_view()[x]).2 == CandState::Undecided && next_not_boolean(
                    *f,
                    old(self).cands_view()[x].0,
                    *off,
                    *model,
                ),
    {
        let mut marked: Vec<usize> = Vec::new();
        let mut out: Vec<(STerm, Actlit, CandState)> = Vec::new();
        let n = self.cands.len();
        let mut x: usize = 0;
        while x < n
            invariant
                f.wf(),
                model.wf(),
                forall|y: int|
                    0 <= y < self.cands_view().len() ==> (
                    #[trigger] self.cands_view()[y]).0.next_spec().hkey < f.n_terms(),
                *self == *old(self),
                n == self.cands_view().len(),
                0 <= x <= n,
                out@.len() == x,
                forall|y: int|
                    0 <= y < x ==> (#[trigger] out@[y]).0 == self.cands_view()[y].0 && out@[y].1
                        == self.cands_view()[y].1,
                forall|y: int|
                    0 <= y < x ==> (#[trigger] out@[y]).2 == (if self.cands_view()[y].2
                        == CandState::Undecided && falsified_at_next(
                        *f,
                        self.cands_view()[y].0,
                        *off,
                        *model,
                    ) {
                        CandState::NonTrivial
                    } else {
                        self.cands_view()[y].2
                    }),
                marked_ok(marked@, self.cands_view(), x as int, *f, *off, *model),
            decreases n - x,
        {
            let (st, a, state) = self.cands[x];
            let undecided = matches!(state, CandState::Undecided);
            let ghost pre_marked = marked@;
            if undecided {
                match f.eval_bool(st.next(), off, model) {
                    Ok(b) => {
                        if !b {
                            marked.push(x);
                            out.push((st, a, CandState::NonTrivial));
                        } else {
                            out.push((st, a, state));
                        }
                    },
                    Err(e) => {
                        proof {
                            let ev = crate::eval::eval_spec(f.terms_view(), f.csts_view(),
                                st.next_spec().hkey as int, *off, model.entries_view());
                            match ev {
                                Some(CstData::Bool(bv)) => {
                                    assert(f.eval_of(st.next_spec(), *off, model) != Some(
                                        CstData::Bool(bv)));
                                },
                                _ => {},
                            }
                            assert(next_not_boolean(*f, self.cands_view()[x as int].0, *off,
                                *model));
                        }
                        return Err(e);
                    },
                }
            } else {
                out.push((st, a, state));
            }
            proof {
                assert forall|k: int|
                    (exists|y: int| 0 <= y < marked@.len() && (#[trigger] marked@[y]) as int == k)
                        == (0 <= k < x + 1 && self.cands_view()[k].2 == CandState::Undecided
                        && falsified_at_next(*f, self.cands_view()[k].0, *off, *model)) by {
                    assert(marked_ok(pre_marked, self.cands_view(), x as int, *f, *off, *model));
                    if exists|y: int|
                        0 <= y < marked@.len() && (#[trigger] marked@[y]) as int == k {
                        let y = choose|y: int|
                            0 <= y < marked@.len() && (#[trigger] marked@[y]) as int == k;
                        if y < pre_marked.len() {
                            assert(pre_marked[y] as int == k);
                            assert(exists|y2: int|
                                0 <= y2 < pre_marked.len() && (#[trigger] pre_marked[y2]) as int
                                    == k);
                        }
                    }
                    if 0 <= k < x && self.cands_view()[k].2 == CandState::Undecided
                        && falsified_at_next(*f, self.cands_view()[k].0, *off, *model) {
                        let y = choose|y: int|
                            0 <= y < pre_marked.len() && (#[trigger] pre_marked[y]) as int == k;
                        assert(marked@[y] as int == k);
                    }
                    if k == x as int && self.cands_view()[k].2 == CandState::Undecided
                        && falsified_at_next(*f, self.cands_view()[k].0, *off, *model) {
                        assert(marked@[marked@.len() - 1] as int == k);
                    }
                }
                assert(marked_ok(marked@, self.cands_view(), x + 1, *f, *off, *model));
            }
            x = x + 1;
        }
        self.cands = out;
        Ok(marked)
    }

    /// Digests an unsatisfiable refutation check: the picked candidate is
    /// implied by the rest under one step, so it is trivial.
    pub fn on_unsat(&mut self, j: usize)
        requires
            j < old(self).cands_view().len(),
        ensures
            final(self).cands_view() == old(self).cands_view().update(
                j as int,
                (
                    old(self).cands_view()[j as int].0,
                    old(self).cands_view()[j as int].1,
                    CandState::Trivial,
                ),
            ),
    {
        let (st, a, _) = self.cands[j];
        self.cands.set(j, (st, a, CandState::Trivial));
        proof {
            assert(final(self).cands_view() =~= old(self).cands_view().update(
                j as int,
                (old(self).cands_view()[j as int].0, old(self).cands_view()[j as int].1,
                CandState::Trivial),
            ));
        }
    }

    /// The non-trivial candidates found so far, in order: the pruning
    /// run's result once every candidate is decided.
    pub fn non_trivial(&self) -> (r: Vec<STerm>)
        ensures
            r@ == nontrivial_terms(self.cands_view()),
    {
        let mut out: Vec<STerm> = Vec::new();
        let n = self.cands.len();
        let mut j: usize = 0;
        while j < n
            invariant
                n == self.cands_view().len(),
                0 <= j <= n,
                out@ == nontrivial_terms(self.cands_view().take(j as int)),
            decreases n - j,
        {
            let (st, _, state) = self.cands[j];
            proof {
                assert(self.cands_view().take(j + 1).drop_last() =~= self.cands_view().take(
                    j as int,
                ));
                assert(self.cands_view().take(j + 1).last() == self.cands_view()[j as int]);
            }
            if matches!(state, CandState::NonTrivial) {
                out.push(st);
            }
            j = j + 1;
        }
        proof {
            assert(self.cands_view().take(n as int) =~= self.cands_view());
        }
        out
    }
}

/// What a pruner worker does with one broadcast, for a given system.
pub enum PrunerStep {
    /// Invariants arrived for this system: assert them as background.
    AddInvariants(Vec<STerm>),
    /// A pruning request for this system: run one pruning pass.
    StartPruning(Technique, Vec<STerm>, Info),
    /// The message concerns another system or another matter.
    Ignore,
}

/// Decides what a pruner worker does with one broadcast: invariants and
/// pruning requests for its own system matter; everything else is
/// ignored.
pub fn pruner_react(msg: MsgDown, sys_sym: Sym) -> (r: PrunerStep)
    ensures
        match msg {
            MsgDown::Invariants(sym, invs) => if sym.id == sys_sym.id {
                r matches PrunerStep::AddInvariants(v) && v@ == invs@
            } else {
                r is Ignore
            },
            MsgDown::InvariantPruning(tek, sym, invs, info) => if sym.id == sys_sym.id {
                r matches PrunerStep::StartPruning(t, v, i) && t == tek && v@ == invs@ && i
                    == info
            } else {
                r is Ignore
            },
            _ => r is Ignore,
        },
{
    match msg {
        MsgDown::Invariants(sym, invs) => if sym.id == sys_sym.id {
            PrunerStep::AddInvariants(invs)
        } else {
            PrunerStep::Ignore
        },
        MsgDown::InvariantPruning(tek, sym, invs, info) => if sym.id == sys_sym.id {
            PrunerStep::StartPruning(tek, invs, info)
        } else {
            PrunerStep::Ignore
        },
        _ => PrunerStep::Ignore,
    }
}

/// The pruning technique.
#[derive(Debug, Clone, Copy, PartialEq, Eq, Structural)]
pub struct Pruner;

impl Pruner {
    /// The technique's identity.
    pub fn id(&self) -> (r: Technique)
        ensures
            r == Technique::Pruner,
    {
        Technique::Pruner
    }
}

} // verus!
