//! The invariant-generation engine: the class graph, model splits, and
//! the learner's moves.

use kino::base::{Offset, Offset2, State};
use kino::domain::{insert_cmp, insert_eq, Domain};
use kino::eval::Model;
use kino::graph::{Graph, TermSet};
use kino::split::{group_members, split_class};
use kino::sys::Sys;
use kino::term::{CstData, Factory, Op, Rat, Term};
use kino::tig::{InvGen, Tig};
use kino::event::Technique;

/// Three stateless candidate terms `a`, `b`, `c` in one factory.
fn three_vars() -> (Factory, Term, Term, Term, kino::term::Sym, kino::term::Sym, kino::term::Sym)
{
    let mut f = Factory::mk();
    let a = f.sym("a".to_owned());
    let b = f.sym("b".to_owned());
    let c = f.sym("c".to_owned());
    let ta = f.svar(a, State::Curr);
    let tb = f.svar(b, State::Curr);
    let tc = f.svar(c, State::Curr);
    (f, ta, tb, tc, a, b, c)
}

fn set_of(terms: &[Term]) -> TermSet {
    let mut s = TermSet::mk();
    for t in terms {
        s.insert(*t);
    }
    s
}

#[test]
fn tig_identity() {
    assert_eq!(Tig.id(), Technique::Tig);
}

#[test]
fn initial_graph_is_one_rootless_class() {
    let (_f, ta, tb, tc, ..) = three_vars();
    let g = Graph::mk(ta, set_of(&[tb, tc]));
    assert_eq!(g.n_nodes(), 1);
    assert_eq!(g.n_edges(), 0);
    // the single class is a root, and its representative is its key
    let roots = g.roots();
    assert_eq!(roots, vec![ta.hkey]);
    // a representative is never among its own others
    assert!(!g.node(0).others.contains(ta));
    assert!(g.node(0).others.contains(tb));
}

#[test]
fn group_members_splits_sorted_by_value() {
    // the split law on values: a = 1, b = 1, c = 2 groups into
    // [(1, {a, b}), (2, {c})], strictly ascending
    let (f, ta, tb, tc, a, b, c) = three_vars();
    let mut m = Model::mk();
    m.add(a, Offset::of_int(0), CstData::Int(1));
    m.add(b, Offset::of_int(0), CstData::Int(1));
    m.add(c, Offset::of_int(0), CstData::Int(2));
    let off = Offset2::init();
    let members = set_of(&[ta, tb, tc]);
    let groups: Vec<(i64, TermSet)> = group_members::<i64>(&f, &off, &m, &members).unwrap();
    assert_eq!(groups.len(), 2);
    assert_eq!(groups[0].0, 1);
    assert_eq!(groups[1].0, 2);
    assert_eq!(groups[0].1.len(), 2);
    assert!(groups[0].1.contains(ta));
    assert!(groups[0].1.contains(tb));
    assert_eq!(groups[1].1.len(), 1);
    assert!(groups[1].1.contains(tc));
}

#[test]
fn split_class_yields_a_chain_with_an_edge() {
    // the graph split scenario: one class {a, b, c}, model a = 1, b = 1,
    // c = 2, integer domain; the split yields [(1, {a(rep), b}),
    // (2, {c})] with an edge from the first class to the second
    let (f, ta, tb, tc, a, b, c) = three_vars();
    let mut m = Model::mk();
    m.add(a, Offset::of_int(0), CstData::Int(1));
    m.add(b, Offset::of_int(0), CstData::Int(1));
    m.add(c, Offset::of_int(0), CstData::Int(2));
    let off = Offset2::init();
    let mut g = Graph::mk(ta, set_of(&[tb, tc]));
    split_class::<i64>(&mut g, &f, 0, &off, &m).unwrap();

    assert_eq!(g.n_nodes(), 2);
    // the first chain class holds a and b; a has the least key, so it is
    // the representative
    assert_eq!(g.node(0).rep, ta);
    assert!(g.node(0).others.contains(tb));
    assert_eq!(g.node(0).others.len(), 1);
    // the second holds c alone
    assert_eq!(g.node(1).rep, tc);
    assert_eq!(g.node(1).others.len(), 0);
    // one ordering edge threads the chain: first below second
    assert_eq!(g.n_edges(), 1);
    assert_eq!(g.edge(0), (ta.hkey, tc.hkey));
    // the graph invariants, on this instance: no self-loop, symmetric
    // projections, and the roots are the classes with an empty above
    assert!(!g.node(0).others.contains(ta));
    assert!(!g.node(1).others.contains(tc));
    assert!(g.has_above(ta.hkey));
    assert!(!g.has_above(tc.hkey));
    assert_eq!(g.roots(), vec![tc.hkey]);
}

#[test]
fn split_class_fails_cleanly_on_a_partial_model() {
    let (f, ta, tb, tc, a, _b, c) = three_vars();
    let mut m = Model::mk();
    m.add(a, Offset::of_int(0), CstData::Int(1));
    m.add(c, Offset::of_int(0), CstData::Int(2));
    let off = Offset2::init();
    let mut g = Graph::mk(ta, set_of(&[tb, tc]));
    assert!(split_class::<i64>(&mut g, &f, 0, &off, &m).is_err());
    assert_eq!(g.n_nodes(), 1);
}

#[test]
fn invgen_discovers_the_inductive_ordering() {
    // invariant-generation discovery: candidates {x, 0, 5} over the
    // system x' = x + 1 from x = 0; after stabilization the learner can
    // publish 0 ≤ x, which is inductive, and does not publish x ≤ 5,
    // which is not
    let mut f = Factory::mk();
    let xs = f.sym("x".to_owned());
    let x = f.svar(xs, State::Curr);
    let zero = f.cst(CstData::Int(0));
    let five = f.cst(CstData::Int(5));
    let xn = f.svar(xs, State::Next);
    let one = f.cst(CstData::Int(1));
    let xp1 = f.op(Op::Add, vec![x, one]);
    let init = f.op(Op::Eq, vec![x, zero]);
    let trans = f.op(Op::Eq, vec![xn, xp1]);
    let sys = Sys::mk(xs, vec![(xs, kino::term::Ty::Int)], init, trans);

    let cands = set_of(&[x, zero, five]);
    let mut learner = InvGen::mk::<i64>(&f, sys, cands, Some(3), false).unwrap();
    assert_eq!(learner.cnt(), 1);
    assert!(!learner.done());

    // one unstable class to check: the check gates the negation of the
    // conjunction of its two equalities
    let i = learner.next_class().unwrap();
    let (check, eqs) = learner.class_check_query::<i64>(i, &mut f).unwrap();
    assert_eq!(eqs.len(), 2);
    let conj = f.op(Op::And, vec![eqs[0], eqs[1]]);
    let expect_check = f.op(Op::Not, vec![conj]);
    assert_eq!(check, expect_check);

    // base check at depth 1 is satisfiable: the trace gives x@1 = 1,
    // while the constants stay 0 and 5; the class splits by value
    let mut m = Model::mk();
    m.add(xs, Offset::of_int(1), CstData::Int(1));
    let at1 = Offset2::init().nxt();
    learner.on_sat::<i64>(&f, i, &at1, &m).unwrap();
    // values 0 < 1 < 5 give three singleton classes, chained
    assert_eq!(learner.graph().n_nodes(), 3);
    assert_eq!(learner.graph().node(0).rep, zero);
    assert_eq!(learner.graph().node(1).rep, x);
    assert_eq!(learner.graph().node(2).rep, five);
    assert_eq!(learner.graph().n_edges(), 2);
    assert_eq!(learner.graph().edge(0), (zero.hkey, x.hkey));
    assert_eq!(learner.graph().edge(1), (x.hkey, five.hkey));

    // singleton classes carry no equalities and stabilize at once
    while let Some(j) = learner.next_class() {
        assert_eq!(learner.class_check_terms::<i64>(j, &mut f).len(), 0);
        learner.mark_stable(j);
    }
    assert!(learner.next_class().is_none());

    // the ordering edges become candidate invariants; the step check
    // keeps 0 ≤ x (inductive) and refutes x ≤ 5 (a step from x = 5
    // breaks it), so only the first is published
    let t_zero_le_x = learner.edge_check_term::<i64>(0, &mut f).unwrap();
    let expect = f.op(Op::Le, vec![zero, x]);
    assert_eq!(t_zero_le_x.hkey, expect.hkey);
    let t_x_le_five = learner.edge_check_term::<i64>(1, &mut f).unwrap();
    // the step refutation of x ≤ 5: a state with x = 5 steps to x = 6
    let mut cex = Model::mk();
    cex.add(xs, Offset::of_int(1), CstData::Int(5));
    cex.add(xs, Offset::of_int(2), CstData::Int(6));
    let at1b = Offset2::init().nxt();
    // at the pre-state the hypothesis holds, at the post-state it fails
    assert!(f.eval_bool(t_x_le_five, &at1b, &cex).unwrap());
    let at2 = at1b.nxt();
    assert!(!f.eval_bool(t_x_le_five, &at2, &cex).unwrap());
    // while no one-step counterexample exists for 0 ≤ x on this system:
    // from 0 ≤ x and x' = x + 1, the post-state keeps 0 ≤ x
    for x0 in [0i64, 1, 7] {
        let mut wit = Model::mk();
        wit.add(xs, Offset::of_int(1), CstData::Int(x0));
        wit.add(xs, Offset::of_int(2), CstData::Int(x0 + 1));
        assert!(f.eval_bool(t_zero_le_x, &at1b, &wit).unwrap());
        let next = at1b.nxt();
        assert!(f.eval_bool(t_zero_le_x, &next, &wit).unwrap());
    }

    // published: exactly the inductive ordering, normalized for sharing
    let fact = learner.edge_invariant::<i64>(0, &mut f).unwrap().unwrap();
    assert_eq!(fact.curr(), t_zero_le_x);
    let published = vec![fact];
    assert_eq!(published.len(), 1);
    assert!(published.iter().all(|st| st.curr() != t_x_le_five));

    // moving to the next depth destabilizes every class again
    learner.advance_k();
    assert_eq!(learner.cnt(), 2);
    assert!(learner.next_class().is_some());
}

#[test]
fn bool_domain_prefers_true_and_suppresses_vacuous_orderings() {
    let mut f = Factory::mk();
    let t = f.cst(CstData::Bool(true));
    let ff = f.cst(CstData::Bool(false));
    let p = f.sym("p".to_owned());
    let tp = f.svar(p, State::Curr);
    // choose_rep prefers the literal true wherever it appears
    let set = set_of(&[tp, t]);
    let (rep, rest) = <bool as Domain>::choose_rep(&f, set).unwrap();
    assert_eq!(rep, t);
    assert!(rest.contains(tp));
    // false ⇒ x and x ⇒ true say nothing and are suppressed
    assert!(<bool as Domain>::mk_cmp(&mut f, ff, tp).is_none());
    assert!(<bool as Domain>::mk_cmp(&mut f, tp, t).is_none());
    let imp = <bool as Domain>::mk_cmp(&mut f, tp, ff).unwrap();
    let expect = f.op(Op::Impl, vec![tp, ff]);
    assert_eq!(imp.hkey, expect.hkey);
}

#[test]
fn int_domain_reads_and_orders() {
    assert_eq!(<i64 as Domain>::of_cst(&CstData::Int(4)).unwrap(), 4);
    assert!(<i64 as Domain>::of_cst(&CstData::Bool(true)).is_err());
    assert!(<i64 as Domain>::le(-3, 7));
    assert!(!<i64 as Domain>::le(7, -3));
}

#[test]
fn rat_domain_orders_by_cross_multiplication() {
    let half = Rat { num: 1, den: 2 };
    let two_quarters = Rat { num: 2, den: 4 };
    let two_thirds = Rat { num: 2, den: 3 };
    assert!(<Rat as Domain>::le(half, two_quarters) && <Rat as Domain>::le(two_quarters, half));
    assert!(<Rat as Domain>::le(half, two_thirds));
    assert!(!<Rat as Domain>::le(two_thirds, half));
    assert!(<Rat as Domain>::of_cst(&CstData::Rat(Rat { num: 1, den: 0 })).is_err());
}

#[test]
fn choose_rep_fails_only_on_the_empty_set() {
    let f = Factory::mk();
    assert!(<i64 as Domain>::choose_rep(&f, TermSet::mk()).is_err());
}

#[test]
fn learner_needs_candidates() {
    let mut f = Factory::mk();
    let xs = f.sym("x".to_owned());
    let x = f.svar(xs, State::Curr);
    let zero = f.cst(CstData::Int(0));
    let init = f.op(Op::Eq, vec![x, zero]);
    let trans = f.op(Op::Eq, vec![x, x]);
    let sys = Sys::mk(xs, vec![(xs, kino::term::Ty::Int)], init, trans);
    assert!(InvGen::mk::<i64>(&f, sys, TermSet::mk(), None, false).is_err());
}

#[test]
fn insert_helpers_respect_the_known_invariants() {
    let (mut f, ta, tb, _tc, ..) = three_vars();
    let mut set = TermSet::mk();
    let ignore = TermSet::mk();
    insert_cmp::<i64>(&mut f, ta, tb, &mut set, &ignore);
    insert_eq::<i64>(&mut f, ta, tb, &mut set, &ignore);
    assert_eq!(set.len(), 2);
    let le = f.op(Op::Le, vec![ta, tb]);
    let eq = f.op(Op::Eq, vec![ta, tb]);
    assert!(set.contains(le));
    assert!(set.contains(eq));
    // a term in the ignore set is not inserted again
    let mut set2 = TermSet::mk();
    insert_eq::<i64>(&mut f, ta, tb, &mut set2, &set);
    assert_eq!(set2.len(), 0);
    // a vacuous boolean implication inserts nothing
    let t = f.cst(CstData::Bool(true));
    let mut set3 = TermSet::mk();
    insert_cmp::<bool>(&mut f, ta, t, &mut set3, &ignore);
    assert_eq!(set3.len(), 0);
}
