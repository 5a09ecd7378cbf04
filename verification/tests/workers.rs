//! The solver session bookkeeping and the pruning machine.

use kino::base::{Offset, Offset2, State};
use kino::eval::Model;
use kino::event::{Info, MsgDown, Technique};
use kino::pruner::{pruner_react, CandState, InvManager, Pruner, PrunerStep};
use kino::sys::{STerm, Sys};
use kino::term::{CstData, Factory, Op, Sym, Term};
use kino::unroll::{SessionKind, SmtCmd, Unroller};

/// The counter system `x' = x + 1` from `x = 0`.
fn counter_sys(f: &mut Factory) -> (Sys, Sym, Term) {
    let xs = f.sym("x".to_owned());
    let x = f.svar(xs, State::Curr);
    let xn = f.svar(xs, State::Next);
    let zero = f.cst(CstData::Int(0));
    let one = f.cst(CstData::Int(1));
    let xp1 = f.op(Op::Add, vec![x, one]);
    let init = f.op(Op::Eq, vec![x, zero]);
    let trans = f.op(Op::Eq, vec![xn, xp1]);
    (
        Sys::mk(xs, vec![(xs, kino::term::Ty::Int)], init, trans),
        xs,
        x,
    )
}

#[test]
fn unroller_depth_counts_unrollings() {
    let mut f = Factory::mk();
    let (sys, _xs, _x) = counter_sys(&mut f);
    let mut u = Unroller::mk(sys);
    let (_, d1) = u.unroll();
    let (_, d2) = u.unroll();
    let (_, d3) = u.unroll();
    assert_eq!((d1, d2, d3), (1, 2, 3));
    let cmds = u.restart();
    assert!(matches!(cmds[0], SmtCmd::Reset));
    let (_, d) = u.unroll();
    assert_eq!(d, 1);
}

#[test]
fn unroller_declares_and_asserts() {
    let mut f = Factory::mk();
    let (sys, xs, _x) = counter_sys(&mut f);
    let init_term = sys.init();
    let trans_term = sys.trans();
    let u = Unroller::mk(sys);
    let decls = u.declare_svars(&Offset::of_int(0));
    assert_eq!(decls.len(), 1);
    assert!(matches!(decls[0], SmtCmd::DeclareSVar(s, _, o)
        if s == xs && o.to_usize() == 0));
    let off = Offset2::init();
    let cmds = u.unroll_init(&off);
    assert_eq!(cmds.len(), 2);
    assert!(matches!(cmds[0], SmtCmd::AssertAt(t, _) if t == init_term));
    assert!(matches!(cmds[1], SmtCmd::AssertAt(t, _) if t == trans_term));
}

#[test]
fn unroller_actlits_are_never_reused() {
    let mut f = Factory::mk();
    let (sys, _xs, _x) = counter_sys(&mut f);
    let mut u = Unroller::mk(sys);
    let (a0, c0) = u.fresh_actlit();
    let (a1, _) = u.fresh_actlit();
    assert_ne!(a0, a1);
    assert_eq!(c0, SmtCmd::DeclareActlit(a0));
    assert_eq!(a0.name_bytes(), b"actlit_0".to_vec());
    assert_eq!(a1.name_bytes(), b"actlit_1".to_vec());
    // a restart discards assertions but never recycles literal names
    u.restart();
    let (a2, _) = u.fresh_actlit();
    assert_eq!(a2.name_bytes(), b"actlit_2".to_vec());
}

#[test]
fn unroller_to_step_keeps_depth() {
    let mut f = Factory::mk();
    let (sys, _xs, _x) = counter_sys(&mut f);
    let mut u = Unroller::mk(sys);
    u.unroll();
    u.to_step();
    let (_, d) = u.unroll();
    assert_eq!(d, 2);
}

#[test]
fn unroller_add_invs_covers_the_range() {
    let mut f = Factory::mk();
    let (sys, _xs, x) = counter_sys(&mut f);
    let zero = f.cst(CstData::Int(0));
    let ge = f.op(Op::Ge, vec![x, zero]);
    let st = STerm::mk(&mut f, ge).unwrap();
    let u = Unroller::mk(sys);
    let from = Offset2::init();
    let to = from.nxt().nxt();
    let cmds = u.add_invs(&vec![st], &from, &to);
    assert_eq!(cmds.len(), 3);
    for (k, cmd) in cmds.iter().enumerate() {
        assert!(matches!(cmd, SmtCmd::AssertAt(t, o2)
            if *t == ge && o2.curr().to_usize() == k));
    }
}

#[test]
fn pruner_identity() {
    assert_eq!(Pruner.id(), Technique::Pruner);
}

#[test]
fn pruner_reacts_to_its_own_system_only() {
    let mut f = Factory::mk();
    let (_sys, xs, x) = counter_sys(&mut f);
    let other = f.sym("other".to_owned());
    let zero = f.cst(CstData::Int(0));
    let ge = f.op(Op::Ge, vec![x, zero]);
    let st = STerm::mk(&mut f, ge).unwrap();

    let r = pruner_react(MsgDown::Invariants(xs, vec![st]), xs);
    assert!(matches!(r, PrunerStep::AddInvariants(v) if v.len() == 1));
    let r = pruner_react(MsgDown::Invariants(other, vec![st]), xs);
    assert!(matches!(r, PrunerStep::Ignore));
    let r = pruner_react(
        MsgDown::InvariantPruning(Technique::Tig, xs, vec![st], Info::Error),
        xs,
    );
    assert!(matches!(r, PrunerStep::StartPruning(Technique::Tig, v, _) if v.len() == 1));
    let r = pruner_react(MsgDown::KTrue(vec![xs], Offset::of_int(1)), xs);
    assert!(matches!(r, PrunerStep::Ignore));
}

#[test]
fn pruning_keeps_the_stronger_invariant() {
    // the pruning scenario: candidates x ≥ 0 and x ≥ -1 over the counter
    // system, whose transition x' = x + 1 stands as background; the run
    // excludes x ≥ -1, which x ≥ 0 implies under one step, and keeps
    // x ≥ 0, which a model falsifies at the next state
    let mut f = Factory::mk();
    let (sys, xs, x) = counter_sys(&mut f);
    let zero = f.cst(CstData::Int(0));
    let minus_one = f.cst(CstData::Int(-1));
    let ge0 = f.op(Op::Ge, vec![x, zero]);
    let ge_m1 = f.op(Op::Ge, vec![x, minus_one]);
    let st0 = STerm::mk(&mut f, ge0).unwrap();
    let st1 = STerm::mk(&mut f, ge_m1).unwrap();

    let mut u = Unroller::mk(sys);
    let off = Offset2::init();
    let (mut mgr, cmds) = InvManager::mk(vec![st0, st1], &mut u, &off);
    // one declaration and one gated assertion per candidate
    assert_eq!(cmds.len(), 4);
    assert_eq!(mgr.actlits().len(), 2);

    // first pick: x ≥ 0; its refutation is satisfiable in a free state,
    // say x = -1 at the next step, which falsifies x ≥ 0 but not x ≥ -1
    let picked = mgr.one_false_next().unwrap();
    assert_eq!(picked, 0);
    let (_neg_actlit, query) = mgr.refute_query(picked, &mut f, &mut u, &off);
    assert_eq!(query.len(), 2);
    let mut model = Model::mk();
    model.add(xs, Offset::of_int(1), CstData::Int(-1));
    let marked = mgr.on_sat(&f, &off, &model).unwrap();
    assert_eq!(marked, vec![0]);

    // second pick: x ≥ -1; from a state where both candidates hold,
    // x' = x + 1 keeps x' ≥ -1, so the refutation is unsatisfiable and
    // the candidate is trivial
    let picked = mgr.one_false_next().unwrap();
    assert_eq!(picked, 1);
    let _ = mgr.refute_query(picked, &mut f, &mut u, &off);
    mgr.on_unsat(picked);

    assert!(mgr.one_false_next().is_none());
    let kept = mgr.non_trivial();
    assert_eq!(kept.len(), 1);
    assert_eq!(kept[0], st0);
}

#[test]
fn pruning_is_idempotent_on_the_kept_set() {
    // running the pruner again on what it kept changes nothing: the one
    // candidate is falsifiable at the next state again and stays
    let mut f = Factory::mk();
    let (sys, xs, x) = counter_sys(&mut f);
    let zero = f.cst(CstData::Int(0));
    let ge0 = f.op(Op::Ge, vec![x, zero]);
    let st0 = STerm::mk(&mut f, ge0).unwrap();

    let mut u = Unroller::mk(sys);
    let off = Offset2::init();
    let (mut mgr, _) = InvManager::mk(vec![st0], &mut u, &off);
    let picked = mgr.one_false_next().unwrap();
    let _ = mgr.refute_query(picked, &mut f, &mut u, &off);
    let mut model = Model::mk();
    model.add(xs, Offset::of_int(1), CstData::Int(-3));
    let marked = mgr.on_sat(&f, &off, &model).unwrap();
    assert_eq!(marked, vec![0]);
    assert!(mgr.one_false_next().is_none());
    assert_eq!(mgr.non_trivial(), vec![st0]);
}

#[test]
fn on_sat_skips_nothing_and_marks_all_falsified() {
    let mut f = Factory::mk();
    let (sys, xs, x) = counter_sys(&mut f);
    let zero = f.cst(CstData::Int(0));
    let five = f.cst(CstData::Int(5));
    let ge0 = f.op(Op::Ge, vec![x, zero]);
    let lt5 = f.op(Op::Lt, vec![x, five]);
    let st0 = STerm::mk(&mut f, ge0).unwrap();
    let st1 = STerm::mk(&mut f, lt5).unwrap();
    let mut u = Unroller::mk(sys);
    let off = Offset2::init();
    let (mut mgr, _) = InvManager::mk(vec![st0, st1], &mut u, &off);
    // a model where the next state is x = -2 falsifies x ≥ 0 but keeps
    // x < 5: exactly one candidate is marked
    let mut model = Model::mk();
    model.add(xs, Offset::of_int(1), CstData::Int(-2));
    let marked = mgr.on_sat(&f, &off, &model).unwrap();
    assert_eq!(marked, vec![0]);
    // a partial model leaves the manager untouched
    let empty = Model::mk();
    assert!(mgr.on_sat(&f, &off, &empty).is_err());
    let _ = CandState::Trivial;
    let _ = SessionKind::Base;
}
