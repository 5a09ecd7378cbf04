//! The term universe: interning, bumping, evaluation.

use kino::base::{Offset, Offset2, State};
use kino::eval::{EvalError, Model};
use kino::sys::STerm;
use kino::term::{CstData, Factory, Op, Rat, Sym, Term};

fn setup() -> (Factory, Sym, Term) {
    let mut f = Factory::mk();
    let x = f.sym("x".to_owned());
    let xc = f.svar(x, State::Curr);
    (f, x, xc)
}

#[test]
fn sym_interning_is_identity() {
    let mut f = Factory::mk();
    let a = f.sym("x".to_owned());
    let b = f.sym("y".to_owned());
    let a2 = f.sym("x".to_owned());
    assert_eq!(a, a2);
    assert_ne!(a, b);
    assert_eq!(f.sym_name(a).as_str(), "x");
    assert_eq!(f.sym_name(b).as_str(), "y");
}

#[test]
fn term_interning_same_structure_same_key() {
    // interning laws: building the same operator application twice over
    // equal arguments returns handles with equal keys
    let (mut f, _x, xc) = setup();
    let five = f.cst(CstData::Int(5));
    let t1 = f.op(Op::Le, vec![xc, five]);
    let t2 = f.op(Op::Le, vec![xc, five]);
    assert_eq!(t1.hkey, t2.hkey);
    let t3 = f.op(Op::Le, vec![five, xc]);
    assert_ne!(t1.hkey, t3.hkey);
}

#[test]
fn cst_interning_dedupes() {
    let mut f = Factory::mk();
    let a = f.cst(CstData::Int(5));
    let b = f.cst(CstData::Int(5));
    let c = f.cst(CstData::Int(6));
    assert_eq!(a.hkey, b.hkey);
    assert_ne!(a.hkey, c.hkey);
    assert_eq!(f.cst_consign().len(), 2);
}

#[test]
fn bump_shifts_current_to_next() {
    // the bump law: every current-state variable moves to the next
    // state, everything else is untouched
    let (mut f, x, xc) = setup();
    let five = f.cst(CstData::Int(5));
    let le = f.op(Op::Le, vec![xc, five]);
    let bumped = f.bump(le).unwrap();
    let xn = f.svar(x, State::Next);
    let expected = f.op(Op::Le, vec![xn, five]);
    assert_eq!(bumped.hkey, expected.hkey);
}

#[test]
fn bump_of_stateless_term_is_itself() {
    let mut f = Factory::mk();
    let five = f.cst(CstData::Int(5));
    assert_eq!(f.bump(five).unwrap().hkey, five.hkey);
}

#[test]
fn bump_twice_fails_on_state_terms() {
    // bumping a term with a current-state variable yields one with a
    // next-state variable, and bumping that fails
    let (mut f, _x, xc) = setup();
    let five = f.cst(CstData::Int(5));
    let le = f.op(Op::Le, vec![xc, five]);
    let once = f.bump(le).unwrap();
    assert!(f.bump(once).is_err());
}

#[test]
fn sterm_pairs_current_and_next() {
    let (mut f, x, xc) = setup();
    let st = STerm::mk(&mut f, xc).unwrap();
    assert_eq!(st.curr().hkey, xc.hkey);
    let xn = f.svar(x, State::Next);
    assert_eq!(st.next().hkey, xn.hkey);
    // a two-state term has no one-state normal form
    let xn2 = f.svar(x, State::Next);
    assert!(STerm::mk(&mut f, xn2).is_err());
}

#[test]
fn eval_reads_the_model_at_the_right_offset() {
    let (mut f, x, xc) = setup();
    let xn = f.svar(x, State::Next);
    let mut m = Model::mk();
    m.add(x, Offset::of_int(0), CstData::Int(10));
    m.add(x, Offset::of_int(1), CstData::Int(11));
    let off = Offset2::init();
    assert_eq!(f.eval_int(xc, &off, &m).unwrap(), 10);
    assert_eq!(f.eval_int(xn, &off, &m).unwrap(), 11);
}

#[test]
fn eval_computes_arithmetic_and_comparisons() {
    let (mut f, x, xc) = setup();
    let one = f.cst(CstData::Int(1));
    let five = f.cst(CstData::Int(5));
    let sum = f.op(Op::Add, vec![xc, one]);
    let lt = f.op(Op::Lt, vec![sum, five]);
    let mut m = Model::mk();
    m.add(x, Offset::of_int(0), CstData::Int(3));
    let off = Offset2::init();
    assert_eq!(f.eval_int(sum, &off, &m).unwrap(), 4);
    assert!(f.eval_bool(lt, &off, &m).unwrap());
    let m2 = {
        let mut m2 = Model::mk();
        m2.add(x, Offset::of_int(0), CstData::Int(4));
        m2
    };
    assert!(!f.eval_bool(lt, &off, &m2).unwrap());
}

#[test]
fn eval_boolean_operators() {
    let mut f = Factory::mk();
    let t = f.cst(CstData::Bool(true));
    let ff = f.cst(CstData::Bool(false));
    let imp = f.op(Op::Impl, vec![ff, t]);
    let conj = f.op(Op::And, vec![t, ff]);
    let neg = f.op(Op::Not, vec![ff]);
    let m = Model::mk();
    let off = Offset2::init();
    assert!(f.eval_bool(imp, &off, &m).unwrap());
    assert!(!f.eval_bool(conj, &off, &m).unwrap());
    assert!(f.eval_bool(neg, &off, &m).unwrap());
}

#[test]
fn eval_rational_comparison() {
    let mut f = Factory::mk();
    let half = f.cst(CstData::Rat(Rat { num: 1, den: 2 }));
    let twoquarters = f.cst(CstData::Rat(Rat { num: 2, den: 4 }));
    let twothirds = f.cst(CstData::Rat(Rat { num: 2, den: 3 }));
    let eq = f.op(Op::Eq, vec![half, twoquarters]);
    let le = f.op(Op::Le, vec![half, twothirds]);
    let gt = f.op(Op::Gt, vec![half, twothirds]);
    let m = Model::mk();
    let off = Offset2::init();
    assert!(f.eval_bool(eq, &off, &m).unwrap());
    assert!(f.eval_bool(le, &off, &m).unwrap());
    assert!(!f.eval_bool(gt, &off, &m).unwrap());
}

#[test]
fn eval_fails_on_undefined_variable() {
    let (mut f, _x, xc) = setup();
    let m = Model::mk();
    let off = Offset2::init();
    assert!(f.eval_int(xc, &off, &m).is_err());
}

#[test]
fn eval_fails_on_type_mismatch() {
    let mut f = Factory::mk();
    let t = f.cst(CstData::Bool(true));
    let one = f.cst(CstData::Int(1));
    let bad = f.op(Op::Add, vec![t, one]);
    let m = Model::mk();
    let off = Offset2::init();
    assert_eq!(f.eval(bad, &off, &m).unwrap_err(), EvalError::TypeMismatch);
}

#[test]
fn eval_fails_on_overflow() {
    let mut f = Factory::mk();
    let big = f.cst(CstData::Int(i64::MAX));
    let one = f.cst(CstData::Int(1));
    let sum = f.op(Op::Add, vec![big, one]);
    let m = Model::mk();
    let off = Offset2::init();
    assert_eq!(f.eval(sum, &off, &m).unwrap_err(), EvalError::Overflow);
}

#[test]
fn eval_fails_on_binders() {
    let mut f = Factory::mk();
    let y = f.sym("y".to_owned());
    let yv = f.var(y);
    let body = f.op(Op::Ge, vec![yv, yv]);
    let q = f.forall_b(vec![(y, kino::term::Ty::Int)], body);
    let m = Model::mk();
    let off = Offset2::init();
    assert_eq!(f.eval(q, &off, &m).unwrap_err(), EvalError::Unevaluable);
}

#[test]
fn eval_rational_arithmetic_exact() {
    // 1/2 + 1/3 = 5/6, 1/2 · 2/3 = 2/6, cross-multiplied forms
    let mut f = Factory::mk();
    let half = f.cst(CstData::Rat(Rat { num: 1, den: 2 }));
    let third = f.cst(CstData::Rat(Rat { num: 1, den: 3 }));
    let two_thirds = f.cst(CstData::Rat(Rat { num: 2, den: 3 }));
    let sum = f.op(Op::Add, vec![half, third]);
    let prod = f.op(Op::Mul, vec![half, two_thirds]);
    let m = Model::mk();
    let off = Offset2::init();
    assert_eq!(f.eval_rat(sum, &off, &m).unwrap(), Rat { num: 5, den: 6 });
    assert_eq!(f.eval_rat(prod, &off, &m).unwrap(), Rat { num: 2, den: 6 });
    let neg = f.op(Op::Neg, vec![half]);
    assert_eq!(f.eval_rat(neg, &off, &m).unwrap(), Rat { num: -1, den: 2 });
}

#[test]
fn eval_integer_arithmetic_exact() {
    let mut f = Factory::mk();
    let seven = f.cst(CstData::Int(7));
    let three = f.cst(CstData::Int(3));
    let diff = f.op(Op::Sub, vec![seven, three]);
    let prod = f.op(Op::Mul, vec![seven, three]);
    let m = Model::mk();
    let off = Offset2::init();
    assert_eq!(f.eval_int(diff, &off, &m).unwrap(), 4);
    assert_eq!(f.eval_int(prod, &off, &m).unwrap(), 21);
}
