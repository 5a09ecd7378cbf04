//! Models returned by the solver, and evaluation of terms against a model
//! at a two-state offset.
//!
//! [`eval_spec`] is the mathematical meaning of evaluation; the executable
//! [`Factory::eval`] returns exactly what it denotes, and an error exactly
//! where the denotation is undefined (unknown variable, type mismatch, a
//! binder, or a value outside the machine range).

use vstd::prelude::*;

use crate::base::{Offset, Offset2, State};
use crate::term::{entry_wf, CstData, Factory, Op, Rat, Sym, Term, TermData};

verus! {

/// One line of a model: the value a state variable takes at an offset.
#[derive(Debug, Clone, Copy, PartialEq, Eq, Structural)]
pub struct ModelEntry {
    /// The state variable's symbol.
    pub sym: Sym,
    /// The offset the value is observed at.
    pub off: Offset,
    /// The value.
    pub val: CstData,
}

/// The model defines a value for `(sid, off)`.
pub open spec fn model_has(s: Seq<ModelEntry>, sid: int, off: int) -> bool {
    exists|i: int| 0 <= i < s.len() && (#[trigger] s[i]).sym.id == sid && s[i].off.val() == off
}

/// The value the model gives `(sid, off)`; meaningful under `model_seq_wf`.
pub open spec fn model_get(s: Seq<ModelEntry>, sid: int, off: int) -> CstData {
    s[choose|i: int|
        0 <= i < s.len() && (#[trigger] s[i]).sym.id == sid && s[i].off.val() == off].val
}

/// No two entries bind the same `(symbol, offset)` pair.
pub open spec fn model_seq_wf(s: Seq<ModelEntry>) -> bool {
    forall|i: int, j: int|
        0 <= i < j < s.len() ==> !((#[trigger] s[i]).sym.id == (#[trigger] s[j]).sym.id
            && s[i].off.val() == s[j].off.val())
}

/// An assignment returned by the solver on a satisfiable query: a typed
/// map from `(symbol, offset)` to a constant. Transient: it lives for one
/// check-sat/get-model round.
#[derive(Debug, Clone)]
pub struct Model {
    entries: Vec<ModelEntry>,
}

impl Model {
    /// The model's entries.
    pub closed spec fn entries_view(&self) -> Seq<ModelEntry> {
        self.entries@
    }

    /// Each `(symbol, offset)` pair is bound at most once.
    pub open spec fn wf(&self) -> bool {
        model_seq_wf(self.entries_view())
    }

    /// An empty model.
    pub fn mk() -> (r: Self)
        ensures
            r.wf(),
            r.entries_view() == Seq::<ModelEntry>::empty(),
    {
        Model { entries: Vec::new() }
    }

    /// Binds one more `(symbol, offset)` pair, not bound before.
    pub fn add(&mut self, sym: Sym, off: Offset, val: CstData)
        requires
            old(self).wf(),
            !model_has(old(self).entries_view(), sym.id as int, off.val()),
        ensures
            final(self).wf(),
            final(self).entries_view() == old(self).entries_view().push(
                ModelEntry { sym, off, val },
            ),
    {
        self.entries.push(ModelEntry { sym, off, val });
        proof {
            let s = self.entries_view();
            assert forall|i: int, j: int| 0 <= i < j < s.len() implies !((#[trigger] s[i]).sym.id
                == (#[trigger] s[j]).sym.id && s[i].off.val() == s[j].off.val()) by {
                if j == s.len() - 1 {
                    assert(!model_has(old(self).entries_view(), sym.id as int, off.val()));
                }
            }
        }
    }

    /// The value bound for `(sym, off)`, if any.
    pub fn lookup(&self, sym: Sym, off: Offset) -> (r: Option<CstData>)
        requires
            self.wf(),
        ensures
            match r {
                Some(v) => model_has(self.entries_view(), sym.id as int, off.val()) && v
                    == model_get(self.entries_view(), sym.id as int, off.val()),
                None => !model_has(self.entries_view(), sym.id as int, off.val()),
            },
    {
        let n = self.entries.len();
        let mut i: usize = 0;
        while i < n
            invariant
                self.wf(),
                n == self.entries_view().len(),
                0 <= i <= n,
                forall|j: int| 0 <= j < i ==> !((#[trigger] self.entries_view()[j]).sym.id
                    == sym.id && self.entries_view()[j].off.val() == off.val()),
            decreases n - i,
        {
            let e = self.entries[i];
            proof {
                crate::base::lemma_offset_eq_val(self.entries_view()[i as int].off, off);
            }
            if e.sym.id == sym.id && e.off == off {
                proof {
                    let s = self.entries_view();
                    assert(model_has(s, sym.id as int, off.val()));
                    let w = choose|x: int|
                        0 <= x < s.len() && (#[trigger] s[x]).sym.id == sym.id && s[x].off.val()
                            == off.val();
                    assert(w == i as int);
                }
                return Some(e.val);
            }
            i = i + 1;
        }
        None
    }
}

/// A rational is well formed when its denominator is positive.
pub open spec fn rat_wf(r: Rat) -> bool {
    r.den > 0
}

/// Rational order by cross-multiplication; meaningful under `rat_wf`.
pub open spec fn rat_le(a: Rat, b: Rat) -> bool {
    a.num * b.den <= b.num * a.den
}

/// Rational equality by cross-multiplication; meaningful under `rat_wf`.
pub open spec fn rat_eq(a: Rat, b: Rat) -> bool {
    a.num * b.den == b.num * a.den
}

/// The value fits in a machine integer.
pub open spec fn i64_ok(n: int) -> bool {
    i64::MIN <= n <= i64::MAX
}

/// The product of an `i64` by a positive `i64` stays well inside `i128`.
proof fn lemma_prod_fits(x: int, y: int) by (nonlinear_arith)
    requires
        i64::MIN <= x <= i64::MAX,
        i64::MIN <= y <= i64::MAX,
    ensures
        -0x8000_0000_0000_0000_0000_0000_0000_0000 < x * y
            < 0x8000_0000_0000_0000_0000_0000_0000_0000,
        y > 0 ==> x > 0 ==> x * y > 0,
        y > 0 ==> x >= 0 ==> x * y >= 0,
        y > 0 ==> x < 0 ==> x * y < 0,
        1 <= y ==> -0x3FFF_FFFF_FFFF_FFFF_8000_0000_0000_0000 <= x * y
            <= 0x3FFF_FFFF_FFFF_FFFF_8000_0000_0000_0000,
{
}

/// Sum of two rationals, `None` outside the machine range.
pub open spec fn rat_add(a: Rat, b: Rat) -> Option<Rat> {
    let num = a.num * b.den + b.num * a.den;
    let den = a.den * b.den;
    if i64_ok(num) && i64_ok(den) {
        Some(Rat { num: num as i64, den: den as i64 })
    } else {
        None
    }
}

/// Difference of two rationals, `None` outside the machine range.
pub open spec fn rat_sub(a: Rat, b: Rat) -> Option<Rat> {
    let num = a.num * b.den - b.num * a.den;
    let den = a.den * b.den;
    if i64_ok(num) && i64_ok(den) {
        Some(Rat { num: num as i64, den: den as i64 })
    } else {
        None
    }
}

/// Product of two rationals, `None` outside the machine range.
pub open spec fn rat_mul(a: Rat, b: Rat) -> Option<Rat> {
    let num = a.num * b.num;
    let den = a.den * b.den;
    if i64_ok(num) && i64_ok(den) {
        Some(Rat { num: num as i64, den: den as i64 })
    } else {
        None
    }
}

/// The meaning of a unary operator on a constant; `None` on a type
/// mismatch or outside the machine range.
pub open spec fn eval_op1(o: Op, v: CstData) -> Option<CstData> {
    match (o, v) {
        (Op::Not, CstData::Bool(b)) => Some(CstData::Bool(!b)),
        (Op::Neg, CstData::Int(i)) => if i64_ok(-(i as int)) {
            Some(CstData::Int((-(i as int)) as i64))
        } else {
            None
        },
        (Op::Neg, CstData::Rat(r)) => if rat_wf(r) && i64_ok(-(r.num as int)) {
            Some(CstData::Rat(Rat { num: (-(r.num as int)) as i64, den: r.den }))
        } else {
            None
        },
        _ => None,
    }
}

/// The meaning of a binary operator on two constants; `None` on a type
/// mismatch, an ill-formed rational, or outside the machine range.
pub open spec fn eval_op2(o: Op, a: CstData, b: CstData) -> Option<CstData> {
    match (o, a, b) {
        (Op::And, CstData::Bool(x), CstData::Bool(y)) => Some(CstData::Bool(x && y)),
        (Op::Or, CstData::Bool(x), CstData::Bool(y)) => Some(CstData::Bool(x || y)),
        (Op::Impl, CstData::Bool(x), CstData::Bool(y)) => Some(CstData::Bool(!x || y)),
        (Op::Eq, CstData::Bool(x), CstData::Bool(y)) => Some(CstData::Bool(x == y)),
        (Op::Eq, CstData::Int(x), CstData::Int(y)) => Some(CstData::Bool(x == y)),
        (Op::Eq, CstData::Rat(x), CstData::Rat(y)) => if rat_wf(x) && rat_wf(y) {
            Some(CstData::Bool(rat_eq(x, y)))
        } else {
            None
        },
        (Op::Le, CstData::Int(x), CstData::Int(y)) => Some(CstData::Bool(x <= y)),
        (Op::Lt, CstData::Int(x), CstData::Int(y)) => Some(CstData::Bool(x < y)),
        (Op::Ge, CstData::Int(x), CstData::Int(y)) => Some(CstData::Bool(x >= y)),
        (Op::Gt, CstData::Int(x), CstData::Int(y)) => Some(CstData::Bool(x > y)),
        (Op::Le, CstData::Rat(x), CstData::Rat(y)) => if rat_wf(x) && rat_wf(y) {
            Some(CstData::Bool(rat_le(x, y)))
        } else {
            None
        },
        (Op::Lt, CstData::Rat(x), CstData::Rat(y)) => if rat_wf(x) && rat_wf(y) {
            Some(CstData::Bool(!rat_le(y, x)))
        } else {
            None
        },
        (Op::Ge, CstData::Rat(x), CstData::Rat(y)) => if rat_wf(x) && rat_wf(y) {
            Some(CstData::Bool(rat_le(y, x)))
        } else {
            None
        },
        (Op::Gt, CstData::Rat(x), CstData::Rat(y)) => if rat_wf(x) && rat_wf(y) {
            Some(CstData::Bool(!rat_le(x, y)))
        } else {
            None
        },
        (Op::Add, CstData::Int(x), CstData::Int(y)) => if i64_ok(x + y) {
            Some(CstData::Int((x + y) as i64))
        } else {
            None
        },
        (Op::Sub, CstData::Int(x), CstData::Int(y)) => if i64_ok(x - y) {
            Some(CstData::Int((x - y) as i64))
        } else {
            None
        },
        (Op::Mul, CstData::Int(x), CstData::Int(y)) => if i64_ok(x * y) {
            Some(CstData::Int((x * y) as i64))
        } else {
            None
        },
        (Op::Add, CstData::Rat(x), CstData::Rat(y)) => if rat_wf(x) && rat_wf(y) {
            match rat_add(x, y) {
                Some(r) => Some(CstData::Rat(r)),
                None => None,
            }
        } else {
            None
        },
        (Op::Sub, CstData::Rat(x), CstData::Rat(y)) => if rat_wf(x) && rat_wf(y) {
            match rat_sub(x, y) {
                Some(r) => Some(CstData::Rat(r)),
                None => None,
            }
        } else {
            None
        },
        (Op::Mul, CstData::Rat(x), CstData::Rat(y)) => if rat_wf(x) && rat_wf(y) {
            match rat_mul(x, y) {
                Some(r) => Some(CstData::Rat(r)),
                None => None,
            }
        } else {
            None
        },
        _ => None,
    }
}

/// Why evaluation failed.
#[derive(Debug, Clone, Copy, PartialEq, Eq, Structural)]
pub enum EvalError {
    /// A variable the model does not define.
    UnknownVar,
    /// An operator applied to values of the wrong type.
    TypeMismatch,
    /// A binder or an uninterpreted application: no model can decide it.
    Unevaluable,
    /// The value falls outside the machine range.
    Overflow,
}

/// Compares two well-formed rationals.
pub fn rat_le_exec(a: Rat, b: Rat) -> (r: bool)
    requires
        rat_wf(a),
        rat_wf(b),
    ensures
        r == rat_le(a, b),
{
    proof {
        lemma_prod_fits(a.num as int, b.den as int);
        lemma_prod_fits(b.num as int, a.den as int);
    }
    (a.num as i128) * (b.den as i128) <= (b.num as i128) * (a.den as i128)
}

/// Decides equality of two well-formed rationals.
fn rat_eq_exec(a: Rat, b: Rat) -> (r: bool)
    requires
        rat_wf(a),
        rat_wf(b),
    ensures
        r == rat_eq(a, b),
{
    proof {
        lemma_prod_fits(a.num as int, b.den as int);
        lemma_prod_fits(b.num as int, a.den as int);
    }
    (a.num as i128) * (b.den as i128) == (b.num as i128) * (a.den as i128)
}

/// Packs a cross-multiplied numerator and denominator into a rational if
/// both fit the machine range.
fn rat_pack(num: i128, den: i128) -> (r: Result<Rat, EvalError>)
    requires
        den > 0,
    ensures
        match r {
            Ok(v) => i64_ok(num as int) && i64_ok(den as int) && v == (Rat {
                num: num as i64,
                den: den as i64,
            }),
            Err(_) => !(i64_ok(num as int) && i64_ok(den as int)),
        },
{
    if i64::MIN as i128 <= num && num <= i64::MAX as i128 && den <= i64::MAX as i128 {
        Ok(Rat { num: num as i64, den: den as i64 })
    } else {
        Err(EvalError::Overflow)
    }
}

/// Applies a unary operator to a constant.
fn eval_op1_exec(o: Op, v: CstData) -> (r: Result<CstData, EvalError>)
    ensures
        match r {
            Ok(w) => eval_op1(o, v) == Some(w),
            Err(_) => eval_op1(o, v) is None,
        },
{
    match (o, v) {
        (Op::Not, CstData::Bool(b)) => Ok(CstData::Bool(!b)),
        (Op::Neg, CstData::Int(i)) => if i == i64::MIN {
            Err(EvalError::Overflow)
        } else {
            Ok(CstData::Int(-i))
        },
        (Op::Neg, CstData::Rat(r)) => if r.den <= 0 {
            Err(EvalError::TypeMismatch)
        } else if r.num == i64::MIN {
            Err(EvalError::Overflow)
        } else {
            Ok(CstData::Rat(Rat { num: -r.num, den: r.den }))
        },
        _ => Err(EvalError::TypeMismatch),
    }
}

/// Applies a binary operator to two constants.
fn eval_op2_exec(o: Op, a: CstData, b: CstData) -> (r: Result<CstData, EvalError>)
    ensures
        match r {
            Ok(w) => eval_op2(o, a, b) == Some(w),
            Err(_) => eval_op2(o, a, b) is None,
        },
{
    match (o, a, b) {
        (Op::And, CstData::Bool(x), CstData::Bool(y)) => Ok(CstData::Bool(x && y)),
        (Op::Or, CstData::Bool(x), CstData::Bool(y)) => Ok(CstData::Bool(x || y)),
        (Op::Impl, CstData::Bool(x), CstData::Bool(y)) => Ok(CstData::Bool(!x || y)),
        (Op::Eq, CstData::Bool(x), CstData::Bool(y)) => Ok(CstData::Bool(x == y)),
        (Op::Eq, CstData::Int(x), CstData::Int(y)) => Ok(CstData::Bool(x == y)),
        (Op::Eq, CstData::Rat(x), CstData::Rat(y)) => if x.den > 0 && y.den > 0 {
            Ok(CstData::Bool(rat_eq_exec(x, y)))
        } else {
            Err(EvalError::TypeMismatch)
        },
        (Op::Le, CstData::Int(x), CstData::Int(y)) => Ok(CstData::Bool(x <= y)),
        (Op::Lt, CstData::Int(x), CstData::Int(y)) => Ok(CstData::Bool(x < y)),
        (Op::Ge, CstData::Int(x), CstData::Int(y)) => Ok(CstData::Bool(x >= y)),
        (Op::Gt, CstData::Int(x), CstData::Int(y)) => Ok(CstData::Bool(x > y)),
        (Op::Le, CstData::Rat(x), CstData::Rat(y)) => if x.den > 0 && y.den > 0 {
            Ok(CstData::Bool(rat_le_exec(x, y)))
        } else {
            Err(EvalError::TypeMismatch)
        },
        (Op::Lt, CstData::Rat(x), CstData::Rat(y)) => if x.den > 0 && y.den > 0 {
            Ok(CstData::Bool(!rat_le_exec(y, x)))
        } else {
            Err(EvalError::TypeMismatch)
        },
        (Op::Ge, CstData::Rat(x), CstData::Rat(y)) => if x.den > 0 && y.den > 0 {
            Ok(CstData::Bool(rat_le_exec(y, x)))
        } else {
            Err(EvalError::TypeMismatch)
        },
        (Op::Gt, CstData::Rat(x), CstData::Rat(y)) => if x.den > 0 && y.den > 0 {
            Ok(CstData::Bool(!rat_le_exec(x, y)))
        } else {
            Err(EvalError::TypeMismatch)
        },
        (Op::Add, CstData::Int(x), CstData::Int(y)) => {
            let s: i128 = x as i128 + y as i128;
            if i64::MIN as i128 <= s && s <= i64::MAX as i128 {
                Ok(CstData::Int(s as i64))
            } else {
                Err(EvalError::Overflow)
            }
        },
        (Op::Sub, CstData::Int(x), CstData::Int(y)) => {
            let s: i128 = x as i128 - y as i128;
            if i64::MIN as i128 <= s && s <= i64::MAX as i128 {
                Ok(CstData::Int(s as i64))
            } else {
                Err(EvalError::Overflow)
            }
        },
        (Op::Mul, CstData::Int(x), CstData::Int(y)) => {
            proof {
                lemma_prod_fits(x as int, y as int);
            }
            let s: i128 = x as i128 * y as i128;
            if i64::MIN as i128 <= s && s <= i64::MAX as i128 {
                Ok(CstData::Int(s as i64))
            } else {
                Err(EvalError::Overflow)
            }
        },
        (Op::Add, CstData::Rat(x), CstData::Rat(y)) => if x.den > 0 && y.den > 0 {
            proof {
                lemma_prod_fits(x.num as int, y.den as int);
                lemma_prod_fits(y.num as int, x.den as int);
                lemma_prod_fits(x.den as int, y.den as int);
            }
            let num: i128 = (x.num as i128) * (y.den as i128) + (y.num as i128) * (x.den as i128);
            let den: i128 = (x.den as i128) * (y.den as i128);
            match rat_pack(num, den) {
                Ok(v) => Ok(CstData::Rat(v)),
                Err(e) => Err(e),
            }
        } else {
            Err(EvalError::TypeMismatch)
        },
        (Op::Sub, CstData::Rat(x), CstData::Rat(y)) => if x.den > 0 && y.den > 0 {
            proof {
                lemma_prod_fits(x.num as int, y.den as int);
                lemma_prod_fits(y.num as int, x.den as int);
                lemma_prod_fits(x.den as int, y.den as int);
            }
            let num: i128 = (x.num as i128) * (y.den as i128) - (y.num as i128) * (x.den as i128);
            let den: i128 = (x.den as i128) * (y.den as i128);
            match rat_pack(num, den) {
                Ok(v) => Ok(CstData::Rat(v)),
                Err(e) => Err(e),
            }
        } else {
            Err(EvalError::TypeMismatch)
        },
        (Op::Mul, CstData::Rat(x), CstData::Rat(y)) => if x.den > 0 && y.den > 0 {
            proof {
                lemma_prod_fits(x.num as int, y.num as int);
                lemma_prod_fits(x.den as int, y.den as int);
            }
            let num: i128 = (x.num as i128) * (y.num as i128);
            let den: i128 = (x.den as i128) * (y.den as i128);
            match rat_pack(num, den) {
                Ok(v) => Ok(CstData::Rat(v)),
                Err(e) => Err(e),
            }
        } else {
            Err(EvalError::TypeMismatch)
        },
        _ => Err(EvalError::TypeMismatch),
    }
}

/// The meaning of evaluating the term with key `k` against model `m` at
/// two-state offset `off`: current-state variables are read at the current
/// offset, next-state ones at the next; `None` where the model leaves the
/// value undefined, on type mismatch, outside the machine range, and on
/// binders and uninterpreted applications.
pub open spec fn eval_spec(
    ttbl: Seq<TermData>,
    ctbl: Seq<CstData>,
    k: int,
    off: Offset2,
    m: Seq<ModelEntry>,
) -> Option<CstData>
    decreases k,
        when 0 <= k < ttbl.len() && crate::term::table_keys_lt(ttbl)
{
    match ttbl[k] {
        TermData::Var(_) => None,
        TermData::SVar(s, st) => {
            let o = if st == State::Curr {
                off.curr_val()
            } else {
                off.next_val()
            };
            if model_has(m, s.id as int, o) {
                Some(model_get(m, s.id as int, o))
            } else {
                None
            }
        },
        TermData::Cst(c) => if c.id < ctbl.len() {
            Some(ctbl[c.id as int])
        } else {
            None
        },
        TermData::Op(o, args) => if args@.len() == 1 {
            match eval_spec(ttbl, ctbl, args@[0].hkey as int, off, m) {
                Some(v) => eval_op1(o, v),
                None => None,
            }
        } else if args@.len() == 2 {
            match (
                eval_spec(ttbl, ctbl, args@[0].hkey as int, off, m),
                eval_spec(ttbl, ctbl, args@[1].hkey as int, off, m),
            ) {
                (Some(v1), Some(v2)) => eval_op2(o, v1, v2),
                _ => None,
            }
        } else {
            None
        },
        TermData::App(..) => None,
        TermData::Forall(..) => None,
        TermData::Exists(..) => None,
        TermData::Let(..) => None,
    }
}

impl Factory {
    /// What this factory's tables say the term with key `k` evaluates to.
    pub open spec fn eval_of(&self, t: Term, off: Offset2, m: &Model) -> Option<CstData> {
        eval_spec(self.terms_view(), self.csts_view(), t.hkey as int, off, m.entries_view())
    }

    /// Evaluates a term against a model at a two-state offset. Returns
    /// exactly the value [`eval_spec`] denotes, and an error exactly where
    /// that denotation is undefined.
    pub fn eval(&self, t: Term, off: &Offset2, model: &Model) -> (r: Result<CstData, EvalError>)
        requires
            self.wf(),
            model.wf(),
            self.term_valid(t),
        ensures
            match r {
                Ok(v) => self.eval_of(t, *off, model) == Some(v),
                Err(_) => self.eval_of(t, *off, model) is None,
            },
        decreases t.hkey,
    {
        proof {
            crate::term::lemma_table_wf_keys_lt(self.terms_view(), self.n_syms(), self.n_csts());
            assert(entry_wf(self.term_at(t.hkey as int), self.n_syms(), self.n_csts(),
                t.hkey as int));
        }
        match self.get(t) {
            TermData::Var(_) => Err(EvalError::UnknownVar),
            TermData::SVar(s, st) => {
                let o = off.index(st);
                match model.lookup(*s, o) {
                    Some(v) => Ok(v),
                    None => Err(EvalError::UnknownVar),
                }
            },
            TermData::Cst(c) => {
                let c = *c;
                Ok(self.cst_data(c))
            },
            TermData::Op(o, args) => {
                let o = *o;
                if args.len() == 1 {
                    let a0 = args[0];
                    match self.eval(a0, off, model) {
                        Ok(v) => eval_op1_exec(o, v),
                        Err(e) => Err(e),
                    }
                } else if args.len() == 2 {
                    let a0 = args[0];
                    let a1 = args[1];
                    match self.eval(a0, off, model) {
                        Ok(v1) => match self.eval(a1, off, model) {
                            Ok(v2) => eval_op2_exec(o, v1, v2),
                            Err(e) => Err(e),
                        },
                        Err(e) => Err(e),
                    }
                } else {
                    Err(EvalError::TypeMismatch)
                }
            },
            TermData::App(..) => Err(EvalError::Unevaluable),
            TermData::Forall(..) => Err(EvalError::Unevaluable),
            TermData::Exists(..) => Err(EvalError::Unevaluable),
            TermData::Let(..) => Err(EvalError::Unevaluable),
        }
    }

    /// Evaluates a term expected to be boolean.
    pub fn eval_bool(&self, t: Term, off: &Offset2, model: &Model) -> (r: Result<bool, EvalError>)
        requires
            self.wf(),
            model.wf(),
            self.term_valid(t),
        ensures
            match r {
                Ok(b) => self.eval_of(t, *off, model) == Some(CstData::Bool(b)),
                Err(_) => forall|b: bool| self.eval_of(t, *off, model) != Some(CstData::Bool(b)),
            },
    {
        match self.eval(t, off, model) {
            Ok(CstData::Bool(b)) => Ok(b),
            Ok(_) => Err(EvalError::TypeMismatch),
            Err(e) => Err(e),
        }
    }

    /// Evaluates a term expected to be an integer.
    pub fn eval_int(&self, t: Term, off: &Offset2, model: &Model) -> (r: Result<i64, EvalError>)
        requires
            self.wf(),
            model.wf(),
            self.term_valid(t),
        ensures
            match r {
                Ok(i) => self.eval_of(t, *off, model) == Some(CstData::Int(i)),
                Err(_) => forall|i: i64| self.eval_of(t, *off, model) != Some(CstData::Int(i)),
            },
    {
        match self.eval(t, off, model) {
            Ok(CstData::Int(i)) => Ok(i),
            Ok(_) => Err(EvalError::TypeMismatch),
            Err(e) => Err(e),
        }
    }

    /// Evaluates a term expected to be a rational.
    pub fn eval_rat(&self, t: Term, off: &Offset2, model: &Model) -> (r: Result<Rat, EvalError>)
        requires
            self.wf(),
            model.wf(),
            self.term_valid(t),
        ensures
            match r {
                Ok(q) => self.eval_of(t, *off, model) == Some(CstData::Rat(q)),
                Err(_) => forall|q: Rat| self.eval_of(t, *off, model) != Some(CstData::Rat(q)),
            },
    {
        match self.eval(t, off, model) {
            Ok(CstData::Rat(q)) => Ok(q),
            Ok(_) => Err(EvalError::TypeMismatch),
            Err(e) => Err(e),
        }
    }
}

} // verus!
