//! Value domains for invariant generation: the type candidate terms
//! evaluate to, with a total order that directs the graph's edges.
//!
//! The closed set of domains: booleans ordered by implication, integers
//! and rationals ordered by `≤`. Each also says how to build the ordering
//! and equality terms between two candidates, and how to pick a class
//! representative deterministically.

use vstd::prelude::*;

use crate::eval::{rat_le, rat_le_exec, rat_wf};
use crate::graph::TermSet;
use crate::term::{
    arity_spec, intern_post, td_eq, CstData, Factory, Op, Rat, Term, TermData,
};

verus! {

/// The term with key `k` is interned as the boolean literal `b`.
pub open spec fn is_bool_lit_key(f: Factory, k: int, b: bool) -> bool {
    &&& 0 <= k < f.n_terms()
    &&& match f.term_at(k) {
        TermData::Cst(c) => c.id < f.n_csts() && f.csts_view()[c.id as int] == CstData::Bool(b),
        _ => false,
    }
}

/// Decides whether a term is the boolean literal `b`.
pub fn is_bool_lit(f: &Factory, t: Term, b: bool) -> (r: bool)
    requires
        f.wf(),
        f.term_valid(t),
    ensures
        r == is_bool_lit_key(*f, t.hkey as int, b),
{
    match f.get(t) {
        TermData::Cst(c) => {
            let c = *c;
            proof {
                assert(crate::term::entry_wf(f.term_at(t.hkey as int), f.n_syms(), f.n_csts(),
                    t.hkey as int));
            }
            match f.cst_data(c) {
                CstData::Bool(x) => x == b,
                _ => false,
            }
        },
        _ => false,
    }
}

/// The entry is the binary operator `o` applied to exactly `lhs`, `rhs`.
pub open spec fn is_op2_entry(d: TermData, o: Op, lhs: Term, rhs: Term) -> bool {
    match d {
        TermData::Op(o2, args) => o2 == o && args@.len() == 2 && args@[0] == lhs && args@[1]
            == rhs,
        _ => false,
    }
}

/// What interning the binary term `o(lhs, rhs)` guarantees: the factory
/// only grows, the handle names that term, an existing entry is reused
/// with the factory unchanged, and a fresh entry is appended at the end.
pub open spec fn op2_intern_post(
    pre: Factory,
    post: Factory,
    o: Op,
    lhs: Term,
    rhs: Term,
    t: Term,
) -> bool {
    &&& post.wf()
    &&& post.extends(pre)
    &&& post.syms_view() == pre.syms_view()
    &&& post.csts_view() == pre.csts_view()
    &&& post.term_valid(t)
    &&& is_op2_entry(post.term_at(t.hkey as int), o, lhs, rhs)
    &&& (exists|j: int|
        0 <= j < pre.n_terms() && is_op2_entry(#[trigger] pre.term_at(j), o, lhs, rhs)) ==> post
        == pre
    &&& !(exists|j: int|
        0 <= j < pre.n_terms() && is_op2_entry(#[trigger] pre.term_at(j), o, lhs, rhs)) ==> (
    post.n_terms() == pre.n_terms() + 1 && t.hkey == pre.n_terms())
}

/// Interns a binary operator application.
pub fn intern_op2(f: &mut Factory, o: Op, lhs: Term, rhs: Term) -> (t: Term)
    requires
        old(f).wf(),
        old(f).term_valid(lhs),
        old(f).term_valid(rhs),
        arity_spec(o) == 2,
    ensures
        op2_intern_post(*old(f), *final(f), o, lhs, rhs, t),
{
    let args = vec![lhs, rhs];
    proof {
        assert(args@.len() == 2 && args@[0] == lhs && args@[1] == rhs);
    }
    let ghost d = TermData::Op(o, args);
    let t = f.op(o, args);
    proof {
        assert(intern_post(*old(f), *f, d, t));
        let post_entry = f.term_at(t.hkey as int);
        assert(td_eq(post_entry, d));
        assert(is_op2_entry(post_entry, o, lhs, rhs));
        assert forall|j: int|
            0 <= j < old(f).n_terms() implies (is_op2_entry(#[trigger] old(f).term_at(j), o, lhs,
            rhs) == td_eq(old(f).term_at(j), d)) by {
            match old(f).term_at(j) {
                TermData::Op(o2, a2) => {
                    if o2 == o && a2@.len() == 2 && a2@[0] == lhs && a2@[1] == rhs {
                        assert(a2@ =~= args@);
                    }
                },
                _ => {},
            }
        }
        if exists|j: int|
            0 <= j < old(f).n_terms() && is_op2_entry(#[trigger] old(f).term_at(j), o, lhs, rhs) {
            let j = choose|j: int|
                0 <= j < old(f).n_terms() && is_op2_entry(#[trigger] old(f).term_at(j), o, lhs,
                rhs);
            assert(crate::term::found_at(old(f).terms_view(), d, j));
            assert(crate::term::has_entry(old(f).terms_view(), d));
        }
        if crate::term::has_entry(old(f).terms_view(), d) {
            let j = choose|j: int| crate::term::found_at(old(f).terms_view(), d, j);
            assert(is_op2_entry(old(f).term_at(j), o, lhs, rhs));
        }
    }
    t
}

/// The entry is the unary operator `o` applied to exactly `arg`.
pub open spec fn is_op1_entry(d: TermData, o: Op, arg: Term) -> bool {
    match d {
        TermData::Op(o2, args) => o2 == o && args@.len() == 1 && args@[0] == arg,
        _ => false,
    }
}

/// What interning the unary term `o(arg)` guarantees; the unary sibling
/// of [`op2_intern_post`].
pub open spec fn op1_intern_post(pre: Factory, post: Factory, o: Op, arg: Term, t: Term) -> bool {
    &&& post.wf()
    &&& post.extends(pre)
    &&& post.syms_view() == pre.syms_view()
    &&& post.csts_view() == pre.csts_view()
    &&& post.term_valid(t)
    &&& is_op1_entry(post.term_at(t.hkey as int), o, arg)
}

/// Interns a unary operator application.
pub fn intern_op1(f: &mut Factory, o: Op, arg: Term) -> (t: Term)
    requires
        old(f).wf(),
        old(f).term_valid(arg),
        arity_spec(o) == 1,
    ensures
        op1_intern_post(*old(f), *final(f), o, arg, t),
{
    let args = vec![arg];
    proof {
        assert(args@.len() == 1 && args@[0] == arg);
    }
    let ghost d = TermData::Op(o, args);
    let t = f.op(o, args);
    proof {
        assert(intern_post(*old(f), *f, d, t));
        assert(td_eq(f.term_at(t.hkey as int), d));
    }
    t
}

/// A value domain: a total order over the values candidate terms
/// evaluate to, with the term constructions the graph needs.
pub trait Domain: Sized + Copy {
    /// The values this domain accepts; the order's laws hold of them.
    spec fn val_wf(self) -> bool;

    /// The value a constant denotes in this domain, if any.
    spec fn of_cst_spec(c: CstData) -> Option<Self>;

    /// The domain's order.
    spec fn le_spec(self, other: Self) -> bool;

    /// The operator of the ordering term between two candidates.
    spec fn cmp_op() -> Op;

    /// When an ordering term between two candidates is worth building.
    spec fn cmp_possible(f: Factory, lhs: Term, rhs: Term) -> bool;

    /// What a deterministic representative pick looks like, over the
    /// set of member keys.
    spec fn rep_ok(f: Factory, keys: Set<int>, rep: Term) -> bool;

    /// The ordering operator is binary.
    proof fn lemma_cmp_op_binary()
        ensures
            arity_spec(Self::cmp_op()) == 2;

    /// A value read from a constant is one the domain accepts.
    proof fn lemma_of_cst_wf(c: CstData)
        ensures
            Self::of_cst_spec(c) is Some ==> (Self::of_cst_spec(c)->0).val_wf();

    /// The order is total on accepted values.
    proof fn lemma_le_total(a: Self, b: Self)
        requires
            a.val_wf(),
            b.val_wf(),
        ensures
            a.le_spec(b) || b.le_spec(a);

    /// The order is transitive on accepted values.
    proof fn lemma_le_trans(a: Self, b: Self, c: Self)
        requires
            a.val_wf(),
            b.val_wf(),
            c.val_wf(),
            a.le_spec(b),
            b.le_spec(c),
        ensures
            a.le_spec(c);

    /// Decides the order.
    fn le(self, other: Self) -> (r: bool)
        requires
            self.val_wf(),
            other.val_wf(),
        ensures
            r == self.le_spec(other);

    /// Reads a value of this domain from a constant; fails exactly on a
    /// constant of another domain.
    fn of_cst(c: &CstData) -> (r: Result<Self, ()>)
        ensures
            match r {
                Ok(v) => Self::of_cst_spec(*c) == Some(v),
                Err(_) => Self::of_cst_spec(*c) is None,
            };

    /// Interns the term ordering `lhs` against `rhs`, unless the ordering
    /// is vacuous in this domain.
    fn mk_cmp(f: &mut Factory, lhs: Term, rhs: Term) -> (r: Option<Term>)
        requires
            old(f).wf(),
            old(f).term_valid(lhs),
            old(f).term_valid(rhs),
        ensures
            match r {
                Some(t) => Self::cmp_possible(*old(f), lhs, rhs) && op2_intern_post(
                    *old(f),
                    *final(f),
                    Self::cmp_op(),
                    lhs,
                    rhs,
                    t,
                ),
                None => !Self::cmp_possible(*old(f), lhs, rhs) && *final(f) == *old(f),
            };

    /// Interns the equality of two candidate terms.
    fn mk_eq(f: &mut Factory, lhs: Term, rhs: Term) -> (t: Term)
        requires
            old(f).wf(),
            old(f).term_valid(lhs),
            old(f).term_valid(rhs),
        ensures
            op2_intern_post(*old(f), *final(f), Op::Eq, lhs, rhs, t);

    /// Picks the class representative out of a set and removes it: the
    /// deterministic pick the graph's node keys rest on. Fails exactly on
    /// an empty set.
    fn choose_rep(f: &Factory, set: TermSet) -> (r: Result<(Term, TermSet), ()>)
        requires
            f.wf(),
            set.wf(),
            forall|i: int|
                0 <= i < set.view_seq().len() ==> (#[trigger] set.view_seq()[i]).hkey
                    < f.n_terms(),
        ensures
            match r {
                Ok(pair) => {
                    &&& set.contains_key(pair.0.hkey as int)
                    &&& Self::rep_ok(*f, set.key_set(), pair.0)
                    &&& pair.1.wf()
                    &&& forall|h: int| #[trigger] pair.1.contains_key(h) == (set.contains_key(h)
                        && h != pair.0.hkey)
                },
                Err(_) => set.view_seq().len() == 0,
            };
}

/// The representative has the least key of the set: the fallback pick.
pub open spec fn min_key_ok(keys: Set<int>, rep: Term) -> bool {
    forall|h: int| keys.contains(h) ==> rep.hkey <= h
}

impl Domain for bool {
    /// Every boolean is accepted.
    open spec fn val_wf(self) -> bool {
        true
    }

    /// Booleans come from boolean constants.
    open spec fn of_cst_spec(c: CstData) -> Option<bool> {
        match c {
            CstData::Bool(b) => Some(b),
            _ => None,
        }
    }

    /// Implication order: `false ≤ true`.
    open spec fn le_spec(self, other: bool) -> bool {
        !self || other
    }

    /// Orderings between boolean candidates are implications.
    open spec fn cmp_op() -> Op {
        Op::Impl
    }

    /// A `false ⇒ x` or `x ⇒ true` implication says nothing.
    open spec fn cmp_possible(f: Factory, lhs: Term, rhs: Term) -> bool {
        !is_bool_lit_key(f, lhs.hkey as int, false) && !is_bool_lit_key(f, rhs.hkey as int, true)
    }

    /// Prefer the literal `true`; otherwise the least key.
    open spec fn rep_ok(f: Factory, keys: Set<int>, rep: Term) -> bool {
        if exists|k: int| #[trigger] keys.contains(k) && is_bool_lit_key(f, k, true) {
            is_bool_lit_key(f, rep.hkey as int, true)
        } else {
            min_key_ok(keys, rep)
        }
    }

    proof fn lemma_cmp_op_binary() {
    }

    proof fn lemma_of_cst_wf(c: CstData) {
    }

    proof fn lemma_le_total(a: bool, b: bool) {
    }

    proof fn lemma_le_trans(a: bool, b: bool, c: bool) {
    }

    fn le(self, other: bool) -> (r: bool) {
        !self || other
    }

    fn of_cst(c: &CstData) -> (r: Result<bool, ()>) {
        match c {
            CstData::Bool(b) => Ok(*b),
            _ => Err(()),
        }
    }

    fn mk_cmp(f: &mut Factory, lhs: Term, rhs: Term) -> (r: Option<Term>) {
        if is_bool_lit(f, lhs, false) || is_bool_lit(f, rhs, true) {
            None
        } else {
            Some(intern_op2(f, Op::Impl, lhs, rhs))
        }
    }

    fn mk_eq(f: &mut Factory, lhs: Term, rhs: Term) -> (t: Term) {
        intern_op2(f, Op::Eq, lhs, rhs)
    }

    fn choose_rep(f: &Factory, set: TermSet) -> (r: Result<(Term, TermSet), ()>) {
        let n = set.len();
        let mut i: usize = 0;
        while i < n
            invariant
                f.wf(),
                set.wf(),
                forall|x: int|
                    0 <= x < set.view_seq().len() ==> (#[trigger] set.view_seq()[x]).hkey
                        < f.n_terms(),
                n == set.view_seq().len(),
                0 <= i <= n,
                forall|x: int| 0 <= x < i ==> !is_bool_lit_key(
                    *f,
                    (#[trigger] set.view_seq()[x]).hkey as int,
                    true,
                ),
            decreases n - i,
        {
            let t = set.index(i);
            if is_bool_lit(f, t, true) {
                let rest = set.remove_key(t.hkey);
                proof {
                    assert(set.contains_key(t.hkey as int));
                    assert(set.key_set().contains(t.hkey as int));
                    assert(exists|k: int| #[trigger] set.key_set().contains(k)
                        && is_bool_lit_key(*f, k, true));
                }
                return Ok((t, rest));
            }
            i = i + 1;
        }
        proof {
            if exists|k: int| #[trigger] set.key_set().contains(k) && is_bool_lit_key(
                *f,
                k,
                true,
            ) {
                let k = choose|k: int| #[trigger] set.key_set().contains(k) && is_bool_lit_key(
                    *f,
                    k,
                    true,
                );
                assert(set.contains_key(k));
                let w = choose|x: int|
                    0 <= x < set.view_seq().len() && (#[trigger] set.view_seq()[x]).hkey == k;
                assert(false);
            }
        }
        match set.min_key_term() {
            Some(t) => {
                let rest = set.remove_key(t.hkey);
                proof {
                    assert forall|h: int| set.key_set().contains(h) implies t.hkey <= h by {
                        assert(set.contains_key(h));
                    }
                }
                Ok((t, rest))
            },
            None => Err(()),
        }
    }
}

impl Domain for i64 {
    /// Every machine integer is accepted.
    open spec fn val_wf(self) -> bool {
        true
    }

    /// Integers come from integer constants.
    open spec fn of_cst_spec(c: CstData) -> Option<i64> {
        match c {
            CstData::Int(i) => Some(i),
            _ => None,
        }
    }

    /// The integer order.
    open spec fn le_spec(self, other: i64) -> bool {
        self <= other
    }

    /// Orderings between integer candidates are `≤` terms.
    open spec fn cmp_op() -> Op {
        Op::Le
    }

    /// Every integer ordering is worth building.
    open spec fn cmp_possible(f: Factory, lhs: Term, rhs: Term) -> bool {
        true
    }

    /// The least key: any member, deterministically.
    open spec fn rep_ok(f: Factory, keys: Set<int>, rep: Term) -> bool {
        min_key_ok(keys, rep)
    }

    proof fn lemma_cmp_op_binary() {
    }

    proof fn lemma_of_cst_wf(c: CstData) {
    }

    proof fn lemma_le_total(a: i64, b: i64) {
    }

    proof fn lemma_le_trans(a: i64, b: i64, c: i64) {
    }

    fn le(self, other: i64) -> (r: bool) {
        self <= other
    }

    fn of_cst(c: &CstData) -> (r: Result<i64, ()>) {
        match c {
            CstData::Int(i) => Ok(*i),
            _ => Err(()),
        }
    }

    fn mk_cmp(f: &mut Factory, lhs: Term, rhs: Term) -> (r: Option<Term>) {
        Some(intern_op2(f, Op::Le, lhs, rhs))
    }

    fn mk_eq(f: &mut Factory, lhs: Term, rhs: Term) -> (t: Term) {
        intern_op2(f, Op::Eq, lhs, rhs)
    }

    fn choose_rep(f: &Factory, set: TermSet) -> (r: Result<(Term, TermSet), ()>) {
        match set.min_key_term() {
            Some(t) => {
                let rest = set.remove_key(t.hkey);
                proof {
                    assert forall|h: int| set.key_set().contains(h) implies t.hkey <= h by {
                        assert(set.contains_key(h));
                    }
                }
                Ok((t, rest))
            },
            None => Err(()),
        }
    }
}

/// Transitivity of the cross-multiplied rational order.
proof fn lemma_rat_le_trans(a: Rat, b: Rat, c: Rat) by (nonlinear_arith)
    requires
        a.den > 0,
        b.den > 0,
        c.den > 0,
        a.num * b.den <= b.num * a.den,
        b.num * c.den <= c.num * b.den,
    ensures
        a.num * c.den <= c.num * a.den,
{
}

impl Domain for Rat {
    /// Rationals with a positive denominator.
    open spec fn val_wf(self) -> bool {
        rat_wf(self)
    }

    /// Rationals come from well-formed rational constants.
    open spec fn of_cst_spec(c: CstData) -> Option<Rat> {
        match c {
            CstData::Rat(q) => if rat_wf(q) {
                Some(q)
            } else {
                None
            },
            _ => None,
        }
    }

    /// The rational order, by cross-multiplication.
    open spec fn le_spec(self, other: Rat) -> bool {
        rat_le(self, other)
    }

    /// Orderings between rational candidates are `≤` terms.
    open spec fn cmp_op() -> Op {
        Op::Le
    }

    /// Every rational ordering is worth building.
    open spec fn cmp_possible(f: Factory, lhs: Term, rhs: Term) -> bool {
        true
    }

    /// The least key: any member, deterministically.
    open spec fn rep_ok(f: Factory, keys: Set<int>, rep: Term) -> bool {
        min_key_ok(keys, rep)
    }

    proof fn lemma_cmp_op_binary() {
    }

    proof fn lemma_of_cst_wf(c: CstData) {
    }

    proof fn lemma_le_total(a: Rat, b: Rat) {
    }

    proof fn lemma_le_trans(a: Rat, b: Rat, c: Rat) {
        lemma_rat_le_trans(a, b, c);
    }

    fn le(self, other: Rat) -> (r: bool) {
        rat_le_exec(self, other)
    }

    fn of_cst(c: &CstData) -> (r: Result<Rat, ()>) {
        match c {
            CstData::Rat(q) => if q.den > 0 {
                Ok(*q)
            } else {
                Err(())
            },
            _ => Err(()),
        }
    }

    fn mk_cmp(f: &mut Factory, lhs: Term, rhs: Term) -> (r: Option<Term>) {
        Some(intern_op2(f, Op::Le, lhs, rhs))
    }

    fn mk_eq(f: &mut Factory, lhs: Term, rhs: Term) -> (t: Term) {
        intern_op2(f, Op::Eq, lhs, rhs)
    }

    fn choose_rep(f: &Factory, set: TermSet) -> (r: Result<(Term, TermSet), ()>) {
        match set.min_key_term() {
            Some(t) => {
                let rest = set.remove_key(t.hkey);
                proof {
                    assert forall|h: int| set.key_set().contains(h) implies t.hkey <= h by {
                        assert(set.contains_key(h));
                    }
                }
                Ok((t, rest))
            },
            None => Err(()),
        }
    }
}


/// Builds the ordering term between two candidates and adds it to the
/// check set, unless the domain deems it vacuous or it is already a
/// known invariant.
pub fn insert_cmp<D: Domain>(
    f: &mut Factory,
    lhs: Term,
    rhs: Term,
    set: &mut TermSet,
    ignore: &TermSet,
)
    requires
        old(f).wf(),
        old(f).term_valid(lhs),
        old(f).term_valid(rhs),
        old(set).wf(),
    ensures
        final(f).wf(),
        final(f).extends(*old(f)),
        final(set).wf(),
        !D::cmp_possible(*old(f), lhs, rhs) ==> *final(set) == *old(set) && *final(f) == *old(
            f,
        ),
        D::cmp_possible(*old(f), lhs, rhs) ==> exists|t: Term|
            {
                &&& #[trigger] op2_intern_post(*old(f), *final(f), D::cmp_op(), lhs, rhs, t)
                &&& ignore.contains_key(t.hkey as int) ==> *final(set) == *old(set)
                &&& !ignore.contains_key(t.hkey as int) ==> forall|k: int|
                    #[trigger] final(set).contains_key(k) == (old(set).contains_key(k) || k
                        == t.hkey)
            },
{
    match D::mk_cmp(f, lhs, rhs) {
        Some(t) => {
            if !ignore.contains(t) {
                set.insert(t);
            }
            proof {
                assert(op2_intern_post(*old(f), *f, D::cmp_op(), lhs, rhs, t));
            }
        },
        None => {},
    }
}

/// Builds the equality between two candidates and adds it to the check
/// set, unless it is already a known invariant.
pub fn insert_eq<D: Domain>(
    f: &mut Factory,
    lhs: Term,
    rhs: Term,
    set: &mut TermSet,
    ignore: &TermSet,
)
    requires
        old(f).wf(),
        old(f).term_valid(lhs),
        old(f).term_valid(rhs),
        old(set).wf(),
    ensures
        final(f).wf(),
        final(f).extends(*old(f)),
        final(set).wf(),
        exists|t: Term|
            {
                &&& #[trigger] op2_intern_post(*old(f), *final(f), Op::Eq, lhs, rhs, t)
                &&& ignore.contains_key(t.hkey as int) ==> *final(set) == *old(set)
                &&& !ignore.contains_key(t.hkey as int) ==> forall|k: int|
                    #[trigger] final(set).contains_key(k) == (old(set).contains_key(k) || k
                        == t.hkey)
            },
{
    let t = D::mk_eq(f, lhs, rhs);
    if !ignore.contains(t) {
        set.insert(t);
    }
    proof {
        assert(op2_intern_post(*old(f), *f, Op::Eq, lhs, rhs, t));
    }
}

} // verus!
