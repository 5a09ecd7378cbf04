//! The hash-consed term universe: interned symbols, constants and terms.
//!
//! All three tables live in a [`Factory`]. A handle ([`Sym`], [`Cst`],
//! [`Term`]) is a stable key into its table; two interned values are
//! structurally equal exactly when their keys are equal. Subterms of an
//! interned term are themselves interned, with strictly smaller keys, so
//! the table is topologically ordered and recursion over terms is bounded
//! by the key.

use vstd::prelude::*;

use crate::base::State;

verus! {

/// An interned identifier for a program-level name.
///
/// Equality is identity on the intern handle.
#[derive(Debug, Clone, Copy, PartialEq, Eq, Structural, Hash)]
pub struct Sym {
    /// Key into the factory's symbol table.
    pub id: usize,
}

/// A sort: the type of a term.
#[derive(Debug, Clone, Copy, PartialEq, Eq, Structural)]
pub enum Ty {
    /// Booleans.
    Bool,
    /// Unbounded integers in the source logic, machine-bounded here.
    Int,
    /// Rationals.
    Rat,
}

/// A rational number `num / den`. Well formed when `den > 0`; two
/// rationals are interned structurally, compared by cross-multiplication.
#[derive(Debug, Clone, Copy, PartialEq, Eq, Structural)]
pub struct Rat {
    /// Numerator.
    pub num: i64,
    /// Denominator, positive where well formed.
    pub den: i64,
}

/// The value of a constant: a boolean, an integer or a rational.
#[derive(Debug, Clone, Copy, PartialEq, Eq, Structural)]
pub enum CstData {
    /// A boolean constant.
    Bool(bool),
    /// An integer constant.
    Int(i64),
    /// A rational constant.
    Rat(Rat),
}

/// An interned constant: a handle into the factory's constant table.
#[derive(Debug, Clone, Copy, PartialEq, Eq, Structural, Hash)]
pub struct Cst {
    /// Key into the factory's constant table.
    pub id: usize,
}

/// The built-in operators. `Not` and `Neg` are unary, the rest binary;
/// longer chains are built by nesting.
#[derive(Debug, Clone, Copy, PartialEq, Eq, Structural)]
pub enum Op {
    /// Boolean negation.
    Not,
    /// Conjunction.
    And,
    /// Disjunction.
    Or,
    /// Implication.
    Impl,
    /// Equality.
    Eq,
    /// Less than or equal.
    Le,
    /// Strictly less than.
    Lt,
    /// Greater than or equal.
    Ge,
    /// Strictly greater than.
    Gt,
    /// Addition.
    Add,
    /// Subtraction.
    Sub,
    /// Multiplication.
    Mul,
    /// Arithmetic negation.
    Neg,
}

/// How many arguments an operator takes.
pub open spec fn arity_spec(o: Op) -> int {
    match o {
        Op::Not => 1,
        Op::Neg => 1,
        _ => 2,
    }
}

/// How many arguments an operator takes.
pub fn arity(o: Op) -> (r: usize)
    ensures
        r == arity_spec(o),
{
    match o {
        Op::Not => 1,
        Op::Neg => 1,
        _ => 2,
    }
}

/// An interned term: a handle into the factory's term table.
///
/// `hkey` is the term's stable key: within one factory, two terms are
/// structurally equal exactly when their keys are equal.
#[derive(Debug, Clone, Copy, PartialEq, Eq, Structural, Hash)]
pub struct Term {
    /// Key into the factory's term table.
    pub hkey: usize,
}

/// The structure of a term; subterms are interned handles.
#[derive(Debug, Clone)]
pub enum TermData {
    /// A stateless variable.
    Var(Sym),
    /// A state variable, in the current or the next state.
    SVar(Sym, State),
    /// A constant.
    Cst(Cst),
    /// An application of an uninterpreted function symbol.
    App(Sym, Vec<Term>),
    /// An application of a built-in operator.
    Op(Op, Vec<Term>),
    /// Universal quantification.
    Forall(Vec<(Sym, Ty)>, Term),
    /// Existential quantification.
    Exists(Vec<(Sym, Ty)>, Term),
    /// Parallel let-binding.
    Let(Vec<(Sym, Term)>, Term),
}

/// Structural equality of two term entries. Because subterms are interned,
/// comparing their handles compares their structure.
pub open spec fn td_eq(a: TermData, b: TermData) -> bool {
    match (a, b) {
        (TermData::Var(s1), TermData::Var(s2)) => s1 == s2,
        (TermData::SVar(s1, st1), TermData::SVar(s2, st2)) => s1 == s2 && st1 == st2,
        (TermData::Cst(c1), TermData::Cst(c2)) => c1 == c2,
        (TermData::App(s1, a1), TermData::App(s2, a2)) => s1 == s2 && a1@ == a2@,
        (TermData::Op(o1, a1), TermData::Op(o2, a2)) => o1 == o2 && a1@ == a2@,
        (TermData::Forall(b1, t1), TermData::Forall(b2, t2)) => b1@ == b2@ && t1 == t2,
        (TermData::Exists(b1, t1), TermData::Exists(b2, t2)) => b1@ == b2@ && t1 == t2,
        (TermData::Let(b1, t1), TermData::Let(b2, t2)) => b1@ == b2@ && t1 == t2,
        _ => false,
    }
}

/// `td_eq` is symmetric.
pub proof fn lemma_td_eq_sym(a: TermData, b: TermData)
    ensures
        td_eq(a, b) == td_eq(b, a),
{
}

/// All argument handles point strictly below `bound` in the term table.
pub open spec fn args_wf(args: Seq<Term>, bound: int) -> bool {
    forall|i: int| 0 <= i < args.len() ==> (#[trigger] args[i]).hkey < bound
}

/// A term entry is well formed at position `bound` of a factory with
/// `nsyms` symbols and `ncsts` constants: every symbol, constant and
/// subterm handle it mentions is a valid key, subterm keys are strictly
/// smaller than `bound`, and operators have their arity.
pub open spec fn entry_wf(d: TermData, nsyms: int, ncsts: int, bound: int) -> bool {
    match d {
        TermData::Var(s) => s.id < nsyms,
        TermData::SVar(s, _) => s.id < nsyms,
        TermData::Cst(c) => c.id < ncsts,
        TermData::App(s, args) => s.id < nsyms && args_wf(args@, bound),
        TermData::Op(o, args) => args@.len() == arity_spec(o) && args_wf(args@, bound),
        TermData::Forall(bs, t) => t.hkey < bound && (forall|i: int|
            0 <= i < bs@.len() ==> (#[trigger] bs@[i]).0.id < nsyms),
        TermData::Exists(bs, t) => t.hkey < bound && (forall|i: int|
            0 <= i < bs@.len() ==> (#[trigger] bs@[i]).0.id < nsyms),
        TermData::Let(bs, t) => t.hkey < bound && (forall|i: int|
            0 <= i < bs@.len() ==> (#[trigger] bs@[i]).0.id < nsyms && (#[trigger] bs@[i]).1.hkey
                < bound),
    }
}

/// Entry `j` of the table equals `d` structurally.
pub open spec fn found_at(tbl: Seq<TermData>, d: TermData, j: int) -> bool {
    0 <= j < tbl.len() && td_eq(tbl[j], d)
}

/// Some entry of the table equals `d` structurally.
pub open spec fn has_entry(tbl: Seq<TermData>, d: TermData) -> bool {
    exists|j: int| found_at(tbl, d, j)
}

/// The term table is well formed: every entry is well formed at its own
/// position, and no two entries are structurally equal.
pub open spec fn table_wf(tbl: Seq<TermData>, nsyms: int, ncsts: int) -> bool {
    &&& forall|i: int| 0 <= i < tbl.len() ==> entry_wf(#[trigger] tbl[i], nsyms, ncsts, i)
    &&& forall|i: int, j: int| 0 <= i < j < tbl.len() ==> !td_eq(#[trigger] tbl[i], #[trigger] tbl[j])
}

/// The factory: the three interning tables.
#[derive(Debug, Clone)]
pub struct Factory {
    /// Interned symbol names.
    syms: Vec<String>,
    /// Interned constants.
    csts: Vec<CstData>,
    /// Interned terms.
    terms: Vec<TermData>,
}

impl Factory {
    /// The symbol table, as the sequence of interned names.
    pub closed spec fn syms_view(&self) -> Seq<Seq<char>> {
        self.syms@.map(|i: int, s: String| s@)
    }

    /// The constant table.
    pub closed spec fn csts_view(&self) -> Seq<CstData> {
        self.csts@
    }

    /// The term table.
    pub closed spec fn terms_view(&self) -> Seq<TermData> {
        self.terms@
    }

    /// Number of interned symbols.
    pub open spec fn n_syms(&self) -> int {
        self.syms_view().len() as int
    }

    /// Number of interned constants.
    pub open spec fn n_csts(&self) -> int {
        self.csts_view().len() as int
    }

    /// Number of interned terms.
    pub open spec fn n_terms(&self) -> int {
        self.terms_view().len() as int
    }

    /// The entry a term handle points at.
    pub open spec fn term_at(&self, k: int) -> TermData {
        self.terms_view()[k]
    }

    /// A term handle is a valid key of this factory.
    pub open spec fn term_valid(&self, t: Term) -> bool {
        t.hkey < self.n_terms()
    }

    /// A symbol handle is a valid key of this factory.
    pub open spec fn sym_valid(&self, s: Sym) -> bool {
        s.id < self.n_syms()
    }

    /// A constant handle is a valid key of this factory.
    pub open spec fn cst_valid(&self, c: Cst) -> bool {
        c.id < self.n_csts()
    }

    /// The factory is well formed: tables hold no duplicates and every
    /// term entry mentions only valid, strictly smaller keys.
    pub open spec fn wf(&self) -> bool {
        &&& forall|i: int, j: int|
            0 <= i < j < self.n_syms() ==> self.syms_view()[i] != self.syms_view()[j]
        &&& forall|i: int, j: int|
            0 <= i < j < self.n_csts() ==> self.csts_view()[i] != self.csts_view()[j]
        &&& table_wf(self.terms_view(), self.n_syms(), self.n_csts())
    }

    /// This factory extends `other`: every table of `other` is a prefix.
    pub open spec fn extends(&self, other: Factory) -> bool {
        &&& other.syms_view().is_prefix_of(self.syms_view())
        &&& other.csts_view().is_prefix_of(self.csts_view())
        &&& other.terms_view().is_prefix_of(self.terms_view())
    }

    /// Creates an empty term factory.
    pub fn mk() -> (r: Self)
        ensures
            r.wf(),
            r.n_syms() == 0,
            r.n_csts() == 0,
            r.n_terms() == 0,
    {
        Factory { syms: Vec::new(), csts: Vec::new(), terms: Vec::new() }
    }

    /// The hash-cons table for constants.
    pub fn cst_consign(&self) -> (r: &Vec<CstData>)
        ensures
            r@ == self.csts_view(),
    {
        &self.csts
    }

    /// The name of an interned symbol.
    pub fn sym_name(&self, s: Sym) -> (r: &String)
        requires
            self.sym_valid(s),
        ensures
            r@ == self.syms_view()[s.id as int],
    {
        &self.syms[s.id]
    }

    /// The value of an interned constant.
    pub fn cst_data(&self, c: Cst) -> (r: CstData)
        requires
            self.cst_valid(c),
        ensures
            r == self.csts_view()[c.id as int],
    {
        self.csts[c.id]
    }

    /// The structure of an interned term.
    pub fn get(&self, t: Term) -> (r: &TermData)
        requires
            self.term_valid(t),
        ensures
            *r == self.term_at(t.hkey as int),
    {
        &self.terms[t.hkey]
    }

    /// Interns a symbol name, returning the handle it already has or a
    /// fresh one.
    pub fn sym(&mut self, name: String) -> (r: Sym)
        requires
            old(self).wf(),
        ensures
            final(self).wf(),
            final(self).extends(*old(self)),
            final(self).sym_valid(r),
            final(self).syms_view()[r.id as int] == name@,
            has_sym(old(self).syms_view(), name@) ==> *final(self) == *old(self),
            !has_sym(old(self).syms_view(), name@) ==> final(self).syms_view()
                == old(self).syms_view().push(name@) && r.id == old(self).n_syms(),
    {
        let n = self.syms.len();
        let mut i: usize = 0;
        while i < n
            invariant
                old(self).wf(),
                *self == *old(self),
                n == self.syms@.len(),
                0 <= i <= n,
                forall|j: int| 0 <= j < i ==> self.syms_view()[j] != name@,
            decreases n - i,
        {
            if self.syms[i] == name {
                proof {
                    assert(self.syms_view()[i as int] == name@);
                }
                return Sym { id: i };
            }
            proof {
                assert(self.syms_view()[i as int] == self.syms@[i as int]@);
            }
            i = i + 1;
        }
        self.syms.push(name);
        proof {
            assert(self.syms_view() =~= old(self).syms_view().push(name@));
            assert(forall|j: int| 0 <= j < old(self).n_syms() ==> old(self).syms_view()[j]
                != name@);
        }
        Sym { id: n }
    }

    /// Interns a constant value, returning its handle.
    pub fn constant(&mut self, c: CstData) -> (r: Cst)
        requires
            old(self).wf(),
        ensures
            final(self).wf(),
            final(self).extends(*old(self)),
            final(self).cst_valid(r),
            final(self).csts_view()[r.id as int] == c,
            old(self).csts_view().contains(c) ==> *final(self) == *old(self),
            !old(self).csts_view().contains(c) ==> final(self).csts_view()
                == old(self).csts_view().push(c),
    {
        let n = self.csts.len();
        let mut i: usize = 0;
        while i < n
            invariant
                old(self).wf(),
                *self == *old(self),
                n == self.csts@.len(),
                0 <= i <= n,
                forall|j: int| 0 <= j < i ==> self.csts@[j] != c,
            decreases n - i,
        {
            if self.csts[i] == c {
                return Cst { id: i };
            }
            i = i + 1;
        }
        self.csts.push(c);
        proof {
            assert(self.csts_view() =~= old(self).csts_view().push(c));
        }
        Cst { id: n }
    }
}

/// Some entry of the symbol table is this name.
pub open spec fn has_sym(syms: Seq<Seq<char>>, name: Seq<char>) -> bool {
    exists|j: int| 0 <= j < syms.len() && syms[j] == name
}

/// `td_eq` is reflexive.
pub proof fn lemma_td_eq_refl(a: TermData)
    ensures
        td_eq(a, a),
{
}

/// `td_eq` is transitive.
pub proof fn lemma_td_eq_trans(a: TermData, b: TermData, c: TermData)
    requires
        td_eq(a, b),
        td_eq(b, c),
    ensures
        td_eq(a, c),
{
}

/// Compares two argument vectors of term handles.
fn terms_eq(a: &Vec<Term>, b: &Vec<Term>) -> (r: bool)
    ensures
        r == (a@ == b@),
{
    if a.len() != b.len() {
        return false;
    }
    let n = a.len();
    let mut i: usize = 0;
    while i < n
        invariant
            n == a@.len() == b@.len(),
            0 <= i <= n,
            forall|j: int| 0 <= j < i ==> a@[j] == b@[j],
        decreases n - i,
    {
        if a[i] != b[i] {
            return false;
        }
        i = i + 1;
    }
    proof {
        assert(a@ =~= b@);
    }
    true
}

/// Compares two quantifier binding vectors.
fn binds_ty_eq(a: &Vec<(Sym, Ty)>, b: &Vec<(Sym, Ty)>) -> (r: bool)
    ensures
        r == (a@ == b@),
{
    if a.len() != b.len() {
        return false;
    }
    let n = a.len();
    let mut i: usize = 0;
    while i < n
        invariant
            n == a@.len() == b@.len(),
            0 <= i <= n,
            forall|j: int| 0 <= j < i ==> a@[j] == b@[j],
        decreases n - i,
    {
        if a[i].0 != b[i].0 || a[i].1 != b[i].1 {
            return false;
        }
        i = i + 1;
    }
    proof {
        assert(a@ =~= b@);
    }
    true
}

/// Compares two let binding vectors.
fn binds_term_eq(a: &Vec<(Sym, Term)>, b: &Vec<(Sym, Term)>) -> (r: bool)
    ensures
        r == (a@ == b@),
{
    if a.len() != b.len() {
        return false;
    }
    let n = a.len();
    let mut i: usize = 0;
    while i < n
        invariant
            n == a@.len() == b@.len(),
            0 <= i <= n,
            forall|j: int| 0 <= j < i ==> a@[j] == b@[j],
        decreases n - i,
    {
        if a[i].0 != b[i].0 || a[i].1 != b[i].1 {
            return false;
        }
        i = i + 1;
    }
    proof {
        assert(a@ =~= b@);
    }
    true
}

/// Decides structural equality of two term entries.
fn term_data_eq(a: &TermData, b: &TermData) -> (r: bool)
    ensures
        r == td_eq(*a, *b),
{
    match (a, b) {
        (TermData::Var(s1), TermData::Var(s2)) => s1 == s2,
        (TermData::SVar(s1, st1), TermData::SVar(s2, st2)) => s1 == s2 && st1 == st2,
        (TermData::Cst(c1), TermData::Cst(c2)) => c1 == c2,
        (TermData::App(s1, a1), TermData::App(s2, a2)) => s1 == s2 && terms_eq(a1, a2),
        (TermData::Op(o1, a1), TermData::Op(o2, a2)) => o1 == o2 && terms_eq(a1, a2),
        (TermData::Forall(b1, t1), TermData::Forall(b2, t2)) => binds_ty_eq(b1, b2) && t1 == t2,
        (TermData::Exists(b1, t1), TermData::Exists(b2, t2)) => binds_ty_eq(b1, b2) && t1 == t2,
        (TermData::Let(b1, t1), TermData::Let(b2, t2)) => binds_term_eq(b1, b2) && t1 == t2,
        _ => false,
    }
}

/// What interning entry `d` into factory `pre` guarantees of the result
/// factory `post` and handle `r`: the tables only grow, symbols and
/// constants are untouched, `r` names an entry structurally equal to `d`,
/// an already-present entry is reused unchanged, and a fresh entry is
/// appended at the end. Interning is thereby a function of the factory
/// and the entry: it is deterministic.
pub open spec fn intern_post(pre: Factory, post: Factory, d: TermData, r: Term) -> bool {
    &&& post.wf()
    &&& post.extends(pre)
    &&& post.syms_view() == pre.syms_view()
    &&& post.csts_view() == pre.csts_view()
    &&& post.term_valid(r)
    &&& td_eq(post.term_at(r.hkey as int), d)
    &&& has_entry(pre.terms_view(), d) ==> post == pre
    &&& !has_entry(pre.terms_view(), d) ==> post.terms_view() == pre.terms_view().push(d)
        && r.hkey == pre.n_terms()
}

impl Factory {
    /// Finds the entry structurally equal to `d`, if interned already.
    fn find_term(&self, d: &TermData) -> (r: Option<usize>)
        ensures
            match r {
                Some(j) => found_at(self.terms_view(), *d, j as int),
                None => !has_entry(self.terms_view(), *d),
            },
    {
        let n = self.terms.len();
        let mut i: usize = 0;
        while i < n
            invariant
                n == self.terms@.len(),
                0 <= i <= n,
                forall|j: int| 0 <= j < i ==> !td_eq(self.terms@[j], *d),
            decreases n - i,
        {
            if term_data_eq(&self.terms[i], d) {
                return Some(i);
            }
            i = i + 1;
        }
        None
    }

    /// Interns a term entry, returning the handle it already has or a
    /// fresh one.
    fn intern(&mut self, d: TermData) -> (r: Term)
        requires
            old(self).wf(),
            entry_wf(d, old(self).n_syms(), old(self).n_csts(), old(self).n_terms()),
        ensures
            intern_post(*old(self), *final(self), d, r),
    {
        match self.find_term(&d) {
            Some(j) => {
                proof {
                    assert(old(self).syms_view().is_prefix_of(self.syms_view()));
                    assert(old(self).csts_view().is_prefix_of(self.csts_view()));
                    assert(old(self).terms_view().is_prefix_of(self.terms_view()));
                }
                Term { hkey: j }
            },
            None => {
                let n = self.terms.len();
                self.terms.push(d);
                proof {
                    let pre = old(self).terms_view();
                    let post = self.terms_view();
                    assert(post =~= pre.push(d));
                    assert forall|i: int, j: int| 0 <= i < j < post.len() implies !td_eq(
                        post[i],
                        post[j],
                    ) by {
                        if j == pre.len() {
                            assert(!found_at(pre, d, i));
                            lemma_td_eq_sym(pre[i], d);
                        }
                    }
                    assert(old(self).syms_view().is_prefix_of(self.syms_view()));
                    assert(old(self).csts_view().is_prefix_of(self.csts_view()));
                    assert(old(self).terms_view().is_prefix_of(self.terms_view()));
                    lemma_td_eq_refl(d);
                }
                Term { hkey: n }
            },
        }
    }

    /// Interns a stateless variable over an interned symbol.
    pub fn var(&mut self, s: Sym) -> (r: Term)
        requires
            old(self).wf(),
            old(self).sym_valid(s),
        ensures
            intern_post(*old(self), *final(self), TermData::Var(s), r),
    {
        self.intern(TermData::Var(s))
    }

    /// Interns a state variable over an interned symbol.
    pub fn svar(&mut self, s: Sym, st: State) -> (r: Term)
        requires
            old(self).wf(),
            old(self).sym_valid(s),
        ensures
            intern_post(*old(self), *final(self), TermData::SVar(s, st), r),
    {
        self.intern(TermData::SVar(s, st))
    }

    /// Interns a constant value and the term holding it.
    pub fn cst(&mut self, c: CstData) -> (r: Term)
        requires
            old(self).wf(),
        ensures
            final(self).wf(),
            final(self).extends(*old(self)),
            final(self).term_valid(r),
            match final(self).term_at(r.hkey as int) {
                TermData::Cst(h) => final(self).cst_valid(h) && final(self).csts_view()[h.id as int]
                    == c,
                _ => false,
            },
    {
        let h = self.constant(c);
        let r = self.intern(TermData::Cst(h));
        proof {
            assert(final(self).extends(*old(self)));
        }
        r
    }

    /// Interns an operator application. The argument count must match the
    /// operator's arity, and the arguments must be interned already.
    pub fn op(&mut self, o: Op, args: Vec<Term>) -> (r: Term)
        requires
            old(self).wf(),
            args@.len() == arity_spec(o),
            args_wf(args@, old(self).n_terms()),
        ensures
            intern_post(*old(self), *final(self), TermData::Op(o, args), r),
    {
        self.intern(TermData::Op(o, args))
    }

    /// Interns an application of an uninterpreted function symbol.
    pub fn app(&mut self, s: Sym, args: Vec<Term>) -> (r: Term)
        requires
            old(self).wf(),
            old(self).sym_valid(s),
            args_wf(args@, old(self).n_terms()),
        ensures
            intern_post(*old(self), *final(self), TermData::App(s, args), r),
    {
        self.intern(TermData::App(s, args))
    }

    /// Interns a universal quantification.
    pub fn forall_b(&mut self, bindings: Vec<(Sym, Ty)>, body: Term) -> (r: Term)
        requires
            old(self).wf(),
            old(self).term_valid(body),
            forall|i: int| 0 <= i < bindings@.len() ==> old(self).sym_valid(
                (#[trigger] bindings@[i]).0,
            ),
        ensures
            intern_post(*old(self), *final(self), TermData::Forall(bindings, body), r),
    {
        self.intern(TermData::Forall(bindings, body))
    }

    /// Interns an existential quantification.
    pub fn exists_b(&mut self, bindings: Vec<(Sym, Ty)>, body: Term) -> (r: Term)
        requires
            old(self).wf(),
            old(self).term_valid(body),
            forall|i: int| 0 <= i < bindings@.len() ==> old(self).sym_valid(
                (#[trigger] bindings@[i]).0,
            ),
        ensures
            intern_post(*old(self), *final(self), TermData::Exists(bindings, body), r),
    {
        self.intern(TermData::Exists(bindings, body))
    }

    /// Interns a parallel let-binding.
    pub fn let_b(&mut self, bindings: Vec<(Sym, Term)>, body: Term) -> (r: Term)
        requires
            old(self).wf(),
            old(self).term_valid(body),
            forall|i: int| 0 <= i < bindings@.len() ==> old(self).sym_valid(
                (#[trigger] bindings@[i]).0,
            ) && old(self).term_valid((#[trigger] bindings@[i]).1),
        ensures
            intern_post(*old(self), *final(self), TermData::Let(bindings, body), r),
    {
        self.intern(TermData::Let(bindings, body))
    }
}

/// Interning the same entry twice returns the same handle and leaves the
/// factory unchanged the second time: interning is deterministic.
pub proof fn lemma_intern_deterministic(f0: Factory, f1: Factory, f2: Factory, d: TermData, r1: Term, r2: Term)
    requires
        f0.wf(),
        intern_post(f0, f1, d, r1),
        intern_post(f1, f2, d, r2),
    ensures
        f2 == f1,
        r2 == r1,
{
    lemma_td_eq_sym(f1.term_at(r1.hkey as int), d);
    assert(found_at(f1.terms_view(), d, r1.hkey as int));
    assert(has_entry(f1.terms_view(), d));
    assert(f2 == f1);
    let i = r1.hkey as int;
    let j = r2.hkey as int;
    if i != j {
        lemma_td_eq_sym(f1.term_at(j), d);
        lemma_td_eq_trans(f1.term_at(i), d, f1.term_at(j));
        if i < j {
            assert(!td_eq(f1.terms_view()[i], f1.terms_view()[j]));
        } else {
            lemma_td_eq_sym(f1.term_at(i), f1.term_at(j));
            assert(!td_eq(f1.terms_view()[j], f1.terms_view()[i]));
        }
    }
}


/// Subterm keys of every entry point strictly below the entry's own key;
/// the spec-level part of well-formedness that bounds recursion over terms.
pub open spec fn entry_keys_lt(d: TermData, bound: int) -> bool {
    match d {
        TermData::Var(_) => true,
        TermData::SVar(..) => true,
        TermData::Cst(_) => true,
        TermData::App(_, args) => args_wf(args@, bound),
        TermData::Op(_, args) => args_wf(args@, bound),
        TermData::Forall(_, t) => t.hkey < bound,
        TermData::Exists(_, t) => t.hkey < bound,
        TermData::Let(bs, t) => t.hkey < bound && (forall|i: int|
            0 <= i < bs@.len() ==> (#[trigger] bs@[i]).1.hkey < bound),
    }
}

/// The term table is topologically ordered by keys.
pub open spec fn table_keys_lt(tbl: Seq<TermData>) -> bool {
    forall|i: int| 0 <= i < tbl.len() ==> entry_keys_lt(#[trigger] tbl[i], i)
}

/// A well-formed table is topologically ordered.
pub proof fn lemma_table_wf_keys_lt(tbl: Seq<TermData>, nsyms: int, ncsts: int)
    requires
        table_wf(tbl, nsyms, ncsts),
    ensures
        table_keys_lt(tbl),
{
    assert forall|i: int| 0 <= i < tbl.len() implies entry_keys_lt(#[trigger] tbl[i], i) by {
        assert(entry_wf(tbl[i], nsyms, ncsts, i));
    }
}

/// The term with key `a` mentions a next-state variable.
pub open spec fn has_next(tbl: Seq<TermData>, a: int) -> bool
    decreases a,
        when 0 <= a < tbl.len() && table_keys_lt(tbl)
{
    match tbl[a] {
        TermData::Var(_) => false,
        TermData::SVar(_, st) => st == State::Next,
        TermData::Cst(_) => false,
        TermData::App(_, args) => exists|i: int|
            0 <= i < args@.len() && has_next(tbl, (#[trigger] args@[i]).hkey as int),
        TermData::Op(_, args) => exists|i: int|
            0 <= i < args@.len() && has_next(tbl, (#[trigger] args@[i]).hkey as int),
        TermData::Forall(_, t) => has_next(tbl, t.hkey as int),
        TermData::Exists(_, t) => has_next(tbl, t.hkey as int),
        TermData::Let(bs, t) => has_next(tbl, t.hkey as int) || exists|i: int|
            0 <= i < bs@.len() && has_next(tbl, (#[trigger] bs@[i]).1.hkey as int),
    }
}

/// The term with key `b` is the term with key `a` with every current-state
/// variable moved to the next state and everything else unchanged.
pub open spec fn is_bump(tbl: Seq<TermData>, a: int, b: int) -> bool
    decreases a,
        when 0 <= a < tbl.len() && table_keys_lt(tbl)
{
    match (tbl[a], tbl[b]) {
        (TermData::Var(s1), TermData::Var(s2)) => s1 == s2,
        (TermData::SVar(s1, st1), TermData::SVar(s2, st2)) => s1 == s2 && st1 == State::Curr
            && st2 == State::Next,
        (TermData::Cst(c1), TermData::Cst(c2)) => c1 == c2,
        (TermData::App(s1, a1), TermData::App(s2, a2)) => s1 == s2 && a1@.len() == a2@.len()
            && (forall|i: int| 0 <= i < a1@.len() ==> is_bump(tbl, (#[trigger] a1@[i]).hkey as int,
                a2@[i].hkey as int)),
        (TermData::Op(o1, a1), TermData::Op(o2, a2)) => o1 == o2 && a1@.len() == a2@.len()
            && (forall|i: int| 0 <= i < a1@.len() ==> is_bump(tbl, (#[trigger] a1@[i]).hkey as int,
                a2@[i].hkey as int)),
        (TermData::Forall(b1, t1), TermData::Forall(b2, t2)) => b1@ == b2@ && is_bump(tbl,
            t1.hkey as int, t2.hkey as int),
        (TermData::Exists(b1, t1), TermData::Exists(b2, t2)) => b1@ == b2@ && is_bump(tbl,
            t1.hkey as int, t2.hkey as int),
        (TermData::Let(b1, t1), TermData::Let(b2, t2)) => b1@.len() == b2@.len() && (forall|i: int|
            0 <= i < b1@.len() ==> (#[trigger] b1@[i]).0 == b2@[i].0 && is_bump(tbl,
                b1@[i].1.hkey as int, b2@[i].1.hkey as int)) && is_bump(tbl, t1.hkey as int,
            t2.hkey as int),
        _ => false,
    }
}


/// Extending the table does not change whether an old term mentions a
/// next-state variable.
pub proof fn lemma_has_next_prefix(t1: Seq<TermData>, t2: Seq<TermData>, a: int)
    requires
        t1.is_prefix_of(t2),
        table_keys_lt(t1),
        table_keys_lt(t2),
        0 <= a < t1.len(),
    ensures
        has_next(t2, a) == has_next(t1, a),
    decreases a,
{
    assert(t1[a] == t2[a]);
    match t1[a] {
        TermData::App(_, args) => {
            assert forall|i: int| 0 <= i < args@.len() implies has_next(t2,
                (#[trigger] args@[i]).hkey as int) == has_next(t1, args@[i].hkey as int) by {
                lemma_has_next_prefix(t1, t2, args@[i].hkey as int);
            }
        },
        TermData::Op(_, args) => {
            assert forall|i: int| 0 <= i < args@.len() implies has_next(t2,
                (#[trigger] args@[i]).hkey as int) == has_next(t1, args@[i].hkey as int) by {
                lemma_has_next_prefix(t1, t2, args@[i].hkey as int);
            }
        },
        TermData::Forall(_, t) => {
            lemma_has_next_prefix(t1, t2, t.hkey as int);
        },
        TermData::Exists(_, t) => {
            lemma_has_next_prefix(t1, t2, t.hkey as int);
        },
        TermData::Let(bs, t) => {
            lemma_has_next_prefix(t1, t2, t.hkey as int);
            assert forall|i: int| 0 <= i < bs@.len() implies has_next(t2,
                (#[trigger] bs@[i]).1.hkey as int) == has_next(t1, bs@[i].1.hkey as int) by {
                lemma_has_next_prefix(t1, t2, bs@[i].1.hkey as int);
            }
        },
        _ => {},
    }
}

/// Extending the table does not disturb an established bump relation
/// between old terms.
pub proof fn lemma_is_bump_prefix(t1: Seq<TermData>, t2: Seq<TermData>, a: int, b: int)
    requires
        t1.is_prefix_of(t2),
        table_keys_lt(t1),
        table_keys_lt(t2),
        0 <= a < t1.len(),
        0 <= b < t1.len(),
        is_bump(t1, a, b),
    ensures
        is_bump(t2, a, b),
    decreases a,
{
    assert(t1[a] == t2[a]);
    assert(t1[b] == t2[b]);
    match (t1[a], t1[b]) {
        (TermData::App(_, a1), TermData::App(_, a2)) => {
            assert forall|i: int| 0 <= i < a1@.len() implies is_bump(t2,
                (#[trigger] a1@[i]).hkey as int, a2@[i].hkey as int) by {
                lemma_is_bump_prefix(t1, t2, a1@[i].hkey as int, a2@[i].hkey as int);
            }
        },
        (TermData::Op(_, a1), TermData::Op(_, a2)) => {
            assert forall|i: int| 0 <= i < a1@.len() implies is_bump(t2,
                (#[trigger] a1@[i]).hkey as int, a2@[i].hkey as int) by {
                lemma_is_bump_prefix(t1, t2, a1@[i].hkey as int, a2@[i].hkey as int);
            }
        },
        (TermData::Forall(_, x1), TermData::Forall(_, x2)) => {
            lemma_is_bump_prefix(t1, t2, x1.hkey as int, x2.hkey as int);
        },
        (TermData::Exists(_, x1), TermData::Exists(_, x2)) => {
            lemma_is_bump_prefix(t1, t2, x1.hkey as int, x2.hkey as int);
        },
        (TermData::Let(b1, x1), TermData::Let(b2, x2)) => {
            lemma_is_bump_prefix(t1, t2, x1.hkey as int, x2.hkey as int);
            assert forall|i: int| 0 <= i < b1@.len() implies (#[trigger] b1@[i]).0 == b2@[i].0
                && is_bump(t2, b1@[i].1.hkey as int, b2@[i].1.hkey as int) by {
                lemma_is_bump_prefix(t1, t2, b1@[i].1.hkey as int, b2@[i].1.hkey as int);
            }
        },
        _ => {},
    }
}

/// Copies a vector of term handles.
fn copy_terms(v: &Vec<Term>) -> (r: Vec<Term>)
    ensures
        r@ == v@,
{
    let mut r: Vec<Term> = Vec::new();
    let n = v.len();
    let mut i: usize = 0;
    while i < n
        invariant
            n == v@.len(),
            0 <= i <= n,
            r@ == v@.take(i as int),
        decreases n - i,
    {
        r.push(v[i]);
        proof {
            assert(r@ =~= v@.take(i + 1));
        }
        i = i + 1;
    }
    proof {
        assert(v@.take(n as int) =~= v@);
    }
    r
}

/// Copies a vector of typed bindings.
fn copy_ty_binds(v: &Vec<(Sym, Ty)>) -> (r: Vec<(Sym, Ty)>)
    ensures
        r@ == v@,
{
    let mut r: Vec<(Sym, Ty)> = Vec::new();
    let n = v.len();
    let mut i: usize = 0;
    while i < n
        invariant
            n == v@.len(),
            0 <= i <= n,
            r@ == v@.take(i as int),
        decreases n - i,
    {
        r.push(v[i]);
        proof {
            assert(r@ =~= v@.take(i + 1));
        }
        i = i + 1;
    }
    proof {
        assert(v@.take(n as int) =~= v@);
    }
    r
}

/// Copies a vector of let bindings.
fn copy_term_binds(v: &Vec<(Sym, Term)>) -> (r: Vec<(Sym, Term)>)
    ensures
        r@ == v@,
{
    let mut r: Vec<(Sym, Term)> = Vec::new();
    let n = v.len();
    let mut i: usize = 0;
    while i < n
        invariant
            n == v@.len(),
            0 <= i <= n,
            r@ == v@.take(i as int),
        decreases n - i,
    {
        r.push(v[i]);
        proof {
            assert(r@ =~= v@.take(i + 1));
        }
        i = i + 1;
    }
    proof {
        assert(v@.take(n as int) =~= v@);
    }
    r
}


/// What `bump` decided to do after one look at the entry.
enum BumpPlan {
    /// The term holds no state variable at the top: keep the handle.
    Keep,
    /// A current-state variable: intern its next-state sibling.
    Shift(Sym),
    /// A next-state variable: the precondition of bumping is broken.
    Broken,
    /// Bump the arguments of an operator application.
    OpArgs(Op, Vec<Term>),
    /// Bump the arguments of an uninterpreted application.
    AppArgs(Sym, Vec<Term>),
    /// Bump under a universal binder.
    Under(bool, Vec<(Sym, Ty)>, Term),
    /// Bump the bound terms and the body of a let.
    Bound(Vec<(Sym, Term)>, Term),
}

impl Factory {
    /// Shifts every current-state variable of the term to the next state,
    /// leaving everything else unchanged. Fails exactly when the term
    /// already mentions a next-state variable: bumping is for one-state
    /// terms, and bumping twice a term with a state variable fails.
    pub fn bump(&mut self, t: Term) -> (r: Result<Term, ()>)
        requires
            old(self).wf(),
            old(self).term_valid(t),
        ensures
            final(self).wf(),
            final(self).extends(*old(self)),
            final(self).syms_view() == old(self).syms_view(),
            final(self).csts_view() == old(self).csts_view(),
            final(self).term_at(t.hkey as int) == old(self).term_at(t.hkey as int),
            match r {
                Ok(b) => final(self).term_valid(b) && !has_next(
                    final(self).terms_view(),
                    t.hkey as int,
                ) && is_bump(final(self).terms_view(), t.hkey as int, b.hkey as int),
                Err(_) => has_next(final(self).terms_view(), t.hkey as int),
            },
        decreases t.hkey,
    {
        proof {
            lemma_table_wf_keys_lt(old(self).terms_view(), old(self).n_syms(), old(self).n_csts());
            assert(entry_wf(old(self).term_at(t.hkey as int), old(self).n_syms(),
                old(self).n_csts(), t.hkey as int));
        }
        let plan = match self.get(t) {
            TermData::Var(_) => BumpPlan::Keep,
            TermData::Cst(_) => BumpPlan::Keep,
            TermData::SVar(s, st) => match st {
                State::Curr => BumpPlan::Shift(*s),
                State::Next => BumpPlan::Broken,
            },
            TermData::Op(o, args) => BumpPlan::OpArgs(*o, copy_terms(args)),
            TermData::App(s, args) => BumpPlan::AppArgs(*s, copy_terms(args)),
            TermData::Forall(bs, body) => BumpPlan::Under(true, copy_ty_binds(bs), *body),
            TermData::Exists(bs, body) => BumpPlan::Under(false, copy_ty_binds(bs), *body),
            TermData::Let(bs, body) => BumpPlan::Bound(copy_term_binds(bs), *body),
        };
        match plan {
            BumpPlan::Keep => Ok(t),
            BumpPlan::Broken => Err(()),
            BumpPlan::Shift(s) => {
                let b = self.svar(s, State::Next);
                proof {
                    lemma_table_wf_keys_lt(self.terms_view(), self.n_syms(), self.n_csts());
                }
                Ok(b)
            },
            BumpPlan::OpArgs(o, args) => {
                match self.bump_list(t, args) {
                    Ok(new_args) => {
                        let ghost mid = *self;
                        let b = self.op(o, new_args);
                        proof {
                            self.lemma_after_list(mid, t, new_args@, b);
                        }
                        Ok(b)
                    },
                    Err(_) => Err(()),
                }
            },
            BumpPlan::AppArgs(s, args) => {
                match self.bump_list(t, args) {
                    Ok(new_args) => {
                        let ghost mid = *self;
                        let b = self.app(s, new_args);
                        proof {
                            self.lemma_after_list(mid, t, new_args@, b);
                        }
                        Ok(b)
                    },
                    Err(_) => Err(()),
                }
            },
            BumpPlan::Under(universal, bs, body) => {
                match self.bump(body) {
                    Ok(nb) => {
                        let ghost mid = *self;
                        let b = if universal {
                            self.forall_b(bs, nb)
                        } else {
                            self.exists_b(bs, nb)
                        };
                        proof {
                            lemma_table_wf_keys_lt(mid.terms_view(), mid.n_syms(), mid.n_csts());
                            lemma_table_wf_keys_lt(self.terms_view(), self.n_syms(),
                                self.n_csts());
                            lemma_is_bump_prefix(mid.terms_view(), self.terms_view(),
                                body.hkey as int, nb.hkey as int);
                            lemma_has_next_prefix(mid.terms_view(), self.terms_view(),
                                body.hkey as int);
                        }
                        Ok(b)
                    },
                    Err(_) => Err(()),
                }
            },
            BumpPlan::Bound(bs, body) => {
                match self.bump_binds(t, bs) {
                    Ok(new_bs) => {
                        let ghost pre = *self;
                        match self.bump(body) {
                            Ok(nb) => {
                                let ghost mid = *self;
                                let b = self.let_b(new_bs, nb);
                                proof {
                                    self.lemma_after_binds(pre, mid, t, new_bs@, nb, b);
                                }
                                Ok(b)
                            },
                            Err(_) => {
                                proof {
                                    lemma_table_wf_keys_lt(self.terms_view(), self.n_syms(),
                                        self.n_csts());
                                }
                                Err(())
                            },
                        }
                    },
                    Err(_) => Err(()),
                }
            },
        }
    }

    /// Bumps every term of an argument list, failing on the first argument
    /// that mentions a next-state variable.
    fn bump_list(&mut self, t: Term, args: Vec<Term>) -> (r: Result<Vec<Term>, ()>)
        requires
            old(self).wf(),
            old(self).term_valid(t),
            args_wf(args@, t.hkey as int),
        ensures
            final(self).wf(),
            final(self).extends(*old(self)),
            final(self).syms_view() == old(self).syms_view(),
            final(self).csts_view() == old(self).csts_view(),
            match r {
                Ok(nw) => nw@.len() == args@.len() && args_wf(nw@, final(self).n_terms())
                    && (forall|j: int| 0 <= j < args@.len() ==> is_bump(
                        final(self).terms_view(),
                        (#[trigger] args@[j]).hkey as int,
                        nw@[j].hkey as int,
                    ) && !has_next(final(self).terms_view(), args@[j].hkey as int)),
                Err(_) => exists|j: int| 0 <= j < args@.len() && has_next(
                    final(self).terms_view(),
                    (#[trigger] args@[j]).hkey as int,
                ),
            },
        decreases t.hkey, 0int,
    {
        let mut new_args: Vec<Term> = Vec::new();
        let n = args.len();
        let mut i: usize = 0;
        while i < n
            invariant
                old(self).wf(),
                old(self).term_valid(t),
                args_wf(args@, t.hkey as int),
                self.wf(),
                self.extends(*old(self)),
                self.syms_view() == old(self).syms_view(),
                self.csts_view() == old(self).csts_view(),
                n == args@.len(),
                0 <= i <= n,
                new_args@.len() == i,
                args_wf(new_args@, self.n_terms()),
                forall|j: int| 0 <= j < i ==> is_bump(
                    self.terms_view(),
                    (#[trigger] args@[j]).hkey as int,
                    new_args@[j].hkey as int,
                ) && !has_next(self.terms_view(), args@[j].hkey as int),
            decreases n - i,
        {
            let ghost pre = *self;
            let a = args[i];
            proof {
                assert(a.hkey < t.hkey);
            }
            match self.bump(a) {
                Ok(b) => {
                    proof {
                        lemma_table_wf_keys_lt(pre.terms_view(), pre.n_syms(), pre.n_csts());
                        lemma_table_wf_keys_lt(self.terms_view(), self.n_syms(), self.n_csts());
                        assert forall|j: int| 0 <= j < i implies is_bump(
                            self.terms_view(),
                            (#[trigger] args@[j]).hkey as int,
                            new_args@[j].hkey as int,
                        ) && !has_next(self.terms_view(), args@[j].hkey as int) by {
                            lemma_is_bump_prefix(pre.terms_view(), self.terms_view(),
                                args@[j].hkey as int, new_args@[j].hkey as int);
                            lemma_has_next_prefix(pre.terms_view(), self.terms_view(),
                                args@[j].hkey as int);
                        }
                    }
                    new_args.push(b);
                },
                Err(_) => {
                    proof {
                        assert(has_next(self.terms_view(), args@[i as int].hkey as int));
                    }
                    return Err(());
                },
            }
            i = i + 1;
        }
        Ok(new_args)
    }

    /// Bumps every bound term of a let binding list.
    fn bump_binds(&mut self, t: Term, bs: Vec<(Sym, Term)>) -> (r: Result<Vec<(Sym, Term)>, ()>)
        requires
            old(self).wf(),
            old(self).term_valid(t),
            forall|j: int| 0 <= j < bs@.len() ==> (#[trigger] bs@[j]).1.hkey < t.hkey
                && bs@[j].0.id < old(self).n_syms(),
        ensures
            final(self).wf(),
            final(self).extends(*old(self)),
            final(self).syms_view() == old(self).syms_view(),
            final(self).csts_view() == old(self).csts_view(),
            match r {
                Ok(nw) => nw@.len() == bs@.len() && (forall|j: int| 0 <= j < bs@.len() ==> {
                    &&& (#[trigger] nw@[j]).0 == bs@[j].0
                    &&& nw@[j].1.hkey < final(self).n_terms()
                    &&& nw@[j].0.id < final(self).n_syms()
                    &&& is_bump(final(self).terms_view(), bs@[j].1.hkey as int,
                        nw@[j].1.hkey as int)
                    &&& !has_next(final(self).terms_view(), bs@[j].1.hkey as int)
                }),
                Err(_) => exists|j: int| 0 <= j < bs@.len() && has_next(
                    final(self).terms_view(),
                    (#[trigger] bs@[j]).1.hkey as int,
                ),
            },
        decreases t.hkey, 0int,
    {
        let mut nw: Vec<(Sym, Term)> = Vec::new();
        let n = bs.len();
        let mut i: usize = 0;
        while i < n
            invariant
                old(self).wf(),
                old(self).term_valid(t),
                forall|j: int| 0 <= j < bs@.len() ==> (#[trigger] bs@[j]).1.hkey < t.hkey
                    && bs@[j].0.id < old(self).n_syms(),
                self.wf(),
                self.extends(*old(self)),
                self.syms_view() == old(self).syms_view(),
                self.csts_view() == old(self).csts_view(),
                n == bs@.len(),
                0 <= i <= n,
                nw@.len() == i,
                forall|j: int| 0 <= j < i ==> {
                    &&& (#[trigger] nw@[j]).0 == bs@[j].0
                    &&& nw@[j].1.hkey < self.n_terms()
                    &&& nw@[j].0.id < self.n_syms()
                    &&& is_bump(self.terms_view(), bs@[j].1.hkey as int, nw@[j].1.hkey as int)
                    &&& !has_next(self.terms_view(), bs@[j].1.hkey as int)
                },
            decreases n - i,
        {
            let ghost pre = *self;
            let (s, a) = bs[i];
            proof {
                assert(a.hkey < t.hkey);
            }
            match self.bump(a) {
                Ok(b) => {
                    proof {
                        lemma_table_wf_keys_lt(pre.terms_view(), pre.n_syms(), pre.n_csts());
                        lemma_table_wf_keys_lt(self.terms_view(), self.n_syms(), self.n_csts());
                        assert forall|j: int| 0 <= j < i implies is_bump(
                            self.terms_view(),
                            (#[trigger] bs@[j]).1.hkey as int,
                            nw@[j].1.hkey as int,
                        ) && !has_next(self.terms_view(), bs@[j].1.hkey as int) by {
                            lemma_is_bump_prefix(pre.terms_view(), self.terms_view(),
                                bs@[j].1.hkey as int, nw@[j].1.hkey as int);
                            lemma_has_next_prefix(pre.terms_view(), self.terms_view(),
                                bs@[j].1.hkey as int);
                        }
                    }
                    nw.push((s, b));
                },
                Err(_) => {
                    proof {
                        assert(has_next(self.terms_view(), bs@[i as int].1.hkey as int));
                    }
                    return Err(());
                },
            }
            i = i + 1;
        }
        Ok(nw)
    }

    /// After interning the bumped application, the bump relation between
    /// the old term and the new one holds in the final table.
    proof fn lemma_after_list(&self, mid: Factory, t: Term, nw: Seq<Term>, b: Term)
        requires
            mid.wf(),
            self.wf(),
            self.extends(mid),
            mid.term_valid(t),
            self.term_valid(b),
            match mid.term_at(t.hkey as int) {
                TermData::Op(_, args) => nw.len() == args@.len() && (forall|j: int|
                    0 <= j < args@.len() ==> is_bump(mid.terms_view(),
                        (#[trigger] args@[j]).hkey as int, nw[j].hkey as int) && !has_next(
                        mid.terms_view(), args@[j].hkey as int) && nw[j].hkey < mid.n_terms()),
                TermData::App(_, args) => nw.len() == args@.len() && (forall|j: int|
                    0 <= j < args@.len() ==> is_bump(mid.terms_view(),
                        (#[trigger] args@[j]).hkey as int, nw[j].hkey as int) && !has_next(
                        mid.terms_view(), args@[j].hkey as int) && nw[j].hkey < mid.n_terms()),
                _ => false,
            },
            match (mid.term_at(t.hkey as int), self.term_at(b.hkey as int)) {
                (TermData::Op(o1, _), TermData::Op(o2, a2)) => o1 == o2 && a2@ == nw,
                (TermData::App(s1, _), TermData::App(s2, a2)) => s1 == s2 && a2@ == nw,
                _ => false,
            },
        ensures
            is_bump(self.terms_view(), t.hkey as int, b.hkey as int),
            !has_next(self.terms_view(), t.hkey as int),
    {
        lemma_table_wf_keys_lt(mid.terms_view(), mid.n_syms(), mid.n_csts());
        lemma_table_wf_keys_lt(self.terms_view(), self.n_syms(), self.n_csts());
        let tv = self.terms_view();
        assert(tv[t.hkey as int] == mid.term_at(t.hkey as int));
        match mid.term_at(t.hkey as int) {
            TermData::Op(_, args) => {
                assert forall|j: int| 0 <= j < args@.len() implies is_bump(
                    tv,
                    (#[trigger] args@[j]).hkey as int,
                    nw[j].hkey as int,
                ) && !has_next(tv, args@[j].hkey as int) by {
                    lemma_is_bump_prefix(mid.terms_view(), tv, args@[j].hkey as int,
                        nw[j].hkey as int);
                    lemma_has_next_prefix(mid.terms_view(), tv, args@[j].hkey as int);
                }
            },
            TermData::App(_, args) => {
                assert forall|j: int| 0 <= j < args@.len() implies is_bump(
                    tv,
                    (#[trigger] args@[j]).hkey as int,
                    nw[j].hkey as int,
                ) && !has_next(tv, args@[j].hkey as int) by {
                    lemma_is_bump_prefix(mid.terms_view(), tv, args@[j].hkey as int,
                        nw[j].hkey as int);
                    lemma_has_next_prefix(mid.terms_view(), tv, args@[j].hkey as int);
                }
            },
            _ => {},
        }
    }

    /// After interning the bumped let, the bump relation between the old
    /// term and the new one holds in the final table.
    proof fn lemma_after_binds(
        &self,
        pre: Factory,
        mid: Factory,
        t: Term,
        nbs: Seq<(Sym, Term)>,
        nb: Term,
        b: Term,
    )
        requires
            pre.wf(),
            mid.wf(),
            self.wf(),
            mid.extends(pre),
            self.extends(mid),
            pre.term_valid(t),
            self.term_valid(b),
            match pre.term_at(t.hkey as int) {
                TermData::Let(bs, body) => {
                    &&& nbs.len() == bs@.len()
                    &&& (forall|j: int| 0 <= j < bs@.len() ==> (#[trigger] nbs[j]).0 == bs@[j].0
                        && nbs[j].1.hkey < pre.n_terms() && is_bump(pre.terms_view(),
                        bs@[j].1.hkey as int, nbs[j].1.hkey as int) && !has_next(
                        pre.terms_view(), bs@[j].1.hkey as int))
                    &&& body.hkey < pre.n_terms()
                    &&& is_bump(mid.terms_view(), body.hkey as int, nb.hkey as int)
                    &&& !has_next(mid.terms_view(), body.hkey as int)
                    &&& nb.hkey < mid.n_terms()
                },
                _ => false,
            },
            match (pre.term_at(t.hkey as int), self.term_at(b.hkey as int)) {
                (TermData::Let(_, _), TermData::Let(b2, t2)) => b2@ == nbs && t2 == nb,
                _ => false,
            },
        ensures
            is_bump(self.terms_view(), t.hkey as int, b.hkey as int),
            !has_next(self.terms_view(), t.hkey as int),
    {
        lemma_table_wf_keys_lt(pre.terms_view(), pre.n_syms(), pre.n_csts());
        lemma_table_wf_keys_lt(mid.terms_view(), mid.n_syms(), mid.n_csts());
        lemma_table_wf_keys_lt(self.terms_view(), self.n_syms(), self.n_csts());
        let tv = self.terms_view();
        assert(tv[t.hkey as int] == pre.term_at(t.hkey as int));
        match pre.term_at(t.hkey as int) {
            TermData::Let(bs, body) => {
                assert forall|j: int| 0 <= j < bs@.len() implies is_bump(
                    tv,
                    (#[trigger] bs@[j]).1.hkey as int,
                    nbs[j].1.hkey as int,
                ) && !has_next(tv, bs@[j].1.hkey as int) by {
                    lemma_is_bump_prefix(pre.terms_view(), tv, bs@[j].1.hkey as int,
                        nbs[j].1.hkey as int);
                    lemma_has_next_prefix(pre.terms_view(), tv, bs@[j].1.hkey as int);
                }
                lemma_is_bump_prefix(mid.terms_view(), tv, body.hkey as int, nb.hkey as int);
                lemma_has_next_prefix(mid.terms_view(), tv, body.hkey as int);
            },
            _ => {},
        }
    }
}


/// The term with key `a` mentions a current-state variable.
pub open spec fn has_curr(tbl: Seq<TermData>, a: int) -> bool
    decreases a,
        when 0 <= a < tbl.len() && table_keys_lt(tbl)
{
    match tbl[a] {
        TermData::Var(_) => false,
        TermData::SVar(_, st) => st == State::Curr,
        TermData::Cst(_) => false,
        TermData::App(_, args) => exists|i: int|
            0 <= i < args@.len() && has_curr(tbl, (#[trigger] args@[i]).hkey as int),
        TermData::Op(_, args) => exists|i: int|
            0 <= i < args@.len() && has_curr(tbl, (#[trigger] args@[i]).hkey as int),
        TermData::Forall(_, t) => has_curr(tbl, t.hkey as int),
        TermData::Exists(_, t) => has_curr(tbl, t.hkey as int),
        TermData::Let(bs, t) => has_curr(tbl, t.hkey as int) || exists|i: int|
            0 <= i < bs@.len() && has_curr(tbl, (#[trigger] bs@[i]).1.hkey as int),
    }
}

/// Bumping a term that mentions a current-state variable yields a term
/// that mentions a next-state variable, so bumping it again fails. (A
/// term without state variables bumps to itself, any number of times.)
pub proof fn lemma_bump_of_curr_has_next(tbl: Seq<TermData>, a: int, b: int)
    requires
        table_keys_lt(tbl),
        0 <= a < tbl.len(),
        0 <= b < tbl.len(),
        is_bump(tbl, a, b),
        has_curr(tbl, a),
    ensures
        has_next(tbl, b),
    decreases a,
{
    match (tbl[a], tbl[b]) {
        (TermData::App(_, a1), TermData::App(_, a2)) => {
            let i = choose|i: int|
                0 <= i < a1@.len() && has_curr(tbl, (#[trigger] a1@[i]).hkey as int);
            lemma_bump_of_curr_has_next(tbl, a1@[i].hkey as int, a2@[i].hkey as int);
            assert(0 <= i < a2@.len() && has_next(tbl, a2@[i].hkey as int));
        },
        (TermData::Op(_, a1), TermData::Op(_, a2)) => {
            let i = choose|i: int|
                0 <= i < a1@.len() && has_curr(tbl, (#[trigger] a1@[i]).hkey as int);
            lemma_bump_of_curr_has_next(tbl, a1@[i].hkey as int, a2@[i].hkey as int);
            assert(0 <= i < a2@.len() && has_next(tbl, a2@[i].hkey as int));
        },
        (TermData::Forall(_, x1), TermData::Forall(_, x2)) => {
            lemma_bump_of_curr_has_next(tbl, x1.hkey as int, x2.hkey as int);
        },
        (TermData::Exists(_, x1), TermData::Exists(_, x2)) => {
            lemma_bump_of_curr_has_next(tbl, x1.hkey as int, x2.hkey as int);
        },
        (TermData::Let(b1, x1), TermData::Let(b2, x2)) => {
            if has_curr(tbl, x1.hkey as int) {
                lemma_bump_of_curr_has_next(tbl, x1.hkey as int, x2.hkey as int);
            } else {
                let i = choose|i: int|
                    0 <= i < b1@.len() && has_curr(tbl, (#[trigger] b1@[i]).1.hkey as int);
                lemma_bump_of_curr_has_next(tbl, b1@[i].1.hkey as int, b2@[i].1.hkey as int);
                assert(0 <= i < b2@.len() && has_next(tbl, b2@[i].1.hkey as int));
            }
        },
        _ => {},
    }
}


/// Deep structural equality of the terms with keys `a` and `b`: the
/// whole trees match, not just the top entries.
pub open spec fn deep_eq(tbl: Seq<TermData>, a: int, b: int) -> bool
    decreases a,
        when 0 <= a < tbl.len() && table_keys_lt(tbl)
{
    match (tbl[a], tbl[b]) {
        (TermData::Var(s1), TermData::Var(s2)) => s1 == s2,
        (TermData::SVar(s1, st1), TermData::SVar(s2, st2)) => s1 == s2 && st1 == st2,
        (TermData::Cst(c1), TermData::Cst(c2)) => c1 == c2,
        (TermData::App(s1, a1), TermData::App(s2, a2)) => s1 == s2 && a1@.len() == a2@.len()
            && (forall|i: int| 0 <= i < a1@.len() ==> deep_eq(tbl, (#[trigger] a1@[i]).hkey as int,
                a2@[i].hkey as int)),
        (TermData::Op(o1, a1), TermData::Op(o2, a2)) => o1 == o2 && a1@.len() == a2@.len()
            && (forall|i: int| 0 <= i < a1@.len() ==> deep_eq(tbl, (#[trigger] a1@[i]).hkey as int,
                a2@[i].hkey as int)),
        (TermData::Forall(b1, t1), TermData::Forall(b2, t2)) => b1@ == b2@ && deep_eq(tbl,
            t1.hkey as int, t2.hkey as int),
        (TermData::Exists(b1, t1), TermData::Exists(b2, t2)) => b1@ == b2@ && deep_eq(tbl,
            t1.hkey as int, t2.hkey as int),
        (TermData::Let(b1, t1), TermData::Let(b2, t2)) => b1@.len() == b2@.len() && (forall|i: int|
            0 <= i < b1@.len() ==> (#[trigger] b1@[i]).0 == b2@[i].0 && deep_eq(tbl,
                b1@[i].1.hkey as int, b2@[i].1.hkey as int)) && deep_eq(tbl, t1.hkey as int,
            t2.hkey as int),
        _ => false,
    }
}

/// Deep equality is reflexive.
pub proof fn lemma_deep_eq_refl(tbl: Seq<TermData>, a: int)
    requires
        table_keys_lt(tbl),
        0 <= a < tbl.len(),
    ensures
        deep_eq(tbl, a, a),
    decreases a,
{
    match tbl[a] {
        TermData::App(_, args) => {
            assert forall|i: int| 0 <= i < args@.len() implies deep_eq(
                tbl,
                (#[trigger] args@[i]).hkey as int,
                args@[i].hkey as int,
            ) by {
                lemma_deep_eq_refl(tbl, args@[i].hkey as int);
            }
        },
        TermData::Op(_, args) => {
            assert forall|i: int| 0 <= i < args@.len() implies deep_eq(
                tbl,
                (#[trigger] args@[i]).hkey as int,
                args@[i].hkey as int,
            ) by {
                lemma_deep_eq_refl(tbl, args@[i].hkey as int);
            }
        },
        TermData::Forall(_, t) => {
            lemma_deep_eq_refl(tbl, t.hkey as int);
        },
        TermData::Exists(_, t) => {
            lemma_deep_eq_refl(tbl, t.hkey as int);
        },
        TermData::Let(bs, t) => {
            lemma_deep_eq_refl(tbl, t.hkey as int);
            assert forall|i: int| 0 <= i < bs@.len() implies (#[trigger] bs@[i]).0 == bs@[i].0
                && deep_eq(tbl, bs@[i].1.hkey as int, bs@[i].1.hkey as int) by {
                lemma_deep_eq_refl(tbl, bs@[i].1.hkey as int);
            }
        },
        _ => {},
    }
}

/// In a well-formed factory, deeply equal interned terms are the same
/// term: interning admits no structural duplicates at any depth.
pub proof fn lemma_deep_eq_same_key(f: Factory, a: int, b: int)
    requires
        f.wf(),
        0 <= a < f.n_terms(),
        0 <= b < f.n_terms(),
        deep_eq(f.terms_view(), a, b),
    ensures
        a == b,
    decreases a,
{
    let tbl = f.terms_view();
    lemma_table_wf_keys_lt(tbl, f.n_syms(), f.n_csts());
    let shallow_eq: bool = match (tbl[a], tbl[b]) {
        (TermData::App(_, a1), TermData::App(_, a2)) => {
            assert forall|i: int| 0 <= i < a1@.len() implies (#[trigger] a1@[i]) == a2@[i] by {
                lemma_deep_eq_same_key(f, a1@[i].hkey as int, a2@[i].hkey as int);
            }
            assert(a1@ =~= a2@);
            true
        },
        (TermData::Op(_, a1), TermData::Op(_, a2)) => {
            assert forall|i: int| 0 <= i < a1@.len() implies (#[trigger] a1@[i]) == a2@[i] by {
                lemma_deep_eq_same_key(f, a1@[i].hkey as int, a2@[i].hkey as int);
            }
            assert(a1@ =~= a2@);
            true
        },
        (TermData::Forall(_, t1), TermData::Forall(_, t2)) => {
            lemma_deep_eq_same_key(f, t1.hkey as int, t2.hkey as int);
            true
        },
        (TermData::Exists(_, t1), TermData::Exists(_, t2)) => {
            lemma_deep_eq_same_key(f, t1.hkey as int, t2.hkey as int);
            true
        },
        (TermData::Let(b1, t1), TermData::Let(b2, t2)) => {
            lemma_deep_eq_same_key(f, t1.hkey as int, t2.hkey as int);
            assert forall|i: int| 0 <= i < b1@.len() implies (#[trigger] b1@[i]) == b2@[i] by {
                lemma_deep_eq_same_key(f, b1@[i].1.hkey as int, b2@[i].1.hkey as int);
            }
            assert(b1@ =~= b2@);
            true
        },
        _ => true,
    };
    assert(shallow_eq);
    assert(td_eq(tbl[a], tbl[b]));
    if a < b {
        assert(!td_eq(tbl[a], tbl[b]));
    } else if b < a {
        assert(!td_eq(tbl[b], tbl[a]));
        lemma_td_eq_sym(tbl[b], tbl[a]);
    }
}

/// The interning law, in full depth: within one well-formed factory, two
/// interned terms have equal keys exactly when they are structurally
/// equal, all the way down.
pub proof fn lemma_hkey_eq_iff_deep_eq(f: Factory, a: Term, b: Term)
    requires
        f.wf(),
        f.term_valid(a),
        f.term_valid(b),
    ensures
        (a.hkey == b.hkey) <==> deep_eq(f.terms_view(), a.hkey as int, b.hkey as int),
{
    lemma_table_wf_keys_lt(f.terms_view(), f.n_syms(), f.n_csts());
    if a.hkey == b.hkey {
        lemma_deep_eq_refl(f.terms_view(), a.hkey as int);
    }
    if deep_eq(f.terms_view(), a.hkey as int, b.hkey as int) {
        lemma_deep_eq_same_key(f, a.hkey as int, b.hkey as int);
    }
}

} // verus!
