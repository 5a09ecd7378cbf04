//! State terms, properties, and the transition system the techniques
//! consume.

use vstd::prelude::*;

use crate::term::{
    has_next, is_bump, Factory, Sym, Term, TermData, Ty,
};

verus! {

/// A one-state term paired with its canonical next-state form at offsets
/// `(0, 1)`: the term bumped by one step. Two workers agree on an
/// invariant exactly when their `STerm` keys agree, whatever offsets each
/// worker unrolled to.
#[derive(Debug, Clone, Copy, PartialEq, Eq, Structural)]
pub struct STerm {
    curr: Term,
    next: Term,
}

impl STerm {
    /// The current-state form.
    pub closed spec fn curr_spec(&self) -> Term {
        self.curr
    }

    /// The next-state form.
    pub closed spec fn next_spec(&self) -> Term {
        self.next
    }

    /// Well formed in a factory table: both forms are interned, the
    /// current form holds no next-state variable, and the next form is
    /// its bump.
    pub open spec fn wf_in(&self, tbl: Seq<TermData>) -> bool {
        &&& self.curr_spec().hkey < tbl.len()
        &&& self.next_spec().hkey < tbl.len()
        &&& !has_next(tbl, self.curr_spec().hkey as int)
        &&& is_bump(tbl, self.curr_spec().hkey as int, self.next_spec().hkey as int)
    }

    /// Normalizes a one-state term, interning its next-state form. Fails
    /// exactly when the term already mentions a next-state variable.
    pub fn mk(factory: &mut Factory, t: Term) -> (r: Result<STerm, ()>)
        requires
            old(factory).wf(),
            old(factory).term_valid(t),
        ensures
            final(factory).wf(),
            final(factory).extends(*old(factory)),
            match r {
                Ok(st) => st.curr_spec() == t && st.wf_in(final(factory).terms_view()),
                Err(_) => has_next(final(factory).terms_view(), t.hkey as int),
            },
    {
        match factory.bump(t) {
            Ok(b) => Ok(STerm { curr: t, next: b }),
            Err(_) => Err(()),
        }
    }

    /// The current-state form.
    pub fn curr(&self) -> (r: Term)
        ensures
            r == self.curr_spec(),
    {
        self.curr
    }

    /// The next-state form.
    pub fn next(&self) -> (r: Term)
        ensures
            r == self.next_spec(),
    {
        self.next
    }
}

/// A named safety property over a system's state.
#[derive(Debug, Clone, Copy, PartialEq, Eq, Structural)]
pub struct Prop {
    /// The property's name.
    pub sym: Sym,
    /// The property's body, normalized.
    pub term: STerm,
}

impl Prop {
    /// The property's name.
    pub fn sym(&self) -> (r: Sym)
        ensures
            r == self.sym,
    {
        self.sym
    }
}

/// A transition system, as the techniques consume it: its name, its state
/// variables, an initial-state predicate over one state, and a transition
/// relation over two adjacent states.
#[derive(Debug, Clone)]
pub struct Sys {
    sym: Sym,
    svars: Vec<(Sym, Ty)>,
    init: Term,
    trans: Term,
}

impl Sys {
    /// The system's name.
    pub closed spec fn sym_spec(&self) -> Sym {
        self.sym
    }

    /// The declared state variables.
    pub closed spec fn svars_view(&self) -> Seq<(Sym, Ty)> {
        self.svars@
    }

    /// The initial-state predicate.
    pub closed spec fn init_spec(&self) -> Term {
        self.init
    }

    /// The transition relation.
    pub closed spec fn trans_spec(&self) -> Term {
        self.trans
    }

    /// Packs a system.
    pub fn mk(sym: Sym, svars: Vec<(Sym, Ty)>, init: Term, trans: Term) -> (r: Self)
        ensures
            r.sym_spec() == sym,
            r.svars_view() == svars@,
            r.init_spec() == init,
            r.trans_spec() == trans,
    {
        Sys { sym, svars, init, trans }
    }

    /// The system's name.
    pub fn sym(&self) -> (r: Sym)
        ensures
            r == self.sym_spec(),
    {
        self.sym
    }

    /// The declared state variables.
    pub fn svars(&self) -> (r: &Vec<(Sym, Ty)>)
        ensures
            r@ == self.svars_view(),
    {
        &self.svars
    }

    /// The initial-state predicate.
    pub fn init(&self) -> (r: Term)
        ensures
            r == self.init_spec(),
    {
        self.init
    }

    /// The transition relation.
    pub fn trans(&self) -> (r: Term)
        ensures
            r == self.trans_spec(),
    {
        self.trans
    }
}

} // verus!
