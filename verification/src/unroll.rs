//! The solver session state machine: declaring state variables at
//! offsets, unrolling the transition relation, activation literals, and
//! bulk-asserting invariants.
//!
//! The session does no I/O itself: every operation returns the solver
//! commands it stands for, as data, and the caller carries them to the
//! solver process. The session's bookkeeping is exact: its depth equals
//! the number of unrollings since the last restart, and activation
//! literals are never reused across the session's lifetime, restarts
//! included.

use vstd::prelude::*;

use crate::base::{dec_digits, Offset, Offset2};
use crate::sys::{STerm, Sys};
use crate::term::{Sym, Term, Ty};

verus! {

/// An activation literal: a fresh boolean gate letting the solver retract
/// an assertion without a restart.
#[derive(Debug, Clone, Copy, PartialEq, Eq, Structural)]
pub struct Actlit {
    /// The literal's index; each is used once per session.
    pub n: usize,
}

/// The bytes of `"actlit_"`, the prefix of every activation literal name.
pub open spec fn actlit_prefix() -> Seq<u8> {
    seq![97u8, 99u8, 116u8, 108u8, 105u8, 116u8, 95u8]
}

impl Actlit {
    /// The literal's name: `actlit_` followed by its index in decimal.
    /// Distinct literals have distinct names.
    pub fn name_bytes(&self) -> (r: Vec<u8>)
        requires
            self.n <= u16::MAX,
        ensures
            r@ == actlit_prefix() + dec_digits(self.n as int),
    {
        let mut out: Vec<u8> = Vec::new();
        out.push(97);
        out.push(99);
        out.push(116);
        out.push(108);
        out.push(105);
        out.push(116);
        out.push(95);
        proof {
            assert(out@ =~= actlit_prefix());
        }
        let digits = Offset::of_int(self.n).to_smt2();
        let n = digits.len();
        let mut i: usize = 0;
        while i < n
            invariant
                n == digits@.len(),
                0 <= i <= n,
                out@ == actlit_prefix() + digits@.take(i as int),
            decreases n - i,
        {
            out.push(digits[i]);
            proof {
                assert(out@ =~= actlit_prefix() + digits@.take(i + 1));
            }
            i = i + 1;
        }
        proof {
            assert(digits@.take(n as int) =~= digits@);
        }
        out
    }
}

/// One command for the solver process.
#[derive(Debug, Clone, Copy, PartialEq, Eq, Structural)]
pub enum SmtCmd {
    /// Declare a state variable at an offset: `name@offset`.
    DeclareSVar(Sym, Ty, Offset),
    /// Declare a fresh activation literal.
    DeclareActlit(Actlit),
    /// Assert a term, state variables read at the two-state offset.
    AssertAt(Term, Offset2),
    /// Assert that the activation literal implies the term at the offset.
    AssertImplied(Actlit, Term, Offset2),
    /// Assert the literal's negation: retire it for good.
    Deactivate(Actlit),
    /// Discard every assertion and declaration.
    Reset,
}

/// Whether a session checks the base case or the inductive step.
#[derive(Debug, Clone, Copy, PartialEq, Eq, Structural)]
pub enum SessionKind {
    /// Base case: the initial predicate is asserted.
    Base,
    /// Inductive step: no initial predicate.
    Step,
}

/// A solver session over a transition system.
#[derive(Debug, Clone)]
pub struct Unroller {
    sys: Sys,
    kind: SessionKind,
    top: Offset2,
    depth: usize,
    actlit_count: usize,
}

impl Unroller {
    /// The system under the session.
    pub closed spec fn sys_spec(&self) -> Sys {
        self.sys
    }

    /// Base or step session.
    pub closed spec fn kind_spec(&self) -> SessionKind {
        self.kind
    }

    /// The top two-state offset: where the next unrolling happens.
    pub closed spec fn top_spec(&self) -> Offset2 {
        self.top
    }

    /// How many times `unroll` ran since the last restart.
    pub closed spec fn depth_spec(&self) -> int {
        self.depth as int
    }

    /// How many activation literals were ever handed out.
    pub closed spec fn actlit_count_spec(&self) -> int {
        self.actlit_count as int
    }

    /// The session's invariant: the top offset tracks the depth.
    pub open spec fn wf(&self) -> bool {
        &&& self.top_spec().wf()
        &&& self.top_spec().curr_val() == self.depth_spec()
        &&& self.depth_spec() + 1 <= u16::MAX
    }

    /// A fresh base session at depth zero.
    pub fn mk(sys: Sys) -> (r: Self)
        ensures
            r.wf(),
            r.sys_spec() == sys,
            r.kind_spec() == SessionKind::Base,
            r.depth_spec() == 0,
            r.actlit_count_spec() == 0,
    {
        Unroller { sys, kind: SessionKind::Base, top: Offset2::init(), depth: 0, actlit_count: 0 }
    }

    /// The commands declaring every state variable at an offset.
    pub fn declare_svars(&self, o: &Offset) -> (r: Vec<SmtCmd>)
        ensures
            r@.len() == self.sys_spec().svars_view().len(),
            forall|j: int|
                0 <= j < r@.len() ==> r@[j] == SmtCmd::DeclareSVar(
                    (#[trigger] self.sys_spec().svars_view()[j]).0,
                    self.sys_spec().svars_view()[j].1,
                    *o,
                ),
    {
        let mut out: Vec<SmtCmd> = Vec::new();
        let svars = self.sys.svars();
        let n = svars.len();
        let mut j: usize = 0;
        while j < n
            invariant
                n == self.sys_spec().svars_view().len(),
                svars@ == self.sys_spec().svars_view(),
                0 <= j <= n,
                out@.len() == j,
                forall|x: int|
                    0 <= x < j ==> out@[x] == SmtCmd::DeclareSVar(
                        (#[trigger] self.sys_spec().svars_view()[x]).0,
                        self.sys_spec().svars_view()[x].1,
                        *o,
                    ),
            decreases n - j,
        {
            out.push(SmtCmd::DeclareSVar(svars[j].0, svars[j].1, *o));
            j = j + 1;
        }
        out
    }

    /// The commands asserting the initial predicate and one transition
    /// step at an offset.
    pub fn unroll_init(&self, off: &Offset2) -> (r: Vec<SmtCmd>)
        ensures
            r@.len() == 2,
            r@[0] == SmtCmd::AssertAt(self.sys_spec().init_spec(), *off),
            r@[1] == SmtCmd::AssertAt(self.sys_spec().trans_spec(), *off),
    {
        let mut out: Vec<SmtCmd> = Vec::new();
        out.push(SmtCmd::AssertAt(self.sys.init(), *off));
        out.push(SmtCmd::AssertAt(self.sys.trans(), *off));
        out
    }

    /// Advances the session one step: declares the state variables of the
    /// new state and asserts the transition into it. Returns the new
    /// depth: always the number of unrollings since the last restart.
    pub fn unroll(&mut self) -> (r: (Vec<SmtCmd>, usize))
        requires
            old(self).wf(),
            old(self).depth_spec() + 2 <= u16::MAX,
        ensures
            final(self).wf(),
            final(self).sys_spec() == old(self).sys_spec(),
            final(self).kind_spec() == old(self).kind_spec(),
            final(self).actlit_count_spec() == old(self).actlit_count_spec(),
            final(self).depth_spec() == old(self).depth_spec() + 1,
            final(self).top_spec().curr_val() == old(self).top_spec().curr_val() + 1,
            r.1 == final(self).depth_spec(),
            r.0@.len() == old(self).sys_spec().svars_view().len() + 1,
            forall|j: int|
                0 <= j < old(self).sys_spec().svars_view().len() ==> (r.0@[j]
                    matches SmtCmd::DeclareSVar(s, ty, o) && s == (
                #[trigger] old(self).sys_spec().svars_view()[j]).0 && ty
                    == old(self).sys_spec().svars_view()[j].1 && o.val()
                    == old(self).top_spec().next_val() + 1),
            r.0@.last() matches SmtCmd::AssertAt(t, o2) && t == old(self).sys_spec().trans_spec()
                && o2 == final(self).top_spec(),
    {
        let next_top = self.top.nxt();
        let new_o = next_top.next();
        let mut cmds = self.declare_svars(&new_o);
        cmds.push(SmtCmd::AssertAt(self.sys.trans(), next_top));
        self.top = next_top;
        self.depth = self.depth + 1;
        (cmds, self.depth)
    }

    /// The commands asserting every invariant of the batch at every
    /// offset from `from` up to and including `to`.
    pub fn add_invs(&self, invs: &Vec<STerm>, from: &Offset2, to: &Offset2) -> (r: Vec<SmtCmd>)
        requires
            from.wf(),
            to.wf(),
            from.curr_val() <= to.curr_val(),
            to.curr_val() + 2 <= u16::MAX,
        ensures
            r@.len() == (to.curr_val() - from.curr_val() + 1) * invs@.len(),
            forall|s: int, j: int|
                0 <= s <= to.curr_val() - from.curr_val() && 0 <= j < invs@.len() ==> {
                    let cmd = #[trigger] r@[s * invs@.len() + j];
                    &&& cmd matches SmtCmd::AssertAt(t, o2)
                    &&& t == invs@[j].curr_spec()
                    &&& o2.wf()
                    &&& o2.curr_val() == from.curr_val() + s
                },
    {
        let mut out: Vec<SmtCmd> = Vec::new();
        let n = invs.len();
        let mut off = *from;
        let ghost steps = to.curr_val() - from.curr_val() + 1;
        let mut s: usize = 0;
        let last: usize = (to.curr().to_usize() - from.curr().to_usize()) + 1;
        while s < last
            invariant
                from.wf(),
                to.wf(),
                from.curr_val() <= to.curr_val(),
                to.curr_val() + 2 <= u16::MAX,
                n == invs@.len(),
                steps == to.curr_val() - from.curr_val() + 1,
                last == steps,
                0 <= s <= last,
                off.wf(),
                off.curr_val() == from.curr_val() + s,
                out@.len() == s * invs@.len(),
                forall|s2: int, j: int|
                    0 <= s2 < s && 0 <= j < invs@.len() ==> {
                        let cmd = #[trigger] out@[s2 * invs@.len() + j];
                        &&& cmd matches SmtCmd::AssertAt(t, o2)
                        &&& t == invs@[j].curr_spec()
                        &&& o2.wf()
                        &&& o2.curr_val() == from.curr_val() + s2
                    },
            decreases last - s,
        {
            let ghost pre_len = out@.len() as int;
            let ghost pre_out = out@;
            let mut j: usize = 0;
            while j < n
                invariant
                    n == invs@.len(),
                    0 <= j <= n,
                    pre_len == pre_out.len(),
                    out@.len() == pre_len + j,
                    forall|x: int| 0 <= x < pre_len ==> out@[x] == pre_out[x],
                    forall|x: int|
                        0 <= x < j ==> {
                            let cmd = #[trigger] out@[pre_len + x];
                            &&& cmd matches SmtCmd::AssertAt(t, o2)
                            &&& t == invs@[x].curr_spec()
                            &&& o2 == off
                        },
                decreases n - j,
            {
                out.push(SmtCmd::AssertAt(invs[j].curr(), off));
                j = j + 1;
            }
            proof {
                assert((s + 1) * invs@.len() == s * invs@.len() + invs@.len())
                    by (nonlinear_arith);
                assert forall|s2: int, j2: int|
                    0 <= s2 < s + 1 && 0 <= j2 < invs@.len() implies {
                    let cmd = #[trigger] out@[s2 * invs@.len() + j2];
                    &&& cmd matches SmtCmd::AssertAt(t, o2)
                    &&& t == invs@[j2].curr_spec()
                    &&& o2.wf()
                    &&& o2.curr_val() == from.curr_val() + s2
                } by {
                    if s2 < s {
                        assert(0 <= s2 * invs@.len() + j2 < pre_len) by (nonlinear_arith)
                            requires
                                0 <= s2 < s,
                                0 <= j2 < invs@.len(),
                                pre_len == s * invs@.len(),
                        ;
                        assert(out@[s2 * invs@.len() + j2] == pre_out[s2 * invs@.len() + j2]);
                    } else {
                        assert(s2 * invs@.len() + j2 == pre_len + j2);
                    }
                }
            }
            off = off.nxt();
            s = s + 1;
        }
        out
    }

    /// A fresh activation literal and its declaration. No literal is ever
    /// handed out twice: the count only grows, across restarts too.
    pub fn fresh_actlit(&mut self) -> (r: (Actlit, SmtCmd))
        requires
            old(self).wf(),
            old(self).actlit_count_spec() < usize::MAX,
        ensures
            final(self).wf(),
            final(self).sys_spec() == old(self).sys_spec(),
            final(self).kind_spec() == old(self).kind_spec(),
            final(self).depth_spec() == old(self).depth_spec(),
            final(self).top_spec() == old(self).top_spec(),
            final(self).actlit_count_spec() == old(self).actlit_count_spec() + 1,
            r.0.n == old(self).actlit_count_spec(),
            r.1 == SmtCmd::DeclareActlit(r.0),
    {
        let a = Actlit { n: self.actlit_count };
        self.actlit_count = self.actlit_count + 1;
        (a, SmtCmd::DeclareActlit(a))
    }

    /// The command asserting a term at a two-state offset.
    pub fn assert_at(&self, t: Term, off: &Offset2) -> (r: SmtCmd)
        ensures
            r == SmtCmd::AssertAt(t, *off),
    {
        SmtCmd::AssertAt(t, *off)
    }

    /// The command gating a term behind an activation literal.
    pub fn assert_implied(&self, a: Actlit, t: Term, off: &Offset2) -> (r: SmtCmd)
        ensures
            r == SmtCmd::AssertImplied(a, t, *off),
    {
        SmtCmd::AssertImplied(a, t, *off)
    }

    /// The command retiring an activation literal.
    pub fn deactivate(&self, a: Actlit) -> (r: SmtCmd)
        ensures
            r == SmtCmd::Deactivate(a),
    {
        SmtCmd::Deactivate(a)
    }

    /// Turns the base session into a step session at the same depth.
    pub fn to_step(&mut self)
        requires
            old(self).wf(),
        ensures
            final(self).wf(),
            final(self).kind_spec() == SessionKind::Step,
            final(self).sys_spec() == old(self).sys_spec(),
            final(self).top_spec() == old(self).top_spec(),
            final(self).depth_spec() == old(self).depth_spec(),
            final(self).actlit_count_spec() == old(self).actlit_count_spec(),
    {
        self.kind = SessionKind::Step;
    }

    /// Discards the solver state: depth falls back to zero and the
    /// baseline state variables are re-declared, but activation literal
    /// names are never reused.
    pub fn restart(&mut self) -> (r: Vec<SmtCmd>)
        requires
            old(self).wf(),
        ensures
            final(self).wf(),
            final(self).sys_spec() == old(self).sys_spec(),
            final(self).kind_spec() == old(self).kind_spec(),
            final(self).depth_spec() == 0,
            final(self).actlit_count_spec() == old(self).actlit_count_spec(),
            r@.len() == old(self).sys_spec().svars_view().len() + 1,
            r@[0] == SmtCmd::Reset,
            forall|j: int|
                0 <= j < old(self).sys_spec().svars_view().len() ==> (r@[j + 1]
                    matches SmtCmd::DeclareSVar(sy, ty, o) && sy == (
                #[trigger] old(self).sys_spec().svars_view()[j]).0 && ty
                    == old(self).sys_spec().svars_view()[j].1 && o.val() == 0),
    {
        self.top = Offset2::init();
        self.depth = 0;
        let mut out: Vec<SmtCmd> = Vec::new();
        out.push(SmtCmd::Reset);
        let zero = self.top.curr();
        let decls = self.declare_svars(&zero);
        let n = decls.len();
        let mut j: usize = 0;
        while j < n
            invariant
                n == decls@.len(),
                0 <= j <= n,
                out@.len() == j + 1,
                out@[0] == SmtCmd::Reset,
                forall|x: int| 0 <= x < j ==> out@[x + 1] == #[trigger] decls@[x],
            decreases n - j,
        {
            out.push(decls[j]);
            j = j + 1;
        }
        out
    }
}

} // verus!
