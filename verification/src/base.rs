//! Offsets into an unrolled trace, two-state offset pairs, and the offset
//! tags attached to expressions read back from the solver.

use vstd::prelude::*;

verus! {

/// A state-variable occurrence is either in the current or in the next state.
#[derive(Debug, Clone, Copy, PartialEq, Eq, Structural)]
pub enum State {
    /// Current state.
    Curr,
    /// Next state.
    Next,
}

/// The integer value denoted by a sequence of decimal digit bytes.
pub open spec fn dec_val(s: Seq<u8>) -> int
    decreases s.len(),
{
    if s.len() == 0 {
        0
    } else {
        dec_val(s.drop_last()) * 10 + (s.last() - 48)
    }
}

/// All bytes are ASCII decimal digits.
pub open spec fn is_dec(s: Seq<u8>) -> bool {
    forall|i: int| 0 <= i < s.len() ==> 48 <= #[trigger] s[i] <= 57
}

/// The decimal digit bytes of a nonnegative integer, most significant first.
pub open spec fn dec_digits(n: int) -> Seq<u8>
    decreases n,
{
    if n < 10 {
        seq![(n + 48) as u8]
    } else {
        dec_digits(n / 10).push((n % 10 + 48) as u8)
    }
}

proof fn lemma_dec_val_nonneg(s: Seq<u8>)
    requires
        is_dec(s),
    ensures
        dec_val(s) >= 0,
    decreases s.len(),
{
    if s.len() > 0 {
        assert(is_dec(s.drop_last()));
        lemma_dec_val_nonneg(s.drop_last());
    }
}

proof fn lemma_dec_prefix_le(s: Seq<u8>, i: int)
    requires
        is_dec(s),
        0 <= i <= s.len(),
    ensures
        dec_val(s.take(i)) <= dec_val(s),
    decreases s.len() - i,
{
    if i < s.len() {
        assert(s.take(i + 1).drop_last() =~= s.take(i));
        assert(is_dec(s.take(i)));
        lemma_dec_val_nonneg(s.take(i));
        assert(dec_val(s.take(i + 1)) == dec_val(s.take(i)) * 10 + (s[i] - 48));
        lemma_dec_prefix_le(s, i + 1);
    } else {
        assert(s.take(i) =~= s);
    }
}

/// An offset: how deep into an unrolled trace a state lies.
#[derive(Debug, Clone, Copy, PartialEq, Eq, Structural, Hash)]
pub struct Offset {
    offset: u16,
}

impl Offset {
    /// The offset as a mathematical integer.
    pub closed spec fn val(&self) -> int {
        self.offset as int
    }

    /// Reads an offset from its decimal digit bytes.
    pub fn of_bytes(bytes: &[u8]) -> (r: Self)
        requires
            bytes@.len() > 0,
            is_dec(bytes@),
            dec_val(bytes@) <= u16::MAX,
        ensures
            r.val() == dec_val(bytes@),
    {
        let mut acc: u16 = 0;
        let mut i: usize = 0;
        while i < bytes.len()
            invariant
                0 <= i <= bytes@.len(),
                is_dec(bytes@),
                dec_val(bytes@) <= u16::MAX,
                acc == dec_val(bytes@.take(i as int)),
            decreases bytes@.len() - i,
        {
            let b = bytes[i];
            proof {
                assert(bytes@.take(i + 1).drop_last() =~= bytes@.take(i as int));
                assert(dec_val(bytes@.take(i + 1)) == acc * 10 + (b - 48));
                lemma_dec_prefix_le(bytes@, i + 1);
                lemma_dec_val_nonneg(bytes@.take(i + 1));
            }
            acc = acc * 10 + (b - 48) as u16;
            i = i + 1;
        }
        proof {
            assert(bytes@.take(bytes@.len() as int) =~= bytes@);
        }
        Offset { offset: acc }
    }

    /// An offset from a machine integer.
    pub fn of_int(n: usize) -> (r: Self)
        requires
            n <= u16::MAX,
        ensures
            r.val() == n,
    {
        Offset { offset: n as u16 }
    }

    /// The offset as a machine integer.
    pub fn to_usize(&self) -> (r: usize)
        ensures
            r == self.val(),
    {
        self.offset as usize
    }

    /// The offset following this one.
    pub fn nxt(&self) -> (r: Self)
        requires
            self.val() < u16::MAX,
        ensures
            r.val() == self.val() + 1,
    {
        Offset { offset: self.offset + 1u16 }
    }

    /// Prints the offset the way the solver reads it: as decimal digits.
    pub fn to_smt2(&self) -> (r: Vec<u8>)
        ensures
            r@ == dec_digits(self.val()),
    {
        let mut out: Vec<u8> = Vec::new();
        push_dec_digits(self.offset, &mut out);
        out
    }
}

/// Appends the decimal digits of `n` to `out`, most significant first.
fn push_dec_digits(n: u16, out: &mut Vec<u8>)
    ensures
        final(out)@ == old(out)@ + dec_digits(n as int),
    decreases n,
{
    if n < 10 {
        out.push((n as u8) + 48);
        proof {
            assert(final(out)@ =~= old(out)@ + dec_digits(n as int));
        }
    } else {
        push_dec_digits(n / 10, out);
        out.push(((n % 10) as u8) + 48);
        proof {
            assert(final(out)@ =~= old(out)@ + dec_digits(n as int));
        }
    }
}

/// Printing an offset and reading the digits back yields the same value.
pub proof fn lemma_dec_round_trip(n: int)
    requires
        n >= 0,
    ensures
        is_dec(dec_digits(n)),
        dec_val(dec_digits(n)) == n,
    decreases n,
{
    if n < 10 {
        assert(dec_digits(n) =~= seq![(n + 48) as u8]);
        assert(dec_val(dec_digits(n).drop_last()) == 0);
    } else {
        lemma_dec_round_trip(n / 10);
        let s = dec_digits(n);
        assert(s.drop_last() =~= dec_digits(n / 10));
        assert(dec_val(s) == dec_val(dec_digits(n / 10)) * 10 + (n % 10 + 48 - 48));
        assert(dec_val(s) == (n / 10) * 10 + n % 10);
    }
}

/// Two offsets are the same value exactly when they are the same offset.
pub proof fn lemma_offset_eq_val(a: Offset, b: Offset)
    ensures
        (a == b) <==> (a.val() == b.val()),
{
}

/// A two-state offset: the pair of a current and the following next offset.
#[derive(Debug, Clone, Copy, PartialEq, Eq, Structural)]
pub struct Offset2 {
    curr: Offset,
    next: Offset,
}

impl Offset2 {
    /// The current offset as a mathematical integer.
    pub closed spec fn curr_val(&self) -> int {
        self.curr.val()
    }

    /// The next offset as a mathematical integer.
    pub closed spec fn next_val(&self) -> int {
        self.next.val()
    }

    /// The pair is well formed: the next offset follows the current one.
    pub open spec fn wf(&self) -> bool {
        self.next_val() == self.curr_val() + 1
    }

    /// The initial two-state offset, `(0, 1)`.
    pub fn init() -> (r: Self)
        ensures
            r.wf(),
            r.curr_val() == 0,
    {
        Offset2 { curr: Offset::of_int(0), next: Offset::of_int(1) }
    }

    /// The two-state offset following this one.
    pub fn nxt(&self) -> (r: Self)
        requires
            self.wf(),
            self.next_val() < u16::MAX,
        ensures
            r.wf(),
            r.curr_val() == self.curr_val() + 1,
    {
        Offset2 { curr: self.curr.nxt(), next: self.next.nxt() }
    }

    /// The current offset.
    pub fn curr(&self) -> (r: Offset)
        ensures
            r.val() == self.curr_val(),
    {
        self.curr
    }

    /// The next offset.
    pub fn next(&self) -> (r: Offset)
        ensures
            r.val() == self.next_val(),
    {
        self.next
    }

    /// The offset a state occurrence refers to: current or next.
    pub fn index(&self, i: &State) -> (r: Offset)
        ensures
            *i == State::Curr ==> r.val() == self.curr_val(),
            *i == State::Next ==> r.val() == self.next_val(),
    {
        match *i {
            State::Curr => self.curr,
            State::Next => self.next,
        }
    }
}

/// The current and next values after stepping the initial pair `k` times.
pub open spec fn o2_iter(k: nat) -> (int, int)
    decreases k,
{
    if k == 0 {
        (0int, 1int)
    } else {
        let p = o2_iter((k - 1) as nat);
        (p.0 + 1, p.1 + 1)
    }
}

/// Stepping the initial two-state offset `k` times lands on current offset
/// `k` and next offset `k + 1`.
pub proof fn lemma_o2_iter(k: nat)
    ensures
        o2_iter(k).0 == k,
        o2_iter(k).1 == k + 1,
    decreases k,
{
    if k > 0 {
        lemma_o2_iter((k - 1) as nat);
    }
}

/// The offsets at which an expression read from the solver mentions state
/// variables.
#[derive(Debug, Clone, Copy, PartialEq, Eq, Structural)]
pub enum Smt2Offset {
    /// The expression mentions no state variable.
    No,
    /// All state variables are at one offset.
    One(Offset),
    /// State variables occur at exactly two offsets, the smaller one first.
    Two(Offset, Offset),
}

/// What merging two offset tags yields, or `None` on incompatible tags.
///
/// A tag merges with itself and with `No`; two distinct `One`s make a `Two`
/// ordered by offset; a `Two` absorbs a `One` at either of its offsets;
/// everything else is a conflict.
pub open spec fn merge_spec(a: Smt2Offset, b: Smt2Offset) -> Option<Smt2Offset> {
    if a == b {
        Some(b)
    } else {
        match (a, b) {
            (Smt2Offset::No, _) => Some(b),
            (_, Smt2Offset::No) => Some(a),
            (Smt2Offset::One(l), Smt2Offset::One(r)) => if l.val() < r.val() {
                Some(Smt2Offset::Two(l, r))
            } else if l.val() == r.val() {
                Some(b)
            } else {
                Some(Smt2Offset::Two(r, l))
            },
            (Smt2Offset::Two(lo, hi), Smt2Offset::One(r)) => if r == lo || r == hi {
                Some(a)
            } else {
                None
            },
            (Smt2Offset::One(l), Smt2Offset::Two(lo, hi)) => if l == lo || l == hi {
                Some(b)
            } else {
                None
            },
            (Smt2Offset::Two(..), Smt2Offset::Two(..)) => None,
        }
    }
}

impl Smt2Offset {
    /// `No` tag from `None`, a `One` tag otherwise.
    pub fn of_opt(opt: Option<Offset>) -> (r: Self)
        ensures
            opt is None ==> r == Smt2Offset::No,
            opt is Some ==> r == Smt2Offset::One(opt->0),
    {
        match opt {
            None => Smt2Offset::No,
            Some(o) => Smt2Offset::One(o),
        }
    }

    /// True iff `self` is `One(o)` and `rhs` is `Two(_, o)`: `self` sits at
    /// the next offset of `rhs`.
    pub fn is_next_of(&self, rhs: &Smt2Offset) -> (r: bool)
        ensures
            r <==> match (*self, *rhs) {
                (Smt2Offset::One(l), Smt2Offset::Two(_, hi)) => l == hi,
                _ => false,
            },
    {
        match (self, rhs) {
            (Smt2Offset::One(l), Smt2Offset::Two(_, hi)) => l == hi,
            _ => false,
        }
    }

    /// Merges two offset tags when they are compatible.
    pub fn merge(&self, rhs: &Smt2Offset) -> (r: Option<Smt2Offset>)
        ensures
            r == merge_spec(*self, *rhs),
    {
        if *self == *rhs {
            Some(*rhs)
        } else {
            match (self, rhs) {
                (Smt2Offset::No, _) => Some(*rhs),
                (_, Smt2Offset::No) => Some(*self),
                (Smt2Offset::One(l), Smt2Offset::One(r)) => if l.offset < r.offset {
                    Some(Smt2Offset::Two(*l, *r))
                } else if l.offset == r.offset {
                    Some(*rhs)
                } else {
                    Some(Smt2Offset::Two(*r, *l))
                },
                (Smt2Offset::Two(lo, hi), Smt2Offset::One(r)) => if r == lo || r == hi {
                    Some(*self)
                } else {
                    None
                },
                (Smt2Offset::One(l), Smt2Offset::Two(lo, hi)) => if l == lo || l == hi {
                    Some(*rhs)
                } else {
                    None
                },
                (Smt2Offset::Two(..), Smt2Offset::Two(..)) => None,
            }
        }
    }
}

/// Merging with `No` changes nothing: `No` is the identity of `merge`.
pub proof fn lemma_merge_identity(a: Smt2Offset)
    ensures
        merge_spec(Smt2Offset::No, a) == Some(a),
        merge_spec(a, Smt2Offset::No) == Some(a),
{
}

/// `merge` is commutative: both orders agree, also on when they are defined.
pub proof fn lemma_merge_comm(a: Smt2Offset, b: Smt2Offset)
    ensures
        merge_spec(a, b) == merge_spec(b, a),
{
}

/// `merge` is associative when every intermediate merge is defined.
pub proof fn lemma_merge_assoc(a: Smt2Offset, b: Smt2Offset, c: Smt2Offset)
    requires
        merge_spec(a, b) is Some,
        merge_spec(merge_spec(a, b)->0, c) is Some,
        merge_spec(b, c) is Some,
        merge_spec(a, merge_spec(b, c)->0) is Some,
    ensures
        merge_spec(merge_spec(a, b)->0, c) == merge_spec(a, merge_spec(b, c)->0),
{
}

} // verus!
