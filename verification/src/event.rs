//! The supervisor/worker message bus: technique identities, the two
//! message sums, and the per-worker endpoint.
//!
//! Messages travel on standard bounded-at-least-one FIFO channels; the
//! channel operations themselves are the trusted boundary, and everything
//! the endpoint decides — which messages are absorbed into the local
//! k-true table, which are handed to the caller, when the supervisor is
//! gone — is verified.

use vstd::prelude::*;

use std::sync::mpsc::Receiver;
use std::sync::mpsc::Sender;

use crate::base::Offset;
use crate::eval::Model;
use crate::sys::{Prop, STerm};
use crate::term::{Factory, Sym};

verus! {

/// The closed set of verification techniques.
#[derive(Debug, Clone, Copy, PartialEq, Eq, Structural)]
pub enum Technique {
    /// Bounded model checking.
    Bmc,
    /// K-induction.
    Ind,
    /// Template-based invariant generation.
    Tig,
    /// Invariant pruning.
    Pruner,
}

impl Technique {
    /// The technique's stable short tag, as used in logs and messages.
    pub fn to_str(&self) -> (r: &str)
        ensures
            *self == Technique::Bmc ==> r@ == "bmc"@,
            *self == Technique::Ind ==> r@ == "ind"@,
            *self == Technique::Tig ==> r@ == "tig"@,
            *self == Technique::Pruner ==> r@ == "pruner"@,
    {
        match *self {
            Technique::Bmc => "bmc",
            Technique::Ind => "ind",
            Technique::Tig => "tig",
            Technique::Pruner => "pruner",
        }
    }
}

/// Info a technique communicates with a terminal message.
#[derive(Debug, Clone, Copy, PartialEq, Eq, Structural)]
pub enum Info {
    /// The number of unrollings the technique reached.
    At(Offset),
    /// The technique stopped on an error.
    Error,
}

impl Info {
    /// The stable tag of this info; the offset of `At` is in its field.
    pub fn label(&self) -> (r: &str)
        ensures
            (*self matches Info::At(_)) ==> r@ == "at"@,
            *self == Info::Error ==> r@ == "error"@,
    {
        match *self {
            Info::At(_) => "at",
            Info::Error => "error",
        }
    }
}

/// Message from the supervisor down to every technique.
#[derive(Debug, Clone)]
pub enum MsgDown {
    /// Invariants newly established for a system.
    Invariants(Sym, Vec<STerm>),
    /// These properties are proved or disproved: stop reasoning about
    /// them.
    Forget(Vec<Sym>),
    /// Another technique showed these properties k-true at this offset.
    KTrue(Vec<Sym>, Offset),
    /// A request to prune a candidate invariant set for a system.
    InvariantPruning(Technique, Sym, Vec<STerm>, Info),
}

/// Message from a technique up to the supervisor.
pub enum MsgUp {
    /// Invariants discovered for a system.
    Invariants(Sym, Vec<STerm>),
    /// The technique hit something not implemented.
    Unimplemented,
    /// The technique terminated.
    Done(Technique, Info),
    /// A log message.
    Bla(Technique, String),
    /// An error message.
    Error(Technique, String),
    /// These properties hold through this offset.
    KTrue(Vec<Sym>, Technique, Offset),
    /// These properties are proved.
    Proved(Vec<Sym>, Technique, Info),
    /// A counterexample trace falsifies these properties.
    Disproved(Model, Vec<Sym>, Technique, Info),
    /// The non-trivial part of a pruned candidate set, with the size the
    /// set had before pruning.
    Pruned(Technique, Sym, Vec<STerm>, usize, Info),
}

impl MsgUp {
    /// The stable tag of this message's variant.
    pub fn label(&self) -> (r: &str)
        ensures
            (*self matches MsgUp::Invariants(..)) ==> r@ == "Invariants"@,
            *self == MsgUp::Unimplemented ==> r@ == "Unimplemented"@,
            (*self matches MsgUp::Done(..)) ==> r@ == "Done"@,
            (*self matches MsgUp::Bla(..)) ==> r@ == "Bla"@,
            (*self matches MsgUp::Error(..)) ==> r@ == "Error"@,
            (*self matches MsgUp::KTrue(..)) ==> r@ == "KTrue"@,
            (*self matches MsgUp::Proved(..)) ==> r@ == "Proved"@,
            (*self matches MsgUp::Disproved(..)) ==> r@ == "Disproved"@,
            (*self matches MsgUp::Pruned(..)) ==> r@ == "Pruned"@,
    {
        match *self {
            MsgUp::Invariants(..) => "Invariants",
            MsgUp::Unimplemented => "Unimplemented",
            MsgUp::Done(..) => "Done",
            MsgUp::Bla(..) => "Bla",
            MsgUp::Error(..) => "Error",
            MsgUp::KTrue(..) => "KTrue",
            MsgUp::Proved(..) => "Proved",
            MsgUp::Disproved(..) => "Disproved",
            MsgUp::Pruned(..) => "Pruned",
        }
    }
}

#[verifier::external_type_specification]
#[verifier::external_body]
#[verifier::reject_recursive_types(T)]
/// The sending half of a standard FIFO channel, declared so endpoint
/// structs can hold one.
pub struct ExSender<T>(Sender<T>);

#[verifier::external_type_specification]
#[verifier::external_body]
#[verifier::reject_recursive_types(T)]
/// The receiving half of a standard FIFO channel, declared so endpoint
/// structs can hold one.
pub struct ExReceiver<T>(Receiver<T>);

/// The outcome of one non-blocking receive attempt.
pub enum RecvAttempt {
    /// A message was pending.
    Msg(MsgDown),
    /// Nothing pending right now.
    Empty,
    /// Every sender is gone: the supervisor dropped its end.
    Closed,
}

/// Relies on `std::sync::mpsc::Sender::send`: queues the message for the
/// receiver, in order, failing exactly when the receiver is gone. What
/// came of it only the receiving end can see.
#[verifier::external_body]
fn send_up(s: &Sender<MsgUp>, m: MsgUp) -> (r: bool) {
    s.send(m).is_ok()
}

/// Relies on `std::sync::mpsc::Receiver::try_recv`: takes the next
/// pending message without blocking; reports emptiness, or disconnection
/// once every sender is dropped and the queue is drained. Which outcome
/// comes back depends on the other threads.
#[verifier::external_body]
fn try_recv_down(r: &Receiver<MsgDown>) -> (a: RecvAttempt) {
    match r.try_recv() {
        Ok(m) => RecvAttempt::Msg(m),
        Err(std::sync::mpsc::TryRecvError::Empty) => RecvAttempt::Empty,
        Err(std::sync::mpsc::TryRecvError::Disconnected) => RecvAttempt::Closed,
    }
}

/// The k-true table entry is defined for this symbol.
pub open spec fn kt_has(s: Seq<(Sym, Option<Offset>)>, sid: int) -> bool {
    exists|i: int| 0 <= i < s.len() && (#[trigger] s[i]).0.id == sid
}

/// The greatest known k-true offset for this symbol; meaningful under
/// `kt_wf`.
pub open spec fn kt_get(s: Seq<(Sym, Option<Offset>)>, sid: int) -> Option<Offset> {
    s[choose|i: int| 0 <= i < s.len() && (#[trigger] s[i]).0.id == sid].1
}

/// Each property symbol has at most one entry.
pub open spec fn kt_wf(s: Seq<(Sym, Option<Offset>)>) -> bool {
    forall|i: int, j: int|
        0 <= i < j < s.len() ==> (#[trigger] s[i]).0.id != (#[trigger] s[j]).0.id
}

/// How many messages one `recv` drains at most before handing back what
/// it has; what stays queued comes with the next call.
pub const RECV_BATCH: usize = 1024;

/// A technique's endpoint of the bus: the sender to the supervisor, the
/// receiver of broadcasts, the technique's identity, a factory handle,
/// and the local k-true table.
pub struct Event {
    s: Sender<MsgUp>,
    r: Receiver<MsgDown>,
    t: Technique,
    f: Factory,
    k_true: Vec<(Sym, Option<Offset>)>,
}

impl Event {
    /// The technique this endpoint belongs to.
    pub closed spec fn technique_spec(&self) -> Technique {
        self.t
    }

    /// The factory handle the endpoint carries.
    pub closed spec fn factory_spec(&self) -> Factory {
        self.f
    }

    /// The local k-true table.
    pub closed spec fn k_true_view(&self) -> Seq<(Sym, Option<Offset>)> {
        self.k_true@
    }

    /// The endpoint's invariant: one k-true entry per property.
    pub open spec fn wf(&self) -> bool {
        kt_wf(self.k_true_view())
    }

    /// Creates an endpoint over the two channel halves, with one k-true
    /// entry, initially unknown, per property. Property names must be
    /// distinct.
    pub fn mk(
        s: Sender<MsgUp>,
        r: Receiver<MsgDown>,
        t: Technique,
        f: Factory,
        props: &Vec<Prop>,
    ) -> (ev: Event)
        requires
            forall|i: int, j: int|
                0 <= i < j < props@.len() ==> (#[trigger] props@[i]).sym.id
                    != (#[trigger] props@[j]).sym.id,
        ensures
            ev.wf(),
            ev.technique_spec() == t,
            ev.factory_spec() == f,
            ev.k_true_view().len() == props@.len(),
            forall|i: int| 0 <= i < props@.len() ==> (#[trigger] ev.k_true_view()[i]).0
                == props@[i].sym && ev.k_true_view()[i].1 is None,
    {
        let mut k_true: Vec<(Sym, Option<Offset>)> = Vec::new();
        let n = props.len();
        let mut i: usize = 0;
        while i < n
            invariant
                forall|x: int, j: int|
                    0 <= x < j < props@.len() ==> (#[trigger] props@[x]).sym.id
                        != (#[trigger] props@[j]).sym.id,
                n == props@.len(),
                0 <= i <= n,
                k_true@.len() == i,
                forall|j: int| 0 <= j < i ==> (#[trigger] k_true@[j]).0 == props@[j].sym
                    && k_true@[j].1 is None,
            decreases n - i,
        {
            k_true.push((props[i].sym, None));
            i = i + 1;
        }
        proof {
            assert forall|x: int, j: int| 0 <= x < j < k_true@.len() implies (
            #[trigger] k_true@[x]).0.id != (#[trigger] k_true@[j]).0.id by {
                assert(k_true@[x].0 == props@[x].sym);
                assert(k_true@[j].0 == props@[j].sym);
            }
        }
        Event { s, r, t, f, k_true }
    }

    /// The message `done` hands to the channel: this technique is done.
    pub fn done_msg(&self, info: Info) -> (m: MsgUp)
        ensures
            m == MsgUp::Done(self.technique_spec(), info),
    {
        MsgUp::Done(self.t, info)
    }

    /// Sends a done message upward. False when the supervisor is gone.
    pub fn done(&self, info: Info) -> bool {
        send_up(&self.s, self.done_msg(info))
    }

    /// Sends a done message at an offset upward.
    pub fn done_at(&self, o: &Offset) -> bool {
        self.done(Info::At(*o))
    }

    /// The message `proved` hands to the channel: exactly these
    /// properties, proved by this technique, with the info unchanged.
    pub fn proved_msg(&self, props: Vec<Sym>, info: Info) -> (m: MsgUp)
        ensures
            m == MsgUp::Proved(props, self.technique_spec(), info),
    {
        MsgUp::Proved(props, self.t, info)
    }

    /// Sends a proved message upward.
    pub fn proved(&self, props: Vec<Sym>, info: Info) -> bool {
        send_up(&self.s, self.proved_msg(props, info))
    }

    /// Sends a proved message at an offset upward.
    pub fn proved_at(&self, props: Vec<Sym>, o: &Offset) -> bool {
        self.proved(props, Info::At(*o))
    }

    /// The message `disproved` hands to the channel: the counterexample
    /// model and the falsified properties, forwarded verbatim.
    pub fn disproved_msg(&self, model: Model, props: Vec<Sym>, info: Info) -> (m: MsgUp)
        ensures
            m == MsgUp::Disproved(model, props, self.technique_spec(), info),
    {
        MsgUp::Disproved(model, props, self.t, info)
    }

    /// Sends a falsification message with its counterexample upward.
    pub fn disproved(&self, model: Model, props: Vec<Sym>, info: Info) -> bool {
        send_up(&self.s, self.disproved_msg(model, props, info))
    }

    /// Sends a falsification message at an offset upward.
    pub fn disproved_at(&self, model: Model, props: Vec<Sym>, o: &Offset) -> bool {
        self.disproved(model, props, Info::At(*o))
    }

    /// The message `k_true` hands to the channel: exactly these
    /// properties, k-true through this offset.
    pub fn k_true_msg(&self, props: Vec<Sym>, o: &Offset) -> (m: MsgUp)
        ensures
            m == MsgUp::KTrue(props, self.technique_spec(), *o),
    {
        MsgUp::KTrue(props, self.t, *o)
    }

    /// Sends k-true properties at an offset upward.
    pub fn k_true(&self, props: Vec<Sym>, o: &Offset) -> bool {
        send_up(&self.s, self.k_true_msg(props, o))
    }

    /// The message `proved_invariants` hands to the channel: the
    /// discovered invariants for the system, forwarded verbatim.
    pub fn invariants_msg(&self, sys: Sym, invs: Vec<STerm>) -> (m: MsgUp)
        ensures
            m == MsgUp::Invariants(sys, invs),
    {
        MsgUp::Invariants(sys, invs)
    }

    /// Sends discovered invariants upward.
    pub fn proved_invariants(&self, sys: Sym, invs: Vec<STerm>) -> bool {
        send_up(&self.s, self.invariants_msg(sys, invs))
    }

    /// The message `pruned_invariants` hands to the channel: the
    /// non-trivial rest of a pruned set, with its size before pruning.
    pub fn pruned_msg(
        &self,
        tek: Technique,
        sys: Sym,
        invs: Vec<STerm>,
        old_len: usize,
        info: Info,
    ) -> (m: MsgUp)
        ensures
            m == MsgUp::Pruned(tek, sys, invs, old_len, info),
    {
        MsgUp::Pruned(tek, sys, invs, old_len, info)
    }

    /// Sends a pruned candidate set upward, with its size before pruning.
    pub fn pruned_invariants(
        &self,
        tek: Technique,
        sys: Sym,
        invs: Vec<STerm>,
        old_len: usize,
        info: Info,
    ) -> bool {
        send_up(&self.s, self.pruned_msg(tek, sys, invs, old_len, info))
    }

    /// The message `log` hands to the channel: this technique's log
    /// line, text unchanged.
    pub fn log_msg(&self, s: &str) -> (m: MsgUp)
        ensures
            m matches MsgUp::Bla(t, text) && t == self.technique_spec() && text@ == s@,
    {
        MsgUp::Bla(self.t, s.to_owned())
    }

    /// Sends a log message upward.
    pub fn log(&self, s: &str) -> bool {
        send_up(&self.s, self.log_msg(s))
    }

    /// The message `error` hands to the channel: this technique's error
    /// line, text unchanged.
    pub fn error_msg(&self, s: &str) -> (m: MsgUp)
        ensures
            m matches MsgUp::Error(t, text) && t == self.technique_spec() && text@ == s@,
    {
        MsgUp::Error(self.t, s.to_owned())
    }

    /// Sends an error message upward.
    pub fn error(&self, s: &str) -> bool {
        send_up(&self.s, self.error_msg(s))
    }

    /// The factory handle in the endpoint.
    pub fn factory(&self) -> (r: &Factory)
        ensures
            *r == self.factory_spec(),
    {
        &self.f
    }

    /// The offset a property is known k-true for, `None` when nothing is
    /// known yet. Asking for a property that is not in the table is a
    /// program-logic error, ruled out here by precondition.
    pub fn get_k_true(&self, p: &Sym) -> (r: Option<Offset>)
        requires
            self.wf(),
            kt_has(self.k_true_view(), p.id as int),
        ensures
            r == kt_get(self.k_true_view(), p.id as int),
    {
        let n = self.k_true.len();
        let mut i: usize = 0;
        while i < n
            invariant
                self.wf(),
                kt_has(self.k_true_view(), p.id as int),
                n == self.k_true_view().len(),
                0 <= i <= n,
                forall|j: int| 0 <= j < i ==> (#[trigger] self.k_true_view()[j]).0.id != p.id,
            decreases n - i,
        {
            let e = self.k_true[i];
            if e.0.id == p.id {
                proof {
                    let s = self.k_true_view();
                    let w = choose|x: int| 0 <= x < s.len() && (#[trigger] s[x]).0.id == p.id;
                    assert(w == i as int);
                }
                return e.1;
            }
            i = i + 1;
        }
        proof {
            assert(false);
        }
        None
    }

    /// Absorbs one broadcast: a k-true message updates the local table,
    /// every property it names now known k-true at its offset, and is
    /// consumed; any other message is handed back untouched.
    pub fn absorb(&mut self, msg: MsgDown) -> (r: Option<MsgDown>)
        requires
            old(self).wf(),
        ensures
            final(self).wf(),
            final(self).technique_spec() == old(self).technique_spec(),
            final(self).factory_spec() == old(self).factory_spec(),
            match msg {
                MsgDown::KTrue(props, o) => {
                    &&& r is None
                    &&& forall|sid: int| kt_has(final(self).k_true_view(), sid) == (kt_has(
                        old(self).k_true_view(),
                        sid,
                    ) || exists|i: int| 0 <= i < props@.len() && (#[trigger] props@[i]).id == sid)
                    &&& forall|i: int| 0 <= i < props@.len() ==> kt_get(
                        final(self).k_true_view(),
                        (#[trigger] props@[i]).id as int,
                    ) == Some(o)
                    &&& forall|sid: int| kt_has(old(self).k_true_view(), sid) && !(exists|i: int|
                        0 <= i < props@.len() && (#[trigger] props@[i]).id == sid) ==> kt_get(
                        final(self).k_true_view(),
                        sid,
                    ) == kt_get(old(self).k_true_view(), sid)
                },
                _ => r == Some(msg) && final(self).k_true_view() == old(self).k_true_view(),
            },
    {
        match msg {
            MsgDown::KTrue(props, o) => {
                let n = props.len();
                let mut i: usize = 0;
                while i < n
                    invariant
                        old(self).wf(),
                        self.wf(),
                        self.technique_spec() == old(self).technique_spec(),
                        self.factory_spec() == old(self).factory_spec(),
                        n == props@.len(),
                        0 <= i <= n,
                        forall|sid: int| kt_has(self.k_true_view(), sid) == (kt_has(
                            old(self).k_true_view(),
                            sid,
                        ) || exists|j: int| 0 <= j < i && (#[trigger] props@[j]).id == sid),
                        forall|j: int| 0 <= j < i ==> kt_get(
                            self.k_true_view(),
                            (#[trigger] props@[j]).id as int,
                        ) == Some(o),
                        forall|sid: int| !(exists|j: int| 0 <= j < i && (#[trigger] props@[j]).id
                            == sid) ==> (kt_has(self.k_true_view(), sid) == kt_has(
                            old(self).k_true_view(),
                            sid,
                        ) && (kt_has(old(self).k_true_view(), sid) ==> kt_get(
                            self.k_true_view(),
                            sid,
                        ) == kt_get(old(self).k_true_view(), sid))),
                    decreases n - i,
                {
                    self.kt_insert(props[i], Some(o));
                    i = i + 1;
                }
                None
            },
            m => Some(m),
        }
    }

    /// Sets the k-true entry of one property, adding the property to the
    /// table if it was unknown.
    fn kt_insert(&mut self, p: Sym, v: Option<Offset>)
        requires
            old(self).wf(),
        ensures
            final(self).wf(),
            final(self).technique_spec() == old(self).technique_spec(),
            final(self).factory_spec() == old(self).factory_spec(),
            kt_get(final(self).k_true_view(), p.id as int) == v,
            forall|sid: int| kt_has(final(self).k_true_view(), sid) == (kt_has(
                old(self).k_true_view(),
                sid,
            ) || sid == p.id),
            forall|sid: int| sid != p.id && kt_has(old(self).k_true_view(), sid) ==> kt_get(
                final(self).k_true_view(),
                sid,
            ) == kt_get(old(self).k_true_view(), sid),
    {
        let n = self.k_true.len();
        let mut i: usize = 0;
        while i < n
            invariant
                old(self).wf(),
                *self == *old(self),
                n == self.k_true_view().len(),
                0 <= i <= n,
                forall|j: int| 0 <= j < i ==> (#[trigger] self.k_true_view()[j]).0.id != p.id,
            decreases n - i,
        {
            let e = self.k_true[i];
            if e.0.id == p.id {
                let ghost pre = self.k_true_view();
                self.k_true.set(i, (e.0, v));
                proof {
                    let post = self.k_true_view();
                    assert(post =~= pre.update(i as int, (e.0, v)));
                    assert forall|sid: int| kt_has(post, sid) == (kt_has(pre, sid) || sid
                        == p.id) by {
                        if kt_has(post, sid) {
                            let w = choose|x: int| 0 <= x < post.len() && (#[trigger] post[x]).0.id
                                == sid;
                            assert(pre[w].0.id == sid || sid == p.id);
                            assert(kt_has(pre, sid) || sid == p.id);
                        }
                        if kt_has(pre, sid) {
                            let w = choose|x: int| 0 <= x < pre.len() && (#[trigger] pre[x]).0.id
                                == sid;
                            assert(post[w].0.id == sid);
                        }
                        if sid == p.id {
                            assert(post[i as int].0.id == sid);
                        }
                    }
                    assert forall|sid: int| kt_has(post, sid) implies #[trigger] kt_get(post, sid)
                        == (if sid == p.id {
                        v
                    } else {
                        kt_get(pre, sid)
                    }) by {
                        let w = choose|x: int| 0 <= x < post.len() && (#[trigger] post[x]).0.id
                            == sid;
                        if sid == p.id {
                            assert(w == i as int);
                        } else {
                            assert(pre[w].0.id == sid);
                            let w2 = choose|x: int| 0 <= x < pre.len() && (#[trigger] pre[x]).0.id
                                == sid;
                            assert(w2 == w);
                        }
                    }
                    assert(kt_has(post, p.id as int));
                }
                return ;
            }
            i = i + 1;
        }
        let ghost pre = self.k_true_view();
        self.k_true.push((p, v));
        proof {
            let post = self.k_true_view();
            assert(post =~= pre.push((p, v)));
            assert forall|x: int, j: int| 0 <= x < j < post.len() implies (
            #[trigger] post[x]).0.id != (#[trigger] post[j]).0.id by {
                if j == post.len() - 1 {
                    assert(post[x] == pre[x]);
                }
            }
            assert forall|sid: int| kt_has(post, sid) == (kt_has(pre, sid) || sid == p.id) by {
                if kt_has(post, sid) {
                    let w = choose|x: int| 0 <= x < post.len() && (#[trigger] post[x]).0.id == sid;
                    if w < pre.len() {
                        assert(pre[w].0.id == sid);
                    }
                }
                if kt_has(pre, sid) {
                    let w = choose|x: int| 0 <= x < pre.len() && (#[trigger] pre[x]).0.id == sid;
                    assert(post[w].0.id == sid);
                }
                if sid == p.id {
                    assert(post[post.len() - 1].0.id == sid);
                }
            }
            assert forall|sid: int| kt_has(post, sid) implies #[trigger] kt_get(post, sid) == (
            if sid == p.id {
                v
            } else {
                kt_get(pre, sid)
            }) by {
                let w = choose|x: int| 0 <= x < post.len() && (#[trigger] post[x]).0.id == sid;
                if sid == p.id {
                    assert(w == post.len() - 1);
                } else {
                    assert(pre[w].0.id == sid);
                    let w2 = choose|x: int| 0 <= x < pre.len() && (#[trigger] pre[x]).0.id == sid;
                    assert(w2 == w);
                }
            }
        }
    }

    /// Drains the inbox without blocking. `None` means the supervisor is
    /// gone and the worker must exit. K-true broadcasts are absorbed into
    /// the local table and are not in the returned batch; everything else
    /// is returned in arrival order. At most [`RECV_BATCH`] messages are
    /// taken per call; what stays queued comes with the next call.
    pub fn recv(&mut self) -> (r: Option<Vec<MsgDown>>)
        requires
            old(self).wf(),
        ensures
            final(self).wf(),
            final(self).technique_spec() == old(self).technique_spec(),
            final(self).factory_spec() == old(self).factory_spec(),
            match r {
                Some(batch) => forall|i: int|
                    0 <= i < batch@.len() ==> !(#[trigger] batch@[i] matches MsgDown::KTrue(..)),
                None => true,
            },
    {
        let mut batch: Vec<MsgDown> = Vec::new();
        let mut fuel: usize = RECV_BATCH;
        while fuel > 0
            invariant
                old(self).wf(),
                self.wf(),
                self.technique_spec() == old(self).technique_spec(),
                self.factory_spec() == old(self).factory_spec(),
                forall|i: int|
                    0 <= i < batch@.len() ==> !(#[trigger] batch@[i] matches MsgDown::KTrue(..)),
            decreases fuel,
        {
            match try_recv_down(&self.r) {
                RecvAttempt::Empty => {
                    return Some(batch);
                },
                RecvAttempt::Closed => {
                    return None;
                },
                RecvAttempt::Msg(m) => {
                    match self.absorb(m) {
                        Some(m2) => {
                            batch.push(m2);
                        },
                        None => {},
                    }
                },
            }
            fuel = fuel - 1;
        }
        Some(batch)
    }
}

/// What the supervisor broadcasts back on one worker report: k-true
/// facts travel down as k-true broadcasts; proved and disproved
/// properties are to be forgotten by everyone; discovered and pruned
/// invariants travel down as established invariants; logs, errors and
/// terminations stay with the supervisor.
pub fn fan_out(msg: MsgUp) -> (r: Option<MsgDown>)
    ensures
        match msg {
            MsgUp::KTrue(syms, _, o) => r == Some(MsgDown::KTrue(syms, o)),
            MsgUp::Proved(syms, _, _) => r == Some(MsgDown::Forget(syms)),
            MsgUp::Disproved(_, syms, _, _) => r == Some(MsgDown::Forget(syms)),
            MsgUp::Invariants(sym, invs) => (r matches Some(m) && m matches MsgDown::Invariants(
                s2,
                v2,
            ) && s2 == sym && v2@ == invs@),
            MsgUp::Pruned(_, sym, invs, _, _) => (r matches Some(m)
                && m matches MsgDown::Invariants(s2, v2) && s2 == sym && v2@ == invs@),
            _ => r is None,
        },
{
    match msg {
        MsgUp::KTrue(syms, _tek, o) => Some(MsgDown::KTrue(syms, o)),
        MsgUp::Proved(syms, _tek, _info) => Some(MsgDown::Forget(syms)),
        MsgUp::Disproved(_model, syms, _tek, _info) => Some(MsgDown::Forget(syms)),
        MsgUp::Invariants(sym, invs) => Some(MsgDown::Invariants(sym, invs)),
        MsgUp::Pruned(_tek, sym, invs, _n, _info) => Some(MsgDown::Invariants(sym, invs)),
        MsgUp::Done(..) => None,
        MsgUp::Bla(..) => None,
        MsgUp::Error(..) => None,
        MsgUp::Unimplemented => None,
    }
}

} // verus!
