//! The supervisor/worker bus: endpoints, k-true absorption, teardown.

use std::sync::mpsc::channel;

use kino::base::{Offset, Offset2, State};
use kino::eval::Model;
use kino::event::{Event, Info, MsgDown, MsgUp, Technique};
use kino::sys::{Prop, STerm};
use kino::term::{CstData, Factory, Op};

/// One worker endpoint with its supervisor-side channel halves and one
/// property named `p` over `x ≥ 0`.
fn worker() -> (
    Event,
    std::sync::mpsc::Receiver<MsgUp>,
    std::sync::mpsc::Sender<MsgDown>,
    kino::term::Sym,
) {
    let mut f = Factory::mk();
    let p = f.sym("p".to_owned());
    let x = f.sym("x".to_owned());
    let xc = f.svar(x, State::Curr);
    let zero = f.cst(CstData::Int(0));
    let ge = f.op(Op::Ge, vec![xc, zero]);
    let st = STerm::mk(&mut f, ge).unwrap();
    let props = vec![Prop { sym: p, term: st }];
    let (s_up, r_up) = channel();
    let (s_down, r_down) = channel();
    let ev = Event::mk(s_up, r_down, Technique::Bmc, f, &props);
    (ev, r_up, s_down, p)
}

#[test]
fn technique_tags() {
    assert_eq!(Technique::Bmc.to_str(), "bmc");
    assert_eq!(Technique::Ind.to_str(), "ind");
    assert_eq!(Technique::Tig.to_str(), "tig");
    assert_eq!(Technique::Pruner.to_str(), "pruner");
}

#[test]
fn info_and_msg_labels() {
    assert_eq!(Info::At(Offset::of_int(3)).label(), "at");
    assert_eq!(Info::Error.label(), "error");
    assert_eq!(MsgUp::Unimplemented.label(), "Unimplemented");
    assert_eq!(MsgUp::Done(Technique::Bmc, Info::Error).label(), "Done");
    assert_eq!(
        MsgUp::KTrue(vec![], Technique::Bmc, Offset::of_int(0)).label(),
        "KTrue"
    );
}

#[test]
fn k_true_starts_unknown() {
    let (ev, _r_up, _s_down, p) = worker();
    assert_eq!(ev.get_k_true(&p), None);
}

#[test]
fn k_true_round_trip_is_absorbed() {
    // sending a k-true broadcast and then receiving absorbs it into the
    // local table and keeps it out of the returned batch
    let (mut ev, _r_up, s_down, p) = worker();
    s_down
        .send(MsgDown::KTrue(vec![p], Offset::of_int(4)))
        .unwrap();
    s_down.send(MsgDown::Forget(vec![p])).unwrap();
    let batch = ev.recv().unwrap();
    assert_eq!(batch.len(), 1);
    assert!(matches!(batch[0], MsgDown::Forget(_)));
    assert_eq!(ev.get_k_true(&p).map(|o| o.to_usize()), Some(4));
}

#[test]
fn recv_none_after_supervisor_drops() {
    // teardown: once the supervisor's sender is gone and the queue is
    // drained, the next receive says so and the worker must exit
    let (mut ev, _r_up, s_down, _p) = worker();
    drop(s_down);
    assert!(ev.recv().is_none());
}

#[test]
fn recv_drains_queued_then_reports_closed() {
    let (mut ev, _r_up, s_down, p) = worker();
    s_down
        .send(MsgDown::KTrue(vec![p], Offset::of_int(2)))
        .unwrap();
    drop(s_down);
    // queued messages are drained first; the closed channel then shows
    assert!(ev.recv().is_none() || ev.get_k_true(&p).is_some());
}

#[test]
fn worker_messages_reach_the_supervisor_in_order() {
    let (ev, r_up, _s_down, p) = worker();
    assert!(ev.k_true(vec![p], &Offset::of_int(1)));
    assert!(ev.proved(vec![p], Info::At(Offset::of_int(1))));
    assert!(ev.log("stabilized"));
    match r_up.recv().unwrap() {
        MsgUp::KTrue(syms, tek, o) => {
            assert_eq!(syms, vec![p]);
            assert_eq!(tek, Technique::Bmc);
            assert_eq!(o.to_usize(), 1);
        }
        other => panic!("unexpected message {}", other.label()),
    }
    match r_up.recv().unwrap() {
        MsgUp::Proved(syms, tek, _info) => {
            assert_eq!(syms, vec![p]);
            assert_eq!(tek, Technique::Bmc);
        }
        other => panic!("unexpected message {}", other.label()),
    }
    match r_up.recv().unwrap() {
        MsgUp::Bla(tek, text) => {
            assert_eq!(tek, Technique::Bmc);
            assert_eq!(text, "stabilized");
        }
        other => panic!("unexpected message {}", other.label()),
    }
}

#[test]
fn send_fails_once_supervisor_receiver_is_gone() {
    let (ev, r_up, _s_down, _p) = worker();
    drop(r_up);
    assert!(!ev.done(Info::Error));
}

#[test]
fn trivial_property_scenario() {
    // the system is x' = x + 1 from x = 0; the property p: x ≥ 0 holds
    // on every prefix, so bounded checking reports it k-true for growing
    // k, induction proves it, the supervisor says to forget it, and the
    // bounded worker is done
    let mut f = Factory::mk();
    let p = f.sym("p".to_owned());
    let x = f.sym("x".to_owned());
    let xc = f.svar(x, State::Curr);
    let zero = f.cst(CstData::Int(0));
    let prop_term = f.op(Op::Ge, vec![xc, zero]);
    let st = STerm::mk(&mut f, prop_term).unwrap();
    let props = vec![Prop { sym: p, term: st }];

    // the deterministic trace of the system
    let mut trace = Model::mk();
    for k in 0..6usize {
        trace.add(x, Offset::of_int(k), CstData::Int(k as i64));
    }

    let (s_up, r_up) = channel();
    let (s_down, r_down) = channel();
    let mut bmc = Event::mk(s_up.clone(), r_down, Technique::Bmc, f.clone(), &props);

    // bounded checking: the property evaluates true on every prefix
    let mut off = Offset2::init();
    for k in 0..5usize {
        assert!(f.eval_bool(prop_term, &off, &trace).unwrap());
        assert!(bmc.k_true(vec![p], &Offset::of_int(k)));
        off = off.nxt();
    }
    // induction proves it at depth one
    let ind = Event::mk(s_up, {
        let (_s2, r2) = channel();
        r2
    }, Technique::Ind, f.clone(), &props);
    assert!(ind.proved(vec![p], Info::At(Offset::of_int(1))));

    // the supervisor sees five k-true reports, then the proof
    let mut k_trues = 0;
    loop {
        match r_up.try_recv().unwrap() {
            MsgUp::KTrue(syms, Technique::Bmc, _o) => {
                assert_eq!(syms, vec![p]);
                k_trues += 1;
            }
            MsgUp::Proved(syms, Technique::Ind, Info::At(o)) => {
                assert_eq!(syms, vec![p]);
                assert_eq!(o.to_usize(), 1);
                break;
            }
            other => panic!("unexpected message {}", other.label()),
        }
    }
    assert_eq!(k_trues, 5);

    // it broadcasts the forget; the worker drops the property and ends
    s_down.send(MsgDown::Forget(vec![p])).unwrap();
    let batch = bmc.recv().unwrap();
    assert!(matches!(&batch[0], MsgDown::Forget(syms) if syms == &vec![p]));
    assert!(bmc.done_at(&Offset::of_int(5)));
}

#[test]
fn refutable_property_scenario() {
    // same system, property q: x < 5; the trace falsifies it at depth
    // five, and the counterexample model carries x@0 = 0 … x@5 = 5
    let mut f = Factory::mk();
    let q = f.sym("q".to_owned());
    let x = f.sym("x".to_owned());
    let xc = f.svar(x, State::Curr);
    let five = f.cst(CstData::Int(5));
    let prop_term = f.op(Op::Lt, vec![xc, five]);
    let st = STerm::mk(&mut f, prop_term).unwrap();
    let props = vec![Prop { sym: q, term: st }];

    let mut trace = Model::mk();
    for k in 0..6usize {
        trace.add(x, Offset::of_int(k), CstData::Int(k as i64));
    }

    let (s_up, r_up) = channel();
    let (_s_down, r_down) = channel();
    let bmc = Event::mk(s_up, r_down, Technique::Bmc, f.clone(), &props);

    let mut off = Offset2::init();
    let mut refuted_at = None;
    for k in 0..6usize {
        if !f.eval_bool(prop_term, &off, &trace).unwrap() {
            refuted_at = Some(k);
            break;
        }
        off = off.nxt();
    }
    assert_eq!(refuted_at, Some(5));
    assert!(bmc.disproved_at(trace, vec![q], &Offset::of_int(5)));

    match r_up.recv().unwrap() {
        MsgUp::Disproved(model, syms, tek, Info::At(o)) => {
            assert_eq!(syms, vec![q]);
            assert_eq!(tek, Technique::Bmc);
            assert_eq!(o.to_usize(), 5);
            for k in 0..6usize {
                assert_eq!(
                    model.lookup(x, Offset::of_int(k)),
                    Some(CstData::Int(k as i64))
                );
            }
        }
        other => panic!("unexpected message {}", other.label()),
    }
}

#[test]
fn supervisor_teardown_releases_every_worker() {
    // three workers; dropping the supervisor's ends makes every worker
    // observe the closed channel on its next poll and exit its loop
    let mut f = Factory::mk();
    let p = f.sym("p".to_owned());
    let x = f.sym("x".to_owned());
    let xc = f.svar(x, State::Curr);
    let zero = f.cst(CstData::Int(0));
    let ge = f.op(Op::Ge, vec![xc, zero]);
    let st = STerm::mk(&mut f, ge).unwrap();
    let props = vec![Prop { sym: p, term: st }];

    let mut workers = Vec::new();
    let mut supervisor_ends = Vec::new();
    for tek in [Technique::Bmc, Technique::Ind, Technique::Tig] {
        let (s_up, r_up) = channel();
        let (s_down, r_down) = channel();
        workers.push(Event::mk(s_up, r_down, tek, f.clone(), &props));
        supervisor_ends.push((r_up, s_down));
    }
    drop(supervisor_ends);
    let mut exited = 0;
    for w in workers.iter_mut() {
        if w.recv().is_none() {
            exited += 1;
        }
    }
    assert_eq!(exited, 3);
}

#[test]
fn builders_fix_the_sent_messages() {
    // each sender hands the channel exactly the message its builder
    // makes: variant, technique and fields pinned
    let (ev, _r_up, _s_down, p) = worker();
    match ev.done_msg(Info::Error) {
        MsgUp::Done(t, Info::Error) => assert_eq!(t, Technique::Bmc),
        other => panic!("unexpected message {}", other.label()),
    }
    match ev.k_true_msg(vec![p], &Offset::of_int(3)) {
        MsgUp::KTrue(syms, t, o) => {
            assert_eq!(syms, vec![p]);
            assert_eq!(t, Technique::Bmc);
            assert_eq!(o.to_usize(), 3);
        }
        other => panic!("unexpected message {}", other.label()),
    }
    match ev.log_msg("steady") {
        MsgUp::Bla(t, text) => {
            assert_eq!(t, Technique::Bmc);
            assert_eq!(text, "steady");
        }
        other => panic!("unexpected message {}", other.label()),
    }
    match ev.error_msg("broken pipe") {
        MsgUp::Error(t, text) => {
            assert_eq!(t, Technique::Bmc);
            assert_eq!(text, "broken pipe");
        }
        other => panic!("unexpected message {}", other.label()),
    }
}
