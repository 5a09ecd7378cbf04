//! Model-driven splitting of a class: evaluate every member under the
//! model, group members by value, and order the groups by the domain's
//! relation.
//!
//! [`group_members`] carries the splitting law: group values are strictly
//! ascending, every member of a group evaluates to that group's value,
//! and the groups partition the class.

use vstd::prelude::*;

use crate::base::Offset2;
use crate::domain::Domain;
use crate::eval::{EvalError, Model};
use crate::graph::{chain_edges, rewire_edge, seq_has_key, Graph, Node, TermSet};
use crate::term::{Factory, Term};

verus! {

/// The domain value a term takes under a model at an offset, if any.
pub open spec fn val_of<D: Domain>(f: Factory, t: Term, off: Offset2, m: Model) -> Option<D> {
    match crate::eval::eval_spec(
        f.terms_view(),
        f.csts_view(),
        t.hkey as int,
        off,
        m.entries_view(),
    ) {
        Some(c) => D::of_cst_spec(c),
        None => None,
    }
}

/// Strictly below in the domain order.
pub open spec fn lt_spec<D: Domain>(a: D, b: D) -> bool {
    a.le_spec(b) && !b.le_spec(a)
}

/// Some group holds the term with this key.
pub open spec fn group_has<D: Domain>(gs: Seq<(D, TermSet)>, h: int) -> bool {
    exists|g: int| 0 <= g < gs.len() && (#[trigger] gs[g]).1.contains_key(h)
}

/// Inserting a group adds exactly its members.
proof fn lemma_group_has_insert<D: Domain>(gs: Seq<(D, TermSet)>, at: int, e: (D, TermSet), h: int)
    requires
        0 <= at <= gs.len(),
    ensures
        group_has(gs.insert(at, e), h) == (group_has(gs, h) || e.1.contains_key(h)),
{
    let post = gs.insert(at, e);
    if group_has(post, h) {
        let g = choose|g: int| 0 <= g < post.len() && (#[trigger] post[g]).1.contains_key(h);
        if g < at {
            assert(gs[g].1.contains_key(h));
        } else if g == at {
        } else {
            assert(gs[g - 1].1.contains_key(h));
        }
    }
    if group_has(gs, h) {
        let g = choose|g: int| 0 <= g < gs.len() && (#[trigger] gs[g]).1.contains_key(h);
        if g < at {
            assert(post[g].1.contains_key(h));
        } else {
            assert(post[g + 1].1.contains_key(h));
        }
    }
    if e.1.contains_key(h) {
        assert(post[at].1.contains_key(h));
    }
}

/// The insertion position of value `v` among ascending group values:
/// the first group whose value is not strictly below `v`.
fn find_pos<D: Domain>(groups: &Vec<(D, TermSet)>, v: D) -> (g: usize)
    requires
        v.val_wf(),
        forall|x: int| 0 <= x < groups@.len() ==> (#[trigger] groups@[x]).0.val_wf(),
    ensures
        g <= groups@.len(),
        forall|x: int| 0 <= x < g ==> lt_spec((#[trigger] groups@[x]).0, v),
        g < groups@.len() ==> !lt_spec(groups@[g as int].0, v),
{
    let n = groups.len();
    let mut g: usize = 0;
    while g < n
        invariant
            v.val_wf(),
            forall|x: int| 0 <= x < groups@.len() ==> (#[trigger] groups@[x]).0.val_wf(),
            n == groups@.len(),
            0 <= g <= n,
            forall|x: int| 0 <= x < g ==> lt_spec((#[trigger] groups@[x]).0, v),
        decreases n - g,
    {
        let gv: D = groups[g].0;
        if !(gv.le(v) && !v.le(gv)) {
            return g;
        }
        g = g + 1;
    }
    g
}

/// Sorts every member of a class into value groups, strictly ascending
/// by the domain order; every member of a group takes that group's value
/// under the model, and the groups partition the class. Fails exactly
/// when some member has no value in this domain under the model.
pub fn group_members<D: Domain>(
    f: &Factory,
    off: &Offset2,
    model: &Model,
    members: &TermSet,
) -> (r: Result<Vec<(D, TermSet)>, EvalError>)
    requires
        f.wf(),
        model.wf(),
        members.wf(),
        forall|i: int|
            0 <= i < members.view_seq().len() ==> (#[trigger] members.view_seq()[i]).hkey
                < f.n_terms(),
    ensures
        match r {
            Ok(groups) => {
                &&& forall|g: int|
                    0 <= g < groups@.len() ==> (#[trigger] groups@[g]).0.val_wf()
                        && groups@[g].1.wf() && groups@[g].1.view_seq().len() > 0
                &&& forall|g1: int, g2: int|
                    0 <= g1 < g2 < groups@.len() ==> lt_spec(
                        (#[trigger] groups@[g1]).0,
                        (#[trigger] groups@[g2]).0,
                    )
                &&& forall|g: int, x: int|
                    0 <= g < groups@.len() && 0 <= x < groups@[g].1.view_seq().len() ==> {
                        let v = val_of::<D>(*f, #[trigger] groups@[g].1.view_seq()[x], *off,
                            *model);
                        &&& v is Some
                        &&& (v->0).le_spec(groups@[g].0)
                        &&& groups@[g].0.le_spec(v->0)
                    }
                &&& forall|h: int| group_has(groups@, h) == members.contains_key(h)
                &&& forall|g: int, x: int|
                    0 <= g < groups@.len() && 0 <= x < groups@[g].1.view_seq().len() ==> (
                    #[trigger] groups@[g].1.view_seq()[x]).hkey < f.n_terms()
            },
            Err(_) => exists|i: int|
                0 <= i < members.view_seq().len() && val_of::<D>(
                    *f,
                    #[trigger] members.view_seq()[i],
                    *off,
                    *model,
                ) is None,
        },
{
    let mut groups: Vec<(D, TermSet)> = Vec::new();
    let n = members.len();
    let mut i: usize = 0;
    while i < n
        invariant
            f.wf(),
            model.wf(),
            members.wf(),
            forall|x: int|
                0 <= x < members.view_seq().len() ==> (#[trigger] members.view_seq()[x]).hkey
                    < f.n_terms(),
            n == members.view_seq().len(),
            0 <= i <= n,
            forall|g: int|
                0 <= g < groups@.len() ==> (#[trigger] groups@[g]).0.val_wf() && groups@[g].1.wf()
                    && groups@[g].1.view_seq().len() > 0,
            forall|g1: int, g2: int|
                0 <= g1 < g2 < groups@.len() ==> lt_spec(
                    (#[trigger] groups@[g1]).0,
                    (#[trigger] groups@[g2]).0,
                ),
            forall|g: int, x: int|
                0 <= g < groups@.len() && 0 <= x < groups@[g].1.view_seq().len() ==> {
                    let v = val_of::<D>(*f, #[trigger] groups@[g].1.view_seq()[x], *off, *model);
                    &&& v is Some
                    &&& (v->0).le_spec(groups@[g].0)
                    &&& groups@[g].0.le_spec(v->0)
                },
            forall|h: int| group_has(groups@, h) == seq_has_key(
                members.view_seq().take(i as int),
                h,
            ),
            forall|g: int, x: int|
                0 <= g < groups@.len() && 0 <= x < groups@[g].1.view_seq().len() ==> (
                #[trigger] groups@[g].1.view_seq()[x]).hkey < f.n_terms(),
        decreases n - i,
    {
        let t = members.index(i);
        let c = match f.eval(t, off, model) {
            Ok(c) => c,
            Err(e) => {
                proof {
                    assert(val_of::<D>(*f, members.view_seq()[i as int], *off, *model) is None);
                }
                return Err(e);
            },
        };
        let v: D = match D::of_cst(&c) {
            Ok(v) => v,
            Err(_) => {
                proof {
                    assert(val_of::<D>(*f, members.view_seq()[i as int], *off, *model) is None);
                }
                return Err(EvalError::TypeMismatch);
            },
        };
        proof {
            D::lemma_of_cst_wf(c);
            assert(val_of::<D>(*f, t, *off, *model) == Some(v));
            if seq_has_key(members.view_seq().take(i as int), t.hkey as int) {
                let y = choose|y: int|
                    0 <= y < i && (#[trigger] members.view_seq().take(i as int)[y]).hkey
                        == t.hkey as int;
                assert(members.view_seq()[y].hkey == members.view_seq()[i as int].hkey);
                assert(false);
            }
        }
        proof {
            assert(!seq_has_key(members.view_seq().take(i as int), t.hkey as int)) by {
                if seq_has_key(members.view_seq().take(i as int), t.hkey as int) {
                    let y = choose|y: int|
                        0 <= y < i && (#[trigger] members.view_seq().take(i as int)[y]).hkey
                            == t.hkey as int;
                    assert(members.view_seq()[y].hkey == members.view_seq()[i as int].hkey);
                }
            }
        }
        let ghost pre_groups = groups@;
        proof {
            assert(!group_has(pre_groups, t.hkey as int));
        }
        let g = find_pos(&groups, v);
        let is_eq: bool = if g < groups.len() {
            let gv: D = groups[g].0;
            v.le(gv) && gv.le(v)
        } else {
            false
        };
        if is_eq {
            let (gv, mut gset) = groups.remove(g);
            proof {
                assert(!gset.contains_key(t.hkey as int)) by {
                    if gset.contains_key(t.hkey as int) {
                        assert(pre_groups[g as int].1.contains_key(t.hkey as int));
                        assert(group_has(pre_groups, t.hkey as int));
                    }
                }
            }
            let ghost pre_set = gset;
            gset.insert(t);
            groups.insert(g, (gv, gset));
            proof {
                assert(gset.view_seq() == pre_set.view_seq().push(t));
                assert(groups@ =~= pre_groups.update(g as int, (gv, gset)));
                let cur = groups@;
                assert forall|g1: int, g2: int| 0 <= g1 < g2 < cur.len() implies lt_spec(
                    (#[trigger] cur[g1]).0,
                    (#[trigger] cur[g2]).0,
                ) by {
                    assert(cur[g1].0 == pre_groups[g1].0);
                    assert(cur[g2].0 == pre_groups[g2].0);
                }
                assert forall|g2: int, x: int| 0 <= g2 < cur.len() && 0 <= x
                    < cur[g2].1.view_seq().len() implies {
                    let w = val_of::<D>(*f, #[trigger] cur[g2].1.view_seq()[x], *off, *model);
                    &&& w is Some
                    &&& (w->0).le_spec(cur[g2].0)
                    &&& cur[g2].0.le_spec(w->0)
                } by {
                    if g2 == g as int {
                        if x < pre_set.view_seq().len() {
                            assert(cur[g2].1.view_seq()[x] == pre_groups[g2].1.view_seq()[x]);
                        } else {
                            assert(cur[g2].1.view_seq()[x] == t);
                            assert(val_of::<D>(*f, t, *off, *model) == Some(v));
                        }
                    } else {
                        assert(cur[g2] == pre_groups[g2]);
                        assert(cur[g2].1.view_seq()[x] == pre_groups[g2].1.view_seq()[x]);
                    }
                }
                assert forall|g2: int, x: int| 0 <= g2 < cur.len() && 0 <= x
                    < cur[g2].1.view_seq().len() implies (
                #[trigger] cur[g2].1.view_seq()[x]).hkey < f.n_terms() by {
                    if g2 == g as int {
                        if x < pre_set.view_seq().len() {
                            assert(cur[g2].1.view_seq()[x] == pre_groups[g2].1.view_seq()[x]);
                        } else {
                            assert(cur[g2].1.view_seq()[x] == t);
                        }
                    } else {
                        assert(cur[g2] == pre_groups[g2]);
                        assert(cur[g2].1.view_seq()[x] == pre_groups[g2].1.view_seq()[x]);
                    }
                }
                assert forall|h: int| group_has(cur, h) == seq_has_key(
                    members.view_seq().take(i + 1),
                    h,
                ) by {
                    assert(members.view_seq().take(i + 1) =~= members.view_seq().take(
                        i as int,
                    ).push(t));
                    crate::graph::lemma_seq_has_key_push(members.view_seq().take(i as int), t, h);
                    if group_has(cur, h) {
                        let gw = choose|gw: int|
                            0 <= gw < cur.len() && (#[trigger] cur[gw]).1.contains_key(h);
                        if gw == g as int {
                            if h != t.hkey as int {
                                assert(pre_groups[gw].1.contains_key(h));
                                assert(group_has(pre_groups, h));
                            }
                        } else {
                            assert(pre_groups[gw].1.contains_key(h));
                            assert(group_has(pre_groups, h));
                        }
                    }
                    if seq_has_key(members.view_seq().take(i + 1), h) {
                        if h == t.hkey as int {
                            assert(cur[g as int].1.contains_key(h));
                        } else {
                            assert(group_has(pre_groups, h));
                            let gw = choose|gw: int|
                                0 <= gw < pre_groups.len() && (
                                #[trigger] pre_groups[gw]).1.contains_key(h);
                            assert(cur[gw].1.contains_key(h));
                        }
                    }
                }
            }
        } else {
            let mut single = TermSet::mk();
            single.insert(t);
            proof {
                if (g as int) < pre_groups.len() {
                    let gv = pre_groups[g as int].0;
                    D::lemma_le_total(v, gv);
                    assert(lt_spec(v, gv)) by {
                        if !v.le_spec(gv) {
                            assert(gv.le_spec(v));
                            assert(lt_spec(gv, v));
                        }
                        if gv.le_spec(v) {
                            assert(false);
                        }
                    }
                    assert forall|x: int| g <= x < pre_groups.len() implies lt_spec(
                        v,
                        (#[trigger] pre_groups[x]).0,
                    ) by {
                        if x > g {
                            D::lemma_le_trans(v, gv, pre_groups[x].0);
                            if pre_groups[x].0.le_spec(v) {
                                D::lemma_le_trans(pre_groups[x].0, v, gv);
                            }
                        }
                    }
                }
            }
            groups.insert(g, (v, single));
            proof {
                D::lemma_le_total(v, v);
                let cur = groups@;
                assert forall|g1: int, g2: int| 0 <= g1 < g2 < cur.len() implies lt_spec(
                    (#[trigger] cur[g1]).0,
                    (#[trigger] cur[g2]).0,
                ) by {
                    if g2 < g as int {
                        assert(cur[g1].0 == pre_groups[g1].0);
                        assert(cur[g2].0 == pre_groups[g2].0);
                    } else if g1 < g as int && g2 == g as int {
                        assert(cur[g1].0 == pre_groups[g1].0);
                        assert(cur[g2].0 == v);
                    } else if g1 < g as int && g2 > g as int {
                        assert(cur[g1].0 == pre_groups[g1].0);
                        assert(cur[g2].0 == pre_groups[g2 - 1].0);
                    } else if g1 == g as int {
                        assert(cur[g1].0 == v);
                        assert(cur[g2].0 == pre_groups[g2 - 1].0);
                    } else {
                        assert(cur[g1].0 == pre_groups[g1 - 1].0);
                        assert(cur[g2].0 == pre_groups[g2 - 1].0);
                    }
                }
                assert forall|g2: int, x: int| 0 <= g2 < cur.len() && 0 <= x
                    < cur[g2].1.view_seq().len() implies {
                    let w = val_of::<D>(*f, #[trigger] cur[g2].1.view_seq()[x], *off, *model);
                    &&& w is Some
                    &&& (w->0).le_spec(cur[g2].0)
                    &&& cur[g2].0.le_spec(w->0)
                } by {
                    if g2 < g as int {
                        assert(cur[g2] == pre_groups[g2]);
                        assert(cur[g2].1.view_seq()[x] == pre_groups[g2].1.view_seq()[x]);
                    } else if g2 == g as int {
                        assert(cur[g2].1.view_seq()[x] == t);
                        assert(val_of::<D>(*f, t, *off, *model) == Some(v));
                    } else {
                        assert(cur[g2] == pre_groups[g2 - 1]);
                        assert(cur[g2].1.view_seq()[x] == pre_groups[g2 - 1].1.view_seq()[x]);
                    }
                }
                assert forall|g2: int, x: int| 0 <= g2 < cur.len() && 0 <= x
                    < cur[g2].1.view_seq().len() implies (
                #[trigger] cur[g2].1.view_seq()[x]).hkey < f.n_terms() by {
                    if g2 < g as int {
                        assert(cur[g2] == pre_groups[g2]);
                        assert(cur[g2].1.view_seq()[x] == pre_groups[g2].1.view_seq()[x]);
                    } else if g2 == g as int {
                        assert(cur[g2].1.view_seq()[x] == t);
                    } else {
                        assert(cur[g2] == pre_groups[g2 - 1]);
                        assert(cur[g2].1.view_seq()[x] == pre_groups[g2 - 1].1.view_seq()[x]);
                    }
                }
                assert forall|h: int| group_has(cur, h) == seq_has_key(
                    members.view_seq().take(i + 1),
                    h,
                ) by {
                    assert(members.view_seq().take(i + 1) =~= members.view_seq().take(
                        i as int,
                    ).push(t));
                    crate::graph::lemma_seq_has_key_push(members.view_seq().take(i as int), t, h);
                    lemma_group_has_insert(pre_groups, g as int, (v, single), h);
                }
            }
        }
        i = i + 1;
    }
    proof {
        assert(members.view_seq().take(n as int) =~= members.view_seq());
    }
    Ok(groups)
}


/// The value of the term with key `h` under the model, if any.
pub open spec fn key_val<D: Domain>(f: Factory, h: int, off: Offset2, m: Model) -> Option<D> {
    val_of::<D>(f, Term { hkey: h as usize }, off, m)
}

/// What splitting the class at position `i` by the model guarantees of
/// the new graph: the class is replaced by a chain of classes appended at
/// the end, every other class untouched; the chain's values are strictly
/// ascending; every member of a chain class takes that class's value
/// under the model; the chain partitions the old class; each chain
/// class's representative is the domain's deterministic pick; and the
/// edges are exactly the old ones rewired through the chain's ends, plus
/// the edges threading the chain, least to greatest.
pub open spec fn split_post<D: Domain>(
    pre: Graph,
    post: Graph,
    f: Factory,
    i: int,
    off: Offset2,
    m: Model,
) -> bool {
    let fnodes = post.nodes_view();
    let kept = pre.nodes_view().remove(i);
    &&& post.wf()
    &&& post.keys_below(f.n_terms())
    &&& fnodes.len() > kept.len()
    &&& forall|x: int| 0 <= x < kept.len() ==> fnodes[x] == kept[x]
    &&& forall|h: int|
        (exists|c: int| kept.len() <= c < fnodes.len() && (#[trigger] fnodes[c]).is_member(h))
            == pre.nodes_view()[i].is_member(h)
    &&& forall|c: int|
        kept.len() <= c < fnodes.len() ==> key_val::<D>(f, (#[trigger] fnodes[c]).key(), off, m)
            is Some
    &&& forall|c1: int, c2: int|
        kept.len() <= c1 < c2 < fnodes.len() ==> lt_spec(
            key_val::<D>(f, (#[trigger] fnodes[c1]).key(), off, m)->0,
            key_val::<D>(f, (#[trigger] fnodes[c2]).key(), off, m)->0,
        )
    &&& forall|c: int, h: int|
        kept.len() <= c < fnodes.len() && #[trigger] fnodes[c].is_member(h) ==> {
            let w = key_val::<D>(f, h, off, m);
            let vr = key_val::<D>(f, fnodes[c].key(), off, m);
            &&& w is Some
            &&& (w->0).le_spec(vr->0)
            &&& (vr->0).le_spec(w->0)
        }
    &&& forall|c: int|
        kept.len() <= c < fnodes.len() ==> D::rep_ok(
            f,
            (#[trigger] fnodes[c]).member_keys(),
            fnodes[c].rep,
        )
    &&& post.edges_view() == Seq::new(
        pre.edges_view().len(),
        |x: int|
            rewire_edge(
                pre.edges_view()[x],
                pre.nodes_view()[i].rep.hkey,
                fnodes.last().rep.hkey,
                fnodes[kept.len() as int].rep.hkey,
            ),
    ) + chain_edges(fnodes.skip(kept.len() as int))
}

/// Splits the class at position `i` of the graph by the model: the class
/// is replaced by a chain of classes, one per value its members take,
/// ordered strictly ascending; every member of a chain class takes that
/// class's value, the chain partitions the old class, and the graph's
/// invariants are preserved. Fails exactly when some member of the class
/// has no value in this domain under the model, leaving the graph
/// unchanged.
pub fn split_class<D: Domain>(
    g: &mut Graph,
    f: &Factory,
    i: usize,
    off: &Offset2,
    model: &Model,
) -> (r: Result<(), EvalError>)
    requires
        old(g).wf(),
        f.wf(),
        model.wf(),
        i < old(g).nodes_view().len(),
        old(g).keys_below(f.n_terms()),
    ensures
        match r {
            Ok(_) => split_post::<D>(*old(g), *final(g), *f, i as int, *off, *model),
            Err(_) => *final(g) == *old(g) && exists|h: int|
                old(g).nodes_view()[i as int].is_member(h) && key_val::<D>(
                    *f,
                    h,
                    *off,
                    *model,
                ) is None,
        },
{
    let node_rep: Term = g.node(i).rep;
    let mut members: TermSet = g.node(i).others.duplicate();
    proof {
        assert(members.wf() && members.keys_below(f.n_terms())) by {
            assert(old(g).nodes_view()[i as int].wf());
            assert(old(g).nodes_view()[i as int].keys_below(f.n_terms()));
        }
    }
    members.insert(node_rep);
    proof {
        assert forall|h: int| #[trigger] members.contains_key(h)
            == old(g).nodes_view()[i as int].is_member(h) by {}
        assert forall|x: int| 0 <= x < members.view_seq().len() implies (
        #[trigger] members.view_seq()[x]).hkey < f.n_terms() by {
            let h = members.view_seq()[x].hkey as int;
            assert(members.contains_key(h));
            assert(old(g).nodes_view()[i as int].is_member(h));
            if h != node_rep.hkey {
                let set = old(g).nodes_view()[i as int].others;
                let w = choose|w: int|
                    0 <= w < set.view_seq().len() && (#[trigger] set.view_seq()[w]).hkey == h;
                assert(old(g).nodes_view()[i as int].keys_below(f.n_terms()));
                assert(set.view_seq()[w].hkey < f.n_terms());
            } else {
                assert(old(g).nodes_view()[i as int].keys_below(f.n_terms()));
            }
        }
    }
    let groups: Vec<(D, TermSet)> = match group_members::<D>(f, off, model, &members) {
        Ok(gs) => gs,
        Err(e) => {
            proof {
                let w = choose|w: int|
                    0 <= w < members.view_seq().len() && val_of::<D>(
                        *f,
                        #[trigger] members.view_seq()[w],
                        *off,
                        *model,
                    ) is None;
                let h = members.view_seq()[w].hkey as int;
                assert(members.contains_key(h));
                assert(old(g).nodes_view()[i as int].is_member(h));
                assert(members.view_seq()[w] == (Term { hkey: h as usize }));
                assert(key_val::<D>(*f, h, *off, *model) is None);
            }
            return Err(e);
        },
    };
    let ghost gseq = groups@;
    let mut groups = groups;
    let mut chain: Vec<Node> = Vec::new();
    while groups.len() > 0
        invariant
            f.wf(),
            model.wf(),
            groups@ =~= gseq.skip(chain@.len() as int),
            chain@.len() + groups@.len() == gseq.len(),
            forall|x: int|
                0 <= x < gseq.len() ==> (#[trigger] gseq[x]).0.val_wf() && gseq[x].1.wf()
                    && gseq[x].1.view_seq().len() > 0,
            forall|x: int, y: int|
                0 <= x < gseq.len() && 0 <= y < gseq[x].1.view_seq().len() ==> (
                #[trigger] gseq[x].1.view_seq()[y]).hkey < f.n_terms(),
            forall|c: int| 0 <= c < chain@.len() ==> {
                &&& (#[trigger] chain@[c]).wf()
                &&& !chain@[c].stable
                &&& chain@[c].keys_below(f.n_terms())
                &&& gseq[c].1.contains_key(chain@[c].key())
                &&& D::rep_ok(*f, chain@[c].member_keys(), chain@[c].rep)
            },
            forall|c: int, h: int|
                0 <= c < chain@.len() ==> (#[trigger] chain@[c].is_member(h))
                    == gseq[c].1.contains_key(h),
        decreases groups@.len(),
    {
        let ghost c = chain@.len() as int;
        let (v, gset) = groups.remove(0);
        proof {
            assert((v, gset) == gseq[c]);
            assert(groups@ =~= gseq.skip(c + 1));
        }
        match D::choose_rep(f, gset) {
            Ok((rep, rest)) => {
                let nd = Node { rep, others: rest, stable: false };
                proof {
                    assert(nd.wf());
                    assert(gseq[c].1.contains_key(rep.hkey as int));
                    assert forall|h: int| (#[trigger] nd.is_member(h)) == gseq[
                        c
                    ].1.contains_key(h) by {}
                    assert(nd.member_keys() =~= gset.key_set());
                    assert(D::rep_ok(*f, nd.member_keys(), nd.rep));
                    assert(nd.keys_below(f.n_terms())) by {
                        let set = gseq[c].1;
                        assert forall|x: int| 0 <= x < nd.others.view_seq().len() implies (
                        #[trigger] nd.others.view_seq()[x]).hkey < f.n_terms() by {
                            let h = nd.others.view_seq()[x].hkey as int;
                            assert(nd.others.contains_key(h));
                            assert(set.contains_key(h));
                            let w = choose|w: int|
                                0 <= w < set.view_seq().len() && (
                                #[trigger] set.view_seq()[w]).hkey == h;
                            assert(set.view_seq()[w].hkey < f.n_terms());
                        }
                        let w = choose|w: int|
                            0 <= w < gseq[c].1.view_seq().len() && (
                            #[trigger] gseq[c].1.view_seq()[w]).hkey == rep.hkey as int;
                        assert(gseq[c].1.view_seq()[w].hkey < f.n_terms());
                    }
                }
                chain.push(nd);
            },
            Err(_) => {
                proof {
                    assert(gseq[c].1.view_seq().len() > 0);
                    assert(false);
                }
                return Err(EvalError::TypeMismatch);
            },
        }
    }
    proof {
        assert(chain@.len() == gseq.len());
        assert(gseq.len() > 0) by {
            assert(members.contains_key(node_rep.hkey as int));
            assert(group_has(gseq, node_rep.hkey as int));
        }
    }
    // the value every member of a group takes, bridged to the group's
    // representative
    proof {
        assert forall|c: int, h: int|
            0 <= c < gseq.len() && #[trigger] gseq[c].1.contains_key(h) implies {
            let w = key_val::<D>(*f, h, *off, *model);
            &&& w is Some
            &&& (w->0).val_wf()
            &&& (w->0).le_spec(gseq[c].0)
            &&& gseq[c].0.le_spec(w->0)
        } by {
            let set = gseq[c].1;
            let x = choose|x: int|
                0 <= x < set.view_seq().len() && (#[trigger] set.view_seq()[x]).hkey == h;
            assert(set.view_seq()[x] == (Term { hkey: h as usize }));
            let w = val_of::<D>(*f, set.view_seq()[x], *off, *model);
            assert(w is Some && (w->0).le_spec(gseq[c].0) && gseq[c].0.le_spec(w->0));
            let ev = crate::eval::eval_spec(f.terms_view(), f.csts_view(), h, *off,
                model.entries_view());
            assert(ev is Some);
            D::lemma_of_cst_wf(ev->0);
        }
        // chain classes are pairwise disjoint
        assert forall|c1: int, c2: int, h: int|
            0 <= c1 < c2 < chain@.len() implies !((#[trigger] chain@[c1].is_member(h)) && (
            #[trigger] chain@[c2].is_member(h))) by {
            if chain@[c1].is_member(h) && chain@[c2].is_member(h) {
                assert(gseq[c1].1.contains_key(h));
                assert(gseq[c2].1.contains_key(h));
                let w = key_val::<D>(*f, h, *off, *model)->0;
                assert(lt_spec(gseq[c1].0, gseq[c2].0));
                D::lemma_le_trans(gseq[c2].0, w, gseq[c1].0);
            }
        }
        // the chain partitions the old class
        assert forall|h: int|
            (exists|c: int| 0 <= c < chain@.len() && (#[trigger] chain@[c]).is_member(h))
                == old(g).nodes_view()[i as int].is_member(h) by {
            if exists|c: int| 0 <= c < chain@.len() && (#[trigger] chain@[c]).is_member(h) {
                let c = choose|c: int|
                    0 <= c < chain@.len() && (#[trigger] chain@[c]).is_member(h);
                assert(gseq[c].1.contains_key(h));
                assert(group_has(gseq, h));
                assert(members.contains_key(h));
            }
            if old(g).nodes_view()[i as int].is_member(h) {
                assert(members.contains_key(h));
                assert(group_has(gseq, h));
                let c = choose|c: int| 0 <= c < gseq.len() && (#[trigger] gseq[c]).1.contains_key(
                    h,
                );
                assert(chain@[c].is_member(h));
            }
        }
    }
    let ghost chseq = chain@;
    let ghost pre_g = *g;
    g.replace_with_chain(i, chain);
    proof {
        let fnodes = g.nodes_view();
        let kept = old(g).nodes_view().remove(i as int);
        assert forall|x: int| 0 <= x < kept.len() implies fnodes[x] == kept[x] by {}
        assert forall|c: int| kept.len() <= c < fnodes.len() implies (#[trigger] fnodes[c])
            == chseq[c - kept.len()] by {}
        // every final class's keys point below the factory's size
        assert forall|x: int| 0 <= x < fnodes.len() implies (#[trigger] fnodes[x]).keys_below(
            f.n_terms(),
        ) by {
            if x < kept.len() {
                if x < i {
                    assert(fnodes[x] == old(g).nodes_view()[x]);
                } else {
                    assert(fnodes[x] == old(g).nodes_view()[x + 1]);
                }
            } else {
                assert(fnodes[x] == chseq[x - kept.len()]);
            }
        }
        // the published facts, via the group each chain class came from
        assert forall|c: int| kept.len() <= c < fnodes.len() implies key_val::<D>(
            *f,
            (#[trigger] fnodes[c]).key(),
            *off,
            *model,
        ) is Some by {
            assert(gseq[c - kept.len()].1.contains_key(fnodes[c].key()));
        }
        assert forall|c1: int, c2: int| kept.len() <= c1 < c2 < fnodes.len() implies lt_spec(
            key_val::<D>(*f, (#[trigger] fnodes[c1]).key(), *off, *model)->0,
            key_val::<D>(*f, (#[trigger] fnodes[c2]).key(), *off, *model)->0,
        ) by {
            let d1 = c1 - kept.len();
            let d2 = c2 - kept.len();
            assert(gseq[d1].1.contains_key(fnodes[c1].key()));
            assert(gseq[d2].1.contains_key(fnodes[c2].key()));
            let w1 = key_val::<D>(*f, fnodes[c1].key(), *off, *model)->0;
            let w2 = key_val::<D>(*f, fnodes[c2].key(), *off, *model)->0;
            assert(lt_spec(gseq[d1].0, gseq[d2].0));
            D::lemma_le_trans(w1, gseq[d1].0, gseq[d2].0);
            D::lemma_le_trans(gseq[d1].0, gseq[d2].0, w2);
            D::lemma_le_trans(w1, gseq[d2].0, w2);
            if w2.le_spec(w1) {
                D::lemma_le_trans(gseq[d2].0, w2, w1);
                D::lemma_le_trans(w2, w1, gseq[d1].0);
                D::lemma_le_trans(gseq[d2].0, w1, gseq[d1].0);
            }
        }
        assert forall|c: int, h: int|
            kept.len() <= c < fnodes.len() && #[trigger] fnodes[c].is_member(h) implies {
            let w = key_val::<D>(*f, h, *off, *model);
            let vr = key_val::<D>(*f, fnodes[c].key(), *off, *model);
            &&& w is Some
            &&& (w->0).le_spec(vr->0)
            &&& (vr->0).le_spec(w->0)
        } by {
            let d = c - kept.len();
            assert(chseq[d].is_member(h));
            assert(gseq[d].1.contains_key(h));
            assert(gseq[d].1.contains_key(fnodes[c].key()));
            let w = key_val::<D>(*f, h, *off, *model)->0;
            let vr = key_val::<D>(*f, fnodes[c].key(), *off, *model)->0;
            D::lemma_le_trans(w, gseq[d].0, vr);
            D::lemma_le_trans(vr, gseq[d].0, w);
        }
        assert forall|c: int| kept.len() <= c < fnodes.len() implies D::rep_ok(
            *f,
            (#[trigger] fnodes[c]).member_keys(),
            fnodes[c].rep,
        ) by {
            assert(fnodes[c] == chseq[c - kept.len()]);
        }
        let suffix = fnodes.skip(kept.len() as int);
        assert(suffix =~= chseq);
        assert(fnodes.last() == chseq[chseq.len() - 1]);
        assert(fnodes[kept.len() as int] == chseq[0]);
        assert(g.edges_view() =~= Seq::new(
            old(g).edges_view().len(),
            |x: int|
                rewire_edge(
                    old(g).edges_view()[x],
                    old(g).nodes_view()[i as int].rep.hkey,
                    fnodes.last().rep.hkey,
                    fnodes[kept.len() as int].rep.hkey,
                ),
        ) + chain_edges(suffix));
        assert forall|h: int|
            (exists|c: int| kept.len() <= c < fnodes.len() && (#[trigger] fnodes[c]).is_member(
                h,
            )) == old(g).nodes_view()[i as int].is_member(h) by {
            if exists|c: int|
                kept.len() <= c < fnodes.len() && (#[trigger] fnodes[c]).is_member(h) {
                let c = choose|c: int|
                    kept.len() <= c < fnodes.len() && (#[trigger] fnodes[c]).is_member(h);
                assert(chseq[c - kept.len()].is_member(h));
                assert(exists|c2: int| 0 <= c2 < chseq.len() && (#[trigger] chseq[c2]).is_member(
                    h,
                ));
            }
            if old(g).nodes_view()[i as int].is_member(h) {
                let c = choose|c2: int|
                    0 <= c2 < chseq.len() && (#[trigger] chseq[c2]).is_member(h);
                assert(fnodes[kept.len() + c].is_member(h));
            }
        }
    }
    Ok(())
}

} // verus!
