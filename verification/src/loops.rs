//! Natural loops: back edges, loop bodies, and preheaders.

use vstd::prelude::*;
use vstd::string::StringExecFns;
use crate::store::{BasicBlock, BasicBlockIdx, Label};
use crate::cfg::{
    Exit, FunctionCfg, exit_agrees, list_contains, lemma_push_fresh, lemma_targets_exist, redirected,
};
use crate::blocksets::{BlockSets, numbers};
use crate::dominators::{lemma_push_contains};
use crate::ssa::lemma_unique_within;
use std::collections::HashMap;
use crate::ir::{Instruction, InstructionExt, InstructionView, ValueOp, texts};
use crate::ssa::defines;
use crate::dce::reads;
use crate::factset::{Fact, FactSet, fact_views};
use crate::reaching_definitions::{Definition, DefinitionView};
use crate::dataflow::{Direction, solution_view, solves};
use crate::reaching_definitions::{ReachingDefinitions, compute_reaching_definitions, entry_definitions};
use crate::cfg::{is_terminator, lemma_same_shape, lemma_same_shape_chain, lemma_views_push, relabeled, same_shape};
use crate::store::{canonical, store_get_mut};
use crate::ir::views;
use crate::ssa::prepend;
use crate::dce::{comes_from, lemma_left_terminated};

verus! {

broadcast use vstd::std_specs::hash::group_hash_axioms;

/// A natural loop: its header, the source of its back edge, and its blocks.
#[derive(Debug)]
pub struct NaturalLoop {
    pub header: BasicBlockIdx,
    pub backedge_start: BasicBlockIdx,
    pub body: Vec<BasicBlockIdx>,
}

/// A natural loop with the block put before its header.
#[derive(Debug)]
pub struct NaturalLoopWithPreheader {
    pub preheader: BasicBlockIdx,
    pub header: BasicBlockIdx,
    pub backedge_start: BasicBlockIdx,
    pub body: Vec<BasicBlockIdx>,
}

/// Whether the edge from `t` to `h` is a back edge: `h` is a successor of
/// `t` and dominates it.
pub open spec fn back_edge(
    cfg: FunctionCfg,
    dominators: Map<u64, Set<u64>>,
    t: BasicBlockIdx,
    h: BasicBlockIdx,
) -> bool {
    cfg.has(t) && cfg.succ(t).contains(h) && dominators.contains_key(t.0)
        && dominators[t.0].contains(h.0)
}

/// Whether the edge `a` comes before the edge `b` where the edges are
/// taken block by block in the order of the slots, and those of one block in
/// the order of its successors.
pub open spec fn edge_before(
    cfg: FunctionCfg,
    a: (BasicBlockIdx, BasicBlockIdx),
    b: (BasicBlockIdx, BasicBlockIdx),
) -> bool {
    crate::store::slot_of(a.0.0) < crate::store::slot_of(b.0.0) || (a.0 == b.0 && a.1 != b.1
        && cfg.succ(a.0).len() == 2 && a.1 == cfg.succ(a.0)[0] && b.1 == cfg.succ(a.0)[1])
}

/// The back edges of the graph, each once, as pairs of source and header:
/// block by block in the order of the slots, those of one block in the
/// order of its successors.
pub fn find_back_edges(cfg: &FunctionCfg, dominators: &BlockSets) -> (r: Vec<(BasicBlockIdx, BasicBlockIdx)>)
    requires
        cfg.wf(),
    ensures
        r@.no_duplicates(),
        forall|t: BasicBlockIdx, h: BasicBlockIdx|
            #[trigger] r@.contains((t, h)) <==> back_edge(*cfg, dominators@, t, h),
        forall|p: int, q: int|
            0 <= p < q < r@.len() ==> edge_before(*cfg, #[trigger] r@[p], #[trigger] r@[q]),
{
    let keys = cfg.keys();
    let ghost d = dominators@;
    let mut out: Vec<(BasicBlockIdx, BasicBlockIdx)> = Vec::new();
    let mut j: usize = 0;
    while j < keys.len()
        invariant
            j <= keys@.len(),
            cfg.wf(),
            d == dominators@,
            keys@.no_duplicates(),
            forall|k: BasicBlockIdx| #[trigger] keys@.contains(k) <==> cfg.has(k),
            forall|a: int, b: int|
                0 <= a < b < keys@.len() ==> crate::store::slot_of(#[trigger] keys@[a].0)
                    < crate::store::slot_of(#[trigger] keys@[b].0),
            out@.no_duplicates(),
            forall|t: BasicBlockIdx, h: BasicBlockIdx|
                #[trigger] out@.contains((t, h)) <==> back_edge(*cfg, d, t, h) && exists|w: int|
                    0 <= w < j && #[trigger] keys@[w] == t,
            forall|p: int, q: int|
                0 <= p < q < out@.len() ==> edge_before(*cfg, #[trigger] out@[p], #[trigger] out@[q]),
        decreases keys@.len() - j,
    {
        let t = keys[j];
        assert(keys@.contains(t));
        let successors = cfg.successors(t);
        let ghost before = out@;
        let mut i: usize = 0;
        while i < successors.len()
            invariant
                i <= successors@.len(),
                j < keys@.len(),
                t == keys@[j as int],
                cfg.has(t),
                d == dominators@,
                successors@ == cfg.succ(t),
                keys@.no_duplicates(),
                forall|a: int, b: int|
                    0 <= a < b < keys@.len() ==> crate::store::slot_of(#[trigger] keys@[a].0)
                        < crate::store::slot_of(#[trigger] keys@[b].0),
                before.len() <= out@.len(),
                forall|p: int| 0 <= p < before.len() ==> #[trigger] out@[p] == before[p],
                forall|p: int|
                    before.len() <= p < out@.len() ==> (#[trigger] out@[p]).0 == t && exists|w: int|
                        0 <= w < i && #[trigger] successors@[w] == out@[p].1,
                forall|p: int, q: int|
                    0 <= p < q < out@.len() ==> edge_before(
                        *cfg,
                        #[trigger] out@[p],
                        #[trigger] out@[q],
                    ),
                out@.no_duplicates(),
                forall|a: BasicBlockIdx, h: BasicBlockIdx|
                    #[trigger] out@.contains((a, h)) <==> before.contains((a, h)) || (a == t
                        && back_edge(*cfg, d, t, h) && exists|w: int|
                        0 <= w < i && #[trigger] successors@[w] == h),
                forall|a: BasicBlockIdx, h: BasicBlockIdx|
                    #[trigger] before.contains((a, h)) <==> back_edge(*cfg, d, a, h) && exists|
                        w: int,
                    | 0 <= w < j && #[trigger] keys@[w] == a,
            decreases successors@.len() - i,
        {
            let h = successors[i];
            let ghost inner = out@;
            assert(cfg.succ(t).contains(h));
            let mut known = false;
            let mut c: usize = 0;
            while c < out.len()
                invariant
                    c <= out@.len(),
                    known == exists|w: int| 0 <= w < c && #[trigger] out@[w] == (t, h),
                decreases out@.len() - c,
            {
                if out[c].0.0 == t.0 && out[c].1.0 == h.0 {
                    known = true;
                    assert(out@[c as int] == (t, h));
                }
                c += 1;
            }
            proof {
                assert(known == out@.contains((t, h)));
            }
            let taken = dominators.contains(t, h) && !known;
            if taken {
                out.push((t, h));
            }
            proof {
                if taken {
                    assert(out@ == inner.push((t, h)));
                    assert(!inner.contains((t, h)));
                    assert(cfg.succ(t).len() <= 2);
                    assert forall|p: int, q: int| 0 <= p < q < out@.len() implies edge_before(
                        *cfg,
                        #[trigger] out@[p],
                        #[trigger] out@[q],
                    ) by {
                        if q < inner.len() {
                            assert(out@[p] == inner[p]);
                            assert(out@[q] == inner[q]);
                        } else {
                            assert(out@[q] == (t, h));
                            assert(out@[p] == inner[p]);
                            if p < before.len() {
                                let e = before[p];
                                assert(inner[p] == e);
                                assert(e == (e.0, e.1));
                                assert(before.contains((e.0, e.1)));
                                let w = choose|w: int| 0 <= w < j && #[trigger] keys@[w] == e.0;
                                assert(crate::store::slot_of(keys@[w].0) < crate::store::slot_of(
                                    keys@[j as int].0,
                                ));
                            } else {
                                let w = choose|w: int|
                                    0 <= w < i && #[trigger] successors@[w] == inner[p].1;
                                assert(inner.contains(inner[p]));
                                assert(inner[p] != (t, h));
                            }
                        }
                    }
                }
                assert forall|p: int| before.len() <= p < out@.len() implies (#[trigger] out@[p]).0
                    == t && exists|w: int| 0 <= w < i + 1 && #[trigger] successors@[w] == out@[p].1 by {
                    if p < inner.len() {
                        assert(out@[p] == inner[p]);
                        let w = choose|w: int| 0 <= w < i && #[trigger] successors@[w] == inner[p].1;
                        assert(0 <= w < i + 1 && successors@[w] == out@[p].1);
                    } else {
                        assert(0 <= i < i + 1 && successors@[i as int] == out@[p].1);
                    }
                }
                assert forall|p: int| 0 <= p < before.len() implies #[trigger] out@[p] == before[p] by {
                    assert(out@[p] == inner[p]);
                }
                assert forall|a: BasicBlockIdx, x: BasicBlockIdx|
                    #[trigger] out@.contains((a, x)) <==> before.contains((a, x)) || (a == t
                        && back_edge(*cfg, d, t, x) && exists|w: int|
                        0 <= w < i + 1 && #[trigger] successors@[w] == x) by {
                    assert(inner.contains((a, x)) <==> before.contains((a, x)) || (a == t
                        && back_edge(*cfg, d, t, x) && exists|w: int|
                        0 <= w < i && #[trigger] successors@[w] == x));
                    if out@.contains((a, x)) {
                        let w = choose|w: int| 0 <= w < out@.len() && out@[w] == (a, x);
                        if w < inner.len() {
                            assert(inner[w] == (a, x));
                            assert(inner.contains((a, x)));
                        } else {
                            assert(successors@[i as int] == x);
                        }
                    }
                    if inner.contains((a, x)) {
                        let w = choose|w: int| 0 <= w < inner.len() && inner[w] == (a, x);
                        assert(out@[w] == (a, x));
                    }
                    if exists|w: int| 0 <= w < i && #[trigger] successors@[w] == x {
                        let w = choose|w: int| 0 <= w < i && #[trigger] successors@[w] == x;
                        assert(0 <= w < i + 1 && successors@[w] == x);
                    }
                    if a == t && back_edge(*cfg, d, t, x) && exists|w: int|
                        0 <= w < i + 1 && #[trigger] successors@[w] == x {
                        let w = choose|w: int| 0 <= w < i + 1 && #[trigger] successors@[w] == x;
                        if w == i {
                            assert(x == h);
                            if taken {
                                assert(out@[inner.len() as int] == (a, x));
                            } else {
                                assert(inner.contains((t, h)));
                            }
                        }
                    }
                }
                assert(out@.no_duplicates()) by {
                    if taken {
                        assert forall|p: int, q: int|
                            0 <= p < out@.len() && 0 <= q < out@.len() && p != q implies out@[p]
                            != out@[q] by {
                            if p < inner.len() {
                                assert(inner.contains(inner[p]));
                            }
                            if q < inner.len() {
                                assert(inner.contains(inner[q]));
                            }
                        }
                    }
                }
            }
            i += 1;
        }
        proof {
            assert forall|a: BasicBlockIdx, h: BasicBlockIdx|
                #[trigger] out@.contains((a, h)) <==> back_edge(*cfg, d, a, h) && exists|w: int|
                    0 <= w < j + 1 && #[trigger] keys@[w] == a by {
                if exists|w: int| 0 <= w < j && #[trigger] keys@[w] == a {
                    let w = choose|w: int| 0 <= w < j && #[trigger] keys@[w] == a;
                    assert(0 <= w < j + 1 && keys@[w] == a);
                    assert(a != t);
                }
                if exists|w: int| 0 <= w < j + 1 && #[trigger] keys@[w] == a {
                    let w = choose|w: int| 0 <= w < j + 1 && #[trigger] keys@[w] == a;
                    if w < j {
                        assert(exists|w: int| 0 <= w < j && #[trigger] keys@[w] == a);
                    }
                }
                if a == t {
                    assert(keys@[j as int] == a);
                    if back_edge(*cfg, d, t, h) {
                        let w = choose|w: int| 0 <= w < cfg.succ(t).len() && cfg.succ(t)[w] == h;
                        assert(successors@[w] == h);
                    }
                }
            }
        }
        j += 1;
    }
    proof {
        assert forall|t: BasicBlockIdx, h: BasicBlockIdx|
            #[trigger] out@.contains((t, h)) <==> back_edge(*cfg, d, t, h) by {
            if back_edge(*cfg, d, t, h) {
                assert(keys@.contains(t));
                let w = choose|w: int| 0 <= w < keys@.len() && keys@[w] == t;
                assert(0 <= w < keys@.len() && keys@[w] == t);
            }
        }
    }
    out
}

/// Whether `body` holds the header, the source of the back edge, and the
/// predecessors of each of its blocks but the header.
pub open spec fn loop_closed(cfg: FunctionCfg, t: BasicBlockIdx, h: BasicBlockIdx, body: Set<u64>) -> bool {
    &&& body.contains(h.0)
    &&& body.contains(t.0)
    &&& forall|x: BasicBlockIdx, p: BasicBlockIdx|
        body.contains(x.0) && x != h && #[trigger] cfg.preds(x).contains(p) ==> body.contains(p.0)
}

/// Whether `body` is the natural loop of the back edge from `t` to `h`:
/// the least set that holds both and the predecessors of each of its blocks
/// but `h`.
pub open spec fn natural_loop_of(
    cfg: FunctionCfg,
    t: BasicBlockIdx,
    h: BasicBlockIdx,
    body: Set<u64>,
) -> bool {
    &&& loop_closed(cfg, t, h, body)
    &&& forall|other: Set<u64>| #[trigger] loop_closed(cfg, t, h, other) ==> body.subset_of(other)
}

/// The blocks of `body`, each once, in the order of their slots.
pub fn in_slot_order(cfg: &FunctionCfg, body: &Vec<BasicBlockIdx>) -> (r: Vec<BasicBlockIdx>)
    requires
        cfg.wf(),
        forall|i: int| 0 <= i < body@.len() ==> cfg.has(#[trigger] body@[i]),
    ensures
        forall|k: BasicBlockIdx| #[trigger] r@.contains(k) <==> body@.contains(k),
        forall|a: int, b: int|
            0 <= a < b < r@.len() ==> crate::store::slot_of(#[trigger] r@[a].0) < crate::store::slot_of(
                #[trigger] r@[b].0,
            ),
        r@.no_duplicates(),
{
    let keys = cfg.keys();
    let mut out: Vec<BasicBlockIdx> = Vec::new();
    let mut j: usize = 0;
    while j < keys.len()
        invariant
            j <= keys@.len(),
            forall|a: int, b: int|
                0 <= a < b < keys@.len() ==> crate::store::slot_of(#[trigger] keys@[a].0)
                    < crate::store::slot_of(#[trigger] keys@[b].0),
            forall|k: BasicBlockIdx|
                #[trigger] out@.contains(k) <==> body@.contains(k) && exists|w: int|
                    0 <= w < j && #[trigger] keys@[w] == k,
            forall|a: int, b: int|
                0 <= a < b < out@.len() ==> crate::store::slot_of(#[trigger] out@[a].0)
                    < crate::store::slot_of(#[trigger] out@[b].0),
        decreases keys@.len() - j,
    {
        let k = keys[j];
        let ghost before = out@;
        let taken = list_contains(body.as_slice(), k);
        if taken {
            out.push(k);
        }
        proof {
            assert forall|x: BasicBlockIdx|
                #[trigger] out@.contains(x) <==> body@.contains(x) && exists|w: int|
                    0 <= w < j + 1 && #[trigger] keys@[w] == x by {
                if out@.contains(x) {
                    let p = choose|p: int| 0 <= p < out@.len() && out@[p] == x;
                    if p < before.len() {
                        assert(before[p] == x);
                        assert(before.contains(x));
                        let w = choose|w: int| 0 <= w < j && #[trigger] keys@[w] == x;
                        assert(0 <= w < j + 1 && keys@[w] == x);
                    } else {
                        assert(0 <= j < j + 1 && keys@[j as int] == x);
                    }
                }
                if body@.contains(x) && exists|w: int| 0 <= w < j + 1 && #[trigger] keys@[w] == x {
                    let w = choose|w: int| 0 <= w < j + 1 && #[trigger] keys@[w] == x;
                    if w < j {
                        assert(before.contains(x));
                        let p = choose|p: int| 0 <= p < before.len() && before[p] == x;
                        assert(out@[p] == x);
                    } else {
                        assert(out@[before.len() as int] == x);
                    }
                }
            }
            if taken {
                assert forall|a: int, b: int| 0 <= a < b < out@.len() implies crate::store::slot_of(
                    #[trigger] out@[a].0,
                ) < crate::store::slot_of(#[trigger] out@[b].0) by {
                    if b < before.len() {
                        assert(out@[a] == before[a]);
                        assert(out@[b] == before[b]);
                    } else {
                        assert(out@[a] == before[a]);
                        assert(before.contains(before[a]));
                        let w = choose|w: int| 0 <= w < j && #[trigger] keys@[w] == before[a];
                        assert(crate::store::slot_of(keys@[w].0) < crate::store::slot_of(
                            keys@[j as int].0,
                        ));
                    }
                }
            }
        }
        j += 1;
    }
    proof {
        crate::store::lemma_slot_order_distinct(out@);
        assert forall|k: BasicBlockIdx| #[trigger] out@.contains(k) <==> body@.contains(k) by {
            if body@.contains(k) {
                let p = choose|p: int| 0 <= p < body@.len() && body@[p] == k;
                assert(cfg.has(body@[p]));
                assert(keys@.contains(k));
                let w = choose|w: int| 0 <= w < keys@.len() && keys@[w] == k;
                assert(0 <= w < keys@.len() && keys@[w] == k);
            }
        }
    }
    out
}

/// The natural loop of the back edge from `backedge_start` to `header`,
/// its blocks in the order of their slots.
pub fn natural_loop(cfg: &FunctionCfg, backedge_start: BasicBlockIdx, header: BasicBlockIdx) -> (r:
    NaturalLoop)
    requires
        cfg.wf(),
        cfg.has(backedge_start),
        cfg.has(header),
    ensures
        r.header == header,
        r.backedge_start == backedge_start,
        r.body@.no_duplicates(),
        natural_loop_of(*cfg, backedge_start, header, numbers(r.body@)),
        forall|i: int| 0 <= i < r.body@.len() ==> cfg.has(#[trigger] r.body@[i]),
        forall|a: int, b: int|
            0 <= a < b < r.body@.len() ==> crate::store::slot_of(#[trigger] r.body@[a].0)
                < crate::store::slot_of(#[trigger] r.body@[b].0),
{
    let t = backedge_start;
    let h = header;
    let ghost all = cfg.blocks().dom();
    let mut body: Vec<BasicBlockIdx> = Vec::new();
    body.push(h);
    let mut stack: Vec<BasicBlockIdx> = Vec::new();
    stack.push(t);
    proof {
        assert(body@ =~= seq![h]);
        assert(stack@ =~= seq![t]);
        assert(stack@[0] == t);
        assert(stack@.contains(t));
        assert(numbers(body@).subset_of(all)) by {
            assert forall|n: u64| numbers(body@).contains(n) implies all.contains(n) by {
                let w = choose|w: int| 0 <= w < body@.len() && body@[w] == BasicBlockIdx(n);
            }
        }
        lemma_unique_within(body@, all);
        assert(body@[0] == h);
        assert forall|other: Set<u64>| #[trigger] loop_closed(*cfg, t, h, other) implies numbers(
            body@,
        ).subset_of(other) by {
            assert forall|n: u64| numbers(body@).contains(n) implies other.contains(n) by {
                let w = choose|w: int| 0 <= w < body@.len() && body@[w] == BasicBlockIdx(n);
            }
        }
    }
    while stack.len() > 0
        invariant
            cfg.wf(),
            cfg.has(t),
            cfg.has(h),
            all == cfg.blocks().dom(),
            body@.no_duplicates(),
            body@.len() > 0,
            body@[0] == h,
            numbers(body@).subset_of(all),
            body@.len() <= all.len(),
            forall|w: int| 0 <= w < stack@.len() ==> cfg.has(#[trigger] stack@[w]),
            body@.contains(t) || stack@.contains(t),
            forall|x: BasicBlockIdx, p: BasicBlockIdx|
                body@.contains(x) && x != h && #[trigger] cfg.preds(x).contains(p)
                    ==> body@.contains(p) || stack@.contains(p),
            forall|other: Set<u64>, w: int|
                #[trigger] loop_closed(*cfg, t, h, other) && 0 <= w < stack@.len()
                    ==> other.contains((#[trigger] stack@[w]).0),
            forall|other: Set<u64>| #[trigger]
                loop_closed(*cfg, t, h, other) ==> numbers(body@).subset_of(other),
        decreases all.len() - body@.len(), stack@.len(),
    {
        let ghost before_stack = stack@;
        let ghost before_body = body@;
        let next = stack.pop().unwrap();
        let ghost popped = stack@;
        proof {
            assert(before_stack =~= popped.push(next));
            lemma_push_contains(popped, next);
            assert(before_stack[before_stack.len() - 1] == next);
        }
        if !list_contains(body.as_slice(), next) {
            proof {
                lemma_push_fresh(before_body, next);
                lemma_push_contains(before_body, next);
            }
            body.push(next);
            let preds = cfg.predecessors(next);
            let mut i: usize = 0;
            while i < preds.len()
                invariant
                    i <= preds@.len(),
                    cfg.wf(),
                    cfg.has(next),
                    preds@ == cfg.preds(next),
                    popped.len() <= stack@.len(),
                    forall|w: int| 0 <= w < popped.len() ==> stack@[w] == popped[w],
                    forall|w: int|
                        popped.len() <= w < stack@.len() ==> cfg.preds(next).contains(
                            #[trigger] stack@[w],
                        ),
                    forall|w: int| 0 <= w < i ==> stack@.contains(#[trigger] preds@[w]),
                decreases preds@.len() - i,
            {
                let ghost s0 = stack@;
                stack.push(preds[i]);
                proof {
                    lemma_push_contains(s0, preds@[i as int]);
                    assert(cfg.preds(next).contains(preds@[i as int]));
                    assert forall|w: int| 0 <= w < i + 1 implies stack@.contains(
                        #[trigger] preds@[w],
                    ) by {
                        if w < i {
                            assert(s0.contains(preds@[w]));
                        }
                    }
                }
                i += 1;
            }
            proof {
                assert(numbers(body@).subset_of(all)) by {
                    assert forall|n: u64| numbers(body@).contains(n) implies all.contains(n) by {
                        if n != next.0 {
                            assert(before_body.contains(BasicBlockIdx(n)));
                            assert(numbers(before_body).contains(n));
                        }
                    }
                }
                lemma_unique_within(body@, all);
                assert(body@[0] == before_body[0]);
                assert forall|w: int| 0 <= w < stack@.len() implies cfg.has(#[trigger] stack@[w]) by {
                    if w < popped.len() {
                        assert(stack@[w] == before_stack[w]);
                    } else {
                        assert(cfg.preds(next).contains(stack@[w]));
                    }
                }
                assert forall|x: BasicBlockIdx, p: BasicBlockIdx|
                    body@.contains(x) && x != h && #[trigger] cfg.preds(x).contains(
                        p,
                    ) implies body@.contains(p) || stack@.contains(p) by {
                    if x == next {
                        let w = choose|w: int| 0 <= w < preds@.len() && preds@[w] == p;
                        assert(stack@.contains(preds@[w]));
                    } else {
                        assert(before_body.contains(x));
                        if before_stack.contains(p) && p != next {
                            assert(popped.contains(p));
                            let w = choose|w: int| 0 <= w < popped.len() && popped[w] == p;
                            assert(stack@[w] == p);
                        }
                    }
                }
                assert(body@.contains(t) || stack@.contains(t)) by {
                    if before_stack.contains(t) && t != next {
                        assert(popped.contains(t));
                        let w = choose|w: int| 0 <= w < popped.len() && popped[w] == t;
                        assert(stack@[w] == t);
                    }
                }
                assert forall|other: Set<u64>, w: int|
                    #[trigger] loop_closed(*cfg, t, h, other) && 0 <= w < stack@.len() implies other.contains(
                    (#[trigger] stack@[w]).0,
                ) by {
                    assert(other.contains(before_stack[before_stack.len() - 1].0));
                    if w < popped.len() {
                        assert(stack@[w] == before_stack[w]);
                    } else {
                        assert(cfg.preds(next).contains(stack@[w]));
                        assert(next != h) by {
                            assert(before_body[0] == h);
                            assert(before_body.contains(h));
                        }
                    }
                }
                assert forall|other: Set<u64>| #[trigger]
                    loop_closed(*cfg, t, h, other) implies numbers(body@).subset_of(other) by {
                    assert(numbers(before_body).subset_of(other));
                    assert(other.contains(before_stack[before_stack.len() - 1].0));
                    assert forall|n: u64| numbers(body@).contains(n) implies other.contains(n) by {
                        if n != next.0 {
                            assert(before_body.contains(BasicBlockIdx(n)));
                            assert(numbers(before_body).contains(n));
                        }
                    }
                }
            }
        } else {
            proof {
                assert forall|x: BasicBlockIdx, p: BasicBlockIdx|
                    body@.contains(x) && x != h && #[trigger] cfg.preds(x).contains(
                        p,
                    ) implies body@.contains(p) || stack@.contains(p) by {
                    if before_stack.contains(p) && p != next {
                        assert(popped.contains(p));
                    }
                }
                assert forall|other: Set<u64>, w: int|
                    #[trigger] loop_closed(*cfg, t, h, other) && 0 <= w < stack@.len() implies other.contains(
                    (#[trigger] stack@[w]).0,
                ) by {
                    assert(stack@[w] == before_stack[w]);
                }
                assert forall|w: int| 0 <= w < stack@.len() implies cfg.has(#[trigger] stack@[w]) by {
                    assert(stack@[w] == before_stack[w]);
                }
            }
        }
    }
    proof {
        let set = numbers(body@);
        assert(body@.contains(h) && body@.contains(t)) by {
            assert(body@[0] == h);
        }
        assert forall|x: BasicBlockIdx, p: BasicBlockIdx|
            set.contains(x.0) && x != h && #[trigger] cfg.preds(x).contains(p) implies set.contains(
            p.0,
        ) by {
            assert(x == BasicBlockIdx(x.0));
            assert(p == BasicBlockIdx(p.0));
            assert(body@.contains(x));
        }
        assert forall|i: int| 0 <= i < body@.len() implies cfg.has(#[trigger] body@[i]) by {
            assert(body@.contains(body@[i]));
            assert(body@[i] == BasicBlockIdx(body@[i].0));
            assert(numbers(body@).contains(body@[i].0));
        }
    }
    let found = body;
    let body = in_slot_order(cfg, &found);
    proof {
        assert(numbers(body@) =~= numbers(found@));
        assert forall|i: int| 0 <= i < body@.len() implies cfg.has(#[trigger] body@[i]) by {
            assert(body@.contains(body@[i]));
            assert(found@.contains(body@[i]));
            let p = choose|p: int| 0 <= p < found@.len() && found@[p] == body@[i];
            assert(cfg.has(found@[p]));
        }
    }
    NaturalLoop { header, backedge_start, body }
}

/// `succs` with every `from` turned to `to`.
pub open spec fn turned(succs: Seq<BasicBlockIdx>, from: BasicBlockIdx, to: BasicBlockIdx) -> Seq<
    BasicBlockIdx,
> {
    Seq::new(
        succs.len(),
        |i: int|
            if succs[i] == from {
                to
            } else {
                succs[i]
            },
    )
}

/// Turning the edges to `from`, one after the other, turns them all.
pub proof fn lemma_redirected_twice(e: Exit, from: BasicBlockIdx, to: BasicBlockIdx)
    requires
        from != to,
        !(e is Fallthrough),
    ensures
        redirected(redirected(e, from, to), from, to).targets() == turned(e.targets(), from, to),
{
    let twice = redirected(redirected(e, from, to), from, to).targets();
    let all = turned(e.targets(), from, to);
    match e {
        Exit::Unconditional(d) => {
            assert(twice =~= all);
        },
        Exit::Conditional { condition, if_true, if_false } => {
            assert(twice =~= all);
        },
        _ => {
            assert(twice =~= all);
        },
    }
}

/// Whether the block takes the place that it had before the edges were
/// turned: all is as it was but its exit and its terminator.
pub open spec fn same_but_exit(before: BasicBlock, after: BasicBlock) -> bool {
    &&& after.label == before.label
    &&& after.is_entry == before.is_entry
    &&& after.code().len() == before.code().len()
    &&& after.exit is Fallthrough == before.exit is Fallthrough
    &&& forall|i: int|
        0 <= i < before.code().len() - 1 ==> #[trigger] after.code()[i] == before.code()[i]
    &&& before.exit is Fallthrough ==> after == before
}

impl FunctionCfg {
    /// Turns every edge from `p` to `from` to `to`.
    fn turn_edges(&mut self, p: BasicBlockIdx, from: BasicBlockIdx, to: BasicBlockIdx)
        requires
            old(self).wf(),
            old(self).has(p),
            old(self).has(from),
            old(self).has(to),
            from != to,
            old(self).blocks()[to.0].label is Some,
            !(old(self).blocks()[p.0].exit is Fallthrough),
            old(self).blocks()[p.0].terminated(),
        ensures
            final(self).wf(),
            final(self).entry == old(self).entry,
            final(self).signature == old(self).signature,
            final(self).blocks().dom() == old(self).blocks().dom(),
            forall|n: u64|
                n != p.0 && old(self).blocks().dom().contains(n) ==> #[trigger] final(self).blocks()[n] == old(self).blocks()[n] && final(self).edges@[n] == old(self).edges@[n],
            final(self).succ(p) == turned(old(self).succ(p), from, to),
            same_but_exit(old(self).blocks()[p.0], final(self).blocks()[p.0]),
            final(self).blocks()[p.0].terminated(),
            !(final(self).blocks()[p.0].exit is Fallthrough),
            old(self).labels_unique() ==> final(self).labels_unique(),
    {
        let ghost before = *self;
        proof {
            assert(before.blocks().dom().contains(p.0));
        }
        self.reorient_edge(p, from, to);
        let ghost mid = *self;
        proof {
            assert(mid.blocks().dom().contains(p.0));
            assert(mid.blocks()[to.0].label == before.blocks()[to.0].label) by {
                if to.0 != p.0 {
                    assert(mid.blocks()[to.0] == before.blocks()[to.0]);
                }
            }
            lemma_still_terminated(before.blocks()[p.0], mid.blocks()[p.0]);
        }
        self.reorient_edge(p, from, to);
        proof {
            assert(exit_agrees(before.blocks(), before.blocks()[p.0].exit, before.edges@[p.0]));
            lemma_redirected_twice(before.edges@[p.0], from, to);
            lemma_still_terminated(mid.blocks()[p.0], self.blocks()[p.0]);
            assert forall|n: u64|
                n != p.0 && before.blocks().dom().contains(n) implies #[trigger] self.blocks()[n]
                == before.blocks()[n] && self.edges@[n] == before.edges@[n] by {
                assert(mid.blocks()[n] == before.blocks()[n]);
            }
            let a = before.blocks()[p.0];
            let b = mid.blocks()[p.0];
            let c = self.blocks()[p.0];
            assert forall|i: int| 0 <= i < a.code().len() - 1 implies #[trigger] c.code()[i]
                == a.code()[i] by {
                assert(b.code()[i] == a.code()[i]);
            }
        }
    }
}

/// A block whose terminator has been relabeled is as it was but for its
/// exit and terminator, and its instructions still agree with its exit.
pub proof fn lemma_still_terminated(before: BasicBlock, after: BasicBlock)
    requires
        before.terminated(),
        !(before.exit is Fallthrough),
        exists|exit: Exit, from: BasicBlockIdx, label: Seq<char>|
            crate::cfg::relabeled(before, exit, from, label, after),
    ensures
        same_but_exit(before, after),
        after.terminated(),
        !(after.exit is Fallthrough),
{
    let (exit, from, label) = choose|exit: Exit, from: BasicBlockIdx, label: Seq<char>|
        crate::cfg::relabeled(before, exit, from, label, after);
    let code = before.code();
    let out = after.code();
    if after != before {
        assert(out.len() == code.len());
        assert forall|i: int| 0 <= i < out.len() - 1 implies !crate::cfg::is_terminator(
            #[trigger] out[i],
        ) by {
            assert(out[i] == code[i]);
        }
    }
}

/// Whether `b` is among the first `upto` of `list`.
pub open spec fn among_first(list: Seq<BasicBlockIdx>, upto: int, b: BasicBlockIdx) -> bool {
    exists|w: int| 0 <= w < upto && #[trigger] list[w] == b
}

/// Whether `now` is the graph `start` with the edges to `header` of the
/// first `upto` of `preds` turned to `pre`.
#[verifier::opaque]
pub open spec fn edges_turned(
    start: FunctionCfg,
    now: FunctionCfg,
    preds: Seq<BasicBlockIdx>,
    upto: int,
    header: BasicBlockIdx,
    pre: BasicBlockIdx,
) -> bool {
    &&& now.wf()
    &&& now.entry == start.entry
    &&& now.signature == start.signature
    &&& now.blocks().dom() == start.blocks().dom()
    &&& now.blocks()[pre.0] == start.blocks()[pre.0]
    &&& now.edges@[pre.0] == start.edges@[pre.0]
    &&& forall|q: BasicBlockIdx| #[trigger]
        start.has(q) && q != pre ==> {
            &&& same_but_exit(start.blocks()[q.0], now.blocks()[q.0])
            &&& now.blocks()[q.0].terminated()
            &&& now.succ(q) == if among_first(preds, upto, q) {
                turned(start.succ(q), header, pre)
            } else {
                start.succ(q)
            }
        }
}

/// A list without repetitions that holds `x` and nothing else is the list of `x`.
pub proof fn lemma_only_one(list: Seq<BasicBlockIdx>, x: BasicBlockIdx)
    requires
        list.no_duplicates(),
        forall|q: BasicBlockIdx| #[trigger] list.contains(q) <==> q == x,
    ensures
        list == seq![x],
{
    assert(list.contains(x));
    if list.len() > 1 {
        assert(list.contains(list[0]));
        assert(list.contains(list[1]));
    }
    assert(list.contains(list[0]));
    assert(list =~= seq![x]);
}

/// Puts a block before the header of a natural loop: a new block with a
/// label made of the header's takes over every edge into the header, the
/// back edge too, and jumps to the header.
pub fn insert_preheader(cfg: &mut FunctionCfg, natural: NaturalLoop) -> (r: NaturalLoopWithPreheader)
    requires
        old(cfg).wf(),
        old(cfg).terminated(),
        old(cfg).no_fallthroughs(),
        old(cfg).has(natural.header),
        old(cfg).blocks()[natural.header.0].label is Some,
        old(cfg).blocks().dom().len() < 0xffff_fffe,
    ensures
        final(cfg).wf(),
        final(cfg).terminated(),
        final(cfg).no_fallthroughs(),
        final(cfg).entry == old(cfg).entry,
        final(cfg).signature == old(cfg).signature,
        r.header == natural.header,
        r.backedge_start == natural.backedge_start,
        r.body == natural.body,
        !old(cfg).has(r.preheader),
        final(cfg).blocks().dom() == old(cfg).blocks().dom().insert(r.preheader.0),
        final(cfg).preds(r.header) == seq![r.preheader],
        final(cfg).succ(r.preheader) == seq![r.header],
        final(cfg).blocks()[r.preheader.0].label is Some,
        final(cfg).blocks()[r.preheader.0].label_text()->0 == old(cfg).blocks()[r.header.0].label_text()->0 + "_preheader"@,
        final(cfg).blocks()[r.preheader.0].code().len() == 1,
        forall|q: BasicBlockIdx| #[trigger]
            old(cfg).has(q) ==> final(cfg).succ(q) == turned(
                old(cfg).succ(q),
                r.header,
                r.preheader,
            ) && same_but_exit(old(cfg).blocks()[q.0], final(cfg).blocks()[q.0]),
{
    let ghost before = *cfg;
    let header = natural.header;
    let mut name = cfg.label_name(header);
    name.append("_preheader");
    let mut block = BasicBlock::empty();
    block.label = Some(Label { name });
    proof {
        assert(block.code() =~= Seq::<crate::ir::InstructionView>::empty());
        assert(block.terminated());
    }
    let pre = cfg.add_block(block);
    let ghost start = *cfg;
    let preds = dup_blocks_slice(cfg.predecessors(header));
    proof {
        assert(start.blocks().dom() =~= before.blocks().dom().insert(pre.0));
        assert(start.has(header));
        assert(start.preds(header) == before.preds(header));
        assert(before.preds(header).no_duplicates());
        assert forall|q: BasicBlockIdx| #[trigger] start.has(q) && q != pre implies same_but_exit(
            start.blocks()[q.0],
            start.blocks()[q.0],
        ) && start.blocks()[q.0].terminated() by {
            assert(before.blocks().dom().contains(q.0));
            assert(start.blocks()[q.0] == before.blocks()[q.0]);
        }
        assert(edges_turned(start, start, preds@, 0, header, pre)) by {
            reveal(edges_turned);
        }
        assert(preds_ready(start, preds@, pre)) by {
            assert forall|w: int| 0 <= w < preds@.len() implies start.has(#[trigger] preds@[w])
                && preds@[w] != pre && !(start.blocks()[preds@[w].0].exit is Fallthrough) by {
                let p = preds@[w];
                assert(start.preds(header).contains(p));
                assert(start.has(p) && start.succ(p).contains(header));
                assert(start.succ(pre) =~= Seq::<BasicBlockIdx>::empty());
                assert(before.blocks().dom().contains(p.0));
                assert(start.blocks()[p.0] == before.blocks()[p.0]);
            }
        }
    }
    let mut i: usize = 0;
    while i < preds.len()
        invariant
            i <= preds@.len(),
            before.wf(),
            before.no_fallthroughs(),
            start.wf(),
            start.has(header),
            start.has(pre),
            !before.has(pre),
            header != pre,
            start.blocks().dom() == before.blocks().dom().insert(pre.0),
            start.blocks()[pre.0].label is Some,
            preds@ == start.preds(header),
            preds@.no_duplicates(),
            forall|n: u64| #[trigger]
                before.blocks().dom().contains(n) ==> start.blocks()[n] == before.blocks()[n],
            preds_ready(start, preds@, pre),
            edges_turned(start, *cfg, preds@, i as int, header, pre),
        decreases preds@.len() - i,
    {
        turn_one(cfg, Ghost(start), &preds, i, header, pre);
        i += 1;
    }
    let ghost ready = *cfg;
    proof {
        reveal(edges_turned);
        assert forall|q: BasicBlockIdx| #[trigger] start.has(q) && q != pre implies ready.succ(q)
            == turned(start.succ(q), header, pre) by {
            if !among_first(preds@, preds@.len() as int, q) {
                assert(!start.succ(q).contains(header)) by {
                    if start.succ(q).contains(header) {
                        assert(start.preds(header).contains(q));
                        let w = choose|w: int| 0 <= w < preds@.len() && preds@[w] == q;
                    }
                }
                assert(turned(start.succ(q), header, pre) =~= start.succ(q)) by {
                    assert forall|w: int| 0 <= w < start.succ(q).len() implies start.succ(q)[w]
                        != header by {
                        assert(start.succ(q).contains(start.succ(q)[w]));
                    }
                }
            }
        }
        assert(ready.blocks()[header.0].label is Some) by {
            assert(same_but_exit(start.blocks()[header.0], ready.blocks()[header.0]));
        }
        assert(ready.terminated()) by {
            assert forall|n: u64| #[trigger] ready.blocks().dom().contains(n) implies ready.blocks()[n].terminated() by {
                if n != pre.0 {
                    assert(start.has(BasicBlockIdx(n)));
                }
            }
        }
    }
    cfg.set_unconditional_edge(pre, header);
    proof {
        assert(cfg.succ(pre) =~= seq![header]);
        assert forall|q: BasicBlockIdx| #[trigger] before.has(q) implies cfg.succ(q) == turned(
            before.succ(q),
            header,
            pre,
        ) && same_but_exit(before.blocks()[q.0], cfg.blocks()[q.0]) by {
            assert(start.has(q) && q != pre);
            assert(ready.blocks().dom().contains(q.0));
            assert(cfg.blocks()[q.0] == ready.blocks()[q.0]);
            assert(cfg.succ(q) == ready.succ(q));
            assert(start.succ(q) == before.succ(q));
            assert(same_but_exit(start.blocks()[q.0], ready.blocks()[q.0]));
        }
        assert forall|q: BasicBlockIdx| #[trigger] cfg.preds(header).contains(q) <==> q == pre by {
            assert(cfg.has(header));
            assert(cfg.preds(header).contains(q) <==> cfg.has(q) && cfg.succ(q).contains(header));
            if cfg.has(q) && q != pre {
                assert(before.has(q));
                let s = turned(before.succ(q), header, pre);
                if s.contains(header) {
                    let w = choose|w: int| 0 <= w < s.len() && s[w] == header;
                }
            }
            if q == pre {
                assert(cfg.succ(pre)[0] == header);
            }
        }
        lemma_only_one(cfg.preds(header), pre);
        assert(cfg.no_fallthroughs()) by {
            assert forall|n: u64| #[trigger] cfg.blocks().dom().contains(n) implies !(
            cfg.blocks()[n].exit is Fallthrough) && (cfg.edges@.contains_key(n) ==> !(
            cfg.edges@[n] is Fallthrough)) by {
                assert(exit_agrees(cfg.blocks(), cfg.blocks()[n].exit, cfg.edges@[n]));
                if n != pre.0 {
                    assert(before.has(BasicBlockIdx(n)));
                    assert(same_but_exit(before.blocks()[n], cfg.blocks()[n]));
                    assert(!(before.blocks()[n].exit is Fallthrough));
                }
            }
        }
    }
    NaturalLoopWithPreheader {
        preheader: pre,
        header,
        backedge_start: natural.backedge_start,
        body: natural.body,
    }
}

/// Whether every block of `preds` is a block of `start` other than `pre`
/// that does not fall through.
pub open spec fn preds_ready(start: FunctionCfg, preds: Seq<BasicBlockIdx>, pre: BasicBlockIdx) -> bool {
    forall|w: int|
        0 <= w < preds.len() ==> start.has(#[trigger] preds[w]) && preds[w] != pre && !(
        start.blocks()[preds[w].0].exit is Fallthrough)
}

/// Turns the edges to `header` of the predecessor at position `i`.
#[verifier::rlimit(40)]
fn turn_one(
    cfg: &mut FunctionCfg,
    Ghost(start): Ghost<FunctionCfg>,
    preds: &Vec<BasicBlockIdx>,
    i: usize,
    header: BasicBlockIdx,
    pre: BasicBlockIdx,
)
    requires
        i < preds@.len(),
        start.has(header),
        start.has(pre),
        header != pre,
        start.blocks()[pre.0].label is Some,
        preds@.no_duplicates(),
        preds_ready(start, preds@, pre),
        edges_turned(start, *old(cfg), preds@, i as int, header, pre),
    ensures
        edges_turned(start, *final(cfg), preds@, i + 1, header, pre),
{
    reveal(edges_turned);
    let p = preds[i];
    let ghost mid = *cfg;
    proof {
        assert(start.has(p) && p != pre);
        assert(same_but_exit(start.blocks()[p.0], mid.blocks()[p.0]));
        assert(same_but_exit(start.blocks()[header.0], mid.blocks()[header.0]));
    }
    cfg.turn_edges(p, header, pre);
    proof {
        lemma_turned_step(start, mid, *cfg, preds@, i as int, header, pre);
    }
}

/// The step of [`turn_one`].
pub proof fn lemma_turned_step(
    start: FunctionCfg,
    mid: FunctionCfg,
    now: FunctionCfg,
    preds: Seq<BasicBlockIdx>,
    i: int,
    header: BasicBlockIdx,
    pre: BasicBlockIdx,
)
    requires
        0 <= i < preds.len(),
        preds.no_duplicates(),
        start.has(preds[i]),
        start.has(pre),
        preds[i] != pre,
        edges_turned(start, mid, preds, i, header, pre),
        now.wf(),
        now.entry == mid.entry,
        now.signature == mid.signature,
        now.blocks().dom() == mid.blocks().dom(),
        forall|n: u64|
            n != preds[i].0 && mid.blocks().dom().contains(n) ==> #[trigger] now.blocks()[n]
                == mid.blocks()[n] && now.edges@[n] == mid.edges@[n],
        now.succ(preds[i]) == turned(mid.succ(preds[i]), header, pre),
        same_but_exit(mid.blocks()[preds[i].0], now.blocks()[preds[i].0]),
        now.blocks()[preds[i].0].terminated(),
    ensures
        edges_turned(start, now, preds, i + 1, header, pre),
{
    reveal(edges_turned);
    let p = preds[i];
    assert(!among_first(preds, i, p)) by {
        if among_first(preds, i, p) {
            let w = choose|w: int| 0 <= w < i && #[trigger] preds[w] == p;
            assert(preds[w] == preds[i]);
        }
    }
    assert(start.blocks().dom().contains(pre.0));
    assert forall|q: BasicBlockIdx| #[trigger] start.has(q) && q != pre implies {
        &&& same_but_exit(start.blocks()[q.0], now.blocks()[q.0])
        &&& now.blocks()[q.0].terminated()
        &&& now.succ(q) == if among_first(preds, i + 1, q) {
            turned(start.succ(q), header, pre)
        } else {
            start.succ(q)
        }
    } by {
        assert(same_but_exit(start.blocks()[q.0], mid.blocks()[q.0]));
        if q == p {
            assert(among_first(preds, i + 1, q)) by {
                assert(preds[i] == q);
            }
            assert(mid.succ(q) == start.succ(q));
            let a = start.blocks()[q.0];
            let b = mid.blocks()[q.0];
            let c = now.blocks()[q.0];
            assert forall|w: int| 0 <= w < a.code().len() - 1 implies #[trigger] c.code()[w]
                == a.code()[w] by {
                assert(b.code()[w] == a.code()[w]);
            }
        } else {
            assert(mid.blocks().dom().contains(q.0));
            assert(now.blocks()[q.0] == mid.blocks()[q.0]);
            assert(now.succ(q) == mid.succ(q));
            assert(among_first(preds, i + 1, q) == among_first(preds, i, q)) by {
                if among_first(preds, i + 1, q) {
                    let w = choose|w: int| 0 <= w < i + 1 && #[trigger] preds[w] == q;
                    assert(w < i);
                }
                if among_first(preds, i, q) {
                    let w = choose|w: int| 0 <= w < i && #[trigger] preds[w] == q;
                    assert(0 <= w < i + 1 && preds[w] == q);
                }
            }
        }
    }
}

/// A copy of a list of handles.
pub fn dup_blocks_slice(blocks: &[BasicBlockIdx]) -> (r: Vec<BasicBlockIdx>)
    ensures
        r@ == blocks@,
{
    let mut list: Vec<BasicBlockIdx> = Vec::new();
    let mut c: usize = 0;
    while c < blocks.len()
        invariant
            c <= blocks@.len(),
            list@ == blocks@.take(c as int),
        decreases blocks@.len() - c,
    {
        list.push(blocks[c]);
        assert(list@ =~= blocks@.take(c + 1));
        c += 1;
    }
    assert(blocks@.take(blocks@.len() as int) =~= blocks@);
    list
}

/// Whether the operation is never loop-invariant: a call, an allocation, a
/// load, a `get`.
pub open spec fn never_invariant(op: ValueOp) -> bool {
    op == ValueOp::Call || op == ValueOp::Alloc || op == ValueOp::Load || op == ValueOp::Get
}

/// Whether the argument `a` does not change in the loop, as far as the
/// definitions `reaching` tell: all its definitions lie outside the loop, or
/// it has one definition only, and that one is marked.
pub open spec fn argument_invariant(
    reaching: Set<DefinitionView>,
    body: Set<u64>,
    marked: Set<(u64, int)>,
    a: Seq<char>,
) -> bool {
    ||| forall|x: DefinitionView|
        #[trigger] reaching.contains(x) && x.name == a ==> !body.contains(x.block.0)
    ||| exists|x: DefinitionView|
        {
            &&& #[trigger] reaching.contains(x)
            &&& x.name == a
            &&& marked.contains((x.block.0, x.index))
            &&& forall|y: DefinitionView| #[trigger] reaching.contains(y) && y.name == a ==> y == x
        }
}

/// Whether the instruction is loop-invariant given what is marked: a
/// constant, or an operation that may be invariant on arguments that are.
pub open spec fn invariant_rule(
    i: InstructionView,
    reaching: Set<DefinitionView>,
    body: Set<u64>,
    marked: Set<(u64, int)>,
) -> bool {
    match i {
        InstructionView::Constant { .. } => true,
        InstructionView::Value { op, args, .. } => !never_invariant(op) && forall|k: int|
            0 <= k < args.len() ==> argument_invariant(reaching, body, marked, #[trigger] args[k]),
        InstructionView::Effect { .. } => false,
    }
}

/// Whether the instruction at position `i` of the block `n` is an
/// instruction of the loop that the rule finds invariant.
pub open spec fn found_invariant(
    cfg: FunctionCfg,
    reaching: Map<u64, Set<DefinitionView>>,
    body: Set<u64>,
    marked: Set<(u64, int)>,
    n: u64,
    i: int,
) -> bool {
    &&& body.contains(n)
    &&& cfg.blocks().dom().contains(n)
    &&& 0 <= i < cfg.blocks()[n].code().len()
    &&& invariant_rule(cfg.blocks()[n].code()[i], reaching[n], body, marked)
}

/// Whether `marked` holds every instruction that the rule finds invariant
/// given `marked`.
pub open spec fn marks_closed(
    cfg: FunctionCfg,
    reaching: Map<u64, Set<DefinitionView>>,
    body: Set<u64>,
    marked: Set<(u64, int)>,
) -> bool {
    forall|n: u64, i: int| #[trigger]
        found_invariant(cfg, reaching, body, marked, n, i) ==> marked.contains((n, i))
}

/// Whether `marked` is the set of the loop-invariant instructions: the
/// least set that holds every instruction that the rule finds invariant given
/// the set.
pub open spec fn loop_invariants(
    cfg: FunctionCfg,
    reaching: Map<u64, Set<DefinitionView>>,
    body: Set<u64>,
    marked: Set<(u64, int)>,
) -> bool {
    &&& marks_closed(cfg, reaching, body, marked)
    &&& forall|other: Set<(u64, int)>| #[trigger]
        marks_closed(cfg, reaching, body, other) ==> marked.subset_of(other)
}

/// More marks make the rule find no less.
pub proof fn lemma_rule_monotone(
    i: InstructionView,
    reaching: Set<DefinitionView>,
    body: Set<u64>,
    small: Set<(u64, int)>,
    large: Set<(u64, int)>,
)
    requires
        small.subset_of(large),
        invariant_rule(i, reaching, body, small),
    ensures
        invariant_rule(i, reaching, body, large),
{
    match i {
        InstructionView::Value { op, args, .. } => {
            assert forall|k: int| 0 <= k < args.len() implies argument_invariant(
                reaching,
                body,
                large,
                #[trigger] args[k],
            ) by {
                assert(argument_invariant(reaching, body, small, args[k]));
            }
        },
        _ => {},
    }
}

/// The marks of the loop as flags: for the block at position `j` of
/// `body`, and each of its instructions, whether it is marked.
pub open spec fn marked_set(body: Seq<BasicBlockIdx>, flags: Seq<Vec<bool>>) -> Set<(u64, int)> {
    Set::new(
        |at: (u64, int)|
            exists|j: int|
                0 <= j < body.len() && j < flags.len() && (#[trigger] body[j]).0 == at.0 && 0
                    <= at.1 < flags[j]@.len() && flags[j]@[at.1],
    )
}

/// The number of flags that are not set.
pub open spec fn unset(row: Seq<bool>) -> nat
    decreases row.len(),
{
    if row.len() == 0 {
        0
    } else {
        unset(row.drop_last()) + if row.last() {
            0nat
        } else {
            1nat
        }
    }
}

/// The number of flags that are not set, in all rows together.
pub open spec fn all_unset(flags: Seq<Vec<bool>>) -> nat
    decreases flags.len(),
{
    if flags.len() == 0 {
        0
    } else {
        all_unset(flags.drop_last()) + unset(flags.last()@)
    }
}

/// Setting a flag that was not set leaves one fewer unset.
pub proof fn lemma_unset_one_fewer(row: Seq<bool>, i: int)
    requires
        0 <= i < row.len(),
        !row[i],
    ensures
        unset(row.update(i, true)) + 1 == unset(row),
    decreases row.len(),
{
    let after = row.update(i, true);
    if i == row.len() - 1 {
        assert(after.drop_last() =~= row.drop_last());
    } else {
        lemma_unset_one_fewer(row.drop_last(), i);
        assert(after.drop_last() =~= row.drop_last().update(i, true));
    }
}

/// A row with fewer flags unset leaves fewer unset in all.
pub proof fn lemma_all_unset_fewer(before: Seq<Vec<bool>>, after: Seq<Vec<bool>>, j: int)
    requires
        0 <= j < before.len(),
        after.len() == before.len(),
        forall|w: int| 0 <= w < before.len() && w != j ==> #[trigger] after[w]@ == before[w]@,
        unset(after[j]@) < unset(before[j]@),
    ensures
        all_unset(after) < all_unset(before),
    decreases before.len(),
{
    if j == before.len() - 1 {
        lemma_all_unset_same(before.drop_last(), after.drop_last());
    } else {
        assert(after.last()@ == before.last()@) by {
            assert(after[before.len() - 1]@ == before[before.len() - 1]@);
        }
        lemma_all_unset_fewer(before.drop_last(), after.drop_last(), j);
    }
}

/// Rows with the same flags leave the same number unset.
pub proof fn lemma_all_unset_same(before: Seq<Vec<bool>>, after: Seq<Vec<bool>>)
    requires
        after.len() == before.len(),
        forall|w: int| 0 <= w < before.len() ==> #[trigger] after[w]@ == before[w]@,
    ensures
        all_unset(after) == all_unset(before),
    decreases before.len(),
{
    if before.len() > 0 {
        assert(after.last()@ == before.last()@) by {
            assert(after[before.len() - 1]@ == before[before.len() - 1]@);
        }
        lemma_all_unset_same(before.drop_last(), after.drop_last());
    }
}

/// The position of `b` in `body`, if it is there.
pub fn position_in(body: &Vec<BasicBlockIdx>, b: BasicBlockIdx) -> (r: Option<usize>)
    ensures
        match r {
            Some(j) => j < body@.len() && body@[j as int] == b,
            None => !body@.contains(b),
        },
{
    let mut j: usize = 0;
    while j < body.len()
        invariant
            j <= body@.len(),
            forall|w: int| 0 <= w < j ==> body@[w] != b,
        decreases body@.len() - j,
    {
        if body[j].0 == b.0 {
            return Some(j);
        }
        j += 1;
    }
    None
}

/// Whether the argument `a` does not change in the loop; see
/// [`argument_invariant`].
fn argument_is_invariant(
    reaching: &FactSet<Definition>,
    body: &Vec<BasicBlockIdx>,
    flags: &Vec<Vec<bool>>,
    a: &String,
) -> (r: bool)
    requires
        body@.no_duplicates(),
        flags@.len() == body@.len(),
    ensures
        r == argument_invariant(reaching@, numbers(body@), marked_set(body@, flags@), a@),
{
    let ghost all = fact_views(reaching.items@);
    let ghost inside = numbers(body@);
    let ghost marked = marked_set(body@, flags@);
    let mut outside = true;
    let mut count: usize = 0;
    let mut single: usize = 0;
    let mut i: usize = 0;
    while i < reaching.items.len()
        invariant
            i <= reaching.items@.len(),
            all == fact_views(reaching.items@),
            inside == numbers(body@),
            outside == forall|w: int|
                0 <= w < i && (#[trigger] all[w]).name == a@ ==> !inside.contains(all[w].block.0),
            count <= i,
            count == 0 ==> forall|w: int| 0 <= w < i ==> (#[trigger] all[w]).name != a@,
            count >= 1 ==> single < i && all[single as int].name == a@,
            count == 1 ==> forall|w: int|
                0 <= w < i && (#[trigger] all[w]).name == a@ ==> all[w] == all[single as int],
            count >= 2 ==> exists|w: int, v: int|
                0 <= w < i && 0 <= v < i && (#[trigger] all[w]).name == a@ && (
                #[trigger] all[v]).name == a@ && all[w] != all[v],
        decreases reaching.items@.len() - i,
    {
        let x = &reaching.items[i];
        assert(all[i as int] == x@);
        if x.0 == *a {
            if position_in(body, x.2).is_some() {
                outside = false;
                assert(inside.contains(all[i as int].block.0)) by {
                    assert(x.2 == BasicBlockIdx(x.2.0));
                }
            } else {
                assert(!inside.contains(all[i as int].block.0)) by {
                    assert(x.2 == BasicBlockIdx(x.2.0));
                }
            }
            if count == 0 {
                single = i;
                count = 1;
            } else if count == 1 {
                if !reaching.items[single].same(x) {
                    count = 2;
                    assert(all[single as int] != all[i as int]);
                }
            }
        }
        i += 1;
    }
    proof {
        assert(outside == forall|x: DefinitionView|
            #[trigger] reaching@.contains(x) && x.name == a@ ==> !inside.contains(x.block.0)) by {
            if outside {
                assert forall|x: DefinitionView|
                    #[trigger] reaching@.contains(x) && x.name == a@ implies !inside.contains(
                    x.block.0,
                ) by {
                    let w = choose|w: int| 0 <= w < all.len() && all[w] == x;
                }
            } else {
                let w = choose|w: int|
                    0 <= w < all.len() && (#[trigger] all[w]).name == a@ && inside.contains(
                        all[w].block.0,
                    );
                assert(all.contains(all[w]));
                assert(reaching@.contains(all[w]));
            }
        }
    }
    if outside {
        return true;
    }
    if count != 1 {
        proof {
            assert(!argument_invariant(reaching@, inside, marked, a@)) by {
                if exists|x: DefinitionView|
                    {
                        &&& #[trigger] reaching@.contains(x)
                        &&& x.name == a@
                        &&& marked.contains((x.block.0, x.index))
                        &&& forall|y: DefinitionView|
                            #[trigger] reaching@.contains(y) && y.name == a@ ==> y == x
                    } {
                    let x = choose|x: DefinitionView|
                        {
                            &&& #[trigger] reaching@.contains(x)
                            &&& x.name == a@
                            &&& marked.contains((x.block.0, x.index))
                            &&& forall|y: DefinitionView|
                                #[trigger] reaching@.contains(y) && y.name == a@ ==> y == x
                        };
                    let w0 = choose|w0: int| 0 <= w0 < all.len() && all[w0] == x;
                    if count >= 2 {
                        let (w, v) = choose|w: int, v: int|
                            0 <= w < all.len() && 0 <= v < all.len() && (#[trigger] all[w]).name
                                == a@ && (#[trigger] all[v]).name == a@ && all[w] != all[v];
                        assert(all.contains(all[w]));
                        assert(all.contains(all[v]));
                        assert(reaching@.contains(all[w]));
                        assert(reaching@.contains(all[v]));
                    }
                }
            }
        }
        return false;
    }
    let x = &reaching.items[single];
    let is_marked = match position_in(body, x.2) {
        Some(j) => x.3 >= 0 && (x.3 as usize) < flags[j].len() && flags[j][x.3 as usize],
        None => false,
    };
    proof {
        let xv = all[single as int];
        assert(all.contains(xv));
        assert(reaching@.contains(xv));
        assert(is_marked == marked.contains((xv.block.0, xv.index))) by {
            if marked.contains((xv.block.0, xv.index)) {
                let j = choose|j: int|
                    0 <= j < body@.len() && j < flags@.len() && (#[trigger] body@[j]).0
                        == xv.block.0 && 0 <= xv.index < flags@[j]@.len() && flags@[j]@[xv.index];
                assert(body@[j] == x.2);
                assert(body@.contains(x.2));
            }
            if is_marked {
                let j = position_in_index(body@, x.2);
                assert(body@[j].0 == xv.block.0);
            }
        }
        assert forall|y: DefinitionView| #[trigger] reaching@.contains(y) && y.name == a@ implies y
            == xv by {
            let w = choose|w: int| 0 <= w < all.len() && all[w] == y;
        }
        if !is_marked {
            assert(!argument_invariant(reaching@, inside, marked, a@));
        }
    }
    is_marked
}

/// The position of a block of a list without repetitions.
pub open spec fn position_in_index(body: Seq<BasicBlockIdx>, b: BasicBlockIdx) -> int {
    choose|j: int| 0 <= j < body.len() && body[j] == b
}

/// Whether the instruction is loop-invariant given what is marked; see
/// [`invariant_rule`].
fn instruction_is_invariant(
    instruction: &Instruction,
    reaching: &FactSet<Definition>,
    body: &Vec<BasicBlockIdx>,
    flags: &Vec<Vec<bool>>,
) -> (r: bool)
    requires
        body@.no_duplicates(),
        flags@.len() == body@.len(),
    ensures
        r == invariant_rule(instruction@, reaching@, numbers(body@), marked_set(body@, flags@)),
{
    match instruction {
        Instruction::Constant { .. } => true,
        Instruction::Value { op, args, .. } => {
            match op {
                ValueOp::Call | ValueOp::Alloc | ValueOp::Load | ValueOp::Get => {
                    return false;
                },
                _ => {},
            }
            let ghost names = texts(args@);
            let mut k: usize = 0;
            while k < args.len()
                invariant
                    k <= args@.len(),
                    names == texts(args@),
                    names == instruction@->Value_args,
                    instruction@ is Value,
                    !never_invariant(instruction@->Value_op),
                    body@.no_duplicates(),
                    flags@.len() == body@.len(),
                    forall|w: int|
                        0 <= w < k ==> argument_invariant(
                            reaching@,
                            numbers(body@),
                            marked_set(body@, flags@),
                            #[trigger] names[w],
                        ),
                decreases args@.len() - k,
            {
                assert(names[k as int] == args@[k as int]@);
                if !argument_is_invariant(reaching, body, flags, &args[k]) {
                    proof {
                        assert(instruction@->Value_args == names);
                        assert(!argument_invariant(
                            reaching@,
                            numbers(body@),
                            marked_set(body@, flags@),
                            names[k as int],
                        ));
                    }
                    return false;
                }
                k += 1;
            }
            true
        },
        Instruction::Effect { .. } => false,
    }
}

/// A copy of a row of flags with the flag at `i` set.
fn with_flag(row: &Vec<bool>, i: usize) -> (r: Vec<bool>)
    requires
        i < row@.len(),
    ensures
        r@ == row@.update(i as int, true),
{
    let mut out: Vec<bool> = Vec::new();
    let mut c: usize = 0;
    while c < row.len()
        invariant
            c <= row@.len(),
            i < row@.len(),
            out@.len() == c,
            forall|w: int| 0 <= w < c ==> out@[w] == (w == i || row@[w]),
        decreases row@.len() - c,
    {
        out.push(c == i || row[c]);
        c += 1;
    }
    assert(out@ =~= row@.update(i as int, true));
    out
}

/// Whether the flags have a row for each block of `body`, as long as the
/// block has instructions.
pub open spec fn flags_fit(cfg: FunctionCfg, body: Seq<BasicBlockIdx>, flags: Seq<Vec<bool>>) -> bool {
    &&& flags.len() == body.len()
    &&& forall|j: int|
        0 <= j < body.len() ==> (#[trigger] flags[j])@.len() == cfg.blocks()[body[j].0].code().len()
}

/// One more mark: the set of marks with the new one.
pub proof fn lemma_marked_more(
    body: Seq<BasicBlockIdx>,
    before: Seq<Vec<bool>>,
    after: Seq<Vec<bool>>,
    j: int,
    i: int,
)
    requires
        body.no_duplicates(),
        0 <= j < body.len(),
        before.len() == body.len(),
        after.len() == body.len(),
        0 <= i < before[j]@.len(),
        after[j]@ == before[j]@.update(i, true),
        forall|w: int| 0 <= w < body.len() && w != j ==> #[trigger] after[w]@ == before[w]@,
    ensures
        marked_set(body, after) == marked_set(body, before).insert((body[j].0, i)),
{
    let a = marked_set(body, after);
    let b = marked_set(body, before).insert((body[j].0, i));
    assert forall|at: (u64, int)| a.contains(at) <==> b.contains(at) by {
        if a.contains(at) {
            let w = choose|w: int|
                0 <= w < body.len() && w < after.len() && (#[trigger] body[w]).0 == at.0 && 0
                    <= at.1 < after[w]@.len() && after[w]@[at.1];
            if w == j {
                if at.1 != i {
                    assert(before[w]@[at.1]);
                }
            } else {
                assert(after[w]@ == before[w]@);
            }
            assert(body[w].0 == at.0);
        }
        if marked_set(body, before).contains(at) {
            let w = choose|w: int|
                0 <= w < body.len() && w < before.len() && (#[trigger] body[w]).0 == at.0 && 0
                    <= at.1 < before[w]@.len() && before[w]@[at.1];
            if w != j {
                assert(after[w]@ == before[w]@);
            }
            assert(body[w].0 == at.0 && 0 <= at.1 < after[w]@.len() && after[w]@[at.1]);
        }
        if at == (body[j].0, i) {
            assert(body[j].0 == at.0 && 0 <= at.1 < after[j]@.len() && after[j]@[at.1]);
        }
    }
    assert(a =~= b);
}

/// Marks the loop-invariant instructions of a loop: the instructions that
/// the rule finds invariant are marked, again and again until none is found.
pub fn mark_loop_invariants(
    cfg: &FunctionCfg,
    reaching: &HashMap<u64, FactSet<Definition>>,
    body: &Vec<BasicBlockIdx>,
) -> (flags: Vec<Vec<bool>>)
    requires
        cfg.wf(),
        body@.no_duplicates(),
        forall|j: int| 0 <= j < body@.len() ==> cfg.has(#[trigger] body@[j]),
        solution_view(*reaching).dom() == cfg.blocks().dom(),
    ensures
        flags_fit(*cfg, body@, flags@),
        loop_invariants(
            *cfg,
            solution_view(*reaching),
            numbers(body@),
            marked_set(body@, flags@),
        ),
{
    let ghost inside = numbers(body@);
    let ghost reach = solution_view(*reaching);
    let mut flags: Vec<Vec<bool>> = Vec::new();
    let mut c: usize = 0;
    while c < body.len()
        invariant
            c <= body@.len(),
            cfg.wf(),
            forall|j: int| 0 <= j < body@.len() ==> cfg.has(#[trigger] body@[j]),
            flags@.len() == c,
            forall|j: int|
                0 <= j < c ==> (#[trigger] flags@[j])@.len() == cfg.blocks()[body@[j].0].code().len()
                    && forall|i: int| 0 <= i < flags@[j]@.len() ==> !flags@[j]@[i],
        decreases body@.len() - c,
    {
        let mut row: Vec<bool> = Vec::new();
        match cfg.block(body[c]) {
            Some(block) => {
                let mut i: usize = 0;
                while i < block.instructions.len()
                    invariant
                        i <= block.instructions@.len(),
                        row@.len() == i,
                        forall|w: int| 0 <= w < i ==> !row@[w],
                    decreases block.instructions@.len() - i,
                {
                    row.push(false);
                    i += 1;
                }
            },
            None => {},
        }
        flags.push(row);
        c += 1;
    }
    proof {
        assert(marked_set(body@, flags@) =~= Set::<(u64, int)>::empty()) by {
            assert forall|at: (u64, int)| !marked_set(body@, flags@).contains(at) by {
                if marked_set(body@, flags@).contains(at) {
                    let j = choose|j: int|
                        0 <= j < body@.len() && j < flags@.len() && (#[trigger] body@[j]).0 == at.0
                            && 0 <= at.1 < flags@[j]@.len() && flags@[j]@[at.1];
                }
            }
        }
    }
    loop
        invariant
            cfg.wf(),
            body@.no_duplicates(),
            forall|j: int| 0 <= j < body@.len() ==> cfg.has(#[trigger] body@[j]),
            inside == numbers(body@),
            reach == solution_view(*reaching),
            reach.dom() == cfg.blocks().dom(),
            flags_fit(*cfg, body@, flags@),
            forall|other: Set<(u64, int)>| #[trigger]
                marks_closed(*cfg, reach, inside, other) ==> marked_set(body@, flags@).subset_of(
                    other,
                ),
        ensures
            flags_fit(*cfg, body@, flags@),
            loop_invariants(*cfg, reach, inside, marked_set(body@, flags@)),
        decreases all_unset(flags@),
    {
        let ghost start = flags@;
        let mut changed = false;
        let mut j: usize = 0;
        while j < body.len()
            invariant
                j <= body@.len(),
                cfg.wf(),
                body@.no_duplicates(),
                forall|w: int| 0 <= w < body@.len() ==> cfg.has(#[trigger] body@[w]),
                inside == numbers(body@),
                reach == solution_view(*reaching),
                reach.dom() == cfg.blocks().dom(),
                flags_fit(*cfg, body@, flags@),
                forall|other: Set<(u64, int)>| #[trigger]
                    marks_closed(*cfg, reach, inside, other) ==> marked_set(
                        body@,
                        flags@,
                    ).subset_of(other),
                changed ==> all_unset(flags@) < all_unset(start),
                !changed ==> flags@ == start,
                !changed ==> forall|w: int, i: int|
                    0 <= w < j && 0 <= i < cfg.blocks()[body@[w].0].code().len()
                        && #[trigger] found_invariant(
                        *cfg,
                        reach,
                        inside,
                        marked_set(body@, start),
                        body@[w].0,
                        i,
                    ) ==> start[w]@[i],
            decreases body@.len() - j,
        {
            let b = body[j];
            assert(cfg.has(b));
            assert(reach.dom().contains(b.0));
            match (cfg.block(b), reaching.get(&b.0)) {
                (Some(block), Some(facts)) => {
                    let ghost code = block.code();
                    let mut i: usize = 0;
                    while i < block.instructions.len()
                        invariant
                            i <= block.instructions@.len(),
                            j < body@.len(),
                            b == body@[j as int],
                            cfg.wf(),
                            cfg.has(b),
                            *block == cfg.blocks()[b.0],
                            code == block.code(),
                            facts@ == reach[b.0],
                            body@.no_duplicates(),
                            forall|w: int| 0 <= w < body@.len() ==> cfg.has(#[trigger] body@[w]),
                            inside == numbers(body@),
                            reach == solution_view(*reaching),
                            flags_fit(*cfg, body@, flags@),
                            forall|other: Set<(u64, int)>| #[trigger]
                                marks_closed(*cfg, reach, inside, other) ==> marked_set(
                                    body@,
                                    flags@,
                                ).subset_of(other),
                            changed ==> all_unset(flags@) < all_unset(start),
                            !changed ==> flags@ == start,
                            !changed ==> forall|w: int, i: int|
                                0 <= w < j && 0 <= i < cfg.blocks()[body@[w].0].code().len()
                                    && #[trigger] found_invariant(
                                    *cfg,
                                    reach,
                                    inside,
                                    marked_set(body@, start),
                                    body@[w].0,
                                    i,
                                ) ==> start[w]@[i],
                            !changed ==> forall|w: int|
                                0 <= w < i && #[trigger] found_invariant(
                                    *cfg,
                                    reach,
                                    inside,
                                    marked_set(body@, start),
                                    b.0,
                                    w,
                                ) ==> start[j as int]@[w],
                        decreases block.instructions@.len() - i,
                    {
                        assert(code[i as int] == block.instructions@[i as int]@);
                        let ghost before = flags@;
                        let ghost marked = marked_set(body@, before);
                        if !flags[j][i] && instruction_is_invariant(
                            &block.instructions[i],
                            facts,
                            body,
                            &flags,
                        ) {
                            let row = with_flag(&flags[j], i);
                            flags[j] = row;
                            proof {
                                lemma_marked_more(body@, before, flags@, j as int, i as int);
                                lemma_unset_one_fewer(before[j as int]@, i as int);
                                lemma_all_unset_fewer(before, flags@, j as int);
                                assert(inside.contains(b.0)) by {
                                    assert(body@.contains(b));
                                    assert(b == BasicBlockIdx(b.0));
                                }
                                assert forall|other: Set<(u64, int)>| #[trigger]
                                    marks_closed(*cfg, reach, inside, other) implies marked_set(
                                    body@,
                                    flags@,
                                ).subset_of(other) by {
                                    assert(marked.subset_of(other));
                                    lemma_rule_monotone(
                                        code[i as int],
                                        reach[b.0],
                                        inside,
                                        marked,
                                        other,
                                    );
                                    assert(found_invariant(
                                        *cfg,
                                        reach,
                                        inside,
                                        other,
                                        b.0,
                                        i as int,
                                    ));
                                }
                                assert(flags_fit(*cfg, body@, flags@)) by {
                                    assert forall|w: int| 0 <= w < body@.len() implies (
                                    #[trigger] flags@[w])@.len()
                                        == cfg.blocks()[body@[w].0].code().len() by {
                                        assert(before[w]@.len()
                                            == cfg.blocks()[body@[w].0].code().len());
                                    }
                                }
                            }
                            changed = true;
                        }
                        i += 1;
                    }
                },
                _ => {},
            }
            proof {
                if !changed {
                    assert forall|w: int, i: int|
                        0 <= w < j + 1 && 0 <= i < cfg.blocks()[body@[w].0].code().len()
                            && #[trigger] found_invariant(
                            *cfg,
                            reach,
                            inside,
                            marked_set(body@, start),
                            body@[w].0,
                            i,
                        ) implies start[w]@[i] by {
                        if w == j {
                        }
                    }
                }
            }
            j += 1;
        }
        if !changed {
            proof {
                let marked = marked_set(body@, flags@);
                assert forall|n: u64, i: int| #[trigger]
                    found_invariant(*cfg, reach, inside, marked, n, i) implies marked.contains(
                    (n, i),
                ) by {
                    assert(body@.contains(BasicBlockIdx(n)));
                    let w = choose|w: int| 0 <= w < body@.len() && body@[w] == BasicBlockIdx(n);
                    assert(found_invariant(*cfg, reach, inside, marked, body@[w].0, i));
                    assert(start[w]@[i]);
                    assert(body@[w].0 == n && 0 <= i < flags@[w]@.len() && flags@[w]@[i]);
                }
            }
            break ;
        }
    }
    flags
}

/// Whether no instruction of the loop but the one at position `i` of the
/// block `n` defines `d`.
pub open spec fn unique_in_loop(cfg: FunctionCfg, body: Seq<BasicBlockIdx>, n: u64, i: int, d: Seq<char>) -> bool {
    forall|w: int, j: int|
        0 <= w < body.len() && #[trigger] defines(cfg, body[w].0, j, d) ==> body[w].0 == n && j == i
}

/// Whether the block `n` dominates every block of the loop that reads `d`.
pub open spec fn dominates_uses(
    cfg: FunctionCfg,
    body: Seq<BasicBlockIdx>,
    dominators: Map<u64, Set<u64>>,
    n: u64,
    d: Seq<char>,
) -> bool {
    forall|w: int, j: int|
        0 <= w < body.len() && #[trigger] reads(cfg, body[w].0, j, d) ==> dominators.contains_key(
            body[w].0,
        ) && dominators[body[w].0].contains(n)
}

/// Whether the block `n` dominates every block outside the loop that a
/// block of the loop leads to, as far as `dominators` has a set for it.
pub open spec fn dominates_exits(
    cfg: FunctionCfg,
    body: Seq<BasicBlockIdx>,
    dominators: Map<u64, Set<u64>>,
    n: u64,
) -> bool {
    forall|w: int, x: BasicBlockIdx|
        0 <= w < body.len() && #[trigger] cfg.succ(body[w]).contains(x) && !body.contains(x)
            && dominators.contains_key(x.0) ==> dominators[x.0].contains(n)
}

/// Whether the instruction at position `i` of the block at position `j`
/// of the loop may be moved before the loop: it is marked as invariant and
/// defines a variable; nothing else in the loop defines that variable; its
/// block dominates the blocks of the loop that read the variable, and the
/// exits of the loop.
pub open spec fn movable(
    cfg: FunctionCfg,
    body: Seq<BasicBlockIdx>,
    dominators: Map<u64, Set<u64>>,
    marks: Seq<Vec<bool>>,
    j: int,
    i: int,
) -> bool {
    let code = cfg.blocks()[body[j].0].code();
    &&& marks[j]@[i]
    &&& code[i].kill() is Some
    &&& unique_in_loop(cfg, body, body[j].0, i, code[i].kill()->0)
    &&& dominates_uses(cfg, body, dominators, body[j].0, code[i].kill()->0)
    &&& dominates_exits(cfg, body, dominators, body[j].0)
}

/// Whether `d` is one of `names`.
pub fn name_in(names: &[String], d: &String) -> (r: bool)
    ensures
        r == texts(names@).contains(d@),
{
    let mut t: usize = 0;
    while t < names.len()
        invariant
            t <= names@.len(),
            forall|w: int| 0 <= w < t ==> texts(names@)[w] != d@,
        decreases names@.len() - t,
    {
        if names[t] == *d {
            assert(texts(names@)[t as int] == d@);
            return true;
        }
        t += 1;
    }
    false
}

/// See [`unique_in_loop`].
fn is_unique_definition(cfg: &FunctionCfg, body: &Vec<BasicBlockIdx>, at: usize, i: usize, d: &String) -> (r:
    bool)
    requires
        cfg.wf(),
        body@.no_duplicates(),
        at < body@.len(),
        forall|j: int| 0 <= j < body@.len() ==> cfg.has(#[trigger] body@[j]),
    ensures
        r == unique_in_loop(*cfg, body@, body@[at as int].0, i as int, d@),
{
    let mut w: usize = 0;
    while w < body.len()
        invariant
            w <= body@.len(),
            cfg.wf(),
            body@.no_duplicates(),
            at < body@.len(),
            forall|j: int| 0 <= j < body@.len() ==> cfg.has(#[trigger] body@[j]),
            forall|v: int, j: int|
                0 <= v < w && #[trigger] defines(*cfg, body@[v].0, j, d@) ==> body@[v].0
                    == body@[at as int].0 && j == i,
        decreases body@.len() - w,
    {
        assert(cfg.has(body@[w as int]));
        match cfg.block(body[w]) {
            Some(block) => {
                let ghost code = block.code();
                let mut j: usize = 0;
                while j < block.instructions.len()
                    invariant
                        j <= block.instructions@.len(),
                        w < body@.len(),
                        at < body@.len(),
                        body@.no_duplicates(),
                        cfg.has(body@[w as int]),
                        *block == cfg.blocks()[body@[w as int].0],
                        code == block.code(),
                        forall|v: int|
                            0 <= v < j && #[trigger] defines(*cfg, body@[w as int].0, v, d@)
                                ==> body@[w as int].0 == body@[at as int].0 && v == i,
                    decreases block.instructions@.len() - j,
                {
                    assert(code[j as int] == block.instructions@[j as int]@);
                    let same = match block.instructions[j].kill() {
                        Some(k) => *k == *d,
                        None => false,
                    };
                    if same && !(w == at && j == i) {
                        proof {
                            assert(defines(*cfg, body@[w as int].0, j as int, d@));
                            if j == i {
                                assert(w != at);
                                assert(body@[w as int] != body@[at as int]);
                                assert(body@[w as int].0 != body@[at as int].0);
                            }
                            assert(!(body@[w as int].0 == body@[at as int].0 && j == i));
                        }
                        return false;
                    }
                    j += 1;
                }
            },
            None => {},
        }
        w += 1;
    }
    true
}

/// Whether some instruction of the block reads `d`.
fn block_reads(cfg: &FunctionCfg, b: BasicBlockIdx, d: &String) -> (r: bool)
    requires
        cfg.wf(),
        cfg.has(b),
    ensures
        r == exists|j: int| #[trigger] reads(*cfg, b.0, j, d@),
{
    match cfg.block(b) {
        Some(block) => {
            let ghost code = block.code();
            let mut j: usize = 0;
            while j < block.instructions.len()
                invariant
                    j <= block.instructions@.len(),
                    cfg.has(b),
                    *block == cfg.blocks()[b.0],
                    code == block.code(),
                    forall|v: int| 0 <= v < j ==> !#[trigger] reads(*cfg, b.0, v, d@),
                decreases block.instructions@.len() - j,
            {
                assert(code[j as int] == block.instructions@[j as int]@);
                if name_in(block.instructions[j].gen_set(), d) {
                    assert(reads(*cfg, b.0, j as int, d@));
                    return true;
                }
                j += 1;
            }
            false
        },
        None => false,
    }
}

/// See [`dominates_uses`].
fn does_dominate_uses(
    cfg: &FunctionCfg,
    body: &Vec<BasicBlockIdx>,
    dominators: &BlockSets,
    n: BasicBlockIdx,
    d: &String,
) -> (r: bool)
    requires
        cfg.wf(),
        forall|j: int| 0 <= j < body@.len() ==> cfg.has(#[trigger] body@[j]),
    ensures
        r == dominates_uses(*cfg, body@, dominators@, n.0, d@),
{
    let mut w: usize = 0;
    while w < body.len()
        invariant
            w <= body@.len(),
            cfg.wf(),
            forall|j: int| 0 <= j < body@.len() ==> cfg.has(#[trigger] body@[j]),
            forall|v: int, j: int|
                0 <= v < w && #[trigger] reads(*cfg, body@[v].0, j, d@)
                    ==> dominators@.contains_key(body@[v].0) && dominators@[body@[v].0].contains(
                    n.0,
                ),
        decreases body@.len() - w,
    {
        assert(cfg.has(body@[w as int]));
        if block_reads(cfg, body[w], d) && !dominators.contains(body[w], n) {
            proof {
                let j = choose|j: int| #[trigger] reads(*cfg, body@[w as int].0, j, d@);
                assert(reads(*cfg, body@[w as int].0, j, d@));
            }
            return false;
        }
        w += 1;
    }
    true
}

/// See [`dominates_exits`].
fn does_dominate_exits(cfg: &FunctionCfg, body: &Vec<BasicBlockIdx>, dominators: &BlockSets, n: BasicBlockIdx) -> (r:
    bool)
    requires
        cfg.wf(),
        forall|j: int| 0 <= j < body@.len() ==> cfg.has(#[trigger] body@[j]),
    ensures
        r == dominates_exits(*cfg, body@, dominators@, n.0),
{
    let mut w: usize = 0;
    while w < body.len()
        invariant
            w <= body@.len(),
            cfg.wf(),
            forall|j: int| 0 <= j < body@.len() ==> cfg.has(#[trigger] body@[j]),
            forall|v: int, x: BasicBlockIdx|
                0 <= v < w && #[trigger] cfg.succ(body@[v]).contains(x) && !body@.contains(x)
                    && dominators@.contains_key(x.0) ==> dominators@[x.0].contains(n.0),
        decreases body@.len() - w,
    {
        assert(cfg.has(body@[w as int]));
        let successors = cfg.successors(body[w]);
        let mut t: usize = 0;
        while t < successors.len()
            invariant
                t <= successors@.len(),
                w < body@.len(),
                successors@ == cfg.succ(body@[w as int]),
                forall|v: int|
                    0 <= v < t && !body@.contains(#[trigger] successors@[v])
                        && dominators@.contains_key(successors@[v].0)
                        ==> dominators@[successors@[v].0].contains(n.0),
            decreases successors@.len() - t,
        {
            let x = successors[t];
            if !list_contains(body.as_slice(), x) && dominators.sets.contains_key(&x.0)
                && !dominators.contains(x, n) {
                proof {
                    assert(cfg.succ(body@[w as int]).contains(x));
                }
                return false;
            }
            t += 1;
        }
        proof {
            assert forall|x: BasicBlockIdx|
                #[trigger] cfg.succ(body@[w as int]).contains(x) && !body@.contains(x)
                    && dominators@.contains_key(x.0) implies dominators@[x.0].contains(n.0) by {
                let v = choose|v: int| 0 <= v < successors@.len() && successors@[v] == x;
            }
        }
        w += 1;
    }
    true
}

/// Whether the flags have a row for each block of `body`, as long as the
/// block has instructions, and the flag of an instruction is set exactly
/// when the instruction may be moved.
pub open spec fn moves_of(
    cfg: FunctionCfg,
    body: Seq<BasicBlockIdx>,
    dominators: Map<u64, Set<u64>>,
    marks: Seq<Vec<bool>>,
    moves: Seq<Vec<bool>>,
) -> bool {
    &&& flags_fit(cfg, body, moves)
    &&& forall|j: int, i: int|
        0 <= j < body.len() && 0 <= i < moves[j]@.len() ==> (#[trigger] moves[j]@[i] <==> movable(
            cfg,
            body,
            dominators,
            marks,
            j,
            i,
        ))
}

/// The instructions of the loop that may be moved before it.
pub fn select_movable(
    cfg: &FunctionCfg,
    body: &Vec<BasicBlockIdx>,
    dominators: &BlockSets,
    marks: &Vec<Vec<bool>>,
) -> (moves: Vec<Vec<bool>>)
    requires
        cfg.wf(),
        body@.no_duplicates(),
        forall|j: int| 0 <= j < body@.len() ==> cfg.has(#[trigger] body@[j]),
        flags_fit(*cfg, body@, marks@),
    ensures
        moves_of(*cfg, body@, dominators@, marks@, moves@),
{
    let mut moves: Vec<Vec<bool>> = Vec::new();
    let mut j: usize = 0;
    while j < body.len()
        invariant
            j <= body@.len(),
            cfg.wf(),
            body@.no_duplicates(),
            forall|w: int| 0 <= w < body@.len() ==> cfg.has(#[trigger] body@[w]),
            flags_fit(*cfg, body@, marks@),
            moves@.len() == j,
            forall|w: int|
                0 <= w < j ==> (#[trigger] moves@[w])@.len()
                    == cfg.blocks()[body@[w].0].code().len(),
            forall|w: int, i: int|
                0 <= w < j && 0 <= i < moves@[w]@.len() ==> (#[trigger] moves@[w]@[i] <==> movable(
                    *cfg,
                    body@,
                    dominators@,
                    marks@,
                    w,
                    i,
                )),
        decreases body@.len() - j,
    {
        let b = body[j];
        assert(cfg.has(body@[j as int]));
        let mut row: Vec<bool> = Vec::new();
        match cfg.block(b) {
            Some(block) => {
                let ghost code = block.code();
                let mut i: usize = 0;
                while i < block.instructions.len()
                    invariant
                        i <= block.instructions@.len(),
                        j < body@.len(),
                        b == body@[j as int],
                        cfg.wf(),
                        cfg.has(b),
                        *block == cfg.blocks()[b.0],
                        code == block.code(),
                        body@.no_duplicates(),
                        forall|w: int| 0 <= w < body@.len() ==> cfg.has(#[trigger] body@[w]),
                        flags_fit(*cfg, body@, marks@),
                        row@.len() == i,
                        forall|w: int|
                            0 <= w < i ==> (#[trigger] row@[w] <==> movable(
                                *cfg,
                                body@,
                                dominators@,
                                marks@,
                                j as int,
                                w,
                            )),
                    decreases block.instructions@.len() - i,
                {
                    assert(code[i as int] == block.instructions@[i as int]@);
                    assert(marks@[j as int]@.len() == code.len());
                    let flag = if marks[j][i] {
                        match block.instructions[i].kill() {
                            Some(d) => is_unique_definition(cfg, body, j, i, d)
                                && does_dominate_uses(cfg, body, dominators, b, d)
                                && does_dominate_exits(cfg, body, dominators, b),
                            None => false,
                        }
                    } else {
                        false
                    };
                    row.push(flag);
                    i += 1;
                }
            },
            None => {},
        }
        let ghost before = moves@;
        moves.push(row);
        proof {
            assert forall|w: int, i: int|
                0 <= w < j + 1 && 0 <= i < moves@[w]@.len() implies (#[trigger] moves@[w]@[i]
                <==> movable(*cfg, body@, dominators@, marks@, w, i)) by {
                if w < j {
                    assert(moves@[w] == before[w]);
                }
            }
            assert forall|w: int| 0 <= w < j + 1 implies (#[trigger] moves@[w])@.len()
                == cfg.blocks()[body@[w].0].code().len() by {
                if w < j {
                    assert(moves@[w] == before[w]);
                }
            }
        }
        j += 1;
    }
    moves
}

/// The first `upto` instructions of `code` whose flag is `want`.
pub open spec fn picked(code: Seq<InstructionView>, flags: Seq<bool>, upto: int, want: bool) -> Seq<
    InstructionView,
>
    decreases upto,
{
    if upto <= 0 {
        Seq::empty()
    } else if flags[upto - 1] == want {
        picked(code, flags, upto - 1, want).push(code[upto - 1])
    } else {
        picked(code, flags, upto - 1, want)
    }
}

/// Whether the instruction at position `w` of `whole` is one of the first
/// `upto` instructions of `code` with the flag `want`, and the last of
/// `whole` if it is the last of those.
pub open spec fn from_flagged(
    code: Seq<InstructionView>,
    flags: Seq<bool>,
    upto: int,
    want: bool,
    whole: Seq<InstructionView>,
    w: int,
) -> bool {
    exists|i: int|
        0 <= i < upto && flags[i] == want && #[trigger] code[i] == whole[w] && (i == upto - 1 ==> w
            == whole.len() - 1)
}

/// What is picked is made of instructions of the code with that flag, and
/// holds the last instruction as its last if that has the flag.
pub proof fn lemma_picked(code: Seq<InstructionView>, flags: Seq<bool>, upto: int, want: bool)
    requires
        0 <= upto <= code.len(),
        flags.len() == code.len(),
    ensures
        forall|w: int|
            0 <= w < picked(code, flags, upto, want).len() ==> #[trigger] from_flagged(
                code,
                flags,
                upto,
                want,
                picked(code, flags, upto, want),
                w,
            ),
        upto > 0 && flags[upto - 1] == want ==> picked(code, flags, upto, want).len() > 0
            && picked(code, flags, upto, want).last() == code[upto - 1],
    decreases upto,
{
    if upto > 0 {
        lemma_picked(code, flags, upto - 1, want);
        let rest = picked(code, flags, upto - 1, want);
        let whole = picked(code, flags, upto, want);
        assert forall|w: int| 0 <= w < whole.len() implies #[trigger] from_flagged(
            code,
            flags,
            upto,
            want,
            whole,
            w,
        ) by {
            if w < rest.len() {
                assert(from_flagged(code, flags, upto - 1, want, rest, w));
                let i = choose|i: int|
                    0 <= i < upto - 1 && flags[i] == want && #[trigger] code[i] == rest[w] && (i
                        == upto - 2 ==> w == rest.len() - 1);
                assert(code[i] == whole[w]);
            } else {
                assert(code[upto - 1] == whole[w]);
            }
        }
    }
}

/// Takes the flagged instructions out of a block and returns them, in order.
fn split_block(block: &mut BasicBlock, flags: &Vec<bool>) -> (taken: Vec<Instruction>)
    requires
        flags@.len() == old(block).code().len(),
        forall|i: int|
            0 <= i < flags@.len() && flags@[i] ==> !is_terminator(#[trigger] old(block).code()[i]),
    ensures
        final(block).code() == picked(
            old(block).code(),
            flags@,
            old(block).code().len() as int,
            false,
        ),
        views(taken@) == picked(old(block).code(), flags@, old(block).code().len() as int, true),
        forall|i: int| 0 <= i < taken@.len() ==> !is_terminator(#[trigger] taken@[i]@),
        final(block).label == old(block).label,
        final(block).is_entry == old(block).is_entry,
        final(block).exit == old(block).exit,
        old(block).terminated() ==> final(block).terminated(),
{
    let ghost code = block.code();
    let mut stay: Vec<Instruction> = Vec::new();
    let mut go: Vec<Instruction> = Vec::new();
    let mut i: usize = 0;
    proof {
        assert(views(stay@) =~= picked(code, flags@, 0, false));
        assert(views(go@) =~= picked(code, flags@, 0, true));
    }
    while i < block.instructions.len()
        invariant
            i <= block.instructions@.len(),
            code == block.code(),
            *block == *old(block),
            flags@.len() == code.len(),
            views(stay@) == picked(code, flags@, i as int, false),
            views(go@) == picked(code, flags@, i as int, true),
        decreases block.instructions@.len() - i,
    {
        assert(code[i as int] == block.instructions@[i as int]@);
        let copy = block.instructions[i].dup();
        if flags[i] {
            proof {
                lemma_views_push(go@, copy);
            }
            go.push(copy);
        } else {
            proof {
                lemma_views_push(stay@, copy);
            }
            stay.push(copy);
        }
        i += 1;
    }
    proof {
        lemma_picked(code, flags@, code.len() as int, true);
        lemma_picked(code, flags@, code.len() as int, false);
        assert forall|w: int| 0 <= w < go@.len() implies !is_terminator(#[trigger] go@[w]@) by {
            assert(views(go@)[w] == go@[w]@);
            let all = picked(code, flags@, code.len() as int, true);
            assert(from_flagged(code, flags@, code.len() as int, true, all, w));
            let k = choose|k: int|
                0 <= k < code.len() && flags@[k] == true && #[trigger] code[k] == all[w];
        }
    }
    block.instructions = stay;
    proof {
        if old(block).terminated() {
            let left = block.code();
            assert forall|w: int| 0 <= w < left.len() implies #[trigger] comes_from(code, left, w) by {
                assert(from_flagged(code, flags@, code.len() as int, false, left, w));
                let k = choose|k: int|
                    0 <= k < code.len() && flags@[k] == false && #[trigger] code[k] == left[w] && (
                    k == code.len() - 1 ==> w == left.len() - 1);
                assert(code[k] == left[w]);
            }
            if !(old(block).exit is Fallthrough) {
                assert(is_terminator(code[code.len() - 1]));
                assert(!flags@[code.len() - 1]);
            }
            lemma_left_terminated(*old(block), *block);
        }
    }
    go
}

/// The instructions taken out of the first `upto` blocks of `body`, those
/// of a later block before those of an earlier one.
pub open spec fn hoisted(cfg: FunctionCfg, body: Seq<BasicBlockIdx>, moves: Seq<Vec<bool>>, upto: int) -> Seq<
    InstructionView,
>
    decreases upto,
{
    if upto <= 0 {
        Seq::empty()
    } else {
        picked(
            cfg.blocks()[body[upto - 1].0].code(),
            moves[upto - 1]@,
            cfg.blocks()[body[upto - 1].0].code().len() as int,
            true,
        ) + hoisted(cfg, body, moves, upto - 1)
    }
}

/// Whether `after` is `before` with the flagged instructions of the first
/// `upto` blocks of `body` taken out and put at the head of `pre`.
pub open spec fn hoisted_to(
    before: FunctionCfg,
    body: Seq<BasicBlockIdx>,
    pre: BasicBlockIdx,
    moves: Seq<Vec<bool>>,
    upto: int,
    after: FunctionCfg,
) -> bool {
    &&& same_shape(before, after)
    &&& after.blocks()[pre.0].code() == hoisted(before, body, moves, upto)
        + before.blocks()[pre.0].code()
    &&& forall|j: int|
        0 <= j < upto ==> (#[trigger] after.blocks()[body[j].0]).code() == picked(
            before.blocks()[body[j].0].code(),
            moves[j]@,
            before.blocks()[body[j].0].code().len() as int,
            false,
        )
    &&& forall|j: int|
        upto <= j < body.len() ==> (#[trigger] after.blocks()[body[j].0])
            == before.blocks()[body[j].0]
    &&& forall|n: u64|
        before.blocks().dom().contains(n) && n != pre.0 && !body.contains(BasicBlockIdx(n))
            ==> #[trigger] after.blocks()[n] == before.blocks()[n]
}

/// Takes the flagged instructions out of the blocks of the loop and puts
/// them at the head of the block before the loop, those of each block in
/// order, and before those taken out of earlier blocks.
pub fn hoist(
    cfg: &mut FunctionCfg,
    body: &Vec<BasicBlockIdx>,
    preheader: BasicBlockIdx,
    moves: &Vec<Vec<bool>>,
)
    requires
        old(cfg).wf(),
        body@.no_duplicates(),
        forall|j: int| 0 <= j < body@.len() ==> old(cfg).has(#[trigger] body@[j]),
        old(cfg).has(preheader),
        !body@.contains(preheader),
        flags_fit(*old(cfg), body@, moves@),
        forall|j: int, i: int|
            0 <= j < body@.len() && 0 <= i < moves@[j]@.len() && #[trigger] moves@[j]@[i]
                ==> old(cfg).blocks()[body@[j].0].code()[i].kill() is Some,
    ensures
        final(cfg).wf(),
        hoisted_to(*old(cfg), body@, preheader, moves@, body@.len() as int, *final(cfg)),
        old(cfg).terminated() ==> final(cfg).terminated(),
        old(cfg).labels_unique() ==> final(cfg).labels_unique(),
{
    let ghost before = *cfg;
    let mut j: usize = 0;
    proof {
        assert(hoisted(before, body@, moves@, 0) + before.blocks()[preheader.0].code()
            =~= before.blocks()[preheader.0].code());
    }
    while j < body.len()
        invariant
            j <= body@.len(),
            before.wf(),
            cfg.wf(),
            body@.no_duplicates(),
            forall|w: int| 0 <= w < body@.len() ==> before.has(#[trigger] body@[w]),
            before.has(preheader),
            !body@.contains(preheader),
            flags_fit(before, body@, moves@),
            forall|w: int, i: int|
                0 <= w < body@.len() && 0 <= i < moves@[w]@.len() && #[trigger] moves@[w]@[i]
                    ==> before.blocks()[body@[w].0].code()[i].kill() is Some,
            hoisted_to(before, body@, preheader, moves@, j as int, *cfg),
            before.terminated() ==> cfg.terminated(),
        decreases body@.len() - j,
    {
        let b = body[j];
        let ghost mid = *cfg;
        proof {
            assert(before.has(b));
            assert(cfg.blocks()[body@[j as int].0] == before.blocks()[b.0]);
            assert(canonical(b.0) == b.0);
            assert(canonical(preheader.0) == preheader.0);
            assert forall|i: int| 0 <= i < moves@[j as int]@.len() && moves@[j as int]@[i] implies !is_terminator(
                #[trigger] before.blocks()[b.0].code()[i],
            ) by {
                assert(before.blocks()[body@[j as int].0].code()[i].kill() is Some);
            }
            assert(b != preheader) by {
                assert(body@.contains(b));
            }
        }
        let block = store_get_mut(&mut cfg.vertices, b);
        let taken = split_block(block, &moves[j]);
        let ghost half = *cfg;
        let pre = store_get_mut(&mut cfg.vertices, preheader);
        prepend(pre, taken);
        proof {
            assert(half.blocks().dom() =~= mid.blocks().dom());
            assert(cfg.blocks().dom() =~= mid.blocks().dom());
            assert(same_shape(mid, half));
            assert(same_shape(half, *cfg));
            lemma_same_shape_chain(mid, half, *cfg);
            lemma_same_shape_chain(before, mid, *cfg);
            lemma_same_shape(before, *cfg);
            let go = picked(
                before.blocks()[b.0].code(),
                moves@[j as int]@,
                before.blocks()[b.0].code().len() as int,
                true,
            );
            assert(cfg.blocks()[preheader.0].code() == go + mid.blocks()[preheader.0].code());
            assert(go + (hoisted(before, body@, moves@, j as int)
                + before.blocks()[preheader.0].code()) =~= (go + hoisted(
                before,
                body@,
                moves@,
                j as int,
            )) + before.blocks()[preheader.0].code());
            assert forall|w: int| 0 <= w < j + 1 implies (#[trigger] cfg.blocks()[body@[w].0]).code()
                == picked(
                before.blocks()[body@[w].0].code(),
                moves@[w]@,
                before.blocks()[body@[w].0].code().len() as int,
                false,
            ) by {
                assert(body@.contains(body@[w]));
                if w < j {
                    assert(body@[w] != body@[j as int]);
                    assert(cfg.blocks()[body@[w].0] == mid.blocks()[body@[w].0]);
                }
            }
            assert forall|w: int| j + 1 <= w < body@.len() implies (
            #[trigger] cfg.blocks()[body@[w].0]) == before.blocks()[body@[w].0] by {
                assert(body@.contains(body@[w]));
                assert(body@[w] != body@[j as int]);
                assert(cfg.blocks()[body@[w].0] == mid.blocks()[body@[w].0]);
            }
            assert forall|n: u64|
                before.blocks().dom().contains(n) && n != preheader.0 && !body@.contains(
                    BasicBlockIdx(n),
                ) implies #[trigger] cfg.blocks()[n] == before.blocks()[n] by {
                assert(n != b.0) by {
                    assert(body@.contains(b));
                    assert(b == BasicBlockIdx(b.0));
                }
                assert(cfg.blocks()[n] == mid.blocks()[n]);
            }
            if before.terminated() {
                assert forall|n: u64| #[trigger] cfg.blocks().dom().contains(n) implies cfg.blocks()[n].terminated() by {
                    assert(mid.blocks().dom().contains(n));
                    assert(mid.blocks()[n].terminated());
                    if n != b.0 && n != preheader.0 {
                        assert(cfg.blocks()[n] == mid.blocks()[n]);
                    }
                }
            }
        }
        j += 1;
    }
    proof {
        lemma_same_shape(before, *cfg);
    }
}

/// Whether `after` is the graph `before` with the loop-invariant
/// instructions of the loop moved into the block before the loop, and the
/// back edge, which led to that block, led back to the header: the marks are
/// the loop-invariant instructions under the reaching definitions of
/// `before`, the instructions moved are the marked ones that may be moved, and
/// `moved` is `before` with those taken out of their blocks and put at the
/// head of the block before the loop.
pub open spec fn licm_of(
    before: FunctionCfg,
    natural: NaturalLoopWithPreheader,
    dominators: Map<u64, Set<u64>>,
    reach: Map<u64, Set<DefinitionView>>,
    marks: Seq<Vec<bool>>,
    moves: Seq<Vec<bool>>,
    moved: FunctionCfg,
    after: FunctionCfg,
) -> bool {
    let body = natural.body@;
    let t = natural.backedge_start;
    &&& solves(ReachingDefinitions, before, Direction::Forward, entry_definitions(before), reach)
    &&& flags_fit(before, body, marks)
    &&& loop_invariants(before, reach, numbers(body), marked_set(body, marks))
    &&& moves_of(before, body, dominators, marks, moves)
    &&& hoisted_to(before, body, natural.preheader, moves, body.len() as int, moved)
    &&& after.entry == moved.entry
    &&& after.signature == moved.signature
    &&& after.blocks().dom() == moved.blocks().dom()
    &&& forall|n: u64|
        n != t.0 && moved.blocks().dom().contains(n) ==> #[trigger] after.blocks()[n]
            == moved.blocks()[n] && after.edges@[n] == moved.edges@[n]
    &&& after.edges@[t.0] == redirected(moved.edges@[t.0], natural.preheader, natural.header)
    &&& relabeled(
        moved.blocks()[t.0],
        moved.edges@[t.0],
        natural.preheader,
        moved.blocks()[natural.header.0].label_text()->0,
        after.blocks()[t.0],
    )
}

/// Loop-invariant code motion for one loop with a block before its header.
///
/// With the reaching definitions of the function, the loop-invariant
/// instructions of the loop are marked; of those, the ones that alone define
/// their variable in the loop, in a block that dominates the blocks of the
/// loop that read the variable and the exits of the loop, are moved to the
/// head of the block before the loop. Then the back edge is led back from
/// that block to the header.
pub fn loop_invariant_code_motion(
    cfg: &mut FunctionCfg,
    natural: &NaturalLoopWithPreheader,
    dominators: &BlockSets,
)
    requires
        old(cfg).wf(),
        old(cfg).terminated(),
        natural.body@.no_duplicates(),
        forall|j: int| 0 <= j < natural.body@.len() ==> old(cfg).has(#[trigger] natural.body@[j]),
        old(cfg).has(natural.preheader),
        !natural.body@.contains(natural.preheader),
        old(cfg).has(natural.header),
        old(cfg).blocks()[natural.header.0].label is Some,
        old(cfg).has(natural.backedge_start),
        !(old(cfg).blocks()[natural.backedge_start.0].exit is Fallthrough),
    ensures
        final(cfg).wf(),
        final(cfg).terminated(),
        final(cfg).blocks().dom() == old(cfg).blocks().dom(),
        forall|n: u64| #[trigger]
            old(cfg).blocks().dom().contains(n) ==> (final(cfg).blocks()[n].exit is Fallthrough
                <==> old(cfg).blocks()[n].exit is Fallthrough) && final(cfg).blocks()[n].label
                == old(cfg).blocks()[n].label,
        exists|
            reach: Map<u64, Set<DefinitionView>>,
            marks: Seq<Vec<bool>>,
            moves: Seq<Vec<bool>>,
            moved: FunctionCfg,
        | #[trigger]
            licm_of(*old(cfg), *natural, dominators@, reach, marks, moves, moved, *final(cfg)),
{
    let ghost before = *cfg;
    let reaching = compute_reaching_definitions(cfg);
    let marks = mark_loop_invariants(cfg, &reaching, &natural.body);
    let moves = select_movable(cfg, &natural.body, dominators, &marks);
    hoist(cfg, &natural.body, natural.preheader, &moves);
    let ghost moved = *cfg;
    proof {
        let t = natural.backedge_start;
        assert(moved.blocks().dom().contains(t.0));
        assert(moved.blocks()[t.0].exit == before.blocks()[t.0].exit);
        assert(moved.blocks()[natural.header.0].label == before.blocks()[natural.header.0].label);
        assert(moved.blocks()[t.0].terminated());
        lemma_same_shape(before, moved);
    }
    cfg.reorient_edge(natural.backedge_start, natural.preheader, natural.header);
    proof {
        assert(licm_of(
            before,
            *natural,
            dominators@,
            solution_view(reaching),
            marks@,
            moves@,
            moved,
            *cfg,
        ));
        assert forall|n: u64| #[trigger] before.blocks().dom().contains(n) implies (
        cfg.blocks()[n].exit is Fallthrough <==> before.blocks()[n].exit is Fallthrough)
            && cfg.blocks()[n].label == before.blocks()[n].label by {
            assert(moved.blocks().dom().contains(n));
            if n != natural.backedge_start.0 {
                assert(cfg.blocks()[n] == moved.blocks()[n]);
            }
        }
    }
}

/// The natural loops of the graph, one for each back edge.
pub fn find_natural_loops(cfg: &FunctionCfg, dominators: &BlockSets) -> (r: Vec<NaturalLoop>)
    requires
        cfg.wf(),
    ensures
        forall|i: int|
            0 <= i < r@.len() ==> {
                &&& back_edge(
                    *cfg,
                    dominators@,
                    (#[trigger] r@[i]).backedge_start,
                    r@[i].header,
                )
                &&& r@[i].body@.no_duplicates()
                &&& natural_loop_of(
                    *cfg,
                    r@[i].backedge_start,
                    r@[i].header,
                    numbers(r@[i].body@),
                )
                &&& forall|j: int| 0 <= j < r@[i].body@.len() ==> cfg.has(#[trigger] r@[i].body@[j])
            },
        forall|t: BasicBlockIdx, h: BasicBlockIdx|
            back_edge(*cfg, dominators@, t, h) ==> exists|i: int|
                0 <= i < r@.len() && (#[trigger] r@[i]).backedge_start == t && r@[i].header == h,
        forall|p: int, q: int|
            0 <= p < q < r@.len() ==> edge_before(
                *cfg,
                ((#[trigger] r@[p]).backedge_start, r@[p].header),
                ((#[trigger] r@[q]).backedge_start, r@[q].header),
            ),
        forall|i: int, a: int, b: int|
            0 <= i < r@.len() && 0 <= a < b < r@[i].body@.len() ==> crate::store::slot_of(
                #[trigger] r@[i].body@[a].0,
            ) < crate::store::slot_of(#[trigger] r@[i].body@[b].0),
{
    let edges = find_back_edges(cfg, dominators);
    let mut out: Vec<NaturalLoop> = Vec::new();
    let mut i: usize = 0;
    while i < edges.len()
        invariant
            i <= edges@.len(),
            cfg.wf(),
            forall|t: BasicBlockIdx, h: BasicBlockIdx|
                #[trigger] edges@.contains((t, h)) <==> back_edge(*cfg, dominators@, t, h),
            out@.len() == i,
            forall|w: int, a: int, b: int|
                0 <= w < i && 0 <= a < b < out@[w].body@.len() ==> crate::store::slot_of(
                    #[trigger] out@[w].body@[a].0,
                ) < crate::store::slot_of(#[trigger] out@[w].body@[b].0),
            forall|w: int|
                0 <= w < i ==> {
                    &&& (#[trigger] out@[w]).backedge_start == edges@[w].0
                    &&& out@[w].header == edges@[w].1
                    &&& out@[w].body@.no_duplicates()
                    &&& natural_loop_of(
                        *cfg,
                        out@[w].backedge_start,
                        out@[w].header,
                        numbers(out@[w].body@),
                    )
                    &&& forall|j: int|
                        0 <= j < out@[w].body@.len() ==> cfg.has(#[trigger] out@[w].body@[j])
                },
        decreases edges@.len() - i,
    {
        let (t, h) = edges[i];
        proof {
            assert(edges@.contains((t, h)));
            assert(back_edge(*cfg, dominators@, t, h));
            lemma_targets_exist(*cfg, t, h);
        }
        out.push(natural_loop(cfg, t, h));
        i += 1;
    }
    proof {
        assert forall|p: int, q: int| 0 <= p < q < out@.len() implies edge_before(
            *cfg,
            ((#[trigger] out@[p]).backedge_start, out@[p].header),
            ((#[trigger] out@[q]).backedge_start, out@[q].header),
        ) by {
            assert(edge_before(*cfg, edges@[p], edges@[q]));
            assert(edges@[p] == (out@[p].backedge_start, out@[p].header));
            assert(edges@[q] == (out@[q].backedge_start, out@[q].header));
        }
        assert forall|w: int| 0 <= w < out@.len() implies back_edge(
            *cfg,
            dominators@,
            (#[trigger] out@[w]).backedge_start,
            out@[w].header,
        ) by {
            assert(edges@.contains(edges@[w]));
        }
        assert forall|t: BasicBlockIdx, h: BasicBlockIdx|
            back_edge(*cfg, dominators@, t, h) implies exists|i: int|
            0 <= i < out@.len() && (#[trigger] out@[i]).backedge_start == t && out@[i].header
                == h by {
            assert(edges@.contains((t, h)));
            let w = choose|w: int| 0 <= w < edges@.len() && edges@[w] == (t, h);
            assert(out@[w].backedge_start == t);
        }
    }
    out
}

} // verus!
