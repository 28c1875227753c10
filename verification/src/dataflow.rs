//! Traversal of the graph and the worklist solver for dataflow analyses.

use vstd::prelude::*;
use std::collections::{HashMap, HashSet};
use crate::store::{BasicBlock, BasicBlockIdx};
use crate::cfg::{FunctionCfg, lemma_targets_exist};
use crate::factset::{Fact, FactSet};

verus! {

broadcast use vstd::std_specs::hash::group_hash_axioms;

/// The direction in which facts flow.
#[derive(Clone, Copy, Debug, PartialEq, Eq, Structural)]
pub enum Direction {
    Forward,
    Backward,
}

/// The blocks of `cfg` that are not in `visited`.
pub open spec fn unvisited(cfg: FunctionCfg, visited: Set<u64>) -> Set<u64> {
    cfg.blocks().dom().difference(visited)
}

/// A depth-first walk from `node` that passes over what is in `visited`:
/// the blocks visited afterwards, and the newly visited blocks, each listed
/// when the walk through its successors is over.
pub open spec fn dfs_node(cfg: FunctionCfg, node: BasicBlockIdx, visited: Set<u64>) -> (
    Set<u64>,
    Seq<BasicBlockIdx>,
)
    decreases unvisited(cfg, visited).len(), 0nat,
    when cfg.blocks().dom().finite()
{
    if !cfg.has(node) || visited.contains(node.0) {
        (visited, Seq::empty())
    } else {
        let marked = visited.insert(node.0);
        proof {
            vstd::set_lib::lemma_set_subset_finite(cfg.blocks().dom(), unvisited(cfg, visited));
            assert(unvisited(cfg, marked) =~= unvisited(cfg, visited).remove(node.0));
        }
        let (after, out) = dfs_succs(cfg, cfg.succ(node), 0, marked);
        (after, out.push(node))
    }
}

/// The walk of [`dfs_node`] through the successors `succs` from position
/// `idx` on, in order.
pub open spec fn dfs_succs(
    cfg: FunctionCfg,
    succs: Seq<BasicBlockIdx>,
    idx: int,
    visited: Set<u64>,
) -> (Set<u64>, Seq<BasicBlockIdx>)
    decreases unvisited(cfg, visited).len(), (succs.len() - idx + 1) as nat,
    when cfg.blocks().dom().finite() && 0 <= idx
{
    if idx >= succs.len() {
        (visited, Seq::empty())
    } else {
        let (below, first) = dfs_node(cfg, succs[idx], visited);
        let seen = below.union(visited);
        proof {
            vstd::set_lib::lemma_set_subset_finite(cfg.blocks().dom(), unvisited(cfg, visited));
            vstd::set_lib::lemma_len_subset(unvisited(cfg, seen), unvisited(cfg, visited));
        }
        let (after, rest) = dfs_succs(cfg, succs, idx + 1, seen);
        (after, first + rest)
    }
}

/// The blocks that can be reached from the entry, each listed after the
/// walk through its successors: the depth-first postorder.
pub open spec fn postorder(cfg: FunctionCfg) -> Seq<BasicBlockIdx> {
    dfs_node(cfg, cfg.entry, Set::empty()).1
}

/// The depth-first walk of [`dfs_node`].
fn visit(
    cfg: &FunctionCfg,
    current: BasicBlockIdx,
    visited: &mut HashSet<u64>,
    traversal: &mut Vec<BasicBlockIdx>,
)
    requires
        cfg.wf(),
        cfg.has(current),
        !old(visited)@.contains(current.0),
    ensures
        final(visited)@ == dfs_node(*cfg, current, old(visited)@).0,
        final(traversal)@ == old(traversal)@ + dfs_node(*cfg, current, old(visited)@).1,
        old(visited)@.subset_of(final(visited)@),
    decreases unvisited(*cfg, old(visited)@).len(),
{
    let ghost before = visited@;
    let ghost listed = traversal@;
    visited.insert(current.0);
    let ghost marked = visited@;
    let successors = cfg.successors(current);
    proof {
        vstd::set_lib::lemma_set_subset_finite(cfg.blocks().dom(), unvisited(*cfg, before));
        assert(unvisited(*cfg, marked) =~= unvisited(*cfg, before).remove(current.0));
        assert(listed + Seq::<BasicBlockIdx>::empty() =~= listed);
    }
    let ghost expected = dfs_succs(*cfg, successors@, 0, marked);
    let ghost mut done: Seq<BasicBlockIdx> = Seq::empty();
    let mut i: usize = 0;
    while i < successors.len()
        invariant
            i <= successors@.len(),
            cfg.wf(),
            cfg.has(current),
            successors@ == cfg.succ(current),
            marked.subset_of(visited@),
            unvisited(*cfg, marked).len() < unvisited(*cfg, before).len(),
            before == old(visited)@,
            traversal@ == listed + done,
            expected.0 == dfs_succs(*cfg, successors@, i as int, visited@).0,
            expected.1 == done + dfs_succs(*cfg, successors@, i as int, visited@).1,
        decreases successors@.len() - i,
    {
        let next = successors[i];
        let ghost here = visited@;
        let ghost so_far = traversal@;
        proof {
            assert(cfg.succ(current).contains(next));
            lemma_targets_exist(*cfg, current, next);
        }
        if !visited.contains(&next.0) {
            proof {
                vstd::set_lib::lemma_set_subset_finite(cfg.blocks().dom(), unvisited(*cfg, marked));
                assert(unvisited(*cfg, here).subset_of(unvisited(*cfg, marked)));
                vstd::set_lib::lemma_len_subset(unvisited(*cfg, here), unvisited(*cfg, marked));
                assert(unvisited(*cfg, visited@).len() < unvisited(*cfg, before).len());
            }
            visit(cfg, next, visited, traversal);
        }
        proof {
            let (below, first) = dfs_node(*cfg, next, here);
            assert(visited@ == below);
            assert(below.union(here) =~= below);
            assert(traversal@ == so_far + first) by {
                assert(so_far + Seq::<BasicBlockIdx>::empty() =~= so_far);
            }
            let (after, rest) = dfs_succs(*cfg, successors@, i + 1, below);
            assert(dfs_succs(*cfg, successors@, i as int, here) == (after, first + rest));
            assert(done + (first + rest) =~= (done + first) + rest);
            assert(listed + (done + first) =~= (listed + done) + first);
            done = done + first;
        }
        i += 1;
    }
    traversal.push(current);
    proof {
        assert(dfs_succs(*cfg, successors@, successors@.len() as int, visited@).1
            =~= Seq::<BasicBlockIdx>::empty());
        assert(done + Seq::<BasicBlockIdx>::empty() =~= done);
        assert((listed + done).push(current) =~= listed + done.push(current));
    }
}

/// The depth-first postorder of the blocks that can be reached from the
/// entry, successors taken in the order true, false.
pub fn construct_postorder(cfg: &FunctionCfg) -> (traversal: Vec<BasicBlockIdx>)
    requires
        cfg.wf(),
    ensures
        traversal@ == postorder(*cfg),
{
    let mut traversal: Vec<BasicBlockIdx> = Vec::new();
    let mut visited: HashSet<u64> = HashSet::new();
    visit(cfg, cfg.entry, &mut visited, &mut traversal);
    assert(Seq::<BasicBlockIdx>::empty() + postorder(*cfg) =~= postorder(*cfg));
    traversal
}

/// A dataflow analysis: how facts pass through a block.
pub trait Analysis {
    /// The facts of the analysis.
    type Fact: Fact;

    /// The facts on the far side of `block`, given those on the near side.
    spec fn transfer_spec(
        &self,
        block: BasicBlock,
        idx: BasicBlockIdx,
        input: Set<<Self::Fact as View>::V>,
    ) -> Set<<Self::Fact as View>::V>;

    /// All facts that the analysis can meet in `cfg`.
    spec fn universe(&self, cfg: FunctionCfg) -> Set<<Self::Fact as View>::V>;

    /// More facts in give no fewer facts out.
    proof fn lemma_monotone(
        &self,
        block: BasicBlock,
        idx: BasicBlockIdx,
        small: Set<<Self::Fact as View>::V>,
        large: Set<<Self::Fact as View>::V>,
    )
        requires
            small.subset_of(large),
        ensures
            self.transfer_spec(block, idx, small).subset_of(self.transfer_spec(block, idx, large)),
    ;

    /// The facts of a graph are finitely many, and no block leads out of them.
    proof fn lemma_universe(
        &self,
        cfg: FunctionCfg,
        k: BasicBlockIdx,
        input: Set<<Self::Fact as View>::V>,
    )
        requires
            cfg.wf(),
            cfg.has(k),
            input.subset_of(self.universe(cfg)),
        ensures
            self.universe(cfg).finite(),
            self.transfer_spec(cfg.blocks()[k.0], k, input).subset_of(self.universe(cfg)),
    ;

    /// Passes facts through a block.
    fn transfer(&self, block: &BasicBlock, idx: BasicBlockIdx, input: FactSet<Self::Fact>) -> (r:
        FactSet<Self::Fact>)
        requires
            input.wf(),
        ensures
            r.wf(),
            r@ == self.transfer_spec(*block, idx, input@),
    ;
}

/// The blocks whose facts flow into `b`: its predecessors in a forward
/// analysis, its successors in a backward one.
pub open spec fn merge_neighbors(cfg: FunctionCfg, direction: Direction, b: BasicBlockIdx) -> Seq<
    BasicBlockIdx,
> {
    match direction {
        Direction::Forward => cfg.preds(b),
        Direction::Backward => cfg.succ(b),
    }
}

/// The blocks into which the facts of `b` flow.
pub open spec fn spread_neighbors(cfg: FunctionCfg, direction: Direction, b: BasicBlockIdx) -> Seq<
    BasicBlockIdx,
> {
    match direction {
        Direction::Forward => cfg.succ(b),
        Direction::Backward => cfg.preds(b),
    }
}

/// The block that is visited first, which receives the entry facts: the
/// last of the postorder in a forward analysis, the first in a backward one.
pub open spec fn first_block(cfg: FunctionCfg, direction: Direction) -> BasicBlockIdx {
    match direction {
        Direction::Forward => postorder(cfg).last(),
        Direction::Backward => postorder(cfg)[0],
    }
}

/// The facts that flow into `b` from its neighbors in `s`, with the entry
/// facts where `b` is the first block.
pub open spec fn flow_in<V>(
    cfg: FunctionCfg,
    direction: Direction,
    entry: Set<V>,
    s: Map<u64, Set<V>>,
    b: BasicBlockIdx,
) -> Set<V> {
    Set::new(
        |v: V|
            (b == first_block(cfg, direction) && entry.contains(v)) || exists|i: int|
                0 <= i < merge_neighbors(cfg, direction, b).len() && (#[trigger] s[merge_neighbors(
                    cfg,
                    direction,
                    b,
                )[i].0]).contains(v),
    )
}

/// The sets of a solution.
pub open spec fn solution_view<T: Fact>(m: HashMap<u64, FactSet<T>>) -> Map<u64, Set<T::V>> {
    Map::new(|k: u64| m@.contains_key(k), |k: u64| m@[k]@)
}

/// Whether `b` is a block that can be reached from the entry.
pub open spec fn live_block(cfg: FunctionCfg, b: BasicBlockIdx) -> bool {
    cfg.has(b) && postorder(cfg).contains(b)
}

/// Whether the set that `s` gives `b` is what the facts flowing into `b`
/// become on passing through it.
pub open spec fn balanced<A: Analysis>(
    analysis: A,
    cfg: FunctionCfg,
    direction: Direction,
    entry: Set<<A::Fact as View>::V>,
    s: Map<u64, Set<<A::Fact as View>::V>>,
    b: BasicBlockIdx,
) -> bool {
    s[b.0] == analysis.transfer_spec(cfg.blocks()[b.0], b, flow_in(cfg, direction, entry, s, b))
}

/// Whether in `s` no reachable block lacks a fact that flows through it.
pub open spec fn closed_under_flow<A: Analysis>(
    analysis: A,
    cfg: FunctionCfg,
    direction: Direction,
    entry: Set<<A::Fact as View>::V>,
    s: Map<u64, Set<<A::Fact as View>::V>>,
) -> bool {
    forall|b: BasicBlockIdx| #[trigger]
        live_block(cfg, b) ==> analysis.transfer_spec(
            cfg.blocks()[b.0],
            b,
            flow_in(cfg, direction, entry, s, b),
        ).subset_of(s[b.0])
}

/// Whether each set of `small` is within that of `large`, block by block.
pub open spec fn pointwise_within<V>(
    cfg: FunctionCfg,
    small: Map<u64, Set<V>>,
    large: Map<u64, Set<V>>,
) -> bool {
    forall|n: u64| #[trigger] cfg.blocks().dom().contains(n) ==> small[n].subset_of(large[n])
}

/// Whether `s` is the solution of the analysis: every block has a set;
/// that of a block that cannot be reached from the entry is empty; that of
/// any other block is what flows into it, passed through it; and no
/// assignment of sets that is closed under the flow has a smaller set for
/// any block.
pub open spec fn solves<A: Analysis>(
    analysis: A,
    cfg: FunctionCfg,
    direction: Direction,
    entry: Set<<A::Fact as View>::V>,
    s: Map<u64, Set<<A::Fact as View>::V>>,
) -> bool {
    &&& s.dom() == cfg.blocks().dom()
    &&& forall|b: BasicBlockIdx|
        cfg.has(b) && !postorder(cfg).contains(b) ==> #[trigger] s[b.0] == Set::<
            <A::Fact as View>::V,
        >::empty()
    &&& forall|b: BasicBlockIdx| #[trigger]
        live_block(cfg, b) ==> balanced(analysis, cfg, direction, entry, s, b)
    &&& forall|other: Map<u64, Set<<A::Fact as View>::V>>| #[trigger]
        closed_under_flow(analysis, cfg, direction, entry, other) ==> pointwise_within(
            cfg,
            s,
            other,
        )
}

/// A block's neighbors in the flow are blocks, and `c` flows into `b`
/// exactly when `b` is among the blocks into which `c` spreads.
pub proof fn lemma_neighbors(cfg: FunctionCfg, direction: Direction, b: BasicBlockIdx, c: BasicBlockIdx)
    requires
        cfg.wf(),
        cfg.has(b),
    ensures
        merge_neighbors(cfg, direction, b).contains(c) ==> cfg.has(c),
        spread_neighbors(cfg, direction, b).contains(c) ==> cfg.has(c),
        cfg.has(c) ==> (merge_neighbors(cfg, direction, b).contains(c) <==> spread_neighbors(
            cfg,
            direction,
            c,
        ).contains(b)),
{
    assert(cfg.preds(b).contains(c) <==> cfg.has(c) && cfg.succ(c).contains(b));
    if cfg.succ(b).contains(c) {
        lemma_targets_exist(cfg, b, c);
    }
    if cfg.has(c) {
        assert(cfg.preds(c).contains(b) <==> cfg.has(b) && cfg.succ(b).contains(c));
    }
}

/// Larger sets flow into larger sets.
pub proof fn lemma_flow_monotone<V>(
    cfg: FunctionCfg,
    direction: Direction,
    entry: Set<V>,
    small: Map<u64, Set<V>>,
    large: Map<u64, Set<V>>,
    b: BasicBlockIdx,
)
    requires
        cfg.wf(),
        cfg.has(b),
        pointwise_within(cfg, small, large),
    ensures
        flow_in(cfg, direction, entry, small, b).subset_of(
            flow_in(cfg, direction, entry, large, b),
        ),
{
    let nbrs = merge_neighbors(cfg, direction, b);
    assert forall|v: V| flow_in(cfg, direction, entry, small, b).contains(v) implies flow_in(
        cfg,
        direction,
        entry,
        large,
        b,
    ).contains(v) by {
        if !(b == first_block(cfg, direction) && entry.contains(v)) {
            let i = choose|i: int| 0 <= i < nbrs.len() && (#[trigger] small[nbrs[i].0]).contains(v);
            assert(nbrs.contains(nbrs[i]));
            lemma_neighbors(cfg, direction, b, nbrs[i]);
            assert(cfg.blocks().dom().contains(nbrs[i].0));
            assert(large[nbrs[i].0].contains(v));
        }
    }
}

/// The set of a block that does not flow into `b` does not matter to what
/// flows into `b`.
pub proof fn lemma_flow_unchanged<V>(
    cfg: FunctionCfg,
    direction: Direction,
    entry: Set<V>,
    s: Map<u64, Set<V>>,
    c: BasicBlockIdx,
    x: Set<V>,
    b: BasicBlockIdx,
)
    requires
        !merge_neighbors(cfg, direction, b).contains(c),
    ensures
        flow_in(cfg, direction, entry, s.insert(c.0, x), b) == flow_in(cfg, direction, entry, s, b),
{
    let nbrs = merge_neighbors(cfg, direction, b);
    let s2 = s.insert(c.0, x);
    assert forall|v: V| flow_in(cfg, direction, entry, s2, b).contains(v) <==> flow_in(
        cfg,
        direction,
        entry,
        s,
        b,
    ).contains(v) by {
        if exists|i: int| 0 <= i < nbrs.len() && (#[trigger] s2[nbrs[i].0]).contains(v) {
            let i = choose|i: int| 0 <= i < nbrs.len() && (#[trigger] s2[nbrs[i].0]).contains(v);
            assert(nbrs.contains(nbrs[i]));
            assert(nbrs[i] != c);
            assert(s[nbrs[i].0].contains(v));
        }
        if exists|i: int| 0 <= i < nbrs.len() && (#[trigger] s[nbrs[i].0]).contains(v) {
            let i = choose|i: int| 0 <= i < nbrs.len() && (#[trigger] s[nbrs[i].0]).contains(v);
            assert(nbrs.contains(nbrs[i]));
            assert(nbrs[i] != c);
            assert(s2[nbrs[i].0].contains(v));
        }
    }
    assert(flow_in(cfg, direction, entry, s2, b) =~= flow_in(cfg, direction, entry, s, b));
}

/// The number of facts that `s` gives the blocks `keys`, all together.
pub open spec fn total_facts<V>(s: Map<u64, Set<V>>, keys: Seq<BasicBlockIdx>) -> nat
    decreases keys.len(),
{
    if keys.len() == 0 {
        0
    } else {
        total_facts(s, keys.drop_last()) + s[keys.last().0].len()
    }
}

/// Sets within a finite universe have no more facts in total than the
/// universe has for each block.
pub proof fn lemma_total_bound<V>(s: Map<u64, Set<V>>, keys: Seq<BasicBlockIdx>, universe: Set<V>)
    requires
        universe.finite(),
        forall|i: int| 0 <= i < keys.len() ==> (#[trigger] s[keys[i].0]).subset_of(universe),
    ensures
        total_facts(s, keys) <= keys.len() * universe.len(),
    decreases keys.len(),
{
    if keys.len() > 0 {
        let rest = keys.drop_last();
        assert forall|i: int| 0 <= i < rest.len() implies (#[trigger] s[rest[i].0]).subset_of(
            universe,
        ) by {
            assert(rest[i] == keys[i]);
        }
        lemma_total_bound(s, rest, universe);
        assert(s[keys[keys.len() - 1].0].subset_of(universe));
        vstd::set_lib::lemma_len_subset(s[keys.last().0], universe);
        assert(keys.len() * universe.len() == rest.len() * universe.len() + universe.len())
            by (nonlinear_arith)
            requires
                keys.len() == rest.len() + 1,
        ;
    }
}

/// Sets of a finite universe, one for each block, have no more facts in
/// total than the universe has for each block.
pub proof fn lemma_bounded_total<V>(
    cfg: FunctionCfg,
    s: Map<u64, Set<V>>,
    keys: Seq<BasicBlockIdx>,
    universe: Set<V>,
)
    requires
        universe.finite(),
        bounded(cfg, s, universe),
        forall|k: BasicBlockIdx| #[trigger] keys.contains(k) <==> cfg.has(k),
    ensures
        total_facts(s, keys) <= keys.len() * universe.len(),
{
    assert forall|i: int| 0 <= i < keys.len() implies (#[trigger] s[keys[i].0]).subset_of(
        universe,
    ) by {
        assert(keys.contains(keys[i]));
        assert(cfg.blocks().dom().contains(keys[i].0));
    }
    lemma_total_bound(s, keys, universe);
}

/// The set of a block that `keys` does not list does not count.
pub proof fn lemma_total_apart<V>(
    s: Map<u64, Set<V>>,
    keys: Seq<BasicBlockIdx>,
    b: BasicBlockIdx,
    x: Set<V>,
)
    requires
        !keys.contains(b),
    ensures
        total_facts(s.insert(b.0, x), keys) == total_facts(s, keys),
    decreases keys.len(),
{
    if keys.len() > 0 {
        assert(!keys.drop_last().contains(b)) by {
            if keys.drop_last().contains(b) {
                let i = choose|i: int| 0 <= i < keys.drop_last().len() && keys.drop_last()[i] == b;
                assert(keys[i] == b);
            }
        }
        lemma_total_apart(s, keys.drop_last(), b, x);
        assert(keys[keys.len() - 1] != b);
    }
}

/// A strictly larger set for one listed block makes the total larger.
pub proof fn lemma_total_grows<V>(
    s: Map<u64, Set<V>>,
    keys: Seq<BasicBlockIdx>,
    b: BasicBlockIdx,
    x: Set<V>,
)
    requires
        keys.no_duplicates(),
        keys.contains(b),
        x.finite(),
        s[b.0].subset_of(x),
        s[b.0] != x,
    ensures
        total_facts(s.insert(b.0, x), keys) > total_facts(s, keys),
    decreases keys.len(),
{
    let rest = keys.drop_last();
    if keys.last() == b {
        assert(!rest.contains(b)) by {
            if rest.contains(b) {
                let i = choose|i: int| 0 <= i < rest.len() && rest[i] == b;
                assert(keys[i] == keys[keys.len() - 1]);
            }
        }
        lemma_total_apart(s, rest, b, x);
        vstd::set_lib::lemma_len_subset(s[b.0], x);
        if s[b.0].len() == x.len() {
            vstd::set_lib::lemma_subset_equality(s[b.0], x);
        }
    } else {
        assert(rest.contains(b)) by {
            let i = choose|i: int| 0 <= i < keys.len() && keys[i] == b;
            assert(rest[i] == b);
        }
        assert(rest.no_duplicates());
        lemma_total_grows(s, rest, b, x);
    }
}

/// The blocks whose facts flow into `b`.
pub fn merge_list(cfg: &FunctionCfg, direction: Direction, b: BasicBlockIdx) -> (r: Vec<
    BasicBlockIdx,
>)
    requires
        cfg.wf(),
        cfg.has(b),
    ensures
        r@ == merge_neighbors(*cfg, direction, b),
{
    match direction {
        Direction::Forward => {
            let preds = cfg.predecessors(b);
            let mut out: Vec<BasicBlockIdx> = Vec::new();
            let mut i: usize = 0;
            while i < preds.len()
                invariant
                    i <= preds@.len(),
                    out@ == preds@.take(i as int),
                decreases preds@.len() - i,
            {
                out.push(preds[i]);
                assert(out@ =~= preds@.take(i + 1));
                i += 1;
            }
            assert(preds@.take(preds@.len() as int) =~= preds@);
            out
        },
        Direction::Backward => cfg.successors(b),
    }
}

/// The blocks into which the facts of `b` flow.
pub fn spread_list(cfg: &FunctionCfg, direction: Direction, b: BasicBlockIdx) -> (r: Vec<
    BasicBlockIdx,
>)
    requires
        cfg.wf(),
        cfg.has(b),
    ensures
        r@ == spread_neighbors(*cfg, direction, b),
{
    match direction {
        Direction::Forward => merge_list(cfg, Direction::Backward, b),
        Direction::Backward => merge_list(cfg, Direction::Forward, b),
    }
}

/// Whether `s` gives each block a set of facts of `universe`.
pub open spec fn bounded<V>(cfg: FunctionCfg, s: Map<u64, Set<V>>, universe: Set<V>) -> bool {
    &&& s.dom() == cfg.blocks().dom()
    &&& forall|n: u64| #[trigger] cfg.blocks().dom().contains(n) ==> s[n].subset_of(universe)
}

/// Whether in `s` no reachable block has a fact that does not flow through it.
pub open spec fn growing<A: Analysis>(
    analysis: A,
    cfg: FunctionCfg,
    direction: Direction,
    entry: Set<<A::Fact as View>::V>,
    s: Map<u64, Set<<A::Fact as View>::V>>,
) -> bool {
    forall|b: BasicBlockIdx| #[trigger]
        live_block(cfg, b) ==> s[b.0].subset_of(
            analysis.transfer_spec(cfg.blocks()[b.0], b, flow_in(cfg, direction, entry, s, b)),
        )
}

/// Whether `b` waits in `worklist` at or after `head`.
pub open spec fn queued(worklist: Seq<BasicBlockIdx>, head: int, b: BasicBlockIdx) -> bool {
    exists|j: int| head <= j < worklist.len() && #[trigger] worklist[j] == b
}

/// Whether every reachable block that is out of balance waits in the worklist.
pub open spec fn pending<A: Analysis>(
    analysis: A,
    cfg: FunctionCfg,
    direction: Direction,
    entry: Set<<A::Fact as View>::V>,
    s: Map<u64, Set<<A::Fact as View>::V>>,
    worklist: Seq<BasicBlockIdx>,
    head: int,
) -> bool {
    forall|b: BasicBlockIdx| #[trigger]
        live_block(cfg, b) && !balanced(analysis, cfg, direction, entry, s, b) ==> queued(
            worklist,
            head,
            b,
        )
}

/// Whether `s` is within every assignment that is closed under the flow.
pub open spec fn least_so_far<A: Analysis>(
    analysis: A,
    cfg: FunctionCfg,
    direction: Direction,
    entry: Set<<A::Fact as View>::V>,
    s: Map<u64, Set<<A::Fact as View>::V>>,
) -> bool {
    forall|other: Map<u64, Set<<A::Fact as View>::V>>| #[trigger]
        closed_under_flow(analysis, cfg, direction, entry, other) ==> pointwise_within(
            cfg,
            s,
            other,
        )
}

/// What flows into a block from sets of a universe is of that universe.
pub proof fn lemma_flow_bounded<V>(
    cfg: FunctionCfg,
    direction: Direction,
    entry: Set<V>,
    s: Map<u64, Set<V>>,
    universe: Set<V>,
    b: BasicBlockIdx,
)
    requires
        cfg.wf(),
        cfg.has(b),
        bounded(cfg, s, universe),
        entry.subset_of(universe),
    ensures
        flow_in(cfg, direction, entry, s, b).subset_of(universe),
{
    let nbrs = merge_neighbors(cfg, direction, b);
    assert forall|v: V| flow_in(cfg, direction, entry, s, b).contains(v) implies universe.contains(
        v,
    ) by {
        if !(b == first_block(cfg, direction) && entry.contains(v)) {
            let i = choose|i: int| 0 <= i < nbrs.len() && (#[trigger] s[nbrs[i].0]).contains(v);
            assert(nbrs.contains(nbrs[i]));
            lemma_neighbors(cfg, direction, b, nbrs[i]);
            assert(cfg.blocks().dom().contains(nbrs[i].0));
        }
    }
}

/// A step at `c` enlarges the set of `c`, and keeps every reachable block
/// free of facts that do not flow through it.
pub proof fn lemma_step_grows<A: Analysis>(
    analysis: A,
    cfg: FunctionCfg,
    direction: Direction,
    entry: Set<<A::Fact as View>::V>,
    s: Map<u64, Set<<A::Fact as View>::V>>,
    c: BasicBlockIdx,
)
    requires
        cfg.wf(),
        live_block(cfg, c),
        s.dom() == cfg.blocks().dom(),
        growing(analysis, cfg, direction, entry, s),
    ensures
        pointwise_within(
            cfg,
            s,
            s.insert(
                c.0,
                analysis.transfer_spec(
                    cfg.blocks()[c.0],
                    c,
                    flow_in(cfg, direction, entry, s, c),
                ),
            ),
        ),
        growing(
            analysis,
            cfg,
            direction,
            entry,
            s.insert(
                c.0,
                analysis.transfer_spec(
                    cfg.blocks()[c.0],
                    c,
                    flow_in(cfg, direction, entry, s, c),
                ),
            ),
        ),
{
    let x = analysis.transfer_spec(cfg.blocks()[c.0], c, flow_in(cfg, direction, entry, s, c));
    let s2 = s.insert(c.0, x);
    assert(s[c.0].subset_of(x));
    assert(pointwise_within(cfg, s, s2));
    assert forall|b: BasicBlockIdx| #[trigger] live_block(cfg, b) implies s2[b.0].subset_of(
        analysis.transfer_spec(cfg.blocks()[b.0], b, flow_in(cfg, direction, entry, s2, b)),
    ) by {
        lemma_flow_monotone(cfg, direction, entry, s, s2, b);
        analysis.lemma_monotone(
            cfg.blocks()[b.0],
            b,
            flow_in(cfg, direction, entry, s, b),
            flow_in(cfg, direction, entry, s2, b),
        );
        if b.0 != c.0 {
            assert(s2[b.0] == s[b.0]);
        } else {
            assert(b == c);
        }
    }
}

/// A step keeps the sets within every assignment that is closed under the flow.
pub proof fn lemma_step_least<A: Analysis>(
    analysis: A,
    cfg: FunctionCfg,
    direction: Direction,
    entry: Set<<A::Fact as View>::V>,
    s: Map<u64, Set<<A::Fact as View>::V>>,
    c: BasicBlockIdx,
)
    requires
        cfg.wf(),
        live_block(cfg, c),
        least_so_far(analysis, cfg, direction, entry, s),
    ensures
        least_so_far(
            analysis,
            cfg,
            direction,
            entry,
            s.insert(
                c.0,
                analysis.transfer_spec(
                    cfg.blocks()[c.0],
                    c,
                    flow_in(cfg, direction, entry, s, c),
                ),
            ),
        ),
{
    let x = analysis.transfer_spec(cfg.blocks()[c.0], c, flow_in(cfg, direction, entry, s, c));
    let s2 = s.insert(c.0, x);
    assert forall|other: Map<u64, Set<<A::Fact as View>::V>>| #[trigger]
        closed_under_flow(analysis, cfg, direction, entry, other) implies pointwise_within(
        cfg,
        s2,
        other,
    ) by {
        assert(pointwise_within(cfg, s, other));
        lemma_flow_monotone(cfg, direction, entry, s, other, c);
        analysis.lemma_monotone(
            cfg.blocks()[c.0],
            c,
            flow_in(cfg, direction, entry, s, c),
            flow_in(cfg, direction, entry, other, c),
        );
        assert(live_block(cfg, c));
        assert(x.subset_of(other[c.0]));
    }
}

/// After a step that changed the set of `c`, with the reachable blocks into
/// which `c` spreads put at the end of the worklist, every reachable block
/// that is out of balance still waits.
pub proof fn lemma_pending_changed<A: Analysis>(
    analysis: A,
    cfg: FunctionCfg,
    direction: Direction,
    entry: Set<<A::Fact as View>::V>,
    s: Map<u64, Set<<A::Fact as View>::V>>,
    worklist: Seq<BasicBlockIdx>,
    longer: Seq<BasicBlockIdx>,
    head: int,
    c: BasicBlockIdx,
)
    requires
        cfg.wf(),
        0 <= head < worklist.len(),
        worklist[head] == c,
        live_block(cfg, c),
        pending(analysis, cfg, direction, entry, s, worklist, head),
        worklist.len() <= longer.len(),
        forall|j: int| 0 <= j < worklist.len() ==> longer[j] == worklist[j],
        forall|b: BasicBlockIdx|
            live_block(cfg, b) && #[trigger] spread_neighbors(cfg, direction, c).contains(b)
                ==> queued(longer, head + 1, b),
    ensures
        pending(
            analysis,
            cfg,
            direction,
            entry,
            s.insert(
                c.0,
                analysis.transfer_spec(
                    cfg.blocks()[c.0],
                    c,
                    flow_in(cfg, direction, entry, s, c),
                ),
            ),
            longer,
            head + 1,
        ),
{
    let x = analysis.transfer_spec(cfg.blocks()[c.0], c, flow_in(cfg, direction, entry, s, c));
    let s2 = s.insert(c.0, x);
    assert forall|b: BasicBlockIdx| #[trigger]
        live_block(cfg, b) && !balanced(analysis, cfg, direction, entry, s2, b) implies queued(
        longer,
        head + 1,
        b,
    ) by {
        lemma_neighbors(cfg, direction, b, c);
        if merge_neighbors(cfg, direction, b).contains(c) {
            assert(spread_neighbors(cfg, direction, c).contains(b));
        } else {
            lemma_flow_unchanged(cfg, direction, entry, s, c, x, b);
            if b.0 == c.0 {
                assert(b == c);
                assert(balanced(analysis, cfg, direction, entry, s2, b));
            } else {
                assert(s2[b.0] == s[b.0]);
                assert(!balanced(analysis, cfg, direction, entry, s, b));
                assert(queued(worklist, head, b));
                let j = choose|j: int| head <= j < worklist.len() && #[trigger] worklist[j] == b;
                assert(j != head);
                assert(longer[j] == b);
            }
        }
    }
}

/// After a step that found `c` in balance, every reachable block that is
/// out of balance still waits.
pub proof fn lemma_pending_same<A: Analysis>(
    analysis: A,
    cfg: FunctionCfg,
    direction: Direction,
    entry: Set<<A::Fact as View>::V>,
    s: Map<u64, Set<<A::Fact as View>::V>>,
    worklist: Seq<BasicBlockIdx>,
    head: int,
)
    requires
        0 <= head < worklist.len(),
        balanced(analysis, cfg, direction, entry, s, worklist[head]),
        pending(analysis, cfg, direction, entry, s, worklist, head),
    ensures
        pending(analysis, cfg, direction, entry, s, worklist, head + 1),
{
    assert forall|b: BasicBlockIdx| #[trigger]
        live_block(cfg, b) && !balanced(analysis, cfg, direction, entry, s, b) implies queued(
        worklist,
        head + 1,
        b,
    ) by {
        assert(queued(worklist, head, b));
        let j = choose|j: int| head <= j < worklist.len() && #[trigger] worklist[j] == b;
        assert(j != head);
    }
}

/// The facts that flow into `current`.
fn gather<T: Fact>(
    cfg: &FunctionCfg,
    direction: Direction,
    entry_inputs: &FactSet<T>,
    solution: &HashMap<u64, FactSet<T>>,
    current: BasicBlockIdx,
    is_first: bool,
) -> (r: FactSet<T>)
    requires
        cfg.wf(),
        cfg.has(current),
        entry_inputs.wf(),
        solution_view(*solution).dom() == cfg.blocks().dom(),
        is_first == (current == first_block(*cfg, direction)),
    ensures
        r.wf(),
        r@ == flow_in(*cfg, direction, entry_inputs@, solution_view(*solution), current),
{
    let ghost s = solution_view(*solution);
    let neighbors = merge_list(cfg, direction, current);
    let mut input = if is_first {
        entry_inputs.dup()
    } else {
        FactSet::new()
    };
    let mut i: usize = 0;
    while i < neighbors.len()
        invariant
            i <= neighbors@.len(),
            cfg.wf(),
            cfg.has(current),
            neighbors@ == merge_neighbors(*cfg, direction, current),
            s == solution_view(*solution),
            s.dom() == cfg.blocks().dom(),
            input.wf(),
            forall|v: T::V|
                input@.contains(v) <==> (is_first && entry_inputs@.contains(v)) || exists|j: int|
                    0 <= j < i && (#[trigger] s[neighbors@[j].0]).contains(v),
        decreases neighbors@.len() - i,
    {
        let n = neighbors[i];
        let ghost before = input@;
        proof {
            assert(neighbors@.contains(n));
            lemma_neighbors(*cfg, direction, current, n);
            assert(s.dom().contains(n.0));
        }
        match solution.get(&n.0) {
            Some(facts) => {
                input.union_with(facts);
            },
            None => {},
        }
        proof {
            assert forall|v: T::V|
                input@.contains(v) <==> (is_first && entry_inputs@.contains(v)) || exists|j: int|
                    0 <= j < i + 1 && (#[trigger] s[neighbors@[j].0]).contains(v) by {
                if exists|j: int| 0 <= j < i + 1 && (#[trigger] s[neighbors@[j].0]).contains(v) {
                    let j = choose|j: int|
                        0 <= j < i + 1 && (#[trigger] s[neighbors@[j].0]).contains(v);
                    if j < i {
                        assert(before.contains(v));
                    }
                }
                if before.contains(v) && !(is_first && entry_inputs@.contains(v)) {
                    let j = choose|j: int|
                        0 <= j < i && (#[trigger] s[neighbors@[j].0]).contains(v);
                    assert(0 <= j < i + 1 && s[neighbors@[j].0].contains(v));
                }
                if s[n.0].contains(v) {
                    assert(s[neighbors@[i as int].0].contains(v));
                }
            }
        }
        i += 1;
    }
    assert(input@ =~= flow_in(*cfg, direction, entry_inputs@, s, current));
    input
}

/// The position in the postorder of length `n` that is visited at turn
/// `m`: counted from the end in a forward analysis, from the start in a
/// backward one.
pub open spec fn turn(direction: Direction, n: int, m: int) -> int {
    match direction {
        Direction::Forward => n - 1 - m,
        Direction::Backward => m,
    }
}

/// The worklist to start from, the reachable blocks in reverse postorder
/// for a forward analysis and in postorder for a backward one, and the set
/// of those blocks.
fn initial_worklist(cfg: &FunctionCfg, direction: Direction, reachable: &Vec<BasicBlockIdx>) -> (r: (
    Vec<BasicBlockIdx>,
    HashSet<u64>,
))
    requires
        cfg.wf(),
        reachable@ == postorder(*cfg),
    ensures
        forall|j: int| 0 <= j < r.0@.len() ==> live_block(*cfg, #[trigger] r.0@[j]),
        forall|b: BasicBlockIdx| #[trigger] live_block(*cfg, b) ==> queued(r.0@, 0, b),
        forall|n: u64| r.1@.contains(n) <==> live_block(*cfg, BasicBlockIdx(n)),
{
    let mut worklist: Vec<BasicBlockIdx> = Vec::new();
    let mut reach: HashSet<u64> = HashSet::new();
    let n = reachable.len();
    let mut i: usize = 0;
    while i < n
        invariant
            i <= n,
            n == reachable@.len(),
            cfg.wf(),
            reachable@ == postorder(*cfg),
            forall|j: int| 0 <= j < worklist@.len() ==> live_block(*cfg, #[trigger] worklist@[j]),
            forall|m: int|
                0 <= m < i && cfg.has(#[trigger] reachable@[turn(direction, n as int, m)])
                    ==> queued(worklist@, 0, reachable@[turn(direction, n as int, m)])
                    && reach@.contains(reachable@[turn(direction, n as int, m)].0),
            forall|x: u64| reach@.contains(x) ==> live_block(*cfg, BasicBlockIdx(x)),
        decreases n - i,
    {
        let at = match direction {
            Direction::Forward => n - 1 - i,
            Direction::Backward => i,
        };
        let k = reachable[at];
        let ghost before = worklist@;
        if cfg.contains(k) {
            worklist.push(k);
            reach.insert(k.0);
            proof {
                assert(postorder(*cfg).contains(k));
                assert(worklist@[before.len() as int] == k);
                assert(k == BasicBlockIdx(k.0));
            }
        }
        proof {
            assert forall|m: int|
                0 <= m < i + 1 && cfg.has(
                    #[trigger] reachable@[turn(direction, n as int, m)],
                ) implies queued(worklist@, 0, reachable@[turn(direction, n as int, m)])
                && reach@.contains(reachable@[turn(direction, n as int, m)].0) by {
                let at2 = turn(direction, n as int, m);
                if m < i {
                    assert(queued(before, 0, reachable@[at2]));
                    let j = choose|j: int|
                        0 <= j < before.len() && #[trigger] before[j] == reachable@[at2];
                    assert(worklist@[j] == reachable@[at2]);
                }
            }
        }
        i += 1;
    }
    proof {
        assert forall|b: BasicBlockIdx| #[trigger] live_block(*cfg, b) implies queued(
            worklist@,
            0,
            b,
        ) && reach@.contains(b.0) by {
            let w = choose|w: int| 0 <= w < reachable@.len() && reachable@[w] == b;
            let m = turn(direction, n as int, w);
            assert(turn(direction, n as int, m) == w);
            assert(cfg.has(reachable@[turn(direction, n as int, m)]));
        }
        assert forall|x: u64| reach@.contains(x) <==> live_block(*cfg, BasicBlockIdx(x)) by {
            if live_block(*cfg, BasicBlockIdx(x)) {
                assert(reach@.contains(BasicBlockIdx(x).0));
            }
        }
    }
    (worklist, reach)
}

/// An empty set of facts for every block.
fn empty_solution<T: Fact>(cfg: &FunctionCfg, keys: &Vec<BasicBlockIdx>) -> (r: HashMap<
    u64,
    FactSet<T>,
>)
    requires
        forall|k: BasicBlockIdx| #[trigger] keys@.contains(k) <==> cfg.has(k),
    ensures
        solution_view(r).dom() == cfg.blocks().dom(),
        forall|n: u64| #[trigger]
            r@.contains_key(n) ==> r@[n].wf() && r@[n]@ == Set::<T::V>::empty(),
{
    let mut solution: HashMap<u64, FactSet<T>> = HashMap::new();
    let mut i: usize = 0;
    while i < keys.len()
        invariant
            i <= keys@.len(),
            forall|n: u64|
                solution@.contains_key(n) <==> exists|j: int|
                    0 <= j < i && (#[trigger] keys@[j]).0 == n,
            forall|n: u64| #[trigger]
                solution@.contains_key(n) ==> solution@[n].wf() && solution@[n]@ == Set::<
                    T::V,
                >::empty(),
        decreases keys@.len() - i,
    {
        let ghost before = solution@;
        solution.insert(keys[i].0, FactSet::new());
        proof {
            assert forall|n: u64|
                solution@.contains_key(n) <==> exists|j: int|
                    0 <= j < i + 1 && (#[trigger] keys@[j]).0 == n by {
                if solution@.contains_key(n) {
                    if n == keys@[i as int].0 {
                    } else {
                        assert(before.contains_key(n));
                        let j = choose|j: int| 0 <= j < i && (#[trigger] keys@[j]).0 == n;
                        assert(0 <= j < i + 1 && keys@[j].0 == n);
                    }
                }
                if exists|j: int| 0 <= j < i + 1 && (#[trigger] keys@[j]).0 == n {
                    let j = choose|j: int| 0 <= j < i + 1 && (#[trigger] keys@[j]).0 == n;
                    if j < i {
                        assert(before.contains_key(n));
                    }
                }
            }
        }
        i += 1;
    }
    proof {
        assert(solution_view(solution).dom() =~= cfg.blocks().dom()) by {
            assert forall|n: u64|
                solution_view(solution).dom().contains(n) <==> cfg.blocks().dom().contains(n) by {
                if solution@.contains_key(n) {
                    let j = choose|j: int| 0 <= j < keys@.len() && (#[trigger] keys@[j]).0 == n;
                    assert(keys@.contains(keys@[j]));
                    assert(keys@[j] == BasicBlockIdx(n));
                }
                if cfg.blocks().dom().contains(n) {
                    assert(cfg.has(BasicBlockIdx(n)));
                    assert(keys@.contains(BasicBlockIdx(n)));
                    let j = choose|j: int| 0 <= j < keys@.len() && keys@[j] == BasicBlockIdx(n);
                    assert(keys@[j].0 == n);
                }
            }
        }
    }
    solution
}

/// Solves a dataflow analysis over the graph with a worklist.
///
/// The reachable blocks are visited in reverse postorder for a forward
/// analysis and in postorder for a backward one, then for as long as any
/// waits: the facts of a block's neighbors against the flow are united, with
/// `entry_inputs` where the block is the first one visited, and passed
/// through the block; where that changes the block's set, the reachable
/// blocks into which it spreads are made to wait.
///
/// The result is the least assignment of sets in which every reachable
/// block is in balance; blocks that cannot be reached keep the empty set.
pub fn solve_dataflow<A: Analysis>(
    cfg: &FunctionCfg,
    direction: Direction,
    entry_inputs: FactSet<A::Fact>,
    analysis: &A,
) -> (solution: HashMap<u64, FactSet<A::Fact>>)
    requires
        cfg.wf(),
        entry_inputs.wf(),
        entry_inputs@.subset_of(analysis.universe(*cfg)),
    ensures
        solves(*analysis, *cfg, direction, entry_inputs@, solution_view(solution)),
        forall|n: u64| #[trigger] solution@.contains_key(n) ==> solution@[n].wf(),
{
    let keys = cfg.keys();
    let reachable = construct_postorder(cfg);
    let (initial, reach) = initial_worklist(cfg, direction, &reachable);
    let mut worklist = initial;
    let mut solution: HashMap<u64, FactSet<A::Fact>> = empty_solution(cfg, &keys);
    let ghost entry = entry_inputs@;
    let ghost universe = analysis.universe(*cfg);
    let first = if reachable.len() == 0 {
        cfg.entry
    } else {
        match direction {
            Direction::Forward => reachable[reachable.len() - 1],
            Direction::Backward => reachable[0],
        }
    };
    proof {
        let s = solution_view(solution);
        assert(cfg.has(cfg.entry));
        analysis.lemma_universe(*cfg, cfg.entry, Set::empty());
        assert(pending(*analysis, *cfg, direction, entry, s, worklist@, 0));
        assert(least_so_far(*analysis, *cfg, direction, entry, s)) by {
            assert forall|other: Map<u64, Set<<A::Fact as View>::V>>| #[trigger]
                closed_under_flow(*analysis, *cfg, direction, entry, other) implies pointwise_within(
                *cfg,
                s,
                other,
            ) by {
                assert forall|n: u64| #[trigger] cfg.blocks().dom().contains(n) implies s[n].subset_of(
                other[n]) by {
                    assert(solution@.contains_key(n));
                }
            }
        }
        assert(growing(*analysis, *cfg, direction, entry, s)) by {
            assert forall|b: BasicBlockIdx| #[trigger] live_block(*cfg, b) implies s[b.0].subset_of(
                analysis.transfer_spec(
                    cfg.blocks()[b.0],
                    b,
                    flow_in(*cfg, direction, entry, s, b),
                ),
            ) by {
                assert(solution@.contains_key(b.0));
            }
        }
        assert(bounded(*cfg, s, universe)) by {
            assert forall|n: u64| #[trigger] cfg.blocks().dom().contains(n) implies s[n].subset_of(
                universe,
            ) by {
                assert(solution@.contains_key(n));
            }
        }
        lemma_bounded_total(*cfg, s, keys@, universe);
    }
    let mut head: usize = 0;
    while head < worklist.len()
        invariant
            head <= worklist@.len(),
            cfg.wf(),
            entry_inputs.wf(),
            entry == entry_inputs@,
            entry.subset_of(universe),
            universe == analysis.universe(*cfg),
            universe.finite(),
            keys@.no_duplicates(),
            forall|k: BasicBlockIdx| #[trigger] keys@.contains(k) <==> cfg.has(k),
            forall|n: u64| reach@.contains(n) <==> live_block(*cfg, BasicBlockIdx(n)),
            reachable@ == postorder(*cfg),
            reachable@.len() > 0 ==> first == first_block(*cfg, direction),
            forall|j: int| 0 <= j < worklist@.len() ==> live_block(*cfg, #[trigger] worklist@[j]),
            forall|n: u64| #[trigger] solution@.contains_key(n) ==> solution@[n].wf(),
            bounded(*cfg, solution_view(solution), universe),
            forall|b: BasicBlockIdx|
                cfg.has(b) && !postorder(*cfg).contains(b) ==> #[trigger] solution_view(
                    solution,
                )[b.0] == Set::<<A::Fact as View>::V>::empty(),
            growing(*analysis, *cfg, direction, entry, solution_view(solution)),
            pending(
                *analysis,
                *cfg,
                direction,
                entry,
                solution_view(solution),
                worklist@,
                head as int,
            ),
            least_so_far(*analysis, *cfg, direction, entry, solution_view(solution)),
            total_facts(solution_view(solution), keys@) <= keys@.len() * universe.len(),
        decreases
                keys@.len() * universe.len() - total_facts(solution_view(solution), keys@),
                worklist@.len() - head,
    {
        let current = worklist[head];
        let ghost s = solution_view(solution);
        let ghost old_list = worklist@;
        proof {
            assert(live_block(*cfg, current));
            assert(reachable@.contains(current));
        }
        let is_first = current.0 == first.0;
        let input = gather(cfg, direction, &entry_inputs, &solution, current, is_first);
        let new_out = match cfg.block(current) {
            Some(block) => analysis.transfer(block, current, input),
            None => FactSet::new(),
        };
        let same = match solution.get(&current.0) {
            Some(previous) => new_out.same_as(previous),
            None => true,
        };
        proof {
            assert(solution@.contains_key(current.0)) by {
                assert(s.dom().contains(current.0));
            }
            assert(new_out@ == analysis.transfer_spec(
                cfg.blocks()[current.0],
                current,
                flow_in(*cfg, direction, entry, s, current),
            ));
            assert(same == balanced(*analysis, *cfg, direction, entry, s, current));
        }
        if !same {
            proof {
                lemma_flow_bounded(*cfg, direction, entry, s, universe, current);
                analysis.lemma_universe(
                    *cfg,
                    current,
                    flow_in(*cfg, direction, entry, s, current),
                );
                vstd::set_lib::lemma_set_subset_finite(universe, new_out@);
                lemma_step_grows(*analysis, *cfg, direction, entry, s, current);
                lemma_step_least(*analysis, *cfg, direction, entry, s, current);
                assert(keys@.contains(current));
                assert(s[current.0].subset_of(new_out@));
                lemma_total_grows(s, keys@, current, new_out@);
            }
            let ghost grown = new_out@;
            solution.insert(current.0, new_out);
            let ghost s2 = solution_view(solution);
            proof {
                assert(s2 =~= s.insert(current.0, grown));
                assert(bounded(*cfg, s2, universe)) by {
                    assert(s2.dom() =~= s.dom());
                    assert(grown.subset_of(universe));
                    assert forall|n: u64| #[trigger] cfg.blocks().dom().contains(n) implies s2[n].subset_of(
                    universe) by {
                        if n != current.0 {
                            assert(s2[n] == s[n]);
                            assert(s[n].subset_of(universe));
                        }
                    }
                }
                lemma_bounded_total(*cfg, s2, keys@, universe);
                assert forall|b: BasicBlockIdx|
                    cfg.has(b) && !postorder(*cfg).contains(b) implies #[trigger] s2[b.0] == Set::<
                    <A::Fact as View>::V,
                >::empty() by {
                    assert(b != current);
                    assert(s2[b.0] == s[b.0]);
                }
            }
            let spread = spread_list(cfg, direction, current);
            let mut t: usize = 0;
            while t < spread.len()
                invariant
                    t <= spread@.len(),
                    head < old_list.len(),
                    old_list.len() <= worklist@.len(),
                    forall|j: int| 0 <= j < old_list.len() ==> worklist@[j] == old_list[j],
                    forall|n: u64| reach@.contains(n) <==> live_block(*cfg, BasicBlockIdx(n)),
                    forall|j: int|
                        0 <= j < worklist@.len() ==> live_block(*cfg, #[trigger] worklist@[j]),
                    forall|w: int|
                        0 <= w < t && live_block(*cfg, #[trigger] spread@[w]) ==> queued(
                            worklist@,
                            head + 1,
                            spread@[w],
                        ),
                decreases spread@.len() - t,
            {
                let n = spread[t];
                let ghost before = worklist@;
                if reach.contains(&n.0) {
                    worklist.push(n);
                    proof {
                        assert(n == BasicBlockIdx(n.0));
                        assert(worklist@[before.len() as int] == n);
                    }
                }
                proof {
                    assert forall|w: int|
                        0 <= w < t + 1 && live_block(*cfg, #[trigger] spread@[w]) implies queued(
                        worklist@,
                        head + 1,
                        spread@[w],
                    ) by {
                        if w < t {
                            assert(queued(before, head + 1, spread@[w]));
                            let j = choose|j: int|
                                head + 1 <= j < before.len() && #[trigger] before[j] == spread@[w];
                            assert(worklist@[j] == spread@[w]);
                        } else {
                            assert(spread@[w] == BasicBlockIdx(spread@[w].0));
                        }
                    }
                }
                t += 1;
            }
            proof {
                assert forall|b: BasicBlockIdx|
                    live_block(*cfg, b) && #[trigger] spread_neighbors(
                        *cfg,
                        direction,
                        current,
                    ).contains(b) implies queued(worklist@, head + 1, b) by {
                    let w = choose|w: int| 0 <= w < spread@.len() && spread@[w] == b;
                    assert(live_block(*cfg, spread@[w]));
                }
                lemma_pending_changed(
                    *analysis,
                    *cfg,
                    direction,
                    entry,
                    s,
                    old_list,
                    worklist@,
                    head as int,
                    current,
                );
            }
        } else {
            proof {
                lemma_pending_same(*analysis, *cfg, direction, entry, s, worklist@, head as int);
            }
        }
        head += 1;
    }
    proof {
        let s = solution_view(solution);
        assert forall|b: BasicBlockIdx| #[trigger] live_block(*cfg, b) implies balanced(
            *analysis,
            *cfg,
            direction,
            entry,
            s,
            b,
        ) by {
            if !balanced(*analysis, *cfg, direction, entry, s, b) {
                assert(queued(worklist@, head as int, b));
            }
        }
    }
    solution
}

/// What `each` gives for the blocks `keys`, one block after the other.
pub open spec fn gather_blocks<V>(
    blocks: Map<u64, BasicBlock>,
    keys: Seq<u64>,
    each: spec_fn(BasicBlock, BasicBlockIdx) -> Seq<V>,
) -> Seq<V>
    decreases keys.len(),
{
    if keys.len() == 0 {
        Seq::empty()
    } else {
        gather_blocks(blocks, keys.drop_last(), each) + each(
            blocks[keys.last()],
            BasicBlockIdx(keys.last()),
        )
    }
}

/// What `each` gives for a listed block is part of what it gives for all.
pub proof fn lemma_gather_holds<V>(
    blocks: Map<u64, BasicBlock>,
    keys: Seq<u64>,
    each: spec_fn(BasicBlock, BasicBlockIdx) -> Seq<V>,
    n: u64,
    v: V,
)
    requires
        keys.contains(n),
        each(blocks[n], BasicBlockIdx(n)).contains(v),
    ensures
        gather_blocks(blocks, keys, each).contains(v),
    decreases keys.len(),
{
    let whole = gather_blocks(blocks, keys, each);
    let rest = gather_blocks(blocks, keys.drop_last(), each);
    let tail = each(blocks[keys.last()], BasicBlockIdx(keys.last()));
    if keys.last() == n {
        let j = choose|j: int| 0 <= j < tail.len() && tail[j] == v;
        assert(whole[rest.len() + j] == v);
    } else {
        assert(keys.drop_last().contains(n)) by {
            let i = choose|i: int| 0 <= i < keys.len() && keys[i] == n;
            assert(keys.drop_last()[i] == n);
        }
        lemma_gather_holds(blocks, keys.drop_last(), each, n, v);
        let j = choose|j: int| 0 <= j < rest.len() && rest[j] == v;
        assert(whole[j] == v);
    }
}

/// Everything that `each` gives for some block of the graph.
pub open spec fn all_of<V>(cfg: FunctionCfg, each: spec_fn(BasicBlock, BasicBlockIdx) -> Seq<V>) -> Set<
    V,
> {
    gather_blocks(cfg.blocks(), cfg.blocks().dom().to_seq(), each).to_set()
}

/// What `each` gives for the blocks of a graph is finitely much, and holds
/// what it gives for any one block.
pub proof fn lemma_all_of<V>(
    cfg: FunctionCfg,
    each: spec_fn(BasicBlock, BasicBlockIdx) -> Seq<V>,
    k: BasicBlockIdx,
    v: V,
)
    requires
        cfg.blocks().dom().finite(),
    ensures
        all_of(cfg, each).finite(),
        cfg.has(k) && each(cfg.blocks()[k.0], k).contains(v) ==> all_of(cfg, each).contains(v),
{
    let keys = cfg.blocks().dom().to_seq();
    vstd::seq_lib::seq_to_set_is_finite(gather_blocks(cfg.blocks(), keys, each));
    if cfg.has(k) && each(cfg.blocks()[k.0], k).contains(v) {
        cfg.blocks().dom().lemma_to_seq_to_set_id();
        assert(keys.to_set().contains(k.0));
        assert(keys.contains(k.0));
        assert(BasicBlockIdx(k.0) == k);
        lemma_gather_holds(cfg.blocks(), keys, each, k.0, v);
    }
}

/// In a forward analysis the first block is the entry.
pub proof fn lemma_first_is_entry(cfg: FunctionCfg)
    requires
        cfg.wf(),
    ensures
        postorder(cfg).len() > 0,
        first_block(cfg, Direction::Forward) == cfg.entry,
{
    let marked = Set::<u64>::empty().insert(cfg.entry.0);
    let (after, out) = dfs_succs(cfg, cfg.succ(cfg.entry), 0, marked);
    assert(dfs_node(cfg, cfg.entry, Set::empty()) == (after, out.push(cfg.entry)));
}

} // verus!
