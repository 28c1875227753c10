//! Dominators, the dominator tree and dominance frontiers.

use vstd::prelude::*;
use std::collections::HashSet;
use crate::store::BasicBlockIdx;
use crate::cfg::{FunctionCfg, list_contains, lemma_targets_exist};
use crate::blocksets::{BlockSets, numbers};
use crate::dataflow::construct_postorder;

verus! {

broadcast use vstd::std_specs::hash::group_hash_axioms;

/// What the predecessors of `b` have in common in `d`: nothing where there
/// is no predecessor.
pub open spec fn meet(cfg: FunctionCfg, d: Map<u64, Set<u64>>, b: BasicBlockIdx) -> Set<u64> {
    Set::new(
        |k: u64|
            cfg.preds(b).len() > 0 && forall|i: int|
                0 <= i < cfg.preds(b).len() ==> (#[trigger] d[cfg.preds(b)[i].0]).contains(k),
    )
}

/// What one step of the iteration makes the set of `b`: the block itself
/// and what its predecessors have in common.
pub open spec fn dominator_update(cfg: FunctionCfg, d: Map<u64, Set<u64>>, b: BasicBlockIdx) -> Set<
    u64,
> {
    meet(cfg, d, b).insert(b.0)
}

/// Whether `d` gives each block of the graph a set of blocks of the graph.
pub open spec fn within(cfg: FunctionCfg, d: Map<u64, Set<u64>>) -> bool {
    &&& d.dom() == cfg.blocks().dom()
    &&& forall|n: u64| #[trigger] d.contains_key(n) ==> d[n].subset_of(cfg.blocks().dom())
}

/// Whether `d` solves the equations of dominance: the entry is dominated by
/// itself alone, any other block by itself and by what dominates all of its
/// predecessors.
pub open spec fn dominator_equations(cfg: FunctionCfg, d: Map<u64, Set<u64>>) -> bool {
    &&& within(cfg, d)
    &&& d[cfg.entry.0] == set![cfg.entry.0]
    &&& forall|b: BasicBlockIdx|
        cfg.has(b) && b != cfg.entry ==> #[trigger] d[b.0] == dominator_update(cfg, d, b)
}

/// Whether a step of the iteration can only shrink the sets of `d`.
pub open spec fn settled(cfg: FunctionCfg, d: Map<u64, Set<u64>>) -> bool {
    forall|c: BasicBlockIdx|
        cfg.has(c) && c != cfg.entry ==> (#[trigger] dominator_update(cfg, d, c)).subset_of(d[c.0])
}

/// Whether each set of `small` is within the set that `large` gives the
/// same block.
pub open spec fn below(cfg: FunctionCfg, small: Map<u64, Set<u64>>, large: Map<u64, Set<u64>>) -> bool {
    forall|n: u64| #[trigger] cfg.blocks().dom().contains(n) ==> small[n].subset_of(large[n])
}

/// Larger sets give a larger update.
pub proof fn lemma_update_monotone(
    cfg: FunctionCfg,
    small: Map<u64, Set<u64>>,
    large: Map<u64, Set<u64>>,
    b: BasicBlockIdx,
)
    requires
        cfg.wf(),
        cfg.has(b),
        below(cfg, small, large),
    ensures
        dominator_update(cfg, small, b).subset_of(dominator_update(cfg, large, b)),
{
    assert forall|k: u64| dominator_update(cfg, small, b).contains(k) implies dominator_update(
        cfg,
        large,
        b,
    ).contains(k) by {
        if k != b.0 {
            assert(meet(cfg, small, b).contains(k));
            assert forall|i: int| 0 <= i < cfg.preds(b).len() implies (#[trigger] large[cfg.preds(
                b,
            )[i].0]).contains(k) by {
                let p = cfg.preds(b)[i];
                assert(cfg.preds(b).contains(p));
                assert(cfg.has(p));
                assert(small[p.0].contains(k));
                assert(cfg.blocks().dom().contains(p.0));
            }
            assert(meet(cfg, large, b).contains(k));
        }
    }
}

/// During the iteration the sets only shrink: where no step can enlarge a
/// set, a step at `b` leaves every set within what it was, and again no step
/// can enlarge a set.
pub proof fn lemma_dominator_update_shrinks(cfg: FunctionCfg, d: Map<u64, Set<u64>>, b: BasicBlockIdx)
    requires
        cfg.wf(),
        within(cfg, d),
        settled(cfg, d),
        cfg.has(b),
        b != cfg.entry,
    ensures
        below(cfg, d.insert(b.0, dominator_update(cfg, d, b)), d),
        within(cfg, d.insert(b.0, dominator_update(cfg, d, b))),
        settled(cfg, d.insert(b.0, dominator_update(cfg, d, b))),
{
    let d2 = d.insert(b.0, dominator_update(cfg, d, b));
    assert(d2.dom() =~= d.dom());
    assert(dominator_update(cfg, d, b).subset_of(d[b.0]));
    assert(below(cfg, d2, d));
    assert forall|c: BasicBlockIdx| cfg.has(c) && c != cfg.entry implies (
    #[trigger] dominator_update(cfg, d2, c)).subset_of(d2[c.0]) by {
        lemma_update_monotone(cfg, d2, d, c);
        assert(dominator_update(cfg, d, c).subset_of(d[c.0]));
    }
    assert forall|n: u64| #[trigger] d2.contains_key(n) implies d2[n].subset_of(
        cfg.blocks().dom(),
    ) by {
        assert(d.contains_key(n));
        if n == b.0 {
            assert(d[b.0].subset_of(cfg.blocks().dom()));
        }
    }
}

/// A solution of the equations that is below `d` is below `d` after a step.
pub proof fn lemma_solution_stays_below(
    cfg: FunctionCfg,
    d: Map<u64, Set<u64>>,
    b: BasicBlockIdx,
    solution: Map<u64, Set<u64>>,
)
    requires
        cfg.wf(),
        cfg.has(b),
        b != cfg.entry,
        dominator_equations(cfg, solution),
        below(cfg, solution, d),
    ensures
        below(cfg, solution, d.insert(b.0, dominator_update(cfg, d, b))),
{
    lemma_update_monotone(cfg, solution, d, b);
    assert(solution[b.0] == dominator_update(cfg, solution, b));
}

/// The number of members of the sets that `d` gives the blocks `keys`, all
/// together.
pub open spec fn total_size(d: Map<u64, Set<u64>>, keys: Seq<BasicBlockIdx>) -> nat
    decreases keys.len(),
{
    if keys.len() == 0 {
        0
    } else {
        total_size(d, keys.drop_last()) + d[keys.last().0].len()
    }
}

/// Sets of blocks that `keys` does not list do not count.
pub proof fn lemma_total_other(
    d: Map<u64, Set<u64>>,
    keys: Seq<BasicBlockIdx>,
    b: BasicBlockIdx,
    s: Set<u64>,
)
    requires
        !keys.contains(b),
    ensures
        total_size(d.insert(b.0, s), keys) == total_size(d, keys),
    decreases keys.len(),
{
    if keys.len() > 0 {
        assert(!keys.drop_last().contains(b)) by {
            if keys.drop_last().contains(b) {
                let i = choose|i: int| 0 <= i < keys.drop_last().len() && keys.drop_last()[i] == b;
                assert(keys[i] == b);
            }
        }
        lemma_total_other(d, keys.drop_last(), b, s);
        assert(keys[keys.len() - 1] != b);
    }
}

/// A smaller set for one block makes the total smaller.
pub proof fn lemma_total_shrinks(
    d: Map<u64, Set<u64>>,
    keys: Seq<BasicBlockIdx>,
    b: BasicBlockIdx,
    s: Set<u64>,
)
    requires
        keys.no_duplicates(),
        keys.contains(b),
        d[b.0].finite(),
        s.subset_of(d[b.0]),
    ensures
        total_size(d.insert(b.0, s), keys) <= total_size(d, keys),
        s != d[b.0] ==> total_size(d.insert(b.0, s), keys) < total_size(d, keys),
    decreases keys.len(),
{
    let rest = keys.drop_last();
    if keys.last() == b {
        assert(!rest.contains(b)) by {
            if rest.contains(b) {
                let i = choose|i: int| 0 <= i < rest.len() && rest[i] == b;
                assert(keys[i] == keys[keys.len() - 1]);
            }
        }
        lemma_total_other(d, rest, b, s);
        vstd::set_lib::lemma_len_subset(s, d[b.0]);
        if s != d[b.0] {
            if s.len() == d[b.0].len() {
                vstd::set_lib::lemma_subset_equality(s, d[b.0]);
            }
        }
    } else {
        assert(rest.contains(b)) by {
            let i = choose|i: int| 0 <= i < keys.len() && keys[i] == b;
            assert(rest[i] == b);
        }
        assert(rest.no_duplicates());
        lemma_total_shrinks(d, rest, b, s);
    }
}

/// Whether two sets of blocks of `universe` are the same.
pub fn same_set(a: &HashSet<u64>, b: &HashSet<u64>, universe: &Vec<BasicBlockIdx>) -> (r: bool)
    requires
        a@.subset_of(numbers(universe@)),
        b@.subset_of(numbers(universe@)),
    ensures
        r == (a@ == b@),
{
    let mut i: usize = 0;
    while i < universe.len()
        invariant
            i <= universe@.len(),
            forall|j: int|
                0 <= j < i ==> (a@.contains((#[trigger] universe@[j]).0) <==> b@.contains(
                    universe@[j].0,
                )),
        decreases universe@.len() - i,
    {
        let k = universe[i];
        if a.contains(&k.0) != b.contains(&k.0) {
            return false;
        }
        i += 1;
    }
    proof {
        assert forall|n: u64| a@.contains(n) <==> b@.contains(n) by {
            if a@.contains(n) || b@.contains(n) {
                assert(numbers(universe@).contains(n));
                let j = choose|j: int| 0 <= j < universe@.len() && universe@[j] == BasicBlockIdx(n);
                assert(universe@[j].0 == n);
            }
        }
        assert(a@ =~= b@);
    }
    true
}

/// Whether the blocks that have a set in `sets` are the blocks of `cfg`.
pub open spec fn covers(cfg: FunctionCfg, sets: BlockSets) -> bool {
    forall|k: BasicBlockIdx| #[trigger] sets.blocks@.contains(k) <==> cfg.has(k)
}

/// The set that one step of the iteration gives `b`.
fn dominator_update_set(cfg: &FunctionCfg, dominators: &BlockSets, b: BasicBlockIdx) -> (r: HashSet<
    u64,
>)
    requires
        cfg.wf(),
        cfg.has(b),
        dominators.wf(),
        covers(*cfg, *dominators),
    ensures
        r@ == dominator_update(*cfg, dominators@, b),
{
    let preds = cfg.predecessors(b);
    let mut out: HashSet<u64> = HashSet::new();
    let ghost d = dominators@;
    let mut i: usize = 0;
    while i < dominators.blocks.len()
        invariant
            i <= dominators.blocks@.len(),
            cfg.wf(),
            cfg.has(b),
            dominators.wf(),
            covers(*cfg, *dominators),
            d == dominators@,
            preds@ == cfg.preds(b),
            forall|n: u64|
                out@.contains(n) <==> dominator_update(*cfg, d, b).contains(n)
                    && dominators.blocks@.take(i as int).contains(BasicBlockIdx(n)),
        decreases dominators.blocks@.len() - i,
    {
        let k = dominators.blocks[i];
        let mut inside = preds.len() > 0;
        let mut j: usize = 0;
        while j < preds.len() && inside
            invariant
                j <= preds@.len(),
                cfg.wf(),
                cfg.has(b),
                dominators.wf(),
                covers(*cfg, *dominators),
                preds@ == cfg.preds(b),
                d == dominators@,
                inside ==> preds@.len() > 0 && forall|m: int|
                    0 <= m < j ==> (#[trigger] d[preds@[m].0]).contains(k.0),
                !inside ==> !meet(*cfg, d, b).contains(k.0),
            decreases preds@.len() - j,
        {
            if !dominators.contains(preds[j], k) {
                proof {
                    let p = preds@[j as int];
                    assert(cfg.preds(b).contains(p));
                    assert(cfg.has(p));
                    assert(dominators.blocks@.contains(p));
                    assert(!d[cfg.preds(b)[j as int].0].contains(k.0));
                }
                inside = false;
            }
            j += 1;
        }
        proof {
            if inside {
                assert(meet(*cfg, d, b).contains(k.0));
            }
        }
        let ghost before = out@;
        if inside || k.0 == b.0 {
            out.insert(k.0);
        }
        proof {
            let pre = dominators.blocks@.take(i as int);
            let post = dominators.blocks@.take(i + 1);
            assert(post =~= pre.push(k));
            assert forall|n: u64|
                out@.contains(n) <==> dominator_update(*cfg, d, b).contains(n) && post.contains(
                    BasicBlockIdx(n),
                ) by {
                let x = BasicBlockIdx(n);
                assert(post.contains(x) <==> pre.contains(x) || x == k) by {
                    if post.contains(x) {
                        let m = choose|m: int| 0 <= m < post.len() && post[m] == x;
                        if m < i {
                            assert(pre[m] == x);
                        }
                    }
                    if pre.contains(x) {
                        let m = choose|m: int| 0 <= m < pre.len() && pre[m] == x;
                        assert(post[m] == x);
                    }
                    if x == k {
                        assert(post[i as int] == x);
                    }
                }
                assert(before.contains(n) <==> dominator_update(*cfg, d, b).contains(n)
                    && pre.contains(x));
            }
        }
        i += 1;
    }
    proof {
        assert(dominators.blocks@.take(dominators.blocks@.len() as int) =~= dominators.blocks@);
        assert forall|n: u64| out@.contains(n) <==> dominator_update(*cfg, d, b).contains(n) by {
            if dominator_update(*cfg, d, b).contains(n) {
                if n == b.0 {
                    assert(dominators.blocks@.contains(b));
                } else {
                    let p = cfg.preds(b)[0];
                    assert(cfg.preds(b).contains(p));
                    assert(cfg.has(p));
                    assert(dominators.blocks@.contains(p));
                    assert(d[cfg.preds(b)[0].0].contains(n));
                    assert(dominators.sets@[p.0]@.subset_of(numbers(dominators.blocks@)));
                    assert(numbers(dominators.blocks@).contains(n));
                }
            }
        }
        assert(out@ =~= dominator_update(*cfg, d, b));
    }
    out
}

/// Every block but the entry: those that can be reached from the entry in
/// reverse postorder, then the others.
fn sweep_order(cfg: &FunctionCfg, keys: &Vec<BasicBlockIdx>) -> (order: Vec<BasicBlockIdx>)
    requires
        cfg.wf(),
        forall|k: BasicBlockIdx| #[trigger] keys@.contains(k) <==> cfg.has(k),
    ensures
        forall|k: BasicBlockIdx| #[trigger] order@.contains(k) <==> cfg.has(k) && k != cfg.entry,
{
    let reachable = construct_postorder(cfg);
    let mut order: Vec<BasicBlockIdx> = Vec::new();
    let mut i: usize = reachable.len();
    while i > 0
        invariant
            i <= reachable@.len(),
            cfg.wf(),
            forall|k: BasicBlockIdx| #[trigger] order@.contains(k) ==> cfg.has(k) && k != cfg.entry,
            forall|j: int|
                i <= j < reachable@.len() && cfg.has(#[trigger] reachable@[j]) && reachable@[j]
                    != cfg.entry ==> order@.contains(reachable@[j]),
        decreases i,
    {
        i -= 1;
        let k = reachable[i];
        let ghost before = order@;
        if k.0 != cfg.entry.0 && cfg.contains(k) {
            order.push(k);
            proof {
                lemma_push_contains(before, k);
            }
        }
    }
    let mut j: usize = 0;
    while j < keys.len()
        invariant
            j <= keys@.len(),
            cfg.wf(),
            forall|k: BasicBlockIdx| #[trigger] keys@.contains(k) <==> cfg.has(k),
            forall|k: BasicBlockIdx| #[trigger] order@.contains(k) ==> cfg.has(k) && k != cfg.entry,
            forall|m: int|
                0 <= m < reachable@.len() && cfg.has(#[trigger] reachable@[m]) && reachable@[m]
                    != cfg.entry ==> order@.contains(reachable@[m]),
            forall|m: int|
                0 <= m < j && (#[trigger] keys@[m]) != cfg.entry ==> order@.contains(keys@[m]),
        decreases keys@.len() - j,
    {
        let k = keys[j];
        let ghost before = order@;
        assert(keys@.contains(k));
        if k.0 != cfg.entry.0 && !list_contains(reachable.as_slice(), k) {
            order.push(k);
            proof {
                lemma_push_contains(before, k);
            }
        } else if k.0 != cfg.entry.0 {
            proof {
                let m = choose|m: int| 0 <= m < reachable@.len() && reachable@[m] == k;
                assert(order@.contains(reachable@[m]));
            }
        }
        j += 1;
    }
    proof {
        assert forall|k: BasicBlockIdx| cfg.has(k) && k != cfg.entry implies #[trigger] order@.contains(
            k,
        ) by {
            assert(keys@.contains(k));
            let m = choose|m: int| 0 <= m < keys@.len() && keys@[m] == k;
            assert(order@.contains(keys@[m]));
        }
    }
    order
}

/// What a list with one more element contains.
pub proof fn lemma_push_contains(s: Seq<BasicBlockIdx>, k: BasicBlockIdx)
    ensures
        forall|q: BasicBlockIdx| #[trigger] s.push(k).contains(q) <==> s.contains(q) || q == k,
{
    assert forall|q: BasicBlockIdx| #[trigger] s.push(k).contains(q) <==> s.contains(q) || q
        == k by {
        if s.contains(q) {
            let i = choose|i: int| 0 <= i < s.len() && s[i] == q;
            assert(s.push(k)[i] == q);
        }
        if q == k {
            assert(s.push(k)[s.len() as int] == q);
        }
    }
}

/// Whether every solution of the equations within the graph is below `d`.
pub open spec fn above_solutions(cfg: FunctionCfg, d: Map<u64, Set<u64>>) -> bool {
    forall|solution: Map<u64, Set<u64>>| #[trigger]
        dominator_equations(cfg, solution) ==> below(cfg, solution, d)
}

/// The start of the iteration: the entry with itself alone, every other
/// block with all blocks.
fn initial_dominators(cfg: &FunctionCfg, keys: &Vec<BasicBlockIdx>) -> (r: BlockSets)
    requires
        cfg.wf(),
        keys@.no_duplicates(),
        forall|k: BasicBlockIdx| #[trigger] keys@.contains(k) <==> cfg.has(k),
    ensures
        r.wf(),
        r.blocks@ == keys@,
        within(*cfg, r@),
        r@[cfg.entry.0] == set![cfg.entry.0],
        forall|k: BasicBlockIdx| cfg.has(k) && k != cfg.entry ==> #[trigger] r@[k.0] == cfg.blocks().dom(),
{
    let mut list: Vec<BasicBlockIdx> = Vec::new();
    let mut c: usize = 0;
    while c < keys.len()
        invariant
            c <= keys@.len(),
            list@ == keys@.take(c as int),
        decreases keys@.len() - c,
    {
        list.push(keys[c]);
        assert(list@ =~= keys@.take(c + 1));
        c += 1;
    }
    assert(keys@.take(keys@.len() as int) =~= keys@);
    let mut r = BlockSets::new(list);
    proof {
        assert(numbers(keys@) =~= cfg.blocks().dom()) by {
            assert forall|n: u64| numbers(keys@).contains(n) <==> cfg.blocks().dom().contains(n) by {
                assert(keys@.contains(BasicBlockIdx(n)) <==> cfg.has(BasicBlockIdx(n)));
            }
        }
    }
    let mut i: usize = 0;
    while i < keys.len()
        invariant
            i <= keys@.len(),
            cfg.wf(),
            keys@.no_duplicates(),
            forall|k: BasicBlockIdx| #[trigger] keys@.contains(k) <==> cfg.has(k),
            numbers(keys@) == cfg.blocks().dom(),
            r.wf(),
            r.blocks@ == keys@,
            forall|j: int|
                0 <= j < i ==> #[trigger] r@[keys@[j].0] == if keys@[j] == cfg.entry {
                    set![cfg.entry.0]
                } else {
                    cfg.blocks().dom()
                },
        decreases keys@.len() - i,
    {
        let k = keys[i];
        let mut all: HashSet<u64> = HashSet::new();
        if k.0 == cfg.entry.0 {
            all.insert(k.0);
            assert(all@ =~= set![cfg.entry.0]);
            assert(keys@.contains(k));
        } else {
            let mut m: usize = 0;
            while m < keys.len()
                invariant
                    m <= keys@.len(),
                    forall|n: u64| all@.contains(n) <==> keys@.take(m as int).contains(BasicBlockIdx(n)),
                decreases keys@.len() - m,
            {
                let ghost before = all@;
                all.insert(keys[m].0);
                proof {
                    let pre = keys@.take(m as int);
                    let post = keys@.take(m + 1);
                    assert(post =~= pre.push(keys@[m as int]));
                    lemma_push_contains(pre, keys@[m as int]);
                }
                m += 1;
            }
            assert(keys@.take(keys@.len() as int) =~= keys@);
            assert(all@ =~= numbers(keys@));
        }
        let ghost before = r@;
        assert(keys@.contains(k));
        r.set(k, all);
        proof {
            assert forall|j: int| 0 <= j < i + 1 implies #[trigger] r@[keys@[j].0] == if keys@[j]
                == cfg.entry {
                set![cfg.entry.0]
            } else {
                cfg.blocks().dom()
            } by {
                if j < i {
                    assert(keys@[j] != keys@[i as int]);
                    assert(r@[keys@[j].0] == before[keys@[j].0]);
                }
            }
        }
        i += 1;
    }
    proof {
        assert(r@.dom() =~= cfg.blocks().dom()) by {
            assert forall|n: u64| r@.dom().contains(n) <==> cfg.blocks().dom().contains(n) by {
                assert(r.blocks@.contains(BasicBlockIdx(n)) <==> r.sets@.contains_key(n));
            }
        }
        assert forall|n: u64| #[trigger] r@.contains_key(n) implies r@[n].subset_of(
            cfg.blocks().dom(),
        ) by {
            let k = BasicBlockIdx(n);
            assert(keys@.contains(k));
            let j = choose|j: int| 0 <= j < keys@.len() && keys@[j] == k;
            assert(r@[keys@[j].0] == r@[n]);
        }
        assert(keys@.contains(cfg.entry));
        let e = choose|j: int| 0 <= j < keys@.len() && keys@[j] == cfg.entry;
        assert(r@[keys@[e].0] == set![cfg.entry.0]);
        assert forall|k: BasicBlockIdx| cfg.has(k) && k != cfg.entry implies #[trigger] r@[k.0]
            == cfg.blocks().dom() by {
            assert(keys@.contains(k));
            let j = choose|j: int| 0 <= j < keys@.len() && keys@[j] == k;
            assert(r@[keys@[j].0] == r@[k.0]);
        }
    }
    r
}

/// The dominators of every block.
///
/// The sets start with the entry alone for the entry and all blocks for any
/// other block; then each block but the entry, those that can be reached
/// from the entry first and in reverse postorder, is given itself and what
/// its predecessors have in common, again and again until nothing changes.
/// The result solves the equations of dominance, and is the largest
/// solution.
pub fn compute_dominators(cfg: &FunctionCfg) -> (r: BlockSets)
    requires
        cfg.wf(),
    ensures
        r.wf(),
        covers(*cfg, r),
        dominator_equations(*cfg, r@),
        above_solutions(*cfg, r@),
        forall|b: BasicBlockIdx| cfg.has(b) ==> r.holds(b, b),
{
    let keys = cfg.keys();
    let order = sweep_order(cfg, &keys);
    let mut dominators = initial_dominators(cfg, &keys);
    proof {
        assert(settled(*cfg, dominators@)) by {
            assert forall|c: BasicBlockIdx| cfg.has(c) && c != cfg.entry implies (
            #[trigger] dominator_update(*cfg, dominators@, c)).subset_of(dominators@[c.0]) by {
                assert forall|k: u64| dominator_update(*cfg, dominators@, c).contains(
                    k,
                ) implies cfg.blocks().dom().contains(k) by {
                    if k != c.0 {
                        let p = cfg.preds(c)[0];
                        assert(cfg.preds(c).contains(p));
                        assert(cfg.has(p));
                        assert(dominators@[cfg.preds(c)[0].0].contains(k));
                        assert(dominators@.contains_key(p.0));
                    }
                }
            }
        }
        assert(above_solutions(*cfg, dominators@)) by {
            assert forall|solution: Map<u64, Set<u64>>| #[trigger]
                dominator_equations(*cfg, solution) implies below(
                *cfg,
                solution,
                dominators@,
            ) by {
                assert forall|n: u64| #[trigger] cfg.blocks().dom().contains(n) implies solution[n].subset_of(
                dominators@[n]) by {
                    assert(solution.contains_key(n));
                    if n != cfg.entry.0 {
                        assert(cfg.has(BasicBlockIdx(n)));
                        assert(dominators@[BasicBlockIdx(n).0] == cfg.blocks().dom());
                    }
                }
            }
        }
    }
    loop
        invariant
            cfg.wf(),
            keys@.no_duplicates(),
            forall|k: BasicBlockIdx| #[trigger] keys@.contains(k) <==> cfg.has(k),
            forall|k: BasicBlockIdx| #[trigger] order@.contains(k) <==> cfg.has(k) && k != cfg.entry,
            dominators.wf(),
            dominators.blocks@ == keys@,
            within(*cfg, dominators@),
            settled(*cfg, dominators@),
            above_solutions(*cfg, dominators@),
            dominators@[cfg.entry.0] == set![cfg.entry.0],
        ensures
            dominators.wf(),
            dominators.blocks@ == keys@,
            dominator_equations(*cfg, dominators@),
            above_solutions(*cfg, dominators@),
        decreases total_size(dominators@, keys@),
    {
        let ghost start = dominators@;
        let mut changed = false;
        let mut i: usize = 0;
        while i < order.len()
            invariant
                i <= order@.len(),
                cfg.wf(),
                keys@.no_duplicates(),
                forall|k: BasicBlockIdx| #[trigger] keys@.contains(k) <==> cfg.has(k),
                forall|k: BasicBlockIdx|
                    #[trigger] order@.contains(k) <==> cfg.has(k) && k != cfg.entry,
                dominators.wf(),
                dominators.blocks@ == keys@,
                within(*cfg, dominators@),
                settled(*cfg, dominators@),
                above_solutions(*cfg, dominators@),
                dominators@[cfg.entry.0] == set![cfg.entry.0],
                total_size(dominators@, keys@) <= total_size(start, keys@),
                changed ==> total_size(dominators@, keys@) < total_size(start, keys@),
                !changed ==> dominators@ == start,
                !changed ==> forall|j: int|
                    0 <= j < i ==> start[(#[trigger] order@[j]).0] == dominator_update(
                        *cfg,
                        start,
                        order@[j],
                    ),
            decreases order@.len() - i,
        {
            let b = order[i];
            assert(order@.contains(b));
            let ghost d = dominators@;
            let new = dominator_update_set(cfg, &dominators, b);
            proof {
                lemma_dominator_update_shrinks(*cfg, d, b);
                assert(d.contains_key(b.0));
                assert(d[b.0].subset_of(cfg.blocks().dom()));
                vstd::set_lib::lemma_set_subset_finite(cfg.blocks().dom(), d[b.0]);
                assert(keys@.contains(b));
                lemma_total_shrinks(d, keys@, b, new@);
                assert(numbers(keys@) =~= cfg.blocks().dom()) by {
                    assert forall|n: u64|
                        numbers(keys@).contains(n) <==> cfg.blocks().dom().contains(n) by {
                        assert(keys@.contains(BasicBlockIdx(n)) <==> cfg.has(BasicBlockIdx(n)));
                    }
                }
                assert(new@.subset_of(d[b.0]));
            }
            let same = match dominators.sets.get(&b.0) {
                Some(previous) => same_set(&new, previous, &keys),
                None => false,
            };
            if !same {
                changed = true;
            }
            dominators.set(b, new);
            proof {
                assert(dominators@ == d.insert(b.0, dominator_update(*cfg, d, b)));
                assert(dominators@[cfg.entry.0] == set![cfg.entry.0]);
                assert(above_solutions(*cfg, dominators@)) by {
                    assert forall|solution: Map<u64, Set<u64>>| #[trigger]
                        dominator_equations(*cfg, solution) implies below(
                        *cfg,
                        solution,
                        dominators@,
                    ) by {
                        lemma_solution_stays_below(*cfg, d, b, solution);
                    }
                }
                if same {
                    assert(dominators@ =~= d);
                }
            }
            i += 1;
        }
        if !changed {
            proof {
                assert forall|b: BasicBlockIdx| cfg.has(b) && b != cfg.entry implies #[trigger] start[b.0]
                    == dominator_update(*cfg, start, b) by {
                    assert(order@.contains(b));
                    let j = choose|j: int| 0 <= j < order@.len() && order@[j] == b;
                    assert(start[order@[j].0] == dominator_update(*cfg, start, order@[j]));
                }
            }
            break ;
        }
    }
    proof {
        assert forall|b: BasicBlockIdx| cfg.has(b) implies dominators.holds(b, b) by {
            if b != cfg.entry {
                assert(dominators@[b.0] == dominator_update(*cfg, dominators@, b));
            }
        }
        assert forall|k: BasicBlockIdx| #[trigger] dominators.blocks@.contains(k) <==> cfg.has(
            k,
        ) by {
            assert(keys@.contains(k) <==> cfg.has(k));
        }
    }
    dominators
}

/// Whether `a` dominates `b` in `d` and is not `b`.
pub open spec fn strictly_dominates(d: Map<u64, Set<u64>>, a: BasicBlockIdx, b: BasicBlockIdx) -> bool {
    d.contains_key(b.0) && d[b.0].contains(a.0) && a != b
}

/// Whether `a` is the closest strict dominator of `b` in `d`: every other
/// strict dominator of `b` strictly dominates `a` too.
pub open spec fn immediately_dominates(d: Map<u64, Set<u64>>, a: BasicBlockIdx, b: BasicBlockIdx) -> bool {
    &&& strictly_dominates(d, a, b)
    &&& forall|other: BasicBlockIdx|
        other != a && #[trigger] strictly_dominates(d, other, b) ==> strictly_dominates(
            d,
            other,
            a,
        )
}

/// A copy of a list of handles.
pub fn dup_blocks(blocks: &Vec<BasicBlockIdx>) -> (r: Vec<BasicBlockIdx>)
    ensures
        r@ == blocks@,
{
    let mut list: Vec<BasicBlockIdx> = Vec::new();
    let mut c: usize = 0;
    while c < blocks.len()
        invariant
            c <= blocks@.len(),
            list@ == blocks@.take(c as int),
        decreases blocks@.len() - c,
    {
        list.push(blocks[c]);
        assert(list@ =~= blocks@.take(c + 1));
        c += 1;
    }
    assert(blocks@.take(blocks@.len() as int) =~= blocks@);
    list
}

/// Whether `a` is the closest strict dominator of `b`.
fn is_immediate(dominators: &BlockSets, a: BasicBlockIdx, b: BasicBlockIdx) -> (r: bool)
    requires
        dominators.wf(),
    ensures
        r == immediately_dominates(dominators@, a, b),
{
    let d = Ghost(dominators@);
    if !(dominators.contains(b, a) && a.0 != b.0) {
        return false;
    }
    let mut i: usize = 0;
    while i < dominators.blocks.len()
        invariant
            i <= dominators.blocks@.len(),
            dominators.wf(),
            d@ == dominators@,
            strictly_dominates(d@, a, b),
            forall|j: int|
                0 <= j < i && (#[trigger] dominators.blocks@[j]) != a && strictly_dominates(
                    d@,
                    dominators.blocks@[j],
                    b,
                ) ==> strictly_dominates(d@, dominators.blocks@[j], a),
        decreases dominators.blocks@.len() - i,
    {
        let other = dominators.blocks[i];
        if other.0 != a.0 && (dominators.contains(b, other) && other.0 != b.0) && !(
        dominators.contains(a, other) && other.0 != a.0) {
            assert(strictly_dominates(d@, other, b) && !strictly_dominates(d@, other, a));
            return false;
        }
        i += 1;
    }
    proof {
        assert forall|other: BasicBlockIdx|
            other != a && #[trigger] strictly_dominates(d@, other, b) implies strictly_dominates(
            d@,
            other,
            a,
        ) by {
            assert(dominators.sets@.contains_key(b.0));
            assert(numbers(dominators.blocks@).contains(other.0));
            let j = choose|j: int|
                0 <= j < dominators.blocks@.len() && dominators.blocks@[j] == other;
        }
    }
    true
}

/// The dominator tree: for each block that has a set of dominators, the
/// blocks of which it is the closest strict dominator.
pub fn compute_dominator_tree(dominators: &BlockSets) -> (tree: BlockSets)
    requires
        dominators.wf(),
    ensures
        tree.wf(),
        tree.blocks@ == dominators.blocks@,
        forall|a: BasicBlockIdx, b: BasicBlockIdx|
            #[trigger] tree.holds(a, b) <==> dominators.blocks@.contains(a)
                && immediately_dominates(dominators@, a, b),
{
    let mut tree = BlockSets::new(dup_blocks(&dominators.blocks));
    let ghost d = dominators@;
    let ghost blocks = dominators.blocks@;
    let mut i: usize = 0;
    while i < dominators.blocks.len()
        invariant
            i <= blocks.len(),
            dominators.wf(),
            d == dominators@,
            blocks == dominators.blocks@,
            tree.wf(),
            tree.blocks@ == blocks,
            forall|j: int, b: BasicBlockIdx|
                0 <= j < i ==> (#[trigger] tree.holds(blocks[j], b) <==> immediately_dominates(
                    d,
                    blocks[j],
                    b,
                )),
        decreases blocks.len() - i,
    {
        let a = dominators.blocks[i];
        let mut children: HashSet<u64> = HashSet::new();
        let mut m: usize = 0;
        while m < dominators.blocks.len()
            invariant
                m <= blocks.len(),
                dominators.wf(),
                d == dominators@,
                blocks == dominators.blocks@,
                forall|n: u64|
                    children@.contains(n) <==> immediately_dominates(d, a, BasicBlockIdx(n))
                        && exists|j: int| 0 <= j < m && #[trigger] blocks[j] == BasicBlockIdx(n),
            decreases blocks.len() - m,
        {
            let b = dominators.blocks[m];
            let ghost before = children@;
            if is_immediate(dominators, a, b) {
                children.insert(b.0);
            }
            proof {
                assert forall|n: u64|
                    children@.contains(n) <==> immediately_dominates(d, a, BasicBlockIdx(n))
                        && exists|j: int|
                        0 <= j < m + 1 && #[trigger] blocks[j] == BasicBlockIdx(n) by {
                    let x = BasicBlockIdx(n);
                    if exists|j: int| 0 <= j < m + 1 && #[trigger] blocks[j] == x {
                        let j = choose|j: int| 0 <= j < m + 1 && #[trigger] blocks[j] == x;
                        if j < m {
                            assert(exists|j: int| 0 <= j < m && #[trigger] blocks[j] == x);
                        } else {
                            assert(x == b);
                        }
                    }
                    if before.contains(n) {
                        let j = choose|j: int| 0 <= j < m && #[trigger] blocks[j] == x;
                        assert(0 <= j < m + 1 && blocks[j] == x);
                    }
                    if x == b {
                        assert(blocks[m as int] == x);
                    }
                }
            }
            m += 1;
        }
        proof {
            assert(children@.subset_of(numbers(blocks))) by {
                assert forall|n: u64| children@.contains(n) implies numbers(blocks).contains(n) by {
                    let j = choose|j: int|
                        0 <= j < blocks.len() && #[trigger] blocks[j] == BasicBlockIdx(n);
                }
            }
            assert(blocks.contains(a));
            assert forall|n: u64| children@.contains(n) <==> immediately_dominates(
                d,
                a,
                BasicBlockIdx(n),
            ) by {
                let x = BasicBlockIdx(n);
                if immediately_dominates(d, a, x) {
                    assert(dominators.sets@.contains_key(x.0));
                    assert(blocks.contains(x));
                    let j = choose|j: int| 0 <= j < blocks.len() && blocks[j] == x;
                    assert(0 <= j < blocks.len() && blocks[j] == BasicBlockIdx(n));
                }
            }
        }
        let ghost old_tree = tree;
        tree.set(a, children);
        proof {
            assert forall|j: int, b: BasicBlockIdx| 0 <= j < i + 1 implies (#[trigger] tree.holds(
                blocks[j],
                b,
            ) <==> immediately_dominates(d, blocks[j], b)) by {
                assert(blocks.contains(blocks[j]));
                if j < i {
                    assert(blocks[j] != blocks[i as int]);
                    assert(old_tree.holds(blocks[j], b) <==> immediately_dominates(d, blocks[j], b));
                    assert(tree@[blocks[j].0] == old_tree@[blocks[j].0]);
                    assert(old_tree@.contains_key(blocks[j].0) == tree@.contains_key(blocks[j].0));
                } else {
                    assert(b == BasicBlockIdx(b.0));
                    assert(tree@.contains_key(a.0));
                }
            }
        }
        i += 1;
    }
    proof {
        assert forall|a: BasicBlockIdx, b: BasicBlockIdx| #[trigger]
            tree.holds(a, b) <==> blocks.contains(a) && immediately_dominates(d, a, b) by {
            if tree.holds(a, b) {
                assert(tree.sets@.contains_key(a.0));
                assert(tree.blocks@.contains(a));
            }
            if blocks.contains(a) {
                let j = choose|j: int| 0 <= j < blocks.len() && blocks[j] == a;
                assert(tree.holds(blocks[j], b) <==> immediately_dominates(d, blocks[j], b));
            }
        }
    }
    tree
}

/// Whether `s` is in the dominance frontier of `a`: a successor of a block
/// that `a` dominates, of `a` itself too, that `a` does not strictly
/// dominate.
pub open spec fn in_frontier(
    cfg: FunctionCfg,
    d: Map<u64, Set<u64>>,
    a: BasicBlockIdx,
    s: BasicBlockIdx,
) -> bool {
    &&& !strictly_dominates(d, a, s)
    &&& exists|p: BasicBlockIdx|
        cfg.has(p) && (p == a || d[p.0].contains(a.0)) && #[trigger] cfg.succ(p).contains(s)
}

/// Whether `s` is among the first `upto` of `successors` and not strictly
/// dominated by `a`.
pub open spec fn among(
    d: Map<u64, Set<u64>>,
    a: BasicBlockIdx,
    successors: Seq<BasicBlockIdx>,
    upto: int,
    s: BasicBlockIdx,
) -> bool {
    !strictly_dominates(d, a, s) && exists|w: int| 0 <= w < upto && #[trigger] successors[w] == s
}

/// Whether some of the first `upto` of `blocks` puts `s` in the frontier of `a`.
pub open spec fn frontier_upto(
    cfg: FunctionCfg,
    d: Map<u64, Set<u64>>,
    blocks: Seq<BasicBlockIdx>,
    upto: int,
    a: BasicBlockIdx,
    s: BasicBlockIdx,
) -> bool {
    &&& !strictly_dominates(d, a, s)
    &&& exists|j: int|
        0 <= j < upto && (blocks[j] == a || d[blocks[j].0].contains(a.0)) && #[trigger] cfg.succ(
            blocks[j],
        ).contains(s)
}

/// The dominance frontier of every block.
pub fn compute_dominance_frontiers(cfg: &FunctionCfg, dominators: &BlockSets) -> (frontiers: BlockSets)
    requires
        cfg.wf(),
        dominators.wf(),
        covers(*cfg, *dominators),
    ensures
        frontiers.wf(),
        frontiers.blocks@ == dominators.blocks@,
        forall|a: BasicBlockIdx, s: BasicBlockIdx|
            #[trigger] frontiers.holds(a, s) <==> cfg.has(a) && in_frontier(
                *cfg,
                dominators@,
                a,
                s,
            ),
{
    let mut frontiers = BlockSets::new(dup_blocks(&dominators.blocks));
    let ghost d = dominators@;
    let ghost blocks = dominators.blocks@;
    let mut i: usize = 0;
    while i < dominators.blocks.len()
        invariant
            i <= blocks.len(),
            cfg.wf(),
            dominators.wf(),
            covers(*cfg, *dominators),
            d == dominators@,
            blocks == dominators.blocks@,
            frontiers.wf(),
            frontiers.blocks@ == blocks,
            forall|j: int, s: BasicBlockIdx|
                0 <= j < i ==> (#[trigger] frontiers.holds(blocks[j], s) <==> in_frontier(
                    *cfg,
                    d,
                    blocks[j],
                    s,
                )),
        decreases blocks.len() - i,
    {
        let a = dominators.blocks[i];
        let mut frontier: HashSet<u64> = HashSet::new();
        let mut m: usize = 0;
        while m < dominators.blocks.len()
            invariant
                m <= blocks.len(),
                cfg.wf(),
                dominators.wf(),
                covers(*cfg, *dominators),
                d == dominators@,
                blocks == dominators.blocks@,
                frontier@.subset_of(cfg.blocks().dom()),
                forall|n: u64|
                    frontier@.contains(n) <==> frontier_upto(
                        *cfg,
                        d,
                        blocks,
                        m as int,
                        a,
                        BasicBlockIdx(n),
                    ),
            decreases blocks.len() - m,
        {
            let p = dominators.blocks[m];
            assert(blocks.contains(p));
            let ghost before = frontier@;
            let dominated = p.0 == a.0 || dominators.contains(p, a);
            if dominated {
                let successors = cfg.successors(p);
                let mut t: usize = 0;
                while t < successors.len()
                    invariant
                        t <= successors@.len(),
                        cfg.wf(),
                        cfg.has(p),
                        dominators.wf(),
                        d == dominators@,
                        successors@ == cfg.succ(p),
                        frontier@.subset_of(cfg.blocks().dom()),
                        forall|n: u64|
                            #[trigger] frontier@.contains(n) <==> before.contains(n) || among(
                                d,
                                a,
                                successors@,
                                t as int,
                                BasicBlockIdx(n),
                            ),
                    decreases successors@.len() - t,
                {
                    let s = successors[t];
                    let ghost inner = frontier@;
                    proof {
                        assert(cfg.succ(p).contains(s));
                        lemma_targets_exist(*cfg, p, s);
                    }
                    let taken = !(dominators.contains(s, a) && a.0 != s.0);
                    if taken {
                        frontier.insert(s.0);
                    }
                    proof {
                        assert(taken == !strictly_dominates(d, a, s));
                        assert(frontier@ =~= if taken {
                            inner.insert(s.0)
                        } else {
                            inner
                        });
                        assert forall|n: u64|
                            #[trigger] frontier@.contains(n) <==> before.contains(n) || among(
                                d,
                                a,
                                successors@,
                                t + 1,
                                BasicBlockIdx(n),
                            ) by {
                            let x = BasicBlockIdx(n);
                            assert(inner.contains(n) <==> before.contains(n) || among(
                                d,
                                a,
                                successors@,
                                t as int,
                                x,
                            ));
                            assert(x == s <==> n == s.0);
                            if exists|w: int| 0 <= w < t + 1 && #[trigger] successors@[w] == x {
                                let w = choose|w: int|
                                    0 <= w < t + 1 && #[trigger] successors@[w] == x;
                                if w < t {
                                    assert(exists|w: int|
                                        0 <= w < t && #[trigger] successors@[w] == x);
                                } else {
                                    assert(x == s);
                                }
                            }
                            if exists|w: int| 0 <= w < t && #[trigger] successors@[w] == x {
                                let w = choose|w: int| 0 <= w < t && #[trigger] successors@[w] == x;
                                assert(0 <= w < t + 1 && successors@[w] == x);
                            }
                            if x == s {
                                assert(successors@[t as int] == x);
                            }
                        }
                    }
                    t += 1;
                }
            }
            proof {
                assert forall|n: u64|
                    frontier@.contains(n) <==> frontier_upto(
                        *cfg,
                        d,
                        blocks,
                        m + 1,
                        a,
                        BasicBlockIdx(n),
                    ) by {
                    let x = BasicBlockIdx(n);
                    assert(before.contains(n) <==> frontier_upto(*cfg, d, blocks, m as int, a, x));
                    if frontier_upto(*cfg, d, blocks, m + 1, a, x) {
                        let j = choose|j: int|
                            0 <= j < m + 1 && (blocks[j] == a || d[blocks[j].0].contains(a.0))
                                && #[trigger] cfg.succ(blocks[j]).contains(x);
                        if j < m {
                            assert(frontier_upto(*cfg, d, blocks, m as int, a, x));
                        } else {
                            assert(dominated);
                            let w = choose|w: int|
                                0 <= w < cfg.succ(p).len() && cfg.succ(p)[w] == x;
                            assert(cfg.succ(p)[w] == BasicBlockIdx(n));
                        }
                    }
                    if frontier_upto(*cfg, d, blocks, m as int, a, x) {
                        let j = choose|j: int|
                            0 <= j < m && (blocks[j] == a || d[blocks[j].0].contains(a.0))
                                && #[trigger] cfg.succ(blocks[j]).contains(x);
                        assert(0 <= j < m + 1 && cfg.succ(blocks[j]).contains(x));
                    }
                    if frontier@.contains(n) && !before.contains(n) {
                        assert(dominated);
                        let w = choose|w: int|
                            0 <= w < cfg.succ(p).len() && #[trigger] cfg.succ(p)[w] == x;
                        assert(cfg.succ(p).contains(x));
                        assert(cfg.succ(blocks[m as int]).contains(x));
                    }
                }
            }
            m += 1;
        }
        proof {
            assert(numbers(blocks) =~= cfg.blocks().dom()) by {
                assert forall|n: u64| numbers(blocks).contains(n) <==> cfg.blocks().dom().contains(
                    n,
                ) by {
                    assert(blocks.contains(BasicBlockIdx(n)) <==> cfg.has(BasicBlockIdx(n)));
                }
            }
            assert(blocks.contains(a));
            assert forall|n: u64| frontier@.contains(n) <==> in_frontier(
                *cfg,
                d,
                a,
                BasicBlockIdx(n),
            ) by {
                let x = BasicBlockIdx(n);
                if in_frontier(*cfg, d, a, x) {
                    let p = choose|p: BasicBlockIdx|
                        cfg.has(p) && (p == a || d[p.0].contains(a.0)) && #[trigger] cfg.succ(
                            p,
                        ).contains(x);
                    assert(blocks.contains(p));
                    let j = choose|j: int| 0 <= j < blocks.len() && blocks[j] == p;
                    assert(cfg.succ(blocks[j]).contains(x));
                }
                if frontier_upto(*cfg, d, blocks, blocks.len() as int, a, x) {
                    let j = choose|j: int|
                        0 <= j < blocks.len() && (blocks[j] == a || d[blocks[j].0].contains(a.0))
                            && #[trigger] cfg.succ(blocks[j]).contains(x);
                    assert(blocks.contains(blocks[j]));
                    assert(cfg.has(blocks[j]));
                }
            }
        }
        let ghost old_frontiers = frontiers;
        frontiers.set(a, frontier);
        proof {
            assert forall|j: int, s: BasicBlockIdx| 0 <= j < i + 1 implies (
            #[trigger] frontiers.holds(blocks[j], s) <==> in_frontier(*cfg, d, blocks[j], s)) by {
                assert(blocks.contains(blocks[j]));
                if j < i {
                    assert(blocks[j] != blocks[i as int]);
                    assert(old_frontiers.holds(blocks[j], s) <==> in_frontier(
                        *cfg,
                        d,
                        blocks[j],
                        s,
                    ));
                    assert(frontiers@[blocks[j].0] == old_frontiers@[blocks[j].0]);
                    assert(old_frontiers@.contains_key(blocks[j].0) == frontiers@.contains_key(
                        blocks[j].0,
                    ));
                } else {
                    assert(s == BasicBlockIdx(s.0));
                    assert(frontiers@.contains_key(a.0));
                }
            }
        }
        i += 1;
    }
    proof {
        assert forall|a: BasicBlockIdx, s: BasicBlockIdx| #[trigger]
            frontiers.holds(a, s) <==> cfg.has(a) && in_frontier(*cfg, d, a, s) by {
            if frontiers.holds(a, s) {
                assert(frontiers.sets@.contains_key(a.0));
                assert(frontiers.blocks@.contains(a));
            }
            assert(blocks.contains(a) <==> cfg.has(a));
            if blocks.contains(a) {
                let j = choose|j: int| 0 <= j < blocks.len() && blocks[j] == a;
                assert(frontiers.holds(blocks[j], s) <==> in_frontier(*cfg, d, blocks[j], s));
            }
        }
    }
    frontiers
}

} // verus!
