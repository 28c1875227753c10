//! Reaching definitions: for each block, the definitions that may still
//! hold at its end.

use vstd::prelude::*;
use std::collections::{HashMap, HashSet};
use crate::ir::{InstructionExt, InstructionValue, InstructionValueView, InstructionView};
use crate::store::{BasicBlock, BasicBlockIdx};
use crate::cfg::FunctionCfg;
use crate::factset::{Fact, FactSet, fact_views};
use crate::dataflow::{
    Analysis, Direction, all_of, closed_under_flow, flow_in, lemma_all_of, lemma_first_is_entry,
    live_block, pointwise_within, solution_view, solve_dataflow, solves, unvisited,
};

verus! {

broadcast use vstd::std_specs::hash::group_hash_axioms;

/// A definition: the variable defined, what its definition stands for, the
/// block that holds it and its position there. A parameter counts as
/// defined in the entry, at position -1.
#[derive(Debug)]
pub struct Definition(pub String, pub InstructionValue, pub BasicBlockIdx, pub isize);

/// The mathematical value of a [`Definition`].
pub struct DefinitionView {
    pub name: Seq<char>,
    pub value: InstructionValueView,
    pub block: BasicBlockIdx,
    pub index: int,
}

impl View for Definition {
    type V = DefinitionView;

    open spec fn view(&self) -> DefinitionView {
        DefinitionView { name: self.0@, value: self.1@, block: self.2, index: self.3 as int }
    }
}

impl Fact for Definition {
    fn same(&self, other: &Self) -> (r: bool) {
        self.0 == other.0 && self.1.same(&other.1) && self.2.0 == other.2.0 && self.3 == other.3
    }

    fn dup(&self) -> (r: Self) {
        Definition(self.0.clone(), self.1.dup(), self.2, self.3)
    }
}

/// Whether one of the first `upto` instructions of `code` defines `name`.
pub open spec fn kills_before(code: Seq<InstructionView>, upto: int, name: Seq<char>) -> bool {
    exists|j: int| 0 <= j < upto && #[trigger] code[j].kill() == Some(name)
}

/// Whether `x` is the definition made last for its variable among the
/// first `upto` instructions of `code`, the code of the block `idx`.
pub open spec fn defined_at(
    code: Seq<InstructionView>,
    idx: BasicBlockIdx,
    upto: int,
    x: DefinitionView,
) -> bool {
    &&& x.block == idx
    &&& 0 <= x.index < upto
    &&& x.index <= isize::MAX
    &&& code[x.index].kill() == Some(x.name)
    &&& code[x.index].value() == Some(x.value)
    &&& forall|j: int| x.index < j < upto ==> #[trigger] code[j].kill() != Some(x.name)
}

/// The definitions that hold after the first `upto` instructions of `code`:
/// those of `input` whose variable is not defined again, and for each
/// variable defined the definition made last.
pub open spec fn reaching_upto(
    code: Seq<InstructionView>,
    idx: BasicBlockIdx,
    input: Set<DefinitionView>,
    upto: int,
) -> Set<DefinitionView> {
    Set::new(
        |x: DefinitionView|
            (input.contains(x) && !kills_before(code, upto, x.name)) || defined_at(
                code,
                idx,
                upto,
                x,
            ),
    )
}

/// The definitions that the first `upto` instructions of a block make.
pub open spec fn definitions_upto(code: Seq<InstructionView>, idx: BasicBlockIdx, upto: int) -> Seq<
    DefinitionView,
>
    decreases upto,
{
    if upto <= 0 {
        Seq::empty()
    } else {
        let before = definitions_upto(code, idx, upto - 1);
        match (code[upto - 1].kill(), code[upto - 1].value()) {
            (Some(name), Some(value)) => before.push(
                DefinitionView { name, value, block: idx, index: upto - 1 },
            ),
            _ => before,
        }
    }
}

/// The definitions that a block makes.
pub open spec fn block_definitions(block: BasicBlock, idx: BasicBlockIdx) -> Seq<DefinitionView> {
    definitions_upto(block.code(), idx, block.code().len() as int)
}

/// The definitions of the parameters `names`, as held on entry.
pub open spec fn parameter_definitions(names: Seq<Seq<char>>, entry: BasicBlockIdx) -> Seq<
    DefinitionView,
> {
    Seq::new(
        names.len(),
        |a: int|
            DefinitionView {
                name: names[a],
                value: InstructionValueView::Argument,
                block: entry,
                index: -1,
            },
    )
}

/// The names of the parameters of a function.
pub open spec fn parameter_names(cfg: FunctionCfg) -> Seq<Seq<char>> {
    Seq::new(
        cfg.signature.arguments@.len(),
        |a: int| cfg.signature.arguments@[a].name@,
    )
}

/// The definitions that hold on entry: one for each parameter.
pub open spec fn entry_definitions(cfg: FunctionCfg) -> Set<DefinitionView> {
    parameter_definitions(parameter_names(cfg), cfg.entry).to_set()
}

/// A definition made among the first `upto` instructions is listed.
pub proof fn lemma_definitions_upto(
    code: Seq<InstructionView>,
    idx: BasicBlockIdx,
    upto: int,
    x: DefinitionView,
)
    requires
        0 <= upto <= code.len(),
        x.block == idx,
        0 <= x.index < upto,
        code[x.index].kill() == Some(x.name),
        code[x.index].value() == Some(x.value),
    ensures
        definitions_upto(code, idx, upto).contains(x),
    decreases upto,
{
    let before = definitions_upto(code, idx, upto - 1);
    let whole = definitions_upto(code, idx, upto);
    if x.index == upto - 1 {
        assert(whole == before.push(x));
        assert(whole[before.len() as int] == x);
    } else {
        lemma_definitions_upto(code, idx, upto - 1, x);
        let j = choose|j: int| 0 <= j < before.len() && before[j] == x;
        assert(whole[j] == x);
    }
}

/// The analysis of reaching definitions.
pub struct ReachingDefinitions;

impl Analysis for ReachingDefinitions {
    type Fact = Definition;

    open spec fn transfer_spec(
        &self,
        block: BasicBlock,
        idx: BasicBlockIdx,
        input: Set<DefinitionView>,
    ) -> Set<DefinitionView> {
        reaching_upto(block.code(), idx, input, block.code().len() as int)
    }

    open spec fn universe(&self, cfg: FunctionCfg) -> Set<DefinitionView> {
        entry_definitions(cfg).union(
            all_of(cfg, |block: BasicBlock, idx: BasicBlockIdx| block_definitions(block, idx)),
        )
    }

    proof fn lemma_monotone(
        &self,
        block: BasicBlock,
        idx: BasicBlockIdx,
        small: Set<DefinitionView>,
        large: Set<DefinitionView>,
    ) {
    }

    proof fn lemma_universe(&self, cfg: FunctionCfg, k: BasicBlockIdx, input: Set<DefinitionView>) {
        let each = |block: BasicBlock, idx: BasicBlockIdx| block_definitions(block, idx);
        let block = cfg.blocks()[k.0];
        let code = block.code();
        vstd::seq_lib::seq_to_set_is_finite(parameter_definitions(parameter_names(cfg), cfg.entry));
        lemma_all_of(
            cfg,
            each,
            k,
            DefinitionView {
                name: Seq::empty(),
                value: InstructionValueView::Argument,
                block: k,
                index: 0,
            },
        );
        assert forall|x: DefinitionView|
            self.transfer_spec(block, k, input).contains(x) implies self.universe(cfg).contains(
            x,
        ) by {
            if defined_at(code, k, code.len() as int, x) {
                lemma_definitions_upto(code, k, code.len() as int, x);
                lemma_all_of(cfg, each, k, x);
            }
        }
    }

    fn transfer(&self, block: &BasicBlock, idx: BasicBlockIdx, input: FactSet<Definition>) -> (r:
        FactSet<Definition>) {
        let ghost code = block.code();
        let ghost start = input@;
        let mut inputs = input;
        let mut i: usize = 0;
        proof {
            assert(inputs@ =~= reaching_upto(code, idx, start, 0));
        }
        while i < block.instructions.len()
            invariant
                i <= block.instructions@.len(),
                code == block.code(),
                inputs.wf(),
                inputs@ == reaching_upto(code, idx, start, i as int),
            decreases block.instructions@.len() - i,
        {
            let ghost before = inputs@;
            let instruction = &block.instructions[i];
            assert(code[i as int] == instruction@);
            if i <= isize::MAX as usize {
                match (instruction.kill(), instruction.value()) {
                    (Some(name), Some(value)) => {
                        inputs = without_name(&inputs, name);
                        inputs.insert(Definition(name.clone(), value, idx, i as isize));
                    },
                    (Some(name), None) => {
                        inputs = without_name(&inputs, name);
                    },
                    _ => {},
                }
            } else {
                match instruction.kill() {
                    Some(name) => {
                        inputs = without_name(&inputs, name);
                    },
                    None => {},
                }
            }
            proof {
                assert forall|x: DefinitionView|
                    inputs@.contains(x) <==> reaching_upto(code, idx, start, i + 1).contains(
                        x,
                    ) by {
                    assert(before.contains(x) <==> reaching_upto(
                        code,
                        idx,
                        start,
                        i as int,
                    ).contains(x));
                    if kills_before(code, i + 1, x.name) {
                        let j = choose|j: int|
                            0 <= j < i + 1 && #[trigger] code[j].kill() == Some(x.name);
                        if j < i {
                            assert(kills_before(code, i as int, x.name));
                        }
                    }
                    if kills_before(code, i as int, x.name) {
                        let j = choose|j: int|
                            0 <= j < i && #[trigger] code[j].kill() == Some(x.name);
                        assert(0 <= j < i + 1 && code[j].kill() == Some(x.name));
                    }
                    if code[i as int].kill() == Some(x.name) {
                        assert(kills_before(code, i + 1, x.name));
                    }
                    if defined_at(code, idx, i as int, x) && code[i as int].kill() != Some(
                        x.name,
                    ) {
                        assert(defined_at(code, idx, i + 1, x));
                    }
                }
                assert(inputs@ =~= reaching_upto(code, idx, start, i + 1));
            }
            i += 1;
        }
        inputs
    }
}

/// The definitions of `set` but those of the variable `name`.
pub fn without_name(set: &FactSet<Definition>, name: &String) -> (r: FactSet<Definition>)
    requires
        set.wf(),
    ensures
        r.wf(),
        forall|x: DefinitionView| r@.contains(x) <==> set@.contains(x) && x.name != name@,
{
    let mut out: FactSet<Definition> = FactSet::new();
    let ghost all = fact_views(set.items@);
    let mut i: usize = 0;
    while i < set.items.len()
        invariant
            i <= set.items@.len(),
            all == fact_views(set.items@),
            out.wf(),
            forall|x: DefinitionView|
                out@.contains(x) <==> all.take(i as int).contains(x) && x.name != name@,
        decreases set.items@.len() - i,
    {
        let ghost before = out@;
        if set.items[i].0 != *name {
            out.insert(set.items[i].dup());
        }
        proof {
            let pre = all.take(i as int);
            let post = all.take(i + 1);
            assert(post =~= pre.push(all[i as int]));
            assert forall|x: DefinitionView|
                out@.contains(x) <==> post.contains(x) && x.name != name@ by {
                assert(before.contains(x) <==> pre.contains(x) && x.name != name@);
                if post.contains(x) {
                    let j = choose|j: int| 0 <= j < post.len() && post[j] == x;
                    if j < i {
                        assert(pre[j] == x);
                    }
                }
                if pre.contains(x) {
                    let j = choose|j: int| 0 <= j < pre.len() && pre[j] == x;
                    assert(post[j] == x);
                }
                if x == all[i as int] {
                    assert(post[i as int] == x);
                }
            }
        }
        i += 1;
    }
    assert(all.take(set.items@.len() as int) =~= all);
    out
}

/// The definitions that hold on entry: one for each parameter.
pub fn argument_definitions(cfg: &FunctionCfg) -> (r: FactSet<Definition>)
    ensures
        r.wf(),
        r@ == entry_definitions(*cfg),
{
    let mut out: FactSet<Definition> = FactSet::new();
    let ghost all = parameter_definitions(parameter_names(*cfg), cfg.entry);
    let mut i: usize = 0;
    assert(all.take(0).to_set() =~= Set::<DefinitionView>::empty());
    while i < cfg.signature.arguments.len()
        invariant
            i <= cfg.signature.arguments@.len(),
            all == parameter_definitions(parameter_names(*cfg), cfg.entry),
            out.wf(),
            out@ == all.take(i as int).to_set(),
        decreases cfg.signature.arguments@.len() - i,
    {
        out.insert(
            Definition(
                cfg.signature.arguments[i].name.clone(),
                InstructionValue::Argument,
                cfg.entry,
                -1,
            ),
        );
        proof {
            let pre = all.take(i as int);
            let post = all.take(i + 1);
            assert(post =~= pre.push(all[i as int]));
            assert(post.to_set() =~= pre.to_set().insert(all[i as int])) by {
                assert forall|x: DefinitionView|
                    post.to_set().contains(x) <==> pre.to_set().insert(all[i as int]).contains(
                        x,
                    ) by {
                    if post.contains(x) {
                        let j = choose|j: int| 0 <= j < post.len() && post[j] == x;
                        if j < i {
                            assert(pre[j] == x);
                        }
                    }
                    if pre.contains(x) {
                        let j = choose|j: int| 0 <= j < pre.len() && pre[j] == x;
                        assert(post[j] == x);
                    }
                    if x == all[i as int] {
                        assert(post[i as int] == x);
                    }
                }
            }
        }
        i += 1;
    }
    assert(all.take(cfg.signature.arguments@.len() as int) =~= all);
    out
}

/// The definitions that reach the end of each block: the least sets in
/// which the set of every reachable block holds what reaches the ends of its
/// predecessors, and on entry the parameters, passed through the block.
pub fn compute_reaching_definitions(cfg: &FunctionCfg) -> (r: HashMap<u64, FactSet<Definition>>)
    requires
        cfg.wf(),
    ensures
        solves(
            ReachingDefinitions,
            *cfg,
            Direction::Forward,
            entry_definitions(*cfg),
            solution_view(r),
        ),
        forall|n: u64| #[trigger] r@.contains_key(n) ==> r@[n].wf(),
{
    let entry = argument_definitions(cfg);
    solve_dataflow(cfg, Direction::Forward, entry, &ReachingDefinitions)
}

/// Whether the block at position `i + 1` of `path` is a predecessor of the
/// block at position `i`.
pub open spec fn steps_back(cfg: FunctionCfg, path: Seq<BasicBlockIdx>, i: int) -> bool {
    cfg.preds(path[i]).contains(path[i + 1])
}

/// Whether `path` leads from block to predecessor.
pub open spec fn backward_path(cfg: FunctionCfg, path: Seq<BasicBlockIdx>) -> bool {
    &&& path.len() > 0
    &&& forall|i: int| 0 <= i < path.len() - 1 ==> #[trigger] steps_back(cfg, path, i)
}

/// Whether `to` can be reached from `from` by going from block to
/// predecessor, any number of times.
pub open spec fn reaches_back(cfg: FunctionCfg, from: BasicBlockIdx, to: BasicBlockIdx) -> bool {
    exists|path: Seq<BasicBlockIdx>|
        #[trigger] backward_path(cfg, path) && path[0] == from && path.last() == to
}

/// Whether the instruction at the position of `x` in the block of `x`
/// defines the variable of `x` as what `x` says.
pub open spec fn holds_definition(cfg: FunctionCfg, x: DefinitionView) -> bool {
    &&& cfg.has(x.block)
    &&& 0 <= x.index < cfg.blocks()[x.block.0].code().len()
    &&& cfg.blocks()[x.block.0].code()[x.index].kill() == Some(x.name)
    &&& cfg.blocks()[x.block.0].code()[x.index].value() == Some(x.value)
}

/// Whether `x` is the definition of a parameter, or a definition that the
/// graph holds in a block that can be reached backwards from `b`.
pub open spec fn reachable_definition(cfg: FunctionCfg, b: BasicBlockIdx, x: DefinitionView) -> bool {
    x.value is Argument || (holds_definition(cfg, x) && reaches_back(cfg, b, x.block))
}

/// Whether the block `b` does not define `name`.
pub open spec fn untouched(cfg: FunctionCfg, b: BasicBlockIdx, name: Seq<char>) -> bool {
    !kills_before(cfg.blocks()[b.0].code(), cfg.blocks()[b.0].code().len() as int, name)
}

/// Whether `x` is made in its block and not overwritten there: the last
/// definition of its variable in the block, or the definition of a parameter
/// on entry where the entry does not define the parameter.
pub open spec fn survives_block(cfg: FunctionCfg, x: DefinitionView) -> bool {
    &&& cfg.has(x.block)
    &&& {
        ||| defined_at(
            cfg.blocks()[x.block.0].code(),
            x.block,
            cfg.blocks()[x.block.0].code().len() as int,
            x,
        )
        ||| (x.index == -1 && x.value is Argument && x.block == cfg.entry && parameter_names(
            cfg,
        ).contains(x.name) && untouched(cfg, x.block, x.name))
    }
}

/// Whether `path` leads backwards to the block of `x` through blocks that
/// do not define the variable of `x`, and `x` is not overwritten in its own
/// block.
pub open spec fn clean_path(cfg: FunctionCfg, path: Seq<BasicBlockIdx>, x: DefinitionView) -> bool {
    &&& backward_path(cfg, path)
    &&& path.last() == x.block
    &&& forall|i: int| 0 <= i < path.len() - 1 ==> untouched(cfg, #[trigger] path[i], x.name)
    &&& survives_block(cfg, x)
}

/// Whether `x` reaches the end of `b` along some path without a later
/// definition of its variable.
pub open spec fn reaches_cleanly(cfg: FunctionCfg, b: BasicBlockIdx, x: DefinitionView) -> bool {
    exists|path: Seq<BasicBlockIdx>| #[trigger] clean_path(cfg, path, x) && path[0] == b
}

/// For each block, the definitions that reach its end along a path without
/// a later definition of their variable.
pub open spec fn clean_definitions(cfg: FunctionCfg) -> Map<u64, Set<DefinitionView>> {
    Map::new(
        |n: u64| cfg.blocks().dom().contains(n),
        |n: u64| Set::new(|x: DefinitionView| reaches_cleanly(cfg, BasicBlockIdx(n), x)),
    )
}

/// A path that reaches a predecessor cleanly, with a block in front that
/// does not define the variable, reaches that block cleanly.
pub proof fn lemma_clean_extend(
    cfg: FunctionCfg,
    b: BasicBlockIdx,
    path: Seq<BasicBlockIdx>,
    x: DefinitionView,
)
    requires
        clean_path(cfg, path, x),
        cfg.preds(b).contains(path[0]),
        untouched(cfg, b, x.name),
    ensures
        clean_path(cfg, seq![b] + path, x),
        (seq![b] + path)[0] == b,
{
    let longer = seq![b] + path;
    assert forall|i: int| 0 <= i < longer.len() - 1 implies #[trigger] steps_back(
        cfg,
        longer,
        i,
    ) by {
        if i > 0 {
            assert(steps_back(cfg, path, i - 1));
            assert(longer[i] == path[i - 1]);
            assert(longer[i + 1] == path[i]);
        } else {
            assert(longer[1] == path[0]);
        }
    }
    assert forall|i: int| 0 <= i < longer.len() - 1 implies untouched(
        cfg,
        #[trigger] longer[i],
        x.name,
    ) by {
        if i > 0 {
            assert(longer[i] == path[i - 1]);
        }
    }
    assert(longer.last() == path.last());
}

/// The definitions that reach cleanly are closed under the flow.
pub proof fn lemma_clean_closed(cfg: FunctionCfg)
    requires
        cfg.wf(),
    ensures
        closed_under_flow(
            ReachingDefinitions,
            cfg,
            Direction::Forward,
            entry_definitions(cfg),
            clean_definitions(cfg),
        ),
{
    let clean = clean_definitions(cfg);
    let entry = entry_definitions(cfg);
    lemma_first_is_entry(cfg);
    assert forall|b: BasicBlockIdx| #[trigger] live_block(cfg, b) implies ReachingDefinitions.transfer_spec(
        cfg.blocks()[b.0],
        b,
        flow_in(cfg, Direction::Forward, entry, clean, b),
    ).subset_of(clean[b.0]) by {
        let code = cfg.blocks()[b.0].code();
        let input = flow_in(cfg, Direction::Forward, entry, clean, b);
        assert forall|x: DefinitionView|
            reaching_upto(code, b, input, code.len() as int).contains(x) implies clean[b.0].contains(
            x,
        ) by {
            assert(BasicBlockIdx(b.0) == b);
            if defined_at(code, b, code.len() as int, x) {
                let path = seq![b];
                assert(clean_path(cfg, path, x));
                assert(path[0] == b);
            } else {
                assert(input.contains(x) && untouched(cfg, b, x.name));
                if b == cfg.entry && entry.contains(x) {
                    let all = parameter_definitions(parameter_names(cfg), cfg.entry);
                    let a = choose|a: int| 0 <= a < all.len() && all[a] == x;
                    assert(parameter_names(cfg)[a] == x.name);
                    let path = seq![b];
                    assert(clean_path(cfg, path, x));
                    assert(path[0] == b);
                } else {
                    let i = choose|i: int|
                        0 <= i < cfg.preds(b).len() && (#[trigger] clean[cfg.preds(
                            b,
                        )[i].0]).contains(x);
                    let p = cfg.preds(b)[i];
                    assert(cfg.preds(b).contains(p));
                    assert(cfg.has(p));
                    assert(BasicBlockIdx(p.0) == p);
                    assert(reaches_cleanly(cfg, p, x));
                    let path = choose|path: Seq<BasicBlockIdx>|
                        #[trigger] clean_path(cfg, path, x) && path[0] == p;
                    lemma_clean_extend(cfg, b, path, x);
                }
            }
        }
    }
}

/// Every definition in the solution for a block reaches the end of that
/// block along a path, from block to predecessor, to the block that makes
/// it, on which no block defines its variable again.
pub proof fn lemma_reaching_definitions_reach(
    cfg: FunctionCfg,
    solution: Map<u64, Set<DefinitionView>>,
    b: BasicBlockIdx,
    x: DefinitionView,
)
    requires
        cfg.wf(),
        solves(ReachingDefinitions, cfg, Direction::Forward, entry_definitions(cfg), solution),
        cfg.has(b),
        solution[b.0].contains(x),
    ensures
        reaches_cleanly(cfg, b, x),
        reachable_definition(cfg, b, x),
{
    lemma_clean_closed(cfg);
    assert(pointwise_within(cfg, solution, clean_definitions(cfg)));
    assert(cfg.blocks().dom().contains(b.0));
    assert(clean_definitions(cfg)[b.0].contains(x));
    assert(BasicBlockIdx(b.0) == b);
    let path = choose|path: Seq<BasicBlockIdx>| #[trigger] clean_path(cfg, path, x) && path[0] == b;
    if !(x.value is Argument) {
        assert(backward_path(cfg, path) && path[0] == b && path.last() == x.block);
    }
}

/// Whether the graph holds `definition` at the place that it names.
fn holds(cfg: &FunctionCfg, definition: &Definition) -> (r: bool)
    requires
        cfg.wf(),
    ensures
        r == holds_definition(*cfg, definition@),
{
    match cfg.block(definition.2) {
        Some(block) => {
            if definition.3 < 0 || definition.3 as usize >= block.instructions.len() {
                return false;
            }
            let instruction = &block.instructions[definition.3 as usize];
            assert(block.code()[definition.3 as int] == instruction@);
            match (instruction.kill(), instruction.value()) {
                (Some(name), Some(value)) => *name == definition.0 && value.same(&definition.1),
                _ => false,
            }
        },
        None => false,
    }
}

/// Whether every block in `visited` has its predecessors in `visited`,
/// but for the blocks that wait in `queue` at or after `head`.
pub open spec fn closed_back(
    cfg: FunctionCfg,
    visited: Set<u64>,
    queue: Seq<BasicBlockIdx>,
    head: int,
) -> bool {
    forall|j: int, p: BasicBlockIdx|
        0 <= j < head && #[trigger] cfg.preds(queue[j]).contains(p) ==> visited.contains(p.0)
}

/// A set that holds the start of a path and the predecessors of all that
/// it holds, holds the end of the path.
pub proof fn lemma_path_within(
    cfg: FunctionCfg,
    visited: Set<u64>,
    path: Seq<BasicBlockIdx>,
    upto: int,
)
    requires
        backward_path(cfg, path),
        visited.contains(path[0].0),
        forall|v: BasicBlockIdx, p: BasicBlockIdx|
            visited.contains(v.0) && #[trigger] cfg.preds(v).contains(p) ==> visited.contains(p.0),
        0 <= upto < path.len(),
    ensures
        visited.contains(path[upto].0),
    decreases upto,
{
    if upto > 0 {
        lemma_path_within(cfg, visited, path, upto - 1);
        assert(steps_back(cfg, path, upto - 1));
    }
}

/// Whether `definition` is reachable backward from `block`: it is the
/// definition of a parameter, or the graph holds it in a block from which
/// `block` can be reached.
pub fn definition_is_reachable(cfg: &FunctionCfg, block: BasicBlockIdx, definition: &Definition) -> (r:
    bool)
    requires
        cfg.wf(),
        cfg.has(block),
    ensures
        r == reachable_definition(*cfg, block, definition@),
{
    match definition.1 {
        InstructionValue::Argument => {
            return true;
        },
        _ => {},
    }
    if !holds(cfg, definition) {
        return false;
    }
    let target = definition.2;
    let mut visited: HashSet<u64> = HashSet::new();
    let mut queue: Vec<BasicBlockIdx> = Vec::new();
    visited.insert(block.0);
    queue.push(block);
    let mut head: usize = 0;
    proof {
        let start = seq![block];
        assert(backward_path(*cfg, start) && start[0] == block && start.last() == block);
        assert(unvisited(*cfg, visited@).subset_of(cfg.blocks().dom()));
        vstd::set_lib::lemma_set_subset_finite(cfg.blocks().dom(), unvisited(*cfg, visited@));
    }
    while head < queue.len()
        invariant
            head <= queue@.len(),
            cfg.wf(),
            cfg.has(block),
            queue@.len() > 0,
            queue@[0] == block,
            forall|j: int| 0 <= j < queue@.len() ==> cfg.has(#[trigger] queue@[j]),
            forall|n: u64|
                visited@.contains(n) <==> exists|j: int|
                    0 <= j < queue@.len() && (#[trigger] queue@[j]).0 == n,
            forall|j: int| 0 <= j < queue@.len() ==> reaches_back(*cfg, block, #[trigger] queue@[j]),
            closed_back(*cfg, visited@, queue@, head as int),
            forall|j: int| 0 <= j < head ==> (#[trigger] queue@[j]) != target,
            target == definition.2,
            holds_definition(*cfg, definition@),
            !(definition@.value is Argument),
        decreases unvisited(*cfg, visited@).len(), queue@.len() - head,
    {
        let current = queue[head];
        if current.0 == target.0 {
            return true;
        }
        let preds = cfg.predecessors(current);
        let ghost way = choose|path: Seq<BasicBlockIdx>|
            #[trigger] backward_path(*cfg, path) && path[0] == block && path.last() == current;
        let mut i: usize = 0;
        let ghost old_queue = queue@;
        let ghost old_visited = visited@;
        while i < preds.len()
            invariant
                i <= preds@.len(),
                head < old_queue.len(),
                cfg.wf(),
                cfg.has(block),
                cfg.has(current),
                current == old_queue[head as int],
                preds@ == cfg.preds(current),
                backward_path(*cfg, way),
                way[0] == block,
                way.last() == current,
                old_queue.len() <= queue@.len(),
                forall|j: int| 0 <= j < old_queue.len() ==> queue@[j] == old_queue[j],
                forall|j: int| 0 <= j < queue@.len() ==> cfg.has(#[trigger] queue@[j]),
                forall|n: u64|
                    visited@.contains(n) <==> exists|j: int|
                        0 <= j < queue@.len() && (#[trigger] queue@[j]).0 == n,
                forall|j: int|
                    0 <= j < queue@.len() ==> reaches_back(*cfg, block, #[trigger] queue@[j]),
                old_visited.subset_of(visited@),
                forall|w: int| 0 <= w < i ==> visited@.contains((#[trigger] preds@[w]).0),
                unvisited(*cfg, visited@).len() <= unvisited(*cfg, old_visited).len(),
                queue@.len() > old_queue.len() ==> unvisited(*cfg, visited@).len() < unvisited(
                    *cfg,
                    old_visited,
                ).len(),
            decreases preds@.len() - i,
        {
            let p = preds[i];
            proof {
                assert(cfg.preds(current).contains(p));
                assert(cfg.has(p));
            }
            if !visited.contains(&p.0) {
                let ghost before_queue = queue@;
                let ghost before_visited = visited@;
                visited.insert(p.0);
                queue.push(p);
                proof {
                    let longer = way.push(p);
                    assert forall|k: int| 0 <= k < longer.len() - 1 implies #[trigger] steps_back(
                        *cfg,
                        longer,
                        k,
                    ) by {
                        if k < way.len() - 1 {
                            assert(steps_back(*cfg, way, k));
                        }
                    }
                    assert(backward_path(*cfg, longer) && longer[0] == block && longer.last()
                        == p);
                    assert forall|n: u64|
                        visited@.contains(n) <==> exists|j: int|
                            0 <= j < queue@.len() && (#[trigger] queue@[j]).0 == n by {
                        if visited@.contains(n) {
                            if n == p.0 {
                                assert(queue@[before_queue.len() as int].0 == n);
                            } else {
                                assert(before_visited.contains(n));
                                let j = choose|j: int|
                                    0 <= j < before_queue.len() && (#[trigger] before_queue[j]).0
                                        == n;
                                assert(queue@[j].0 == n);
                            }
                        }
                        if exists|j: int| 0 <= j < queue@.len() && (#[trigger] queue@[j]).0 == n {
                            let j = choose|j: int|
                                0 <= j < queue@.len() && (#[trigger] queue@[j]).0 == n;
                            if j < before_queue.len() {
                                assert(before_queue[j].0 == n);
                            }
                        }
                    }
                    assert forall|j: int| 0 <= j < queue@.len() implies reaches_back(
                        *cfg,
                        block,
                        #[trigger] queue@[j],
                    ) by {
                        if j < before_queue.len() {
                            assert(queue@[j] == before_queue[j]);
                        }
                    }
                    vstd::set_lib::lemma_set_subset_finite(
                        cfg.blocks().dom(),
                        unvisited(*cfg, before_visited),
                    );
                    assert(unvisited(*cfg, visited@) =~= unvisited(*cfg, before_visited).remove(
                        p.0,
                    ));
                }
            }
            i += 1;
        }
        proof {
            assert forall|j: int| 0 <= j < head + 1 implies (#[trigger] queue@[j]) != target by {
                assert(queue@[j] == old_queue[j]);
            }
            assert forall|j: int, p: BasicBlockIdx|
                0 <= j < head + 1 && #[trigger] cfg.preds(queue@[j]).contains(
                    p,
                ) implies visited@.contains(p.0) by {
                if j < head {
                    assert(queue@[j] == old_queue[j]);
                    assert(old_visited.contains(p.0));
                } else {
                    let w = choose|w: int| 0 <= w < preds@.len() && preds@[w] == p;
                    assert(visited@.contains(preds@[w].0));
                }
            }
        }
        head += 1;
    }
    proof {
        if reaches_back(*cfg, block, target) {
            let path = choose|path: Seq<BasicBlockIdx>|
                #[trigger] backward_path(*cfg, path) && path[0] == block && path.last() == target;
            assert(visited@.contains(queue@[0].0));
            assert forall|v: BasicBlockIdx, p: BasicBlockIdx|
                visited@.contains(v.0) && #[trigger] cfg.preds(v).contains(
                    p,
                ) implies visited@.contains(p.0) by {
                let j = choose|j: int| 0 <= j < queue@.len() && (#[trigger] queue@[j]).0 == v.0;
                assert(queue@[j] == v);
            }
            lemma_path_within(*cfg, visited@, path, path.len() - 1);
            let j = choose|j: int| 0 <= j < queue@.len() && (#[trigger] queue@[j]).0 == target.0;
            assert(queue@[j] == target);
        }
    }
    false
}

} // verus!
