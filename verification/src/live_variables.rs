//! Live variables: for each block, the variables whose value at its start
//! may still be read.

use vstd::prelude::*;
use vstd::hash_set::StringHashSet;
use std::collections::HashMap;
use crate::ir::{InstructionExt, InstructionView};
use crate::store::{BasicBlock, BasicBlockIdx};
use crate::cfg::FunctionCfg;
use crate::factset::{Fact, FactSet};
use crate::dataflow::{
    Analysis, Direction, all_of, lemma_all_of, solution_view, solve_dataflow, solves,
};
use crate::reaching_definitions::kills_before;

verus! {

/// A variable, by its name.
#[derive(Debug)]
pub struct Variable(pub String);

impl View for Variable {
    type V = Seq<char>;

    open spec fn view(&self) -> Seq<char> {
        self.0@
    }
}

impl Fact for Variable {
    fn same(&self, other: &Self) -> (r: bool) {
        self.0 == other.0
    }

    fn dup(&self) -> (r: Self) {
        Variable(self.0.clone())
    }
}

/// Whether one of the first `upto` instructions of `code` reads `v` before
/// any instruction of the block has defined it.
pub open spec fn upward_exposed(code: Seq<InstructionView>, upto: int, v: Seq<char>) -> bool {
    exists|i: int|
        0 <= i < upto && (#[trigger] code[i]).gen_set().contains(v) && !kills_before(code, i, v)
}

/// The variables that are live before a block whose first `upto`
/// instructions are `code`, given those that are live after it: the
/// variables read before they are defined, and those live after it that it
/// does not define.
pub open spec fn live_upto(code: Seq<InstructionView>, after: Set<Seq<char>>, upto: int) -> Set<
    Seq<char>,
> {
    Set::new(
        |v: Seq<char>|
            upward_exposed(code, upto, v) || (after.contains(v) && !kills_before(code, upto, v)),
    )
}

/// The variables of `after` that the first `upto` instructions do not define.
pub open spec fn survivors(code: Seq<InstructionView>, after: Set<Seq<char>>, upto: int) -> Set<
    Seq<char>,
> {
    Set::new(|v: Seq<char>| after.contains(v) && !kills_before(code, upto, v))
}

/// The variables that the first `upto` instructions read.
pub open spec fn uses_upto(code: Seq<InstructionView>, upto: int) -> Seq<Seq<char>>
    decreases upto,
{
    if upto <= 0 {
        Seq::empty()
    } else {
        uses_upto(code, upto - 1) + code[upto - 1].gen_set()
    }
}

/// The variables that a block reads.
pub open spec fn block_uses(block: BasicBlock, idx: BasicBlockIdx) -> Seq<Seq<char>> {
    uses_upto(block.code(), block.code().len() as int)
}

/// A variable read among the first `upto` instructions is listed.
pub proof fn lemma_uses_upto(code: Seq<InstructionView>, upto: int, i: int, v: Seq<char>)
    requires
        0 <= i < upto,
        code[i].gen_set().contains(v),
    ensures
        uses_upto(code, upto).contains(v),
    decreases upto,
{
    let before = uses_upto(code, upto - 1);
    let whole = uses_upto(code, upto);
    if i == upto - 1 {
        let j = choose|j: int| 0 <= j < code[i].gen_set().len() && code[i].gen_set()[j] == v;
        assert(whole[before.len() + j] == v);
    } else {
        lemma_uses_upto(code, upto - 1, i, v);
        let j = choose|j: int| 0 <= j < before.len() && before[j] == v;
        assert(whole[j] == v);
    }
}

/// The analysis of live variables.
pub struct LiveVariables;

impl Analysis for LiveVariables {
    type Fact = Variable;

    open spec fn transfer_spec(&self, block: BasicBlock, idx: BasicBlockIdx, input: Set<Seq<char>>) -> Set<
        Seq<char>,
    > {
        live_upto(block.code(), input, block.code().len() as int)
    }

    open spec fn universe(&self, cfg: FunctionCfg) -> Set<Seq<char>> {
        all_of(cfg, |block: BasicBlock, idx: BasicBlockIdx| block_uses(block, idx))
    }

    proof fn lemma_monotone(
        &self,
        block: BasicBlock,
        idx: BasicBlockIdx,
        small: Set<Seq<char>>,
        large: Set<Seq<char>>,
    ) {
    }

    proof fn lemma_universe(&self, cfg: FunctionCfg, k: BasicBlockIdx, input: Set<Seq<char>>) {
        let each = |block: BasicBlock, idx: BasicBlockIdx| block_uses(block, idx);
        let block = cfg.blocks()[k.0];
        let code = block.code();
        lemma_all_of(cfg, each, k, Seq::empty());
        assert forall|v: Seq<char>|
            self.transfer_spec(block, k, input).contains(v) implies self.universe(cfg).contains(
            v,
        ) by {
            if upward_exposed(code, code.len() as int, v) {
                let i = choose|i: int|
                    0 <= i < code.len() && (#[trigger] code[i]).gen_set().contains(v)
                        && !kills_before(code, i, v);
                lemma_uses_upto(code, code.len() as int, i, v);
                lemma_all_of(cfg, each, k, v);
            }
        }
    }

    fn transfer(&self, block: &BasicBlock, idx: BasicBlockIdx, input: FactSet<Variable>) -> (r:
        FactSet<Variable>) {
        let ghost code = block.code();
        let ghost after = input@;
        let mut outputs = input;
        let mut kill_set = StringHashSet::new();
        let mut gen_set: FactSet<Variable> = FactSet::new();
        let mut i: usize = 0;
        proof {
            assert(gen_set@ =~= Set::new(|v: Seq<char>| upward_exposed(code, 0, v)));
            assert(outputs@ =~= survivors(code, after, 0));
        }
        while i < block.instructions.len()
            invariant
                i <= block.instructions@.len(),
                code == block.code(),
                outputs.wf(),
                gen_set.wf(),
                forall|v: Seq<char>| kill_set@.contains(v) <==> kills_before(code, i as int, v),
                forall|v: Seq<char>| gen_set@.contains(v) <==> upward_exposed(code, i as int, v),
                outputs@ == survivors(code, after, i as int),
            decreases block.instructions@.len() - i,
        {
            let instruction = &block.instructions[i];
            assert(code[i as int] == instruction@);
            let uses = instruction.gen_set();
            let ghost names = code[i as int].gen_set();
            let mut t: usize = 0;
            while t < uses.len()
                invariant
                    t <= uses@.len(),
                    names == crate::ir::texts(uses@),
                    names == code[i as int].gen_set(),
                    i < code.len(),
                    gen_set.wf(),
                    outputs.wf(),
                    outputs@ == survivors(code, after, i as int),
                    forall|v: Seq<char>| kill_set@.contains(v) <==> kills_before(code, i as int, v),
                    forall|v: Seq<char>|
                        gen_set@.contains(v) <==> upward_exposed(code, i as int, v) || (exists|
                            a: int,
                        |
                            0 <= a < t && #[trigger] names[a] == v && !kills_before(
                                code,
                                i as int,
                                v,
                            )),
                decreases uses@.len() - t,
            {
                let ghost before = gen_set@;
                assert(names[t as int] == uses@[t as int]@);
                if !kill_set.contains(uses[t].as_str()) {
                    gen_set.insert(Variable(uses[t].clone()));
                }
                proof {
                    assert forall|v: Seq<char>|
                        gen_set@.contains(v) <==> upward_exposed(code, i as int, v) || (exists|
                            a: int,
                        |
                            0 <= a < t + 1 && #[trigger] names[a] == v && !kills_before(
                                code,
                                i as int,
                                v,
                            )) by {
                        if exists|a: int|
                            0 <= a < t + 1 && #[trigger] names[a] == v && !kills_before(
                                code,
                                i as int,
                                v,
                            ) {
                            let a = choose|a: int|
                                0 <= a < t + 1 && #[trigger] names[a] == v && !kills_before(
                                    code,
                                    i as int,
                                    v,
                                );
                            if a < t {
                                assert(before.contains(v));
                            }
                        }
                        if before.contains(v) && !upward_exposed(code, i as int, v) {
                            let a = choose|a: int|
                                0 <= a < t && #[trigger] names[a] == v && !kills_before(
                                    code,
                                    i as int,
                                    v,
                                );
                            assert(0 <= a < t + 1 && names[a] == v);
                        }
                    }
                }
                t += 1;
            }
            let ghost mid_outputs = outputs@;
            match instruction.kill() {
                Some(kill) => {
                    kill_set.insert(kill.clone());
                    outputs.remove(&Variable(kill.clone()));
                },
                None => {},
            }
            proof {
                assert forall|v: Seq<char>| kills_before(code, i + 1, v) <==> kills_before(
                    code,
                    i as int,
                    v,
                ) || code[i as int].kill() == Some(v) by {
                    if kills_before(code, i + 1, v) {
                        let j = choose|j: int| 0 <= j < i + 1 && #[trigger] code[j].kill() == Some(v);
                        if j < i {
                            assert(kills_before(code, i as int, v));
                        }
                    }
                    if kills_before(code, i as int, v) {
                        let j = choose|j: int| 0 <= j < i && #[trigger] code[j].kill() == Some(v);
                        assert(0 <= j < i + 1 && code[j].kill() == Some(v));
                    }
                }
                assert forall|v: Seq<char>|
                    outputs@.contains(v) <==> survivors(code, after, i + 1).contains(v) by {
                    assert(mid_outputs.contains(v) <==> after.contains(v) && !kills_before(
                        code,
                        i as int,
                        v,
                    ));
                    assert(kills_before(code, i + 1, v) <==> kills_before(code, i as int, v)
                        || code[i as int].kill() == Some(v));
                }
                assert(outputs@ =~= survivors(code, after, i + 1));
                assert forall|v: Seq<char>| kill_set@.contains(v) <==> kills_before(
                    code,
                    i + 1,
                    v,
                ) by {
                    assert(kills_before(code, i + 1, v) <==> kills_before(code, i as int, v)
                        || code[i as int].kill() == Some(v));
                }
                assert forall|v: Seq<char>| gen_set@.contains(v) <==> upward_exposed(
                    code,
                    i + 1,
                    v,
                ) by {
                    if upward_exposed(code, i + 1, v) {
                        let w = choose|w: int|
                            0 <= w < i + 1 && (#[trigger] code[w]).gen_set().contains(v)
                                && !kills_before(code, w, v);
                        if w < i {
                            assert(upward_exposed(code, i as int, v));
                        } else {
                            let a = choose|a: int| 0 <= a < names.len() && names[a] == v;
                        }
                    }
                    if upward_exposed(code, i as int, v) {
                        let w = choose|w: int|
                            0 <= w < i && (#[trigger] code[w]).gen_set().contains(v)
                                && !kills_before(code, w, v);
                        assert(0 <= w < i + 1 && code[w].gen_set().contains(v));
                    }
                    if exists|a: int|
                        0 <= a < names.len() && #[trigger] names[a] == v && !kills_before(
                            code,
                            i as int,
                            v,
                        ) {
                        assert(code[i as int].gen_set().contains(v));
                    }
                }
            }
            i += 1;
        }
        outputs.union_with(&gen_set);
        assert(outputs@ =~= live_upto(code, after, code.len() as int));
        outputs
    }
}

/// The variables that are live at the start of each block: the least sets
/// in which the set of every reachable block holds the variables that the
/// block reads before defining them, and those live at the start of a
/// successor that the block does not define.
pub fn live_variables(cfg: &FunctionCfg) -> (r: HashMap<u64, FactSet<Variable>>)
    requires
        cfg.wf(),
    ensures
        solves(
            LiveVariables,
            *cfg,
            Direction::Backward,
            Set::<Seq<char>>::empty(),
            solution_view(r),
        ),
        forall|n: u64| #[trigger] r@.contains_key(n) ==> r@[n].wf(),
{
    solve_dataflow(cfg, Direction::Backward, FactSet::new(), &LiveVariables)
}

} // verus!
