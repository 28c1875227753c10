//! Renaming into static single assignment form: every definition gets a
//! name of its own, every use the name of the definition in force, and every
//! block a `set` for each `get` of its successors.

use vstd::prelude::*;
use vstd::hash_set::StringHashSet;
use std::collections::{HashMap, HashSet};
use crate::ir::{EffectOp, Instruction, InstructionView, Type, ValueOp, texts, views, dup_names};
use crate::store::{BasicBlock, BasicBlockIdx, slot_of};
use crate::names::{lemma_minted_injective, mint, minted, undefined, undefined_name};
use crate::ssa::{DefinitionSites, DominatingDefinitionsStacks, LocalRenamer, PhiInsertionPoints};
use crate::cfg::{FunctionCfg, is_terminator, lemma_views_push, list_contains};
use crate::store::{LabeledExit, canonical, store_get_mut};
use crate::blocksets::BlockSets;
use crate::cfg::{lemma_same_shape, lemma_same_shape_chain, lemma_targets_exist, same_shape};
use crate::dataflow::unvisited;
use crate::ssa::{
    PhiSite, compute_definition_sites, defines, determine_phi_insertion_points, insert_phis,
    lemma_pushed_same, prepend, strict_ssa, with_phis,
};
use crate::store::Label;
use crate::ssa::{get_of, phis_for};
use crate::exits::{ends_like, lemma_terminated_ends, refreshed};
use crate::dominators::{compute_dominance_frontiers, compute_dominator_tree, compute_dominators};
use vstd::string::StringExecFns;

verus! {

broadcast use vstd::std_specs::hash::group_hash_axioms;

/// How many of the first `upto` instructions of `code` define `base`.
pub open spec fn count_defs(code: Seq<InstructionView>, upto: int, base: Seq<char>) -> nat
    decreases upto,
{
    if upto <= 0 {
        0
    } else {
        count_defs(code, upto - 1, base) + if code[upto - 1].kill() == Some(base) {
            1nat
        } else {
            0nat
        }
    }
}

/// The name in force for `a` before the instruction at position `at` of a
/// block with the tag `tag`: the name of the last definition of `a` in the
/// block, or where there is none the name that `outer` gives.
pub open spec fn name_in_force(
    code: Seq<InstructionView>,
    tag: nat,
    outer: spec_fn(Seq<char>) -> Seq<char>,
    at: int,
    a: Seq<char>,
) -> Seq<char> {
    if count_defs(code, at, a) > 0 {
        minted(a, tag, count_defs(code, at, a))
    } else {
        outer(a)
    }
}

/// The names in force for `args`.
pub open spec fn names_in_force(
    code: Seq<InstructionView>,
    tag: nat,
    outer: spec_fn(Seq<char>) -> Seq<char>,
    at: int,
    args: Seq<Seq<char>>,
) -> Seq<Seq<char>> {
    Seq::new(args.len(), |k: int| name_in_force(code, tag, outer, at, args[k]))
}

/// The instruction at position `at` renamed: its destination gets the name
/// made of its old name, the tag of the block, and its number among the
/// definitions of that name in the block; its arguments get the names in
/// force.
pub open spec fn rename_at(
    code: Seq<InstructionView>,
    tag: nat,
    outer: spec_fn(Seq<char>) -> Seq<char>,
    at: int,
) -> InstructionView {
    match code[at] {
        InstructionView::Constant { dest, const_type, value, pos } => InstructionView::Constant {
            dest: minted(dest, tag, count_defs(code, at + 1, dest)),
            const_type,
            value,
            pos,
        },
        InstructionView::Value { dest, op, args, funcs, labels, op_type, pos } => {
            InstructionView::Value {
                dest: minted(dest, tag, count_defs(code, at + 1, dest)),
                op,
                args: names_in_force(code, tag, outer, at, args),
                funcs,
                labels,
                op_type,
                pos,
            }
        },
        InstructionView::Effect { op, args, funcs, labels, pos } => InstructionView::Effect {
            op,
            args: names_in_force(code, tag, outer, at, args),
            funcs,
            labels,
            pos,
        },
    }
}

/// The instructions of a block renamed.
pub open spec fn renamed(
    code: Seq<InstructionView>,
    tag: nat,
    outer: spec_fn(Seq<char>) -> Seq<char>,
) -> Seq<InstructionView> {
    Seq::new(code.len(), |i: int| rename_at(code, tag, outer, i))
}

/// Whether the instructions define no variable twice, and every variable
/// under a name made with the tag `tag`.
pub open spec fn named_apart(code: Seq<InstructionView>, tag: nat) -> bool {
    &&& forall|i: int|
        0 <= i < code.len() && (#[trigger] code[i]).kill() is Some ==> exists|
            base: Seq<char>,
            k: nat,
        | code[i].kill()->0 == #[trigger] minted(base, tag, k)
    &&& forall|i: int, j: int|
        0 <= i < j < code.len() && (#[trigger] code[i]).kill() is Some && (#[trigger] code[j]).kill()
            == code[i].kill() ==> false
}

/// The count of definitions does not fall, and rises with a definition.
pub proof fn lemma_count_rises(code: Seq<InstructionView>, i: int, j: int, base: Seq<char>)
    requires
        0 <= i <= j,
    ensures
        count_defs(code, i, base) <= count_defs(code, j, base),
    decreases j - i,
{
    if i < j {
        lemma_count_rises(code, i, j - 1, base);
    }
}

/// Renamed instructions define no variable twice.
pub proof fn lemma_renamed_apart(
    code: Seq<InstructionView>,
    tag: nat,
    outer: spec_fn(Seq<char>) -> Seq<char>,
)
    ensures
        named_apart(renamed(code, tag, outer), tag),
{
    let out = renamed(code, tag, outer);
    assert forall|i: int| 0 <= i < out.len() && (#[trigger] out[i]).kill() is Some implies exists|
        base: Seq<char>,
        k: nat,
    | out[i].kill()->0 == #[trigger] minted(base, tag, k) by {
        let base = code[i].kill()->0;
        assert(out[i].kill()->0 == minted(base, tag, count_defs(code, i + 1, base)));
    }
    assert forall|i: int, j: int|
        0 <= i < j < out.len() && (#[trigger] out[i]).kill() is Some && (#[trigger] out[j]).kill()
            == out[i].kill() implies false by {
        let bi = code[i].kill()->0;
        let bj = code[j].kill()->0;
        assert(out[i].kill()->0 == minted(bi, tag, count_defs(code, i + 1, bi)));
        assert(out[j].kill()->0 == minted(bj, tag, count_defs(code, j + 1, bj)));
        lemma_minted_injective(
            bi,
            tag,
            count_defs(code, i + 1, bi),
            bj,
            tag,
            count_defs(code, j + 1, bj),
        );
        lemma_count_rises(code, i + 1, j, bi);
    }
}

/// Whether every instruction of `sets` is a `set` of two arguments.
pub open spec fn all_sets(sets: Seq<InstructionView>) -> bool {
    forall|i: int|
        0 <= i < sets.len() ==> (#[trigger] sets[i]).is_set() && sets[i]->Effect_args.len() == 2
}

/// `code` with `sets` put before its last instruction where `ends` says
/// that the last is a terminator, and at the end otherwise.
pub open spec fn with_sets(code: Seq<InstructionView>, sets: Seq<InstructionView>, ends: bool) -> Seq<
    InstructionView,
> {
    if ends && code.len() > 0 {
        code.drop_last() + sets + seq![code.last()]
    } else {
        code + sets
    }
}

/// Instructions that define no variable twice still do so with `set`s
/// among them.
pub proof fn lemma_sets_apart(
    code: Seq<InstructionView>,
    sets: Seq<InstructionView>,
    ends: bool,
    tag: nat,
)
    requires
        named_apart(code, tag),
        all_sets(sets),
    ensures
        named_apart(with_sets(code, sets, ends), tag),
{
    let out = with_sets(code, sets, ends);
    let cut = if ends && code.len() > 0 {
        code.len() - 1
    } else {
        code.len() as int
    };
    // where an instruction of `out` comes from in `code`, if it is no `set` put in
    let back = |w: int|
        if w < cut {
            w
        } else {
            w - sets.len()
        };
    assert forall|w: int| 0 <= w < out.len() && (#[trigger] out[w]).kill() is Some implies 0
        <= back(w) < code.len() && code[back(w)] == out[w] && (w < cut || w >= cut + sets.len()) by {
        if cut <= w < cut + sets.len() {
            assert(out[w] == sets[w - cut]);
        }
    }
    assert forall|i: int| 0 <= i < out.len() && (#[trigger] out[i]).kill() is Some implies exists|
        base: Seq<char>,
        k: nat,
    | out[i].kill()->0 == #[trigger] minted(base, tag, k) by {
        assert(code[back(i)] == out[i]);
        let (base, k) = choose|base: Seq<char>, k: nat|
            code[back(i)].kill()->0 == #[trigger] minted(base, tag, k);
        assert(out[i].kill()->0 == minted(base, tag, k));
    }
    assert forall|i: int, j: int|
        0 <= i < j < out.len() && (#[trigger] out[i]).kill() is Some && (#[trigger] out[j]).kill()
            == out[i].kill() implies false by {
        assert(code[back(i)] == out[i]);
        assert(code[back(j)] == out[j]);
        assert(back(i) < back(j));
    }
}

/// Blocks whose instructions define no variable twice, under names made
/// with different tags, define no variable twice between them.
pub proof fn lemma_named_apart_blocks(
    a: Seq<InstructionView>,
    ta: nat,
    i: int,
    b: Seq<InstructionView>,
    tb: nat,
    j: int,
)
    requires
        named_apart(a, ta),
        named_apart(b, tb),
        ta != tb,
        0 <= i < a.len(),
        0 <= j < b.len(),
        a[i].kill() is Some,
    ensures
        b[j].kill() != a[i].kill(),
{
    if b[j].kill() == a[i].kill() {
        let (b1, k1) = choose|base: Seq<char>, k: nat|
            a[i].kill()->0 == #[trigger] minted(base, ta, k);
        let (b2, k2) = choose|base: Seq<char>, k: nat|
            b[j].kill()->0 == #[trigger] minted(base, tb, k);
        lemma_minted_injective(b1, ta, k1, b2, tb, k2);
    }
}

/// The type that the first of `sites` from position `from` on has for the
/// variable `a`.
pub open spec fn type_from(sites: Seq<crate::ssa::DefinitionSite>, a: Seq<char>, from: int) -> Option<Type>
    decreases sites.len() - from,
{
    if from < 0 || from >= sites.len() {
        None
    } else if sites[from].name@ == a {
        Some(sites[from].ty)
    } else {
        type_from(sites, a, from + 1)
    }
}

/// Whether `after` is the list `before` of names for undefined variables
/// with the name for `a` noted: unchanged where the name is listed or
/// `sites` has no type for `a`, else with the name and that type at its end.
pub open spec fn noted(
    before: Seq<(String, Type)>,
    a: Seq<char>,
    sites: Seq<crate::ssa::DefinitionSite>,
    after: Seq<(String, Type)>,
) -> bool {
    if mentioned(before, before.len() as int, undefined_name(a)) || type_from(sites, a, 0) is None {
        after == before
    } else {
        &&& after.len() == before.len() + 1
        &&& forall|w: int| 0 <= w < before.len() ==> after[w] == before[w]
        &&& after.last().0@ == undefined_name(a)
        &&& Some(after.last().1) == type_from(sites, a, 0)
    }
}

/// What renaming keeps from block to block: for each variable the blocks
/// that hold the definitions in force, for each block renamed the number of
/// definitions that each variable has in it, the parameters of the function,
/// the names used for variables without a definition in force, and the
/// blocks renamed so far.
pub struct Renaming {
    pub stacks: DominatingDefinitionsStacks,
    pub finals: HashMap<u64, LocalRenamer>,
    pub parameters: StringHashSet,
    pub undefined: Vec<(String, Type)>,
    pub visited: HashSet<u64>,
}

impl Renaming {
    /// The number of definitions of `a` in the block `b`, once renamed.
    pub open spec fn final_count(&self, b: BasicBlockIdx, a: Seq<char>) -> nat {
        if self.finals@.contains_key(b.0) {
            self.finals@[b.0].count(a)
        } else {
            0
        }
    }

    /// The name in force for `a` on entry to a block: that of the last
    /// definition in the closest block on the way from the entry that
    /// defines `a`; the name itself for a parameter without such a
    /// definition; else the name for an undefined variable.
    pub open spec fn outer_name(&self, a: Seq<char>) -> Seq<char> {
        let stack = self.stacks.stack_of(a);
        if stack.len() > 0 {
            minted(a, slot_of(stack.last().0) as nat, self.final_count(stack.last(), a))
        } else if self.parameters@.contains(a) {
            a
        } else {
            undefined_name(a)
        }
    }

    /// The names in force on entry to a block.
    pub open spec fn outer(&self) -> spec_fn(Seq<char>) -> Seq<char> {
        |a: Seq<char>| self.outer_name(a)
    }

    /// The name in force for `a` on entry to a block, and whether it is the
    /// name for an undefined variable.
    pub fn resolve_outer(&self, a: &String) -> (r: (String, bool))
        ensures
            r.0@ == self.outer_name(a@),
            r.1 == (self.stacks.stack_of(a@).len() == 0 && !self.parameters@.contains(a@)),
    {
        match self.stacks.top(a) {
            Some(b) => {
                let k = match self.finals.get(&b.0) {
                    Some(local) => local.get(a),
                    None => 0,
                };
                (mint(a, b.as_index_for_slotmap_version_1_0_7_only(), k as u64), false)
            },
            None => if self.parameters.contains(a.as_str()) {
                (a.clone(), false)
            } else {
                (undefined(a), true)
            },
        }
    }

    /// Records the name for the undefined variable `a`, with the type that
    /// `sites` has for `a`, unless it is recorded or `a` has no type.
    pub fn record_undefined(&mut self, a: &String, sites: &DefinitionSites)
        ensures
            final(self).stacks == old(self).stacks,
            final(self).finals == old(self).finals,
            final(self).parameters == old(self).parameters,
            final(self).visited == old(self).visited,
            noted(old(self).undefined@, a@, sites.0@, final(self).undefined@),
    {
        let name = undefined(a);
        let ghost before = self.undefined@;
        let mut known = false;
        let mut i: usize = 0;
        while i < self.undefined.len()
            invariant
                i <= self.undefined@.len(),
                *self == *old(self),
                name@ == undefined_name(a@),
                known == mentioned(self.undefined@, i as int, name@),
            decreases self.undefined@.len() - i,
        {
            if self.undefined[i].0 == name {
                known = true;
            }
            i += 1;
        }
        if known {
            return ;
        }
        let mut e: usize = 0;
        while e < sites.0.len()
            invariant
                e <= sites.0@.len(),
                *self == *old(self),
                before == self.undefined@,
                name@ == undefined_name(a@),
                !mentioned(before, before.len() as int, name@),
                type_from(sites.0@, a@, 0) == type_from(sites.0@, a@, e as int),
            decreases sites.0@.len() - e,
        {
            if sites.0[e].name == *a {
                self.undefined.push((name, sites.0[e].ty.dup()));
                proof {
                    assert(self.undefined@.last().0@ == undefined_name(a@));
                    assert forall|w: int| 0 <= w < before.len() implies self.undefined@[w]
                        == before[w] by {}
                }
                return ;
            }
            e += 1;
        }
    }
}

/// The names in force for `args` in a block with the tag `tag` whose
/// definitions so far are counted in `local`.
fn resolve_all(
    args: &Vec<String>,
    tag: u64,
    local: &LocalRenamer,
    state: &mut Renaming,
    sites: &DefinitionSites,
    Ghost(code): Ghost<Seq<InstructionView>>,
    Ghost(at): Ghost<int>,
    Ghost(outer): Ghost<spec_fn(Seq<char>) -> Seq<char>>,
) -> (r: Vec<String>)
    requires
        forall|base: Seq<char>| #[trigger] local.count(base) == count_defs(code, at, base),
        forall|a: Seq<char>| #[trigger] old(state).outer_name(a) == outer(a),
    ensures
        texts(r@) == names_in_force(code, tag as nat, outer, at, texts(args@)),
        forall|a: Seq<char>| #[trigger] final(state).outer_name(a) == outer(a),
        final(state).stacks == old(state).stacks,
        final(state).finals == old(state).finals,
        final(state).parameters == old(state).parameters,
        final(state).visited == old(state).visited,
{
    let mut out: Vec<String> = Vec::new();
    let mut k: usize = 0;
    while k < args.len()
        invariant
            k <= args@.len(),
            out@.len() == k,
            forall|base: Seq<char>| #[trigger] local.count(base) == count_defs(code, at, base),
            state.stacks == old(state).stacks,
            state.finals == old(state).finals,
            state.parameters == old(state).parameters,
            state.visited == old(state).visited,
            forall|a: Seq<char>| #[trigger] state.outer_name(a) == outer(a),
            forall|w: int|
                0 <= w < k ==> (#[trigger] out@[w])@ == name_in_force(
                    code,
                    tag as nat,
                    outer,
                    at,
                    args@[w]@,
                ),
        decreases args@.len() - k,
    {
        let a = &args[k];
        let n = local.get(a);
        assert(local.count(a@) == count_defs(code, at, a@));
        let name = if n > 0 {
            mint(a, tag, n as u64)
        } else {
            let found = state.resolve_outer(a);
            assert(found.0@ == outer(a@));
            let ghost mid = *state;
            if found.1 {
                state.record_undefined(a, sites);
            }
            proof {
                assert forall|x: Seq<char>| #[trigger] state.outer_name(x) == outer(x) by {
                    assert(mid.outer_name(x) == outer(x));
                }
            }
            found.0
        };
        out.push(name);
        k += 1;
    }
    assert(texts(out@) =~= names_in_force(code, tag as nat, outer, at, texts(args@)));
    out
}

/// A list of names with `name` put at its end, unless it holds it, holds
/// what it held and `name`.
pub proof fn lemma_listed_more(before: Seq<String>, after: Seq<String>, name: Seq<char>)
    requires
        after == before || (after.len() == before.len() + 1 && after.drop_last() == before
            && after.last()@ == name),
        after == before ==> texts(before).contains(name),
    ensures
        forall|base: Seq<char>| #[trigger]
            texts(after).contains(base) <==> texts(before).contains(base) || base == name,
{
    assert forall|base: Seq<char>| #[trigger]
        texts(after).contains(base) <==> texts(before).contains(base) || base == name by {
        if after != before {
            if texts(after).contains(base) {
                let j = choose|j: int| 0 <= j < texts(after).len() && texts(after)[j] == base;
                if j < before.len() {
                    assert(after[j] == after.drop_last()[j]);
                    assert(texts(before)[j] == base);
                }
            }
            if texts(before).contains(base) {
                let j = choose|j: int| 0 <= j < texts(before).len() && texts(before)[j] == base;
                assert(after[j] == after.drop_last()[j]);
                assert(texts(after)[j] == base);
            }
            if base == name {
                assert(texts(after)[after.len() - 1] == base);
            }
        }
    }
}

/// Renames the instructions of a block with the tag `tag`, and returns the
/// count of the definitions of each variable in it and the variables defined.
fn rename_block(block: &mut BasicBlock, tag: u64, state: &mut Renaming, sites: &DefinitionSites) -> (r: (
    LocalRenamer,
    Vec<String>,
))
    ensures
        final(block).code() == renamed(old(block).code(), tag as nat, old(state).outer()),
        final(block).label == old(block).label,
        final(block).is_entry == old(block).is_entry,
        final(block).exit == old(block).exit,
        forall|base: Seq<char>| #[trigger]
            r.0.count(base) == count_defs(
                old(block).code(),
                old(block).code().len() as int,
                base,
            ),
        forall|base: Seq<char>| #[trigger] texts(r.1@).contains(base) <==> r.0.count(base) > 0,
        final(state).stacks == old(state).stacks,
        final(state).finals == old(state).finals,
        final(state).parameters == old(state).parameters,
        final(state).visited == old(state).visited,
{
    let ghost code = block.code();
    let ghost outer = state.outer();
    let mut local = LocalRenamer::new();
    let mut defined: Vec<String> = Vec::new();
    let n = block.instructions.len();
    let mut i: usize = 0;
    while i < n
        invariant
            i <= n,
            n == code.len(),
            block.instructions@.len() == n,
            block.label == old(block).label,
            block.is_entry == old(block).is_entry,
            block.exit == old(block).exit,
            code == old(block).code(),
            state.stacks == old(state).stacks,
            state.finals == old(state).finals,
            state.parameters == old(state).parameters,
            state.visited == old(state).visited,
            outer == old(state).outer(),
            forall|a: Seq<char>| #[trigger] state.outer_name(a) == outer(a),
            forall|base: Seq<char>| #[trigger] local.count(base) == count_defs(code, i as int, base),
            forall|base: Seq<char>| #[trigger] texts(defined@).contains(base) <==> local.count(base) > 0,
            forall|w: int|
                0 <= w < i ==> (#[trigger] block.instructions@[w])@ == rename_at(
                    code,
                    tag as nat,
                    outer,
                    w,
                ),
            forall|w: int| i <= w < n ==> (#[trigger] block.instructions@[w])@ == code[w],
        decreases n - i,
    {
        let ghost cur = block.instructions@;
        assert(cur[i as int]@ == code[i as int]);
        proof {
            lemma_count_rises(code, 0, i as int, Seq::empty());
            lemma_count_bound(code, i as int);
        }
        let replacement = match &block.instructions[i] {
            Instruction::Constant { dest, const_type, value, pos } => {
                assert(local.count(dest@) == count_defs(code, i as int, dest@));
                let ghost counted = local;
                let ghost listed = defined@;
                let k = local.next(dest);
                if !name_listed(&defined, dest) {
                    defined.push(dest.clone());
                }
                proof {
                    if defined@.len() != listed.len() {
                        assert(defined@.drop_last() =~= listed);
                    }
                    lemma_listed_more(listed, defined@, dest@);
                    assert forall|base: Seq<char>| #[trigger]
                        texts(defined@).contains(base) <==> local.count(base) > 0 by {
                        assert(texts(listed).contains(base) <==> counted.count(base) > 0);
                    }
                }
                Instruction::Constant {
                    dest: mint(dest, tag, k as u64),
                    const_type: const_type.dup(),
                    value: value.dup(),
                    pos: *pos,
                }
            },
            Instruction::Value { dest, op, args, funcs, labels, op_type, pos } => {
                let new_args = resolve_all(
                    args,
                    tag,
                    &local,
                    state,
                    sites,
                    Ghost(code),
                    Ghost(i as int),
                    Ghost(outer),
                );
                assert(local.count(dest@) == count_defs(code, i as int, dest@));
                let ghost counted = local;
                let ghost listed = defined@;
                let k = local.next(dest);
                if !name_listed(&defined, dest) {
                    defined.push(dest.clone());
                }
                proof {
                    if defined@.len() != listed.len() {
                        assert(defined@.drop_last() =~= listed);
                    }
                    lemma_listed_more(listed, defined@, dest@);
                    assert forall|base: Seq<char>| #[trigger]
                        texts(defined@).contains(base) <==> local.count(base) > 0 by {
                        assert(texts(listed).contains(base) <==> counted.count(base) > 0);
                    }
                }
                Instruction::Value {
                    dest: mint(dest, tag, k as u64),
                    op: *op,
                    args: new_args,
                    funcs: dup_names(funcs),
                    labels: dup_names(labels),
                    op_type: op_type.dup(),
                    pos: *pos,
                }
            },
            Instruction::Effect { op, args, funcs, labels, pos } => {
                let new_args = resolve_all(
                    args,
                    tag,
                    &local,
                    state,
                    sites,
                    Ghost(code),
                    Ghost(i as int),
                    Ghost(outer),
                );
                Instruction::Effect {
                    op: *op,
                    args: new_args,
                    funcs: dup_names(funcs),
                    labels: dup_names(labels),
                    pos: *pos,
                }
            },
        };
        proof {
            assert(replacement@ == rename_at(code, tag as nat, outer, i as int));
            assert forall|base: Seq<char>| #[trigger]
                local.count(base) == count_defs(code, i + 1, base) by {}
        }
        block.instructions[i] = replacement;
        proof {
            assert forall|w: int| 0 <= w < i + 1 implies (#[trigger] block.instructions@[w])@
                == rename_at(code, tag as nat, outer, w) by {
                if w < i {
                    assert(block.instructions@[w] == cur[w]);
                }
            }
            assert forall|w: int| i + 1 <= w < n implies (#[trigger] block.instructions@[w])@
                == code[w] by {
                assert(block.instructions@[w] == cur[w]);
            }
        }
        i += 1;
    }
    assert(block.code() =~= renamed(code, tag as nat, outer));
    (local, defined)
}

/// The definitions of one variable among some instructions are no more
/// than the instructions.
pub proof fn lemma_count_bound(code: Seq<InstructionView>, upto: int)
    requires
        0 <= upto,
    ensures
        forall|base: Seq<char>| #[trigger] count_defs(code, upto, base) <= upto,
    decreases upto,
{
    if upto > 0 {
        lemma_count_bound(code, upto - 1);
        assert forall|base: Seq<char>| #[trigger] count_defs(code, upto, base) <= upto by {
            assert(count_defs(code, upto - 1, base) <= upto - 1);
        }
    }
}

/// Whether `name` is in `list`.
pub fn name_listed(list: &Vec<String>, name: &String) -> (r: bool)
    ensures
        r == texts(list@).contains(name@),
{
    crate::loops::name_in(list.as_slice(), name)
}

/// Whether the instruction is the `set` for the `get` named `target`.
pub open spec fn sets_target(i: InstructionView, target: Seq<char>) -> bool {
    i.is_set() && i->Effect_args.len() == 2 && i->Effect_args[0] == target
}

/// Whether `sets` holds a `set` for the `get` of every variable of `points`
/// in every block of `successors`.
pub open spec fn sets_cover(
    sets: Seq<InstructionView>,
    points: Seq<PhiSite>,
    successors: Seq<BasicBlockIdx>,
) -> bool {
    forall|t: int, e: int|
        0 <= t < successors.len() && 0 <= e < points.len() && #[trigger] points[e].blocks@.contains(
            #[trigger] successors[t],
        ) ==> exists|w: int|
            0 <= w < sets.len() && sets_target(
                #[trigger] sets[w],
                minted(points[e].name@, slot_of(successors[t].0) as nat, 1),
            )
}

/// The `set` of the first `get` of `v` in a block with the tag `t` to
/// `from`.
pub open spec fn set_of(v: Seq<char>, t: nat, from: Seq<char>) -> InstructionView {
    InstructionView::Effect {
        op: EffectOp::Upsilon,
        args: seq![minted(v, t, 1), from],
        funcs: Seq::empty(),
        labels: Seq::empty(),
        pos: None,
    }
}

/// Whether `i` is the `set` of a `get` of some variable to the name in
/// force for that variable at the end of a block with the instructions
/// `code`, the tag `tag` and the names `outer` in force from outside.
pub open spec fn sourced(
    i: InstructionView,
    code: Seq<InstructionView>,
    tag: nat,
    outer: spec_fn(Seq<char>) -> Seq<char>,
) -> bool {
    exists|v: Seq<char>, t: nat| #[trigger]
        set_of(v, t, name_in_force(code, tag, outer, code.len() as int, v)) == i
}

/// Whether each of `sets` gives a `get` the name in force for its variable
/// at the end of the block.
pub open spec fn sets_sourced(
    sets: Seq<InstructionView>,
    code: Seq<InstructionView>,
    tag: nat,
    outer: spec_fn(Seq<char>) -> Seq<char>,
) -> bool {
    forall|w: int| 0 <= w < sets.len() ==> sourced(#[trigger] sets[w], code, tag, outer)
}

/// The `set`s of a block: for each of its successors and each variable
/// that has a `get` there, a `set` of that `get` to the name in force for
/// the variable at the end of the block.
fn upsilons_for(
    successors: &Vec<BasicBlockIdx>,
    points: &PhiInsertionPoints,
    tag: u64,
    local: &LocalRenamer,
    state: &mut Renaming,
    sites: &DefinitionSites,
    Ghost(code): Ghost<Seq<InstructionView>>,
    Ghost(outer): Ghost<spec_fn(Seq<char>) -> Seq<char>>,
) -> (r: Vec<Instruction>)
    requires
        forall|base: Seq<char>| #[trigger] local.count(base) == count_defs(code, code.len() as int, base),
        forall|a: Seq<char>| #[trigger] old(state).outer_name(a) == outer(a),
    ensures
        all_sets(views(r@)),
        sets_sourced(views(r@), code, tag as nat, outer),
        sets_cover(views(r@), points.0@, successors@),
        forall|i: int| 0 <= i < r@.len() ==> !is_terminator(#[trigger] r@[i]@),
        final(state).stacks == old(state).stacks,
        final(state).finals == old(state).finals,
        final(state).parameters == old(state).parameters,
        final(state).visited == old(state).visited,
{
    let mut out: Vec<Instruction> = Vec::new();
    let mut t: usize = 0;
    while t < successors.len()
        invariant
            t <= successors@.len(),
            all_sets(views(out@)),
            sets_sourced(views(out@), code, tag as nat, outer),
            forall|base: Seq<char>| #[trigger]
                local.count(base) == count_defs(code, code.len() as int, base),
            forall|a: Seq<char>| #[trigger] state.outer_name(a) == outer(a),
            sets_cover(views(out@), points.0@, successors@.take(t as int)),
            state.stacks == old(state).stacks,
            state.finals == old(state).finals,
            state.parameters == old(state).parameters,
            state.visited == old(state).visited,
        decreases successors@.len() - t,
    {
        let s = successors[t];
        let s_tag = s.as_index_for_slotmap_version_1_0_7_only();
        let ghost before_outer = views(out@);
        let mut e: usize = 0;
        while e < points.0.len()
            invariant
                e <= points.0@.len(),
                t < successors@.len(),
                s == successors@[t as int],
                s_tag == slot_of(s.0),
                all_sets(views(out@)),
                sets_sourced(views(out@), code, tag as nat, outer),
                forall|base: Seq<char>| #[trigger]
                    local.count(base) == count_defs(code, code.len() as int, base),
                forall|a: Seq<char>| #[trigger] state.outer_name(a) == outer(a),
                sets_cover(views(out@), points.0@, successors@.take(t as int)),
                state.stacks == old(state).stacks,
                state.finals == old(state).finals,
                state.parameters == old(state).parameters,
                state.visited == old(state).visited,
                forall|w: int|
                    0 <= w < e && (#[trigger] points.0@[w]).blocks@.contains(s) ==> exists|v: int|
                        0 <= v < out@.len() && sets_target(
                            #[trigger] views(out@)[v],
                            minted(points.0@[w].name@, slot_of(s.0) as nat, 1),
                        ),
            decreases points.0@.len() - e,
        {
            let site = &points.0[e];
            let ghost before = views(out@);
            if list_contains(site.blocks.as_slice(), s) {
                let n = local.get(&site.name);
                let ghost asked = *state;
                let from = if n > 0 {
                    mint(&site.name, tag, n as u64)
                } else {
                    let found = state.resolve_outer(&site.name);
                    if found.1 {
                        state.record_undefined(&site.name, sites);
                    }
                    found.0
                };
                proof {
                    assert(local.count(site.name@) == count_defs(code, code.len() as int, site.name@));
                    assert(asked.outer_name(site.name@) == outer(site.name@));
                    assert(from@ == name_in_force(
                        code,
                        tag as nat,
                        outer,
                        code.len() as int,
                        site.name@,
                    ));
                    assert forall|a: Seq<char>| #[trigger] state.outer_name(a) == outer(a) by {
                        assert(asked.outer_name(a) == outer(a));
                    }
                }
                let mut args: Vec<String> = Vec::new();
                args.push(mint(&site.name, s_tag, 1));
                args.push(from);
                let set = Instruction::Effect {
                    op: EffectOp::Upsilon,
                    args,
                    funcs: Vec::new(),
                    labels: Vec::new(),
                    pos: None,
                };
                proof {
                    assert(set@->Effect_args.len() == 2);
                    assert(set@->Effect_args[0] == minted(site.name@, slot_of(s.0) as nat, 1));
                    assert(set@->Effect_args =~= seq![
                        minted(site.name@, slot_of(s.0) as nat, 1),
                        name_in_force(code, tag as nat, outer, code.len() as int, site.name@),
                    ]);
                    assert(set@->Effect_funcs =~= Seq::<Seq<char>>::empty());
                    assert(set@->Effect_labels =~= Seq::<Seq<char>>::empty());
                    assert(set_of(
                        site.name@,
                        slot_of(s.0) as nat,
                        name_in_force(code, tag as nat, outer, code.len() as int, site.name@),
                    ) == set@);
                    assert(sourced(set@, code, tag as nat, outer));
                    lemma_views_push(out@, set);
                }
                out.push(set);
                proof {
                    assert(views(out@)[before.len() as int] == set@);
                }
            }
            proof {
                let after = views(out@);
                assert forall|w: int| 0 <= w < before.len() implies after[w] == before[w] by {}
                assert(all_sets(after));
                assert forall|w: int| 0 <= w < after.len() implies sourced(
                    #[trigger] after[w],
                    code,
                    tag as nat,
                    outer,
                ) by {
                    if w < before.len() {
                        assert(after[w] == before[w]);
                        assert(sourced(before[w], code, tag as nat, outer));
                    }
                }
                lemma_cover_grows(before, after, points.0@, successors@.take(t as int));
                assert forall|w: int|
                    0 <= w < e + 1 && (#[trigger] points.0@[w]).blocks@.contains(s) implies exists|
                    v: int,
                |
                    0 <= v < out@.len() && sets_target(
                        #[trigger] after[v],
                        minted(points.0@[w].name@, slot_of(s.0) as nat, 1),
                    ) by {
                    if w < e {
                        let v = choose|v: int|
                            0 <= v < before.len() && sets_target(
                                #[trigger] before[v],
                                minted(points.0@[w].name@, slot_of(s.0) as nat, 1),
                            );
                        assert(after[v] == before[v]);
                    } else {
                        assert(sets_target(
                            after[before.len() as int],
                            minted(points.0@[w].name@, slot_of(s.0) as nat, 1),
                        ));
                    }
                }
            }
            e += 1;
        }
        proof {
            let now = views(out@);
            let pre = successors@.take(t as int);
            let post = successors@.take(t + 1);
            assert(post =~= pre.push(s));
            assert forall|x: int, e: int|
                0 <= x < post.len() && 0 <= e < points.0@.len() && #[trigger] points.0@[e].blocks@.contains(
                    #[trigger] post[x],
                ) implies exists|w: int|
                0 <= w < now.len() && sets_target(
                    #[trigger] now[w],
                    minted(points.0@[e].name@, slot_of(post[x].0) as nat, 1),
                ) by {
                if x < t {
                    assert(post[x] == pre[x]);
                    assert(points.0@[e].blocks@.contains(pre[x]));
                }
            }
        }
        t += 1;
    }
    proof {
        assert(successors@.take(successors@.len() as int) =~= successors@);
        assert forall|i: int| 0 <= i < out@.len() implies !is_terminator(#[trigger] out@[i]@) by {
            assert(views(out@)[i].is_set());
        }
    }
    out
}

/// More `set`s cover no less.
pub proof fn lemma_cover_grows(
    before: Seq<InstructionView>,
    after: Seq<InstructionView>,
    points: Seq<PhiSite>,
    successors: Seq<BasicBlockIdx>,
)
    requires
        before.len() <= after.len(),
        forall|w: int| 0 <= w < before.len() ==> after[w] == before[w],
        sets_cover(before, points, successors),
    ensures
        sets_cover(after, points, successors),
{
    assert forall|t: int, e: int|
        0 <= t < successors.len() && 0 <= e < points.len() && #[trigger] points[e].blocks@.contains(
            #[trigger] successors[t],
        ) implies exists|w: int|
        0 <= w < after.len() && sets_target(
            #[trigger] after[w],
            minted(points[e].name@, slot_of(successors[t].0) as nat, 1),
        ) by {
        let w = choose|w: int|
            0 <= w < before.len() && sets_target(
                #[trigger] before[w],
                minted(points[e].name@, slot_of(successors[t].0) as nat, 1),
            );
        assert(after[w] == before[w]);
    }
}

/// Puts `sets` before the terminator of the block, or at its end where it
/// has none.
pub fn insert_before_exit(block: &mut BasicBlock, sets: Vec<Instruction>)
    ensures
        final(block).code() == with_sets(
            old(block).code(),
            views(sets@),
            !(old(block).exit is Fallthrough),
        ),
        final(block).label == old(block).label,
        final(block).is_entry == old(block).is_entry,
        final(block).exit == old(block).exit,
{
    let ghost code = block.code();
    let ends = match block.exit {
        LabeledExit::Fallthrough => false,
        _ => true,
    };
    let mut sets = sets;
    let ghost added = views(sets@);
    if ends && block.instructions.len() > 0 {
        let last = block.instructions.pop().unwrap();
        let ghost front = views(block.instructions@);
        block.instructions.append(&mut sets);
        block.instructions.push(last);
        assert(front =~= code.drop_last());
        assert(block.code() =~= code.drop_last() + added + seq![code.last()]);
    } else {
        block.instructions.append(&mut sets);
        assert(block.code() =~= code + added);
    }
}

/// Whether the block `n` is renamed: it defines no variable twice, each
/// under a name made with its tag, and holds, before its exit, a `set` for
/// each `get` of `points` in each of its successors.
pub open spec fn block_done(cfg: FunctionCfg, points: Seq<PhiSite>, n: u64) -> bool {
    let code = cfg.blocks()[n].code();
    &&& named_apart(code, slot_of(n) as nat)
    &&& forall|t: int, e: int|
        0 <= t < cfg.succ(BasicBlockIdx(n)).len() && 0 <= e < points.len()
            && #[trigger] points[e].blocks@.contains(#[trigger] cfg.succ(BasicBlockIdx(n))[t])
            ==> exists|w: int|
            0 <= w < cfg.blocks()[n].spec_index_before_exit() && w < code.len() && sets_target(
                #[trigger] code[w],
                minted(points[e].name@, slot_of(cfg.succ(BasicBlockIdx(n))[t].0) as nat, 1),
            )
}

/// A block with its instructions renamed and its `set`s put in is renamed.
pub proof fn lemma_block_done(
    cfg: FunctionCfg,
    points: Seq<PhiSite>,
    n: u64,
    code: Seq<InstructionView>,
    outer: spec_fn(Seq<char>) -> Seq<char>,
    sets: Seq<InstructionView>,
)
    requires
        all_sets(sets),
        sets_cover(sets, points, cfg.succ(BasicBlockIdx(n))),
        cfg.blocks()[n].code() == with_sets(
            renamed(code, slot_of(n) as nat, outer),
            sets,
            !(cfg.blocks()[n].exit is Fallthrough),
        ),
        !(cfg.blocks()[n].exit is Fallthrough) ==> code.len() > 0,
    ensures
        block_done(cfg, points, n),
{
    let tag = slot_of(n) as nat;
    let ends = !(cfg.blocks()[n].exit is Fallthrough);
    let inner = renamed(code, tag, outer);
    let out = cfg.blocks()[n].code();
    lemma_renamed_apart(code, tag, outer);
    lemma_sets_apart(inner, sets, ends, tag);
    let cut = if ends && inner.len() > 0 {
        inner.len() - 1
    } else {
        inner.len() as int
    };
    let successors = cfg.succ(BasicBlockIdx(n));
    assert forall|t: int, e: int|
        0 <= t < successors.len() && 0 <= e < points.len() && #[trigger] points[e].blocks@.contains(
            #[trigger] successors[t],
        ) implies exists|w: int|
        0 <= w < cfg.blocks()[n].spec_index_before_exit() && w < out.len() && sets_target(
            #[trigger] out[w],
            minted(points[e].name@, slot_of(successors[t].0) as nat, 1),
        ) by {
        let v = choose|v: int|
            0 <= v < sets.len() && sets_target(
                #[trigger] sets[v],
                minted(points[e].name@, slot_of(successors[t].0) as nat, 1),
            );
        assert(out[cut + v] == sets[v]);
    }
}

/// Whether `after` is the block `before` renamed with the tag `tag`: its
/// instructions are those of `before`, renamed with some names in force
/// from outside, with `set`s before the exit.
pub open spec fn renamed_from(before: BasicBlock, after: BasicBlock, tag: nat) -> bool {
    exists|outer: spec_fn(Seq<char>) -> Seq<char>, sets: Seq<InstructionView>|
        #![trigger renamed(before.code(), tag, outer), all_sets(sets)]
        all_sets(sets) && after.code() == with_sets(
            renamed(before.code(), tag, outer),
            sets,
            !(before.exit is Fallthrough),
        )
}

/// Whether `after` is the block `before` renamed with the tag `tag` and the
/// names that `state` has in force from outside the block: its instructions
/// are those of `before` renamed, with `set`s before the exit, each giving
/// a `get` the name in force for its variable at the end of the block.
pub open spec fn renamed_under(before: BasicBlock, after: BasicBlock, tag: nat, state: Renaming) -> bool {
    exists|outer: spec_fn(Seq<char>) -> Seq<char>, sets: Seq<InstructionView>|
        #![trigger renamed(before.code(), tag, outer), all_sets(sets)]
        (forall|a: Seq<char>| #[trigger] outer(a) == state.outer_name(a)) && all_sets(sets) && sets_sourced(sets, before.code(), tag, outer)
            && after.code() == with_sets(
            renamed(before.code(), tag, outer),
            sets,
            !(before.exit is Fallthrough),
        )
}

/// Whether every block of `visited` outside `open` has its children in the
/// tree, as far as they are among `blocks`, in `visited`.
pub open spec fn closed_but(
    tree: Map<u64, Set<u64>>,
    blocks: Set<u64>,
    visited: Set<u64>,
    open: Set<u64>,
) -> bool {
    forall|v: BasicBlockIdx, c: BasicBlockIdx|
        visited.contains(v.0) && !open.contains(v.0) && #[trigger] held(tree, v, c) && blocks.contains(
            c.0,
        ) ==> visited.contains(c.0)
}

/// Whether `path` leads down the tree, each block a child of the one
/// before it and among `blocks`.
pub open spec fn tree_path(tree: Map<u64, Set<u64>>, blocks: Set<u64>, path: Seq<BasicBlockIdx>) -> bool {
    &&& path.len() > 0
    &&& forall|i: int|
        0 < i < path.len() ==> held(tree, path[i - 1], #[trigger] path[i]) && blocks.contains(path[i].0)
}

/// Whether every one of `blocks` lies below `root` in the tree, `root`
/// itself too.
pub open spec fn reaches_all(tree: Map<u64, Set<u64>>, blocks: Set<u64>, root: BasicBlockIdx) -> bool {
    forall|n: u64| #[trigger]
        blocks.contains(n) ==> exists|path: Seq<BasicBlockIdx>|
            #![trigger tree_path(tree, blocks, path)]
            tree_path(tree, blocks, path) && path[0] == root && path.last().0 == n
}

/// Where every visited block has its children visited, every block below
/// a visited block in the tree is visited.
pub proof fn lemma_closed_holds_below(
    tree: Map<u64, Set<u64>>,
    blocks: Set<u64>,
    visited: Set<u64>,
    path: Seq<BasicBlockIdx>,
)
    requires
        closed_but(tree, blocks, visited, Set::empty()),
        tree_path(tree, blocks, path),
        visited.contains(path[0].0),
    ensures
        visited.contains(path.last().0),
    decreases path.len(),
{
    if path.len() > 1 {
        let front = path.drop_last();
        assert forall|i: int| 0 < i < front.len() implies held(tree, front[i - 1], #[trigger] front[i])
            && blocks.contains(front[i].0) by {
            assert(front[i] == path[i]);
            assert(front[i - 1] == path[i - 1]);
        }
        lemma_closed_holds_below(tree, blocks, visited, front);
        let k = path.len() - 1;
        assert(front.last() == path[k - 1]);
        assert(held(tree, path[k - 1], path[k]));
    }
}

/// The name in force for `a` below the blocks `above`, the closest last:
/// that of the last definition of `a` in the closest of them that defines
/// `a`, by the counts of `finals`; where none does, the name itself for a
/// parameter and the name for an undefined variable for any other.
pub open spec fn name_above(
    finals: Map<u64, LocalRenamer>,
    parameters: Set<Seq<char>>,
    above: Seq<BasicBlockIdx>,
    a: Seq<char>,
) -> Seq<char>
    decreases above.len(),
{
    if above.len() == 0 {
        if parameters.contains(a) {
            a
        } else {
            undefined_name(a)
        }
    } else if finals.contains_key(above.last().0) && finals[above.last().0].count(a) > 0 {
        minted(a, slot_of(above.last().0) as nat, finals[above.last().0].count(a))
    } else {
        name_above(finals, parameters, above.drop_last(), a)
    }
}

/// The name in force does not depend on the counts of other blocks.
pub proof fn lemma_name_above_stable(
    f1: Map<u64, LocalRenamer>,
    f2: Map<u64, LocalRenamer>,
    parameters: Set<Seq<char>>,
    above: Seq<BasicBlockIdx>,
    a: Seq<char>,
)
    requires
        forall|i: int|
            0 <= i < above.len() ==> f1.contains_key((#[trigger] above[i]).0) && f2.contains_key(
                above[i].0,
            ) && f2[above[i].0] == f1[above[i].0],
    ensures
        name_above(f1, parameters, above, a) == name_above(f2, parameters, above, a),
    decreases above.len(),
{
    if above.len() > 0 {
        let front = above.drop_last();
        assert forall|i: int| 0 <= i < front.len() implies f1.contains_key((#[trigger] front[i]).0)
            && f2.contains_key(front[i].0) && f2[front[i].0] == f1[front[i].0] by {
            assert(front[i] == above[i]);
        }
        lemma_name_above_stable(f1, f2, parameters, front, a);
        assert(above.last() == above[above.len() - 1]);
    }
}

/// A name occurs in a list as often as not at all exactly when the list
/// does not hold it.
pub proof fn lemma_occurs(names: Seq<Seq<char>>, upto: int, a: Seq<char>)
    requires
        0 <= upto <= names.len(),
    ensures
        crate::ssa::occurrences(names, upto, a) > 0 <==> exists|j: int|
            0 <= j < upto && #[trigger] names[j] == a,
    decreases upto,
{
    if upto > 0 {
        lemma_occurs(names, upto - 1, a);
        if exists|j: int| 0 <= j < upto - 1 && #[trigger] names[j] == a {
            let j = choose|j: int| 0 <= j < upto - 1 && #[trigger] names[j] == a;
            assert(0 <= j < upto && names[j] == a);
        }
        if names[upto - 1] == a {
            assert(0 <= upto - 1 < upto && names[upto - 1] == a);
        }
        if exists|j: int| 0 <= j < upto && #[trigger] names[j] == a {
            let j = choose|j: int| 0 <= j < upto && #[trigger] names[j] == a;
            if j < upto - 1 {
                assert(0 <= j < upto - 1 && names[j] == a);
            }
        }
    }
}

/// Whether the state stands below the blocks `above`, the closest last:
/// each of them is renamed; the name that the state has in force for a
/// variable is the one in force below them; the block on top of a stack is
/// a renamed one; and only visited blocks are renamed.
pub open spec fn on_path(state: Renaming, above: Seq<BasicBlockIdx>) -> bool {
    &&& forall|i: int| 0 <= i < above.len() ==> state.finals@.contains_key((#[trigger] above[i]).0)
    &&& forall|a: Seq<char>| #[trigger]
        state.outer_name(a) == name_above(state.finals@, state.parameters@, above, a)
    &&& forall|a: Seq<char>|
        (#[trigger] state.stacks.stack_of(a)).len() > 0 ==> state.finals@.contains_key(
            state.stacks.stack_of(a).last().0,
        )
    &&& forall|n: u64| #[trigger] state.finals@.contains_key(n) ==> state.visited@.contains(n)
}

/// Whether `after` is the block `before` renamed with the tag `tag` below
/// the blocks `above`, which are renamed: a use without a definition before
/// it in the block has the name in force below `above`, and each `set`
/// before the exit gives a `get` the name in force for its variable at the
/// end of the block.
pub open spec fn renamed_below(
    before: BasicBlock,
    after: BasicBlock,
    tag: nat,
    finals: Map<u64, LocalRenamer>,
    parameters: Set<Seq<char>>,
    above: Seq<BasicBlockIdx>,
) -> bool {
    &&& forall|i: int| 0 <= i < above.len() ==> finals.contains_key((#[trigger] above[i]).0)
    &&& exists|outer: spec_fn(Seq<char>) -> Seq<char>, sets: Seq<InstructionView>|
        #![trigger renamed(before.code(), tag, outer), all_sets(sets)]
        (forall|a: Seq<char>| #[trigger] outer(a) == name_above(finals, parameters, above, a))
            && all_sets(sets) && sets_sourced(sets, before.code(), tag, outer) && after.code() == with_sets(
            renamed(before.code(), tag, outer),
            sets,
            !(before.exit is Fallthrough),
        )
}

/// Whether the block `n` is renamed below `above` and the blocks on a way
/// down the tree from `root` to it.
pub open spec fn renamed_on_way(
    tree: Map<u64, Set<u64>>,
    blocks: Set<u64>,
    above: Seq<BasicBlockIdx>,
    root: BasicBlockIdx,
    n: u64,
    before: BasicBlock,
    after: BasicBlock,
    finals: Map<u64, LocalRenamer>,
    parameters: Set<Seq<char>>,
) -> bool {
    exists|way: Seq<BasicBlockIdx>|
        #![trigger tree_path(tree, blocks, way)]
        tree_path(tree, blocks, way) && way[0] == root && way.last().0 == n && renamed_below(
            before,
            after,
            slot_of(n) as nat,
            finals,
            parameters,
            above + way.drop_last(),
        )
}

/// A block renamed below some blocks stays so when more blocks are
/// renamed.
pub proof fn lemma_renamed_below_kept(
    before: BasicBlock,
    after: BasicBlock,
    tag: nat,
    f1: Map<u64, LocalRenamer>,
    f2: Map<u64, LocalRenamer>,
    parameters: Set<Seq<char>>,
    above: Seq<BasicBlockIdx>,
)
    requires
        renamed_below(before, after, tag, f1, parameters, above),
        forall|m: u64| #[trigger] f1.contains_key(m) ==> f2.contains_key(m) && f2[m] == f1[m],
    ensures
        renamed_below(before, after, tag, f2, parameters, above),
{
    let (outer, sets) = choose|outer: spec_fn(Seq<char>) -> Seq<char>, sets: Seq<InstructionView>|
        #![trigger renamed(before.code(), tag, outer), all_sets(sets)]
        (forall|a: Seq<char>| #[trigger] outer(a) == name_above(f1, parameters, above, a)) && all_sets(
            sets,
        ) && sets_sourced(sets, before.code(), tag, outer) && after.code() == with_sets(
            renamed(before.code(), tag, outer),
            sets,
            !(before.exit is Fallthrough),
        );
    assert forall|i: int| 0 <= i < above.len() implies f1.contains_key((#[trigger] above[i]).0)
        && f2.contains_key(above[i].0) && f2[above[i].0] == f1[above[i].0] by {}
    assert forall|a: Seq<char>| #[trigger] outer(a) == name_above(f2, parameters, above, a) by {
        lemma_name_above_stable(f1, f2, parameters, above, a);
    }
    assert(all_sets(sets));
    assert(after.code() == with_sets(renamed(before.code(), tag, outer), sets, !(before.exit is Fallthrough)));
}

/// A block renamed on a way stays so when more blocks are renamed.
pub proof fn lemma_on_way_kept(
    tree: Map<u64, Set<u64>>,
    blocks: Set<u64>,
    above: Seq<BasicBlockIdx>,
    root: BasicBlockIdx,
    n: u64,
    before: BasicBlock,
    after: BasicBlock,
    f1: Map<u64, LocalRenamer>,
    f2: Map<u64, LocalRenamer>,
    parameters: Set<Seq<char>>,
)
    requires
        renamed_on_way(tree, blocks, above, root, n, before, after, f1, parameters),
        forall|m: u64| #[trigger] f1.contains_key(m) ==> f2.contains_key(m) && f2[m] == f1[m],
    ensures
        renamed_on_way(tree, blocks, above, root, n, before, after, f2, parameters),
{
    let way = choose|way: Seq<BasicBlockIdx>|
        #![trigger tree_path(tree, blocks, way)]
        tree_path(tree, blocks, way) && way[0] == root && way.last().0 == n && renamed_below(
            before,
            after,
            slot_of(n) as nat,
            f1,
            parameters,
            above + way.drop_last(),
        );
    lemma_renamed_below_kept(
        before,
        after,
        slot_of(n) as nat,
        f1,
        f2,
        parameters,
        above + way.drop_last(),
    );
    assert(tree_path(tree, blocks, way));
}

/// A block renamed on a way from a child of `b`, below `above` and `b`, is
/// renamed on a way from `b` below `above`.
pub proof fn lemma_on_way_down(
    tree: Map<u64, Set<u64>>,
    blocks: Set<u64>,
    above: Seq<BasicBlockIdx>,
    b: BasicBlockIdx,
    c: BasicBlockIdx,
    n: u64,
    before: BasicBlock,
    after: BasicBlock,
    finals: Map<u64, LocalRenamer>,
    parameters: Set<Seq<char>>,
)
    requires
        held(tree, b, c),
        blocks.contains(c.0),
        renamed_on_way(tree, blocks, above.push(b), c, n, before, after, finals, parameters),
    ensures
        renamed_on_way(tree, blocks, above, b, n, before, after, finals, parameters),
{
    let down = choose|way: Seq<BasicBlockIdx>|
        #![trigger tree_path(tree, blocks, way)]
        tree_path(tree, blocks, way) && way[0] == c && way.last().0 == n && renamed_below(
            before,
            after,
            slot_of(n) as nat,
            finals,
            parameters,
            above.push(b) + way.drop_last(),
        );
    let way = seq![b] + down;
    assert forall|i: int| 0 < i < way.len() implies held(tree, way[i - 1], #[trigger] way[i])
        && blocks.contains(way[i].0) by {
        if i == 1 {
            assert(way[0] == b);
            assert(way[1] == down[0]);
        } else {
            assert(way[i] == down[i - 1]);
            assert(way[i - 1] == down[i - 2]);
            assert(held(tree, down[i - 2], down[i - 1]));
        }
    }
    assert(way.last() == down.last());
    assert(above + way.drop_last() =~= above.push(b) + down.drop_last());
    assert(tree_path(tree, blocks, way));
}

/// A block renamed under a state that stands below `above` is renamed on
/// the way that holds it alone.
pub proof fn lemma_on_way_self(
    tree: Map<u64, Set<u64>>,
    blocks: Set<u64>,
    above: Seq<BasicBlockIdx>,
    b: BasicBlockIdx,
    before: BasicBlock,
    after: BasicBlock,
    state: Renaming,
)
    requires
        on_path(state, above),
        renamed_under(before, after, slot_of(b.0) as nat, state),
    ensures
        renamed_on_way(tree, blocks, above, b, b.0, before, after, state.finals@, state.parameters@),
{
    let tag = slot_of(b.0) as nat;
    let (outer, sets) = choose|outer: spec_fn(Seq<char>) -> Seq<char>, sets: Seq<InstructionView>|
        #![trigger renamed(before.code(), tag, outer), all_sets(sets)]
        (forall|a: Seq<char>| #[trigger] outer(a) == state.outer_name(a)) && all_sets(sets) && sets_sourced(sets, before.code(), tag, outer)
            && after.code() == with_sets(
            renamed(before.code(), tag, outer),
            sets,
            !(before.exit is Fallthrough),
        );
    let way = seq![b];
    assert(above + way.drop_last() =~= above);
    assert forall|a: Seq<char>| #[trigger]
        outer(a) == name_above(state.finals@, state.parameters@, above, a) by {
        assert(outer(a) == state.outer_name(a));
    }
    assert(all_sets(sets));
    assert(after.code() == with_sets(renamed(before.code(), tag, outer), sets, !(before.exit is Fallthrough)));
    assert(renamed_below(before, after, tag, state.finals@, state.parameters@, above));
    assert(tree_path(tree, blocks, way));
}

/// Whether `counts` holds, for each variable, the number of definitions
/// that it has in `block`.
pub open spec fn counted_from(block: BasicBlock, counts: LocalRenamer) -> bool {
    forall|a: Seq<char>| #[trigger]
        counts.count(a) == count_defs(block.code(), block.code().len() as int, a)
}

/// Whether only visited blocks are renamed.
pub open spec fn counts_settled(state: Renaming) -> bool {
    forall|n: u64| #[trigger] state.finals@.contains_key(n) ==> state.visited@.contains(n)
}

/// A state that stands below some blocks stands, once a block is renamed
/// and put on the stacks of the variables that it defines, below those
/// blocks and that one.
pub proof fn lemma_on_path_pushed(
    before: Renaming,
    now: Renaming,
    above: Seq<BasicBlockIdx>,
    b: BasicBlockIdx,
    defined: Seq<Seq<char>>,
    local: LocalRenamer,
)
    requires
        on_path(before, above),
        !before.visited@.contains(b.0),
        now.visited@.contains(b.0),
        before.visited@.subset_of(now.visited@),
        now.finals@ == before.finals@.insert(b.0, local),
        now.parameters == before.parameters,
        before.stacks.pushed(b, defined, defined.len() as int, &now.stacks),
        forall|a: Seq<char>| #[trigger] defined.contains(a) <==> local.count(a) > 0,
    ensures
        on_path(now, above.push(b)),
{
    let longer = above.push(b);
    assert(longer.drop_last() =~= above);
    assert(longer.last() == b);
    assert forall|i: int| 0 <= i < longer.len() implies now.finals@.contains_key(
        (#[trigger] longer[i]).0,
    ) by {
        if i < above.len() {
            assert(longer[i] == above[i]);
        }
    }
    assert forall|a: Seq<char>| #[trigger]
        now.outer_name(a) == name_above(now.finals@, now.parameters@, longer, a) && ((
        #[trigger] now.stacks.stack_of(a)).len() > 0 ==> now.finals@.contains_key(
            now.stacks.stack_of(a).last().0,
        )) by {
        lemma_occurs(defined, defined.len() as int, a);
        let k = crate::ssa::occurrences(defined, defined.len() as int, a);
        let old_stack = before.stacks.stack_of(a);
        assert(now.stacks.stack_of(a) == old_stack + crate::ssa::repeated(b, k));
        assert forall|i: int| 0 <= i < above.len() implies before.finals@.contains_key(
            (#[trigger] above[i]).0,
        ) && now.finals@.contains_key(above[i].0) && now.finals@[above[i].0]
            == before.finals@[above[i].0] by {
            assert(before.visited@.contains(above[i].0));
        }
        lemma_name_above_stable(before.finals@, now.finals@, before.parameters@, above, a);
        if k > 0 {
            assert(defined.contains(a));
            assert(now.stacks.stack_of(a).last() == b);
        } else {
            assert(!defined.contains(a));
            assert(now.stacks.stack_of(a) =~= old_stack);
            assert(before.outer_name(a) == name_above(before.finals@, before.parameters@, above, a));
            if old_stack.len() > 0 {
                assert(before.finals@.contains_key(old_stack.last().0));
                assert(before.visited@.contains(old_stack.last().0));
            }
        }
    }
}

/// A state that stands below some blocks still does so when more blocks
/// are renamed and the stacks are as they were.
pub proof fn lemma_on_path_kept(before: Renaming, now: Renaming, above: Seq<BasicBlockIdx>)
    requires
        on_path(before, above),
        before.stacks.same_stacks(&now.stacks),
        now.parameters == before.parameters,
        forall|m: u64| #[trigger]
            before.finals@.contains_key(m) ==> now.finals@.contains_key(m) && now.finals@[m]
                == before.finals@[m],
        forall|n: u64| #[trigger] now.finals@.contains_key(n) ==> now.visited@.contains(n),
    ensures
        on_path(now, above),
{
    assert forall|i: int| 0 <= i < above.len() implies now.finals@.contains_key(
        (#[trigger] above[i]).0,
    ) by {
        assert(before.finals@.contains_key(above[i].0));
    }
    assert forall|a: Seq<char>| #[trigger]
        now.outer_name(a) == name_above(now.finals@, now.parameters@, above, a) by {
        assert(before.stacks.stack_of(a) == now.stacks.stack_of(a));
        lemma_name_above_stable(before.finals@, now.finals@, before.parameters@, above, a);
        assert(before.outer_name(a) == name_above(before.finals@, before.parameters@, above, a));
        if before.stacks.stack_of(a).len() > 0 {
            assert(before.finals@.contains_key(before.stacks.stack_of(a).last().0));
        }
    }
    assert forall|a: Seq<char>| (#[trigger] now.stacks.stack_of(a)).len() > 0 implies now.finals@.contains_key(
        now.stacks.stack_of(a).last().0,
    ) by {
        assert(before.stacks.stack_of(a) == now.stacks.stack_of(a));
        assert(before.finals@.contains_key(before.stacks.stack_of(a).last().0));
    }
}

/// Whether every block that is not left to fall through has an instruction.
pub open spec fn ended(cfg: FunctionCfg) -> bool {
    forall|n: u64| #[trigger]
        cfg.blocks().dom().contains(n) && !(cfg.blocks()[n].exit is Fallthrough)
            ==> cfg.blocks()[n].code().len() > 0
}

/// Whether no two blocks of the graph have the same slot.
pub open spec fn slots_apart(cfg: FunctionCfg) -> bool {
    forall|a: u64, b: u64|
        cfg.blocks().dom().contains(a) && cfg.blocks().dom().contains(b) && a != b ==> #[trigger] slot_of(
            a,
        ) != #[trigger] slot_of(b)
}

impl Renaming {
    /// Whether every block visited is a block of `cfg` that is renamed.
    pub open spec fn inv(&self, cfg: FunctionCfg, points: Seq<PhiSite>) -> bool {
        forall|n: u64| #[trigger]
            self.visited@.contains(n) ==> cfg.blocks().dom().contains(n) && block_done(
                cfg,
                points,
                n,
            )
    }
}

/// A renamed block stays renamed while its instructions and the shape of
/// the graph stay as they are.
pub proof fn lemma_done_kept(before: FunctionCfg, after: FunctionCfg, points: Seq<PhiSite>, n: u64)
    requires
        before.wf(),
        same_shape(before, after),
        before.blocks().dom().contains(n),
        after.blocks()[n] == before.blocks()[n],
        block_done(before, points, n),
    ensures
        block_done(after, points, n),
{
    lemma_same_shape(before, after);
    assert(before.succ(BasicBlockIdx(n)) == after.succ(BasicBlockIdx(n)));
}

/// Renames the block `block_idx` and the blocks below it in the dominator
/// tree, as far as they are not renamed yet.
///
/// Every definition of the block gets the name made of its old name, the
/// tag of the block and its number among the definitions of that name in the
/// block; every use gets the name in force: that of the last definition
/// before it in the block, else that of the last definition in the closest
/// block above in the tree that defines the variable, else the name itself
/// for a parameter and the name for an undefined variable for any other.
/// Before the exit of the block a `set` is put for each `get` of `points` in
/// each successor. Then the blocks below are renamed with the definitions of
/// this block in force.
///
/// Where the visited blocks have their children visited, every block below
/// `block_idx` in the tree is visited afterwards; where the state stands
/// below some blocks, every block renamed by the call is renamed below them
/// and the blocks on a way down the tree from `block_idx` to it.
pub fn rename_and_insert_upsilons(
    cfg: &mut FunctionCfg,
    block_idx: BasicBlockIdx,
    dominance_tree: &BlockSets,
    points: &PhiInsertionPoints,
    sites: &DefinitionSites,
    state: &mut Renaming,
)
    requires
        old(cfg).wf(),
        ended(*old(cfg)),
        old(cfg).has(block_idx),
        dominance_tree.wf(),
        old(state).inv(*old(cfg), points.0@),
    ensures
        final(cfg).wf(),
        ended(*final(cfg)),
        same_shape(*old(cfg), *final(cfg)),
        final(state).inv(*final(cfg), points.0@),
        old(state).visited@.subset_of(final(state).visited@),
        final(state).visited@.contains(block_idx.0),
        forall|n: u64|
            old(cfg).blocks().dom().contains(n) && (old(state).visited@.contains(n) || !final(state).visited@.contains(n)) ==> #[trigger] final(cfg).blocks()[n] == old(cfg).blocks()[n],
        forall|n: u64|
            final(state).visited@.contains(n) && !old(state).visited@.contains(n) ==> renamed_from(
                #[trigger] old(cfg).blocks()[n],
                final(cfg).blocks()[n],
                slot_of(n) as nat,
            ),
        !old(state).visited@.contains(block_idx.0) ==> renamed_under(
            old(cfg).blocks()[block_idx.0],
            final(cfg).blocks()[block_idx.0],
            slot_of(block_idx.0) as nat,
            *old(state),
        ),
        forall|open: Set<u64>| #[trigger]
            closed_but(dominance_tree@, old(cfg).blocks().dom(), old(state).visited@, open)
                ==> closed_but(
                dominance_tree@,
                old(cfg).blocks().dom(),
                final(state).visited@,
                open,
            ),
        forall|path: Seq<BasicBlockIdx>|
            closed_but(
                dominance_tree@,
                old(cfg).blocks().dom(),
                old(state).visited@,
                Set::<u64>::empty(),
            ) && #[trigger] tree_path(dominance_tree@, old(cfg).blocks().dom(), path) && path[0]
                == block_idx ==> final(state).visited@.contains(path.last().0),
        closed_but(
            dominance_tree@,
            old(cfg).blocks().dom(),
            old(state).visited@,
            Set::<u64>::empty(),
        ) && reaches_all(dominance_tree@, old(cfg).blocks().dom(), block_idx) ==> all_done(
            *final(cfg),
            points.0@,
        ),
        counts_settled(*old(state)) ==> counts_settled(*final(state)) && forall|m: u64| #[trigger]
            old(state).finals@.contains_key(m) ==> final(state).finals@.contains_key(m)
                && final(state).finals@[m] == old(state).finals@[m],
        forall|above: Seq<BasicBlockIdx>| #[trigger]
            on_path(*old(state), above) ==> on_path(*final(state), above),
        counts_settled(*old(state)) ==> forall|m: u64| #[trigger]
            final(state).visited@.contains(m) && !old(state).visited@.contains(m) ==> final(state).finals@.contains_key(m) && counted_from(old(cfg).blocks()[m], final(state).finals@[m]),
        forall|above: Seq<BasicBlockIdx>, n: u64|
            #![trigger on_path(*old(state), above), old(cfg).blocks()[n]]
            on_path(*old(state), above) && final(state).visited@.contains(n) && !old(state).visited@.contains(n) ==> renamed_on_way(
                dominance_tree@,
                old(cfg).blocks().dom(),
                above,
                block_idx,
                n,
                old(cfg).blocks()[n],
                final(cfg).blocks()[n],
                final(state).finals@,
                final(state).parameters@,
            ),
        old(state).stacks.same_stacks(&final(state).stacks),
        final(state).parameters == old(state).parameters,
    decreases unvisited(*old(cfg), old(state).visited@).len(),
{
    let ghost before = *cfg;
    let ghost before_state = *state;
    let ghost pts = points.0@;
    let ghost tree = dominance_tree@;
    let ghost all = cfg.blocks().dom();
    let b = block_idx;
    if state.visited.contains(&b.0) {
        proof {
            assert forall|path: Seq<BasicBlockIdx>|
                closed_but(tree, all, before_state.visited@, Set::<u64>::empty())
                    && #[trigger] tree_path(tree, all, path) && path[0]
                    == block_idx implies state.visited@.contains(path.last().0) by {
                lemma_closed_holds_below(tree, all, state.visited@, path);
            }
            if closed_but(tree, all, before_state.visited@, Set::<u64>::empty()) && reaches_all(
                tree,
                all,
                block_idx,
            ) {
                assert forall|n: u64| #[trigger] cfg.blocks().dom().contains(n) implies block_done(
                    *cfg,
                    pts,
                    n,
                ) by {
                    let path = choose|path: Seq<BasicBlockIdx>|
                        #![trigger tree_path(tree, all, path)]
                        tree_path(tree, all, path) && path[0] == block_idx && path.last().0 == n;
                    assert(state.visited@.contains(path.last().0));
                }
            }
        }
        return ;
    }
    state.visited.insert(b.0);
    let ghost marked = state.visited@;
    proof {
        assert forall|open: Set<u64>| #[trigger]
            closed_but(tree, all, before_state.visited@, open) implies closed_but(
            tree,
            all,
            marked,
            open.insert(b.0),
        ) by {
            assert forall|v: BasicBlockIdx, c: BasicBlockIdx|
                marked.contains(v.0) && !open.insert(b.0).contains(v.0) && #[trigger] held(tree, v, c)
                    && all.contains(c.0) implies marked.contains(c.0) by {
                assert(before_state.visited@.contains(v.0));
                assert(before_state.visited@.contains(c.0));
            }
        }
        vstd::set_lib::lemma_set_subset_finite(
            before.blocks().dom(),
            unvisited(before, before_state.visited@),
        );
        assert(unvisited(before, marked) =~= unvisited(before, before_state.visited@).remove(b.0));
        assert(canonical(b.0) == b.0);
    }
    let tag = b.as_index_for_slotmap_version_1_0_7_only();
    let successors = cfg.successors(b);
    let ghost outer = state.outer();
    let block = store_get_mut(&mut cfg.vertices, b);
    let ghost code = block.code();
    let (local, defined) = rename_block(block, tag, state, sites);
    let sets = upsilons_for(
        &successors,
        points,
        tag,
        &local,
        state,
        sites,
        Ghost(code),
        Ghost(outer),
    );
    insert_before_exit(block, sets);
    let ghost counted = local;
    state.finals.insert(b.0, local);
    let ghost inserted = state.finals@;
    let ghost renamed_cfg = *cfg;
    proof {
        assert(cfg.blocks().dom() =~= before.blocks().dom());
        assert(same_shape(before, *cfg));
        lemma_same_shape(before, *cfg);
        assert(before.succ(b) == cfg.succ(b));
        assert(BasicBlockIdx(b.0) == b);
        lemma_block_done(*cfg, pts, b.0, code, outer, views(sets@));
        assert(renamed_from(before.blocks()[b.0], cfg.blocks()[b.0], slot_of(b.0) as nat)) by {
            assert(all_sets(views(sets@)));
            assert(cfg.blocks()[b.0].code() == with_sets(
                renamed(before.blocks()[b.0].code(), slot_of(b.0) as nat, outer),
                views(sets@),
                !(before.blocks()[b.0].exit is Fallthrough),
            ));
        }
        assert(renamed_under(
            before.blocks()[b.0],
            cfg.blocks()[b.0],
            slot_of(b.0) as nat,
            before_state,
        )) by {
            assert(all_sets(views(sets@)));
            assert(sets_sourced(
                views(sets@),
                before.blocks()[b.0].code(),
                slot_of(b.0) as nat,
                outer,
            ));
            assert forall|a: Seq<char>| #[trigger] outer(a) == before_state.outer_name(a) by {}
            assert(cfg.blocks()[b.0].code() == with_sets(
                renamed(before.blocks()[b.0].code(), slot_of(b.0) as nat, outer),
                views(sets@),
                !(before.blocks()[b.0].exit is Fallthrough),
            ));
        }
        assert(ended(*cfg)) by {
            assert forall|n: u64| #[trigger]
                cfg.blocks().dom().contains(n) && !(cfg.blocks()[n].exit is Fallthrough) implies cfg.blocks()[n].code().len()
                > 0 by {
                assert(before.blocks().dom().contains(n));
                if n != b.0 {
                    assert(cfg.blocks()[n] == before.blocks()[n]);
                }
            }
        }
        assert forall|n: u64| #[trigger] state.visited@.contains(n) implies cfg.blocks().dom().contains(
            n,
        ) && block_done(*cfg, pts, n) by {
            if n != b.0 {
                assert(before_state.visited@.contains(n));
                assert(cfg.blocks()[n] == before.blocks()[n]);
                lemma_done_kept(before, *cfg, pts, n);
            }
        }
    }
    let ghost base_stacks = state.stacks;
    state.stacks.push_all(b, defined.as_slice());
    let ghost pushed_stacks = state.stacks;
    proof {
        assert(inserted == before_state.finals@.insert(b.0, counted));
        if counts_settled(before_state) {
            assert(!before_state.finals@.contains_key(b.0));
            assert(counts_settled(*state));
        }
        assert forall|above: Seq<BasicBlockIdx>| #[trigger]
            on_path(before_state, above) implies on_path(*state, above.push(b)) by {
            lemma_on_path_pushed(before_state, *state, above, b, texts(defined@), counted);
        }
        assert(counted_from(before.blocks()[b.0], counted));
        assert forall|m: u64| #[trigger]
            state.visited@.contains(m) && !before_state.visited@.contains(
                m,
            ) implies state.finals@.contains_key(m) && counted_from(
            before.blocks()[m],
            state.finals@[m],
        ) by {
            assert(m == b.0);
        }
        assert forall|above: Seq<BasicBlockIdx>, n: u64|
            #![trigger on_path(before_state, above), before.blocks()[n]]
            on_path(before_state, above) && state.visited@.contains(n)
                && !before_state.visited@.contains(n) implies renamed_on_way(
            tree,
            all,
            above,
            b,
            n,
            before.blocks()[n],
            cfg.blocks()[n],
            state.finals@,
            state.parameters@,
        ) by {
            assert(n == b.0);
            lemma_on_way_self(
                tree,
                all,
                above,
                b,
                before.blocks()[b.0],
                cfg.blocks()[b.0],
                before_state,
            );
            lemma_on_way_kept(
                tree,
                all,
                above,
                b,
                b.0,
                before.blocks()[b.0],
                cfg.blocks()[b.0],
                before_state.finals@,
                state.finals@,
                state.parameters@,
            );
        }
    }
    let children = dominance_tree.members(b);
    let mut i: usize = 0;
    while i < children.len()
        invariant
            i <= children@.len(),
            before == *old(cfg),
            before_state == *old(state),
            before.wf(),
            cfg.wf(),
            ended(*cfg),
            dominance_tree.wf(),
            pts == points.0@,
            same_shape(renamed_cfg, *cfg),
            same_shape(before, renamed_cfg),
            state.inv(*cfg, pts),
            marked.subset_of(state.visited@),
            marked == before_state.visited@.insert(b.0),
            before.blocks().dom().contains(b.0),
            unvisited(before, marked).len() < unvisited(before, before_state.visited@).len(),
            forall|n: u64|
                renamed_cfg.blocks().dom().contains(n) && (marked.contains(n)
                    || !state.visited@.contains(n)) ==> #[trigger] cfg.blocks()[n]
                    == renamed_cfg.blocks()[n],
            forall|n: u64|
                n != b.0 && before.blocks().dom().contains(n) ==> #[trigger] renamed_cfg.blocks()[n]
                    == before.blocks()[n],
            tree == dominance_tree@,
            all == before.blocks().dom(),
            inserted == before_state.finals@.insert(b.0, counted),
            counts_settled(before_state) ==> counts_settled(*state) && forall|m: u64| #[trigger]
                inserted.contains_key(m) ==> state.finals@.contains_key(m) && state.finals@[m]
                    == inserted[m],
            counts_settled(before_state) ==> forall|m: u64| #[trigger]
                state.visited@.contains(m) && !before_state.visited@.contains(m)
                    ==> state.finals@.contains_key(m) && counted_from(
                    before.blocks()[m],
                    state.finals@[m],
                ),
            forall|above: Seq<BasicBlockIdx>| #[trigger]
                on_path(before_state, above) ==> on_path(*state, above.push(b)),
            forall|above: Seq<BasicBlockIdx>, n: u64|
                #![trigger on_path(before_state, above), before.blocks()[n]]
                on_path(before_state, above) && state.visited@.contains(n)
                    && !before_state.visited@.contains(n) ==> renamed_on_way(
                    tree,
                    all,
                    above,
                    b,
                    n,
                    before.blocks()[n],
                    cfg.blocks()[n],
                    state.finals@,
                    state.parameters@,
                ),
            forall|k: BasicBlockIdx| #[trigger] children@.contains(k) <==> dominance_tree.holds(b, k),
            forall|open: Set<u64>| #[trigger]
                closed_but(tree, all, before_state.visited@, open) ==> closed_but(
                    tree,
                    all,
                    state.visited@,
                    open.insert(b.0),
                ),
            forall|w: int|
                0 <= w < i && all.contains((#[trigger] children@[w]).0) ==> state.visited@.contains(
                    children@[w].0,
                ),
            forall|n: u64|
                state.visited@.contains(n) && !before_state.visited@.contains(n) ==> renamed_from(
                    #[trigger] before.blocks()[n],
                    cfg.blocks()[n],
                    slot_of(n) as nat,
                ),
            pushed_stacks.same_stacks(&state.stacks),
            state.parameters == before_state.parameters,
        decreases children@.len() - i,
    {
        let c = children[i];
        if cfg.contains(c) {
            let ghost mid = *cfg;
            let ghost mid_state = *state;
            proof {
                vstd::set_lib::lemma_set_subset_finite(
                    before.blocks().dom(),
                    unvisited(before, marked),
                );
                assert(unvisited(before, mid_state.visited@).subset_of(unvisited(before, marked)));
                vstd::set_lib::lemma_len_subset(
                    unvisited(before, mid_state.visited@),
                    unvisited(before, marked),
                );
                assert(unvisited(mid, mid_state.visited@) =~= unvisited(
                    before,
                    mid_state.visited@,
                ));
                assert(unvisited(mid, mid_state.visited@).len() < unvisited(
                    before,
                    before_state.visited@,
                ).len());
            }
            rename_and_insert_upsilons(cfg, c, dominance_tree, points, sites, state);
            proof {
                assert(mid.blocks().dom() == all);
                if counts_settled(before_state) {
                    assert forall|m: u64| #[trigger] inserted.contains_key(m) implies state.finals@.contains_key(
                        m,
                    ) && state.finals@[m] == inserted[m] by {
                        assert(mid_state.finals@.contains_key(m));
                    }
                }
                assert forall|above: Seq<BasicBlockIdx>| #[trigger]
                    on_path(before_state, above) implies on_path(*state, above.push(b)) by {
                    assert(on_path(mid_state, above.push(b)));
                }
                if counts_settled(before_state) {
                    assert forall|m: u64| #[trigger]
                        state.visited@.contains(m) && !before_state.visited@.contains(
                            m,
                        ) implies state.finals@.contains_key(m) && counted_from(
                        before.blocks()[m],
                        state.finals@[m],
                    ) by {
                        if mid_state.visited@.contains(m) {
                            assert(mid_state.finals@.contains_key(m));
                        } else {
                            assert(cfg.blocks().dom().contains(m));
                            assert(m != b.0);
                            assert(mid.blocks()[m] == renamed_cfg.blocks()[m]);
                            assert(renamed_cfg.blocks()[m] == before.blocks()[m]);
                        }
                    }
                }
                assert forall|above: Seq<BasicBlockIdx>, n: u64|
                    #![trigger on_path(before_state, above), before.blocks()[n]]
                    on_path(before_state, above) && state.visited@.contains(n)
                        && !before_state.visited@.contains(n) implies renamed_on_way(
                    tree,
                    all,
                    above,
                    b,
                    n,
                    before.blocks()[n],
                    cfg.blocks()[n],
                    state.finals@,
                    state.parameters@,
                ) by {
                    assert(on_path(mid_state, above.push(b)));
                    assert(counts_settled(mid_state));
                    assert(cfg.blocks().dom().contains(n));
                    assert(mid.blocks().dom().contains(n));
                    if mid_state.visited@.contains(n) {
                        assert(cfg.blocks()[n] == mid.blocks()[n]);
                        lemma_on_way_kept(
                            tree,
                            all,
                            above,
                            b,
                            n,
                            before.blocks()[n],
                            mid.blocks()[n],
                            mid_state.finals@,
                            state.finals@,
                            state.parameters@,
                        );
                    } else {
                        assert(n != b.0);
                        assert(mid.blocks()[n] == renamed_cfg.blocks()[n]);
                        assert(renamed_cfg.blocks()[n] == before.blocks()[n]);
                        assert(renamed_on_way(
                            tree,
                            all,
                            above.push(b),
                            c,
                            n,
                            mid.blocks()[n],
                            cfg.blocks()[n],
                            state.finals@,
                            state.parameters@,
                        ));
                        assert(children@[i as int] == c);
                        assert(children@.contains(c));
                        assert(dominance_tree.holds(b, c));
                        lemma_on_way_down(
                            tree,
                            all,
                            above,
                            b,
                            c,
                            n,
                            before.blocks()[n],
                            cfg.blocks()[n],
                            state.finals@,
                            state.parameters@,
                        );
                    }
                }
                assert forall|open: Set<u64>| #[trigger]
                    closed_but(tree, all, before_state.visited@, open) implies closed_but(
                    tree,
                    all,
                    state.visited@,
                    open.insert(b.0),
                ) by {
                    assert(closed_but(tree, all, mid_state.visited@, open.insert(b.0)));
                }
                assert forall|w: int|
                    0 <= w < i + 1 && all.contains(
                        (#[trigger] children@[w]).0,
                    ) implies state.visited@.contains(children@[w].0) by {
                    if w < i {
                        assert(mid_state.visited@.contains(children@[w].0));
                    }
                }
                lemma_same_shape_chain(renamed_cfg, mid, *cfg);
                assert forall|n: u64|
                    renamed_cfg.blocks().dom().contains(n) && (marked.contains(n)
                        || !state.visited@.contains(n)) implies #[trigger] cfg.blocks()[n]
                    == renamed_cfg.blocks()[n] by {
                    assert(mid.blocks().dom().contains(n));
                    if marked.contains(n) {
                        assert(mid_state.visited@.contains(n));
                    } else {
                        assert(!mid_state.visited@.contains(n));
                    }
                    assert(cfg.blocks()[n] == mid.blocks()[n]);
                    assert(mid.blocks()[n] == renamed_cfg.blocks()[n]);
                }
                assert forall|n: u64|
                    state.visited@.contains(n) && !before_state.visited@.contains(
                        n,
                    ) implies renamed_from(
                    #[trigger] before.blocks()[n],
                    cfg.blocks()[n],
                    slot_of(n) as nat,
                ) by {
                    if mid_state.visited@.contains(n) {
                        assert(mid.blocks().dom().contains(n));
                        assert(cfg.blocks()[n] == mid.blocks()[n]);
                    } else {
                        assert(!marked.contains(n));
                        assert(n != b.0);
                        assert(renamed_from(mid.blocks()[n], cfg.blocks()[n], slot_of(n) as nat));
                        assert(cfg.blocks().dom().contains(n));
                        assert(renamed_cfg.blocks().dom().contains(n));
                        assert(mid.blocks()[n] == renamed_cfg.blocks()[n]);
                        assert(renamed_cfg.blocks()[n] == before.blocks()[n]);
                    }
                }
                assert forall|name: Seq<char>| #[trigger] pushed_stacks.stack_of(name)
                    == state.stacks.stack_of(name) by {
                    assert(pushed_stacks.stack_of(name) == mid_state.stacks.stack_of(name));
                    assert(mid_state.stacks.stack_of(name) == state.stacks.stack_of(name));
                }
            }
        }
        i += 1;
    }
    proof {
        lemma_pushed_same(base_stacks, b, texts(defined@), pushed_stacks, state.stacks);
        lemma_same_shape_chain(before, renamed_cfg, *cfg);
    }
    state.stacks.pop_all(b, defined.as_slice(), Ghost(base_stacks));
    proof {
        if counts_settled(before_state) {
            assert forall|m: u64| #[trigger] before_state.finals@.contains_key(m) implies state.finals@.contains_key(
                m,
            ) && state.finals@[m] == before_state.finals@[m] by {
                assert(inserted.contains_key(m));
                assert(m != b.0);
            }
        }
        assert forall|above: Seq<BasicBlockIdx>| #[trigger] on_path(before_state, above) implies on_path(
            *state,
            above,
        ) by {
            assert(counts_settled(before_state));
            lemma_on_path_kept(before_state, *state, above);
        }
        assert forall|open: Set<u64>| #[trigger]
            closed_but(tree, all, before_state.visited@, open) implies closed_but(
            tree,
            all,
            state.visited@,
            open,
        ) by {
            assert(closed_but(tree, all, state.visited@, open.insert(b.0)));
            assert forall|v: BasicBlockIdx, c: BasicBlockIdx|
                state.visited@.contains(v.0) && !open.contains(v.0) && #[trigger] held(tree, v, c)
                    && all.contains(c.0) implies state.visited@.contains(c.0) by {
                if v.0 == b.0 {
                    assert(v == b);
                    assert(dominance_tree.holds(b, c));
                    assert(children@.contains(c));
                    let w = choose|w: int| 0 <= w < children@.len() && children@[w] == c;
                    assert(all.contains(children@[w].0));
                } else {
                    assert(!open.insert(b.0).contains(v.0));
                }
            }
        }
        assert forall|path: Seq<BasicBlockIdx>|
            closed_but(tree, all, before_state.visited@, Set::<u64>::empty())
                && #[trigger] tree_path(tree, all, path) && path[0]
                == block_idx implies state.visited@.contains(path.last().0) by {
            assert(closed_but(tree, all, state.visited@, Set::<u64>::empty()));
            lemma_closed_holds_below(tree, all, state.visited@, path);
        }
        if closed_but(tree, all, before_state.visited@, Set::<u64>::empty()) && reaches_all(
            tree,
            all,
            block_idx,
        ) {
            assert forall|n: u64| #[trigger] cfg.blocks().dom().contains(n) implies block_done(
                *cfg,
                pts,
                n,
            ) by {
                let path = choose|path: Seq<BasicBlockIdx>|
                    #![trigger tree_path(tree, all, path)]
                    tree_path(tree, all, path) && path[0] == block_idx && path.last().0 == n;
                assert(closed_but(tree, all, state.visited@, Set::<u64>::empty()));
                lemma_closed_holds_below(tree, all, state.visited@, path);
                assert(state.visited@.contains(n));
            }
        }
        assert forall|n: u64|
            before.blocks().dom().contains(n) && (before_state.visited@.contains(n)
                || !state.visited@.contains(n)) implies #[trigger] cfg.blocks()[n]
            == before.blocks()[n] by {
            assert(n != b.0);
            assert(renamed_cfg.blocks()[n] == before.blocks()[n]);
            if before_state.visited@.contains(n) {
                assert(marked.contains(n));
            }
        }
    }
}

impl Renaming {
    /// The state before any block is renamed, for a function with the
    /// parameters `arguments`.
    pub fn new(arguments: &Vec<crate::ir::Argument>) -> (r: Self)
        ensures
            r.visited@ == Set::<u64>::empty(),
            r.finals@ == Map::<u64, LocalRenamer>::empty(),
            r.undefined@.len() == 0,
            forall|name: Seq<char>| #[trigger] r.stacks.stack_of(name) == Seq::<BasicBlockIdx>::empty(),
            forall|v: Seq<char>|
                r.parameters@.contains(v) <==> exists|j: int|
                    0 <= j < arguments@.len() && (#[trigger] arguments@[j]).name@ == v,
    {
        let mut parameters = StringHashSet::new();
        let mut i: usize = 0;
        while i < arguments.len()
            invariant
                i <= arguments@.len(),
                forall|v: Seq<char>|
                    parameters@.contains(v) <==> exists|j: int|
                        0 <= j < i && (#[trigger] arguments@[j]).name@ == v,
            decreases arguments@.len() - i,
        {
            let ghost before = parameters@;
            parameters.insert(arguments[i].name.clone());
            proof {
                assert forall|v: Seq<char>| parameters@.contains(v) <==> exists|j: int|
                    0 <= j < i + 1 && (#[trigger] arguments@[j]).name@ == v by {
                    if before.contains(v) {
                        let j = choose|j: int| 0 <= j < i && (#[trigger] arguments@[j]).name@ == v;
                        assert(0 <= j < i + 1 && arguments@[j].name@ == v);
                    }
                    if v == arguments@[i as int].name@ {
                        assert(0 <= i < i + 1 && arguments@[i as int].name@ == v);
                    }
                }
            }
            i += 1;
        }
        Renaming {
            stacks: DominatingDefinitionsStacks::new(),
            finals: HashMap::new(),
            parameters,
            undefined: Vec::new(),
            visited: HashSet::new(),
        }
    }
}

/// Whether every block of the graph is renamed.
pub open spec fn all_done(cfg: FunctionCfg, points: Seq<PhiSite>) -> bool {
    forall|n: u64| #[trigger] cfg.blocks().dom().contains(n) ==> block_done(cfg, points, n)
}

/// Where every block is renamed and no two blocks have the same slot, no
/// variable is defined twice: the function is in static single assignment
/// form.
pub proof fn lemma_done_is_ssa(cfg: FunctionCfg, points: Seq<PhiSite>)
    requires
        all_done(cfg, points),
        slots_apart(cfg),
    ensures
        strict_ssa(cfg),
{
    assert forall|n1: u64, i1: int, n2: u64, i2: int, v: Seq<char>|
        #![trigger defines(cfg, n1, i1, v), defines(cfg, n2, i2, v)]
        defines(cfg, n1, i1, v) && defines(cfg, n2, i2, v) implies n1 == n2 && i1 == i2 by {
        assert(block_done(cfg, points, n1));
        assert(block_done(cfg, points, n2));
        let a = cfg.blocks()[n1].code();
        let b = cfg.blocks()[n2].code();
        if n1 != n2 {
            assert(slot_of(n1) != slot_of(n2));
            lemma_named_apart_blocks(a, slot_of(n1) as nat, i1, b, slot_of(n2) as nat, i2);
        } else if i1 != i2 {
            if i1 < i2 {
                assert(a[i1].kill() is Some && a[i2].kill() == a[i1].kill());
            } else {
                assert(a[i2].kill() is Some && a[i1].kill() == a[i2].kill());
            }
        }
    }
}

/// In a renamed function every block holds, before its exit, a `set` for
/// each `get` of `points` in each of its successors: the `get` of the
/// variable `points[e]` in the block `s` has, in every predecessor `p` of
/// `s`, a `set` of its name.
pub proof fn lemma_done_has_sets(
    cfg: FunctionCfg,
    points: Seq<PhiSite>,
    s: BasicBlockIdx,
    p: BasicBlockIdx,
    e: int,
)
    requires
        cfg.wf(),
        all_done(cfg, points),
        cfg.has(s),
        cfg.preds(s).contains(p),
        0 <= e < points.len(),
        points[e].blocks@.contains(s),
    ensures
        cfg.has(p),
        exists|w: int|
            0 <= w < cfg.blocks()[p.0].spec_index_before_exit() && w < cfg.blocks()[p.0].code().len()
                && sets_target(
                #[trigger] cfg.blocks()[p.0].code()[w],
                minted(points[e].name@, slot_of(s.0) as nat, 1),
            ),
{
    assert(cfg.has(p) && cfg.succ(p).contains(s));
    assert(block_done(cfg, points, p.0));
    assert(BasicBlockIdx(p.0) == p);
    let t = choose|t: int| 0 <= t < cfg.succ(p).len() && cfg.succ(p)[t] == s;
    assert(points[e].blocks@.contains(cfg.succ(BasicBlockIdx(p.0))[t]));
}

/// The name in force for `a` where no block defines it on the way from the
/// entry: the name itself for a parameter, else the name for an undefined
/// variable.
pub open spec fn root_name(arguments: Seq<crate::ir::Argument>, a: Seq<char>) -> Seq<char> {
    if exists|j: int| 0 <= j < arguments.len() && (#[trigger] arguments[j]).name@ == a {
        a
    } else {
        undefined_name(a)
    }
}

/// Whether `after` is the entry `before` renamed with the tag `tag`, no
/// definition in force from outside: its instructions are those of `before`
/// renamed, a use without a definition before it in the block named as
/// [`root_name`] says, with `set`s before the exit, each giving a `get` the
/// name in force for its variable at the end of the block.
pub open spec fn entry_renamed(
    before: BasicBlock,
    after: BasicBlock,
    tag: nat,
    arguments: Seq<crate::ir::Argument>,
) -> bool {
    exists|outer: spec_fn(Seq<char>) -> Seq<char>, sets: Seq<InstructionView>|
        #![trigger renamed(before.code(), tag, outer), all_sets(sets)]
        (forall|a: Seq<char>| #[trigger] outer(a) == root_name(arguments, a)) && all_sets(sets) && sets_sourced(sets, before.code(), tag, outer)
            && after.code() == with_sets(
            renamed(before.code(), tag, outer),
            sets,
            !(before.exit is Fallthrough),
        )
}

/// A block renamed under a state without stacks is renamed as an entry.
pub proof fn lemma_entry_renamed(
    before: BasicBlock,
    after: BasicBlock,
    tag: nat,
    state: Renaming,
    arguments: Seq<crate::ir::Argument>,
)
    requires
        renamed_under(before, after, tag, state),
        forall|name: Seq<char>| #[trigger] state.stacks.stack_of(name) == Seq::<BasicBlockIdx>::empty(),
        forall|v: Seq<char>|
            state.parameters@.contains(v) <==> exists|j: int|
                0 <= j < arguments.len() && (#[trigger] arguments[j]).name@ == v,
    ensures
        entry_renamed(before, after, tag, arguments),
{
    let (outer, sets) = choose|outer: spec_fn(Seq<char>) -> Seq<char>, sets: Seq<InstructionView>|
        #![trigger renamed(before.code(), tag, outer), all_sets(sets)]
        (forall|a: Seq<char>| #[trigger] outer(a) == state.outer_name(a)) && all_sets(sets) && sets_sourced(sets, before.code(), tag, outer)
            && after.code() == with_sets(
            renamed(before.code(), tag, outer),
            sets,
            !(before.exit is Fallthrough),
        );
    assert forall|a: Seq<char>| #[trigger] outer(a) == root_name(arguments, a) by {
        assert(outer(a) == state.outer_name(a));
        assert(state.stacks.stack_of(a).len() == 0);
    }
    assert(all_sets(sets));
    assert(after.code() == with_sets(renamed(before.code(), tag, outer), sets, !(before.exit is Fallthrough)));
}

/// The name in force for `a` below the blocks `above` of `local`, the
/// closest last: that of the last definition of `a` in the closest of them
/// that defines `a`; where none does, the name itself for a parameter and
/// the name for an undefined variable for any other.
pub open spec fn name_over(local: FunctionCfg, above: Seq<BasicBlockIdx>, a: Seq<char>) -> Seq<char>
    decreases above.len(),
{
    if above.len() == 0 {
        root_name(local.signature.arguments@, a)
    } else {
        let code = local.blocks()[above.last().0].code();
        if count_defs(code, code.len() as int, a) > 0 {
            minted(a, slot_of(above.last().0) as nat, count_defs(code, code.len() as int, a))
        } else {
            name_over(local, above.drop_last(), a)
        }
    }
}

/// Whether `after` is the block `n` of `local` renamed below the blocks
/// `above`: its instructions are those of the block renamed, a use without
/// a definition before it in the block named as [`name_over`] says, with
/// `set`s before the exit, each giving a `get` the name in force for its
/// variable at the end of the block.
pub open spec fn renamed_with_names(
    local: FunctionCfg,
    above: Seq<BasicBlockIdx>,
    n: u64,
    after: BasicBlock,
) -> bool {
    exists|outer: spec_fn(Seq<char>) -> Seq<char>, sets: Seq<InstructionView>|
        #![trigger renamed(local.blocks()[n].code(), slot_of(n) as nat, outer), all_sets(sets)]
        (forall|a: Seq<char>| #[trigger] outer(a) == name_over(local, above, a)) && all_sets(sets) && sets_sourced(sets, local.blocks()[n].code(), slot_of(n) as nat, outer)
            && after.code() == with_sets(
            renamed(local.blocks()[n].code(), slot_of(n) as nat, outer),
            sets,
            !(local.blocks()[n].exit is Fallthrough),
        )
}

/// Whether `after` is the block `n` of `local` renamed below the blocks on
/// a way down the tree from `root` to it.
pub open spec fn renamed_along(
    tree: Map<u64, Set<u64>>,
    local: FunctionCfg,
    root: BasicBlockIdx,
    n: u64,
    after: BasicBlock,
) -> bool {
    exists|way: Seq<BasicBlockIdx>|
        #![trigger tree_path(tree, local.blocks().dom(), way)]
        tree_path(tree, local.blocks().dom(), way) && way[0] == root && way.last().0 == n
            && renamed_with_names(local, way.drop_last(), n, after)
}

/// Whether `after` is the block `n` of `local` renamed below the blocks on
/// a way down the tree to it from some block.
pub open spec fn renamed_somewhere(
    tree: Map<u64, Set<u64>>,
    local: FunctionCfg,
    n: u64,
    after: BasicBlock,
) -> bool {
    exists|root: BasicBlockIdx| #[trigger] renamed_along(tree, local, root, n, after)
}

/// By the counts of the blocks of `local`, the name in force is the one
/// that the blocks of `local` give.
pub proof fn lemma_name_over(
    finals: Map<u64, LocalRenamer>,
    parameters: Set<Seq<char>>,
    local: FunctionCfg,
    above: Seq<BasicBlockIdx>,
    a: Seq<char>,
)
    requires
        forall|i: int|
            0 <= i < above.len() ==> finals.contains_key((#[trigger] above[i]).0) && counted_from(
                local.blocks()[above[i].0],
                finals[above[i].0],
            ),
        forall|v: Seq<char>|
            parameters.contains(v) <==> exists|j: int|
                0 <= j < local.signature.arguments@.len() && (
                #[trigger] local.signature.arguments@[j]).name@ == v,
    ensures
        name_above(finals, parameters, above, a) == name_over(local, above, a),
    decreases above.len(),
{
    if above.len() > 0 {
        let front = above.drop_last();
        assert forall|i: int| 0 <= i < front.len() implies finals.contains_key(
            (#[trigger] front[i]).0,
        ) && counted_from(local.blocks()[front[i].0], finals[front[i].0]) by {
            assert(front[i] == above[i]);
        }
        lemma_name_over(finals, parameters, local, front, a);
        let m = above[above.len() - 1];
        assert(above.last() == m);
        assert(counted_from(local.blocks()[m.0], finals[m.0]));
        assert(finals[m.0].count(a) == count_defs(
            local.blocks()[m.0].code(),
            local.blocks()[m.0].code().len() as int,
            a,
        ));
    }
}

/// A block renamed on a way, by the counts of the blocks of `local`, is
/// renamed along that way.
pub proof fn lemma_along(
    tree: Map<u64, Set<u64>>,
    local: FunctionCfg,
    root: BasicBlockIdx,
    n: u64,
    after: BasicBlock,
    finals: Map<u64, LocalRenamer>,
    parameters: Set<Seq<char>>,
)
    requires
        renamed_on_way(
            tree,
            local.blocks().dom(),
            Seq::empty(),
            root,
            n,
            local.blocks()[n],
            after,
            finals,
            parameters,
        ),
        forall|m: u64| #[trigger]
            finals.contains_key(m) ==> counted_from(local.blocks()[m], finals[m]),
        forall|v: Seq<char>|
            parameters.contains(v) <==> exists|j: int|
                0 <= j < local.signature.arguments@.len() && (
                #[trigger] local.signature.arguments@[j]).name@ == v,
    ensures
        renamed_along(tree, local, root, n, after),
{
    let blocks = local.blocks().dom();
    let before = local.blocks()[n];
    let tag = slot_of(n) as nat;
    let way = choose|way: Seq<BasicBlockIdx>|
        #![trigger tree_path(tree, blocks, way)]
        tree_path(tree, blocks, way) && way[0] == root && way.last().0 == n && renamed_below(
            before,
            after,
            tag,
            finals,
            parameters,
            Seq::<BasicBlockIdx>::empty() + way.drop_last(),
        );
    let above = way.drop_last();
    assert(Seq::<BasicBlockIdx>::empty() + above =~= above);
    let (outer, sets) = choose|outer: spec_fn(Seq<char>) -> Seq<char>, sets: Seq<InstructionView>|
        #![trigger renamed(before.code(), tag, outer), all_sets(sets)]
        (forall|a: Seq<char>| #[trigger] outer(a) == name_above(finals, parameters, above, a))
            && all_sets(sets) && sets_sourced(sets, before.code(), tag, outer) && after.code() == with_sets(
            renamed(before.code(), tag, outer),
            sets,
            !(before.exit is Fallthrough),
        );
    assert forall|a: Seq<char>| #[trigger] outer(a) == name_over(local, above, a) by {
        assert(outer(a) == name_above(finals, parameters, above, a));
        lemma_name_over(finals, parameters, local, above, a);
    }
    assert(all_sets(sets));
    assert(after.code() == with_sets(renamed(before.code(), tag, outer), sets, !(before.exit is Fallthrough)));
    assert(renamed_with_names(local, above, n, after));
    assert(tree_path(tree, blocks, way));
}

/// Whether the block `n` is renamed on a way down the tree from some
/// block, with nothing above that block.
pub open spec fn on_some_way(
    tree: Map<u64, Set<u64>>,
    blocks: Set<u64>,
    n: u64,
    before: BasicBlock,
    after: BasicBlock,
    finals: Map<u64, LocalRenamer>,
    parameters: Set<Seq<char>>,
) -> bool {
    exists|root: BasicBlockIdx| #[trigger]
        renamed_on_way(tree, blocks, Seq::empty(), root, n, before, after, finals, parameters)
}

/// Renames every block of the function: the entry and what lies below it
/// in the dominator tree, then any block not reached that way with no
/// definition in force. Returns the names used for variables without a
/// definition in force, each with the type of the variable.
///
/// Every block below the entry in the tree is renamed below the blocks on
/// the way from the entry to it: a use without a definition before it in
/// its block takes the name of the last definition in the closest block on
/// that way that defines the variable.
pub fn rename_all(
    cfg: &mut FunctionCfg,
    dominance_tree: &BlockSets,
    points: &PhiInsertionPoints,
    sites: &DefinitionSites,
) -> (undefined: Vec<(String, Type)>)
    requires
        old(cfg).wf(),
        ended(*old(cfg)),
        dominance_tree.wf(),
    ensures
        final(cfg).wf(),
        ended(*final(cfg)),
        same_shape(*old(cfg), *final(cfg)),
        all_done(*final(cfg), points.0@),
        strict_ssa(*final(cfg)),
        forall|n: u64|
            old(cfg).blocks().dom().contains(n) ==> renamed_from(
                #[trigger] old(cfg).blocks()[n],
                final(cfg).blocks()[n],
                slot_of(n) as nat,
            ),
        entry_renamed(
            old(cfg).blocks()[old(cfg).entry.0],
            final(cfg).blocks()[old(cfg).entry.0],
            slot_of(old(cfg).entry.0) as nat,
            old(cfg).signature.arguments@,
        ),
        forall|n: u64| #[trigger]
            old(cfg).blocks().dom().contains(n) ==> renamed_somewhere(
                dominance_tree@,
                *old(cfg),
                n,
                final(cfg).blocks()[n],
            ),
        forall|path: Seq<BasicBlockIdx>| #[trigger]
            tree_path(dominance_tree@, old(cfg).blocks().dom(), path) && path[0] == old(cfg).entry
                ==> renamed_along(
                dominance_tree@,
                *old(cfg),
                old(cfg).entry,
                path.last().0,
                final(cfg).blocks()[path.last().0],
            ),
{
    let ghost before = *cfg;
    let ghost tree = dominance_tree@;
    let ghost all = cfg.blocks().dom();
    let ghost none = Seq::<BasicBlockIdx>::empty();
    let mut state = Renaming::new(&cfg.signature.arguments);
    let ghost start = state;
    let entry = cfg.entry;
    proof {
        assert(on_path(start, none));
        assert(closed_but(tree, all, start.visited@, Set::<u64>::empty()));
    }
    rename_and_insert_upsilons(cfg, entry, dominance_tree, points, sites, &mut state);
    let ghost first = state.visited@;
    proof {
        assert(!start.visited@.contains(entry.0));
        lemma_entry_renamed(
            before.blocks()[entry.0],
            cfg.blocks()[entry.0],
            slot_of(entry.0) as nat,
            start,
            before.signature.arguments@,
        );
        assert(counts_settled(start));
        assert forall|n: u64| first.contains(n) implies renamed_on_way(
            tree,
            all,
            none,
            entry,
            n,
            #[trigger] before.blocks()[n],
            cfg.blocks()[n],
            state.finals@,
            state.parameters@,
        ) by {
            assert(on_path(start, none));
        }
    }
    let keys = cfg.keys();
    let mut i: usize = 0;
    while i < keys.len()
        invariant
            i <= keys@.len(),
            before.wf(),
            cfg.wf(),
            ended(*cfg),
            dominance_tree.wf(),
            same_shape(before, *cfg),
            state.inv(*cfg, points.0@),
            entry == before.entry,
            state.visited@.contains(entry.0),
            tree == dominance_tree@,
            all == before.blocks().dom(),
            none == Seq::<BasicBlockIdx>::empty(),
            on_path(state, none),
            forall|v: Seq<char>|
                state.parameters@.contains(v) <==> exists|j: int|
                    0 <= j < before.signature.arguments@.len() && (
                    #[trigger] before.signature.arguments@[j]).name@ == v,
            forall|m: u64| #[trigger]
                state.visited@.contains(m) ==> state.finals@.contains_key(m) && counted_from(
                    before.blocks()[m],
                    state.finals@[m],
                ),
            forall|n: u64|
                state.visited@.contains(n) ==> on_some_way(
                    tree,
                    all,
                    n,
                    #[trigger] before.blocks()[n],
                    cfg.blocks()[n],
                    state.finals@,
                    state.parameters@,
                ),
            first.subset_of(state.visited@),
            forall|n: u64|
                first.contains(n) ==> renamed_on_way(
                    tree,
                    all,
                    none,
                    entry,
                    n,
                    #[trigger] before.blocks()[n],
                    cfg.blocks()[n],
                    state.finals@,
                    state.parameters@,
                ),
            forall|path: Seq<BasicBlockIdx>| #[trigger]
                tree_path(tree, all, path) && path[0] == entry ==> first.contains(path.last().0),
            entry_renamed(
                before.blocks()[entry.0],
                cfg.blocks()[entry.0],
                slot_of(entry.0) as nat,
                before.signature.arguments@,
            ),
            forall|n: u64|
                state.visited@.contains(n) ==> renamed_from(
                    #[trigger] before.blocks()[n],
                    cfg.blocks()[n],
                    slot_of(n) as nat,
                ),
            forall|n: u64|
                before.blocks().dom().contains(n) && !state.visited@.contains(n)
                    ==> #[trigger] cfg.blocks()[n] == before.blocks()[n],
            forall|k: BasicBlockIdx| #[trigger] keys@.contains(k) <==> before.has(k),
            forall|j: int, w: int|
                0 <= j < w < keys@.len() ==> slot_of(#[trigger] keys@[j].0) < slot_of(
                    #[trigger] keys@[w].0,
                ),
            forall|w: int| 0 <= w < i ==> state.visited@.contains((#[trigger] keys@[w]).0),
        decreases keys@.len() - i,
    {
        let k = keys[i];
        let ghost mid = *cfg;
        let ghost mid_state = state;
        let ghost seen = state.visited@;
        assert(keys@.contains(k));
        rename_and_insert_upsilons(cfg, k, dominance_tree, points, sites, &mut state);
        proof {
            assert(counts_settled(mid_state));
            assert(mid.blocks().dom() == all);
            assert forall|m: u64| #[trigger] state.visited@.contains(m) implies state.finals@.contains_key(
                m,
            ) && counted_from(before.blocks()[m], state.finals@[m]) by {
                if seen.contains(m) {
                    assert(mid_state.finals@.contains_key(m));
                } else {
                    assert(cfg.blocks().dom().contains(m));
                    assert(mid.blocks()[m] == before.blocks()[m]);
                }
            }
            assert forall|n: u64| state.visited@.contains(n) implies on_some_way(
                tree,
                all,
                n,
                #[trigger] before.blocks()[n],
                cfg.blocks()[n],
                state.finals@,
                state.parameters@,
            ) by {
                assert(cfg.blocks().dom().contains(n));
                assert(mid.blocks().dom().contains(n));
                if seen.contains(n) {
                    assert(cfg.blocks()[n] == mid.blocks()[n]);
                    assert(on_some_way(
                        tree,
                        all,
                        n,
                        before.blocks()[n],
                        mid.blocks()[n],
                        mid_state.finals@,
                        mid_state.parameters@,
                    ));
                    let root = choose|root: BasicBlockIdx| #[trigger]
                        renamed_on_way(
                            tree,
                            all,
                            Seq::empty(),
                            root,
                            n,
                            before.blocks()[n],
                            mid.blocks()[n],
                            mid_state.finals@,
                            mid_state.parameters@,
                        );
                    lemma_on_way_kept(
                        tree,
                        all,
                        none,
                        root,
                        n,
                        before.blocks()[n],
                        mid.blocks()[n],
                        mid_state.finals@,
                        state.finals@,
                        state.parameters@,
                    );
                } else {
                    assert(mid.blocks()[n] == before.blocks()[n]);
                    assert(on_path(mid_state, none));
                    assert(renamed_on_way(
                        tree,
                        all,
                        none,
                        k,
                        n,
                        mid.blocks()[n],
                        cfg.blocks()[n],
                        state.finals@,
                        state.parameters@,
                    ));
                }
            }
            assert forall|n: u64| first.contains(n) implies renamed_on_way(
                tree,
                all,
                none,
                entry,
                n,
                #[trigger] before.blocks()[n],
                cfg.blocks()[n],
                state.finals@,
                state.parameters@,
            ) by {
                assert(seen.contains(n));
                assert(mid.blocks().dom().contains(n));
                assert(cfg.blocks()[n] == mid.blocks()[n]);
                lemma_on_way_kept(
                    tree,
                    all,
                    none,
                    entry,
                    n,
                    before.blocks()[n],
                    mid.blocks()[n],
                    mid_state.finals@,
                    state.finals@,
                    state.parameters@,
                );
            }
            assert(mid.blocks().dom().contains(entry.0));
            assert(cfg.blocks()[entry.0] == mid.blocks()[entry.0]);
            lemma_same_shape_chain(before, mid, *cfg);
            assert forall|n: u64| state.visited@.contains(n) implies renamed_from(
                #[trigger] before.blocks()[n],
                cfg.blocks()[n],
                slot_of(n) as nat,
            ) by {
                assert(cfg.blocks().dom().contains(n));
                assert(mid.blocks().dom().contains(n));
                if seen.contains(n) {
                    assert(cfg.blocks()[n] == mid.blocks()[n]);
                } else {
                    assert(renamed_from(mid.blocks()[n], cfg.blocks()[n], slot_of(n) as nat));
                    assert(mid.blocks()[n] == before.blocks()[n]);
                }
            }
            assert forall|n: u64|
                before.blocks().dom().contains(n) && !state.visited@.contains(
                    n,
                ) implies #[trigger] cfg.blocks()[n] == before.blocks()[n] by {
                assert(mid.blocks().dom().contains(n));
                assert(!seen.contains(n));
                assert(cfg.blocks()[n] == mid.blocks()[n]);
            }
            assert forall|w: int| 0 <= w < i + 1 implies state.visited@.contains(
                (#[trigger] keys@[w]).0,
            ) by {
                if w < i {
                    assert(seen.contains(keys@[w].0));
                }
            }
        }
        i += 1;
    }
    proof {
        assert forall|n: u64| #[trigger] cfg.blocks().dom().contains(n) implies block_done(
            *cfg,
            points.0@,
            n,
        ) by {
            assert(keys@.contains(BasicBlockIdx(n)));
            let w = choose|w: int| 0 <= w < keys@.len() && keys@[w] == BasicBlockIdx(n);
            assert(state.visited@.contains(keys@[w].0));
        }
        assert(slots_apart(*cfg)) by {
            assert forall|a: u64, b: u64|
                cfg.blocks().dom().contains(a) && cfg.blocks().dom().contains(b) && a
                    != b implies #[trigger] slot_of(a) != #[trigger] slot_of(b) by {
                assert(keys@.contains(BasicBlockIdx(a)));
                assert(keys@.contains(BasicBlockIdx(b)));
                let x = choose|x: int| 0 <= x < keys@.len() && keys@[x] == BasicBlockIdx(a);
                let y = choose|y: int| 0 <= y < keys@.len() && keys@[y] == BasicBlockIdx(b);
                if x < y {
                    assert(slot_of(keys@[x].0) < slot_of(keys@[y].0));
                } else {
                    assert(slot_of(keys@[y].0) < slot_of(keys@[x].0));
                }
            }
        }
        lemma_done_is_ssa(*cfg, points.0@);
        assert(counts_settled(state));
        assert forall|m: u64| #[trigger] state.finals@.contains_key(m) implies counted_from(
            before.blocks()[m],
            state.finals@[m],
        ) by {
            assert(state.visited@.contains(m));
        }
        assert forall|n: u64| #[trigger] before.blocks().dom().contains(n) implies renamed_somewhere(
            tree,
            before,
            n,
            cfg.blocks()[n],
        ) by {
            assert(keys@.contains(BasicBlockIdx(n)));
            let w = choose|w: int| 0 <= w < keys@.len() && keys@[w] == BasicBlockIdx(n);
            assert(state.visited@.contains(keys@[w].0));
            assert(on_some_way(
                tree,
                all,
                n,
                before.blocks()[n],
                cfg.blocks()[n],
                state.finals@,
                state.parameters@,
            ));
            let root = choose|root: BasicBlockIdx| #[trigger]
                renamed_on_way(
                    tree,
                    all,
                    Seq::empty(),
                    root,
                    n,
                    before.blocks()[n],
                    cfg.blocks()[n],
                    state.finals@,
                    state.parameters@,
                );
            lemma_along(tree, before, root, n, cfg.blocks()[n], state.finals@, state.parameters@);
        }
        assert forall|path: Seq<BasicBlockIdx>| #[trigger]
            tree_path(tree, all, path) && path[0] == entry implies renamed_along(
            tree,
            before,
            entry,
            path.last().0,
            cfg.blocks()[path.last().0],
        ) by {
            let n = path.last().0;
            assert(first.contains(n));
            assert(renamed_on_way(
                tree,
                all,
                none,
                entry,
                n,
                before.blocks()[n],
                cfg.blocks()[n],
                state.finals@,
                state.parameters@,
            ));
            lemma_along(tree, before, entry, n, cfg.blocks()[n], state.finals@, state.parameters@);
        }
        assert forall|n: u64| before.blocks().dom().contains(n) implies renamed_from(
            #[trigger] before.blocks()[n],
            cfg.blocks()[n],
            slot_of(n) as nat,
        ) by {
            assert(keys@.contains(BasicBlockIdx(n)));
            let w = choose|w: int| 0 <= w < keys@.len() && keys@[w] == BasicBlockIdx(n);
            assert(state.visited@.contains(keys@[w].0));
        }
    }
    state.undefined
}

/// The copy of a parameter into itself, which makes it a local variable.
pub open spec fn parameter_copy(name: Seq<char>, ty: Type) -> InstructionView {
    InstructionView::Value {
        dest: name,
        op: ValueOp::Id,
        args: seq![name],
        funcs: Seq::empty(),
        labels: Seq::empty(),
        op_type: ty,
        pos: None,
    }
}

/// The copies of the parameters `arguments`, in order.
pub open spec fn parameter_copies(arguments: Seq<crate::ir::Argument>) -> Seq<InstructionView> {
    Seq::new(arguments.len(), |i: int| parameter_copy(arguments[i].name@, arguments[i].arg_type))
}

/// Makes the parameters of the function local variables: the entry gets, at
/// its head, a copy of each parameter into itself.
pub fn simulate_parameters_as_locals(cfg: &mut FunctionCfg)
    requires
        old(cfg).wf(),
    ensures
        final(cfg).wf(),
        same_shape(*old(cfg), *final(cfg)),
        final(cfg).blocks()[old(cfg).entry.0].code() == parameter_copies(
            old(cfg).signature.arguments@,
        ) + old(cfg).blocks()[old(cfg).entry.0].code(),
        forall|n: u64|
            n != old(cfg).entry.0 && old(cfg).blocks().dom().contains(n) ==> #[trigger] final(cfg).blocks()[n] == old(cfg).blocks()[n],
        old(cfg).terminated() ==> final(cfg).terminated(),
        ended(*old(cfg)) ==> ended(*final(cfg)),
{
    let ghost before = *cfg;
    let mut copies: Vec<Instruction> = Vec::new();
    let mut i: usize = 0;
    while i < cfg.signature.arguments.len()
        invariant
            i <= cfg.signature.arguments@.len(),
            *cfg == before,
            copies@.len() == i,
            forall|w: int|
                0 <= w < i ==> (#[trigger] copies@[w])@ == parameter_copy(
                    cfg.signature.arguments@[w].name@,
                    cfg.signature.arguments@[w].arg_type,
                ),
        decreases cfg.signature.arguments@.len() - i,
    {
        let argument = &cfg.signature.arguments[i];
        let mut args: Vec<String> = Vec::new();
        args.push(argument.name.clone());
        let copy = Instruction::Value {
            dest: argument.name.clone(),
            op: ValueOp::Id,
            args,
            funcs: Vec::new(),
            labels: Vec::new(),
            op_type: argument.arg_type.dup(),
            pos: None,
        };
        proof {
            assert(copy@->Value_args =~= seq![argument.name@]);
            assert(copy@->Value_funcs =~= Seq::<Seq<char>>::empty());
            assert(copy@->Value_labels =~= Seq::<Seq<char>>::empty());
        }
        copies.push(copy);
        i += 1;
    }
    proof {
        assert(views(copies@) =~= parameter_copies(before.signature.arguments@));
        assert(canonical(before.entry.0) == before.entry.0);
    }
    let entry = cfg.entry;
    let block = store_get_mut(&mut cfg.vertices, entry);
    prepend(block, copies);
    proof {
        assert(cfg.blocks().dom() =~= before.blocks().dom());
        assert(same_shape(before, *cfg));
        lemma_same_shape(before, *cfg);
        if before.terminated() {
            assert forall|n: u64| #[trigger] cfg.blocks().dom().contains(n) implies cfg.blocks()[n].terminated() by {
                assert(before.blocks().dom().contains(n));
                if n != entry.0 {
                    assert(cfg.blocks()[n] == before.blocks()[n]);
                }
            }
        }
        if ended(before) {
            assert forall|n: u64| #[trigger]
                cfg.blocks().dom().contains(n) && !(cfg.blocks()[n].exit is Fallthrough) implies cfg.blocks()[n].code().len()
                > 0 by {
                assert(before.blocks().dom().contains(n));
                if n != entry.0 {
                    assert(cfg.blocks()[n] == before.blocks()[n]);
                }
            }
        }
    }
}

/// The label that the old entry carries under a new entry: its own, or
/// `entry` where it had none.
pub open spec fn entry_label(b: BasicBlock) -> Seq<char> {
    match b.label {
        Some(l) => l.name@,
        None => "entry"@,
    }
}

/// Whether `entered` is `before` under a new entry: a new block, marked as
/// the entry and without a label or a predecessor, holds a jump to the old
/// entry and nothing else; the old entry is no longer marked and carries a
/// label; every other block, and every exit of an old block, is as it was.
pub open spec fn new_entry(before: FunctionCfg, entered: FunctionCfg) -> bool {
    let e = entered.entry;
    let o = before.entry;
    &&& entered.wf()
    &&& under_new_entry(before, entered)
    &&& entered.preds(e).len() == 0
    &&& entered.blocks()[e.0].is_entry
    &&& entered.blocks()[e.0].label is None
    &&& entered.blocks()[e.0].code() == seq![crate::ir::jump_to(entry_label(before.blocks()[o.0]))]
    &&& !entered.blocks()[o.0].is_entry
    &&& entered.blocks()[o.0].label_text() == Some(entry_label(before.blocks()[o.0]))
    &&& forall|n: u64| #[trigger]
        before.blocks().dom().contains(n) ==> entered.blocks()[n].code() == before.blocks()[n].code()
            && entered.blocks()[n].exit == before.blocks()[n].exit && entered.edges@[n]
            == before.edges@[n] && (n != o.0 ==> entered.blocks()[n] == before.blocks()[n])
}

/// Puts a new, empty block before the entry, which jumps to the old entry
/// and is the entry from now on, so that the entry has no predecessor. An
/// old entry without a label gets the label `entry`.
pub fn insert_new_empty_entry_block(cfg: &mut FunctionCfg) -> (entry: BasicBlockIdx)
    requires
        old(cfg).wf(),
        old(cfg).blocks().dom().len() < 0xffff_fffe,
    ensures
        final(cfg).wf(),
        final(cfg).entry == entry,
        !old(cfg).has(entry),
        final(cfg).blocks().dom() == old(cfg).blocks().dom().insert(entry.0),
        final(cfg).signature == old(cfg).signature,
        final(cfg).succ(entry) == seq![old(cfg).entry],
        final(cfg).preds(entry).len() == 0,
        final(cfg).blocks()[entry.0].code().len() == 1,
        new_entry(*old(cfg), *final(cfg)),
        forall|n: u64| #[trigger]
            old(cfg).blocks().dom().contains(n) ==> final(cfg).blocks()[n].code() == old(cfg).blocks()[n].code() && final(cfg).blocks()[n].exit == old(cfg).blocks()[n].exit
                && final(cfg).edges@[n] == old(cfg).edges@[n] && (n != old(cfg).entry.0
                ==> final(cfg).blocks()[n] == old(cfg).blocks()[n]),
        old(cfg).terminated() ==> final(cfg).terminated(),
        ended(*old(cfg)) ==> ended(*final(cfg)),
{
    let ghost before = *cfg;
    let old_entry = cfg.entry;
    let mut block = BasicBlock::empty();
    block.is_entry = true;
    proof {
        assert(block.code() =~= Seq::<InstructionView>::empty());
        assert(block.terminated());
    }
    let entry = cfg.add_block(block);
    let ghost added = *cfg;
    proof {
        assert(added.blocks().dom() =~= before.blocks().dom().insert(entry.0));
        assert(canonical(old_entry.0) == old_entry.0);
        assert(added.blocks().dom().contains(old_entry.0));
    }
    let first = store_get_mut(&mut cfg.vertices, old_entry);
    first.is_entry = false;
    match first.label {
        Some(_) => {},
        None => {
            first.label = Some(Label { name: String::from_str("entry") });
        },
    }
    let ghost relabeled = *cfg;
    cfg.entry = entry;
    let ghost pointed = *cfg;
    proof {
        assert(relabeled.blocks().dom() =~= added.blocks().dom());
        assert(relabeled.blocks()[old_entry.0].label_text() == Some(
            entry_label(before.blocks()[old_entry.0]),
        )) by {
            assert(added.blocks()[old_entry.0] == before.blocks()[old_entry.0]);
        }
        lemma_unlabeled_is_free(added, relabeled);
        assert(cfg.mirrored()) by {
            crate::cfg::lemma_mirrored_same(relabeled, *cfg);
        }
        assert(cfg.exits_resolved());
        assert(cfg.wf());
    }
    cfg.set_unconditional_edge(entry, old_entry);
    proof {
        assert(cfg.succ(entry) =~= seq![old_entry]);
        assert(cfg.preds(entry).len() == 0) by {
            if cfg.preds(entry).len() > 0 {
                let p = cfg.preds(entry)[0];
                assert(cfg.preds(entry).contains(p));
                assert(cfg.has(p) && cfg.succ(p).contains(entry));
                if p != entry {
                    assert(before.blocks().dom().contains(p.0));
                    assert(cfg.edges@[p.0] == before.edges@[p.0]);
                    assert(before.succ(p) == cfg.succ(p));
                    lemma_targets_exist(before, p, entry);
                }
            }
        }
        assert forall|n: u64| #[trigger] before.blocks().dom().contains(n) implies cfg.blocks()[n].code()
            == before.blocks()[n].code() && cfg.blocks()[n].exit == before.blocks()[n].exit
            && cfg.edges@[n] == before.edges@[n] && (n != old_entry.0 ==> cfg.blocks()[n]
            == before.blocks()[n]) by {
            assert(relabeled.blocks().dom().contains(n));
            assert(cfg.blocks()[n] == relabeled.blocks()[n]);
            if n != old_entry.0 {
                assert(relabeled.blocks()[n] == added.blocks()[n]);
            }
            assert(added.blocks()[n] == before.blocks()[n]);
        }
        if before.terminated() {
            assert(relabeled.terminated()) by {
                assert forall|n: u64| #[trigger] relabeled.blocks().dom().contains(n) implies relabeled.blocks()[n].terminated() by {
                    if n != entry.0 {
                        assert(before.blocks()[n].terminated());
                        assert(added.blocks()[n] == before.blocks()[n]);
                    }
                    if n != old_entry.0 {
                        assert(relabeled.blocks()[n] == added.blocks()[n]);
                    }
                }
            }
        }
        if ended(before) {
            assert forall|n: u64| #[trigger]
                cfg.blocks().dom().contains(n) && !(cfg.blocks()[n].exit is Fallthrough) implies cfg.blocks()[n].code().len()
                > 0 by {
                if n != entry.0 {
                    assert(before.blocks().dom().contains(n));
                }
            }
        }
        assert(new_entry(before, *cfg)) by {
            assert(pointed.blocks()[entry.0] == added.blocks()[entry.0]);
            assert(pointed.blocks()[entry.0].code() =~= Seq::<InstructionView>::empty());
            assert(cfg.blocks()[entry.0].code() =~= seq![
                crate::ir::jump_to(entry_label(before.blocks()[old_entry.0])),
            ]);
            assert(cfg.blocks()[old_entry.0] == pointed.blocks()[old_entry.0]);
            assert forall|p: BasicBlockIdx| #[trigger] before.has(p) implies cfg.succ(p)
                == before.succ(p) by {
                assert(cfg.edges@[p.0] == before.edges@[p.0]);
            }
            assert(cfg.blocks().dom() =~= before.blocks().dom().insert(entry.0));
        }
    }
    entry
}

/// A block without a label can be given one, and needs no longer be
/// marked as the entry, where it is not the entry any more.
pub proof fn lemma_unlabeled_is_free(before: FunctionCfg, after: FunctionCfg)
    requires
        before.wf(),
        after.entry == before.entry,
        after.signature == before.signature,
        after.edges == before.edges,
        after.rev_edges == before.rev_edges,
        after.blocks().dom() == before.blocks().dom(),
        forall|n: u64|
            n != before.entry.0 && before.blocks().dom().contains(n) ==> #[trigger] after.blocks()[n]
                == before.blocks()[n],
        after.blocks()[before.entry.0].exit == before.blocks()[before.entry.0].exit,
        after.blocks()[before.entry.0].instructions == before.blocks()[before.entry.0].instructions,
        before.blocks()[before.entry.0].label is Some ==> after.blocks()[before.entry.0].label
            == before.blocks()[before.entry.0].label,
        after.blocks()[before.entry.0].label is Some,
    ensures
        after.mirrored(),
        after.exits_resolved(),
        after.rev_edges@.dom().subset_of(after.blocks().dom()),
        after.edges@.dom() == after.blocks().dom(),
        after.blocks().dom().finite(),
        forall|n: u64| #[trigger] after.blocks().dom().contains(n) ==> canonical(n) == n,
        after.has(after.entry),
{
    let e = before.entry.0;
    assert forall|p: BasicBlockIdx| before.succ(p) == after.succ(p) by {}
    crate::cfg::lemma_mirrored_same(before, after);
    assert forall|n: u64| #[trigger] after.blocks().dom().contains(n) implies crate::cfg::exit_agrees(
        after.blocks(),
        after.blocks()[n].exit,
        after.edges@[n],
    ) by {
        assert(before.blocks().dom().contains(n));
        assert(crate::cfg::exit_agrees(
            before.blocks(),
            before.blocks()[n].exit,
            before.edges@[n],
        ));
        assert forall|m: u64| before.blocks().dom().contains(m) && before.blocks()[m].label
            is Some implies after.blocks()[m].label == before.blocks()[m].label by {}
    }
}

/// Whether some instruction of the function defines `v`.
pub open spec fn defined_somewhere(cfg: FunctionCfg, v: Seq<char>) -> bool {
    exists|n: u64, i: int| #[trigger] defines(cfg, n, i, v)
}

/// The variables that the instructions of the function define.
pub fn collect_defined(cfg: &FunctionCfg) -> (defined: StringHashSet)
    requires
        cfg.wf(),
    ensures
        forall|v: Seq<char>| defined@.contains(v) <==> defined_somewhere(*cfg, v),
{
    let keys = cfg.keys();
    let mut defined = StringHashSet::new();
    let mut j: usize = 0;
    while j < keys.len()
        invariant
            j <= keys@.len(),
            cfg.wf(),
            forall|k: BasicBlockIdx| #[trigger] keys@.contains(k) <==> cfg.has(k),
            forall|v: Seq<char>| #[trigger] defined@.contains(v) ==> defined_somewhere(*cfg, v),
            forall|w: int, i: int, v: Seq<char>|
                0 <= w < j && #[trigger] defines(*cfg, keys@[w].0, i, v) ==> defined@.contains(v),
        decreases keys@.len() - j,
    {
        let k = keys[j];
        assert(keys@.contains(k));
        match cfg.block(k) {
            Some(block) => {
                let ghost code = block.code();
                let mut i: usize = 0;
                while i < block.instructions.len()
                    invariant
                        i <= block.instructions@.len(),
                        j < keys@.len(),
                        k == keys@[j as int],
                        cfg.has(k),
                        *block == cfg.blocks()[k.0],
                        code == block.code(),
                        forall|v: Seq<char>| #[trigger]
                            defined@.contains(v) ==> defined_somewhere(*cfg, v),
                        forall|w: int, i: int, v: Seq<char>|
                            0 <= w < j && #[trigger] defines(*cfg, keys@[w].0, i, v)
                                ==> defined@.contains(v),
                        forall|w: int, v: Seq<char>|
                            0 <= w < i && #[trigger] defines(*cfg, k.0, w, v) ==> defined@.contains(
                                v,
                            ),
                    decreases block.instructions@.len() - i,
                {
                    assert(code[i as int] == block.instructions@[i as int]@);
                    let dest = match &block.instructions[i] {
                        Instruction::Constant { dest, .. } => Some(dest),
                        Instruction::Value { dest, .. } => Some(dest),
                        Instruction::Effect { .. } => None,
                    };
                    match dest {
                        Some(d) => {
                            assert(defines(*cfg, k.0, i as int, d@));
                            defined.insert(d.clone());
                        },
                        None => {},
                    }
                    i += 1;
                }
            },
            None => {},
        }
        j += 1;
    }
    proof {
        assert forall|v: Seq<char>| defined_somewhere(*cfg, v) implies defined@.contains(v) by {
            let (n, i) = choose|n: u64, i: int| #[trigger] defines(*cfg, n, i, v);
            assert(keys@.contains(BasicBlockIdx(n)));
            let w = choose|w: int| 0 <= w < keys@.len() && keys@[w] == BasicBlockIdx(n);
            assert(defines(*cfg, keys@[w].0, i, v));
        }
    }
    defined
}

/// The `undef` of `name` at type `ty`.
pub open spec fn undef_of(name: Seq<char>, ty: Type) -> InstructionView {
    InstructionView::Value {
        dest: name,
        op: ValueOp::Undef,
        args: Seq::empty(),
        funcs: Seq::empty(),
        labels: Seq::empty(),
        op_type: ty,
        pos: None,
    }
}

/// The `undef`s for the first `upto` of `names`: one for each name that
/// no instruction of the function defines, at its first mention.
pub open spec fn missing_undefs(cfg: FunctionCfg, names: Seq<(String, Type)>, upto: int) -> Seq<
    InstructionView,
>
    decreases upto,
{
    if upto <= 0 {
        Seq::empty()
    } else if !defined_somewhere(cfg, names[upto - 1].0@) && !mentioned(
        names,
        upto - 1,
        names[upto - 1].0@,
    ) {
        missing_undefs(cfg, names, upto - 1).push(undef_of(names[upto - 1].0@, names[upto - 1].1))
    } else {
        missing_undefs(cfg, names, upto - 1)
    }
}

/// Whether `v` is among the first `upto` of `names`.
pub open spec fn mentioned(names: Seq<(String, Type)>, upto: int, v: Seq<char>) -> bool {
    exists|j: int| 0 <= j < upto && (#[trigger] names[j]).0@ == v
}

/// The `undef`s define each a different variable, none of which the
/// function defines, and are no terminators.
pub proof fn lemma_missing_undefs(cfg: FunctionCfg, names: Seq<(String, Type)>, upto: int)
    requires
        0 <= upto <= names.len(),
    ensures
        forall|w: int|
            0 <= w < missing_undefs(cfg, names, upto).len() ==> {
                &&& (#[trigger] missing_undefs(cfg, names, upto)[w]).kill() is Some
                &&& !is_terminator(missing_undefs(cfg, names, upto)[w])
                &&& !defined_somewhere(cfg, missing_undefs(cfg, names, upto)[w].kill()->0)
                &&& mentioned(names, upto, missing_undefs(cfg, names, upto)[w].kill()->0)
            },
        forall|w: int, x: int|
            0 <= w < x < missing_undefs(cfg, names, upto).len() ==> (#[trigger] missing_undefs(
                cfg,
                names,
                upto,
            )[w]).kill() != (#[trigger] missing_undefs(cfg, names, upto)[x]).kill(),
    decreases upto,
{
    if upto > 0 {
        lemma_missing_undefs(cfg, names, upto - 1);
        let rest = missing_undefs(cfg, names, upto - 1);
        let whole = missing_undefs(cfg, names, upto);
        assert forall|w: int| 0 <= w < whole.len() implies {
            &&& (#[trigger] whole[w]).kill() is Some
            &&& !is_terminator(whole[w])
            &&& !defined_somewhere(cfg, whole[w].kill()->0)
            &&& mentioned(names, upto, whole[w].kill()->0)
        } by {
            if w < rest.len() {
                assert(whole[w] == rest[w]);
                let j = choose|j: int|
                    0 <= j < upto - 1 && (#[trigger] names[j]).0@ == rest[w].kill()->0;
                assert(0 <= j < upto && names[j].0@ == whole[w].kill()->0);
            } else {
                assert(names[upto - 1].0@ == whole[w].kill()->0);
            }
        }
        assert forall|w: int, x: int| 0 <= w < x < whole.len() implies (#[trigger] whole[w]).kill()
            != (#[trigger] whole[x]).kill() by {
            assert(whole[w] == rest[w]);
            if x < rest.len() {
                assert(whole[x] == rest[x]);
            } else {
                assert(mentioned(names, upto - 1, rest[w].kill()->0));
            }
        }
    }
}

/// Whether `after` is `before` with an `undef` at the head of the entry
/// for each of `names` that no instruction defines.
pub open spec fn with_undefs(before: FunctionCfg, names: Seq<(String, Type)>, after: FunctionCfg) -> bool {
    &&& same_shape(before, after)
    &&& after.blocks()[before.entry.0].code() == missing_undefs(
        before,
        names,
        names.len() as int,
    ) + before.blocks()[before.entry.0].code()
    &&& forall|n: u64|
        n != before.entry.0 && before.blocks().dom().contains(n) ==> #[trigger] after.blocks()[n]
            == before.blocks()[n]
}

/// A function in static single assignment form stays so with `undef`s for
/// variables that it does not define.
pub proof fn lemma_undefs_keep_ssa(before: FunctionCfg, names: Seq<(String, Type)>, after: FunctionCfg)
    requires
        before.wf(),
        strict_ssa(before),
        with_undefs(before, names, after),
    ensures
        strict_ssa(after),
{
    let e = before.entry.0;
    let added = missing_undefs(before, names, names.len() as int);
    let m = added.len() as int;
    lemma_missing_undefs(before, names, names.len() as int);
    // where a definition of `after` stands in `before`, unless it is one of the `undef`s
    assert forall|n: u64, i: int, v: Seq<char>| #[trigger] defines(after, n, i, v) implies (n == e
        && i < m && added[i].kill() == Some(v)) || defines(
        before,
        n,
        if n == e {
            i - m
        } else {
            i
        },
        v,
    ) by {
        assert(before.blocks().dom().contains(n));
        if n != e {
            assert(after.blocks()[n] == before.blocks()[n]);
        } else if i >= m {
            assert(after.blocks()[e].code()[i] == before.blocks()[e].code()[i - m]);
        } else {
            assert(after.blocks()[e].code()[i] == added[i]);
        }
    }
    assert forall|n1: u64, i1: int, n2: u64, i2: int, v: Seq<char>|
        #![trigger defines(after, n1, i1, v), defines(after, n2, i2, v)]
        defines(after, n1, i1, v) && defines(after, n2, i2, v) implies n1 == n2 && i1 == i2 by {
        let new1 = n1 == e && i1 < m;
        let new2 = n2 == e && i2 < m;
        let j1 = if n1 == e {
            i1 - m
        } else {
            i1
        };
        let j2 = if n2 == e {
            i2 - m
        } else {
            i2
        };
        if new1 && new2 {
            assert(added[i1].kill() == Some(v));
            assert(added[i2].kill() == Some(v));
            if i1 < i2 {
                assert(added[i1].kill() != added[i2].kill());
            }
            if i2 < i1 {
                assert(added[i2].kill() != added[i1].kill());
            }
        } else if new1 {
            assert(defines(before, n2, j2, v));
            assert(defined_somewhere(before, v));
            assert(added[i1].kill() == Some(v));
        } else if new2 {
            assert(defines(before, n1, j1, v));
            assert(defined_somewhere(before, v));
            assert(added[i2].kill() == Some(v));
        } else {
            assert(defines(before, n1, j1, v));
            assert(defines(before, n2, j2, v));
        }
    }
}

/// Puts, at the head of the entry, an `undef` for each of
/// `potential_undefs` that no instruction of the function defines.
pub fn dumb_postprocess(cfg: &mut FunctionCfg, potential_undefs: Vec<(String, Type)>)
    requires
        old(cfg).wf(),
    ensures
        final(cfg).wf(),
        with_undefs(*old(cfg), potential_undefs@, *final(cfg)),
        strict_ssa(*old(cfg)) ==> strict_ssa(*final(cfg)),
        old(cfg).terminated() ==> final(cfg).terminated(),
{
    let ghost before = *cfg;
    let ghost names = potential_undefs@;
    let defined = collect_defined(cfg);
    let mut seen = StringHashSet::new();
    let mut undefs: Vec<Instruction> = Vec::new();
    let mut i: usize = 0;
    proof {
        assert(views(undefs@) =~= missing_undefs(before, names, 0));
    }
    while i < potential_undefs.len()
        invariant
            i <= potential_undefs@.len(),
            names == potential_undefs@,
            *cfg == before,
            forall|v: Seq<char>| defined@.contains(v) <==> defined_somewhere(before, v),
            forall|v: Seq<char>| seen@.contains(v) <==> mentioned(names, i as int, v),
            views(undefs@) == missing_undefs(before, names, i as int),
        decreases potential_undefs@.len() - i,
    {
        let name = &potential_undefs[i].0;
        if !defined.contains(name.as_str()) && !seen.contains(name.as_str()) {
            let undef = Instruction::Value {
                dest: name.clone(),
                op: ValueOp::Undef,
                args: Vec::new(),
                funcs: Vec::new(),
                labels: Vec::new(),
                op_type: potential_undefs[i].1.dup(),
                pos: None,
            };
            proof {
                assert(undef@->Value_args =~= Seq::<Seq<char>>::empty());
                assert(undef@->Value_funcs =~= Seq::<Seq<char>>::empty());
                assert(undef@->Value_labels =~= Seq::<Seq<char>>::empty());
                lemma_views_push(undefs@, undef);
            }
            undefs.push(undef);
        }
        let ghost before_seen = seen@;
        seen.insert(name.clone());
        proof {
            assert forall|v: Seq<char>| seen@.contains(v) <==> mentioned(names, i + 1, v) by {
                assert(before_seen.contains(v) <==> mentioned(names, i as int, v));
                if mentioned(names, i + 1, v) {
                    let j = choose|j: int| 0 <= j < i + 1 && (#[trigger] names[j]).0@ == v;
                    if j < i {
                        assert(mentioned(names, i as int, v));
                    }
                }
                if mentioned(names, i as int, v) {
                    let j = choose|j: int| 0 <= j < i && (#[trigger] names[j]).0@ == v;
                    assert(0 <= j < i + 1 && names[j].0@ == v);
                }
                if v == names[i as int].0@ {
                    assert(0 <= i < i + 1 && names[i as int].0@ == v);
                }
            }
        }
        i += 1;
    }
    proof {
        lemma_missing_undefs(before, names, names.len() as int);
        assert forall|w: int| 0 <= w < undefs@.len() implies !is_terminator(#[trigger] undefs@[w]@) by {
            assert(views(undefs@)[w] == undefs@[w]@);
        }
        assert(canonical(before.entry.0) == before.entry.0);
    }
    let entry = cfg.entry;
    let block = store_get_mut(&mut cfg.vertices, entry);
    prepend(block, undefs);
    proof {
        assert(cfg.blocks().dom() =~= before.blocks().dom());
        assert(same_shape(before, *cfg));
        lemma_same_shape(before, *cfg);
        if strict_ssa(before) {
            lemma_undefs_keep_ssa(before, names, *cfg);
        }
        if before.terminated() {
            assert forall|n: u64| #[trigger] cfg.blocks().dom().contains(n) implies cfg.blocks()[n].terminated() by {
                assert(before.blocks().dom().contains(n));
                if n != entry.0 {
                    assert(cfg.blocks()[n] == before.blocks()[n]);
                }
            }
        }
    }
}

/// Whether the block `p` holds, before its exit, a `set` of `target`.
pub open spec fn feeds(cfg: FunctionCfg, p: BasicBlockIdx, target: Seq<char>) -> bool {
    exists|w: int|
        0 <= w < cfg.blocks()[p.0].spec_index_before_exit() && w < cfg.blocks()[p.0].code().len()
            && sets_target(#[trigger] cfg.blocks()[p.0].code()[w], target)
}

/// Whether every `get` of the function has, in every predecessor of its
/// block, a `set` of its name before the exit.
pub open spec fn gets_fed(cfg: FunctionCfg) -> bool {
    forall|s: u64, i: int, p: BasicBlockIdx|
        cfg.blocks().dom().contains(s) && 0 <= i < cfg.blocks()[s].code().len() && (
        #[trigger] cfg.blocks()[s].code()[i]).is_get() && #[trigger] cfg.preds(
            BasicBlockIdx(s),
        ).contains(p) ==> feeds(cfg, p, cfg.blocks()[s].code()[i].kill()->0)
}

/// Whether the function holds no `get`.
pub open spec fn no_gets(cfg: FunctionCfg) -> bool {
    forall|n: u64, i: int|
        cfg.blocks().dom().contains(n) && 0 <= i < cfg.blocks()[n].code().len() ==> !(
        #[trigger] cfg.blocks()[n].code()[i]).is_get()
}

/// Where none of the first `upto` instructions defines `v`, their count of
/// definitions of `v` is zero.
pub proof fn lemma_count_none(code: Seq<InstructionView>, upto: int, v: Seq<char>)
    requires
        forall|k: int| 0 <= k < upto ==> (#[trigger] code[k]).kill() != Some(v),
    ensures
        count_defs(code, upto, v) == 0,
    decreases upto,
{
    if upto > 0 {
        lemma_count_none(code, upto - 1, v);
    }
}

/// The count of definitions among the first instructions of a list does
/// not depend on what follows them.
pub proof fn lemma_count_prefix(
    front: Seq<InstructionView>,
    back: Seq<InstructionView>,
    upto: int,
    v: Seq<char>,
)
    requires
        upto <= front.len(),
    ensures
        count_defs(front + back, upto, v) == count_defs(front, upto, v),
    decreases upto,
{
    if upto > 0 {
        lemma_count_prefix(front, back, upto - 1, v);
        assert((front + back)[upto - 1] == front[upto - 1]);
    }
}

/// Whether `i` is the `get` of one of the first `upto` variables of
/// `points` that need one in the block `b`.
pub open spec fn needed_get(points: Seq<PhiSite>, b: BasicBlockIdx, upto: int, i: InstructionView) -> bool {
    exists|e: int|
        0 <= e < upto && (#[trigger] points[e]).blocks@.contains(b) && i == get_of(
            points[e].name@,
            points[e].ty,
        )
}

/// The `get`s at the head of a block are each the `get` of a variable that
/// needs one there, and no two are of the same variable.
pub proof fn lemma_phis_named(points: Seq<PhiSite>, b: BasicBlockIdx, upto: int)
    requires
        0 <= upto <= points.len(),
        forall|x: int, y: int|
            0 <= x < points.len() && 0 <= y < points.len() && x != y ==> (#[trigger] points[x]).name@
                != (#[trigger] points[y]).name@,
    ensures
        forall|j: int|
            0 <= j < phis_for(points, b, upto).len() ==> needed_get(
                points,
                b,
                upto,
                #[trigger] phis_for(points, b, upto)[j],
            ),
        forall|j: int, k: int|
            0 <= j < k < phis_for(points, b, upto).len() ==> (#[trigger] phis_for(
                points,
                b,
                upto,
            )[j]).kill() != (#[trigger] phis_for(points, b, upto)[k]).kill(),
    decreases upto,
{
    if upto > 0 {
        lemma_phis_named(points, b, upto - 1);
        let rest = phis_for(points, b, upto - 1);
        let all = phis_for(points, b, upto);
        if points[upto - 1].blocks@.contains(b) {
            assert forall|j: int| 0 <= j < all.len() implies needed_get(
                points,
                b,
                upto,
                #[trigger] all[j],
            ) by {
                if j < rest.len() {
                    assert(needed_get(points, b, upto - 1, rest[j]));
                    let e = choose|e: int|
                        0 <= e < upto - 1 && (#[trigger] points[e]).blocks@.contains(b) && rest[j]
                            == get_of(points[e].name@, points[e].ty);
                    assert(all[j] == rest[j]);
                    assert(points[e].blocks@.contains(b));
                } else {
                    assert(points[upto - 1].blocks@.contains(b));
                }
            }
            assert forall|j: int, k: int| 0 <= j < k < all.len() implies (#[trigger] all[j]).kill() != (
            #[trigger] all[k]).kill() by {
                assert(all[j] == rest[j]);
                if k < rest.len() {
                    assert(all[k] == rest[k]);
                } else {
                    assert(needed_get(points, b, upto - 1, rest[j]));
                    let e = choose|e: int|
                        0 <= e < upto - 1 && (#[trigger] points[e]).blocks@.contains(b) && rest[j]
                            == get_of(points[e].name@, points[e].ty);
                    assert(points[e].name@ != points[upto - 1].name@);
                }
            }
        } else {
            assert forall|j: int| 0 <= j < all.len() implies needed_get(
                points,
                b,
                upto,
                #[trigger] all[j],
            ) by {
                assert(needed_get(points, b, upto - 1, rest[j]));
                let e = choose|e: int|
                    0 <= e < upto - 1 && (#[trigger] points[e]).blocks@.contains(b) && rest[j]
                        == get_of(points[e].name@, points[e].ty);
                assert(points[e].blocks@.contains(b));
            }
        }
    }
}

/// In a function without a `get` of its own, taken into static single
/// assignment form step by step, every `get` has a `set` of its name in
/// every predecessor of its block.
#[verifier::rlimit(60)]
pub proof fn lemma_gets_fed(
    entered: FunctionCfg,
    with_gets: FunctionCfg,
    local: FunctionCfg,
    renamed_cfg: FunctionCfg,
    after: FunctionCfg,
    points: PhiInsertionPoints,
    names: Seq<(String, Type)>,
)
    requires
        entered.wf(),
        entered.preds(entered.entry).len() == 0,
        forall|n: u64, i: int|
            n != entered.entry.0 && entered.blocks().dom().contains(n) && 0 <= i
                < entered.blocks()[n].code().len() ==> !(#[trigger] entered.blocks()[n].code()[i]).is_get(),
        with_phis(points, entered, with_gets),
        same_shape(with_gets, local),
        forall|n: u64|
            n != entered.entry.0 && entered.blocks().dom().contains(n) ==> #[trigger] local.blocks()[n]
                == with_gets.blocks()[n],
        same_shape(local, renamed_cfg),
        all_done(renamed_cfg, points.0@),
        forall|n: u64|
            local.blocks().dom().contains(n) ==> renamed_from(
                #[trigger] local.blocks()[n],
                renamed_cfg.blocks()[n],
                slot_of(n) as nat,
            ),
        with_undefs(renamed_cfg, names, after),
        forall|x: int, y: int|
            0 <= x < points.0@.len() && 0 <= y < points.0@.len() && x != y ==> (
            #[trigger] points.0@[x]).name@ != (#[trigger] points.0@[y]).name@,
    ensures
        gets_fed(after),
{
    lemma_same_shape(entered, with_gets);
    lemma_same_shape(with_gets, local);
    lemma_same_shape(local, renamed_cfg);
    lemma_same_shape(renamed_cfg, after);
    let pts = points.0@;
    let entry = entered.entry;
    assert forall|s: u64, i: int, p: BasicBlockIdx|
        after.blocks().dom().contains(s) && 0 <= i < after.blocks()[s].code().len() && (
        #[trigger] after.blocks()[s].code()[i]).is_get() && #[trigger] after.preds(
            BasicBlockIdx(s),
        ).contains(p) implies feeds(after, p, after.blocks()[s].code()[i].kill()->0) by {
        let sb = BasicBlockIdx(s);
        assert(after.preds(sb) == entered.preds(sb));
        assert(s != entry.0) by {
            if s == entry.0 {
                assert(sb == entry);
            }
        }
        assert(after.blocks()[s] == renamed_cfg.blocks()[s]);
        let lb = local.blocks()[s];
        let lc = lb.code();
        let tag = slot_of(s) as nat;
        let code = renamed_cfg.blocks()[s].code();
        assert(renamed_from(lb, renamed_cfg.blocks()[s], tag));
        let (outer, sets) = choose|outer: spec_fn(Seq<char>) -> Seq<char>, sets: Seq<InstructionView>|
            #![trigger renamed(lb.code(), tag, outer), all_sets(sets)]
            all_sets(sets) && code == with_sets(
                renamed(lb.code(), tag, outer),
                sets,
                !(lb.exit is Fallthrough),
            );
        let r = renamed(lc, tag, outer);
        let ends = !(lb.exit is Fallthrough);
        let j = if ends && r.len() > 0 && i >= r.len() - 1 {
            r.len() - 1
        } else {
            i
        };
        assert(0 <= j < r.len() && r[j] == code[i]) by {
            if ends && r.len() > 0 {
                if i >= r.len() - 1 && i < r.len() - 1 + sets.len() {
                    assert(code[i] == sets[i - (r.len() - 1)]);
                    assert(sets[i - (r.len() - 1)].is_set());
                }
            } else {
                if i >= r.len() {
                    assert(code[i] == sets[i - r.len()]);
                    assert(sets[i - r.len()].is_set());
                }
            }
        }
        assert(r[j] == rename_at(lc, tag, outer, j));
        assert(lc[j].is_get());
        let phis = phis_for(pts, sb, pts.len() as int);
        let orig = entered.blocks()[s].code();
        assert(lc == phis + orig) by {
            assert(entered.blocks().dom().contains(s));
            assert(local.blocks()[s] == with_gets.blocks()[s]);
        }
        assert(j < phis.len()) by {
            if j >= phis.len() {
                assert(lc[j] == orig[j - phis.len()]);
            }
        }
        lemma_phis_named(pts, sb, pts.len() as int);
        assert(needed_get(pts, sb, pts.len() as int, phis[j]));
        let e = choose|e: int|
            0 <= e < pts.len() && (#[trigger] pts[e]).blocks@.contains(sb) && phis[j] == get_of(
                pts[e].name@,
                pts[e].ty,
            );
        let v = pts[e].name@;
        assert(lc[j] == phis[j]);
        assert(count_defs(lc, j + 1, v) == 1) by {
            lemma_count_prefix(phis, orig, j + 1, v);
            assert forall|k: int| 0 <= k < j implies (#[trigger] phis[k]).kill() != Some(v) by {
                assert(phis[k].kill() != phis[j].kill());
            }
            lemma_count_none(phis, j, v);
        }
        assert(code[i].kill() == Some(minted(v, tag, 1)));
        assert(renamed_cfg.preds(sb) == after.preds(sb));
        lemma_done_has_sets(renamed_cfg, pts, sb, p, e);
        let pc = renamed_cfg.blocks()[p.0].code();
        let w = choose|w: int|
            0 <= w < renamed_cfg.blocks()[p.0].spec_index_before_exit() && w < pc.len()
                && sets_target(#[trigger] pc[w], minted(v, slot_of(s) as nat, 1));
        if p.0 == renamed_cfg.entry.0 {
            let added = missing_undefs(renamed_cfg, names, names.len() as int);
            let ac = after.blocks()[p.0].code();
            assert(ac == added + pc);
            assert(ac[w + added.len()] == pc[w]);
            assert(after.blocks()[p.0].exit == renamed_cfg.blocks()[p.0].exit);
            assert(after.blocks()[p.0].instructions@.len() == ac.len());
            assert(renamed_cfg.blocks()[p.0].instructions@.len() == pc.len());
            assert(sets_target(ac[w + added.len()], minted(v, tag, 1)));
        } else {
            assert(renamed_cfg.blocks().dom().contains(p.0));
            assert(after.blocks()[p.0] == renamed_cfg.blocks()[p.0]);
            assert(sets_target(after.blocks()[p.0].code()[w], minted(v, tag, 1)));
        }
    }
}

/// A renamed block agrees with its exit, but for the operand, where the
/// block did before.
pub proof fn lemma_renamed_ends(before: BasicBlock, after: BasicBlock, tag: nat)
    requires
        ends_like(before),
        renamed_from(before, after, tag),
        after.exit == before.exit,
    ensures
        ends_like(after),
{
    let lc = before.code();
    let code = after.code();
    let (outer, sets) = choose|outer: spec_fn(Seq<char>) -> Seq<char>, sets: Seq<InstructionView>|
        #![trigger renamed(before.code(), tag, outer), all_sets(sets)]
        all_sets(sets) && code == with_sets(
            renamed(before.code(), tag, outer),
            sets,
            !(before.exit is Fallthrough),
        );
    let r = renamed(lc, tag, outer);
    assert forall|j: int| 0 <= j < r.len() implies is_terminator(#[trigger] r[j]) == is_terminator(
        lc[j],
    ) by {
        assert(r[j] == rename_at(lc, tag, outer, j));
    }
    if before.exit is Fallthrough {
        assert forall|i: int| 0 <= i < code.len() implies !is_terminator(#[trigger] code[i]) by {
            if i < r.len() {
                assert(code[i] == r[i]);
            } else {
                assert(code[i] == sets[i - r.len()]);
                assert(sets[i - r.len()].is_set());
            }
        }
    } else {
        assert(code.last() == r.last());
        assert(r.last() == rename_at(lc, tag, outer, lc.len() - 1));
        assert(names_in_force(
            lc,
            tag,
            outer,
            lc.len() - 1,
            lc.last()->Effect_args,
        ).len() == lc.last()->Effect_args.len());
        assert forall|i: int| 0 <= i < code.len() - 1 implies !is_terminator(#[trigger] code[i]) by {
            if i < r.len() - 1 {
                assert(code[i] == r[i]);
            } else {
                assert(code[i] == sets[i - (r.len() - 1)]);
                assert(sets[i - (r.len() - 1)].is_set());
            }
        }
    }
}

/// A block with instructions that are no terminators put at its head
/// agrees with its exit, but for the operand, where it did before.
pub proof fn lemma_prefix_ends(before: BasicBlock, after: BasicBlock, front: Seq<InstructionView>)
    requires
        ends_like(before),
        after.code() == front + before.code(),
        after.exit == before.exit,
        forall|i: int| 0 <= i < front.len() ==> !is_terminator(#[trigger] front[i]),
    ensures
        ends_like(after),
{
    let code = after.code();
    let old_code = before.code();
    assert forall|i: int| front.len() <= i < code.len() implies #[trigger] code[i] == old_code[i
        - front.len()] by {}
    if before.exit is Fallthrough {
        assert forall|i: int| 0 <= i < code.len() implies !is_terminator(#[trigger] code[i]) by {
            if i >= front.len() {
                assert(code[i] == old_code[i - front.len()]);
            } else {
                assert(code[i] == front[i]);
            }
        }
    } else {
        assert(code.last() == old_code.last());
        assert forall|i: int| 0 <= i < code.len() - 1 implies !is_terminator(#[trigger] code[i]) by {
            if i >= front.len() {
                assert(code[i] == old_code[i - front.len()]);
            } else {
                assert(code[i] == front[i]);
            }
        }
    }
}

/// Refreshed exits leave a function in static single assignment form, and
/// every `get` with its `set`s.
pub proof fn lemma_refresh_keeps_ssa(before: FunctionCfg, after: FunctionCfg)
    requires
        before.wf(),
        after.blocks().dom() == before.blocks().dom(),
        after.rev_edges == before.rev_edges,
        forall|n: u64| #[trigger]
            before.blocks().dom().contains(n) ==> refreshed(before.blocks()[n], after.blocks()[n]),
    ensures
        strict_ssa(before) ==> strict_ssa(after),
        gets_fed(before) ==> gets_fed(after),
        no_gets(before) ==> no_gets(after),
{
    assert forall|n: u64| #[trigger] before.blocks().dom().contains(n) implies after.blocks()[n].code()
        == before.blocks()[n].code() && (after.blocks()[n].exit is Fallthrough
        <==> before.blocks()[n].exit is Fallthrough) by {
        assert(refreshed(before.blocks()[n], after.blocks()[n]));
    }
    if strict_ssa(before) {
        assert forall|n1: u64, i1: int, n2: u64, i2: int, v: Seq<char>|
            #![trigger defines(after, n1, i1, v), defines(after, n2, i2, v)]
            defines(after, n1, i1, v) && defines(after, n2, i2, v) implies n1 == n2 && i1 == i2 by {
            assert(before.blocks().dom().contains(n1));
            assert(before.blocks().dom().contains(n2));
            assert(defines(before, n1, i1, v));
            assert(defines(before, n2, i2, v));
        }
    }
    if gets_fed(before) {
        assert forall|s: u64, i: int, p: BasicBlockIdx|
            after.blocks().dom().contains(s) && 0 <= i < after.blocks()[s].code().len() && (
            #[trigger] after.blocks()[s].code()[i]).is_get() && #[trigger] after.preds(
                BasicBlockIdx(s),
            ).contains(p) implies feeds(after, p, after.blocks()[s].code()[i].kill()->0) by {
            assert(before.blocks().dom().contains(s));
            assert(before.blocks()[s].code()[i].is_get());
            assert(before.preds(BasicBlockIdx(s)).contains(p));
            let target = before.blocks()[s].code()[i].kill()->0;
            assert(feeds(before, p, target));
            let w = choose|w: int|
                0 <= w < before.blocks()[p.0].spec_index_before_exit() && w
                    < before.blocks()[p.0].code().len() && sets_target(
                    #[trigger] before.blocks()[p.0].code()[w],
                    target,
                );
            assert(before.has(BasicBlockIdx(s)));
            assert(before.has(p) && before.succ(p).contains(BasicBlockIdx(s)));
            assert(refreshed(before.blocks()[p.0], after.blocks()[p.0]));
            assert(sets_target(after.blocks()[p.0].code()[w], target));
        }
    }
}

/// Whether `after` is the function `before` in static single assignment
/// form: it is well-formed as a graph and defines no variable twice; a new
/// entry jumps to the old one, and the other blocks keep their successors;
/// and where `before` held no `get`, every `get` has a `set` of its name
/// before the exit of every predecessor of its block; and its blocks hold
/// what the steps into that form make of their instructions.
pub open spec fn in_ssa(before: FunctionCfg, after: FunctionCfg) -> bool {
    &&& after.wf()
    &&& strict_ssa(after)
    &&& no_gets(before) ==> gets_fed(after)
    &&& under_new_entry(before, after)
    &&& renamed_throughout(before, after)
}

/// Whether `after` has the blocks of `before` with their successors, under
/// a new entry whose only successor is the entry of `before`.
pub open spec fn under_new_entry(before: FunctionCfg, after: FunctionCfg) -> bool {
    &&& after.signature == before.signature
    &&& !before.has(after.entry)
    &&& after.blocks().dom() == before.blocks().dom().insert(after.entry.0)
    &&& after.succ(after.entry) == seq![before.entry]
    &&& forall|p: BasicBlockIdx| #[trigger] before.has(p) ==> after.succ(p) == before.succ(p)
}

/// Whether `d` holds the dominators of `cfg`: the largest solution of the
/// equations of dominance.
pub open spec fn dominators_of(cfg: FunctionCfg, d: Map<u64, Set<u64>>) -> bool {
    crate::dominators::dominator_equations(cfg, d) && crate::dominators::above_solutions(cfg, d)
}

/// Whether `f` has a set for `a` that holds `s`.
pub open spec fn held(f: Map<u64, Set<u64>>, a: BasicBlockIdx, s: BasicBlockIdx) -> bool {
    f.contains_key(a.0) && f[a.0].contains(s.0)
}

/// Whether `f` holds the dominance frontier of every block of `cfg` under
/// the dominators `d`.
pub open spec fn frontiers_of(cfg: FunctionCfg, d: Map<u64, Set<u64>>, f: Map<u64, Set<u64>>) -> bool {
    forall|a: BasicBlockIdx, s: BasicBlockIdx|
        #[trigger] held(f, a, s) <==> cfg.has(a) && crate::dominators::in_frontier(cfg, d, a, s)
}

/// Whether `tree` gives each block of `cfg` the blocks that it dominates
/// immediately, under the dominators `d`.
pub open spec fn tree_of(cfg: FunctionCfg, d: Map<u64, Set<u64>>, tree: Map<u64, Set<u64>>) -> bool {
    forall|a: BasicBlockIdx, b: BasicBlockIdx|
        #[trigger] held(tree, a, b) <==> cfg.has(a) && crate::dominators::immediately_dominates(
            d,
            a,
            b,
        )
}

/// Whether `after` is `before` under a new entry with the `get`s of
/// `points` at the head of its blocks, where `points` holds, for the
/// variables that the function defines under the new entry, the iterated
/// dominance frontier of the blocks that define them, and `tree` is the
/// dominator tree of the function under the new entry.
pub open spec fn gets_placed_at(
    before: FunctionCfg,
    points: PhiInsertionPoints,
    tree: Map<u64, Set<u64>>,
    after: FunctionCfg,
) -> bool {
    exists|entered: FunctionCfg, d: Map<u64, Set<u64>>, f: Map<u64, Set<u64>>, sites: DefinitionSites|
        #![trigger with_phis(points, entered, after), frontiers_of(entered, d, f), sites.of(entered)]
        new_entry(before, entered) && dominators_of(entered, d) && tree_of(entered, d, tree)
            && frontiers_of(entered, d, f) && sites.of(entered) && points.of(sites, f) && with_phis(
            points,
            entered,
            after,
        )
}

/// Whether `after` is `before` under a new entry with a `get` at the head
/// of every block of the iterated dominance frontier of each variable's
/// definitions.
pub open spec fn gets_placed(before: FunctionCfg, after: FunctionCfg) -> bool {
    exists|points: PhiInsertionPoints, tree: Map<u64, Set<u64>>| #[trigger]
        gets_placed_at(before, points, tree, after)
}

/// Whether `local` is `with_gets` with a copy of each parameter into itself
/// at the head of the entry.
pub open spec fn parameters_local(with_gets: FunctionCfg, local: FunctionCfg) -> bool {
    &&& same_shape(with_gets, local)
    &&& local.blocks()[with_gets.entry.0].code() == parameter_copies(with_gets.signature.arguments@)
        + with_gets.blocks()[with_gets.entry.0].code()
    &&& forall|n: u64|
        n != with_gets.entry.0 && with_gets.blocks().dom().contains(n) ==> #[trigger] local.blocks()[n]
            == with_gets.blocks()[n]
}

/// Whether `renamed_cfg` is `local` with every block renamed and the
/// `set`s for the `get`s of `points` before the exits: every block below
/// the entry in `tree` renamed below the blocks on the way from the entry
/// to it, any other block below the blocks on a way to it from some block.
pub open spec fn blocks_renamed(
    local: FunctionCfg,
    points: PhiInsertionPoints,
    tree: Map<u64, Set<u64>>,
    renamed_cfg: FunctionCfg,
) -> bool {
    &&& same_shape(local, renamed_cfg)
    &&& all_done(renamed_cfg, points.0@)
    &&& forall|n: u64| #[trigger]
        local.blocks().dom().contains(n) ==> renamed_somewhere(
            tree,
            local,
            n,
            renamed_cfg.blocks()[n],
        )
    &&& forall|path: Seq<BasicBlockIdx>| #[trigger]
        tree_path(tree, local.blocks().dom(), path) && path[0] == local.entry ==> renamed_along(
            tree,
            local,
            local.entry,
            path.last().0,
            renamed_cfg.blocks()[path.last().0],
        )
    &&& entry_renamed(
        local.blocks()[local.entry.0],
        renamed_cfg.blocks()[local.entry.0],
        slot_of(local.entry.0) as nat,
        local.signature.arguments@,
    )
    &&& forall|n: u64|
        local.blocks().dom().contains(n) ==> renamed_from(
            #[trigger] local.blocks()[n],
            renamed_cfg.blocks()[n],
            slot_of(n) as nat,
        )
}

/// Whether `after` is `filled` with the operand of every exit taken anew
/// from its terminator.
pub open spec fn exits_refreshed(filled: FunctionCfg, after: FunctionCfg) -> bool {
    &&& after.entry == filled.entry
    &&& after.signature == filled.signature
    &&& after.rev_edges == filled.rev_edges
    &&& after.blocks().dom() == filled.blocks().dom()
    &&& forall|n: u64| #[trigger]
        filled.blocks().dom().contains(n) ==> refreshed(filled.blocks()[n], after.blocks()[n])
    &&& forall|p: BasicBlockIdx| filled.succ(p) == after.succ(p)
}

/// Whether `after` comes from `before` by the steps into static single
/// assignment form: a new entry and the `get`s; the parameters made local
/// variables; every block renamed, with its `set`s; an `undef` at the head
/// of the entry for each name used without a definition; the exits
/// refreshed.
pub open spec fn renamed_throughout(before: FunctionCfg, after: FunctionCfg) -> bool {
    exists|
        points: PhiInsertionPoints,
        tree: Map<u64, Set<u64>>,
        with_gets: FunctionCfg,
        local: FunctionCfg,
        renamed_cfg: FunctionCfg,
        names: Seq<(String, Type)>,
        filled: FunctionCfg,
    |
        #![trigger gets_placed_at(before, points, tree, with_gets), parameters_local(with_gets, local), with_undefs(renamed_cfg, names, filled)]
        gets_placed_at(before, points, tree, with_gets) && parameters_local(with_gets, local)
            && blocks_renamed(local, points, tree, renamed_cfg) && with_undefs(
            renamed_cfg,
            names,
            filled,
        ) && exits_refreshed(filled, after)
}

/// Takes the function into static single assignment form.
///
/// A new, empty entry is put before the old one. With the dominance
/// frontiers of the graph, each variable gets a `get` at the head of every
/// block of the iterated dominance frontier of its definitions. With
/// `skip_post_phi_insertion` that is all. Otherwise the parameters are made
/// local variables, every block is renamed, with the `set`s for the `get`s of
/// its successors before its exit, the entry gets an `undef` for every
/// name used without a definition, and the operand of every exit is taken
/// anew from its terminator.
pub fn into_ssa(cfg: &mut FunctionCfg, skip_post_phi_insertion: bool)
    requires
        old(cfg).wf(),
        ended(*old(cfg)),
        old(cfg).blocks().dom().len() < 0xffff_fffe,
    ensures
        final(cfg).wf(),
        under_new_entry(*old(cfg), *final(cfg)),
        skip_post_phi_insertion ==> gets_placed(*old(cfg), *final(cfg)),
        !skip_post_phi_insertion ==> in_ssa(*old(cfg), *final(cfg)),
        old(cfg).terminated() ==> final(cfg).terminated(),
{
    let ghost before = *cfg;
    let _ = insert_new_empty_entry_block(cfg);
    let ghost entered = *cfg;
    let dominators = compute_dominators(cfg);
    let dominance_tree = compute_dominator_tree(&dominators);
    let dominance_frontiers = compute_dominance_frontiers(cfg, &dominators);
    let definition_sites = compute_definition_sites(cfg);
    let phi_insertion_points = determine_phi_insertion_points(&definition_sites, &dominance_frontiers);
    insert_phis(cfg, &phi_insertion_points);
    let ghost with_gets = *cfg;
    proof {
        lemma_same_shape(entered, with_gets);
        assert forall|p: BasicBlockIdx| #[trigger] before.has(p) implies with_gets.succ(p)
            == before.succ(p) by {
            assert(entered.succ(p) == with_gets.succ(p));
            assert(entered.edges@[p.0] == before.edges@[p.0]);
        }
        assert(frontiers_of(entered, dominators@, dominance_frontiers@)) by {
            assert forall|a: BasicBlockIdx, s: BasicBlockIdx|
                #[trigger] held(dominance_frontiers@, a, s) <==> entered.has(a)
                    && crate::dominators::in_frontier(entered, dominators@, a, s) by {
                assert(dominance_frontiers.holds(a, s) == held(dominance_frontiers@, a, s));
            }
        }
        assert(dominators_of(entered, dominators@));
        assert(tree_of(entered, dominators@, dominance_tree@)) by {
            assert forall|a: BasicBlockIdx, b: BasicBlockIdx|
                #[trigger] held(dominance_tree@, a, b) <==> entered.has(a)
                    && crate::dominators::immediately_dominates(dominators@, a, b) by {
                assert(dominance_tree.holds(a, b) == held(dominance_tree@, a, b));
                assert(dominators.blocks@.contains(a) <==> entered.has(a));
            }
        }
        assert(definition_sites.of(entered));
        assert(phi_insertion_points.of(definition_sites, dominance_frontiers@));
        assert(with_phis(phi_insertion_points, entered, with_gets));
        assert(gets_placed_at(before, phi_insertion_points, dominance_tree@, with_gets));
    }
    if skip_post_phi_insertion {
        return ;
    }
    proof {
        assert(ended(with_gets)) by {
            assert forall|n: u64| #[trigger]
                with_gets.blocks().dom().contains(n) && !(with_gets.blocks()[n].exit
                    is Fallthrough) implies with_gets.blocks()[n].code().len() > 0 by {
                assert(entered.blocks().dom().contains(n));
                assert(entered.blocks()[n].code().len() > 0);
            }
        }
    }
    simulate_parameters_as_locals(cfg);
    let ghost local = *cfg;
    let undefined_names = rename_all(cfg, &dominance_tree, &phi_insertion_points, &definition_sites);
    let ghost renamed_cfg = *cfg;
    let ghost names = undefined_names@;
    dumb_postprocess(cfg, undefined_names);
    proof {
        if no_gets(before) {
            assert forall|n: u64, i: int|
                n != entered.entry.0 && entered.blocks().dom().contains(n) && 0 <= i
                    < entered.blocks()[n].code().len() implies !(
            #[trigger] entered.blocks()[n].code()[i]).is_get() by {
                assert(before.blocks().dom().contains(n));
                assert(entered.blocks()[n].code() == before.blocks()[n].code());
            }
            lemma_gets_fed(
                entered,
                with_gets,
                local,
                renamed_cfg,
                *cfg,
                phi_insertion_points,
                names,
            );
        }
        lemma_same_shape_chain(with_gets, local, renamed_cfg);
        lemma_same_shape_chain(with_gets, renamed_cfg, *cfg);
        lemma_same_shape_chain(entered, with_gets, *cfg);
        lemma_same_shape(entered, *cfg);
        assert forall|p: BasicBlockIdx| #[trigger] before.has(p) implies cfg.succ(p) == before.succ(
            p,
        ) by {
            assert(entered.succ(p) == cfg.succ(p));
            assert(entered.edges@[p.0] == before.edges@[p.0]);
        }
    }
    let ghost filled = *cfg;
    cfg.refresh_exits();
    proof {
        lemma_refresh_keeps_ssa(filled, *cfg);
        assert forall|p: BasicBlockIdx| #[trigger] before.has(p) implies cfg.succ(p) == before.succ(
            p,
        ) by {
            assert(filled.succ(p) == cfg.succ(p));
        }
        assert(cfg.succ(cfg.entry) == filled.succ(filled.entry));
        assert(parameters_local(with_gets, local));
        assert(blocks_renamed(local, phi_insertion_points, dominance_tree@, renamed_cfg));
        assert(with_undefs(renamed_cfg, names, filled));
        assert(exits_refreshed(filled, *cfg));
        assert(renamed_throughout(before, *cfg));
        if before.terminated() {
            lemma_same_shape(with_gets, local);
            lemma_same_shape(local, renamed_cfg);
            let added = missing_undefs(renamed_cfg, names, names.len() as int);
            lemma_missing_undefs(renamed_cfg, names, names.len() as int);
            assert forall|n: u64| #[trigger] filled.blocks().dom().contains(n) implies ends_like(
                filled.blocks()[n],
            ) by {
                assert(local.blocks().dom().contains(n));
                assert(local.blocks()[n].terminated());
                lemma_terminated_ends(local.blocks()[n]);
                lemma_renamed_ends(local.blocks()[n], renamed_cfg.blocks()[n], slot_of(n) as nat);
                if n == renamed_cfg.entry.0 {
                    lemma_prefix_ends(renamed_cfg.blocks()[n], filled.blocks()[n], added);
                }
            }
        }
    }
}

} // verus!
