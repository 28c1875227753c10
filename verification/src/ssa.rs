//! Static single assignment form: where `get`s are needed, and the way
//! into and out of the form with `get` and `set`.

use vstd::prelude::*;
use vstd::hash_map::StringHashMap;
use vstd::hash_set::StringHashSet;
use crate::ir::{EffectOp, Instruction, InstructionView, Type, ValueOp, texts};
use crate::store::{BasicBlock, BasicBlockIdx, store_get_mut};
use crate::cfg::{
    FunctionCfg, is_terminator, lemma_same_shape, lemma_same_shape_chain, lemma_views_push, same_shape,
};
use crate::store::{canonical};
use crate::blocksets::{BlockSets, lemma_numbers_finite, numbers};
use crate::cfg::{list_contains, lemma_push_fresh};
use crate::dominators::lemma_push_contains;

verus! {

broadcast use vstd::std_specs::hash::group_hash_axioms;

/// For each variable, for each block on the way from the entry, the block
/// that holds the definition in force: a stack for each variable, the
/// closest definition on top.
pub struct DominatingDefinitionsStacks {
    pub inner: StringHashMap<Vec<BasicBlockIdx>>,
}

/// `n` times `idx`.
pub open spec fn repeated(idx: BasicBlockIdx, n: nat) -> Seq<BasicBlockIdx> {
    Seq::new(n, |i: int| idx)
}

/// How often `name` occurs among the first `upto` of `names`.
pub open spec fn occurrences(names: Seq<Seq<char>>, upto: int, name: Seq<char>) -> nat
    decreases upto,
{
    if upto <= 0 {
        0
    } else {
        occurrences(names, upto - 1, name) + if names[upto - 1] == name {
            1nat
        } else {
            0nat
        }
    }
}

impl DominatingDefinitionsStacks {
    /// The stack of `name`, the closest definition last; empty where
    /// nothing is recorded.
    pub open spec fn stack_of(&self, name: Seq<char>) -> Seq<BasicBlockIdx> {
        if self.inner@.contains_key(name) {
            self.inner@[name]@
        } else {
            Seq::empty()
        }
    }

    /// Whether the two hold the same stack for every variable.
    pub open spec fn same_stacks(&self, other: &DominatingDefinitionsStacks) -> bool {
        forall|name: Seq<char>| #[trigger] self.stack_of(name) == other.stack_of(name)
    }

    /// Whether `after` is `self` with `idx` put on the stack of each of the
    /// first `upto` of `names`, once for each time the name occurs.
    pub open spec fn pushed(
        &self,
        idx: BasicBlockIdx,
        names: Seq<Seq<char>>,
        upto: int,
        after: &DominatingDefinitionsStacks,
    ) -> bool {
        forall|name: Seq<char>| #[trigger]
            after.stack_of(name) == self.stack_of(name) + repeated(
                idx,
                occurrences(names, upto, name),
            )
    }

    /// No stacks.
    pub fn new() -> (r: Self)
        ensures
            forall|name: Seq<char>| #[trigger] r.stack_of(name) == Seq::<BasicBlockIdx>::empty(),
    {
        DominatingDefinitionsStacks { inner: StringHashMap::new() }
    }

    /// The block on top of the stack of `name`, if there is one.
    pub fn top(&self, name: &String) -> (r: Option<BasicBlockIdx>)
        ensures
            r == if self.stack_of(name@).len() > 0 {
                Some(self.stack_of(name@).last())
            } else {
                None
            },
    {
        match self.inner.get(name.as_str()) {
            Some(stack) => if stack.len() > 0 {
                Some(stack[stack.len() - 1])
            } else {
                None
            },
            None => None,
        }
    }

    /// Puts `idx` on the stack of `name`.
    pub fn push(&mut self, name: &String, idx: BasicBlockIdx)
        ensures
            final(self).stack_of(name@) == old(self).stack_of(name@).push(idx),
            forall|other: Seq<char>|
                other != name@ ==> #[trigger] final(self).stack_of(other) == old(self).stack_of(
                    other,
                ),
    {
        let mut stack = match self.inner.get(name.as_str()) {
            Some(stack) => crate::dominators::dup_blocks(stack),
            None => Vec::new(),
        };
        stack.push(idx);
        self.inner.insert(name.clone(), stack);
    }

    /// Takes the top off the stack of `name`, if there is one.
    pub fn pop(&mut self, name: &String)
        ensures
            final(self).stack_of(name@) == if old(self).stack_of(name@).len() > 0 {
                old(self).stack_of(name@).drop_last()
            } else {
                old(self).stack_of(name@)
            },
            forall|other: Seq<char>|
                other != name@ ==> #[trigger] final(self).stack_of(other) == old(self).stack_of(
                    other,
                ),
    {
        let stack = match self.inner.get(name.as_str()) {
            Some(stack) => {
                let mut copy = crate::dominators::dup_blocks(stack);
                let _ = copy.pop();
                Some(copy)
            },
            None => None,
        };
        match stack {
            Some(s) => {
                self.inner.insert(name.clone(), s);
            },
            None => {},
        }
    }

    /// Puts `current_idx` on the stack of each of `new_definitions`.
    pub fn push_all(&mut self, current_idx: BasicBlockIdx, new_definitions: &[String])
        ensures
            old(self).pushed(
                current_idx,
                texts(new_definitions@),
                new_definitions@.len() as int,
                &*final(self),
            ),
    {
        let ghost names = texts(new_definitions@);
        let ghost before = *self;
        let mut i: usize = 0;
        proof {
            assert forall|name: Seq<char>| #[trigger]
                self.stack_of(name) == before.stack_of(name) + repeated(
                    current_idx,
                    occurrences(names, 0, name),
                ) by {
                assert(before.stack_of(name) + repeated(current_idx, 0) =~= before.stack_of(name));
            }
        }
        while i < new_definitions.len()
            invariant
                i <= new_definitions@.len(),
                names == texts(new_definitions@),
                before.pushed(current_idx, names, i as int, &*self),
            decreases new_definitions@.len() - i,
        {
            let ghost mid = *self;
            self.push(&new_definitions[i], current_idx);
            proof {
                assert forall|name: Seq<char>| #[trigger]
                    self.stack_of(name) == before.stack_of(name) + repeated(
                        current_idx,
                        occurrences(names, i + 1, name),
                    ) by {
                    assert(mid.stack_of(name) == before.stack_of(name) + repeated(
                        current_idx,
                        occurrences(names, i as int, name),
                    ));
                    if name == names[i as int] {
                        assert(self.stack_of(name) =~= before.stack_of(name) + repeated(
                            current_idx,
                            occurrences(names, i + 1, name),
                        ));
                    } else {
                        assert(self.stack_of(name) == mid.stack_of(name));
                    }
                }
            }
            i += 1;
        }
    }

    /// Takes off the stack of each of `new_definitions` what
    /// [`push_all`](Self::push_all) put there.
    pub fn pop_all(
        &mut self,
        current_idx: BasicBlockIdx,
        new_definitions: &[String],
        Ghost(before): Ghost<DominatingDefinitionsStacks>,
    )
        requires
            before.pushed(
                current_idx,
                texts(new_definitions@),
                new_definitions@.len() as int,
                &*old(self),
            ),
        ensures
            before.same_stacks(&*final(self)),
    {
        let ghost names = texts(new_definitions@);
        let mut j: usize = new_definitions.len();
        while j > 0
            invariant
                j <= new_definitions@.len(),
                names == texts(new_definitions@),
                before.pushed(current_idx, names, j as int, &*self),
            decreases j,
        {
            j -= 1;
            let ghost mid = *self;
            self.pop(&new_definitions[j]);
            proof {
                assert forall|name: Seq<char>| #[trigger]
                    self.stack_of(name) == before.stack_of(name) + repeated(
                        current_idx,
                        occurrences(names, j as int, name),
                    ) by {
                    assert(mid.stack_of(name) == before.stack_of(name) + repeated(
                        current_idx,
                        occurrences(names, j + 1, name),
                    ));
                    if name == names[j as int] {
                        assert(self.stack_of(name) =~= before.stack_of(name) + repeated(
                            current_idx,
                            occurrences(names, j as int, name),
                        ));
                    } else {
                        assert(self.stack_of(name) == mid.stack_of(name));
                    }
                }
            }
        }
        proof {
            assert forall|name: Seq<char>| #[trigger] before.stack_of(name) == self.stack_of(
                name,
            ) by {
                assert(self.stack_of(name) == before.stack_of(name) + repeated(
                    current_idx,
                    occurrences(names, 0, name),
                ));
                assert(before.stack_of(name) + repeated(current_idx, 0) =~= before.stack_of(name));
            }
        }
    }

    /// Runs `then` with `current_idx` on the stack of each of
    /// `new_definitions`, takes it off again afterwards, and returns what
    /// `then` returned. `then` has to leave the stacks as it finds them.
    pub fn with_new_definitions<T, F: FnOnce(&mut Self) -> T>(
        &mut self,
        current_idx: BasicBlockIdx,
        new_definitions: &[String],
        then: F,
    ) -> (r: T)
        requires
            forall|s: &mut Self|
                old(self).pushed(
                    current_idx,
                    texts(new_definitions@),
                    new_definitions@.len() as int,
                    &*s,
                ) ==> #[trigger] call_requires(then, (s,)),
            forall|s: &mut Self, out: T| #[trigger]
                call_ensures(then, (s,), out) ==> s.same_stacks(&*final(s)),
        ensures
            old(self).same_stacks(&*final(self)),
            exists|s: &mut Self| #[trigger]
                call_ensures(then, (s,), r) && old(self).pushed(
                    current_idx,
                    texts(new_definitions@),
                    new_definitions@.len() as int,
                    &*s,
                ),
    {
        let ghost before = *self;
        self.push_all(current_idx, new_definitions);
        let ghost top_state = *self;
        let result = then(self);
        proof {
            lemma_pushed_same(before, current_idx, texts(new_definitions@), top_state, *self);
        }
        self.pop_all(current_idx, new_definitions, Ghost(before));
        result
    }
}

/// Stacks that are the same as pushed ones are pushed ones.
pub proof fn lemma_pushed_same(
    before: DominatingDefinitionsStacks,
    idx: BasicBlockIdx,
    names: Seq<Seq<char>>,
    top: DominatingDefinitionsStacks,
    after: DominatingDefinitionsStacks,
)
    requires
        before.pushed(idx, names, names.len() as int, &top),
        top.same_stacks(&after),
    ensures
        before.pushed(idx, names, names.len() as int, &after),
{
    assert forall|name: Seq<char>| #[trigger]
        after.stack_of(name) == before.stack_of(name) + repeated(
            idx,
            occurrences(names, names.len() as int, name),
        ) by {
        assert(top.stack_of(name) == after.stack_of(name));
        assert(top.stack_of(name) == before.stack_of(name) + repeated(
            idx,
            occurrences(names, names.len() as int, name),
        ));
    }
}

/// For each variable, how many definitions it has had in the block at hand.
pub struct LocalRenamer {
    pub inner: StringHashMap<usize>,
}

impl LocalRenamer {
    /// The number of definitions recorded for `name`.
    pub open spec fn count(&self, name: Seq<char>) -> nat {
        if self.inner@.contains_key(name) {
            self.inner@[name] as nat
        } else {
            0
        }
    }

    /// No definition recorded.
    pub fn new() -> (r: Self)
        ensures
            forall|name: Seq<char>| #[trigger] r.count(name) == 0,
    {
        LocalRenamer { inner: StringHashMap::new() }
    }

    /// The number of definitions recorded for `name`.
    pub fn get(&self, name: &String) -> (n: usize)
        ensures
            n == self.count(name@),
    {
        match self.inner.get(name.as_str()) {
            Some(n) => *n,
            None => 0,
        }
    }

    /// Records one more definition of `name` and returns its number.
    pub fn next(&mut self, name: &String) -> (n: usize)
        requires
            old(self).count(name@) < usize::MAX,
        ensures
            n == old(self).count(name@) + 1,
            final(self).count(name@) == n,
            forall|other: Seq<char>|
                other != name@ ==> #[trigger] final(self).count(other) == old(self).count(other),
    {
        let n = self.get(name) + 1;
        self.inner.insert(name.clone(), n);
        n
    }
}

/// Why a function could not be taken out of static single assignment form.
#[derive(Debug)]
pub enum SsaError {
    /// Some variable is defined more than once.
    NotSsa,
    /// A `set` that does not take exactly two arguments.
    MalformedSet,
    /// A `set` of a variable that no `get` defines.
    MissingGet { name: String },
}

/// Whether the instruction at position `i` of the block `n` defines `v`.
pub open spec fn defines(cfg: FunctionCfg, n: u64, i: int, v: Seq<char>) -> bool {
    &&& cfg.blocks().dom().contains(n)
    &&& 0 <= i < cfg.blocks()[n].code().len()
    &&& cfg.blocks()[n].code()[i].kill() == Some(v)
}

/// Whether every variable is defined at most once in the function.
pub open spec fn strict_ssa(cfg: FunctionCfg) -> bool {
    forall|n1: u64, i1: int, n2: u64, i2: int, v: Seq<char>|
        #![trigger defines(cfg, n1, i1, v), defines(cfg, n2, i2, v)]
        defines(cfg, n1, i1, v) && defines(cfg, n2, i2, v) ==> n1 == n2 && i1 == i2
}

/// Whether the first `inner` instructions of the block at position `outer`
/// of `keys`, and all instructions of the blocks before it, define each
/// variable at most once, the variables in `seen` and no others.
pub open spec fn seen_once(
    cfg: FunctionCfg,
    keys: Seq<BasicBlockIdx>,
    outer: int,
    inner: int,
    seen: Set<Seq<char>>,
) -> bool {
    &&& forall|v: Seq<char>|
        seen.contains(v) <==> exists|j: int, i: int|
            #![trigger defines(cfg, keys[j].0, i, v)]
            covered(keys, outer, inner, j, i) && defines(cfg, keys[j].0, i, v)
    &&& forall|j1: int, i1: int, j2: int, i2: int, v: Seq<char>|
        #![trigger defines(cfg, keys[j1].0, i1, v), defines(cfg, keys[j2].0, i2, v)]
        covered(keys, outer, inner, j1, i1) && covered(keys, outer, inner, j2, i2) && defines(
            cfg,
            keys[j1].0,
            i1,
            v,
        ) && defines(cfg, keys[j2].0, i2, v) ==> j1 == j2 && i1 == i2
}

/// Whether the instruction at position `i` of the block at position `j` is
/// among those looked at when the scan stands at instruction `inner` of the
/// block at position `outer`.
pub open spec fn covered(keys: Seq<BasicBlockIdx>, outer: int, inner: int, j: int, i: int) -> bool {
    0 <= j < keys.len() && (j < outer || (j == outer && i < inner))
}

/// Whether every variable is defined at most once in the function.
pub fn is_ssa(cfg: &FunctionCfg) -> (r: bool)
    requires
        cfg.wf(),
    ensures
        r == strict_ssa(*cfg),
{
    let keys = cfg.keys();
    let mut seen = StringHashSet::new();
    let mut j: usize = 0;
    while j < keys.len()
        invariant
            j <= keys@.len(),
            cfg.wf(),
            keys@.no_duplicates(),
            forall|k: BasicBlockIdx| #[trigger] keys@.contains(k) <==> cfg.has(k),
            seen_once(*cfg, keys@, j as int, 0, seen@),
        decreases keys@.len() - j,
    {
        let k = keys[j];
        assert(keys@.contains(k));
        match cfg.block(k) {
            Some(block) => {
                let ghost code = block.code();
                let mut i: usize = 0;
                while i < block.instructions.len()
                    invariant
                        i <= block.instructions@.len(),
                        j < keys@.len(),
                        k == keys@[j as int],
                        cfg.has(k),
                        *block == cfg.blocks()[k.0],
                        code == block.code(),
                        keys@.no_duplicates(),
                        seen_once(*cfg, keys@, j as int, i as int, seen@),
                    decreases block.instructions@.len() - i,
                {
                    let ghost before = seen@;
                    assert(code[i as int] == block.instructions@[i as int]@);
                    let dest = match &block.instructions[i] {
                        Instruction::Constant { dest, .. } => Some(dest),
                        Instruction::Value { dest, .. } => Some(dest),
                        Instruction::Effect { .. } => None,
                    };
                    match dest {
                        Some(d) => {
                            if seen.contains(d.as_str()) {
                                proof {
                                    let (j0, i0) = choose|j0: int, i0: int|
                                        #![trigger defines(*cfg, keys@[j0].0, i0, d@)]
                                        covered(keys@, j as int, i as int, j0, i0) && defines(
                                            *cfg,
                                            keys@[j0].0,
                                            i0,
                                            d@,
                                        );
                                    assert(defines(*cfg, keys@[j as int].0, i as int, d@));
                                    if j0 == j {
                                        assert(i0 != i);
                                    } else {
                                        assert(keys@[j0] != keys@[j as int]);
                                    }
                                    assert(!strict_ssa(*cfg));
                                }
                                return false;
                            }
                            seen.insert(d.clone());
                        },
                        None => {},
                    }
                    proof {
                        lemma_seen_step(*cfg, keys@, j as int, i as int, before, seen@);
                    }
                    i += 1;
                }
                proof {
                    lemma_seen_next(*cfg, keys@, j as int, seen@);
                }
            },
            None => {},
        }
        j += 1;
    }
    proof {
        assert forall|n1: u64, i1: int, n2: u64, i2: int, v: Seq<char>|
            #![trigger defines(*cfg, n1, i1, v), defines(*cfg, n2, i2, v)]
            defines(*cfg, n1, i1, v) && defines(*cfg, n2, i2, v) implies n1 == n2 && i1 == i2 by {
            assert(keys@.contains(BasicBlockIdx(n1)));
            assert(keys@.contains(BasicBlockIdx(n2)));
            let j1 = choose|j1: int| 0 <= j1 < keys@.len() && keys@[j1] == BasicBlockIdx(n1);
            let j2 = choose|j2: int| 0 <= j2 < keys@.len() && keys@[j2] == BasicBlockIdx(n2);
            assert(covered(keys@, keys@.len() as int, 0, j1, i1));
            assert(covered(keys@, keys@.len() as int, 0, j2, i2));
            assert(defines(*cfg, keys@[j1].0, i1, v));
            assert(defines(*cfg, keys@[j2].0, i2, v));
        }
    }
    true
}

/// One more instruction looked at: its destination, if it has one, had not
/// been seen and is seen now.
pub proof fn lemma_seen_step(
    cfg: FunctionCfg,
    keys: Seq<BasicBlockIdx>,
    outer: int,
    inner: int,
    before: Set<Seq<char>>,
    after: Set<Seq<char>>,
)
    requires
        0 <= outer < keys.len(),
        cfg.has(keys[outer]),
        0 <= inner < cfg.blocks()[keys[outer].0].code().len(),
        keys.no_duplicates(),
        seen_once(cfg, keys, outer, inner, before),
        match cfg.blocks()[keys[outer].0].code()[inner].kill() {
            Some(d) => !before.contains(d) && after == before.insert(d),
            None => after == before,
        },
    ensures
        seen_once(cfg, keys, outer, inner + 1, after),
{
    let kill = cfg.blocks()[keys[outer].0].code()[inner].kill();
    assert forall|v: Seq<char>|
        after.contains(v) <==> exists|j: int, i: int|
            #![trigger defines(cfg, keys[j].0, i, v)]
            covered(keys, outer, inner + 1, j, i) && defines(cfg, keys[j].0, i, v) by {
        if before.contains(v) {
            let (j, i) = choose|j: int, i: int|
                #![trigger defines(cfg, keys[j].0, i, v)]
                covered(keys, outer, inner, j, i) && defines(cfg, keys[j].0, i, v);
            assert(covered(keys, outer, inner + 1, j, i) && defines(cfg, keys[j].0, i, v));
        }
        if kill == Some(v) {
            assert(covered(keys, outer, inner + 1, outer, inner) && defines(
                cfg,
                keys[outer].0,
                inner,
                v,
            ));
        }
        if exists|j: int, i: int|
            #![trigger defines(cfg, keys[j].0, i, v)]
            covered(keys, outer, inner + 1, j, i) && defines(cfg, keys[j].0, i, v) {
            let (j, i) = choose|j: int, i: int|
                #![trigger defines(cfg, keys[j].0, i, v)]
                covered(keys, outer, inner + 1, j, i) && defines(cfg, keys[j].0, i, v);
            if !(j == outer && i == inner) {
                assert(covered(keys, outer, inner, j, i));
            }
        }
    }
    assert forall|j1: int, i1: int, j2: int, i2: int, v: Seq<char>|
        #![trigger defines(cfg, keys[j1].0, i1, v), defines(cfg, keys[j2].0, i2, v)]
        covered(keys, outer, inner + 1, j1, i1) && covered(keys, outer, inner + 1, j2, i2)
            && defines(cfg, keys[j1].0, i1, v) && defines(cfg, keys[j2].0, i2, v) implies j1 == j2
        && i1 == i2 by {
        let new1 = j1 == outer && i1 == inner;
        let new2 = j2 == outer && i2 == inner;
        if new1 && !new2 {
            assert(covered(keys, outer, inner, j2, i2));
            assert(before.contains(v));
        }
        if new2 && !new1 {
            assert(covered(keys, outer, inner, j1, i1));
            assert(before.contains(v));
        }
        if !new1 && !new2 {
            assert(covered(keys, outer, inner, j1, i1));
            assert(covered(keys, outer, inner, j2, i2));
        }
    }
}

/// A block looked at to its end: the scan stands at the start of the next.
pub proof fn lemma_seen_next(cfg: FunctionCfg, keys: Seq<BasicBlockIdx>, outer: int, seen: Set<Seq<char>>)
    requires
        0 <= outer < keys.len(),
        cfg.has(keys[outer]),
        seen_once(cfg, keys, outer, cfg.blocks()[keys[outer].0].code().len() as int, seen),
    ensures
        seen_once(cfg, keys, outer + 1, 0, seen),
{
    let len = cfg.blocks()[keys[outer].0].code().len() as int;
    assert forall|j: int, i: int, v: Seq<char>| #[trigger]
        defines(cfg, keys[j].0, i, v) && 0 <= j < keys.len() implies (covered(
        keys,
        outer,
        len,
        j,
        i,
    ) <==> covered(keys, outer + 1, 0, j, i)) by {}
    assert forall|v: Seq<char>|
        seen.contains(v) <==> exists|j: int, i: int|
            #![trigger defines(cfg, keys[j].0, i, v)]
            covered(keys, outer + 1, 0, j, i) && defines(cfg, keys[j].0, i, v) by {
        if seen.contains(v) {
            let (j, i) = choose|j: int, i: int|
                #![trigger defines(cfg, keys[j].0, i, v)]
                covered(keys, outer, len, j, i) && defines(cfg, keys[j].0, i, v);
            assert(covered(keys, outer + 1, 0, j, i) && defines(cfg, keys[j].0, i, v));
        }
        if exists|j: int, i: int|
            #![trigger defines(cfg, keys[j].0, i, v)]
            covered(keys, outer + 1, 0, j, i) && defines(cfg, keys[j].0, i, v) {
            let (j, i) = choose|j: int, i: int|
                #![trigger defines(cfg, keys[j].0, i, v)]
                covered(keys, outer + 1, 0, j, i) && defines(cfg, keys[j].0, i, v);
            assert(covered(keys, outer, len, j, i));
        }
    }
}

/// Whether `i` is the `get` of `d` at type `ty`.
pub open spec fn is_get_of(i: InstructionView, d: Seq<char>, ty: Type) -> bool {
    i is Value && i->Value_op == ValueOp::Get && i->Value_dest == d && i->op_type == ty
}

/// Whether the function holds a `get` of `d` at type `ty`.
pub open spec fn has_get(cfg: FunctionCfg, d: Seq<char>, ty: Type) -> bool {
    exists|n: u64, i: int|
        cfg.blocks().dom().contains(n) && 0 <= i < cfg.blocks()[n].code().len() && is_get_of(
            #[trigger] cfg.blocks()[n].code()[i],
            d,
            ty,
        )
}

/// For each variable that a `get` defines, the type of that `get`.
pub open spec fn get_types(cfg: FunctionCfg) -> Map<Seq<char>, Type> {
    Map::new(
        |d: Seq<char>| exists|ty: Type| has_get(cfg, d, ty),
        |d: Seq<char>| choose|ty: Type| has_get(cfg, d, ty),
    )
}

/// Whether the instruction, if it is a `set`, takes two arguments of which
/// the first has a type in `types`.
pub open spec fn set_ok(i: InstructionView, types: Map<Seq<char>, Type>) -> bool {
    i.is_set() ==> i->Effect_args.len() == 2 && types.contains_key(i->Effect_args[0])
}

/// Whether the instruction at position `i` of the block `n` is a `set`
/// that is not in order.
pub open spec fn bad_set(cfg: FunctionCfg, types: Map<Seq<char>, Type>, n: u64, i: int) -> bool {
    &&& cfg.blocks().dom().contains(n)
    &&& 0 <= i < cfg.blocks()[n].code().len()
    &&& !set_ok(cfg.blocks()[n].code()[i], types)
}

/// Whether the instruction at position `i` of the block `n` is the first
/// `set` that is not in order: no block of a lower slot holds one, and the
/// block `n` holds none before it.
pub open spec fn first_bad_set(cfg: FunctionCfg, types: Map<Seq<char>, Type>, n: u64, i: int) -> bool {
    &&& bad_set(cfg, types, n, i)
    &&& forall|m: u64, j: int| #[trigger]
        bad_set(cfg, types, m, j) ==> crate::store::slot_of(n) < crate::store::slot_of(m) || (m == n
            && i <= j)
}

/// Whether `e` is the fault of the `set` `i`: it does not take two
/// arguments, or no `get` defines the variable that it sets.
pub open spec fn set_fault(e: SsaError, i: InstructionView) -> bool {
    if i->Effect_args.len() != 2 {
        e is MalformedSet
    } else {
        e is MissingGet && e->name@ == i->Effect_args[0]
    }
}

/// Whether every `set` of the function is in order.
pub open spec fn all_sets_ok(cfg: FunctionCfg, types: Map<Seq<char>, Type>) -> bool {
    forall|n: u64, i: int|
        cfg.blocks().dom().contains(n) && 0 <= i < cfg.blocks()[n].code().len() ==> set_ok(
            #[trigger] cfg.blocks()[n].code()[i],
            types,
        )
}

/// The copy that stands for the `set` of `dest` to `from`.
pub open spec fn set_as_copy(dest: Seq<char>, from: Seq<char>, ty: Type) -> InstructionView {
    InstructionView::Value {
        dest,
        op: ValueOp::Id,
        args: seq![from],
        funcs: Seq::empty(),
        labels: Seq::empty(),
        op_type: ty,
        pos: None,
    }
}

/// The first `upto` instructions of `code` taken out of static single
/// assignment form: every `get` is dropped, every `set` becomes a copy into
/// its first argument from its second, at the type that `types` has for the
/// first, and every other instruction stays.
pub open spec fn lowered(code: Seq<InstructionView>, types: Map<Seq<char>, Type>, upto: int) -> Seq<
    InstructionView,
>
    decreases upto,
{
    if upto <= 0 {
        Seq::empty()
    } else {
        let rest = lowered(code, types, upto - 1);
        let i = code[upto - 1];
        if i.is_get() {
            rest
        } else if i.is_set() {
            rest.push(set_as_copy(i->Effect_args[0], i->Effect_args[1], types[i->Effect_args[0]]))
        } else {
            rest.push(i)
        }
    }
}

/// Taking a block out of static single assignment form keeps its
/// terminator last and adds none.
pub proof fn lemma_lowered_terminated(code: Seq<InstructionView>, types: Map<Seq<char>, Type>, upto: int)
    requires
        0 <= upto <= code.len(),
    ensures
        forall|i: int|
            0 <= i < lowered(code, types, upto).len() && is_terminator(
                #[trigger] lowered(code, types, upto)[i],
            ) ==> exists|j: int| 0 <= j < upto && #[trigger] is_terminator(code[j]),
        upto > 0 && is_terminator(code[upto - 1]) ==> lowered(code, types, upto).len() > 0
            && lowered(code, types, upto).last() == code[upto - 1],
        upto > 0 && is_terminator(code[upto - 1]) && (forall|j: int|
            0 <= j < upto - 1 ==> !is_terminator(#[trigger] code[j])) ==> forall|i: int|
            0 <= i < lowered(code, types, upto).len() - 1 ==> !is_terminator(
                #[trigger] lowered(code, types, upto)[i],
            ),
    decreases upto,
{
    if upto > 0 {
        lemma_lowered_terminated(code, types, upto - 1);
        let rest = lowered(code, types, upto - 1);
        let whole = lowered(code, types, upto);
        assert forall|i: int| 0 <= i < whole.len() && is_terminator(#[trigger] whole[i]) implies exists|
            j: int,
        | 0 <= j < upto && #[trigger] is_terminator(code[j]) by {
            if i < rest.len() {
                assert(whole[i] == rest[i]);
                let j = choose|j: int| 0 <= j < upto - 1 && #[trigger] is_terminator(code[j]);
                assert(0 <= j < upto && is_terminator(code[j]));
            } else {
                assert(is_terminator(code[upto - 1]));
            }
        }
        if is_terminator(code[upto - 1]) && (forall|j: int|
            0 <= j < upto - 1 ==> !is_terminator(#[trigger] code[j])) {
            assert forall|i: int| 0 <= i < whole.len() - 1 implies !is_terminator(
                #[trigger] whole[i],
            ) by {
                assert(whole[i] == rest[i]);
                if is_terminator(rest[i]) {
                    let j = choose|j: int| 0 <= j < upto - 1 && #[trigger] is_terminator(code[j]);
                }
            }
        }
    }
}

/// Takes one block out of static single assignment form.
fn lower_block(block: &mut BasicBlock, types: &StringHashMap<Type>)
    requires
        forall|i: int|
            0 <= i < old(block).code().len() ==> set_ok(#[trigger] old(block).code()[i], types@),
    ensures
        final(block).code() == lowered(
            old(block).code(),
            types@,
            old(block).code().len() as int,
        ),
        final(block).label == old(block).label,
        final(block).is_entry == old(block).is_entry,
        final(block).exit == old(block).exit,
        old(block).terminated() ==> final(block).terminated(),
{
    let ghost code = block.code();
    let mut out: Vec<Instruction> = Vec::new();
    let mut i: usize = 0;
    assert(crate::ir::views(out@) =~= lowered(code, types@, 0));
    while i < block.instructions.len()
        invariant
            i <= block.instructions@.len(),
            code == block.code(),
            *block == *old(block),
            forall|j: int| 0 <= j < code.len() ==> set_ok(#[trigger] code[j], types@),
            crate::ir::views(out@) == lowered(code, types@, i as int),
        decreases block.instructions@.len() - i,
    {
        let instruction = &block.instructions[i];
        assert(code[i as int] == instruction@);
        assert(set_ok(code[i as int], types@));
        let replacement = match instruction {
            Instruction::Value { op: ValueOp::Get, .. } => None,
            Instruction::Effect { op: EffectOp::Upsilon, args, .. } => {
                assert(texts(args@)[0] == args@[0]@);
                assert(texts(args@)[1] == args@[1]@);
                let ty = match types.get(args[0].as_str()) {
                    Some(t) => t.dup(),
                    None => Type::Int,
                };
                let mut from: Vec<String> = Vec::new();
                from.push(args[1].clone());
                let r = Instruction::Value {
                    dest: args[0].clone(),
                    op: ValueOp::Id,
                    args: from,
                    funcs: Vec::new(),
                    labels: Vec::new(),
                    op_type: ty,
                    pos: None,
                };
                assert(r@->Value_args =~= seq![args@[1]@]);
                assert(r@->Value_funcs =~= Seq::<Seq<char>>::empty());
                assert(r@->Value_labels =~= Seq::<Seq<char>>::empty());
                Some(r)
            },
            other => Some(other.dup()),
        };
        match replacement {
            Some(r) => {
                proof {
                    lemma_views_push(out@, r);
                }
                out.push(r);
            },
            None => {},
        }
        i += 1;
    }
    proof {
        lemma_lowered_terminated(code, types@, code.len() as int);
        if old(block).terminated() {
            let after = lowered(code, types@, code.len() as int);
            if old(block).exit is Fallthrough {
                assert forall|w: int| 0 <= w < after.len() implies !is_terminator(
                    #[trigger] after[w],
                ) by {
                    if is_terminator(after[w]) {
                        let j = choose|j: int| 0 <= j < code.len() && #[trigger] is_terminator(code[j]);
                    }
                }
            } else {
                assert(is_terminator(code[code.len() - 1]));
            }
        }
    }
    block.instructions = out;
}

/// A `set` out of order, with none before it in its block nor in the blocks
/// before its own in a list of all blocks by slot, is the first.
proof fn lemma_first_bad_set(
    cfg: FunctionCfg,
    types: Map<Seq<char>, Type>,
    keys: Seq<BasicBlockIdx>,
    j: int,
    i: int,
)
    requires
        0 <= j < keys.len(),
        forall|k: BasicBlockIdx| #[trigger] keys.contains(k) <==> cfg.has(k),
        forall|a: int, b: int|
            0 <= a < b < keys.len() ==> crate::store::slot_of(#[trigger] keys[a].0)
                < crate::store::slot_of(#[trigger] keys[b].0),
        forall|w: int, i: int|
            0 <= w < j && 0 <= i < cfg.blocks()[keys[w].0].code().len() ==> set_ok(
                #[trigger] cfg.blocks()[keys[w].0].code()[i],
                types,
            ),
        forall|w: int| 0 <= w < i ==> set_ok(#[trigger] cfg.blocks()[keys[j].0].code()[w], types),
        bad_set(cfg, types, keys[j].0, i),
    ensures
        first_bad_set(cfg, types, keys[j].0, i),
{
    let n = keys[j].0;
    assert forall|m: u64, w: int| #[trigger] bad_set(cfg, types, m, w) implies crate::store::slot_of(n)
        < crate::store::slot_of(m) || (m == n && i <= w) by {
        assert(cfg.has(BasicBlockIdx(m)));
        assert(keys.contains(BasicBlockIdx(m)));
        let a = choose|a: int| 0 <= a < keys.len() && keys[a] == BasicBlockIdx(m);
        if a < j {
            assert(set_ok(cfg.blocks()[keys[a].0].code()[w], types));
        } else if a == j {
            if w < i {
                assert(set_ok(cfg.blocks()[keys[j].0].code()[w], types));
            }
        } else {
            assert(crate::store::slot_of(keys[j].0) < crate::store::slot_of(keys[a].0));
        }
    }
}

impl FunctionCfg {
    /// The types of the `get`s of the function, by the variable defined.
    fn collect_get_types(&self) -> (types: StringHashMap<Type>)
        requires
            self.wf(),
        ensures
            forall|d: Seq<char>|
                types@.contains_key(d) <==> exists|ty: Type| #[trigger] has_get(*self, d, ty),
            forall|d: Seq<char>| #[trigger] types@.contains_key(d) ==> has_get(*self, d, types@[d]),
    {
        let keys = self.keys();
        let mut types: StringHashMap<Type> = StringHashMap::new();
        let mut j: usize = 0;
        while j < keys.len()
            invariant
                j <= keys@.len(),
                self.wf(),
                forall|k: BasicBlockIdx| #[trigger] keys@.contains(k) <==> self.has(k),
                forall|d: Seq<char>| #[trigger] types@.contains_key(d) ==> has_get(*self, d, types@[d]),
                forall|w: int, i: int, d: Seq<char>, ty: Type|
                    0 <= w < j && 0 <= i < self.blocks()[keys@[w].0].code().len()
                        && #[trigger] is_get_of(self.blocks()[keys@[w].0].code()[i], d, ty)
                        ==> types@.contains_key(d),
            decreases keys@.len() - j,
        {
            let k = keys[j];
            assert(keys@.contains(k));
            match self.block(k) {
                Some(block) => {
                    let ghost code = block.code();
                    let mut i: usize = 0;
                    while i < block.instructions.len()
                        invariant
                            i <= block.instructions@.len(),
                            j < keys@.len(),
                            k == keys@[j as int],
                            self.has(k),
                            *block == self.blocks()[k.0],
                            code == block.code(),
                            forall|d: Seq<char>| #[trigger]
                                types@.contains_key(d) ==> has_get(*self, d, types@[d]),
                            forall|w: int, i: int, d: Seq<char>, ty: Type|
                                0 <= w < j && 0 <= i < self.blocks()[keys@[w].0].code().len()
                                    && #[trigger] is_get_of(
                                    self.blocks()[keys@[w].0].code()[i],
                                    d,
                                    ty,
                                ) ==> types@.contains_key(d),
                            forall|w: int, d: Seq<char>, ty: Type|
                                0 <= w < i && #[trigger] is_get_of(code[w], d, ty)
                                    ==> types@.contains_key(d),
                        decreases block.instructions@.len() - i,
                    {
                        assert(code[i as int] == block.instructions@[i as int]@);
                        match &block.instructions[i] {
                            Instruction::Value { dest, op: ValueOp::Get, op_type, .. } => {
                                types.insert(dest.clone(), op_type.dup());
                                assert(is_get_of(
                                    self.blocks()[k.0].code()[i as int],
                                    dest@,
                                    *op_type,
                                ));
                            },
                            _ => {},
                        }
                        i += 1;
                    }
                },
                None => {},
            }
            j += 1;
        }
        proof {
            assert forall|d: Seq<char>|
                types@.contains_key(d) <==> exists|ty: Type| #[trigger] has_get(*self, d, ty) by {
                if exists|ty: Type| #[trigger] has_get(*self, d, ty) {
                    let ty = choose|ty: Type| #[trigger] has_get(*self, d, ty);
                    let (n, i) = choose|n: u64, i: int|
                        self.blocks().dom().contains(n) && 0 <= i < self.blocks()[n].code().len()
                            && is_get_of(#[trigger] self.blocks()[n].code()[i], d, ty);
                    assert(keys@.contains(BasicBlockIdx(n)));
                    let w = choose|w: int| 0 <= w < keys@.len() && keys@[w] == BasicBlockIdx(n);
                    assert(is_get_of(self.blocks()[keys@[w].0].code()[i], d, ty));
                }
            }
        }
        types
    }

    /// Whether every `set` of the function takes two arguments and has a
    /// type for the first; the fault of the first one that does not.
    fn check_sets(&self, types: &StringHashMap<Type>) -> (r: Result<(), SsaError>)
        requires
            self.wf(),
        ensures
            r is Ok <==> all_sets_ok(*self, types@),
            r is Err ==> exists|n: u64, i: int| #[trigger]
                first_bad_set(*self, types@, n, i) && set_fault(
                    r->Err_0,
                    self.blocks()[n].code()[i],
                ),
    {
        let keys = self.keys();
        let mut j: usize = 0;
        while j < keys.len()
            invariant
                j <= keys@.len(),
                self.wf(),
                forall|k: BasicBlockIdx| #[trigger] keys@.contains(k) <==> self.has(k),
                forall|a: int, b: int|
                    0 <= a < b < keys@.len() ==> crate::store::slot_of(#[trigger] keys@[a].0)
                        < crate::store::slot_of(#[trigger] keys@[b].0),
                forall|w: int, i: int|
                    0 <= w < j && 0 <= i < self.blocks()[keys@[w].0].code().len() ==> set_ok(
                        #[trigger] self.blocks()[keys@[w].0].code()[i],
                        types@,
                    ),
            decreases keys@.len() - j,
        {
            let k = keys[j];
            assert(keys@.contains(k));
            match self.block(k) {
                Some(block) => {
                    let ghost code = block.code();
                    let mut i: usize = 0;
                    while i < block.instructions.len()
                        invariant
                            i <= block.instructions@.len(),
                            j < keys@.len(),
                            k == keys@[j as int],
                            self.wf(),
                            self.has(k),
                            *block == self.blocks()[k.0],
                            code == block.code(),
                            forall|k: BasicBlockIdx| #[trigger] keys@.contains(k) <==> self.has(k),
                            forall|a: int, b: int|
                                0 <= a < b < keys@.len() ==> crate::store::slot_of(
                                    #[trigger] keys@[a].0,
                                ) < crate::store::slot_of(#[trigger] keys@[b].0),
                            forall|w: int, i: int|
                                0 <= w < j && 0 <= i < self.blocks()[keys@[w].0].code().len()
                                    ==> set_ok(
                                    #[trigger] self.blocks()[keys@[w].0].code()[i],
                                    types@,
                                ),
                            forall|w: int| 0 <= w < i ==> set_ok(#[trigger] code[w], types@),
                        decreases block.instructions@.len() - i,
                    {
                        assert(code[i as int] == block.instructions@[i as int]@);
                        match &block.instructions[i] {
                            Instruction::Effect { op: EffectOp::Upsilon, args, .. } => {
                                if args.len() != 2 {
                                    assert(!set_ok(self.blocks()[k.0].code()[i as int], types@));
                                    proof {
                                        lemma_first_bad_set(*self, types@, keys@, j as int, i as int);
                                    }
                                    return Err(SsaError::MalformedSet);
                                }
                                assert(texts(args@)[0] == args@[0]@);
                                if !types.contains_key(args[0].as_str()) {
                                    assert(!set_ok(self.blocks()[k.0].code()[i as int], types@));
                                    proof {
                                        lemma_first_bad_set(*self, types@, keys@, j as int, i as int);
                                    }
                                    return Err(SsaError::MissingGet { name: args[0].clone() });
                                }
                            },
                            _ => {},
                        }
                        i += 1;
                    }
                },
                None => {},
            }
            j += 1;
        }
        proof {
            assert forall|n: u64, i: int|
                self.blocks().dom().contains(n) && 0 <= i < self.blocks()[n].code().len() implies set_ok(
                #[trigger] self.blocks()[n].code()[i],
                types@,
            ) by {
                assert(keys@.contains(BasicBlockIdx(n)));
                let w = choose|w: int| 0 <= w < keys@.len() && keys@[w] == BasicBlockIdx(n);
                assert(set_ok(self.blocks()[keys@[w].0].code()[i], types@));
            }
        }
        Ok(())
    }
}

/// Whether `after` is the function `before` taken out of static single
/// assignment form: the same graph, every block with its instructions
/// lowered.
pub open spec fn out_of_ssa(before: FunctionCfg, after: FunctionCfg) -> bool {
    &&& same_shape(before, after)
    &&& forall|n: u64| #[trigger]
        before.blocks().dom().contains(n) ==> after.blocks()[n].code() == lowered(
            before.blocks()[n].code(),
            get_types(before),
            before.blocks()[n].code().len() as int,
        )
}

/// Takes the function out of static single assignment form: every `get` is
/// dropped and every `set` becomes a copy, at the type of the `get` that it
/// feeds.
///
/// Fails, and leaves the function as it is, where some variable is defined
/// more than once, or some `set` does not take two arguments or feeds no
/// `get`.
pub fn from_ssa(cfg: &mut FunctionCfg) -> (r: Result<(), SsaError>)
    requires
        old(cfg).wf(),
    ensures
        r is Ok <==> strict_ssa(*old(cfg)) && all_sets_ok(*old(cfg), get_types(*old(cfg))),
        r is Ok ==> final(cfg).wf() && out_of_ssa(*old(cfg), *final(cfg)) && (old(cfg).terminated() ==> final(cfg).terminated()) && (old(cfg).labels_unique() ==> final(cfg).labels_unique()),
        r is Err ==> *final(cfg) == *old(cfg),
        r is Err ==> (r->Err_0 is NotSsa <==> !strict_ssa(*old(cfg))),
        r is Err && strict_ssa(*old(cfg)) ==> exists|n: u64, i: int| #[trigger]
            first_bad_set(*old(cfg), get_types(*old(cfg)), n, i) && set_fault(
                r->Err_0,
                old(cfg).blocks()[n].code()[i],
            ),
{
    let ghost before = *cfg;
    if !is_ssa(cfg) {
        return Err(SsaError::NotSsa);
    }
    let types = cfg.collect_get_types();
    proof {
        assert(types@ =~= get_types(before)) by {
            assert forall|d: Seq<char>| #[trigger] types@.contains_key(d) implies types@[d]
                == get_types(before)[d] by {
                let t1 = types@[d];
                let t2 = choose|ty: Type| has_get(before, d, ty);
                assert(has_get(before, d, t1));
                assert(has_get(before, d, t2));
                let (n1, i1) = choose|n: u64, i: int|
                    before.blocks().dom().contains(n) && 0 <= i < before.blocks()[n].code().len()
                        && is_get_of(#[trigger] before.blocks()[n].code()[i], d, t1);
                let (n2, i2) = choose|n: u64, i: int|
                    before.blocks().dom().contains(n) && 0 <= i < before.blocks()[n].code().len()
                        && is_get_of(#[trigger] before.blocks()[n].code()[i], d, t2);
                assert(defines(before, n1, i1, d));
                assert(defines(before, n2, i2, d));
            }
        }
    }
    match cfg.check_sets(&types) {
        Ok(()) => {},
        Err(e) => {
            return Err(e);
        },
    }
    let keys = cfg.keys();
    let mut j: usize = 0;
    while j < keys.len()
        invariant
            j <= keys@.len(),
            before.wf(),
            cfg.wf(),
            same_shape(before, *cfg),
            types@ == get_types(before),
            all_sets_ok(before, types@),
            keys@.no_duplicates(),
            forall|k: BasicBlockIdx| #[trigger] keys@.contains(k) <==> before.has(k),
            forall|w: int|
                0 <= w < j ==> (#[trigger] cfg.blocks()[keys@[w].0]).code() == lowered(
                    before.blocks()[keys@[w].0].code(),
                    types@,
                    before.blocks()[keys@[w].0].code().len() as int,
                ) && (before.blocks()[keys@[w].0].terminated()
                    ==> cfg.blocks()[keys@[w].0].terminated()),
            forall|w: int|
                j <= w < keys@.len() ==> (#[trigger] cfg.blocks()[keys@[w].0])
                    == before.blocks()[keys@[w].0],
        decreases keys@.len() - j,
    {
        let k = keys[j];
        let ghost mid = *cfg;
        proof {
            assert(keys@.contains(k));
            assert(before.has(k));
            assert(cfg.blocks()[keys@[j as int].0] == before.blocks()[k.0]);
            assert forall|i: int| 0 <= i < before.blocks()[k.0].code().len() implies set_ok(
                #[trigger] before.blocks()[k.0].code()[i],
                types@,
            ) by {}
            assert(cfg.has(k));
            assert(crate::store::canonical(k.0) == k.0);
        }
        let block = store_get_mut(&mut cfg.vertices, k);
        lower_block(block, &types);
        proof {
            assert(cfg.blocks().dom() =~= mid.blocks().dom());
            assert(same_shape(mid, *cfg));
            lemma_same_shape_chain(before, mid, *cfg);
            lemma_same_shape(before, *cfg);
            assert forall|w: int| 0 <= w < j + 1 implies (#[trigger] cfg.blocks()[keys@[w].0]).code()
                == lowered(
                before.blocks()[keys@[w].0].code(),
                types@,
                before.blocks()[keys@[w].0].code().len() as int,
            ) && (before.blocks()[keys@[w].0].terminated()
                ==> cfg.blocks()[keys@[w].0].terminated()) by {
                if w < j {
                    assert(keys@[w] != keys@[j as int]);
                    assert(cfg.blocks()[keys@[w].0] == mid.blocks()[keys@[w].0]);
                }
            }
            assert forall|w: int| j + 1 <= w < keys@.len() implies (
            #[trigger] cfg.blocks()[keys@[w].0]) == before.blocks()[keys@[w].0] by {
                assert(keys@[w] != keys@[j as int]);
                assert(cfg.blocks()[keys@[w].0] == mid.blocks()[keys@[w].0]);
            }
        }
        j += 1;
    }
    proof {
        lemma_same_shape(before, *cfg);
        assert forall|n: u64| #[trigger] before.blocks().dom().contains(n) implies cfg.blocks()[n].code()
            == lowered(
            before.blocks()[n].code(),
            get_types(before),
            before.blocks()[n].code().len() as int,
        ) && (before.blocks()[n].terminated() ==> cfg.blocks()[n].terminated()) by {
            assert(keys@.contains(BasicBlockIdx(n)));
            let w = choose|w: int| 0 <= w < keys@.len() && keys@[w] == BasicBlockIdx(n);
            assert(cfg.blocks()[keys@[w].0].code() == lowered(
                before.blocks()[keys@[w].0].code(),
                types@,
                before.blocks()[keys@[w].0].code().len() as int,
            ));
        }
    }
    Ok(())
}

/// A variable with its type and the blocks that define it.
#[derive(Debug)]
pub struct DefinitionSite {
    pub name: String,
    pub ty: Type,
    pub blocks: Vec<BasicBlockIdx>,
}

/// The basic blocks that each variable is assigned in, along with its type.
#[derive(Debug)]
pub struct DefinitionSites(pub Vec<DefinitionSite>);

/// Whether the block `b` defines `v`.
pub open spec fn defines_in(cfg: FunctionCfg, b: BasicBlockIdx, v: Seq<char>) -> bool {
    exists|i: int| #[trigger] defines(cfg, b.0, i, v)
}

/// Whether `ty` is the type that some definition of `v` gives it.
pub open spec fn defined_as(cfg: FunctionCfg, v: Seq<char>, ty: Type) -> bool {
    exists|n: u64, i: int|
        #[trigger] defines(cfg, n, i, v) && cfg.blocks()[n].code()[i].dest_type() == Some(ty)
}

/// Whether `ty` is the type that the first definition of `v` gives it,
/// among the instructions looked at when the scan stands at instruction
/// `inner` of the block at position `outer` of `keys`.
pub open spec fn typed_first_upto(
    cfg: FunctionCfg,
    keys: Seq<BasicBlockIdx>,
    outer: int,
    inner: int,
    v: Seq<char>,
    ty: Type,
) -> bool {
    exists|j: int, i: int|
        #![trigger defines(cfg, keys[j].0, i, v)]
        covered(keys, outer, inner, j, i) && defines(cfg, keys[j].0, i, v)
            && cfg.blocks()[keys[j].0].code()[i].dest_type() == Some(ty) && forall|j2: int, i2: int|
            covered(keys, outer, inner, j2, i2) && #[trigger] defines(cfg, keys[j2].0, i2, v) ==> j
                < j2 || (j == j2 && i <= i2)
}

/// Whether `ty` is the type that the first definition of `v` gives it: the
/// one in the block of the lowest slot that defines `v`, and the first in
/// that block.
pub open spec fn typed_first(cfg: FunctionCfg, v: Seq<char>, ty: Type) -> bool {
    exists|n: u64, i: int|
        #![trigger defines(cfg, n, i, v)]
        defines(cfg, n, i, v) && cfg.blocks()[n].code()[i].dest_type() == Some(ty) && forall|
            m: u64,
            i2: int,
        | #[trigger]
            defines(cfg, m, i2, v) ==> crate::store::slot_of(n) < crate::store::slot_of(m) || (m == n
                && i <= i2)
}

/// The first definition among all looked at, block by block in the order
/// of the slots, is the first definition.
pub proof fn lemma_typed_first(cfg: FunctionCfg, keys: Seq<BasicBlockIdx>, v: Seq<char>, ty: Type)
    requires
        forall|k: BasicBlockIdx| #[trigger] keys.contains(k) <==> cfg.has(k),
        forall|a: int, b: int|
            0 <= a < b < keys.len() ==> crate::store::slot_of(#[trigger] keys[a].0)
                < crate::store::slot_of(#[trigger] keys[b].0),
        typed_first_upto(cfg, keys, keys.len() as int, 0, v, ty),
    ensures
        typed_first(cfg, v, ty),
{
    let end = keys.len() as int;
    let (j, i) = choose|j: int, i: int|
        #![trigger defines(cfg, keys[j].0, i, v)]
        covered(keys, end, 0, j, i) && defines(cfg, keys[j].0, i, v)
            && cfg.blocks()[keys[j].0].code()[i].dest_type() == Some(ty) && forall|j2: int, i2: int|
            covered(keys, end, 0, j2, i2) && #[trigger] defines(cfg, keys[j2].0, i2, v) ==> j < j2 || (
            j == j2 && i <= i2);
    let n = keys[j].0;
    assert forall|m: u64, i2: int| #[trigger] defines(cfg, m, i2, v) implies crate::store::slot_of(n)
        < crate::store::slot_of(m) || (m == n && i <= i2) by {
        assert(cfg.has(BasicBlockIdx(m)));
        assert(keys.contains(BasicBlockIdx(m)));
        let j2 = choose|j2: int| 0 <= j2 < keys.len() && keys[j2] == BasicBlockIdx(m);
        assert(covered(keys, end, 0, j2, i2) && defines(cfg, keys[j2].0, i2, v));
        if j < j2 {
            assert(crate::store::slot_of(keys[j].0) < crate::store::slot_of(keys[j2].0));
        }
    }
    assert(defines(cfg, n, i, v));
}

/// The first definition among those looked at stays the first when more
/// are looked at, none of them before the place where the scan stood.
pub proof fn lemma_first_kept(
    cfg: FunctionCfg,
    keys: Seq<BasicBlockIdx>,
    o1: int,
    i1: int,
    o2: int,
    i2: int,
    v: Seq<char>,
    ty: Type,
)
    requires
        typed_first_upto(cfg, keys, o1, i1, v, ty),
        forall|j: int, i: int| #[trigger] covered(keys, o1, i1, j, i) ==> covered(keys, o2, i2, j, i),
        forall|j: int, i: int|
            #[trigger] covered(keys, o2, i2, j, i) && !covered(keys, o1, i1, j, i) ==> j > o1 || (j
                == o1 && i >= i1),
    ensures
        typed_first_upto(cfg, keys, o2, i2, v, ty),
{
    let (j, i) = choose|j: int, i: int|
        #![trigger defines(cfg, keys[j].0, i, v)]
        covered(keys, o1, i1, j, i) && defines(cfg, keys[j].0, i, v)
            && cfg.blocks()[keys[j].0].code()[i].dest_type() == Some(ty) && forall|j2: int, i2: int|
            covered(keys, o1, i1, j2, i2) && #[trigger] defines(cfg, keys[j2].0, i2, v) ==> j < j2
                || (j == j2 && i <= i2);
    assert(covered(keys, o2, i2, j, i));
    assert forall|j2: int, k2: int|
        covered(keys, o2, i2, j2, k2) && #[trigger] defines(cfg, keys[j2].0, k2, v) implies j < j2 || (
    j == j2 && i <= k2) by {
        if !covered(keys, o1, i1, j2, k2) {
            assert(j2 > o1 || (j2 == o1 && k2 >= i1));
        }
    }
    assert(covered(keys, o2, i2, j, i) && defines(cfg, keys[j].0, i, v));
}

/// Whether `sites` lists the definition sites of the first `inner`
/// instructions of the block at position `outer` of `keys` and of the blocks
/// before it: each variable defined there once, with the blocks that define
/// it there, each once, and a type that a definition gives it.
pub open spec fn sites_upto(
    cfg: FunctionCfg,
    keys: Seq<BasicBlockIdx>,
    outer: int,
    inner: int,
    sites: Seq<DefinitionSite>,
) -> bool {
    &&& forall|a: int, b: int|
        0 <= a < sites.len() && 0 <= b < sites.len() && a != b ==> (#[trigger] sites[a]).name@ != (
        #[trigger] sites[b]).name@
    &&& forall|e: int| 0 <= e < sites.len() ==> (#[trigger] sites[e]).blocks@.no_duplicates()
    &&& forall|e: int| 0 <= e < sites.len() ==> defined_as(cfg, (#[trigger] sites[e]).name@, sites[e].ty)
    &&& forall|e: int|
        0 <= e < sites.len() ==> typed_first_upto(
            cfg,
            keys,
            outer,
            inner,
            (#[trigger] sites[e]).name@,
            sites[e].ty,
        )
    &&& forall|e: int, k: BasicBlockIdx|
        0 <= e < sites.len() ==> (#[trigger] sites[e].blocks@.contains(k) <==> exists|j: int, i: int|
            #![trigger defines(cfg, keys[j].0, i, sites[e].name@)]
            covered(keys, outer, inner, j, i) && keys[j] == k && defines(
                cfg,
                keys[j].0,
                i,
                sites[e].name@,
            ))
    &&& forall|j: int, i: int, d: Seq<char>|
        covered(keys, outer, inner, j, i) && #[trigger] defines(cfg, keys[j].0, i, d) ==> exists|
            e: int,
        | 0 <= e < sites.len() && (#[trigger] sites[e]).name@ == d
}

impl DefinitionSites {
    /// Whether these are the definition sites of `cfg`: each variable that
    /// the function defines is listed once, with the blocks that define it,
    /// each once, and with the type that its first definition gives it.
    pub open spec fn of(&self, cfg: FunctionCfg) -> bool {
        let sites = self.0@;
        &&& forall|a: int, b: int|
            0 <= a < sites.len() && 0 <= b < sites.len() && a != b ==> (#[trigger] sites[a]).name@
                != (#[trigger] sites[b]).name@
        &&& forall|e: int| 0 <= e < sites.len() ==> (#[trigger] sites[e]).blocks@.no_duplicates()
        &&& forall|e: int|
            0 <= e < sites.len() ==> defined_as(cfg, (#[trigger] sites[e]).name@, sites[e].ty)
        &&& forall|e: int|
            0 <= e < sites.len() ==> typed_first(cfg, (#[trigger] sites[e]).name@, sites[e].ty)
        &&& forall|e: int, k: BasicBlockIdx|
            0 <= e < sites.len() ==> (#[trigger] sites[e].blocks@.contains(k) <==> cfg.has(k)
                && defines_in(cfg, k, sites[e].name@))
        &&& forall|n: u64, i: int, d: Seq<char>| #[trigger]
            defines(cfg, n, i, d) ==> exists|e: int|
                0 <= e < sites.len() && (#[trigger] sites[e]).name@ == d
        &&& by_name(sites)
    }
}

/// Whether the variables of `sites` stand in the order of the dictionary.
pub open spec fn by_name(sites: Seq<DefinitionSite>) -> bool {
    forall|a: int, b: int|
        0 <= a < b < sites.len() ==> crate::lvn::lex_less(
            (#[trigger] sites[a]).name@,
            (#[trigger] sites[b]).name@,
        )
}

/// Whether `x` is one of `all` from position `from` on.
pub open spec fn taken_from(all: Seq<DefinitionSite>, from: int, x: DefinitionSite) -> bool {
    exists|w: int| from <= w < all.len() && #[trigger] all[w] == x
}

/// The sites in the order of their variables.
fn sort_sites(sites: Vec<DefinitionSite>) -> (r: Vec<DefinitionSite>)
    requires
        forall|a: int, b: int|
            0 <= a < sites@.len() && 0 <= b < sites@.len() && a != b ==> (#[trigger] sites@[a]).name@
                != (#[trigger] sites@[b]).name@,
    ensures
        by_name(r@),
        r@.len() == sites@.len(),
        forall|e: int| 0 <= e < r@.len() ==> sites@.contains(#[trigger] r@[e]),
        forall|e: int| 0 <= e < sites@.len() ==> r@.contains(#[trigger] sites@[e]),
{
    let ghost all = sites@;
    let mut rest = sites;
    let mut out: Vec<DefinitionSite> = Vec::new();
    while rest.len() > 0
        invariant
            rest@.len() <= all.len(),
            forall|e: int| 0 <= e < rest@.len() ==> #[trigger] rest@[e] == all[e],
            forall|a: int, b: int|
                0 <= a < all.len() && 0 <= b < all.len() && a != b ==> (#[trigger] all[a]).name@ != (
                #[trigger] all[b]).name@,
            by_name(out@),
            out@.len() + rest@.len() == all.len(),
            forall|e: int| 0 <= e < out@.len() ==> taken_from(all, rest@.len() as int, #[trigger] out@[e]),
            forall|w: int| rest@.len() <= w < all.len() ==> out@.contains(#[trigger] all[w]),
        decreases rest@.len(),
    {
        let ghost k = rest@.len() - 1;
        let ghost before = out@;
        let x = rest.pop().unwrap();
        assert(x == all[k]);
        let mut p: usize = 0;
        while p < out.len() && crate::lvn::text_precedes(&out[p].name, &x.name)
            invariant
                p <= out@.len(),
                forall|q: int| 0 <= q < p ==> crate::lvn::lex_less((#[trigger] out@[q]).name@, x.name@),
            decreases out@.len() - p,
        {
            p += 1;
        }
        out.insert(p, x);
        proof {
            before.insert_ensures(p as int, x);
            let after = out@;
            assert forall|a: int, b: int| 0 <= a < b < after.len() implies crate::lvn::lex_less(
                (#[trigger] after[a]).name@,
                (#[trigger] after[b]).name@,
            ) by {
                let pa = if a < p { a } else { a - 1 };
                let pb = if b < p { b } else { b - 1 };
                if a != p {
                    assert(after[a] == before[pa]);
                }
                if b != p {
                    assert(after[b] == before[pb]);
                }
                if a == p {
                    assert(taken_from(all, k + 1, before[p as int]));
                    let w = choose|w: int| k < w < all.len() && #[trigger] all[w] == before[p as int];
                    assert(all[w].name@ != all[k].name@);
                    crate::lvn::lemma_lex_total(x.name@, before[p as int].name@);
                    if pb > p {
                        crate::lvn::lemma_lex_transitive(
                            x.name@,
                            before[p as int].name@,
                            before[pb].name@,
                        );
                    }
                } else if b == p {
                    assert(pa < p);
                } else if a < p && b > p {
                    assert(crate::lvn::lex_less(before[pa].name@, before[pb].name@));
                } else {
                    assert(crate::lvn::lex_less(before[pa].name@, before[pb].name@));
                }
            }
            assert forall|e: int| 0 <= e < after.len() implies taken_from(
                all,
                k,
                #[trigger] after[e],
            ) by {
                if e == p {
                    assert(all[k] == after[e]);
                } else {
                    let pe = if e < p { e } else { e - 1 };
                    assert(after[e] == before[pe]);
                    assert(taken_from(all, k + 1, before[pe]));
                    let w = choose|w: int| k < w < all.len() && #[trigger] all[w] == before[pe];
                    assert(k <= w < all.len() && all[w] == after[e]);
                }
            }
            assert forall|w: int| k <= w < all.len() implies after.contains(#[trigger] all[w]) by {
                if w == k {
                    assert(after[p as int] == all[w]);
                } else {
                    assert(before.contains(all[w]));
                    let e = choose|e: int| 0 <= e < before.len() && before[e] == all[w];
                    let ne = if e < p { e } else { e + 1 };
                    assert(after[ne] == all[w]);
                }
            }
        }
    }
    proof {
        assert forall|e: int| 0 <= e < out@.len() implies all.contains(#[trigger] out@[e]) by {
            assert(taken_from(all, 0, out@[e]));
            let w = choose|w: int| 0 <= w < all.len() && #[trigger] all[w] == out@[e];
        }
    }
    out
}

/// The position of the site of `name`, if it has one.
fn find_site(sites: &Vec<DefinitionSite>, name: &String) -> (r: Option<usize>)
    ensures
        match r {
            Some(e) => e < sites@.len() && sites@[e as int].name@ == name@,
            None => forall|e: int| 0 <= e < sites@.len() ==> (#[trigger] sites@[e]).name@ != name@,
        },
{
    let mut e: usize = 0;
    while e < sites.len()
        invariant
            e <= sites@.len(),
            forall|w: int| 0 <= w < e ==> (#[trigger] sites@[w]).name@ != name@,
        decreases sites@.len() - e,
    {
        if sites[e].name == *name {
            return Some(e);
        }
        e += 1;
    }
    None
}

/// Records that the instruction at position `i` of the block `k` defines
/// `name` at type `ty`.
fn record_site(
    sites: &mut Vec<DefinitionSite>,
    name: &String,
    ty: &Type,
    k: BasicBlockIdx,
    Ghost(cfg): Ghost<FunctionCfg>,
    Ghost(keys): Ghost<Seq<BasicBlockIdx>>,
    Ghost(outer): Ghost<int>,
    Ghost(inner): Ghost<int>,
)
    requires
        0 <= outer < keys.len(),
        keys.no_duplicates(),
        keys[outer] == k,
        defines(cfg, k.0, inner, name@),
        cfg.blocks()[k.0].code()[inner].dest_type() == Some(*ty),
        sites_upto(cfg, keys, outer, inner, old(sites)@),
    ensures
        sites_upto(cfg, keys, outer, inner + 1, final(sites)@),
{
    let ghost before = sites@;
    match find_site(sites, name) {
        Some(e) => {
            let known = list_contains(sites[e].blocks.as_slice(), k);
            if !known {
                let mut entry = DefinitionSite {
                    name: sites[e].name.clone(),
                    ty: sites[e].ty.dup(),
                    blocks: crate::dominators::dup_blocks(&sites[e].blocks),
                };
                proof {
                    lemma_push_fresh(entry.blocks@, k);
                }
                entry.blocks.push(k);
                sites[e] = entry;
            }
            proof {
                let after = sites@;
                assert forall|w: int, x: BasicBlockIdx| 0 <= w < after.len() implies (
                #[trigger] after[w].blocks@.contains(x) <==> exists|j: int, i: int|
                    #![trigger defines(cfg, keys[j].0, i, after[w].name@)]
                    covered(keys, outer, inner + 1, j, i) && keys[j] == x && defines(
                        cfg,
                        keys[j].0,
                        i,
                        after[w].name@,
                    )) by {
                    let v = after[w].name@;
                    assert(v == before[w].name@);
                    lemma_covers_more(cfg, keys, outer, inner, x, v);
                    if w == e as int {
                        assert(defines(cfg, keys[outer].0, inner, v));
                        assert(covered(keys, outer, inner + 1, outer, inner));
                        if !known {
                            lemma_push_contains(before[w].blocks@, k);
                        }
                    } else {
                        assert(v != name@);
                    }
                }
                assert forall|j: int, i: int, d: Seq<char>|
                    covered(keys, outer, inner + 1, j, i) && #[trigger] defines(
                        cfg,
                        keys[j].0,
                        i,
                        d,
                    ) implies exists|w: int| 0 <= w < after.len() && (#[trigger] after[w]).name@
                    == d by {
                    if j == outer && i == inner {
                        assert(after[e as int].name@ == d);
                    } else {
                        assert(covered(keys, outer, inner, j, i));
                        let w = choose|w: int| 0 <= w < before.len() && (#[trigger] before[w]).name@
                            == d;
                        assert(after[w].name@ == d);
                    }
                }
                assert forall|w: int| 0 <= w < after.len() implies defined_as(
                    cfg,
                    (#[trigger] after[w]).name@,
                    after[w].ty,
                ) by {
                    assert(defined_as(cfg, before[w].name@, before[w].ty));
                }
                assert forall|w: int| 0 <= w < after.len() implies typed_first_upto(
                    cfg,
                    keys,
                    outer,
                    inner + 1,
                    (#[trigger] after[w]).name@,
                    after[w].ty,
                ) by {
                    assert(typed_first_upto(cfg, keys, outer, inner, before[w].name@, before[w].ty));
                    lemma_first_kept(
                        cfg,
                        keys,
                        outer,
                        inner,
                        outer,
                        inner + 1,
                        before[w].name@,
                        before[w].ty,
                    );
                }
            }
        },
        None => {
            let mut blocks: Vec<BasicBlockIdx> = Vec::new();
            blocks.push(k);
            sites.push(DefinitionSite { name: name.clone(), ty: ty.dup(), blocks });
            proof {
                let after = sites@;
                let last = before.len() as int;
                assert forall|w: int, x: BasicBlockIdx| 0 <= w < after.len() implies (
                #[trigger] after[w].blocks@.contains(x) <==> exists|j: int, i: int|
                    #![trigger defines(cfg, keys[j].0, i, after[w].name@)]
                    covered(keys, outer, inner + 1, j, i) && keys[j] == x && defines(
                        cfg,
                        keys[j].0,
                        i,
                        after[w].name@,
                    )) by {
                    let v = after[w].name@;
                    lemma_covers_more(cfg, keys, outer, inner, x, v);
                    if w == last {
                        assert(after[w].blocks@ =~= seq![k]);
                        assert(after[w].blocks@[0] == k);
                        assert(defines(cfg, keys[outer].0, inner, v));
                        assert(covered(keys, outer, inner + 1, outer, inner));
                        if exists|j: int, i: int|
                            #![trigger defines(cfg, keys[j].0, i, v)]
                            covered(keys, outer, inner, j, i) && defines(cfg, keys[j].0, i, v) {
                            let (j, i) = choose|j: int, i: int|
                                #![trigger defines(cfg, keys[j].0, i, v)]
                                covered(keys, outer, inner, j, i) && defines(cfg, keys[j].0, i, v);
                            let w2 = choose|w2: int|
                                0 <= w2 < before.len() && (#[trigger] before[w2]).name@ == v;
                        }
                    } else {
                        assert(after[w] == before[w]);
                        assert(v != name@);
                    }
                }
                assert forall|j: int, i: int, d: Seq<char>|
                    covered(keys, outer, inner + 1, j, i) && #[trigger] defines(
                        cfg,
                        keys[j].0,
                        i,
                        d,
                    ) implies exists|w: int| 0 <= w < after.len() && (#[trigger] after[w]).name@
                    == d by {
                    if j == outer && i == inner {
                        assert(after[last].name@ == d);
                    } else {
                        assert(covered(keys, outer, inner, j, i));
                        let w = choose|w: int| 0 <= w < before.len() && (#[trigger] before[w]).name@
                            == d;
                        assert(after[w].name@ == d);
                    }
                }
                assert forall|w: int| 0 <= w < after.len() implies defined_as(
                    cfg,
                    (#[trigger] after[w]).name@,
                    after[w].ty,
                ) by {
                    if w < last {
                        assert(after[w] == before[w]);
                    }
                }
                assert forall|w: int| 0 <= w < after.len() implies typed_first_upto(
                    cfg,
                    keys,
                    outer,
                    inner + 1,
                    (#[trigger] after[w]).name@,
                    after[w].ty,
                ) by {
                    if w < last {
                        assert(after[w] == before[w]);
                        assert(typed_first_upto(
                            cfg,
                            keys,
                            outer,
                            inner,
                            before[w].name@,
                            before[w].ty,
                        ));
                        lemma_first_kept(
                            cfg,
                            keys,
                            outer,
                            inner,
                            outer,
                            inner + 1,
                            before[w].name@,
                            before[w].ty,
                        );
                    } else {
                        let v = name@;
                        assert(covered(keys, outer, inner + 1, outer, inner));
                        assert forall|j2: int, i2: int|
                            covered(keys, outer, inner + 1, j2, i2) && #[trigger] defines(
                                cfg,
                                keys[j2].0,
                                i2,
                                v,
                            ) implies outer < j2 || (outer == j2 && inner <= i2) by {
                            if covered(keys, outer, inner, j2, i2) {
                                let w2 = choose|w2: int|
                                    0 <= w2 < before.len() && (#[trigger] before[w2]).name@ == v;
                            }
                        }
                        assert(covered(keys, outer, inner + 1, outer, inner) && defines(
                            cfg,
                            keys[outer].0,
                            inner,
                            v,
                        ));
                    }
                }
                assert forall|a: int, b: int|
                    0 <= a < after.len() && 0 <= b < after.len() && a != b implies (
                #[trigger] after[a]).name@ != (#[trigger] after[b]).name@ by {
                    if a < last {
                        assert(after[a] == before[a]);
                    }
                    if b < last {
                        assert(after[b] == before[b]);
                    }
                }
                assert forall|w: int| 0 <= w < after.len() implies (
                #[trigger] after[w]).blocks@.no_duplicates() by {
                    if w < last {
                        assert(after[w] == before[w]);
                    }
                }
            }
        },
    }
}

/// What is covered after one more instruction: what was covered before,
/// and that instruction.
pub proof fn lemma_covers_more(
    cfg: FunctionCfg,
    keys: Seq<BasicBlockIdx>,
    outer: int,
    inner: int,
    x: BasicBlockIdx,
    v: Seq<char>,
)
    requires
        0 <= outer < keys.len(),
    ensures
        (exists|j: int, i: int|
            #![trigger defines(cfg, keys[j].0, i, v)]
            covered(keys, outer, inner + 1, j, i) && keys[j] == x && defines(cfg, keys[j].0, i, v))
            <==> (exists|j: int, i: int|
            #![trigger defines(cfg, keys[j].0, i, v)]
            covered(keys, outer, inner, j, i) && keys[j] == x && defines(cfg, keys[j].0, i, v)) || (
        keys[outer] == x && defines(cfg, keys[outer].0, inner, v)),
{
    if exists|j: int, i: int|
        #![trigger defines(cfg, keys[j].0, i, v)]
        covered(keys, outer, inner + 1, j, i) && keys[j] == x && defines(cfg, keys[j].0, i, v) {
        let (j, i) = choose|j: int, i: int|
            #![trigger defines(cfg, keys[j].0, i, v)]
            covered(keys, outer, inner + 1, j, i) && keys[j] == x && defines(cfg, keys[j].0, i, v);
        if !(j == outer && i == inner) {
            assert(covered(keys, outer, inner, j, i));
        }
    }
    if exists|j: int, i: int|
        #![trigger defines(cfg, keys[j].0, i, v)]
        covered(keys, outer, inner, j, i) && keys[j] == x && defines(cfg, keys[j].0, i, v) {
        let (j, i) = choose|j: int, i: int|
            #![trigger defines(cfg, keys[j].0, i, v)]
            covered(keys, outer, inner, j, i) && keys[j] == x && defines(cfg, keys[j].0, i, v);
        assert(covered(keys, outer, inner + 1, j, i));
    }
    if keys[outer] == x && defines(cfg, keys[outer].0, inner, v) {
        assert(covered(keys, outer, inner + 1, outer, inner));
    }
}

/// The basic blocks that each variable is assigned in, along with a type
/// that an assignment gives it.
pub fn compute_definition_sites(cfg: &FunctionCfg) -> (r: DefinitionSites)
    requires
        cfg.wf(),
    ensures
        r.of(*cfg),
{
    let keys = cfg.keys();
    let mut sites: Vec<DefinitionSite> = Vec::new();
    let mut j: usize = 0;
    while j < keys.len()
        invariant
            j <= keys@.len(),
            cfg.wf(),
            keys@.no_duplicates(),
            forall|k: BasicBlockIdx| #[trigger] keys@.contains(k) <==> cfg.has(k),
            forall|a: int, b: int|
                0 <= a < b < keys@.len() ==> crate::store::slot_of(#[trigger] keys@[a].0)
                    < crate::store::slot_of(#[trigger] keys@[b].0),
            sites_upto(*cfg, keys@, j as int, 0, sites@),
        decreases keys@.len() - j,
    {
        let k = keys[j];
        assert(keys@.contains(k));
        match cfg.block(k) {
            Some(block) => {
                let ghost code = block.code();
                let mut i: usize = 0;
                while i < block.instructions.len()
                    invariant
                        i <= block.instructions@.len(),
                        j < keys@.len(),
                        k == keys@[j as int],
                        cfg.has(k),
                        *block == cfg.blocks()[k.0],
                        code == block.code(),
                        keys@.no_duplicates(),
                        sites_upto(*cfg, keys@, j as int, i as int, sites@),
                    decreases block.instructions@.len() - i,
                {
                    assert(code[i as int] == block.instructions@[i as int]@);
                    match &block.instructions[i] {
                        Instruction::Constant { dest, const_type, .. } => {
                            record_site(
                                &mut sites,
                                dest,
                                const_type,
                                k,
                                Ghost(*cfg),
                                Ghost(keys@),
                                Ghost(j as int),
                                Ghost(i as int),
                            );
                        },
                        Instruction::Value { dest, op_type, .. } => {
                            record_site(
                                &mut sites,
                                dest,
                                op_type,
                                k,
                                Ghost(*cfg),
                                Ghost(keys@),
                                Ghost(j as int),
                                Ghost(i as int),
                            );
                        },
                        Instruction::Effect { .. } => {
                            proof {
                                lemma_sites_skip(*cfg, keys@, j as int, i as int, sites@);
                            }
                        },
                    }
                    i += 1;
                }
                proof {
                    lemma_sites_next(*cfg, keys@, j as int, sites@);
                }
            },
            None => {},
        }
        j += 1;
    }
    let ghost found = sites@;
    proof {
        assert(sites_upto(*cfg, keys@, keys@.len() as int, 0, found));
    }
    let r = DefinitionSites(sort_sites(sites));
    proof {
        let all = found;
        let end = keys@.len() as int;
        assert forall|e: int, k: BasicBlockIdx| 0 <= e < all.len() implies (
        #[trigger] all[e].blocks@.contains(k) <==> cfg.has(k) && defines_in(
            *cfg,
            k,
            all[e].name@,
        )) by {
            let v = all[e].name@;
            if all[e].blocks@.contains(k) {
                let (w, i) = choose|w: int, i: int|
                    #![trigger defines(*cfg, keys@[w].0, i, v)]
                    covered(keys@, end, 0, w, i) && keys@[w] == k && defines(
                        *cfg,
                        keys@[w].0,
                        i,
                        v,
                    );
                assert(defines(*cfg, k.0, i, v));
            }
            if cfg.has(k) && defines_in(*cfg, k, v) {
                let i = choose|i: int| #[trigger] defines(*cfg, k.0, i, v);
                assert(keys@.contains(k));
                let w = choose|w: int| 0 <= w < keys@.len() && keys@[w] == k;
                assert(covered(keys@, end, 0, w, i) && keys@[w] == k && defines(
                    *cfg,
                    keys@[w].0,
                    i,
                    v,
                ));
            }
        }
        assert forall|n: u64, i: int, d: Seq<char>| #[trigger] defines(*cfg, n, i, d) implies exists|
            e: int,
        | 0 <= e < all.len() && (#[trigger] all[e]).name@ == d by {
            assert(keys@.contains(BasicBlockIdx(n)));
            let w = choose|w: int| 0 <= w < keys@.len() && keys@[w] == BasicBlockIdx(n);
            assert(covered(keys@, end, 0, w, i) && defines(*cfg, keys@[w].0, i, d));
        }
        assert forall|e: int| 0 <= e < all.len() implies typed_first(
            *cfg,
            (#[trigger] all[e]).name@,
            all[e].ty,
        ) by {
            lemma_typed_first(*cfg, keys@, all[e].name@, all[e].ty);
        }
        let sorted = r.0@;
        assert forall|e: int| 0 <= e < sorted.len() implies {
            &&& (#[trigger] sorted[e]).blocks@.no_duplicates()
            &&& defined_as(*cfg, sorted[e].name@, sorted[e].ty)
            &&& typed_first(*cfg, sorted[e].name@, sorted[e].ty)
            &&& forall|k: BasicBlockIdx| #[trigger]
                sorted[e].blocks@.contains(k) <==> cfg.has(k) && defines_in(*cfg, k, sorted[e].name@)
        } by {
            assert(all.contains(sorted[e]));
            let w = choose|w: int| 0 <= w < all.len() && all[w] == sorted[e];
            assert(all[w].blocks@.no_duplicates());
            assert(defined_as(*cfg, all[w].name@, all[w].ty));
            assert(typed_first(*cfg, all[w].name@, all[w].ty));
            assert forall|k: BasicBlockIdx| #[trigger]
                sorted[e].blocks@.contains(k) <==> cfg.has(k) && defines_in(
                    *cfg,
                    k,
                    sorted[e].name@,
                ) by {
                assert(all[w].blocks@.contains(k) <==> cfg.has(k) && defines_in(
                    *cfg,
                    k,
                    all[w].name@,
                ));
            }
        }
        assert forall|a: int, b: int|
            0 <= a < sorted.len() && 0 <= b < sorted.len() && a != b implies (#[trigger] sorted[a]).name@
            != (#[trigger] sorted[b]).name@ by {
            crate::lvn::lemma_lex_irreflexive(sorted[a].name@);
            if a < b {
                assert(crate::lvn::lex_less(sorted[a].name@, sorted[b].name@));
            } else {
                assert(crate::lvn::lex_less(sorted[b].name@, sorted[a].name@));
            }
        }
        assert forall|n: u64, i: int, d: Seq<char>| #[trigger] defines(*cfg, n, i, d) implies exists|
            e: int,
        | 0 <= e < sorted.len() && (#[trigger] sorted[e]).name@ == d by {
            let w = choose|w: int| 0 <= w < all.len() && (#[trigger] all[w]).name@ == d;
            assert(sorted.contains(all[w]));
            let e = choose|e: int| 0 <= e < sorted.len() && sorted[e] == all[w];
            assert(sorted[e].name@ == d);
        }
    }
    r
}

/// An instruction that defines nothing adds no definition site.
pub proof fn lemma_sites_skip(
    cfg: FunctionCfg,
    keys: Seq<BasicBlockIdx>,
    outer: int,
    inner: int,
    sites: Seq<DefinitionSite>,
)
    requires
        0 <= outer < keys.len(),
        cfg.has(keys[outer]),
        0 <= inner < cfg.blocks()[keys[outer].0].code().len(),
        cfg.blocks()[keys[outer].0].code()[inner].kill() is None,
        sites_upto(cfg, keys, outer, inner, sites),
    ensures
        sites_upto(cfg, keys, outer, inner + 1, sites),
{
    assert forall|e: int, k: BasicBlockIdx| 0 <= e < sites.len() implies (
    #[trigger] sites[e].blocks@.contains(k) <==> exists|j: int, i: int|
        #![trigger defines(cfg, keys[j].0, i, sites[e].name@)]
        covered(keys, outer, inner + 1, j, i) && keys[j] == k && defines(
            cfg,
            keys[j].0,
            i,
            sites[e].name@,
        )) by {
        lemma_covers_more(cfg, keys, outer, inner, k, sites[e].name@);
    }
    assert forall|j: int, i: int, d: Seq<char>|
        covered(keys, outer, inner + 1, j, i) && #[trigger] defines(
            cfg,
            keys[j].0,
            i,
            d,
        ) implies exists|e: int| 0 <= e < sites.len() && (#[trigger] sites[e]).name@ == d by {
        assert(covered(keys, outer, inner, j, i));
    }
    assert forall|e: int| 0 <= e < sites.len() implies typed_first_upto(
        cfg,
        keys,
        outer,
        inner + 1,
        (#[trigger] sites[e]).name@,
        sites[e].ty,
    ) by {
        lemma_first_kept(cfg, keys, outer, inner, outer, inner + 1, sites[e].name@, sites[e].ty);
    }
}

/// A block scanned to its end: the scan stands at the start of the next.
pub proof fn lemma_sites_next(
    cfg: FunctionCfg,
    keys: Seq<BasicBlockIdx>,
    outer: int,
    sites: Seq<DefinitionSite>,
)
    requires
        0 <= outer < keys.len(),
        cfg.has(keys[outer]),
        sites_upto(cfg, keys, outer, cfg.blocks()[keys[outer].0].code().len() as int, sites),
    ensures
        sites_upto(cfg, keys, outer + 1, 0, sites),
{
    let len = cfg.blocks()[keys[outer].0].code().len() as int;
    assert forall|e: int, k: BasicBlockIdx| 0 <= e < sites.len() implies (
    #[trigger] sites[e].blocks@.contains(k) <==> exists|j: int, i: int|
        #![trigger defines(cfg, keys[j].0, i, sites[e].name@)]
        covered(keys, outer + 1, 0, j, i) && keys[j] == k && defines(
            cfg,
            keys[j].0,
            i,
            sites[e].name@,
        )) by {
        let v = sites[e].name@;
        if sites[e].blocks@.contains(k) {
            let (j, i) = choose|j: int, i: int|
                #![trigger defines(cfg, keys[j].0, i, v)]
                covered(keys, outer, len, j, i) && keys[j] == k && defines(cfg, keys[j].0, i, v);
            assert(covered(keys, outer + 1, 0, j, i));
        }
        if exists|j: int, i: int|
            #![trigger defines(cfg, keys[j].0, i, v)]
            covered(keys, outer + 1, 0, j, i) && keys[j] == k && defines(cfg, keys[j].0, i, v) {
            let (j, i) = choose|j: int, i: int|
                #![trigger defines(cfg, keys[j].0, i, v)]
                covered(keys, outer + 1, 0, j, i) && keys[j] == k && defines(cfg, keys[j].0, i, v);
            assert(covered(keys, outer, len, j, i));
        }
    }
    assert forall|j: int, i: int, d: Seq<char>|
        covered(keys, outer + 1, 0, j, i) && #[trigger] defines(cfg, keys[j].0, i, d) implies exists|
        e: int,
    | 0 <= e < sites.len() && (#[trigger] sites[e]).name@ == d by {
        assert(covered(keys, outer, len, j, i));
    }
    assert forall|e: int| 0 <= e < sites.len() implies typed_first_upto(
        cfg,
        keys,
        outer + 1,
        0,
        (#[trigger] sites[e]).name@,
        sites[e].ty,
    ) by {
        lemma_first_kept(cfg, keys, outer, len, outer + 1, 0, sites[e].name@, sites[e].ty);
    }
}

/// A variable with its type and the blocks that need a `get` for it.
#[derive(Debug)]
pub struct PhiSite {
    pub name: String,
    pub ty: Type,
    pub blocks: Vec<BasicBlockIdx>,
}

/// For each variable, its type and the basic blocks that need a `get` for it.
#[derive(Debug)]
pub struct PhiInsertionPoints(pub Vec<PhiSite>);

/// Whether `points` holds the dominance frontier of every block of
/// `sites` and of `points` itself.
pub open spec fn frontier_closed(
    frontiers: Map<u64, Set<u64>>,
    sites: Set<u64>,
    points: Set<u64>,
) -> bool {
    forall|b: u64, f: u64|
        (sites.contains(b) || points.contains(b)) && frontiers.contains_key(b)
            && #[trigger] frontiers[b].contains(f) ==> points.contains(f)
}

/// Whether `points` is the iterated dominance frontier of `sites`: the
/// least set that holds the frontier of every block of `sites` and of itself.
pub open spec fn iterated_frontier(
    frontiers: Map<u64, Set<u64>>,
    sites: Set<u64>,
    points: Set<u64>,
) -> bool {
    &&& frontier_closed(frontiers, sites, points)
    &&& forall|other: Set<u64>| #[trigger]
        frontier_closed(frontiers, sites, other) ==> points.subset_of(other)
}

impl PhiInsertionPoints {
    /// Whether these are the insertion points for `sites`: the same
    /// variables with the same types, each with the iterated dominance
    /// frontier of its definition sites, every block once.
    pub open spec fn of(&self, sites: DefinitionSites, frontiers: Map<u64, Set<u64>>) -> bool {
        &&& self.0@.len() == sites.0@.len()
        &&& forall|e: int|
            0 <= e < self.0@.len() ==> {
                &&& (#[trigger] self.0@[e]).name@ == sites.0@[e].name@
                &&& self.0@[e].ty == sites.0@[e].ty
                &&& self.0@[e].blocks@.no_duplicates()
                &&& iterated_frontier(
                    frontiers,
                    numbers(sites.0@[e].blocks@),
                    numbers(self.0@[e].blocks@),
                )
            }
    }
}

/// Whether every block of `sites` and of `points` has its frontier in
/// `points`, but for the blocks that wait.
pub open spec fn frontier_pending(
    frontiers: Map<u64, Set<u64>>,
    sites: Set<u64>,
    points: Set<u64>,
    waiting: Seq<BasicBlockIdx>,
) -> bool {
    forall|b: u64, f: u64|
        (sites.contains(b) || points.contains(b)) && !waiting.contains(BasicBlockIdx(b))
            && frontiers.contains_key(b) && #[trigger] frontiers[b].contains(f)
            ==> points.contains(f)
}

/// The iterated dominance frontier of `sites`.
fn iterate_frontier(sites: &Vec<BasicBlockIdx>, frontiers: &BlockSets) -> (points: Vec<BasicBlockIdx>)
    requires
        frontiers.wf(),
    ensures
        points@.no_duplicates(),
        iterated_frontier(frontiers@, numbers(sites@), numbers(points@)),
{
    let ghost start = numbers(sites@);
    let ghost all = numbers(frontiers.blocks@);
    let mut points: Vec<BasicBlockIdx> = Vec::new();
    let mut waiting = crate::dominators::dup_blocks(sites);
    proof {
        lemma_numbers_finite(frontiers.blocks@);
        assert(numbers(points@) =~= Set::<u64>::empty());
        lemma_unique_within(points@, all);
    }
    while waiting.len() > 0
        invariant
            frontiers.wf(),
            start == numbers(sites@),
            all == numbers(frontiers.blocks@),
            all.finite(),
            points@.no_duplicates(),
            numbers(points@).subset_of(all),
            points@.len() <= all.len(),
            frontier_pending(frontiers@, start, numbers(points@), waiting@),
            forall|other: Set<u64>| #[trigger]
                frontier_closed(frontiers@, start, other) ==> numbers(points@).subset_of(other),
            forall|w: int|
                0 <= w < waiting@.len() ==> start.contains((#[trigger] waiting@[w]).0) || numbers(
                    points@,
                ).contains(waiting@[w].0),
        decreases all.len() - points@.len(), waiting@.len(),
    {
        let ghost before_waiting = waiting@;
        let b = waiting.pop().unwrap();
        let found = frontiers.members(b);
        let ghost popped = waiting@;
        let ghost before_points = points@;
        let mut t: usize = 0;
        while t < found.len()
            invariant
                t <= found@.len(),
                frontiers.wf(),
                all == numbers(frontiers.blocks@),
                all.finite(),
                forall|k: BasicBlockIdx| #[trigger] found@.contains(k) <==> frontiers.holds(b, k),
                popped.len() <= waiting@.len(),
                forall|w: int| 0 <= w < popped.len() ==> waiting@[w] == popped[w],
                forall|w: int|
                    popped.len() <= w < waiting@.len() ==> points@.contains(#[trigger] waiting@[w]),
                before_points.len() <= points@.len(),
                forall|w: int| 0 <= w < before_points.len() ==> points@[w] == before_points[w],
                forall|w: int|
                    before_points.len() <= w < points@.len() ==> waiting@.contains(
                        #[trigger] points@[w],
                    ) && frontiers.holds(b, points@[w]),
                points@.len() - before_points.len() == waiting@.len() - popped.len(),
                points@.no_duplicates(),
                numbers(points@).subset_of(all),
                points@.len() <= all.len(),
                forall|w: int| 0 <= w < t ==> points@.contains(#[trigger] found@[w]),
            decreases found@.len() - t,
        {
            let f = found[t];
            assert(found@.contains(f));
            if !list_contains(points.as_slice(), f) {
                let ghost p0 = points@;
                let ghost w0 = waiting@;
                proof {
                    lemma_push_fresh(p0, f);
                    lemma_push_contains(w0, f);
                    assert(frontiers.holds(b, f));
                    assert(frontiers.sets@.contains_key(b.0));
                    assert(all.contains(f.0));
                }
                points.push(f);
                waiting.push(f);
                proof {
                    assert(numbers(points@).subset_of(all)) by {
                        assert forall|n: u64| numbers(points@).contains(n) implies all.contains(n) by {
                            if n != f.0 {
                                assert(p0.contains(BasicBlockIdx(n)));
                                assert(numbers(p0).contains(n));
                            }
                        }
                    }
                    lemma_unique_within(points@, all);
                    assert forall|w: int|
                        before_points.len() <= w < points@.len() implies waiting@.contains(
                        #[trigger] points@[w],
                    ) && frontiers.holds(b, points@[w]) by {
                        if w < p0.len() {
                            assert(w0.contains(p0[w]));
                        }
                    }
                    assert forall|w: int| 0 <= w < t + 1 implies points@.contains(
                        #[trigger] found@[w],
                    ) by {
                        if w < t {
                            assert(p0.contains(found@[w]));
                        }
                    }
                    assert forall|w: int| popped.len() <= w < waiting@.len() implies points@.contains(
                        #[trigger] waiting@[w],
                    ) by {
                        if w < w0.len() {
                            assert(p0.contains(w0[w]));
                        }
                    }
                }
            }
            t += 1;
        }
        proof {
            let pts = numbers(points@);
            let old_pts = numbers(before_points);
            assert(old_pts.subset_of(pts)) by {
                assert forall|n: u64| old_pts.contains(n) implies pts.contains(n) by {
                    let w = choose|w: int|
                        0 <= w < before_points.len() && before_points[w] == BasicBlockIdx(n);
                    assert(points@[w] == BasicBlockIdx(n));
                }
            }
            assert(before_waiting =~= popped.push(b));
            assert(start.contains(b.0) || old_pts.contains(b.0)) by {
                assert(before_waiting[before_waiting.len() - 1] == b);
            }
            assert forall|x: u64, f: u64|
                (start.contains(x) || pts.contains(x)) && !waiting@.contains(BasicBlockIdx(x))
                    && frontiers@.contains_key(x) && #[trigger] frontiers@[x].contains(
                    f,
                ) implies pts.contains(f) by {
                if x == b.0 {
                    assert(frontiers.holds(b, BasicBlockIdx(f)));
                    assert(found@.contains(BasicBlockIdx(f)));
                    let w = choose|w: int| 0 <= w < found@.len() && found@[w] == BasicBlockIdx(f);
                    assert(points@.contains(found@[w]));
                } else {
                    if !popped.contains(BasicBlockIdx(x)) {
                        lemma_push_contains(popped, b);
                        assert(!before_waiting.contains(BasicBlockIdx(x)));
                        if !start.contains(x) && !old_pts.contains(x) {
                            let w = choose|w: int|
                                0 <= w < points@.len() && points@[w] == BasicBlockIdx(x);
                            if w < before_points.len() {
                                assert(before_points[w] == BasicBlockIdx(x));
                                assert(before_points.contains(BasicBlockIdx(x)));
                            }
                            assert(waiting@.contains(points@[w]));
                        }
                        assert(old_pts.contains(f));
                    } else {
                        let w = choose|w: int| 0 <= w < popped.len() && popped[w] == BasicBlockIdx(x);
                        assert(waiting@[w] == BasicBlockIdx(x));
                    }
                }
            }
            assert forall|other: Set<u64>| #[trigger]
                frontier_closed(frontiers@, start, other) implies pts.subset_of(other) by {
                assert(old_pts.subset_of(other));
                assert forall|n: u64| pts.contains(n) implies other.contains(n) by {
                    let w = choose|w: int| 0 <= w < points@.len() && points@[w] == BasicBlockIdx(n);
                    if w < before_points.len() {
                        assert(before_points[w] == BasicBlockIdx(n));
                        assert(old_pts.contains(n));
                    } else {
                        assert(frontiers.holds(b, points@[w]));
                        assert(frontiers@[b.0].contains(n));
                    }
                }
            }
            assert forall|w: int| 0 <= w < waiting@.len() implies start.contains(
                (#[trigger] waiting@[w]).0,
            ) || pts.contains(waiting@[w].0) by {
                if w < popped.len() {
                    assert(waiting@[w] == before_waiting[w]);
                    if old_pts.contains(before_waiting[w].0) {
                    }
                } else {
                    assert(points@.contains(waiting@[w]));
                    assert(waiting@[w] == BasicBlockIdx(waiting@[w].0));
                }
            }
        }
    }
    proof {
        assert forall|x: u64, f: u64|
            (start.contains(x) || numbers(points@).contains(x)) && frontiers@.contains_key(x)
                && #[trigger] frontiers@[x].contains(f) implies numbers(points@).contains(f) by {
            assert(!waiting@.contains(BasicBlockIdx(x)));
        }
    }
    points
}

/// A list without repetitions of members of a finite set is no longer
/// than the set is large.
pub proof fn lemma_unique_within(list: Seq<BasicBlockIdx>, all: Set<u64>)
    requires
        list.no_duplicates(),
        numbers(list).subset_of(all),
        all.finite(),
    ensures
        list.len() <= all.len(),
{
    let flat = Seq::new(list.len(), |i: int| list[i].0);
    assert(flat.no_duplicates()) by {
        assert forall|i: int, j: int|
            0 <= i < flat.len() && 0 <= j < flat.len() && i != j implies flat[i] != flat[j] by {
            assert(list[i] != list[j]);
        }
    }
    flat.unique_seq_to_set();
    assert(flat.to_set().subset_of(all)) by {
        assert forall|n: u64| flat.to_set().contains(n) implies all.contains(n) by {
            let i = choose|i: int| 0 <= i < flat.len() && flat[i] == n;
            assert(list[i] == BasicBlockIdx(n));
            assert(list.contains(BasicBlockIdx(n)));
            assert(numbers(list).contains(n));
        }
    }
    vstd::set_lib::lemma_len_subset(flat.to_set(), all);
}

/// For each variable, its type and the basic blocks that need a `get` for
/// it: the iterated dominance frontier of the blocks that define it.
pub fn determine_phi_insertion_points(definition_sites: &DefinitionSites, dominance_frontiers: &BlockSets) -> (r:
    PhiInsertionPoints)
    requires
        dominance_frontiers.wf(),
    ensures
        r.of(*definition_sites, dominance_frontiers@),
{
    let mut out: Vec<PhiSite> = Vec::new();
    let mut e: usize = 0;
    while e < definition_sites.0.len()
        invariant
            e <= definition_sites.0@.len(),
            dominance_frontiers.wf(),
            out@.len() == e,
            forall|w: int|
                0 <= w < e ==> {
                    &&& (#[trigger] out@[w]).name@ == definition_sites.0@[w].name@
                    &&& out@[w].ty == definition_sites.0@[w].ty
                    &&& out@[w].blocks@.no_duplicates()
                    &&& iterated_frontier(
                        dominance_frontiers@,
                        numbers(definition_sites.0@[w].blocks@),
                        numbers(out@[w].blocks@),
                    )
                },
        decreases definition_sites.0@.len() - e,
    {
        let site = &definition_sites.0[e];
        let blocks = iterate_frontier(&site.blocks, dominance_frontiers);
        out.push(PhiSite { name: site.name.clone(), ty: site.ty.dup(), blocks });
        e += 1;
    }
    PhiInsertionPoints(out)
}

/// The `get` of `name` at type `ty`.
pub open spec fn get_of(name: Seq<char>, ty: Type) -> InstructionView {
    InstructionView::Value {
        dest: name,
        op: ValueOp::Get,
        args: Seq::empty(),
        funcs: Seq::empty(),
        labels: Seq::empty(),
        op_type: ty,
        pos: None,
    }
}

/// The `get`s that the block `b` needs for the first `upto` variables of
/// `points`, in the order of the variables.
pub open spec fn phis_for(points: Seq<PhiSite>, b: BasicBlockIdx, upto: int) -> Seq<InstructionView>
    decreases upto,
{
    if upto <= 0 {
        Seq::empty()
    } else if points[upto - 1].blocks@.contains(b) {
        phis_for(points, b, upto - 1).push(get_of(points[upto - 1].name@, points[upto - 1].ty))
    } else {
        phis_for(points, b, upto - 1)
    }
}

/// No `get` is a terminator.
pub proof fn lemma_phis_plain(points: Seq<PhiSite>, b: BasicBlockIdx, upto: int)
    requires
        0 <= upto <= points.len(),
    ensures
        forall|i: int|
            0 <= i < phis_for(points, b, upto).len() ==> !is_terminator(
                #[trigger] phis_for(points, b, upto)[i],
            ),
    decreases upto,
{
    if upto > 0 {
        lemma_phis_plain(points, b, upto - 1);
        let rest = phis_for(points, b, upto - 1);
        let whole = phis_for(points, b, upto);
        assert forall|i: int| 0 <= i < whole.len() implies !is_terminator(#[trigger] whole[i]) by {
            if i < rest.len() {
                assert(whole[i] == rest[i]);
            }
        }
    }
}

/// The `get`s that the block `k` needs, in the order of the variables.
fn phis_of(points: &PhiInsertionPoints, k: BasicBlockIdx) -> (r: Vec<Instruction>)
    ensures
        crate::ir::views(r@) == phis_for(points.0@, k, points.0@.len() as int),
{
    let mut out: Vec<Instruction> = Vec::new();
    let mut e: usize = 0;
    assert(crate::ir::views(out@) =~= phis_for(points.0@, k, 0));
    while e < points.0.len()
        invariant
            e <= points.0@.len(),
            crate::ir::views(out@) == phis_for(points.0@, k, e as int),
        decreases points.0@.len() - e,
    {
        let site = &points.0[e];
        if list_contains(site.blocks.as_slice(), k) {
            let get = Instruction::Value {
                dest: site.name.clone(),
                op: ValueOp::Get,
                args: Vec::new(),
                funcs: Vec::new(),
                labels: Vec::new(),
                op_type: site.ty.dup(),
                pos: None,
            };
            proof {
                assert(get@->Value_args =~= Seq::<Seq<char>>::empty());
                assert(get@->Value_funcs =~= Seq::<Seq<char>>::empty());
                assert(get@->Value_labels =~= Seq::<Seq<char>>::empty());
                lemma_views_push(out@, get);
            }
            out.push(get);
        }
        e += 1;
    }
    out
}

/// Puts `front` before the instructions of `block`.
pub fn prepend(block: &mut BasicBlock, front: Vec<Instruction>)
    requires
        forall|i: int| 0 <= i < front@.len() ==> !is_terminator(#[trigger] front@[i]@),
    ensures
        final(block).code() == crate::ir::views(front@) + old(block).code(),
        final(block).label == old(block).label,
        final(block).is_entry == old(block).is_entry,
        final(block).exit == old(block).exit,
        old(block).terminated() ==> final(block).terminated(),
{
    let ghost code = block.code();
    let ghost head = crate::ir::views(front@);
    let mut all = front;
    all.append(&mut block.instructions);
    block.instructions = all;
    proof {
        assert(block.code() =~= head + code);
        if old(block).terminated() {
            let whole = block.code();
            if old(block).exit is Fallthrough {
                assert forall|i: int| 0 <= i < whole.len() implies !is_terminator(
                    #[trigger] whole[i],
                ) by {
                    if i >= head.len() {
                        assert(whole[i] == code[i - head.len()]);
                    } else {
                        assert(whole[i] == front@[i]@);
                    }
                }
            } else {
                assert(whole.last() == code.last());
                assert forall|i: int| 0 <= i < whole.len() - 1 implies !is_terminator(
                    #[trigger] whole[i],
                ) by {
                    if i >= head.len() {
                        assert(whole[i] == code[i - head.len()]);
                    } else {
                        assert(whole[i] == front@[i]@);
                    }
                }
            }
        }
    }
}

/// Whether `after` is `before` with the `get`s of `points` at the head of
/// each block that needs them.
pub open spec fn with_phis(points: PhiInsertionPoints, before: FunctionCfg, after: FunctionCfg) -> bool {
    &&& same_shape(before, after)
    &&& forall|n: u64| #[trigger]
        before.blocks().dom().contains(n) ==> after.blocks()[n].code() == phis_for(
            points.0@,
            BasicBlockIdx(n),
            points.0@.len() as int,
        ) + before.blocks()[n].code()
}

/// Puts, at the head of each block, a `get` for each variable that needs
/// one there, in the order of the variables.
pub fn insert_phis(cfg: &mut FunctionCfg, phi_insertion_points: &PhiInsertionPoints)
    requires
        old(cfg).wf(),
    ensures
        final(cfg).wf(),
        with_phis(*phi_insertion_points, *old(cfg), *final(cfg)),
        old(cfg).terminated() ==> final(cfg).terminated(),
        old(cfg).labels_unique() ==> final(cfg).labels_unique(),
{
    let ghost before = *cfg;
    let ghost points = phi_insertion_points.0@;
    let keys = cfg.keys();
    let mut j: usize = 0;
    while j < keys.len()
        invariant
            j <= keys@.len(),
            before.wf(),
            cfg.wf(),
            same_shape(before, *cfg),
            points == phi_insertion_points.0@,
            keys@.no_duplicates(),
            forall|k: BasicBlockIdx| #[trigger] keys@.contains(k) <==> before.has(k),
            forall|w: int|
                0 <= w < j ==> (#[trigger] cfg.blocks()[keys@[w].0]).code() == phis_for(
                    points,
                    keys@[w],
                    points.len() as int,
                ) + before.blocks()[keys@[w].0].code() && (before.blocks()[keys@[w].0].terminated()
                    ==> cfg.blocks()[keys@[w].0].terminated()),
            forall|w: int|
                j <= w < keys@.len() ==> (#[trigger] cfg.blocks()[keys@[w].0])
                    == before.blocks()[keys@[w].0],
        decreases keys@.len() - j,
    {
        let k = keys[j];
        let ghost mid = *cfg;
        let gets = phis_of(phi_insertion_points, k);
        proof {
            assert(keys@.contains(k));
            assert(before.has(k));
            assert(cfg.blocks()[keys@[j as int].0] == before.blocks()[k.0]);
            assert(cfg.has(k));
            assert(canonical(k.0) == k.0);
            lemma_phis_plain(points, k, points.len() as int);
            assert forall|i: int| 0 <= i < gets@.len() implies !is_terminator(
                #[trigger] gets@[i]@,
            ) by {
                assert(crate::ir::views(gets@)[i] == gets@[i]@);
            }
        }
        let block = store_get_mut(&mut cfg.vertices, k);
        prepend(block, gets);
        proof {
            assert(cfg.blocks().dom() =~= mid.blocks().dom());
            assert(same_shape(mid, *cfg));
            lemma_same_shape_chain(before, mid, *cfg);
            lemma_same_shape(before, *cfg);
            assert forall|w: int| 0 <= w < j + 1 implies (#[trigger] cfg.blocks()[keys@[w].0]).code()
                == phis_for(points, keys@[w], points.len() as int)
                + before.blocks()[keys@[w].0].code() && (before.blocks()[keys@[w].0].terminated()
                ==> cfg.blocks()[keys@[w].0].terminated()) by {
                if w < j {
                    assert(keys@[w] != keys@[j as int]);
                    assert(cfg.blocks()[keys@[w].0] == mid.blocks()[keys@[w].0]);
                }
            }
            assert forall|w: int| j + 1 <= w < keys@.len() implies (
            #[trigger] cfg.blocks()[keys@[w].0]) == before.blocks()[keys@[w].0] by {
                assert(keys@[w] != keys@[j as int]);
                assert(cfg.blocks()[keys@[w].0] == mid.blocks()[keys@[w].0]);
            }
        }
        j += 1;
    }
    proof {
        lemma_same_shape(before, *cfg);
        assert forall|n: u64| #[trigger] before.blocks().dom().contains(n) implies cfg.blocks()[n].code()
            == phis_for(points, BasicBlockIdx(n), points.len() as int)
            + before.blocks()[n].code() && (before.blocks()[n].terminated()
            ==> cfg.blocks()[n].terminated()) by {
            assert(keys@.contains(BasicBlockIdx(n)));
            let w = choose|w: int| 0 <= w < keys@.len() && keys@[w] == BasicBlockIdx(n);
            assert(keys@[w].0 == n);
            assert((cfg.blocks()[keys@[w].0]).code() == phis_for(
                points,
                keys@[w],
                points.len() as int,
            ) + before.blocks()[keys@[w].0].code());
        }
    }
}

} // verus!
