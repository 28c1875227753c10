//! The control-flow graph of one function: its blocks, the exit of each block
//! resolved to handles, and for each block the list of its predecessors.

use vstd::prelude::*;
use std::collections::HashMap;
use crate::ir::{Argument, Instruction, InstructionView, EffectOp, Type, views, name_view};
use crate::store::{
    BasicBlock,
    BasicBlockIdx,
    BlockStore,
    LabeledExit,
    canonical,
    stored,
    store_get,
    store_get_mut,
    store_insert,
    store_keys,
    store_len,
    store_remove,
    lemma_slot_order_distinct,
};

verus! {

broadcast use vstd::std_specs::hash::group_hash_axioms;

/// How a block ends, with its targets resolved to handles.
#[derive(Debug)]
pub enum Exit {
    Fallthrough(Option<BasicBlockIdx>),
    Unconditional(BasicBlockIdx),
    Conditional { condition: String, if_true: BasicBlockIdx, if_false: BasicBlockIdx },
    Return(Option<String>),
}

/// A function's name, parameters and return type.
#[derive(Debug)]
pub struct FunctionSignature {
    pub name: String,
    pub arguments: Vec<Argument>,
    pub return_type: Option<Type>,
}

/// The control-flow graph of a function.
pub struct FunctionCfg {
    pub signature: FunctionSignature,
    pub entry: BasicBlockIdx,
    pub vertices: BlockStore,
    pub edges: HashMap<u64, Exit>,
    pub rev_edges: HashMap<u64, Vec<BasicBlockIdx>>,
}

impl Exit {
    /// The blocks that control may pass to, in the order true, false.
    pub open spec fn targets(self) -> Seq<BasicBlockIdx> {
        match self {
            Exit::Fallthrough(Some(d)) => seq![d],
            Exit::Fallthrough(None) => Seq::empty(),
            Exit::Unconditional(d) => seq![d],
            Exit::Conditional { if_true, if_false, .. } => seq![if_true, if_false],
            Exit::Return(_) => Seq::empty(),
        }
    }

    /// A copy of this exit.
    pub fn dup(&self) -> (r: Exit)
        ensures
            r == *self,
    {
        match self {
            Exit::Fallthrough(d) => Exit::Fallthrough(*d),
            Exit::Unconditional(d) => Exit::Unconditional(*d),
            Exit::Conditional { condition, if_true, if_false } => Exit::Conditional {
                condition: condition.clone(),
                if_true: *if_true,
                if_false: *if_false,
            },
            Exit::Return(None) => Exit::Return(None),
            Exit::Return(Some(v)) => Exit::Return(Some(v.clone())),
        }
    }
}

/// Whether the instruction ends a block: a jump, a branch or a return.
pub open spec fn is_terminator(i: InstructionView) -> bool {
    match i {
        InstructionView::Effect { op, .. } => op == EffectOp::Jump || op == EffectOp::Branch || op
            == EffectOp::Return,
        _ => false,
    }
}

/// Whether `i` is the terminator that the exit `exit` asks for.
pub open spec fn terminator_of(exit: LabeledExit, i: InstructionView) -> bool {
    match (exit, i) {
        (LabeledExit::Unconditional { label, .. }, InstructionView::Effect { op, labels, .. }) => op
            == EffectOp::Jump && labels == seq![label@],
        (
            LabeledExit::Conditional { condition, if_true_label, if_false_label, .. },
            InstructionView::Effect { op, args, labels, .. },
        ) => op == EffectOp::Branch && args == seq![condition@] && labels == seq![
            if_true_label@,
            if_false_label@,
        ],
        (LabeledExit::Return(None), InstructionView::Effect { op, args, labels, .. }) => op
            == EffectOp::Return && args.len() == 0 && labels.len() == 0,
        (LabeledExit::Return(Some(v)), InstructionView::Effect { op, args, labels, .. }) => op
            == EffectOp::Return && args == seq![v@] && labels.len() == 0,
        _ => false,
    }
}

impl BasicBlock {
    /// The name of the block's label, if it has one.
    pub open spec fn label_text(self) -> Option<Seq<char>> {
        match self.label {
            Some(l) => Some(l.name@),
            None => None,
        }
    }

    /// The values of the block's instructions.
    pub open spec fn code(self) -> Seq<InstructionView> {
        views(self.instructions@)
    }

    /// The block's instructions and its exit agree: a block that falls
    /// through holds no terminator; any other block ends in the terminator of
    /// its exit and holds no other.
    pub open spec fn terminated(self) -> bool {
        let code = self.code();
        if self.exit is Fallthrough {
            forall|i: int| 0 <= i < code.len() ==> !is_terminator(#[trigger] code[i])
        } else {
            &&& code.len() > 0
            &&& terminator_of(self.exit, code.last())
            &&& forall|i: int| 0 <= i < code.len() - 1 ==> !is_terminator(#[trigger] code[i])
        }
    }

    /// The position of the terminator, or the number of instructions where
    /// the block falls through.
    pub open spec fn spec_index_before_exit(self) -> int {
        if self.exit is Fallthrough {
            self.instructions@.len() as int
        } else {
            self.instructions@.len() - 1
        }
    }

    /// A block that holds nothing and falls through.
    pub fn empty() -> (b: BasicBlock)
        ensures
            !b.is_entry,
            b.label is None,
            b.instructions@.len() == 0,
            b.exit is Fallthrough,
    {
        BasicBlock {
            is_entry: false,
            label: None,
            instructions: Vec::new(),
            exit: LabeledExit::Fallthrough,
        }
    }

    /// If there is no final jump, branch or return, the number of
    /// instructions; otherwise one less.
    pub fn index_before_exit(&self) -> (i: usize)
        requires
            self.exit is Fallthrough || self.instructions@.len() > 0,
        ensures
            i == self.spec_index_before_exit(),
    {
        match self.exit {
            LabeledExit::Fallthrough => self.instructions.len(),
            _ => self.instructions.len() - 1,
        }
    }
}

/// Whether the exit `exit`, over handles, is what the exit `labeled`, over
/// labels, resolves to among `blocks`.
pub open spec fn exit_agrees(blocks: Map<u64, BasicBlock>, labeled: LabeledExit, exit: Exit) -> bool {
    match (labeled, exit) {
        (LabeledExit::Fallthrough, Exit::Fallthrough(None)) => true,
        (LabeledExit::Fallthrough, Exit::Fallthrough(Some(d))) => blocks.dom().contains(d.0)
            && blocks[d.0].label is Some,
        (LabeledExit::Unconditional { label, .. }, Exit::Unconditional(d)) => blocks.dom().contains(
            d.0,
        ) && blocks[d.0].label_text() == Some(label@),
        (
            LabeledExit::Conditional { condition, if_true_label, if_false_label, .. },
            Exit::Conditional { condition: c, if_true, if_false },
        ) => {
            &&& c@ == condition@
            &&& blocks.dom().contains(if_true.0)
            &&& blocks[if_true.0].label_text() == Some(if_true_label@)
            &&& blocks.dom().contains(if_false.0)
            &&& blocks[if_false.0].label_text() == Some(if_false_label@)
        },
        (LabeledExit::Return(v), Exit::Return(w)) => name_view(v) == name_view(w),
        _ => false,
    }
}

/// The list recorded for `b` in `rev`; empty where none is recorded.
pub open spec fn listed(rev: Map<u64, Vec<BasicBlockIdx>>, b: u64) -> Seq<BasicBlockIdx> {
    if rev.contains_key(b) {
        rev[b]@
    } else {
        Seq::empty()
    }
}

/// The list without `p`, the others in their order.
pub open spec fn struck(list: Seq<BasicBlockIdx>, p: BasicBlockIdx) -> Seq<BasicBlockIdx>
    decreases list.len(),
{
    if list.len() == 0 {
        list
    } else if list.last() == p {
        struck(list.drop_last(), p)
    } else {
        struck(list.drop_last(), p).push(list.last())
    }
}

/// The list with `p` at its end, unless it holds `p` already.
pub open spec fn recorded_once(list: Seq<BasicBlockIdx>, p: BasicBlockIdx) -> Seq<BasicBlockIdx> {
    if list.contains(p) {
        list
    } else {
        list.push(p)
    }
}

/// Whether `p` occurs in `v`.
pub fn list_contains(v: &[BasicBlockIdx], p: BasicBlockIdx) -> (r: bool)
    ensures
        r == v@.contains(p),
{
    let mut i: usize = 0;
    while i < v.len()
        invariant
            i <= v@.len(),
            forall|j: int| 0 <= j < i ==> v@[j] != p,
        decreases v@.len() - i,
    {
        if v[i].0 == p.0 {
            return true;
        }
        i += 1;
    }
    false
}

/// Records `p` as a predecessor of `target`, unless it is recorded already.
pub fn add_predecessor(rev: &mut HashMap<u64, Vec<BasicBlockIdx>>, target: u64, p: BasicBlockIdx)
    ensures
        final(rev)@.dom() == old(rev)@.dom().insert(target),
        forall|b: u64| b != target && old(rev)@.contains_key(b) ==> final(rev)@[b] == old(rev)@[b],
        listed(final(rev)@, target) == recorded_once(listed(old(rev)@, target), p),
{
    match rev.remove(&target) {
        Some(v) => {
            let mut v = v;
            if !list_contains(v.as_slice(), p) {
                v.push(p);
            }
            rev.insert(target, v);
        },
        None => {
            let mut v: Vec<BasicBlockIdx> = Vec::new();
            v.push(p);
            assert(v@ =~= Seq::<BasicBlockIdx>::empty().push(p));
            rev.insert(target, v);
        },
    }
    assert(final(rev)@.dom() =~= old(rev)@.dom().insert(target));
}

/// Strikes `p` from the predecessors recorded for `target`.
pub fn remove_predecessor(rev: &mut HashMap<u64, Vec<BasicBlockIdx>>, target: u64, p: BasicBlockIdx)
    ensures
        final(rev)@.dom() == old(rev)@.dom(),
        forall|b: u64| b != target && old(rev)@.contains_key(b) ==> final(rev)@[b] == old(rev)@[b],
        forall|q: BasicBlockIdx|
            #[trigger] listed(final(rev)@, target).contains(q) <==> listed(old(rev)@, target).contains(q)
                && q != p,
        listed(old(rev)@, target).no_duplicates() ==> listed(final(rev)@, target).no_duplicates(),
        listed(final(rev)@, target) == struck(listed(old(rev)@, target), p),
{
    match rev.remove(&target) {
        Some(v) => {
            let mut kept: Vec<BasicBlockIdx> = Vec::new();
            let mut i: usize = 0;
            assert(v@.take(0) =~= Seq::<BasicBlockIdx>::empty());
            while i < v.len()
                invariant
                    i <= v@.len(),
                    kept@ == struck(v@.take(i as int), p),
                    forall|q: BasicBlockIdx|
                        #[trigger] kept@.contains(q) <==> v@.take(i as int).contains(q) && q != p,
                    v@.no_duplicates() ==> kept@.no_duplicates(),
                decreases v@.len() - i,
            {
                let ghost before = kept@;
                if v[i].0 != p.0 {
                    kept.push(v[i]);
                }
                proof {
                    let pre = v@.take(i as int);
                    let post = v@.take(i + 1);
                    assert(post =~= pre.push(v@[i as int]));
                    assert(post.drop_last() =~= pre);
                    assert(post.last() == v@[i as int]);
                    assert(kept@ == struck(post, p));
                    assert forall|q: BasicBlockIdx| #[trigger]
                        kept@.contains(q) <==> post.contains(q) && q != p by {
                        if kept@.contains(q) {
                            let j = choose|j: int| 0 <= j < kept@.len() && kept@[j] == q;
                            if j < before.len() {
                                assert(before[j] == q);
                                assert(before.contains(q));
                                let m = choose|m: int| 0 <= m < pre.len() && pre[m] == q;
                                assert(post[m] == q);
                            } else {
                                assert(post[i as int] == q);
                            }
                        }
                        if post.contains(q) && q != p {
                            let m = choose|m: int| 0 <= m < post.len() && post[m] == q;
                            if m < i {
                                assert(pre[m] == q);
                                assert(pre.contains(q));
                                assert(before.contains(q));
                                let j = choose|j: int| 0 <= j < before.len() && before[j] == q;
                                assert(kept@[j] == q);
                            } else {
                                assert(kept@[kept@.len() - 1] == q);
                            }
                        }
                    }
                    if v@.no_duplicates() && v@[i as int] != p {
                        assert(!pre.contains(v@[i as int])) by {
                            if pre.contains(v@[i as int]) {
                                let m = choose|m: int| 0 <= m < pre.len() && pre[m] == v@[i as int];
                                assert(v@[m] == v@[i as int]);
                            }
                        }
                        assert(!before.contains(v@[i as int]));
                    }
                }
                i += 1;
            }
            assert(v@.take(v@.len() as int) =~= v@);
            rev.insert(target, kept);
        },
        None => {},
    }
    assert(final(rev)@.dom() =~= old(rev)@.dom());
}

impl FunctionCfg {
    /// The blocks of the graph, each under the number of its handle.
    pub open spec fn blocks(&self) -> Map<u64, BasicBlock> {
        stored(self.vertices)
    }

    /// Whether `k` is the handle of a block of the graph.
    pub open spec fn has(&self, k: BasicBlockIdx) -> bool {
        self.blocks().dom().contains(k.0)
    }

    /// The successors of `k`, as its resolved exit lists them.
    pub open spec fn succ(&self, k: BasicBlockIdx) -> Seq<BasicBlockIdx> {
        if self.edges@.contains_key(k.0) {
            self.edges@[k.0].targets()
        } else {
            Seq::empty()
        }
    }

    /// The recorded predecessors of `k`.
    pub open spec fn preds(&self, k: BasicBlockIdx) -> Seq<BasicBlockIdx> {
        listed(self.rev_edges@, k.0)
    }

    /// Every exit resolves to what its labels name.
    pub open spec fn exits_resolved(&self) -> bool {
        forall|n: u64| #[trigger]
            self.blocks().dom().contains(n) ==> exit_agrees(
                self.blocks(),
                self.blocks()[n].exit,
                self.edges@[n],
            )
    }

    /// The predecessor lists mirror the exits: `p` is listed for `b` exactly
    /// when `b` is a successor of `p`, and never twice.
    pub open spec fn mirrored(&self) -> bool {
        &&& forall|b: BasicBlockIdx, p: BasicBlockIdx|
            self.has(b) ==> (#[trigger] self.preds(b).contains(p) <==> self.has(p)
                && self.succ(p).contains(b))
        &&& forall|b: BasicBlockIdx| self.has(b) ==> (#[trigger] self.preds(b)).no_duplicates()
    }

    /// No two blocks carry the same label.
    pub open spec fn labels_unique(&self) -> bool {
        forall|a: u64, b: u64|
            #![trigger self.blocks()[a], self.blocks()[b]]
            self.blocks().dom().contains(a) && self.blocks().dom().contains(b) && a != b
                && self.blocks()[a].label is Some ==> self.blocks()[a].label_text()
                != self.blocks()[b].label_text()
    }

    /// The invariant of the graph: the entry is a block and is marked as the
    /// entry; every block has a resolved exit, which is what its labeled exit
    /// names; predecessors are recorded for blocks only, and mirror the exits.
    pub open spec fn wf(&self) -> bool {
        &&& self.blocks().dom().finite()
        &&& forall|n: u64| #[trigger] self.blocks().dom().contains(n) ==> canonical(n) == n
        &&& self.has(self.entry)
        &&& self.blocks()[self.entry.0].is_entry
        &&& self.edges@.dom() == self.blocks().dom()
        &&& self.rev_edges@.dom().subset_of(self.blocks().dom())
        &&& self.exits_resolved()
        &&& self.mirrored()
    }

    /// No block but the entry is marked as the entry.
    pub open spec fn sole_entry(&self) -> bool {
        forall|n: u64| #[trigger]
            self.blocks().dom().contains(n) && n != self.entry.0 ==> !self.blocks()[n].is_entry
    }

    /// No block falls through.
    pub open spec fn no_fallthroughs(&self) -> bool {
        forall|n: u64| #[trigger]
            self.blocks().dom().contains(n) ==> !(self.blocks()[n].exit is Fallthrough) && (
            self.edges@.contains_key(n) ==> !(self.edges@[n] is Fallthrough))
    }

    /// Every block's instructions agree with its exit.
    pub open spec fn terminated(&self) -> bool {
        forall|n: u64| #[trigger] self.blocks().dom().contains(n) ==> self.blocks()[n].terminated()
    }

    /// Whether `k` is the handle of a block of the graph.
    pub fn contains(&self, k: BasicBlockIdx) -> (r: bool)
        requires
            self.wf(),
        ensures
            r == self.has(k),
    {
        assert(canonical(k.0) == k.0 <==> (k.0 | 0x1_0000_0000u64) == k.0);
        (k.0 | 0x1_0000_0000u64) == k.0 && store_get(&self.vertices, k).is_some()
    }

    /// The block under `k`, if the graph holds one.
    pub fn block(&self, k: BasicBlockIdx) -> (r: Option<&BasicBlock>)
        requires
            self.wf(),
        ensures
            r is Some == self.has(k),
            r is Some ==> *r->0 == self.blocks()[k.0],
    {
        if (k.0 | 0x1_0000_0000u64) == k.0 {
            store_get(&self.vertices, k)
        } else {
            None
        }
    }

    /// The handles of all blocks, each once, in the order of their slots.
    pub fn keys(&self) -> (r: Vec<BasicBlockIdx>)
        ensures
            r@.no_duplicates(),
            forall|k: BasicBlockIdx| #[trigger] r@.contains(k) <==> self.has(k),
            forall|i: int, j: int|
                0 <= i < j < r@.len() ==> crate::store::slot_of(#[trigger] r@[i].0)
                    < crate::store::slot_of(#[trigger] r@[j].0),
    {
        let r = store_keys(&self.vertices);
        proof {
            lemma_slot_order_distinct(r@);
        }
        r
    }

    /// The number of blocks.
    pub fn len(&self) -> (n: usize)
        ensures
            n == self.blocks().dom().len(),
    {
        store_len(&self.vertices)
    }

    /// The successors of `block`, as its resolved exit lists them.
    pub fn successors(&self, block: BasicBlockIdx) -> (r: Vec<BasicBlockIdx>)
        requires
            self.edges@.contains_key(block.0),
        ensures
            r@ == self.succ(block),
    {
        let exit = self.edges.get(&block.0).unwrap();
        let mut r: Vec<BasicBlockIdx> = Vec::new();
        match exit {
            Exit::Fallthrough(Some(d)) => {
                r.push(*d);
            },
            Exit::Fallthrough(None) => {},
            Exit::Unconditional(d) => {
                r.push(*d);
            },
            Exit::Conditional { condition: _, if_true, if_false } => {
                r.push(*if_true);
                r.push(*if_false);
            },
            Exit::Return(_) => {},
        }
        assert(r@ =~= self.succ(block));
        r
    }

    /// The recorded predecessors of `block`; none where nothing is recorded.
    pub fn predecessors(&self, block: BasicBlockIdx) -> (r: &[BasicBlockIdx])
        ensures
            r@ == self.preds(block),
    {
        match self.rev_edges.get(&block.0) {
            Some(v) => v.as_slice(),
            None => {
                let none: &[BasicBlockIdx] = &[];
                assert(none@ =~= Seq::<BasicBlockIdx>::empty());
                none
            },
        }
    }
}

/// What an exit becomes when fallthroughs are made explicit.
pub open spec fn explicit_exit(e: Exit) -> Exit {
    match e {
        Exit::Fallthrough(Some(d)) => Exit::Unconditional(d),
        Exit::Fallthrough(None) => Exit::Return(None),
        other => other,
    }
}

/// Whether `after` is `before` with its fallthrough, resolved as `exit`
/// among `blocks`, made explicit: a trailing jump to the successor's label,
/// or a trailing return where there is no successor. A block that does not
/// fall through stays as it is.
pub open spec fn made_explicit(
    blocks: Map<u64, BasicBlock>,
    before: BasicBlock,
    exit: Exit,
    after: BasicBlock,
) -> bool {
    &&& after.is_entry == before.is_entry
    &&& after.label == before.label
    &&& match exit {
        Exit::Fallthrough(Some(d)) => {
            &&& after.exit is Unconditional
            &&& Some(after.exit->Unconditional_label@) == blocks[d.0].label_text()
            &&& after.code() == before.code().push(
                crate::ir::jump_to(after.exit->Unconditional_label@),
            )
        },
        Exit::Fallthrough(None) => {
            &&& after.exit == LabeledExit::Return(None)
            &&& after.code() == before.code().push(crate::ir::return_nothing())
        },
        _ => after == before,
    }
}

/// The views of a list with one more instruction.
pub proof fn lemma_views_push(s: Seq<Instruction>, i: Instruction)
    ensures
        views(s.push(i)) == views(s).push(i@),
{
    assert(views(s.push(i)) =~= views(s).push(i@));
}

/// The views of a list with one instruction replaced.
pub proof fn lemma_views_update(s: Seq<Instruction>, at: int, i: Instruction)
    requires
        0 <= at < s.len(),
    ensures
        views(s.update(at, i)) == views(s).update(at, i@),
{
    assert(views(s.update(at, i)) =~= views(s).update(at, i@));
}

/// Predecessor lists that mirror the exits of one graph mirror those of any
/// graph with the same blocks, the same lists and the same successors.
pub proof fn lemma_mirrored_same(a: FunctionCfg, b: FunctionCfg)
    requires
        a.mirrored(),
        a.rev_edges@ == b.rev_edges@,
        a.blocks().dom() == b.blocks().dom(),
        forall|p: BasicBlockIdx| a.succ(p) == b.succ(p),
    ensures
        b.mirrored(),
{
    assert forall|x: BasicBlockIdx, p: BasicBlockIdx| b.has(x) implies (#[trigger] b.preds(
        x,
    ).contains(p) <==> b.has(p) && b.succ(p).contains(x)) by {
        assert(a.has(x));
        assert(a.preds(x) == b.preds(x));
        assert(a.succ(p) == b.succ(p));
        assert(a.preds(x).contains(p) <==> a.has(p) && a.succ(p).contains(x));
    }
    assert forall|x: BasicBlockIdx| b.has(x) implies (#[trigger] b.preds(x)).no_duplicates() by {
        assert(a.has(x));
        assert(a.preds(x) == b.preds(x));
    }
}

impl FunctionCfg {
    /// Makes the fallthrough of one block explicit.
    fn make_explicit_at(&mut self, k: BasicBlockIdx)
        requires
            old(self).wf(),
            old(self).has(k),
        ensures
            final(self).wf(),
            final(self).entry == old(self).entry,
            final(self).rev_edges == old(self).rev_edges,
            final(self).signature == old(self).signature,
            final(self).blocks().dom() == old(self).blocks().dom(),
            forall|n: u64|
                n != k.0 && old(self).blocks().dom().contains(n) ==> #[trigger] final(self).blocks()[n] == old(self).blocks()[n] && final(self).edges@[n] == old(self).edges@[n],
            made_explicit(
                old(self).blocks(),
                old(self).blocks()[k.0],
                old(self).edges@[k.0],
                final(self).blocks()[k.0],
            ),
            final(self).edges@[k.0] == explicit_exit(old(self).edges@[k.0]),
    {
        let ghost before = *self;
        let (falls, target) = match self.edges.get(&k.0) {
            Some(Exit::Fallthrough(d)) => (true, *d),
            _ => (false, None),
        };
        if !falls {
            return ;
        }
        match target {
            Some(d) => {
                let name = match store_get(&self.vertices, d) {
                    Some(block) => match &block.label {
                        Some(l) => l.name.clone(),
                        None => String::new(),
                    },
                    None => String::new(),
                };
                let block = store_get_mut(&mut self.vertices, k);
                block.exit = LabeledExit::Unconditional { label: name.clone(), pos: None };
                let jump = Instruction::jump(name);
                proof {
                    lemma_views_push(block.instructions@, jump);
                }
                block.instructions.push(jump);
                self.edges.insert(k.0, Exit::Unconditional(d));
            },
            None => {
                let block = store_get_mut(&mut self.vertices, k);
                block.exit = LabeledExit::Return(None);
                let ret = Instruction::bare_return();
                proof {
                    lemma_views_push(block.instructions@, ret);
                }
                block.instructions.push(ret);
                self.edges.insert(k.0, Exit::Return(None));
            },
        }
        proof {
            assert(self.blocks().dom() =~= before.blocks().dom());
            assert(self.edges@.dom() =~= before.edges@.dom());
            assert forall|p: BasicBlockIdx| before.succ(p) == self.succ(p) by {
                if p.0 == k.0 {
                    assert(p == k);
                    assert(before.succ(p) =~= self.succ(p));
                }
            }
            lemma_mirrored_same(before, *self);
            assert forall|n: u64| #[trigger] self.blocks().dom().contains(n) implies exit_agrees(
                self.blocks(),
                self.blocks()[n].exit,
                self.edges@[n],
            ) by {
                assert(before.blocks().dom().contains(n));
                assert(exit_agrees(before.blocks(), before.blocks()[n].exit, before.edges@[n]));
                assert forall|m: u64| before.blocks().dom().contains(m) implies self.blocks()[m].label
                    == before.blocks()[m].label by {}
            }
        }
    }
}

/// What an exit becomes when its edge to `from` is turned to `to`: the
/// target of a jump, or the first of a branch's two targets that is `from`.
pub open spec fn redirected(e: Exit, from: BasicBlockIdx, to: BasicBlockIdx) -> Exit {
    match e {
        Exit::Unconditional(d) => if d == from {
            Exit::Unconditional(to)
        } else {
            e
        },
        Exit::Conditional { condition, if_true, if_false } => if if_true == from {
            Exit::Conditional { condition, if_true: to, if_false }
        } else if if_false == from {
            Exit::Conditional { condition, if_true, if_false: to }
        } else {
            e
        },
        other => other,
    }
}

/// Whether `after` is `before` with its terminator and labeled exit turned
/// to the label `label`, as `redirected` turns the resolved exit `exit`.
pub open spec fn relabeled(
    before: BasicBlock,
    exit: Exit,
    from: BasicBlockIdx,
    label: Seq<char>,
    after: BasicBlock,
) -> bool {
    &&& after.is_entry == before.is_entry
    &&& after.label == before.label
    &&& match (exit, before.exit) {
        (Exit::Unconditional(d), LabeledExit::Unconditional { .. }) => if d == from {
            &&& after.exit is Unconditional
            &&& after.exit->Unconditional_label@ == label
            &&& after.code() == before.code().update(
                before.code().len() - 1,
                crate::ir::jump_to(label),
            )
        } else {
            after == before
        },
        (
            Exit::Conditional { if_true, if_false, .. },
            LabeledExit::Conditional { condition, if_true_label, if_false_label, pos },
        ) => if if_true == from {
            &&& after.exit is Conditional
            &&& after.exit->Conditional_condition@ == condition@
            &&& after.exit->if_true_label@ == label
            &&& after.exit->if_false_label@ == if_false_label@
            &&& after.exit->Conditional_pos == pos
            &&& after.code() == before.code().update(
                before.code().len() - 1,
                crate::ir::branch_to(condition@, label, if_false_label@),
            )
        } else if if_false == from {
            &&& after.exit is Conditional
            &&& after.exit->Conditional_condition@ == condition@
            &&& after.exit->if_true_label@ == if_true_label@
            &&& after.exit->if_false_label@ == label
            &&& after.exit->Conditional_pos == pos
            &&& after.code() == before.code().update(
                before.code().len() - 1,
                crate::ir::branch_to(condition@, if_true_label@, label),
            )
        } else {
            after == before
        },
        _ => after == before,
    }
}

/// Predecessor lists mirror the exits of `b` where `b` is `a` with the exit
/// of `start` changed and `start` struck from or added to lists accordingly.
pub proof fn lemma_mirrored_redirect(a: FunctionCfg, b: FunctionCfg, start: BasicBlockIdx)
    requires
        a.mirrored(),
        a.blocks().dom() == b.blocks().dom(),
        forall|p: BasicBlockIdx| p != start ==> a.succ(p) == b.succ(p),
        forall|x: BasicBlockIdx, q: BasicBlockIdx|
            b.has(x) && q != start ==> (#[trigger] b.preds(x).contains(q) <==> a.preds(x).contains(
                q,
            )),
        forall|x: BasicBlockIdx|
            b.has(x) ==> (#[trigger] b.preds(x).contains(start) <==> b.has(start) && b.succ(
                start,
            ).contains(x)),
        forall|x: BasicBlockIdx| b.has(x) ==> (#[trigger] b.preds(x)).no_duplicates(),
    ensures
        b.mirrored(),
{
    assert forall|x: BasicBlockIdx, p: BasicBlockIdx| b.has(x) implies (#[trigger] b.preds(
        x,
    ).contains(p) <==> b.has(p) && b.succ(p).contains(x)) by {
        assert(a.has(x));
        if p != start {
            assert(a.succ(p) == b.succ(p));
            assert(a.preds(x).contains(p) <==> a.has(p) && a.succ(p).contains(x));
            assert(b.preds(x).contains(p) <==> a.preds(x).contains(p));
        }
    }
}

/// A list without repetitions stays so when something new is put at its end.
pub proof fn lemma_push_fresh(s: Seq<BasicBlockIdx>, p: BasicBlockIdx)
    requires
        s.no_duplicates(),
        !s.contains(p),
    ensures
        s.push(p).no_duplicates(),
        forall|q: BasicBlockIdx| s.push(p).contains(q) <==> s.contains(q) || q == p,
{
    assert forall|q: BasicBlockIdx| s.push(p).contains(q) <==> s.contains(q) || q == p by {
        if s.contains(q) {
            let i = choose|i: int| 0 <= i < s.len() && s[i] == q;
            assert(s.push(p)[i] == q);
        }
        if q == p {
            assert(s.push(p)[s.len() as int] == q);
        }
    }
}

impl FunctionCfg {
    /// Replaces all fallthroughs with unconditional jumps or returns: a block
    /// that falls through to a successor gets a trailing jump to that
    /// successor's label, one that falls off the end a trailing return.
    pub fn make_fallthroughs_explicit(&mut self)
        requires
            old(self).wf(),
        ensures
            final(self).wf(),
            final(self).no_fallthroughs(),
            final(self).entry == old(self).entry,
            final(self).rev_edges == old(self).rev_edges,
            final(self).signature == old(self).signature,
            final(self).blocks().dom() == old(self).blocks().dom(),
            forall|n: u64| #[trigger]
                old(self).blocks().dom().contains(n) ==> made_explicit(
                    old(self).blocks(),
                    old(self).blocks()[n],
                    old(self).edges@[n],
                    final(self).blocks()[n],
                ) && final(self).edges@[n] == explicit_exit(old(self).edges@[n]),
            old(self).terminated() ==> final(self).terminated(),
            old(self).labels_unique() ==> final(self).labels_unique(),
    {
        let ghost before = *self;
        let keys = self.keys();
        let mut i: usize = 0;
        while i < keys.len()
            invariant
                i <= keys@.len(),
                before.wf(),
                self.wf(),
                self.entry == before.entry,
                self.rev_edges == before.rev_edges,
                self.signature == before.signature,
                self.blocks().dom() == before.blocks().dom(),
                keys@.no_duplicates(),
                forall|k: BasicBlockIdx| #[trigger] keys@.contains(k) <==> before.has(k),
                forall|n: u64| #[trigger]
                    before.blocks().dom().contains(n) ==> self.blocks()[n].label
                        == before.blocks()[n].label,
                forall|j: int|
                    0 <= j < i ==> made_explicit(
                        before.blocks(),
                        before.blocks()[(#[trigger] keys@[j]).0],
                        before.edges@[keys@[j].0],
                        self.blocks()[keys@[j].0],
                    ) && self.edges@[keys@[j].0] == explicit_exit(before.edges@[keys@[j].0]),
                forall|j: int|
                    i <= j < keys@.len() ==> self.blocks()[(#[trigger] keys@[j]).0]
                        == before.blocks()[keys@[j].0] && self.edges@[keys@[j].0]
                        == before.edges@[keys@[j].0],
            decreases keys@.len() - i,
        {
            let k = keys[i];
            let ghost mid = *self;
            assert(keys@.contains(k));
            self.make_explicit_at(k);
            proof {
                assert forall|j: int| 0 <= j < i implies made_explicit(
                    before.blocks(),
                    before.blocks()[(#[trigger] keys@[j]).0],
                    before.edges@[keys@[j].0],
                    self.blocks()[keys@[j].0],
                ) && self.edges@[keys@[j].0] == explicit_exit(before.edges@[keys@[j].0]) by {
                    assert(keys@[j] != k);
                    assert(keys@.contains(keys@[j]));
                    assert(self.blocks()[keys@[j].0] == mid.blocks()[keys@[j].0]);
                }
                assert forall|j: int| i + 1 <= j < keys@.len() implies self.blocks()[(
                #[trigger] keys@[j]).0] == before.blocks()[keys@[j].0] && self.edges@[keys@[j].0]
                    == before.edges@[keys@[j].0] by {
                    assert(keys@[j] != k);
                    assert(keys@.contains(keys@[j]));
                    assert(self.blocks()[keys@[j].0] == mid.blocks()[keys@[j].0]);
                }
                match before.edges@[k.0] {
                    Exit::Fallthrough(Some(d)) => {
                        assert(exit_agrees(before.blocks(), before.blocks()[k.0].exit, before.edges@[k.0]));
                        assert(before.blocks().dom().contains(d.0));
                        assert(mid.blocks()[d.0].label == before.blocks()[d.0].label);
                    },
                    _ => {},
                }
                assert forall|n: u64| #[trigger] before.blocks().dom().contains(n) implies self.blocks()[n].label
                    == before.blocks()[n].label by {
                    assert(mid.blocks()[n].label == before.blocks()[n].label);
                    if n != k.0 {
                        assert(self.blocks()[n] == mid.blocks()[n]);
                    }
                }
            }
            i += 1;
        }
        proof {
            assert forall|n: u64| #[trigger] before.blocks().dom().contains(n) implies made_explicit(
                before.blocks(),
                before.blocks()[n],
                before.edges@[n],
                self.blocks()[n],
            ) && self.edges@[n] == explicit_exit(before.edges@[n]) by {
                let k = BasicBlockIdx(n);
                assert(before.has(k));
                assert(keys@.contains(k));
                let j = choose|j: int| 0 <= j < keys@.len() && keys@[j] == k;
                assert(keys@[j].0 == n);
            }
            assert forall|n: u64| #[trigger] self.blocks().dom().contains(n) implies !(
            self.blocks()[n].exit is Fallthrough) && (self.edges@.contains_key(n) ==> !(
            self.edges@[n] is Fallthrough)) by {
                assert(before.blocks().dom().contains(n));
                assert(exit_agrees(before.blocks(), before.blocks()[n].exit, before.edges@[n]));
            }
            if before.terminated() {
                assert forall|n: u64| #[trigger] self.blocks().dom().contains(n) implies self.blocks()[n].terminated() by {
                    assert(before.blocks().dom().contains(n));
                    assert(before.blocks()[n].terminated());
                    assert(exit_agrees(before.blocks(), before.blocks()[n].exit, before.edges@[n]));
                    lemma_made_explicit_terminated(
                        before.blocks(),
                        before.blocks()[n],
                        before.edges@[n],
                        self.blocks()[n],
                    );
                }
            }
            if before.labels_unique() {
                assert forall|a: u64, b: u64|
                    #![trigger self.blocks()[a], self.blocks()[b]]
                    self.blocks().dom().contains(a) && self.blocks().dom().contains(b) && a != b
                        && self.blocks()[a].label is Some implies self.blocks()[a].label_text()
                        != self.blocks()[b].label_text() by {
                    assert(before.blocks().dom().contains(a));
                    assert(before.blocks().dom().contains(b));
                    assert(self.blocks()[a].label == before.blocks()[a].label);
                    assert(self.blocks()[b].label == before.blocks()[b].label);
                    assert(before.blocks()[a].label_text() != before.blocks()[b].label_text());
                }
            }
        }
    }

    /// Whether the graph has no fallthrough, in a block's own exit or in its
    /// resolved exit.
    pub fn assert_no_fallthroughs(&self) -> (ok: bool)
        requires
            self.wf(),
        ensures
            ok == self.no_fallthroughs(),
    {
        let keys = self.keys();
        let mut i: usize = 0;
        while i < keys.len()
            invariant
                i <= keys@.len(),
                self.wf(),
                forall|k: BasicBlockIdx| #[trigger] keys@.contains(k) <==> self.has(k),
                forall|j: int|
                    0 <= j < i ==> !(self.blocks()[(#[trigger] keys@[j]).0].exit is Fallthrough)
                        && !(self.edges@[keys@[j].0] is Fallthrough),
            decreases keys@.len() - i,
        {
            let k = keys[i];
            assert(keys@.contains(k));
            let falls = match store_get(&self.vertices, k) {
                Some(block) => match block.exit {
                    LabeledExit::Fallthrough => true,
                    _ => false,
                },
                None => false,
            };
            let edge_falls = match self.edges.get(&k.0) {
                Some(Exit::Fallthrough(_)) => true,
                _ => false,
            };
            if falls || edge_falls {
                return false;
            }
            i += 1;
        }
        proof {
            assert forall|n: u64| #[trigger] self.blocks().dom().contains(n) implies !(
            self.blocks()[n].exit is Fallthrough) && (self.edges@.contains_key(n) ==> !(
            self.edges@[n] is Fallthrough)) by {
                let k = BasicBlockIdx(n);
                assert(self.has(k));
                assert(keys@.contains(k));
                let j = choose|j: int| 0 <= j < keys@.len() && keys@[j] == k;
                assert(keys@[j].0 == n);
            }
        }
        true
    }

    /// Adds a block to the graph and returns its handle. A block that falls
    /// through gets the resolved exit of a block with no successor; for any
    /// other block the caller sets the exit.
    pub fn add_block(&mut self, block: BasicBlock) -> (idx: BasicBlockIdx)
        requires
            old(self).blocks().dom().len() < 0xffff_fffe,
        ensures
            !old(self).has(idx),
            canonical(idx.0) == idx.0,
            final(self).blocks() == old(self).blocks().insert(idx.0, block),
            final(self).edges@ == if block.exit is Fallthrough {
                old(self).edges@.insert(idx.0, Exit::Fallthrough(None))
            } else {
                old(self).edges@
            },
            final(self).rev_edges == old(self).rev_edges,
            final(self).entry == old(self).entry,
            final(self).signature == old(self).signature,
            old(self).wf() && block.exit is Fallthrough ==> final(self).wf(),
            old(self).terminated() && block.terminated() ==> final(self).terminated(),
            old(self).labels_unique() && (forall|n: u64| #[trigger]
                old(self).blocks().dom().contains(n) ==> old(self).blocks()[n].label_text()
                    != block.label_text()) ==> final(self).labels_unique(),
    {
        let ghost before = *self;
        let falls = match block.exit {
            LabeledExit::Fallthrough => true,
            _ => false,
        };
        let idx = store_insert(&mut self.vertices, block);
        if falls {
            self.edges.insert(idx.0, Exit::Fallthrough(None));
        }
        proof {
            if before.wf() && falls {
                assert(self.edges@.dom() =~= self.blocks().dom());
                assert forall|p: BasicBlockIdx| p != idx implies before.succ(p) == self.succ(p) by {}
                assert(self.succ(idx) =~= Seq::<BasicBlockIdx>::empty());
                assert forall|x: BasicBlockIdx| self.has(x) implies (#[trigger] self.preds(x).contains(
                    idx,
                ) <==> self.has(idx) && self.succ(idx).contains(x)) by {
                    assert(self.preds(x) == before.preds(x));
                    if before.has(x) {
                        assert(before.preds(x).contains(idx) <==> before.has(idx) && before.succ(
                            idx,
                        ).contains(x));
                    } else {
                        assert(x == idx);
                        assert(!before.rev_edges@.dom().contains(x.0));
                    }
                }
                assert forall|x: BasicBlockIdx| self.has(x) implies (#[trigger] self.preds(
                    x,
                )).no_duplicates() by {
                    assert(self.preds(x) == before.preds(x));
                    if !before.has(x) {
                        assert(x == idx);
                        assert(!before.rev_edges@.dom().contains(x.0));
                    }
                }
                assert forall|x: BasicBlockIdx, q: BasicBlockIdx|
                    self.has(x) && q != idx implies (#[trigger] self.preds(x).contains(q)
                    <==> self.has(q) && self.succ(q).contains(x)) by {
                    assert(self.preds(x) == before.preds(x));
                    assert(before.succ(q) == self.succ(q));
                    if before.has(x) {
                        assert(before.preds(x).contains(q) <==> before.has(q) && before.succ(
                            q,
                        ).contains(x));
                    } else {
                        assert(x == idx);
                        assert(!before.rev_edges@.dom().contains(x.0));
                        if before.has(q) && before.succ(q).contains(x) {
                            assert(exit_agrees(
                                before.blocks(),
                                before.blocks()[q.0].exit,
                                before.edges@[q.0],
                            ));
                            lemma_targets_exist(before, q, x);
                        }
                    }
                }
                assert(self.mirrored());
                assert forall|n: u64| #[trigger] self.blocks().dom().contains(n) implies exit_agrees(
                    self.blocks(),
                    self.blocks()[n].exit,
                    self.edges@[n],
                ) by {
                    if n != idx.0 {
                        assert(before.blocks().dom().contains(n));
                        assert(exit_agrees(
                            before.blocks(),
                            before.blocks()[n].exit,
                            before.edges@[n],
                        ));
                    }
                }
            }
        }
        idx
    }
}

/// Making a fallthrough explicit keeps a block's instructions in agreement
/// with its exit.
pub proof fn lemma_made_explicit_terminated(
    blocks: Map<u64, BasicBlock>,
    before: BasicBlock,
    exit: Exit,
    after: BasicBlock,
)
    requires
        before.terminated(),
        exit_agrees(blocks, before.exit, exit),
        made_explicit(blocks, before, exit, after),
    ensures
        after.terminated(),
{
    match exit {
        Exit::Fallthrough(Some(d)) => {
            let code = after.code();
            assert(code.last() == crate::ir::jump_to(after.exit->Unconditional_label@));
            assert forall|i: int| 0 <= i < code.len() - 1 implies !is_terminator(
                #[trigger] code[i],
            ) by {
                assert(code[i] == before.code()[i]);
            }
        },
        Exit::Fallthrough(None) => {
            let code = after.code();
            assert(code.last() == crate::ir::return_nothing());
            assert forall|i: int| 0 <= i < code.len() - 1 implies !is_terminator(
                #[trigger] code[i],
            ) by {
                assert(code[i] == before.code()[i]);
            }
        },
        _ => {},
    }
}

/// In a well-formed graph the successors of a block are blocks.
pub proof fn lemma_targets_exist(g: FunctionCfg, p: BasicBlockIdx, x: BasicBlockIdx)
    requires
        g.has(p),
        g.edges@.dom() == g.blocks().dom(),
        g.exits_resolved(),
        g.succ(p).contains(x),
    ensures
        g.has(x),
{
    assert(g.blocks().dom().contains(p.0));
    assert(exit_agrees(g.blocks(), g.blocks()[p.0].exit, g.edges@[p.0]));
    let i = choose|i: int| 0 <= i < g.succ(p).len() && g.succ(p)[i] == x;
}

impl FunctionCfg {
    /// A copy of the label of the block `k`; empty where it has none.
    pub fn label_name(&self, k: BasicBlockIdx) -> (name: String)
        requires
            self.wf(),
            self.has(k),
        ensures
            self.blocks()[k.0].label is Some ==> self.blocks()[k.0].label_text() == Some(name@),
            self.blocks()[k.0].label is None ==> name@ == Seq::<char>::empty(),
    {
        match store_get(&self.vertices, k) {
            Some(block) => match &block.label {
                Some(l) => l.name.clone(),
                None => String::new(),
            },
            None => String::new(),
        }
    }

    /// Makes `start_block` end in a jump to `end_block`, whether it fell
    /// through or jumped elsewhere before: the trailing jump is written or
    /// overwritten, both exits are set, `start_block` is struck from the
    /// predecessors of its former successor and recorded, once, for
    /// `end_block`.
    pub fn set_unconditional_edge(&mut self, start_block: BasicBlockIdx, end_block: BasicBlockIdx)
        requires
            old(self).wf(),
            old(self).has(start_block),
            old(self).has(end_block),
            old(self).blocks()[end_block.0].label is Some,
            old(self).blocks()[start_block.0].exit is Fallthrough || (old(self).blocks()[start_block.0].exit is Unconditional && old(self).blocks()[start_block.0].instructions@.len() > 0),
        ensures
            final(self).wf(),
            final(self).entry == old(self).entry,
            final(self).signature == old(self).signature,
            final(self).blocks().dom() == old(self).blocks().dom(),
            forall|n: u64|
                n != start_block.0 && old(self).blocks().dom().contains(n) ==> #[trigger] final(self).blocks()[n] == old(self).blocks()[n] && final(self).edges@[n] == old(self).edges@[n],
            final(self).edges@[start_block.0] == Exit::Unconditional(end_block),
            jumps_to(
                old(self).blocks()[start_block.0],
                old(self).blocks()[end_block.0].label_text()->0,
                final(self).blocks()[start_block.0],
            ),
            forall|b: u64| #[trigger]
                listed(final(self).rev_edges@, b) == jump_predecessors(
                    *old(self),
                    start_block,
                    end_block,
                    b,
                ),
            old(self).terminated() ==> final(self).terminated(),
            old(self).labels_unique() ==> final(self).labels_unique(),
    {
        let ghost before = *self;
        let former = self.successors(start_block);
        let name = self.label_name(end_block);
        let block = store_get_mut(&mut self.vertices, start_block);
        let jump = Instruction::jump(name.clone());
        match block.exit {
            LabeledExit::Fallthrough => {
                proof {
                    lemma_views_push(block.instructions@, jump);
                }
                block.instructions.push(jump);
            },
            _ => {
                let last = block.instructions.len() - 1;
                proof {
                    lemma_views_update(block.instructions@, last as int, jump);
                }
                block.instructions[last] = jump;
            },
        }
        block.exit = LabeledExit::Unconditional { label: name, pos: None };
        self.edges.insert(start_block.0, Exit::Unconditional(end_block));
        let ghost mid = *self;
        proof {
            assert(exit_agrees(
                before.blocks(),
                before.blocks()[start_block.0].exit,
                before.edges@[start_block.0],
            ));
            assert(former@.len() <= 1);
        }
        if former.len() == 1 && former[0].0 != end_block.0 {
            proof {
                lemma_targets_exist(before, start_block, former@[0]);
            }
            remove_predecessor(&mut self.rev_edges, former[0].0, start_block);
        }
        let ghost mid2 = *self;
        add_predecessor(&mut self.rev_edges, end_block.0, start_block);
        proof {
            assert forall|b: u64| #[trigger]
                listed(self.rev_edges@, b) == jump_predecessors(before, start_block, end_block, b) by {
                if b != end_block.0 {
                    assert(listed(self.rev_edges@, b) == listed(mid2.rev_edges@, b));
                }
                if !(former@.len() == 1 && former@[0] != end_block && b == former@[0].0) {
                    assert(listed(mid2.rev_edges@, b) == listed(before.rev_edges@, b));
                }
            }
            assert(self.blocks().dom() =~= before.blocks().dom());
            assert(self.edges@.dom() =~= before.edges@.dom());
            assert(self.succ(start_block) =~= seq![end_block]);
            assert(forall|n: u64| #[trigger]
                before.blocks().dom().contains(n) ==> self.blocks()[n].label
                    == before.blocks()[n].label);
            assert forall|n: u64| #[trigger] self.blocks().dom().contains(n) implies exit_agrees(
                self.blocks(),
                self.blocks()[n].exit,
                self.edges@[n],
            ) by {
                assert(before.blocks().dom().contains(n));
                assert(exit_agrees(before.blocks(), before.blocks()[n].exit, before.edges@[n]));
            }
            assert forall|p: BasicBlockIdx| p != start_block implies before.succ(p) == self.succ(
                p,
            ) by {}
            assert forall|x: BasicBlockIdx| self.has(x) implies (#[trigger] self.preds(
                x,
            )).no_duplicates() && (self.preds(x).contains(start_block) <==> self.has(start_block)
                && self.succ(start_block).contains(x)) && (forall|q: BasicBlockIdx|
                q != start_block ==> (self.preds(x).contains(q) <==> before.preds(x).contains(
                    q,
                ))) by {
                assert(before.has(x));
                assert(before.preds(x).no_duplicates());
                assert(before.preds(x).contains(start_block) <==> before.has(start_block)
                    && before.succ(start_block).contains(x));
                if x == end_block {
                    if !mid2.preds(x).contains(start_block) {
                        lemma_push_fresh(mid2.preds(x), start_block);
                    }
                    assert(self.succ(start_block)[0] == x);
                } else {
                    assert(self.preds(x) == mid2.preds(x));
                    if former@.len() == 1 && former@[0] == x {
                    } else {
                        assert(mid2.preds(x) == before.preds(x));
                        if before.succ(start_block).contains(x) {
                            let i = choose|i: int|
                                0 <= i < before.succ(start_block).len() && before.succ(
                                    start_block,
                                )[i] == x;
                            assert(former@[0] == x);
                        }
                    }
                }
            }
            lemma_mirrored_redirect(before, *self, start_block);
            if before.terminated() {
                assert forall|n: u64| #[trigger] self.blocks().dom().contains(n) implies self.blocks()[n].terminated() by {
                    assert(before.blocks().dom().contains(n));
                    assert(before.blocks()[n].terminated());
                    if n == start_block.0 {
                        let code = self.blocks()[n].code();
                        assert forall|i: int| 0 <= i < code.len() - 1 implies !is_terminator(
                            #[trigger] code[i],
                        ) by {
                            assert(code[i] == before.blocks()[n].code()[i]);
                        }
                    }
                }
            }
            if before.labels_unique() {
                assert forall|a: u64, b: u64|
                    #![trigger self.blocks()[a], self.blocks()[b]]
                    self.blocks().dom().contains(a) && self.blocks().dom().contains(b) && a != b
                        && self.blocks()[a].label is Some implies self.blocks()[a].label_text()
                        != self.blocks()[b].label_text() by {
                    assert(before.blocks().dom().contains(a));
                    assert(before.blocks().dom().contains(b));
                    assert(self.blocks()[a].label == before.blocks()[a].label);
                    assert(self.blocks()[b].label == before.blocks()[b].label);
                    assert(before.blocks()[a].label_text() != before.blocks()[b].label_text());
                }
            }
        }
    }
}

/// Whether `after` is `before` made to end in a jump to `label`: the jump is
/// put at the end of a block that fell through, and written over the last
/// instruction of any other.
pub open spec fn jumps_to(before: BasicBlock, label: Seq<char>, after: BasicBlock) -> bool {
    &&& after.is_entry == before.is_entry
    &&& after.label == before.label
    &&& after.exit is Unconditional
    &&& after.exit->Unconditional_label@ == label
    &&& after.exit->Unconditional_pos is None
    &&& after.code() == if before.exit is Fallthrough {
        before.code().push(crate::ir::jump_to(label))
    } else {
        before.code().update(before.code().len() - 1, crate::ir::jump_to(label))
    }
}

/// The predecessors recorded for `b` once the edge from `start` to `from`
/// is turned to `to` in `g`: `start` is struck from the list of `from`
/// unless it still has an edge there, and recorded, once, in the list of
/// `to`; every other list is as it was, and so are all where `start` has no
/// edge to `from`.
pub open spec fn turned_predecessors(
    g: FunctionCfg,
    start: BasicBlockIdx,
    from: BasicBlockIdx,
    to: BasicBlockIdx,
    b: u64,
) -> Seq<BasicBlockIdx> {
    let list = listed(g.rev_edges@, b);
    if !g.succ(start).contains(from) {
        list
    } else {
        let still = redirected(g.edges@[start.0], from, to).targets().contains(from);
        let left = if b == from.0 && !still {
            struck(list, start)
        } else {
            list
        };
        if b == to.0 {
            recorded_once(left, start)
        } else {
            left
        }
    }
}

/// The predecessors recorded for `b` once `start` is made to jump to `to`
/// in `g`: `start` is struck from the list of its former successor, if it
/// had one other than `to`, and recorded, once, in the list of `to`; every
/// other list is as it was.
pub open spec fn jump_predecessors(g: FunctionCfg, start: BasicBlockIdx, to: BasicBlockIdx, b: u64) -> Seq<
    BasicBlockIdx,
> {
    let list = listed(g.rev_edges@, b);
    let former = g.succ(start);
    let left = if former.len() == 1 && former[0] != to && b == former[0].0 {
        struck(list, start)
    } else {
        list
    };
    if b == to.0 {
        recorded_once(left, start)
    } else {
        left
    }
}

impl FunctionCfg {
    /// Replaces the edge from `start_block` to `old_end_block` with an edge
    /// to `end_block`: the terminator's label, the labeled exit and the
    /// resolved exit are rewritten, `start_block` is struck from the
    /// predecessors of `old_end_block` unless it is still a successor, and
    /// recorded, once, for `end_block`. Of a branch whose two targets are
    /// both `old_end_block` only the first is turned. Nothing changes where
    /// `start_block` returns or has no edge to `old_end_block`.
    pub fn reorient_edge(
        &mut self,
        start_block: BasicBlockIdx,
        old_end_block: BasicBlockIdx,
        end_block: BasicBlockIdx,
    )
        requires
            old(self).wf(),
            old(self).has(start_block),
            !(old(self).blocks()[start_block.0].exit is Fallthrough),
            old(self).succ(start_block).contains(old_end_block) ==> old(self).has(end_block)
                && old(self).blocks()[end_block.0].label is Some
                && old(self).blocks()[start_block.0].instructions@.len() > 0,
        ensures
            final(self).wf(),
            final(self).entry == old(self).entry,
            final(self).signature == old(self).signature,
            final(self).blocks().dom() == old(self).blocks().dom(),
            forall|n: u64|
                n != start_block.0 && old(self).blocks().dom().contains(n) ==> #[trigger] final(self).blocks()[n] == old(self).blocks()[n] && final(self).edges@[n] == old(self).edges@[n],
            final(self).edges@[start_block.0] == redirected(
                old(self).edges@[start_block.0],
                old_end_block,
                end_block,
            ),
            relabeled(
                old(self).blocks()[start_block.0],
                old(self).edges@[start_block.0],
                old_end_block,
                old(self).blocks()[end_block.0].label_text()->0,
                final(self).blocks()[start_block.0],
            ),
            !old(self).succ(start_block).contains(old_end_block) ==> final(self).rev_edges == old(self).rev_edges,
            !old(self).succ(start_block).contains(old_end_block) ==> final(self).vertices
                == old(self).vertices && final(self).edges == old(self).edges,
            forall|b: u64| #[trigger]
                listed(final(self).rev_edges@, b) == turned_predecessors(
                    *old(self),
                    start_block,
                    old_end_block,
                    end_block,
                    b,
                ),
            old(self).terminated() ==> final(self).terminated(),
            old(self).labels_unique() ==> final(self).labels_unique(),
            forall|n: u64| #[trigger]
                old(self).blocks().dom().contains(n) ==> (final(self).blocks()[n].exit
                    is Fallthrough <==> old(self).blocks()[n].exit is Fallthrough),
    {
        let ghost before = *self;
        proof {
            assert(before.blocks().dom().contains(start_block.0));
            assert(exit_agrees(
                before.blocks(),
                before.blocks()[start_block.0].exit,
                before.edges@[start_block.0],
            ));
        }
        let exit = self.edges.get(&start_block.0).unwrap().dup();
        // 0: nothing to turn; 1: the jump's target or the branch's first; 2: the branch's second
        let which: u8 = match &exit {
            Exit::Unconditional(d) => if d.0 == old_end_block.0 {
                1
            } else {
                0
            },
            Exit::Conditional { condition: _, if_true, if_false } => if if_true.0
                == old_end_block.0 {
                1
            } else if if_false.0 == old_end_block.0 {
                2
            } else {
                0
            },
            _ => 0,
        };
        if which == 0 {
            proof {
                assert(!before.succ(start_block).contains(old_end_block)) by {
                    if before.succ(start_block).contains(old_end_block) {
                        let i = choose|i: int|
                            0 <= i < before.succ(start_block).len() && before.succ(
                                start_block,
                            )[i] == old_end_block;
                    }
                }
            }
            return ;
        }
        proof {
            assert(before.succ(start_block)[which as int - 1] == old_end_block);
            assert(before.succ(start_block).contains(old_end_block));
        }
        let name = self.label_name(end_block);
        let block = store_get_mut(&mut self.vertices, start_block);
        let last = block.instructions.len() - 1;
        let new_exit = match exit {
            Exit::Unconditional(_) => {
                let jump = Instruction::jump(name.clone());
                proof {
                    lemma_views_update(block.instructions@, last as int, jump);
                }
                block.instructions[last] = jump;
                block.exit = LabeledExit::Unconditional { label: name, pos: None };
                Exit::Unconditional(end_block)
            },
            Exit::Conditional { condition, if_true, if_false } => {
                let (true_label, false_label, pos) = match &block.exit {
                    LabeledExit::Conditional { condition: _, if_true_label, if_false_label, pos } => (
                        if_true_label.clone(),
                        if_false_label.clone(),
                        *pos,
                    ),
                    _ => (String::new(), String::new(), None),
                };
                let (new_true_label, new_false_label, new_true, new_false) = if which == 1 {
                    (name, false_label, end_block, if_false)
                } else {
                    (true_label, name, if_true, end_block)
                };
                let branch = Instruction::branch(
                    condition.clone(),
                    new_true_label.clone(),
                    new_false_label.clone(),
                );
                proof {
                    lemma_views_update(block.instructions@, last as int, branch);
                }
                block.instructions[last] = branch;
                block.exit = LabeledExit::Conditional {
                    condition: condition.clone(),
                    if_true_label: new_true_label,
                    if_false_label: new_false_label,
                    pos,
                };
                Exit::Conditional { condition, if_true: new_true, if_false: new_false }
            },
            other => other,
        };
        let still = match &new_exit {
            Exit::Conditional { condition: _, if_true, if_false } => if_true.0 == old_end_block.0
                || if_false.0 == old_end_block.0,
            Exit::Unconditional(d) => d.0 == old_end_block.0,
            _ => false,
        };
        self.edges.insert(start_block.0, new_exit);
        if !still {
            remove_predecessor(&mut self.rev_edges, old_end_block.0, start_block);
        }
        let ghost mid = *self;
        add_predecessor(&mut self.rev_edges, end_block.0, start_block);
        proof {
            assert(self.edges@[start_block.0] == redirected(
                before.edges@[start_block.0],
                old_end_block,
                end_block,
            ));
            assert(self.blocks().dom() =~= before.blocks().dom());
            assert(self.edges@.dom() =~= before.edges@.dom());
            assert(forall|n: u64| #[trigger]
                before.blocks().dom().contains(n) ==> self.blocks()[n].label
                    == before.blocks()[n].label);
            assert forall|n: u64| #[trigger] self.blocks().dom().contains(n) implies exit_agrees(
                self.blocks(),
                self.blocks()[n].exit,
                self.edges@[n],
            ) by {
                assert(before.blocks().dom().contains(n));
                assert(exit_agrees(before.blocks(), before.blocks()[n].exit, before.edges@[n]));
            }
            assert forall|p: BasicBlockIdx| p != start_block implies before.succ(p) == self.succ(
                p,
            ) by {}
            let old_succ = before.succ(start_block);
            let new_succ = self.succ(start_block);
            assert(old_succ[which as int - 1] == old_end_block);
            assert(old_succ.contains(old_end_block));
            assert(still <==> new_succ.contains(old_end_block)) by {
                if new_succ.contains(old_end_block) {
                    let i = choose|i: int| 0 <= i < new_succ.len() && new_succ[i] == old_end_block;
                }
                if still {
                    match self.edges@[start_block.0] {
                        Exit::Conditional { if_true, if_false, .. } => {
                            if if_true == old_end_block {
                                assert(new_succ[0] == old_end_block);
                            } else {
                                assert(new_succ[1] == old_end_block);
                            }
                        },
                        _ => {
                            assert(new_succ[0] == old_end_block);
                        },
                    }
                }
            }
            assert(new_succ.contains(end_block)) by {
                if which == 1 {
                    assert(new_succ[0] == end_block);
                } else {
                    assert(new_succ[1] == end_block);
                }
            }
            assert forall|x: BasicBlockIdx|
                x != old_end_block && x != end_block implies (old_succ.contains(x)
                <==> new_succ.contains(x)) by {
                if old_succ.contains(x) {
                    let i = choose|i: int| 0 <= i < old_succ.len() && old_succ[i] == x;
                    assert(new_succ[i] == x);
                }
                if new_succ.contains(x) {
                    let i = choose|i: int| 0 <= i < new_succ.len() && new_succ[i] == x;
                    assert(old_succ[i] == x);
                }
            }
            assert forall|x: BasicBlockIdx| self.has(x) implies (#[trigger] self.preds(
                x,
            )).no_duplicates() && (self.preds(x).contains(start_block) <==> self.has(start_block)
                && self.succ(start_block).contains(x)) && (forall|q: BasicBlockIdx|
                q != start_block ==> (self.preds(x).contains(q) <==> before.preds(x).contains(
                    q,
                ))) by {
                assert(before.has(x));
                assert(before.preds(x).no_duplicates());
                assert(before.preds(x).contains(start_block) <==> before.has(start_block)
                    && before.succ(start_block).contains(x));
                if x == end_block {
                    if !mid.preds(x).contains(start_block) {
                        lemma_push_fresh(mid.preds(x), start_block);
                    }
                    if x != old_end_block || still {
                        assert(mid.preds(x) == before.preds(x));
                    }
                } else {
                    assert(self.preds(x) == mid.preds(x));
                    if x == old_end_block {
                        if still {
                            assert(mid.preds(x) == before.preds(x));
                            assert(old_succ.contains(old_end_block)) by {
                                assert(old_succ[which as int - 1] == old_end_block);
                            }
                        }
                    } else {
                        assert(mid.preds(x) == before.preds(x));
                    }
                }
            }
            lemma_mirrored_redirect(before, *self, start_block);
            assert forall|b: u64| #[trigger]
                listed(self.rev_edges@, b) == turned_predecessors(
                    before,
                    start_block,
                    old_end_block,
                    end_block,
                    b,
                ) by {
                if b != end_block.0 {
                    assert(listed(self.rev_edges@, b) == listed(mid.rev_edges@, b));
                }
                if b != old_end_block.0 || still {
                    assert(listed(mid.rev_edges@, b) == listed(before.rev_edges@, b));
                }
            }
            if before.terminated() {
                assert forall|n: u64| #[trigger] self.blocks().dom().contains(n) implies self.blocks()[n].terminated() by {
                    assert(before.blocks().dom().contains(n));
                    assert(before.blocks()[n].terminated());
                    if n == start_block.0 {
                        let code = self.blocks()[n].code();
                        assert forall|i: int| 0 <= i < code.len() - 1 implies !is_terminator(
                            #[trigger] code[i],
                        ) by {
                            assert(code[i] == before.blocks()[n].code()[i]);
                        }
                    }
                }
            }
            if before.labels_unique() {
                assert forall|a: u64, b: u64|
                    #![trigger self.blocks()[a], self.blocks()[b]]
                    self.blocks().dom().contains(a) && self.blocks().dom().contains(b) && a != b
                        && self.blocks()[a].label is Some implies self.blocks()[a].label_text()
                        != self.blocks()[b].label_text() by {
                    assert(before.blocks().dom().contains(a));
                    assert(before.blocks().dom().contains(b));
                    assert(self.blocks()[a].label == before.blocks()[a].label);
                    assert(self.blocks()[b].label == before.blocks()[b].label);
                    assert(before.blocks()[a].label_text() != before.blocks()[b].label_text());
                }
            }
        }
    }
}

/// Whether every block of `s` but `entry` has a predecessor in `s`, so that
/// no block of `s` is dropped for want of predecessors while the others stay.
pub open spec fn self_supporting(g: FunctionCfg, s: Set<u64>) -> bool {
    &&& s.subset_of(g.blocks().dom())
    &&& forall|n: u64| #[trigger]
        s.contains(n) && n != g.entry.0 ==> exists|p: BasicBlockIdx|
            s.contains(p.0) && #[trigger] g.succ(p).contains(BasicBlockIdx(n))
}

/// Whether `cfg` is what is left of `full` when blocks without predecessors
/// are dropped for as long as there is one: the largest set of blocks of
/// `full` in which every block but the entry has a predecessor, with those
/// blocks and their exits as they were.
pub open spec fn pruned(full: FunctionCfg, cfg: FunctionCfg) -> bool {
    &&& cfg.wf()
    &&& cfg.entry == full.entry
    &&& cfg.signature == full.signature
    &&& cfg.blocks().submap_of(full.blocks())
    &&& cfg.edges@.submap_of(full.edges@)
    &&& forall|b: BasicBlockIdx|
        cfg.has(b) && b != cfg.entry ==> (#[trigger] cfg.preds(b)).len() > 0
    &&& forall|s: Set<u64>| #[trigger] self_supporting(full, s) ==> s.subset_of(cfg.blocks().dom())
}

impl FunctionCfg {
    /// Records the resolved exit of a block that had none, and the block as a
    /// predecessor, once, of each of the exit's targets.
    pub fn record_exit(&mut self, k: BasicBlockIdx, exit: Exit)
        requires
            old(self).has(k),
            !old(self).edges@.contains_key(k.0),
            old(self).mirrored(),
            old(self).rev_edges@.dom().subset_of(old(self).blocks().dom()),
            forall|i: int| 0 <= i < exit.targets().len() ==> old(self).has(#[trigger] exit.targets()[i]),
        ensures
            final(self).edges@ == old(self).edges@.insert(k.0, exit),
            final(self).mirrored(),
            final(self).rev_edges@.dom().subset_of(final(self).blocks().dom()),
            final(self).vertices == old(self).vertices,
            final(self).entry == old(self).entry,
            final(self).signature == old(self).signature,
    {
        let ghost before = *self;
        let (first, second) = match &exit {
            Exit::Fallthrough(d) => (*d, None),
            Exit::Unconditional(d) => (Some(*d), None),
            Exit::Conditional { condition: _, if_true, if_false } => (Some(*if_true), Some(*if_false)),
            Exit::Return(_) => (None, None),
        };
        let ghost targets = exit.targets();
        self.edges.insert(k.0, exit);
        match first {
            Some(t) => {
                assert(targets[0] == t);
                add_predecessor(&mut self.rev_edges, t.0, k);
            },
            None => {},
        }
        let ghost mid = *self;
        match second {
            Some(t) => {
                assert(targets[1] == t);
                add_predecessor(&mut self.rev_edges, t.0, k);
            },
            None => {},
        }
        proof {
            assert(before.succ(k) =~= Seq::<BasicBlockIdx>::empty());
            assert(self.succ(k) == targets);
            assert forall|p: BasicBlockIdx| p != k implies before.succ(p) == self.succ(p) by {}
            assert forall|x: BasicBlockIdx| self.has(x) implies (#[trigger] self.preds(
                x,
            )).no_duplicates() && (self.preds(x).contains(k) <==> self.has(k) && self.succ(
                k,
            ).contains(x)) && (forall|q: BasicBlockIdx|
                q != k ==> (self.preds(x).contains(q) <==> before.preds(x).contains(q))) by {
                assert(before.has(x));
                assert(before.preds(x).no_duplicates());
                assert(before.preds(x).contains(k) <==> before.has(k) && before.succ(k).contains(
                    x,
                ));
                assert(!before.preds(x).contains(k));
                if first == Some(x) {
                    lemma_push_fresh(before.preds(x), k);
                    assert(mid.preds(x) == before.preds(x).push(k));
                    assert(targets[0] == x);
                    if second == Some(x) {
                        assert(self.preds(x) == mid.preds(x));
                    } else {
                        assert(self.preds(x) == mid.preds(x));
                    }
                } else {
                    assert(mid.preds(x) == before.preds(x));
                    if second == Some(x) {
                        lemma_push_fresh(mid.preds(x), k);
                        assert(targets[1] == x);
                    } else {
                        assert(self.preds(x) == mid.preds(x));
                        if targets.contains(x) {
                            let i = choose|i: int| 0 <= i < targets.len() && targets[i] == x;
                        }
                    }
                }
            }
            lemma_mirrored_redirect(before, *self, k);
        }
    }

    /// Drops a block that is not the entry and has no predecessor.
    fn remove_block(&mut self, k: BasicBlockIdx)
        requires
            old(self).wf(),
            old(self).has(k),
            k != old(self).entry,
            old(self).preds(k).len() == 0,
        ensures
            final(self).wf(),
            final(self).entry == old(self).entry,
            final(self).signature == old(self).signature,
            final(self).blocks() == old(self).blocks().remove(k.0),
            final(self).edges@ == old(self).edges@.remove(k.0),
    {
        let ghost before = *self;
        let targets = self.successors(k);
        let mut i: usize = 0;
        while i < targets.len()
            invariant
                i <= targets@.len(),
                targets@ == before.succ(k),
                before.wf(),
                before.has(k),
                self.vertices == before.vertices,
                self.edges == before.edges,
                self.entry == before.entry,
                self.signature == before.signature,
                self.rev_edges@.dom() == before.rev_edges@.dom(),
                forall|x: BasicBlockIdx, q: BasicBlockIdx|
                    q != k ==> (#[trigger] self.preds(x).contains(q) <==> before.preds(x).contains(
                        q,
                    )),
                forall|x: BasicBlockIdx| #[trigger] self.preds(x).contains(k) ==> before.preds(x).contains(k),
                forall|x: BasicBlockIdx| before.has(x) ==> (#[trigger] self.preds(x)).no_duplicates(),
                forall|j: int| 0 <= j < i ==> !self.preds(#[trigger] targets@[j]).contains(k),
            decreases targets@.len() - i,
        {
            let t = targets[i];
            let ghost mid = *self;
            proof {
                lemma_targets_exist(before, k, t);
                assert(mid.preds(t).no_duplicates());
            }
            remove_predecessor(&mut self.rev_edges, t.0, k);
            proof {
                assert forall|x: BasicBlockIdx, q: BasicBlockIdx| q != k implies (
                #[trigger] self.preds(x).contains(q) <==> before.preds(x).contains(q)) by {
                    if x.0 == t.0 {
                        assert(x == t);
                    } else {
                        assert(self.preds(x) == mid.preds(x));
                    }
                    assert(mid.preds(x).contains(q) <==> before.preds(x).contains(q));
                }
                assert forall|x: BasicBlockIdx| #[trigger]
                    self.preds(x).contains(k) implies before.preds(x).contains(k) by {
                    if x.0 == t.0 {
                        assert(x == t);
                    } else {
                        assert(self.preds(x) == mid.preds(x));
                    }
                }
                assert forall|x: BasicBlockIdx| before.has(x) implies (#[trigger] self.preds(
                    x,
                )).no_duplicates() by {
                    assert(mid.preds(x).no_duplicates());
                    if x.0 == t.0 {
                        assert(x == t);
                    } else {
                        assert(self.preds(x) == mid.preds(x));
                    }
                }
                assert forall|j: int| 0 <= j < i + 1 implies !self.preds(
                    #[trigger] targets@[j],
                ).contains(k) by {
                    if targets@[j] != t {
                        assert(self.preds(targets@[j]) == mid.preds(targets@[j]));
                    }
                }
            }
            i += 1;
        }
        let ghost mid = *self;
        self.rev_edges.remove(&k.0);
        self.edges.remove(&k.0);
        let _ = store_remove(&mut self.vertices, k);
        proof {
            assert(self.blocks() == before.blocks().remove(k.0));
            assert(self.blocks().dom() =~= before.blocks().dom().remove(k.0));
            assert(self.edges@.dom() =~= self.blocks().dom());
            assert(self.has(self.entry));
            assert forall|x: BasicBlockIdx| !mid.preds(x).contains(k) by {
                if mid.preds(x).contains(k) {
                    assert(before.preds(x).contains(k));
                    if before.has(x) {
                        assert(before.preds(x).contains(k) <==> before.has(k) && before.succ(
                            k,
                        ).contains(x));
                        let j = choose|j: int| 0 <= j < targets@.len() && targets@[j] == x;
                        assert(!mid.preds(targets@[j]).contains(k));
                    } else {
                        assert(!before.rev_edges@.dom().contains(x.0));
                    }
                }
            }
            assert forall|x: BasicBlockIdx, p: BasicBlockIdx| self.has(x) implies (
            #[trigger] self.preds(x).contains(p) <==> self.has(p) && self.succ(p).contains(x)) by {
                assert(before.has(x));
                assert(x != k);
                assert(self.preds(x) == mid.preds(x));
                assert(before.preds(x).contains(p) <==> before.has(p) && before.succ(p).contains(
                    x,
                ));
                if p != k {
                    assert(self.succ(p) == before.succ(p));
                } else {
                    assert(!mid.preds(x).contains(k));
                }
            }
            assert forall|x: BasicBlockIdx| self.has(x) implies (#[trigger] self.preds(
                x,
            )).no_duplicates() by {
                assert(before.has(x));
                assert(self.preds(x) == mid.preds(x));
            }
            assert forall|n: u64| #[trigger] self.blocks().dom().contains(n) implies exit_agrees(
                self.blocks(),
                self.blocks()[n].exit,
                self.edges@[n],
            ) by {
                assert(before.blocks().dom().contains(n));
                assert(exit_agrees(before.blocks(), before.blocks()[n].exit, before.edges@[n]));
                let p = BasicBlockIdx(n);
                assert forall|j: int| 0 <= j < before.succ(p).len() implies before.succ(p)[j]
                    != k by {
                    if before.succ(p)[j] == k {
                        assert(before.succ(p).contains(k));
                        assert(before.preds(k).contains(p) <==> before.has(p) && before.succ(
                            p,
                        ).contains(k));
                    }
                }
                match before.edges@[n] {
                    Exit::Fallthrough(Some(d)) => {
                        assert(before.succ(p)[0] == d);
                    },
                    Exit::Unconditional(d) => {
                        assert(before.succ(p)[0] == d);
                    },
                    Exit::Conditional { if_true, if_false, .. } => {
                        assert(before.succ(p)[0] == if_true);
                        assert(before.succ(p)[1] == if_false);
                    },
                    _ => {},
                }
            }
        }
    }

    /// Drops, for as long as there is one, a block other than the entry
    /// that has no predecessor among the blocks that are left. What is left
    /// is the largest set of blocks in which every block but the entry has a
    /// predecessor; those blocks and their exits are as they were.
    pub fn prune_unreachable(&mut self)
        requires
            old(self).wf(),
        ensures
            pruned(*old(self), *final(self)),
            old(self).terminated() ==> final(self).terminated(),
            old(self).labels_unique() ==> final(self).labels_unique(),
    {
        let ghost before = *self;
        loop
            invariant
                before.wf(),
                self.wf(),
                self.entry == before.entry,
                self.signature == before.signature,
                self.blocks().submap_of(before.blocks()),
                self.edges@.submap_of(before.edges@),
                forall|s: Set<u64>| #[trigger]
                    self_supporting(before, s) ==> s.subset_of(self.blocks().dom()),
            ensures
                forall|b: BasicBlockIdx|
                    self.has(b) && b != self.entry ==> (#[trigger] self.preds(b)).len() > 0,
            decreases self.blocks().dom().len(),
        {
            let keys = self.keys();
            let ghost round = *self;
            let mut removed = false;
            let mut i: usize = 0;
            while i < keys.len()
                invariant
                    i <= keys@.len(),
                    before.wf(),
                    round.wf(),
                    self.wf(),
                    self.entry == before.entry,
                    self.signature == before.signature,
                    self.blocks().submap_of(round.blocks()),
                    self.blocks().submap_of(before.blocks()),
                    self.edges@.submap_of(before.edges@),
                    forall|k: BasicBlockIdx| #[trigger] keys@.contains(k) <==> round.has(k),
                    removed ==> self.blocks().dom().len() < round.blocks().dom().len(),
                    !removed ==> *self == round,
                    !removed ==> forall|j: int|
                        0 <= j < i && (#[trigger] keys@[j]) != self.entry ==> self.preds(
                            keys@[j],
                        ).len() > 0,
                    forall|s: Set<u64>| #[trigger]
                        self_supporting(before, s) ==> s.subset_of(self.blocks().dom()),
                decreases keys@.len() - i,
            {
                let k = keys[i];
                assert(keys@.contains(k));
                if k.0 != self.entry.0 && self.contains(k) && self.predecessors(k).len() == 0 {
                    let ghost mid = *self;
                    self.remove_block(k);
                    proof {
                        assert(self.blocks().submap_of(mid.blocks()));
                        assert(self.edges@.submap_of(mid.edges@));
                        assert(self.blocks().submap_of(before.blocks())) by {
                            assert forall|n: u64| #[trigger]
                                self.blocks().dom().contains(n) implies before.blocks().dom().contains(
                                n,
                            ) && self.blocks()[n] == before.blocks()[n] by {
                                assert(mid.blocks().submap_of(before.blocks()));
                                assert(mid.blocks().dom().contains(n));
                                assert(before.blocks().dom().contains(n));
                                assert(mid.blocks()[n] == before.blocks()[n]);
                            }
                        }
                        assert(self.blocks().submap_of(round.blocks())) by {
                            assert forall|n: u64| #[trigger]
                                self.blocks().dom().contains(n) implies round.blocks().dom().contains(
                                n,
                            ) && self.blocks()[n] == round.blocks()[n] by {
                                assert(mid.blocks().dom().contains(n));
                            }
                        }
                        assert(self.edges@.submap_of(before.edges@)) by {
                            assert forall|n: u64| #[trigger]
                                self.edges@.dom().contains(n) implies before.edges@.dom().contains(n)
                                && self.edges@[n] == before.edges@[n] by {
                                assert(mid.edges@.submap_of(before.edges@));
                                assert(mid.edges@.dom().contains(n));
                                assert(before.edges@.dom().contains(n));
                            }
                        }
                        assert(mid.blocks().dom().contains(k.0));
                        assert(self.blocks().dom() =~= mid.blocks().dom().remove(k.0));
                        assert(self.blocks().dom().len() < mid.blocks().dom().len());
                        vstd::set_lib::lemma_len_subset(
                            mid.blocks().dom(),
                            round.blocks().dom(),
                        );
                        assert forall|s: Set<u64>| #[trigger]
                            self_supporting(before, s) implies s.subset_of(self.blocks().dom()) by {
                            assert(s.subset_of(mid.blocks().dom()));
                            if s.contains(k.0) {
                                let p = choose|p: BasicBlockIdx|
                                    s.contains(p.0) && #[trigger] before.succ(p).contains(
                                        BasicBlockIdx(k.0),
                                    );
                                assert(mid.has(p));
                                assert(mid.edges@.dom().contains(p.0));
                                assert(mid.edges@[p.0] == before.edges@[p.0]);
                                assert(mid.succ(p) == before.succ(p));
                                assert(mid.preds(k).contains(p) <==> mid.has(p) && mid.succ(
                                    p,
                                ).contains(k));
                            }
                        }
                    }
                    removed = true;
                }
                i += 1;
            }
            if !removed {
                proof {
                    assert forall|b: BasicBlockIdx| self.has(b) && b != self.entry implies (
                    #[trigger] self.preds(b)).len() > 0 by {
                        assert(keys@.contains(b));
                        let j = choose|j: int| 0 <= j < keys@.len() && keys@[j] == b;
                    }
                }
                break ;
            }
        }
        proof {
            if before.terminated() {
                assert forall|n: u64| #[trigger] self.blocks().dom().contains(n) implies self.blocks()[n].terminated() by {
                    assert(before.blocks().dom().contains(n));
                }
            }
            if before.labels_unique() {
                assert forall|a: u64, b: u64|
                    #![trigger self.blocks()[a], self.blocks()[b]]
                    self.blocks().dom().contains(a) && self.blocks().dom().contains(b) && a != b
                        && self.blocks()[a].label is Some implies self.blocks()[a].label_text()
                        != self.blocks()[b].label_text() by {
                    assert(before.blocks().dom().contains(a));
                    assert(before.blocks().dom().contains(b));
                    assert(before.blocks()[a].label_text() != before.blocks()[b].label_text());
                }
            }
        }
    }
}

/// Whether `after` is `before` but for the instructions of its blocks.
pub open spec fn same_shape(before: FunctionCfg, after: FunctionCfg) -> bool {
    &&& after.entry == before.entry
    &&& after.signature == before.signature
    &&& after.edges == before.edges
    &&& after.rev_edges == before.rev_edges
    &&& after.blocks().dom() == before.blocks().dom()
    &&& forall|n: u64| #[trigger]
        before.blocks().dom().contains(n) ==> after.blocks()[n].label == before.blocks()[n].label
            && after.blocks()[n].is_entry == before.blocks()[n].is_entry
            && after.blocks()[n].exit == before.blocks()[n].exit
}

/// A change of instructions alone keeps a graph well-formed, its labels
/// distinct and its successors the same.
pub proof fn lemma_same_shape(before: FunctionCfg, after: FunctionCfg)
    requires
        before.wf(),
        same_shape(before, after),
    ensures
        after.wf(),
        before.labels_unique() ==> after.labels_unique(),
        before.no_fallthroughs() ==> after.no_fallthroughs(),
        forall|p: BasicBlockIdx| before.succ(p) == after.succ(p),
        forall|p: BasicBlockIdx| before.preds(p) == after.preds(p),
{
    assert forall|p: BasicBlockIdx| before.succ(p) == after.succ(p) by {}
    lemma_mirrored_same(before, after);
    assert forall|n: u64| #[trigger] after.blocks().dom().contains(n) implies exit_agrees(
        after.blocks(),
        after.blocks()[n].exit,
        after.edges@[n],
    ) by {
        assert(before.blocks().dom().contains(n));
        assert(exit_agrees(before.blocks(), before.blocks()[n].exit, before.edges@[n]));
    }
    if before.labels_unique() {
        assert forall|a: u64, b: u64|
            #![trigger after.blocks()[a], after.blocks()[b]]
            after.blocks().dom().contains(a) && after.blocks().dom().contains(b) && a != b
                && after.blocks()[a].label is Some implies after.blocks()[a].label_text()
            != after.blocks()[b].label_text() by {
            assert(before.blocks().dom().contains(a));
            assert(before.blocks().dom().contains(b));
            assert(before.blocks()[a].label_text() != before.blocks()[b].label_text());
        }
    }
    if before.no_fallthroughs() {
        assert forall|n: u64| #[trigger] after.blocks().dom().contains(n) implies !(
        after.blocks()[n].exit is Fallthrough) && (after.edges@.contains_key(n) ==> !(
        after.edges@[n] is Fallthrough)) by {
            assert(before.blocks().dom().contains(n));
        }
    }
}

/// Shapes that are the same stay the same over a further change of
/// instructions.
pub proof fn lemma_same_shape_chain(a: FunctionCfg, b: FunctionCfg, c: FunctionCfg)
    requires
        same_shape(a, b),
        same_shape(b, c),
    ensures
        same_shape(a, c),
{
    assert forall|n: u64| #[trigger] a.blocks().dom().contains(n) implies c.blocks()[n].label
        == a.blocks()[n].label && c.blocks()[n].is_entry == a.blocks()[n].is_entry
        && c.blocks()[n].exit == a.blocks()[n].exit by {
        assert(b.blocks().dom().contains(n));
    }
}

/// In a well-formed graph the predecessors mirror the successors: `p` is
/// recorded as a predecessor of `b` if and only if `p` is a block with `b`
/// among its successors, and no predecessor is recorded twice.
pub proof fn lemma_predecessors_mirror_successors(cfg: FunctionCfg, b: BasicBlockIdx, p: BasicBlockIdx)
    requires
        cfg.wf(),
    ensures
        cfg.preds(b).contains(p) <==> cfg.has(p) && cfg.succ(p).contains(b),
        cfg.preds(b).no_duplicates(),
{
    if !cfg.has(b) {
        if cfg.has(p) && cfg.succ(p).contains(b) {
            lemma_targets_exist(cfg, p, b);
        }
        if cfg.preds(b).len() > 0 {
            assert(cfg.rev_edges@.dom().contains(b.0));
            assert(BasicBlockIdx(b.0) == b);
        }
    }
}

} // verus!
