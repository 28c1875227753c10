//! The operand of an exit, kept in step with the terminator of its block.

use vstd::prelude::*;
use crate::ir::{Instruction, InstructionView};
use crate::store::{BasicBlock, BasicBlockIdx, LabeledExit, store_get_mut};
use crate::cfg::{Exit, FunctionCfg, exit_agrees, is_terminator, lemma_mirrored_same, terminator_of};

verus! {

broadcast use vstd::std_specs::hash::group_hash_axioms;

/// The first argument of the last instruction of `code`, if that is an
/// effect with an argument, else `otherwise`.
pub open spec fn last_operand(code: Seq<InstructionView>, otherwise: Seq<char>) -> Seq<char> {
    if code.len() > 0 && code.last() is Effect && code.last()->Effect_args.len() > 0 {
        code.last()->Effect_args[0]
    } else {
        otherwise
    }
}

/// Whether `after` is the exit `before` with its operand, the condition of
/// a branch or the value of a return, taken anew from the terminator that
/// ends `code`.
pub open spec fn exit_refreshed(before: LabeledExit, after: LabeledExit, code: Seq<InstructionView>) -> bool {
    match before {
        LabeledExit::Conditional { condition, if_true_label, if_false_label, pos } => {
            &&& after is Conditional
            &&& after->Conditional_condition@ == last_operand(code, condition@)
            &&& after->if_true_label@ == if_true_label@
            &&& after->if_false_label@ == if_false_label@
            &&& after->Conditional_pos == pos
        },
        LabeledExit::Return(Some(v)) => {
            &&& after is Return
            &&& after->Return_0 is Some
            &&& after->Return_0->0@ == last_operand(code, v@)
        },
        _ => after == before,
    }
}

/// Takes the operand of the block's exit anew from its terminator.
pub fn refresh_exit(block: &mut BasicBlock)
    ensures
        final(block).instructions == old(block).instructions,
        final(block).label == old(block).label,
        final(block).is_entry == old(block).is_entry,
        exit_refreshed(old(block).exit, final(block).exit, old(block).code()),
{
    let n = block.instructions.len();
    let operand = if n == 0 {
        None
    } else {
        match &block.instructions[n - 1] {
            Instruction::Effect { op: _, args, funcs: _, labels: _, pos: _ } => if args.len() > 0 {
                Some(args[0].clone())
            } else {
                None
            },
            _ => None,
        }
    };
    let new_exit = match operand {
        Some(v) => match &block.exit {
            LabeledExit::Conditional { condition: _, if_true_label, if_false_label, pos } => Some(
                LabeledExit::Conditional {
                    condition: v,
                    if_true_label: if_true_label.clone(),
                    if_false_label: if_false_label.clone(),
                    pos: *pos,
                },
            ),
            LabeledExit::Return(Some(_)) => Some(LabeledExit::Return(Some(v))),
            _ => None,
        },
        None => None,
    };
    match new_exit {
        Some(e) => {
            block.exit = e;
        },
        None => {},
    }
}

/// Whether `after` is the block `before` with the operand of its exit taken
/// anew from its terminator.
pub open spec fn refreshed(before: BasicBlock, after: BasicBlock) -> bool {
    &&& after.instructions == before.instructions
    &&& after.label == before.label
    &&& after.is_entry == before.is_entry
    &&& exit_refreshed(before.exit, after.exit, before.code())
}

/// Whether `i` is a terminator of the kind that the exit `exit` asks for,
/// whatever its operand.
pub open spec fn shaped_for(exit: LabeledExit, i: InstructionView) -> bool {
    match (exit, i) {
        (LabeledExit::Unconditional { label, .. }, InstructionView::Effect { op, labels, .. }) => op
            == crate::ir::EffectOp::Jump && labels == seq![label@],
        (
            LabeledExit::Conditional { if_true_label, if_false_label, .. },
            InstructionView::Effect { op, args, labels, .. },
        ) => op == crate::ir::EffectOp::Branch && args.len() == 1 && labels == seq![
            if_true_label@,
            if_false_label@,
        ],
        (LabeledExit::Return(None), InstructionView::Effect { op, args, labels, .. }) => op
            == crate::ir::EffectOp::Return && args.len() == 0 && labels.len() == 0,
        (LabeledExit::Return(Some(_)), InstructionView::Effect { op, args, labels, .. }) => op
            == crate::ir::EffectOp::Return && args.len() == 1 && labels.len() == 0,
        _ => false,
    }
}

/// Whether the block's instructions agree with its exit but perhaps for
/// the operand: a block that falls through holds no terminator; any other
/// block ends in a terminator of the kind of its exit and holds no other.
pub open spec fn ends_like(b: BasicBlock) -> bool {
    let code = b.code();
    if b.exit is Fallthrough {
        forall|i: int| 0 <= i < code.len() ==> !is_terminator(#[trigger] code[i])
    } else {
        &&& code.len() > 0
        &&& shaped_for(b.exit, code.last())
        &&& forall|i: int| 0 <= i < code.len() - 1 ==> !is_terminator(#[trigger] code[i])
    }
}

/// A block whose instructions agree with its exit does so whatever the
/// operand.
pub proof fn lemma_terminated_ends(b: BasicBlock)
    requires
        b.terminated(),
    ensures
        ends_like(b),
{
}

/// A block that agrees with its exit but for the operand agrees with its
/// refreshed exit.
pub proof fn lemma_refreshed_terminated(before: BasicBlock, after: BasicBlock)
    requires
        ends_like(before),
        refreshed(before, after),
    ensures
        after.terminated(),
{
    let code = before.code();
    assert(after.code() == code);
    match before.exit {
        LabeledExit::Conditional { .. } => {
            assert(code.last()->Effect_args =~= seq![after.exit->Conditional_condition@]);
        },
        LabeledExit::Return(Some(v)) => {
            assert(code.last()->Effect_args =~= seq![after.exit->Return_0->0@]);
        },
        _ => {},
    }
}

impl FunctionCfg {
    /// Takes the operand of the exit of the block `k` anew from its
    /// terminator, in the block and among the resolved exits.
    fn refresh_exit_at(&mut self, k: BasicBlockIdx)
        requires
            old(self).wf(),
            old(self).has(k),
        ensures
            final(self).wf(),
            final(self).entry == old(self).entry,
            final(self).rev_edges == old(self).rev_edges,
            final(self).signature == old(self).signature,
            final(self).blocks().dom() == old(self).blocks().dom(),
            forall|n: u64|
                n != k.0 && old(self).blocks().dom().contains(n) ==> #[trigger] final(self).blocks()[n] == old(self).blocks()[n] && final(self).edges@[n] == old(self).edges@[n],
            refreshed(old(self).blocks()[k.0], final(self).blocks()[k.0]),
            forall|p: BasicBlockIdx| old(self).succ(p) == final(self).succ(p),
    {
        let ghost before = *self;
        proof {
            assert(before.blocks().dom().contains(k.0));
            assert(exit_agrees(before.blocks(), before.blocks()[k.0].exit, before.edges@[k.0]));
        }
        let block = store_get_mut(&mut self.vertices, k);
        refresh_exit(block);
        let operand = match &block.exit {
            LabeledExit::Conditional { condition, .. } => Some(condition.clone()),
            LabeledExit::Return(Some(v)) => Some(v.clone()),
            _ => None,
        };
        let new_edge = match operand {
            Some(v) => match self.edges.get(&k.0) {
                Some(Exit::Conditional { condition: _, if_true, if_false }) => Some(
                    Exit::Conditional { condition: v, if_true: *if_true, if_false: *if_false },
                ),
                Some(Exit::Return(Some(_))) => Some(Exit::Return(Some(v))),
                _ => None,
            },
            None => None,
        };
        match new_edge {
            Some(e) => {
                self.edges.insert(k.0, e);
            },
            None => {},
        }
        proof {
            assert(self.blocks().dom() =~= before.blocks().dom());
            assert(self.edges@.dom() =~= before.edges@.dom());
            assert forall|p: BasicBlockIdx| before.succ(p) == self.succ(p) by {
                if p.0 == k.0 {
                    assert(p == k);
                    assert(before.succ(p) =~= self.succ(p));
                }
            }
            lemma_mirrored_same(before, *self);
            assert(forall|n: u64| #[trigger]
                before.blocks().dom().contains(n) ==> self.blocks()[n].label
                    == before.blocks()[n].label);
            assert forall|n: u64| #[trigger] self.blocks().dom().contains(n) implies exit_agrees(
                self.blocks(),
                self.blocks()[n].exit,
                self.edges@[n],
            ) by {
                assert(before.blocks().dom().contains(n));
                assert(exit_agrees(before.blocks(), before.blocks()[n].exit, before.edges@[n]));
            }
        }
    }

    /// Takes the operand of every exit anew from the terminator of its
    /// block: the condition of a branch, the value of a return. Blocks whose
    /// instructions agreed with their exits but for the operand agree with
    /// them afterwards.
    pub fn refresh_exits(&mut self)
        requires
            old(self).wf(),
        ensures
            final(self).wf(),
            final(self).entry == old(self).entry,
            final(self).rev_edges == old(self).rev_edges,
            final(self).signature == old(self).signature,
            final(self).blocks().dom() == old(self).blocks().dom(),
            forall|n: u64| #[trigger]
                old(self).blocks().dom().contains(n) ==> refreshed(
                    old(self).blocks()[n],
                    final(self).blocks()[n],
                ),
            forall|p: BasicBlockIdx| old(self).succ(p) == final(self).succ(p),
            (forall|n: u64| #[trigger]
                old(self).blocks().dom().contains(n) ==> ends_like(old(self).blocks()[n]))
                ==> final(self).terminated(),
    {
        let ghost before = *self;
        let keys = self.keys();
        let mut i: usize = 0;
        while i < keys.len()
            invariant
                i <= keys@.len(),
                before.wf(),
                self.wf(),
                self.entry == before.entry,
                self.rev_edges == before.rev_edges,
                self.signature == before.signature,
                self.blocks().dom() == before.blocks().dom(),
                keys@.no_duplicates(),
                forall|k: BasicBlockIdx| #[trigger] keys@.contains(k) <==> before.has(k),
                forall|p: BasicBlockIdx| before.succ(p) == self.succ(p),
                forall|j: int|
                    0 <= j < i ==> refreshed(
                        before.blocks()[(#[trigger] keys@[j]).0],
                        self.blocks()[keys@[j].0],
                    ),
                forall|j: int|
                    i <= j < keys@.len() ==> self.blocks()[(#[trigger] keys@[j]).0]
                        == before.blocks()[keys@[j].0],
            decreases keys@.len() - i,
        {
            let k = keys[i];
            let ghost mid = *self;
            assert(keys@.contains(k));
            self.refresh_exit_at(k);
            proof {
                assert forall|j: int| 0 <= j < i implies refreshed(
                    before.blocks()[(#[trigger] keys@[j]).0],
                    self.blocks()[keys@[j].0],
                ) by {
                    assert(keys@[j] != k);
                    assert(keys@.contains(keys@[j]));
                    assert(self.blocks()[keys@[j].0] == mid.blocks()[keys@[j].0]);
                }
                assert forall|j: int| i + 1 <= j < keys@.len() implies self.blocks()[(
                #[trigger] keys@[j]).0] == before.blocks()[keys@[j].0] by {
                    assert(keys@[j] != k);
                    assert(keys@.contains(keys@[j]));
                    assert(self.blocks()[keys@[j].0] == mid.blocks()[keys@[j].0]);
                }
                assert forall|p: BasicBlockIdx| before.succ(p) == self.succ(p) by {
                    assert(mid.succ(p) == self.succ(p));
                }
            }
            i += 1;
        }
        proof {
            assert forall|n: u64| #[trigger] before.blocks().dom().contains(n) implies refreshed(
                before.blocks()[n],
                self.blocks()[n],
            ) by {
                let k = BasicBlockIdx(n);
                assert(before.has(k));
                assert(keys@.contains(k));
                let j = choose|j: int| 0 <= j < keys@.len() && keys@[j] == k;
                assert(keys@[j].0 == n);
            }
            if forall|n: u64| #[trigger]
                before.blocks().dom().contains(n) ==> ends_like(before.blocks()[n]) {
                assert forall|n: u64| #[trigger] self.blocks().dom().contains(n) implies self.blocks()[n].terminated() by {
                    assert(before.blocks().dom().contains(n));
                    lemma_refreshed_terminated(before.blocks()[n], self.blocks()[n]);
                }
            }
        }
    }
}

/// Whether the instruction is a jump, a branch or a return.
pub fn ends_block(instruction: &Instruction) -> (r: bool)
    ensures
        r == is_terminator(instruction@),
{
    match instruction {
        Instruction::Effect { op, .. } => match op {
            crate::ir::EffectOp::Jump => true,
            crate::ir::EffectOp::Branch => true,
            crate::ir::EffectOp::Return => true,
            _ => false,
        },
        _ => false,
    }
}

/// Whether the instruction is the terminator that the exit asks for.
pub fn ends_as(exit: &LabeledExit, instruction: &Instruction) -> (r: bool)
    ensures
        r == terminator_of(*exit, instruction@),
{
    match instruction {
        Instruction::Effect { op, args, funcs: _, labels, pos: _ } => {
            let ghost a = crate::ir::texts(args@);
            let ghost l = crate::ir::texts(labels@);
            let is_jump = match op {
                crate::ir::EffectOp::Jump => true,
                _ => false,
            };
            let is_branch = match op {
                crate::ir::EffectOp::Branch => true,
                _ => false,
            };
            let is_return = match op {
                crate::ir::EffectOp::Return => true,
                _ => false,
            };
            proof {
                assert(is_jump == (*op == crate::ir::EffectOp::Jump));
                assert(is_branch == (*op == crate::ir::EffectOp::Branch));
                assert(is_return == (*op == crate::ir::EffectOp::Return));
                assert(instruction@->Effect_op == *op);
                assert(instruction@->Effect_args == a);
                assert(instruction@->Effect_labels == l);
            }
            match exit {
                LabeledExit::Fallthrough => false,
                LabeledExit::Unconditional { label, pos: _ } => {
                    let ok = is_jump && labels.len() == 1
                        && labels[0] == *label;
                    proof {
                        if ok {
                            assert(l =~= seq![label@]);
                        } else if labels@.len() == 1 {
                            assert(l[0] == labels@[0]@);
                            assert(seq![label@][0] == label@);
                        }
                    }
                    ok
                },
                LabeledExit::Conditional { condition, if_true_label, if_false_label, pos: _ } => {
                    let ok = is_branch && args.len() == 1 && args[0]
                        == *condition && labels.len() == 2 && labels[0] == *if_true_label
                        && labels[1] == *if_false_label;
                    proof {
                        if ok {
                            assert(a =~= seq![condition@]);
                            assert(l =~= seq![if_true_label@, if_false_label@]);
                        } else {
                            if args@.len() == 1 {
                                assert(a[0] == args@[0]@);
                                assert(seq![condition@][0] == condition@);
                            }
                            if labels@.len() == 2 {
                                assert(l[0] == labels@[0]@);
                                assert(l[1] == labels@[1]@);
                                assert(seq![if_true_label@, if_false_label@][0] == if_true_label@);
                                assert(seq![if_true_label@, if_false_label@][1] == if_false_label@);
                            }
                        }
                    }
                    ok
                },
                LabeledExit::Return(None) => is_return && args.len() == 0 && labels.len() == 0,
                LabeledExit::Return(Some(v)) => {
                    let ok = is_return && args.len() == 1 && args[0]
                        == *v && labels.len() == 0;
                    proof {
                        if ok {
                            assert(a =~= seq![v@]);
                        } else if args@.len() == 1 {
                            assert(a[0] == args@[0]@);
                            assert(seq![v@][0] == v@);
                        }
                    }
                    ok
                },
            }
        },
        _ => false,
    }
}

impl BasicBlock {
    /// Whether the block's instructions agree with its exit.
    pub fn is_terminated(&self) -> (r: bool)
        ensures
            r == self.terminated(),
    {
        let ghost code = self.code();
        let n = self.instructions.len();
        let falls = match self.exit {
            LabeledExit::Fallthrough => true,
            _ => false,
        };
        if !falls && n == 0 {
            return false;
        }
        let body = if falls {
            n
        } else {
            n - 1
        };
        let mut i: usize = 0;
        while i < body
            invariant
                i <= body <= n,
                n == self.instructions@.len(),
                falls == (self.exit is Fallthrough),
                body == if falls { n as int } else { n - 1 },
                code == self.code(),
                forall|j: int| 0 <= j < i ==> !is_terminator(#[trigger] code[j]),
            decreases body - i,
        {
            assert(code[i as int] == self.instructions@[i as int]@);
            if ends_block(&self.instructions[i]) {
                assert(is_terminator(code[i as int]));
                return false;
            }
            i += 1;
        }
        if falls {
            true
        } else {
            assert(code.last() == self.instructions@[n - 1]@);
            ends_as(&self.exit, &self.instructions[n - 1])
        }
    }
}

impl FunctionCfg {
    /// Whether every block's instructions agree with its exit.
    pub fn is_terminated(&self) -> (r: bool)
        requires
            self.wf(),
        ensures
            r == self.terminated(),
    {
        let keys = self.keys();
        let mut i: usize = 0;
        while i < keys.len()
            invariant
                i <= keys@.len(),
                self.wf(),
                forall|k: BasicBlockIdx| #[trigger] keys@.contains(k) <==> self.has(k),
                forall|j: int| 0 <= j < i ==> self.blocks()[(#[trigger] keys@[j]).0].terminated(),
            decreases keys@.len() - i,
        {
            let k = keys[i];
            assert(keys@.contains(k));
            match self.block(k) {
                Some(block) => {
                    if !block.is_terminated() {
                        assert(self.blocks().dom().contains(k.0));
                        assert(!self.blocks()[k.0].terminated());
                        return false;
                    }
                },
                None => {},
            }
            i += 1;
        }
        proof {
            assert forall|n: u64| #[trigger] self.blocks().dom().contains(n) implies self.blocks()[n].terminated() by {
                assert(keys@.contains(BasicBlockIdx(n)));
                let j = choose|j: int| 0 <= j < keys@.len() && keys@[j] == BasicBlockIdx(n);
                assert(keys@[j].0 == n);
            }
        }
        true
    }
}

} // verus!
