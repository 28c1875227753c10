//! Construction of a control-flow graph from the flat body of a function:
//! the body is cut into basic blocks, then every exit is resolved from labels
//! to handles and recorded with the predecessors of its targets.

use vstd::prelude::*;
use vstd::hash_map::StringHashMap;
use std::collections::HashMap;
use crate::ir::{
    Argument, Code, EffectOp, Function, Instruction, InstructionView, Position, Type,
    dup_type_option,
};
use crate::store::{
    BasicBlock, BasicBlockIdx, Label, LabeledExit, canonical, store_insert, store_new, store_get,
};
use crate::cfg::{
    Exit,
    FunctionCfg,
    FunctionSignature,
    exit_agrees,
    is_terminator,
    listed,
    lemma_push_fresh,
    terminator_of,
};

verus! {

broadcast use vstd::std_specs::hash::group_hash_axioms;

/// Why a function's body could not be made into a graph.
#[derive(Debug)]
pub enum BuildError {
    /// A jump that does not name exactly one label.
    JumpLabels { pos: Option<Position> },
    /// A branch that does not take exactly one condition.
    BranchCondition { pos: Option<Position> },
    /// A branch that does not name exactly two labels.
    BranchLabels { pos: Option<Position> },
    /// A return that takes more than one value.
    ReturnArguments { pos: Option<Position> },
    /// A return that names a label.
    ReturnLabels { pos: Option<Position> },
    /// A jump or branch to a label that the function does not define.
    UnknownLabel { label: String, pos: Option<Position> },
}

/// The mathematical value of a line of a function's body.
pub enum CodeView {
    Label(Seq<char>),
    Instruction(InstructionView),
}

impl View for Code {
    type V = CodeView;

    open spec fn view(&self) -> CodeView {
        match *self {
            Code::Label { label, .. } => CodeView::Label(label@),
            Code::Instruction(i) => CodeView::Instruction(i@),
        }
    }
}

/// The values of the lines of a body.
pub open spec fn code_views(lines: Seq<Code>) -> Seq<CodeView> {
    Seq::new(lines.len(), |i: int| lines[i]@)
}

/// The lines that a block stands for: its label, if it has one, then its
/// instructions.
pub open spec fn block_lines(b: BasicBlock) -> Seq<CodeView> {
    let head = match b.label {
        Some(l) => seq![CodeView::Label(l.name@)],
        None => Seq::empty(),
    };
    head + Seq::new(b.instructions@.len(), |i: int| CodeView::Instruction(b.instructions@[i]@))
}

/// The lines that the blocks `order` stand for, one block after the other.
pub open spec fn rendered(blocks: Map<u64, BasicBlock>, order: Seq<BasicBlockIdx>) -> Seq<CodeView>
    decreases order.len(),
{
    if order.len() == 0 {
        Seq::empty()
    } else {
        rendered(blocks, order.drop_last()) + block_lines(blocks[order.last().0])
    }
}

/// What is wrong with a terminator's operands, if anything is.
pub open spec fn fault(i: InstructionView) -> Option<BuildError> {
    match i {
        InstructionView::Effect { op, args, labels, pos, .. } => if op == EffectOp::Jump {
            if labels.len() != 1 {
                Some(BuildError::JumpLabels { pos })
            } else {
                None
            }
        } else if op == EffectOp::Branch {
            if args.len() != 1 {
                Some(BuildError::BranchCondition { pos })
            } else if labels.len() != 2 {
                Some(BuildError::BranchLabels { pos })
            } else {
                None
            }
        } else if op == EffectOp::Return {
            if args.len() > 1 {
                Some(BuildError::ReturnArguments { pos })
            } else if labels.len() != 0 {
                Some(BuildError::ReturnLabels { pos })
            } else {
                None
            }
        } else {
            None
        },
        _ => None,
    }
}

/// The fault of the first line of `lines` that has one.
pub open spec fn first_fault(lines: Seq<CodeView>) -> Option<BuildError>
    decreases lines.len(),
{
    if lines.len() == 0 {
        None
    } else {
        match first_fault(lines.drop_last()) {
            Some(e) => Some(e),
            None => match lines.last() {
                CodeView::Instruction(i) => fault(i),
                _ => None,
            },
        }
    }
}

/// Whether some line of `lines` is the label `l`.
pub open spec fn defines(lines: Seq<CodeView>, l: Seq<char>) -> bool {
    lines.contains(CodeView::Label(l))
}

/// Whether some jump or branch among `lines` names the label `l`.
pub open spec fn refers(lines: Seq<CodeView>, l: Seq<char>) -> bool {
    exists|j: int|
        0 <= j < lines.len() && (#[trigger] lines[j]) is Instruction && is_terminator(
            lines[j]->Instruction_0,
        ) && lines[j]->Instruction_0->Effect_labels.contains(l)
}

/// The labels that an exit names.
pub open spec fn exit_labels(e: LabeledExit) -> Seq<Seq<char>> {
    match e {
        LabeledExit::Unconditional { label, .. } => seq![label@],
        LabeledExit::Conditional { if_true_label, if_false_label, .. } => seq![
            if_true_label@,
            if_false_label@,
        ],
        _ => Seq::empty(),
    }
}

/// Blocks that `order` does not list do not matter to what it renders.
pub proof fn lemma_rendered_insert(
    blocks: Map<u64, BasicBlock>,
    order: Seq<BasicBlockIdx>,
    k: BasicBlockIdx,
    b: BasicBlock,
)
    requires
        !order.contains(k),
    ensures
        rendered(blocks.insert(k.0, b), order) == rendered(blocks, order),
    decreases order.len(),
{
    if order.len() > 0 {
        let rest = order.drop_last();
        assert(!rest.contains(k)) by {
            if rest.contains(k) {
                let i = choose|i: int| 0 <= i < rest.len() && rest[i] == k;
                assert(order[i] == k);
            }
        }
        lemma_rendered_insert(blocks, rest, k, b);
        assert(order.last() != k) by {
            assert(order[order.len() - 1] == order.last());
        }
    }
}

/// One more block renders as one more run of lines.
pub proof fn lemma_rendered_push(
    blocks: Map<u64, BasicBlock>,
    order: Seq<BasicBlockIdx>,
    k: BasicBlockIdx,
)
    ensures
        rendered(blocks, order.push(k)) == rendered(blocks, order) + block_lines(blocks[k.0]),
{
    assert(order.push(k).drop_last() =~= order);
}

/// Every line of every listed block is a line of what is rendered.
pub proof fn lemma_rendered_holds(
    blocks: Map<u64, BasicBlock>,
    order: Seq<BasicBlockIdx>,
    i: int,
    line: CodeView,
)
    requires
        0 <= i < order.len(),
        block_lines(blocks[order[i].0]).contains(line),
    ensures
        rendered(blocks, order).contains(line),
    decreases order.len(),
{
    let whole = rendered(blocks, order);
    let rest = rendered(blocks, order.drop_last());
    let tail = block_lines(blocks[order.last().0]);
    if i == order.len() - 1 {
        let j = choose|j: int| 0 <= j < tail.len() && tail[j] == line;
        assert(whole[rest.len() + j] == line);
    } else {
        lemma_rendered_holds(blocks, order.drop_last(), i, line);
        let j = choose|j: int| 0 <= j < rest.len() && rest[j] == line;
        assert(whole[j] == line);
    }
}

/// Every line of what is rendered is a line of a listed block.
pub proof fn lemma_rendered_from(
    blocks: Map<u64, BasicBlock>,
    order: Seq<BasicBlockIdx>,
    line: CodeView,
) -> (i: int)
    requires
        rendered(blocks, order).contains(line),
    ensures
        0 <= i < order.len(),
        block_lines(blocks[order[i].0]).contains(line),
    decreases order.len(),
{
    let whole = rendered(blocks, order);
    if order.len() == 0 {
        assert(false);
        0
    } else {
        let rest = rendered(blocks, order.drop_last());
        let tail = block_lines(blocks[order.last().0]);
        let j = choose|j: int| 0 <= j < whole.len() && whole[j] == line;
        if j < rest.len() {
            assert(rest[j] == line);
            lemma_rendered_from(blocks, order.drop_last(), line)
        } else {
            assert(tail[j - rest.len()] == line);
            order.len() - 1
        }
    }
}

/// The state of a graph under construction: the blocks finished so far, in
/// the order of the input, and the block being filled.
pub struct FunctionCfgBuilder {
    pub cfg: FunctionCfg,
    /// Whether the graph's entry has been set.
    pub entry_is_init: bool,
    pub current_block: BasicBlock,
    pub labels_to_blocks: StringHashMap<BasicBlockIdx>,
    pub previous_idx: Option<BasicBlockIdx>,
    /// The finished blocks in the order of the input.
    pub input_block_order: Vec<BasicBlockIdx>,
}

impl FunctionCfgBuilder {
    /// The finished blocks in the order of the input.
    pub open spec fn order(&self) -> Seq<BasicBlockIdx> {
        self.input_block_order@
    }

    /// The invariant of the builder: the finished blocks are exactly those
    /// listed, each once; the entry is the first; every label of a finished
    /// block is known, and known as a block that carries it; no exit has been
    /// resolved yet.
    pub open spec fn inv(&self) -> bool {
        let blocks = self.cfg.blocks();
        let order = self.order();
        &&& blocks.dom().finite()
        &&& blocks.dom().len() == order.len()
        &&& forall|n: u64| #[trigger] blocks.dom().contains(n) ==> canonical(n) == n
        &&& order.no_duplicates()
        &&& forall|k: BasicBlockIdx| #[trigger] order.contains(k) <==> self.cfg.has(k)
        &&& self.entry_is_init == (order.len() > 0)
        &&& order.len() > 0 ==> self.cfg.entry == order[0]
        &&& self.previous_idx == if order.len() > 0 {
            Some(order.last())
        } else {
            None
        }
        &&& forall|l: Seq<char>| #[trigger]
            self.labels_to_blocks@.contains_key(l) ==> self.cfg.has(self.labels_to_blocks@[l])
                && blocks[self.labels_to_blocks@[l].0].label_text() == Some(l)
        &&& forall|k: BasicBlockIdx|
            self.cfg.has(k) && (#[trigger] blocks[k.0]).label is Some
                ==> self.labels_to_blocks@.contains_key(blocks[k.0].label_text()->0)
        &&& self.cfg.edges@ == Map::<u64, Exit>::empty()
        &&& self.cfg.rev_edges@ == Map::<u64, Vec<BasicBlockIdx>>::empty()
    }

    /// A builder for the function of the given name, parameters and return
    /// type, with nothing finished and an empty block to fill.
    pub fn new(name: String, arguments: Vec<Argument>, return_type: Option<Type>) -> (b: Self)
        ensures
            b.inv(),
            b.order().len() == 0,
            b.cfg.signature.name == name,
            b.cfg.signature.arguments == arguments,
            b.cfg.signature.return_type == return_type,
            !b.current_block.is_entry,
            b.current_block.label is None,
            b.current_block.instructions@.len() == 0,
            b.current_block.exit is Fallthrough,
    {
        let vertices = store_new();
        let b = FunctionCfgBuilder {
            cfg: FunctionCfg {
                signature: FunctionSignature { name, arguments, return_type },
                entry: BasicBlockIdx(0x1_ffff_ffff),
                vertices,
                edges: HashMap::new(),
                rev_edges: HashMap::new(),
            },
            entry_is_init: false,
            current_block: BasicBlock::empty(),
            labels_to_blocks: StringHashMap::new(),
            previous_idx: None,
            input_block_order: Vec::new(),
        };
        b
    }

    /// Puts an instruction at the end of the block being filled.
    pub fn add_to_current(&mut self, instruction: Instruction)
        ensures
            final(self).current_block.instructions@ == old(self).current_block.instructions@.push(
                instruction,
            ),
            final(self).current_block.is_entry == old(self).current_block.is_entry,
            final(self).current_block.label == old(self).current_block.label,
            final(self).current_block.exit == old(self).current_block.exit,
            final(self).cfg == old(self).cfg,
            final(self).entry_is_init == old(self).entry_is_init,
            final(self).labels_to_blocks == old(self).labels_to_blocks,
            final(self).previous_idx == old(self).previous_idx,
            final(self).input_block_order == old(self).input_block_order,
    {
        self.current_block.instructions.push(instruction);
    }

    /// Labels the block being filled.
    pub fn set_current_label(&mut self, name: String)
        ensures
            final(self).current_block.label == Some(Label { name }),
            final(self).current_block.instructions == old(self).current_block.instructions,
            final(self).current_block.is_entry == old(self).current_block.is_entry,
            final(self).current_block.exit == old(self).current_block.exit,
            final(self).cfg == old(self).cfg,
            final(self).entry_is_init == old(self).entry_is_init,
            final(self).labels_to_blocks == old(self).labels_to_blocks,
            final(self).previous_idx == old(self).previous_idx,
            final(self).input_block_order == old(self).input_block_order,
    {
        self.current_block.label = Some(Label { name });
    }

    /// Sets how the block being filled ends. A fallthrough is what a block
    /// has until it is given an exit, and cannot be set.
    pub fn set_current_exit(&mut self, exit: LabeledExit)
        requires
            !(exit is Fallthrough),
        ensures
            final(self).current_block.exit == exit,
            final(self).current_block.instructions == old(self).current_block.instructions,
            final(self).current_block.is_entry == old(self).current_block.is_entry,
            final(self).current_block.label == old(self).current_block.label,
            final(self).cfg == old(self).cfg,
            final(self).entry_is_init == old(self).entry_is_init,
            final(self).labels_to_blocks == old(self).labels_to_blocks,
            final(self).previous_idx == old(self).previous_idx,
            final(self).input_block_order == old(self).input_block_order,
    {
        self.current_block.exit = exit;
    }

    /// Marks the block being filled as the function's entry.
    pub fn mark_current_as_entry(&mut self)
        ensures
            final(self).current_block.is_entry,
            final(self).current_block.instructions == old(self).current_block.instructions,
            final(self).current_block.exit == old(self).current_block.exit,
            final(self).current_block.label == old(self).current_block.label,
            final(self).cfg == old(self).cfg,
            final(self).entry_is_init == old(self).entry_is_init,
            final(self).labels_to_blocks == old(self).labels_to_blocks,
            final(self).previous_idx == old(self).previous_idx,
            final(self).input_block_order == old(self).input_block_order,
    {
        self.current_block.is_entry = true;
    }

    /// Finishes the block being filled: it joins the graph as the last block
    /// in input order, as the entry if it is the first, and under its label if
    /// it has one. An empty block takes its place.
    pub fn finish_current_and_start_new_block(&mut self)
        requires
            old(self).inv(),
            old(self).order().len() < 0xffff_fffe,
        ensures
            final(self).inv(),
            final(self).order().len() == old(self).order().len() + 1,
            final(self).order().drop_last() == old(self).order(),
            !old(self).cfg.has(final(self).order().last()),
            final(self).cfg.blocks() == old(self).cfg.blocks().insert(
                final(self).order().last().0,
                old(self).current_block,
            ),
            final(self).cfg.signature == old(self).cfg.signature,
            !final(self).current_block.is_entry,
            final(self).current_block.label is None,
            final(self).current_block.instructions@.len() == 0,
            final(self).current_block.exit is Fallthrough,
    {
        let ghost before = *self;
        let name = match &self.current_block.label {
            Some(l) => Some(l.name.clone()),
            None => None,
        };
        let mut current = BasicBlock::empty();
        std::mem::swap(&mut self.current_block, &mut current);
        let block_idx = store_insert(&mut self.cfg.vertices, current);
        if !self.entry_is_init {
            self.cfg.entry = block_idx;
            self.entry_is_init = true;
        }
        self.input_block_order.push(block_idx);
        self.previous_idx = Some(block_idx);
        match name {
            Some(n) => {
                self.labels_to_blocks.insert(n, block_idx);
            },
            None => {},
        }
        proof {
            let order = self.order();
            let blocks = self.cfg.blocks();
            assert(order.drop_last() =~= before.order());
            assert(order.last() == block_idx);
            assert(order.no_duplicates()) by {
                assert(!before.order().contains(block_idx));
                lemma_push_fresh(before.order(), block_idx);
            }
            assert forall|k: BasicBlockIdx| #[trigger] order.contains(k) <==> self.cfg.has(k) by {
                lemma_push_fresh(before.order(), block_idx);
                assert(before.order().contains(k) <==> before.cfg.has(k));
            }
            assert forall|l: Seq<char>| #[trigger]
                self.labels_to_blocks@.contains_key(l) implies self.cfg.has(
                self.labels_to_blocks@[l],
            ) && blocks[self.labels_to_blocks@[l].0].label_text() == Some(l) by {
                if before.labels_to_blocks@.contains_key(l) && self.labels_to_blocks@[l]
                    == before.labels_to_blocks@[l] {
                    assert(before.cfg.has(before.labels_to_blocks@[l]));
                }
            }
            assert forall|k: BasicBlockIdx|
                self.cfg.has(k) && (#[trigger] blocks[k.0]).label is Some
                implies self.labels_to_blocks@.contains_key(blocks[k.0].label_text()->0) by {
                if k != block_idx {
                    assert(before.cfg.has(k));
                    assert(before.cfg.blocks()[k.0] == blocks[k.0]);
                }
            }
        }
    }
}

/// Where an exit's jump or branch stood in the source text.
pub open spec fn exit_pos(e: LabeledExit) -> Option<Position> {
    match e {
        LabeledExit::Unconditional { pos, .. } => pos,
        LabeledExit::Conditional { pos, .. } => pos,
        _ => None,
    }
}

/// Whether `exit` is what the exit of the block at position `at` of `order`
/// resolves to: a fallthrough leads to the next block in input order, or to
/// none from the last; a label leads to the block that `labels` knows it as.
pub open spec fn resolves_to(
    blocks: Map<u64, BasicBlock>,
    order: Seq<BasicBlockIdx>,
    labels: Map<Seq<char>, BasicBlockIdx>,
    at: int,
    exit: Exit,
) -> bool {
    match (blocks[order[at].0].exit, exit) {
        (LabeledExit::Fallthrough, Exit::Fallthrough(d)) => d == if at + 1 < order.len() {
            Some(order[at + 1])
        } else {
            None
        },
        (LabeledExit::Unconditional { label, .. }, Exit::Unconditional(d)) => labels.contains_key(
            label@,
        ) && d == labels[label@],
        (
            LabeledExit::Conditional { condition, if_true_label, if_false_label, .. },
            Exit::Conditional { condition: c, if_true, if_false },
        ) => {
            &&& c@ == condition@
            &&& labels.contains_key(if_true_label@)
            &&& if_true == labels[if_true_label@]
            &&& labels.contains_key(if_false_label@)
            &&& if_false == labels[if_false_label@]
        },
        (LabeledExit::Return(v), Exit::Return(w)) => crate::ir::name_view(v) == crate::ir::name_view(
            w,
        ),
        _ => false,
    }
}

/// Whether `labels` knows the blocks by their labels: a known label names a
/// block that carries it, and the label of every block is known.
pub open spec fn labels_known(
    blocks: Map<u64, BasicBlock>,
    labels: Map<Seq<char>, BasicBlockIdx>,
) -> bool {
    &&& forall|l: Seq<char>| #[trigger]
        labels.contains_key(l) ==> blocks.dom().contains(labels[l].0)
            && blocks[labels[l].0].label_text() == Some(l)
    &&& forall|n: u64|
        blocks.dom().contains(n) && (#[trigger] blocks[n]).label is Some ==> labels.contains_key(
            blocks[n].label_text()->0,
        )
}

/// Whether `cfg` is a well-formed graph over the blocks `order`, entered at
/// the first, in which every exit is resolved by `labels` and the input
/// order.
pub open spec fn resolved(
    order: Seq<BasicBlockIdx>,
    labels: Map<Seq<char>, BasicBlockIdx>,
    cfg: FunctionCfg,
) -> bool {
    &&& cfg.wf()
    &&& order.len() > 0
    &&& order.no_duplicates()
    &&& forall|k: BasicBlockIdx| #[trigger] order.contains(k) <==> cfg.has(k)
    &&& cfg.entry == order[0]
    &&& labels_known(cfg.blocks(), labels)
    &&& forall|i: int|
        0 <= i < order.len() ==> resolves_to(
            cfg.blocks(),
            order,
            labels,
            i,
            cfg.edges@[(#[trigger] order[i]).0],
        )
}

/// Whether the block at position `i` has a label if the block before it
/// falls through.
pub open spec fn labeled_after_fallthrough(
    blocks: Map<u64, BasicBlock>,
    order: Seq<BasicBlockIdx>,
    i: int,
) -> bool {
    blocks[order[i - 1].0].exit is Fallthrough ==> blocks[order[i].0].label is Some
}

/// Whether the blocks `order` are the basic blocks of the body `lines`:
/// one after the other they stand for exactly those lines; a terminator ends
/// its block; a block begins only at a label or after a terminator; the
/// first block is the entry, and no other is marked as such; after the last
/// terminator comes a last block,
/// empty if nothing follows; no other block but the first is empty and
/// without a label.
pub open spec fn cut(
    blocks: Map<u64, BasicBlock>,
    order: Seq<BasicBlockIdx>,
    lines: Seq<CodeView>,
) -> bool {
    &&& order.len() > 0
    &&& rendered(blocks, order) == lines
    &&& blocks[order[0].0].is_entry
    &&& forall|i: int| 1 <= i < order.len() ==> !(#[trigger] blocks[order[i].0]).is_entry
    &&& forall|i: int| 0 <= i < order.len() ==> (#[trigger] blocks[order[i].0]).terminated()
    &&& forall|i: int| 1 <= i < order.len() ==> #[trigger] labeled_after_fallthrough(blocks, order, i)
    &&& forall|i: int|
        1 <= i < order.len() - 1 ==> block_lines(#[trigger] blocks[order[i].0]).len() > 0
    &&& blocks[order.last().0].exit is Fallthrough
}

/// Whether `cfg` is the graph of the body `lines`, before any pruning.
pub open spec fn built(lines: Seq<CodeView>, cfg: FunctionCfg) -> bool {
    exists|order: Seq<BasicBlockIdx>, labels: Map<Seq<char>, BasicBlockIdx>|
        #![trigger resolved(order, labels, cfg)]
        cut(cfg.blocks(), order, lines) && resolved(order, labels, cfg)
}

impl FunctionCfgBuilder {
    /// Whether the exits can be resolved: the invariant holds, there is a
    /// block, the first block is marked as the entry, and a block that falls
    /// through is followed by one with a label.
    pub open spec fn ready(&self) -> bool {
        let order = self.order();
        let blocks = self.cfg.blocks();
        &&& self.inv()
        &&& order.len() > 0
        &&& blocks[order[0].0].is_entry
        &&& forall|i: int| 1 <= i < order.len() ==> #[trigger] labeled_after_fallthrough(blocks, order, i)
    }

    /// Whether every label that the exit of the block at `at` names is known.
    pub open spec fn knows(&self, at: int) -> bool {
        forall|l: Seq<char>| #[trigger]
            exit_labels(self.cfg.blocks()[self.order()[at].0].exit).contains(l)
                ==> self.labels_to_blocks@.contains_key(l)
    }

    /// The first label that the exit of the block at `at` names and that is
    /// not known.
    pub open spec fn unknown_label(&self, at: int) -> Seq<char> {
        let ls = exit_labels(self.cfg.blocks()[self.order()[at].0].exit);
        if !self.labels_to_blocks@.contains_key(ls[0]) {
            ls[0]
        } else {
            ls[1]
        }
    }

    /// Whether `e` reports the first unknown label: the block at `at` is
    /// the first whose exit names an unknown label, and `e` holds the first
    /// such label of that exit and the exit's position.
    pub open spec fn fails_at(&self, at: int, e: BuildError) -> bool {
        &&& 0 <= at < self.order().len()
        &&& !self.knows(at)
        &&& forall|j: int| 0 <= j < at ==> self.knows(j)
        &&& e is UnknownLabel
        &&& e->label@ == self.unknown_label(at)
        &&& e->UnknownLabel_pos == exit_pos(self.cfg.blocks()[self.order()[at].0].exit)
    }

    /// What resolving needs of the blocks: every listed block is stored,
    /// the labels are known, and a block that falls through is followed by
    /// one with a label.
    pub open spec fn resolvable(&self) -> bool {
        let order = self.order();
        let blocks = self.cfg.blocks();
        &&& forall|n: u64| #[trigger] blocks.dom().contains(n) ==> canonical(n) == n
        &&& forall|i: int| 0 <= i < order.len() ==> blocks.dom().contains((#[trigger] order[i]).0)
        &&& labels_known(blocks, self.labels_to_blocks@)
        &&& forall|i: int| 1 <= i < order.len() ==> #[trigger] labeled_after_fallthrough(blocks, order, i)
    }

    /// The resolved exit of the block at position `at`, or the first label
    /// that its exit names and that is not known.
    fn resolve_exit(&self, at: usize) -> (r: Result<Exit, BuildError>)
        requires
            self.resolvable(),
            at < self.order().len(),
        ensures
            match r {
                Ok(exit) => {
                    &&& self.knows(at as int)
                    &&& resolves_to(
                        self.cfg.blocks(),
                        self.order(),
                        self.labels_to_blocks@,
                        at as int,
                        exit,
                    )
                    &&& exit_agrees(
                        self.cfg.blocks(),
                        self.cfg.blocks()[self.order()[at as int].0].exit,
                        exit,
                    )
                    &&& forall|t: int|
                        0 <= t < exit.targets().len() ==> self.cfg.has(#[trigger] exit.targets()[t])
                },
                Err(e) => {
                    &&& !self.knows(at as int)
                    &&& e is UnknownLabel
                    &&& e->label@ == self.unknown_label(at as int)
                    &&& e->UnknownLabel_pos == exit_pos(
                        self.cfg.blocks()[self.order()[at as int].0].exit,
                    )
                },
            },
    {
        let k = self.input_block_order[at];
        let ghost order = self.order();
        let ghost blocks = self.cfg.blocks();
        let ghost labels = self.labels_to_blocks@;
        let ghost ls = exit_labels(blocks[k.0].exit);
        assert(blocks.dom().contains(order[at as int].0));
        let next = if at < self.input_block_order.len() - 1 {
            assert(blocks.dom().contains(order[at + 1].0));
            Some(self.input_block_order[at + 1])
        } else {
            None
        };
        let r = match store_get(&self.cfg.vertices, k) {
            Some(block) => match &block.exit {
                LabeledExit::Fallthrough => Ok(Exit::Fallthrough(next)),
                LabeledExit::Unconditional { label, pos } => match self.labels_to_blocks.get(
                    label.as_str(),
                ) {
                    Some(d) => Ok(Exit::Unconditional(*d)),
                    None => Err(BuildError::UnknownLabel { label: label.clone(), pos: *pos }),
                },
                LabeledExit::Conditional {
                    condition,
                    if_true_label,
                    if_false_label,
                    pos,
                } => match self.labels_to_blocks.get(if_true_label.as_str()) {
                    Some(t) => match self.labels_to_blocks.get(if_false_label.as_str()) {
                        Some(f) => Ok(
                            Exit::Conditional {
                                condition: condition.clone(),
                                if_true: *t,
                                if_false: *f,
                            },
                        ),
                        None => Err(
                            BuildError::UnknownLabel { label: if_false_label.clone(), pos: *pos },
                        ),
                    },
                    None => Err(
                        BuildError::UnknownLabel { label: if_true_label.clone(), pos: *pos },
                    ),
                },
                LabeledExit::Return(None) => Ok(Exit::Return(None)),
                LabeledExit::Return(Some(v)) => Ok(Exit::Return(Some(v.clone()))),
            },
            None => Ok(Exit::Fallthrough(None)),
        };
        proof {
            match &r {
                Ok(exit) => {
                    assert forall|l: Seq<char>| #[trigger] ls.contains(l) implies labels.contains_key(
                        l,
                    ) by {
                        let j = choose|j: int| 0 <= j < ls.len() && ls[j] == l;
                    }
                    if at + 1 < order.len() {
                        assert(labeled_after_fallthrough(blocks, order, at + 1));
                    }
                },
                Err(e) => {
                    assert(ls.contains(self.unknown_label(at as int))) by {
                        if !labels.contains_key(ls[0]) {
                            assert(ls[0] == self.unknown_label(at as int));
                        } else {
                            assert(ls[1] == self.unknown_label(at as int));
                        }
                    }
                },
            }
        }
        r
    }

    /// Resolves the exits of all blocks, in input order. Succeeds exactly
    /// when every label that an exit names is known; otherwise reports the
    /// first unknown label of the first block that names one.
    pub fn resolve(self) -> (r: Result<FunctionCfg, BuildError>)
        requires
            self.ready(),
        ensures
            match r {
                Ok(cfg) => {
                    &&& cfg.blocks() == self.cfg.blocks()
                    &&& cfg.signature == self.cfg.signature
                    &&& resolved(self.order(), self.labels_to_blocks@, cfg)
                    &&& forall|i: int| 0 <= i < self.order().len() ==> self.knows(i)
                },
                Err(e) => exists|i: int| #[trigger] self.fails_at(i, e),
            },
    {
        let ghost start = self;
        let mut this = self;
        let n = this.input_block_order.len();
        proof {
            lemma_ready_resolvable(start);
        }
        let mut i: usize = 0;
        while i < n
            invariant
                i <= n,
                n == start.order().len(),
                start == self,
                start.ready(),
                this.input_block_order == start.input_block_order,
                this.labels_to_blocks == start.labels_to_blocks,
                this.cfg.vertices == start.cfg.vertices,
                this.cfg.signature == start.cfg.signature,
                this.cfg.entry == start.cfg.entry,
                this.resolvable(),
                this.cfg.mirrored(),
                this.cfg.rev_edges@.dom().subset_of(this.cfg.blocks().dom()),
                recorded(start, this.cfg.edges@, i as int),
            decreases n - i,
        {
            let k = this.input_block_order[i];
            let exit = match this.resolve_exit(i) {
                Ok(exit) => exit,
                Err(e) => {
                    proof {
                        lemma_recorded_known(start, this.cfg.edges@, i as int);
                        assert(this.knows(i as int) == start.knows(i as int));
                        assert(this.unknown_label(i as int) == start.unknown_label(i as int));
                        assert(!start.knows(i as int));
                        assert(this.cfg.blocks()[this.order()[i as int].0].exit
                            == start.cfg.blocks()[start.order()[i as int].0].exit);
                        assert(e is UnknownLabel);
                        assert(e->label@ == start.unknown_label(i as int));
                        assert(e->UnknownLabel_pos == exit_pos(
                            start.cfg.blocks()[start.order()[i as int].0].exit,
                        ));
                        assert(start.fails_at(i as int, e));
                    }
                    return Err(e);
                },
            };
            proof {
                lemma_recorded_fresh(start, this.cfg.edges@, i as int);
                assert(this.knows(i as int) == start.knows(i as int));
            }
            let ghost mid = this;
            this.cfg.record_exit(k, exit);
            proof {
                lemma_recorded_step(start, mid.cfg.edges@, this.cfg.edges@, i as int, exit);
            }
            i += 1;
        }
        proof {
            lemma_recorded_known(start, this.cfg.edges@, n as int);
            lemma_resolved_all(start, this.cfg);
        }
        Ok(this.cfg)
    }

    /// Resolves the exits of all blocks and, where `prune` is set, drops the
    /// blocks that are left without predecessors.
    pub fn finish(self, prune: bool) -> (r: Result<FunctionCfg, BuildError>)
        requires
            self.ready(),
        ensures
            match r {
                Ok(cfg) => {
                    &&& cfg.signature == self.cfg.signature
                    &&& forall|i: int| 0 <= i < self.order().len() ==> self.knows(i)
                    &&& if prune {
                        exists|full: FunctionCfg|
                            #![trigger crate::cfg::pruned(full, cfg)]
                            full.blocks() == self.cfg.blocks() && resolved(
                                self.order(),
                                self.labels_to_blocks@,
                                full,
                            ) && crate::cfg::pruned(full, cfg)
                    } else {
                        cfg.blocks() == self.cfg.blocks() && resolved(
                            self.order(),
                            self.labels_to_blocks@,
                            cfg,
                        )
                    }
                },
                Err(e) => exists|i: int| #[trigger] self.fails_at(i, e),
            },
    {
        match self.resolve() {
            Ok(cfg) => {
                let mut cfg = cfg;
                if prune {
                    let ghost full = cfg;
                    cfg.prune_unreachable();
                    assert(crate::cfg::pruned(full, cfg));
                }
                Ok(cfg)
            },
            Err(e) => Err(e),
        }
    }
}

/// Whether `edges` holds the resolved exits of the first `upto` blocks of
/// the builder `b`, and of no other.
#[verifier::opaque]
pub open spec fn recorded(b: FunctionCfgBuilder, edges: Map<u64, Exit>, upto: int) -> bool {
    &&& forall|m: u64|
        edges.contains_key(m) <==> exists|j: int| 0 <= j < upto && (#[trigger] b.order()[j]).0 == m
    &&& forall|j: int|
        0 <= j < upto ==> b.knows(j) && resolves_to(
            b.cfg.blocks(),
            b.order(),
            b.labels_to_blocks@,
            j,
            edges[(#[trigger] b.order()[j]).0],
        ) && exit_agrees(
            b.cfg.blocks(),
            b.cfg.blocks()[b.order()[j].0].exit,
            edges[b.order()[j].0],
        )
}

/// A ready builder can have its exits resolved.
pub proof fn lemma_ready_resolvable(b: FunctionCfgBuilder)
    requires
        b.ready(),
    ensures
        b.resolvable(),
        b.cfg.mirrored(),
        b.cfg.rev_edges@.dom().subset_of(b.cfg.blocks().dom()),
        recorded(b, b.cfg.edges@, 0),
{
    reveal(recorded);
    let order = b.order();
    let blocks = b.cfg.blocks();
    assert forall|i: int| 0 <= i < order.len() implies blocks.dom().contains(
        (#[trigger] order[i]).0,
    ) by {
        assert(order.contains(order[i]));
        assert(b.cfg.has(order[i]));
    }
    assert(labels_known(blocks, b.labels_to_blocks@)) by {
        assert forall|m: u64|
            blocks.dom().contains(m) && (#[trigger] blocks[m]).label is Some implies b.labels_to_blocks@.contains_key(
            blocks[m].label_text()->0,
        ) by {
            assert(b.cfg.has(BasicBlockIdx(m)));
        }
    }
    assert forall|x: BasicBlockIdx, p: BasicBlockIdx| b.cfg.has(x) implies (#[trigger] b.cfg.preds(
        x,
    ).contains(p) <==> b.cfg.has(p) && b.cfg.succ(p).contains(x)) by {}
}

/// The block at `at` has no exit recorded when only those before it have.
pub proof fn lemma_recorded_fresh(b: FunctionCfgBuilder, edges: Map<u64, Exit>, at: int)
    requires
        b.ready(),
        0 <= at < b.order().len(),
        recorded(b, edges, at),
    ensures
        !edges.contains_key(b.order()[at].0),
        b.cfg.has(b.order()[at]),
{
    reveal(recorded);
    let order = b.order();
    if edges.contains_key(order[at].0) {
        let j = choose|j: int| 0 <= j < at && (#[trigger] order[j]).0 == order[at].0;
        assert(order[j] == order[at]);
    }
    assert(order.contains(order[at]));
}

/// Where the exits of the first `upto` blocks are recorded, their labels
/// are known.
pub proof fn lemma_recorded_known(b: FunctionCfgBuilder, edges: Map<u64, Exit>, upto: int)
    requires
        recorded(b, edges, upto),
    ensures
        forall|j: int| 0 <= j < upto ==> b.knows(j),
{
    reveal(recorded);
    assert forall|j: int| 0 <= j < upto implies b.knows(j) by {
        let k = b.order()[j];
    }
}

/// Recording the exit of the block at `at` extends what is recorded by one.
pub proof fn lemma_recorded_step(
    b: FunctionCfgBuilder,
    before: Map<u64, Exit>,
    after: Map<u64, Exit>,
    at: int,
    exit: Exit,
)
    requires
        b.ready(),
        0 <= at < b.order().len(),
        recorded(b, before, at),
        after == before.insert(b.order()[at].0, exit),
        b.knows(at),
        resolves_to(b.cfg.blocks(), b.order(), b.labels_to_blocks@, at, exit),
        exit_agrees(b.cfg.blocks(), b.cfg.blocks()[b.order()[at].0].exit, exit),
    ensures
        recorded(b, after, at + 1),
{
    reveal(recorded);
    let order = b.order();
    assert forall|m: u64|
        after.contains_key(m) <==> exists|j: int|
            0 <= j < at + 1 && (#[trigger] order[j]).0 == m by {
        if after.contains_key(m) {
            if m == order[at].0 {
            } else {
                assert(before.contains_key(m));
                let j = choose|j: int| 0 <= j < at && (#[trigger] order[j]).0 == m;
                assert(0 <= j < at + 1 && order[j].0 == m);
            }
        }
        if exists|j: int| 0 <= j < at + 1 && (#[trigger] order[j]).0 == m {
            let j = choose|j: int| 0 <= j < at + 1 && (#[trigger] order[j]).0 == m;
            if j < at {
                assert(before.contains_key(m));
            }
        }
    }
    assert forall|j: int| 0 <= j < at + 1 implies b.knows(j) && resolves_to(
        b.cfg.blocks(),
        order,
        b.labels_to_blocks@,
        j,
        after[(#[trigger] order[j]).0],
    ) && exit_agrees(b.cfg.blocks(), b.cfg.blocks()[order[j].0].exit, after[order[j].0]) by {
        if j < at {
            assert(order[j] != order[at]);
            assert(after[order[j].0] == before[order[j].0]);
        }
    }
}

/// A graph over a ready builder's blocks in which the exit of every block
/// is resolved, and recorded with its targets, is the resolved graph.
pub proof fn lemma_resolved_all(b: FunctionCfgBuilder, cfg: FunctionCfg)
    requires
        b.ready(),
        cfg.blocks() == b.cfg.blocks(),
        cfg.entry == b.cfg.entry,
        cfg.mirrored(),
        cfg.rev_edges@.dom().subset_of(cfg.blocks().dom()),
        recorded(b, cfg.edges@, b.order().len() as int),
    ensures
        resolved(b.order(), b.labels_to_blocks@, cfg),
{
    reveal(recorded);
    let order = b.order();
    let blocks = cfg.blocks();
    assert(cfg.edges@.dom() =~= blocks.dom()) by {
        assert forall|m: u64| cfg.edges@.dom().contains(m) <==> blocks.dom().contains(m) by {
            if cfg.edges@.contains_key(m) {
                let j = choose|j: int| 0 <= j < order.len() && (#[trigger] order[j]).0 == m;
                assert(order.contains(order[j]));
                assert(b.cfg.has(order[j]));
            }
            if blocks.dom().contains(m) {
                assert(b.cfg.has(BasicBlockIdx(m)));
                assert(order.contains(BasicBlockIdx(m)));
                let j = choose|j: int| 0 <= j < order.len() && order[j] == BasicBlockIdx(m);
                assert(order[j].0 == m);
            }
        }
    }
    assert(order.contains(order[0]));
    assert(b.cfg.has(order[0]));
    assert forall|m: u64| #[trigger] blocks.dom().contains(m) implies exit_agrees(
        blocks,
        blocks[m].exit,
        cfg.edges@[m],
    ) by {
        assert(b.cfg.has(BasicBlockIdx(m)));
        assert(order.contains(BasicBlockIdx(m)));
        let j = choose|j: int| 0 <= j < order.len() && order[j] == BasicBlockIdx(m);
        assert(order[j].0 == m);
    }
    assert(labels_known(blocks, b.labels_to_blocks@)) by {
        assert forall|m: u64|
            blocks.dom().contains(m) && (#[trigger] blocks[m]).label is Some implies b.labels_to_blocks@.contains_key(
            blocks[m].label_text()->0,
        ) by {
            assert(b.cfg.has(BasicBlockIdx(m)));
        }
    }
    assert forall|k: BasicBlockIdx| #[trigger] order.contains(k) <==> cfg.has(k) by {
        assert(order.contains(k) <==> b.cfg.has(k));
    }
}

/// Whether the finished blocks `order` are cut as the rules ask: the first
/// is the entry and no other is marked as such; a terminator ends its block; a block that follows one that
/// falls through has a label; no block but the first is empty and without a
/// label.
pub open spec fn finished(blocks: Map<u64, BasicBlock>, order: Seq<BasicBlockIdx>) -> bool {
    &&& order.len() > 0 ==> blocks[order[0].0].is_entry
    &&& forall|i: int| 1 <= i < order.len() ==> !(#[trigger] blocks[order[i].0]).is_entry
    &&& forall|i: int| 0 <= i < order.len() ==> (#[trigger] blocks[order[i].0]).terminated()
    &&& forall|i: int| 1 <= i < order.len() ==> #[trigger] labeled_after_fallthrough(blocks, order, i)
    &&& forall|i: int|
        1 <= i < order.len() ==> block_lines(#[trigger] blocks[order[i].0]).len() > 0
}

/// Whether the builder `b` has cut the first `upto` lines of `lines`: the
/// finished blocks and the block being filled stand for exactly those lines,
/// none of which has a fault; the block being filled falls through and holds
/// no terminator.
#[verifier::opaque]
pub open spec fn cutting(b: FunctionCfgBuilder, lines: Seq<CodeView>, upto: int) -> bool {
    let blocks = b.cfg.blocks();
    let order = b.order();
    let cur = b.current_block;
    &&& b.inv()
    &&& 0 <= upto <= lines.len()
    &&& order.len() <= upto
    &&& rendered(blocks, order) + block_lines(cur) == lines.take(upto)
    &&& first_fault(lines.take(upto)) is None
    &&& cur.exit is Fallthrough
    &&& forall|m: int| 0 <= m < cur.code().len() ==> !is_terminator(#[trigger] cur.code()[m])
    &&& cur.is_entry == (order.len() == 0)
    &&& finished(blocks, order)
    &&& order.len() > 0 && blocks[order.last().0].exit is Fallthrough ==> cur.label is Some
}

/// Whether `after` is `before` with the block being filled finished and an
/// empty block in its place.
pub open spec fn pushed(before: FunctionCfgBuilder, after: FunctionCfgBuilder) -> bool {
    &&& after.inv()
    &&& after.order().len() == before.order().len() + 1
    &&& after.order().drop_last() == before.order()
    &&& !before.cfg.has(after.order().last())
    &&& after.cfg.blocks() == before.cfg.blocks().insert(
        after.order().last().0,
        before.current_block,
    )
    &&& !after.current_block.is_entry
    &&& after.current_block.label is None
    &&& after.current_block.instructions@.len() == 0
    &&& after.current_block.exit is Fallthrough
}

/// Whether the two builders differ at most in the block being filled.
pub open spec fn same_finished(before: FunctionCfgBuilder, after: FunctionCfgBuilder) -> bool {
    &&& after.cfg == before.cfg
    &&& after.entry_is_init == before.entry_is_init
    &&& after.labels_to_blocks == before.labels_to_blocks
    &&& after.previous_idx == before.previous_idx
    &&& after.input_block_order == before.input_block_order
}

/// The fault of the first faulty line of a prefix is that of the whole.
pub proof fn lemma_first_fault_stays(lines: Seq<CodeView>, upto: int)
    requires
        0 <= upto <= lines.len(),
        first_fault(lines.take(upto)) is Some,
    ensures
        first_fault(lines) == first_fault(lines.take(upto)),
    decreases lines.len() - upto,
{
    if upto == lines.len() {
        assert(lines.take(upto) =~= lines);
    } else {
        assert(lines.take(upto + 1).drop_last() =~= lines.take(upto));
        lemma_first_fault_stays(lines, upto + 1);
    }
}

/// The fault of the first faulty line among one line more.
pub proof fn lemma_first_fault_next(lines: Seq<CodeView>, upto: int)
    requires
        0 <= upto < lines.len(),
        first_fault(lines.take(upto)) is None,
    ensures
        first_fault(lines.take(upto + 1)) == match lines[upto] {
            CodeView::Instruction(i) => fault(i),
            _ => None,
        },
{
    assert(lines.take(upto + 1).drop_last() =~= lines.take(upto));
    assert(lines.take(upto + 1).last() == lines[upto]);
}

/// Finishing a block that agrees with its exit keeps the finished blocks
/// cut as the rules ask, and renders the block's lines after the others.
pub proof fn lemma_pushed(before: FunctionCfgBuilder, after: FunctionCfgBuilder)
    requires
        before.inv(),
        pushed(before, after),
        finished(before.cfg.blocks(), before.order()),
        before.current_block.terminated(),
        before.current_block.is_entry == (before.order().len() == 0),
        before.order().len() > 0 && before.cfg.blocks()[before.order().last().0].exit
            is Fallthrough ==> before.current_block.label is Some,
    ensures
        forall|i: int|
            1 <= i < after.order().len() ==> !(#[trigger] after.cfg.blocks()[after.order()[i].0]).is_entry,
        rendered(after.cfg.blocks(), after.order()) == rendered(
            before.cfg.blocks(),
            before.order(),
        ) + block_lines(before.current_block),
        after.cfg.blocks()[after.order()[0].0].is_entry,
        forall|i: int|
            0 <= i < after.order().len() ==> (#[trigger] after.cfg.blocks()[after.order()[i].0]).terminated(),
        forall|i: int|
            1 <= i < after.order().len() ==> #[trigger] labeled_after_fallthrough(
                after.cfg.blocks(),
                after.order(),
                i,
            ),
        forall|i: int|
            1 <= i < after.order().len() - 1 ==> block_lines(
                #[trigger] after.cfg.blocks()[after.order()[i].0],
            ).len() > 0,
        after.cfg.blocks()[after.order().last().0] == before.current_block,
{
    let order = before.order();
    let blocks = before.cfg.blocks();
    let k = after.order().last();
    let order2 = after.order();
    let blocks2 = after.cfg.blocks();
    assert(order2 =~= order.push(k));
    assert(!order.contains(k));
    lemma_rendered_insert(blocks, order, k, before.current_block);
    lemma_rendered_push(blocks2, order, k);
    assert forall|i: int| 0 <= i < order.len() implies blocks2[(#[trigger] order2[i]).0]
        == blocks[order[i].0] by {
        assert(order.contains(order[i]));
        assert(order2[i] == order[i]);
    }
    assert forall|i: int| 0 <= i < order2.len() implies (#[trigger] blocks2[order2[i].0]).terminated() by {
        if i < order.len() {
            assert(blocks2[order2[i].0] == blocks[order[i].0]);
            assert(blocks[order[i].0].terminated());
        }
    }
    assert forall|i: int| 1 <= i < order2.len() implies #[trigger] labeled_after_fallthrough(
        blocks2,
        order2,
        i,
    ) by {
        assert(blocks2[order2[i - 1].0] == blocks[order[i - 1].0]);
        if i < order.len() {
            assert(blocks2[order2[i].0] == blocks[order[i].0]);
            assert(labeled_after_fallthrough(blocks, order, i));
        }
    }
    assert forall|i: int| 1 <= i < order2.len() - 1 implies block_lines(
        #[trigger] blocks2[order2[i].0],
    ).len() > 0 by {
        assert(blocks2[order2[i].0] == blocks[order[i].0]);
        assert(block_lines(blocks[order[i].0]).len() > 0);
    }
    assert forall|i: int| 1 <= i < order2.len() implies !(#[trigger] blocks2[order2[i].0]).is_entry by {
        if i < order.len() {
            assert(blocks2[order2[i].0] == blocks[order[i].0]);
            assert(!blocks[order[i].0].is_entry);
        } else {
            assert(order2[i] == k);
        }
    }
    if order.len() > 0 {
        assert(blocks2[order2[0].0] == blocks[order[0].0]);
    }
}

/// A label begins a new block where the block being filled has a line.
pub proof fn lemma_cut_label_new(
    b0: FunctionCfgBuilder,
    b1: FunctionCfgBuilder,
    b2: FunctionCfgBuilder,
    lines: Seq<CodeView>,
    upto: int,
)
    requires
        cutting(b0, lines, upto),
        0 <= upto < lines.len(),
        lines[upto] is Label,
        b0.current_block.instructions@.len() > 0 || b0.current_block.label is Some,
        pushed(b0, b1),
        same_finished(b1, b2),
        b2.current_block.label is Some,
        b2.current_block.label->0.name@ == lines[upto]->Label_0,
        b2.current_block.instructions == b1.current_block.instructions,
        b2.current_block.is_entry == b1.current_block.is_entry,
        b2.current_block.exit == b1.current_block.exit,
    ensures
        cutting(b2, lines, upto + 1),
{
    reveal(cutting);
    lemma_pushed(b0, b1);
    lemma_first_fault_next(lines, upto);
    assert(lines.take(upto + 1) =~= lines.take(upto).push(lines[upto]));
    assert(block_lines(b2.current_block) =~= seq![lines[upto]]);
    assert(rendered(b2.cfg.blocks(), b2.order()) + block_lines(b2.current_block) =~= lines.take(
        upto + 1,
    ));
    assert(block_lines(b0.current_block).len() > 0);
    assert(b2.current_block.code() =~= Seq::<InstructionView>::empty());
}

/// A label names the block being filled where that block has no line yet.
pub proof fn lemma_cut_label_same(
    b0: FunctionCfgBuilder,
    b2: FunctionCfgBuilder,
    lines: Seq<CodeView>,
    upto: int,
)
    requires
        cutting(b0, lines, upto),
        0 <= upto < lines.len(),
        lines[upto] is Label,
        b0.current_block.instructions@.len() == 0,
        b0.current_block.label is None,
        same_finished(b0, b2),
        b2.current_block.label is Some,
        b2.current_block.label->0.name@ == lines[upto]->Label_0,
        b2.current_block.instructions == b0.current_block.instructions,
        b2.current_block.is_entry == b0.current_block.is_entry,
        b2.current_block.exit == b0.current_block.exit,
    ensures
        cutting(b2, lines, upto + 1),
{
    reveal(cutting);
    lemma_first_fault_next(lines, upto);
    assert(lines.take(upto + 1) =~= lines.take(upto).push(lines[upto]));
    assert(block_lines(b0.current_block) =~= Seq::<CodeView>::empty());
    assert(block_lines(b2.current_block) =~= seq![lines[upto]]);
    assert(rendered(b2.cfg.blocks(), b2.order()) + block_lines(b2.current_block) =~= lines.take(
        upto + 1,
    ));
    assert(b2.current_block.code() =~= b0.current_block.code());
}

/// An instruction that is no terminator joins the block being filled.
pub proof fn lemma_cut_plain(
    b0: FunctionCfgBuilder,
    b2: FunctionCfgBuilder,
    lines: Seq<CodeView>,
    upto: int,
    i: Instruction,
)
    requires
        cutting(b0, lines, upto),
        0 <= upto < lines.len(),
        lines[upto] == CodeView::Instruction(i@),
        !is_terminator(i@),
        same_finished(b0, b2),
        b2.current_block.instructions@ == b0.current_block.instructions@.push(i),
        b2.current_block.label == b0.current_block.label,
        b2.current_block.is_entry == b0.current_block.is_entry,
        b2.current_block.exit == b0.current_block.exit,
    ensures
        cutting(b2, lines, upto + 1),
{
    reveal(cutting);
    lemma_first_fault_next(lines, upto);
    assert(lines.take(upto + 1) =~= lines.take(upto).push(lines[upto]));
    assert(block_lines(b2.current_block) =~= block_lines(b0.current_block).push(lines[upto]));
    assert(rendered(b2.cfg.blocks(), b2.order()) + block_lines(b2.current_block) =~= lines.take(
        upto + 1,
    ));
    crate::cfg::lemma_views_push(b0.current_block.instructions@, i);
    let code = b2.current_block.code();
    assert forall|m: int| 0 <= m < code.len() implies !is_terminator(#[trigger] code[m]) by {
        if m < code.len() - 1 {
            assert(code[m] == b0.current_block.code()[m]);
        }
    }
}

/// A terminator without fault ends the block being filled.
pub proof fn lemma_cut_terminator(
    b0: FunctionCfgBuilder,
    b1: FunctionCfgBuilder,
    b2: FunctionCfgBuilder,
    lines: Seq<CodeView>,
    upto: int,
    i: Instruction,
)
    requires
        cutting(b0, lines, upto),
        0 <= upto < lines.len(),
        lines[upto] == CodeView::Instruction(i@),
        is_terminator(i@),
        fault(i@) is None,
        same_finished(b0, b1),
        b1.current_block.instructions@ == b0.current_block.instructions@.push(i),
        b1.current_block.label == b0.current_block.label,
        b1.current_block.is_entry == b0.current_block.is_entry,
        terminator_of(b1.current_block.exit, i@),
        pushed(b1, b2),
    ensures
        cutting(b2, lines, upto + 1),
{
    reveal(cutting);
    lemma_first_fault_next(lines, upto);
    crate::cfg::lemma_views_push(b0.current_block.instructions@, i);
    assert(lines.take(upto + 1) =~= lines.take(upto).push(lines[upto]));
    assert(block_lines(b1.current_block) =~= block_lines(b0.current_block).push(lines[upto]));
    assert(b1.current_block.terminated()) by {
        let code = b1.current_block.code();
        assert(code.last() == i@);
        assert forall|m: int| 0 <= m < code.len() - 1 implies !is_terminator(#[trigger] code[m]) by {
            assert(code[m] == b0.current_block.code()[m]);
        }
    }
    lemma_pushed(b1, b2);
    assert(block_lines(b2.current_block) =~= Seq::<CodeView>::empty());
    assert(rendered(b2.cfg.blocks(), b2.order()) + block_lines(b2.current_block) =~= lines.take(
        upto + 1,
    ));
    assert(b2.current_block.code() =~= Seq::<InstructionView>::empty());
    assert(block_lines(b1.current_block).len() > 0);
    assert(finished(b2.cfg.blocks(), b2.order())) by {
        let order2 = b2.order();
        let blocks2 = b2.cfg.blocks();
        assert forall|m: int| 1 <= m < order2.len() implies block_lines(
            #[trigger] blocks2[order2[m].0],
        ).len() > 0 by {
            if m == order2.len() - 1 {
                assert(order2[m] == order2.last());
            }
        }
    }
}

/// With nothing left to cut, finishing the block being filled completes
/// the cut, and the exits can be resolved.
pub proof fn lemma_cut_done(b0: FunctionCfgBuilder, b1: FunctionCfgBuilder, lines: Seq<CodeView>)
    requires
        cutting(b0, lines, lines.len() as int),
        pushed(b0, b1),
    ensures
        b1.ready(),
        cut(b1.cfg.blocks(), b1.order(), lines),
        first_fault(lines) is None,
{
    reveal(cutting);
    assert(lines.take(lines.len() as int) =~= lines);
    assert(b0.current_block.terminated());
    lemma_pushed(b0, b1);
}

/// A copy of a parameter list.
pub fn dup_arguments(args: &Vec<Argument>) -> (r: Vec<Argument>)
    ensures
        r@ == args@,
{
    let mut out: Vec<Argument> = Vec::new();
    let mut i: usize = 0;
    while i < args.len()
        invariant
            i <= args@.len(),
            out@ == args@.take(i as int),
        decreases args@.len() - i,
    {
        out.push(Argument { name: args[i].name.clone(), arg_type: args[i].arg_type.dup() });
        assert(out@ =~= args@.take(i + 1));
        i += 1;
    }
    assert(args@.take(args@.len() as int) =~= args@);
    out
}

/// Whether `cfg` is the graph of the body `lines`: as built where nothing
/// is pruned, and otherwise what pruning leaves of the graph as built.
pub open spec fn graph_of(lines: Seq<CodeView>, prune: bool, cfg: FunctionCfg) -> bool {
    if prune {
        exists|full: FunctionCfg|
            #![trigger crate::cfg::pruned(full, cfg)]
            built(lines, full) && full.terminated() && crate::cfg::pruned(full, cfg)
    } else {
        built(lines, cfg)
    }
}

/// Builds the control-flow graph of a function.
///
/// The body is cut into basic blocks: a label begins a block unless the
/// block being filled is still empty and without a label; a jump, a branch
/// or a return ends one; what is left at the end is the last block, empty or
/// not. Then every exit is resolved, a fallthrough to the next block in input
/// order and a label to the block that carries it, and each block is
/// recorded, once, as a predecessor of its successors. With `prune`, blocks
/// left without predecessors are dropped for as long as there is one.
///
/// Fails on the first terminator with a fault, and otherwise exactly when a
/// jump or branch names a label that the body does not define.
pub fn build_cfg(function: &Function, prune: bool) -> (r: Result<FunctionCfg, BuildError>)
    requires
        function.instrs@.len() < 0xffff_fffe,
    ensures
        match r {
            Ok(cfg) => {
                &&& first_fault(code_views(function.instrs@)) is None
                &&& forall|l: Seq<char>| #[trigger]
                    refers(code_views(function.instrs@), l) ==> defines(
                        code_views(function.instrs@),
                        l,
                    )
                &&& cfg.wf()
                &&& cfg.terminated()
                &&& cfg.sole_entry()
                &&& graph_of(code_views(function.instrs@), prune, cfg)
                &&& cfg.signature.name == function.name
                &&& cfg.signature.arguments@ == function.args@
                &&& cfg.signature.return_type == function.return_type
            },
            Err(e) => match first_fault(code_views(function.instrs@)) {
                Some(f) => e == f,
                None => e is UnknownLabel && refers(code_views(function.instrs@), e->label@)
                    && !defines(code_views(function.instrs@), e->label@),
            },
        },
{
    let ghost lines = code_views(function.instrs@);
    let mut builder = FunctionCfgBuilder::new(
        function.name.clone(),
        dup_arguments(&function.args),
        dup_type_option(&function.return_type),
    );
    builder.mark_current_as_entry();
    proof {
        reveal(cutting);
        assert(lines.take(0) =~= Seq::<CodeView>::empty());
        assert(block_lines(builder.current_block) =~= Seq::<CodeView>::empty());
        assert(rendered(builder.cfg.blocks(), builder.order()) + block_lines(builder.current_block)
            =~= Seq::<CodeView>::empty());
        assert(builder.current_block.code() =~= Seq::<InstructionView>::empty());
        assert(cutting(builder, lines, 0));
    }
    let n = function.instrs.len();
    let mut at: usize = 0;
    while at < n
        invariant
            at <= n,
            n == function.instrs@.len(),
            n < 0xffff_fffe,
            lines == code_views(function.instrs@),
            cutting(builder, lines, at as int),
            builder.cfg.signature.name == function.name,
            builder.cfg.signature.arguments@ == function.args@,
            builder.cfg.signature.return_type == function.return_type,
        decreases n - at,
    {
        let ghost b0 = builder;
        proof {
            assert(b0.inv() && b0.order().len() <= at) by {
                reveal(cutting);
            }
            assert(lines[at as int] == function.instrs@[at as int]@);
        }
        match &function.instrs[at] {
            Code::Label { label, pos: _ } => {
                if builder.current_block.instructions.len() > 0
                    || builder.current_block.label.is_some() {
                    builder.finish_current_and_start_new_block();
                    let ghost b1 = builder;
                    builder.set_current_label(label.clone());
                    proof {
                        lemma_cut_label_new(b0, b1, builder, lines, at as int);
                    }
                } else {
                    builder.set_current_label(label.clone());
                    proof {
                        lemma_cut_label_same(b0, builder, lines, at as int);
                    }
                }
            },
            Code::Instruction(instruction) => {
                let exit = match terminator_exit(instruction) {
                    Ok(exit) => exit,
                    Err(e) => {
                        proof {
                            assert(first_fault(lines.take(at as int)) is None) by {
                                reveal(cutting);
                            }
                            lemma_first_fault_next(lines, at as int);
                            lemma_first_fault_stays(lines, at + 1);
                        }
                        return Err(e);
                    },
                };
                let copy = instruction.dup();
                builder.add_to_current(copy);
                match exit {
                    Some(exit) => {
                        builder.set_current_exit(exit);
                        let ghost b1 = builder;
                        proof {
                            assert(b1.inv() && b1.order().len() <= at) by {
                                reveal(cutting);
                            }
                        }
                        builder.finish_current_and_start_new_block();
                        proof {
                            lemma_cut_terminator(b0, b1, builder, lines, at as int, copy);
                        }
                    },
                    None => {
                        proof {
                            lemma_cut_plain(b0, builder, lines, at as int, copy);
                        }
                    },
                }
            },
        }
        at += 1;
    }
    let ghost b0 = builder;
    proof {
        assert(b0.inv() && b0.order().len() <= n) by {
            reveal(cutting);
        }
    }
    builder.finish_current_and_start_new_block();
    let ghost b1 = builder;
    proof {
        lemma_cut_done(b0, b1, lines);
    }
    match builder.finish(prune) {
        Ok(cfg) => {
            proof {
                lemma_built(b1, lines, prune, cfg);
            }
            Ok(cfg)
        },
        Err(e) => {
            proof {
                let i = choose|i: int| #[trigger] b1.fails_at(i, e);
                lemma_unknown_label(b1, lines, i, e);
            }
            Err(e)
        },
    }
}

/// The exit that a terminator asks of its block, `None` for an instruction
/// that is no terminator, or the fault of a terminator that has one.
pub fn terminator_exit(instruction: &Instruction) -> (r: Result<Option<LabeledExit>, BuildError>)
    ensures
        match r {
            Ok(Some(exit)) => is_terminator(instruction@) && fault(instruction@) is None
                && terminator_of(exit, instruction@) && !(exit is Fallthrough),
            Ok(None) => !is_terminator(instruction@) && fault(instruction@) is None,
            Err(e) => fault(instruction@) == Some(e),
        },
{
    match instruction {
        Instruction::Effect { op, args, funcs: _, labels, pos } => match op {
            EffectOp::Jump => {
                if labels.len() != 1 {
                    return Err(BuildError::JumpLabels { pos: *pos });
                }
                let exit = LabeledExit::Unconditional { label: labels[0].clone(), pos: *pos };
                assert(instruction@->Effect_labels =~= seq![labels@[0]@]);
                Ok(Some(exit))
            },
            EffectOp::Branch => {
                if args.len() != 1 {
                    return Err(BuildError::BranchCondition { pos: *pos });
                }
                if labels.len() != 2 {
                    return Err(BuildError::BranchLabels { pos: *pos });
                }
                let exit = LabeledExit::Conditional {
                    condition: args[0].clone(),
                    if_true_label: labels[0].clone(),
                    if_false_label: labels[1].clone(),
                    pos: *pos,
                };
                assert(instruction@->Effect_labels =~= seq![labels@[0]@, labels@[1]@]);
                assert(instruction@->Effect_args =~= seq![args@[0]@]);
                Ok(Some(exit))
            },
            EffectOp::Return => {
                if args.len() > 1 {
                    return Err(BuildError::ReturnArguments { pos: *pos });
                }
                if labels.len() != 0 {
                    return Err(BuildError::ReturnLabels { pos: *pos });
                }
                if args.len() == 1 {
                    assert(instruction@->Effect_args =~= seq![args@[0]@]);
                    Ok(Some(LabeledExit::Return(Some(args[0].clone()))))
                } else {
                    Ok(Some(LabeledExit::Return(None)))
                }
            },
            _ => Ok(None),
        },
        _ => Ok(None),
    }
}

/// The label of a block is a line of what the block stands for, and a
/// label line of a block is its label.
pub proof fn lemma_label_line(b: BasicBlock, l: Seq<char>)
    ensures
        block_lines(b).contains(CodeView::Label(l)) <==> b.label_text() == Some(l),
{
    let lines = block_lines(b);
    if b.label_text() == Some(l) {
        assert(lines[0] == CodeView::Label(l));
    }
    if lines.contains(CodeView::Label(l)) {
        let j = choose|j: int| 0 <= j < lines.len() && lines[j] == CodeView::Label(l);
        if b.label is Some {
            if j > 0 {
                assert(lines[j] is Instruction);
            }
        } else {
            assert(lines[j] is Instruction);
        }
    }
}

/// A terminator among the lines of a block that agrees with its exit is
/// the block's last instruction, and names the labels of the exit.
pub proof fn lemma_terminator_line(b: BasicBlock, i: InstructionView, l: Seq<char>)
    requires
        b.terminated(),
        block_lines(b).contains(CodeView::Instruction(i)),
        is_terminator(i),
        i->Effect_labels.contains(l),
    ensures
        exit_labels(b.exit).contains(l),
{
    let lines = block_lines(b);
    let j = choose|j: int| 0 <= j < lines.len() && lines[j] == CodeView::Instruction(i);
    let head: int = if b.label is Some {
        1
    } else {
        0
    };
    assert(j >= head);
    let m = j - head;
    assert(b.code()[m] == i);
    assert(m == b.code().len() - 1);
    let w = choose|w: int| 0 <= w < i->Effect_labels.len() && i->Effect_labels[w] == l;
    match b.exit {
        LabeledExit::Unconditional { label, .. } => {
            assert(exit_labels(b.exit)[0] == l);
        },
        LabeledExit::Conditional { if_true_label, if_false_label, .. } => {
            assert(exit_labels(b.exit)[w] == l);
        },
        _ => {},
    }
}

/// The last instruction of a block that agrees with its exit names the
/// labels of the exit.
pub proof fn lemma_exit_label_line(b: BasicBlock, l: Seq<char>)
    requires
        b.terminated(),
        exit_labels(b.exit).contains(l),
    ensures
        block_lines(b).contains(CodeView::Instruction(b.code().last())),
        is_terminator(b.code().last()),
        b.code().last()->Effect_labels.contains(l),
{
    let lines = block_lines(b);
    let head: int = if b.label is Some {
        1
    } else {
        0
    };
    let last = b.code().len() - 1;
    assert(lines[head + last] == CodeView::Instruction(b.code().last()));
    let w = choose|w: int| 0 <= w < exit_labels(b.exit).len() && exit_labels(b.exit)[w] == l;
    assert(b.code().last()->Effect_labels[w] == l);
}

/// What resolving the cut blocks gives is the graph of the body.
pub proof fn lemma_built(b: FunctionCfgBuilder, lines: Seq<CodeView>, prune: bool, cfg: FunctionCfg)
    requires
        b.ready(),
        cut(b.cfg.blocks(), b.order(), lines),
        forall|i: int| 0 <= i < b.order().len() ==> b.knows(i),
        if prune {
            exists|full: FunctionCfg|
                #![trigger crate::cfg::pruned(full, cfg)]
                full.blocks() == b.cfg.blocks() && resolved(b.order(), b.labels_to_blocks@, full)
                    && crate::cfg::pruned(full, cfg)
        } else {
            cfg.blocks() == b.cfg.blocks() && resolved(b.order(), b.labels_to_blocks@, cfg)
        },
    ensures
        cfg.wf(),
        cfg.terminated(),
        cfg.sole_entry(),
        graph_of(lines, prune, cfg),
        forall|l: Seq<char>| #[trigger] refers(lines, l) ==> defines(lines, l),
{
    let order = b.order();
    let blocks = b.cfg.blocks();
    let labels = b.labels_to_blocks@;
    assert forall|n: u64| #[trigger] blocks.dom().contains(n) && n != order[0].0 implies !blocks[n].is_entry by {
        assert(b.cfg.has(BasicBlockIdx(n)));
        assert(order.contains(BasicBlockIdx(n)));
        let j = choose|j: int| 0 <= j < order.len() && order[j] == BasicBlockIdx(n);
        assert(!blocks[order[j].0].is_entry);
    }
    assert forall|n: u64| #[trigger] blocks.dom().contains(n) implies blocks[n].terminated() by {
        assert(b.cfg.has(BasicBlockIdx(n)));
        assert(order.contains(BasicBlockIdx(n)));
        let j = choose|j: int| 0 <= j < order.len() && order[j] == BasicBlockIdx(n);
        assert(blocks[order[j].0].terminated());
    }
    if prune {
        let full = choose|full: FunctionCfg|
            #![trigger crate::cfg::pruned(full, cfg)]
            full.blocks() == blocks && resolved(order, labels, full) && crate::cfg::pruned(
                full,
                cfg,
            );
        assert(built(lines, full));
        assert(full.terminated());
        assert forall|n: u64| #[trigger] cfg.blocks().dom().contains(n) implies cfg.blocks()[n].terminated() by {
            assert(full.blocks().dom().contains(n));
        }
        assert forall|n: u64| #[trigger] cfg.blocks().dom().contains(n) && n
            != cfg.entry.0 implies !cfg.blocks()[n].is_entry by {
            assert(full.blocks().dom().contains(n));
            assert(cfg.blocks()[n] == full.blocks()[n]);
        }
    } else {
        assert(built(lines, cfg));
    }
    assert forall|l: Seq<char>| #[trigger] refers(lines, l) implies defines(lines, l) by {
        let j = choose|j: int|
            0 <= j < lines.len() && (#[trigger] lines[j]) is Instruction && is_terminator(
                lines[j]->Instruction_0,
            ) && lines[j]->Instruction_0->Effect_labels.contains(l);
        assert(lines.contains(lines[j]));
        let i = lemma_rendered_from(blocks, order, lines[j]);
        lemma_terminator_line(blocks[order[i].0], lines[j]->Instruction_0, l);
        assert(b.knows(i));
        assert(labels.contains_key(l));
        let d = labels[l];
        assert(b.cfg.has(d));
        assert(order.contains(d));
        let w = choose|w: int| 0 <= w < order.len() && order[w] == d;
        lemma_label_line(blocks[d.0], l);
        lemma_rendered_holds(blocks, order, w, CodeView::Label(l));
    }
}

/// A label that the exit of a cut block names and that is not known is
/// named by a jump or branch of the body and defined by none of its lines.
pub proof fn lemma_unknown_label(
    b: FunctionCfgBuilder,
    lines: Seq<CodeView>,
    at: int,
    e: BuildError,
)
    requires
        b.ready(),
        cut(b.cfg.blocks(), b.order(), lines),
        b.fails_at(at, e),
    ensures
        e is UnknownLabel,
        refers(lines, e->label@),
        !defines(lines, e->label@),
{
    let order = b.order();
    let blocks = b.cfg.blocks();
    let labels = b.labels_to_blocks@;
    let l = e->label@;
    let block = blocks[order[at].0];
    let ls = exit_labels(block.exit);
    assert(ls.contains(l) && !labels.contains_key(l)) by {
        let u = choose|u: Seq<char>| #[trigger] ls.contains(u) && !labels.contains_key(u);
        let w = choose|w: int| 0 <= w < ls.len() && ls[w] == u;
        if !labels.contains_key(ls[0]) {
            assert(ls[0] == l);
        } else {
            assert(ls[1] == l);
        }
    }
    assert(block.terminated());
    lemma_exit_label_line(block, l);
    let line = CodeView::Instruction(block.code().last());
    lemma_rendered_holds(blocks, order, at, line);
    let j = choose|j: int| 0 <= j < lines.len() && lines[j] == line;
    assert(lines[j] is Instruction && is_terminator(lines[j]->Instruction_0)
        && lines[j]->Instruction_0->Effect_labels.contains(l));
    if defines(lines, l) {
        let i = lemma_rendered_from(blocks, order, CodeView::Label(l));
        lemma_label_line(blocks[order[i].0], l);
        assert(order.contains(order[i]));
        assert(b.cfg.has(order[i]));
        assert(blocks[order[i].0].label is Some);
    }
}

} // verus!
