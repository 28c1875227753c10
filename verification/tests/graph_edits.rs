#![allow(dead_code, unused_imports)]
use bril_passes::builder::build_cfg;
use bril_passes::cfg::FunctionCfg;
use bril_passes::ir::{Argument, Code, EffectOp, Function, Instruction, Literal, Type, ValueOp};
use bril_passes::store::{BasicBlock, BasicBlockIdx};
use bril_passes::cfg::Exit;
use bril_passes::exits::refresh_exit;
use bril_passes::renaming::{insert_new_empty_entry_block, into_ssa, simulate_parameters_as_locals};
use bril_passes::store::{Label, LabeledExit};

fn konst(dest: &str, value: i64) -> Instruction {
    Instruction::Constant {
        dest: dest.to_string(),
        const_type: Type::Int,
        value: Literal::Int(value),
        pos: None,
    }
}

fn typed(dest: &str, op: ValueOp, args: &[&str], op_type: Type) -> Instruction {
    Instruction::Value {
        dest: dest.to_string(),
        op,
        args: args.iter().map(|a| a.to_string()).collect(),
        funcs: vec![],
        labels: vec![],
        op_type,
        pos: None,
    }
}

fn value(dest: &str, op: ValueOp, args: &[&str]) -> Instruction {
    typed(dest, op, args, Type::Int)
}

fn effect(op: EffectOp, args: &[&str], labels: &[&str]) -> Instruction {
    Instruction::Effect {
        op,
        args: args.iter().map(|a| a.to_string()).collect(),
        funcs: vec![],
        labels: labels.iter().map(|a| a.to_string()).collect(),
        pos: None,
    }
}

fn print(name: &str) -> Instruction {
    effect(EffectOp::Print, &[name], &[])
}

fn code(instruction: Instruction) -> Code {
    Code::Instruction(instruction)
}

fn label(name: &str) -> Code {
    Code::Label { label: name.to_string(), pos: None }
}

fn function(params: &[&str], instrs: Vec<Code>) -> Function {
    Function {
        name: "main".to_string(),
        args: params
            .iter()
            .map(|p| Argument { name: p.to_string(), arg_type: Type::Int })
            .collect(),
        return_type: None,
        instrs,
    }
}

fn lines(block: &BasicBlock) -> Vec<String> {
    block.instructions.iter().map(|i| i.text()).collect()
}

fn by_label(cfg: &FunctionCfg, name: &str) -> BasicBlockIdx {
    for k in cfg.keys() {
        if let Some(l) = &cfg.block(k).unwrap().label {
            if l.name == name {
                return k;
            }
        }
    }
    panic!("no block is labeled {name}");
}

fn sorted(mut blocks: Vec<BasicBlockIdx>) -> Vec<u64> {
    let mut numbers: Vec<u64> = blocks.drain(..).map(|b| b.0).collect();
    numbers.sort();
    numbers
}

fn diamond() -> FunctionCfg {
    build_cfg(
        &function(
            &["c"],
            vec![
                code(effect(EffectOp::Branch, &["c"], &["left", "right"])),
                label("left"),
                code(konst("x", 1)),
                code(effect(EffectOp::Jump, &[], &["join"])),
                label("right"),
                code(konst("x", 2)),
                label("join"),
                code(print("x")),
            ],
        ),
        true,
    )
    .unwrap()
}

fn mirrors(cfg: &FunctionCfg) {
    for b in cfg.keys() {
        let preds = cfg.predecessors(b);
        for p in cfg.keys() {
            let listed = preds.iter().filter(|q| **q == p).count();
            let is_successor = cfg.successors(p).contains(&b);
            assert_eq!(listed, if is_successor { 1 } else { 0 }, "{p:?} before {b:?}");
        }
        for p in preds {
            assert!(cfg.contains(*p));
        }
    }
}

#[test]
fn the_predecessors_mirror_the_successors() {
    let cfg = diamond();
    mirrors(&cfg);
    let join = by_label(&cfg, "join");
    assert_eq!(
        sorted(cfg.predecessors(join).to_vec()),
        sorted(vec![by_label(&cfg, "left"), by_label(&cfg, "right")])
    );
}

#[test]
fn the_predecessors_mirror_the_successors_after_every_edit() {
    let mut cfg = diamond();
    cfg.make_fallthroughs_explicit();
    mirrors(&cfg);
    let (left, right, join) = (by_label(&cfg, "left"), by_label(&cfg, "right"), by_label(&cfg, "join"));
    cfg.reorient_edge(left, join, right);
    mirrors(&cfg);
    cfg.set_unconditional_edge(right, left);
    mirrors(&cfg);
    insert_new_empty_entry_block(&mut cfg);
    mirrors(&cfg);
    cfg.prune_unreachable();
    mirrors(&cfg);
    let mut cfg = diamond();
    into_ssa(&mut cfg, false);
    mirrors(&cfg);
}

#[test]
fn no_block_falls_through_once_the_exits_are_explicit() {
    let mut cfg = diamond();
    assert!(!cfg.assert_no_fallthroughs());
    cfg.make_fallthroughs_explicit();
    assert!(cfg.assert_no_fallthroughs());
    for k in cfg.keys() {
        assert!(!matches!(cfg.block(k).unwrap().exit, LabeledExit::Fallthrough));
    }
    assert_eq!(
        lines(cfg.block(by_label(&cfg, "right")).unwrap()),
        ["x: int = const 2;", "jmp .join;"]
    );
    assert_eq!(lines(cfg.block(by_label(&cfg, "join")).unwrap()), ["print x;", "ret;"]);
    assert!(matches!(cfg.block(by_label(&cfg, "join")).unwrap().exit, LabeledExit::Return(None)));
    assert_eq!(cfg.successors(by_label(&cfg, "right")), [by_label(&cfg, "join")]);
    cfg.make_fallthroughs_explicit();
    assert_eq!(lines(cfg.block(by_label(&cfg, "join")).unwrap()), ["print x;", "ret;"]);
}

#[test]
fn a_new_block_gets_a_handle_of_its_own() {
    let mut cfg = diamond();
    let before = cfg.keys();
    let mut block = BasicBlock::empty();
    block.label = Some(Label { name: "extra".to_string() });
    block.instructions = vec![print("x")];
    let idx = cfg.add_block(block);
    assert!(!before.contains(&idx));
    assert_eq!(cfg.len(), before.len() + 1);
    assert!(cfg.contains(idx));
    assert_eq!(lines(cfg.block(idx).unwrap()), ["print x;"]);
    assert!(cfg.successors(idx).is_empty());
    assert!(cfg.predecessors(idx).is_empty());
    assert_eq!(cfg.keys().last(), Some(&idx));
    assert_eq!(idx.as_index_for_slotmap_version_1_0_7_only(), 5);
}

#[test]
fn handles_hold_a_version_above_the_slot() {
    let cfg = diamond();
    assert_eq!(cfg.entry.as_number(), 0x1_0000_0001);
    assert_eq!(cfg.entry.as_index_for_slotmap_version_1_0_7_only(), 1);
    let slots: Vec<u64> =
        cfg.keys().iter().map(|k| k.as_index_for_slotmap_version_1_0_7_only()).collect();
    assert_eq!(slots, [1, 2, 3, 4]);
    assert!(cfg.entry.same(&BasicBlockIdx(0x1_0000_0001)));
    assert!(!cfg.entry.same(&BasicBlockIdx(0x1_0000_0002)));
}

#[test]
fn a_handle_of_no_block_finds_nothing() {
    let cfg = diamond();
    for stranger in [BasicBlockIdx(0x1_0000_0009), BasicBlockIdx(0x3_0000_0001), BasicBlockIdx(1), BasicBlockIdx(0)] {
        assert!(!cfg.contains(stranger));
        assert!(cfg.block(stranger).is_none());
        assert!(cfg.predecessors(stranger).is_empty());
    }
}

#[test]
fn a_pruned_block_leaves_its_handle_dead() {
    let f = function(
        &[],
        vec![
            code(effect(EffectOp::Jump, &[], &["end"])),
            label("island"),
            code(effect(EffectOp::Jump, &[], &["reef"])),
            label("reef"),
            code(effect(EffectOp::Jump, &[], &["end"])),
            label("end"),
            code(effect(EffectOp::Return, &[], &[])),
        ],
    );
    let mut cfg = build_cfg(&f, false).unwrap();
    let (island, reef, end) = (by_label(&cfg, "island"), by_label(&cfg, "reef"), by_label(&cfg, "end"));
    assert_eq!(sorted(cfg.predecessors(end).to_vec()), sorted(vec![cfg.entry, reef]));
    cfg.prune_unreachable();
    assert!(!cfg.contains(island));
    assert!(!cfg.contains(reef));
    assert!(cfg.block(island).is_none());
    assert_eq!(cfg.predecessors(end), [cfg.entry]);
    assert!(!cfg.keys().contains(&island));
    mirrors(&cfg);
    let mut again = BasicBlock::empty();
    again.label = Some(Label { name: "again".to_string() });
    let idx = cfg.add_block(again);
    assert_ne!(idx, island);
    assert_ne!(idx, reef);
    assert!(cfg.contains(idx));
    assert!(!cfg.contains(island));
    assert!(!cfg.contains(reef));
}

#[test]
fn a_jump_is_set_where_a_block_fell_through() {
    let mut cfg = diamond();
    let (left, right, join) = (by_label(&cfg, "left"), by_label(&cfg, "right"), by_label(&cfg, "join"));
    cfg.set_unconditional_edge(right, left);
    assert_eq!(lines(cfg.block(right).unwrap()), ["x: int = const 2;", "jmp .left;"]);
    assert_eq!(cfg.successors(right), [left]);
    assert_eq!(cfg.predecessors(join), [left]);
    assert_eq!(sorted(cfg.predecessors(left).to_vec()), sorted(vec![cfg.entry, right]));
    match &cfg.block(right).unwrap().exit {
        LabeledExit::Unconditional { label, .. } => assert_eq!(label, "left"),
        other => panic!("{other:?}"),
    }
    cfg.set_unconditional_edge(right, join);
    assert_eq!(lines(cfg.block(right).unwrap()), ["x: int = const 2;", "jmp .join;"]);
    assert_eq!(cfg.successors(right), [join]);
    assert_eq!(cfg.predecessors(left), [cfg.entry]);
}

#[test]
fn an_edge_is_turned_to_another_block() {
    let mut cfg = diamond();
    cfg.make_fallthroughs_explicit();
    let (left, right, join) = (by_label(&cfg, "left"), by_label(&cfg, "right"), by_label(&cfg, "join"));
    let entry = cfg.entry;
    cfg.reorient_edge(entry, left, join);
    assert_eq!(lines(cfg.block(entry).unwrap()), ["br c .join .right;"]);
    assert_eq!(cfg.successors(entry), [join, right]);
    assert!(cfg.predecessors(left).is_empty());
    assert_eq!(sorted(cfg.predecessors(join).to_vec()), sorted(vec![entry, left, right]));
    match &cfg.block(entry).unwrap().exit {
        LabeledExit::Conditional { condition, if_true_label, if_false_label, .. } => {
            assert_eq!(condition, "c");
            assert_eq!(if_true_label, "join");
            assert_eq!(if_false_label, "right");
        }
        other => panic!("{other:?}"),
    }
    cfg.reorient_edge(left, join, right);
    assert_eq!(lines(cfg.block(left).unwrap()), ["x: int = const 1;", "jmp .right;"]);
    assert_eq!(cfg.successors(left), [right]);
    mirrors(&cfg);
}

#[test]
fn turning_an_edge_that_is_not_there_changes_nothing() {
    let mut cfg = diamond();
    cfg.make_fallthroughs_explicit();
    let (left, right, join) = (by_label(&cfg, "left"), by_label(&cfg, "right"), by_label(&cfg, "join"));
    let before = cfg.to_text();
    cfg.reorient_edge(left, right, join);
    assert_eq!(cfg.to_text(), before);
    cfg.reorient_edge(join, left, right);
    assert_eq!(cfg.to_text(), before);
    assert!(cfg.successors(join).is_empty());
    mirrors(&cfg);
}

#[test]
fn of_a_branch_to_one_block_twice_only_the_first_edge_turns() {
    let mut cfg = build_cfg(
        &function(
            &["c"],
            vec![
                code(effect(EffectOp::Branch, &["c"], &["a", "a"])),
                label("a"),
                code(effect(EffectOp::Return, &[], &[])),
                label("b"),
                code(effect(EffectOp::Return, &[], &[])),
            ],
        ),
        false,
    )
    .unwrap();
    let (a, b) = (by_label(&cfg, "a"), by_label(&cfg, "b"));
    let entry = cfg.entry;
    assert_eq!(cfg.predecessors(a), [entry]);
    cfg.reorient_edge(entry, a, b);
    assert_eq!(lines(cfg.block(entry).unwrap()), ["br c .b .a;"]);
    assert_eq!(cfg.successors(entry), [b, a]);
    assert_eq!(cfg.predecessors(a), [entry]);
    assert_eq!(cfg.predecessors(b), [entry]);
    cfg.reorient_edge(entry, a, b);
    assert_eq!(lines(cfg.block(entry).unwrap()), ["br c .b .b;"]);
    assert!(cfg.predecessors(a).is_empty());
    assert_eq!(cfg.predecessors(b), [entry]);
}

#[test]
fn a_new_entry_jumps_to_the_old_one() {
    let mut cfg = diamond();
    let old_entry = cfg.entry;
    let entry = insert_new_empty_entry_block(&mut cfg);
    assert_eq!(cfg.entry, entry);
    assert_ne!(entry, old_entry);
    assert!(cfg.block(entry).unwrap().is_entry);
    assert!(!cfg.block(old_entry).unwrap().is_entry);
    assert_eq!(cfg.block(old_entry).unwrap().label.as_ref().unwrap().name, "entry");
    assert_eq!(lines(cfg.block(entry).unwrap()), ["jmp .entry;"]);
    assert_eq!(cfg.successors(entry), [old_entry]);
    assert_eq!(cfg.predecessors(old_entry), [entry]);
    assert!(cfg.predecessors(entry).is_empty());
}

#[test]
fn a_labeled_entry_keeps_its_label_under_a_new_entry() {
    let mut cfg = build_cfg(
        &function(&[], vec![label("top"), code(effect(EffectOp::Jump, &[], &["top"]))]),
        false,
    )
    .unwrap();
    let old_entry = cfg.entry;
    let entry = insert_new_empty_entry_block(&mut cfg);
    assert_eq!(lines(cfg.block(entry).unwrap()), ["jmp .top;"]);
    assert_eq!(sorted(cfg.predecessors(old_entry).to_vec()), sorted(vec![old_entry, entry]));
}

#[test]
fn parameters_are_copied_at_the_head_of_the_entry() {
    let mut cfg = build_cfg(&function(&["a", "b"], vec![code(print("a"))]), false).unwrap();
    simulate_parameters_as_locals(&mut cfg);
    assert_eq!(
        lines(cfg.block(cfg.entry).unwrap()),
        ["a: int = id a;", "b: int = id b;", "print a;"]
    );
}

#[test]
fn an_exit_takes_its_operand_from_the_terminator() {
    let mut block = BasicBlock::empty();
    block.instructions = vec![effect(EffectOp::Branch, &["now"], &["l", "r"])];
    block.exit = LabeledExit::Conditional {
        condition: "before".to_string(),
        if_true_label: "l".to_string(),
        if_false_label: "r".to_string(),
        pos: None,
    };
    refresh_exit(&mut block);
    match &block.exit {
        LabeledExit::Conditional { condition, if_true_label, if_false_label, .. } => {
            assert_eq!(condition, "now");
            assert_eq!(if_true_label, "l");
            assert_eq!(if_false_label, "r");
        }
        other => panic!("{other:?}"),
    }
    let mut block = BasicBlock::empty();
    block.instructions = vec![effect(EffectOp::Return, &["now"], &[])];
    block.exit = LabeledExit::Return(Some("before".to_string()));
    refresh_exit(&mut block);
    assert!(matches!(&block.exit, LabeledExit::Return(Some(v)) if v == "now"));
    let mut block = BasicBlock::empty();
    block.instructions = vec![effect(EffectOp::Jump, &[], &["l"])];
    block.exit = LabeledExit::Unconditional { label: "l".to_string(), pos: None };
    refresh_exit(&mut block);
    assert!(matches!(&block.exit, LabeledExit::Unconditional { label, .. } if label == "l"));
}

#[test]
fn the_exits_follow_the_renaming() {
    let mut cfg = build_cfg(
        &function(
            &["a"],
            vec![
                code(typed("c", ValueOp::Not, &["a"], Type::Bool)),
                code(effect(EffectOp::Branch, &["c"], &["l", "r"])),
                label("l"),
                code(effect(EffectOp::Return, &["a"], &[])),
                label("r"),
                code(effect(EffectOp::Return, &["c"], &[])),
            ],
        ),
        true,
    )
    .unwrap();
    into_ssa(&mut cfg, false);
    let top = by_label(&cfg, "entry");
    assert_eq!(
        lines(cfg.block(top).unwrap()),
        ["c.1.1: bool = not a.4.1;", "br c.1.1 .l .r;"]
    );
    assert!(matches!(
        &cfg.block(top).unwrap().exit,
        LabeledExit::Conditional { condition, .. } if condition == "c.1.1"
    ));
    assert!(matches!(
        &cfg.block(by_label(&cfg, "l")).unwrap().exit,
        LabeledExit::Return(Some(v)) if v == "a.4.1"
    ));
    assert!(matches!(
        &cfg.block(by_label(&cfg, "r")).unwrap().exit,
        LabeledExit::Return(Some(v)) if v == "c.1.1"
    ));
    match cfg.edges.get(&top.0) {
        Some(Exit::Conditional { condition, .. }) => assert_eq!(condition, "c.1.1"),
        other => panic!("{other:?}"),
    }
}

#[test]
fn a_built_graph_agrees_with_its_exits_through_every_pass() {
    let mut cfg = diamond();
    assert!(cfg.is_terminated());
    cfg.make_fallthroughs_explicit();
    assert!(cfg.is_terminated());
    cfg.lvn_blocks();
    assert!(cfg.is_terminated());
    bril_passes::dce::eliminate_dead_code(&mut cfg);
    assert!(cfg.is_terminated());
    into_ssa(&mut cfg, false);
    assert!(cfg.is_terminated());
    assert!(bril_passes::ssa::from_ssa(&mut cfg).is_ok());
    assert!(cfg.is_terminated());
}

#[test]
fn a_block_agrees_with_its_exit_only_if_it_ends_in_its_terminator() {
    let branch = |condition: &str| LabeledExit::Conditional {
        condition: condition.to_string(),
        if_true_label: "l".to_string(),
        if_false_label: "r".to_string(),
        pos: None,
    };
    let mut block = BasicBlock::empty();
    assert!(block.is_terminated());
    block.instructions = vec![print("a"), effect(EffectOp::Branch, &["c"], &["l", "r"])];
    assert!(!block.is_terminated());
    block.exit = branch("c");
    assert!(block.is_terminated());
    block.exit = branch("d");
    assert!(!block.is_terminated());
    block.exit = LabeledExit::Unconditional { label: "l".to_string(), pos: None };
    assert!(!block.is_terminated());
    block.instructions = vec![effect(EffectOp::Jump, &[], &["l"])];
    assert!(block.is_terminated());
    block.instructions = vec![effect(EffectOp::Jump, &[], &["r"])];
    assert!(!block.is_terminated());
    block.instructions = vec![effect(EffectOp::Jump, &[], &["l"]), effect(EffectOp::Jump, &[], &["l"])];
    assert!(!block.is_terminated());
    block.instructions = vec![];
    assert!(!block.is_terminated());
    block.exit = LabeledExit::Return(None);
    assert!(!block.is_terminated());
    block.instructions = vec![effect(EffectOp::Return, &[], &[])];
    assert!(block.is_terminated());
    block.instructions = vec![effect(EffectOp::Return, &["v"], &[])];
    assert!(!block.is_terminated());
    block.exit = LabeledExit::Return(Some("v".to_string()));
    assert!(block.is_terminated());
    block.exit = LabeledExit::Return(Some("w".to_string()));
    assert!(!block.is_terminated());
}

#[test]
fn turning_an_edge_leaves_the_other_lists_as_they_are() {
    let mut cfg = build_cfg(
        &function(
            &["c"],
            vec![
                code(effect(EffectOp::Branch, &["c"], &["a", "b"])),
                label("a"),
                code(effect(EffectOp::Branch, &["c"], &["b", "d"])),
                label("b"),
                code(effect(EffectOp::Jump, &[], &["d"])),
                label("d"),
                code(effect(EffectOp::Return, &[], &[])),
            ],
        ),
        false,
    )
    .unwrap();
    let (a, b, d) = (by_label(&cfg, "a"), by_label(&cfg, "b"), by_label(&cfg, "d"));
    let entry = cfg.entry;
    assert_eq!(cfg.predecessors(b), [entry, a]);
    assert_eq!(cfg.predecessors(d), [a, b]);
    cfg.reorient_edge(entry, b, d);
    assert_eq!(cfg.predecessors(b), [a]);
    assert_eq!(cfg.predecessors(d), [a, b, entry]);
    assert_eq!(cfg.predecessors(a), [entry]);
    cfg.reorient_edge(a, d, b);
    assert_eq!(cfg.predecessors(b), [a]);
    assert_eq!(cfg.predecessors(d), [b, entry]);
}

#[test]
fn a_block_that_returns_has_no_edge_to_turn_whatever_the_ends() {
    let mut cfg = diamond();
    cfg.make_fallthroughs_explicit();
    let join = by_label(&cfg, "join");
    let before = cfg.to_text();
    cfg.reorient_edge(join, BasicBlockIdx(0x1_0000_0042), BasicBlockIdx(0x1_0000_0043));
    assert_eq!(cfg.to_text(), before);
    mirrors(&cfg);
}

#[test]
fn only_the_entry_is_marked_as_the_entry() {
    for prune in [false, true] {
        let cfg = build_cfg(
            &function(
                &[],
                vec![
                    code(effect(EffectOp::Jump, &[], &["end"])),
                    label("island"),
                    code(effect(EffectOp::Jump, &[], &["end"])),
                    label("end"),
                    code(effect(EffectOp::Return, &[], &[])),
                ],
            ),
            prune,
        )
        .unwrap();
        for k in cfg.keys() {
            assert_eq!(cfg.block(k).unwrap().is_entry, k == cfg.entry);
        }
    }
}
