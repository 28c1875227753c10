use bril_passes::builder::{build_cfg, BuildError};
use bril_passes::cfg::Exit;
use bril_passes::ir::{Code, EffectOp, Function, Instruction, Literal, Type, ValueOp};
use bril_passes::store::LabeledExit;

fn konst(dest: &str, value: i64) -> Code {
    Code::Instruction(Instruction::Constant {
        dest: dest.to_string(),
        const_type: Type::Int,
        value: Literal::Int(value),
        pos: None,
    })
}

fn value(dest: &str, op: ValueOp, args: &[&str]) -> Code {
    Code::Instruction(Instruction::Value {
        dest: dest.to_string(),
        op,
        args: args.iter().map(|a| a.to_string()).collect(),
        funcs: vec![],
        labels: vec![],
        op_type: Type::Int,
        pos: None,
    })
}

fn effect(op: EffectOp, args: &[&str], labels: &[&str]) -> Code {
    Code::Instruction(Instruction::Effect {
        op,
        args: args.iter().map(|a| a.to_string()).collect(),
        funcs: vec![],
        labels: labels.iter().map(|a| a.to_string()).collect(),
        pos: None,
    })
}

fn label(name: &str) -> Code {
    Code::Label { label: name.to_string(), pos: None }
}

fn function(instrs: Vec<Code>) -> Function {
    Function { name: "main".to_string(), args: vec![], return_type: None, instrs }
}

#[test]
fn empty_body_is_one_empty_entry_block() {
    let cfg = build_cfg(&function(vec![]), false).unwrap();
    assert_eq!(cfg.len(), 1);
    let entry = cfg.block(cfg.entry).unwrap();
    assert!(entry.is_entry);
    assert!(entry.label.is_none());
    assert!(entry.instructions.is_empty());
    assert!(matches!(entry.exit, LabeledExit::Fallthrough));
    assert!(cfg.successors(cfg.entry).is_empty());
    assert!(cfg.predecessors(cfg.entry).is_empty());
}

#[test]
fn straight_line_code_is_one_block() {
    let cfg = build_cfg(
        &function(vec![
            konst("v0", 1),
            konst("v1", 2),
            value("v2", ValueOp::Add, &["v0", "v1"]),
            effect(EffectOp::Print, &["v2"], &[]),
        ]),
        false,
    )
    .unwrap();
    assert_eq!(cfg.len(), 1);
    assert_eq!(cfg.block(cfg.entry).unwrap().instructions.len(), 4);
}

#[test]
fn a_return_ends_its_block_and_an_empty_block_follows() {
    let cfg = build_cfg(&function(vec![effect(EffectOp::Return, &[], &[])]), false).unwrap();
    assert_eq!(cfg.len(), 2);
    let keys = cfg.keys();
    assert_eq!(keys[0], cfg.entry);
    assert!(matches!(cfg.block(keys[0]).unwrap().exit, LabeledExit::Return(None)));
    assert!(cfg.block(keys[1]).unwrap().instructions.is_empty());
    assert!(matches!(cfg.edges.get(&keys[1].as_number()).unwrap(), Exit::Fallthrough(None)));
}

#[test]
fn pruning_drops_the_block_after_a_return() {
    let cfg = build_cfg(&function(vec![effect(EffectOp::Return, &[], &[])]), true).unwrap();
    assert_eq!(cfg.len(), 1);
    assert!(cfg.contains(cfg.entry));
}

#[test]
fn diamond_has_mirrored_edges() {
    let cfg = build_cfg(
        &function(vec![
            konst("c", 1),
            effect(EffectOp::Branch, &["c"], &["left", "right"]),
            label("left"),
            konst("x", 1),
            effect(EffectOp::Jump, &[], &["join"]),
            label("right"),
            konst("x", 2),
            label("join"),
            effect(EffectOp::Print, &["x"], &[]),
        ]),
        true,
    )
    .unwrap();
    assert_eq!(cfg.len(), 4);
    let keys = cfg.keys();
    let (entry, left, right, join) = (keys[0], keys[1], keys[2], keys[3]);
    assert_eq!(cfg.successors(entry), vec![left, right]);
    assert_eq!(cfg.successors(left), vec![join]);
    assert_eq!(cfg.successors(right), vec![join]);
    assert!(cfg.successors(join).is_empty());
    assert_eq!(cfg.predecessors(join).to_vec(), vec![left, right]);
    assert_eq!(cfg.predecessors(left).to_vec(), vec![entry]);
    assert!(matches!(cfg.edges.get(&right.as_number()).unwrap(), Exit::Fallthrough(Some(d)) if *d == join));
}

#[test]
fn a_branch_to_one_label_twice_records_one_predecessor() {
    let cfg = build_cfg(
        &function(vec![
            konst("c", 1),
            effect(EffectOp::Branch, &["c"], &["next", "next"]),
            label("next"),
            effect(EffectOp::Return, &[], &[]),
        ]),
        true,
    )
    .unwrap();
    let keys = cfg.keys();
    assert_eq!(cfg.successors(keys[0]), vec![keys[1], keys[1]]);
    assert_eq!(cfg.predecessors(keys[1]).to_vec(), vec![keys[0]]);
}

#[test]
fn a_jump_without_label_is_a_fault() {
    let r = build_cfg(&function(vec![effect(EffectOp::Jump, &[], &[])]), false);
    assert!(matches!(r, Err(BuildError::JumpLabels { pos: None })));
}

#[test]
fn a_branch_without_condition_is_a_fault() {
    let r = build_cfg(&function(vec![effect(EffectOp::Branch, &[], &["a", "b"])]), false);
    assert!(matches!(r, Err(BuildError::BranchCondition { .. })));
}

#[test]
fn a_branch_with_one_label_is_a_fault() {
    let r = build_cfg(&function(vec![effect(EffectOp::Branch, &["c"], &["a"])]), false);
    assert!(matches!(r, Err(BuildError::BranchLabels { .. })));
}

#[test]
fn a_return_of_two_values_is_a_fault() {
    let r = build_cfg(&function(vec![effect(EffectOp::Return, &["a", "b"], &[])]), false);
    assert!(matches!(r, Err(BuildError::ReturnArguments { .. })));
}

#[test]
fn a_return_with_a_label_is_a_fault() {
    let r = build_cfg(&function(vec![effect(EffectOp::Return, &[], &["a"])]), false);
    assert!(matches!(r, Err(BuildError::ReturnLabels { .. })));
}

#[test]
fn a_jump_to_an_unknown_label_is_reported() {
    let r = build_cfg(&function(vec![effect(EffectOp::Jump, &[], &["nowhere"])]), false);
    match r {
        Err(BuildError::UnknownLabel { label, pos }) => {
            assert_eq!(label, "nowhere");
            assert!(pos.is_none());
        }
        _ => panic!("expected an unknown label"),
    }
}

#[test]
fn handles_are_numbers_with_a_slot_in_the_lower_half() {
    let cfg = build_cfg(&function(vec![effect(EffectOp::Return, &[], &[])]), false).unwrap();
    let keys = cfg.keys();
    assert_eq!(keys[0].as_index_for_slotmap_version_1_0_7_only(), keys[0].as_number() & 0xffff_ffff);
    assert!(keys[0].as_index_for_slotmap_version_1_0_7_only() < keys[1].as_index_for_slotmap_version_1_0_7_only());
    assert_ne!(keys[0].as_number(), keys[1].as_number());
}

#[test]
fn fallthroughs_become_jumps_and_returns() {
    let mut cfg = build_cfg(
        &function(vec![konst("x", 1), label("next"), effect(EffectOp::Print, &["x"], &[])]),
        false,
    )
    .unwrap();
    assert!(!cfg.assert_no_fallthroughs());
    cfg.make_fallthroughs_explicit();
    assert!(cfg.assert_no_fallthroughs());
    let keys = cfg.keys();
    let first = cfg.block(keys[0]).unwrap();
    assert_eq!(first.instructions.len(), 2);
    match &first.instructions[1] {
        Instruction::Effect { op, labels, args, .. } => {
            assert_eq!(*op, EffectOp::Jump);
            assert_eq!(labels, &vec!["next".to_string()]);
            assert!(args.is_empty());
        }
        _ => panic!("expected a jump"),
    }
    assert!(matches!(&first.exit, LabeledExit::Unconditional { label, .. } if label == "next"));
    let second = cfg.block(keys[1]).unwrap();
    assert!(matches!(second.instructions.last().unwrap(), Instruction::Effect { op: EffectOp::Return, .. }));
    assert!(matches!(second.exit, LabeledExit::Return(None)));
    assert!(matches!(cfg.edges.get(&keys[0].as_number()).unwrap(), Exit::Unconditional(d) if *d == keys[1]));
    assert!(matches!(cfg.edges.get(&keys[1].as_number()).unwrap(), Exit::Return(None)));
}
