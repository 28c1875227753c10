#![allow(dead_code, unused_imports)]
use bril_passes::builder::build_cfg;
use bril_passes::cfg::FunctionCfg;
use bril_passes::ir::{Argument, Code, EffectOp, Function, Instruction, Literal, Type, ValueOp};
use bril_passes::store::{BasicBlock, BasicBlockIdx};
use bril_passes::blocksets::BlockSets;
use bril_passes::dominators::{
    compute_dominance_frontiers, compute_dominator_tree, compute_dominators,
};

fn konst(dest: &str, value: i64) -> Instruction {
    Instruction::Constant {
        dest: dest.to_string(),
        const_type: Type::Int,
        value: Literal::Int(value),
        pos: None,
    }
}

fn typed(dest: &str, op: ValueOp, args: &[&str], op_type: Type) -> Instruction {
    Instruction::Value {
        dest: dest.to_string(),
        op,
        args: args.iter().map(|a| a.to_string()).collect(),
        funcs: vec![],
        labels: vec![],
        op_type,
        pos: None,
    }
}

fn value(dest: &str, op: ValueOp, args: &[&str]) -> Instruction {
    typed(dest, op, args, Type::Int)
}

fn effect(op: EffectOp, args: &[&str], labels: &[&str]) -> Instruction {
    Instruction::Effect {
        op,
        args: args.iter().map(|a| a.to_string()).collect(),
        funcs: vec![],
        labels: labels.iter().map(|a| a.to_string()).collect(),
        pos: None,
    }
}

fn print(name: &str) -> Instruction {
    effect(EffectOp::Print, &[name], &[])
}

fn code(instruction: Instruction) -> Code {
    Code::Instruction(instruction)
}

fn label(name: &str) -> Code {
    Code::Label { label: name.to_string(), pos: None }
}

fn function(params: &[&str], instrs: Vec<Code>) -> Function {
    Function {
        name: "main".to_string(),
        args: params
            .iter()
            .map(|p| Argument { name: p.to_string(), arg_type: Type::Int })
            .collect(),
        return_type: None,
        instrs,
    }
}

fn lines(block: &BasicBlock) -> Vec<String> {
    block.instructions.iter().map(|i| i.text()).collect()
}

fn by_label(cfg: &FunctionCfg, name: &str) -> BasicBlockIdx {
    for k in cfg.keys() {
        if let Some(l) = &cfg.block(k).unwrap().label {
            if l.name == name {
                return k;
            }
        }
    }
    panic!("no block is labeled {name}");
}

fn sorted(mut blocks: Vec<BasicBlockIdx>) -> Vec<u64> {
    let mut numbers: Vec<u64> = blocks.drain(..).map(|b| b.0).collect();
    numbers.sort();
    numbers
}

fn diamond() -> FunctionCfg {
    build_cfg(
        &function(
            &["c"],
            vec![
                code(effect(EffectOp::Branch, &["c"], &["left", "right"])),
                label("left"),
                code(konst("x", 1)),
                code(effect(EffectOp::Jump, &[], &["join"])),
                label("right"),
                code(konst("x", 2)),
                code(effect(EffectOp::Jump, &[], &["join"])),
                label("join"),
                code(print("x")),
            ],
        ),
        true,
    )
    .unwrap()
}

fn counter() -> FunctionCfg {
    build_cfg(
        &function(
            &[],
            vec![
                code(konst("i", 0)),
                code(konst("n", 5)),
                code(konst("one", 1)),
                label("loop"),
                code(value("i", ValueOp::Add, &["i", "one"])),
                code(typed("cond", ValueOp::Lt, &["i", "n"], Type::Bool)),
                code(effect(EffectOp::Branch, &["cond"], &["loop", "done"])),
                label("done"),
                code(print("i")),
            ],
        ),
        true,
    )
    .unwrap()
}

#[test]
fn the_join_of_a_diamond_is_dominated_by_the_entry_alone() {
    let cfg = diamond();
    let (entry, left, right, join) =
        (cfg.entry, by_label(&cfg, "left"), by_label(&cfg, "right"), by_label(&cfg, "join"));
    let dom = compute_dominators(&cfg);
    assert_eq!(sorted(dom.members(entry)), [entry.0]);
    assert_eq!(sorted(dom.members(left)), [entry.0, left.0]);
    assert_eq!(sorted(dom.members(right)), [entry.0, right.0]);
    assert_eq!(sorted(dom.members(join)), [entry.0, join.0]);
    assert!(dom.contains(join, entry));
    assert!(!dom.contains(join, left));
    assert!(!dom.contains(entry, join));
}

#[test]
fn the_arms_of_a_diamond_have_the_join_as_frontier() {
    let cfg = diamond();
    let (entry, left, right, join) =
        (cfg.entry, by_label(&cfg, "left"), by_label(&cfg, "right"), by_label(&cfg, "join"));
    let dom = compute_dominators(&cfg);
    let frontiers = compute_dominance_frontiers(&cfg, &dom);
    assert_eq!(sorted(frontiers.members(left)), [join.0]);
    assert_eq!(sorted(frontiers.members(right)), [join.0]);
    assert!(frontiers.members(entry).is_empty());
    assert!(frontiers.members(join).is_empty());
}

#[test]
fn the_entry_of_a_diamond_is_the_parent_of_the_rest() {
    let cfg = diamond();
    let (entry, left, right, join) =
        (cfg.entry, by_label(&cfg, "left"), by_label(&cfg, "right"), by_label(&cfg, "join"));
    let tree = compute_dominator_tree(&compute_dominators(&cfg));
    assert_eq!(sorted(tree.members(entry)), [left.0, right.0, join.0]);
    assert!(tree.members(left).is_empty());
    assert!(tree.members(right).is_empty());
    assert!(tree.members(join).is_empty());
}

#[test]
fn every_block_dominates_itself() {
    for cfg in [diamond(), counter()] {
        let dom = compute_dominators(&cfg);
        for k in cfg.keys() {
            assert!(dom.contains(k, k));
            assert!(dom.contains(k, cfg.entry));
        }
        assert_eq!(sorted(dom.members(cfg.entry)), [cfg.entry.0]);
    }
}

#[test]
fn a_loop_header_is_in_its_own_frontier() {
    let cfg = counter();
    let (entry, header, done) = (cfg.entry, by_label(&cfg, "loop"), by_label(&cfg, "done"));
    let dom = compute_dominators(&cfg);
    assert_eq!(sorted(dom.members(header)), [entry.0, header.0]);
    assert_eq!(sorted(dom.members(done)), [entry.0, header.0, done.0]);
    let frontiers = compute_dominance_frontiers(&cfg, &dom);
    assert_eq!(sorted(frontiers.members(header)), [header.0]);
    assert!(frontiers.members(entry).is_empty());
    assert!(frontiers.members(done).is_empty());
    let tree = compute_dominator_tree(&dom);
    assert_eq!(sorted(tree.members(entry)), [header.0]);
    assert_eq!(sorted(tree.members(header)), [done.0]);
    assert!(tree.members(done).is_empty());
}

#[test]
fn a_block_that_nothing_enters_is_dominated_by_itself_alone() {
    let cfg = build_cfg(
        &function(
            &[],
            vec![
                code(effect(EffectOp::Jump, &[], &["end"])),
                label("island"),
                code(effect(EffectOp::Jump, &[], &["end"])),
                label("end"),
                code(effect(EffectOp::Return, &[], &[])),
            ],
        ),
        false,
    )
    .unwrap();
    let island = by_label(&cfg, "island");
    let end = by_label(&cfg, "end");
    let dom = compute_dominators(&cfg);
    assert_eq!(sorted(dom.members(island)), [island.0]);
    assert_eq!(sorted(dom.members(end)), [end.0]);
}

#[test]
fn a_single_block_dominates_itself_and_has_no_frontier() {
    let cfg = build_cfg(&function(&[], vec![code(konst("a", 1))]), false).unwrap();
    let dom = compute_dominators(&cfg);
    assert_eq!(sorted(dom.members(cfg.entry)), [cfg.entry.0]);
    assert!(compute_dominator_tree(&dom).members(cfg.entry).is_empty());
    assert!(compute_dominance_frontiers(&cfg, &dom).members(cfg.entry).is_empty());
}

#[test]
fn block_sets_start_empty() {
    let cfg = diamond();
    let sets = BlockSets::new(cfg.keys());
    for k in cfg.keys() {
        assert!(sets.members(k).is_empty());
        assert!(!sets.contains(k, k));
    }
}
