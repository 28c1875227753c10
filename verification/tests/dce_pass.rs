#![allow(dead_code, unused_imports)]
use bril_passes::builder::build_cfg;
use bril_passes::cfg::FunctionCfg;
use bril_passes::ir::{Argument, Code, EffectOp, Function, Instruction, Literal, Type, ValueOp};
use bril_passes::store::{BasicBlock, BasicBlockIdx};
use bril_passes::dce::{
    collect_used, drop_killed_locals, drop_lots_of_killed_local, eliminate_dead_code,
    sweep_block, trivial_dead_code_elimination,
};

fn konst(dest: &str, value: i64) -> Instruction {
    Instruction::Constant {
        dest: dest.to_string(),
        const_type: Type::Int,
        value: Literal::Int(value),
        pos: None,
    }
}

fn typed(dest: &str, op: ValueOp, args: &[&str], op_type: Type) -> Instruction {
    Instruction::Value {
        dest: dest.to_string(),
        op,
        args: args.iter().map(|a| a.to_string()).collect(),
        funcs: vec![],
        labels: vec![],
        op_type,
        pos: None,
    }
}

fn value(dest: &str, op: ValueOp, args: &[&str]) -> Instruction {
    typed(dest, op, args, Type::Int)
}

fn effect(op: EffectOp, args: &[&str], labels: &[&str]) -> Instruction {
    Instruction::Effect {
        op,
        args: args.iter().map(|a| a.to_string()).collect(),
        funcs: vec![],
        labels: labels.iter().map(|a| a.to_string()).collect(),
        pos: None,
    }
}

fn print(name: &str) -> Instruction {
    effect(EffectOp::Print, &[name], &[])
}

fn code(instruction: Instruction) -> Code {
    Code::Instruction(instruction)
}

fn label(name: &str) -> Code {
    Code::Label { label: name.to_string(), pos: None }
}

fn function(params: &[&str], instrs: Vec<Code>) -> Function {
    Function {
        name: "main".to_string(),
        args: params
            .iter()
            .map(|p| Argument { name: p.to_string(), arg_type: Type::Int })
            .collect(),
        return_type: None,
        instrs,
    }
}

fn lines(block: &BasicBlock) -> Vec<String> {
    block.instructions.iter().map(|i| i.text()).collect()
}

fn by_label(cfg: &FunctionCfg, name: &str) -> BasicBlockIdx {
    for k in cfg.keys() {
        if let Some(l) = &cfg.block(k).unwrap().label {
            if l.name == name {
                return k;
            }
        }
    }
    panic!("no block is labeled {name}");
}

fn sorted(mut blocks: Vec<BasicBlockIdx>) -> Vec<u64> {
    let mut numbers: Vec<u64> = blocks.drain(..).map(|b| b.0).collect();
    numbers.sort();
    numbers
}

fn block_of(instructions: Vec<Instruction>) -> BasicBlock {
    let mut b = BasicBlock::empty();
    b.instructions = instructions;
    b
}

fn chain() -> FunctionCfg {
    build_cfg(
        &function(
            &[],
            vec![
                code(konst("a", 2)),
                code(konst("b", 3)),
                code(value("c", ValueOp::Add, &["a", "b"])),
                code(value("d", ValueOp::Add, &["c", "c"])),
                code(print("a")),
            ],
        ),
        false,
    )
    .unwrap()
}

#[test]
fn one_sweep_drops_what_nothing_reads() {
    let mut cfg = chain();
    assert!(trivial_dead_code_elimination(&mut cfg));
    assert_eq!(
        lines(cfg.block(cfg.entry).unwrap()),
        ["a: int = const 2;", "b: int = const 3;", "c: int = add a b;", "print a;"]
    );
}

#[test]
fn sweeping_to_the_end_drops_whole_chains() {
    let mut cfg = chain();
    eliminate_dead_code(&mut cfg);
    assert_eq!(lines(cfg.block(cfg.entry).unwrap()), ["a: int = const 2;", "print a;"]);
    assert!(!trivial_dead_code_elimination(&mut cfg));
    assert!(!drop_lots_of_killed_local(&mut cfg));
}

#[test]
fn a_sweep_of_live_code_changes_nothing() {
    let mut cfg = build_cfg(
        &function(&[], vec![code(konst("a", 2)), code(print("a"))]),
        false,
    )
    .unwrap();
    assert!(!trivial_dead_code_elimination(&mut cfg));
    assert_eq!(lines(cfg.block(cfg.entry).unwrap()), ["a: int = const 2;", "print a;"]);
}

#[test]
fn a_use_in_another_block_keeps_a_definition() {
    let mut cfg = build_cfg(
        &function(
            &[],
            vec![
                code(konst("a", 2)),
                code(konst("b", 3)),
                code(effect(EffectOp::Jump, &[], &["next"])),
                label("next"),
                code(print("a")),
            ],
        ),
        false,
    )
    .unwrap();
    eliminate_dead_code(&mut cfg);
    assert_eq!(lines(cfg.block(cfg.entry).unwrap()), ["a: int = const 2;", "jmp .next;"]);
    assert_eq!(lines(cfg.block(by_label(&cfg, "next")).unwrap()), ["print a;"]);
}

#[test]
fn the_used_names_are_the_arguments_of_all_blocks() {
    let cfg = chain();
    let used = collect_used(&cfg);
    assert!(used.contains("a"));
    assert!(used.contains("b"));
    assert!(used.contains("c"));
    assert!(!used.contains("d"));
}

#[test]
fn a_block_is_swept_against_a_given_set() {
    let cfg = chain();
    let used = collect_used(&cfg);
    let mut b = block_of(vec![konst("a", 1), konst("d", 2), konst("z", 3), print("q")]);
    assert!(sweep_block(&mut b, &used));
    assert_eq!(lines(&b), ["a: int = const 1;", "print q;"]);
    assert!(!sweep_block(&mut b, &used));
}

#[test]
fn an_assignment_killed_before_any_use_is_dropped() {
    let mut b = block_of(vec![
        konst("x", 1),
        konst("x", 2),
        print("x"),
        konst("y", 1),
        value("y", ValueOp::Add, &["y", "y"]),
        konst("z", 3),
        konst("z", 4),
    ]);
    assert!(drop_killed_locals(&mut b));
    assert_eq!(
        lines(&b),
        [
            "x: int = const 2;",
            "print x;",
            "y: int = const 1;",
            "y: int = add y y;",
            "z: int = const 4;",
        ]
    );
    assert!(!drop_killed_locals(&mut b));
}

#[test]
fn the_local_sweep_keeps_the_last_assignment() {
    let mut cfg = build_cfg(
        &function(&[], vec![code(konst("x", 1)), code(konst("x", 2)), code(print("x"))]),
        false,
    )
    .unwrap();
    assert!(drop_lots_of_killed_local(&mut cfg));
    assert_eq!(lines(cfg.block(cfg.entry).unwrap()), ["x: int = const 2;", "print x;"]);
}

#[test]
fn effects_are_never_dropped() {
    let mut cfg = build_cfg(
        &function(
            &["p"],
            vec![
                code(konst("v", 1)),
                code(effect(EffectOp::Store, &["p", "v"], &[])),
                code(effect(EffectOp::Nop, &[], &[])),
                code(effect(EffectOp::Free, &["p"], &[])),
            ],
        ),
        false,
    )
    .unwrap();
    eliminate_dead_code(&mut cfg);
    assert_eq!(
        lines(cfg.block(cfg.entry).unwrap()),
        ["v: int = const 1;", "store p v;", "nop;", "free p;"]
    );
}

#[test]
fn after_the_sweeps_every_definition_is_read() {
    let mut cfg = build_cfg(
        &function(
            &[],
            vec![
                code(konst("a", 1)),
                code(konst("a", 2)),
                code(value("b", ValueOp::Add, &["a", "a"])),
                code(value("c", ValueOp::Add, &["b", "a"])),
                code(konst("e", 9)),
                code(effect(EffectOp::Jump, &[], &["next"])),
                label("next"),
                code(value("d", ValueOp::Mul, &["b", "b"])),
                code(print("b")),
            ],
        ),
        false,
    )
    .unwrap();
    eliminate_dead_code(&mut cfg);
    let used = collect_used(&cfg);
    for k in cfg.keys() {
        for i in &cfg.block(k).unwrap().instructions {
            match i {
                Instruction::Constant { dest, .. } | Instruction::Value { dest, .. } => {
                    assert!(used.contains(dest.as_str()))
                }
                Instruction::Effect { .. } => {}
            }
        }
    }
    assert_eq!(
        lines(cfg.block(cfg.entry).unwrap()),
        ["a: int = const 2;", "b: int = add a a;", "jmp .next;"]
    );
    assert_eq!(lines(cfg.block(by_label(&cfg, "next")).unwrap()), ["print b;"]);
}
