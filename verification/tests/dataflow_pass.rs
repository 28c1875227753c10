#![allow(dead_code, unused_imports)]
use bril_passes::builder::build_cfg;
use bril_passes::cfg::FunctionCfg;
use bril_passes::ir::{Argument, Code, EffectOp, Function, Instruction, Literal, Type, ValueOp};
use bril_passes::store::{BasicBlock, BasicBlockIdx};
use bril_passes::dataflow::{construct_postorder, solve_dataflow, Direction};
use bril_passes::factset::FactSet;
use bril_passes::ir::InstructionValue;
use bril_passes::live_variables::{live_variables, LiveVariables, Variable};
use bril_passes::reaching_definitions::{
    argument_definitions, compute_reaching_definitions, definition_is_reachable, Definition,
    ReachingDefinitions,
};

fn konst(dest: &str, value: i64) -> Instruction {
    Instruction::Constant {
        dest: dest.to_string(),
        const_type: Type::Int,
        value: Literal::Int(value),
        pos: None,
    }
}

fn typed(dest: &str, op: ValueOp, args: &[&str], op_type: Type) -> Instruction {
    Instruction::Value {
        dest: dest.to_string(),
        op,
        args: args.iter().map(|a| a.to_string()).collect(),
        funcs: vec![],
        labels: vec![],
        op_type,
        pos: None,
    }
}

fn value(dest: &str, op: ValueOp, args: &[&str]) -> Instruction {
    typed(dest, op, args, Type::Int)
}

fn effect(op: EffectOp, args: &[&str], labels: &[&str]) -> Instruction {
    Instruction::Effect {
        op,
        args: args.iter().map(|a| a.to_string()).collect(),
        funcs: vec![],
        labels: labels.iter().map(|a| a.to_string()).collect(),
        pos: None,
    }
}

fn print(name: &str) -> Instruction {
    effect(EffectOp::Print, &[name], &[])
}

fn code(instruction: Instruction) -> Code {
    Code::Instruction(instruction)
}

fn label(name: &str) -> Code {
    Code::Label { label: name.to_string(), pos: None }
}

fn function(params: &[&str], instrs: Vec<Code>) -> Function {
    Function {
        name: "main".to_string(),
        args: params
            .iter()
            .map(|p| Argument { name: p.to_string(), arg_type: Type::Int })
            .collect(),
        return_type: None,
        instrs,
    }
}

fn lines(block: &BasicBlock) -> Vec<String> {
    block.instructions.iter().map(|i| i.text()).collect()
}

fn by_label(cfg: &FunctionCfg, name: &str) -> BasicBlockIdx {
    for k in cfg.keys() {
        if let Some(l) = &cfg.block(k).unwrap().label {
            if l.name == name {
                return k;
            }
        }
    }
    panic!("no block is labeled {name}");
}

fn sorted(mut blocks: Vec<BasicBlockIdx>) -> Vec<u64> {
    let mut numbers: Vec<u64> = blocks.drain(..).map(|b| b.0).collect();
    numbers.sort();
    numbers
}

fn diamond() -> FunctionCfg {
    build_cfg(
        &function(
            &["c"],
            vec![
                code(effect(EffectOp::Branch, &["c"], &["left", "right"])),
                label("left"),
                code(konst("x", 1)),
                code(effect(EffectOp::Jump, &[], &["join"])),
                label("right"),
                code(konst("x", 2)),
                code(effect(EffectOp::Jump, &[], &["join"])),
                label("join"),
                code(print("x")),
            ],
        ),
        true,
    )
    .unwrap()
}

fn counter() -> FunctionCfg {
    build_cfg(
        &function(
            &[],
            vec![
                code(konst("i", 0)),
                code(konst("n", 5)),
                code(konst("one", 1)),
                label("loop"),
                code(value("i", ValueOp::Add, &["i", "one"])),
                code(typed("cond", ValueOp::Lt, &["i", "n"], Type::Bool)),
                code(effect(EffectOp::Branch, &["cond"], &["loop", "done"])),
                label("done"),
                code(print("i")),
            ],
        ),
        true,
    )
    .unwrap()
}

fn shown(set: &FactSet<Definition>) -> Vec<String> {
    let mut all: Vec<String> = set
        .items
        .iter()
        .map(|d| format!("{} {:?} {} {}", d.0, d.1, d.2 .0 & 0xffff_ffff, d.3))
        .collect();
    all.sort();
    all
}

fn names(set: &FactSet<Variable>) -> Vec<String> {
    let mut all: Vec<String> = set.items.iter().map(|v| v.0.clone()).collect();
    all.sort();
    all
}

#[test]
fn the_postorder_ends_with_the_entry() {
    let cfg = diamond();
    let order = construct_postorder(&cfg);
    assert_eq!(
        order,
        [by_label(&cfg, "join"), by_label(&cfg, "left"), by_label(&cfg, "right"), cfg.entry]
    );
}

#[test]
fn the_postorder_of_a_loop_lists_each_block_once() {
    let cfg = counter();
    let order = construct_postorder(&cfg);
    assert_eq!(order, [by_label(&cfg, "done"), by_label(&cfg, "loop"), cfg.entry]);
}

#[test]
fn the_postorder_leaves_out_what_the_entry_cannot_reach() {
    let cfg = build_cfg(
        &function(
            &[],
            vec![
                code(effect(EffectOp::Jump, &[], &["end"])),
                label("island"),
                code(effect(EffectOp::Jump, &[], &["end"])),
                label("end"),
                code(effect(EffectOp::Return, &[], &[])),
            ],
        ),
        false,
    )
    .unwrap();
    let order = construct_postorder(&cfg);
    assert!(!order.contains(&by_label(&cfg, "island")));
    assert_eq!(order.last(), Some(&cfg.entry));
    assert!(order.contains(&by_label(&cfg, "end")));
}

#[test]
fn both_arms_of_a_diamond_reach_the_join() {
    let cfg = diamond();
    let reaching = compute_reaching_definitions(&cfg);
    assert_eq!(shown(&reaching[&cfg.entry.0]), ["c Argument 1 -1"]);
    assert_eq!(
        shown(&reaching[&by_label(&cfg, "left").0]),
        ["c Argument 1 -1", "x Constant(\"1\", false) 2 0"]
    );
    assert_eq!(
        shown(&reaching[&by_label(&cfg, "right").0]),
        ["c Argument 1 -1", "x Constant(\"2\", false) 3 0"]
    );
    assert_eq!(
        shown(&reaching[&by_label(&cfg, "join").0]),
        ["c Argument 1 -1", "x Constant(\"1\", false) 2 0", "x Constant(\"2\", false) 3 0"]
    );
}

#[test]
fn a_later_definition_hides_an_earlier_one() {
    let cfg = build_cfg(
        &function(
            &["x"],
            vec![
                code(konst("x", 1)),
                code(konst("y", 2)),
                code(konst("x", 3)),
                label("next"),
                code(print("x")),
            ],
        ),
        false,
    )
    .unwrap();
    let reaching = compute_reaching_definitions(&cfg);
    let expected = ["x Constant(\"3\", false) 1 2", "y Constant(\"2\", false) 1 1"];
    assert_eq!(shown(&reaching[&cfg.entry.0]), expected);
    assert_eq!(shown(&reaching[&by_label(&cfg, "next").0]), expected);
}

#[test]
fn a_loop_carries_its_definitions_round() {
    let cfg = counter();
    let reaching = compute_reaching_definitions(&cfg);
    assert_eq!(
        shown(&reaching[&by_label(&cfg, "loop").0]),
        [
            "cond Op(\"lt\", [\"i\", \"n\"], [], []) 2 1",
            "i Op(\"add\", [\"i\", \"one\"], [], []) 2 0",
            "n Constant(\"5\", false) 1 1",
            "one Constant(\"1\", false) 1 2",
        ]
    );
}

#[test]
fn every_reaching_definition_is_reachable() {
    for cfg in [diamond(), counter()] {
        let reaching = compute_reaching_definitions(&cfg);
        for k in cfg.keys() {
            for d in &reaching[&k.0].items {
                assert!(definition_is_reachable(&cfg, k, d), "{d:?} at {k:?}");
            }
        }
    }
}

#[test]
fn a_definition_of_the_other_arm_is_not_reachable() {
    let cfg = diamond();
    let left = by_label(&cfg, "left");
    let right = by_label(&cfg, "right");
    let of_left = Definition("x".to_string(), InstructionValue::Constant("1".to_string(), false), left, 0);
    assert!(definition_is_reachable(&cfg, left, &of_left));
    assert!(definition_is_reachable(&cfg, by_label(&cfg, "join"), &of_left));
    assert!(!definition_is_reachable(&cfg, right, &of_left));
    assert!(!definition_is_reachable(&cfg, cfg.entry, &of_left));
    let nowhere = Definition("x".to_string(), InstructionValue::Constant("7".to_string(), false), left, 0);
    assert!(!definition_is_reachable(&cfg, left, &nowhere));
}

#[test]
fn the_parameters_are_defined_at_the_entry() {
    let cfg = diamond();
    let arguments = argument_definitions(&cfg);
    assert_eq!(shown(&arguments), ["c Argument 1 -1"]);
}

#[test]
fn the_solver_gives_what_the_reaching_definitions_are() {
    let cfg = counter();
    let direct = solve_dataflow(&cfg, Direction::Forward, argument_definitions(&cfg), &ReachingDefinitions);
    let reaching = compute_reaching_definitions(&cfg);
    for k in cfg.keys() {
        assert_eq!(shown(&direct[&k.0]), shown(&reaching[&k.0]));
    }
}

#[test]
fn a_variable_is_live_until_its_definition() {
    let cfg = diamond();
    let live = live_variables(&cfg);
    assert_eq!(names(&live[&cfg.entry.0]), ["c"]);
    assert!(names(&live[&by_label(&cfg, "left").0]).is_empty());
    assert!(names(&live[&by_label(&cfg, "right").0]).is_empty());
    assert_eq!(names(&live[&by_label(&cfg, "join").0]), ["x"]);
}

#[test]
fn a_loop_keeps_its_variables_live() {
    let cfg = counter();
    let live = live_variables(&cfg);
    assert!(names(&live[&cfg.entry.0]).is_empty());
    assert_eq!(names(&live[&by_label(&cfg, "loop").0]), ["i", "n", "one"]);
    assert_eq!(names(&live[&by_label(&cfg, "done").0]), ["i"]);
    let direct = solve_dataflow(&cfg, Direction::Backward, FactSet::new(), &LiveVariables);
    for k in cfg.keys() {
        assert_eq!(names(&direct[&k.0]), names(&live[&k.0]));
    }
}

#[test]
fn a_use_before_the_kill_is_live() {
    let cfg = build_cfg(
        &function(
            &[],
            vec![
                code(value("x", ValueOp::Add, &["x", "y"])),
                code(konst("y", 1)),
                code(print("z")),
                code(konst("w", 1)),
                code(print("w")),
            ],
        ),
        false,
    )
    .unwrap();
    let live = live_variables(&cfg);
    assert_eq!(names(&live[&cfg.entry.0]), ["x", "y", "z"]);
}

#[test]
fn a_fact_set_holds_each_fact_once() {
    let mut set: FactSet<Variable> = FactSet::new();
    assert_eq!(set.len(), 0);
    set.insert(Variable("a".to_string()));
    set.insert(Variable("b".to_string()));
    set.insert(Variable("a".to_string()));
    assert_eq!(set.len(), 2);
    assert!(set.contains(&Variable("a".to_string())));
    assert!(!set.contains(&Variable("c".to_string())));
    let mut other: FactSet<Variable> = FactSet::new();
    other.insert(Variable("c".to_string()));
    other.insert(Variable("b".to_string()));
    assert!(!other.within(&set));
    set.union_with(&other);
    assert_eq!(names(&set), ["a", "b", "c"]);
    assert!(other.within(&set));
    assert!(!set.same_as(&other));
    set.remove(&Variable("a".to_string()));
    set.remove(&Variable("zz".to_string()));
    assert_eq!(names(&set), ["b", "c"]);
    assert!(set.same_as(&other));
    assert_eq!(names(&set.dup()), ["b", "c"]);
}
