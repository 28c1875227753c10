#![allow(dead_code, unused_imports)]
use bril_passes::builder::build_cfg;
use bril_passes::cfg::FunctionCfg;
use bril_passes::ir::{Argument, Code, EffectOp, Function, Instruction, Literal, Type, ValueOp};
use bril_passes::store::{BasicBlock, BasicBlockIdx};
use std::collections::HashMap;

use bril_passes::cfg::Exit;
use bril_passes::dce::eliminate_dead_code;
use bril_passes::dominators::compute_dominators;
use bril_passes::loops::{find_natural_loops, insert_preheader, loop_invariant_code_motion};
use bril_passes::lvn::lvn;
use bril_passes::renaming::into_ssa;
use bril_passes::ssa::{from_ssa, is_ssa};

fn konst(dest: &str, value: i64) -> Instruction {
    Instruction::Constant {
        dest: dest.to_string(),
        const_type: Type::Int,
        value: Literal::Int(value),
        pos: None,
    }
}

fn typed(dest: &str, op: ValueOp, args: &[&str], op_type: Type) -> Instruction {
    Instruction::Value {
        dest: dest.to_string(),
        op,
        args: args.iter().map(|a| a.to_string()).collect(),
        funcs: vec![],
        labels: vec![],
        op_type,
        pos: None,
    }
}

fn value(dest: &str, op: ValueOp, args: &[&str]) -> Instruction {
    typed(dest, op, args, Type::Int)
}

fn effect(op: EffectOp, args: &[&str], labels: &[&str]) -> Instruction {
    Instruction::Effect {
        op,
        args: args.iter().map(|a| a.to_string()).collect(),
        funcs: vec![],
        labels: labels.iter().map(|a| a.to_string()).collect(),
        pos: None,
    }
}

fn print(name: &str) -> Instruction {
    effect(EffectOp::Print, &[name], &[])
}

fn code(instruction: Instruction) -> Code {
    Code::Instruction(instruction)
}

fn label(name: &str) -> Code {
    Code::Label { label: name.to_string(), pos: None }
}

fn function(params: &[&str], instrs: Vec<Code>) -> Function {
    Function {
        name: "main".to_string(),
        args: params
            .iter()
            .map(|p| Argument { name: p.to_string(), arg_type: Type::Int })
            .collect(),
        return_type: None,
        instrs,
    }
}

fn lines(block: &BasicBlock) -> Vec<String> {
    block.instructions.iter().map(|i| i.text()).collect()
}

fn by_label(cfg: &FunctionCfg, name: &str) -> BasicBlockIdx {
    for k in cfg.keys() {
        if let Some(l) = &cfg.block(k).unwrap().label {
            if l.name == name {
                return k;
            }
        }
    }
    panic!("no block is labeled {name}");
}

fn sorted(mut blocks: Vec<BasicBlockIdx>) -> Vec<u64> {
    let mut numbers: Vec<u64> = blocks.drain(..).map(|b| b.0).collect();
    numbers.sort();
    numbers
}

/// What running a function leaves behind: the values printed, the number
/// of multiplications made, and the variables at the end.
#[derive(Debug, PartialEq)]
struct Run {
    printed: Vec<i64>,
    multiplications: usize,
}

struct Machine {
    variables: HashMap<String, i64>,
    shadows: HashMap<String, i64>,
    printed: Vec<i64>,
    multiplications: usize,
}

impl Machine {
    fn new(inputs: &[(&str, i64)]) -> Self {
        Machine {
            variables: inputs.iter().map(|(n, v)| (n.to_string(), *v)).collect(),
            shadows: HashMap::new(),
            printed: vec![],
            multiplications: 0,
        }
    }

    fn read(&self, name: &str) -> i64 {
        *self.variables.get(name).unwrap_or_else(|| panic!("{name} is read before it is set"))
    }

    fn step(&mut self, instruction: &Instruction) {
        match instruction {
            Instruction::Constant { dest, value, .. } => {
                let v = match value {
                    Literal::Int(i) => *i,
                    Literal::Bool(b) => *b as i64,
                    other => panic!("{other:?}"),
                };
                self.variables.insert(dest.clone(), v);
            }
            Instruction::Value { dest, op, args, .. } => {
                let a = |i: usize| self.read(&args[i]);
                let v = match op {
                    ValueOp::Add => a(0).wrapping_add(a(1)),
                    ValueOp::Sub => a(0).wrapping_sub(a(1)),
                    ValueOp::Mul => a(0).wrapping_mul(a(1)),
                    ValueOp::Lt => (a(0) < a(1)) as i64,
                    ValueOp::Eq => (a(0) == a(1)) as i64,
                    ValueOp::Not => (a(0) == 0) as i64,
                    ValueOp::Id => a(0),
                    ValueOp::Undef => 0,
                    ValueOp::Get => *self.shadows.get(dest).expect("a get without its set"),
                    other => panic!("{other:?}"),
                };
                if let ValueOp::Mul = op {
                    self.multiplications += 1;
                }
                self.variables.insert(dest.clone(), v);
            }
            Instruction::Effect { op, args, .. } => match op {
                EffectOp::Print => {
                    let v = self.read(&args[0]);
                    self.printed.push(v);
                }
                EffectOp::Upsilon => {
                    let v = self.read(&args[1]);
                    self.shadows.insert(args[0].clone(), v);
                }
                EffectOp::Jump | EffectOp::Branch | EffectOp::Return | EffectOp::Nop => {}
                other => panic!("{other:?}"),
            },
        }
    }

    fn block(&mut self, block: &BasicBlock) {
        for instruction in &block.instructions {
            self.step(instruction);
        }
    }
}

fn run(cfg: &FunctionCfg, inputs: &[(&str, i64)]) -> Run {
    let mut machine = Machine::new(inputs);
    let mut at = Some(cfg.entry);
    let mut steps = 0;
    while let Some(idx) = at {
        steps += 1;
        assert!(steps < 10_000, "the function does not end");
        machine.block(cfg.block(idx).unwrap());
        at = match cfg.edges.get(&idx.0).unwrap() {
            Exit::Fallthrough(next) => *next,
            Exit::Unconditional(next) => Some(*next),
            Exit::Conditional { condition, if_true, if_false } => {
                Some(if machine.read(condition) != 0 { *if_true } else { *if_false })
            }
            Exit::Return(_) => None,
        };
    }
    Run { printed: machine.printed, multiplications: machine.multiplications }
}

fn counter() -> Function {
    function(
        &["n"],
        vec![
            code(konst("i", 0)),
            code(konst("one", 1)),
            label("loop"),
            code(value("i", ValueOp::Add, &["i", "one"])),
            code(print("i")),
            code(typed("cond", ValueOp::Lt, &["i", "n"], Type::Bool)),
            code(effect(EffectOp::Branch, &["cond"], &["loop", "done"])),
            label("done"),
            code(print("i")),
        ],
    )
}

fn product_loop() -> Function {
    function(
        &["a", "b"],
        vec![
            code(konst("x", 0)),
            code(konst("i", 0)),
            code(konst("one", 1)),
            code(konst("n", 10)),
            label("loop"),
            code(value("t", ValueOp::Mul, &["a", "b"])),
            code(value("x", ValueOp::Add, &["x", "t"])),
            code(value("i", ValueOp::Add, &["i", "one"])),
            code(typed("c", ValueOp::Lt, &["i", "n"], Type::Bool)),
            code(effect(EffectOp::Branch, &["c"], &["loop", "done"])),
            label("done"),
            code(print("x")),
        ],
    )
}

fn choice() -> Function {
    function(
        &["c", "a"],
        vec![
            code(konst("x", 7)),
            code(effect(EffectOp::Branch, &["c"], &["left", "right"])),
            label("left"),
            code(value("x", ValueOp::Add, &["x", "a"])),
            code(value("y", ValueOp::Mul, &["x", "x"])),
            code(print("y")),
            code(effect(EffectOp::Jump, &[], &["join"])),
            label("right"),
            code(value("x", ValueOp::Sub, &["x", "a"])),
            label("join"),
            code(print("x")),
            code(effect(EffectOp::Return, &["x"], &[])),
        ],
    )
}

#[test]
fn a_block_leaves_the_same_values_after_numbering() {
    let blocks: Vec<Vec<Instruction>> = vec![
        vec![
            value("x", ValueOp::Add, &["a", "b"]),
            value("y", ValueOp::Add, &["b", "a"]),
            value("x", ValueOp::Mul, &["x", "y"]),
            value("z", ValueOp::Add, &["a", "b"]),
            value("w", ValueOp::Sub, &["z", "x"]),
        ],
        vec![
            konst("a", 2),
            konst("b", 3),
            value("c", ValueOp::Add, &["a", "b"]),
            konst("a", 5),
            value("d", ValueOp::Add, &["a", "b"]),
            value("e", ValueOp::Add, &["c", "d"]),
        ],
        vec![
            value("t", ValueOp::Id, &["a"]),
            value("a", ValueOp::Add, &["a", "b"]),
            value("u", ValueOp::Add, &["t", "b"]),
            value("b", ValueOp::Id, &["u"]),
            value("v", ValueOp::Add, &["a", "b"]),
            value("v", ValueOp::Add, &["v", "v"]),
        ],
        vec![
            konst("k", i64::MAX),
            konst("one", 1),
            value("s", ValueOp::Add, &["k", "one"]),
            value("r", ValueOp::Add, &["one", "k"]),
            typed("q", ValueOp::Eq, &["s", "r"], Type::Bool),
        ],
    ];
    for instructions in blocks {
        let mut before = BasicBlock::empty();
        before.instructions = instructions;
        let mut after = BasicBlock::empty();
        after.instructions = before.instructions.iter().map(|i| i.dup()).collect();
        lvn(&mut after);
        for inputs in [[("a", 0), ("b", 0)], [("a", 3), ("b", -4)], [("a", -7), ("b", 11)]] {
            let mut plain = Machine::new(&inputs);
            plain.block(&before);
            let mut numbered = Machine::new(&inputs);
            numbered.block(&after);
            for (name, v) in &plain.variables {
                assert_eq!(numbered.variables.get(name), Some(v), "{name} in {:?}", lines(&after));
            }
        }
    }
}

#[test]
fn numbering_leaves_the_variables_that_come_into_a_block_alone() {
    let mut before = BasicBlock::empty();
    before.instructions =
        vec![konst("x", 1), konst("x", 2), value("z", ValueOp::Id, &["x__t1"]), print("z")];
    let mut after = BasicBlock::empty();
    after.instructions = before.instructions.iter().map(|i| i.dup()).collect();
    lvn(&mut after);
    let mut plain = Machine::new(&[("x__t1", 40)]);
    plain.block(&before);
    let mut numbered = Machine::new(&[("x__t1", 40)]);
    numbered.block(&after);
    assert_eq!(plain.printed, [40]);
    assert_eq!(numbered.printed, [40]);
    for (name, v) in &plain.variables {
        assert_eq!(numbered.variables.get(name), Some(v), "{name}");
    }
}

#[test]
fn one_add_prints_three_after_every_pass() {
    let f = function(
        &[],
        vec![
            code(konst("v0", 1)),
            code(konst("v1", 2)),
            code(value("v2", ValueOp::Add, &["v0", "v1"])),
            code(print("v2")),
        ],
    );
    let mut cfg = build_cfg(&f, false).unwrap();
    assert_eq!(run(&cfg, &[]).printed, [3]);
    cfg.lvn_blocks();
    assert_eq!(run(&cfg, &[]).printed, [3]);
    eliminate_dead_code(&mut cfg);
    assert_eq!(run(&cfg, &[]).printed, [3]);
    into_ssa(&mut cfg, false);
    assert_eq!(run(&cfg, &[]).printed, [3]);
    from_ssa(&mut cfg).unwrap();
    assert_eq!(run(&cfg, &[]).printed, [3]);
    let before_print: usize = cfg
        .keys()
        .iter()
        .map(|k| {
            cfg.block(*k)
                .unwrap()
                .instructions
                .iter()
                .filter(|i| !matches!(i, Instruction::Effect { op: EffectOp::Print, .. }))
                .count()
        })
        .sum();
    assert!(before_print <= 3);
}

#[test]
fn a_function_prints_the_same_in_ssa_and_back() {
    let cases: Vec<(Function, Vec<Vec<(&str, i64)>>)> = vec![
        (counter(), vec![vec![("n", 0)], vec![("n", 1)], vec![("n", 5)]]),
        (product_loop(), vec![vec![("a", 3), ("b", 4)], vec![("a", -2), ("b", 9)]]),
        (choice(), vec![vec![("c", 1), ("a", 2)], vec![("c", 0), ("a", 2)]]),
    ];
    for (f, inputs) in cases {
        let plain = build_cfg(&f, true).unwrap();
        let mut ssa = build_cfg(&f, true).unwrap();
        into_ssa(&mut ssa, false);
        assert!(is_ssa(&ssa));
        let mut back = build_cfg(&f, true).unwrap();
        into_ssa(&mut back, false);
        from_ssa(&mut back).unwrap();
        for input in inputs {
            let expected = run(&plain, &input);
            assert_eq!(run(&ssa, &input), expected, "{}", ssa.to_text());
            assert_eq!(run(&back, &input), expected, "{}", back.to_text());
        }
    }
}

#[test]
fn the_counter_counts_to_its_bound() {
    let cfg = build_cfg(&counter(), true).unwrap();
    assert_eq!(run(&cfg, &[("n", 3)]).printed, [1, 2, 3, 3]);
    let mut back = build_cfg(&counter(), true).unwrap();
    into_ssa(&mut back, false);
    from_ssa(&mut back).unwrap();
    assert_eq!(run(&back, &[("n", 3)]).printed, [1, 2, 3, 3]);
}

#[test]
fn a_function_prints_the_same_after_numbering_and_sweeping() {
    for f in [counter(), product_loop(), choice()] {
        let plain = build_cfg(&f, true).unwrap();
        let mut worked = build_cfg(&f, true).unwrap();
        worked.lvn_blocks();
        eliminate_dead_code(&mut worked);
        for input in [[("a", 3), ("b", 4), ("c", 1), ("n", 2)], [("a", 5), ("b", 0), ("c", 0), ("n", 4)]] {
            assert_eq!(run(&worked, &input).printed, run(&plain, &input).printed);
        }
    }
}

#[test]
fn a_moved_multiplication_runs_once() {
    let plain = build_cfg(&product_loop(), true).unwrap();
    let mut cfg = build_cfg(&product_loop(), true).unwrap();
    cfg.make_fallthroughs_explicit();
    let dominators = compute_dominators(&cfg);
    let mut loops = find_natural_loops(&cfg, &dominators);
    assert_eq!(loops.len(), 1);
    let with = insert_preheader(&mut cfg, loops.remove(0));
    let inputs = [("a", 3), ("b", 4)];
    assert_eq!(run(&plain, &inputs), Run { printed: vec![120], multiplications: 10 });
    loop_invariant_code_motion(&mut cfg, &with, &dominators);
    assert_eq!(run(&cfg, &inputs), Run { printed: vec![120], multiplications: 1 });
}
