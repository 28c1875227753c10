#![allow(dead_code, unused_imports)]
use bril_passes::builder::build_cfg;
use bril_passes::cfg::FunctionCfg;
use bril_passes::ir::{Argument, Code, EffectOp, Function, Instruction, Literal, Type, ValueOp};
use bril_passes::store::{BasicBlock, BasicBlockIdx};
use bril_passes::blocksets::BlockSets;
use bril_passes::dominators::{compute_dominance_frontiers, compute_dominators};
use bril_passes::names::{mint, undefined};
use bril_passes::renaming::into_ssa;
use bril_passes::ssa::{
    compute_definition_sites, determine_phi_insertion_points, from_ssa, insert_phis, is_ssa,
    DominatingDefinitionsStacks, LocalRenamer, SsaError,
};

fn konst(dest: &str, value: i64) -> Instruction {
    Instruction::Constant {
        dest: dest.to_string(),
        const_type: Type::Int,
        value: Literal::Int(value),
        pos: None,
    }
}

fn typed(dest: &str, op: ValueOp, args: &[&str], op_type: Type) -> Instruction {
    Instruction::Value {
        dest: dest.to_string(),
        op,
        args: args.iter().map(|a| a.to_string()).collect(),
        funcs: vec![],
        labels: vec![],
        op_type,
        pos: None,
    }
}

fn value(dest: &str, op: ValueOp, args: &[&str]) -> Instruction {
    typed(dest, op, args, Type::Int)
}

fn effect(op: EffectOp, args: &[&str], labels: &[&str]) -> Instruction {
    Instruction::Effect {
        op,
        args: args.iter().map(|a| a.to_string()).collect(),
        funcs: vec![],
        labels: labels.iter().map(|a| a.to_string()).collect(),
        pos: None,
    }
}

fn print(name: &str) -> Instruction {
    effect(EffectOp::Print, &[name], &[])
}

fn code(instruction: Instruction) -> Code {
    Code::Instruction(instruction)
}

fn label(name: &str) -> Code {
    Code::Label { label: name.to_string(), pos: None }
}

fn function(params: &[&str], instrs: Vec<Code>) -> Function {
    Function {
        name: "main".to_string(),
        args: params
            .iter()
            .map(|p| Argument { name: p.to_string(), arg_type: Type::Int })
            .collect(),
        return_type: None,
        instrs,
    }
}

fn lines(block: &BasicBlock) -> Vec<String> {
    block.instructions.iter().map(|i| i.text()).collect()
}

fn by_label(cfg: &FunctionCfg, name: &str) -> BasicBlockIdx {
    for k in cfg.keys() {
        if let Some(l) = &cfg.block(k).unwrap().label {
            if l.name == name {
                return k;
            }
        }
    }
    panic!("no block is labeled {name}");
}

fn sorted(mut blocks: Vec<BasicBlockIdx>) -> Vec<u64> {
    let mut numbers: Vec<u64> = blocks.drain(..).map(|b| b.0).collect();
    numbers.sort();
    numbers
}

fn counter_function() -> Function {
    function(
        &[],
        vec![
            code(konst("i", 0)),
            code(konst("n", 5)),
            code(konst("one", 1)),
            label("loop"),
            code(value("i", ValueOp::Add, &["i", "one"])),
            code(typed("cond", ValueOp::Lt, &["i", "n"], Type::Bool)),
            code(effect(EffectOp::Branch, &["cond"], &["loop", "done"])),
            label("done"),
            code(print("i")),
        ],
    )
}

fn counter() -> FunctionCfg {
    build_cfg(&counter_function(), true).unwrap()
}

fn product_loop() -> FunctionCfg {
    build_cfg(
        &function(
            &["a", "b"],
            vec![
                code(konst("x", 0)),
                code(konst("i", 0)),
                code(konst("one", 1)),
                code(konst("n", 10)),
                label("loop"),
                code(value("t", ValueOp::Mul, &["a", "b"])),
                code(value("x", ValueOp::Add, &["x", "t"])),
                code(value("i", ValueOp::Add, &["i", "one"])),
                code(typed("c", ValueOp::Lt, &["i", "n"], Type::Bool)),
                code(effect(EffectOp::Branch, &["c"], &["loop", "done"])),
                label("done"),
                code(print("x")),
            ],
        ),
        true,
    )
    .unwrap()
}

fn text(cfg: &FunctionCfg) -> String {
    cfg.to_text()
}

#[test]
fn a_counter_loop_gets_its_gets_and_sets() {
    let mut cfg = counter();
    assert!(!is_ssa(&cfg));
    into_ssa(&mut cfg, false);
    assert!(is_ssa(&cfg));
    assert_eq!(
        text(&cfg),
        "@main() {
  cond.undef: bool = undef;
  jmp .entry;
.entry:
  i.1.1: int = const 0;
  n.1.1: int = const 5;
  one.1.1: int = const 1;
  set cond.2.1 cond.undef;
  set i.2.1 i.1.1;
.loop:
  cond.2.1: bool = get;
  i.2.1: int = get;
  i.2.2: int = add i.2.1 one.1.1;
  cond.2.2: bool = lt i.2.2 n.1.1;
  set cond.2.1 cond.2.2;
  set i.2.1 i.2.2;
  br cond.2.2 .loop .done;
.done:
  print i.2.2;
}
"
    );
}

#[test]
fn a_counter_loop_comes_back_with_copies_for_its_sets() {
    let mut cfg = counter();
    into_ssa(&mut cfg, false);
    assert!(from_ssa(&mut cfg).is_ok());
    assert_eq!(
        text(&cfg),
        "@main() {
  cond.undef: bool = undef;
  jmp .entry;
.entry:
  i.1.1: int = const 0;
  n.1.1: int = const 5;
  one.1.1: int = const 1;
  cond.2.1: bool = id cond.undef;
  i.2.1: int = id i.1.1;
.loop:
  i.2.2: int = add i.2.1 one.1.1;
  cond.2.2: bool = lt i.2.2 n.1.1;
  cond.2.1: bool = id cond.2.2;
  i.2.1: int = id i.2.2;
  br cond.2.2 .loop .done;
.done:
  print i.2.2;
}
"
    );
    for k in cfg.keys() {
        for i in &cfg.block(k).unwrap().instructions {
            match i {
                Instruction::Value { op: ValueOp::Get, .. } => panic!("a get is left"),
                Instruction::Effect { op: EffectOp::Upsilon, .. } => panic!("a set is left"),
                _ => {}
            }
        }
    }
}

#[test]
fn every_get_has_a_set_in_every_predecessor() {
    for mut cfg in [counter(), product_loop()] {
        into_ssa(&mut cfg, false);
        for k in cfg.keys() {
            for i in &cfg.block(k).unwrap().instructions {
                if let Instruction::Value { dest, op: ValueOp::Get, .. } = i {
                    assert!(!cfg.predecessors(k).is_empty());
                    for p in cfg.predecessors(k) {
                        let block = cfg.block(*p).unwrap();
                        let before_exit = block.index_before_exit();
                        let found = block.instructions[..before_exit].iter().any(|s| {
                            matches!(s, Instruction::Effect { op: EffectOp::Upsilon, args, .. }
                                if args.len() == 2 && &args[0] == dest)
                        });
                        assert!(found, "no set of {dest} in {p:?}");
                    }
                }
            }
        }
    }
}

#[test]
fn the_gets_alone_leave_the_names_as_they_were() {
    let mut cfg = counter();
    into_ssa(&mut cfg, true);
    assert_eq!(
        text(&cfg),
        "@main() {
  jmp .entry;
.entry:
  i: int = const 0;
  n: int = const 5;
  one: int = const 1;
.loop:
  cond: bool = get;
  i: int = get;
  i: int = add i one;
  cond: bool = lt i n;
  br cond .loop .done;
.done:
  print i;
}
"
    );
}

#[test]
fn parameters_become_local_variables() {
    let mut cfg = product_loop();
    into_ssa(&mut cfg, false);
    assert!(is_ssa(&cfg));
    let entry = lines(cfg.block(cfg.entry).unwrap());
    assert!(entry.contains(&"a.4.1: int = id a;".to_string()), "{entry:?}");
    assert!(entry.contains(&"b.4.1: int = id b;".to_string()), "{entry:?}");
    assert!(entry.contains(&"t.undef: int = undef;".to_string()), "{entry:?}");
    assert!(entry.contains(&"c.undef: bool = undef;".to_string()), "{entry:?}");
    assert_eq!(entry.last().unwrap(), "jmp .entry;");
    assert_eq!(
        lines(cfg.block(by_label(&cfg, "loop")).unwrap()),
        [
            "c.2.1: bool = get;",
            "i.2.1: int = get;",
            "t.2.1: int = get;",
            "x.2.1: int = get;",
            "t.2.2: int = mul a.4.1 b.4.1;",
            "x.2.2: int = add x.2.1 t.2.2;",
            "i.2.2: int = add i.2.1 one.1.1;",
            "c.2.2: bool = lt i.2.2 n.1.1;",
            "set c.2.1 c.2.2;",
            "set i.2.1 i.2.2;",
            "set t.2.1 t.2.2;",
            "set x.2.1 x.2.2;",
            "br c.2.2 .loop .done;",
        ]
    );
    assert_eq!(lines(cfg.block(by_label(&cfg, "done")).unwrap()), ["print x.2.2;"]);
}

#[test]
fn straight_line_code_needs_no_get() {
    let mut cfg = build_cfg(
        &function(
            &[],
            vec![
                code(konst("v", 1)),
                code(value("v", ValueOp::Add, &["v", "v"])),
                code(print("v")),
            ],
        ),
        false,
    )
    .unwrap();
    into_ssa(&mut cfg, false);
    assert!(is_ssa(&cfg));
    assert_eq!(
        text(&cfg),
        "@main() {
  jmp .entry;
.entry:
  v.1.1: int = const 1;
  v.1.2: int = add v.1.1 v.1.1;
  print v.1.2;
}
"
    );
    assert!(from_ssa(&mut cfg).is_ok());
}

#[test]
fn an_empty_function_goes_into_ssa_and_back() {
    let mut cfg = build_cfg(&function(&[], vec![]), false).unwrap();
    into_ssa(&mut cfg, false);
    assert!(is_ssa(&cfg));
    assert_eq!(cfg.len(), 2);
    assert!(from_ssa(&mut cfg).is_ok());
    assert_eq!(text(&cfg), "@main() {\n  jmp .entry;\n.entry:\n}\n");
}

#[test]
fn a_variable_defined_twice_is_not_in_ssa() {
    let mut cfg = build_cfg(
        &function(&[], vec![code(konst("v", 1)), code(konst("v", 2))]),
        false,
    )
    .unwrap();
    assert!(!is_ssa(&cfg));
    let before = text(&cfg);
    assert!(matches!(from_ssa(&mut cfg), Err(SsaError::NotSsa)));
    assert_eq!(text(&cfg), before);
}

#[test]
fn a_variable_defined_in_two_blocks_is_not_in_ssa() {
    let mut cfg = build_cfg(
        &function(&[], vec![code(konst("v", 1)), label("next"), code(konst("v", 2))]),
        false,
    )
    .unwrap();
    assert!(!is_ssa(&cfg));
    assert!(matches!(from_ssa(&mut cfg), Err(SsaError::NotSsa)));
}

#[test]
fn a_set_with_one_argument_is_malformed() {
    let mut cfg = build_cfg(
        &function(
            &[],
            vec![
                code(value("v", ValueOp::Get, &[])),
                code(effect(EffectOp::Upsilon, &["v"], &[])),
            ],
        ),
        false,
    )
    .unwrap();
    let before = text(&cfg);
    assert!(matches!(from_ssa(&mut cfg), Err(SsaError::MalformedSet)));
    assert_eq!(text(&cfg), before);
}

#[test]
fn a_set_without_its_get_is_refused() {
    let mut cfg = build_cfg(
        &function(
            &[],
            vec![code(konst("w", 1)), code(effect(EffectOp::Upsilon, &["v", "w"], &[]))],
        ),
        false,
    )
    .unwrap();
    match from_ssa(&mut cfg) {
        Err(SsaError::MissingGet { name }) => assert_eq!(name, "v"),
        other => panic!("{other:?}"),
    }
}

#[test]
fn a_set_becomes_a_copy_at_the_type_of_its_get() {
    let mut cfg = build_cfg(
        &function(
            &[],
            vec![
                code(typed("w", ValueOp::Not, &["q"], Type::Bool)),
                code(effect(EffectOp::Upsilon, &["v", "w"], &[])),
                label("next"),
                code(typed("v", ValueOp::Get, &[], Type::Bool)),
                code(print("v")),
            ],
        ),
        false,
    )
    .unwrap();
    assert!(is_ssa(&cfg));
    assert!(from_ssa(&mut cfg).is_ok());
    assert_eq!(lines(cfg.block(cfg.entry).unwrap()), ["w: bool = not q;", "v: bool = id w;"]);
    assert_eq!(lines(cfg.block(by_label(&cfg, "next")).unwrap()), ["print v;"]);
}

#[test]
fn the_definition_sites_list_each_variable_with_its_blocks() {
    let cfg = counter();
    let sites = compute_definition_sites(&cfg);
    let shown: Vec<String> = sites
        .0
        .iter()
        .map(|s| format!("{} {:?} {:?}", s.name, s.ty, sorted(s.blocks.clone())))
        .collect();
    let (entry, header) = (cfg.entry.0, by_label(&cfg, "loop").0);
    assert_eq!(
        shown,
        [
            format!("cond Bool [{header}]"),
            format!("i Int [{entry}, {header}]"),
            format!("n Int [{entry}]"),
            format!("one Int [{entry}]"),
        ]
    );
}

#[test]
fn the_gets_go_to_the_iterated_frontier() {
    let cfg = counter();
    let dom = compute_dominators(&cfg);
    let frontiers = compute_dominance_frontiers(&cfg, &dom);
    let sites = compute_definition_sites(&cfg);
    let points = determine_phi_insertion_points(&sites, &frontiers);
    let header = by_label(&cfg, "loop").0;
    let shown: Vec<String> =
        points.0.iter().map(|s| format!("{} {:?}", s.name, sorted(s.blocks.clone()))).collect();
    assert_eq!(
        shown,
        [format!("cond [{header}]"), format!("i [{header}]"), "n []".to_string(), "one []".to_string()]
    );
    let mut cfg = cfg;
    insert_phis(&mut cfg, &points);
    let head: Vec<String> = lines(cfg.block(BasicBlockIdx(header)).unwrap())[..2].to_vec();
    assert_eq!(head, ["cond: bool = get;", "i: int = get;"]);
}

#[test]
fn a_frontier_of_a_frontier_gets_its_get_too() {
    let cfg = build_cfg(
        &function(
            &["c"],
            vec![
                code(effect(EffectOp::Branch, &["c"], &["a", "b"])),
                label("a"),
                code(effect(EffectOp::Branch, &["c"], &["a1", "a2"])),
                label("a1"),
                code(konst("v", 1)),
                code(effect(EffectOp::Jump, &[], &["inner"])),
                label("a2"),
                code(effect(EffectOp::Jump, &[], &["inner"])),
                label("inner"),
                code(effect(EffectOp::Jump, &[], &["outer"])),
                label("b"),
                code(effect(EffectOp::Jump, &[], &["outer"])),
                label("outer"),
                code(print("v")),
            ],
        ),
        true,
    )
    .unwrap();
    let dom = compute_dominators(&cfg);
    let frontiers = compute_dominance_frontiers(&cfg, &dom);
    let points = determine_phi_insertion_points(&compute_definition_sites(&cfg), &frontiers);
    assert_eq!(points.0.len(), 1);
    assert_eq!(points.0[0].name, "v");
    assert_eq!(
        sorted(points.0[0].blocks.clone()),
        sorted(vec![by_label(&cfg, "inner"), by_label(&cfg, "outer")])
    );
}

#[test]
fn the_stacks_give_the_last_block_pushed() {
    let mut stacks = DominatingDefinitionsStacks::new();
    let x = "x".to_string();
    let y = "y".to_string();
    assert_eq!(stacks.top(&x), None);
    stacks.push(&x, BasicBlockIdx(1));
    stacks.push(&x, BasicBlockIdx(2));
    assert_eq!(stacks.top(&x), Some(BasicBlockIdx(2)));
    assert_eq!(stacks.top(&y), None);
    stacks.pop(&x);
    assert_eq!(stacks.top(&x), Some(BasicBlockIdx(1)));
    stacks.pop(&x);
    stacks.pop(&x);
    assert_eq!(stacks.top(&x), None);
    stacks.push_all(BasicBlockIdx(3), &[x.clone(), y.clone()]);
    assert_eq!(stacks.top(&x), Some(BasicBlockIdx(3)));
    assert_eq!(stacks.top(&y), Some(BasicBlockIdx(3)));
}

#[test]
fn new_definitions_are_in_force_only_within() {
    let mut stacks = DominatingDefinitionsStacks::new();
    let x = "x".to_string();
    stacks.push(&x, BasicBlockIdx(1));
    let seen = stacks.with_new_definitions(BasicBlockIdx(2), &[x.clone()], |s| s.top(&x));
    assert_eq!(seen, Some(BasicBlockIdx(2)));
    assert_eq!(stacks.top(&x), Some(BasicBlockIdx(1)));
}

#[test]
fn the_local_renamer_counts_from_one() {
    let mut renamer = LocalRenamer::new();
    let x = "x".to_string();
    assert_eq!(renamer.get(&x), 0);
    assert_eq!(renamer.next(&x), 1);
    assert_eq!(renamer.next(&x), 2);
    assert_eq!(renamer.get(&x), 2);
    assert_eq!(renamer.get(&"y".to_string()), 0);
}

#[test]
fn minted_names_hold_the_tag_and_the_count() {
    assert_eq!(mint(&"x".to_string(), 3, 1), "x.3.1");
    assert_eq!(mint(&"total".to_string(), 12, 345), "total.12.345");
    assert_eq!(mint(&"x".to_string(), 0, 0), "x.0.0");
    assert_eq!(undefined(&"x".to_string()), "x.undef");
}

#[test]
fn one_add_is_folded_and_survives_the_round_trip() {
    let mut cfg = build_cfg(
        &function(
            &[],
            vec![
                code(konst("v0", 1)),
                code(konst("v1", 2)),
                code(value("v2", ValueOp::Add, &["v0", "v1"])),
                code(print("v2")),
            ],
        ),
        false,
    )
    .unwrap();
    cfg.lvn_blocks();
    bril_passes::dce::eliminate_dead_code(&mut cfg);
    into_ssa(&mut cfg, false);
    assert!(from_ssa(&mut cfg).is_ok());
    let mut before_print: Vec<String> = Vec::new();
    for k in [cfg.entry, by_label(&cfg, "entry")] {
        for line in lines(cfg.block(k).unwrap()) {
            before_print.push(line);
        }
    }
    assert_eq!(before_print, ["jmp .entry;", "v2.1.1: int = const 3;", "print v2.1.1;"]);
}

#[test]
fn the_first_set_out_of_order_decides_the_fault() {
    let malformed_first = build_cfg(
        &function(
            &[],
            vec![
                code(konst("w", 1)),
                code(effect(EffectOp::Upsilon, &["w"], &[])),
                code(effect(EffectOp::Upsilon, &["v", "w"], &[])),
            ],
        ),
        false,
    );
    assert!(matches!(from_ssa(&mut malformed_first.unwrap()), Err(SsaError::MalformedSet)));
    let missing_first = build_cfg(
        &function(
            &[],
            vec![
                code(konst("w", 1)),
                code(effect(EffectOp::Upsilon, &["v", "w"], &[])),
                label("next"),
                code(effect(EffectOp::Upsilon, &["w"], &[])),
            ],
        ),
        false,
    );
    match from_ssa(&mut missing_first.unwrap()) {
        Err(SsaError::MissingGet { name }) => assert_eq!(name, "v"),
        other => panic!("{other:?}"),
    }
}

#[test]
fn a_variable_defined_twice_is_reported_before_any_set() {
    let mut cfg = build_cfg(
        &function(
            &[],
            vec![
                code(effect(EffectOp::Upsilon, &["v"], &[])),
                code(konst("w", 1)),
                code(konst("w", 2)),
            ],
        ),
        false,
    )
    .unwrap();
    assert!(matches!(from_ssa(&mut cfg), Err(SsaError::NotSsa)));
}

#[test]
fn a_name_without_a_definition_in_force_gets_one_undef() {
    let mut cfg = build_cfg(
        &function(
            &["c"],
            vec![
                code(effect(EffectOp::Branch, &["c"], &["l", "r"])),
                label("l"),
                code(konst("x", 1)),
                code(effect(EffectOp::Jump, &[], &["join"])),
                label("r"),
                code(effect(EffectOp::Jump, &[], &["join"])),
                label("join"),
                code(print("x")),
                code(print("x")),
            ],
        ),
        true,
    )
    .unwrap();
    into_ssa(&mut cfg, false);
    assert!(is_ssa(&cfg));
    let entry = lines(cfg.block(cfg.entry).unwrap());
    assert_eq!(entry, ["x.undef: int = undef;", "c.5.1: int = id c;", "jmp .entry;"]);
    assert_eq!(lines(cfg.block(by_label(&cfg, "r")).unwrap()), ["set x.4.1 x.undef;", "jmp .join;"]);
    assert_eq!(
        lines(cfg.block(by_label(&cfg, "l")).unwrap()),
        ["x.2.1: int = const 1;", "set x.4.1 x.2.1;", "jmp .join;"]
    );
    assert_eq!(
        lines(cfg.block(by_label(&cfg, "join")).unwrap()),
        ["x.4.1: int = get;", "print x.4.1;", "print x.4.1;"]
    );
}

#[test]
fn a_variable_has_the_type_of_its_first_definition() {
    let cfg = build_cfg(
        &function(
            &[],
            vec![
                code(konst("z", 1)),
                code(typed("v", ValueOp::Not, &["z"], Type::Bool)),
                label("next"),
                code(konst("v", 2)),
                code(konst("a", 3)),
            ],
        ),
        false,
    )
    .unwrap();
    let sites = compute_definition_sites(&cfg);
    let shown: Vec<String> = sites.0.iter().map(|s| format!("{} {:?}", s.name, s.ty)).collect();
    assert_eq!(shown, ["a Int", "v Bool", "z Int"]);
}

#[test]
fn a_use_takes_the_closest_definition_above_it() {
    let mut cfg = build_cfg(
        &function(
            &["p"],
            vec![
                code(konst("x", 1)),
                code(konst("y", 5)),
                code(effect(EffectOp::Jump, &[], &["a"])),
                label("a"),
                code(value("x", ValueOp::Add, &["x", "p"])),
                code(value("x", ValueOp::Add, &["x", "y"])),
                code(effect(EffectOp::Jump, &[], &["b"])),
                label("b"),
                code(print("x")),
                code(print("y")),
                code(print("p")),
                code(print("q")),
            ],
        ),
        true,
    )
    .unwrap();
    into_ssa(&mut cfg, false);
    assert!(is_ssa(&cfg));
    assert_eq!(
        lines(cfg.block(cfg.entry).unwrap()),
        ["p.4.1: int = id p;", "jmp .entry;"]
    );
    assert_eq!(
        lines(cfg.block(by_label(&cfg, "a")).unwrap()),
        ["x.2.1: int = add x.1.1 p.4.1;", "x.2.2: int = add x.2.1 y.1.1;", "jmp .b;"]
    );
    assert_eq!(
        lines(cfg.block(by_label(&cfg, "b")).unwrap()),
        ["print x.2.2;", "print y.1.1;", "print p.4.1;", "print q.undef;"]
    );
}
