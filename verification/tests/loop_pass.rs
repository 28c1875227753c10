#![allow(dead_code, unused_imports)]
use bril_passes::builder::build_cfg;
use bril_passes::cfg::FunctionCfg;
use bril_passes::ir::{Argument, Code, EffectOp, Function, Instruction, Literal, Type, ValueOp};
use bril_passes::store::{BasicBlock, BasicBlockIdx};
use bril_passes::dominators::compute_dominators;
use bril_passes::loops::{
    find_back_edges, find_natural_loops, insert_preheader, loop_invariant_code_motion,
    mark_loop_invariants, natural_loop, select_movable, NaturalLoop,
};
use bril_passes::reaching_definitions::compute_reaching_definitions;

fn konst(dest: &str, value: i64) -> Instruction {
    Instruction::Constant {
        dest: dest.to_string(),
        const_type: Type::Int,
        value: Literal::Int(value),
        pos: None,
    }
}

fn typed(dest: &str, op: ValueOp, args: &[&str], op_type: Type) -> Instruction {
    Instruction::Value {
        dest: dest.to_string(),
        op,
        args: args.iter().map(|a| a.to_string()).collect(),
        funcs: vec![],
        labels: vec![],
        op_type,
        pos: None,
    }
}

fn value(dest: &str, op: ValueOp, args: &[&str]) -> Instruction {
    typed(dest, op, args, Type::Int)
}

fn effect(op: EffectOp, args: &[&str], labels: &[&str]) -> Instruction {
    Instruction::Effect {
        op,
        args: args.iter().map(|a| a.to_string()).collect(),
        funcs: vec![],
        labels: labels.iter().map(|a| a.to_string()).collect(),
        pos: None,
    }
}

fn print(name: &str) -> Instruction {
    effect(EffectOp::Print, &[name], &[])
}

fn code(instruction: Instruction) -> Code {
    Code::Instruction(instruction)
}

fn label(name: &str) -> Code {
    Code::Label { label: name.to_string(), pos: None }
}

fn function(params: &[&str], instrs: Vec<Code>) -> Function {
    Function {
        name: "main".to_string(),
        args: params
            .iter()
            .map(|p| Argument { name: p.to_string(), arg_type: Type::Int })
            .collect(),
        return_type: None,
        instrs,
    }
}

fn lines(block: &BasicBlock) -> Vec<String> {
    block.instructions.iter().map(|i| i.text()).collect()
}

fn by_label(cfg: &FunctionCfg, name: &str) -> BasicBlockIdx {
    for k in cfg.keys() {
        if let Some(l) = &cfg.block(k).unwrap().label {
            if l.name == name {
                return k;
            }
        }
    }
    panic!("no block is labeled {name}");
}

fn sorted(mut blocks: Vec<BasicBlockIdx>) -> Vec<u64> {
    let mut numbers: Vec<u64> = blocks.drain(..).map(|b| b.0).collect();
    numbers.sort();
    numbers
}

fn counter_function() -> Function {
    function(
        &[],
        vec![
            code(konst("i", 0)),
            code(konst("n", 5)),
            code(konst("one", 1)),
            label("loop"),
            code(value("i", ValueOp::Add, &["i", "one"])),
            code(typed("cond", ValueOp::Lt, &["i", "n"], Type::Bool)),
            code(effect(EffectOp::Branch, &["cond"], &["loop", "done"])),
            label("done"),
            code(print("i")),
        ],
    )
}

fn counter() -> FunctionCfg {
    build_cfg(&counter_function(), true).unwrap()
}

fn product_loop() -> FunctionCfg {
    build_cfg(
        &function(
            &["a", "b"],
            vec![
                code(konst("x", 0)),
                code(konst("i", 0)),
                code(konst("one", 1)),
                code(konst("n", 10)),
                label("loop"),
                code(value("t", ValueOp::Mul, &["a", "b"])),
                code(value("x", ValueOp::Add, &["x", "t"])),
                code(value("i", ValueOp::Add, &["i", "one"])),
                code(typed("c", ValueOp::Lt, &["i", "n"], Type::Bool)),
                code(effect(EffectOp::Branch, &["c"], &["loop", "done"])),
                label("done"),
                code(print("x")),
            ],
        ),
        true,
    )
    .unwrap()
}

fn text(cfg: &FunctionCfg) -> String {
    cfg.to_text()
}

fn nested() -> FunctionCfg {
    build_cfg(
        &function(
            &["c"],
            vec![
                label("head"),
                code(effect(EffectOp::Branch, &["c"], &["body", "out"])),
                label("body"),
                code(effect(EffectOp::Branch, &["c"], &["head", "tail"])),
                label("tail"),
                code(effect(EffectOp::Jump, &[], &["head"])),
                label("out"),
                code(effect(EffectOp::Return, &[], &[])),
            ],
        ),
        true,
    )
    .unwrap()
}

#[test]
fn a_branch_back_to_its_own_block_is_a_back_edge() {
    let cfg = counter();
    let header = by_label(&cfg, "loop");
    let dom = compute_dominators(&cfg);
    assert_eq!(find_back_edges(&cfg, &dom), [(header, header)]);
    let found = natural_loop(&cfg, header, header);
    assert_eq!(found.header, header);
    assert_eq!(found.backedge_start, header);
    assert_eq!(found.body, [header]);
}

#[test]
fn a_function_without_a_cycle_has_no_loop() {
    let cfg = build_cfg(
        &function(
            &["c"],
            vec![
                code(effect(EffectOp::Branch, &["c"], &["l", "r"])),
                label("l"),
                code(effect(EffectOp::Jump, &[], &["r"])),
                label("r"),
                code(effect(EffectOp::Return, &[], &[])),
            ],
        ),
        true,
    )
    .unwrap();
    let dom = compute_dominators(&cfg);
    assert!(find_back_edges(&cfg, &dom).is_empty());
    assert!(find_natural_loops(&cfg, &dom).is_empty());
}

#[test]
fn two_back_edges_to_one_header_give_two_loops() {
    let cfg = nested();
    let (head, body, tail) = (by_label(&cfg, "head"), by_label(&cfg, "body"), by_label(&cfg, "tail"));
    let dom = compute_dominators(&cfg);
    let mut edges = find_back_edges(&cfg, &dom);
    edges.sort_by_key(|e| e.0 .0);
    assert_eq!(edges, [(body, head), (tail, head)]);
    let mut loops = find_natural_loops(&cfg, &dom);
    loops.sort_by_key(|l| l.backedge_start.0);
    assert_eq!(loops.len(), 2);
    assert_eq!(loops[0].header, head);
    assert_eq!(loops[0].backedge_start, body);
    assert_eq!(sorted(loops[0].body.clone()), sorted(vec![head, body]));
    assert_eq!(loops[1].header, head);
    assert_eq!(loops[1].backedge_start, tail);
    assert_eq!(sorted(loops[1].body.clone()), sorted(vec![head, body, tail]));
}

#[test]
fn a_loop_holds_what_reaches_the_back_edge_without_the_header() {
    let cfg = build_cfg(
        &function(
            &["c"],
            vec![
                code(konst("z", 0)),
                label("head"),
                code(effect(EffectOp::Branch, &["c"], &["left", "right"])),
                label("left"),
                code(effect(EffectOp::Jump, &[], &["latch"])),
                label("right"),
                code(effect(EffectOp::Jump, &[], &["latch"])),
                label("latch"),
                code(effect(EffectOp::Branch, &["c"], &["head", "out"])),
                label("out"),
                code(effect(EffectOp::Return, &[], &[])),
            ],
        ),
        true,
    )
    .unwrap();
    let dom = compute_dominators(&cfg);
    let loops = find_natural_loops(&cfg, &dom);
    assert_eq!(loops.len(), 1);
    assert_eq!(loops[0].header, by_label(&cfg, "head"));
    assert_eq!(loops[0].backedge_start, by_label(&cfg, "latch"));
    assert_eq!(
        sorted(loops[0].body.clone()),
        sorted(vec![
            by_label(&cfg, "head"),
            by_label(&cfg, "left"),
            by_label(&cfg, "right"),
            by_label(&cfg, "latch"),
        ])
    );
}

#[test]
fn the_preheader_takes_over_every_edge_into_the_header() {
    let mut cfg = product_loop();
    cfg.make_fallthroughs_explicit();
    let dom = compute_dominators(&cfg);
    let mut loops = find_natural_loops(&cfg, &dom);
    assert_eq!(loops.len(), 1);
    let header = by_label(&cfg, "loop");
    let entry = cfg.entry;
    let with = insert_preheader(&mut cfg, loops.remove(0));
    assert_eq!(with.header, header);
    assert_eq!(with.backedge_start, header);
    assert_eq!(with.body, [header]);
    assert_eq!(with.preheader, by_label(&cfg, "loop_preheader"));
    assert_eq!(cfg.predecessors(header), [with.preheader]);
    assert_eq!(cfg.successors(with.preheader), [header]);
    assert_eq!(cfg.successors(entry), [with.preheader]);
    assert_eq!(cfg.successors(header), [with.preheader, by_label(&cfg, "done")]);
    assert_eq!(sorted(cfg.predecessors(with.preheader).to_vec()), sorted(vec![entry, header]));
    assert_eq!(lines(cfg.block(with.preheader).unwrap()), ["jmp .loop;"]);
    assert_eq!(lines(cfg.block(entry).unwrap()).last().unwrap(), "jmp .loop_preheader;");
    assert_eq!(lines(cfg.block(header).unwrap()).last().unwrap(), "br c .loop_preheader .done;");
    assert!(cfg.assert_no_fallthroughs());
}

#[test]
fn a_product_of_parameters_moves_to_the_preheader() {
    let mut cfg = product_loop();
    cfg.make_fallthroughs_explicit();
    let dom = compute_dominators(&cfg);
    let mut loops = find_natural_loops(&cfg, &dom);
    let with = insert_preheader(&mut cfg, loops.remove(0));
    loop_invariant_code_motion(&mut cfg, &with, &dom);
    assert_eq!(
        text(&cfg),
        "@main(a: int, b: int) {
  x: int = const 0;
  i: int = const 0;
  one: int = const 1;
  n: int = const 10;
  jmp .loop_preheader;
.loop:
  x: int = add x t;
  i: int = add i one;
  c: bool = lt i n;
  br c .loop .done;
.done:
  print x;
  ret;
.loop_preheader:
  t: int = mul a b;
  jmp .loop;
}
"
    );
    let header = with.header;
    assert_eq!(cfg.successors(header), [header, by_label(&cfg, "done")]);
    assert_eq!(sorted(cfg.predecessors(header).to_vec()), sorted(vec![with.preheader, header]));
    assert_eq!(cfg.predecessors(with.preheader), [cfg.entry]);
    let multiplications = cfg
        .keys()
        .iter()
        .flat_map(|k| lines(cfg.block(*k).unwrap()))
        .filter(|l| l.contains("= mul "))
        .count();
    assert_eq!(multiplications, 1);
}

#[test]
fn a_chain_of_invariants_moves_in_its_order() {
    let mut cfg = build_cfg(
        &function(
            &["a", "b"],
            vec![
                code(konst("i", 0)),
                label("loop"),
                code(value("t", ValueOp::Mul, &["a", "b"])),
                code(value("u", ValueOp::Add, &["t", "a"])),
                code(konst("k", 4)),
                code(value("i", ValueOp::Add, &["i", "u"])),
                code(typed("c", ValueOp::Lt, &["i", "k"], Type::Bool)),
                code(effect(EffectOp::Branch, &["c"], &["loop", "done"])),
                label("done"),
                code(print("i")),
            ],
        ),
        true,
    )
    .unwrap();
    cfg.make_fallthroughs_explicit();
    let dom = compute_dominators(&cfg);
    let mut loops = find_natural_loops(&cfg, &dom);
    let with = insert_preheader(&mut cfg, loops.remove(0));
    loop_invariant_code_motion(&mut cfg, &with, &dom);
    assert_eq!(
        lines(cfg.block(with.preheader).unwrap()),
        ["t: int = mul a b;", "u: int = add t a;", "k: int = const 4;", "jmp .loop;"]
    );
    assert_eq!(
        lines(cfg.block(with.header).unwrap()),
        ["i: int = add i u;", "c: bool = lt i k;", "br c .loop .done;"]
    );
}

#[test]
fn what_is_defined_twice_in_the_loop_stays() {
    let mut cfg = build_cfg(
        &function(
            &["a", "b"],
            vec![
                code(konst("i", 0)),
                label("loop"),
                code(value("t", ValueOp::Mul, &["a", "b"])),
                code(value("t", ValueOp::Add, &["a", "b"])),
                code(value("i", ValueOp::Add, &["i", "t"])),
                code(typed("c", ValueOp::Lt, &["i", "a"], Type::Bool)),
                code(effect(EffectOp::Branch, &["c"], &["loop", "done"])),
                label("done"),
                code(print("i")),
            ],
        ),
        true,
    )
    .unwrap();
    cfg.make_fallthroughs_explicit();
    let dom = compute_dominators(&cfg);
    let mut loops = find_natural_loops(&cfg, &dom);
    let with = insert_preheader(&mut cfg, loops.remove(0));
    loop_invariant_code_motion(&mut cfg, &with, &dom);
    assert_eq!(lines(cfg.block(with.preheader).unwrap()), ["jmp .loop;"]);
    assert_eq!(lines(cfg.block(with.header).unwrap()).len(), 5);
}

#[test]
fn calls_and_what_the_loop_changes_are_not_invariant() {
    let mut cfg = build_cfg(
        &function(
            &["a"],
            vec![
                code(konst("i", 0)),
                label("loop"),
                code(value("r", ValueOp::Call, &["a"])),
                code(value("i", ValueOp::Add, &["i", "a"])),
                code(typed("c", ValueOp::Lt, &["i", "a"], Type::Bool)),
                code(effect(EffectOp::Branch, &["c"], &["loop", "done"])),
                label("done"),
                code(print("r")),
            ],
        ),
        true,
    )
    .unwrap();
    cfg.make_fallthroughs_explicit();
    let dom = compute_dominators(&cfg);
    let mut loops = find_natural_loops(&cfg, &dom);
    let with = insert_preheader(&mut cfg, loops.remove(0));
    let reaching = compute_reaching_definitions(&cfg);
    let marks = mark_loop_invariants(&cfg, &reaching, &with.body);
    assert_eq!(marks, [[false, false, false, false]]);
    let moves = select_movable(&cfg, &with.body, &dom, &marks);
    assert_eq!(moves, [[false, false, false, false]]);
}

#[test]
fn an_invariant_in_a_block_that_does_not_dominate_the_exit_stays() {
    let mut cfg = build_cfg(
        &function(
            &["a", "c"],
            vec![
                code(konst("i", 0)),
                label("head"),
                code(effect(EffectOp::Branch, &["c"], &["side", "latch"])),
                label("side"),
                code(value("t", ValueOp::Mul, &["a", "a"])),
                code(effect(EffectOp::Jump, &[], &["latch"])),
                label("latch"),
                code(value("i", ValueOp::Add, &["i", "a"])),
                code(effect(EffectOp::Branch, &["c"], &["head", "out"])),
                label("out"),
                code(print("i")),
            ],
        ),
        true,
    )
    .unwrap();
    cfg.make_fallthroughs_explicit();
    let dom = compute_dominators(&cfg);
    let mut loops = find_natural_loops(&cfg, &dom);
    assert_eq!(loops.len(), 1);
    let with = insert_preheader(&mut cfg, loops.remove(0));
    loop_invariant_code_motion(&mut cfg, &with, &dom);
    assert_eq!(lines(cfg.block(with.preheader).unwrap()), ["jmp .head;"]);
    assert_eq!(
        lines(cfg.block(by_label(&cfg, "side")).unwrap()),
        ["t: int = mul a a;", "jmp .latch;"]
    );
}

#[test]
fn loops_and_their_blocks_come_in_the_order_of_the_slots() {
    let cfg = nested();
    let (head, body, tail) = (by_label(&cfg, "head"), by_label(&cfg, "body"), by_label(&cfg, "tail"));
    let dom = compute_dominators(&cfg);
    assert_eq!(find_back_edges(&cfg, &dom), [(body, head), (tail, head)]);
    let loops = find_natural_loops(&cfg, &dom);
    assert_eq!(loops[0].body, [head, body]);
    assert_eq!(loops[1].body, [head, body, tail]);
    assert_eq!(natural_loop(&cfg, tail, head).body, [head, body, tail]);
}
