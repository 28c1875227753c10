#![allow(dead_code, unused_imports)]
use bril_passes::builder::build_cfg;
use bril_passes::cfg::FunctionCfg;
use bril_passes::ir::{Argument, Code, EffectOp, Function, Instruction, Literal, Type, ValueOp};
use bril_passes::store::{BasicBlock, BasicBlockIdx};
use bril_passes::dce::eliminate_dead_code;
use bril_passes::ir::{signed_decimal_text, suffixed_name};
use bril_passes::lvn::{lvn, sorted_args, text_precedes, OpArg, Value, ValueTable};
use bril_passes::store::LabeledExit;

fn konst(dest: &str, value: i64) -> Instruction {
    Instruction::Constant {
        dest: dest.to_string(),
        const_type: Type::Int,
        value: Literal::Int(value),
        pos: None,
    }
}

fn typed(dest: &str, op: ValueOp, args: &[&str], op_type: Type) -> Instruction {
    Instruction::Value {
        dest: dest.to_string(),
        op,
        args: args.iter().map(|a| a.to_string()).collect(),
        funcs: vec![],
        labels: vec![],
        op_type,
        pos: None,
    }
}

fn value(dest: &str, op: ValueOp, args: &[&str]) -> Instruction {
    typed(dest, op, args, Type::Int)
}

fn effect(op: EffectOp, args: &[&str], labels: &[&str]) -> Instruction {
    Instruction::Effect {
        op,
        args: args.iter().map(|a| a.to_string()).collect(),
        funcs: vec![],
        labels: labels.iter().map(|a| a.to_string()).collect(),
        pos: None,
    }
}

fn print(name: &str) -> Instruction {
    effect(EffectOp::Print, &[name], &[])
}

fn code(instruction: Instruction) -> Code {
    Code::Instruction(instruction)
}

fn label(name: &str) -> Code {
    Code::Label { label: name.to_string(), pos: None }
}

fn function(params: &[&str], instrs: Vec<Code>) -> Function {
    Function {
        name: "main".to_string(),
        args: params
            .iter()
            .map(|p| Argument { name: p.to_string(), arg_type: Type::Int })
            .collect(),
        return_type: None,
        instrs,
    }
}

fn lines(block: &BasicBlock) -> Vec<String> {
    block.instructions.iter().map(|i| i.text()).collect()
}

fn by_label(cfg: &FunctionCfg, name: &str) -> BasicBlockIdx {
    for k in cfg.keys() {
        if let Some(l) = &cfg.block(k).unwrap().label {
            if l.name == name {
                return k;
            }
        }
    }
    panic!("no block is labeled {name}");
}

fn sorted(mut blocks: Vec<BasicBlockIdx>) -> Vec<u64> {
    let mut numbers: Vec<u64> = blocks.drain(..).map(|b| b.0).collect();
    numbers.sort();
    numbers
}

fn block_of(instructions: Vec<Instruction>) -> BasicBlock {
    let mut b = BasicBlock::empty();
    b.instructions = instructions;
    b
}

fn numbered(instructions: Vec<Instruction>) -> Vec<String> {
    let mut b = block_of(instructions);
    lvn(&mut b);
    lines(&b)
}

#[test]
fn an_addition_of_two_constants_is_folded() {
    assert_eq!(
        numbered(vec![
            konst("a", 2),
            konst("b", 3),
            value("c", ValueOp::Add, &["a", "b"]),
            print("c"),
        ]),
        ["a: int = const 2;", "b: int = const 3;", "c: int = const 5;", "print c;"]
    );
}

#[test]
fn a_folded_sum_leaves_its_operands_dead() {
    let mut cfg = build_cfg(
        &function(
            &[],
            vec![
                code(konst("a", 2)),
                code(konst("b", 3)),
                code(value("c", ValueOp::Add, &["a", "b"])),
                code(print("c")),
            ],
        ),
        false,
    )
    .unwrap();
    cfg.lvn_blocks();
    eliminate_dead_code(&mut cfg);
    assert_eq!(lines(cfg.block(cfg.entry).unwrap()), ["c: int = const 5;", "print c;"]);
}

#[test]
fn a_commuted_addition_becomes_a_copy() {
    assert_eq!(
        numbered(vec![
            value("x", ValueOp::Add, &["a", "b"]),
            value("y", ValueOp::Add, &["b", "a"]),
            print("y"),
        ]),
        ["x: int = add a b;", "y: int = id x;", "print x;"]
    );
}

#[test]
fn a_commuted_subtraction_is_another_value() {
    assert_eq!(
        numbered(vec![
            value("x", ValueOp::Sub, &["a", "b"]),
            value("y", ValueOp::Sub, &["b", "a"]),
            print("y"),
        ]),
        ["x: int = sub a b;", "y: int = sub b a;", "print y;"]
    );
}

#[test]
fn a_repeated_subtraction_becomes_a_copy() {
    assert_eq!(
        numbered(vec![
            value("x", ValueOp::Sub, &["a", "b"]),
            value("y", ValueOp::Sub, &["a", "b"]),
            print("y"),
        ]),
        ["x: int = sub a b;", "y: int = id x;", "print x;"]
    );
}

#[test]
fn equal_constants_share_one_value() {
    assert_eq!(
        numbered(vec![
            konst("a", 1),
            konst("b", 1),
            value("c", ValueOp::Sub, &["a", "b"]),
            value("d", ValueOp::Sub, &["b", "a"]),
            print("d"),
        ]),
        ["a: int = const 1;", "b: int = id a;", "c: int = sub a a;", "d: int = id c;", "print c;"]
    );
}

#[test]
fn a_name_assigned_again_later_gets_a_fresh_name() {
    assert_eq!(
        numbered(vec![konst("a", 1), konst("a", 2), print("a")]),
        ["a.t1: int = const 1;", "a: int = const 2;", "print a;"]
    );
}

#[test]
fn a_fresh_name_stands_for_the_value_it_holds() {
    assert_eq!(
        numbered(vec![
            value("x", ValueOp::Add, &["a", "b"]),
            value("x", ValueOp::Add, &["x", "b"]),
            value("z", ValueOp::Add, &["a", "b"]),
            print("x"),
            print("z"),
        ]),
        [
            "x.t1: int = add a b;",
            "x: int = add x.t1 b;",
            "z: int = id x.t1;",
            "print x;",
            "print x.t1;",
        ]
    );
}

#[test]
fn a_redefined_operand_ends_the_match() {
    assert_eq!(
        numbered(vec![
            value("x", ValueOp::Add, &["a", "b"]),
            konst("a", 7),
            value("y", ValueOp::Add, &["a", "b"]),
            print("y"),
        ]),
        ["x: int = add a b;", "a: int = const 7;", "y: int = add a b;", "print y;"]
    );
}

#[test]
fn calls_are_never_merged() {
    assert_eq!(
        numbered(vec![
            value("x", ValueOp::Call, &["a"]),
            value("y", ValueOp::Call, &["a"]),
            print("y"),
        ]),
        ["x: int = call a;", "y: int = call a;", "print y;"]
    );
}

#[test]
fn allocations_and_gets_are_never_merged() {
    assert_eq!(
        numbered(vec![
            typed("p", ValueOp::Alloc, &["n"], Type::Pointer(Box::new(Type::Int))),
            typed("q", ValueOp::Alloc, &["n"], Type::Pointer(Box::new(Type::Int))),
            value("g", ValueOp::Get, &[]),
            value("h", ValueOp::Get, &[]),
        ]),
        ["p: ptr<int> = alloc n;", "q: ptr<int> = alloc n;", "g: int = get;", "h: int = get;"]
    );
}

#[test]
fn an_overflowing_addition_is_not_folded() {
    assert_eq!(
        numbered(vec![
            konst("a", i64::MAX),
            konst("b", 1),
            value("c", ValueOp::Add, &["a", "b"]),
            print("c"),
        ]),
        [
            "a: int = const 9223372036854775807;",
            "b: int = const 1;",
            "c: int = add a b;",
            "print c;",
        ]
    );
}

#[test]
fn the_largest_sum_that_fits_is_folded() {
    assert_eq!(
        numbered(vec![
            konst("a", i64::MAX - 1),
            konst("b", 1),
            value("c", ValueOp::Add, &["a", "b"]),
            konst("d", i64::MIN),
            konst("e", 0),
            value("f", ValueOp::Add, &["d", "e"]),
        ]),
        [
            "a: int = const 9223372036854775806;",
            "b: int = const 1;",
            "c: int = const 9223372036854775807;",
            "d: int = const -9223372036854775808;",
            "e: int = const 0;",
            "f: int = const -9223372036854775808;",
        ]
    );
}

#[test]
fn a_folded_sum_is_folded_again() {
    assert_eq!(
        numbered(vec![
            konst("a", 2),
            konst("b", 3),
            value("c", ValueOp::Add, &["a", "b"]),
            value("d", ValueOp::Add, &["c", "a"]),
            print("d"),
        ]),
        [
            "a: int = const 2;",
            "b: int = const 3;",
            "c: int = const 5;",
            "d: int = const 7;",
            "print d;",
        ]
    );
}

#[test]
fn a_float_constant_and_an_integer_constant_stay_apart() {
    let float = Instruction::Constant {
        dest: "f".to_string(),
        const_type: Type::Float,
        value: Literal::Float("1".to_string()),
        pos: None,
    };
    assert_eq!(
        numbered(vec![float, konst("i", 1), print("i")]),
        ["f: float = const 1;", "i: int = const 1;", "print i;"]
    );
}

#[test]
fn floats_that_print_alike_merge() {
    let float = |dest: &str, printed: &str| Instruction::Constant {
        dest: dest.to_string(),
        const_type: Type::Float,
        value: Literal::Float(printed.to_string()),
        pos: None,
    };
    assert_eq!(
        numbered(vec![float("f", "1.5"), float("g", "1.5"), float("h", "1.50")]),
        ["f: float = const 1.5;", "g: float = id f;", "h: float = const 1.50;"]
    );
}

#[test]
fn the_exit_follows_the_renamed_condition() {
    let mut cfg = build_cfg(
        &function(
            &["a", "b"],
            vec![
                code(typed("x", ValueOp::Lt, &["a", "b"], Type::Bool)),
                code(typed("y", ValueOp::Lt, &["a", "b"], Type::Bool)),
                code(effect(EffectOp::Branch, &["y"], &["l", "r"])),
                label("l"),
                code(print("a")),
                label("r"),
                code(print("b")),
            ],
        ),
        false,
    )
    .unwrap();
    cfg.lvn_blocks();
    let entry = cfg.block(cfg.entry).unwrap();
    assert_eq!(lines(entry), ["x: bool = lt a b;", "y: bool = id x;", "br x .l .r;"]);
    match &entry.exit {
        LabeledExit::Conditional { condition, if_true_label, if_false_label, .. } => {
            assert_eq!(condition, "x");
            assert_eq!(if_true_label, "l");
            assert_eq!(if_false_label, "r");
        }
        other => panic!("{other:?}"),
    }
    assert_eq!(cfg.successors(cfg.entry), [by_label(&cfg, "l"), by_label(&cfg, "r")]);
}

#[test]
fn every_block_is_numbered_on_its_own() {
    let mut cfg = build_cfg(
        &function(
            &["a", "b"],
            vec![
                code(value("x", ValueOp::Add, &["a", "b"])),
                label("next"),
                code(value("y", ValueOp::Add, &["a", "b"])),
                code(value("z", ValueOp::Add, &["b", "a"])),
                code(print("z")),
            ],
        ),
        false,
    )
    .unwrap();
    cfg.lvn_blocks();
    assert_eq!(lines(cfg.block(cfg.entry).unwrap()), ["x: int = add a b;"]);
    assert_eq!(
        lines(cfg.block(by_label(&cfg, "next")).unwrap()),
        ["y: int = add a b;", "z: int = id y;", "print y;"]
    );
}

#[test]
fn value_indices_sort_before_names() {
    let sorted = sorted_args(&vec![
        OpArg::Unknown("b".to_string()),
        OpArg::Value(3),
        OpArg::Unknown("a".to_string()),
        OpArg::Value(1),
    ]);
    let shown: Vec<String> = sorted.iter().map(|a| format!("{a:?}")).collect();
    assert_eq!(shown, ["Value(1)", "Value(3)", "Unknown(\"a\")", "Unknown(\"b\")"]);
}

#[test]
fn names_are_ordered_as_texts() {
    assert!(text_precedes(&"a".to_string(), &"b".to_string()));
    assert!(text_precedes(&"a".to_string(), &"ab".to_string()));
    assert!(!text_precedes(&"b".to_string(), &"ab".to_string()));
    assert!(!text_precedes(&"a".to_string(), &"a".to_string()));
    assert!(text_precedes(&"".to_string(), &"a".to_string()));
}

#[test]
fn a_table_finds_what_was_added() {
    let mut table = ValueTable::new();
    let one = Value::OtherConst("1".to_string());
    assert!(table.find(&one).is_none());
    assert!(table.get_value(&"x".to_string()).is_none());
    assert_eq!(table.get_canonical_name(&OpArg::Unknown("x".to_string())), "x");
}

#[test]
fn literals_print_as_the_syntax_writes_them() {
    assert_eq!(Literal::Int(0).text(), "0");
    assert_eq!(Literal::Int(-42).text(), "-42");
    assert_eq!(Literal::Int(1234567890).text(), "1234567890");
    assert_eq!(Literal::Bool(true).text(), "true");
    assert_eq!(Literal::Bool(false).text(), "false");
    assert_eq!(Literal::Float("1.5".to_string()).text(), "1.5");
    assert_eq!(Literal::Char('c').text(), "'c'");
}

#[test]
fn signed_numbers_print_in_decimal() {
    assert_eq!(signed_decimal_text(0), "0");
    assert_eq!(signed_decimal_text(-7), "-7");
    assert_eq!(signed_decimal_text(i64::MAX), "9223372036854775807");
    assert_eq!(signed_decimal_text(i64::MIN), "-9223372036854775808");
}

#[test]
fn fresh_names_carry_their_number() {
    assert_eq!(suffixed_name(&"x".to_string(), 0), "x.t0");
    assert_eq!(suffixed_name(&"x".to_string(), 12), "x.t12");
    assert_eq!(suffixed_name(&"".to_string(), 7), ".t7");
}

#[test]
fn a_fresh_name_is_none_that_a_program_can_hold() {
    assert_eq!(
        numbered(vec![
            value("x", ValueOp::Add, &["a", "b"]),
            konst("x", 7),
            value("y", ValueOp::Add, &["a", "b"]),
            print("y"),
        ]),
        ["x.t1: int = add a b;", "x: int = const 7;", "y: int = id x.t1;", "print x.t1;"]
    );
    assert_eq!(
        numbered(vec![konst("x", 1), konst("x", 2), value("z", ValueOp::Id, &["x__t1"]), print("z")]),
        ["x.t1: int = const 1;", "x: int = const 2;", "z: int = id x__t1;", "print z;"]
    );
    for n in [0u64, 1, 12, u64::MAX] {
        let name = suffixed_name(&"x_1".to_string(), n);
        assert!(name.starts_with("x_1.t"));
        assert!(name.chars().any(|c| !(c.is_alphanumeric() || c == '_')));
    }
}
