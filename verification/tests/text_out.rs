#![allow(dead_code, unused_imports)]
use bril_passes::builder::build_cfg;
use bril_passes::cfg::FunctionCfg;
use bril_passes::ir::{Argument, Code, EffectOp, Function, Instruction, Literal, Type, ValueOp};
use bril_passes::store::{BasicBlock, BasicBlockIdx};
use bril_passes::store::Label;

fn konst(dest: &str, value: i64) -> Instruction {
    Instruction::Constant {
        dest: dest.to_string(),
        const_type: Type::Int,
        value: Literal::Int(value),
        pos: None,
    }
}

fn typed(dest: &str, op: ValueOp, args: &[&str], op_type: Type) -> Instruction {
    Instruction::Value {
        dest: dest.to_string(),
        op,
        args: args.iter().map(|a| a.to_string()).collect(),
        funcs: vec![],
        labels: vec![],
        op_type,
        pos: None,
    }
}

fn value(dest: &str, op: ValueOp, args: &[&str]) -> Instruction {
    typed(dest, op, args, Type::Int)
}

fn effect(op: EffectOp, args: &[&str], labels: &[&str]) -> Instruction {
    Instruction::Effect {
        op,
        args: args.iter().map(|a| a.to_string()).collect(),
        funcs: vec![],
        labels: labels.iter().map(|a| a.to_string()).collect(),
        pos: None,
    }
}

fn print(name: &str) -> Instruction {
    effect(EffectOp::Print, &[name], &[])
}

fn code(instruction: Instruction) -> Code {
    Code::Instruction(instruction)
}

fn label(name: &str) -> Code {
    Code::Label { label: name.to_string(), pos: None }
}

fn function(params: &[&str], instrs: Vec<Code>) -> Function {
    Function {
        name: "main".to_string(),
        args: params
            .iter()
            .map(|p| Argument { name: p.to_string(), arg_type: Type::Int })
            .collect(),
        return_type: None,
        instrs,
    }
}

fn lines(block: &BasicBlock) -> Vec<String> {
    block.instructions.iter().map(|i| i.text()).collect()
}

fn by_label(cfg: &FunctionCfg, name: &str) -> BasicBlockIdx {
    for k in cfg.keys() {
        if let Some(l) = &cfg.block(k).unwrap().label {
            if l.name == name {
                return k;
            }
        }
    }
    panic!("no block is labeled {name}");
}

fn sorted(mut blocks: Vec<BasicBlockIdx>) -> Vec<u64> {
    let mut numbers: Vec<u64> = blocks.drain(..).map(|b| b.0).collect();
    numbers.sort();
    numbers
}

#[test]
fn types_print_with_their_nesting() {
    assert_eq!(Type::Int.text(), "int");
    assert_eq!(Type::Bool.text(), "bool");
    assert_eq!(Type::Float.text(), "float");
    assert_eq!(Type::Char.text(), "char");
    assert_eq!(Type::Pointer(Box::new(Type::Int)).text(), "ptr<int>");
    assert_eq!(
        Type::Pointer(Box::new(Type::Pointer(Box::new(Type::Bool)))).text(),
        "ptr<ptr<bool>>"
    );
}

#[test]
fn constants_print_with_their_literal() {
    assert_eq!(konst("x", -3).text(), "x: int = const -3;");
    let truth = Instruction::Constant {
        dest: "t".to_string(),
        const_type: Type::Bool,
        value: Literal::Bool(true),
        pos: None,
    };
    assert_eq!(truth.text(), "t: bool = const true;");
    let letter = Instruction::Constant {
        dest: "c".to_string(),
        const_type: Type::Char,
        value: Literal::Char('x'),
        pos: None,
    };
    assert_eq!(letter.text(), "c: char = const 'x';");
    let half = Instruction::Constant {
        dest: "h".to_string(),
        const_type: Type::Float,
        value: Literal::Float("0.5".to_string()),
        pos: None,
    };
    assert_eq!(half.text(), "h: float = const 0.5;");
}

#[test]
fn operands_print_functions_then_arguments_then_labels() {
    let call = Instruction::Value {
        dest: "r".to_string(),
        op: ValueOp::Call,
        args: vec!["a".to_string(), "b".to_string()],
        funcs: vec!["f".to_string()],
        labels: vec![],
        op_type: Type::Int,
        pos: None,
    };
    assert_eq!(call.text(), "r: int = call @f a b;");
    let effect_call = Instruction::Effect {
        op: EffectOp::Call,
        args: vec!["a".to_string()],
        funcs: vec!["g".to_string()],
        labels: vec![],
        pos: None,
    };
    assert_eq!(effect_call.text(), "call @g a;");
    assert_eq!(effect(EffectOp::Branch, &["c"], &["l", "r"]).text(), "br c .l .r;");
    assert_eq!(effect(EffectOp::Jump, &[], &["l"]).text(), "jmp .l;");
    assert_eq!(effect(EffectOp::Return, &[], &[]).text(), "ret;");
    assert_eq!(effect(EffectOp::Return, &["v"], &[]).text(), "ret v;");
    assert_eq!(effect(EffectOp::Upsilon, &["a", "b"], &[]).text(), "set a b;");
    assert_eq!(value("g", ValueOp::Get, &[]).text(), "g: int = get;");
}

#[test]
fn the_helpers_make_the_terminators() {
    assert_eq!(Instruction::jump("l".to_string()).text(), "jmp .l;");
    assert_eq!(
        Instruction::branch("c".to_string(), "l".to_string(), "r".to_string()).text(),
        "br c .l .r;"
    );
    assert_eq!(Instruction::bare_return().text(), "ret;");
}

#[test]
fn operations_have_the_names_of_the_syntax() {
    let value_ops = [
        (ValueOp::Add, "add"),
        (ValueOp::Sub, "sub"),
        (ValueOp::Mul, "mul"),
        (ValueOp::Div, "div"),
        (ValueOp::Eq, "eq"),
        (ValueOp::Lt, "lt"),
        (ValueOp::Gt, "gt"),
        (ValueOp::Le, "le"),
        (ValueOp::Ge, "ge"),
        (ValueOp::Not, "not"),
        (ValueOp::And, "and"),
        (ValueOp::Or, "or"),
        (ValueOp::Call, "call"),
        (ValueOp::Id, "id"),
        (ValueOp::Fadd, "fadd"),
        (ValueOp::Fsub, "fsub"),
        (ValueOp::Fmul, "fmul"),
        (ValueOp::Fdiv, "fdiv"),
        (ValueOp::Feq, "feq"),
        (ValueOp::Flt, "flt"),
        (ValueOp::Fgt, "fgt"),
        (ValueOp::Fle, "fle"),
        (ValueOp::Fge, "fge"),
        (ValueOp::Ceq, "ceq"),
        (ValueOp::Clt, "clt"),
        (ValueOp::Cgt, "cgt"),
        (ValueOp::Cle, "cle"),
        (ValueOp::Cge, "cge"),
        (ValueOp::Char2int, "char2int"),
        (ValueOp::Int2char, "int2char"),
        (ValueOp::Alloc, "alloc"),
        (ValueOp::Load, "load"),
        (ValueOp::PtrAdd, "ptradd"),
        (ValueOp::Get, "get"),
        (ValueOp::Undef, "undef"),
    ];
    for (op, name) in value_ops {
        assert_eq!(op.name(), name);
    }
    let effect_ops = [
        (EffectOp::Jump, "jmp"),
        (EffectOp::Branch, "br"),
        (EffectOp::Call, "call"),
        (EffectOp::Return, "ret"),
        (EffectOp::Print, "print"),
        (EffectOp::Nop, "nop"),
        (EffectOp::Store, "store"),
        (EffectOp::Free, "free"),
        (EffectOp::Upsilon, "set"),
    ];
    for (op, name) in effect_ops {
        assert_eq!(op.name(), name);
    }
}

#[test]
fn commutative_and_opaque_operations_are_told_apart() {
    for op in [
        ValueOp::Add,
        ValueOp::Mul,
        ValueOp::Eq,
        ValueOp::And,
        ValueOp::Or,
        ValueOp::Fadd,
        ValueOp::Fmul,
        ValueOp::Feq,
        ValueOp::Ceq,
    ] {
        assert!(op.is_commutative(), "{op:?}");
    }
    for op in [ValueOp::Sub, ValueOp::Div, ValueOp::Lt, ValueOp::Id, ValueOp::Call, ValueOp::Fsub] {
        assert!(!op.is_commutative(), "{op:?}");
    }
    for op in [ValueOp::Alloc, ValueOp::Call, ValueOp::Get] {
        assert!(op.is_opaque(), "{op:?}");
    }
    for op in [ValueOp::Add, ValueOp::Id, ValueOp::Load, ValueOp::Undef] {
        assert!(!op.is_opaque(), "{op:?}");
    }
}

#[test]
fn a_block_prints_its_label_and_its_lines() {
    let mut block = BasicBlock::empty();
    assert_eq!(block.text(), "");
    block.instructions = vec![konst("a", 1), print("a")];
    assert_eq!(block.text(), "  a: int = const 1;\n  print a;\n");
    block.label = Some(Label { name: "top".to_string() });
    assert_eq!(block.text(), ".top:\n  a: int = const 1;\n  print a;\n");
}

#[test]
fn a_function_prints_its_header_and_its_blocks() {
    let f = Function {
        name: "sum".to_string(),
        args: vec![
            Argument { name: "a".to_string(), arg_type: Type::Int },
            Argument { name: "p".to_string(), arg_type: Type::Pointer(Box::new(Type::Int)) },
        ],
        return_type: Some(Type::Int),
        instrs: vec![
            code(value("v", ValueOp::Load, &["p"])),
            code(value("r", ValueOp::Add, &["a", "v"])),
            code(effect(EffectOp::Jump, &[], &["out"])),
            label("out"),
            code(effect(EffectOp::Return, &["r"], &[])),
        ],
    };
    let cfg = build_cfg(&f, true).unwrap();
    assert_eq!(
        cfg.to_text(),
        "@sum(a: int, p: ptr<int>): int {
  v: int = load p;
  r: int = add a v;
  jmp .out;
.out:
  ret r;
}
"
    );
}

#[test]
fn a_function_without_parameters_prints_empty_brackets() {
    let cfg = build_cfg(&function(&[], vec![]), false).unwrap();
    assert_eq!(cfg.to_text(), "@main() {\n}\n");
}

#[test]
fn the_entry_prints_first_wherever_its_slot_is() {
    let mut cfg = build_cfg(&function(&[], vec![code(print("a"))]), false).unwrap();
    bril_passes::renaming::insert_new_empty_entry_block(&mut cfg);
    assert_eq!(cfg.to_text(), "@main() {\n  jmp .entry;\n.entry:\n  print a;\n}\n");
}
