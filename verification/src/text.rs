//! The text of a program: types, instructions, blocks and functions as the
//! surface syntax writes them.

use vstd::prelude::*;
use vstd::string::StringExecFns;
use crate::ir::{
    Argument, Instruction, InstructionView, Type, effect_op_name, literal_text, texts,
    value_op_name,
};
use crate::store::{BasicBlock, BasicBlockIdx};
use crate::cfg::FunctionCfg;

verus! {

/// The text of a type.
pub open spec fn type_text(t: Type) -> Seq<char>
    decreases t,
{
    match t {
        Type::Int => "int"@,
        Type::Bool => "bool"@,
        Type::Float => "float"@,
        Type::Char => "char"@,
        Type::Pointer(inner) => "ptr<"@ + type_text(*inner) + ">"@,
    }
}

/// Each of the first `upto` of `names` after a space and `prefix`.
pub open spec fn words(prefix: Seq<char>, names: Seq<Seq<char>>, upto: int) -> Seq<char>
    decreases upto,
{
    if upto <= 0 {
        Seq::empty()
    } else {
        words(prefix, names, upto - 1) + " "@ + prefix + names[upto - 1]
    }
}

/// The operands of an instruction: the functions, each after `@`, the
/// arguments, and the labels, each after a dot.
pub open spec fn operands_text(
    funcs: Seq<Seq<char>>,
    args: Seq<Seq<char>>,
    labels: Seq<Seq<char>>,
) -> Seq<char> {
    words("@"@, funcs, funcs.len() as int) + words(""@, args, args.len() as int) + words(
        "."@,
        labels,
        labels.len() as int,
    )
}

/// The text of an instruction, up to and including its semicolon.
pub open spec fn instruction_text(i: InstructionView) -> Seq<char> {
    match i {
        InstructionView::Constant { dest, const_type, value, .. } => dest + ": "@ + type_text(
            const_type,
        ) + " = const "@ + literal_text(value) + ";"@,
        InstructionView::Value { dest, op, args, funcs, labels, op_type, .. } => dest + ": "@
            + type_text(op_type) + " = "@ + value_op_name(op) + operands_text(funcs, args, labels)
            + ";"@,
        InstructionView::Effect { op, args, funcs, labels, .. } => effect_op_name(op)
            + operands_text(funcs, args, labels) + ";"@,
    }
}

/// The lines of the first `upto` instructions of `code`, each after two
/// spaces.
pub open spec fn lines_text(code: Seq<InstructionView>, upto: int) -> Seq<char>
    decreases upto,
{
    if upto <= 0 {
        Seq::empty()
    } else {
        lines_text(code, upto - 1) + "  "@ + instruction_text(code[upto - 1]) + "\n"@
    }
}

/// The text of a block: the line of its label, if it has one, then the
/// lines of its instructions.
pub open spec fn block_text(b: BasicBlock) -> Seq<char> {
    let head = match b.label {
        Some(l) => "."@ + l.name@ + ":\n"@,
        None => Seq::empty(),
    };
    head + lines_text(b.code(), b.code().len() as int)
}

/// The first `upto` parameters, each with its type, with commas between.
pub open spec fn parameters_text(arguments: Seq<Argument>, upto: int) -> Seq<char>
    decreases upto,
{
    if upto <= 0 {
        Seq::empty()
    } else {
        parameters_text(arguments, upto - 1) + if upto > 1 {
            ", "@
        } else {
            ""@
        } + arguments[upto - 1].name@ + ": "@ + type_text(arguments[upto - 1].arg_type)
    }
}

/// The first line of a function: its name, parameters and return type.
pub open spec fn header_text(cfg: FunctionCfg) -> Seq<char> {
    "@"@ + cfg.signature.name@ + "("@ + parameters_text(
        cfg.signature.arguments@,
        cfg.signature.arguments@.len() as int,
    ) + ")"@ + match cfg.signature.return_type {
        Some(t) => ": "@ + type_text(t),
        None => ""@,
    } + " {\n"@
}

/// The texts of the first `upto` of the blocks `keys`, but the entry.
pub open spec fn rest_text(cfg: FunctionCfg, keys: Seq<BasicBlockIdx>, upto: int) -> Seq<char>
    decreases upto,
{
    if upto <= 0 {
        Seq::empty()
    } else {
        rest_text(cfg, keys, upto - 1) + if keys[upto - 1] == cfg.entry {
            Seq::empty()
        } else {
            block_text(cfg.blocks()[keys[upto - 1].0])
        }
    }
}

/// The text of a function whose blocks are `keys`: the first line, the
/// entry, the other blocks in the order of `keys`, and a closing brace.
pub open spec fn function_text(cfg: FunctionCfg, keys: Seq<BasicBlockIdx>) -> Seq<char> {
    header_text(cfg) + block_text(cfg.blocks()[cfg.entry.0]) + rest_text(
        cfg,
        keys,
        keys.len() as int,
    ) + "}\n"@
}

/// Whether `keys` lists the blocks of the function, each once, in the
/// order of their slots.
pub open spec fn by_slot(cfg: FunctionCfg, keys: Seq<BasicBlockIdx>) -> bool {
    &&& forall|k: BasicBlockIdx| #[trigger] keys.contains(k) <==> cfg.has(k)
    &&& forall|i: int, j: int|
        0 <= i < j < keys.len() ==> crate::store::slot_of(#[trigger] keys[i].0)
            < crate::store::slot_of(#[trigger] keys[j].0)
}

impl Type {
    /// The text of this type.
    pub fn text(&self) -> (s: String)
        ensures
            s@ == type_text(*self),
        decreases *self,
    {
        match self {
            Type::Int => String::from_str("int"),
            Type::Bool => String::from_str("bool"),
            Type::Float => String::from_str("float"),
            Type::Char => String::from_str("char"),
            Type::Pointer(inner) => {
                let mut s = String::from_str("ptr<");
                let t = inner.text();
                s.append(t.as_str());
                s.append(">");
                s
            },
        }
    }
}

/// Puts each of `names`, after a space and `prefix`, at the end of `s`.
fn append_words(s: &mut String, prefix: &str, names: &Vec<String>)
    ensures
        final(s)@ == old(s)@ + words(prefix@, texts(names@), names@.len() as int),
{
    let ghost all = texts(names@);
    let mut i: usize = 0;
    assert(s@ =~= old(s)@ + words(prefix@, all, 0));
    while i < names.len()
        invariant
            i <= names@.len(),
            all == texts(names@),
            s@ == old(s)@ + words(prefix@, all, i as int),
        decreases names@.len() - i,
    {
        let ghost before = s@;
        s.append(" ");
        s.append(prefix);
        s.append(names[i].as_str());
        proof {
            assert(all[i as int] == names@[i as int]@);
            assert(s@ =~= old(s)@ + (words(prefix@, all, i as int) + " "@ + prefix@
                + all[i as int]));
        }
        i += 1;
    }
}

impl Instruction {
    /// The text of this instruction.
    pub fn text(&self) -> (s: String)
        ensures
            s@ == instruction_text(self@),
    {
        match self {
            Instruction::Constant { dest, const_type, value, pos: _ } => {
                let mut s = dest.clone();
                s.append(": ");
                s.append(const_type.text().as_str());
                s.append(" = const ");
                s.append(value.text().as_str());
                s.append(";");
                s
            },
            Instruction::Value { dest, op, args, funcs, labels, op_type, pos: _ } => {
                let mut s = dest.clone();
                s.append(": ");
                s.append(op_type.text().as_str());
                s.append(" = ");
                s.append(op.name().as_str());
                let ghost head = s@;
                append_words(&mut s, "@", funcs);
                append_words(&mut s, "", args);
                append_words(&mut s, ".", labels);
                proof {
                    assert(s@ =~= head + operands_text(texts(funcs@), texts(args@), texts(labels@)));
                }
                s.append(";");
                s
            },
            Instruction::Effect { op, args, funcs, labels, pos: _ } => {
                let mut s = op.name();
                let ghost head = s@;
                append_words(&mut s, "@", funcs);
                append_words(&mut s, "", args);
                append_words(&mut s, ".", labels);
                proof {
                    assert(s@ =~= head + operands_text(texts(funcs@), texts(args@), texts(labels@)));
                }
                s.append(";");
                s
            },
        }
    }
}

impl BasicBlock {
    /// The text of this block.
    pub fn text(&self) -> (s: String)
        ensures
            s@ == block_text(*self),
    {
        let mut s = String::new();
        match &self.label {
            Some(l) => {
                s.append(".");
                s.append(l.name.as_str());
                s.append(":\n");
            },
            None => {},
        }
        let ghost head = s@;
        let ghost code = self.code();
        let mut i: usize = 0;
        assert(s@ =~= head + lines_text(code, 0));
        while i < self.instructions.len()
            invariant
                i <= self.instructions@.len(),
                code == self.code(),
                s@ == head + lines_text(code, i as int),
            decreases self.instructions@.len() - i,
        {
            assert(code[i as int] == self.instructions@[i as int]@);
            s.append("  ");
            s.append(self.instructions[i].text().as_str());
            s.append("\n");
            proof {
                assert(s@ =~= head + (lines_text(code, i as int) + "  "@ + instruction_text(
                    code[i as int],
                ) + "\n"@));
            }
            i += 1;
        }
        proof {
            assert(head =~= match self.label {
                Some(l) => "."@ + l.name@ + ":\n"@,
                None => Seq::empty(),
            });
        }
        s
    }
}

impl FunctionCfg {
    /// The text of the function: the entry first, then the other blocks in
    /// the order of their slots.
    pub fn to_text(&self) -> (s: String)
        requires
            self.wf(),
        ensures
            exists|keys: Seq<BasicBlockIdx>|
                by_slot(*self, keys) && s@ == #[trigger] function_text(*self, keys),
    {
        let keys = self.keys();
        let mut s = String::from_str("@");
        s.append(self.signature.name.as_str());
        s.append("(");
        let ghost before_parameters = s@;
        let mut a: usize = 0;
        assert(s@ =~= before_parameters + parameters_text(self.signature.arguments@, 0));
        while a < self.signature.arguments.len()
            invariant
                a <= self.signature.arguments@.len(),
                s@ == before_parameters + parameters_text(self.signature.arguments@, a as int),
            decreases self.signature.arguments@.len() - a,
        {
            if a > 0 {
                s.append(", ");
            } else {
                s.append("");
            }
            s.append(self.signature.arguments[a].name.as_str());
            s.append(": ");
            s.append(self.signature.arguments[a].arg_type.text().as_str());
            proof {
                assert(s@ =~= before_parameters + (parameters_text(
                    self.signature.arguments@,
                    a as int,
                ) + if a + 1 > 1 {
                    ", "@
                } else {
                    ""@
                } + self.signature.arguments@[a as int].name@ + ": "@ + type_text(
                    self.signature.arguments@[a as int].arg_type,
                )));
            }
            a += 1;
        }
        s.append(")");
        match &self.signature.return_type {
            Some(t) => {
                s.append(": ");
                s.append(t.text().as_str());
            },
            None => {
                s.append("");
            },
        }
        s.append(" {\n");
        proof {
            assert(s@ =~= header_text(*self));
        }
        match self.block(self.entry) {
            Some(block) => {
                s.append(block.text().as_str());
            },
            None => {},
        }
        let ghost head = s@;
        let mut i: usize = 0;
        assert(s@ =~= head + rest_text(*self, keys@, 0));
        while i < keys.len()
            invariant
                i <= keys@.len(),
                self.wf(),
                forall|k: BasicBlockIdx| #[trigger] keys@.contains(k) <==> self.has(k),
                s@ == head + rest_text(*self, keys@, i as int),
            decreases keys@.len() - i,
        {
            let k = keys[i];
            assert(keys@.contains(k));
            if k.0 != self.entry.0 {
                match self.block(k) {
                    Some(block) => {
                        s.append(block.text().as_str());
                    },
                    None => {},
                }
            }
            proof {
                assert(s@ =~= head + (rest_text(*self, keys@, i as int) + if keys@[i as int]
                    == self.entry {
                    Seq::empty()
                } else {
                    block_text(self.blocks()[keys@[i as int].0])
                }));
            }
            i += 1;
        }
        s.append("}\n");
        proof {
            assert(by_slot(*self, keys@));
            assert(s@ == function_text(*self, keys@));
        }
        s
    }
}

} // verus!
