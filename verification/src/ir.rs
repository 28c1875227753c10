//! The instruction set: types, literals, opcodes and instructions, each with
//! the mathematical value (its view) that the contracts of the passes speak of.

use vstd::prelude::*;
use vstd::string::StringExecFns;

verus! {

/// Where an instruction stood in the source text.
#[derive(Clone, Copy, Debug, PartialEq, Eq, Structural)]
pub struct Position {
    pub row: u64,
    pub col: u64,
}

/// The type of a variable.
#[derive(Debug)]
pub enum Type {
    Int,
    Bool,
    Float,
    Char,
    Pointer(Box<Type>),
}

impl Type {
    /// A copy of this type.
    pub fn dup(&self) -> (r: Type)
        ensures
            r == *self,
        decreases *self,
    {
        match self {
            Type::Int => Type::Int,
            Type::Bool => Type::Bool,
            Type::Float => Type::Float,
            Type::Char => Type::Char,
            Type::Pointer(inner) => Type::Pointer(Box::new(inner.dup())),
        }
    }

    /// Whether this is the floating-point type.
    pub fn is_float(&self) -> (r: bool)
        ensures
            r == (*self == Type::Float),
    {
        match self {
            Type::Float => true,
            _ => false,
        }
    }

    /// Structural equality of two types.
    pub fn same(&self, other: &Type) -> (r: bool)
        ensures
            r == (*self == *other),
        decreases *self,
    {
        match (self, other) {
            (Type::Int, Type::Int) => true,
            (Type::Bool, Type::Bool) => true,
            (Type::Float, Type::Float) => true,
            (Type::Char, Type::Char) => true,
            (Type::Pointer(a), Type::Pointer(b)) => a.same(b),
            _ => false,
        }
    }
}

/// A copy of an optional type.
pub fn dup_type_option(t: &Option<Type>) -> (r: Option<Type>)
    ensures
        r == *t,
{
    match t {
        Some(ty) => Some(ty.dup()),
        None => None,
    }
}

/// A literal. A floating-point literal is held by its printed form, which is
/// what the passes compare.
#[derive(Debug)]
pub enum Literal {
    Int(i64),
    Bool(bool),
    Float(String),
    Char(char),
}

/// The mathematical value of a [`Literal`].
pub enum LiteralView {
    Int(i64),
    Bool(bool),
    Float(Seq<char>),
    Char(char),
}

impl View for Literal {
    type V = LiteralView;

    open spec fn view(&self) -> LiteralView {
        match *self {
            Literal::Int(i) => LiteralView::Int(i),
            Literal::Bool(b) => LiteralView::Bool(b),
            Literal::Float(s) => LiteralView::Float(s@),
            Literal::Char(c) => LiteralView::Char(c),
        }
    }
}

impl Literal {
    /// A copy of this literal.
    pub fn dup(&self) -> (r: Literal)
        ensures
            r@ == self@,
    {
        match self {
            Literal::Int(i) => Literal::Int(*i),
            Literal::Bool(b) => Literal::Bool(*b),
            Literal::Float(s) => Literal::Float(s.clone()),
            Literal::Char(c) => Literal::Char(*c),
        }
    }
}

/// The operations that define a variable.
#[derive(Clone, Copy, Debug, PartialEq, Eq, Structural, Hash)]
pub enum ValueOp {
    Add,
    Sub,
    Mul,
    Div,
    Eq,
    Lt,
    Gt,
    Le,
    Ge,
    Not,
    And,
    Or,
    Call,
    Id,
    Fadd,
    Fsub,
    Fmul,
    Fdiv,
    Feq,
    Flt,
    Fgt,
    Fle,
    Fge,
    Ceq,
    Clt,
    Cgt,
    Cle,
    Cge,
    Char2int,
    Int2char,
    Alloc,
    Load,
    PtrAdd,
    Get,
    Undef,
}

/// The operations that define nothing.
#[derive(Clone, Copy, Debug, PartialEq, Eq, Structural, Hash)]
pub enum EffectOp {
    Jump,
    Branch,
    Call,
    Return,
    Print,
    Nop,
    Store,
    Free,
    /// `set`: the write that a predecessor makes for a `get` of its successor.
    Upsilon,
}

/// Whether the order of the arguments of `op` does not matter.
pub open spec fn commutative(op: ValueOp) -> bool {
    op == ValueOp::Add || op == ValueOp::Fadd || op == ValueOp::Mul || op == ValueOp::Fmul || op
        == ValueOp::Eq || op == ValueOp::Feq || op == ValueOp::And || op == ValueOp::Or || op
        == ValueOp::Ceq
}

/// Whether every occurrence of `op` is a value of its own, never to be
/// shared with another occurrence.
pub open spec fn opaque_op(op: ValueOp) -> bool {
    op == ValueOp::Alloc || op == ValueOp::Call || op == ValueOp::Get
}

impl ValueOp {
    /// Whether the order of the arguments does not matter.
    pub fn is_commutative(self) -> (r: bool)
        ensures
            r == commutative(self),
    {
        match self {
            ValueOp::Add | ValueOp::Fadd | ValueOp::Mul | ValueOp::Fmul | ValueOp::Eq
            | ValueOp::Feq | ValueOp::And | ValueOp::Or | ValueOp::Ceq => true,
            _ => false,
        }
    }

    /// Whether every occurrence is a value of its own.
    pub fn is_opaque(self) -> (r: bool)
        ensures
            r == opaque_op(self),
    {
        match self {
            ValueOp::Alloc | ValueOp::Call | ValueOp::Get => true,
            _ => false,
        }
    }
}

/// The views of a sequence of names.
pub open spec fn texts(names: Seq<String>) -> Seq<Seq<char>> {
    Seq::new(names.len(), |i: int| names[i]@)
}

/// A copy of a list of names.
pub fn dup_names(names: &Vec<String>) -> (r: Vec<String>)
    ensures
        texts(r@) == texts(names@),
{
    let mut out: Vec<String> = Vec::new();
    let mut i: usize = 0;
    while i < names.len()
        invariant
            i <= names.len(),
            out@.len() == i,
            forall|j: int| 0 <= j < i ==> out@[j]@ == names@[j]@,
        decreases names.len() - i,
    {
        out.push(names[i].clone());
        i += 1;
    }
    assert(texts(out@) =~= texts(names@));
    out
}

/// The view of an optional name.
pub open spec fn name_view(name: Option<String>) -> Option<Seq<char>> {
    match name {
        Some(s) => Some(s@),
        None => None,
    }
}

/// One instruction.
#[derive(Debug)]
#[allow(inconsistent_fields)]
pub enum Instruction {
    Constant { dest: String, const_type: Type, value: Literal, pos: Option<Position> },
    Value {
        dest: String,
        op: ValueOp,
        args: Vec<String>,
        funcs: Vec<String>,
        labels: Vec<String>,
        op_type: Type,
        pos: Option<Position>,
    },
    Effect {
        op: EffectOp,
        args: Vec<String>,
        funcs: Vec<String>,
        labels: Vec<String>,
        pos: Option<Position>,
    },
}

/// The mathematical value of an [`Instruction`].
#[allow(inconsistent_fields)]
pub enum InstructionView {
    Constant { dest: Seq<char>, const_type: Type, value: LiteralView, pos: Option<Position> },
    Value {
        dest: Seq<char>,
        op: ValueOp,
        args: Seq<Seq<char>>,
        funcs: Seq<Seq<char>>,
        labels: Seq<Seq<char>>,
        op_type: Type,
        pos: Option<Position>,
    },
    Effect {
        op: EffectOp,
        args: Seq<Seq<char>>,
        funcs: Seq<Seq<char>>,
        labels: Seq<Seq<char>>,
        pos: Option<Position>,
    },
}

impl View for Instruction {
    type V = InstructionView;

    open spec fn view(&self) -> InstructionView {
        match *self {
            Instruction::Constant { dest, const_type, value, pos } => InstructionView::Constant {
                dest: dest@,
                const_type,
                value: value@,
                pos,
            },
            Instruction::Value {
                dest,
                op,
                args,
                funcs,
                labels,
                op_type,
                pos,
            } => InstructionView::Value {
                dest: dest@,
                op,
                args: texts(args@),
                funcs: texts(funcs@),
                labels: texts(labels@),
                op_type,
                pos,
            },
            Instruction::Effect { op, args, funcs, labels, pos } => InstructionView::Effect {
                op,
                args: texts(args@),
                funcs: texts(funcs@),
                labels: texts(labels@),
                pos,
            },
        }
    }
}

/// The views of a sequence of instructions.
pub open spec fn views(instructions: Seq<Instruction>) -> Seq<InstructionView> {
    Seq::new(instructions.len(), |i: int| instructions[i]@)
}

impl InstructionView {
    /// The variable that the instruction defines, if any.
    pub open spec fn kill(self) -> Option<Seq<char>> {
        match self {
            InstructionView::Constant { dest, .. } => Some(dest),
            InstructionView::Value { dest, .. } => Some(dest),
            InstructionView::Effect { .. } => None,
        }
    }

    /// The variables that the instruction reads, in order.
    pub open spec fn gen_set(self) -> Seq<Seq<char>> {
        match self {
            InstructionView::Constant { .. } => Seq::empty(),
            InstructionView::Value { args, .. } => args,
            InstructionView::Effect { args, .. } => args,
        }
    }

    /// Whether the instruction is a `get`.
    pub open spec fn is_get(self) -> bool {
        match self {
            InstructionView::Value { op, .. } => op == ValueOp::Get,
            _ => false,
        }
    }

    /// Whether the instruction is a `set`.
    pub open spec fn is_set(self) -> bool {
        match self {
            InstructionView::Effect { op, .. } => op == EffectOp::Upsilon,
            _ => false,
        }
    }

    /// The type that the instruction gives its destination, if it has one.
    pub open spec fn dest_type(self) -> Option<Type> {
        match self {
            InstructionView::Constant { const_type, .. } => Some(const_type),
            InstructionView::Value { op_type, .. } => Some(op_type),
            InstructionView::Effect { .. } => None,
        }
    }
}

impl Instruction {
    /// A copy of this instruction.
    pub fn dup(&self) -> (r: Instruction)
        ensures
            r@ == self@,
    {
        match self {
            Instruction::Constant { dest, const_type, value, pos } => Instruction::Constant {
                dest: dest.clone(),
                const_type: const_type.dup(),
                value: value.dup(),
                pos: *pos,
            },
            Instruction::Value { dest, op, args, funcs, labels, op_type, pos } => {
                Instruction::Value {
                    dest: dest.clone(),
                    op: *op,
                    args: dup_names(args),
                    funcs: dup_names(funcs),
                    labels: dup_names(labels),
                    op_type: op_type.dup(),
                    pos: *pos,
                }
            },
            Instruction::Effect { op, args, funcs, labels, pos } => Instruction::Effect {
                op: *op,
                args: dup_names(args),
                funcs: dup_names(funcs),
                labels: dup_names(labels),
                pos: *pos,
            },
        }
    }

    /// The unconditional jump to `label`.
    pub fn jump(label: String) -> (r: Instruction)
        ensures
            r@ == jump_to(label@),
    {
        let mut labels: Vec<String> = Vec::new();
        labels.push(label);
        let r = Instruction::Effect {
            op: EffectOp::Jump,
            args: Vec::new(),
            funcs: Vec::new(),
            labels,
            pos: None,
        };
        assert(r@->Effect_labels =~= seq![label@]);
        assert(r@->Effect_args =~= Seq::<Seq<char>>::empty());
        assert(r@->Effect_funcs =~= Seq::<Seq<char>>::empty());
        r
    }

    /// The branch on `condition` to one of two labels.
    pub fn branch(condition: String, if_true: String, if_false: String) -> (r: Instruction)
        ensures
            r@ == branch_to(condition@, if_true@, if_false@),
    {
        let mut args: Vec<String> = Vec::new();
        args.push(condition);
        let mut labels: Vec<String> = Vec::new();
        labels.push(if_true);
        labels.push(if_false);
        let r = Instruction::Effect {
            op: EffectOp::Branch,
            args,
            funcs: Vec::new(),
            labels,
            pos: None,
        };
        assert(r@->Effect_labels =~= seq![if_true@, if_false@]);
        assert(r@->Effect_args =~= seq![condition@]);
        assert(r@->Effect_funcs =~= Seq::<Seq<char>>::empty());
        r
    }

    /// The return without a value.
    pub fn bare_return() -> (r: Instruction)
        ensures
            r@ == return_nothing(),
    {
        let r = Instruction::Effect {
            op: EffectOp::Return,
            args: Vec::new(),
            funcs: Vec::new(),
            labels: Vec::new(),
            pos: None,
        };
        assert(r@->Effect_labels =~= Seq::<Seq<char>>::empty());
        assert(r@->Effect_args =~= Seq::<Seq<char>>::empty());
        assert(r@->Effect_funcs =~= Seq::<Seq<char>>::empty());
        r
    }
}

/// The value of `jmp .label`.
pub open spec fn jump_to(label: Seq<char>) -> InstructionView {
    InstructionView::Effect {
        op: EffectOp::Jump,
        args: Seq::empty(),
        funcs: Seq::empty(),
        labels: seq![label],
        pos: None,
    }
}

/// The value of `br condition .if_true .if_false`.
pub open spec fn branch_to(
    condition: Seq<char>,
    if_true: Seq<char>,
    if_false: Seq<char>,
) -> InstructionView {
    InstructionView::Effect {
        op: EffectOp::Branch,
        args: seq![condition],
        funcs: Seq::empty(),
        labels: seq![if_true, if_false],
        pos: None,
    }
}

/// The value of `ret`.
pub open spec fn return_nothing() -> InstructionView {
    InstructionView::Effect {
        op: EffectOp::Return,
        args: Seq::empty(),
        funcs: Seq::empty(),
        labels: Seq::empty(),
        pos: None,
    }
}

/// A parameter of a function.
#[derive(Debug)]
pub struct Argument {
    pub name: String,
    pub arg_type: Type,
}

/// One line of a function's body: a label or an instruction.
#[derive(Debug)]
pub enum Code {
    Label { label: String, pos: Option<Position> },
    Instruction(Instruction),
}

/// A function as a flat list of labels and instructions.
#[derive(Debug)]
pub struct Function {
    pub name: String,
    pub args: Vec<Argument>,
    pub return_type: Option<Type>,
    pub instrs: Vec<Code>,
}

/// The character of the decimal digit `d`.
pub open spec fn digit(d: nat) -> char {
    ((48 + d) as u8) as char
}

/// The decimal numeral of `n`, without leading zeros.
pub open spec fn decimal(n: nat) -> Seq<char>
    decreases n,
{
    if n < 10 {
        seq![digit(n)]
    } else {
        decimal(n / 10).push(digit(n % 10))
    }
}

/// The decimal numeral of `i`, with a minus sign before a negative one.
pub open spec fn signed_decimal(i: int) -> Seq<char> {
    if i < 0 {
        seq!['-'] + decimal((-i) as nat)
    } else {
        decimal(i as nat)
    }
}

/// The printed form of a literal: a number in decimal, `true` or `false`,
/// a floating-point literal as it is held, a character between single quotes.
pub open spec fn literal_text(l: LiteralView) -> Seq<char> {
    match l {
        LiteralView::Int(i) => signed_decimal(i as int),
        LiteralView::Bool(b) => if b {
            "true"@
        } else {
            "false"@
        },
        LiteralView::Float(s) => s,
        LiteralView::Char(c) => seq!['\'', c, '\''],
    }
}

/// `u64`'s `to_string`: the number in decimal digits, most significant
/// first, with no sign and no leading zero.
#[verifier::external_body]
pub(crate) fn decimal_text(n: u64) -> (s: String)
    ensures
        s@ == decimal(n as nat),
{
    n.to_string()
}

/// `char`'s `to_string`: the string of that one character.
#[verifier::external_body]
pub(crate) fn char_text(c: char) -> (s: String)
    ensures
        s@ == seq![c],
{
    c.to_string()
}

/// The decimal numeral of `i` as a string.
pub fn signed_decimal_text(i: i64) -> (s: String)
    ensures
        s@ == signed_decimal(i as int),
{
    if i >= 0 {
        decimal_text(i as u64)
    } else {
        let magnitude: u64 = (-(i + 1)) as u64 + 1;
        let mut s = String::from_str("-");
        proof {
            reveal_strlit("-");
        }
        let digits = decimal_text(magnitude);
        s.append(digits.as_str());
        assert(s@ =~= seq!['-'] + decimal((-i) as nat));
        s
    }
}

/// The name `base` with a dot, the letter `t` and the number `n` behind it,
/// as given to a definition that is overwritten later in its block. No
/// identifier of the surface syntax holds a dot, so the name is none that
/// a program can hold.
pub open spec fn suffixed(base: Seq<char>, n: nat) -> Seq<char> {
    base + ".t"@ + decimal(n)
}

/// A suffixed name holds a dot right behind its base.
pub proof fn lemma_suffixed_has_dot(base: Seq<char>, n: nat)
    ensures
        suffixed(base, n).len() > base.len() + 1,
        suffixed(base, n)[base.len() as int] == '.',
        suffixed(base, n).subrange(0, base.len() as int) == base,
{
    reveal_strlit(".t");
    let s = suffixed(base, n);
    assert(".t"@.len() == 2);
    assert(s[base.len() as int] == ".t"@[0]);
    assert(s.subrange(0, base.len() as int) =~= base);
}

/// The name `base` with the suffix `.t` and the number `n`.
pub fn suffixed_name(base: &String, n: u64) -> (s: String)
    ensures
        s@ == suffixed(base@, n as nat),
{
    let mut s = base.clone();
    s.append(".t");
    let digits = decimal_text(n);
    s.append(digits.as_str());
    s
}

impl Literal {
    /// The printed form of this literal.
    pub fn text(&self) -> (s: String)
        ensures
            s@ == literal_text(self@),
    {
        match self {
            Literal::Int(i) => signed_decimal_text(*i),
            Literal::Bool(b) => if *b {
                String::from_str("true")
            } else {
                String::from_str("false")
            },
            Literal::Float(s) => s.clone(),
            Literal::Char(c) => {
                let mut s = String::from_str("'");
                proof {
                    reveal_strlit("'");
                }
                let middle = char_text(*c);
                s.append(middle.as_str());
                s.append("'");
                assert(s@ =~= seq!['\'', *c, '\'']);
                s
            },
        }
    }
}

/// The name of a value operation, as the text of a program writes it.
pub open spec fn value_op_name(op: ValueOp) -> Seq<char> {
    match op {
        ValueOp::Add => "add"@,
        ValueOp::Sub => "sub"@,
        ValueOp::Mul => "mul"@,
        ValueOp::Div => "div"@,
        ValueOp::Eq => "eq"@,
        ValueOp::Lt => "lt"@,
        ValueOp::Gt => "gt"@,
        ValueOp::Le => "le"@,
        ValueOp::Ge => "ge"@,
        ValueOp::Not => "not"@,
        ValueOp::And => "and"@,
        ValueOp::Or => "or"@,
        ValueOp::Call => "call"@,
        ValueOp::Id => "id"@,
        ValueOp::Fadd => "fadd"@,
        ValueOp::Fsub => "fsub"@,
        ValueOp::Fmul => "fmul"@,
        ValueOp::Fdiv => "fdiv"@,
        ValueOp::Feq => "feq"@,
        ValueOp::Flt => "flt"@,
        ValueOp::Fgt => "fgt"@,
        ValueOp::Fle => "fle"@,
        ValueOp::Fge => "fge"@,
        ValueOp::Ceq => "ceq"@,
        ValueOp::Clt => "clt"@,
        ValueOp::Cgt => "cgt"@,
        ValueOp::Cle => "cle"@,
        ValueOp::Cge => "cge"@,
        ValueOp::Char2int => "char2int"@,
        ValueOp::Int2char => "int2char"@,
        ValueOp::Alloc => "alloc"@,
        ValueOp::Load => "load"@,
        ValueOp::PtrAdd => "ptradd"@,
        ValueOp::Get => "get"@,
        ValueOp::Undef => "undef"@,
    }
}

/// The name of an effect operation, as the text of a program writes it.
pub open spec fn effect_op_name(op: EffectOp) -> Seq<char> {
    match op {
        EffectOp::Jump => "jmp"@,
        EffectOp::Branch => "br"@,
        EffectOp::Call => "call"@,
        EffectOp::Return => "ret"@,
        EffectOp::Print => "print"@,
        EffectOp::Nop => "nop"@,
        EffectOp::Store => "store"@,
        EffectOp::Free => "free"@,
        EffectOp::Upsilon => "set"@,
    }
}

impl ValueOp {
    /// The name of this operation.
    pub fn name(self) -> (s: String)
        ensures
            s@ == value_op_name(self),
    {
        match self {
            ValueOp::Add => String::from_str("add"),
            ValueOp::Sub => String::from_str("sub"),
            ValueOp::Mul => String::from_str("mul"),
            ValueOp::Div => String::from_str("div"),
            ValueOp::Eq => String::from_str("eq"),
            ValueOp::Lt => String::from_str("lt"),
            ValueOp::Gt => String::from_str("gt"),
            ValueOp::Le => String::from_str("le"),
            ValueOp::Ge => String::from_str("ge"),
            ValueOp::Not => String::from_str("not"),
            ValueOp::And => String::from_str("and"),
            ValueOp::Or => String::from_str("or"),
            ValueOp::Call => String::from_str("call"),
            ValueOp::Id => String::from_str("id"),
            ValueOp::Fadd => String::from_str("fadd"),
            ValueOp::Fsub => String::from_str("fsub"),
            ValueOp::Fmul => String::from_str("fmul"),
            ValueOp::Fdiv => String::from_str("fdiv"),
            ValueOp::Feq => String::from_str("feq"),
            ValueOp::Flt => String::from_str("flt"),
            ValueOp::Fgt => String::from_str("fgt"),
            ValueOp::Fle => String::from_str("fle"),
            ValueOp::Fge => String::from_str("fge"),
            ValueOp::Ceq => String::from_str("ceq"),
            ValueOp::Clt => String::from_str("clt"),
            ValueOp::Cgt => String::from_str("cgt"),
            ValueOp::Cle => String::from_str("cle"),
            ValueOp::Cge => String::from_str("cge"),
            ValueOp::Char2int => String::from_str("char2int"),
            ValueOp::Int2char => String::from_str("int2char"),
            ValueOp::Alloc => String::from_str("alloc"),
            ValueOp::Load => String::from_str("load"),
            ValueOp::PtrAdd => String::from_str("ptradd"),
            ValueOp::Get => String::from_str("get"),
            ValueOp::Undef => String::from_str("undef"),
        }
    }
}

impl EffectOp {
    /// The name of this operation.
    pub fn name(self) -> (s: String)
        ensures
            s@ == effect_op_name(self),
    {
        match self {
            EffectOp::Jump => String::from_str("jmp"),
            EffectOp::Branch => String::from_str("br"),
            EffectOp::Call => String::from_str("call"),
            EffectOp::Return => String::from_str("ret"),
            EffectOp::Print => String::from_str("print"),
            EffectOp::Nop => String::from_str("nop"),
            EffectOp::Store => String::from_str("store"),
            EffectOp::Free => String::from_str("free"),
            EffectOp::Upsilon => String::from_str("set"),
        }
    }
}

/// What a definition stands for, as far as analyses tell definitions apart.
#[derive(Debug)]
pub enum InstructionValue {
    /// The value that a parameter has on entry.
    Argument,
    /// A constant, by its printed literal and whether it is a floating-point
    /// literal.
    Constant(String, bool),
    /// An operation, by its name, arguments, functions and labels.
    Op(String, Vec<String>, Vec<String>, Vec<String>),
}

/// The mathematical value of an [`InstructionValue`].
pub enum InstructionValueView {
    Argument,
    Constant(Seq<char>, bool),
    Op(Seq<char>, Seq<Seq<char>>, Seq<Seq<char>>, Seq<Seq<char>>),
}

impl View for InstructionValue {
    type V = InstructionValueView;

    open spec fn view(&self) -> InstructionValueView {
        match *self {
            InstructionValue::Argument => InstructionValueView::Argument,
            InstructionValue::Constant(text, float) => InstructionValueView::Constant(text@, float),
            InstructionValue::Op(op, args, funcs, labels) => InstructionValueView::Op(
                op@,
                texts(args@),
                texts(funcs@),
                texts(labels@),
            ),
        }
    }
}

/// Whether two lists of names are the same.
pub fn same_names(a: &Vec<String>, b: &Vec<String>) -> (r: bool)
    ensures
        r == (texts(a@) == texts(b@)),
{
    if a.len() != b.len() {
        assert(texts(a@).len() != texts(b@).len());
        return false;
    }
    let mut i: usize = 0;
    while i < a.len()
        invariant
            i <= a@.len(),
            a@.len() == b@.len(),
            forall|j: int| 0 <= j < i ==> a@[j]@ == b@[j]@,
        decreases a@.len() - i,
    {
        if a[i] != b[i] {
            assert(texts(a@)[i as int] != texts(b@)[i as int]);
            return false;
        }
        i += 1;
    }
    assert(texts(a@) =~= texts(b@));
    true
}

impl InstructionValue {
    /// A copy of this value.
    pub fn dup(&self) -> (r: InstructionValue)
        ensures
            r@ == self@,
    {
        match self {
            InstructionValue::Argument => InstructionValue::Argument,
            InstructionValue::Constant(text, float) => InstructionValue::Constant(
                text.clone(),
                *float,
            ),
            InstructionValue::Op(op, args, funcs, labels) => InstructionValue::Op(
                op.clone(),
                dup_names(args),
                dup_names(funcs),
                dup_names(labels),
            ),
        }
    }

    /// Whether two values are the same.
    pub fn same(&self, other: &InstructionValue) -> (r: bool)
        ensures
            r == (self@ == other@),
    {
        match (self, other) {
            (InstructionValue::Argument, InstructionValue::Argument) => true,
            (InstructionValue::Constant(a, x), InstructionValue::Constant(b, y)) => *a == *b && *x
                == *y,
            (InstructionValue::Op(a, b, c, d), InstructionValue::Op(e, f, g, h)) => *a == *e
                && same_names(b, f) && same_names(c, g) && same_names(d, h),
            _ => false,
        }
    }
}

impl InstructionView {
    /// What the instruction's definition stands for, if it defines anything.
    pub open spec fn value(self) -> Option<InstructionValueView> {
        match self {
            InstructionView::Constant { value, .. } => Some(
                InstructionValueView::Constant(literal_text(value), value is Float),
            ),
            InstructionView::Value { op, args, funcs, labels, .. } => Some(
                InstructionValueView::Op(value_op_name(op), args, funcs, labels),
            ),
            InstructionView::Effect { .. } => None,
        }
    }
}

/// The view of an optional borrowed name.
pub open spec fn name_ref_view(name: Option<&String>) -> Option<Seq<char>> {
    match name {
        Some(s) => Some(s@),
        None => None,
    }
}

/// The view of an optional value.
pub open spec fn value_option_view(v: Option<InstructionValue>) -> Option<InstructionValueView> {
    match v {
        Some(x) => Some(x@),
        None => None,
    }
}

/// What analyses ask of an instruction: the variable it defines, the
/// variables it reads, and what its definition stands for.
pub trait InstructionExt {
    fn kill(&self) -> Option<&String>;

    fn gen_set(&self) -> &[String];

    fn value(&self) -> Option<InstructionValue>;
}

impl InstructionExt for Instruction {
    /// The variable that the instruction defines, if any.
    fn kill(&self) -> (r: Option<&String>)
        ensures
            name_ref_view(r) == self@.kill(),
    {
        match self {
            Instruction::Constant { dest, .. } => Some(dest),
            Instruction::Value { dest, .. } => Some(dest),
            Instruction::Effect { .. } => None,
        }
    }

    /// The variables that the instruction reads, in order.
    fn gen_set(&self) -> (r: &[String])
        ensures
            texts(r@) == self@.gen_set(),
    {
        match self {
            Instruction::Value { args, .. } => args.as_slice(),
            Instruction::Effect { args, .. } => args.as_slice(),
            Instruction::Constant { .. } => {
                let none: &[String] = &[];
                assert(texts(none@) =~= Seq::<Seq<char>>::empty());
                none
            },
        }
    }

    /// What the instruction's definition stands for, if it defines anything.
    fn value(&self) -> (r: Option<InstructionValue>)
        ensures
            value_option_view(r) == self@.value(),
    {
        match self {
            Instruction::Constant { value, .. } => {
                let float = match value {
                    Literal::Float(_) => true,
                    _ => false,
                };
                Some(InstructionValue::Constant(value.text(), float))
            },
            Instruction::Value { op, args, funcs, labels, .. } => Some(
                InstructionValue::Op(op.name(), dup_names(args), dup_names(funcs), dup_names(labels)),
            ),
            Instruction::Effect { .. } => None,
        }
    }
}

} // verus!
