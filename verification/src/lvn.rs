//! Local value numbering: within one block, a value computed twice is
//! computed once and copied, and a sum of known integers becomes a constant.

use vstd::prelude::*;
use vstd::hash_map::StringHashMap;
use vstd::string::StrSliceExecFns;
use std::collections::HashMap;
use crate::ir::{
    Instruction, InstructionView, Literal, LiteralView, Type, ValueOp, commutative, literal_text,
    opaque_op, suffixed, suffixed_name, texts, dup_names,
};
use crate::store::{BasicBlock, BasicBlockIdx, LabeledExit, store_get_mut};
use crate::cfg::{Exit, FunctionCfg, exit_agrees, lemma_mirrored_same};
use crate::exits::{exit_refreshed, refresh_exit};

verus! {

broadcast use vstd::std_specs::hash::group_hash_axioms;

/// An argument of a value: the value at a position of the table, or a
/// variable that the block does not define before.
#[derive(Debug)]
pub enum OpArg {
    Value(usize),
    Unknown(String),
}

/// The mathematical value of an [`OpArg`].
pub enum OpArgView {
    Value(usize),
    Unknown(Seq<char>),
}

impl View for OpArg {
    type V = OpArgView;

    open spec fn view(&self) -> OpArgView {
        match *self {
            OpArg::Value(i) => OpArgView::Value(i),
            OpArg::Unknown(s) => OpArgView::Unknown(s@),
        }
    }
}

/// What an instruction computes, in the form under which equal
/// computations are found again.
#[derive(Debug)]
pub enum Value {
    /// A constant of floating-point type, by its printed literal.
    Float(String),
    /// Any other constant, by its printed literal.
    OtherConst(String),
    /// An operation on arguments.
    Op(ValueOp, Vec<OpArg>),
    /// A value that is equal to no other: an allocation, a call, a `get`.
    /// The tag is the position that the value takes in the table.
    Opaque(usize),
}

/// The mathematical value of a [`Value`].
pub enum ValueView {
    Float(Seq<char>),
    OtherConst(Seq<char>),
    Op(ValueOp, Seq<OpArgView>),
    Opaque(usize),
}

/// The views of a sequence of arguments.
pub open spec fn arg_views(args: Seq<OpArg>) -> Seq<OpArgView> {
    Seq::new(args.len(), |i: int| args[i]@)
}

impl View for Value {
    type V = ValueView;

    open spec fn view(&self) -> ValueView {
        match *self {
            Value::Float(s) => ValueView::Float(s@),
            Value::OtherConst(s) => ValueView::OtherConst(s@),
            Value::Op(op, args) => ValueView::Op(op, arg_views(args@)),
            Value::Opaque(tag) => ValueView::Opaque(tag),
        }
    }
}

/// Whether `a` comes before `b` in the order of the dictionary, characters
/// compared by their code points.
pub open spec fn lex_less(a: Seq<char>, b: Seq<char>) -> bool
    decreases a.len(),
{
    if b.len() == 0 {
        false
    } else if a.len() == 0 {
        true
    } else if a[0] != b[0] {
        (a[0] as u32) < (b[0] as u32)
    } else {
        lex_less(a.drop_first(), b.drop_first())
    }
}

/// No text comes before itself.
pub proof fn lemma_lex_irreflexive(a: Seq<char>)
    ensures
        !lex_less(a, a),
    decreases a.len(),
{
    if a.len() > 0 {
        lemma_lex_irreflexive(a.drop_first());
    }
}

/// Of two different texts one comes before the other.
pub proof fn lemma_lex_total(a: Seq<char>, b: Seq<char>)
    requires
        a != b,
    ensures
        lex_less(a, b) || lex_less(b, a),
    decreases a.len(),
{
    if a.len() == 0 {
        if b.len() == 0 {
            assert(a =~= b);
        }
    } else if b.len() == 0 {
        assert(lex_less(b, a));
    } else if a[0] == b[0] {
        if a.drop_first() == b.drop_first() {
            assert(a =~= seq![a[0]] + a.drop_first());
            assert(b =~= seq![b[0]] + b.drop_first());
        }
        lemma_lex_total(a.drop_first(), b.drop_first());
        assert(lex_less(a, b) == lex_less(a.drop_first(), b.drop_first()));
        assert(lex_less(b, a) == lex_less(b.drop_first(), a.drop_first()));
    } else {
        vstd::utf8::char_u32_cast(a[0], a[0] as u32);
        vstd::utf8::char_u32_cast(b[0], b[0] as u32);
        assert((a[0] as u32) != (b[0] as u32));
        assert(lex_less(a, b) == ((a[0] as u32) < (b[0] as u32)));
        assert(lex_less(b, a) == ((b[0] as u32) < (a[0] as u32)));
    }
}

/// A text before one that is before a third is before the third.
pub proof fn lemma_lex_transitive(a: Seq<char>, b: Seq<char>, c: Seq<char>)
    requires
        lex_less(a, b),
        lex_less(b, c),
    ensures
        lex_less(a, c),
    decreases a.len(),
{
    if a.len() > 0 && b.len() > 0 && c.len() > 0 && a[0] == b[0] && b[0] == c[0] {
        lemma_lex_transitive(a.drop_first(), b.drop_first(), c.drop_first());
    }
}

/// The order in which the arguments of a commutative operation are put:
/// positions of the table first, in rising order, then names, in the order
/// of the dictionary.
pub open spec fn precedes(a: OpArgView, b: OpArgView) -> bool {
    match (a, b) {
        (OpArgView::Value(i), OpArgView::Value(j)) => i < j,
        (OpArgView::Value(_), OpArgView::Unknown(_)) => true,
        (OpArgView::Unknown(_), OpArgView::Value(_)) => false,
        (OpArgView::Unknown(x), OpArgView::Unknown(y)) => lex_less(x, y),
    }
}

/// `s`, in order, with `x` put after the last element that it does not
/// precede.
pub open spec fn insert_sorted(s: Seq<OpArgView>, x: OpArgView) -> Seq<OpArgView>
    decreases s.len(),
{
    if s.len() == 0 {
        seq![x]
    } else if precedes(x, s.last()) {
        insert_sorted(s.drop_last(), x).push(s.last())
    } else {
        s.push(x)
    }
}

/// The arguments `s` in order: each in turn put into the order of those
/// before it, equal ones staying in the order they came in.
pub open spec fn sort_args(s: Seq<OpArgView>) -> Seq<OpArgView>
    decreases s.len(),
{
    if s.len() == 0 {
        Seq::empty()
    } else {
        insert_sorted(sort_args(s.drop_last()), s.last())
    }
}

/// Two strings that agree on their first `i` characters compare as what
/// follows those characters.
pub proof fn lemma_lex_skip(a: Seq<char>, b: Seq<char>, i: int)
    requires
        0 <= i <= a.len(),
        i <= b.len(),
        a.take(i) == b.take(i),
    ensures
        lex_less(a, b) == lex_less(a.skip(i), b.skip(i)),
    decreases i,
{
    if i == 0 {
        assert(a.skip(0) =~= a);
        assert(b.skip(0) =~= b);
    } else {
        assert(a[0] == a.take(i)[0]);
        assert(b[0] == b.take(i)[0]);
        let a1 = a.drop_first();
        let b1 = b.drop_first();
        let pa = a1.take(i - 1);
        let pb = b1.take(i - 1);
        assert(pa =~= pb) by {
            assert forall|j: int| 0 <= j < i - 1 implies #[trigger] pa[j] == pb[j] by {
                assert(pa[j] == a.take(i)[j + 1]);
                assert(pb[j] == b.take(i)[j + 1]);
            }
        }
        lemma_lex_skip(a1, b1, i - 1);
        assert(a1.skip(i - 1) =~= a.skip(i));
        assert(b1.skip(i - 1) =~= b.skip(i));
    }
}

/// Whether `a` comes before `b` in the order of the dictionary.
pub fn text_precedes(a: &String, b: &String) -> (r: bool)
    ensures
        r == lex_less(a@, b@),
{
    let n = a.as_str().unicode_len();
    let m = b.as_str().unicode_len();
    let mut i: usize = 0;
    while i < n && i < m
        invariant
            i <= n,
            i <= m,
            n == a@.len(),
            m == b@.len(),
            a@.take(i as int) == b@.take(i as int),
        decreases n - i,
    {
        let x = a.as_str().get_char(i);
        let y = b.as_str().get_char(i);
        if x != y {
            proof {
                lemma_lex_skip(a@, b@, i as int);
                assert(a@.skip(i as int)[0] == x);
                assert(b@.skip(i as int)[0] == y);
            }
            return (x as u32) < (y as u32);
        }
        assert(a@.take(i + 1) =~= a@.take(i as int).push(x));
        assert(b@.take(i + 1) =~= b@.take(i as int).push(y));
        i += 1;
    }
    proof {
        lemma_lex_skip(a@, b@, i as int);
    }
    n < m
}

impl OpArg {
    /// A copy of this argument.
    pub fn dup(&self) -> (r: OpArg)
        ensures
            r@ == self@,
    {
        match self {
            OpArg::Value(i) => OpArg::Value(*i),
            OpArg::Unknown(s) => OpArg::Unknown(s.clone()),
        }
    }

    /// Whether two arguments are the same.
    pub fn same(&self, other: &OpArg) -> (r: bool)
        ensures
            r == (self@ == other@),
    {
        match (self, other) {
            (OpArg::Value(i), OpArg::Value(j)) => *i == *j,
            (OpArg::Unknown(x), OpArg::Unknown(y)) => *x == *y,
            _ => false,
        }
    }

    /// Whether this argument comes before `other` in the order of arguments.
    pub fn before(&self, other: &OpArg) -> (r: bool)
        ensures
            r == precedes(self@, other@),
    {
        match (self, other) {
            (OpArg::Value(i), OpArg::Value(j)) => *i < *j,
            (OpArg::Value(_), OpArg::Unknown(_)) => true,
            (OpArg::Unknown(_), OpArg::Value(_)) => false,
            (OpArg::Unknown(x), OpArg::Unknown(y)) => text_precedes(x, y),
        }
    }
}

/// A copy of a list of arguments.
pub fn dup_args(args: &Vec<OpArg>) -> (r: Vec<OpArg>)
    ensures
        arg_views(r@) == arg_views(args@),
{
    let mut out: Vec<OpArg> = Vec::new();
    let mut i: usize = 0;
    while i < args.len()
        invariant
            i <= args@.len(),
            out@.len() == i,
            forall|j: int| 0 <= j < i ==> out@[j]@ == args@[j]@,
        decreases args@.len() - i,
    {
        out.push(args[i].dup());
        i += 1;
    }
    assert(arg_views(out@) =~= arg_views(args@));
    out
}

/// Whether two lists of arguments are the same.
pub fn same_args(a: &Vec<OpArg>, b: &Vec<OpArg>) -> (r: bool)
    ensures
        r == (arg_views(a@) == arg_views(b@)),
{
    if a.len() != b.len() {
        assert(arg_views(a@).len() != arg_views(b@).len());
        return false;
    }
    let mut i: usize = 0;
    while i < a.len()
        invariant
            i <= a@.len(),
            a@.len() == b@.len(),
            forall|j: int| 0 <= j < i ==> a@[j]@ == b@[j]@,
        decreases a@.len() - i,
    {
        if !a[i].same(&b[i]) {
            assert(arg_views(a@)[i as int] != arg_views(b@)[i as int]);
            return false;
        }
        i += 1;
    }
    assert(arg_views(a@) =~= arg_views(b@));
    true
}

/// Putting `x` into `s` puts it at the position before which it precedes
/// nothing and from which on it precedes everything.
pub proof fn lemma_insert_at(s: Seq<OpArgView>, x: OpArgView, p: int)
    requires
        0 <= p <= s.len(),
        forall|j: int| p <= j < s.len() ==> precedes(x, #[trigger] s[j]),
        p == 0 || !precedes(x, s[p - 1]),
    ensures
        insert_sorted(s, x) == s.insert(p, x),
    decreases s.len(),
{
    if s.len() == 0 {
        assert(seq![x] =~= s.insert(p, x));
    } else if p == s.len() {
        assert(s.push(x) =~= s.insert(p, x));
    } else {
        assert(precedes(x, s[s.len() - 1]));
        lemma_insert_at(s.drop_last(), x, p);
        assert(s.drop_last().insert(p, x).push(s.last()) =~= s.insert(p, x));
    }
}

/// The arguments in order.
pub fn sorted_args(args: &Vec<OpArg>) -> (r: Vec<OpArg>)
    ensures
        arg_views(r@) == sort_args(arg_views(args@)),
{
    let mut out: Vec<OpArg> = Vec::new();
    let mut i: usize = 0;
    assert(arg_views(args@).take(0) =~= Seq::<OpArgView>::empty());
    assert(arg_views(out@) =~= Seq::<OpArgView>::empty());
    while i < args.len()
        invariant
            i <= args@.len(),
            arg_views(out@) == sort_args(arg_views(args@).take(i as int)),
        decreases args@.len() - i,
    {
        let x = args[i].dup();
        let mut p: usize = out.len();
        while p > 0 && x.before(&out[p - 1])
            invariant
                p <= out@.len(),
                forall|j: int| p <= j < out@.len() ==> precedes(x@, #[trigger] arg_views(out@)[j]),
            decreases p,
        {
            p -= 1;
        }
        proof {
            let before = arg_views(out@);
            lemma_insert_at(before, x@, p as int);
            let prefix = arg_views(args@).take(i + 1);
            assert(prefix.drop_last() =~= arg_views(args@).take(i as int));
            assert(prefix.last() == x@);
        }
        let ghost before = arg_views(out@);
        out.insert(p, x);
        assert(arg_views(out@) =~= before.insert(p as int, x@));
        i += 1;
    }
    assert(arg_views(args@).take(args@.len() as int) =~= arg_views(args@));
    out
}

impl Value {
    /// Whether two values are the same.
    pub fn same(&self, other: &Value) -> (r: bool)
        ensures
            r == (self@ == other@),
    {
        match (self, other) {
            (Value::Float(x), Value::Float(y)) => *x == *y,
            (Value::OtherConst(x), Value::OtherConst(y)) => *x == *y,
            (Value::Op(op, args), Value::Op(op2, args2)) => *op == *op2 && same_args(args, args2),
            (Value::Opaque(x), Value::Opaque(y)) => *x == *y,
            _ => false,
        }
    }
}

/// The table of the values computed so far in a block, as lists and maps.
pub struct TableView {
    /// Each value with the variable that holds it.
    pub values: Seq<(ValueView, Seq<char>)>,
    /// How many fresh names have been given.
    pub counter: nat,
    /// For each variable, the position of the value that it holds now.
    pub variables: Map<Seq<char>, usize>,
    /// For each position whose value is a known literal, that literal.
    pub constants: Map<usize, LiteralView>,
}

/// The position of the first of `values` that is `v`.
pub open spec fn first_index(values: Seq<(ValueView, Seq<char>)>, v: ValueView) -> Option<int>
    decreases values.len(),
{
    if values.len() == 0 {
        None
    } else {
        match first_index(values.drop_last(), v) {
            Some(i) => Some(i),
            None => if values.last().0 == v {
                Some(values.len() - 1)
            } else {
                None
            },
        }
    }
}

impl TableView {
    /// The table that holds nothing.
    pub open spec fn empty() -> TableView {
        TableView {
            values: Seq::empty(),
            counter: 0,
            variables: Map::empty(),
            constants: Map::empty(),
        }
    }

    /// The invariant of the table: variables and literals are recorded for
    /// positions that the table has; an opaque value carries its own
    /// position.
    pub open spec fn wf(self) -> bool {
        &&& self.values.len() <= usize::MAX
        &&& self.counter <= self.values.len()
        &&& forall|name: Seq<char>| #[trigger]
            self.variables.contains_key(name) ==> self.variables[name] < self.values.len()
        &&& forall|k: usize| #[trigger] self.constants.contains_key(k) ==> k < self.values.len()
        &&& forall|j: int|
            0 <= j < self.values.len() && (#[trigger] self.values[j]).0 is Opaque
                ==> self.values[j].0->Opaque_0 == j
    }

    /// What stands for the variable `name` as an argument: the position of
    /// its value, if it has one, else its name.
    pub open spec fn arg_of(self, name: Seq<char>) -> OpArgView {
        if self.variables.contains_key(name) {
            OpArgView::Value(self.variables[name])
        } else {
            OpArgView::Unknown(name)
        }
    }

    /// The variable that holds the argument's value.
    pub open spec fn canonical_name(self, arg: OpArgView) -> Seq<char> {
        match arg {
            OpArgView::Value(i) => self.values[i as int].1,
            OpArgView::Unknown(name) => name,
        }
    }

    /// The literal that the argument is known to be, if any.
    pub open spec fn constant_of(self, arg: OpArgView) -> Option<LiteralView> {
        match arg {
            OpArgView::Value(i) => if self.constants.contains_key(i) {
                Some(self.constants[i])
            } else {
                None
            },
            OpArgView::Unknown(_) => None,
        }
    }

    /// What defining `current` as `value` does to the table, the name that
    /// the definition gets, and the variable to copy from instead where the
    /// table holds the value already.
    ///
    /// Where the value is found, `current` is recorded as holding it and
    /// keeps its name. Otherwise the value joins the table under `current`,
    /// or under a fresh name if `current` is overwritten later, together with
    /// the literal that it is known to be.
    pub open spec fn add(
        self,
        value: ValueView,
        constant: Option<LiteralView>,
        current: Seq<char>,
        overwritten: bool,
    ) -> (TableView, Seq<char>, Option<Seq<char>>) {
        match first_index(self.values, value) {
            Some(i) => (
                TableView { variables: self.variables.insert(current, i as usize), ..self },
                current,
                Some(self.values[i].1),
            ),
            None => {
                let name = if overwritten {
                    suffixed(current, self.counter + 1)
                } else {
                    current
                };
                let at = self.values.len() as usize;
                (
                    TableView {
                        values: self.values.push((value, name)),
                        counter: if overwritten {
                            self.counter + 1
                        } else {
                            self.counter
                        },
                        variables: self.variables.insert(current, at),
                        constants: match constant {
                            Some(c) => self.constants.insert(at, c),
                            None => self.constants,
                        },
                    },
                    name,
                    None,
                )
            },
        }
    }
}

/// Where the first of `values` that is `v` stands.
pub proof fn lemma_first_index(values: Seq<(ValueView, Seq<char>)>, v: ValueView)
    ensures
        match first_index(values, v) {
            Some(i) => 0 <= i < values.len() && values[i].0 == v && forall|j: int|
                0 <= j < i ==> (#[trigger] values[j]).0 != v,
            None => forall|j: int| 0 <= j < values.len() ==> (#[trigger] values[j]).0 != v,
        },
    decreases values.len(),
{
    if values.len() > 0 {
        lemma_first_index(values.drop_last(), v);
        match first_index(values.drop_last(), v) {
            Some(i) => {
                assert(values.drop_last()[i] == values[i]);
                assert forall|j: int| 0 <= j < i implies (#[trigger] values[j]).0 != v by {
                    assert(values.drop_last()[j] == values[j]);
                }
            },
            None => {
                assert forall|j: int| 0 <= j < values.len() - 1 implies (#[trigger] values[j]).0
                    != v by {
                    assert(values.drop_last()[j] == values[j]);
                }
            },
        }
    }
}

/// The table of the values computed so far in a block.
pub struct ValueTable {
    /// `(value, canonical_variable)` pairs.
    pub values: Vec<(Value, String)>,
    pub counter: usize,
    pub variables_to_values: StringHashMap<usize>,
    pub constant_folder: HashMap<usize, Literal>,
}

impl View for ValueTable {
    type V = TableView;

    open spec fn view(&self) -> TableView {
        TableView {
            values: Seq::new(
                self.values@.len(),
                |i: int| (self.values@[i].0@, self.values@[i].1@),
            ),
            counter: self.counter as nat,
            variables: self.variables_to_values@,
            constants: Map::new(
                |k: usize| self.constant_folder@.contains_key(k),
                |k: usize| self.constant_folder@[k]@,
            ),
        }
    }
}

impl ValueTable {
    /// A table that holds nothing.
    pub fn new() -> (t: ValueTable)
        ensures
            t@ == TableView::empty(),
            t@.wf(),
    {
        let t = ValueTable {
            values: Vec::new(),
            counter: 0,
            variables_to_values: StringHashMap::new(),
            constant_folder: HashMap::new(),
        };
        assert(t@.values =~= Seq::empty());
        assert(t@.constants =~= Map::empty());
        t
    }

    /// The position of the first value of the table that is `value`.
    pub fn find(&self, value: &Value) -> (r: Option<usize>)
        ensures
            match r {
                Some(i) => first_index(self@.values, value@) == Some(i as int),
                None => first_index(self@.values, value@) is None,
            },
    {
        let mut i: usize = 0;
        while i < self.values.len()
            invariant
                i <= self.values@.len(),
                forall|j: int| 0 <= j < i ==> (#[trigger] self@.values[j]).0 != value@,
            decreases self.values@.len() - i,
        {
            if self.values[i].0.same(value) {
                proof {
                    lemma_first_index(self@.values, value@);
                    assert(self@.values[i as int].0 == value@);
                }
                return Some(i);
            }
            i += 1;
        }
        proof {
            lemma_first_index(self@.values, value@);
        }
        None
    }

    /// Defines `current_variable` as `value`; see [`TableView::add`].
    pub fn add_value_and_get_existing_variable(
        &mut self,
        value: Value,
        constant: Option<Literal>,
        current_variable: &String,
        is_overwritten: bool,
    ) -> (r: (String, Option<String>))
        requires
            old(self)@.wf(),
            old(self)@.values.len() < usize::MAX,
            value@ is Opaque ==> value@->Opaque_0 == old(self)@.values.len(),
        ensures
            final(self)@.wf(),
            final(self)@.values.len() <= old(self)@.values.len() + 1,
            final(self)@ == old(self)@.add(
                value@,
                literal_option_view(constant),
                current_variable@,
                is_overwritten,
            ).0,
            r.0@ == old(self)@.add(
                value@,
                literal_option_view(constant),
                current_variable@,
                is_overwritten,
            ).1,
            crate::ir::name_view(r.1) == old(self)@.add(
                value@,
                literal_option_view(constant),
                current_variable@,
                is_overwritten,
            ).2,
    {
        let ghost before = self@;
        proof {
            lemma_first_index(before.values, value@);
        }
        match self.find(&value) {
            Some(existing) => {
                self.variables_to_values.insert(current_variable.clone(), existing);
                let name = self.values[existing].1.clone();
                proof {
                    assert(self@.values =~= before.values);
                    assert(self@.constants =~= before.constants);
                }
                (current_variable.clone(), Some(name))
            },
            None => {
                let at = self.values.len();
                let name_for_table = if is_overwritten {
                    suffixed_name(current_variable, (self.counter + 1) as u64)
                } else {
                    current_variable.clone()
                };
                let name = name_for_table.clone();
                self.values.push((value, name_for_table));
                if is_overwritten {
                    self.counter += 1;
                }
                match constant {
                    Some(c) => {
                        self.constant_folder.insert(at, c);
                    },
                    None => {},
                }
                self.variables_to_values.insert(current_variable.clone(), at);
                proof {
                    let after = before.add(
                        value@,
                        literal_option_view(constant),
                        current_variable@,
                        is_overwritten,
                    ).0;
                    assert(self@.values =~= after.values);
                    assert(self@.constants =~= after.constants);
                    assert(self@.variables =~= after.variables);
                }
                (name, None)
            },
        }
    }

    /// The position of the value that `variable` holds now, if it has one.
    pub fn get_value(&self, variable: &String) -> (r: Option<usize>)
        ensures
            r == if self@.variables.contains_key(variable@) {
                Some(self@.variables[variable@])
            } else {
                None
            },
    {
        match self.variables_to_values.get(variable.as_str()) {
            Some(i) => Some(*i),
            None => None,
        }
    }

    /// What stands for `variable` as an argument.
    pub fn argument(&self, variable: &String) -> (r: OpArg)
        ensures
            r@ == self@.arg_of(variable@),
    {
        match self.get_value(variable) {
            Some(i) => OpArg::Value(i),
            None => OpArg::Unknown(variable.clone()),
        }
    }

    /// The variable that holds the argument's value.
    pub fn get_canonical_name(&self, value: &OpArg) -> (r: String)
        requires
            value@ is Value ==> value@->Value_0 < self@.values.len(),
        ensures
            r@ == self@.canonical_name(value@),
    {
        match value {
            OpArg::Value(i) => self.values[*i].1.clone(),
            OpArg::Unknown(other) => other.clone(),
        }
    }

    /// The literal that the argument is known to be, if any.
    pub fn get_constant(&self, value: &OpArg) -> (r: Option<&Literal>)
        ensures
            literal_ref_view(r) == self@.constant_of(value@),
    {
        match value {
            OpArg::Value(i) => self.constant_folder.get(i),
            OpArg::Unknown(_) => None,
        }
    }
}

/// The view of an optional literal.
pub open spec fn literal_option_view(l: Option<Literal>) -> Option<LiteralView> {
    match l {
        Some(x) => Some(x@),
        None => None,
    }
}

/// The view of an optional borrowed literal.
pub open spec fn literal_ref_view(l: Option<&Literal>) -> Option<LiteralView> {
    match l {
        Some(x) => Some(x@),
        None => None,
    }
}

/// What stands for each of the variables `args` as an argument.
pub open spec fn op_args(t: TableView, args: Seq<Seq<char>>) -> Seq<OpArgView> {
    Seq::new(args.len(), |i: int| t.arg_of(args[i]))
}

/// The variables that hold the values of `args`.
pub open spec fn arg_names(t: TableView, args: Seq<OpArgView>) -> Seq<Seq<char>> {
    Seq::new(args.len(), |i: int| t.canonical_name(args[i]))
}

/// The literals that `args` are known to be.
pub open spec fn arg_constants(t: TableView, args: Seq<OpArgView>) -> Seq<Option<LiteralView>> {
    Seq::new(args.len(), |i: int| t.constant_of(args[i]))
}

/// The sum of `s`, added up from the left, where every element is a known
/// integer and no partial sum leaves the range of 64-bit integers.
pub open spec fn checked_sum(s: Seq<Option<LiteralView>>) -> Option<i64>
    decreases s.len(),
{
    if s.len() == 0 {
        Some(0i64)
    } else {
        match (checked_sum(s.drop_last()), s.last()) {
            (Some(a), Some(LiteralView::Int(x))) => if i64::MIN <= a + x <= i64::MAX {
                Some((a + x) as i64)
            } else {
                None
            },
            _ => None,
        }
    }
}

/// The literal that `op` gives on arguments known as `constants`, where
/// folding applies: the sum, for an integer addition whose arguments are all
/// known integers and whose partial sums all stay in range.
pub open spec fn fold(op: ValueOp, constants: Seq<Option<LiteralView>>) -> Option<LiteralView> {
    if op == ValueOp::Add {
        match checked_sum(constants) {
            Some(v) => Some(LiteralView::Int(v)),
            None => None,
        }
    } else {
        None
    }
}

/// Whether the destination of the instruction at `i` is defined again
/// later in the block.
pub open spec fn overwritten(code: Seq<InstructionView>, i: int) -> bool {
    exists|j: int| i < j < code.len() && #[trigger] code[j].kill() == code[i].kill()
}

/// The copy of `from` into `dest` that stands for a value found again.
pub open spec fn copy_of(
    dest: Seq<char>,
    from: Seq<char>,
    ty: Type,
    pos: Option<crate::ir::Position>,
) -> InstructionView {
    InstructionView::Value {
        dest,
        op: ValueOp::Id,
        args: seq![from],
        funcs: Seq::empty(),
        labels: Seq::empty(),
        op_type: ty,
        pos,
    }
}

/// What numbering one instruction does to the table, and what becomes of
/// the instruction.
///
/// A constant is a value by its printed literal, apart for floating-point
/// type. An allocation, a call or a `get` is a value of its own. Any other
/// operation is a value by its operation and arguments, those of a
/// commutative operation in order. A value that the table holds already is
/// copied from the variable that holds it; a new sum of known integers
/// becomes a constant; otherwise the instruction stays, its arguments
/// replaced by the variables that hold their values. An effect keeps all but
/// its arguments, which are replaced likewise.
pub open spec fn lvn_step(t: TableView, later: bool, instruction: InstructionView) -> (
    TableView,
    InstructionView,
) {
    match instruction {
        InstructionView::Constant { dest, const_type, value, pos } => {
            let key = if const_type == Type::Float {
                ValueView::Float(literal_text(value))
            } else {
                ValueView::OtherConst(literal_text(value))
            };
            let (t2, name, found) = t.add(key, Some(value), dest, later);
            match found {
                Some(from) => (t2, copy_of(name, from, const_type, pos)),
                None => (t2, InstructionView::Constant { dest: name, const_type, value, pos }),
            }
        },
        InstructionView::Value { dest, op, args, funcs, labels, op_type, pos } => {
            let raw = op_args(t, args);
            if opaque_op(op) {
                let (t2, name, found) = t.add(
                    ValueView::Opaque(t.values.len() as usize),
                    None,
                    dest,
                    later,
                );
                (
                    t2,
                    InstructionView::Value {
                        dest: name,
                        op,
                        args: arg_names(t2, raw),
                        funcs,
                        labels,
                        op_type,
                        pos,
                    },
                )
            } else {
                let key_args = if commutative(op) {
                    sort_args(raw)
                } else {
                    raw
                };
                let folded = fold(op, arg_constants(t, key_args));
                let (t2, name, found) = t.add(ValueView::Op(op, key_args), folded, dest, later);
                match found {
                    Some(from) => (t2, copy_of(name, from, op_type, pos)),
                    None => match folded {
                        Some(literal) => (
                            t2,
                            InstructionView::Constant {
                                dest: name,
                                const_type: op_type,
                                value: literal,
                                pos,
                            },
                        ),
                        None => (
                            t2,
                            InstructionView::Value {
                                dest: name,
                                op,
                                args: arg_names(t2, key_args),
                                funcs,
                                labels,
                                op_type,
                                pos,
                            },
                        ),
                    },
                }
            }
        },
        InstructionView::Effect { op, args, funcs, labels, pos } => (
            t,
            InstructionView::Effect { op, args: arg_names(t, op_args(t, args)), funcs, labels, pos },
        ),
    }
}

/// The table after the first `upto` instructions of `code`, and what has
/// become of them.
pub open spec fn lvn_run(code: Seq<InstructionView>, upto: int) -> (TableView, Seq<InstructionView>)
    decreases upto,
{
    if upto <= 0 {
        (TableView::empty(), Seq::empty())
    } else {
        let (t, out) = lvn_run(code, upto - 1);
        let (t2, i2) = lvn_step(t, overwritten(code, upto - 1), code[upto - 1]);
        (t2, out.push(i2))
    }
}

/// What local value numbering makes of the instructions of a block.
pub open spec fn lvn_code(code: Seq<InstructionView>) -> Seq<InstructionView> {
    lvn_run(code, code.len() as int).1
}

/// Whether every position among `args` is below `len`.
pub open spec fn args_within(args: Seq<OpArgView>, len: int) -> bool {
    forall|j: int|
        0 <= j < args.len() && (#[trigger] args[j]) is Value ==> args[j]->Value_0 < len
}

/// Putting an argument in order adds it and loses none.
pub proof fn lemma_insert_within(s: Seq<OpArgView>, x: OpArgView, len: int)
    requires
        args_within(s, len),
        x is Value ==> x->Value_0 < len,
    ensures
        args_within(insert_sorted(s, x), len),
        insert_sorted(s, x).len() == s.len() + 1,
    decreases s.len(),
{
    if s.len() > 0 && precedes(x, s.last()) {
        assert(args_within(s.drop_last(), len)) by {
            assert forall|j: int|
                0 <= j < s.drop_last().len() && (#[trigger] s.drop_last()[j]) is Value implies s.drop_last()[j]->Value_0
                < len by {
                assert(s.drop_last()[j] == s[j]);
            }
        }
        lemma_insert_within(s.drop_last(), x, len);
        let r = insert_sorted(s.drop_last(), x).push(s.last());
        assert forall|j: int| 0 <= j < r.len() && (#[trigger] r[j]) is Value implies r[j]->Value_0
            < len by {
            if j < r.len() - 1 {
                assert(r[j] == insert_sorted(s.drop_last(), x)[j]);
            } else {
                assert(r[j] == s[s.len() - 1]);
            }
        }
    } else {
        let r = s.push(x);
        assert forall|j: int| 0 <= j < r.len() && (#[trigger] r[j]) is Value implies r[j]->Value_0
            < len by {
            if j < s.len() {
                assert(r[j] == s[j]);
            }
        }
    }
}

/// Putting arguments in order keeps their positions within the table.
pub proof fn lemma_sort_within(s: Seq<OpArgView>, len: int)
    requires
        args_within(s, len),
    ensures
        args_within(sort_args(s), len),
        sort_args(s).len() == s.len(),
    decreases s.len(),
{
    if s.len() > 0 {
        assert(args_within(s.drop_last(), len)) by {
            assert forall|j: int|
                0 <= j < s.drop_last().len() && (#[trigger] s.drop_last()[j]) is Value implies s.drop_last()[j]->Value_0
                < len by {
                assert(s.drop_last()[j] == s[j]);
            }
        }
        lemma_sort_within(s.drop_last(), len);
        assert(s.last() == s[s.len() - 1]);
        lemma_insert_within(sort_args(s.drop_last()), s.last(), len);
    }
}

/// What stands for each of the variables `args` as an argument.
pub fn arguments(table: &ValueTable, args: &Vec<String>) -> (r: Vec<OpArg>)
    requires
        table@.wf(),
    ensures
        arg_views(r@) == op_args(table@, texts(args@)),
        args_within(arg_views(r@), table@.values.len() as int),
{
    let mut out: Vec<OpArg> = Vec::new();
    let mut i: usize = 0;
    while i < args.len()
        invariant
            i <= args@.len(),
            out@.len() == i,
            table@.wf(),
            forall|j: int| 0 <= j < i ==> (#[trigger] out@[j])@ == table@.arg_of(args@[j]@),
        decreases args@.len() - i,
    {
        out.push(table.argument(&args[i]));
        i += 1;
    }
    assert(arg_views(out@) =~= op_args(table@, texts(args@)));
    assert forall|j: int|
        0 <= j < arg_views(out@).len() && (#[trigger] arg_views(out@)[j]) is Value implies arg_views(
        out@,
    )[j]->Value_0 < table@.values.len() by {
        assert(out@[j]@ == table@.arg_of(args@[j]@));
    }
    out
}

/// The variables that hold the values of `args`.
pub fn names_of(table: &ValueTable, args: &Vec<OpArg>) -> (r: Vec<String>)
    requires
        args_within(arg_views(args@), table@.values.len() as int),
    ensures
        texts(r@) == arg_names(table@, arg_views(args@)),
{
    let mut out: Vec<String> = Vec::new();
    let mut i: usize = 0;
    while i < args.len()
        invariant
            i <= args@.len(),
            out@.len() == i,
            args_within(arg_views(args@), table@.values.len() as int),
            forall|j: int|
                0 <= j < i ==> (#[trigger] out@[j])@ == table@.canonical_name(args@[j]@),
        decreases args@.len() - i,
    {
        assert(arg_views(args@)[i as int] == args@[i as int]@);
        out.push(table.get_canonical_name(&args[i]));
        i += 1;
    }
    assert(texts(out@) =~= arg_names(table@, arg_views(args@)));
    out
}

/// The literal that `op` gives on `args`, where folding applies.
pub fn fold_constants(table: &ValueTable, op: ValueOp, args: &Vec<OpArg>) -> (r: Option<Literal>)
    ensures
        literal_option_view(r) == fold(op, arg_constants(table@, arg_views(args@))),
{
    match op {
        ValueOp::Add => {},
        _ => {
            return None;
        },
    }
    let ghost constants = arg_constants(table@, arg_views(args@));
    let mut sum: i64 = 0;
    let mut i: usize = 0;
    assert(constants.take(0) =~= Seq::<Option<LiteralView>>::empty());
    while i < args.len()
        invariant
            i <= args@.len(),
            constants == arg_constants(table@, arg_views(args@)),
            checked_sum(constants.take(i as int)) == Some(sum),
        decreases args@.len() - i,
    {
        proof {
            assert(constants.take(i + 1).drop_last() =~= constants.take(i as int));
            assert(constants.take(i + 1).last() == constants[i as int]);
            assert(constants[i as int] == table@.constant_of(args@[i as int]@));
        }
        let next = match table.get_constant(&args[i]) {
            Some(Literal::Int(x)) => sum.checked_add(*x),
            _ => None,
        };
        match next {
            Some(v) => {
                sum = v;
            },
            None => {
                proof {
                    lemma_checked_sum_fails(constants, i + 1);
                }
                return None;
            },
        }
        i += 1;
    }
    assert(constants.take(args@.len() as int) =~= constants);
    Some(Literal::Int(sum))
}

/// A sum that fails on a prefix fails on the whole.
pub proof fn lemma_checked_sum_fails(s: Seq<Option<LiteralView>>, upto: int)
    requires
        0 <= upto <= s.len(),
        checked_sum(s.take(upto)) is None,
    ensures
        checked_sum(s) is None,
    decreases s.len() - upto,
{
    if upto == s.len() {
        assert(s.take(upto) =~= s);
    } else {
        assert(s.take(upto + 1).drop_last() =~= s.take(upto));
        lemma_checked_sum_fails(s, upto + 1);
    }
}

/// Numbers one instruction: see [`lvn_step`].
pub fn lvn_instruction(table: &mut ValueTable, instruction: &Instruction, is_overwritten: bool) -> (r:
    Instruction)
    requires
        old(table)@.wf(),
        old(table)@.values.len() < usize::MAX,
    ensures
        final(table)@.wf(),
        final(table)@.values.len() <= old(table)@.values.len() + 1,
        final(table)@ == lvn_step(old(table)@, is_overwritten, instruction@).0,
        r@ == lvn_step(old(table)@, is_overwritten, instruction@).1,
{
    let ghost t = table@;
    match instruction {
        Instruction::Constant { dest, const_type, value, pos } => {
            let text = value.text();
            let key = if const_type.is_float() {
                Value::Float(text)
            } else {
                Value::OtherConst(text)
            };
            let (name, found) = table.add_value_and_get_existing_variable(
                key,
                Some(value.dup()),
                dest,
                is_overwritten,
            );
            match found {
                Some(from) => {
                    let mut args: Vec<String> = Vec::new();
                    args.push(from);
                    let r = Instruction::Value {
                        dest: name,
                        op: ValueOp::Id,
                        args,
                        funcs: Vec::new(),
                        labels: Vec::new(),
                        op_type: const_type.dup(),
                        pos: *pos,
                    };
                    assert(r@->Value_args =~= seq![from@]);
                    assert(r@->Value_funcs =~= Seq::<Seq<char>>::empty());
                    assert(r@->Value_labels =~= Seq::<Seq<char>>::empty());
                    r
                },
                None => Instruction::Constant {
                    dest: name,
                    const_type: const_type.dup(),
                    value: value.dup(),
                    pos: *pos,
                },
            }
        },
        Instruction::Value { dest, op, args, funcs, labels, op_type, pos } => {
            let raw = arguments(table, args);
            if op.is_opaque() {
                let tag = table.values.len();
                let (name, _found) = table.add_value_and_get_existing_variable(
                    Value::Opaque(tag),
                    None,
                    dest,
                    is_overwritten,
                );
                proof {
                    lemma_first_index(t.values, ValueView::Opaque(tag));
                    assert(args_within(arg_views(raw@), table@.values.len() as int));
                }
                let new_args = names_of(table, &raw);
                Instruction::Value {
                    dest: name,
                    op: *op,
                    args: new_args,
                    funcs: dup_names(funcs),
                    labels: dup_names(labels),
                    op_type: op_type.dup(),
                    pos: *pos,
                }
            } else {
                let key_args = if op.is_commutative() {
                    proof {
                        lemma_sort_within(arg_views(raw@), t.values.len() as int);
                    }
                    sorted_args(&raw)
                } else {
                    raw
                };
                let folded = fold_constants(table, *op, &key_args);
                let folded_copy = match &folded {
                    Some(l) => Some(l.dup()),
                    None => None,
                };
                let (name, found) = table.add_value_and_get_existing_variable(
                    Value::Op(*op, dup_args(&key_args)),
                    folded,
                    dest,
                    is_overwritten,
                );
                match found {
                    Some(from) => {
                        let mut args: Vec<String> = Vec::new();
                        args.push(from);
                        let r = Instruction::Value {
                            dest: name,
                            op: ValueOp::Id,
                            args,
                            funcs: Vec::new(),
                            labels: Vec::new(),
                            op_type: op_type.dup(),
                            pos: *pos,
                        };
                        assert(r@->Value_args =~= seq![from@]);
                        assert(r@->Value_funcs =~= Seq::<Seq<char>>::empty());
                        assert(r@->Value_labels =~= Seq::<Seq<char>>::empty());
                        r
                    },
                    None => match folded_copy {
                        Some(literal) => Instruction::Constant {
                            dest: name,
                            const_type: op_type.dup(),
                            value: literal,
                            pos: *pos,
                        },
                        None => {
                            proof {
                                assert(args_within(
                                    arg_views(key_args@),
                                    table@.values.len() as int,
                                ));
                            }
                            let new_args = names_of(table, &key_args);
                            Instruction::Value {
                                dest: name,
                                op: *op,
                                args: new_args,
                                funcs: dup_names(funcs),
                                labels: dup_names(labels),
                                op_type: op_type.dup(),
                                pos: *pos,
                            }
                        },
                    },
                }
            }
        },
        Instruction::Effect { op, args, funcs, labels, pos } => {
            let raw = arguments(table, args);
            let new_args = names_of(table, &raw);
            Instruction::Effect {
                op: *op,
                args: new_args,
                funcs: dup_names(funcs),
                labels: dup_names(labels),
                pos: *pos,
            }
        },
    }
}

/// Whether `last` holds, for each variable that `code` defines, the
/// position of its last definition.
pub open spec fn last_positions(code: Seq<InstructionView>, last: Map<Seq<char>, usize>) -> bool {
    &&& forall|j: int|
        0 <= j < code.len() && (#[trigger] code[j]).kill() is Some ==> last.contains_key(
            code[j].kill()->0,
        ) && j <= last[code[j].kill()->0]
    &&& forall|d: Seq<char>| #[trigger]
        last.contains_key(d) ==> last[d] < code.len() && code[last[d] as int].kill() == Some(d)
}

/// For each variable that the block defines, the position of its last
/// definition.
pub fn last_assignments(instructions: &Vec<Instruction>) -> (last: StringHashMap<usize>)
    ensures
        last_positions(crate::ir::views(instructions@), last@),
{
    let ghost code = crate::ir::views(instructions@);
    let mut last: StringHashMap<usize> = StringHashMap::new();
    let mut i: usize = 0;
    while i < instructions.len()
        invariant
            i <= instructions@.len(),
            code == crate::ir::views(instructions@),
            last_positions(code.take(i as int), last@),
        decreases instructions@.len() - i,
    {
        let ghost before = last@;
        match &instructions[i] {
            Instruction::Constant { dest, .. } => {
                last.insert(dest.clone(), i);
            },
            Instruction::Value { dest, .. } => {
                last.insert(dest.clone(), i);
            },
            Instruction::Effect { .. } => {},
        }
        proof {
            let pre = code.take(i as int);
            let post = code.take(i + 1);
            assert(post =~= pre.push(code[i as int]));
            assert forall|j: int|
                0 <= j < post.len() && (#[trigger] post[j]).kill() is Some implies last@.contains_key(
                post[j].kill()->0,
            ) && j <= last@[post[j].kill()->0] by {
                if j < i {
                    assert(pre[j] == post[j]);
                    assert(before.contains_key(pre[j].kill()->0));
                }
            }
            assert forall|d: Seq<char>| #[trigger] last@.contains_key(d) implies last@[d]
                < post.len() && post[last@[d] as int].kill() == Some(d) by {
                if code[i as int].kill() == Some(d) {
                } else {
                    assert(before.contains_key(d));
                    assert(pre[before[d] as int] == post[before[d] as int]);
                }
            }
        }
        i += 1;
    }
    assert(code.take(instructions@.len() as int) =~= code);
    last
}

/// The last position of a variable is after a definition of it exactly when
/// that definition is overwritten.
pub proof fn lemma_overwritten(code: Seq<InstructionView>, last: Map<Seq<char>, usize>, i: int)
    requires
        last_positions(code, last),
        0 <= i < code.len(),
        code[i].kill() is Some,
    ensures
        last.contains_key(code[i].kill()->0),
        (last[code[i].kill()->0] > i) == overwritten(code, i),
{
    let d = code[i].kill()->0;
    if last[d] > i {
        assert(code[last[d] as int].kill() == code[i].kill());
    }
    if overwritten(code, i) {
        let j = choose|j: int| i < j < code.len() && #[trigger] code[j].kill() == code[i].kill();
        assert(j <= last[code[j].kill()->0]);
    }
}

/// Whether numbering has kept the kind of an instruction: an effect is
/// still the same effect on as many arguments and the same labels; a
/// definition is still a definition.
pub open spec fn kind_kept(before: InstructionView, after: InstructionView) -> bool {
    match (before, after) {
        (
            InstructionView::Effect { op, args, funcs, labels, pos },
            InstructionView::Effect { op: op2, args: args2, funcs: funcs2, labels: labels2, pos: pos2 },
        ) => op == op2 && args.len() == args2.len() && funcs == funcs2 && labels == labels2 && pos
            == pos2,
        (InstructionView::Effect { .. }, _) => false,
        (_, InstructionView::Effect { .. }) => false,
        _ => true,
    }
}

/// Numbering keeps the number of instructions and the kind of each.
pub proof fn lemma_run_kinds(code: Seq<InstructionView>, upto: int)
    requires
        0 <= upto <= code.len(),
    ensures
        lvn_run(code, upto).1.len() == upto,
        forall|j: int| 0 <= j < upto ==> kind_kept(code[j], #[trigger] lvn_run(code, upto).1[j]),
    decreases upto,
{
    if upto > 0 {
        lemma_run_kinds(code, upto - 1);
        let (t, out) = lvn_run(code, upto - 1);
        let (t2, i2) = lvn_step(t, overwritten(code, upto - 1), code[upto - 1]);
        assert(lvn_run(code, upto).1 == out.push(i2));
        assert(kind_kept(code[upto - 1], i2));
        assert forall|j: int| 0 <= j < upto implies kind_kept(
            code[j],
            #[trigger] lvn_run(code, upto).1[j],
        ) by {
            if j < upto - 1 {
                assert(lvn_run(code, upto).1[j] == out[j]);
            }
        }
    }
}

/// Numbering with a refreshed exit keeps a block's instructions in
/// agreement with its exit.
pub proof fn lemma_lvn_terminated(before: BasicBlock, after: BasicBlock)
    requires
        before.terminated(),
        after.code() == lvn_code(before.code()),
        exit_refreshed(before.exit, after.exit, after.code()),
    ensures
        after.terminated(),
{
    let code = before.code();
    let out = after.code();
    lemma_run_kinds(code, code.len() as int);
    assert forall|i: int| 0 <= i < out.len() implies crate::cfg::is_terminator(out[i])
        == crate::cfg::is_terminator(code[i]) by {
        assert(kind_kept(code[i], out[i]));
    }
    if !(before.exit is Fallthrough) {
        assert(kind_kept(code[code.len() - 1], out[out.len() - 1]));
        assert(crate::cfg::is_terminator(code.last()));
        match before.exit {
            LabeledExit::Conditional { .. } => {
                assert(out.last()->Effect_args =~= seq![after.exit->Conditional_condition@]);
            },
            LabeledExit::Return(Some(v)) => {
                assert(out.last()->Effect_args =~= seq![after.exit->Return_0->0@]);
            },
            _ => {},
        }
    }
}

/// Local value numbering of one block.
///
/// The instructions become what [`lvn_code`] makes of them: values computed
/// before are copied, sums of known integers become constants, arguments are
/// replaced by the variables that hold their values, and a definition that is
/// overwritten later in the block gets a fresh name. The operand of the
/// block's exit follows its terminator.
pub fn lvn(block: &mut BasicBlock)
    ensures
        final(block).code() == lvn_code(old(block).code()),
        final(block).label == old(block).label,
        final(block).is_entry == old(block).is_entry,
        exit_refreshed(old(block).exit, final(block).exit, final(block).code()),
        old(block).terminated() ==> final(block).terminated(),
{
    let ghost before = *block;
    let ghost code = block.code();
    let mut table = ValueTable::new();
    let last = last_assignments(&block.instructions);
    let n = block.instructions.len();
    let mut i: usize = 0;
    assert(block.code().take(0) =~= lvn_run(code, 0).1);
    while i < n
        invariant
            i <= n,
            n == code.len(),
            block.instructions@.len() == n,
            code == before.code(),
            last_positions(code, last@),
            block.label == before.label,
            block.is_entry == before.is_entry,
            block.exit == before.exit,
            table@.wf(),
            table@.values.len() <= i,
            table@ == lvn_run(code, i as int).0,
            block.code().take(i as int) == lvn_run(code, i as int).1,
            forall|j: int| i <= j < n ==> (#[trigger] block.instructions@[j])@ == code[j],
        decreases n - i,
    {
        let ghost cur = block.instructions@;
        let is_overwritten = match &block.instructions[i] {
            Instruction::Constant { dest, .. } => match last.get(dest.as_str()) {
                Some(at) => *at > i,
                None => false,
            },
            Instruction::Value { dest, .. } => match last.get(dest.as_str()) {
                Some(at) => *at > i,
                None => false,
            },
            Instruction::Effect { .. } => false,
        };
        proof {
            assert(block.instructions@[i as int]@ == code[i as int]);
            if code[i as int].kill() is Some {
                lemma_overwritten(code, last@, i as int);
            }
        }
        let ghost later = overwritten(code, i as int);
        proof {
            // an effect is numbered the same way whether or not it counts as overwritten
            assert(lvn_step(table@, is_overwritten, code[i as int]) == lvn_step(
                table@,
                later,
                code[i as int],
            ));
        }
        let new_instruction = lvn_instruction(&mut table, &block.instructions[i], is_overwritten);
        block.instructions[i] = new_instruction;
        proof {
            let now = block.instructions@;
            assert(now == cur.update(i as int, new_instruction));
            crate::cfg::lemma_views_update(cur, i as int, new_instruction);
            let run_before = lvn_run(code, i as int);
            let run_after = lvn_run(code, i + 1);
            assert(run_after.1 == run_before.1.push(new_instruction@));
            assert(block.code().take(i + 1) =~= run_after.1) by {
                assert forall|j: int| 0 <= j < i + 1 implies block.code().take(i + 1)[j]
                    == run_after.1[j] by {
                    if j < i {
                        assert(block.code().take(i + 1)[j] == crate::ir::views(cur).take(
                            i as int,
                        )[j]);
                    }
                }
            }
            assert forall|j: int| i + 1 <= j < n implies (#[trigger] block.instructions@[j])@
                == code[j] by {
                assert(now[j] == cur[j]);
            }
        }
        i += 1;
    }
    proof {
        assert(block.code().take(n as int) =~= block.code());
    }
    refresh_exit(block);
    proof {
        if before.terminated() {
            lemma_lvn_terminated(before, *block);
        }
    }
}

/// Whether `after` is the block `before` with its instructions numbered
/// and the operand of its exit taken anew from its terminator.
pub open spec fn numbered(before: BasicBlock, after: BasicBlock) -> bool {
    &&& after.code() == lvn_code(before.code())
    &&& after.label == before.label
    &&& after.is_entry == before.is_entry
    &&& exit_refreshed(before.exit, after.exit, after.code())
}

impl FunctionCfg {
    /// Local value numbering of the block `k`, with the operand of its
    /// resolved exit following that of its labeled exit.
    fn lvn_at(&mut self, k: BasicBlockIdx)
        requires
            old(self).wf(),
            old(self).has(k),
        ensures
            final(self).wf(),
            final(self).entry == old(self).entry,
            final(self).rev_edges == old(self).rev_edges,
            final(self).signature == old(self).signature,
            final(self).blocks().dom() == old(self).blocks().dom(),
            forall|n: u64|
                n != k.0 && old(self).blocks().dom().contains(n) ==> #[trigger] final(self).blocks()[n] == old(self).blocks()[n] && final(self).edges@[n] == old(self).edges@[n],
            numbered(old(self).blocks()[k.0], final(self).blocks()[k.0]),
            forall|p: BasicBlockIdx| old(self).succ(p) == final(self).succ(p),
    {
        let ghost before = *self;
        proof {
            assert(before.blocks().dom().contains(k.0));
            assert(exit_agrees(before.blocks(), before.blocks()[k.0].exit, before.edges@[k.0]));
        }
        let block = store_get_mut(&mut self.vertices, k);
        lvn(block);
        let operand = match &block.exit {
            LabeledExit::Conditional { condition, .. } => Some(condition.clone()),
            LabeledExit::Return(Some(v)) => Some(v.clone()),
            _ => None,
        };
        let new_edge = match operand {
            Some(v) => match self.edges.get(&k.0) {
                Some(Exit::Conditional { condition: _, if_true, if_false }) => Some(
                    Exit::Conditional { condition: v, if_true: *if_true, if_false: *if_false },
                ),
                Some(Exit::Return(Some(_))) => Some(Exit::Return(Some(v))),
                _ => None,
            },
            None => None,
        };
        match new_edge {
            Some(e) => {
                self.edges.insert(k.0, e);
            },
            None => {},
        }
        proof {
            assert(self.blocks().dom() =~= before.blocks().dom());
            assert(self.edges@.dom() =~= before.edges@.dom());
            assert forall|p: BasicBlockIdx| before.succ(p) == self.succ(p) by {
                if p.0 == k.0 {
                    assert(p == k);
                    assert(before.succ(p) =~= self.succ(p));
                }
            }
            lemma_mirrored_same(before, *self);
            assert(forall|n: u64| #[trigger]
                before.blocks().dom().contains(n) ==> self.blocks()[n].label
                    == before.blocks()[n].label);
            assert forall|n: u64| #[trigger] self.blocks().dom().contains(n) implies exit_agrees(
                self.blocks(),
                self.blocks()[n].exit,
                self.edges@[n],
            ) by {
                assert(before.blocks().dom().contains(n));
                assert(exit_agrees(before.blocks(), before.blocks()[n].exit, before.edges@[n]));
            }
        }
    }

    /// Local value numbering of every block of the function.
    pub fn lvn_blocks(&mut self)
        requires
            old(self).wf(),
        ensures
            final(self).wf(),
            final(self).entry == old(self).entry,
            final(self).rev_edges == old(self).rev_edges,
            final(self).signature == old(self).signature,
            final(self).blocks().dom() == old(self).blocks().dom(),
            forall|n: u64| #[trigger]
                old(self).blocks().dom().contains(n) ==> numbered(
                    old(self).blocks()[n],
                    final(self).blocks()[n],
                ),
            forall|p: BasicBlockIdx| old(self).succ(p) == final(self).succ(p),
            old(self).terminated() ==> final(self).terminated(),
            old(self).labels_unique() ==> final(self).labels_unique(),
    {
        let ghost before = *self;
        let keys = self.keys();
        let mut i: usize = 0;
        while i < keys.len()
            invariant
                i <= keys@.len(),
                before.wf(),
                self.wf(),
                self.entry == before.entry,
                self.rev_edges == before.rev_edges,
                self.signature == before.signature,
                self.blocks().dom() == before.blocks().dom(),
                keys@.no_duplicates(),
                forall|k: BasicBlockIdx| #[trigger] keys@.contains(k) <==> before.has(k),
                forall|p: BasicBlockIdx| before.succ(p) == self.succ(p),
                forall|j: int|
                    0 <= j < i ==> numbered(
                        before.blocks()[(#[trigger] keys@[j]).0],
                        self.blocks()[keys@[j].0],
                    ),
                forall|j: int|
                    i <= j < keys@.len() ==> self.blocks()[(#[trigger] keys@[j]).0]
                        == before.blocks()[keys@[j].0],
            decreases keys@.len() - i,
        {
            let k = keys[i];
            let ghost mid = *self;
            assert(keys@.contains(k));
            self.lvn_at(k);
            proof {
                assert forall|j: int| 0 <= j < i implies numbered(
                    before.blocks()[(#[trigger] keys@[j]).0],
                    self.blocks()[keys@[j].0],
                ) by {
                    assert(keys@[j] != k);
                    assert(keys@.contains(keys@[j]));
                    assert(self.blocks()[keys@[j].0] == mid.blocks()[keys@[j].0]);
                }
                assert forall|j: int| i + 1 <= j < keys@.len() implies self.blocks()[(
                #[trigger] keys@[j]).0] == before.blocks()[keys@[j].0] by {
                    assert(keys@[j] != k);
                    assert(keys@.contains(keys@[j]));
                    assert(self.blocks()[keys@[j].0] == mid.blocks()[keys@[j].0]);
                }
                assert forall|p: BasicBlockIdx| before.succ(p) == self.succ(p) by {
                    assert(mid.succ(p) == self.succ(p));
                }
            }
            i += 1;
        }
        proof {
            assert forall|n: u64| #[trigger] before.blocks().dom().contains(n) implies numbered(
                before.blocks()[n],
                self.blocks()[n],
            ) by {
                let k = BasicBlockIdx(n);
                assert(before.has(k));
                assert(keys@.contains(k));
                let j = choose|j: int| 0 <= j < keys@.len() && keys@[j] == k;
                assert(keys@[j].0 == n);
            }
            if before.terminated() {
                assert forall|n: u64| #[trigger] self.blocks().dom().contains(n) implies self.blocks()[n].terminated() by {
                    assert(before.blocks().dom().contains(n));
                    lemma_lvn_terminated(before.blocks()[n], self.blocks()[n]);
                }
            }
            if before.labels_unique() {
                assert forall|a: u64, b: u64|
                    #![trigger self.blocks()[a], self.blocks()[b]]
                    self.blocks().dom().contains(a) && self.blocks().dom().contains(b) && a != b
                        && self.blocks()[a].label is Some implies self.blocks()[a].label_text()
                        != self.blocks()[b].label_text() by {
                    assert(before.blocks().dom().contains(a));
                    assert(before.blocks().dom().contains(b));
                    assert(before.blocks()[a].label_text() != before.blocks()[b].label_text());
                }
            }
        }
    }
}

} // verus!
