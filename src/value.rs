use vstd::prelude::*;

verus! {

/// Identifier of a symbol: an index into the global store.
pub type SymbolId = u32;

/// A literal value. A float is held as its IEEE-754 bit pattern.
#[derive(Debug)]
pub enum Literal {
    Nil,
    Int(i64),
    Float(u64),
    Str(String),
}

/// One instruction of a compiled function.
#[derive(Clone, Copy, PartialEq, Eq, Structural, Debug)]
pub enum Instr {
    /// Push the value of a global slot.
    Load(SymbolId),
    /// Apply the function or primitive held in a global slot.
    App(SymbolId),
    /// Pop the top of the stack into a global slot.
    Store(SymbolId),
}

/// A compiled unit: an ordered sequence of instructions.
#[derive(Debug)]
pub struct Func {
    pub instrs: Vec<Instr>,
}

/// The built-in primitives.
#[derive(Clone, Copy, PartialEq, Eq, Structural, Debug)]
pub enum Magic {
    Add,
    Sub,
    Mul,
    Div,
    Mod,
    Eq,
    Neq,
    Lt,
    Gt,
    Leq,
    Geq,
    And,
    Or,
    Not,
    Neg,
    Print,
    Println,
    Read,
    Readln,
    Exit,
}

/// A value of the language. The two halves of a pair are global slots, so a
/// pair shares its children with every other holder of those slots.
#[derive(Debug)]
pub enum Value {
    Lit(Literal),
    Cons(SymbolId, SymbolId),
    Magic(Magic),
    Func(Func),
}

/// The mathematical model of a literal.
pub enum LitV {
    Nil,
    Int(i64),
    Float(u64),
    Str(Seq<char>),
}

/// The mathematical model of a value.
pub enum Val {
    Lit(LitV),
    Cons(SymbolId, SymbolId),
    Magic(Magic),
    Func(Seq<Instr>),
}

impl View for Literal {
    type V = LitV;

    open spec fn view(&self) -> LitV {
        match self {
            Literal::Nil => LitV::Nil,
            Literal::Int(n) => LitV::Int(*n),
            Literal::Float(b) => LitV::Float(*b),
            Literal::Str(s) => LitV::Str(s@),
        }
    }
}

impl View for Value {
    type V = Val;

    open spec fn view(&self) -> Val {
        match self {
            Value::Lit(l) => Val::Lit(l@),
            Value::Cons(a, b) => Val::Cons(*a, *b),
            Value::Magic(m) => Val::Magic(*m),
            Value::Func(f) => Val::Func(f.instrs@),
        }
    }
}

impl Instr {
    /// The symbol an instruction refers to.
    pub open spec fn id(self) -> SymbolId {
        match self {
            Instr::Load(i) => i,
            Instr::App(i) => i,
            Instr::Store(i) => i,
        }
    }
}

/// Copies a sequence of instructions.
pub fn copy_instrs(v: &Vec<Instr>) -> (r: Vec<Instr>)
    ensures
        r@ == v@,
{
    let mut r: Vec<Instr> = Vec::new();
    let mut i: usize = 0;
    while i < v.len()
        invariant
            i <= v@.len(),
            r@ == v@.subrange(0, i as int),
        decreases v@.len() - i,
    {
        r.push(v[i]);
        i = i + 1;
    }
    assert(r@ =~= v@);
    r
}

/// Copies a literal.
pub fn copy_literal(l: &Literal) -> (r: Literal)
    ensures
        r@ == l@,
{
    match l {
        Literal::Nil => Literal::Nil,
        Literal::Int(n) => Literal::Int(*n),
        Literal::Float(b) => Literal::Float(*b),
        Literal::Str(s) => Literal::Str(s.clone()),
    }
}

/// Copies a value; the copy has the same model.
pub fn copy_value(v: &Value) -> (r: Value)
    ensures
        r@ == v@,
{
    match v {
        Value::Lit(l) => Value::Lit(copy_literal(l)),
        Value::Cons(a, b) => Value::Cons(*a, *b),
        Value::Magic(m) => Value::Magic(*m),
        Value::Func(f) => {
            Value::Func(Func { instrs: copy_instrs(&f.instrs) })
        },
    }
}

} // verus!
