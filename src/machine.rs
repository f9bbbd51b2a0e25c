use vstd::prelude::*;
use crate::value::{Func, Instr, LitV, Literal, Magic, Val, Value, copy_instrs, copy_value};
use crate::vm::{Frame, VM, instrs_in_store, val_in_store};

verus! {

/// Errors raised while running a function.
#[derive(Clone, Copy, PartialEq, Eq, Structural, Debug)]
pub enum RuntimeError {
    StackUnderflow,
    UndefinedApplication,
    TypeMismatch,
    DivisionByZero,
    InputExhausted,
}

/// A numeric operand.
#[derive(Clone, Copy, PartialEq, Eq, Structural, Debug)]
pub enum Num {
    Int(i64),
    Float(u64),
}

/// Work that only the host can do: output, input, leaving the process, and
/// floating-point arithmetic.
#[derive(Debug)]
pub enum Effect {
    /// Write the rendering of a value.
    Print(Value),
    /// Write the rendering of a value and a line break.
    Println(Value),
    /// Read one token and push it.
    Read,
    /// Read one line and push it as a string.
    Readln,
    /// Flush output and terminate with this code.
    Exit(i64),
    /// Apply a primitive to two numbers, at least one of them a float, and
    /// push the result; the operands have been popped.
    Float(Magic, Num, Num),
}

/// What one step of the machine did.
#[derive(Debug)]
pub enum Step {
    /// An instruction ran; there is more to do.
    Continue,
    /// No call frame is left.
    Done,
    /// The running top-level function was aborted; all frames are gone.
    Failed(RuntimeError),
    /// The host must perform this effect before the machine goes on.
    Effect(Effect),
}

/// The result of a primitive on its operands, before it touches the stack.
pub enum Outcome {
    Push(Val),
    Fail(RuntimeError),
    Float(Num, Num),
}

/// Bit pattern of the sign of a 64-bit float.
pub const SIGN_BIT: u64 = 0x8000_0000_0000_0000;

/// How many operands a primitive pops.
pub open spec fn arity(m: Magic) -> nat {
    match m {
        Magic::Read | Magic::Readln => 0,
        Magic::Not | Magic::Neg | Magic::Print | Magic::Println | Magic::Exit => 1,
        _ => 2,
    }
}

/// Nil and integer zero are false; every other value is true.
pub open spec fn truthy(v: Val) -> bool {
    v != Val::Lit(LitV::Nil) && v != Val::Lit(LitV::Int(0))
}

/// Truth values are the integers 1 and 0.
pub open spec fn bool_val(b: bool) -> Val {
    Val::Lit(LitV::Int(if b { 1 } else { 0 }))
}

pub open spec fn num_of(v: Val) -> Option<Num> {
    match v {
        Val::Lit(LitV::Int(n)) => Some(Num::Int(n)),
        Val::Lit(LitV::Float(b)) => Some(Num::Float(b)),
        _ => None,
    }
}

/// Truncating division; the one overflowing case, `i64::MIN / -1`, wraps to
/// `i64::MIN`.
pub open spec fn int_div(a: i64, b: i64) -> i64 {
    match a.checked_div(b) {
        Some(q) => q,
        None => a,
    }
}

/// Remainder of truncating division; `i64::MIN % -1` is 0.
pub open spec fn int_rem(a: i64, b: i64) -> i64 {
    match a.checked_rem(b) {
        Some(r) => r,
        None => 0,
    }
}

/// A binary primitive on two integers.
pub open spec fn int_binary(m: Magic, a: i64, b: i64) -> Outcome {
    match m {
        Magic::Add => Outcome::Push(Val::Lit(LitV::Int(a.wrapping_add(b)))),
        Magic::Sub => Outcome::Push(Val::Lit(LitV::Int(a.wrapping_sub(b)))),
        Magic::Mul => Outcome::Push(Val::Lit(LitV::Int(a.wrapping_mul(b)))),
        Magic::Div => if b == 0 {
            Outcome::Fail(RuntimeError::DivisionByZero)
        } else {
            Outcome::Push(Val::Lit(LitV::Int(int_div(a, b))))
        },
        Magic::Mod => if b == 0 {
            Outcome::Fail(RuntimeError::DivisionByZero)
        } else {
            Outcome::Push(Val::Lit(LitV::Int(int_rem(a, b))))
        },
        Magic::Eq => Outcome::Push(bool_val(a == b)),
        Magic::Neq => Outcome::Push(bool_val(a != b)),
        Magic::Lt => Outcome::Push(bool_val(a < b)),
        Magic::Gt => Outcome::Push(bool_val(a > b)),
        Magic::Leq => Outcome::Push(bool_val(a <= b)),
        _ => Outcome::Push(bool_val(a >= b)),
    }
}

/// Equality of two non-numeric values: strings and nil by content, pairs by
/// their slots, primitives by kind, functions by their instructions.
pub open spec fn plain_equal(a: Val, b: Val) -> bool {
    match (a, b) {
        (Val::Lit(LitV::Nil), Val::Lit(LitV::Nil)) => true,
        (Val::Lit(LitV::Str(x)), Val::Lit(LitV::Str(y))) => x == y,
        (Val::Cons(x1, y1), Val::Cons(x2, y2)) => x1 == x2 && y1 == y2,
        (Val::Magic(x), Val::Magic(y)) => x == y,
        (Val::Func(x), Val::Func(y)) => x == y,
        _ => false,
    }
}

/// A primitive of two operands; `a` was pushed first, `b` is the top.
pub open spec fn binary_outcome(m: Magic, a: Val, b: Val) -> Outcome {
    if m == Magic::And {
        Outcome::Push(bool_val(truthy(a) && truthy(b)))
    } else if m == Magic::Or {
        Outcome::Push(bool_val(truthy(a) || truthy(b)))
    } else {
        match (num_of(a), num_of(b)) {
            (Some(Num::Int(x)), Some(Num::Int(y))) => int_binary(m, x, y),
            (Some(x), Some(y)) => Outcome::Float(x, y),
            _ => if m == Magic::Eq {
                Outcome::Push(bool_val(plain_equal(a, b)))
            } else if m == Magic::Neq {
                Outcome::Push(bool_val(!plain_equal(a, b)))
            } else {
                Outcome::Fail(RuntimeError::TypeMismatch)
            },
        }
    }
}

/// `Not` and `Neg` on their operand.
pub open spec fn unary_outcome(m: Magic, a: Val) -> Outcome {
    if m == Magic::Not {
        Outcome::Push(bool_val(!truthy(a)))
    } else {
        match a {
            Val::Lit(LitV::Int(n)) => Outcome::Push(Val::Lit(LitV::Int(0i64.wrapping_sub(n)))),
            Val::Lit(LitV::Float(b)) => Outcome::Push(Val::Lit(LitV::Float(b ^ SIGN_BIT))),
            _ => Outcome::Fail(RuntimeError::TypeMismatch),
        }
    }
}

pub open spec fn is_binary(m: Magic) -> bool {
    arity(m) == 2
}

/// The exec counterpart of an `Outcome`.
pub enum Applied {
    Push(Value),
    Fail(RuntimeError),
    Float(Num, Num),
}

pub open spec fn applied_is(r: Applied, o: Outcome) -> bool {
    match (r, o) {
        (Applied::Push(v), Outcome::Push(w)) => v@ == w,
        (Applied::Fail(e), Outcome::Fail(f)) => e == f,
        (Applied::Float(x, y), Outcome::Float(a, b)) => x == a && y == b,
        _ => false,
    }
}

fn bool_value(b: bool) -> (r: Value)
    ensures
        r@ == bool_val(b),
{
    Value::Lit(Literal::Int(if b { 1 } else { 0 }))
}

/// Whether a value counts as true.
pub fn is_truthy(v: &Value) -> (r: bool)
    ensures
        r == truthy(v@),
{
    match v {
        Value::Lit(Literal::Nil) => false,
        Value::Lit(Literal::Int(n)) => *n != 0,
        _ => true,
    }
}

fn num_value(v: &Value) -> (r: Option<Num>)
    ensures
        r == num_of(v@),
{
    match v {
        Value::Lit(Literal::Int(n)) => Some(Num::Int(*n)),
        Value::Lit(Literal::Float(b)) => Some(Num::Float(*b)),
        _ => None,
    }
}

fn instrs_eq(a: &Vec<Instr>, b: &Vec<Instr>) -> (r: bool)
    ensures
        r == (a@ == b@),
{
    if a.len() != b.len() {
        return false;
    }
    let mut i: usize = 0;
    while i < a.len()
        invariant
            a@.len() == b@.len(),
            i <= a@.len(),
            forall|k: int| 0 <= k < i ==> a@[k] == b@[k],
        decreases a@.len() - i,
    {
        if a[i] != b[i] {
            return false;
        }
        i = i + 1;
    }
    assert(a@ =~= b@);
    true
}

fn plain_eq(a: &Value, b: &Value) -> (r: bool)
    ensures
        r == plain_equal(a@, b@),
{
    match (a, b) {
        (Value::Lit(Literal::Nil), Value::Lit(Literal::Nil)) => true,
        (Value::Lit(Literal::Str(x)), Value::Lit(Literal::Str(y))) => x.eq(y),
        (Value::Cons(x1, y1), Value::Cons(x2, y2)) => *x1 == *x2 && *y1 == *y2,
        (Value::Magic(x), Value::Magic(y)) => *x == *y,
        (Value::Func(x), Value::Func(y)) => instrs_eq(&x.instrs, &y.instrs),
        _ => false,
    }
}

/// A binary primitive on two integers.
pub fn apply_int(m: Magic, a: i64, b: i64) -> (r: Applied)
    requires
        arity(m) == 2,
        m != Magic::And,
        m != Magic::Or,
    ensures
        applied_is(r, int_binary(m, a, b)),
{
    match m {
        Magic::Add => Applied::Push(Value::Lit(Literal::Int(a.wrapping_add(b)))),
        Magic::Sub => Applied::Push(Value::Lit(Literal::Int(a.wrapping_sub(b)))),
        Magic::Mul => Applied::Push(Value::Lit(Literal::Int(a.wrapping_mul(b)))),
        Magic::Div => if b == 0 {
            Applied::Fail(RuntimeError::DivisionByZero)
        } else {
            let q = match a.checked_div(b) {
                Some(q) => q,
                None => a,
            };
            Applied::Push(Value::Lit(Literal::Int(q)))
        },
        Magic::Mod => if b == 0 {
            Applied::Fail(RuntimeError::DivisionByZero)
        } else {
            let q = match a.checked_rem(b) {
                Some(q) => q,
                None => 0,
            };
            Applied::Push(Value::Lit(Literal::Int(q)))
        },
        Magic::Eq => Applied::Push(bool_value(a == b)),
        Magic::Neq => Applied::Push(bool_value(a != b)),
        Magic::Lt => Applied::Push(bool_value(a < b)),
        Magic::Gt => Applied::Push(bool_value(a > b)),
        Magic::Leq => Applied::Push(bool_value(a <= b)),
        _ => Applied::Push(bool_value(a >= b)),
    }
}

/// A primitive of two operands; `a` was pushed first, `b` is the top.
pub fn apply_binary(m: Magic, a: &Value, b: &Value) -> (r: Applied)
    requires
        arity(m) == 2,
    ensures
        applied_is(r, binary_outcome(m, a@, b@)),
{
    if m == Magic::And {
        return Applied::Push(bool_value(is_truthy(a) && is_truthy(b)));
    }
    if m == Magic::Or {
        return Applied::Push(bool_value(is_truthy(a) || is_truthy(b)));
    }
    match (num_value(a), num_value(b)) {
        (Some(Num::Int(x)), Some(Num::Int(y))) => apply_int(m, x, y),
        (Some(x), Some(y)) => Applied::Float(x, y),
        _ => if m == Magic::Eq {
            Applied::Push(bool_value(plain_eq(a, b)))
        } else if m == Magic::Neq {
            Applied::Push(bool_value(!plain_eq(a, b)))
        } else {
            Applied::Fail(RuntimeError::TypeMismatch)
        },
    }
}

/// `Not` or `Neg` on its operand.
pub fn apply_unary(m: Magic, a: &Value) -> (r: Applied)
    requires
        m == Magic::Not || m == Magic::Neg,
    ensures
        applied_is(r, unary_outcome(m, a@)),
{
    if m == Magic::Not {
        return Applied::Push(bool_value(!is_truthy(a)));
    }
    match a {
        Value::Lit(Literal::Int(n)) => Applied::Push(Value::Lit(Literal::Int(0i64.wrapping_sub(*n)))),
        Value::Lit(Literal::Float(b)) => Applied::Push(Value::Lit(Literal::Float(*b ^ SIGN_BIT))),
        _ => Applied::Fail(RuntimeError::TypeMismatch),
    }
}

/// The running function was aborted: no frame is left, and the stack and the
/// store are as they were.
pub open spec fn aborted(o: VM, n: VM) -> bool {
    &&& n.call_frame@.len() == 0
    &&& n.stack_view() == o.stack_view()
    &&& n.global_view() == o.global_view()
}

/// How a primitive's outcome ends a step: `base` is the stack below its
/// operands, `frames` the call frames with the running one advanced.
pub open spec fn outcome_post(
    o: VM,
    n: VM,
    r: Step,
    m: Magic,
    out: Outcome,
    base: Seq<Val>,
    frames: Seq<(Seq<Instr>, usize)>,
) -> bool {
    match out {
        Outcome::Push(v) => r == Step::Continue && n.stack_view() == base.push(v) && n.frames_view() == frames
            && n.global_view() == o.global_view(),
        Outcome::Fail(e) => r == Step::Failed(e) && aborted(o, n),
        Outcome::Float(x, y) => r == Step::Effect(Effect::Float(m, x, y)) && n.stack_view() == base
            && n.frames_view() == frames && n.global_view() == o.global_view(),
    }
}

/// How applying primitive `m` ends a step.
pub open spec fn magic_post(o: VM, n: VM, r: Step, m: Magic, frames: Seq<(Seq<Instr>, usize)>) -> bool {
    let s = o.stack_view();
    if s.len() < arity(m) {
        r == Step::Failed(RuntimeError::StackUnderflow) && aborted(o, n)
    } else if arity(m) == 2 {
        outcome_post(o, n, r, m, binary_outcome(m, s[s.len() - 2], s[s.len() - 1]), s.subrange(0, s.len() - 2), frames)
    } else if m == Magic::Not || m == Magic::Neg {
        outcome_post(o, n, r, m, unary_outcome(m, s.last()), s.drop_last(), frames)
    } else if m == Magic::Exit {
        match s.last() {
            Val::Lit(LitV::Int(c)) => r == Step::Effect(Effect::Exit(c)) && n.stack_view() == s.drop_last()
                && n.frames_view() == frames && n.global_view() == o.global_view(),
            _ => r == Step::Failed(RuntimeError::TypeMismatch) && aborted(o, n),
        }
    } else if m == Magic::Print || m == Magic::Println {
        &&& match r {
            Step::Effect(Effect::Print(v)) => m == Magic::Print && v@ == s.last(),
            Step::Effect(Effect::Println(v)) => m == Magic::Println && v@ == s.last(),
            _ => false,
        }
        &&& n.stack_view() == s.drop_last()
        &&& n.frames_view() == frames
        &&& n.global_view() == o.global_view()
    } else {
        &&& r == if m == Magic::Read { Step::Effect(Effect::Read) } else { Step::Effect(Effect::Readln) }
        &&& n.stack_view() == s
        &&& n.frames_view() == frames
        &&& n.global_view() == o.global_view()
    }
}

/// What one step does to the machine.
pub open spec fn step_post(o: VM, n: VM, r: Step) -> bool {
    let fs = o.frames_view();
    &&& n.sym_cnt == o.sym_cnt
    &&& n.sym_map == o.sym_map
    &&& if fs.len() == 0 {
        r == Step::Done && n.frames_view() == fs && n.stack_view() == o.stack_view()
            && n.global_view() == o.global_view()
    } else {
        let (instrs, pc) = fs.last();
        if pc >= instrs.len() {
            r == Step::Continue && n.frames_view() == fs.drop_last() && n.stack_view() == o.stack_view()
                && n.global_view() == o.global_view()
        } else {
            let next = fs.update(fs.len() - 1, (instrs, (pc + 1) as usize));
            match instrs[pc as int] {
                Instr::Load(id) => r == Step::Continue && n.frames_view() == next
                    && n.stack_view() == o.stack_view().push(o.global_view()[id as int])
                    && n.global_view() == o.global_view(),
                Instr::Store(id) => if o.stack@.len() == 0 {
                    r == Step::Failed(RuntimeError::StackUnderflow) && aborted(o, n)
                } else {
                    r == Step::Continue && n.frames_view() == next
                        && n.stack_view() == o.stack_view().drop_last()
                        && n.global_view() == o.global_view().update(id as int, o.stack_view().last())
                },
                Instr::App(id) => match o.global_view()[id as int] {
                    Val::Func(body) => r == Step::Continue && n.frames_view() == next.push((body, 0usize))
                        && n.stack_view() == o.stack_view() && n.global_view() == o.global_view(),
                    Val::Magic(m) => magic_post(o, n, r, m, next),
                    _ => r == Step::Failed(RuntimeError::UndefinedApplication) && aborted(o, n),
                },
            }
        }
    }
}

/// The name a primitive is bound to in a new machine.
pub open spec fn builtin_name(m: Magic) -> Seq<char> {
    match m {
        Magic::Add => seq!['+'],
        Magic::Sub => seq!['-'],
        Magic::Mul => seq!['*'],
        Magic::Div => seq!['/'],
        Magic::Mod => seq!['%'],
        Magic::Eq => seq!['=', '='],
        Magic::Neq => seq!['!', '='],
        Magic::Lt => seq!['<'],
        Magic::Gt => seq!['>'],
        Magic::Leq => seq!['<', '='],
        Magic::Geq => seq!['>', '='],
        Magic::And => seq!['a', 'n', 'd'],
        Magic::Or => seq!['o', 'r'],
        Magic::Not => seq!['n', 'o', 't'],
        Magic::Neg => seq!['n', 'e', 'g'],
        Magic::Print => seq!['p', 'r', 'i', 'n', 't'],
        Magic::Println => seq!['p', 'r', 'i', 'n', 't', 'l', 'n'],
        Magic::Read => seq!['r', 'e', 'a', 'd'],
        Magic::Readln => seq!['r', 'e', 'a', 'd', 'l', 'n'],
        Magic::Exit => seq!['e', 'x', 'i', 't'],
    }
}

/// `name` is bound to primitive `m`.
pub open spec fn binds_magic(vm: VM, name: Seq<char>, m: Magic) -> bool {
    &&& vm.lookup(name) is Some
    &&& vm.global_view()[vm.lookup(name)->0 as int] == Val::Magic(m)
}

/// `t` is a run of steps that each returned `Continue`: each state is what
/// one step makes of the one before.
pub open spec fn continued(t: Seq<VM>) -> bool {
    forall|i: int| 0 <= i < t.len() - 1 ==> #[trigger] step_post(t[i], t[i + 1], Step::Continue)
}

/// `n` is what `k` steps that each returned `Continue` make of `o`.
pub open spec fn reaches(o: VM, n: VM, k: nat) -> bool {
    exists|t: Seq<VM>| t.len() == k + 1 && t[0] == o && t[k as int] == n && #[trigger] continued(t)
}

/// What stepping with `fuel` makes of `o`: all of it spent on steps that
/// returned `Continue`, or fewer such steps and then one that returned `r`.
pub open spec fn resumed(o: VM, n: VM, fuel: nat, r: Step) -> bool {
    if r is Continue {
        reaches(o, n, fuel)
    } else {
        exists|k: nat, m: VM| k < fuel && #[trigger] reaches(o, m, k) && step_post(m, n, r)
    }
}

impl VM {
    pub open spec fn frames_view(&self) -> Seq<(Seq<Instr>, usize)> {
        self.call_frame@.map_values(|f: Frame| (f.func.instrs@, f.pc))
    }

    fn abort(&mut self)
        requires
            old(self).wf(),
        ensures
            final(self).wf(),
            aborted(*old(self), *final(self)),
            final(self).sym_cnt == old(self).sym_cnt,
            final(self).sym_map == old(self).sym_map,
            final(self).stack == old(self).stack,
            final(self).global == old(self).global,
    {
        self.call_frame = Vec::new();
    }

    fn push_checked(&mut self, v: Value)
        requires
            old(self).wf(),
            val_in_store(v@, old(self).global@.len()),
        ensures
            final(self).wf(),
            final(self).stack_view() == old(self).stack_view().push(v@),
            final(self).stack@ == old(self).stack@.push(v),
            final(self).global == old(self).global,
            final(self).call_frame == old(self).call_frame,
            final(self).sym_cnt == old(self).sym_cnt,
            final(self).sym_map == old(self).sym_map,
    {
        self.stack.push(v);
        assert(self.stack_view() =~= old(self).stack_view().push(v@));
    }

    fn pop_checked(&mut self) -> (r: Value)
        requires
            old(self).wf(),
            old(self).stack@.len() > 0,
        ensures
            final(self).wf(),
            r@ == old(self).stack_view().last(),
            val_in_store(r@, final(self).global@.len()),
            final(self).stack_view() == old(self).stack_view().drop_last(),
            final(self).stack@.len() == old(self).stack@.len() - 1,
            final(self).global == old(self).global,
            final(self).call_frame == old(self).call_frame,
            final(self).sym_cnt == old(self).sym_cnt,
            final(self).sym_map == old(self).sym_map,
    {
        let r = self.stack.pop().unwrap();
        assert(self.stack_view() =~= old(self).stack_view().drop_last());
        r
    }

    /// Applies primitive `m`; the running frame has already been advanced.
    fn apply_magic(&mut self, m: Magic, Ghost(frames): Ghost<Seq<(Seq<Instr>, usize)>>) -> (r: Step)
        requires
            old(self).wf(),
            old(self).frames_view() == frames,
        ensures
            final(self).wf(),
            magic_post(*old(self), *final(self), r, m, frames),
            final(self).sym_cnt == old(self).sym_cnt,
            final(self).sym_map == old(self).sym_map,
            final(self).global@.len() == old(self).global@.len(),
    {
        let len = self.stack.len();
        let ghost s = self.stack_view();
        if len < 2 && (m != Magic::Read && m != Magic::Readln && m != Magic::Not && m != Magic::Neg
            && m != Magic::Print && m != Magic::Println && m != Magic::Exit) {
            self.abort();
            return Step::Failed(RuntimeError::StackUnderflow);
        }
        if len < 1 && m != Magic::Read && m != Magic::Readln {
            self.abort();
            return Step::Failed(RuntimeError::StackUnderflow);
        }
        match m {
            Magic::Read => Step::Effect(Effect::Read),
            Magic::Readln => Step::Effect(Effect::Readln),
            Magic::Print => {
                let v = self.pop_checked();
                Step::Effect(Effect::Print(v))
            },
            Magic::Println => {
                let v = self.pop_checked();
                Step::Effect(Effect::Println(v))
            },
            Magic::Exit => {
                let code = match &self.stack[len - 1] {
                    Value::Lit(Literal::Int(c)) => Some(*c),
                    _ => None,
                };
                match code {
                    Some(c) => {
                        let _ = self.pop_checked();
                        Step::Effect(Effect::Exit(c))
                    },
                    None => {
                        self.abort();
                        Step::Failed(RuntimeError::TypeMismatch)
                    },
                }
            },
            Magic::Not | Magic::Neg => {
                let out = apply_unary(m, &self.stack[len - 1]);
                match out {
                    Applied::Push(v) => {
                        let _ = self.pop_checked();
                        self.push_checked(v);
                        Step::Continue
                    },
                    Applied::Fail(e) => {
                        self.abort();
                        Step::Failed(e)
                    },
                    Applied::Float(x, y) => {
                        let _ = self.pop_checked();
                        Step::Effect(Effect::Float(m, x, y))
                    },
                }
            },
            _ => {
                let out = apply_binary(m, &self.stack[len - 2], &self.stack[len - 1]);
                proof {
                    assert(s[s.len() - 2] == self.stack@[len - 2]@);
                    assert(s[s.len() - 1] == self.stack@[len - 1]@);
                }
                match out {
                    Applied::Push(v) => {
                        let _ = self.pop_checked();
                        let _ = self.pop_checked();
                        assert(self.stack_view() =~= s.subrange(0, s.len() - 2));
                        self.push_checked(v);
                        Step::Continue
                    },
                    Applied::Fail(e) => {
                        self.abort();
                        Step::Failed(e)
                    },
                    Applied::Float(x, y) => {
                        let _ = self.pop_checked();
                        let _ = self.pop_checked();
                        assert(self.stack_view() =~= s.subrange(0, s.len() - 2));
                        Step::Effect(Effect::Float(m, x, y))
                    },
                }
            },
        }
    }

    /// Runs one instruction of the innermost call frame, or leaves a frame
    /// whose instructions are all done.
    pub fn step(&mut self) -> (r: Step)
        requires
            old(self).wf(),
        ensures
            final(self).wf(),
            step_post(*old(self), *final(self), r),
            final(self).global@.len() == old(self).global@.len(),
    {
        let ghost o = *self;
        let ghost fs = self.frames_view();
        if self.call_frame.len() == 0 {
            return Step::Done;
        }
        let mut frame = self.call_frame.pop().unwrap();
        proof {
            assert(self.frames_view() =~= fs.drop_last());
            assert(fs.last() == (frame.func.instrs@, frame.pc));
            assert(instrs_in_store(frame.func.instrs@, self.global@.len()));
            assert forall|i: int| 0 <= i < self.call_frame@.len()
                implies instrs_in_store((#[trigger] self.call_frame@[i]).func.instrs@, self.global@.len()) by {
                assert(self.call_frame@[i] == o.call_frame@[i]);
            }
        }
        if frame.pc >= frame.func.instrs.len() {
            return Step::Continue;
        }
        let instr = frame.func.instrs[frame.pc];
        frame.pc = frame.pc + 1;
        let ghost next = fs.update(fs.len() - 1, (frame.func.instrs@, frame.pc));
        self.call_frame.push(frame);
        proof {
            assert(self.frames_view() =~= next);
            assert forall|i: int| 0 <= i < self.call_frame@.len()
                implies instrs_in_store((#[trigger] self.call_frame@[i]).func.instrs@, self.global@.len()) by {
                if i < self.call_frame@.len() - 1 {
                    assert(self.call_frame@[i] == o.call_frame@[i]);
                }
            }
            assert(instrs_in_store(self.call_frame@.last().func.instrs@, self.global@.len()));
            assert(instr.id() < self.global@.len());
            assert(self.stack_view() == o.stack_view());
        }
        match instr {
            Instr::Load(id) => {
                let v = copy_value(&self.global[id as usize]);
                self.push_checked(v);
                Step::Continue
            },
            Instr::Store(id) => {
                if self.stack.len() == 0 {
                    self.abort();
                    return Step::Failed(RuntimeError::StackUnderflow);
                }
                let v = self.pop_checked();
                self.global.set(id as usize, v);
                proof {
                    assert(self.global_view() =~= o.global_view().update(id as int, o.stack_view().last()));
                    assert forall|i: int| 0 <= i < self.global@.len()
                        implies val_in_store((#[trigger] self.global@[i])@, self.global@.len()) by {
                        if i != id {
                            assert(self.global@[i] == o.global@[i]);
                        }
                    }
                }
                Step::Continue
            },
            Instr::App(id) => {
                let callee = match &self.global[id as usize] {
                    Value::Func(f) => Some(Func { instrs: copy_instrs(&f.instrs) }),
                    _ => None,
                };
                match callee {
                    Some(f) => {
                        proof {
                            assert(val_in_store(self.global@[id as int]@, self.global@.len()));
                            assert(self.global@[id as int]@ == Val::Func(f.instrs@));
                            assert(instrs_in_store(f.instrs@, self.global@.len()));
                        }
                        let ghost before = self.call_frame@;
                        self.call_frame.push(Frame { func: f, pc: 0 });
                        proof {
                            assert forall|i: int| 0 <= i < self.call_frame@.len()
                                implies instrs_in_store((#[trigger] self.call_frame@[i]).func.instrs@, self.global@.len()) by {
                                if i < self.call_frame@.len() - 1 {
                                    assert(self.call_frame@[i] == before[i]);
                                } else {
                                    assert(self.global@[id as int]@ == Val::Func(f.instrs@));
                                    assert(self.call_frame@[i].func.instrs@ == f.instrs@);
                                }
                            }
                            assert(self.frames_view() =~= next.push((f.instrs@, 0usize)));
                        }
                        Step::Continue
                    },
                    None => {
                        let m = match &self.global[id as usize] {
                            Value::Magic(m) => Some(*m),
                            _ => None,
                        };
                        match m {
                            Some(m) => self.apply_magic(m, Ghost(next)),
                            None => {
                                self.abort();
                                Step::Failed(RuntimeError::UndefinedApplication)
                            },
                        }
                    },
                }
            },
        }
    }

    /// Pushes a literal the host produced (the result of a float primitive or
    /// of a read).
    pub fn push_literal(&mut self, l: Literal)
        requires
            old(self).wf(),
        ensures
            final(self).wf(),
            final(self).stack_view() == old(self).stack_view().push(Val::Lit(l@)),
            final(self).global == old(self).global,
            final(self).call_frame == old(self).call_frame,
            final(self).sym_cnt == old(self).sym_cnt,
            final(self).sym_map == old(self).sym_map,
    {
        self.push_checked(Value::Lit(l));
    }

    /// Hands the machine what a read produced: a literal to push, or `None`
    /// when the input is exhausted, which aborts the running function.
    pub fn supply_input(&mut self, input: Option<Literal>) -> (r: Result<(), RuntimeError>)
        requires
            old(self).wf(),
        ensures
            final(self).wf(),
            final(self).sym_cnt == old(self).sym_cnt,
            final(self).sym_map == old(self).sym_map,
            final(self).global == old(self).global,
            match input {
                Some(l) => r is Ok && final(self).stack_view() == old(self).stack_view().push(Val::Lit(l@))
                    && final(self).call_frame == old(self).call_frame,
                None => r == Err::<(), RuntimeError>(RuntimeError::InputExhausted) && aborted(*old(self), *final(self)),
            },
    {
        match input {
            Some(l) => {
                self.push_literal(l);
                Ok(())
            },
            None => {
                self.abort();
                Err(RuntimeError::InputExhausted)
            },
        }
    }

    /// Steps until the machine finishes, fails or needs the host, or until
    /// `fuel` steps have run (then the result is `Continue`).
    pub fn resume(&mut self, fuel: u64) -> (r: Step)
        requires
            old(self).wf(),
        ensures
            final(self).wf(),
            final(self).sym_cnt == old(self).sym_cnt,
            final(self).sym_map == old(self).sym_map,
            final(self).global@.len() == old(self).global@.len(),
            r is Done ==> final(self).call_frame@.len() == 0,
            r is Failed ==> final(self).call_frame@.len() == 0,
            fuel == 0 ==> r is Continue && *final(self) == *old(self),
            resumed(*old(self), *final(self), fuel as nat, r),
    {
        let mut left = fuel;
        let ghost mut trace: Seq<VM> = seq![*self];
        while left > 0
            invariant
                self.wf(),
                self.sym_cnt == old(self).sym_cnt,
                self.sym_map == old(self).sym_map,
                self.global@.len() == old(self).global@.len(),
                left <= fuel,
                fuel == 0 ==> *self == *old(self),
                trace.len() == fuel - left + 1,
                trace[0] == *old(self),
                trace.last() == *self,
                continued(trace),
            decreases left,
        {
            let ghost prev = *self;
            let ghost done = (fuel - left) as nat;
            let r = self.step();
            match r {
                Step::Continue => {
                    proof {
                        let t = trace.push(*self);
                        assert forall|i: int| 0 <= i < t.len() - 1 implies #[trigger] step_post(t[i], t[i + 1], Step::Continue) by {
                            if i < t.len() - 2 {
                                assert(t[i] == trace[i] && t[i + 1] == trace[i + 1]);
                            }
                        }
                        trace = t;
                    }
                },
                _ => {
                    assert(done < fuel && reaches(*old(self), prev, done) && step_post(prev, *self, r));
                    return r;
                },
            }
            left = left - 1;
        }
        Step::Continue
    }

    /// Starts running a top-level function and steps it as `resume` does.
    pub fn run(&mut self, f: Func, fuel: u64) -> (r: Step)
        requires
            old(self).wf(),
            instrs_in_store(f.instrs@, old(self).global@.len()),
        ensures
            final(self).wf(),
            final(self).sym_cnt == old(self).sym_cnt,
            final(self).sym_map == old(self).sym_map,
            final(self).global@.len() == old(self).global@.len(),
            r is Done ==> final(self).call_frame@.len() == 0,
            r is Failed ==> final(self).call_frame@.len() == 0,
            exists|start: VM| {
                &&& start.frames_view() == old(self).frames_view().push((f.instrs@, 0usize))
                &&& start.stack == old(self).stack
                &&& start.global == old(self).global
                &&& start.sym_cnt == old(self).sym_cnt
                &&& start.sym_map == old(self).sym_map
                &&& #[trigger] resumed(start, *final(self), fuel as nat, r)
            },
    {
        let ghost before = self.call_frame@;
        let ghost fs = self.frames_view();
        let ghost fi = f.instrs@;
        self.call_frame.push(Frame { func: f, pc: 0 });
        proof {
            assert forall|i: int| 0 <= i < self.call_frame@.len()
                implies instrs_in_store((#[trigger] self.call_frame@[i]).func.instrs@, self.global@.len()) by {
                if i < self.call_frame@.len() - 1 {
                    assert(self.call_frame@[i] == before[i]);
                }
            }
            assert(self.frames_view() =~= fs.push((fi, 0usize)));
        }
        let ghost start = *self;
        let r = self.resume(fuel);
        assert(resumed(start, *self, fuel as nat, r));
        r
    }

    /// Binds a name to a primitive.
    fn bind_builtin(&mut self, name: Vec<char>, m: Magic)
        requires
            old(self).wf(),
            old(self).sym_cnt < 100,
        ensures
            final(self).wf(),
            final(self).sym_cnt <= old(self).sym_cnt + 1,
            binds_magic(*final(self), name@, m),
            forall|n: Seq<char>, m2: Magic| n != name@ && binds_magic(*old(self), n, m2)
                ==> #[trigger] binds_magic(*final(self), n, m2),
            final(self).stack == old(self).stack,
            final(self).call_frame == old(self).call_frame,
    {
        let ghost before = *self;
        let id = match self.get_id(&name) {
            Some(id) => id,
            None => {
                return;
            },
        };
        let ghost mid = *self;
        self.set_global(id, Value::Magic(m));
        proof {
            assert forall|n: Seq<char>, m2: Magic| n != name@ && binds_magic(before, n, m2)
                implies #[trigger] binds_magic(*self, n, m2) by {
                let j = before.lookup(n)->0;
                assert(mid.lookup(n) == before.lookup(n));
                if j == id {
                    let a = choose|a: int| 0 <= a < mid.sym_map@.len() && (#[trigger] mid.sym_map@[a]).0@ == n;
                    let b = choose|b: int| 0 <= b < mid.sym_map@.len() && (#[trigger] mid.sym_map@[b]).0@ == name@;
                    assert(a != b);
                }
            }
        }
    }

    /// A machine whose symbol table binds the name of every primitive to it.
    pub fn new() -> (r: VM)
        ensures
            r.wf(),
            r.stack@.len() == 0,
            r.call_frame@.len() == 0,
            forall|m: Magic| #[trigger] binds_magic(r, builtin_name(m), m),
            r.sym_cnt <= 20,
    {
        let mut vm = VM::empty();
        let name = vec!['+'];
        assert(name@ =~= builtin_name(Magic::Add));
        vm.bind_builtin(name, Magic::Add);
        let name = vec!['-'];
        assert(name@ =~= builtin_name(Magic::Sub));
        vm.bind_builtin(name, Magic::Sub);
        let name = vec!['*'];
        assert(name@ =~= builtin_name(Magic::Mul));
        vm.bind_builtin(name, Magic::Mul);
        let name = vec!['/'];
        assert(name@ =~= builtin_name(Magic::Div));
        vm.bind_builtin(name, Magic::Div);
        let name = vec!['%'];
        assert(name@ =~= builtin_name(Magic::Mod));
        vm.bind_builtin(name, Magic::Mod);
        let name = vec!['=', '='];
        assert(name@ =~= builtin_name(Magic::Eq));
        vm.bind_builtin(name, Magic::Eq);
        let name = vec!['!', '='];
        assert(name@ =~= builtin_name(Magic::Neq));
        vm.bind_builtin(name, Magic::Neq);
        let name = vec!['<'];
        assert(name@ =~= builtin_name(Magic::Lt));
        vm.bind_builtin(name, Magic::Lt);
        let name = vec!['>'];
        assert(name@ =~= builtin_name(Magic::Gt));
        vm.bind_builtin(name, Magic::Gt);
        let name = vec!['<', '='];
        assert(name@ =~= builtin_name(Magic::Leq));
        vm.bind_builtin(name, Magic::Leq);
        let name = vec!['>', '='];
        assert(name@ =~= builtin_name(Magic::Geq));
        vm.bind_builtin(name, Magic::Geq);
        let name = vec!['a', 'n', 'd'];
        assert(name@ =~= builtin_name(Magic::And));
        vm.bind_builtin(name, Magic::And);
        let name = vec!['o', 'r'];
        assert(name@ =~= builtin_name(Magic::Or));
        vm.bind_builtin(name, Magic::Or);
        let name = vec!['n', 'o', 't'];
        assert(name@ =~= builtin_name(Magic::Not));
        vm.bind_builtin(name, Magic::Not);
        let name = vec!['n', 'e', 'g'];
        assert(name@ =~= builtin_name(Magic::Neg));
        vm.bind_builtin(name, Magic::Neg);
        let name = vec!['p', 'r', 'i', 'n', 't'];
        assert(name@ =~= builtin_name(Magic::Print));
        vm.bind_builtin(name, Magic::Print);
        let name = vec!['p', 'r', 'i', 'n', 't', 'l', 'n'];
        assert(name@ =~= builtin_name(Magic::Println));
        vm.bind_builtin(name, Magic::Println);
        let name = vec!['r', 'e', 'a', 'd'];
        assert(name@ =~= builtin_name(Magic::Read));
        vm.bind_builtin(name, Magic::Read);
        let name = vec!['r', 'e', 'a', 'd', 'l', 'n'];
        assert(name@ =~= builtin_name(Magic::Readln));
        vm.bind_builtin(name, Magic::Readln);
        let name = vec!['e', 'x', 'i', 't'];
        assert(name@ =~= builtin_name(Magic::Exit));
        vm.bind_builtin(name, Magic::Exit);
        assert forall|m: Magic| #[trigger] binds_magic(vm, builtin_name(m), m) by {
            match m {
                Magic::Add => assert(binds_magic(vm, builtin_name(Magic::Add), Magic::Add)),
                Magic::Sub => assert(binds_magic(vm, builtin_name(Magic::Sub), Magic::Sub)),
                Magic::Mul => assert(binds_magic(vm, builtin_name(Magic::Mul), Magic::Mul)),
                Magic::Div => assert(binds_magic(vm, builtin_name(Magic::Div), Magic::Div)),
                Magic::Mod => assert(binds_magic(vm, builtin_name(Magic::Mod), Magic::Mod)),
                Magic::Eq => assert(binds_magic(vm, builtin_name(Magic::Eq), Magic::Eq)),
                Magic::Neq => assert(binds_magic(vm, builtin_name(Magic::Neq), Magic::Neq)),
                Magic::Lt => assert(binds_magic(vm, builtin_name(Magic::Lt), Magic::Lt)),
                Magic::Gt => assert(binds_magic(vm, builtin_name(Magic::Gt), Magic::Gt)),
                Magic::Leq => assert(binds_magic(vm, builtin_name(Magic::Leq), Magic::Leq)),
                Magic::Geq => assert(binds_magic(vm, builtin_name(Magic::Geq), Magic::Geq)),
                Magic::And => assert(binds_magic(vm, builtin_name(Magic::And), Magic::And)),
                Magic::Or => assert(binds_magic(vm, builtin_name(Magic::Or), Magic::Or)),
                Magic::Not => assert(binds_magic(vm, builtin_name(Magic::Not), Magic::Not)),
                Magic::Neg => assert(binds_magic(vm, builtin_name(Magic::Neg), Magic::Neg)),
                Magic::Print => assert(binds_magic(vm, builtin_name(Magic::Print), Magic::Print)),
                Magic::Println => assert(binds_magic(vm, builtin_name(Magic::Println), Magic::Println)),
                Magic::Read => assert(binds_magic(vm, builtin_name(Magic::Read), Magic::Read)),
                Magic::Readln => assert(binds_magic(vm, builtin_name(Magic::Readln), Magic::Readln)),
                Magic::Exit => assert(binds_magic(vm, builtin_name(Magic::Exit), Magic::Exit)),
            }
        }
        vm
    }
}

} // verus!
