use vstd::prelude::*;
use crate::lexer::{
    Token, fenced, int_of, is_quote, lemma_fenced_progress, parse_int, parse_string, scan_bareword, skip_comment,
    skip_whitespace, structural, word_end, words,
};
use crate::value::{Func, Instr, LitV, Literal, SymbolId, Val, Value};
use crate::vm::{VM, instrs_in_store, lemma_store_covers, val_in_store};
use crate::text::{chars_of, string_of};

verus! {

/// Why a parse did not produce a function.
#[derive(Clone, Copy, PartialEq, Eq, Structural, Debug)]
pub enum ParseError {
    /// More input is needed; the state is kept for the next call.
    Incomplete,
    /// A `)` without an open block.
    UnexpectedClose,
    /// A block or a string still open when no more input will come.
    Unterminated,
    /// No symbol id is left to allocate.
    SymbolsExhausted,
}

impl ParseError {
    /// Whether the error is final, as opposed to a request for more input.
    pub open spec fn is_fatal(self) -> bool {
        self != ParseError::Incomplete
    }
}

/// How a bareword is read, before any symbol is interned.
pub enum Bareword {
    /// `$=name`: store into `name`.
    SetSym(Seq<char>),
    /// `$name`: push the value of `name`.
    LoadSym(Seq<char>),
    /// An integer literal.
    Int(i64),
    /// A float literal when the float reading succeeds, else a call by name.
    Other,
}

pub open spec fn bareword(tok: Seq<char>) -> Bareword {
    if tok.len() >= 2 && tok[0] == '$' && tok[1] == '=' {
        Bareword::SetSym(tok.subrange(2, tok.len() as int))
    } else if tok.len() >= 1 && tok[0] == '$' {
        Bareword::LoadSym(tok.subrange(1, tok.len() as int))
    } else if int_of(tok) is Some {
        Bareword::Int(int_of(tok)->0)
    } else {
        Bareword::Other
    }
}

/// The characters `s[a..b]`.
pub fn slice_chars(s: &Vec<char>, a: usize, b: usize) -> (r: Vec<char>)
    requires
        a <= b <= s@.len(),
    ensures
        r@ == s@.subrange(a as int, b as int),
{
    let mut r: Vec<char> = Vec::new();
    let mut k = a;
    while k < b
        invariant
            a <= k <= b,
            b <= s@.len(),
            r@ == s@.subrange(a as int, k as int),
        decreases b - k,
    {
        r.push(s[k]);
        k = k + 1;
        assert(r@ =~= s@.subrange(a as int, k as int));
    }
    r
}

/// Interns a literal under a fresh anonymous id and returns the id.
pub fn intern_value(vm: &mut VM, v: Value) -> (r: Option<SymbolId>)
    requires
        old(vm).wf(),
        val_in_store(v@, old(vm).global@.len()),
    ensures
        final(vm).wf(),
        old(vm).sym_cnt == u32::MAX ==> r is None && *final(vm) == *old(vm),
        old(vm).sym_cnt < u32::MAX ==> {
            &&& r == Some(old(vm).sym_cnt)
            &&& final(vm).sym_cnt == old(vm).sym_cnt + 1
            &&& final(vm).global@.len() > final(vm).sym_cnt
            &&& final(vm).global@[old(vm).sym_cnt as int]@ == v@
            &&& forall|i: int| 0 <= i < old(vm).global@.len() && i != old(vm).sym_cnt
                ==> final(vm).global@[i] == old(vm).global@[i]
            &&& final(vm).stack == old(vm).stack
            &&& final(vm).call_frame == old(vm).call_frame
        },
        final(vm).global@.len() >= old(vm).global@.len(),
        old(vm).sym_cnt <= final(vm).sym_cnt <= old(vm).sym_cnt + 1,
        forall|n: Seq<char>| #[trigger] final(vm).lookup(n) == old(vm).lookup(n),
        grows(*old(vm), *final(vm)),
        r is Some ==> fresh(*final(vm), old(vm).sym_cnt, old(vm).sym_cnt as nat),
{
    proof {
        assert forall|n: Seq<char>| #[trigger] old(vm).lookup(n) != Some(old(vm).sym_cnt) by {
            if old(vm).lookup(n) is Some {
                lemma_store_covers(*old(vm), n);
            }
        }
    }
    match vm.alloc_id() {
        None => None,
        Some(id) => {
            vm.set_global(id, v);
            Some(id)
        },
    }
}

/// Compiles one bareword into an instruction. `float_bits` is the token read
/// as a float (its bit pattern), if that reading succeeds. `None` only when
/// no symbol id is left.
pub fn compile_bareword(vm: &mut VM, tok: &Vec<char>, float_bits: Option<u64>) -> (r: Option<Instr>)
    requires
        old(vm).wf(),
    ensures
        final(vm).wf(),
        final(vm).global@.len() >= old(vm).global@.len(),
        final(vm).stack == old(vm).stack,
        final(vm).call_frame == old(vm).call_frame,
        r matches Some(ins) ==> ins.id() < final(vm).global@.len(),
        r is None ==> final(vm).sym_cnt == u32::MAX,
        old(vm).sym_cnt <= final(vm).sym_cnt <= old(vm).sym_cnt + 1,
        forall|i: int| 0 <= i < old(vm).sym_cnt && i < old(vm).global@.len()
            ==> final(vm).global@[i] == old(vm).global@[i],
        forall|n: Seq<char>| old(vm).lookup(n) is Some ==> #[trigger] final(vm).lookup(n) == old(vm).lookup(n),
        grows(*old(vm), *final(vm)),
        (bareword(tok@) is Int || (bareword(tok@) is Other && float_bits is Some)) && r is Some
            ==> fresh(*final(vm), old(vm).sym_cnt, old(vm).sym_cnt as nat),
        match bareword(tok@) {
            Bareword::SetSym(name) => match r {
                Some(ins) => ins == Instr::Store(final(vm).lookup(name)->0) && final(vm).lookup(name) is Some,
                None => old(vm).lookup(name) is None && old(vm).sym_cnt == u32::MAX,
            },
            Bareword::LoadSym(name) => match r {
                Some(ins) => ins == Instr::Load(final(vm).lookup(name)->0) && final(vm).lookup(name) is Some,
                None => old(vm).lookup(name) is None && old(vm).sym_cnt == u32::MAX,
            },
            Bareword::Int(n) => match r {
                Some(ins) => ins == Instr::Load(old(vm).sym_cnt) && final(vm).sym_cnt == old(vm).sym_cnt + 1
                    && final(vm).global@[old(vm).sym_cnt as int]@ == Val::Lit(LitV::Int(n)),
                None => old(vm).sym_cnt == u32::MAX,
            },
            Bareword::Other => match float_bits {
                Some(b) => match r {
                    Some(ins) => ins == Instr::Load(old(vm).sym_cnt) && final(vm).sym_cnt == old(vm).sym_cnt + 1
                        && final(vm).global@[old(vm).sym_cnt as int]@ == Val::Lit(LitV::Float(b)),
                    None => old(vm).sym_cnt == u32::MAX,
                },
                None => match r {
                    Some(ins) => ins == Instr::App(final(vm).lookup(tok@)->0) && final(vm).lookup(tok@) is Some,
                    None => old(vm).lookup(tok@) is None && old(vm).sym_cnt == u32::MAX,
                },
            },
        },
{
    let len = tok.len();
    if len >= 2 && tok[0] == '$' && tok[1] == '=' {
        let name = slice_chars(tok, 2, len);
        match vm.get_id(&name) {
            Some(id) => Some(Instr::Store(id)),
            None => None,
        }
    } else if len >= 1 && tok[0] == '$' {
        let name = slice_chars(tok, 1, len);
        match vm.get_id(&name) {
            Some(id) => Some(Instr::Load(id)),
            None => None,
        }
    } else {
        match parse_int(tok) {
            Some(n) => match intern_value(vm, Value::Lit(Literal::Int(n))) {
                Some(id) => Some(Instr::Load(id)),
                None => None,
            },
            None => match float_bits {
                Some(b) => match intern_value(vm, Value::Lit(Literal::Float(b))) {
                    Some(id) => Some(Instr::Load(id)),
                    None => None,
                },
                None => match vm.get_id(tok) {
                    Some(id) => Some(Instr::App(id)),
                    None => None,
                },
            },
        }
    }
}

/// `id` is a slot allocated since `base` that no name is bound to.
pub open spec fn fresh(vm: VM, id: SymbolId, base: nat) -> bool {
    &&& base <= id
    &&& id < vm.sym_cnt
    &&& id < vm.global@.len()
    &&& forall|n: Seq<char>| #[trigger] vm.lookup(n) != Some(id)
}

/// `ins` is what token `t` compiles to, as seen in machine `vm`; the slots
/// of literals are fresh since `base`.
pub open spec fn denotes_token<F: Fn(&Vec<char>) -> Option<u64>>(vm: VM, ins: Instr, t: Token, base: nat, float_of: F) -> bool {
    match t {
        Token::Word(w) => denotes(vm, ins, w, base, float_of),
        Token::Text(x) => ins is Load && fresh(vm, ins.id(), base)
            && vm.global_view()[ins.id() as int] == Val::Lit(LitV::Str(x)),
        _ => false,
    }
}

/// `ins` is what the tokens `toks` compile to, as seen in machine `vm`: each
/// bareword or string gives its instruction, and a block from `Open` to the
/// matching `Close` gives a load of a fresh slot holding the function its own
/// tokens compile to.
pub open spec fn compiles<F: Fn(&Vec<char>) -> Option<u64>>(vm: VM, ins: Seq<Instr>, toks: Seq<Token>, base: nat, float_of: F) -> bool
    decreases toks.len(),
{
    if toks.len() == 0 {
        ins.len() == 0
    } else if ins.len() == 0 {
        false
    } else if toks.last() is Close {
        exists|j: int| {
            &&& 0 <= j < toks.len() - 1
            &&& #[trigger] toks[j] is Open
            &&& ins.last() is Load
            &&& fresh(vm, ins.last().id(), base)
            &&& match vm.global_view()[ins.last().id() as int] {
                Val::Func(body) => compiles(vm, body, toks.subrange(j + 1, toks.len() - 1), base, float_of),
                _ => false,
            }
            &&& compiles(vm, ins.drop_last(), toks.subrange(0, j), base, float_of)
        }
    } else {
        denotes_token(vm, ins.last(), toks.last(), base, float_of)
            && compiles(vm, ins.drop_last(), toks.drop_last(), base, float_of)
    }
}

/// How many more blocks the tokens open than they close.
pub open spec fn depth(t: Seq<Token>) -> int
    decreases t.len(),
{
    if t.len() == 0 {
        0
    } else {
        depth(t.drop_last()) + match t.last() {
            Token::Open => 1int,
            Token::Close => -1int,
            _ => 0int,
        }
    }
}

/// Every `Close` closes a block opened before it.
pub open spec fn prefixes_ok(t: Seq<Token>) -> bool {
    forall|k: int| 0 <= k <= t.len() ==> depth(#[trigger] t.subrange(0, k)) >= 0
}

/// Every `Close` closes a block opened before it, and every block closes.
pub open spec fn balanced(t: Seq<Token>) -> bool {
    &&& depth(t) == 0
    &&& prefixes_ok(t)
}

pub proof fn lemma_push_prefixes(x: Seq<Token>, t: Token)
    requires
        prefixes_ok(x),
        depth(x.push(t)) >= 0,
    ensures
        prefixes_ok(x.push(t)),
{
    assert forall|k: int| 0 <= k <= x.push(t).len() implies depth(#[trigger] x.push(t).subrange(0, k)) >= 0 by {
        if k <= x.len() {
            assert(x.push(t).subrange(0, k) =~= x.subrange(0, k));
        } else {
            assert(x.push(t).subrange(0, k) =~= x.push(t));
        }
    }
}

/// The tokens read so far when blocks with the given tokens are open: each
/// open block's tokens followed by its `Open`.
pub open spec fn opened(st: Seq<Seq<Token>>) -> Seq<Token>
    decreases st.len(),
{
    if st.len() == 0 {
        Seq::empty()
    } else {
        opened(st.drop_last()) + st.last() + seq![Token::Open]
    }
}

/// `ins` is what bareword `w` compiles to, as seen in machine `vm`: a store
/// into or a load of the named symbol, a load of a fresh slot holding the
/// integer or the float (the bits `float_of` gave for the token), or an
/// application of the named symbol when `float_of` read no float.
pub open spec fn denotes<F: Fn(&Vec<char>) -> Option<u64>>(vm: VM, ins: Instr, w: Seq<char>, base: nat, float_of: F) -> bool {
    match bareword(w) {
        Bareword::SetSym(n) => vm.lookup(n) is Some && ins == Instr::Store(vm.lookup(n)->0),
        Bareword::LoadSym(n) => vm.lookup(n) is Some && ins == Instr::Load(vm.lookup(n)->0),
        Bareword::Int(v) => ins is Load && fresh(vm, ins.id(), base)
            && vm.global_view()[ins.id() as int] == Val::Lit(LitV::Int(v)),
        Bareword::Other => exists|t: &Vec<char>, b: Option<u64>| t@ == w && #[trigger] float_of.ensures((t,), b)
            && match b {
                Some(bits) => ins is Load && fresh(vm, ins.id(), base)
                    && vm.global_view()[ins.id() as int] == Val::Lit(LitV::Float(bits)),
                None => vm.lookup(w) is Some && ins == Instr::App(vm.lookup(w)->0),
            },
    }
}

/// `v1` is `v0` after interning more: names keep their ids, allocated slots
/// keep their values, and a newly bound name gets a newly allocated id.
pub open spec fn grows(v0: VM, v1: VM) -> bool {
    &&& v0.sym_cnt <= v1.sym_cnt
    &&& v0.global@.len() <= v1.global@.len()
    &&& forall|i: int| 0 <= i < v0.sym_cnt && i < v0.global@.len() ==> v1.global@[i] == v0.global@[i]
    &&& forall|n: Seq<char>| v0.lookup(n) is Some ==> #[trigger] v1.lookup(n) == v0.lookup(n)
    &&& forall|n: Seq<char>| v0.lookup(n) is None && #[trigger] v1.lookup(n) is Some
        ==> v1.lookup(n)->0 >= v0.sym_cnt
}

/// A fresh slot stays fresh while the machine only interns more.
pub proof fn lemma_fresh_persists(v0: VM, v1: VM, id: SymbolId, base: nat)
    requires
        fresh(v0, id, base),
        grows(v0, v1),
    ensures
        fresh(v1, id, base),
{
    assert forall|n: Seq<char>| #[trigger] v1.lookup(n) != Some(id) by {
        if v0.lookup(n) is Some {
            assert(v1.lookup(n) == v0.lookup(n));
        } else if v1.lookup(n) is Some {
            assert(v1.lookup(n)->0 >= v0.sym_cnt);
        }
    }
}

/// What a bareword compiled to stays so while the machine only interns more.
pub proof fn lemma_denotes_persists<F: Fn(&Vec<char>) -> Option<u64>>(
    v0: VM,
    v1: VM,
    ins: Instr,
    w: Seq<char>,
    base: nat,
    float_of: F,
)
    requires
        denotes(v0, ins, w, base, float_of),
        grows(v0, v1),
    ensures
        denotes(v1, ins, w, base, float_of),
{
    match bareword(w) {
        Bareword::SetSym(n) => {
            assert(v1.lookup(n) == v0.lookup(n));
        },
        Bareword::LoadSym(n) => {
            assert(v1.lookup(n) == v0.lookup(n));
        },
        Bareword::Int(v) => {
            assert(v1.global@[ins.id() as int] == v0.global@[ins.id() as int]);
            lemma_fresh_persists(v0, v1, ins.id(), base);
        },
        Bareword::Other => {
            let (t, b) = choose|t: &Vec<char>, b: Option<u64>| t@ == w && #[trigger] float_of.ensures((t,), b)
                && match b {
                    Some(bits) => ins is Load && fresh(v0, ins.id(), base)
                        && v0.global_view()[ins.id() as int] == Val::Lit(LitV::Float(bits)),
                    None => v0.lookup(w) is Some && ins == Instr::App(v0.lookup(w)->0),
                };
            match b {
                Some(bits) => {
                    assert(v1.global@[ins.id() as int] == v0.global@[ins.id() as int]);
                    lemma_fresh_persists(v0, v1, ins.id(), base);
                },
                None => {
                    assert(v1.lookup(w) == v0.lookup(w));
                },
            }
        },
    }
}

/// What a token compiled to stays so while the machine only interns more.
pub proof fn lemma_denotes_token_persists<F: Fn(&Vec<char>) -> Option<u64>>(
    v0: VM,
    v1: VM,
    ins: Instr,
    t: Token,
    base: nat,
    float_of: F,
)
    requires
        denotes_token(v0, ins, t, base, float_of),
        grows(v0, v1),
    ensures
        denotes_token(v1, ins, t, base, float_of),
{
    match t {
        Token::Word(w) => lemma_denotes_persists(v0, v1, ins, w, base, float_of),
        Token::Text(x) => {
            assert(v1.global@[ins.id() as int] == v0.global@[ins.id() as int]);
            lemma_fresh_persists(v0, v1, ins.id(), base);
        },
        _ => {},
    }
}

/// What tokens compiled to stays so while the machine only interns more.
pub proof fn lemma_compiles_persists<F: Fn(&Vec<char>) -> Option<u64>>(
    v0: VM,
    v1: VM,
    ins: Seq<Instr>,
    toks: Seq<Token>,
    base: nat,
    float_of: F,
)
    requires
        compiles(v0, ins, toks, base, float_of),
        grows(v0, v1),
    ensures
        compiles(v1, ins, toks, base, float_of),
    decreases toks.len(),
{
    if toks.len() == 0 || ins.len() == 0 {
    } else if toks.last() is Close {
        let j = choose|j: int| {
            &&& 0 <= j < toks.len() - 1
            &&& #[trigger] toks[j] is Open
            &&& ins.last() is Load
            &&& fresh(v0, ins.last().id(), base)
            &&& match v0.global_view()[ins.last().id() as int] {
                Val::Func(body) => compiles(v0, body, toks.subrange(j + 1, toks.len() - 1), base, float_of),
                _ => false,
            }
            &&& compiles(v0, ins.drop_last(), toks.subrange(0, j), base, float_of)
        };
        let id = ins.last().id() as int;
        assert(v1.global@[id] == v0.global@[id]);
        lemma_fresh_persists(v0, v1, ins.last().id(), base);
        match v0.global_view()[id] {
            Val::Func(body) => {
                lemma_compiles_persists(v0, v1, body, toks.subrange(j + 1, toks.len() - 1), base, float_of);
            },
            _ => {},
        }
        lemma_compiles_persists(v0, v1, ins.drop_last(), toks.subrange(0, j), base, float_of);
        assert(toks[j] is Open);
    } else {
        lemma_denotes_token_persists(v0, v1, ins.last(), toks.last(), base, float_of);
        lemma_compiles_persists(v0, v1, ins.drop_last(), toks.drop_last(), base, float_of);
    }
}

/// What the open blocks compiled to stays so while the machine only interns
/// more.
pub proof fn lemma_stack_persists<F: Fn(&Vec<char>) -> Option<u64>>(
    v0: VM,
    v1: VM,
    st: Seq<Vec<Instr>>,
    ts: Seq<Seq<Token>>,
    base: nat,
    float_of: F,
)
    requires
        grows(v0, v1),
        ts.len() <= st.len(),
        forall|j: int| 0 <= j < ts.len() ==> #[trigger] compiles(v0, st[j]@, ts[j], base, float_of),
    ensures
        forall|j: int| 0 <= j < ts.len() ==> #[trigger] compiles(v1, st[j]@, ts[j], base, float_of),
{
    assert forall|j: int| 0 <= j < ts.len() implies #[trigger] compiles(v1, st[j]@, ts[j], base, float_of) by {
        lemma_compiles_persists(v0, v1, st[j]@, ts[j], base, float_of);
    }
}

/// The resumable compiler: input not yet consumed, the instruction lists of
/// the blocks still open, and the instructions of the unit being built.
pub struct Parser {
    pub partial: Vec<char>,
    pub partial_f: Vec<Vec<Instr>>,
    pub current: Vec<Instr>,
    /// The tokens read into each open block and into the unit being built.
    pub pending: Ghost<Seq<Seq<Token>>>,
    /// The symbol count when the unit being built began.
    pub base: Ghost<nat>,
}

impl Parser {
    /// Every instruction held refers to a slot of a store of `n` slots.
    pub open spec fn wf(&self, n: nat) -> bool {
        &&& instrs_in_store(self.current@, n)
        &&& forall|i: int| 0 <= i < self.partial_f@.len() ==> instrs_in_store(#[trigger] self.partial_f@[i]@, n)
    }

    /// Nothing pending: no input, no open block, no instruction.
    pub open spec fn is_idle(&self) -> bool {
        &&& self.partial@.len() == 0
        &&& self.partial_f@.len() == 0
        &&& self.current@.len() == 0
        &&& self.pending@ == Seq::<Seq<Token>>::empty().push(Seq::empty())
        &&& self.base@ == 0
    }

    /// The tokens read so far and not yet returned as a unit.
    pub open spec fn flat(&self) -> Seq<Token> {
        opened(self.pending@.drop_last()) + self.pending@.last()
    }

    /// The symbol count from which the slots of the unit being built are
    /// fresh: the current one when nothing is pending.
    pub open spec fn unit_base(&self, vm: VM) -> nat {
        if self.partial_f@.len() == 0 && self.current@.len() == 0 {
            vm.sym_cnt as nat
        } else {
            self.base@
        }
    }

    /// The instructions held are what the pending tokens compile to, one
    /// list per open block, and as many blocks are open as the tokens leave
    /// open.
    pub open spec fn tokens_ok<F: Fn(&Vec<char>) -> Option<u64>>(&self, vm: VM, float_of: F) -> bool {
        &&& self.pending@.len() == self.partial_f@.len() + 1
        &&& forall|j: int| 0 <= j < self.partial_f@.len()
            ==> #[trigger] compiles(vm, self.partial_f@[j]@, self.pending@[j], self.base@, float_of)
        &&& compiles(vm, self.current@, self.pending@.last(), self.base@, float_of)
        &&& depth(self.flat()) == self.partial_f@.len()
        &&& self.base@ <= vm.sym_cnt
        &&& prefixes_ok(self.flat())
    }

    pub fn new() -> (r: Parser)
        ensures
            r.is_idle(),
    {
        Parser {
            partial: Vec::new(),
            partial_f: Vec::new(),
            current: Vec::new(),
            pending: Ghost(Seq::<Seq<Token>>::empty().push(Seq::empty())),
            base: Ghost(0),
        }
    }

    /// An idle parser holds what no tokens compile to.
    pub proof fn lemma_idle_tokens_ok<F: Fn(&Vec<char>) -> Option<u64>>(&self, vm: VM, float_of: F)
        requires
            self.is_idle(),
        ensures
            self.tokens_ok(vm, float_of),
            self.flat().len() == 0,
    {
        assert(self.pending@.drop_last() =~= Seq::<Seq<Token>>::empty());
        assert(self.flat() =~= Seq::<Token>::empty());
        assert(self.flat().subrange(0, 0) =~= Seq::<Token>::empty());
    }

    fn reset(&mut self)
        ensures
            final(self).is_idle(),
    {
        self.partial = Vec::new();
        self.partial_f = Vec::new();
        self.current = Vec::new();
        self.pending = Ghost(Seq::<Seq<Token>>::empty().push(Seq::empty()));
        self.base = Ghost(0);
    }

    /// Compiles the pending input. Input that ends inside a string stays
    /// pending; a block still open keeps its instructions. Unless `at_end`
    /// says no more input will come, either is `Incomplete`; with `at_end` it
    /// is `Unterminated`. A fatal error clears the parser.
    #[verifier::rlimit(100)]
    pub fn parse_all<F: Fn(&Vec<char>) -> Option<u64>>(&mut self, vm: &mut VM, at_end: bool, float_of: &F) -> (r: Result<Func, ParseError>)
        requires
            old(vm).wf(),
            old(self).wf(old(vm).global@.len()),
            old(self).tokens_ok(*old(vm), *float_of),
            forall|t: &Vec<char>| float_of.requires((t,)),
        ensures
            final(vm).wf(),
            final(self).wf(final(vm).global@.len()),
            final(self).tokens_ok(*final(vm), *float_of),
            final(vm).global@.len() >= old(vm).global@.len(),
            final(vm).stack == old(vm).stack,
            final(vm).call_frame == old(vm).call_frame,
            grows(*old(vm), *final(vm)),
            final(vm).sym_cnt <= old(vm).sym_cnt + old(self).partial@.len(),
            ({
                let all = old(self).flat() + words(old(self).partial@, 0);
                &&& balanced(all) && !all.contains(Token::Unclosed)
                    && old(vm).sym_cnt + old(self).partial@.len() < u32::MAX ==> r is Ok
                &&& !prefixes_ok(all) && old(vm).sym_cnt + old(self).partial@.len() < u32::MAX
                    ==> r == Err::<Func, ParseError>(ParseError::UnexpectedClose)
                &&& r matches Ok(f) ==> compiles(*final(vm), f.instrs@, all, old(self).unit_base(*old(vm)), *float_of)
                &&& r == Err::<Func, ParseError>(ParseError::Incomplete) ==> exists|k: int| {
                    &&& 0 <= k <= old(self).partial@.len()
                    &&& final(self).partial@ == old(self).partial@.subrange(k, old(self).partial@.len() as int)
                    &&& final(self).flat() + words(old(self).partial@, k) == all
                    &&& (words(old(self).partial@, k).len() == 0
                        || words(old(self).partial@, k) == seq![Token::Unclosed])
                }
            }),
            match r {
                Ok(f) => instrs_in_store(f.instrs@, final(vm).global@.len()) && final(self).is_idle(),
                Err(ParseError::Incomplete) => {
                    &&& !at_end
                    &&& exists|k: int| 0 <= k <= old(self).partial@.len()
                        && final(self).partial@ == old(self).partial@.subrange(k, old(self).partial@.len() as int)
                        && (final(self).partial_f@.len() > 0 || (k < old(self).partial@.len()
                            && is_quote(old(self).partial@[k]) && fenced(old(self).partial@, k) is None))
                },
                Err(e) => {
                    &&& final(self).is_idle()
                    &&& e == ParseError::Unterminated ==> at_end
                    &&& e == ParseError::UnexpectedClose ==> old(self).partial@.contains(')')
                    &&& e == ParseError::SymbolsExhausted ==> final(vm).sym_cnt == u32::MAX
                },
            },
    {
        let mut f: Vec<Instr> = Vec::new();
        std::mem::swap(&mut f, &mut self.current);
        let len = self.partial.len();
        let mut i: usize = 0;
        let mut open_string = false;
        let ghost b = old(self).unit_base(*old(vm));
        let ghost flat0 = old(self).flat();
        let ghost mut tstack: Seq<Seq<Token>> = old(self).pending@.drop_last();
        let ghost mut tcur: Seq<Token> = old(self).pending@.last();
        proof {
            if old(self).partial_f@.len() == 0 && old(self).current@.len() == 0 {
                assert(tcur.len() == 0);
            }
            assert forall|j: int| 0 <= j < tstack.len()
                implies #[trigger] compiles(*vm, self.partial_f@[j]@, tstack[j], b, *float_of) by {
                assert(compiles(*vm, self.partial_f@[j]@, old(self).pending@[j], old(self).base@, *float_of));
            }
        }
        while i < len
            invariant
                i <= len,
                len == self.partial@.len(),
                self.partial == old(self).partial,
                self.current@.len() == 0,
                vm.wf(),
                instrs_in_store(f@, vm.global@.len()),
                forall|k: int| 0 <= k < self.partial_f@.len() ==> instrs_in_store(#[trigger] self.partial_f@[k]@, vm.global@.len()),
                vm.global@.len() >= old(vm).global@.len(),
                vm.stack == old(vm).stack,
                vm.call_frame == old(vm).call_frame,
                forall|t: &Vec<char>| float_of.requires((t,)),
                open_string ==> i < len && is_quote(self.partial@[i as int]) && fenced(self.partial@, i as int) is None,
                old(vm).sym_cnt <= vm.sym_cnt <= old(vm).sym_cnt + i,
                depth(opened(tstack) + tcur) == tstack.len(),
                prefixes_ok(opened(tstack) + tcur),
                open_string ==> words(self.partial@, i as int) == seq![Token::Unclosed],
                tstack.len() == self.partial_f@.len(),
                flat0 == old(self).flat(),
                flat0 + words(self.partial@, 0) == opened(tstack) + tcur + words(self.partial@, i as int),
                compiles(*vm, f@, tcur, b, *float_of),
                forall|j: int| 0 <= j < tstack.len()
                    ==> #[trigger] compiles(*vm, self.partial_f@[j]@, tstack[j], b, *float_of),
                grows(*old(vm), *vm),
                b <= old(vm).sym_cnt,
                b == old(self).unit_base(*old(vm)),
            ensures
                !open_string ==> i == len,
            decreases len - i,
        {
            i = skip_whitespace(&self.partial, i);
            if i >= len {
                break;
            }
            let c = self.partial[i];
            let ghost s = self.partial@;
            if c == '#' {
                i = skip_comment(&self.partial, i);
            } else if c == '\'' || c == '"' || c == '`' {
                match parse_string(&self.partial, i) {
                    None => {
                        open_string = true;
                        proof {
                            assert(words(s, i as int) == seq![Token::Unclosed]);
                        }
                        break;
                    },
                    Some((text, e)) => {
                        let lit = Value::Lit(Literal::Str(string_of(&text)));
                        let ghost vm0 = *vm;
                        let ghost f0 = f@;
                        proof {
                            lemma_fenced_progress(self.partial@, i as int);
                        }
                        match intern_value(vm, lit) {
                            None => {
                                self.reset();
                                proof {
                                    self.lemma_idle_tokens_ok(*vm, *float_of);
                                }
                                return Err(ParseError::SymbolsExhausted);
                            },
                            Some(id) => {
                                f.push(Instr::Load(id));
                                proof {
                                    {
                                        let tk = Token::Text(text@);
                                        assert(words(s, i as int) == seq![tk] + words(s, e as int));
                                        assert(grows(vm0, *vm));
                                        lemma_compiles_persists(vm0, *vm, f0, tcur, b, *float_of);
                                        lemma_stack_persists(vm0, *vm, self.partial_f@, tstack, b, *float_of);
                                        assert(f@.drop_last() =~= f0);
                                        assert(tcur.push(tk).drop_last() =~= tcur);
                                        assert(compiles(*vm, f@, tcur.push(tk), b, *float_of));
                                        assert(opened(tstack) + tcur + words(s, i as int)
                                            =~= opened(tstack) + tcur.push(tk) + words(s, e as int));
                                        assert(opened(tstack) + tcur.push(tk) =~= (opened(tstack) + tcur).push(tk));
                                        assert((opened(tstack) + tcur).push(tk).drop_last() =~= opened(tstack) + tcur);
                                        lemma_push_prefixes(opened(tstack) + tcur, tk);
                                        lemma_push_prefixes(opened(tstack) + tcur, tk);
                                tcur = tcur.push(tk);
                                    }
                                }
                            },
                        }
                        i = e;
                    },
                }
            } else if c == '(' {
                let ghost pf0 = self.partial_f@;
                let mut inner: Vec<Instr> = Vec::new();
                std::mem::swap(&mut inner, &mut f);
                self.partial_f.push(inner);
                proof {
                    {
                        assert(words(s, i as int) == seq![Token::Open] + words(s, i + 1));
                        let ts2 = tstack.push(tcur);
                        assert(ts2.drop_last() =~= tstack);
                        assert(opened(ts2) == opened(tstack) + tcur + seq![Token::Open]);
                        assert forall|j: int| 0 <= j < ts2.len()
                            implies #[trigger] compiles(*vm, self.partial_f@[j]@, ts2[j], b, *float_of) by {
                            if j < tstack.len() {
                                assert(self.partial_f@[j] == pf0[j]);
                            }
                        }
                        assert(opened(tstack) + tcur + words(s, i as int)
                            =~= opened(ts2) + Seq::<Token>::empty() + words(s, i + 1));
                        assert(opened(ts2) + Seq::<Token>::empty() =~= (opened(tstack) + tcur).push(Token::Open));
                        assert((opened(tstack) + tcur).push(Token::Open).drop_last() =~= opened(tstack) + tcur);
                        lemma_push_prefixes(opened(tstack) + tcur, Token::Open);
                        tstack = ts2;
                        tcur = Seq::empty();
                    }
                }
                i = i + 1;
            } else if c == ')' {
                let ghost pf0 = self.partial_f@;
                match self.partial_f.pop() {
                    None => {
                        assert(old(self).partial@[i as int] == ')');
                        proof {
                            if balanced(flat0 + words(s, 0)) {
                                let p = (opened(tstack) + tcur).push(Token::Close);
                                assert(words(s, i as int) == seq![Token::Close] + words(s, i + 1));
                                assert((flat0 + words(s, 0)).subrange(0, p.len() as int) =~= p);
                                assert(p.drop_last() =~= opened(tstack) + tcur);
                                assert(depth(p) == -1);
                                assert(depth((flat0 + words(s, 0)).subrange(0, p.len() as int)) >= 0);
                            }
                        }
                        self.reset();
                        proof {
                            self.lemma_idle_tokens_ok(*vm, *float_of);
                        }
                        return Err(ParseError::UnexpectedClose);
                    },
                    Some(outer) => {
                        let ghost vm0 = *vm;
                        let ghost f0 = f@;
                        let ghost o0 = outer@;
                        let body = Value::Func(Func { instrs: f });
                        f = outer;
                        match intern_value(vm, body) {
                            None => {
                                self.reset();
                                proof {
                                    self.lemma_idle_tokens_ok(*vm, *float_of);
                                }
                                return Err(ParseError::SymbolsExhausted);
                            },
                            Some(id) => {
                                f.push(Instr::Load(id));
                                proof {
                                    {
                                        let touter = tstack.last();
                                        let ts2 = tstack.drop_last();
                                        let tc2 = touter + seq![Token::Open] + tcur + seq![Token::Close];
                                        assert(grows(vm0, *vm));
                                        assert(o0 == pf0.last()@);
                                        assert(compiles(vm0, o0, touter, b, *float_of));
                                        lemma_compiles_persists(vm0, *vm, f0, tcur, b, *float_of);
                                        lemma_compiles_persists(vm0, *vm, o0, touter, b, *float_of);
                                        assert forall|j: int| 0 <= j < ts2.len()
                                            implies #[trigger] compiles(vm0, self.partial_f@[j]@, ts2[j], b, *float_of) by {
                                            assert(self.partial_f@[j] == pf0[j]);
                                            assert(compiles(vm0, pf0[j]@, tstack[j], b, *float_of));
                                        }
                                        lemma_stack_persists(vm0, *vm, self.partial_f@, ts2, b, *float_of);
                                        let jj = touter.len() as int;
                                        assert(tc2[jj] is Open);
                                        assert(tc2.subrange(jj + 1, tc2.len() - 1) =~= tcur);
                                        assert(tc2.subrange(0, jj) =~= touter);
                                        assert(f@.drop_last() =~= o0);
                                        assert(vm.global_view()[id as int] == Val::Func(f0));
                                        assert(compiles(*vm, f@, tc2, b, *float_of));
                                        assert(words(s, i as int) == seq![Token::Close] + words(s, i + 1));
                                        assert(opened(tstack) == opened(ts2) + touter + seq![Token::Open]);
                                        assert(opened(tstack) + tcur + words(s, i as int) =~= opened(ts2) + tc2 + words(s, i + 1));
                                        assert(opened(ts2) + tc2 =~= (opened(tstack) + tcur).push(Token::Close));
                                        assert((opened(tstack) + tcur).push(Token::Close).drop_last() =~= opened(tstack) + tcur);
                                        lemma_push_prefixes(opened(tstack) + tcur, Token::Close);
                                        tstack = ts2;
                                        tcur = tc2;
                                    }
                                }
                            },
                        }
                    },
                }
                i = i + 1;
            } else {
                let e = scan_bareword(&self.partial, i);
                let tok = slice_chars(&self.partial, i, e);
                let bits = float_of(&tok);
                let ghost vm0 = *vm;
                let ghost f0 = f@;
                match compile_bareword(vm, &tok, bits) {
                    None => {
                        self.reset();
                        proof {
                            self.lemma_idle_tokens_ok(*vm, *float_of);
                        }
                        return Err(ParseError::SymbolsExhausted);
                    },
                    Some(ins) => {
                        f.push(ins);
                        proof {
                            {
                                let w = tok@;
                                assert(word_end(s, i as int) == word_end(s, i + 1));
                                let tk = Token::Word(w);
                                assert(words(s, i as int) == seq![tk] + words(s, e as int));
                                assert(grows(vm0, *vm));
                                lemma_compiles_persists(vm0, *vm, f0, tcur, b, *float_of);
                                lemma_stack_persists(vm0, *vm, self.partial_f@, tstack, b, *float_of);
                                match bareword(w) {
                                    Bareword::Other => {
                                        assert(float_of.ensures((&tok,), bits));
                                    },
                                    _ => {},
                                }
                                assert(denotes_token(*vm, ins, tk, b, *float_of));
                                assert(f@.drop_last() =~= f0);
                                assert(tcur.push(tk).drop_last() =~= tcur);
                                assert(compiles(*vm, f@, tcur.push(tk), b, *float_of));
                                assert(opened(tstack) + tcur + words(s, i as int)
                                    =~= opened(tstack) + tcur.push(tk) + words(s, e as int));
                                assert(opened(tstack) + tcur.push(tk) =~= (opened(tstack) + tcur).push(tk));
                                assert((opened(tstack) + tcur).push(tk).drop_last() =~= opened(tstack) + tcur);
                                lemma_push_prefixes(opened(tstack) + tcur, tk);
                                tcur = tcur.push(tk);
                            }
                        }
                    },
                }
                i = e;
            }
        }
        proof {
            let w0 = flat0 + words(self.partial@, 0);
            let x = opened(tstack) + tcur;
            if open_string {
                assert(w0 =~= x.push(Token::Unclosed));
                assert(x.push(Token::Unclosed).drop_last() =~= x);
                lemma_push_prefixes(x, Token::Unclosed);
            } else {
                assert(words(self.partial@, len as int) == Seq::<Token>::empty());
                assert(w0 =~= x);
            }
            assert(prefixes_ok(w0));
            if balanced(w0) && !w0.contains(Token::Unclosed) {
                if open_string {
                    let at = (opened(tstack) + tcur).len() as int;
                    assert(w0[at] == Token::Unclosed);
                } else {
                    assert(words(self.partial@, len as int) == Seq::<Token>::empty());
                    assert(w0 =~= opened(tstack) + tcur);
                }
            }
        }
        let rest = slice_chars(&self.partial, i, len);
        let ghost k = i as int;
        self.partial = rest;
        if open_string || self.partial_f.len() > 0 {
            if at_end {
                self.reset();
                proof {
                    self.lemma_idle_tokens_ok(*vm, *float_of);
                }
                return Err(ParseError::Unterminated);
            }
            self.current = f;
            self.pending = Ghost(tstack.push(tcur));
            self.base = Ghost(b);
            proof {
                assert(self.pending@.drop_last() =~= tstack);
                assert(self.flat() == opened(tstack) + tcur);
                assert forall|j: int| 0 <= j < self.partial_f@.len()
                    implies #[trigger] compiles(*vm, self.partial_f@[j]@, self.pending@[j], self.base@, *float_of) by {
                    assert(self.pending@[j] == tstack[j]);
                }
                assert(self.flat() + words(old(self).partial@, k) == flat0 + words(old(self).partial@, 0));
            }
            assert(self.partial@ == old(self).partial@.subrange(k, old(self).partial@.len() as int));
            return Err(ParseError::Incomplete);
        }
        proof {
            {
                assert(tstack.len() == 0);
                assert(words(self.partial@, len as int) == Seq::<Token>::empty());
                assert(flat0 + words(old(self).partial@, 0) =~= tcur);
            }
        }
        self.pending = Ghost(Seq::<Seq<Token>>::empty().push(Seq::empty()));
        self.base = Ghost(0);
        proof {
            self.lemma_idle_tokens_ok(*vm, *float_of);
        }
        Ok(Func { instrs: f })
    }

    /// Appends `code` to the pending input and compiles it as `parse_all`
    /// does.
    pub fn parse<F: Fn(&Vec<char>) -> Option<u64>>(&mut self, vm: &mut VM, code: &str, at_end: bool, float_of: &F) -> (r: Result<Func, ParseError>)
        requires
            old(vm).wf(),
            old(self).wf(old(vm).global@.len()),
            old(self).tokens_ok(*old(vm), *float_of),
            forall|t: &Vec<char>| float_of.requires((t,)),
        ensures
            final(vm).wf(),
            final(self).wf(final(vm).global@.len()),
            final(self).tokens_ok(*final(vm), *float_of),
            final(vm).global@.len() >= old(vm).global@.len(),
            final(vm).stack == old(vm).stack,
            final(vm).call_frame == old(vm).call_frame,
            grows(*old(vm), *final(vm)),
            final(vm).sym_cnt <= old(vm).sym_cnt + old(self).partial@.len() + code@.len(),
            ({
                let input = old(self).partial@ + code@;
                let all = old(self).flat() + words(input, 0);
                &&& balanced(all) && !all.contains(Token::Unclosed)
                    && old(vm).sym_cnt + input.len() < u32::MAX ==> r is Ok
                &&& !prefixes_ok(all) && old(vm).sym_cnt + input.len() < u32::MAX
                    ==> r == Err::<Func, ParseError>(ParseError::UnexpectedClose)
                &&& r matches Ok(f) ==> compiles(*final(vm), f.instrs@, all, old(self).unit_base(*old(vm)), *float_of)
                &&& r == Err::<Func, ParseError>(ParseError::Incomplete) ==> exists|k: int| {
                    &&& 0 <= k <= input.len()
                    &&& final(self).partial@ == input.subrange(k, input.len() as int)
                    &&& final(self).flat() + words(input, k) == all
                    &&& (words(input, k).len() == 0 || words(input, k) == seq![Token::Unclosed])
                }
            }),
            ({
                let input = old(self).partial@ + code@;
                match r {
                    Ok(f) => instrs_in_store(f.instrs@, final(vm).global@.len()) && final(self).is_idle(),
                    Err(ParseError::Incomplete) => {
                        &&& !at_end
                        &&& exists|k: int| 0 <= k <= input.len()
                            && final(self).partial@ == input.subrange(k, input.len() as int)
                            && (final(self).partial_f@.len() > 0 || (k < input.len()
                                && is_quote(input[k]) && fenced(input, k) is None))
                    },
                    Err(e) => {
                        &&& final(self).is_idle()
                        &&& e == ParseError::Unterminated ==> at_end
                        &&& e == ParseError::UnexpectedClose ==> input.contains(')')
                        &&& e == ParseError::SymbolsExhausted ==> final(vm).sym_cnt == u32::MAX
                    },
                }
            }),
    {
        let mut more = chars_of(code);
        self.partial.append(&mut more);
        self.parse_all(vm, at_end, float_of)
    }
}

} // verus!
