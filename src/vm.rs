use vstd::prelude::*;
use crate::value::{Func, Instr, LitV, Literal, SymbolId, Val, Value};

verus! {

/// A pending application: the function being run and the index of its next
/// instruction.
pub struct Frame {
    pub func: Func,
    pub pc: usize,
}

/// The stack machine: symbol table, global store, operand stack and call frames.
pub struct VM {
    /// Number of ids handed out so far; the next id to allocate.
    pub sym_cnt: SymbolId,
    /// Named symbols and their ids.
    pub sym_map: Vec<(Vec<char>, SymbolId)>,
    /// Operand stack; the last element is the top.
    pub stack: Vec<Value>,
    /// Global store, indexed by symbol id.
    pub global: Vec<Value>,
    /// Call frames; the last element is the running one.
    pub call_frame: Vec<Frame>,
}

/// Whether every symbol a value refers to has a slot in a store of `n` slots.
pub open spec fn val_in_store(v: Val, n: nat) -> bool {
    match v {
        Val::Func(instrs) => instrs_in_store(instrs, n),
        Val::Cons(a, b) => a < n && b < n,
        _ => true,
    }
}

/// Whether every instruction refers to a slot in a store of `n` slots.
pub open spec fn instrs_in_store(instrs: Seq<Instr>, n: nat) -> bool {
    forall|k: int| 0 <= k < instrs.len() ==> (#[trigger] instrs[k]).id() < n
}

/// Whether two character vectors hold the same characters.
pub fn chars_eq(a: &Vec<char>, b: &Vec<char>) -> (r: bool)
    ensures
        r == (a@ == b@),
{
    if a.len() != b.len() {
        return false;
    }
    let mut i: usize = 0;
    while i < a.len()
        invariant
            a@.len() == b@.len(),
            i <= a@.len(),
            forall|k: int| 0 <= k < i ==> a@[k] == b@[k],
        decreases a@.len() - i,
    {
        if a[i] != b[i] {
            return false;
        }
        i = i + 1;
    }
    assert(a@ =~= b@);
    true
}

/// Copies a character vector.
pub fn copy_chars(v: &Vec<char>) -> (r: Vec<char>)
    ensures
        r@ == v@,
{
    let mut r: Vec<char> = Vec::new();
    let mut i: usize = 0;
    while i < v.len()
        invariant
            i <= v@.len(),
            r@ == v@.subrange(0, i as int),
        decreases v@.len() - i,
    {
        r.push(v[i]);
        i = i + 1;
    }
    assert(r@ =~= v@);
    r
}

impl VM {
    pub open spec fn stack_view(&self) -> Seq<Val> {
        self.stack@.map_values(|v: Value| v@)
    }

    pub open spec fn global_view(&self) -> Seq<Val> {
        self.global@.map_values(|v: Value| v@)
    }

    /// The id bound to a name, if the name has been interned.
    pub open spec fn lookup(&self, name: Seq<char>) -> Option<SymbolId> {
        if exists|i: int| 0 <= i < self.sym_map@.len() && (#[trigger] self.sym_map@[i]).0@ == name {
            let i = choose|i: int| 0 <= i < self.sym_map@.len() && (#[trigger] self.sym_map@[i]).0@ == name;
            Some(self.sym_map@[i].1)
        } else {
            None
        }
    }

    /// The symbol table and the global store are consistent: names are
    /// unique, their ids are distinct and allocated, the store has a slot for
    /// every allocated id, and every value refers to existing slots.
    pub open spec fn wf(&self) -> bool {
        &&& self.sym_cnt as nat <= self.global@.len()
        &&& forall|i: int| 0 <= i < self.sym_map@.len() ==> (#[trigger] self.sym_map@[i]).1 < self.sym_cnt
        &&& forall|i: int, j: int|
            0 <= i < self.sym_map@.len() && 0 <= j < self.sym_map@.len() && i != j
                ==> (#[trigger] self.sym_map@[i]).0@ != (#[trigger] self.sym_map@[j]).0@
                    && self.sym_map@[i].1 != self.sym_map@[j].1
        &&& forall|i: int| 0 <= i < self.global@.len()
            ==> val_in_store((#[trigger] self.global@[i])@, self.global@.len())
        &&& forall|i: int| 0 <= i < self.stack@.len()
            ==> val_in_store((#[trigger] self.stack@[i])@, self.global@.len())
        &&& forall|i: int| 0 <= i < self.call_frame@.len()
            ==> instrs_in_store((#[trigger] self.call_frame@[i]).func.instrs@, self.global@.len())
    }

    /// An empty machine with no symbols.
    pub fn empty() -> (r: VM)
        ensures
            r.wf(),
            r.sym_cnt == 0,
            r.sym_map@.len() == 0,
            r.stack@.len() == 0,
            r.global@.len() == 0,
            r.call_frame@.len() == 0,
    {
        VM {
            sym_cnt: 0,
            sym_map: Vec::new(),
            stack: Vec::new(),
            global: Vec::new(),
            call_frame: Vec::new(),
        }
    }

    /// Grows the global store with `Nil` slots until it covers id `sym_cnt`.
    pub fn extend_global_for_sym(&mut self)
        requires
            old(self).wf(),
        ensures
            final(self).wf(),
            final(self).global@.len() > final(self).sym_cnt,
            final(self).global@.len() == if old(self).global@.len() > old(self).sym_cnt {
                old(self).global@.len() as int
            } else {
                old(self).sym_cnt + 1
            },
            forall|i: int| 0 <= i < old(self).global@.len() ==> final(self).global@[i] == old(self).global@[i],
            forall|i: int| old(self).global@.len() <= i < final(self).global@.len()
                ==> final(self).global@[i]@ == Val::Lit(LitV::Nil),
            final(self).sym_cnt == old(self).sym_cnt,
            final(self).sym_map == old(self).sym_map,
            final(self).stack == old(self).stack,
            final(self).call_frame == old(self).call_frame,
    {
        let cnt = self.sym_cnt as usize;
        while self.global.len() <= cnt
            invariant
                self.wf(),
                cnt == self.sym_cnt,
                old(self).global@.len() <= self.global@.len(),
                self.global@.len() <= if old(self).global@.len() > cnt { old(self).global@.len() as int } else { cnt + 1 },
                forall|i: int| 0 <= i < old(self).global@.len() ==> self.global@[i] == old(self).global@[i],
                forall|i: int| old(self).global@.len() <= i < self.global@.len()
                    ==> self.global@[i]@ == Val::Lit(LitV::Nil),
                self.sym_cnt == old(self).sym_cnt,
                self.sym_map == old(self).sym_map,
                self.stack == old(self).stack,
                self.call_frame == old(self).call_frame,
            decreases cnt + 1 - self.global@.len(),
        {
            self.global.push(Value::Lit(Literal::Nil));
        }
    }

    /// Allocates a fresh anonymous id with a `Nil` slot; `None` once the id
    /// space is exhausted.
    pub fn alloc_id(&mut self) -> (r: Option<SymbolId>)
        requires
            old(self).wf(),
        ensures
            final(self).wf(),
            old(self).sym_cnt == u32::MAX ==> r is None && *final(self) == *old(self),
            old(self).sym_cnt < u32::MAX ==> {
                &&& r == Some(old(self).sym_cnt)
                &&& final(self).sym_cnt == old(self).sym_cnt + 1
                &&& final(self).global@.len() > final(self).sym_cnt
                &&& final(self).global@.len() >= old(self).global@.len()
                &&& forall|i: int| 0 <= i < old(self).global@.len() ==> final(self).global@[i] == old(self).global@[i]
                &&& forall|i: int| old(self).global@.len() <= i < final(self).global@.len()
                    ==> final(self).global@[i]@ == Val::Lit(LitV::Nil)
                &&& final(self).sym_map == old(self).sym_map
                &&& final(self).stack == old(self).stack
                &&& final(self).call_frame == old(self).call_frame
            },
    {
        if self.sym_cnt == u32::MAX {
            return None;
        }
        let id = self.sym_cnt;
        self.extend_global_for_sym();
        self.sym_cnt = self.sym_cnt + 1;
        self.extend_global_for_sym();
        Some(id)
    }

    /// Position of a name in the symbol table, if present.
    fn find_name(&self, s: &Vec<char>) -> (r: Option<usize>)
        ensures
            match r {
                Some(i) => i < self.sym_map@.len() && self.sym_map@[i as int].0@ == s@,
                None => forall|i: int| 0 <= i < self.sym_map@.len() ==> (#[trigger] self.sym_map@[i]).0@ != s@,
            },
    {
        let mut i: usize = 0;
        while i < self.sym_map.len()
            invariant
                i <= self.sym_map@.len(),
                forall|k: int| 0 <= k < i ==> (#[trigger] self.sym_map@[k]).0@ != s@,
            decreases self.sym_map@.len() - i,
        {
            if chars_eq(&self.sym_map[i].0, s) {
                return Some(i);
            }
            i = i + 1;
        }
        None
    }

    /// Interns a name: the id already bound to it, or a fresh id bound to it
    /// from now on. `None` only when the name is new and the id space is
    /// exhausted.
    pub fn get_id(&mut self, s: &Vec<char>) -> (r: Option<SymbolId>)
        requires
            old(self).wf(),
        ensures
            final(self).wf(),
            old(self).lookup(s@) is Some ==> r == old(self).lookup(s@) && *final(self) == *old(self),
            old(self).lookup(s@) is None && old(self).sym_cnt == u32::MAX ==> r is None && *final(self) == *old(self),
            old(self).lookup(s@) is None && old(self).sym_cnt < u32::MAX ==> {
                &&& r == Some(old(self).sym_cnt)
                &&& final(self).sym_cnt == old(self).sym_cnt + 1
                &&& final(self).global@.len() > final(self).sym_cnt
                &&& forall|i: int| 0 <= i < old(self).global@.len() ==> final(self).global@[i] == old(self).global@[i]
                &&& forall|i: int| old(self).global@.len() <= i < final(self).global@.len()
                    ==> final(self).global@[i]@ == Val::Lit(LitV::Nil)
                &&& final(self).stack == old(self).stack
                &&& final(self).call_frame == old(self).call_frame
            },
            r is Some ==> final(self).lookup(s@) == r,
            final(self).global@.len() >= old(self).global@.len(),
            forall|n: Seq<char>| n != s@ ==> #[trigger] final(self).lookup(n) == old(self).lookup(n),
    {
        match self.find_name(s) {
            Some(i) => {
                proof {
                    assert(self.sym_map@[i as int].0@ == s@);
                }
                Some(self.sym_map[i].1)
            },
            None => {
                let ghost before = *self;
                match self.alloc_id() {
                    None => None,
                    Some(id) => {
                        let name = copy_chars(s);
                        self.sym_map.push((name, id));
                        proof {
                            let n = self.sym_map@.len() - 1;
                            assert(self.sym_map@[n].0@ == s@);
                            assert forall|m: Seq<char>| m != s@ implies #[trigger] self.lookup(m) == before.lookup(m) by {
                                if exists|i: int| 0 <= i < before.sym_map@.len() && (#[trigger] before.sym_map@[i]).0@ == m {
                                    let i = choose|i: int| 0 <= i < before.sym_map@.len() && (#[trigger] before.sym_map@[i]).0@ == m;
                                    assert(self.sym_map@[i].0@ == m);
                                }
                            }
                        }
                        Some(id)
                    },
                }
            },
        }
    }

    /// Stores a value in a global slot.
    pub fn set_global(&mut self, id: SymbolId, v: Value)
        requires
            old(self).wf(),
            id < old(self).global@.len(),
            val_in_store(v@, old(self).global@.len()),
        ensures
            final(self).wf(),
            final(self).global@ == old(self).global@.update(id as int, v),
            final(self).sym_cnt == old(self).sym_cnt,
            final(self).sym_map == old(self).sym_map,
            final(self).stack == old(self).stack,
            final(self).call_frame == old(self).call_frame,
            forall|n: Seq<char>| #[trigger] final(self).lookup(n) == old(self).lookup(n),
    {
        self.global.set(id as usize, v);
        assert forall|i: int| 0 <= i < self.global@.len()
            implies val_in_store((#[trigger] self.global@[i])@, self.global@.len()) by {
            if i != id {
                assert(self.global@[i] == old(self).global@[i]);
            }
        }
    }
}

/// Interning is injective: two names bound to one id are the same name.
pub proof fn lemma_lookup_injective(vm: VM, a: Seq<char>, b: Seq<char>)
    requires
        vm.wf(),
        vm.lookup(a) is Some,
        vm.lookup(a) == vm.lookup(b),
    ensures
        a == b,
{
    let i = choose|i: int| 0 <= i < vm.sym_map@.len() && (#[trigger] vm.sym_map@[i]).0@ == a;
    let j = choose|j: int| 0 <= j < vm.sym_map@.len() && (#[trigger] vm.sym_map@[j]).0@ == b;
    if i != j {
        assert(vm.sym_map@[i].1 != vm.sym_map@[j].1);
    }
}

/// The global store covers every allocated id, so every id bound to a name
/// has a slot.
pub proof fn lemma_store_covers(vm: VM, name: Seq<char>)
    requires
        vm.wf(),
        vm.lookup(name) is Some,
    ensures
        vm.lookup(name)->0 < vm.sym_cnt <= vm.global@.len(),
{
    let i = choose|i: int| 0 <= i < vm.sym_map@.len() && (#[trigger] vm.sym_map@[i]).0@ == name;
    assert(vm.sym_map@[i].1 < vm.sym_cnt);
}

} // verus!
