use crate::bytecode::ByteCode;
use crate::parse::ParseProto;
use crate::value::{display, NativeFn, Value, ValueView};
use vstd::prelude::*;

verus! {

/// What running a program hands to the world outside.
pub enum Effect {
    /// A native `print` wrote this text as one line.
    Print(Vec<u8>),
    /// A call of a value that is not a function: the run goes on.
    NotCallable,
}

pub enum EffectView {
    Print(Seq<u8>),
    NotCallable,
}

impl View for Effect {
    type V = EffectView;

    open spec fn view(&self) -> EffectView {
        match self {
            Effect::Print(t) => EffectView::Print(t@),
            Effect::NotCallable => EffectView::NotCallable,
        }
    }
}

/// The state that instructions act on: the globals as a list of names and
/// values (the first entry for a name is the one that counts), the registers,
/// and the effects so far.
pub struct Machine {
    pub globals: Seq<(Seq<u8>, ValueView)>,
    pub regs: Seq<ValueView>,
    pub effects: Seq<EffectView>,
}

/// The index of the first entry from `i` on whose name is `k`.
pub open spec fn find_key(g: Seq<(Seq<u8>, ValueView)>, k: Seq<u8>, i: int) -> Option<int>
    decreases g.len() - i,
{
    if i < 0 || i >= g.len() {
        None
    } else if g[i].0 == k {
        Some(i)
    } else {
        find_key(g, k, i + 1)
    }
}

/// The index found is the first entry from `j` on with that name.
pub proof fn lemma_find_key(g: Seq<(Seq<u8>, ValueView)>, k: Seq<u8>, j: int)
    requires
        0 <= j,
    ensures
        match find_key(g, k, j) {
            Some(i) => j <= i < g.len() && g[i].0 == k && forall|l: int|
                j <= l < i ==> (#[trigger] g[l]).0 != k,
            None => forall|l: int| j <= l < g.len() ==> (#[trigger] g[l]).0 != k,
        },
    decreases g.len() - j,
{
    if j < g.len() && g[j].0 != k {
        lemma_find_key(g, k, j + 1);
    }
}

/// The value of global `k`; a missing global reads as nil.
pub open spec fn lookup(g: Seq<(Seq<u8>, ValueView)>, k: Seq<u8>) -> ValueView {
    match find_key(g, k, 0) {
        Some(i) => g[i].1,
        None => ValueView::Nil,
    }
}

/// The globals after `k` is set to `v`.
pub open spec fn assign(g: Seq<(Seq<u8>, ValueView)>, k: Seq<u8>, v: ValueView) -> Seq<
    (Seq<u8>, ValueView),
> {
    match find_key(g, k, 0) {
        Some(i) => g.update(i, (k, v)),
        None => g.push((k, v)),
    }
}

/// The registers grown with nil, if needed, so that register `r` exists.
pub open spec fn grow(regs: Seq<ValueView>, r: int) -> Seq<ValueView> {
    if r < regs.len() {
        regs
    } else {
        regs + Seq::new((r + 1 - regs.len()) as nat, |_i: int| ValueView::Nil)
    }
}

/// Register `r` set to `v`, after growing.
pub open spec fn put(regs: Seq<ValueView>, r: int, v: ValueView) -> Seq<ValueView> {
    grow(regs, r).update(r, v)
}

/// Writing register `r` never fails: the file grows to hold it, what was
/// there stays, and every new register but `r` holds nil.
pub proof fn lemma_register_growth(regs: Seq<ValueView>, r: int, v: ValueView)
    requires
        0 <= r,
    ensures
        put(regs, r, v).len() == if r < regs.len() { regs.len() as int } else { r + 1 },
        put(regs, r, v)[r] == v,
        forall|i: int| 0 <= i < regs.len() && i != r ==> #[trigger] put(regs, r, v)[i] == regs[i],
        forall|i: int|
            regs.len() <= i < put(regs, r, v).len() && i != r ==> #[trigger] put(regs, r, v)[i]
                == ValueView::Nil,
{
}

/// The global name that a constant holds, if it is a string.
pub open spec fn name_of(c: ValueView) -> Option<Seq<u8>> {
    match c {
        ValueView::Str(_, s) => Some(s),
        _ => None,
    }
}

/// The constant-pool operands of an instruction are in range.
pub open spec fn operands_ok(ins: ByteCode, n: int) -> bool {
    match ins {
        ByteCode::GetGlobal(_, c) => c < n,
        ByteCode::SetGlobal(c, _) => c < n,
        ByteCode::SetGlobalConst(c, k) => c < n && k < n,
        ByteCode::SetGlobalGlobal(c, k) => c < n && k < n,
        ByteCode::LoadConst(_, c) => c < n,
        _ => true,
    }
}

/// What one instruction does.
pub open spec fn step(m: Machine, ins: ByteCode, consts: Seq<ValueView>) -> Machine {
    match ins {
        ByteCode::LoadConst(dst, c) => Machine { regs: put(m.regs, dst as int, consts[c as int]), ..m },
        ByteCode::LoadNil(dst) => Machine { regs: put(m.regs, dst as int, ValueView::Nil), ..m },
        ByteCode::LoadBool(dst, b) => Machine {
            regs: put(m.regs, dst as int, ValueView::Boolean(b)),
            ..m
        },
        ByteCode::LoadInt(dst, n) => Machine {
            regs: put(m.regs, dst as int, ValueView::Integer(n as i64)),
            ..m
        },
        ByteCode::Move(dst, src) => {
            let r = grow(grow(m.regs, dst as int), src as int);
            Machine { regs: r.update(dst as int, r[src as int]), ..m }
        },
        ByteCode::GetGlobal(dst, c) => {
            let v = match name_of(consts[c as int]) {
                Some(k) => lookup(m.globals, k),
                None => ValueView::Nil,
            };
            Machine { regs: put(m.regs, dst as int, v), ..m }
        },
        ByteCode::SetGlobal(c, src) => match name_of(consts[c as int]) {
            Some(k) => {
                let r = grow(m.regs, src as int);
                Machine { globals: assign(m.globals, k, r[src as int]), regs: r, ..m }
            },
            None => m,
        },
        ByteCode::SetGlobalConst(c, k) => match name_of(consts[c as int]) {
            Some(n) => Machine { globals: assign(m.globals, n, consts[k as int]), ..m },
            None => m,
        },
        ByteCode::SetGlobalGlobal(c, k) => match (name_of(consts[c as int]), name_of(consts[k as int])) {
            (Some(n), Some(src)) => Machine {
                globals: assign(m.globals, n, lookup(m.globals, src)),
                ..m
            },
            _ => m,
        },
        ByteCode::Call(a, _) => {
            if a == 0 {
                m
            } else {
                let r = grow(m.regs, a as int);
                let e = match r[a - 1] {
                    ValueView::Function(NativeFn::Print) => EffectView::Print(display(r[a as int])),
                    _ => EffectView::NotCallable,
                };
                Machine { regs: r, effects: m.effects.push(e), ..m }
            }
        },
        _ => m,
    }
}

/// What a sequence of instructions does, in order.
pub open spec fn run(m: Machine, code: Seq<ByteCode>, consts: Seq<ValueView>) -> Machine
    decreases code.len(),
{
    if code.len() == 0 {
        m
    } else {
        step(run(m, code.drop_last(), consts), code.last(), consts)
    }
}

pub open spec fn values_view(s: Seq<Value>) -> Seq<ValueView> {
    s.map_values(|v: Value| v@)
}

pub open spec fn globals_view(s: Seq<(Vec<u8>, Value)>) -> Seq<(Seq<u8>, ValueView)> {
    s.map_values(|p: (Vec<u8>, Value)| (p.0@, p.1@))
}

pub open spec fn effects_view(s: Seq<Effect>) -> Seq<EffectView> {
    s.map_values(|e: Effect| e@)
}

/// The executor's state: the global environment, the register file and the
/// effects of the run so far.
pub struct ExeState {
    pub globals: Vec<(Vec<u8>, Value)>,
    pub stack: Vec<Value>,
    pub effects: Vec<Effect>,
}

/// The bytes `print`.
pub open spec fn print_name() -> Seq<u8> {
    seq![112u8, 114, 105, 110, 116]
}

impl ExeState {
    pub open spec fn wf(&self) -> bool {
        &&& forall|i: int| 0 <= i < self.stack@.len() ==> (#[trigger] self.stack@[i]).wf()
        &&& forall|i: int| 0 <= i < self.globals@.len() ==> (#[trigger] self.globals@[i]).1.wf()
        &&& forall|i: int, j: int|
            0 <= i < j < self.globals@.len() ==> (#[trigger] self.globals@[i]).0@ != (
            #[trigger] self.globals@[j]).0@
    }

    pub open spec fn machine(&self) -> Machine {
        Machine {
            globals: globals_view(self.globals@),
            regs: values_view(self.stack@),
            effects: effects_view(self.effects@),
        }
    }

    /// A fresh state: `print` is the one global, registers and effects are empty.
    pub fn new() -> (r: ExeState)
        ensures
            r.wf(),
            r.machine() == (Machine {
                globals: seq![(print_name(), ValueView::Function(NativeFn::Print))],
                regs: Seq::empty(),
                effects: Seq::empty(),
            }),
    {
        let mut globals: Vec<(Vec<u8>, Value)> = Vec::new();
        globals.push((vec![112u8, 114, 105, 110, 116], Value::Function(NativeFn::Print)));
        let r = ExeState { globals, stack: Vec::new(), effects: Vec::new() };
        assert(r.machine().globals =~= seq![(print_name(), ValueView::Function(NativeFn::Print))]);
        assert(r.machine().regs =~= Seq::empty());
        assert(r.machine().effects =~= Seq::empty());
        r
    }

    /// Runs every instruction of a compiled unit, in order.
    pub fn execute(&mut self, proto: &ParseProto)
        requires
            old(self).wf(),
            proto.wf(),
        ensures
            final(self).wf(),
            final(self).machine() == run(old(self).machine(), proto.byte_codes@, proto.consts()),
    {
        let ghost m0 = self.machine();
        let ghost code = proto.byte_codes@;
        let mut i: usize = 0;
        assert(code.subrange(0, 0) =~= Seq::<ByteCode>::empty());
        while i < proto.byte_codes.len()
            invariant
                self.wf(),
                proto.wf(),
                code == proto.byte_codes@,
                i <= code.len(),
                self.machine() == run(m0, code.subrange(0, i as int), proto.consts()),
            decreases code.len() - i,
        {
            let ins = proto.byte_codes[i];
            assert(operands_ok(code[i as int], proto.constants@.len() as int));
            self.step_one(ins, &proto.constants);
            assert(code.subrange(0, i as int + 1).drop_last() =~= code.subrange(0, i as int));
            i = i + 1;
        }
        assert(code.subrange(0, i as int) =~= code);
    }

    /// Runs one instruction against the constant pool `consts`.
    fn step_one(&mut self, ins: ByteCode, consts: &Vec<Value>)
        requires
            old(self).wf(),
            operands_ok(ins, consts@.len() as int),
            forall|i: int| 0 <= i < consts@.len() ==> (#[trigger] consts@[i]).wf(),
        ensures
            final(self).wf(),
            final(self).machine() == step(old(self).machine(), ins, values_view(consts@)),
    {
        match ins {
            ByteCode::LoadConst(dst, c) => {
                let v = consts[c as usize].copy();
                self.set_reg(dst as usize, v);
            },
            ByteCode::LoadNil(dst) => {
                self.set_reg(dst as usize, Value::Nil);
            },
            ByteCode::LoadBool(dst, b) => {
                self.set_reg(dst as usize, Value::Boolean(b));
            },
            ByteCode::LoadInt(dst, n) => {
                self.set_reg(dst as usize, Value::Integer(n as i64));
            },
            ByteCode::Move(dst, src) => {
                self.ensure_stack(dst as usize);
                self.ensure_stack(src as usize);
                let v = self.stack[src as usize].copy();
                let ghost before = self.stack@;
                self.stack.set(dst as usize, v);
                assert(values_view(self.stack@) =~= values_view(before).update(dst as int, v@));
            },
            ByteCode::GetGlobal(dst, c) => {
                let v = match consts[c as usize].str_bytes() {
                    Some(k) => self.get_global(&k),
                    None => Value::Nil,
                };
                self.set_reg(dst as usize, v);
            },
            ByteCode::SetGlobal(c, src) => {
                match consts[c as usize].str_bytes() {
                    Some(k) => {
                        self.ensure_stack(src as usize);
                        let v = self.stack[src as usize].copy();
                        self.set_global(k, v);
                    },
                    None => {},
                }
            },
            ByteCode::SetGlobalConst(c, k) => {
                match consts[c as usize].str_bytes() {
                    Some(n) => {
                        let v = consts[k as usize].copy();
                        self.set_global(n, v);
                    },
                    None => {},
                }
            },
            ByteCode::SetGlobalGlobal(c, k) => {
                match (consts[c as usize].str_bytes(), consts[k as usize].str_bytes()) {
                    (Some(n), Some(src)) => {
                        let v = self.get_global(&src);
                        self.set_global(n, v);
                    },
                    _ => {},
                }
            },
            ByteCode::Call(a, _) => {
                if a > 0 {
                    let a = a as usize;
                    self.ensure_stack(a);
                    let e = match &self.stack[a - 1] {
                        Value::Function(NativeFn::Print) => Effect::Print(self.stack[a].text()),
                        _ => Effect::NotCallable,
                    };
                    let ghost before = self.effects@;
                    self.effects.push(e);
                    assert(effects_view(self.effects@) =~= effects_view(before).push(e@));
                }
            },
            _ => {},
        }
    }

    /// Grows the register file with nil so that register `r` exists.
    fn ensure_stack(&mut self, r: usize)
        requires
            old(self).wf(),
        ensures
            final(self).wf(),
            final(self).globals == old(self).globals,
            final(self).effects == old(self).effects,
            values_view(final(self).stack@) == grow(values_view(old(self).stack@), r as int),
            final(self).stack@.len() > r,
    {
        let ghost old_regs = values_view(self.stack@);
        let ghost n0 = self.stack@.len();
        while self.stack.len() <= r
            invariant
                self.wf(),
                self.globals == old(self).globals,
                self.effects == old(self).effects,
                n0 <= self.stack@.len(),
                n0 < r + 1 ==> self.stack@.len() <= r + 1,
                n0 >= r + 1 ==> self.stack@.len() == n0,
                n0 == old_regs.len(),
                values_view(self.stack@) =~= old_regs + Seq::new(
                    (self.stack@.len() - n0) as nat,
                    |_i: int| ValueView::Nil,
                ),
            decreases r + 1 - self.stack@.len(),
        {
            let ghost before = self.stack@;
            self.stack.push(Value::Nil);
            assert(values_view(self.stack@) =~= values_view(before).push(ValueView::Nil));
            assert(values_view(self.stack@) =~= old_regs + Seq::new(
                (self.stack@.len() - n0) as nat,
                |_i: int| ValueView::Nil,
            ));
        }
        assert(values_view(self.stack@) =~= grow(old_regs, r as int));
    }

    /// Sets register `r`, growing the register file first.
    fn set_reg(&mut self, r: usize, v: Value)
        requires
            old(self).wf(),
            v.wf(),
        ensures
            final(self).wf(),
            final(self).globals == old(self).globals,
            final(self).effects == old(self).effects,
            values_view(final(self).stack@) == put(values_view(old(self).stack@), r as int, v@),
    {
        self.ensure_stack(r);
        let ghost before = self.stack@;
        self.stack.set(r, v);
        assert(values_view(self.stack@) =~= values_view(before).update(r as int, v@));
    }

    /// The index of the first global named `k`.
    fn find_global(&self, k: &Vec<u8>) -> (r: Option<usize>)
        ensures
            match r {
                Some(i) => find_key(globals_view(self.globals@), k@, 0) == Some(i as int),
                None => find_key(globals_view(self.globals@), k@, 0) is None,
            },
    {
        let ghost g = globals_view(self.globals@);
        let mut i: usize = 0;
        while i < self.globals.len()
            invariant
                i <= self.globals@.len(),
                g == globals_view(self.globals@),
                find_key(g, k@, i as int) == find_key(g, k@, 0),
            decreases self.globals@.len() - i,
        {
            if same_bytes(&self.globals[i].0, k) {
                return Some(i);
            }
            i = i + 1;
        }
        None
    }

    /// The value of global `k`, nil when it is missing.
    fn get_global(&self, k: &Vec<u8>) -> (r: Value)
        requires
            self.wf(),
        ensures
            r.wf(),
            r@ == lookup(globals_view(self.globals@), k@),
    {
        proof {
            lemma_find_key(globals_view(self.globals@), k@, 0);
        }
        match self.find_global(k) {
            Some(i) => {
                let v = self.globals[i].1.copy();
                v
            },
            None => Value::Nil,
        }
    }

    /// Sets global `k` to `v`.
    fn set_global(&mut self, k: Vec<u8>, v: Value)
        requires
            old(self).wf(),
            v.wf(),
        ensures
            final(self).wf(),
            final(self).stack == old(self).stack,
            final(self).effects == old(self).effects,
            globals_view(final(self).globals@) == assign(globals_view(old(self).globals@), k@, v@),
    {
        let ghost g = globals_view(self.globals@);
        proof {
            lemma_find_key(g, k@, 0);
        }
        match self.find_global(&k) {
            Some(i) => {
                let ghost before = self.globals@;
                assert(g[i as int].0 == k@);
                assert(before[i as int].0@ == k@);
                self.globals.set(i, (k, v));
                assert(globals_view(self.globals@) =~= g.update(i as int, (k@, v@)));
                assert forall|a: int, b: int|
                    0 <= a < b < self.globals@.len() implies (#[trigger] self.globals@[a]).0@ != (
                    #[trigger] self.globals@[b]).0@ by {
                    assert(self.globals@[a].0@ == before[a].0@);
                    assert(self.globals@[b].0@ == before[b].0@);
                }
            },
            None => {
                let ghost before = self.globals@;
                self.globals.push((k, v));
                assert(globals_view(self.globals@) =~= g.push((k@, v@)));
                assert forall|a: int, b: int|
                    0 <= a < b < self.globals@.len() implies (#[trigger] self.globals@[a]).0@ != (
                    #[trigger] self.globals@[b]).0@ by {
                    if b == before.len() {
                        assert(g[a].0 == before[a].0@);
                    } else {
                        assert(self.globals@[a] == before[a]);
                        assert(self.globals@[b] == before[b]);
                    }
                }
            },
        }
    }
}

/// Whether two byte strings are equal.
pub fn same_bytes(a: &Vec<u8>, b: &Vec<u8>) -> (r: bool)
    ensures
        r == (a@ == b@),
{
    if a.len() != b.len() {
        return false;
    }
    let mut i: usize = 0;
    while i < a.len()
        invariant
            a@.len() == b@.len(),
            i <= a@.len(),
            a@.subrange(0, i as int) == b@.subrange(0, i as int),
        decreases a@.len() - i,
    {
        if a[i] != b[i] {
            return false;
        }
        assert(a@.subrange(0, i as int + 1) =~= a@.subrange(0, i as int).push(a@[i as int]));
        assert(b@.subrange(0, i as int + 1) =~= b@.subrange(0, i as int).push(b@[i as int]));
        i = i + 1;
    }
    assert(a@ =~= a@.subrange(0, i as int));
    assert(b@ =~= b@.subrange(0, i as int));
    true
}

} // verus!
