use crate::bytecode::ByteCode;
use crate::lex::{delivers, scan, Lex, LexError, Scan, Token};
use crate::value::{tier_for, Value, ValueView};
use crate::vm::{operands_ok, same_bytes, step, values_view, Machine};
use vstd::prelude::*;

verus! {

/// Why a source text could not be compiled. Every one of these ends the run,
/// and no partial unit comes out.
#[derive(Debug, Clone, Copy, PartialEq, Eq, Structural)]
pub enum ParseError {
    /// The tokenizer failed.
    Lex(LexError),
    /// A token that no statement or expression of the grammar starts with.
    UnexpectedToken,
    /// `local` not followed by a name.
    ExpectedName,
    /// `local name` not followed by `=`.
    ExpectedAssign,
    /// A call's argument not followed by `)`.
    ExpectedParR,
    /// A name followed by neither `=`, `(` nor a string literal.
    ExpectedArguments,
    /// A register index past 255.
    TooManyRegisters,
    /// A constant index past what its operand can hold.
    TooManyConstants,
    /// A source text too long to address.
    SourceTooLarge,
}

/// The string constant with bytes `b`, in the tier its length calls for.
pub open spec fn str_const(b: Seq<u8>) -> ValueView {
    ValueView::Str(tier_for(b.len()), b)
}

/// The value that a literal token stands for.
pub open spec fn literal_value(t: Token) -> Option<ValueView> {
    match t {
        Token::Nil => Some(ValueView::Nil),
        Token::True => Some(ValueView::Boolean(true)),
        Token::False => Some(ValueView::Boolean(false)),
        Token::Integer(i) => Some(ValueView::Integer(i)),
        Token::Float(f) => Some(ValueView::Float(f)),
        Token::Str(b) => Some(str_const(b@)),
        _ => None,
    }
}

/// The index of the first local from `i` on named `n`.
pub open spec fn first_local(locals: Seq<Seq<u8>>, n: Seq<u8>, i: int) -> Option<int>
    decreases locals.len() - i,
{
    if i < 0 || i >= locals.len() {
        None
    } else if locals[i] == n {
        Some(i)
    } else {
        first_local(locals, n, i + 1)
    }
}

/// The index of the first pool entry from `i` on equal to `v`.
pub open spec fn pool_index(c: Seq<ValueView>, v: ValueView, i: int) -> Option<int>
    decreases c.len() - i,
{
    if i < 0 || i >= c.len() {
        None
    } else if c[i] == v {
        Some(i)
    } else {
        pool_index(c, v, i + 1)
    }
}

/// The pool after asking for `v`, and the index of `v` in it: an equal
/// entry is reused, else `v` is appended.
pub open spec fn pool_add(c: Seq<ValueView>, v: ValueView) -> (Seq<ValueView>, int) {
    match pool_index(c, v, 0) {
        Some(i) => (c, i),
        None => (c.push(v), c.len() as int),
    }
}

/// No two entries of the pool are equal.
pub open spec fn distinct(c: Seq<ValueView>) -> bool {
    forall|i: int, j: int| 0 <= i < j < c.len() ==> c[i] != c[j]
}

/// The name a token carries, if it is a name.
pub open spec fn tok_name(t: Token) -> Option<Seq<u8>> {
    match t {
        Token::Name(v) => Some(v@),
        _ => None,
    }
}

/// The literal value of a scanned token, if it is a literal.
pub open spec fn scan_lit(sc: Scan) -> Option<ValueView> {
    match sc {
        Scan::Plain(t, _) => literal_value(t),
        Scan::Str(w, _) => Some(str_const(w)),
        _ => None,
    }
}

/// The name of a scanned token, if it is a name.
pub open spec fn scan_name(sc: Scan) -> Option<Seq<u8>> {
    match sc {
        Scan::Plain(t, _) => tok_name(t),
        Scan::Name(w, _) => Some(w),
        _ => None,
    }
}

/// Where a scanned token ends (-1 for a failure).
pub open spec fn scan_end(sc: Scan) -> int {
    match sc {
        Scan::Plain(_, e) => e,
        Scan::Name(_, e) => e,
        Scan::Str(_, e) => e,
        Scan::Fail(_) => -1,
    }
}

/// A token handed out by the tokenizer has the literal value, name and end
/// that its scan describes.
pub proof fn lemma_scan_facts(sc: Scan, t: Token, e: int)
    requires
        delivers(sc, Ok::<Token, LexError>(t), e),
    ensures
        scan_lit(sc) == literal_value(t),
        scan_name(sc) == tok_name(t),
        scan_end(sc) == e,
        !(sc is Fail),
{
}

/// The pool and instruction that load the variable `n` into register
/// `dst`: a local is moved from its register; any other name is read from
/// the globals through its name in the pool.
pub open spec fn var_spec(c: Seq<ValueView>, locals: Seq<Seq<u8>>, n: Seq<u8>, dst: int) -> Result<
    (Seq<ValueView>, ByteCode),
    ParseError,
> {
    match first_local(locals, n, 0) {
        Some(i) => Ok((c, ByteCode::Move(dst as u8, i as u8))),
        None => {
            let (c2, k) = pool_add(c, str_const(n));
            if k > 255 {
                Err(ParseError::TooManyConstants)
            } else {
                Ok((c2, ByteCode::GetGlobal(dst as u8, k as u8)))
            }
        },
    }
}

/// The pool and instruction that load an expression into register `dst`;
/// the expression is the literal `lit` or the variable `name`. Nil,
/// booleans and integers that fit 16 bits are immediate; other literals go
/// to the pool.
pub open spec fn exp_spec(
    c: Seq<ValueView>,
    locals: Seq<Seq<u8>>,
    lit: Option<ValueView>,
    name: Option<Seq<u8>>,
    dst: int,
) -> Result<(Seq<ValueView>, ByteCode), ParseError> {
    match lit {
        Some(ValueView::Nil) => Ok((c, ByteCode::LoadNil(dst as u8))),
        Some(ValueView::Boolean(b)) => Ok((c, ByteCode::LoadBool(dst as u8, b))),
        Some(v) => if v is Integer && i16::MIN <= v->Integer_0 <= i16::MAX {
            Ok((c, ByteCode::LoadInt(dst as u8, v->Integer_0 as i16)))
        } else {
            let (c2, k) = pool_add(c, v);
            if k > 65535 {
                Err(ParseError::TooManyConstants)
            } else {
                Ok((c2, ByteCode::LoadConst(dst as u8, k as u16)))
            }
        },
        None => match name {
            Some(n) => var_spec(c, locals, n, dst),
            None => Err(ParseError::UnexpectedToken),
        },
    }
}

/// A compiled unit as values: the pool, the instructions and the locals.
pub struct UnitView {
    pub consts: Seq<ValueView>,
    pub code: Seq<ByteCode>,
    pub locals: Seq<Seq<u8>>,
}

/// The empty unit.
pub open spec fn empty_unit() -> UnitView {
    UnitView { consts: Seq::empty(), code: Seq::empty(), locals: Seq::empty() }
}

/// The unit after `local n = <exp>`: the expression goes to the next free
/// register, which then belongs to `n`.
pub open spec fn local_spec(
    u: UnitView,
    n: Seq<u8>,
    lit: Option<ValueView>,
    name: Option<Seq<u8>>,
) -> Result<UnitView, ParseError> {
    if u.locals.len() > 255 {
        Err(ParseError::TooManyRegisters)
    } else {
        match exp_spec(u.consts, u.locals, lit, name, u.locals.len() as int) {
            Ok((c, ins)) => Ok(UnitView { consts: c, code: u.code.push(ins), locals: u.locals.push(n) }),
            Err(e) => Err(e),
        }
    }
}

/// The pool and instruction that write the global whose name is pool entry
/// `d`: from a local's register, from another global, or from a literal.
pub open spec fn global_write_spec(
    c: Seq<ValueView>,
    locals: Seq<Seq<u8>>,
    lit: Option<ValueView>,
    name: Option<Seq<u8>>,
    d: u8,
) -> Result<(Seq<ValueView>, ByteCode), ParseError> {
    match name {
        Some(v) => match first_local(locals, v, 0) {
            Some(j) => Ok((c, ByteCode::SetGlobal(d, j as u8))),
            None => {
                let (c2, k) = pool_add(c, str_const(v));
                if k > 255 {
                    Err(ParseError::TooManyConstants)
                } else {
                    Ok((c2, ByteCode::SetGlobalGlobal(d, k as u8)))
                }
            },
        },
        None => match lit {
            Some(v) => {
                let (c2, k) = pool_add(c, v);
                if k > 255 {
                    Err(ParseError::TooManyConstants)
                } else {
                    Ok((c2, ByteCode::SetGlobalConst(d, k as u8)))
                }
            },
            None => Err(ParseError::UnexpectedToken),
        },
    }
}

/// The unit after `n = <exp>`: a local's register is reloaded; otherwise
/// the global named `n` is written.
pub open spec fn assign_spec(
    u: UnitView,
    n: Seq<u8>,
    lit: Option<ValueView>,
    name: Option<Seq<u8>>,
) -> Result<UnitView, ParseError> {
    match first_local(u.locals, n, 0) {
        Some(i) => match exp_spec(u.consts, u.locals, lit, name, i) {
            Ok((c, ins)) => Ok(UnitView { consts: c, code: u.code.push(ins), locals: u.locals }),
            Err(e) => Err(e),
        },
        None => if lit is None && name is None {
            Err(ParseError::UnexpectedToken)
        } else {
            let (c1, d) = pool_add(u.consts, str_const(n));
            if d > 255 {
                Err(ParseError::TooManyConstants)
            } else {
                match global_write_spec(c1, u.locals, lit, name, d as u8) {
                    Ok((c, ins)) => Ok(UnitView { consts: c, code: u.code.push(ins), locals: u.locals }),
                    Err(e) => Err(e),
                }
            }
        },
    }
}

/// The unit after a call of `n` with one argument (the expression in `arg`,
/// or nil): callee in the next free register, argument in the one after,
/// then the call naming the argument register.
pub open spec fn call_spec(
    u: UnitView,
    n: Seq<u8>,
    arg: Option<(Option<ValueView>, Option<Seq<u8>>)>,
) -> Result<UnitView, ParseError> {
    let f = u.locals.len() as int;
    if f > 254 {
        Err(ParseError::TooManyRegisters)
    } else {
        match var_spec(u.consts, u.locals, n, f) {
            Err(e) => Err(e),
            Ok((c1, i1)) => match arg {
                None => Ok(
                    UnitView {
                        consts: c1,
                        code: u.code.push(i1).push(ByteCode::LoadNil((f + 1) as u8)).push(
                            ByteCode::Call((f + 1) as u8, 1),
                        ),
                        locals: u.locals,
                    },
                ),
                Some((lit, name)) => match exp_spec(c1, u.locals, lit, name, f + 1) {
                    Err(e) => Err(e),
                    Ok((c2, i2)) => Ok(
                        UnitView {
                            consts: c2,
                            code: u.code.push(i1).push(i2).push(ByteCode::Call((f + 1) as u8, 1)),
                            locals: u.locals,
                        },
                    ),
                },
            },
        }
    }
}

/// The expression of a scanned token, as `call_spec` takes it.
pub open spec fn scan_arg(sc: Scan) -> Option<(Option<ValueView>, Option<Seq<u8>>)> {
    Some((scan_lit(sc), scan_name(sc)))
}

/// After `local`, from `p`: `n = <exp>`; where the statement ends and the
/// unit after it.
pub open spec fn local_stmt(s: Seq<u8>, p: int, u: UnitView) -> Result<(int, UnitView), ParseError> {
    match scan(s, p) {
        Scan::Fail(e) => Err(ParseError::Lex(e)),
        Scan::Name(n, e1) => match scan(s, e1) {
            Scan::Fail(e) => Err(ParseError::Lex(e)),
            Scan::Plain(Token::Assign, e2) => match scan(s, e2) {
                Scan::Fail(e) => Err(ParseError::Lex(e)),
                sc => match local_spec(u, n, scan_lit(sc), scan_name(sc)) {
                    Ok(u1) => Ok((scan_end(sc), u1)),
                    Err(er) => Err(er),
                },
            },
            _ => Err(ParseError::ExpectedAssign),
        },
        _ => Err(ParseError::ExpectedName),
    }
}

/// After the name `n` and `=`, from `p`: `<exp>`.
pub open spec fn assign_stmt(s: Seq<u8>, n: Seq<u8>, p: int, u: UnitView) -> Result<
    (int, UnitView),
    ParseError,
> {
    match scan(s, p) {
        Scan::Fail(e) => Err(ParseError::Lex(e)),
        sc => match assign_spec(u, n, scan_lit(sc), scan_name(sc)) {
            Ok(u1) => Ok((scan_end(sc), u1)),
            Err(er) => Err(er),
        },
    }
}

/// After the name `n`, from `p`, where a token other than `=` stands:
/// `(<exp>)`, `()` or a string literal.
pub open spec fn call_stmt(s: Seq<u8>, n: Seq<u8>, p: int, u: UnitView) -> Result<
    (int, UnitView),
    ParseError,
> {
    match scan(s, p) {
        Scan::Fail(e) => Err(ParseError::Lex(e)),
        Scan::Plain(Token::ParL, e1) => match scan(s, e1) {
            Scan::Fail(e) => Err(ParseError::Lex(e)),
            Scan::Plain(Token::ParR, e2) => match call_spec(u, n, None) {
                Ok(u1) => Ok((e2, u1)),
                Err(er) => Err(er),
            },
            sc => match call_spec(u, n, scan_arg(sc)) {
                Err(er) => Err(er),
                Ok(u1) => match scan(s, scan_end(sc)) {
                    Scan::Fail(e) => Err(ParseError::Lex(e)),
                    Scan::Plain(Token::ParR, e3) => Ok((e3, u1)),
                    _ => Err(ParseError::ExpectedParR),
                },
            },
        },
        Scan::Str(w, e1) => match call_spec(u, n, Some((Some(str_const(w)), None))) {
            Ok(u1) => Ok((e1, u1)),
            Err(er) => Err(er),
        },
        _ => Err(ParseError::ExpectedArguments),
    }
}

/// One statement from `p`, whose first token is not the end of input.
pub open spec fn stmt(s: Seq<u8>, p: int, u: UnitView) -> Result<(int, UnitView), ParseError> {
    match scan(s, p) {
        Scan::Fail(e) => Err(ParseError::Lex(e)),
        Scan::Plain(Token::Local, e1) => local_stmt(s, e1, u),
        Scan::Name(n, e1) => match scan(s, e1) {
            Scan::Fail(e) => Err(ParseError::Lex(e)),
            Scan::Plain(Token::Assign, e2) => assign_stmt(s, n, e2, u),
            _ => call_stmt(s, n, e1, u),
        },
        _ => Err(ParseError::UnexpectedToken),
    }
}

/// The unit that the statements from `p` up to the end of input make from
/// `u`, or the error that stops them. (Every statement moves forward; the
/// last branch only keeps the definition well founded.)
pub open spec fn parse_from(s: Seq<u8>, p: int, u: UnitView) -> Result<UnitView, ParseError>
    decreases s.len() - p,
{
    match scan(s, p) {
        Scan::Plain(Token::Eos, _) => Ok(u),
        _ => match stmt(s, p, u) {
            Err(e) => Err(e),
            Ok((q, u1)) => if p < q <= s.len() {
                parse_from(s, q, u1)
            } else {
                Err(ParseError::UnexpectedToken)
            },
        },
    }
}

/// The unit that a source text compiles to, or the error that stops it.
pub open spec fn compile(s: Seq<u8>) -> Result<UnitView, ParseError> {
    parse_from(s, 0, empty_unit())
}

/// The pool after asking for `v` holds `v` at the index given, and keeps
/// the entries it had.
pub proof fn lemma_pool_add(c: Seq<ValueView>, v: ValueView)
    ensures
        0 <= pool_add(c, v).1 < pool_add(c, v).0.len(),
        pool_add(c, v).0[pool_add(c, v).1] == v,
        pool_add(c, v).0.len() <= c.len() + 1,
        c.len() <= pool_add(c, v).0.len(),
        forall|i: int| 0 <= i < c.len() ==> #[trigger] pool_add(c, v).0[i] == c[i],
        distinct(c) ==> distinct(pool_add(c, v).0),
{
    lemma_pool_index(c, v, 0);
}

/// What `pool_index` finds.
pub proof fn lemma_pool_index(c: Seq<ValueView>, v: ValueView, i: int)
    requires
        0 <= i,
    ensures
        match pool_index(c, v, i) {
            Some(k) => i <= k < c.len() && c[k] == v && forall|j: int| i <= j < k ==> c[j] != v,
            None => forall|j: int| i <= j < c.len() ==> c[j] != v,
        },
    decreases c.len() - i,
{
    if i < c.len() && c[i] != v {
        lemma_pool_index(c, v, i + 1);
    }
}

/// An instruction compiled for a literal expression puts that literal's value
/// into its target register, whatever the machine held before, and touches
/// neither the globals nor the effects. With `local x = v` as the first
/// statement of a chunk the target register is 0.
pub proof fn lemma_literal_lands_in_register(
    c: Seq<ValueView>,
    locals: Seq<Seq<u8>>,
    v: ValueView,
    name: Option<Seq<u8>>,
    dst: int,
    m: Machine,
)
    requires
        exp_spec(c, locals, Some(v), name, dst) is Ok,
        0 <= dst <= 255,
    ensures
        ({
            let (c2, ins) = exp_spec(c, locals, Some(v), name, dst)->Ok_0;
            &&& dst < step(m, ins, c2).regs.len()
            &&& step(m, ins, c2).regs[dst] == v
            &&& step(m, ins, c2).globals == m.globals
            &&& step(m, ins, c2).effects == m.effects
        }),
{
    lemma_pool_add(c, v);
}

/// In a pool without duplicates a value has one index: every instruction
/// that loads the same literal names the same entry, the one `pool_add`
/// gives.
pub proof fn lemma_pool_index_unique(c: Seq<ValueView>, v: ValueView, i: int)
    requires
        distinct(c),
        0 <= i < c.len(),
        c[i] == v,
    ensures
        pool_add(c, v) == (c, i),
{
    lemma_pool_index(c, v, 0);
    let k = pool_index(c, v, 0)->0;
    if k < i {
        assert(c[k] != c[i]);
    } else if i < k {
        assert(c[i] != c[k]);
    }
}

/// Whether a token is a literal.
fn literal_token(t: &Token) -> (r: bool)
    ensures
        r == (literal_value(*t) is Some),
{
    match t {
        Token::Nil | Token::True | Token::False | Token::Integer(_) | Token::Float(_) | Token::Str(
            _,
        ) => true,
        _ => false,
    }
}

/// A compiled unit, and the compiler state that builds it.
pub struct ParseProto {
    /// The constant pool, in order of first use, without duplicates.
    pub constants: Vec<Value>,
    /// The instructions, in program order.
    pub byte_codes: Vec<ByteCode>,
    /// The names of the locals; a local's register is its index here.
    pub locals: Vec<Vec<u8>>,
    pub lex: Lex,
}

impl ParseProto {
    pub open spec fn consts(&self) -> Seq<ValueView> {
        values_view(self.constants@)
    }

    pub open spec fn local_names(&self) -> Seq<Seq<u8>> {
        self.locals@.map_values(|n: Vec<u8>| n@)
    }

    /// The unit built so far, as values.
    pub open spec fn unit(&self) -> UnitView {
        UnitView { consts: self.consts(), code: self.byte_codes@, locals: self.local_names() }
    }

    /// The pool holds well-formed, distinct values; every instruction's
    /// constant operands are in range; locals fit the register operands.
    pub open spec fn wf(&self) -> bool {
        &&& forall|i: int| 0 <= i < self.constants@.len() ==> (#[trigger] self.constants@[i]).wf()
        &&& distinct(self.consts())
        &&& forall|i: int|
            0 <= i < self.byte_codes@.len() ==> operands_ok(
                #[trigger] self.byte_codes@[i],
                self.constants@.len() as int,
            )
        &&& self.lex.wf()
        &&& self.locals@.len() <= 256
    }

    /// `self` is `old` with the pool changed to `c` and nothing else.
    pub open spec fn pooled(&self, old: ParseProto, c: Seq<ValueView>) -> bool {
        &&& self.wf()
        &&& self.lex == old.lex
        &&& self.locals == old.locals
        &&& self.byte_codes == old.byte_codes
        &&& self.consts() == c
        &&& old.constants@.len() <= self.constants@.len()
    }

    /// The index of `c` in the pool, added at the end if no equal value is
    /// there yet.
    fn add_const(&mut self, c: Value) -> (r: usize)
        requires
            old(self).wf(),
            c.wf(),
        ensures
            final(self).pooled(*old(self), pool_add(old(self).consts(), c@).0),
            r == pool_add(old(self).consts(), c@).1,
    {
        let ghost cs = self.consts();
        proof {
            lemma_pool_index(cs, c@, 0);
        }
        let mut i: usize = 0;
        while i < self.constants.len()
            invariant
                *self == *old(self),
                self.wf(),
                i <= self.constants@.len(),
                cs == self.consts(),
                forall|j: int| 0 <= j < i ==> cs[j] != c@,
            decreases self.constants@.len() - i,
        {
            if self.constants[i] == c {
                proof {
                    lemma_pool_index_unique(cs, c@, i as int);
                }
                return i;
            }
            i = i + 1;
        }
        self.constants.push(c);
        assert(self.consts() =~= cs.push(c@));
        proof {
            lemma_pool_add(cs, c@);
            assert forall|k: int| 0 <= k < self.byte_codes@.len() implies operands_ok(
                #[trigger] self.byte_codes@[k],
                self.constants@.len() as int,
            ) by {
                assert(operands_ok(old(self).byte_codes@[k], old(self).constants@.len() as int));
            }
        }
        i
    }

    /// The pool index of `v` as an 8-bit operand; the pool grows as
    /// `pool_add` says even when the index does not fit.
    fn const8(&mut self, v: Value) -> (r: Result<u8, ParseError>)
        requires
            old(self).wf(),
            v.wf(),
        ensures
            final(self).pooled(*old(self), pool_add(old(self).consts(), v@).0),
            pool_add(old(self).consts(), v@).1 > 255 ==> r == Err::<u8, ParseError>(
                ParseError::TooManyConstants,
            ),
            pool_add(old(self).consts(), v@).1 <= 255 ==> r == Ok::<u8, ParseError>(
                pool_add(old(self).consts(), v@).1 as u8,
            ),
    {
        let i = self.add_const(v);
        if i > 255 {
            Err(ParseError::TooManyConstants)
        } else {
            Ok(i as u8)
        }
    }

    /// The pool index of `v` as a 16-bit operand; the pool grows as
    /// `pool_add` says even when the index does not fit.
    fn const16(&mut self, v: Value) -> (r: Result<u16, ParseError>)
        requires
            old(self).wf(),
            v.wf(),
        ensures
            final(self).pooled(*old(self), pool_add(old(self).consts(), v@).0),
            pool_add(old(self).consts(), v@).1 > 65535 ==> r == Err::<u16, ParseError>(
                ParseError::TooManyConstants,
            ),
            pool_add(old(self).consts(), v@).1 <= 65535 ==> r == Ok::<u16, ParseError>(
                pool_add(old(self).consts(), v@).1 as u16,
            ),
    {
        let i = self.add_const(v);
        if i > 65535 {
            Err(ParseError::TooManyConstants)
        } else {
            Ok(i as u16)
        }
    }

    /// The register of the first local named `n`.
    fn get_local(&self, n: &Vec<u8>) -> (r: Option<usize>)
        ensures
            match r {
                Some(i) => first_local(self.local_names(), n@, 0) == Some(i as int) && i
                    < self.locals@.len(),
                None => first_local(self.local_names(), n@, 0) is None,
            },
    {
        let ghost ls = self.local_names();
        let mut i: usize = 0;
        while i < self.locals.len()
            invariant
                i <= self.locals@.len(),
                ls == self.local_names(),
                first_local(ls, n@, i as int) == first_local(ls, n@, 0),
            decreases self.locals@.len() - i,
        {
            if same_bytes(&self.locals[i], n) {
                return Some(i);
            }
            i = i + 1;
        }
        None
    }

    /// The instruction that loads the variable `n` into register `dst`.
    fn load_var(&mut self, dst: usize, n: Vec<u8>) -> (r: Result<ByteCode, ParseError>)
        requires
            old(self).wf(),
            dst <= 255,
        ensures
            final(self).wf(),
            final(self).lex == old(self).lex,
            final(self).locals == old(self).locals,
            final(self).byte_codes == old(self).byte_codes,
            match var_spec(old(self).consts(), old(self).local_names(), n@, dst as int) {
                Ok((c, ins)) => r == Ok::<ByteCode, ParseError>(ins) && final(self).consts() == c
                    && operands_ok(ins, final(self).constants@.len() as int),
                Err(e) => r == Err::<ByteCode, ParseError>(e),
            },
    {
        match self.get_local(&n) {
            Some(i) => Ok(ByteCode::Move(dst as u8, i as u8)),
            None => {
                proof {
                    lemma_pool_add(self.consts(), str_const(n@));
                }
                let c = self.const8(Value::from_bytes(n))?;
                Ok(ByteCode::GetGlobal(dst as u8, c))
            },
        }
    }

    /// The instruction that loads the expression `t` into register `dst`.
    fn load_exp(&mut self, dst: usize, t: Token) -> (r: Result<ByteCode, ParseError>)
        requires
            old(self).wf(),
            dst <= 255,
        ensures
            final(self).wf(),
            final(self).lex == old(self).lex,
            final(self).locals == old(self).locals,
            final(self).byte_codes == old(self).byte_codes,
            match exp_spec(
                old(self).consts(),
                old(self).local_names(),
                literal_value(t),
                tok_name(t),
                dst as int,
            ) {
                Ok((c, ins)) => r == Ok::<ByteCode, ParseError>(ins) && final(self).consts() == c
                    && operands_ok(ins, final(self).constants@.len() as int),
                Err(e) => r == Err::<ByteCode, ParseError>(e),
            },
    {
        let d = dst as u8;
        proof {
            if literal_value(t) is Some {
                lemma_pool_add(self.consts(), literal_value(t)->0);
            }
        }
        match t {
            Token::Nil => Ok(ByteCode::LoadNil(d)),
            Token::True => Ok(ByteCode::LoadBool(d, true)),
            Token::False => Ok(ByteCode::LoadBool(d, false)),
            Token::Integer(i) => {
                if -32768 <= i && i <= 32767 {
                    Ok(ByteCode::LoadInt(d, i as i16))
                } else {
                    let c = self.const16(Value::Integer(i))?;
                    Ok(ByteCode::LoadConst(d, c))
                }
            },
            Token::Float(f) => {
                let c = self.const16(Value::Float(f))?;
                Ok(ByteCode::LoadConst(d, c))
            },
            Token::Str(b) => {
                let c = self.const16(Value::from_bytes(b))?;
                Ok(ByteCode::LoadConst(d, c))
            },
            Token::Name(n) => self.load_var(dst, n),
            _ => Err(ParseError::UnexpectedToken),
        }
    }

    /// Appends an instruction whose operands are in range.
    fn emit(&mut self, ins: ByteCode)
        requires
            old(self).wf(),
            operands_ok(ins, old(self).constants@.len() as int),
        ensures
            final(self).wf(),
            final(self).constants == old(self).constants,
            final(self).locals == old(self).locals,
            final(self).lex == old(self).lex,
            final(self).byte_codes@ == old(self).byte_codes@.push(ins),
    {
        self.byte_codes.push(ins);
    }

    /// Compiles `local name = t`: the expression goes to the next free
    /// register, which then belongs to `name`.
    pub fn emit_local(&mut self, name: Vec<u8>, t: Token) -> (r: Result<(), ParseError>)
        requires
            old(self).wf(),
        ensures
            final(self).wf(),
            final(self).lex == old(self).lex,
            match local_spec(old(self).unit(), name@, literal_value(t), tok_name(t)) {
                Ok(u1) => r is Ok && final(self).unit() == u1,
                Err(e) => r == Err::<(), ParseError>(e),
            },
    {
        let dst = self.locals.len();
        if dst > 255 {
            return Err(ParseError::TooManyRegisters);
        }
        let ins = self.load_exp(dst, t)?;
        self.emit(ins);
        let ghost before = self.local_names();
        self.locals.push(name);
        assert(self.local_names() =~= before.push(name@));
        Ok(())
    }

    /// Compiles `name = t`: a local's register is reloaded; otherwise the
    /// global is written from a literal, a local's register or a global.
    pub fn emit_assign(&mut self, name: Vec<u8>, t: Token) -> (r: Result<(), ParseError>)
        requires
            old(self).wf(),
        ensures
            final(self).wf(),
            final(self).lex == old(self).lex,
            match assign_spec(old(self).unit(), name@, literal_value(t), tok_name(t)) {
                Ok(u1) => r is Ok && final(self).unit() == u1,
                Err(e) => r == Err::<(), ParseError>(e),
            },
    {
        let ghost nb = name@;
        let ghost u0 = self.unit();
        let ins = match self.get_local(&name) {
            Some(i) => self.load_exp(i, t)?,
            None => {
                if !(match &t {
                    Token::Name(_) => true,
                    _ => literal_token(&t),
                }) {
                    return Err(ParseError::UnexpectedToken);
                }
                proof {
                    lemma_pool_add(self.consts(), str_const(nb));
                }
                let dst = self.const8(Value::from_bytes(name))?;
                proof {
                    if literal_value(t) is Some {
                        lemma_pool_add(self.consts(), literal_value(t)->0);
                    }
                    if t is Name {
                        lemma_pool_add(self.consts(), str_const(t->Name_0@));
                    }
                }
                match t {
                    Token::Name(v) => match self.get_local(&v) {
                        Some(j) => ByteCode::SetGlobal(dst, j as u8),
                        None => {
                            let c = self.const8(Value::from_bytes(v))?;
                            ByteCode::SetGlobalGlobal(dst, c)
                        },
                    },
                    Token::Nil => ByteCode::SetGlobalConst(dst, self.const8(Value::Nil)?),
                    Token::True => ByteCode::SetGlobalConst(dst, self.const8(Value::Boolean(true))?),
                    Token::False => ByteCode::SetGlobalConst(
                        dst,
                        self.const8(Value::Boolean(false))?,
                    ),
                    Token::Integer(i) => ByteCode::SetGlobalConst(
                        dst,
                        self.const8(Value::Integer(i))?,
                    ),
                    Token::Float(f) => ByteCode::SetGlobalConst(dst, self.const8(Value::Float(f))?),
                    Token::Str(b) => ByteCode::SetGlobalConst(
                        dst,
                        self.const8(Value::from_bytes(b))?,
                    ),
                    _ => {
                        return Err(ParseError::UnexpectedToken);
                    },
                }
            },
        };
        self.emit(ins);
        Ok(())
    }

    /// Compiles a call of `name` with one argument: the callee goes to the
    /// next free register, the argument (nil when `arg` is none) to the one
    /// after, and the call names the argument register.
    pub fn emit_call(&mut self, name: Vec<u8>, arg: Option<Token>) -> (r: Result<(), ParseError>)
        requires
            old(self).wf(),
        ensures
            final(self).wf(),
            final(self).lex == old(self).lex,
            match call_spec(
                old(self).unit(),
                name@,
                match arg {
                    Some(t) => Some((literal_value(t), tok_name(t))),
                    None => None,
                },
            ) {
                Ok(u1) => r is Ok && final(self).unit() == u1,
                Err(e) => r == Err::<(), ParseError>(e),
            },
    {
        let ifunc = self.locals.len();
        if ifunc > 254 {
            return Err(ParseError::TooManyRegisters);
        }
        let iargs = ifunc + 1;
        let f = self.load_var(ifunc, name)?;
        let a = match arg {
            Some(t) => self.load_exp(iargs, t)?,
            None => ByteCode::LoadNil(iargs as u8),
        };
        self.emit(f);
        self.emit(a);
        self.emit(ByteCode::Call(iargs as u8, 1));
        Ok(())
    }

    /// Compiles a whole source text into one unit: statements are read up
    /// to the end of input, each adding its instructions in order. The
    /// result is `compile` of the text: the unit, or the first lexical,
    /// syntax or operand-limit error.
    pub fn load(input: Vec<u8>) -> (r: Result<ParseProto, ParseError>)
        ensures
            input@.len() + 4 > usize::MAX ==> r == Err::<ParseProto, ParseError>(
                ParseError::SourceTooLarge,
            ),
            input@.len() + 4 <= usize::MAX ==> match compile(input@) {
                Ok(u) => r is Ok && r->Ok_0.wf() && r->Ok_0.unit() == u && r->Ok_0.lex.input@
                    == input@,
                Err(e) => r == Err::<ParseProto, ParseError>(e),
            },
    {
        if input.len() > usize::MAX - 4 {
            return Err(ParseError::SourceTooLarge);
        }
        let mut proto = ParseProto {
            constants: Vec::new(),
            byte_codes: Vec::new(),
            locals: Vec::new(),
            lex: Lex::new(input),
        };
        assert(proto.consts() =~= Seq::<ValueView>::empty());
        assert(proto.local_names() =~= Seq::<Seq<u8>>::empty());
        assert(proto.unit() == empty_unit());
        proto.chunk()?;
        Ok(proto)
    }

    /// Compiles statements up to the end of input.
    fn chunk(&mut self) -> (r: Result<(), ParseError>)
        requires
            old(self).wf(),
            old(self).lex.ahead.is_none(),
        ensures
            final(self).wf(),
            final(self).lex.input@ == old(self).lex.input@,
            match parse_from(old(self).lex.input@, old(self).lex.pos as int, old(self).unit()) {
                Ok(u) => r is Ok && final(self).unit() == u,
                Err(e) => r == Err::<(), ParseError>(e),
            },
    {
        let ghost s = self.lex.input@;
        let ghost goal = parse_from(s, self.lex.pos as int, self.unit());
        loop
            invariant
                self.wf(),
                self.lex.input@ == s,
                s == old(self).lex.input@,
                goal == parse_from(s, old(self).lex.pos as int, old(self).unit()),
                self.lex.ahead.is_none(),
                parse_from(s, self.lex.pos as int, self.unit()) == goal,
            decreases self.lex.remaining(),
        {
            let ghost pos = self.lex.pos as int;
            let ghost ub = self.unit();
            match self.next_token()? {
                Token::Name(name) => {
                    let ghost pos1 = self.lex.pos as int;
                    if self.peek_is_assign()? {
                        self.assignment(name)?;
                    } else {
                        self.function_call(name, Ghost(pos1))?;
                    }
                },
                Token::Local => self.local()?,
                Token::Eos => {
                    return Ok(());
                },
                _ => {
                    return Err(ParseError::UnexpectedToken);
                },
            }
            assert(pos < self.lex.pos <= s.len());
        }
    }

    /// The next token.
    fn next_token(&mut self) -> (r: Result<Token, ParseError>)
        requires
            old(self).wf(),
        ensures
            final(self).wf(),
            final(self).constants == old(self).constants,
            final(self).byte_codes == old(self).byte_codes,
            final(self).locals == old(self).locals,
            final(self).lex.input@ == old(self).lex.input@,
            final(self).lex.remaining() <= old(self).lex.remaining(),
            r is Ok && !(r->Ok_0 is Eos) ==> final(self).lex.remaining() < old(self).lex.remaining(),
            final(self).lex.ahead.is_none(),
            match old(self).lex.ahead {
                Some(t) => r == Ok::<Token, ParseError>(t) && final(self).lex.pos == old(self).lex.pos,
                None => match scan(old(self).lex.input@, old(self).lex.pos as int) {
                    Scan::Fail(le) => r == Err::<Token, ParseError>(ParseError::Lex(le)),
                    sc => r is Ok && delivers(
                        sc,
                        Ok::<Token, LexError>(r->Ok_0),
                        final(self).lex.pos as int,
                    ),
                },
            },
    {
        match self.lex.next() {
            Ok(t) => Ok(t),
            Err(e) => Err(ParseError::Lex(e)),
        }
    }

    /// Whether the next token is `=`, without moving past it.
    fn peek_is_assign(&mut self) -> (r: Result<bool, ParseError>)
        requires
            old(self).wf(),
            old(self).lex.ahead.is_none(),
        ensures
            final(self).wf(),
            final(self).constants == old(self).constants,
            final(self).byte_codes == old(self).byte_codes,
            final(self).locals == old(self).locals,
            final(self).lex.input@ == old(self).lex.input@,
            final(self).lex.remaining() <= old(self).lex.remaining(),
            match scan(old(self).lex.input@, old(self).lex.pos as int) {
                Scan::Fail(le) => r == Err::<bool, ParseError>(ParseError::Lex(le)),
                sc => {
                    &&& r is Ok
                    &&& final(self).lex.ahead is Some
                    &&& delivers(
                        sc,
                        Ok::<Token, LexError>(final(self).lex.ahead->0),
                        final(self).lex.pos as int,
                    )
                    &&& (r->Ok_0 <==> final(self).lex.ahead->0 is Assign)
                },
            },
    {
        match self.lex.peek() {
            Ok(Token::Assign) => Ok(true),
            Ok(_) => Ok(false),
            Err(e) => Err(ParseError::Lex(e)),
        }
    }

    /// `local name = exp`, after `local`.
    fn local(&mut self) -> (r: Result<(), ParseError>)
        requires
            old(self).wf(),
            old(self).lex.ahead.is_none(),
        ensures
            final(self).wf(),
            final(self).lex.input@ == old(self).lex.input@,
            final(self).lex.remaining() <= old(self).lex.remaining(),
            final(self).lex.ahead.is_none(),
            match local_stmt(old(self).lex.input@, old(self).lex.pos as int, old(self).unit()) {
                Ok((q, u1)) => r is Ok && final(self).lex.pos == q && final(self).unit() == u1,
                Err(e) => r == Err::<(), ParseError>(e),
            },
    {
        let ghost s = self.lex.input@;
        let name = match self.next_token()? {
            Token::Name(v) => v,
            _ => {
                return Err(ParseError::ExpectedName);
            },
        };
        match self.next_token()? {
            Token::Assign => {},
            _ => {
                return Err(ParseError::ExpectedAssign);
            },
        }
        let ghost e2 = self.lex.pos as int;
        let t = self.next_token()?;
        proof {
            lemma_scan_facts(scan(s, e2), t, self.lex.pos as int);
        }
        self.emit_local(name, t)
    }

    /// `name = exp`, after `name`, with `=` read ahead.
    fn assignment(&mut self, name: Vec<u8>) -> (r: Result<(), ParseError>)
        requires
            old(self).wf(),
            old(self).lex.ahead is Some,
        ensures
            final(self).wf(),
            final(self).lex.input@ == old(self).lex.input@,
            final(self).lex.remaining() <= old(self).lex.remaining(),
            final(self).lex.ahead.is_none(),
            match assign_stmt(old(self).lex.input@, name@, old(self).lex.pos as int, old(self).unit()) {
                Ok((q, u1)) => r is Ok && final(self).lex.pos == q && final(self).unit() == u1,
                Err(e) => r == Err::<(), ParseError>(e),
            },
    {
        let ghost s = self.lex.input@;
        self.next_token()?;
        let ghost e2 = self.lex.pos as int;
        let t = self.next_token()?;
        proof {
            lemma_scan_facts(scan(s, e2), t, self.lex.pos as int);
        }
        self.emit_assign(name, t)
    }

    /// `name(exp)`, `name()` or `name "string"`, after `name`, with the token
    /// at `at` read ahead.
    fn function_call(&mut self, name: Vec<u8>, Ghost(at): Ghost<int>) -> (r: Result<(), ParseError>)
        requires
            old(self).wf(),
            old(self).lex.ahead is Some,
            delivers(
                scan(old(self).lex.input@, at),
                Ok::<Token, LexError>(old(self).lex.ahead->0),
                old(self).lex.pos as int,
            ),
        ensures
            final(self).wf(),
            final(self).lex.input@ == old(self).lex.input@,
            final(self).lex.remaining() <= old(self).lex.remaining(),
            final(self).lex.ahead.is_none(),
            match call_stmt(old(self).lex.input@, name@, at, old(self).unit()) {
                Ok((q, u1)) => r is Ok && final(self).lex.pos == q && final(self).unit() == u1,
                Err(e) => r == Err::<(), ParseError>(e),
            },
    {
        let ghost s = self.lex.input@;
        match self.next_token()? {
            Token::ParL => {
                let ghost e1 = self.lex.pos as int;
                let t = self.next_token()?;
                proof {
                    lemma_scan_facts(scan(s, e1), t, self.lex.pos as int);
                }
                match t {
                    Token::ParR => self.emit_call(name, None),
                    _ => {
                        self.emit_call(name, Some(t))?;
                        match self.next_token()? {
                            Token::ParR => Ok(()),
                            _ => Err(ParseError::ExpectedParR),
                        }
                    },
                }
            },
            Token::Str(b) => self.emit_call(name, Some(Token::Str(b))),
            _ => Err(ParseError::ExpectedArguments),
        }
    }
}

} // verus!
