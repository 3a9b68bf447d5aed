use std::rc::Rc;
use vstd::prelude::*;

verus! {

/// Longest string held inline in the value itself.
pub const SHORT_STR_MAX: usize = 14;

/// Longest string held in a shared fixed-size buffer.
pub const MID_STR_MAX: usize = 47;

/// A float literal as it was written: `int_part` before the point and the
/// `frac_digits` digits after it, read as the integer `frac`.
#[derive(Debug, Clone, Copy, PartialEq, Eq, Structural)]
pub struct FloatLit {
    pub int_part: i64,
    pub frac: i64,
    pub frac_digits: usize,
}

/// The native functions that the global environment can hold.
#[derive(Debug, Clone, Copy, PartialEq, Eq, Structural)]
pub enum NativeFn {
    /// Writes the text of its one argument.
    Print,
}

/// The storage tier of a string value.
#[derive(Debug, Clone, Copy, PartialEq, Eq, Structural)]
pub enum StrTier {
    Short,
    Mid,
    Long,
}

/// What a value means: its tag and contents. A string is its tier and bytes.
pub enum ValueView {
    Nil,
    Boolean(bool),
    Integer(i64),
    Float(FloatLit),
    Function(NativeFn),
    Str(StrTier, Seq<u8>),
    Table(usize),
}

/// A table: a dense array part and a key-value part with distinct keys.
/// Values refer to a table by its index among the tables of a run; no
/// instruction creates one yet, the table instructions being reserved.
pub struct Table {
    pub array: Vec<Value>,
    pub map: Vec<(Value, Value)>,
}

/// A runtime value.
pub enum Value {
    Function(NativeFn),
    Boolean(bool),
    Integer(i64),
    Float(FloatLit),
    Nil,
    /// A string of at most `SHORT_STR_MAX` bytes, held inline: (length, bytes).
    ShortStr(u8, [u8; SHORT_STR_MAX]),
    /// A string of at most `MID_STR_MAX` bytes in a shared buffer.
    MidStr(Rc<(u8, [u8; MID_STR_MAX])>),
    /// A string of any length in a shared buffer.
    LongStr(Rc<Vec<u8>>),
    /// A table, by its index among the tables of a run.
    Table(usize),
}

/// The tier that a string of `len` bytes is stored in.
pub open spec fn tier_for(len: nat) -> StrTier {
    if len <= SHORT_STR_MAX {
        StrTier::Short
    } else if len <= MID_STR_MAX {
        StrTier::Mid
    } else {
        StrTier::Long
    }
}

/// The decimal digits of `n`, most significant first.
pub open spec fn dec_digits(n: nat) -> Seq<u8>
    decreases n,
{
    if n < 10 {
        seq![(48 + n) as u8]
    } else {
        dec_digits(n / 10).push((48 + n % 10) as u8)
    }
}

/// The text of an integer, with a leading `-` when negative.
pub open spec fn int_text(i: int) -> Seq<u8> {
    if i < 0 {
        seq![45u8] + dec_digits((-i) as nat)
    } else {
        dec_digits(i as nat)
    }
}

/// The last `w` decimal digits of `n`, with leading zeros.
pub open spec fn padded_digits(n: nat, w: nat) -> Seq<u8>
    decreases w,
{
    if w == 0 {
        Seq::empty()
    } else {
        padded_digits(n / 10, (w - 1) as nat).push((48 + n % 10) as u8)
    }
}

/// The text of a float literal: its integer part, a point, and its fraction
/// digits (a single `0` when it has none).
pub open spec fn float_text(f: FloatLit) -> Seq<u8> {
    int_text(f.int_part as int) + seq![46u8] + if f.frac_digits == 0 {
        seq![48u8]
    } else {
        padded_digits(if f.frac < 0 { 0 } else { f.frac as nat }, f.frac_digits as nat)
    }
}

/// The bytes `nil`.
pub open spec fn nil_text() -> Seq<u8> {
    seq![110u8, 105, 108]
}

/// The bytes `true` or `false`.
pub open spec fn bool_text(b: bool) -> Seq<u8> {
    if b {
        seq![116u8, 114, 117, 101]
    } else {
        seq![102u8, 97, 108, 115, 101]
    }
}

/// The bytes `function`.
pub open spec fn function_text() -> Seq<u8> {
    seq![102u8, 117, 110, 99, 116, 105, 111, 110]
}

/// The bytes `table`.
pub open spec fn table_text() -> Seq<u8> {
    seq![116u8, 97, 98, 108, 101]
}

/// The text that printing a value writes.
pub open spec fn display(v: ValueView) -> Seq<u8> {
    match v {
        ValueView::Nil => nil_text(),
        ValueView::Boolean(b) => bool_text(b),
        ValueView::Integer(i) => int_text(i as int),
        ValueView::Float(f) => float_text(f),
        ValueView::Function(_) => function_text(),
        ValueView::Str(_, s) => s,
        ValueView::Table(_) => table_text(),
    }
}

/// Appends the decimal digits of `n`.
fn push_digits(n: u64, out: &mut Vec<u8>)
    ensures
        final(out)@ == old(out)@ + dec_digits(n as nat),
    decreases n,
{
    if n < 10 {
        out.push((48 + n) as u8);
    } else {
        push_digits(n / 10, out);
        out.push((48 + n % 10) as u8);
    }
}

/// Appends the last `w` decimal digits of `n`, with leading zeros.
fn push_padded(n: u64, w: usize, out: &mut Vec<u8>)
    ensures
        final(out)@ == old(out)@ + padded_digits(n as nat, w as nat),
    decreases w,
{
    if w > 0 {
        push_padded(n / 10, w - 1, out);
        out.push((48 + n % 10) as u8);
    }
}

/// Appends the text of an integer.
fn push_int(i: i64, out: &mut Vec<u8>)
    ensures
        final(out)@ == old(out)@ + int_text(i as int),
{
    if i < 0 {
        out.push(45u8);
        let m: u64 = (0i128 - (i as i128)) as u64;
        push_digits(m, out);
    } else {
        push_digits(i as u64, out);
    }
}

/// A copy of `b[0..len]`.
fn prefix_of(b: &[u8], len: usize) -> (r: Vec<u8>)
    requires
        len <= b@.len(),
    ensures
        r@ == b@.subrange(0, len as int),
{
    let mut r: Vec<u8> = Vec::new();
    let mut i: usize = 0;
    while i < len
        invariant
            len <= b@.len(),
            i <= len,
            r@ == b@.subrange(0, i as int),
        decreases len - i,
    {
        r.push(b[i]);
        i = i + 1;
    }
    r
}

/// Whether the first `len` bytes of `a` and `b` agree.
fn bytes_eq(a: &[u8], b: &[u8], len: usize) -> (r: bool)
    requires
        len <= a@.len(),
        len <= b@.len(),
    ensures
        r == (a@.subrange(0, len as int) == b@.subrange(0, len as int)),
{
    let mut i: usize = 0;
    while i < len
        invariant
            len <= a@.len(),
            len <= b@.len(),
            i <= len,
            a@.subrange(0, i as int) == b@.subrange(0, i as int),
        decreases len - i,
    {
        if a[i] != b[i] {
            assert(a@.subrange(0, len as int)[i as int] != b@.subrange(0, len as int)[i as int]);
            return false;
        }
        assert(a@.subrange(0, i as int + 1) =~= a@.subrange(0, i as int).push(a@[i as int]));
        assert(b@.subrange(0, i as int + 1) =~= b@.subrange(0, i as int).push(b@[i as int]));
        i = i + 1;
    }
    true
}

/// Relies on `Rc::clone`: the new handle points at the same contents.
#[verifier::external_body]
fn share<T>(r: &Rc<T>) -> (s: Rc<T>)
    ensures
        s == *r,
{
    Rc::clone(r)
}

/// A string value prints as exactly its bytes, whichever tier holds them;
/// the tier follows from the length alone.
pub proof fn lemma_string_round_trip(s: Seq<u8>)
    ensures
        display(ValueView::Str(tier_for(s.len()), s)) == s,
        s.len() <= SHORT_STR_MAX ==> tier_for(s.len()) == StrTier::Short,
        SHORT_STR_MAX < s.len() <= MID_STR_MAX ==> tier_for(s.len()) == StrTier::Mid,
        MID_STR_MAX < s.len() ==> tier_for(s.len()) == StrTier::Long,
{
}

/// The tier is part of a string value's identity: the same bytes in two
/// tiers make two unequal values.
pub proof fn lemma_tier_is_identity(s: Seq<u8>, t1: StrTier, t2: StrTier)
    requires
        t1 != t2,
    ensures
        ValueView::Str(t1, s) != ValueView::Str(t2, s),
{
}

/// A stored length, cut to the size of its buffer.
pub open spec fn clamp(l: u8, max: usize) -> int {
    if l as int <= max as int {
        l as int
    } else {
        max as int
    }
}

/// A stored length, cut to the size of its buffer.
fn clamp_len(l: u8, max: usize) -> (r: usize)
    ensures
        r == clamp(l, max),
{
    if (l as usize) <= max {
        l as usize
    } else {
        max
    }
}

impl View for Value {
    type V = ValueView;

    open spec fn view(&self) -> ValueView {
        match self {
            Value::Nil => ValueView::Nil,
            Value::Boolean(b) => ValueView::Boolean(*b),
            Value::Integer(i) => ValueView::Integer(*i),
            Value::Float(f) => ValueView::Float(*f),
            Value::Function(f) => ValueView::Function(*f),
            Value::ShortStr(l, buf) => ValueView::Str(
                StrTier::Short,
                buf@.subrange(0, clamp(*l, SHORT_STR_MAX)),
            ),
            Value::MidStr(rc) => ValueView::Str(StrTier::Mid, (**rc).1@.subrange(0, clamp((**rc).0, MID_STR_MAX))),
            Value::LongStr(rc) => ValueView::Str(StrTier::Long, (**rc)@),
            Value::Table(t) => ValueView::Table(*t),
        }
    }
}

impl Table {
    /// No key of the key-value part occurs twice.
    pub open spec fn wf(&self) -> bool {
        forall|i: int, j: int|
            0 <= i < j < self.map@.len() ==> (#[trigger] self.map@[i]).0@ != (#[trigger] self.map@[j]).0@
    }
}

impl Value {
    /// The lengths stored in the string tiers fit their buffers.
    pub open spec fn wf(&self) -> bool {
        match self {
            Value::ShortStr(l, _) => *l as usize <= SHORT_STR_MAX,
            Value::MidStr(rc) => (**rc).0 as usize <= MID_STR_MAX,
            _ => true,
        }
    }

    /// The buffer bytes past a fixed-size string's length are zero.
    pub open spec fn zero_padded(&self) -> bool {
        match self {
            Value::ShortStr(l, buf) => forall|k: int| *l as int <= k < SHORT_STR_MAX ==> buf@[k] == 0,
            Value::MidStr(rc) => forall|k: int| (**rc).0 as int <= k < MID_STR_MAX ==> (**rc).1@[k]
                == 0,
            _ => true,
        }
    }

    /// A string value, in the tier that its length calls for.
    pub fn from_bytes(s: Vec<u8>) -> (r: Value)
        ensures
            r.wf(),
            r@ == ValueView::Str(tier_for(s@.len()), s@),
            r.zero_padded(),
    {
        let len = s.len();
        if len <= SHORT_STR_MAX {
            let mut buf = [0u8; SHORT_STR_MAX];
            let mut i: usize = 0;
            while i < len
                invariant
                    len == s@.len(),
                    len <= SHORT_STR_MAX,
                    i <= len,
                    buf@.len() == SHORT_STR_MAX,
                    buf@.subrange(0, i as int) == s@.subrange(0, i as int),
                    forall|k: int| i <= k < SHORT_STR_MAX ==> buf@[k] == 0,
                decreases len - i,
            {
                buf[i] = s[i];
                i = i + 1;
            }
            assert(s@.subrange(0, len as int) == s@);
            Value::ShortStr(len as u8, buf)
        } else if len <= MID_STR_MAX {
            Value::mid_str(&s)
        } else {
            Value::LongStr(Rc::new(s))
        }
    }

    /// A string value held in the shared fixed-size tier whatever its length.
    pub fn mid_str(s: &Vec<u8>) -> (r: Value)
        requires
            s@.len() <= MID_STR_MAX,
        ensures
            r.wf(),
            r@ == ValueView::Str(StrTier::Mid, s@),
            r.zero_padded(),
    {
        let len = s.len();
        let mut buf = [0u8; MID_STR_MAX];
        let mut i: usize = 0;
        while i < len
            invariant
                len == s@.len(),
                len <= MID_STR_MAX,
                i <= len,
                buf@.len() == MID_STR_MAX,
                buf@.subrange(0, i as int) == s@.subrange(0, i as int),
                forall|k: int| i <= k < MID_STR_MAX ==> buf@[k] == 0,
            decreases len - i,
        {
            buf[i] = s[i];
            i = i + 1;
        }
        assert(s@.subrange(0, len as int) == s@);
        Value::MidStr(Rc::new((len as u8, buf)))
    }

    /// A copy of this value; shared buffers are shared, not copied.
    pub fn copy(&self) -> (r: Value)
        ensures
            r@ == self@,
            self.wf() ==> r.wf(),
    {
        match self {
            Value::Nil => Value::Nil,
            Value::Boolean(b) => Value::Boolean(*b),
            Value::Integer(i) => Value::Integer(*i),
            Value::Float(f) => Value::Float(*f),
            Value::Function(f) => Value::Function(*f),
            Value::ShortStr(l, buf) => Value::ShortStr(*l, *buf),
            Value::MidStr(rc) => Value::MidStr(share(rc)),
            Value::LongStr(rc) => Value::LongStr(share(rc)),
            Value::Table(t) => Value::Table(*t),
        }
    }

    /// The bytes of a string value, whatever its tier.
    pub fn str_bytes(&self) -> (r: Option<Vec<u8>>)
        requires
            self.wf(),
        ensures
            match self@ {
                ValueView::Str(_, s) => r.is_some() && r.unwrap()@ == s,
                _ => r.is_none(),
            },
    {
        match self {
            Value::ShortStr(l, buf) => Some(prefix_of(buf.as_slice(), clamp_len(*l, SHORT_STR_MAX))),
            Value::MidStr(rc) => Some(prefix_of((**rc).1.as_slice(), clamp_len((**rc).0, MID_STR_MAX))),
            Value::LongStr(rc) => Some((**rc).clone()),
            _ => None,
        }
    }

    /// The text that printing this value writes.
    pub fn text(&self) -> (r: Vec<u8>)
        requires
            self.wf(),
        ensures
            r@ == display(self@),
    {
        let mut out: Vec<u8> = Vec::new();
        match self {
            Value::Nil => {
                out = vec![110u8, 105, 108];
            },
            Value::Boolean(b) => {
                if *b {
                    out = vec![116u8, 114, 117, 101];
                } else {
                    out = vec![102u8, 97, 108, 115, 101];
                }
            },
            Value::Integer(i) => {
                push_int(*i, &mut out);
                assert(out@ == int_text(*i as int));
            },
            Value::Float(f) => {
                push_int(f.int_part, &mut out);
                out.push(46u8);
                if f.frac_digits == 0 {
                    out.push(48u8);
                } else {
                    let n: u64 = if f.frac < 0 { 0 } else { f.frac as u64 };
                    push_padded(n, f.frac_digits, &mut out);
                }
                assert(out@ == float_text(*f));
            },
            Value::Function(_) => {
                out = vec![102u8, 117, 110, 99, 116, 105, 111, 110];
            },
            Value::Table(_) => {
                out = vec![116u8, 97, 98, 108, 101];
            },
            _ => {
                let b = self.str_bytes();
                out = b.unwrap();
            },
        }
        out
    }
}

impl PartialEq for Value {
    /// Equal tags with equal contents; strings must also share a tier.
    fn eq(&self, other: &Value) -> (r: bool) {
        match (self, other) {
            (Value::Nil, Value::Nil) => true,
            (Value::Boolean(a), Value::Boolean(b)) => *a == *b,
            (Value::Integer(a), Value::Integer(b)) => *a == *b,
            (Value::Float(a), Value::Float(b)) => *a == *b,
            (Value::Function(a), Value::Function(b)) => *a == *b,
            (Value::Table(a), Value::Table(b)) => *a == *b,
            (Value::ShortStr(la, a), Value::ShortStr(lb, b)) => {
                let n = clamp_len(*la, SHORT_STR_MAX);
                if n != clamp_len(*lb, SHORT_STR_MAX) {
                    assert(self@->Str_1.len() != other@->Str_1.len());
                    false
                } else {
                    bytes_eq(a.as_slice(), b.as_slice(), n)
                }
            },
            (Value::MidStr(a), Value::MidStr(b)) => {
                let n = clamp_len((**a).0, MID_STR_MAX);
                if n != clamp_len((**b).0, MID_STR_MAX) {
                    assert(self@->Str_1.len() != other@->Str_1.len());
                    false
                } else {
                    bytes_eq((**a).1.as_slice(), (**b).1.as_slice(), n)
                }
            },
            (Value::LongStr(a), Value::LongStr(b)) => {
                if (**a).len() != (**b).len() {
                    false
                } else {
                    let r = bytes_eq((**a).as_slice(), (**b).as_slice(), (**a).len());
                    assert((**a)@.subrange(0, (**a)@.len() as int) == (**a)@);
                    assert((**b)@.subrange(0, (**b)@.len() as int) == (**b)@);
                    r
                }
            },
            _ => false,
        }
    }
}

impl vstd::std_specs::cmp::PartialEqSpecImpl for Value {
    open spec fn obeys_eq_spec() -> bool {
        true
    }

    open spec fn eq_spec(&self, other: &Value) -> bool {
        self@ == other@
    }
}

} // verus!
