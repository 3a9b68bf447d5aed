use crate::value::FloatLit;
use vstd::prelude::*;

verus! {

/// A lexical token.
#[derive(Debug)]
pub enum Token {
    // keywords
    And,
    Break,
    Do,
    Else,
    Elseif,
    End,
    False,
    For,
    Function,
    Goto,
    If,
    In,
    Local,
    Nil,
    Not,
    Or,
    Repeat,
    Return,
    Then,
    True,
    Until,
    While,
    // operators and punctuation
    Add,
    Sub,
    Mul,
    Div,
    Mod,
    Pow,
    Len,
    BitAnd,
    BitXor,
    BitOr,
    ShiftL,
    ShiftR,
    Idiv,
    Equal,
    NotEq,
    LesEq,
    GreEq,
    Less,
    Greater,
    Assign,
    ParL,
    ParR,
    CurlyL,
    CurlyR,
    SqurL,
    SqurR,
    DoubColon,
    SemiColon,
    Colon,
    Comma,
    Dot,
    Concat,
    Dots,
    // literals
    Integer(i64),
    Float(FloatLit),
    /// A string literal's bytes, without the quotes.
    Str(Vec<u8>),
    /// An identifier.
    Name(Vec<u8>),
    /// End of input.
    Eos,
}

/// Why the input could not be tokenized. Every one of these ends the run.
#[derive(Debug, Clone, Copy, PartialEq, Eq, Structural)]
pub enum LexError {
    /// A byte that starts no token.
    InvalidChar(u8),
    /// A string literal that meets the end of input.
    UnterminatedString,
    /// An escape sequence in a string literal: not supported.
    Escape,
    /// A hexadecimal number: not supported.
    HexNumber,
    /// A number with an exponent: not supported.
    Exponent,
    /// A block comment: not supported.
    BlockComment,
    /// A run of digits whose value does not fit in 64 signed bits.
    NumberTooLarge,
}

/// What the input holds at a position: a token whose payload is plain
/// (`Plain`), an identifier or a string literal with its bytes, or an error.
/// Each token comes with the position just after it.
pub enum Scan {
    Plain(Token, int),
    Name(Seq<u8>, int),
    Str(Seq<u8>, int),
    Fail(LexError),
}

/// The byte at `i`, or 0 past the end: the end of input reads as a NUL byte.
pub open spec fn byte(s: Seq<u8>, i: int) -> u8 {
    if 0 <= i < s.len() {
        s[i]
    } else {
        0
    }
}

pub open spec fn is_space(b: u8) -> bool {
    b == 10 || b == 13 || b == 9 || b == 32
}

pub open spec fn is_digit(b: u8) -> bool {
    48 <= b <= 57
}

pub open spec fn is_alpha(b: u8) -> bool {
    (65 <= b <= 90) || (97 <= b <= 122) || b == 95
}

pub open spec fn is_name_byte(b: u8) -> bool {
    is_alpha(b) || is_digit(b)
}

/// Whether the input holds `--[[` at `i`.
pub open spec fn block_comment_at(s: Seq<u8>, i: int) -> bool {
    byte(s, i) == 45 && byte(s, i + 1) == 45 && byte(s, i + 2) == 91 && byte(s, i + 3) == 91
}

/// Where the next token starts: whitespace and line comments (`--` up to and
/// including the end of the line) are passed over. `in_comment` says whether
/// `i` lies inside a line comment.
pub open spec fn skip(s: Seq<u8>, i: int, in_comment: bool) -> int
    decreases s.len() - i,
{
    if i < 0 || i >= s.len() {
        i
    } else if in_comment {
        skip(s, i + 1, s[i] != 10)
    } else if is_space(s[i]) {
        skip(s, i + 1, false)
    } else if byte(s, i) == 45 && byte(s, i + 1) == 45 && !block_comment_at(s, i) {
        skip(s, i + 2, true)
    } else {
        i
    }
}

/// The end of the run of identifier bytes that starts at `i`.
pub open spec fn name_end(s: Seq<u8>, i: int) -> int
    decreases s.len() - i,
{
    if 0 <= i < s.len() && is_name_byte(s[i]) {
        name_end(s, i + 1)
    } else {
        i
    }
}

/// The end of the run of decimal digits that starts at `i`.
pub open spec fn digits_end(s: Seq<u8>, i: int) -> int
    decreases s.len() - i,
{
    if 0 <= i < s.len() && is_digit(s[i]) {
        digits_end(s, i + 1)
    } else {
        i
    }
}

/// The value of the decimal digits `s[a..b]`.
pub open spec fn digits_value(s: Seq<u8>, a: int, b: int) -> int
    decreases b - a,
{
    if b <= a {
        0
    } else {
        digits_value(s, a, b - 1) * 10 + (s[b - 1] - 48)
    }
}

/// The end of a string literal's body that starts at `i`: the first closing
/// quote `q`, backslash, NUL byte or the end of input.
pub open spec fn string_end(s: Seq<u8>, i: int, q: u8) -> int
    decreases s.len() - i,
{
    if 0 <= i < s.len() && s[i] != q && s[i] != 92 && s[i] != 0 {
        string_end(s, i + 1, q)
    } else {
        i
    }
}

/// A one-byte token, if `b` is one on its own.
pub open spec fn single(b: u8) -> Option<Token> {
    if b == 43 {
        Some(Token::Add)
    } else if b == 42 {
        Some(Token::Mul)
    } else if b == 37 {
        Some(Token::Mod)
    } else if b == 94 {
        Some(Token::Pow)
    } else if b == 35 {
        Some(Token::Len)
    } else if b == 38 {
        Some(Token::BitAnd)
    } else if b == 124 {
        Some(Token::BitOr)
    } else if b == 40 {
        Some(Token::ParL)
    } else if b == 41 {
        Some(Token::ParR)
    } else if b == 123 {
        Some(Token::CurlyL)
    } else if b == 125 {
        Some(Token::CurlyR)
    } else if b == 91 {
        Some(Token::SqurL)
    } else if b == 93 {
        Some(Token::SqurR)
    } else if b == 59 {
        Some(Token::SemiColon)
    } else if b == 44 {
        Some(Token::Comma)
    } else {
        None
    }
}

/// The fraction of a float whose digits start at `a`, after the integer part `ip`.
pub open spec fn scan_fraction(s: Seq<u8>, a: int, ip: i64) -> Scan {
    let e = digits_end(s, a);
    let v = digits_value(s, a, e);
    if v > i64::MAX {
        Scan::Fail(LexError::NumberTooLarge)
    } else {
        let (f, k) = trim_zeros(v, e - a);
        Scan::Plain(
            Token::Float(FloatLit { int_part: ip, frac: f as i64, frac_digits: k as usize }),
            e,
        )
    }
}

/// A fraction `v` written with `k` digits, without its trailing zeros:
/// `50` in two digits is `5` in one, so equal fractions are held alike.
pub open spec fn trim_zeros(v: int, k: int) -> (int, int)
    decreases k,
{
    if k > 0 && v % 10 == 0 {
        trim_zeros(v / 10, k - 1)
    } else {
        (v, k)
    }
}

/// A number that starts with the digit at `q`.
pub open spec fn scan_number(s: Seq<u8>, q: int) -> Scan {
    if byte(s, q) == 48 && (byte(s, q + 1) == 120 || byte(s, q + 1) == 88) {
        Scan::Fail(LexError::HexNumber)
    } else {
        let e = digits_end(s, q);
        let v = digits_value(s, q, e);
        if v > i64::MAX {
            Scan::Fail(LexError::NumberTooLarge)
        } else if byte(s, e) == 46 {
            scan_fraction(s, e + 1, v as i64)
        } else if byte(s, e) == 101 || byte(s, e) == 69 {
            Scan::Fail(LexError::Exponent)
        } else {
            Scan::Plain(Token::Integer(v as i64), e)
        }
    }
}

/// The token that starts at `q`, where no whitespace or comment starts.
pub open spec fn token_at(s: Seq<u8>, q: int) -> Scan {
    let c = byte(s, q);
    let c1 = byte(s, q + 1);
    if single(c) is Some {
        Scan::Plain(single(c)->0, q + 1)
    } else if c == 47 {
        if c1 == 47 { Scan::Plain(Token::Idiv, q + 2) } else { Scan::Plain(Token::Div, q + 1) }
    } else if c == 61 {
        if c1 == 61 { Scan::Plain(Token::Equal, q + 2) } else { Scan::Plain(Token::Assign, q + 1) }
    } else if c == 126 {
        if c1 == 61 { Scan::Plain(Token::NotEq, q + 2) } else { Scan::Plain(Token::BitXor, q + 1) }
    } else if c == 58 {
        if c1 == 58 {
            Scan::Plain(Token::DoubColon, q + 2)
        } else {
            Scan::Plain(Token::Colon, q + 1)
        }
    } else if c == 60 {
        if c1 == 61 {
            Scan::Plain(Token::LesEq, q + 2)
        } else if c1 == 60 {
            Scan::Plain(Token::ShiftL, q + 2)
        } else {
            Scan::Plain(Token::Less, q + 1)
        }
    } else if c == 62 {
        if c1 == 61 {
            Scan::Plain(Token::GreEq, q + 2)
        } else if c1 == 62 {
            Scan::Plain(Token::ShiftR, q + 2)
        } else {
            Scan::Plain(Token::Greater, q + 1)
        }
    } else if c == 39 || c == 34 {
        let e = string_end(s, q + 1, c);
        if byte(s, e) == c {
            Scan::Str(s.subrange(q + 1, e), e + 1)
        } else if byte(s, e) == 92 {
            Scan::Fail(LexError::Escape)
        } else {
            Scan::Fail(LexError::UnterminatedString)
        }
    } else if c == 46 {
        if c1 == 46 {
            if byte(s, q + 2) == 46 {
                Scan::Plain(Token::Dots, q + 3)
            } else {
                Scan::Plain(Token::Concat, q + 2)
            }
        } else if is_digit(c1) {
            scan_fraction(s, q + 1, 0)
        } else {
            Scan::Plain(Token::Dot, q + 1)
        }
    } else if c == 45 {
        if c1 == 45 { Scan::Fail(LexError::BlockComment) } else { Scan::Plain(Token::Sub, q + 1) }
    } else if is_digit(c) {
        scan_number(s, q)
    } else if is_alpha(c) {
        let e = name_end(s, q);
        let w = s.subrange(q, e);
        if keyword(w) is Some {
            Scan::Plain(keyword(w)->0, e)
        } else {
            Scan::Name(w, e)
        }
    } else if c == 0 {
        Scan::Plain(Token::Eos, if q < s.len() { q + 1 } else { q })
    } else {
        Scan::Fail(LexError::InvalidChar(c))
    }
}

/// The next token of the input from position `p`.
pub open spec fn scan(s: Seq<u8>, p: int) -> Scan {
    token_at(s, skip(s, p, false))
}

/// Whether `r`, with the reader left at `end`, is what `sc` describes.
pub open spec fn delivers(sc: Scan, r: Result<Token, LexError>, end: int) -> bool {
    match sc {
        Scan::Plain(t, e) => r == Ok::<Token, LexError>(t) && end == e,
        Scan::Name(w, e) => r is Ok && r->Ok_0 is Name && r->Ok_0->Name_0@ == w && end == e,
        Scan::Str(w, e) => r is Ok && r->Ok_0 is Str && r->Ok_0->Str_0@ == w && end == e,
        Scan::Fail(err) => r == Err::<Token, LexError>(err),
    }
}

/// The keyword that a word spells, if any (the words are written as ASCII codes).
pub open spec fn keyword(w: Seq<u8>) -> Option<Token> {
    if w == seq![97u8, 110, 100] {
        Some(Token::And)
    } else if w == seq![98u8, 114, 101, 97, 107] {
        Some(Token::Break)
    } else if w == seq![100u8, 111] {
        Some(Token::Do)
    } else if w == seq![101u8, 108, 115, 101] {
        Some(Token::Else)
    } else if w == seq![101u8, 108, 115, 101, 105, 102] {
        Some(Token::Elseif)
    } else if w == seq![101u8, 110, 100] {
        Some(Token::End)
    } else if w == seq![102u8, 97, 108, 115, 101] {
        Some(Token::False)
    } else if w == seq![102u8, 111, 114] {
        Some(Token::For)
    } else if w == seq![102u8, 117, 110, 99, 116, 105, 111, 110] {
        Some(Token::Function)
    } else if w == seq![103u8, 111, 116, 111] {
        Some(Token::Goto)
    } else if w == seq![105u8, 102] {
        Some(Token::If)
    } else if w == seq![105u8, 110] {
        Some(Token::In)
    } else if w == seq![108u8, 111, 99, 97, 108] {
        Some(Token::Local)
    } else if w == seq![110u8, 105, 108] {
        Some(Token::Nil)
    } else if w == seq![110u8, 111, 116] {
        Some(Token::Not)
    } else if w == seq![111u8, 114] {
        Some(Token::Or)
    } else if w == seq![114u8, 101, 112, 101, 97, 116] {
        Some(Token::Repeat)
    } else if w == seq![114u8, 101, 116, 117, 114, 110] {
        Some(Token::Return)
    } else if w == seq![116u8, 104, 101, 110] {
        Some(Token::Then)
    } else if w == seq![116u8, 114, 117, 101] {
        Some(Token::True)
    } else if w == seq![117u8, 110, 116, 105, 108] {
        Some(Token::Until)
    } else if w == seq![119u8, 104, 105, 108, 101] {
        Some(Token::While)
    } else {
        None
    }
}

/// The keyword that a word spells, if any.
fn keyword_of(w: &Vec<u8>) -> (r: Option<Token>)
    ensures
        r == keyword(w@),
{
    if is_word(w, &[97u8, 110, 100]) {
        Some(Token::And)
    } else if is_word(w, &[98u8, 114, 101, 97, 107]) {
        Some(Token::Break)
    } else if is_word(w, &[100u8, 111]) {
        Some(Token::Do)
    } else if is_word(w, &[101u8, 108, 115, 101]) {
        Some(Token::Else)
    } else if is_word(w, &[101u8, 108, 115, 101, 105, 102]) {
        Some(Token::Elseif)
    } else if is_word(w, &[101u8, 110, 100]) {
        Some(Token::End)
    } else if is_word(w, &[102u8, 97, 108, 115, 101]) {
        Some(Token::False)
    } else if is_word(w, &[102u8, 111, 114]) {
        Some(Token::For)
    } else if is_word(w, &[102u8, 117, 110, 99, 116, 105, 111, 110]) {
        Some(Token::Function)
    } else if is_word(w, &[103u8, 111, 116, 111]) {
        Some(Token::Goto)
    } else if is_word(w, &[105u8, 102]) {
        Some(Token::If)
    } else if is_word(w, &[105u8, 110]) {
        Some(Token::In)
    } else if is_word(w, &[108u8, 111, 99, 97, 108]) {
        Some(Token::Local)
    } else if is_word(w, &[110u8, 105, 108]) {
        Some(Token::Nil)
    } else if is_word(w, &[110u8, 111, 116]) {
        Some(Token::Not)
    } else if is_word(w, &[111u8, 114]) {
        Some(Token::Or)
    } else if is_word(w, &[114u8, 101, 112, 101, 97, 116]) {
        Some(Token::Repeat)
    } else if is_word(w, &[114u8, 101, 116, 117, 114, 110]) {
        Some(Token::Return)
    } else if is_word(w, &[116u8, 104, 101, 110]) {
        Some(Token::Then)
    } else if is_word(w, &[116u8, 114, 117, 101]) {
        Some(Token::True)
    } else if is_word(w, &[117u8, 110, 116, 105, 108]) {
        Some(Token::Until)
    } else if is_word(w, &[119u8, 104, 105, 108, 101]) {
        Some(Token::While)
    } else {
        None
    }
}

/// Every byte from `i` up to `digits_end(s, i)` is a digit.
proof fn lemma_digits_run(s: Seq<u8>, i: int)
    requires
        0 <= i,
    ensures
        i <= digits_end(s, i) <= if i <= s.len() { s.len() as int } else { i },
        forall|k: int| i <= k < digits_end(s, i) ==> is_digit(#[trigger] s[k]),
    decreases s.len() - i,
{
    if 0 <= i < s.len() && is_digit(s[i]) {
        lemma_digits_run(s, i + 1);
    }
}

/// A run of digits has a value of at least zero that grows as the run grows.
proof fn lemma_digits_value_grows(s: Seq<u8>, a: int, i: int, e: int)
    requires
        a <= i <= e,
        forall|k: int| a <= k < e ==> is_digit(#[trigger] s[k]),
    ensures
        0 <= digits_value(s, a, i) <= digits_value(s, a, e),
    decreases e - a,
{
    if e > a {
        if i < e {
            lemma_digits_value_grows(s, a, i, e - 1);
        } else {
            lemma_digits_value_grows(s, a, i - 1, e - 1);
        }
    }
}

/// The run of identifier bytes stays within the input.
proof fn lemma_name_run(s: Seq<u8>, i: int)
    requires
        0 <= i <= s.len(),
    ensures
        i <= name_end(s, i) <= s.len(),
    decreases s.len() - i,
{
    if 0 <= i < s.len() && is_name_byte(s[i]) {
        lemma_name_run(s, i + 1);
    }
}

/// The body of a string literal stays within the input.
proof fn lemma_string_run(s: Seq<u8>, i: int, q: u8)
    requires
        0 <= i <= s.len(),
    ensures
        i <= string_end(s, i, q) <= s.len(),
    decreases s.len() - i,
{
    if 0 <= i < s.len() && s[i] != q && s[i] != 92 && s[i] != 0 {
        lemma_string_run(s, i + 1, q);
    }
}

/// Skipping stays within the input.
proof fn lemma_skip_bounds(s: Seq<u8>, i: int, c: bool)
    requires
        0 <= i <= s.len(),
    ensures
        i <= skip(s, i, c) <= s.len(),
    decreases s.len() - i,
{
    if i < s.len() {
        if c {
            lemma_skip_bounds(s, i + 1, s[i] != 10);
        } else if is_space(s[i]) {
            lemma_skip_bounds(s, i + 1, false);
        } else if byte(s, i) == 45 && byte(s, i + 1) == 45 && !block_comment_at(s, i) {
            lemma_skip_bounds(s, i + 2, true);
        }
    }
}

/// Every token but the end of input moves the reader forward, and no token
/// reaches past the end.
proof fn lemma_scan_progress(s: Seq<u8>, p: int)
    requires
        0 <= p <= s.len(),
    ensures
        match scan(s, p) {
            Scan::Plain(t, e) => (t is Eos || p < e) && e <= s.len(),
            Scan::Name(_, e) => p < e <= s.len(),
            Scan::Str(_, e) => p < e <= s.len(),
            Scan::Fail(_) => true,
        },
{
    lemma_skip_bounds(s, p, false);
    let q = skip(s, p, false);
    if q < s.len() {
        lemma_name_run(s, q + 1);
        lemma_digits_run(s, q + 1);
        lemma_string_run(s, q + 1, s[q]);
        let e = digits_end(s, q);
        if e < s.len() {
            lemma_digits_run(s, e + 1);
        }
    }
}

/// Whether `w` holds exactly the bytes of `k`.
fn is_word(w: &Vec<u8>, k: &[u8]) -> (r: bool)
    ensures
        r == (w@ == k@),
{
    if w.len() != k.len() {
        return false;
    }
    let mut i: usize = 0;
    while i < k.len()
        invariant
            w@.len() == k@.len(),
            i <= k@.len(),
            w@.subrange(0, i as int) == k@.subrange(0, i as int),
        decreases k@.len() - i,
    {
        if w[i] != k[i] {
            return false;
        }
        assert(w@.subrange(0, i as int + 1) =~= w@.subrange(0, i as int).push(w@[i as int]));
        assert(k@.subrange(0, i as int + 1) =~= k@.subrange(0, i as int).push(k@[i as int]));
        i = i + 1;
    }
    assert(w@ =~= w@.subrange(0, i as int));
    assert(k@ =~= k@.subrange(0, i as int));
    true
}

/// The one-byte token that `b` is on its own, if any.
fn single_of(b: u8) -> (r: Option<Token>)
    ensures
        r == single(b),
{
    if b == 43 {
        Some(Token::Add)
    } else if b == 42 {
        Some(Token::Mul)
    } else if b == 37 {
        Some(Token::Mod)
    } else if b == 94 {
        Some(Token::Pow)
    } else if b == 35 {
        Some(Token::Len)
    } else if b == 38 {
        Some(Token::BitAnd)
    } else if b == 124 {
        Some(Token::BitOr)
    } else if b == 40 {
        Some(Token::ParL)
    } else if b == 41 {
        Some(Token::ParR)
    } else if b == 123 {
        Some(Token::CurlyL)
    } else if b == 125 {
        Some(Token::CurlyR)
    } else if b == 91 {
        Some(Token::SqurL)
    } else if b == 93 {
        Some(Token::SqurR)
    } else if b == 59 {
        Some(Token::SemiColon)
    } else if b == 44 {
        Some(Token::Comma)
    } else {
        None
    }
}

/// A tokenizer over the bytes of a source text, with one token of lookahead.
pub struct Lex {
    pub input: Vec<u8>,
    /// Where the next byte is read.
    pub pos: usize,
    /// The token that `peek` read and `next` has not yet handed out.
    pub ahead: Option<Token>,
}

impl Lex {
    /// A measure of the work left: it shrinks with every token handed out
    /// but the end of input.
    pub open spec fn remaining(&self) -> int {
        2 * (self.input@.len() - self.pos) + match self.ahead {
            Some(t) => if t is Eos { 0int } else { 1int },
            None => 0int,
        }
    }

    pub open spec fn wf(&self) -> bool {
        &&& self.pos <= self.input@.len()
        &&& self.input@.len() + 4 <= usize::MAX
    }

    /// A tokenizer at the start of `input`.
    pub fn new(input: Vec<u8>) -> (r: Lex)
        requires
            input@.len() + 4 <= usize::MAX,
        ensures
            r.wf(),
            r.input@ == input@,
            r.pos == 0,
            r.ahead.is_none(),
    {
        Lex { input, pos: 0, ahead: None }
    }

    /// Hands out the next token and moves past it.
    pub fn next(&mut self) -> (r: Result<Token, LexError>)
        requires
            old(self).wf(),
        ensures
            final(self).wf(),
            final(self).input@ == old(self).input@,
            final(self).ahead.is_none(),
            final(self).remaining() <= old(self).remaining(),
            r is Ok && !(r->Ok_0 is Eos) ==> final(self).remaining() < old(self).remaining(),
            match old(self).ahead {
                Some(t) => r == Ok::<Token, LexError>(t) && final(self).pos == old(self).pos,
                None => delivers(
                    scan(old(self).input@, old(self).pos as int),
                    r,
                    final(self).pos as int,
                ),
            },
    {
        proof {
            lemma_scan_progress(self.input@, self.pos as int);
        }
        match self.ahead.take() {
            Some(t) => Ok(t),
            None => self.do_next(),
        }
    }

    /// The next token, without moving past it: it is kept for `next`.
    pub fn peek(&mut self) -> (r: Result<&Token, LexError>)
        requires
            old(self).wf(),
        ensures
            final(self).wf(),
            final(self).input@ == old(self).input@,
            final(self).remaining() <= old(self).remaining(),
            match old(self).ahead {
                Some(t) => r == Ok::<&Token, LexError>(&t) && *final(self) == *old(self),
                None => match r {
                    Ok(t) => final(self).ahead == Some(*t) && delivers(
                        scan(old(self).input@, old(self).pos as int),
                        Ok::<Token, LexError>(*t),
                        final(self).pos as int,
                    ),
                    Err(e) => final(self).ahead.is_none() && delivers(
                        scan(old(self).input@, old(self).pos as int),
                        Err::<Token, LexError>(e),
                        final(self).pos as int,
                    ),
                },
            },
    {
        proof {
            lemma_scan_progress(self.input@, self.pos as int);
        }
        if self.ahead.is_none() {
            match self.do_next() {
                Ok(t) => {
                    self.ahead = Some(t);
                },
                Err(e) => {
                    return Err(e);
                },
            }
        }
        Ok(self.ahead.as_ref().unwrap())
    }

    /// The byte at `i`, or 0 past the end.
    fn byte_at(&self, i: usize) -> (r: u8)
        ensures
            r == byte(self.input@, i as int),
    {
        if i < self.input.len() {
            self.input[i]
        } else {
            0
        }
    }

    /// Moves past whitespace and line comments.
    fn skip_blank(&mut self)
        requires
            old(self).wf(),
        ensures
            old(self).pos <= final(self).pos,
            final(self).wf(),
            final(self).input == old(self).input,
            final(self).ahead == old(self).ahead,
            final(self).pos == skip(old(self).input@, old(self).pos as int, false),
    {
        let ghost s = self.input@;
        let ghost p0 = self.pos as int;
        let mut in_comment = false;
        while self.pos < self.input.len()
            invariant
                self.wf(),
                self.input@ == s,
                self.input == old(self).input,
                self.ahead == old(self).ahead,
                p0 == old(self).pos,
                p0 <= self.pos,
                skip(s, self.pos as int, in_comment) == skip(s, p0, false),
            decreases s.len() - self.pos,
        {
            let b = self.input[self.pos];
            if in_comment {
                in_comment = b != 10;
                self.pos = self.pos + 1;
            } else if b == 10 || b == 13 || b == 9 || b == 32 {
                self.pos = self.pos + 1;
            } else if b == 45 && self.byte_at(self.pos + 1) == 45 && !(self.byte_at(self.pos + 2)
                == 91 && self.byte_at(self.pos + 3) == 91) {
                self.pos = self.pos + 2;
                in_comment = true;
            } else {
                return;
            }
        }
    }

    /// The end of the run of digits from `a`, and its value if that fits.
    fn read_digits(&self, a: usize) -> (r: (usize, Option<i64>))
        requires
            a <= self.input@.len(),
        ensures
            r.0 == digits_end(self.input@, a as int),
            digits_value(self.input@, a as int, r.0 as int) <= i64::MAX ==> r.1 == Some(
                digits_value(self.input@, a as int, r.0 as int) as i64,
            ),
            digits_value(self.input@, a as int, r.0 as int) > i64::MAX ==> r.1.is_none(),
    {
        let ghost s = self.input@;
        proof {
            lemma_digits_run(s, a as int);
        }
        let ghost e = digits_end(s, a as int);
        let mut i = a;
        let mut v: Option<i64> = Some(0);
        while i < self.input.len() && 48 <= self.input[i] && self.input[i] <= 57
            invariant
                a <= i <= s.len(),
                self.input@ == s,
                e == digits_end(s, a as int),
                digits_end(s, i as int) == e,
                a <= i <= e,
                forall|k: int| a <= k < e ==> is_digit(#[trigger] s[k]),
                digits_value(s, a as int, i as int) <= i64::MAX ==> v == Some(
                    digits_value(s, a as int, i as int) as i64,
                ),
                digits_value(s, a as int, i as int) > i64::MAX ==> v.is_none(),
            decreases s.len() - i,
        {
            let d = (self.input[i] - 48) as i64;
            proof {
                lemma_digits_value_grows(s, a as int, i as int, i as int + 1);
                lemma_digits_run(s, i as int + 1);
            }
            v = match v {
                Some(n) => {
                    if n > (i64::MAX - d) / 10 {
                        None
                    } else {
                        Some(n * 10 + d)
                    }
                },
                None => None,
            };
            i = i + 1;
        }
        proof {
            lemma_digits_value_grows(s, a as int, i as int, e);
        }
        (i, v)
    }

    /// A copy of `input[a..e]`.
    fn bytes_between(&self, a: usize, e: usize) -> (r: Vec<u8>)
        requires
            a <= e <= self.input@.len(),
        ensures
            r@ == self.input@.subrange(a as int, e as int),
    {
        let mut r: Vec<u8> = Vec::new();
        let mut i = a;
        while i < e
            invariant
                a <= i <= e <= self.input@.len(),
                r@ == self.input@.subrange(a as int, i as int),
            decreases e - i,
        {
            r.push(self.input[i]);
            assert(self.input@.subrange(a as int, i as int + 1) =~= self.input@.subrange(
                a as int,
                i as int,
            ).push(self.input@[i as int]));
            i = i + 1;
        }
        r
    }

    /// The fraction of a float whose digits start at `a`.
    fn read_fraction(&mut self, a: usize, ip: i64) -> (r: Result<Token, LexError>)
        requires
            old(self).wf(),
            a <= old(self).input@.len(),
            old(self).pos <= a,
        ensures
            old(self).pos <= final(self).pos,
            final(self).wf(),
            final(self).input == old(self).input,
            final(self).ahead == old(self).ahead,
            delivers(scan_fraction(old(self).input@, a as int, ip), r, final(self).pos as int),
    {
        let (e, v) = self.read_digits(a);
        proof {
            lemma_digits_run(self.input@, a as int);
            lemma_digits_value_grows(self.input@, a as int, e as int, e as int);
        }
        match v {
            None => {
                assert(digits_value(self.input@, a as int, e as int) > i64::MAX);
                Err(LexError::NumberTooLarge)
            },
            Some(f) => {
                self.pos = e;
                let mut frac = f;
                let mut k = e - a;
                while k > 0 && frac % 10 == 0
                    invariant
                        frac >= 0,
                        trim_zeros(frac as int, k as int) == trim_zeros(f as int, e - a),
                    decreases k,
                {
                    frac = frac / 10;
                    k = k - 1;
                }
                Ok(Token::Float(FloatLit { int_part: ip, frac, frac_digits: k }))
            },
        }
    }

    /// A number that starts with the digit at `q`.
    fn read_number(&mut self, q: usize) -> (r: Result<Token, LexError>)
        requires
            old(self).wf(),
            q < old(self).input@.len(),
            old(self).pos <= q,
        ensures
            old(self).pos <= final(self).pos,
            final(self).wf(),
            final(self).input == old(self).input,
            final(self).ahead == old(self).ahead,
            delivers(scan_number(old(self).input@, q as int), r, final(self).pos as int),
    {
        let c1 = self.byte_at(q + 1);
        if self.input[q] == 48 && (c1 == 120 || c1 == 88) {
            return Err(LexError::HexNumber);
        }
        let (e, v) = self.read_digits(q);
        proof {
            lemma_digits_run(self.input@, q as int);
        }
        match v {
            None => Err(LexError::NumberTooLarge),
            Some(n) => {
                let b = self.byte_at(e);
                if b == 46 {
                    self.read_fraction(e + 1, n)
                } else if b == 101 || b == 69 {
                    Err(LexError::Exponent)
                } else {
                    self.pos = e;
                    Ok(Token::Integer(n))
                }
            },
        }
    }

    /// A string literal whose opening quote `quote` stands at `q`.
    fn read_string(&mut self, q: usize, quote: u8) -> (r: Result<Token, LexError>)
        requires
            old(self).wf(),
            q < old(self).input@.len(),
            quote == 39 || quote == 34,
            old(self).pos <= q,
        ensures
            old(self).pos <= final(self).pos,
            final(self).wf(),
            final(self).input == old(self).input,
            final(self).ahead == old(self).ahead,
            ({
                let s = old(self).input@;
                let e = string_end(s, q + 1, quote);
                if byte(s, e) == quote {
                    delivers(Scan::Str(s.subrange(q + 1, e), e + 1), r, final(self).pos as int)
                } else if byte(s, e) == 92 {
                    r == Err::<Token, LexError>(LexError::Escape)
                } else {
                    r == Err::<Token, LexError>(LexError::UnterminatedString)
                }
            }),
    {
        let ghost s = self.input@;
        let mut i = q + 1;
        proof {
            lemma_string_run(s, i as int, quote);
        }
        while i < self.input.len() && self.input[i] != quote && self.input[i] != 92
            && self.input[i] != 0
            invariant
                q + 1 <= i <= s.len(),
                self.input@ == s,
                string_end(s, i as int, quote) == string_end(s, q + 1, quote),
            decreases s.len() - i,
        {
            i = i + 1;
        }
        let b = self.byte_at(i);
        if b == quote && i < self.input.len() {
            let w = self.bytes_between(q + 1, i);
            self.pos = i + 1;
            Ok(Token::Str(w))
        } else if b == 92 {
            Err(LexError::Escape)
        } else {
            Err(LexError::UnterminatedString)
        }
    }

    /// An identifier or keyword that starts at `q`.
    fn read_name(&mut self, q: usize) -> (r: Result<Token, LexError>)
        requires
            old(self).wf(),
            q < old(self).input@.len(),
            old(self).pos <= q,
        ensures
            old(self).pos <= final(self).pos,
            final(self).wf(),
            final(self).input == old(self).input,
            final(self).ahead == old(self).ahead,
            ({
                let s = old(self).input@;
                let e = name_end(s, q as int);
                let w = s.subrange(q as int, e);
                if keyword(w) is Some {
                    delivers(Scan::Plain(keyword(w)->0, e), r, final(self).pos as int)
                } else {
                    delivers(Scan::Name(w, e), r, final(self).pos as int)
                }
            }),
    {
        let ghost s = self.input@;
        let mut i = q;
        proof {
            lemma_name_run(s, q as int);
        }
        while i < self.input.len() && ((65 <= self.input[i] && self.input[i] <= 90) || (97
            <= self.input[i] && self.input[i] <= 122) || self.input[i] == 95 || (48
            <= self.input[i] && self.input[i] <= 57))
            invariant
                q <= i <= s.len(),
                self.input@ == s,
                name_end(s, i as int) == name_end(s, q as int),
            decreases s.len() - i,
        {
            i = i + 1;
        }
        let w = self.bytes_between(q, i);
        self.pos = i;
        match keyword_of(&w) {
            Some(k) => Ok(k),
            None => Ok(Token::Name(w)),
        }
    }

    /// Reads the next token from the input, past any whitespace and comments.
    pub fn do_next(&mut self) -> (r: Result<Token, LexError>)
        requires
            old(self).wf(),
        ensures
            old(self).pos <= final(self).pos,
            final(self).wf(),
            final(self).input == old(self).input,
            final(self).ahead == old(self).ahead,
            delivers(scan(old(self).input@, old(self).pos as int), r, final(self).pos as int),
    {
        proof {
            lemma_skip_bounds(self.input@, self.pos as int, false);
        }
        self.skip_blank();
        let q = self.pos;
        let c = self.byte_at(q);
        let c1 = self.byte_at(q + 1);
        let one = single_of(c);
        match one {
            Some(t) => {
                self.pos = q + 1;
                return Ok(t);
            },
            None => {},
        }
        if c == 47 {
            self.two(c1 == 47, Token::Idiv, Token::Div)
        } else if c == 61 {
            self.two(c1 == 61, Token::Equal, Token::Assign)
        } else if c == 126 {
            self.two(c1 == 61, Token::NotEq, Token::BitXor)
        } else if c == 58 {
            self.two(c1 == 58, Token::DoubColon, Token::Colon)
        } else if c == 60 {
            if c1 == 60 {
                self.two(true, Token::ShiftL, Token::Less)
            } else {
                self.two(c1 == 61, Token::LesEq, Token::Less)
            }
        } else if c == 62 {
            if c1 == 62 {
                self.two(true, Token::ShiftR, Token::Greater)
            } else {
                self.two(c1 == 61, Token::GreEq, Token::Greater)
            }
        } else if c == 39 || c == 34 {
            self.read_string(q, c)
        } else if c == 46 {
            if c1 == 46 {
                if self.byte_at(q + 2) == 46 {
                    self.pos = q + 3;
                    Ok(Token::Dots)
                } else {
                    self.pos = q + 2;
                    Ok(Token::Concat)
                }
            } else if 48 <= c1 && c1 <= 57 {
                self.read_fraction(q + 1, 0)
            } else {
                self.pos = q + 1;
                Ok(Token::Dot)
            }
        } else if c == 45 {
            if c1 == 45 {
                Err(LexError::BlockComment)
            } else {
                self.pos = q + 1;
                Ok(Token::Sub)
            }
        } else if 48 <= c && c <= 57 {
            self.read_number(q)
        } else if (65 <= c && c <= 90) || (97 <= c && c <= 122) || c == 95 {
            self.read_name(q)
        } else if c == 0 {
            if q < self.input.len() {
                self.pos = q + 1;
            }
            Ok(Token::Eos)
        } else {
            Err(LexError::InvalidChar(c))
        }
    }

    /// The token at `pos`: `long` (two bytes) when `is_long`, else `short` (one byte).
    fn two(&mut self, is_long: bool, long: Token, short: Token) -> (r: Result<Token, LexError>)
        requires
            old(self).wf(),
            old(self).pos < old(self).input@.len(),
            is_long ==> old(self).pos + 1 < old(self).input@.len(),
        ensures
            old(self).pos <= final(self).pos,
            final(self).wf(),
            final(self).input == old(self).input,
            final(self).ahead == old(self).ahead,
            is_long ==> r == Ok::<Token, LexError>(long) && final(self).pos == old(self).pos + 2,
            !is_long ==> r == Ok::<Token, LexError>(short) && final(self).pos == old(self).pos + 1,
    {
        if is_long {
            self.pos = self.pos + 2;
            Ok(long)
        } else {
            self.pos = self.pos + 1;
            Ok(short)
        }
    }
}


} // verus!
