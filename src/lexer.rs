//! Scanning of arithmetic expressions into tokens.
use vstd::prelude::*;
use vstd::std_specs::iter::IteratorSpec;
use vstd::string::StringExecFns;
use crate::error::TokenizeError;
use crate::text::{
    byte_len, lemma_byte_len_concat, lemma_byte_len_nonempty, lemma_byte_len_push, lemma_byte_len_take,
    split_after_chars,
    take_while,
};

verus! {

broadcast use vstd::utf8::group_utf8_lib;

/// The lexical category of a token.
#[derive(Debug)]
pub enum TokenKind {
    Integer(usize),
    /// A literal with a decimal point, kept as written: ASCII digits and one
    /// `.`, with at least one digit (`"123.45"`, `"42."`, `".5"`). Its value is
    /// the decimal number it denotes; read it with `str::parse::<f64>`.
    Float(String),
    Plus,
    Minus,
    Divide,
    Multiply,
    Open,
    Close,
}

/// What a token kind means: an integer by its value, a decimal literal by its text.
pub enum KindSpec {
    Integer(nat),
    Float(Seq<char>),
    Plus,
    Minus,
    Divide,
    Multiply,
    Open,
    Close,
}

impl View for TokenKind {
    type V = KindSpec;

    open spec fn view(&self) -> KindSpec {
        match self {
            TokenKind::Integer(n) => KindSpec::Integer(*n as nat),
            TokenKind::Float(s) => KindSpec::Float(s@),
            TokenKind::Plus => KindSpec::Plus,
            TokenKind::Minus => KindSpec::Minus,
            TokenKind::Divide => KindSpec::Divide,
            TokenKind::Multiply => KindSpec::Multiply,
            TokenKind::Open => KindSpec::Open,
            TokenKind::Close => KindSpec::Close,
        }
    }
}

/// A failed scan, with the offending character where there is one.
pub enum FaultSpec {
    NoMatches,
    UnknownChar(char),
    UnexpectedEOF,
}

/// The error value that reports `f`.
pub open spec fn reports(e: TokenizeError, f: FaultSpec) -> bool {
    match f {
        FaultSpec::NoMatches => e is NoMatches,
        FaultSpec::UnknownChar(c) => e matches TokenizeError::UnknownChar(t) && t@ == seq![c],
        FaultSpec::UnexpectedEOF => e is UnexpectedEOF,
    }
}

impl PartialEq for TokenKind {
    fn eq(&self, other: &TokenKind) -> (r: bool) {
        match (self, other) {
            (TokenKind::Integer(a), TokenKind::Integer(b)) => *a == *b,
            (TokenKind::Float(a), TokenKind::Float(b)) => *a == *b,
            (TokenKind::Plus, TokenKind::Plus) => true,
            (TokenKind::Minus, TokenKind::Minus) => true,
            (TokenKind::Divide, TokenKind::Divide) => true,
            (TokenKind::Multiply, TokenKind::Multiply) => true,
            (TokenKind::Open, TokenKind::Open) => true,
            (TokenKind::Close, TokenKind::Close) => true,
            _ => false,
        }
    }
}

impl vstd::std_specs::cmp::PartialEqSpecImpl for TokenKind {
    open spec fn obeys_eq_spec() -> bool {
        true
    }

    open spec fn eq_spec(&self, other: &TokenKind) -> bool {
        self@ == other@
    }
}

/// A half-open interval `[start, end)` of byte offsets into the scanned text.
#[derive(Debug, Clone, Copy, PartialEq, Eq, Structural)]
pub struct Span {
    pub start: usize,
    pub end: usize,
}

/// A token: its kind and the bytes of the input it was scanned from.
#[derive(Debug)]
pub struct Token {
    pub span: Span,
    pub kind: TokenKind,
}

impl PartialEq for Token {
    fn eq(&self, other: &Token) -> (r: bool) {
        self.span == other.span && self.kind == other.kind
    }
}

impl vstd::std_specs::cmp::PartialEqSpecImpl for Token {
    open spec fn obeys_eq_spec() -> bool {
        true
    }

    open spec fn eq_spec(&self, other: &Token) -> bool {
        self@ == other@
    }
}

/// A token in the model: its kind and its byte interval.
pub struct TokenSpec {
    pub kind: KindSpec,
    pub start: nat,
    pub end: nat,
}

impl View for Token {
    type V = TokenSpec;

    open spec fn view(&self) -> TokenSpec {
        TokenSpec { kind: self.kind@, start: self.span.start as nat, end: self.span.end as nat }
    }
}

pub open spec fn is_digit(c: char) -> bool {
    '0' <= c <= '9'
}

/// Membership in Unicode's White_Space property.
pub open spec fn is_white_space(c: char) -> bool {
    let v = c as u32;
    ||| 0x09 <= v <= 0x0D
    ||| v == 0x20
    ||| v == 0x85
    ||| v == 0xA0
    ||| v == 0x1680
    ||| 0x2000 <= v <= 0x200A
    ||| v == 0x2028
    ||| v == 0x2029
    ||| v == 0x202F
    ||| v == 0x205F
    ||| v == 0x3000
}

/// Relies on `char::is_whitespace`: true exactly for the characters with the
/// Unicode White_Space property.
#[verifier::external_body]
fn is_whitespace(c: char) -> (r: bool)
    ensures
        r == is_white_space(c),
{
    c.is_whitespace()
}

/// Relies on `char::to_string`: the string that holds `c` alone.
#[verifier::external_body]
fn char_to_string(c: char) -> (r: String)
    ensures
        r@ == seq![c],
{
    c.to_string()
}

/// Number of leading characters of `s` that are whitespace.
pub open spec fn white_run(s: Seq<char>) -> nat
    decreases s.len(),
{
    if s.len() > 0 && is_white_space(s[0]) {
        1 + white_run(s.drop_first())
    } else {
        0
    }
}

/// Number of leading characters of `s` that are ASCII digits.
pub open spec fn digit_run(s: Seq<char>) -> nat
    decreases s.len(),
{
    if s.len() > 0 && is_digit(s[0]) {
        1 + digit_run(s.drop_first())
    } else {
        0
    }
}

proof fn lemma_white_run(s: Seq<char>, k: int)
    requires
        0 <= k <= s.len(),
        forall|i: int| 0 <= i < k ==> is_white_space(s[i]),
        k < s.len() ==> !is_white_space(s[k]),
    ensures
        white_run(s) == k,
    decreases k,
{
    if k > 0 {
        lemma_white_run(s.drop_first(), k - 1);
    }
}

pub proof fn lemma_digit_run(s: Seq<char>, k: int)
    requires
        0 <= k <= s.len(),
        forall|i: int| 0 <= i < k ==> is_digit(s[i]),
        k < s.len() ==> !is_digit(s[k]),
    ensures
        digit_run(s) == k,
    decreases k,
{
    if k > 0 {
        lemma_digit_run(s.drop_first(), k - 1);
    }
}

pub proof fn lemma_runs_bounded(s: Seq<char>)
    ensures
        white_run(s) <= s.len(),
        digit_run(s) <= s.len(),
        forall|i: int| 0 <= i < white_run(s) ==> is_white_space(s[i]),
        forall|i: int| 0 <= i < digit_run(s) ==> is_digit(s[i]),
        white_run(s) < s.len() ==> !is_white_space(s[white_run(s) as int]),
        digit_run(s) < s.len() ==> !is_digit(s[digit_run(s) as int]),
    decreases s.len(),
{
    if s.len() > 0 {
        let t = s.drop_first();
        lemma_runs_bounded(t);
        assert forall|i: int| 0 < i < s.len() implies s[i] == t[i - 1] by {}
    }
}

/// Decimal value of a sequence of ASCII digits.
pub open spec fn decimal_value(ds: Seq<char>) -> nat
    decreases ds.len(),
{
    if ds.len() == 0 {
        0
    } else {
        decimal_value(ds.drop_last()) * 10 + (ds.last() as u32 - '0' as u32) as nat
    }
}

/// Whether the run of digits at the start of `s` is followed by a decimal point.
pub open spec fn number_has_dot(s: Seq<char>) -> bool {
    digit_run(s) < s.len() && s[digit_run(s) as int] == '.'
}

/// Number of characters of the numeric literal at the start of `s`: digits
/// and at most one decimal point.
pub open spec fn number_len(s: Seq<char>) -> nat {
    if number_has_dot(s) {
        digit_run(s) + 1 + digit_run(s.skip(digit_run(s) + 1 as int))
    } else {
        digit_run(s)
    }
}

/// Whether the numeric literal at the start of `s` can be read as a number:
/// it is more than a lone decimal point, and without a point its value fits
/// in `usize`.
pub open spec fn number_parses(s: Seq<char>) -> bool {
    if number_has_dot(s) {
        number_len(s) > 1
    } else {
        decimal_value(s.take(number_len(s) as int)) <= usize::MAX
    }
}

/// The numeric literal at the start of `s` and its length in characters.
pub open spec fn scan_number(s: Seq<char>) -> Result<(KindSpec, nat), FaultSpec> {
    let n = number_len(s);
    if n == 0 {
        Err(FaultSpec::NoMatches)
    } else if number_has_dot(s) {
        Ok((KindSpec::Float(s.take(n as int)), n))
    } else {
        Ok((KindSpec::Integer(decimal_value(s.take(n as int))), n))
    }
}

/// The one token at the start of `s` and its length in characters.
pub open spec fn scan_token(s: Seq<char>) -> Result<(KindSpec, nat), FaultSpec> {
    if s.len() == 0 {
        Err(FaultSpec::UnexpectedEOF)
    } else {
        let c = s[0];
        if c == '+' {
            Ok((KindSpec::Plus, 1))
        } else if c == '-' {
            Ok((KindSpec::Minus, 1))
        } else if c == '*' {
            Ok((KindSpec::Multiply, 1))
        } else if c == '/' {
            Ok((KindSpec::Divide, 1))
        } else if c == '(' {
            Ok((KindSpec::Open, 1))
        } else if c == ')' {
            Ok((KindSpec::Close, 1))
        } else if is_digit(c) {
            scan_number(s)
        } else {
            Err(FaultSpec::UnknownChar(c))
        }
    }
}

pub proof fn lemma_number_len(s: Seq<char>)
    ensures
        number_len(s) <= s.len(),
        is_digit(s[0]) && s.len() > 0 ==> number_len(s) > 0,
        forall|i: int| 0 <= i < number_len(s) ==> is_digit(s[i]) || s[i] == '.',
{
    lemma_runs_bounded(s);
    if number_has_dot(s) {
        let a = digit_run(s) as int;
        lemma_runs_bounded(s.skip(a + 1));
        assert forall|i: int| 0 <= i < number_len(s) implies is_digit(s[i]) || s[i] == '.' by {
            if i > a {
                assert(s[i] == s.skip(a + 1)[i - a - 1]);
            }
        }
    }
}

pub proof fn lemma_scan_token_len(s: Seq<char>)
    ensures
        scan_token(s) matches Ok((_, n)) ==> 0 < n <= s.len(),
{
    if s.len() > 0 {
        lemma_number_len(s);
    }
}

/// Whether the token at the start of `s`, if it is a numeric literal, can be read as a number.
pub open spec fn token_parses(s: Seq<char>) -> bool {
    s.len() > 0 && is_digit(s[0]) ==> number_parses(s)
}

proof fn lemma_decimal_prefix(s: Seq<char>, k: int)
    requires
        0 <= k <= s.len(),
    ensures
        decimal_value(s.take(k)) <= decimal_value(s),
    decreases s.len(),
{
    if k < s.len() {
        lemma_decimal_prefix(s.drop_last(), k);
        assert(s.drop_last().take(k) =~= s.take(k));
    } else {
        assert(s.take(k) =~= s);
    }
}

/// The first character of `s`, if any.
fn first_char(s: &str) -> (r: Option<char>)
    ensures
        r == (if s@.len() > 0 { Some(s@[0]) } else { None::<char> }),
{
    broadcast use vstd::string::group_string_axioms;
    let mut chars = s.chars();
    chars.next()
}

/// Byte length of the run of ASCII digits at the start of `data`; zero
/// where there is none.
fn digit_run_bytes(data: &str) -> (r: usize)
    ensures
        digit_run(data@) <= data@.len(),
        r == byte_len(data@.take(digit_run(data@) as int)),
{
    proof {
        lemma_runs_bounded(data@);
    }
    let digit = |c: char| -> (b: bool)
        ensures
            b == is_digit(c),
        { '0' <= c && c <= '9' };
    match take_while(data, digit) {
        Ok((p, n)) => {
            proof {
                lemma_digit_run(data@, p@.len() as int);
            }
            n
        },
        Err(_) => {
            proof {
                lemma_digit_run(data@, 0);
                assert(data@.take(0) =~= Seq::<char>::empty());
            }
            0
        },
    }
}

/// Byte length of the run of whitespace at the start of `data`; zero where
/// there is none.
pub fn skip_whitespaces(data: &str) -> (r: usize)
    ensures
        white_run(data@) <= data@.len(),
        r == byte_len(data@.take(white_run(data@) as int)),
{
    proof {
        lemma_runs_bounded(data@);
    }
    let white = |c: char| -> (b: bool)
        ensures
            b == is_white_space(c),
        { is_whitespace(c) };
    match take_while(data, white) {
        Ok((p, n)) => {
            proof {
                lemma_white_run(data@, p@.len() as int);
            }
            n
        },
        Err(_) => {
            proof {
                lemma_white_run(data@, 0);
                assert(data@.take(0) =~= Seq::<char>::empty());
            }
            0
        },
    }
}

/// Scans the numeric literal at the start of `data`: ASCII digits and at most
/// one decimal point. A second point ends the literal and is not consumed.
/// Returns the token kind, `Integer` without a point and `Float` with one,
/// and the number of bytes consumed; fails with `NoMatches` where `data`
/// starts with neither a digit nor a point. A literal that cannot be read as
/// a number (a lone point, an integer beyond `usize`) is a defect of the
/// caller, excluded by `requires`.
pub fn tokenize_number(data: &str) -> (r: Result<(TokenKind, usize), TokenizeError>)
    requires
        number_parses(data@),
    ensures
        match scan_number(data@) {
            Ok((kind, n)) => r matches Ok((k, b)) && k@ == kind && b == byte_len(data@.take(n as int)),
            Err(f) => r matches Err(e) && reports(e, f),
        },
{
    let ghost s = data@;
    // the byte length of a slice fits in `usize`, and so does every count below
    let _ = data.as_bytes().len();
    let a = digit_run_bytes(data);
    let ghost ac = digit_run(s) as int;
    let (_, rest) = split_after_chars(data, Ghost(ac), a);
    let ghost mut nc: int = ac;
    let mut n = a;
    let mut dot = false;
    if first_char(rest) == Some('.') {
        proof {
            lemma_byte_len_push(Seq::<char>::empty(), '.');
            assert(Seq::<char>::empty().push('.') =~= rest@.take(1));
        }
        let (_, frac) = split_after_chars(rest, Ghost(1), 1);
        let b = digit_run_bytes(frac);
        let ghost bc = digit_run(frac@) as int;
        proof {
            assert(frac@ =~= s.skip(ac + 1));
            assert(s.take(ac + 1 + bc) =~= s.take(ac) + rest@.take(1) + frac@.take(bc));
            lemma_byte_len_concat(s.take(ac) + rest@.take(1), frac@.take(bc));
            lemma_byte_len_concat(s.take(ac), rest@.take(1));
            lemma_byte_len_take(s, ac + 1 + bc);
        }
        n = a + 1 + b;
        dot = true;
        proof {
            nc = ac + 1 + bc;
        }
    }
    proof {
        lemma_number_len(s);
        assert(nc == number_len(s));
    }
    if n == 0 {
        proof {
            if nc > 0 {
                lemma_byte_len_take(s.take(nc), nc - 1);
                lemma_byte_len_push(s.take(nc - 1), s[nc - 1]);
                assert(s.take(nc - 1).push(s[nc - 1]) =~= s.take(nc));
            }
        }
        return Err(TokenizeError::NoMatches);
    }
    proof {
        if nc == 0 {
            assert(s.take(0) =~= Seq::<char>::empty());
        }
    }
    let (lit, _) = split_after_chars(data, Ghost(nc), n);
    if dot {
        Ok((TokenKind::Float(lit.to_owned()), n))
    } else {
        proof {
            lemma_runs_bounded(s);
            assert forall|i: int| 0 <= i < lit@.len() implies is_digit(lit@[i]) by {
                assert(lit@[i] == s[i]);
            }
        }
        // `number_parses` makes the value fit
        let value = read_decimal(lit).unwrap();
        Ok((TokenKind::Integer(value), n))
    }
}

/// Scans the one token at the start of `data`; no whitespace is skipped.
/// Operators and parentheses take one byte; a digit starts a numeric
/// literal. Fails with `UnexpectedEOF` on empty input and
/// with `UnknownChar` on any other first character.
pub fn tokenize_single_token(data: &str) -> (r: Result<(TokenKind, usize), TokenizeError>)
    requires
        token_parses(data@),
    ensures
        match scan_token(data@) {
            Ok((kind, n)) => r matches Ok((k, b)) && k@ == kind && b == byte_len(data@.take(n as int)),
            Err(f) => r matches Err(e) && reports(e, f),
        },
{
    let value = match first_char(data) {
        Some(value) => value,
        None => return Err(TokenizeError::UnexpectedEOF),
    };
    proof {
        lemma_byte_len_push(Seq::<char>::empty(), value);
        assert(Seq::<char>::empty().push(value) =~= data@.take(1));
    }
    let (kind, size) = if value == '+' {
        (TokenKind::Plus, 1)
    } else if value == '-' {
        (TokenKind::Minus, 1)
    } else if value == '*' {
        (TokenKind::Multiply, 1)
    } else if value == '/' {
        (TokenKind::Divide, 1)
    } else if value == '(' {
        (TokenKind::Open, 1)
    } else if value == ')' {
        (TokenKind::Close, 1)
    } else if '0' <= value && value <= '9' {
        match tokenize_number(data) {
            Ok(found) => found,
            Err(e) => return Err(e),
        }
    } else {
        return Err(TokenizeError::UnknownChar(char_to_string(value)));
    };
    Ok((kind, size))
}

/// The tokens of `s`, whose first byte sits at byte offset `offset` of the
/// whole input: whitespace is skipped before each token, and the first failed
/// scan fails the whole.
pub open spec fn lex_from(s: Seq<char>, offset: nat) -> Result<Seq<TokenSpec>, FaultSpec>
    decreases s.len(),
    via lex_from_decreases
{
    let w = white_run(s) as int;
    let rest = s.skip(w);
    let start = offset + byte_len(s.take(w));
    if rest.len() == 0 {
        Ok(Seq::empty())
    } else {
        match scan_token(rest) {
            Err(f) => Err(f),
            Ok((kind, n)) => {
                let end = start + byte_len(rest.take(n as int));
                match lex_from(rest.skip(n as int), end) {
                    Ok(ts) => Ok(seq![TokenSpec { kind, start, end }] + ts),
                    Err(f) => Err(f),
                }
            },
        }
    }
}

#[via_fn]
proof fn lex_from_decreases(s: Seq<char>, offset: nat) {
    lemma_runs_bounded(s);
    let rest = s.skip(white_run(s) as int);
    lemma_scan_token_len(rest);
}

/// The tokens of the whole input `s`.
pub open spec fn lex(s: Seq<char>) -> Result<Seq<TokenSpec>, FaultSpec> {
    lex_from(s, 0)
}

/// Whether every integer literal that scanning `s` reaches fits in `usize`.
pub open spec fn lex_parses(s: Seq<char>) -> bool
    decreases s.len(),
    via lex_parses_decreases
{
    let rest = s.skip(white_run(s) as int);
    rest.len() > 0 ==> token_parses(rest) && match scan_token(rest) {
        Ok((_, n)) => lex_parses(rest.skip(n as int)),
        Err(_) => true,
    }
}

#[via_fn]
proof fn lex_parses_decreases(s: Seq<char>) {
    lemma_runs_bounded(s);
    let rest = s.skip(white_run(s) as int);
    lemma_scan_token_len(rest);
}

/// `t` followed by the tokens of `rest`, or the failure of `rest`.
pub open spec fn prepend(
    t: Seq<TokenSpec>,
    rest: Result<Seq<TokenSpec>, FaultSpec>,
) -> Result<Seq<TokenSpec>, FaultSpec> {
    match rest {
        Ok(ts) => Ok(t + ts),
        Err(f) => Err(f),
    }
}

/// The model of a sequence of tokens.
pub open spec fn tokens_view(v: Seq<Token>) -> Seq<TokenSpec> {
    v.map_values(|t: Token| t@)
}

/// A cursor over the input: the byte offset reached and the text that is
/// left after it.
struct Tokenizer<'a> {
    index: usize,
    remaining: &'a str,
}

impl<'a> Tokenizer<'a> {
    /// Offsets up to the end of the input fit in `usize`.
    spec fn wf(&self) -> bool {
        self.index + byte_len(self.remaining@) <= usize::MAX
    }

    fn new(src: &'a str) -> (t: Tokenizer<'a>)
        ensures
            t.wf(),
            t.index == 0,
            t.remaining@ == src@,
    {
        // the byte length of a slice fits in `usize`
        let _ = src.as_bytes().len();
        Tokenizer { index: 0, remaining: src }
    }

    /// Moves past the first `chars` characters of what is left, which take
    /// `num_bytes` bytes.
    fn chomp(&mut self, num_bytes: usize, Ghost(chars): Ghost<int>)
        requires
            old(self).wf(),
            0 <= chars <= old(self).remaining@.len(),
            num_bytes == byte_len(old(self).remaining@.take(chars)),
        ensures
            final(self).wf(),
            final(self).remaining@ == old(self).remaining@.skip(chars),
            final(self).index == old(self).index + num_bytes,
            final(self).index + byte_len(final(self).remaining@) == old(self).index + byte_len(
                old(self).remaining@,
            ),
    {
        proof {
            lemma_byte_len_take(self.remaining@, chars);
        }
        let (_, rest) = split_after_chars(self.remaining, Ghost(chars), num_bytes);
        self.remaining = rest;
        self.index = self.index + num_bytes;
    }

    /// Moves past the whitespace at the front of what is left.
    fn skip(&mut self)
        requires
            old(self).wf(),
        ensures
            final(self).wf(),
            final(self).remaining@ == old(self).remaining@.skip(white_run(old(self).remaining@) as int),
            final(self).index == old(self).index + byte_len(
                old(self).remaining@.take(white_run(old(self).remaining@) as int),
            ),
            final(self).index + byte_len(final(self).remaining@) == old(self).index + byte_len(
                old(self).remaining@,
            ),
    {
        proof {
            lemma_runs_bounded(self.remaining@);
        }
        let n = skip_whitespaces(self.remaining);
        self.chomp(n, Ghost(white_run(self.remaining@) as int));
    }

    /// Scans the token at the front of what is left and moves past it.
    fn next_kind(&mut self) -> (r: Result<TokenKind, TokenizeError>)
        requires
            old(self).wf(),
            token_parses(old(self).remaining@),
        ensures
            final(self).wf(),
            match scan_token(old(self).remaining@) {
                Ok((kind, n)) => r matches Ok(k) && k@ == kind
                    && final(self).remaining@ == old(self).remaining@.skip(n as int)
                    && final(self).index == old(self).index + byte_len(old(self).remaining@.take(n as int)),
                Err(f) => r matches Err(e) && reports(e, f),
            },
            r is Err ==> final(self).index == old(self).index && final(self).remaining@ == old(
                self,
            ).remaining@,
            final(self).index + byte_len(final(self).remaining@) == old(self).index + byte_len(
                old(self).remaining@,
            ),
    {
        proof {
            lemma_scan_token_len(self.remaining@);
        }
        let (tok, bytes_read) = match tokenize_single_token(self.remaining) {
            Ok(found) => found,
            Err(e) => return Err(e),
        };
        let ghost n = scan_token(self.remaining@)->Ok_0.1 as int;
        self.chomp(bytes_read, Ghost(n));
        Ok(tok)
    }

    /// Skips whitespace, then scans one token and moves past it; `None`,
    /// with the cursor at the end of the input, where only whitespace was
    /// left. On failure the scan's error is returned.
    fn next_token(&mut self) -> (r: Result<Option<Token>, TokenizeError>)
        requires
            old(self).wf(),
            lex_parses(old(self).remaining@),
        ensures
            final(self).wf(),
            final(self).index >= old(self).index,
            final(self).index + byte_len(final(self).remaining@) == old(self).index + byte_len(
                old(self).remaining@,
            ),
            ({
                let rem = old(self).remaining@;
                let w = white_run(rem) as int;
                let rest = rem.skip(w);
                let start = (old(self).index + byte_len(rem.take(w))) as nat;
                if rest.len() == 0 {
                    &&& r matches Ok(None)
                    &&& final(self).remaining@.len() == 0
                    &&& final(self).index == start
                } else {
                    match scan_token(rest) {
                        Ok((kind, n)) => r matches Ok(Some(t)) && t@ == TokenSpec {
                            kind,
                            start,
                            end: (start + byte_len(rest.take(n as int))) as nat,
                        } && final(self).remaining@ == rest.skip(n as int) && final(self).index
                            == t.span.end && t.span.start < t.span.end,
                        Err(f) => r matches Err(e) && reports(e, f),
                    }
                }
            }),
            r is Ok ==> lex_parses(final(self).remaining@),
            match r {
                Ok(None) => lex_from(old(self).remaining@, old(self).index as nat) matches Ok(ts)
                    && ts.len() == 0,
                Ok(Some(t)) => {
                    &&& final(self).remaining@.len() < old(self).remaining@.len()
                    &&& lex_from(old(self).remaining@, old(self).index as nat) == prepend(
                        seq![t@],
                        lex_from(final(self).remaining@, final(self).index as nat),
                    )
                },
                Err(e) => lex_from(old(self).remaining@, old(self).index as nat) matches Err(f)
                    && reports(e, f),
            },
    {
        proof {
            lemma_runs_bounded(self.remaining@);
            lemma_scan_token_len(self.remaining@.skip(white_run(self.remaining@) as int));
        }
        self.skip();
        if self.remaining.is_empty() {
            Ok(None)
        } else {
            let start = self.index;
            let kind = match self.next_kind() {
                Ok(kind) => kind,
                Err(e) => return Err(e),
            };
            let end = self.index;
            let t = Token { span: Span { start, end }, kind };
            proof {
                let rest = old(self).remaining@.skip(white_run(old(self).remaining@) as int);
                let n = scan_token(rest)->Ok_0.1;
                lemma_byte_len_nonempty(rest.take(n as int));
                let ts = lex_from(self.remaining@, self.index as nat);
                match ts {
                    Ok(us) => {
                        assert(seq![t@] + us =~= seq![
                            TokenSpec { kind: t@.kind, start: t@.start, end: t@.end },
                        ] + us);
                    },
                    Err(_) => {},
                }
            }
            Ok(Some(t))
        }
    }
}

/// Splits `src` into tokens, left to right, skipping the whitespace between
/// them. Spans are byte offsets into `src`. The first failed scan fails the
/// whole call, with no tokens returned. Every integer literal reached must
/// fit in `usize`; `literals_fit` tells whether it does.
pub fn tokenize(src: &str) -> (r: Result<Vec<Token>, TokenizeError>)
    requires
        lex_parses(src@),
    ensures
        match lex(src@) {
            Ok(ts) => r matches Ok(v) && tokens_view(v@) == ts,
            Err(f) => r matches Err(e) && reports(e, f),
        },
{
    let mut tokenizer = Tokenizer::new(src);
    let mut tokens: Vec<Token> = Vec::new();
    assert(tokens_view(tokens@) =~= Seq::<TokenSpec>::empty());
    assert(prepend(Seq::<TokenSpec>::empty(), lex(src@)) =~= lex(src@));
    loop
        invariant
            tokenizer.wf(),
            lex_parses(tokenizer.remaining@),
            lex(src@) == prepend(
                tokens_view(tokens@),
                lex_from(tokenizer.remaining@, tokenizer.index as nat),
            ),
        decreases tokenizer.remaining@.len(),
    {
        let ghost before = tokens_view(tokens@);
        match tokenizer.next_token() {
            Ok(Some(token)) => {
                tokens.push(token);
                proof {
                    assert(tokens_view(tokens@) =~= before + seq![token@]);
                    match lex_from(tokenizer.remaining@, tokenizer.index as nat) {
                        Ok(us) => {
                            assert(before + (seq![token@] + us) =~= (before + seq![token@]) + us);
                        },
                        Err(_) => {},
                    }
                }
            },
            Ok(None) => {
                assert(before + Seq::<TokenSpec>::empty() =~= before);
                return Ok(tokens);
            },
            Err(e) => {
                return Err(e);
            },
        }
    }
}

/// Reads a run of ASCII digits as a decimal number; `None` where its value
/// does not fit in `usize`.
fn read_decimal(digits: &str) -> (r: Option<usize>)
    requires
        forall|i: int| 0 <= i < digits@.len() ==> is_digit(digits@[i]),
    ensures
        r == (if decimal_value(digits@) <= usize::MAX {
            Some(decimal_value(digits@) as usize)
        } else {
            None::<usize>
        }),
{
    broadcast use vstd::string::group_string_axioms;
    let mut chars = digits.chars();
    let mut value: usize = 0;
    let ghost mut k: int = 0;
    assert(digits@.take(0) =~= Seq::<char>::empty());
    loop
        invariant_except_break
            chars.remaining() == digits@.skip(k),
        invariant
            0 <= k <= digits@.len(),
            value == decimal_value(digits@.take(k)),
            forall|i: int| 0 <= i < digits@.len() ==> is_digit(digits@[i]),
        ensures
            k == digits@.len(),
        decreases digits@.len() - k,
    {
        match chars.next() {
            None => {
                break;
            },
            Some(c) => {
                assert(c == digits@[k]);
                proof {
                    assert(digits@.take(k + 1).drop_last() =~= digits@.take(k));
                    lemma_decimal_prefix(digits@, k + 1);
                    assert(digits@.skip(k).drop_first() =~= digits@.skip(k + 1));
                }
                let d = (c as u32 - '0' as u32) as usize;
                match value.checked_mul(10) {
                    Some(tens) => match tens.checked_add(d) {
                        Some(next) => {
                            value = next;
                        },
                        None => {
                            return None;
                        },
                    },
                    None => {
                        return None;
                    },
                }
                proof {
                    k = k + 1;
                }
            },
        }
    }
    assert(digits@.take(k) =~= digits@);
    Some(value)
}

/// Whether the token at the start of `data`, if it is a numeric literal, can
/// be read as a number (see `token_parses`).
pub fn token_fits(data: &str) -> (r: bool)
    ensures
        r == token_parses(data@),
{
    match first_char(data) {
        Some(c) => {
            if !('0' <= c && c <= '9') {
                return true;
            }
        },
        None => {
            return true;
        },
    }
    let ghost s = data@;
    proof {
        lemma_runs_bounded(s);
    }
    let a = digit_run_bytes(data);
    let ghost ac = digit_run(s) as int;
    let (digits, rest) = split_after_chars(data, Ghost(ac), a);
    if first_char(rest) == Some('.') {
        proof {
            assert(s[ac] == rest@[0]);
        }
        true
    } else {
        proof {
            assert forall|i: int| 0 <= i < digits@.len() implies is_digit(digits@[i]) by {
                assert(digits@[i] == s[i]);
            }
        }
        read_decimal(digits).is_some()
    }
}

/// Whether every integer literal that `tokenize` would reach in `src` fits
/// in `usize`: the condition under which `tokenize` may be called.
pub fn literals_fit(src: &str) -> (r: bool)
    ensures
        r == lex_parses(src@),
{
    let mut tokenizer = Tokenizer::new(src);
    loop
        invariant
            tokenizer.wf(),
            lex_parses(src@) == lex_parses(tokenizer.remaining@),
        decreases tokenizer.remaining@.len(),
    {
        proof {
            lemma_runs_bounded(tokenizer.remaining@);
            lemma_scan_token_len(tokenizer.remaining@.skip(white_run(tokenizer.remaining@) as int));
        }
        tokenizer.skip();
        if tokenizer.remaining.is_empty() {
            return true;
        }
        if !token_fits(tokenizer.remaining) {
            return false;
        }
        match tokenizer.next_kind() {
            Ok(_) => {},
            Err(_) => {
                return true;
            },
        }
    }
}

/// The character of a decimal digit `d < 10`.
pub open spec fn digit_char(d: nat) -> char {
    (48 + d) as u8 as char
}

/// The decimal numeral of `n`, without leading zeros.
pub open spec fn decimal_text(n: nat) -> Seq<char>
    decreases n,
{
    if n < 10 {
        seq![digit_char(n)]
    } else {
        decimal_text(n / 10).push(digit_char(n % 10))
    }
}

/// How a token kind is shown: `[Plus: +]`, `[Integer: 12]`, `[Float: 1.5]`.
pub open spec fn kind_text(k: KindSpec) -> Seq<char> {
    match k {
        KindSpec::Plus => "[Plus: +]"@,
        KindSpec::Minus => "[Minus: -]"@,
        KindSpec::Multiply => "[Multiply: *]"@,
        KindSpec::Divide => "[Divide: /]"@,
        KindSpec::Open => "[Open: (]"@,
        KindSpec::Close => "[Close: )]"@,
        KindSpec::Integer(n) => "[Integer: "@ + decimal_text(n) + "]"@,
        KindSpec::Float(t) => "[Float: "@ + t + "]"@,
    }
}

/// Appends the decimal numeral of `n` to `out`.
fn push_decimal(out: &mut String, n: usize)
    ensures
        final(out)@ == old(out)@ + decimal_text(n as nat),
    decreases n,
{
    if n >= 10 {
        push_decimal(out, n / 10);
    }
    let d = (48 + n % 10) as u8 as char;
    let digit = char_to_string(d);
    out.append(digit.as_str());
    proof {
        if n >= 10 {
            assert(old(out)@ + decimal_text(n as nat / 10) + seq![d] =~= old(out)@ + decimal_text(n as nat));
        } else {
            assert(old(out)@ + seq![d] =~= old(out)@ + decimal_text(n as nat));
        }
    }
}

impl Token {
    /// Shows the token's kind, as in `[Integer: 12]`; a decimal literal is
    /// shown as written.
    pub fn describe(&self) -> (r: String)
        ensures
            r@ == kind_text(self.kind@),
    {
        match &self.kind {
            TokenKind::Plus => "[Plus: +]".to_owned(),
            TokenKind::Minus => "[Minus: -]".to_owned(),
            TokenKind::Multiply => "[Multiply: *]".to_owned(),
            TokenKind::Divide => "[Divide: /]".to_owned(),
            TokenKind::Open => "[Open: (]".to_owned(),
            TokenKind::Close => "[Close: )]".to_owned(),
            TokenKind::Integer(value) => {
                let mut out = "[Integer: ".to_owned();
                push_decimal(&mut out, *value);
                out.append("]");
                out
            },
            TokenKind::Float(text) => {
                let mut out = "[Float: ".to_owned();
                out.append(text.as_str());
                out.append("]");
                out
            },
        }
    }
}

} // verus!
