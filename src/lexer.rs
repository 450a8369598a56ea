use crate::number::{from_int_spec, make, Decimal};
use vstd::prelude::*;
use std::io::Read;
use vstd::string::*;

verus! {

broadcast use {vstd::seq_lib::group_seq_properties, vstd::std_specs::vec::group_vec_axioms};

/// Which grammar the lexer reads: whole documents, or the operator
/// language of content streams (where bare words are operators).
#[derive(Clone, Copy, Debug, PartialEq, Eq, Structural)]
pub enum LexMode {
    Document,
    Content,
}

#[derive(Debug, PartialEq)]
pub enum Token {
    /// A `( ... )` literal string, escapes `\(` and `\)` resolved.
    StringLiteral(Vec<u8>),
    /// A `< ... >` hex string, decoded to bytes.
    BytesLiteral(Vec<u8>),
    Key(String),
    Operator(String),
    DictStart,
    DictEnd,
    ListStart,
    ListEnd,
    StreamStart,
    StreamEnd,
    ObjectStart((usize, usize)),
    ObjectEnd,
    Ref((usize, usize)),
    Number(Decimal),
    XRef,
    Null,
    Bool(bool),
    /// A 128-bit identifier: a hex string of exactly 32 digits in a document.
    Id(u128),
}

/// What a token is, with its payload as sequences.
pub enum TokenModel {
    StringLiteral(Seq<u8>),
    BytesLiteral(Seq<u8>),
    Key(Seq<char>),
    Operator(Seq<char>),
    DictStart,
    DictEnd,
    ListStart,
    ListEnd,
    StreamStart,
    StreamEnd,
    ObjectStart((usize, usize)),
    ObjectEnd,
    Ref((usize, usize)),
    Number(Decimal),
    XRef,
    Null,
    Bool(bool),
    Id(u128),
}

impl View for Token {
    type V = TokenModel;

    open spec fn view(&self) -> TokenModel {
        match self {
            Token::StringLiteral(b) => TokenModel::StringLiteral(b@),
            Token::BytesLiteral(b) => TokenModel::BytesLiteral(b@),
            Token::Key(s) => TokenModel::Key(s@),
            Token::Operator(s) => TokenModel::Operator(s@),
            Token::DictStart => TokenModel::DictStart,
            Token::DictEnd => TokenModel::DictEnd,
            Token::ListStart => TokenModel::ListStart,
            Token::ListEnd => TokenModel::ListEnd,
            Token::StreamStart => TokenModel::StreamStart,
            Token::StreamEnd => TokenModel::StreamEnd,
            Token::ObjectStart(id) => TokenModel::ObjectStart(*id),
            Token::ObjectEnd => TokenModel::ObjectEnd,
            Token::Ref(id) => TokenModel::Ref(*id),
            Token::Number(n) => TokenModel::Number(*n),
            Token::XRef => TokenModel::XRef,
            Token::Null => TokenModel::Null,
            Token::Bool(b) => TokenModel::Bool(*b),
            Token::Id(x) => TokenModel::Id(*x),
        }
    }
}

#[derive(Clone, Copy, Debug, PartialEq, Eq, Structural)]
pub enum LexErrorKind {
    /// A byte above 127 outside a string or a comment.
    NonAscii,
    /// Bytes that no rule of the grammar accepts.
    Unrecognized,
    /// A number whose digits do not fit the number types.
    NumberOutOfRange,
}

/// Why lexing stopped, and at which byte offset.
#[derive(Clone, Copy, Debug, PartialEq, Eq, Structural)]
pub struct LexError {
    pub kind: LexErrorKind,
    pub offset: usize,
}

// ---------------------------------------------------------------------
// Byte classes

pub open spec fn is_ws(b: u8) -> bool {
    b == 9 || b == 10 || b == 11 || b == 12 || b == 13 || b == 32
}

pub open spec fn is_delim(b: u8) -> bool {
    b == 40 || b == 41 || b == 60 || b == 62 || b == 91 || b == 93 || b == 123 || b == 125
        || b == 47 || b == 37
}

pub open spec fn is_digit(b: u8) -> bool {
    48 <= b <= 57
}

pub open spec fn is_alpha(b: u8) -> bool {
    (65 <= b <= 90) || (97 <= b <= 122)
}

pub open spec fn is_hex(b: u8) -> bool {
    is_digit(b) || (65 <= b <= 70) || (97 <= b <= 102)
}

pub open spec fn hex_val(b: u8) -> int {
    if is_digit(b) {
        b - 48
    } else if 65 <= b <= 70 {
        b - 55
    } else if 97 <= b <= 102 {
        b - 87
    } else {
        0
    }
}

pub open spec fn digit_val(b: u8) -> int {
    if is_digit(b) {
        b - 48
    } else {
        0
    }
}

/// The byte classes that the lexer reads as runs.
#[derive(Clone, Copy, Debug, PartialEq, Eq, Structural)]
pub enum RunKind {
    Digit,
    NumberChar,
    Alpha,
    Name,
    Hex,
    NotNewline,
    AsciiLine,
}

pub open spec fn in_run(k: RunKind, b: u8) -> bool {
    match k {
        RunKind::Digit => is_digit(b),
        RunKind::NumberChar => is_digit(b) || b == 45 || b == 46,
        RunKind::Alpha => is_alpha(b),
        RunKind::Name => b < 128 && !is_ws(b) && !is_delim(b),
        RunKind::Hex => is_hex(b),
        RunKind::NotNewline => b != 10,
        RunKind::AsciiLine => b < 128 && b != 10,
    }
}

/// The end of the run of bytes of class `k` that starts at `i`.
pub open spec fn run_end(s: Seq<u8>, i: nat, k: RunKind) -> nat
    decreases s.len() - i,
{
    if i < s.len() && in_run(k, s[i as int]) {
        run_end(s, i + 1, k)
    } else {
        i
    }
}

/// The bytes `s[a..b]` spell the word `w`.
pub open spec fn word_is(s: Seq<u8>, a: int, b: int, w: Seq<char>) -> bool {
    &&& 0 <= a <= b <= s.len()
    &&& b - a == w.len()
    &&& forall|j: int| 0 <= j < w.len() ==> (s[a + j] as char) == w[j]
}

pub open spec fn chars_of(b: Seq<u8>) -> Seq<char> {
    b.map_values(|x: u8| x as char)
}

/// The value of a run of decimal digits.
pub open spec fn digits_value(s: Seq<u8>) -> int
    decreases s.len(),
{
    if s.len() == 0 {
        0
    } else {
        digits_value(s.drop_last()) * 10 + digit_val(s.last())
    }
}

/// The value of a run of hex digits.
pub open spec fn hex_value(s: Seq<u8>) -> int
    decreases s.len(),
{
    if s.len() == 0 {
        0
    } else {
        hex_value(s.drop_last()) * 16 + hex_val(s.last())
    }
}

/// The bytes spelled by a run of hex digits, two digits to a byte.
pub open spec fn hex_bytes(s: Seq<u8>) -> Seq<u8>
    decreases s.len(),
{
    if s.len() < 2 {
        Seq::empty()
    } else {
        hex_bytes(s.subrange(0, s.len() - 2)).push(
            (hex_val(s[s.len() - 2]) * 16 + hex_val(s[s.len() - 1])) as u8,
        )
    }
}

/// The body of a literal string that starts at `i` (after its `(`): its
/// bytes, and the offset after the closing `)`; `None` if it never closes.
pub open spec fn string_scan(s: Seq<u8>, i: nat) -> Option<(Seq<u8>, nat)>
    decreases s.len() - i,
{
    if i >= s.len() {
        None
    } else if s[i as int] == 41 {
        Some((Seq::empty(), i + 1))
    } else if s[i as int] == 92 && i + 1 < s.len() && (s[i + 1 as int] == 40 || s[i + 1 as int] == 41) {
        match string_scan(s, i + 2) {
            Some((c, e)) => Some((seq![s[i + 1 as int]] + c, e)),
            None => None,
        }
    } else {
        match string_scan(s, i + 1) {
            Some((c, e)) => Some((seq![s[i as int]] + c, e)),
            None => None,
        }
    }
}

// ---------------------------------------------------------------------
// One lexeme

/// What one step of scanning finds at an offset.
pub enum Lexeme {
    /// Whitespace or a comment.
    Skip,
    /// A bare non-negative integer: it may start an `obj` or `R` header.
    Int(usize),
    /// A finished token.
    Tok(TokenModel),
    /// The keyword `obj` (`true`) or `R` (`false`).
    Header(bool),
    Fail(LexErrorKind),
}

pub open spec fn scan_number(s: Seq<u8>, p: nat) -> (Lexeme, nat) {
    let e = run_end(s, p, RunKind::NumberChar);
    let neg = s[p as int] == 45;
    let q: nat = if neg { p + 1 } else { p };
    let a_end = run_end(s, q, RunKind::Digit);
    let point = a_end < e && s[a_end as int] == 46;
    let b_start: nat = if point { a_end + 1 } else { a_end };
    let b_end = run_end(s, b_start, RunKind::Digit);
    let v = digits_value(s.subrange(q as int, a_end as int) + s.subrange(b_start as int, b_end as int));
    if b_end != e || (a_end == q && b_end == b_start) {
        (Lexeme::Fail(LexErrorKind::Unrecognized), p)
    } else if !neg && !point {
        if v <= usize::MAX {
            (Lexeme::Int(v as usize), e)
        } else {
            (Lexeme::Fail(LexErrorKind::NumberOutOfRange), p)
        }
    } else if v <= i128::MAX && b_end - b_start <= u32::MAX {
        (Lexeme::Tok(TokenModel::Number(make(if neg { -v } else { v }, (b_end - b_start) as nat))), e)
    } else {
        (Lexeme::Fail(LexErrorKind::NumberOutOfRange), p)
    }
}

pub open spec fn scan_word(s: Seq<u8>, p: nat, mode: LexMode) -> (Lexeme, nat) {
    let e = run_end(s, p, RunKind::Alpha);
    let nl = e < s.len() && s[e as int] == 10;
    if word_is(s, p as int, e as int, "obj"@) && nl {
        (Lexeme::Header(true), e + 1)
    } else if word_is(s, p as int, e as int, "R"@) {
        (Lexeme::Header(false), e)
    } else if word_is(s, p as int, e as int, "endobj"@) && nl {
        (Lexeme::Tok(TokenModel::ObjectEnd), e + 1)
    } else if word_is(s, p as int, e as int, "endstream"@) && nl {
        (Lexeme::Tok(TokenModel::StreamEnd), e + 1)
    } else if word_is(s, p as int, e as int, "xref"@) && nl {
        (Lexeme::Tok(TokenModel::XRef), e + 1)
    } else if word_is(s, p as int, e as int, "null"@) {
        (Lexeme::Tok(TokenModel::Null), e)
    } else if word_is(s, p as int, e as int, "true"@) {
        (Lexeme::Tok(TokenModel::Bool(true)), e)
    } else if word_is(s, p as int, e as int, "false"@) {
        (Lexeme::Tok(TokenModel::Bool(false)), e)
    } else if mode == LexMode::Content {
        (Lexeme::Tok(TokenModel::Operator(chars_of(s.subrange(p as int, e as int)))), e)
    } else {
        (Lexeme::Fail(LexErrorKind::Unrecognized), p)
    }
}

/// A hex string `< ... >`: pairs of hex digits, each pair one byte. An odd
/// count of digits, or any other byte before the `>`, is rejected (lexing
/// stops with an error). In a document, a string of exactly 32 digits is an
/// identifier.
pub open spec fn scan_hex(s: Seq<u8>, p: nat, mode: LexMode) -> (Lexeme, nat) {
    let e = run_end(s, p + 1, RunKind::Hex);
    let digits = s.subrange(p + 1 as int, e as int);
    if e < s.len() && s[e as int] == 62 && (e - p - 1) % 2 == 0 {
        if mode == LexMode::Document && e - p - 1 == 32 {
            if hex_value(digits) <= u128::MAX {
                (Lexeme::Tok(TokenModel::Id(hex_value(digits) as u128)), e + 1)
            } else {
                (Lexeme::Fail(LexErrorKind::NumberOutOfRange), p)
            }
        } else {
            (Lexeme::Tok(TokenModel::BytesLiteral(hex_bytes(digits))), e + 1)
        }
    } else {
        (Lexeme::Fail(LexErrorKind::Unrecognized), p)
    }
}

/// The `\nstream\n` marker that opens a stream's raw bytes.
pub open spec fn stream_marker_end(s: Seq<u8>, p: nat) -> Option<nat> {
    let e = run_end(s, p + 1, RunKind::Alpha);
    if word_is(s, p + 1 as int, e as int, "stream"@) && e < s.len() && s[e as int] == 10 {
        Some(e + 1)
    } else {
        None
    }
}

/// The lexeme at offset `p` (`p < s.len()`), and the offset after it.
pub open spec fn scan(s: Seq<u8>, p: nat, mode: LexMode) -> (Lexeme, nat) {
    let b = s[p as int];
    if b >= 128 {
        (Lexeme::Fail(LexErrorKind::NonAscii), p)
    } else if b == 37 {
        let e = run_end(s, p + 1, RunKind::NotNewline);
        (Lexeme::Skip, if e < s.len() { e + 1 } else { e })
    } else if b == 40 {
        match string_scan(s, p + 1) {
            Some((c, e)) => (Lexeme::Tok(TokenModel::StringLiteral(c)), e),
            None => (Lexeme::Fail(LexErrorKind::Unrecognized), p),
        }
    } else if b == 47 {
        let e = run_end(s, p + 1, RunKind::Name);
        (Lexeme::Tok(TokenModel::Key(chars_of(s.subrange(p + 1 as int, e as int)))), e)
    } else if b == 60 {
        if p + 1 < s.len() && s[p + 1 as int] == 60 {
            (Lexeme::Tok(TokenModel::DictStart), p + 2)
        } else {
            scan_hex(s, p, mode)
        }
    } else if b == 62 {
        if p + 1 < s.len() && s[p + 1 as int] == 62 {
            (Lexeme::Tok(TokenModel::DictEnd), p + 2)
        } else {
            (Lexeme::Fail(LexErrorKind::Unrecognized), p)
        }
    } else if b == 91 {
        (Lexeme::Tok(TokenModel::ListStart), p + 1)
    } else if b == 93 {
        (Lexeme::Tok(TokenModel::ListEnd), p + 1)
    } else if b == 10 && stream_marker_end(s, p) is Some {
        (Lexeme::Tok(TokenModel::StreamStart), stream_marker_end(s, p).unwrap())
    } else if is_ws(b) {
        (Lexeme::Skip, p + 1)
    } else if is_digit(b) || b == 45 || b == 46 {
        scan_number(s, p)
    } else if is_alpha(b) {
        scan_word(s, p, mode)
    } else {
        (Lexeme::Fail(LexErrorKind::Unrecognized), p)
    }
}


// ---------------------------------------------------------------------
// Lemmas on the byte-level functions

pub proof fn lemma_run_end_bounds(s: Seq<u8>, i: nat, k: RunKind)
    ensures
        i <= run_end(s, i, k),
        i <= s.len() ==> run_end(s, i, k) <= s.len(),
        forall|j: int| i <= j < run_end(s, i, k) ==> in_run(k, #[trigger] s[j]),
        run_end(s, i, k) < s.len() ==> !in_run(k, s[run_end(s, i, k) as int]),
    decreases s.len() - i,
{
    if i < s.len() && in_run(k, s[i as int]) {
        lemma_run_end_bounds(s, i + 1, k);
    }
}

proof fn lemma_digits_value_push(x: Seq<u8>, d: u8)
    ensures
        digits_value(x.push(d)) == digits_value(x) * 10 + digit_val(d),
{
    assert(x.push(d).drop_last() =~= x);
}

pub proof fn lemma_digits_value_nonneg(x: Seq<u8>)
    ensures
        digits_value(x) >= 0,
    decreases x.len(),
{
    if x.len() > 0 {
        lemma_digits_value_nonneg(x.drop_last());
    }
}

proof fn lemma_digits_value_prefix(x: Seq<u8>, y: Seq<u8>)
    ensures
        digits_value(x) <= digits_value(x + y),
    decreases y.len(),
{
    if y.len() > 0 {
        assert((x + y).drop_last() =~= x + y.drop_last());
        lemma_digits_value_prefix(x, y.drop_last());
        lemma_digits_value_nonneg(x + y.drop_last());
    }
}

// ---------------------------------------------------------------------
// Byte-level helpers

fn in_run_exec(k: RunKind, b: u8) -> (r: bool)
    ensures
        r == in_run(k, b),
{
    match k {
        RunKind::Digit => 48 <= b && b <= 57,
        RunKind::NumberChar => (48 <= b && b <= 57) || b == 45 || b == 46,
        RunKind::Alpha => (65 <= b && b <= 90) || (97 <= b && b <= 122),
        RunKind::Name => b < 128 && !(b == 9 || b == 10 || b == 11 || b == 12 || b == 13 || b
            == 32) && !(b == 40 || b == 41 || b == 60 || b == 62 || b == 91 || b == 93 || b == 123
            || b == 125 || b == 47 || b == 37),
        RunKind::Hex => (48 <= b && b <= 57) || (65 <= b && b <= 70) || (97 <= b && b <= 102),
        RunKind::NotNewline => b != 10,
        RunKind::AsciiLine => b < 128 && b != 10,
    }
}

pub(crate) fn run_end_exec(s: &Vec<u8>, i: usize, k: RunKind) -> (r: usize)
    requires
        i <= s@.len(),
    ensures
        r == run_end(s@, i as nat, k),
        i <= r <= s@.len(),
{
    proof {
        lemma_run_end_bounds(s@, i as nat, k);
    }
    let mut j = i;
    while j < s.len() && in_run_exec(k, s[j])
        invariant
            i <= j <= s@.len(),
            run_end(s@, j as nat, k) == run_end(s@, i as nat, k),
        decreases s@.len() - j,
    {
        j = j + 1;
    }
    j
}

pub(crate) fn word_is_exec(s: &Vec<u8>, a: usize, b: usize, w: &str) -> (r: bool)
    requires
        a <= b <= s@.len(),
    ensures
        r == word_is(s@, a as int, b as int, w@),
{
    let n = w.unicode_len();
    if b - a != n {
        return false;
    }
    let mut j: usize = 0;
    while j < n
        invariant
            a <= b <= s@.len(),
            b - a == n,
            n == w@.len(),
            j <= n,
            forall|t: int| 0 <= t < j ==> (s@[a + t] as char) == w@[t],
        decreases n - j,
    {
        if s[a + j] as char != w.get_char(j) {
            return false;
        }
        j = j + 1;
    }
    true
}

/// Relies on `String::push`: the char is appended at the end.
#[verifier::external_body]
pub(crate) fn push_char(s: &mut String, c: char)
    ensures
        final(s)@ == old(s)@.push(c),
{
    s.push(c)
}

/// The bytes read as chars, one char each.
pub fn text_of_bytes(s: &Vec<u8>) -> (r: String)
    ensures
        r@ == chars_of(s@),
{
    let r = string_of_bytes(s, 0, s.len());
    assert(s@.subrange(0, s@.len() as int) =~= s@);
    r
}

fn string_of_bytes(s: &Vec<u8>, a: usize, b: usize) -> (r: String)
    requires
        a <= b <= s@.len(),
    ensures
        r@ == chars_of(s@.subrange(a as int, b as int)),
{
    let mut out = String::new();
    let mut j = a;
    while j < b
        invariant
            a <= j <= b <= s@.len(),
            out@ == chars_of(s@.subrange(a as int, j as int)),
        decreases b - j,
    {
        push_char(&mut out, s[j] as char);
        assert(chars_of(s@.subrange(a as int, j + 1)) =~= chars_of(s@.subrange(a as int, j as int)).push(s@[j as int] as char));
        j = j + 1;
    }
    out
}

/// The value of the digits `s[a..b] ++ s[c..d]`, when it fits an `i128`.
pub(crate) fn digits_value_exec(s: &Vec<u8>, a: usize, b: usize, c: usize, d: usize) -> (r: Option<i128>)
    requires
        a <= b <= s@.len(),
        c <= d <= s@.len(),
    ensures
        ({
            let v = digits_value(s@.subrange(a as int, b as int) + s@.subrange(c as int, d as int));
            &&& r matches Some(x) ==> x == v
            &&& r is None <==> v > i128::MAX
        }),
{
    let ghost whole = s@.subrange(a as int, b as int) + s@.subrange(c as int, d as int);
    let mut v: i128 = 0;
    let mut j = a;
    while j < b
        invariant
            a <= j <= b <= s@.len(),
            c <= d <= s@.len(),
            whole == s@.subrange(a as int, b as int) + s@.subrange(c as int, d as int),
            v == digits_value(s@.subrange(a as int, j as int)),
            v >= 0,
        decreases b - j,
    {
        let ghost pre = s@.subrange(a as int, j as int);
        assert(s@.subrange(a as int, j + 1) =~= pre.push(s@[j as int]));
        proof {
            lemma_digits_value_push(pre, s@[j as int]);
            assert(whole =~= s@.subrange(a as int, j + 1) + (s@.subrange(j + 1, b as int) + s@.subrange(c as int, d as int)));
            lemma_digits_value_prefix(s@.subrange(a as int, j + 1), s@.subrange(j + 1, b as int) + s@.subrange(c as int, d as int));
        }
        let dg: i128 = if 48 <= s[j] && s[j] <= 57 { (s[j] - 48) as i128 } else { 0 };
        match v.checked_mul(10) {
            Some(t) => match t.checked_add(dg) {
                Some(u) => {
                    v = u;
                },
                None => {
                    return None;
                },
            },
            None => {
                return None;
            },
        }
        j = j + 1;
    }
    let ghost first = s@.subrange(a as int, b as int);
    let mut j = c;
    while j < d
        invariant
            a <= b <= s@.len(),
            c <= j <= d <= s@.len(),
            first == s@.subrange(a as int, b as int),
            whole == first + s@.subrange(c as int, d as int),
            v == digits_value(first + s@.subrange(c as int, j as int)),
            v >= 0,
        decreases d - j,
    {
        let ghost pre = first + s@.subrange(c as int, j as int);
        assert(first + s@.subrange(c as int, j + 1) =~= pre.push(s@[j as int]));
        proof {
            lemma_digits_value_push(pre, s@[j as int]);
            assert(whole =~= (first + s@.subrange(c as int, j + 1)) + s@.subrange(j + 1, d as int));
            lemma_digits_value_prefix(first + s@.subrange(c as int, j + 1), s@.subrange(j + 1, d as int));
        }
        let dg: i128 = if 48 <= s[j] && s[j] <= 57 { (s[j] - 48) as i128 } else { 0 };
        match v.checked_mul(10) {
            Some(t) => match t.checked_add(dg) {
                Some(u) => {
                    v = u;
                },
                None => {
                    return None;
                },
            },
            None => {
                return None;
            },
        }
        j = j + 1;
    }
    assert(first + s@.subrange(c as int, d as int) == whole);
    Some(v)
}


fn hex_val_exec(b: u8) -> (r: u8)
    ensures
        r == hex_val(b),
{
    if 48 <= b && b <= 57 {
        b - 48
    } else if 65 <= b && b <= 70 {
        b - 55
    } else if 97 <= b && b <= 102 {
        b - 87
    } else {
        0
    }
}

proof fn lemma_hex_value_push(x: Seq<u8>, d: u8)
    ensures
        hex_value(x.push(d)) == hex_value(x) * 16 + hex_val(d),
{
    assert(x.push(d).drop_last() =~= x);
}

proof fn lemma_hex_value_nonneg(x: Seq<u8>)
    ensures
        hex_value(x) >= 0,
    decreases x.len(),
{
    if x.len() > 0 {
        lemma_hex_value_nonneg(x.drop_last());
    }
}

proof fn lemma_hex_value_prefix(x: Seq<u8>, y: Seq<u8>)
    ensures
        hex_value(x) <= hex_value(x + y),
    decreases y.len(),
{
    if y.len() > 0 {
        assert((x + y).drop_last() =~= x + y.drop_last());
        lemma_hex_value_prefix(x, y.drop_last());
        lemma_hex_value_nonneg(x + y.drop_last());
    }
}

/// The value of the hex digits `s[a..b]`, when it fits a `u128`.
fn hex_u128(s: &Vec<u8>, a: usize, b: usize) -> (r: Option<u128>)
    requires
        a <= b <= s@.len(),
    ensures
        match r {
            Some(x) => x == hex_value(s@.subrange(a as int, b as int)),
            None => hex_value(s@.subrange(a as int, b as int)) > u128::MAX,
        },
{
    let ghost whole = s@.subrange(a as int, b as int);
    let mut v: u128 = 0;
    let mut j = a;
    while j < b
        invariant
            a <= j <= b <= s@.len(),
            whole == s@.subrange(a as int, b as int),
            v == hex_value(s@.subrange(a as int, j as int)),
        decreases b - j,
    {
        let ghost pre = s@.subrange(a as int, j as int);
        assert(s@.subrange(a as int, j + 1) =~= pre.push(s@[j as int]));
        proof {
            lemma_hex_value_push(pre, s@[j as int]);
            assert(whole =~= s@.subrange(a as int, j + 1) + s@.subrange(j + 1, b as int));
            lemma_hex_value_prefix(s@.subrange(a as int, j + 1), s@.subrange(j + 1, b as int));
        }
        let h = hex_val_exec(s[j]) as u128;
        match v.checked_mul(16) {
            Some(t) => match t.checked_add(h) {
                Some(u) => {
                    v = u;
                },
                None => {
                    return None;
                },
            },
            None => {
                return None;
            },
        }
        j = j + 1;
    }
    Some(v)
}

/// The bytes spelled by the hex digits `s[a..b]`, `b - a` even.
fn hex_bytes_exec(s: &Vec<u8>, a: usize, b: usize) -> (r: Vec<u8>)
    requires
        a <= b <= s@.len(),
        (b - a) % 2 == 0,
    ensures
        r@ == hex_bytes(s@.subrange(a as int, b as int)),
{
    let mut out: Vec<u8> = Vec::new();
    let mut j = a;
    assert(hex_bytes(s@.subrange(a as int, a as int)) =~= Seq::<u8>::empty());
    while j < b
        invariant
            a <= j <= b <= s@.len(),
            (b - a) % 2 == 0,
            (j - a) % 2 == 0,
            out@ == hex_bytes(s@.subrange(a as int, j as int)),
        decreases b - j,
    {
        let hi = hex_val_exec(s[j]);
        let lo = hex_val_exec(s[j + 1]);
        let byte: u8 = (hi as u16 * 16 + lo as u16) as u8;
        proof {
            let t = s@.subrange(a as int, j + 2);
            assert(t.subrange(0, t.len() - 2) =~= s@.subrange(a as int, j as int));
        }
        out.push(byte);
        j = j + 2;
    }
    out
}

/// The body of the literal string whose contents start at `i`.
fn string_scan_exec(s: &Vec<u8>, i: usize) -> (r: Option<(Vec<u8>, usize)>)
    requires
        i <= s@.len(),
    ensures
        match string_scan(s@, i as nat) {
            Some((c, e)) => r matches Some((v, f)) && v@ == c && f == e,
            None => r is None,
        },
{
    let mut out: Vec<u8> = Vec::new();
    let mut j = i;
    while j < s.len()
        invariant
            i <= j <= s@.len(),
            string_scan(s@, i as nat) == match string_scan(s@, j as nat) {
                Some((c, e)) => Some((out@ + c, e)),
                None => None,
            },
        decreases s@.len() - j,
    {
        let b = s[j];
        if b == 41 {
            assert(out@ + Seq::<u8>::empty() =~= out@);
            return Some((out, j + 1));
        }
        if b == 92 && j + 1 < s.len() && (s[j + 1] == 40 || s[j + 1] == 41) {
            let ghost before = out@;
            out.push(s[j + 1]);
            proof {
                match string_scan(s@, (j + 2) as nat) {
                    Some((c, e)) => {
                        assert(before + (seq![s@[j + 1]] + c) =~= out@ + c);
                    },
                    None => {},
                }
            }
            j = j + 2;
        } else {
            let ghost before = out@;
            out.push(b);
            proof {
                match string_scan(s@, (j + 1) as nat) {
                    Some((c, e)) => {
                        assert(before + (seq![s@[j as int]] + c) =~= out@ + c);
                    },
                    None => {},
                }
            }
            j = j + 1;
        }
    }
    None
}


// ---------------------------------------------------------------------
// Scanning one lexeme

enum Scanned {
    Skip,
    Int(usize),
    Tok(Token),
    Header(bool),
    Fail(LexErrorKind),
}

impl View for Scanned {
    type V = Lexeme;

    closed spec fn view(&self) -> Lexeme {
        match self {
            Scanned::Skip => Lexeme::Skip,
            Scanned::Int(n) => Lexeme::Int(*n),
            Scanned::Tok(t) => Lexeme::Tok(t@),
            Scanned::Header(o) => Lexeme::Header(*o),
            Scanned::Fail(k) => Lexeme::Fail(*k),
        }
    }
}

fn scan_number_exec(s: &Vec<u8>, p: usize) -> (r: (Scanned, usize))
    requires
        p < s@.len(),
    ensures
        (r.0@, r.1 as nat) == scan_number(s@, p as nat),
{
    let len = s.len();
    assert(p + 1 <= len);
    let e = run_end_exec(s, p, RunKind::NumberChar);
    let neg = s[p] == 45;
    let q = if neg { p + 1 } else { p };
    let a_end = run_end_exec(s, q, RunKind::Digit);
    let point = a_end < e && s[a_end] == 46;
    let b_start = if point { a_end + 1 } else { a_end };
    let b_end = run_end_exec(s, b_start, RunKind::Digit);
    if b_end != e || (a_end == q && b_end == b_start) {
        return (Scanned::Fail(LexErrorKind::Unrecognized), p);
    }
    let v = digits_value_exec(s, q, a_end, b_start, b_end);
    proof {
        lemma_digits_value_nonneg(
            s@.subrange(q as int, a_end as int) + s@.subrange(b_start as int, b_end as int),
        );
    }
    if !neg && !point {
        match v {
            Some(v) => {
                if v <= usize::MAX as i128 {
                    (Scanned::Int(v as usize), e)
                } else {
                    (Scanned::Fail(LexErrorKind::NumberOutOfRange), p)
                }
            },
            None => (Scanned::Fail(LexErrorKind::NumberOutOfRange), p),
        }
    } else {
        match v {
            Some(v) => {
                if b_end - b_start <= u32::MAX as usize {
                    let m = if neg { -v } else { v };
                    (Scanned::Tok(Token::Number(Decimal::new(m, (b_end - b_start) as u32))), e)
                } else {
                    (Scanned::Fail(LexErrorKind::NumberOutOfRange), p)
                }
            },
            None => (Scanned::Fail(LexErrorKind::NumberOutOfRange), p),
        }
    }
}

fn scan_word_exec(s: &Vec<u8>, p: usize, mode: LexMode) -> (r: (Scanned, usize))
    requires
        p < s@.len(),
    ensures
        (r.0@, r.1 as nat) == scan_word(s@, p as nat, mode),
{
    let e = run_end_exec(s, p, RunKind::Alpha);
    let nl = e < s.len() && s[e] == 10;
    if word_is_exec(s, p, e, "obj") && nl {
        (Scanned::Header(true), e + 1)
    } else if word_is_exec(s, p, e, "R") {
        (Scanned::Header(false), e)
    } else if word_is_exec(s, p, e, "endobj") && nl {
        (Scanned::Tok(Token::ObjectEnd), e + 1)
    } else if word_is_exec(s, p, e, "endstream") && nl {
        (Scanned::Tok(Token::StreamEnd), e + 1)
    } else if word_is_exec(s, p, e, "xref") && nl {
        (Scanned::Tok(Token::XRef), e + 1)
    } else if word_is_exec(s, p, e, "null") {
        (Scanned::Tok(Token::Null), e)
    } else if word_is_exec(s, p, e, "true") {
        (Scanned::Tok(Token::Bool(true)), e)
    } else if word_is_exec(s, p, e, "false") {
        (Scanned::Tok(Token::Bool(false)), e)
    } else if mode == LexMode::Content {
        (Scanned::Tok(Token::Operator(string_of_bytes(s, p, e))), e)
    } else {
        (Scanned::Fail(LexErrorKind::Unrecognized), p)
    }
}

fn scan_exec(s: &Vec<u8>, p: usize, mode: LexMode) -> (r: (Scanned, usize))
    requires
        p < s@.len(),
    ensures
        (r.0@, r.1 as nat) == scan(s@, p as nat, mode),
{
    let len = s.len();
    assert(p + 1 <= len);
    let b = s[p];
    if b >= 128 {
        (Scanned::Fail(LexErrorKind::NonAscii), p)
    } else if b == 37 {
        let e = run_end_exec(s, p + 1, RunKind::NotNewline);
        (Scanned::Skip, if e < s.len() { e + 1 } else { e })
    } else if b == 40 {
        match string_scan_exec(s, p + 1) {
            Some((c, e)) => (Scanned::Tok(Token::StringLiteral(c)), e),
            None => (Scanned::Fail(LexErrorKind::Unrecognized), p),
        }
    } else if b == 47 {
        let e = run_end_exec(s, p + 1, RunKind::Name);
        (Scanned::Tok(Token::Key(string_of_bytes(s, p + 1, e))), e)
    } else if b == 60 {
        if p + 1 < s.len() && s[p + 1] == 60 {
            (Scanned::Tok(Token::DictStart), p + 2)
        } else {
            let e = run_end_exec(s, p + 1, RunKind::Hex);
            if e < s.len() && s[e] == 62 && (e - p - 1) % 2 == 0 {
                if mode == LexMode::Document && e - p - 1 == 32 {
                    match hex_u128(s, p + 1, e) {
                        Some(x) => (Scanned::Tok(Token::Id(x)), e + 1),
                        None => (Scanned::Fail(LexErrorKind::NumberOutOfRange), p),
                    }
                } else {
                    (Scanned::Tok(Token::BytesLiteral(hex_bytes_exec(s, p + 1, e))), e + 1)
                }
            } else {
                (Scanned::Fail(LexErrorKind::Unrecognized), p)
            }
        }
    } else if b == 62 {
        if p + 1 < s.len() && s[p + 1] == 62 {
            (Scanned::Tok(Token::DictEnd), p + 2)
        } else {
            (Scanned::Fail(LexErrorKind::Unrecognized), p)
        }
    } else if b == 91 {
        (Scanned::Tok(Token::ListStart), p + 1)
    } else if b == 93 {
        (Scanned::Tok(Token::ListEnd), p + 1)
    } else if b == 10 && stream_marker_exec(s, p).is_some() {
        match stream_marker_exec(s, p) {
            Some(e) => (Scanned::Tok(Token::StreamStart), e),
            None => (Scanned::Skip, p + 1),
        }
    } else if b == 9 || b == 10 || b == 11 || b == 12 || b == 13 || b == 32 {
        (Scanned::Skip, p + 1)
    } else if (48 <= b && b <= 57) || b == 45 || b == 46 {
        scan_number_exec(s, p)
    } else if (65 <= b && b <= 90) || (97 <= b && b <= 122) {
        scan_word_exec(s, p, mode)
    } else {
        (Scanned::Fail(LexErrorKind::Unrecognized), p)
    }
}

fn stream_marker_exec(s: &Vec<u8>, p: usize) -> (r: Option<usize>)
    requires
        p < s@.len(),
    ensures
        r matches Some(e) ==> stream_marker_end(s@, p as nat) == Some(e as nat),
        r is None ==> stream_marker_end(s@, p as nat) is None,
{
    let len = s.len();
    assert(p + 1 <= len);
    let e = run_end_exec(s, p + 1, RunKind::Alpha);
    if word_is_exec(s, p + 1, e, "stream") && e < s.len() && s[e] == 10 {
        Some(e + 1)
    } else {
        None
    }
}


proof fn lemma_string_scan_end(s: Seq<u8>, i: nat)
    ensures
        string_scan(s, i) matches Some((c, e)) ==> i < e <= s.len(),
    decreases s.len() - i,
{
    if i < s.len() && s[i as int] != 41 {
        if s[i as int] == 92 && i + 1 < s.len() && (s[i + 1 as int] == 40 || s[i + 1 as int] == 41) {
            lemma_string_scan_end(s, i + 2);
        } else {
            lemma_string_scan_end(s, i + 1);
        }
    }
}

/// Every lexeme but a failure moves forward and stays inside the input.
pub proof fn lemma_scan_advances(s: Seq<u8>, p: nat, mode: LexMode)
    requires
        p < s.len(),
    ensures
        scan(s, p, mode).0 is Fail || (p < scan(s, p, mode).1 <= s.len()),
{
    lemma_run_end_bounds(s, p, RunKind::NumberChar);
    lemma_run_end_bounds(s, p, RunKind::Alpha);
    lemma_run_end_bounds(s, p + 1, RunKind::Alpha);
    lemma_run_end_bounds(s, p + 1, RunKind::NotNewline);
    lemma_run_end_bounds(s, p + 1, RunKind::Name);
    lemma_run_end_bounds(s, p + 1, RunKind::Hex);
    lemma_string_scan_end(s, p + 1);
}

// ---------------------------------------------------------------------
// The lexer's state machine

/// The lexer's state: the input, the offset reached, the integers held back
/// (they may start an `obj` or `R` header), the tokens ready to hand out,
/// and the error that stopped lexing, if any.
pub struct LexModel {
    pub store: Seq<u8>,
    pub pos: nat,
    pub mode: LexMode,
    pub pending: Seq<usize>,
    pub ready: Seq<TokenModel>,
    pub error: Option<LexError>,
}

pub open spec fn number_token(n: usize) -> TokenModel {
    TokenModel::Number(from_int_spec(n as int))
}

pub open spec fn numbers(p: Seq<usize>) -> Seq<TokenModel> {
    p.map_values(|n: usize| number_token(n))
}

/// Lexing stops: held-back integers are released as numbers, and the
/// error is kept.
pub open spec fn fail_model(m: LexModel, kind: LexErrorKind, offset: nat) -> LexModel {
    LexModel {
        pos: m.store.len(),
        pending: Seq::empty(),
        ready: m.ready + numbers(m.pending),
        error: Some(LexError { kind, offset: offset as usize }),
        ..m
    }
}

/// The state after the lexeme `lx`, which ends at `e` (for a failure, `e`
/// is where it was found).
pub open spec fn feed(m: LexModel, lx: Lexeme, e: nat) -> LexModel {
    match lx {
        Lexeme::Skip => LexModel { pos: e, ..m },
        Lexeme::Int(n) => if m.pending.len() >= 2 {
            LexModel {
                pos: e,
                ready: m.ready.push(number_token(m.pending[0])),
                pending: m.pending.drop_first().push(n),
                ..m
            }
        } else {
            LexModel { pos: e, pending: m.pending.push(n), ..m }
        },
        Lexeme::Tok(t) => LexModel {
            pos: e,
            ready: m.ready + numbers(m.pending) + seq![t],
            pending: Seq::empty(),
            ..m
        },
        Lexeme::Header(obj) => if m.pending.len() == 2 {
            let id = (m.pending[0], m.pending[1]);
            LexModel {
                pos: e,
                ready: m.ready.push(
                    if obj {
                        TokenModel::ObjectStart(id)
                    } else {
                        TokenModel::Ref(id)
                    },
                ),
                pending: Seq::empty(),
                ..m
            }
        } else {
            fail_model(m, LexErrorKind::Unrecognized, m.pos)
        },
        Lexeme::Fail(k) => fail_model(m, k, e),
    }
}

/// The next token, and the state after it: ready tokens first; at the end
/// of the input (or after an error) the held-back integers; else scan on.
pub open spec fn next_spec(m: LexModel) -> (Option<TokenModel>, LexModel)
    decreases m.store.len() - m.pos,
{
    if m.ready.len() > 0 {
        (Some(m.ready[0]), LexModel { ready: m.ready.drop_first(), ..m })
    } else if m.error is Some || m.pos >= m.store.len() {
        if m.pending.len() > 0 {
            (Some(number_token(m.pending[0])), LexModel { pending: m.pending.drop_first(), ..m })
        } else {
            (None, m)
        }
    } else {
        let (lx, e) = scan(m.store, m.pos, m.mode);
        let m2 = feed(m, lx, e);
        if m2.store == m.store && m.pos < m2.pos <= m.store.len() {
            next_spec(m2)
        } else {
            (None, m2)
        }
    }
}

pub open spec fn lex_wf(m: LexModel) -> bool {
    &&& m.pos <= m.store.len()
    &&& m.pending.len() <= 2
    &&& m.error is Some ==> m.pending.len() == 0 && m.pos == m.store.len()
}

proof fn lemma_feed_wf(m: LexModel, lx: Lexeme, e: nat)
    requires
        lex_wf(m),
        m.pos < m.store.len(),
        m.error is None,
        (lx, e) == scan(m.store, m.pos, m.mode),
    ensures
        lex_wf(feed(m, lx, e)),
        feed(m, lx, e).store == m.store,
        feed(m, lx, e).mode == m.mode,
        m.pos < feed(m, lx, e).pos <= m.store.len(),
{
    lemma_scan_advances(m.store, m.pos, m.mode);
}

/// A byte-level lexer over a whole document or a content stream.
pub struct State {
    store: Vec<u8>,
    index: usize,
    mode: LexMode,
    pending: Vec<usize>,
    ready: Vec<Token>,
    error: Option<LexError>,
}

pub open spec fn tokens_view(v: Seq<Token>) -> Seq<TokenModel> {
    v.map_values(|t: Token| t@)
}

impl View for State {
    type V = LexModel;

    closed spec fn view(&self) -> LexModel {
        LexModel {
            store: self.store@,
            pos: self.index as nat,
            mode: self.mode,
            pending: self.pending@,
            ready: tokens_view(self.ready@),
            error: self.error,
        }
    }
}

/// A lexer in the given mode at the start of `src`.
pub fn new_state(src: &[u8], mode: LexMode) -> (r: State)
    ensures
        r@ == (LexModel {
            store: src@,
            pos: 0,
            mode,
            pending: Seq::empty(),
            ready: Seq::empty(),
            error: None,
        }),
        r.wf(),
{
    let mut store: Vec<u8> = Vec::new();
    let mut i: usize = 0;
    while i < src.len()
        invariant
            i <= src@.len(),
            store@ == src@.subrange(0, i as int),
        decreases src@.len() - i,
    {
        store.push(src[i]);
        i = i + 1;
    }
    assert(store@ =~= src@);
    let r = State {
        store,
        index: 0,
        mode,
        pending: Vec::new(),
        ready: Vec::new(),
        error: None,
    };
    assert(tokens_view(r.ready@) =~= Seq::<TokenModel>::empty());
    r
}

/// A lexer for a whole document, at the start of `src`.
pub fn parse(src: &[u8]) -> (r: State)
    ensures
        r@ == (LexModel {
            store: src@,
            pos: 0,
            mode: LexMode::Document,
            pending: Seq::empty(),
            ready: Seq::empty(),
            error: None,
        }),
        r.wf(),
{
    new_state(src, LexMode::Document)
}

impl State {
    pub open spec fn wf(&self) -> bool {
        lex_wf(self@)
    }

    pub fn index(&self) -> (r: usize)
        ensures
            r == self@.pos,
    {
        self.index
    }

    pub fn len(&self) -> (r: usize)
        ensures
            r == self@.store.len(),
    {
        self.store.len()
    }

    /// The error that stopped lexing, if any.
    pub fn error(&self) -> (r: Option<LexError>)
        ensures
            r == self@.error,
    {
        self.error
    }

    fn flush_pending(&mut self)
        ensures
            final(self)@ == (LexModel {
                ready: old(self)@.ready + numbers(old(self)@.pending),
                pending: Seq::empty(),
                ..old(self)@
            }),
    {
        let mut i: usize = 0;
        let ghost r0 = self@.ready;
        while i < self.pending.len()
            invariant
                i <= self.pending@.len(),
                self.pending@ == old(self)@.pending,
                self.store@ == old(self)@.store,
                self.index == old(self)@.pos,
                self.mode == old(self)@.mode,
                self.error == old(self)@.error,
                tokens_view(self.ready@) == r0 + numbers(self.pending@.subrange(0, i as int)),
            decreases self.pending@.len() - i,
        {
            let n = self.pending[i];
            let ghost before = self.ready@;
            self.ready.push(Token::Number(Decimal::from_usize(n)));
            assert(tokens_view(self.ready@) =~= tokens_view(before).push(number_token(n)));
            assert(numbers(self.pending@.subrange(0, i + 1)) =~= numbers(
                self.pending@.subrange(0, i as int),
            ).push(number_token(n)));
            i = i + 1;
        }
        assert(self.pending@.subrange(0, i as int) =~= self.pending@);
        self.pending = Vec::new();
        assert(self@.pending =~= Seq::<usize>::empty());
    }

    fn push_ready(&mut self, t: Token)
        ensures
            final(self)@ == (LexModel { ready: old(self)@.ready.push(t@), ..old(self)@ }),
    {
        let ghost before = self.ready@;
        self.ready.push(t);
        assert(tokens_view(self.ready@) =~= tokens_view(before).push(t@));
    }

    fn feed_exec(&mut self, lx: Scanned, e: usize)
        requires
            old(self).wf(),
            old(self)@.error is None,
            old(self)@.pos < old(self)@.store.len(),
            (lx@, e as nat) == scan(old(self)@.store, old(self)@.pos, old(self)@.mode),
        ensures
            final(self)@ == feed(old(self)@, lx@, e as nat),
    {
        match lx {
            Scanned::Skip => {
                self.index = e;
            },
            Scanned::Int(n) => {
                let ghost p0 = self.pending@;
                if self.pending.len() >= 2 {
                    let f = self.pending.remove(0);
                    assert(self.pending@ =~= p0.drop_first());
                    self.push_ready(Token::Number(Decimal::from_usize(f)));
                }
                self.pending.push(n);
                self.index = e;
            },
            Scanned::Tok(t) => {
                let ghost tm = t@;
                self.flush_pending();
                self.push_ready(t);
                self.index = e;
                assert(old(self)@.ready + numbers(old(self)@.pending) + seq![tm] =~= (old(self)@.ready
                    + numbers(old(self)@.pending)).push(tm));
            },
            Scanned::Header(obj) => {
                if self.pending.len() == 2 {
                    let id = (self.pending[0], self.pending[1]);
                    self.pending = Vec::new();
                    if obj {
                        self.push_ready(Token::ObjectStart(id));
                    } else {
                        self.push_ready(Token::Ref(id));
                    }
                    self.index = e;
                    assert(self@.pending =~= Seq::<usize>::empty());
                } else {
                    let at = self.index;
                    self.flush_pending();
                    self.error = Some(LexError { kind: LexErrorKind::Unrecognized, offset: at });
                    self.index = self.store.len();
                }
            },
            Scanned::Fail(k) => {
                self.flush_pending();
                self.error = Some(LexError { kind: k, offset: e });
                self.index = self.store.len();
            },
        }
    }

    /// The next token, or `None` at the end of the input or after an error.
    pub fn get_next_token(&mut self) -> (r: Option<Token>)
        requires
            old(self).wf(),
        ensures
            final(self).wf(),
            (match r {
                Some(t) => Some(t@),
                None => None,
            }, final(self)@) == next_spec(old(self)@),
    {
        loop
            invariant
                self.wf(),
                next_spec(self@) == next_spec(old(self)@),
            decreases self@.store.len() - self@.pos,
        {
            if self.ready.len() > 0 {
                let ghost before = self.ready@;
                let t = self.ready.remove(0);
                assert(tokens_view(self.ready@) =~= tokens_view(before).drop_first());
                return Some(t);
            }
            if self.error.is_some() || self.index >= self.store.len() {
                if self.pending.len() > 0 {
                    let n = self.pending.remove(0);
                    return Some(Token::Number(Decimal::from_usize(n)));
                }
                return None;
            }
            let (lx, e) = scan_exec(&self.store, self.index, self.mode);
            proof {
                lemma_feed_wf(self@, lx@, e as nat);
            }
            self.feed_exec(lx, e);
        }
    }

    /// Whether the next token is `t`; the token stays to be read.
    pub fn is(&mut self, t: Token) -> (r: bool)
        requires
            old(self).wf(),
        ensures
            final(self).wf(),
            r == (next_spec(old(self)@).0 == Some(t@)),
            next_spec(final(self)@) == next_spec(old(self)@),
    {
        if self.ready.len() > 0 {
            let r = token_eq(&self.ready[0], &t);
            proof {
                assert(tokens_view(self.ready@)[0] == self.ready@[0]@);
            }
            return r;
        }
        let ghost m0 = self@;
        let next = self.get_next_token();
        proof {
            lemma_next_spec_wf(m0);
        }
        match next {
            None => {
                proof {
                    lemma_next_none_fixpoint(m0);
                }
                false
            },
            Some(n) => {
                let r = token_eq(&n, &t);
                self.swallow(n);
                r
            },
        }
    }

    /// Puts `t` back: it is the next token to be read.
    pub fn swallow(&mut self, t: Token)
        requires
            old(self).wf(),
        ensures
            final(self).wf(),
            final(self)@ == (LexModel { ready: seq![t@] + old(self)@.ready, ..old(self)@ }),
            next_spec(final(self)@) == (Some(t@), old(self)@),
    {
        let ghost before = self.ready@;
        self.ready.insert(0, t);
        assert(tokens_view(self.ready@) =~= seq![t@] + tokens_view(before));
        assert((seq![t@] + tokens_view(before)).drop_first() =~= tokens_view(before));
    }

    /// Copies the next `size` raw bytes into `buf` and returns `size`; where
    /// fewer bytes are left, copies nothing and returns 0.
    pub fn get_fixed_length_stream(&mut self, size: usize, buf: &mut Vec<u8>) -> (r: usize)
        requires
            old(self).wf(),
        ensures
            final(self).wf(),
            raw_fits(old(self)@, size as nat) ==> r == size && final(self)@ == raw_advance(
                old(self)@,
                size as nat,
            ) && final(buf)@ == old(buf)@ + raw_span(old(self)@, size as nat),
            !raw_fits(old(self)@, size as nat) ==> r == 0 && final(self)@ == old(self)@
                && final(buf)@ == old(buf)@,
    {
        if self.store.len() - self.index < size {
            return 0;
        }
        let ghost b0 = buf@;
        let start = self.index;
        let total = self.store.len();
        let mut i: usize = 0;
        while i < size
            invariant
                start == self.index,
                total == self.store@.len(),
                start + size <= total,
                i <= size,
                buf@ == b0 + self.store@.subrange(start as int, start + i),
            decreases size - i,
        {
            buf.push(self.store[start + i]);
            assert(self.store@.subrange(start as int, start + i + 1) =~= self.store@.subrange(
                start as int,
                start + i,
            ).push(self.store@[start + i]));
            i = i + 1;
        }
        self.index = self.index + size;
        size
    }

    /// Inflates the next `size` raw bytes (zlib data) into `buf` and returns
    /// `Some(size)`; `None` where they do not inflate; `Some(0)`, with nothing
    /// read, where fewer bytes are left.
    pub fn get_flate_stream(&mut self, size: usize, buf: &mut Vec<u8>) -> (r: Option<usize>)
        requires
            old(self).wf(),
        ensures
            final(self).wf(),
            raw_fits(old(self)@, size as nat) ==> match zlib_inflate(
                raw_span(old(self)@, size as nat),
            ) {
                Some(d) => r == Some(size) && final(self)@ == raw_advance(old(self)@, size as nat)
                    && final(buf)@ == old(buf)@ + d,
                None => r is None && final(self)@ == old(self)@ && final(buf)@ == old(buf)@,
            },
            !raw_fits(old(self)@, size as nat) ==> r == Some(0usize) && final(self)@ == old(self)@
                && final(buf)@ == old(buf)@,
    {
        if self.store.len() - self.index < size {
            return Some(0);
        }
        let span = vstd::slice::slice_subrange(self.store.as_slice(), self.index, self.index + size);
        match inflate(span) {
            Some(d) => {
                let ghost b0 = buf@;
                let mut i: usize = 0;
                while i < d.len()
                    invariant
                        i <= d@.len(),
                        buf@ == b0 + d@.subrange(0, i as int),
                    decreases d@.len() - i,
                {
                    buf.push(d[i]);
                    assert(d@.subrange(0, i + 1) =~= d@.subrange(0, i as int).push(d@[i as int]));
                    i = i + 1;
                }
                assert(d@.subrange(0, d@.len() as int) =~= d@);
                self.index = self.index + size;
                Some(size)
            },
            None => None,
        }
    }

    /// The raw line that starts at the current offset, without its `\\n`.
    pub fn get_ascii_line(&mut self) -> (r: Option<String>)
        requires
            old(self).wf(),
        ensures
            final(self).wf(),
            (match r {
                Some(s) => Some(s@),
                None => None,
            }, final(self)@) == ascii_line(old(self)@),
    {
        let e = run_end_exec(&self.store, self.index, RunKind::AsciiLine);
        if e >= self.store.len() {
            if e == self.index {
                return None;
            }
            let line = string_of_bytes(&self.store, self.index, e);
            self.index = self.store.len();
            return Some(line);
        }
        if self.store[e] >= 128 {
            return None;
        }
        let line = string_of_bytes(&self.store, self.index, e);
        self.index = e + 1;
        Some(line)
    }
}

pub open spec fn raw_fits(m: LexModel, size: nat) -> bool {
    m.pos + size <= m.store.len()
}

pub open spec fn raw_span(m: LexModel, size: nat) -> Seq<u8> {
    m.store.subrange(m.pos as int, (m.pos + size) as int)
}

pub open spec fn raw_advance(m: LexModel, size: nat) -> LexModel {
    LexModel { pos: m.pos + size, ..m }
}

/// The line read raw from the current offset: up to a `\\n` (which is
/// skipped) or the end of the input; `None` at the end of the input or
/// where a byte above 127 comes first.
pub open spec fn ascii_line(m: LexModel) -> (Option<Seq<char>>, LexModel) {
    let e = run_end(m.store, m.pos, RunKind::AsciiLine);
    if e >= m.store.len() {
        if e == m.pos {
            (None, m)
        } else {
            (Some(chars_of(m.store.subrange(m.pos as int, e as int))), LexModel { pos: m.store.len(), ..m })
        }
    } else if m.store[e as int] >= 128 {
        (None, m)
    } else {
        (Some(chars_of(m.store.subrange(m.pos as int, e as int))), LexModel { pos: e + 1, ..m })
    }
}

/// What zlib data inflates to, or `None` where it is corrupt or ends early.
pub uninterp spec fn zlib_inflate(data: Seq<u8>) -> Option<Seq<u8>>;

/// Relies on flate2's `bufread::ZlibDecoder`, read to the end: the bytes
/// that the zlib data decodes to; an error where the data is corrupt or
/// ends before the end of the zlib stream.
#[verifier::external_body]
fn inflate(data: &[u8]) -> (r: Option<Vec<u8>>)
    ensures
        match r {
            Some(v) => zlib_inflate(data@) == Some(v@),
            None => zlib_inflate(data@) is None,
        },
{
    let mut out = Vec::new();
    match flate2::bufread::ZlibDecoder::new(data).read_to_end(&mut out) {
        Ok(_) => Some(out),
        Err(_) => None,
    }
}

fn bytes_eq(a: &Vec<u8>, b: &Vec<u8>) -> (r: bool)
    ensures
        r == (a@ == b@),
{
    if a.len() != b.len() {
        return false;
    }
    let mut i: usize = 0;
    while i < a.len()
        invariant
            a@.len() == b@.len(),
            i <= a@.len(),
            forall|j: int| 0 <= j < i ==> a@[j] == b@[j],
        decreases a@.len() - i,
    {
        if a[i] != b[i] {
            return false;
        }
        i = i + 1;
    }
    assert(a@ =~= b@);
    true
}

/// Whether two tokens are the same token.
pub fn token_eq(a: &Token, b: &Token) -> (r: bool)
    ensures
        r == (a@ == b@),
{
    match (a, b) {
        (Token::StringLiteral(x), Token::StringLiteral(y)) => bytes_eq(x, y),
        (Token::BytesLiteral(x), Token::BytesLiteral(y)) => bytes_eq(x, y),
        (Token::Key(x), Token::Key(y)) => x.eq(y),
        (Token::Operator(x), Token::Operator(y)) => x.eq(y),
        (Token::DictStart, Token::DictStart) => true,
        (Token::DictEnd, Token::DictEnd) => true,
        (Token::ListStart, Token::ListStart) => true,
        (Token::ListEnd, Token::ListEnd) => true,
        (Token::StreamStart, Token::StreamStart) => true,
        (Token::StreamEnd, Token::StreamEnd) => true,
        (Token::ObjectStart(x), Token::ObjectStart(y)) => x.0 == y.0 && x.1 == y.1,
        (Token::ObjectEnd, Token::ObjectEnd) => true,
        (Token::Ref(x), Token::Ref(y)) => x.0 == y.0 && x.1 == y.1,
        (Token::Number(x), Token::Number(y)) => x.mantissa == y.mantissa && x.scale == y.scale,
        (Token::XRef, Token::XRef) => true,
        (Token::Null, Token::Null) => true,
        (Token::Bool(x), Token::Bool(y)) => *x == *y,
        (Token::Id(x), Token::Id(y)) => *x == *y,
        _ => false,
    }
}

/// Reading a token keeps the state well formed.
pub proof fn lemma_next_spec_wf(m: LexModel)
    requires
        lex_wf(m),
    ensures
        lex_wf(next_spec(m).1),
        next_spec(m).1.store == m.store,
        next_spec(m).1.mode == m.mode,
    decreases m.store.len() - m.pos,
{
    if m.ready.len() == 0 && !(m.error is Some || m.pos >= m.store.len()) {
        let (lx, e) = scan(m.store, m.pos, m.mode);
        lemma_feed_wf(m, lx, e);
        lemma_next_spec_wf(feed(m, lx, e));
    }
}

/// Once no token comes, none ever comes again.
pub proof fn lemma_next_none_fixpoint(m: LexModel)
    requires
        lex_wf(m),
        next_spec(m).0 is None,
    ensures
        next_spec(next_spec(m).1) == next_spec(m),
    decreases m.store.len() - m.pos,
{
    if m.ready.len() == 0 && !(m.error is Some || m.pos >= m.store.len()) {
        let (lx, e) = scan(m.store, m.pos, m.mode);
        lemma_feed_wf(m, lx, e);
        lemma_next_none_fixpoint(feed(m, lx, e));
    }
}

/// A measure of the work left to the lexer.
pub open spec fn lex_measure(m: LexModel) -> int {
    3 * (m.store.len() - m.pos) + m.ready.len() + m.pending.len()
}

/// Each token read lowers the measure.
pub proof fn lemma_next_spec_measure(m: LexModel)
    requires
        lex_wf(m),
    ensures
        next_spec(m).0 is Some ==> lex_measure(next_spec(m).1) < lex_measure(m),
        lex_measure(next_spec(m).1) <= lex_measure(m),
    decreases m.store.len() - m.pos,
{
    if m.ready.len() == 0 && !(m.error is Some || m.pos >= m.store.len()) {
        let (lx, e) = scan(m.store, m.pos, m.mode);
        lemma_feed_wf(m, lx, e);
        lemma_next_spec_measure(feed(m, lx, e));
    }
}


// ---------------------------------------------------------------------
// Laws

/// The state of a fresh lexer over `s`.
pub open spec fn start(s: Seq<u8>, mode: LexMode) -> LexModel {
    LexModel { store: s, pos: 0, mode, pending: Seq::empty(), ready: Seq::empty(), error: None }
}

proof fn lemma_run_to_end(s: Seq<u8>, i: nat, k: RunKind)
    requires
        i <= s.len(),
        forall|j: int| i <= j < s.len() ==> in_run(k, s[j]),
    ensures
        run_end(s, i, k) == s.len(),
    decreases s.len() - i,
{
    if i < s.len() {
        lemma_run_to_end(s, i + 1, k);
    }
}

/// A non-negative integer standing alone lexes to exactly that number,
/// and then to nothing.
pub proof fn lemma_lone_integer(s: Seq<u8>, mode: LexMode)
    requires
        s.len() > 0,
        forall|i: int| 0 <= i < s.len() ==> is_digit(#[trigger] s[i]),
        digits_value(s) <= usize::MAX,
    ensures
        next_spec(start(s, mode)).0 == Some(number_token(digits_value(s) as usize)),
        next_spec(next_spec(start(s, mode)).1).0 is None,
{
    let m = start(s, mode);
    lemma_run_to_end(s, 0, RunKind::NumberChar);
    lemma_run_to_end(s, 0, RunKind::Digit);
    lemma_run_to_end(s, s.len(), RunKind::Digit);
    assert(s.subrange(0, s.len() as int) + s.subrange(s.len() as int, s.len() as int) =~= s);
    let (lx, e) = scan(s, 0, mode);
    assert(lx == Lexeme::Int(digits_value(s) as usize));
    assert(e == s.len());
    let m2 = feed(m, lx, e);
    assert(m2.pending =~= seq![digits_value(s) as usize]);
    assert(next_spec(m) == next_spec(m2));
}

/// A literal that starts with a minus sign is never held back as a
/// possible object number: it is never an `Int` lexeme.
pub proof fn lemma_negative_not_pending(s: Seq<u8>, p: nat, mode: LexMode)
    requires
        p < s.len(),
        s[p as int] == 45,
    ensures
        !(scan(s, p, mode).0 is Int),
{
}

} // verus!
