//! Tokeniser for the Part 21 clear-text encoding.
//!
//! The lexer turns a byte slice into a stream of [`Token`]s. It borrows the
//! input and never allocates for a token: a token is a [`TokenKind`] plus
//! the [`Span`] of source bytes it covers, so later stages can copy entity
//! text verbatim. Whitespace and `/* */` comments are skipped.
//!
//! It is not line-oriented: string literals may continue across line
//! breaks. Where exporters routinely deviate from the standard, the lexer
//! accepts the input: a UTF-8 byte-order mark at the very start is
//! skipped; every byte from `0x00` to `0x20` counts as whitespace; any byte
//! is accepted inside a string literal; keywords and enumeration values may
//! be lower case; exponents may use a lower-case `e`, and a real may omit
//! the decimal point when it has an exponent; hexadecimal digits in binary
//! literals may be lower case.
use vstd::prelude::*;
use vstd::string::*;
use crate::error::{Error, Result};
use crate::text::{latin1, owned, push_char};

verus! {

/// A half-open range of byte offsets, `start..end`, into the lexer's input.
#[derive(Debug, Clone, Copy, PartialEq, Eq, Hash, Structural)]
pub struct Span {
    /// Offset of the first byte.
    pub start: usize,
    /// Offset one past the last byte.
    pub end: usize,
}

impl Span {
    /// True if the span lies within a source of `len` bytes.
    pub open spec fn within(self, len: int) -> bool {
        self.start <= self.end <= len
    }

    /// The bytes this span covers.
    pub open spec fn of(self, src: Seq<u8>) -> Seq<u8> {
        src.subrange(self.start as int, self.end as int)
    }

    /// Returns the bytes this span covers.
    pub fn slice(self, src: &[u8]) -> (r: &[u8])
        requires
            self.within(src@.len() as int),
        ensures
            r@ == self.of(src@),
    {
        slice_range(src, self.start, self.end)
    }
}

/// The elements `src[start..end]`.
pub fn slice_range<T>(src: &[T], start: usize, end: usize) -> (r: &[T])
    requires
        start <= end <= src@.len(),
    ensures
        r@ == src@.subrange(start as int, end as int),
{
    &src[start..end]
}

/// The kind of a [`Token`].
///
/// Only instance names carry a decoded value. Everything else is read from
/// the token's [`Span`] when needed, so that numbers and strings are never
/// re-printed differently from how the file wrote them.
#[derive(Debug, Clone, Copy, PartialEq, Eq, Hash, Structural)]
pub enum TokenKind {
    /// A standard keyword: an entity or header type name such as `PRODUCT`,
    /// or a section keyword such as `DATA`, `ENDSEC`, `ISO-10303-21` or
    /// `&SCOPE`.
    Keyword,
    /// A user-defined keyword: `!` followed by a name.
    UserKeyword,
    /// An entity instance name, `#123`.
    InstanceName(u64),
    /// An edition 3 constant instance name, `#NAME`.
    ConstantName,
    /// An edition 3 value instance name, `@name`.
    ValueName,
    /// An edition 3 resource reference, `<...>`.
    Resource,
    /// An integer, with optional sign.
    Integer,
    /// A real number, with optional sign and exponent.
    Real,
    /// A string literal, quotes included.
    String,
    /// An enumeration value such as `.T.` or `.UNSPECIFIED.`.
    Enumeration,
    /// A binary literal such as `"0FF"`, quotes included.
    Binary,
    /// `(`
    LeftParen,
    /// `)`
    RightParen,
    /// `,`
    Comma,
    /// `;`
    Semicolon,
    /// `=`
    Equals,
    /// `$`, an unset optional attribute.
    Dollar,
    /// `*`, a redeclared (derived) attribute.
    Asterisk,
}

/// One lexical token.
#[derive(Debug, Clone, Copy, PartialEq, Eq, Hash, Structural)]
pub struct Token {
    /// What kind of token this is.
    pub kind: TokenKind,
    /// The source bytes the token was read from, including any quotes,
    /// sign, `#` or `.` delimiters.
    pub span: Span,
}

// ---------------------------------------------------------------------
// The lexical grammar.
// ---------------------------------------------------------------------

/// Byte classes that runs of bytes are read by.
#[derive(Clone, Copy, PartialEq, Eq, Structural)]
pub enum Class {
    /// `0`-`9`.
    Digit,
    /// `0`-`9`, `A`-`F`, `a`-`f`.
    Hex,
    /// Letters, digits and `_`.
    Name,
    /// Letters, digits, `_` and `-`, as in `ISO-10303-21`.
    KeywordChar,
    /// `0x00`-`0x20`.
    Blank,
}

pub open spec fn is_digit(b: u8) -> bool {
    48 <= b <= 57
}

pub open spec fn is_alpha(b: u8) -> bool {
    (65 <= b <= 90) || (97 <= b <= 122)
}

pub open spec fn is_name_start(b: u8) -> bool {
    is_alpha(b) || b == 95
}

pub open spec fn is_name_char(b: u8) -> bool {
    is_alpha(b) || is_digit(b) || b == 95
}

pub open spec fn is_hex(b: u8) -> bool {
    is_digit(b) || (65 <= b <= 70) || (97 <= b <= 102)
}

pub open spec fn in_class(c: Class, b: u8) -> bool {
    match c {
        Class::Digit => is_digit(b),
        Class::Hex => is_hex(b),
        Class::Name => is_name_char(b),
        Class::KeywordChar => is_name_char(b) || b == 45,
        Class::Blank => b <= 32,
    }
}

/// The end of the run of class `c` bytes starting at `p`.
pub open spec fn run_end(s: Seq<u8>, p: int, c: Class) -> int
    decreases s.len() - p,
{
    if p < 0 || p >= s.len() || !in_class(c, s[p]) {
        p
    } else {
        run_end(s, p + 1, c)
    }
}

/// The first position at or after `p` holding byte `b`.
pub open spec fn find_byte(s: Seq<u8>, p: int, b: u8) -> Option<int>
    decreases s.len() - p,
{
    if p < 0 || p >= s.len() {
        None
    } else if s[p] == b {
        Some(p)
    } else {
        find_byte(s, p + 1, b)
    }
}

/// The first position at or after `p` where `*/` starts.
pub open spec fn find_comment_close(s: Seq<u8>, p: int) -> Option<int>
    decreases s.len() - p,
{
    if p < 0 || p + 1 >= s.len() {
        None
    } else if s[p] == 42 && s[p + 1] == 47 {
        Some(p)
    } else {
        find_comment_close(s, p + 1)
    }
}

/// Where the next token starts after skipping blanks and comments from
/// `p`: `Ok(position)`, or `Err(offset)` of an unterminated comment.
pub open spec fn trivia_end(s: Seq<u8>, p: int) -> core::result::Result<int, int>
    decreases s.len() - p,
{
    let q = run_end(s, p, Class::Blank);
    if 0 <= p && q + 1 < s.len() && s[q] == 47 && s[q + 1] == 42 {
        match find_comment_close(s, q + 2) {
            Some(k) => if p < k + 2 <= s.len() { trivia_end(s, k + 2) } else { Err(q) },
            None => Err(q),
        }
    } else {
        Ok(q)
    }
}

/// The numeric value of a run of decimal digits.
pub open spec fn digits_value(d: Seq<u8>) -> nat
    decreases d.len(),
{
    if d.len() == 0 {
        0
    } else {
        digits_value(d.drop_last()) * 10 + (d.last() - 48) as nat
    }
}

/// The end of a name (letter or `_`, then letters, digits and `_`) that
/// must start at `p`.
pub open spec fn name_at(s: Seq<u8>, p: int) -> Option<int> {
    if 0 <= p < s.len() && is_name_start(s[p]) {
        Some(run_end(s, p + 1, Class::Name))
    } else {
        None
    }
}

/// The end of a string literal whose opening apostrophe precedes `p`: the
/// position after the first apostrophe that is not doubled.
pub open spec fn string_end(s: Seq<u8>, p: int) -> Option<int>
    decreases s.len() - p,
{
    match find_byte(s, p, 39) {
        None => None,
        Some(q) => if q + 1 < s.len() && s[q + 1] == 39 && q + 2 > p {
            string_end(s, q + 2)
        } else {
            Some(q + 1)
        },
    }
}

pub open spec fn is_sign(b: u8) -> bool {
    b == 43 || b == 45
}

/// A number starting at `start`: its kind and end, or the offset of the
/// error.
pub open spec fn number_at(s: Seq<u8>, start: int) -> core::result::Result<(TokenKind, int), int> {
    let p = if is_sign(s[start]) { start + 1 } else { start };
    let d = run_end(s, p, Class::Digit);
    if d == p {
        Err(start)
    } else {
        let dot = d < s.len() && s[d] == 46;
        let q = if dot { run_end(s, d + 1, Class::Digit) } else { d };
        if q < s.len() && (s[q] == 69 || s[q] == 101) {
            let r = if q + 1 < s.len() && is_sign(s[q + 1]) { q + 2 } else { q + 1 };
            let t = run_end(s, r, Class::Digit);
            if t == r { Err(q) } else { Ok((TokenKind::Real, t)) }
        } else {
            Ok((if dot { TokenKind::Real } else { TokenKind::Integer }, q))
        }
    }
}

/// The token starting at `start` (which holds no blank and no comment):
/// its kind and end, or the offset of the error.
pub open spec fn lexeme(s: Seq<u8>, start: int) -> core::result::Result<(TokenKind, int), int> {
    let b = s[start];
    if b == 40 {
        Ok((TokenKind::LeftParen, start + 1))
    } else if b == 41 {
        Ok((TokenKind::RightParen, start + 1))
    } else if b == 44 {
        Ok((TokenKind::Comma, start + 1))
    } else if b == 59 {
        Ok((TokenKind::Semicolon, start + 1))
    } else if b == 61 {
        Ok((TokenKind::Equals, start + 1))
    } else if b == 36 {
        Ok((TokenKind::Dollar, start + 1))
    } else if b == 42 {
        Ok((TokenKind::Asterisk, start + 1))
    } else if b == 35 {
        let d = run_end(s, start + 1, Class::Digit);
        if d > start + 1 {
            let v = digits_value(s.subrange(start + 1, d));
            if v <= u64::MAX {
                Ok((TokenKind::InstanceName(v as u64), d))
            } else {
                Err(start)
            }
        } else {
            match name_at(s, start + 1) {
                Some(e) => Ok((TokenKind::ConstantName, e)),
                None => Err(start),
            }
        }
    } else if b == 39 {
        match string_end(s, start + 1) {
            Some(e) => Ok((TokenKind::String, e)),
            None => Err(start),
        }
    } else if b == 34 {
        let d = run_end(s, start + 1, Class::Hex);
        if d >= s.len() || s[d] != 34 {
            Err(d)
        } else if d == start + 1 || !(48 <= s[start + 1] <= 51) {
            Err(start)
        } else {
            Ok((TokenKind::Binary, d + 1))
        }
    } else if b == 46 {
        match name_at(s, start + 1) {
            Some(e) => if e < s.len() && s[e] == 46 {
                Ok((TokenKind::Enumeration, e + 1))
            } else {
                Err(start)
            },
            None => Err(start),
        }
    } else if is_sign(b) || is_digit(b) {
        number_at(s, start)
    } else if b == 33 {
        match name_at(s, start + 1) {
            Some(e) => Ok((TokenKind::UserKeyword, e)),
            None => Err(start),
        }
    } else if b == 38 {
        match name_at(s, start + 1) {
            Some(e) => Ok((TokenKind::Keyword, e)),
            None => Err(start),
        }
    } else if b == 64 {
        let e = run_end(s, start + 1, Class::Name);
        if e == start + 1 { Err(start) } else { Ok((TokenKind::ValueName, e)) }
    } else if b == 60 {
        match find_byte(s, start + 1, 62) {
            Some(k) => Ok((TokenKind::Resource, k + 1)),
            None => Err(start),
        }
    } else if is_name_start(b) {
        Ok((TokenKind::Keyword, run_end(s, start + 1, Class::KeywordChar)))
    } else {
        Err(start)
    }
}

/// What reading a token at `p` gives: `Ok(None)` at the end of input,
/// `Ok(Some(token))`, or `Err(offset)` of a lexical error.
pub open spec fn next_at(s: Seq<u8>, p: int) -> core::result::Result<Option<Token>, int> {
    match trivia_end(s, p) {
        Err(o) => Err(o),
        Ok(q) => if q >= s.len() {
            Ok(None)
        } else {
            match lexeme(s, q) {
                Err(o) => Err(o),
                Ok((kind, e)) => Ok(
                    Some(Token { kind, span: Span { start: q as usize, end: e as usize } }),
                ),
            }
        },
    }
}

/// Where reading starts: after a UTF-8 byte-order mark, if there is one.
pub open spec fn start_of(s: Seq<u8>) -> int {
    if s.len() >= 3 && s[0] == 0xEF && s[1] == 0xBB && s[2] == 0xBF {
        3
    } else {
        0
    }
}

/// The tokens of `s` read from position `p` until the end of input or the
/// first error: the tokens, and the offset of the error if there is one.
pub open spec fn tokens_from(s: Seq<u8>, p: int) -> (Seq<Token>, Option<int>)
    decreases s.len() - p,
{
    match next_at(s, p) {
        Err(o) => (Seq::empty(), Some(o)),
        Ok(None) => (Seq::empty(), None),
        Ok(Some(t)) => if t.span.end > p && t.span.end <= s.len() {
            let rest = tokens_from(s, t.span.end as int);
            (seq![t] + rest.0, rest.1)
        } else {
            (Seq::empty(), None)
        },
    }
}

/// The tokens of a whole input, and the offset of its first lexical error.
pub open spec fn tokens_of(s: Seq<u8>) -> (Seq<Token>, Option<int>) {
    tokens_from(s, start_of(s))
}

// ---------------------------------------------------------------------
// Facts about the grammar.
// ---------------------------------------------------------------------

pub proof fn lemma_run_end(s: Seq<u8>, p: int, c: Class)
    requires
        0 <= p <= s.len(),
    ensures
        p <= run_end(s, p, c) <= s.len(),
        forall|i: int| p <= i < run_end(s, p, c) ==> in_class(c, #[trigger] s[i]),
        run_end(s, p, c) < s.len() ==> !in_class(c, s[run_end(s, p, c)]),
    decreases s.len() - p,
{
    if p < s.len() && in_class(c, s[p]) {
        lemma_run_end(s, p + 1, c);
    }
}

pub proof fn lemma_find_byte(s: Seq<u8>, p: int, b: u8)
    requires
        0 <= p,
    ensures
        find_byte(s, p, b) matches Some(k) ==> p <= k < s.len() && s[k] == b,
        find_byte(s, p, b) matches Some(k) ==> forall|i: int| p <= i < k ==> s[i] != b,
        find_byte(s, p, b) is None ==> forall|i: int| p <= i < s.len() ==> s[i] != b,
    decreases s.len() - p,
{
    if p < s.len() && s[p] != b {
        lemma_find_byte(s, p + 1, b);
    }
}

pub proof fn lemma_trivia_end(s: Seq<u8>, p: int)
    requires
        0 <= p <= s.len(),
    ensures
        trivia_end(s, p) matches Ok(q) ==> p <= q <= s.len(),
        trivia_end(s, p) matches Err(o) ==> p <= o < s.len(),
    decreases s.len() - p,
{
    lemma_run_end(s, p, Class::Blank);
    let q = run_end(s, p, Class::Blank);
    if q + 1 < s.len() && s[q] == 47 && s[q + 1] == 42 {
        lemma_comment_close(s, q + 2);
        match find_comment_close(s, q + 2) {
            Some(k) => if p < k + 2 <= s.len() {
                lemma_trivia_end(s, k + 2);
            },
            None => {},
        }
    }
}

pub proof fn lemma_comment_close(s: Seq<u8>, p: int)
    requires
        0 <= p,
    ensures
        find_comment_close(s, p) matches Some(k) ==> p <= k && k + 1 < s.len(),
    decreases s.len() - p,
{
    if p + 1 < s.len() && !(s[p] == 42 && s[p + 1] == 47) {
        lemma_comment_close(s, p + 1);
    }
}

pub proof fn lemma_string_end(s: Seq<u8>, p: int)
    requires
        0 <= p,
    ensures
        string_end(s, p) matches Some(e) ==> p < e <= s.len() && s[e - 1] == 39,
    decreases s.len() - p,
{
    lemma_find_byte(s, p, 39);
    match find_byte(s, p, 39) {
        None => {},
        Some(q) => if q + 1 < s.len() && s[q + 1] == 39 && q + 2 > p {
            lemma_string_end(s, q + 2);
        },
    }
}

/// True if `s[a..b]` holds only blanks (bytes up to 0x20) and closed
/// `/* */` comments.
pub open spec fn only_trivia(s: Seq<u8>, a: int, b: int) -> bool
    decreases b - a,
{
    if a >= b {
        a == b
    } else if 0 <= a < s.len() && s[a] <= 32 {
        only_trivia(s, a + 1, b)
    } else if 0 <= a && a + 1 < s.len() && s[a] == 47 && s[a + 1] == 42 {
        match find_comment_close(s, a + 2) {
            Some(k) => a < k + 2 <= b && only_trivia(s, k + 2, b),
            None => false,
        }
    } else {
        false
    }
}

proof fn lemma_blank_run_is_trivia(s: Seq<u8>, a: int, b: int, c: int)
    requires
        0 <= a <= b <= s.len(),
        forall|i: int| a <= i < b ==> s[i] <= 32,
        only_trivia(s, b, c),
    ensures
        only_trivia(s, a, c),
    decreases b - a,
{
    if a < b {
        lemma_blank_run_is_trivia(s, a + 1, b, c);
    }
}

proof fn lemma_trivia_end_is_trivia(s: Seq<u8>, p: int)
    requires
        0 <= p <= s.len(),
    ensures
        trivia_end(s, p) matches Ok(q) ==> only_trivia(s, p, q),
    decreases s.len() - p,
{
    lemma_run_end(s, p, Class::Blank);
    let q = run_end(s, p, Class::Blank);
    if q + 1 < s.len() && s[q] == 47 && s[q + 1] == 42 {
        lemma_comment_close(s, q + 2);
        match find_comment_close(s, q + 2) {
            Some(k) => if p < k + 2 <= s.len() {
                lemma_trivia_end_is_trivia(s, k + 2);
                lemma_trivia_end(s, k + 2);
                if let Ok(r) = trivia_end(s, k + 2) {
                    assert(only_trivia(s, q, r));
                    lemma_blank_run_is_trivia(s, p, q, r);
                }
            },
            None => {},
        }
    } else {
        lemma_blank_run_is_trivia(s, p, q, q);
    }
}

/// Between the position a token is read from and the token's start there
/// are only blanks and closed comments; where no token is left, the rest
/// of the input is such trivia; an error lies at or after the position.
pub proof fn lemma_tokens_follow_trivia(s: Seq<u8>, p: int)
    requires
        0 <= p <= s.len() < usize::MAX,
    ensures
        next_at(s, p) matches Ok(Some(t)) ==> p <= t.span.start < t.span.end <= s.len() && only_trivia(
            s,
            p,
            t.span.start as int,
        ),
        next_at(s, p) matches Ok(None) ==> only_trivia(s, p, s.len() as int),
        next_at(s, p) matches Err(o) ==> p <= o <= s.len(),
{
    lemma_next_at(s, p);
    lemma_trivia_end(s, p);
    lemma_trivia_end_is_trivia(s, p);
}

/// A token read anywhere lies within the input, after the position it
/// was read from, and is not empty.
pub proof fn lemma_next_at(s: Seq<u8>, p: int)
    requires
        0 <= p <= s.len() < usize::MAX,
    ensures
        next_at(s, p) matches Ok(Some(t)) ==> p <= t.span.start < t.span.end <= s.len(),
        next_at(s, p) matches Ok(Some(t)) ==> lexeme(s, t.span.start as int) == Ok::<
            (TokenKind, int),
            int,
        >((t.kind, t.span.end as int)),
        next_at(s, p) matches Err(o) ==> p <= o <= s.len(),
{
    lemma_trivia_end(s, p);
    if let Ok(q) = trivia_end(s, p) {
        if q < s.len() {
            let b = s[q];
            lemma_run_end(s, q + 1, Class::Digit);
            lemma_run_end(s, q + 1, Class::Hex);
            lemma_run_end(s, q + 1, Class::Name);
            lemma_run_end(s, q + 1, Class::KeywordChar);
            if q + 1 < s.len() {
                lemma_run_end(s, q + 2, Class::Name);
            }
            lemma_string_end(s, q + 1);
            lemma_find_byte(s, q + 1, 62);
            if is_sign(b) || is_digit(b) {
                lemma_number(s, q);
            }
        }
    }
}

proof fn lemma_number(s: Seq<u8>, start: int)
    requires
        0 <= start < s.len(),
    ensures
        number_at(s, start) matches Ok((k, e)) ==> start < e <= s.len(),
        number_at(s, start) matches Err(o) ==> start <= o <= s.len(),
{
    let p = if is_sign(s[start]) { start + 1 } else { start };
    lemma_run_end(s, p, Class::Digit);
    let d = run_end(s, p, Class::Digit);
    if d < s.len() {
        lemma_run_end(s, d + 1, Class::Digit);
    }
    let dot = d < s.len() && s[d] == 46;
    let q = if dot { run_end(s, d + 1, Class::Digit) } else { d };
    if q + 1 < s.len() {
        lemma_run_end(s, q + 2, Class::Digit);
    }
    if q < s.len() {
        lemma_run_end(s, q + 1, Class::Digit);
    }
}

proof fn lemma_digits_value_monotone(d: Seq<u8>, i: int, j: int)
    requires
        0 <= i <= j <= d.len(),
        forall|k: int| 0 <= k < d.len() ==> is_digit(#[trigger] d[k]),
    ensures
        digits_value(d.take(i)) <= digits_value(d.take(j)),
    decreases j - i,
{
    if i < j {
        lemma_digits_value_monotone(d, i, j - 1);
        assert(d.take(j).drop_last() =~= d.take(j - 1));
    }
}

// ---------------------------------------------------------------------
// The lexer.
// ---------------------------------------------------------------------

/// A tokeniser over a complete Part 21 file held in memory.
///
/// [`next`](Self::next) yields tokens until the end of input. The first
/// error ends the iteration: after an `Err`, it returns `None`.
#[derive(Debug, Clone)]
pub struct Lexer<'a> {
    src: &'a [u8],
    pos: usize,
    failed: bool,
}

impl<'a> Lexer<'a> {
    /// The input bytes.
    pub closed spec fn input(&self) -> Seq<u8> {
        self.src@
    }

    /// The position the next token is read from.
    pub closed spec fn position(&self) -> int {
        self.pos as int
    }

    /// True once an error has ended the iteration.
    pub closed spec fn has_failed(&self) -> bool {
        self.failed
    }

    /// The lexer's invariant.
    pub closed spec fn wf(&self) -> bool {
        &&& self.pos <= self.src@.len()
        &&& self.src@.len() < usize::MAX
    }

    /// Creates a lexer over `src`, skipping a leading UTF-8 byte-order mark.
    pub fn new(src: &'a [u8]) -> (l: Self)
        requires
            src@.len() < usize::MAX,
        ensures
            l.wf(),
            l.input() == src@,
            l.position() == start_of(src@),
            !l.has_failed(),
    {
        let pos = if src.len() >= 3 && src[0] == 0xEF && src[1] == 0xBB && src[2] == 0xBF {
            3
        } else {
            0
        };
        Lexer { src, pos, failed: false }
    }

    /// The input this lexer reads from.
    pub fn source(&self) -> (s: &'a [u8])
        ensures
            s@ == self.input(),
    {
        self.src
    }

    /// The byte offset the next token will be read from.
    pub fn offset(&self) -> (o: usize)
        ensures
            o == self.position(),
    {
        self.pos
    }

    /// Reads the next token, or `None` at the end of input.
    ///
    /// Unlike [`next`](Self::next), this does not stop after an error.
    pub fn next_token(&mut self) -> (r: Result<Option<Token>>)
        requires
            old(self).wf(),
        ensures
            final(self).wf(),
            final(self).input() == old(self).input(),
            final(self).has_failed() == old(self).has_failed(),
            match next_at(old(self).input(), old(self).position()) {
                Ok(None) => r matches Ok(None) && final(self).position() == old(self).input().len(),
                Ok(Some(t)) => r == Ok::<Option<Token>, Error>(Some(t)) && final(self).position()
                    == t.span.end,
                Err(o) => r matches Err(e) && e.is_syntax_at(old(self).input(), o),
            },
    {
        proof {
            lemma_next_at(self.src@, self.pos as int);
        }
        let start = match self.skip_trivia() {
            Ok(start) => start,
            Err(e) => return Err(e),
        };
        if start >= self.src.len() {
            return Ok(None);
        }
        let byte = self.src[start];
        let kind = if byte == 40 {
            self.punct(TokenKind::LeftParen)
        } else if byte == 41 {
            self.punct(TokenKind::RightParen)
        } else if byte == 44 {
            self.punct(TokenKind::Comma)
        } else if byte == 59 {
            self.punct(TokenKind::Semicolon)
        } else if byte == 61 {
            self.punct(TokenKind::Equals)
        } else if byte == 36 {
            self.punct(TokenKind::Dollar)
        } else if byte == 42 {
            self.punct(TokenKind::Asterisk)
        } else if byte == 35 {
            match self.instance_name() {
                Ok(k) => k,
                Err(e) => return Err(e),
            }
        } else if byte == 39 {
            match self.string() {
                Ok(k) => k,
                Err(e) => return Err(e),
            }
        } else if byte == 34 {
            match self.binary() {
                Ok(k) => k,
                Err(e) => return Err(e),
            }
        } else if byte == 46 {
            match self.enumeration() {
                Ok(k) => k,
                Err(e) => return Err(e),
            }
        } else if byte == 43 || byte == 45 || (48 <= byte && byte <= 57) {
            match self.number() {
                Ok(k) => k,
                Err(e) => return Err(e),
            }
        } else if byte == 33 {
            self.pos = self.pos + 1;
            match self.name(start, "'!'") {
                Ok(()) => TokenKind::UserKeyword,
                Err(e) => return Err(e),
            }
        } else if byte == 38 {
            self.pos = self.pos + 1;
            match self.name(start, "'&'") {
                Ok(()) => TokenKind::Keyword,
                Err(e) => return Err(e),
            }
        } else if byte == 64 {
            self.pos = self.pos + 1;
            if self.eat(Class::Name) == 0 {
                return Err(self.error(start, owned("expected a name after '@'")));
            }
            TokenKind::ValueName
        } else if byte == 60 {
            match self.resource() {
                Ok(k) => k,
                Err(e) => return Err(e),
            }
        } else if is_name_start_byte(byte) {
            self.pos = self.pos + 1;
            self.eat(Class::KeywordChar);
            TokenKind::Keyword
        } else {
            let mut message = owned("unexpected ");
            let what = describe(byte);
            message.append(what.as_str());
            return Err(self.error(start, message));
        };
        Ok(Some(Token { kind, span: Span { start, end: self.pos } }))
    }

    /// Skips blanks and comments; returns the position reached.
    fn skip_trivia(&mut self) -> (r: Result<usize>)
        requires
            old(self).wf(),
        ensures
            final(self).wf(),
            final(self).src == old(self).src,
            final(self).failed == old(self).failed,
            match trivia_end(old(self).src@, old(self).pos as int) {
                Ok(q) => r == Ok::<usize, Error>(q as usize) && final(self).pos == q,
                Err(o) => r matches Err(e) && e.is_syntax_at(old(self).src@, o),
            },
        decreases old(self).src@.len() - old(self).pos,
    {
        let ghost p0 = self.pos as int;
        self.eat(Class::Blank);
        let q = self.pos;
        if q + 1 < self.src.len() && self.src[q] == 47 && self.src[q + 1] == 42 {
            match find_close(self.src, q + 2) {
                Some(k) => {
                    self.pos = k + 2;
                    proof {
                        assert(k + 2 > p0);
                        assert(trivia_end(self.src@, p0) == trivia_end(self.src@, k + 2));
                    }
                    self.skip_trivia()
                },
                None => {
                    proof {
                        assert(trivia_end(self.src@, p0) == Err::<int, int>(q as int));
                    }
                    Err(self.error(q, owned("unterminated comment")))
                },
            }
        } else {
            proof {
                assert(trivia_end(self.src@, p0) == Ok::<int, int>(q as int));
            }
            Ok(q)
        }
    }

    fn punct(&mut self, kind: TokenKind) -> (k: TokenKind)
        requires
            old(self).pos < old(self).src@.len(),
            old(self).wf(),
        ensures
            final(self).wf(),
            final(self).src == old(self).src,
            final(self).failed == old(self).failed,
            final(self).pos == old(self).pos + 1,
            k == kind,
    {
        self.pos = self.pos + 1;
        kind
    }

    fn instance_name(&mut self) -> (r: Result<TokenKind>)
        requires
            old(self).wf(),
            old(self).pos < old(self).src@.len(),
            old(self).src@[old(self).pos as int] == 35,
        ensures
            final(self).wf(),
            final(self).src == old(self).src,
            final(self).failed == old(self).failed,
            match lexeme(old(self).src@, old(self).pos as int) {
                Ok((k, e)) => r == Ok::<TokenKind, Error>(k) && final(self).pos == e,
                Err(o) => r matches Err(err) && err.is_syntax_at(old(self).src@, o),
            },
    {
        let start = self.pos;
        self.pos = self.pos + 1;
        if self.eat(Class::Digit) > 0 {
            let src = self.src;
            let end = self.pos;
            proof {
                lemma_run_end(src@, start + 1, Class::Digit);
            }
            return match parse_u64(src, start + 1, end) {
                Some(v) => Ok(TokenKind::InstanceName(v)),
                None => Err(self.error(start, owned("instance name does not fit in 64 bits"))),
            };
        }
        match self.name(start, "'#'") {
            Ok(()) => Ok(TokenKind::ConstantName),
            Err(e) => Err(e),
        }
    }

    fn string(&mut self) -> (r: Result<TokenKind>)
        requires
            old(self).wf(),
            old(self).pos < old(self).src@.len(),
            old(self).src@[old(self).pos as int] == 39,
        ensures
            final(self).wf(),
            final(self).src == old(self).src,
            final(self).failed == old(self).failed,
            match lexeme(old(self).src@, old(self).pos as int) {
                Ok((k, e)) => r == Ok::<TokenKind, Error>(k) && final(self).pos == e,
                Err(o) => r matches Err(err) && err.is_syntax_at(old(self).src@, o),
            },
    {
        let start = self.pos;
        let mut pos = start + 1;
        loop
            invariant
                self.wf(),
                self.src == old(self).src,
                self.failed == old(self).failed,
                start == old(self).pos,
                start < pos <= self.src@.len(),
                self.src@[start as int] == 39,
                self.pos == start,
                string_end(self.src@, start + 1) == string_end(self.src@, pos as int),
            decreases self.src@.len() - pos,
        {
            match find_from(self.src, pos, 39) {
                None => {
                    proof {
                        assert(string_end(self.src@, pos as int) is None);
                        assert(lexeme(self.src@, start as int) == Err::<(TokenKind, int), int>(
                            start as int,
                        ));
                    }
                    return Err(self.error(start, owned("unterminated string literal")));
                },
                Some(q) => {
                    if q + 1 < self.src.len() && self.src[q + 1] == 39 {
                        pos = q + 2;
                    } else {
                        self.pos = q + 1;
                        proof {
                            assert(string_end(self.src@, pos as int) == Some((q + 1) as int));
                            assert(lexeme(self.src@, start as int) == Ok::<(TokenKind, int), int>(
                                (TokenKind::String, (q + 1) as int),
                            ));
                        }
                        return Ok(TokenKind::String);
                    }
                },
            }
        }
    }

    fn binary(&mut self) -> (r: Result<TokenKind>)
        requires
            old(self).wf(),
            old(self).pos < old(self).src@.len(),
            old(self).src@[old(self).pos as int] == 34,
        ensures
            final(self).wf(),
            final(self).src == old(self).src,
            final(self).failed == old(self).failed,
            match lexeme(old(self).src@, old(self).pos as int) {
                Ok((k, e)) => r == Ok::<TokenKind, Error>(k) && final(self).pos == e,
                Err(o) => r matches Err(err) && err.is_syntax_at(old(self).src@, o),
            },
    {
        let start = self.pos;
        self.pos = self.pos + 1;
        let digits = self.eat(Class::Hex);
        if self.pos >= self.src.len() || self.src[self.pos] != 34 {
            let at = self.pos;
            return Err(
                self.error(at, owned("expected a hexadecimal digit or '\"' in binary literal")),
            );
        }
        let first = self.src[start + 1];
        if digits == 0 || !(48 <= first && first <= 51) {
            return Err(
                self.error(
                    start,
                    owned(
                        "binary literal must start with a digit 0-3 giving the unused bit count",
                    ),
                ),
            );
        }
        self.pos = self.pos + 1;
        Ok(TokenKind::Binary)
    }

    fn enumeration(&mut self) -> (r: Result<TokenKind>)
        requires
            old(self).wf(),
            old(self).pos < old(self).src@.len(),
            old(self).src@[old(self).pos as int] == 46,
        ensures
            final(self).wf(),
            final(self).src == old(self).src,
            final(self).failed == old(self).failed,
            match lexeme(old(self).src@, old(self).pos as int) {
                Ok((k, e)) => r == Ok::<TokenKind, Error>(k) && final(self).pos == e,
                Err(o) => r matches Err(err) && err.is_syntax_at(old(self).src@, o),
            },
    {
        let start = self.pos;
        self.pos = self.pos + 1;
        match self.name(start, "'.'") {
            Ok(()) => {},
            Err(e) => return Err(e),
        }
        if self.pos >= self.src.len() || self.src[self.pos] != 46 {
            return Err(self.error(start, owned("unterminated enumeration value")));
        }
        self.pos = self.pos + 1;
        Ok(TokenKind::Enumeration)
    }

    fn number(&mut self) -> (r: Result<TokenKind>)
        requires
            old(self).wf(),
            old(self).pos < old(self).src@.len(),
            is_sign(old(self).src@[old(self).pos as int]) || is_digit(
                old(self).src@[old(self).pos as int],
            ),
        ensures
            final(self).wf(),
            final(self).src == old(self).src,
            final(self).failed == old(self).failed,
            match number_at(old(self).src@, old(self).pos as int) {
                Ok((k, e)) => r == Ok::<TokenKind, Error>(k) && final(self).pos == e,
                Err(o) => r matches Err(err) && err.is_syntax_at(old(self).src@, o),
            },
    {
        let start = self.pos;
        let b = self.src[start];
        if b == 43 || b == 45 {
            self.pos = self.pos + 1;
        }
        if self.eat(Class::Digit) == 0 {
            return Err(self.error(start, owned("expected a digit after the sign")));
        }
        let mut kind = TokenKind::Integer;
        if self.pos < self.src.len() && self.src[self.pos] == 46 {
            self.pos = self.pos + 1;
            self.eat(Class::Digit);
            kind = TokenKind::Real;
        }
        if self.pos < self.src.len() && (self.src[self.pos] == 69 || self.src[self.pos] == 101) {
            let exponent = self.pos;
            self.pos = self.pos + 1;
            if self.pos < self.src.len() && (self.src[self.pos] == 43 || self.src[self.pos]
                == 45) {
                self.pos = self.pos + 1;
            }
            if self.eat(Class::Digit) == 0 {
                return Err(self.error(exponent, owned("expected digits in exponent")));
            }
            kind = TokenKind::Real;
        }
        Ok(kind)
    }

    fn resource(&mut self) -> (r: Result<TokenKind>)
        requires
            old(self).wf(),
            old(self).pos < old(self).src@.len(),
            old(self).src@[old(self).pos as int] == 60,
        ensures
            final(self).wf(),
            final(self).src == old(self).src,
            final(self).failed == old(self).failed,
            match lexeme(old(self).src@, old(self).pos as int) {
                Ok((k, e)) => r == Ok::<TokenKind, Error>(k) && final(self).pos == e,
                Err(o) => r matches Err(err) && err.is_syntax_at(old(self).src@, o),
            },
    {
        let start = self.pos;
        proof {
            lemma_find_byte(self.src@, start + 1, 62);
        }
        match find_from(self.src, start + 1, 62) {
            Some(k) => {
                self.pos = k + 1;
                Ok(TokenKind::Resource)
            },
            None => Err(self.error(start, owned("unterminated resource reference"))),
        }
    }

    /// Consumes a name that must follow the prefix already consumed at
    /// `start`.
    fn name(&mut self, start: usize, prefix: &str) -> (r: Result<()>)
        requires
            old(self).wf(),
            start <= old(self).pos,
        ensures
            final(self).wf(),
            final(self).src == old(self).src,
            final(self).failed == old(self).failed,
            match name_at(old(self).src@, old(self).pos as int) {
                Some(e) => r is Ok && final(self).pos == e,
                None => r matches Err(err) && err.is_syntax_at(old(self).src@, start as int),
            },
    {
        if self.pos >= self.src.len() || !is_name_start_byte(self.src[self.pos]) {
            let mut message = owned("expected a name after ");
            message.append(prefix);
            return Err(self.error(start, message));
        }
        self.pos = self.pos + 1;
        self.eat(Class::Name);
        Ok(())
    }

    /// Consumes the run of class `c` bytes at the position; returns its
    /// length.
    fn eat(&mut self, c: Class) -> (n: usize)
        requires
            old(self).wf(),
        ensures
            final(self).wf(),
            final(self).src == old(self).src,
            final(self).failed == old(self).failed,
            final(self).pos == run_end(old(self).src@, old(self).pos as int, c),
            n == final(self).pos - old(self).pos,
    {
        let start = self.pos;
        while self.pos < self.src.len() && in_class_byte(c, self.src[self.pos])
            invariant
                self.wf(),
                self.src == old(self).src,
                self.failed == old(self).failed,
                start == old(self).pos,
                start <= self.pos,
                run_end(self.src@, start as int, c) == run_end(self.src@, self.pos as int, c),
            decreases self.src@.len() - self.pos,
        {
            self.pos = self.pos + 1;
        }
        self.pos - start
    }

    fn error(&self, offset: usize, message: String) -> (e: Error)
        requires
            self.wf(),
        ensures
            e.is_syntax_at(self.src@, offset as int),
            e.syntax_message() == message@,
    {
        Error::syntax(self.src, offset, message)
    }

    /// The next token, `None` at the end of input, or the error that ends
    /// the iteration; after an error, always `None`.
    pub fn next(&mut self) -> (r: Option<Result<Token>>)
        requires
            old(self).wf(),
        ensures
            final(self).wf(),
            final(self).input() == old(self).input(),
            old(self).has_failed() ==> r is None && *final(self) == *old(self),
            !old(self).has_failed() ==> match next_at(old(self).input(), old(self).position()) {
                Ok(None) => r is None && !final(self).has_failed(),
                Ok(Some(t)) => r == Some(Ok::<Token, Error>(t)) && final(self).position()
                    == t.span.end && !final(self).has_failed(),
                Err(o) => r matches Some(Err(e)) && e.is_syntax_at(old(self).input(), o)
                    && final(self).has_failed(),
            },
    {
        if self.failed {
            return None;
        }
        match self.next_token() {
            Ok(None) => None,
            Ok(Some(t)) => Some(Ok(t)),
            Err(e) => {
                self.failed = true;
                Some(Err(e))
            },
        }
    }
}

/// Exec form of [`is_name_start`].
pub fn is_name_start_byte(b: u8) -> (r: bool)
    ensures
        r == is_name_start(b),
{
    (65 <= b && b <= 90) || (97 <= b && b <= 122) || b == 95
}

/// Exec form of [`in_class`].
pub fn in_class_byte(c: Class, b: u8) -> (r: bool)
    ensures
        r == in_class(c, b),
{
    let digit = 48 <= b && b <= 57;
    let alpha = (65 <= b && b <= 90) || (97 <= b && b <= 122);
    match c {
        Class::Digit => digit,
        Class::Hex => digit || (65 <= b && b <= 70) || (97 <= b && b <= 102),
        Class::Name => alpha || digit || b == 95,
        Class::KeywordChar => alpha || digit || b == 95 || b == 45,
        Class::Blank => b <= 32,
    }
}

/// The first position at or after `p` holding `b`.
pub fn find_from(src: &[u8], p: usize, b: u8) -> (r: Option<usize>)
    requires
        p <= src@.len(),
    ensures
        r matches Some(k) ==> find_byte(src@, p as int, b) == Some(k as int),
        r is None ==> find_byte(src@, p as int, b) is None,
        r matches Some(k) ==> p <= k < src@.len(),
{
    let mut i = p;
    while i < src.len()
        invariant
            p <= i <= src@.len(),
            find_byte(src@, p as int, b) == find_byte(src@, i as int, b),
        decreases src@.len() - i,
    {
        if src[i] == b {
            return Some(i);
        }
        i += 1;
    }
    None
}

/// The first position at or after `p` where `*/` starts.
fn find_close(src: &[u8], p: usize) -> (r: Option<usize>)
    requires
        p <= src@.len(),
        src@.len() < usize::MAX,
    ensures
        r matches Some(k) ==> find_comment_close(src@, p as int) == Some(k as int),
        r is None ==> find_comment_close(src@, p as int) is None,
        r matches Some(k) ==> p <= k && k + 1 < src@.len(),
{
    let mut i = p;
    while i + 1 < src.len()
        invariant
            p <= i <= src@.len(),
            src@.len() < usize::MAX,
            find_comment_close(src@, p as int) == find_comment_close(src@, i as int),
        decreases src@.len() - i,
    {
        if src[i] == 42 && src[i + 1] == 47 {
            return Some(i);
        }
        i += 1;
    }
    None
}

/// The value of the decimal digits `src[start..end]`, or `None` if it
/// does not fit in 64 bits.
fn parse_u64(src: &[u8], start: usize, end: usize) -> (r: Option<u64>)
    requires
        start <= end <= src@.len(),
        forall|k: int| start <= k < end ==> is_digit(#[trigger] src@[k]),
    ensures
        match r {
            Some(v) => v == digits_value(src@.subrange(start as int, end as int)),
            None => digits_value(src@.subrange(start as int, end as int)) > u64::MAX,
        },
{
    let ghost d = src@.subrange(start as int, end as int);
    let mut acc: u64 = 0;
    let mut i = start;
    proof {
        assert(d.take(0) =~= Seq::<u8>::empty());
    }
    while i < end
        invariant
            start <= i <= end <= src@.len(),
            d == src@.subrange(start as int, end as int),
            forall|k: int| 0 <= k < d.len() ==> is_digit(#[trigger] d[k]),
            acc == digits_value(d.take(i - start)),
        decreases end - i,
    {
        proof {
            assert(d.take(i - start + 1).drop_last() =~= d.take(i - start));
            assert(d[i - start] == src@[i as int]);
        }
        let digit = (src[i] - 48) as u64;
        match acc.checked_mul(10) {
            None => {
                proof {
                    lemma_digits_value_monotone(d, i - start + 1, d.len() as int);
                    assert(d.take(d.len() as int) =~= d);
                }
                return None;
            },
            Some(m) => match m.checked_add(digit) {
                None => {
                    proof {
                        lemma_digits_value_monotone(d, i - start + 1, d.len() as int);
                        assert(d.take(d.len() as int) =~= d);
                    }
                    return None;
                },
                Some(v) => {
                    acc = v;
                },
            },
        }
        i += 1;
    }
    proof {
        assert(d.take(end - start) =~= d);
    }
    Some(acc)
}

/// Describes a byte for an error message: "character 'c'" for printable
/// ASCII, "byte 0xHH" otherwise.
fn describe(byte: u8) -> String {
    if 33 <= byte && byte <= 126 {
        let mut s = owned("character '");
        push_char(&mut s, latin1(byte));
        push_char(&mut s, '\'');
        s
    } else {
        let mut s = owned("byte 0x");
        push_char(&mut s, hex_digit(byte / 16));
        push_char(&mut s, hex_digit(byte % 16));
        s
    }
}

/// The upper-case hexadecimal digit for `d`.
fn hex_digit(d: u8) -> (c: char)
    requires
        d < 16,
    ensures
        d < 10 ==> c as u32 == 48 + d,
        d >= 10 ==> c as u32 == 55 + d,
{
    if d < 10 {
        latin1(48 + d)
    } else {
        latin1(55 + d)
    }
}

} // verus!
