//! Tokeniser for EXPRESS source.
use vstd::prelude::*;
use crate::error::{Error, Result};
use crate::p21::lexer::{find_byte, find_from, lemma_find_byte};
use crate::text::owned;

verus! {

/// The kind of an EXPRESS token.
#[derive(Debug, Clone, Copy, PartialEq, Eq, Structural)]
pub enum Kind {
    Ident,
    Integer,
    Real,
    String,
    Symbol,
}

/// An EXPRESS token: its kind and where it is in the source.
#[derive(Debug, Clone, Copy, PartialEq, Eq, Structural)]
pub struct Tok {
    pub kind: Kind,
    pub start: usize,
    pub end: usize,
}

/// ASCII whitespace: space, tab, line feed, form feed, carriage return.
pub open spec fn is_space(b: u8) -> bool {
    b == 32 || b == 9 || b == 10 || b == 12 || b == 13
}

pub open spec fn is_digit(b: u8) -> bool {
    48 <= b <= 57
}

pub open spec fn is_letter(b: u8) -> bool {
    (65 <= b <= 90) || (97 <= b <= 122)
}

/// A byte that may continue an identifier.
pub open spec fn is_word(b: u8) -> bool {
    is_letter(b) || is_digit(b) || b == 95
}

/// The end of the run of digits starting at `i`.
pub open spec fn digits_end(s: Seq<u8>, i: int) -> int
    decreases s.len() - i,
{
    if 0 <= i < s.len() && is_digit(s[i]) {
        digits_end(s, i + 1)
    } else {
        i
    }
}

/// The end of the run of identifier bytes starting at `i`.
pub open spec fn word_end(s: Seq<u8>, i: int) -> int
    decreases s.len() - i,
{
    if 0 <= i < s.len() && is_word(s[i]) {
        word_end(s, i + 1)
    } else {
        i
    }
}

/// The end of a quoted string whose body starts at `i`, where `''` stands
/// for a quote; `None` if it is not closed.
pub open spec fn quoted_end(s: Seq<u8>, i: int) -> Option<int>
    decreases s.len() - i,
{
    if i < 0 || i >= s.len() {
        None
    } else {
        match find_byte(s, i, 39) {
            None => None,
            Some(q) => if q + 1 < s.len() && s[q + 1] == 39 {
                proof {
                    lemma_find_byte(s, i, 39);
                }
                quoted_end(s, q + 2)
            } else {
                Some(q + 1)
            },
        }
    }
}

/// Where a remark ends, scanning from `i` with `depth` remarks open;
/// `None` if it is not closed.
pub open spec fn remark_end(s: Seq<u8>, i: int, depth: nat) -> Option<int>
    decreases s.len() - i,
{
    if i < 0 || i + 1 >= s.len() {
        None
    } else if s[i] == 40 && s[i + 1] == 42 {
        remark_end(s, i + 2, depth + 1)
    } else if s[i] == 42 && s[i + 1] == 41 {
        if depth <= 1 {
            Some(i + 2)
        } else {
            remark_end(s, i + 2, (depth - 1) as nat)
        }
    } else {
        remark_end(s, i + 1, depth)
    }
}

/// The end of a number starting at `i`, and whether it is a real.
pub open spec fn number_end(s: Seq<u8>, i: int) -> (Kind, int) {
    let d = digits_end(s, i);
    if d < s.len() && s[d] == 46 && d + 1 < s.len() && (is_digit(s[d + 1]) || s[d + 1] == 101 || s[d
        + 1] == 69) {
        let f = digits_end(s, d + 1);
        if f < s.len() && (s[f] == 101 || s[f] == 69) {
            let g = if f + 1 < s.len() && (s[f + 1] == 43 || s[f + 1] == 45) {
                f + 2
            } else {
                f + 1
            };
            (Kind::Real, digits_end(s, g))
        } else {
            (Kind::Real, f)
        }
    } else {
        (Kind::Integer, d)
    }
}

/// The token starting at `i`, which is not whitespace or a remark: its kind
/// and end, or the offset of the error.
pub open spec fn token_at(s: Seq<u8>, i: int) -> core::result::Result<(Kind, int), int> {
    let b = s[i];
    if b == 39 {
        match quoted_end(s, i + 1) {
            Some(e) => Ok((Kind::String, e)),
            None => Err(i),
        }
    } else if b == 34 {
        match find_byte(s, i + 1, 34) {
            Some(q) => Ok((Kind::String, q + 1)),
            None => Err(i),
        }
    } else if is_digit(b) {
        Ok(number_end(s, i))
    } else if is_letter(b) || b == 95 {
        Ok((Kind::Ident, word_end(s, i + 1)))
    } else {
        Ok((Kind::Symbol, i + 1))
    }
}

/// The tokens of `s` from `i` on, or the offset of the first error.
pub open spec fn tokens_from(s: Seq<u8>, i: int) -> core::result::Result<Seq<Tok>, int>
    decreases s.len() - i,
{
    if i < 0 || i >= s.len() {
        Ok(Seq::empty())
    } else if is_space(s[i]) {
        tokens_from(s, i + 1)
    } else if s[i] == 40 && i + 1 < s.len() && s[i + 1] == 42 {
        match remark_end(s, i + 2, 1) {
            Some(e) => if i < e <= s.len() {
                tokens_from(s, e)
            } else {
                Err(i)
            },
            None => Err(i),
        }
    } else if s[i] == 45 && i + 1 < s.len() && s[i + 1] == 45 {
        match find_byte(s, i, 10) {
            Some(e) => if i < e <= s.len() {
                tokens_from(s, e)
            } else {
                Ok(Seq::empty())
            },
            None => Ok(Seq::empty()),
        }
    } else {
        match token_at(s, i) {
            Err(o) => Err(o),
            Ok((kind, e)) => if e > i && e <= s.len() {
                match tokens_from(s, e) {
                    Ok(rest) => Ok(seq![Tok { kind, start: i as usize, end: e as usize }] + rest),
                    Err(o) => Err(o),
                }
            } else {
                Err(i)
            },
        }
    }
}

proof fn lemma_digits_end(s: Seq<u8>, i: int)
    requires
        0 <= i,
    ensures
        i <= digits_end(s, i),
        i <= s.len() ==> digits_end(s, i) <= s.len(),
    decreases s.len() - i,
{
    if 0 <= i < s.len() && is_digit(s[i]) {
        lemma_digits_end(s, i + 1);
    }
}

proof fn lemma_word_end(s: Seq<u8>, i: int)
    requires
        0 <= i,
    ensures
        i <= word_end(s, i),
        i <= s.len() ==> word_end(s, i) <= s.len(),
    decreases s.len() - i,
{
    if 0 <= i < s.len() && is_word(s[i]) {
        lemma_word_end(s, i + 1);
    }
}

proof fn lemma_quoted_end(s: Seq<u8>, i: int)
    requires
        0 <= i,
    ensures
        quoted_end(s, i) matches Some(e) ==> i < e <= s.len(),
    decreases s.len() - i,
{
    if 0 <= i < s.len() {
        lemma_find_byte(s, i, 39);
        if let Some(q) = find_byte(s, i, 39) {
            if q + 1 < s.len() && s[q + 1] == 39 {
                lemma_quoted_end(s, q + 2);
            }
        }
    }
}

proof fn lemma_remark_end(s: Seq<u8>, i: int, depth: nat)
    requires
        0 <= i,
    ensures
        remark_end(s, i, depth) matches Some(e) ==> i < e <= s.len(),
    decreases s.len() - i,
{
    if 0 <= i && i + 1 < s.len() {
        if s[i] == 40 && s[i + 1] == 42 {
            lemma_remark_end(s, i + 2, depth + 1);
        } else if s[i] == 42 && s[i + 1] == 41 {
            if depth > 1 {
                lemma_remark_end(s, i + 2, (depth - 1) as nat);
            }
        } else {
            lemma_remark_end(s, i + 1, depth);
        }
    }
}

pub proof fn lemma_token_at(s: Seq<u8>, i: int)
    requires
        0 <= i < s.len(),
    ensures
        token_at(s, i) matches Ok((k, e)) ==> i < e <= s.len(),
        token_at(s, i) matches Err(o) ==> o == i,
{
    lemma_quoted_end(s, i + 1);
    lemma_find_byte(s, i + 1, 34);
    lemma_word_end(s, i + 1);
    lemma_digits_end(s, i);
    let d = digits_end(s, i);
    lemma_digits_end(s, d + 1);
    let f = digits_end(s, d + 1);
    lemma_digits_end(s, f + 1);
    lemma_digits_end(s, f + 2);
}

/// The end of the run of digits starting at `i`.
fn digits(src: &[u8], i: usize) -> (e: usize)
    requires
        i <= src@.len(),
    ensures
        e == digits_end(src@, i as int),
        i <= e <= src@.len(),
{
    let mut j = i;
    while j < src.len() && 48 <= src[j] && src[j] <= 57
        invariant
            i <= j <= src@.len(),
            digits_end(src@, i as int) == digits_end(src@, j as int),
        decreases src@.len() - j,
    {
        j = j + 1;
    }
    j
}

/// The end of a string literal starting at `start`.
fn end_of_string(src: &[u8], start: usize) -> (r: Result<usize>)
    requires
        start < src@.len() < usize::MAX,
    ensures
        match quoted_end(src@, start + 1) {
            Some(e) => r == Ok::<usize, Error>(e as usize),
            None => r matches Err(err) && err.is_syntax_at(src@, start as int),
        },
{
    let mut i = start + 1;
    loop
        invariant
            start < i <= src@.len() + 1,
            src@.len() < usize::MAX,
            quoted_end(src@, start + 1) == quoted_end(src@, i as int) || (i <= src@.len()
                && quoted_end(src@, start + 1) == quoted_end(src@, i as int)),
        decreases src@.len() + 1 - i,
    {
        if i >= src.len() {
            return Err(Error::syntax(src, start, owned("unterminated string")));
        }
        proof {
            lemma_find_byte(src@, i as int, 39);
        }
        match find_from(src, i, 39) {
            None => return Err(Error::syntax(src, start, owned("unterminated string"))),
            Some(q) => {
                if q + 1 < src.len() && src[q + 1] == 39 {
                    i = q + 2;
                } else {
                    return Ok(q + 1);
                }
            },
        }
    }
}

/// The end of a remark starting at `start`, where `(*` stands.
fn skip_remark(src: &[u8], start: usize) -> (r: Result<usize>)
    requires
        start + 1 < src@.len() < usize::MAX,
        src@[start as int] == 40,
        src@[start + 1] == 42,
    ensures
        match remark_end(src@, start + 2, 1) {
            Some(e) => r == Ok::<usize, Error>(e as usize),
            None => r matches Err(err) && err.is_syntax_at(src@, start as int),
        },
{
    let mut depth: usize = 1;
    let mut i = start + 2;
    while i + 1 < src.len()
        invariant
            start + 2 <= i <= src@.len(),
            src@.len() < usize::MAX,
            1 <= depth <= i,
            remark_end(src@, start + 2, 1) == remark_end(src@, i as int, depth as nat),
        decreases src@.len() - i,
    {
        if src[i] == 40 && src[i + 1] == 42 {
            depth = depth + 1;
            i = i + 2;
        } else if src[i] == 42 && src[i + 1] == 41 {
            if depth <= 1 {
                return Ok(i + 2);
            }
            depth = depth - 1;
            i = i + 2;
        } else {
            i = i + 1;
        }
    }
    Err(Error::syntax(src, start, owned("unterminated remark")))
}

/// The token starting at `start`, which is not whitespace or a remark.
fn token(src: &[u8], start: usize) -> (r: Result<(Kind, usize)>)
    requires
        start < src@.len() < usize::MAX,
    ensures
        match token_at(src@, start as int) {
            Ok((k, e)) => r == Ok::<(Kind, usize), Error>((k, e as usize)),
            Err(o) => r matches Err(err) && err.is_syntax_at(src@, o),
        },
{
    proof {
        lemma_token_at(src@, start as int);
    }
    let byte = src[start];
    if byte == 39 {
        proof {
            lemma_quoted_end(src@, start + 1);
        }
        match end_of_string(src, start) {
            Ok(e) => Ok((Kind::String, e)),
            Err(e) => Err(e),
        }
    } else if byte == 34 {
        proof {
            lemma_find_byte(src@, start + 1, 34);
        }
        match find_from(src, start + 1, 34) {
            Some(q) => Ok((Kind::String, q + 1)),
            None => Err(Error::syntax(src, start, owned("unterminated encoded string"))),
        }
    } else if 48 <= byte && byte <= 57 {
        let mut i = digits(src, start);
        let kind;
        if i + 1 < src.len() && src[i] == 46 && ((48 <= src[i + 1] && src[i + 1] <= 57) || src[i + 1]
            == 101 || src[i + 1] == 69) {
            i = digits(src, i + 1);
            if i < src.len() && (src[i] == 101 || src[i] == 69) {
                i = i + 1;
                if i < src.len() && (src[i] == 43 || src[i] == 45) {
                    i = i + 1;
                }
                i = digits(src, i);
            }
            kind = Kind::Real;
        } else {
            kind = Kind::Integer;
        }
        Ok((kind, i))
    } else if (65 <= byte && byte <= 90) || (97 <= byte && byte <= 122) || byte == 95 {
        let mut i = start + 1;
        while i < src.len() && ((65 <= src[i] && src[i] <= 90) || (97 <= src[i] && src[i] <= 122) || (48
            <= src[i] && src[i] <= 57) || src[i] == 95)
            invariant
                start < i <= src@.len(),
                word_end(src@, start + 1) == word_end(src@, i as int),
            decreases src@.len() - i,
        {
            i = i + 1;
        }
        Ok((Kind::Ident, i))
    } else {
        Ok((Kind::Symbol, start + 1))
    }
}

/// One step of tokenising from `i`: whitespace or a remark skipped, or a
/// token read; and where to go on.
fn step(src: &[u8], i: usize) -> (r: Result<(Option<Tok>, usize)>)
    requires
        i < src@.len() < usize::MAX,
    ensures
        match r {
            Ok((None, j)) => i < j <= src@.len() && tokens_from(src@, i as int) == tokens_from(
                src@,
                j as int,
            ),
            Ok((Some(t), j)) => i < j <= src@.len() && t.start == i && t.end == j && tokens_from(
                src@,
                i as int,
            ) == match tokens_from(src@, j as int) {
                Ok(rest) => Ok::<Seq<Tok>, int>(seq![t] + rest),
                Err(o) => Err(o),
            },
            Err(e) => tokens_from(src@, i as int) matches Err(o) && e.is_syntax_at(src@, o),
        },
{
    let byte = src[i];
    if byte == 32 || byte == 9 || byte == 10 || byte == 12 || byte == 13 {
        Ok((None, i + 1))
    } else if byte == 40 && i + 1 < src.len() && src[i + 1] == 42 {
        proof {
            lemma_remark_end(src@, i + 2, 1);
        }
        match skip_remark(src, i) {
            Ok(e) => Ok((None, e)),
            Err(e) => Err(e),
        }
    } else if byte == 45 && i + 1 < src.len() && src[i + 1] == 45 {
        proof {
            lemma_find_byte(src@, i as int, 10);
        }
        match find_from(src, i, 10) {
            Some(n) => Ok((None, n)),
            None => Ok((None, src.len())),
        }
    } else {
        proof {
            lemma_token_at(src@, i as int);
        }
        match token(src, i) {
            Ok((kind, e)) => Ok((Some(Tok { kind, start: i, end: e }), e)),
            Err(e) => Err(e),
        }
    }
}

/// Splits EXPRESS source into tokens, dropping whitespace, embedded
/// remarks `(* ... *)` (which may nest) and tail remarks `-- ...`.
/// Operators come back one character at a time: the parser only ever
/// skips expressions, so it never needs to interpret them.
pub fn tokenize(src: &[u8]) -> (r: Result<Vec<Tok>>)
    requires
        src@.len() < usize::MAX,
    ensures
        match tokens_from(src@, 0) {
            Ok(ts) => r matches Ok(v) && v@ == ts,
            Err(o) => r matches Err(e) && e.is_syntax_at(src@, o),
        },
{
    let mut tokens: Vec<Tok> = Vec::new();
    let mut i: usize = 0;
    while i < src.len()
        invariant
            i <= src@.len() < usize::MAX,
            tokens_from(src@, 0) == match tokens_from(src@, i as int) {
                Ok(rest) => Ok::<Seq<Tok>, int>(tokens@ + rest),
                Err(o) => Err(o),
            },
        decreases src@.len() - i,
    {
        match step(src, i) {
            Ok((None, j)) => {
                i = j;
            },
            Ok((Some(t), j)) => {
                let ghost before = tokens@;
                tokens.push(t);
                proof {
                    if let Ok(rest) = tokens_from(src@, j as int) {
                        assert(before + (seq![t] + rest) =~= tokens@ + rest);
                    }
                }
                i = j;
            },
            Err(e) => return Err(e),
        }
    }
    proof {
        assert(tokens@ + Seq::<Tok>::empty() =~= tokens@);
    }
    Ok(tokens)
}

} // verus!
