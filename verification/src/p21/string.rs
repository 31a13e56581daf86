//! Decoding of Part 21 string literals into Unicode text.
use vstd::prelude::*;
use vstd::string::*;
use vstd::utf8::{decode_utf8, valid_utf8, is_scalar};
use crate::error::{Error, Result};
use crate::text::{char_from_u32, latin1, owned, push_char, push_decimal, str_from_utf8};
use super::lexer::{slice_range, Span};

verus! {

// ---------------------------------------------------------------------
// The decoding rules.
// ---------------------------------------------------------------------

/// Bytes that end a run of plain text: `\`, `'`, carriage return and line
/// feed.
pub open spec fn is_special(b: u8) -> bool {
    b == 92 || b == 39 || b == 13 || b == 10
}

/// The end of the run of plain text starting at `i`.
pub open spec fn run_stop(raw: Seq<u8>, i: int) -> int
    decreases raw.len() - i,
{
    if i < 0 || i >= raw.len() || is_special(raw[i]) {
        i
    } else {
        run_stop(raw, i + 1)
    }
}

/// The text of a run of plain bytes: UTF-8 where the bytes are valid
/// UTF-8, ISO 8859-1 otherwise.
pub open spec fn bytes_text(bytes: Seq<u8>) -> Seq<char> {
    if valid_utf8(bytes) {
        decode_utf8(bytes)
    } else {
        Seq::new(bytes.len(), |k: int| bytes[k] as char)
    }
}

/// The value of one hexadecimal digit, either case.
pub open spec fn hex_digit_value(b: u8) -> Option<nat> {
    if 48 <= b <= 57 {
        Some((b - 48) as nat)
    } else if 65 <= b <= 70 {
        Some((b - 55) as nat)
    } else if 97 <= b <= 102 {
        Some((b - 87) as nat)
    } else {
        None
    }
}

/// The value of a run of hexadecimal digits, `None` if one is not a digit.
pub open spec fn hex_value(d: Seq<u8>) -> Option<nat>
    decreases d.len(),
{
    if d.len() == 0 {
        Some(0)
    } else {
        match (hex_value(d.drop_last()), hex_digit_value(d.last())) {
            (Some(v), Some(x)) => Some(v * 16 + x),
            _ => None,
        }
    }
}

/// True if `raw[i..]` starts with `\X0\`.
pub open spec fn at_end_marker(raw: Seq<u8>, i: int) -> bool {
    0 <= i && i + 4 <= raw.len() && raw[i] == 92 && raw[i + 1] == 88 && raw[i + 2] == 48 && raw[i
        + 3] == 92
}

/// The codes of an extended directive, read from `pos` up to its `\X0\`:
/// the codes and the position of the `\X0\`, or the position of a group
/// that is not `width` hexadecimal digits.
pub open spec fn codes_at(raw: Seq<u8>, pos: int, width: int) -> core::result::Result<
    (Seq<nat>, int),
    int,
>
    decreases raw.len() - pos,
{
    if pos < 0 || width <= 0 {
        Err(pos)
    } else if at_end_marker(raw, pos) {
        Ok((Seq::empty(), pos))
    } else if pos + width > raw.len() {
        Err(pos)
    } else {
        match hex_value(raw.subrange(pos, pos + width)) {
            None => Err(pos),
            Some(c) => match codes_at(raw, pos + width, width) {
                Ok((cs, e)) => Ok((seq![c] + cs, e)),
                Err(o) => Err(o),
            },
        }
    }
}

/// UTF-16 code units as text; `None` for an unpaired surrogate.
pub open spec fn utf16_text(units: Seq<nat>) -> Option<Seq<char>>
    decreases units.len(),
{
    if units.len() == 0 {
        Some(Seq::empty())
    } else {
        let u = units[0];
        if u < 0xD800 || (0xDFFF < u && u <= 0xFFFF) {
            match utf16_text(units.drop_first()) {
                Some(t) => Some(seq![u as char] + t),
                None => None,
            }
        } else if 0xD800 <= u <= 0xDBFF && units.len() >= 2 && 0xDC00 <= units[1] <= 0xDFFF {
            let v = 0x10000 + (u - 0xD800) * 0x400 + (units[1] - 0xDC00);
            match utf16_text(units.subrange(2, units.len() as int)) {
                Some(t) => Some(seq![v as char] + t),
                None => None,
            }
        } else {
            None
        }
    }
}

/// Unicode code points as text; `None` if one is not a scalar value.
pub open spec fn scalars_text(codes: Seq<nat>) -> Option<Seq<char>>
    decreases codes.len(),
{
    if codes.len() == 0 {
        Some(Seq::empty())
    } else if codes[0] <= u32::MAX && is_scalar(codes[0] as u32) {
        match scalars_text(codes.drop_first()) {
            Some(t) => Some(seq![codes[0] as char] + t),
            None => None,
        }
    } else {
        None
    }
}

/// What the directive whose backslash is at `i` decodes to: its text, the
/// position after it and the code page in force after it; or the offset of
/// the error.
pub open spec fn directive(raw: Seq<u8>, i: int, page: u8) -> core::result::Result<
    (Seq<char>, int, u8),
    int,
> {
    let n = raw.len();
    let at = |k: int| if 0 <= i + k < n { raw[i + k] as int } else { -1 };
    if at(1) == 92 {
        Ok((seq!['\\'], i + 2, page))
    } else if at(1) == 78 && at(2) == 92 {
        Ok((seq!['\n'], i + 3, page))
    } else if at(1) == 84 && at(2) == 92 {
        Ok((seq!['\t'], i + 3, page))
    } else if at(1) == 83 && at(2) == 92 && i + 3 < n {
        if page != 65 {
            Err(i)
        } else if !(32 <= raw[i + 3] <= 126) {
            Err(i)
        } else {
            Ok((seq![(raw[i + 3] + 0x80) as char], i + 4, page))
        }
    } else if at(1) == 80 && 65 <= at(2) <= 73 && at(3) == 92 {
        Ok((Seq::empty(), i + 4, raw[i + 2]))
    } else if at(1) == 88 && at(2) == 92 && i + 4 < n {
        match hex_value(raw.subrange(i + 3, i + 5)) {
            Some(v) => Ok((seq![v as char], i + 5, page)),
            None => Err(i),
        }
    } else if at(1) == 88 && (at(2) == 50 || at(2) == 52) && at(3) == 92 {
        let width = if at(2) == 50 { 4int } else { 8int };
        match codes_at(raw, i + 4, width) {
            Err(o) => Err(o),
            Ok((codes, e)) => match if width == 4 {
                utf16_text(codes)
            } else {
                scalars_text(codes)
            } {
                Some(t) => Ok((t, e + 4, page)),
                None => Err(i),
            },
        }
    } else {
        Ok((seq!['\\'], i + 1, page))
    }
}

/// The text of `raw[i..]` decoded with code page `page` in force, or the
/// offset of the first error.
pub open spec fn decode_from(raw: Seq<u8>, i: int, page: u8) -> core::result::Result<
    Seq<char>,
    int,
>
    decreases raw.len() - i,
{
    if i < 0 || i >= raw.len() {
        Ok(Seq::empty())
    } else {
        let b = raw[i];
        if b == 13 || b == 10 {
            decode_from(raw, i + 1, page)
        } else if b == 39 {
            if i + 1 < raw.len() && raw[i + 1] == 39 {
                prepend(seq!['\''], decode_from(raw, i + 2, page))
            } else {
                Err(i)
            }
        } else if b == 92 {
            match directive(raw, i, page) {
                Err(o) => Err(o),
                Ok((t, next, p)) => if i < next <= raw.len() {
                    prepend(t, decode_from(raw, next, p))
                } else {
                    Err(i)
                },
            }
        } else {
            let e = run_stop(raw, i);
            if i < e <= raw.len() {
                prepend(bytes_text(raw.subrange(i, e)), decode_from(raw, e, page))
            } else {
                Err(i)
            }
        }
    }
}

/// `t` followed by the text of `r`, if `r` is text.
pub open spec fn prepend(t: Seq<char>, r: core::result::Result<Seq<char>, int>) -> core::result::Result<
    Seq<char>,
    int,
> {
    match r {
        Ok(rest) => Ok(t + rest),
        Err(o) => Err(o),
    }
}

/// True if `span` of `src` covers a string literal: in bounds, at least
/// two bytes, and an apostrophe at each end.
pub open spec fn is_literal(src: Seq<u8>, span: Span) -> bool {
    &&& span.start <= span.end <= src.len()
    &&& span.end - span.start >= 2
    &&& src[span.start as int] == 39
    &&& src[span.end - 1] == 39
}

/// The bytes between the quotes of the literal at `span`.
pub open spec fn literal_body(src: Seq<u8>, span: Span) -> Seq<u8> {
    src.subrange(span.start + 1, span.end - 1)
}

/// What decoding the literal at `span` gives: its text, or the offset of
/// the error in `src`.
pub open spec fn decoded(src: Seq<u8>, span: Span) -> core::result::Result<Seq<char>, int> {
    if !is_literal(src, span) {
        Err(span.start as int)
    } else {
        match decode_from(literal_body(src, span), 0, 65) {
            Ok(t) => Ok(t),
            Err(o) => Err(span.start + 1 + o),
        }
    }
}

// ---------------------------------------------------------------------
// Facts.
// ---------------------------------------------------------------------

proof fn lemma_run_stop(raw: Seq<u8>, i: int)
    requires
        0 <= i <= raw.len(),
    ensures
        i <= run_stop(raw, i) <= raw.len(),
        forall|k: int| i <= k < run_stop(raw, i) ==> !is_special(#[trigger] raw[k]),
        run_stop(raw, i) < raw.len() ==> is_special(raw[run_stop(raw, i)]),
    decreases raw.len() - i,
{
    if i < raw.len() && !is_special(raw[i]) {
        lemma_run_stop(raw, i + 1);
    }
}

proof fn lemma_codes_at(raw: Seq<u8>, pos: int, width: int)
    requires
        0 <= pos,
        width > 0,
    ensures
        codes_at(raw, pos, width) matches Ok((cs, e)) ==> pos <= e && at_end_marker(raw, e),
        codes_at(raw, pos, width) matches Err(o) ==> pos <= o,
    decreases raw.len() - pos,
{
    if !at_end_marker(raw, pos) && pos + width <= raw.len() {
        lemma_codes_at(raw, pos + width, width);
    }
}

// ---------------------------------------------------------------------
// Exec.
// ---------------------------------------------------------------------

/// Decodes the string literal covering `span` in `src`.
///
/// `span` must be the span of a string token, quotes included. The literal
/// is decoded as follows:
///
/// * `''` is an apostrophe and `\\` is a backslash.
/// * `\X\hh` is the ISO 8859-1 character with hexadecimal code `hh`.
/// * `\X2\hhhh…\X0\` is a run of UTF-16 code units, and
///   `\X4\hhhhhhhh…\X0\` a run of Unicode code points.
/// * `\S\c` is the character `c` with its high bit set, in the code page
///   chosen by the last `\PA\` … `\PI\` directive (ISO 8859-1 by default).
///   Only ISO 8859-1 is supported; `\S\` after selecting another page is an
///   error rather than a silently wrong character.
/// * `\N\` and `\T\` are a line feed and a tab.
/// * Line breaks in the file are not part of the value and are removed.
/// * A backslash that does not start one of these directives is kept
///   literally.
/// * Bytes above `0x7F` are read as UTF-8 where they form valid UTF-8, and
///   as ISO 8859-1 otherwise.
///
/// # Errors
///
/// Returns [`Error::Syntax`] if `span` does not cover a string literal, or
/// if a directive inside it is malformed.
pub fn decode_string(src: &[u8], span: Span) -> (r: Result<String>)
    requires
        src@.len() < usize::MAX,
    ensures
        match decoded(src@, span) {
            Ok(t) => r matches Ok(s) && s@ == t,
            Err(o) => r matches Err(e) && e.is_syntax_at(src@, o),
        },
{
    if !(span.start <= span.end && span.end <= src.len() && span.end - span.start >= 2
        && src[span.start] == 39 && src[span.end - 1] == 39) {
        return Err(Error::syntax(src, span.start, owned("not a string literal")));
    }
    let mut decoder = Decoder {
        src,
        lo: span.start + 1,
        hi: span.end - 1,
        out: String::new(),
        page: 65,
    };
    proof {
        assert(decoder.body() =~= literal_body(src@, span));
    }
    decoder.run()
}

struct Decoder<'a> {
    src: &'a [u8],
    /// Where the literal's body starts in `src`.
    lo: usize,
    /// Where the literal's body ends in `src`.
    hi: usize,
    out: String,
    /// The ISO 8859 part selected by `\P?\`, as a letter `A` to `I`.
    page: u8,
}

impl<'a> Decoder<'a> {
    spec fn body(&self) -> Seq<u8> {
        self.src@.subrange(self.lo as int, self.hi as int)
    }

    spec fn wf(&self) -> bool {
        &&& 0 < self.lo <= self.hi < self.src@.len()
        &&& self.src@.len() < usize::MAX
        &&& 65 <= self.page <= 73
    }

    fn run(&mut self) -> (r: Result<String>)
        requires
            old(self).wf(),
            old(self).out@ == Seq::<char>::empty(),
            old(self).page == 65,
        ensures
            match decode_from(old(self).body(), 0, 65) {
                Ok(t) => r matches Ok(s) && s@ == t,
                Err(o) => r matches Err(e) && e.is_syntax_at(old(self).src@, old(self).lo + o),
            },
    {
        let ghost raw = self.body();
        let ghost whole = decode_from(raw, 0, 65);
        let n = self.hi - self.lo;
        let mut i: usize = 0;
        while i < n
            invariant
                self.wf(),
                self.src == old(self).src,
                self.lo == old(self).lo,
                self.hi == old(self).hi,
                raw == self.body(),
                whole == decode_from(old(self).body(), 0, 65),
                n == raw.len(),
                i <= n,
                whole == prepend(self.out@, decode_from(raw, i as int, self.page)),
            decreases n - i,
        {
            let b = self.src[self.lo + i];
            proof {
                assert(raw[i as int] == b);
            }
            if b == 13 || b == 10 {
                i = i + 1;
            } else if b == 39 {
                if i + 1 < n && self.src[self.lo + i + 1] == 39 {
                    proof {
                        assert(raw[i + 1] == self.src@[self.lo + i + 1]);
                        let rest = decode_from(raw, i + 2, self.page);
                        assert(prepend(self.out@, prepend(seq!['\''], rest)) == prepend(
                            self.out@.push('\''),
                            rest,
                        )) by {
                            if let Ok(t) = rest {
                                assert(self.out@ + (seq!['\''] + t) =~= self.out@.push('\'') + t);
                            }
                        }
                    }
                    push_char(&mut self.out, '\'');
                    i = i + 2;
                } else {
                    proof {
                        if i + 1 < n {
                            assert(raw[i + 1] == self.src@[self.lo + i + 1]);
                        }
                    }
                    let at = i;
                    proof {
                        assert(decode_from(raw, i as int, self.page) == Err::<Seq<char>, int>(
                            i as int,
                        ));
                    }
                    return Err(self.error(at, owned("unescaped apostrophe in string literal")));
                }
            } else if b == 92 {
                let ghost before = self.out@;
                let ghost page0 = self.page;
                match self.directive(i) {
                    Ok(next) => {
                        proof {
                            if let Ok((t, nx, p)) = directive(raw, i as int, page0) {
                                let rest = decode_from(raw, nx, p);
                                assert(prepend(before, prepend(t, rest)) == prepend(before + t, rest))
                                    by {
                                    if let Ok(u) = rest {
                                        assert(before + (t + u) =~= (before + t) + u);
                                    }
                                }
                            }
                        }
                        i = next;
                    },
                    Err(e) => {
                        proof {
                            if let Err(o) = directive(raw, i as int, page0) {
                                assert(decode_from(raw, i as int, page0) == Err::<Seq<char>, int>(o));
                            }
                        }
                        return Err(e);
                    },
                }
            } else {
                let end = self.run_end(i);
                let ghost before = self.out@;
                self.push_bytes(i, end);
                proof {
                    let t = bytes_text(raw.subrange(i as int, end as int));
                    let rest = decode_from(raw, end as int, self.page);
                    assert(prepend(before, prepend(t, rest)) == prepend(before + t, rest)) by {
                        if let Ok(u) = rest {
                            assert(before + (t + u) =~= (before + t) + u);
                        }
                    }
                }
                i = end;
            }
        }
        proof {
            assert(decode_from(raw, i as int, self.page) == Ok::<Seq<char>, int>(Seq::empty()));
            assert(self.out@ + Seq::<char>::empty() =~= self.out@);
        }
        Ok(self.out.clone())
    }

    /// The end of the run of plain text at `i`.
    fn run_end(&self, i: usize) -> (e: usize)
        requires
            self.wf(),
            i < self.hi - self.lo,
            !is_special(self.body()[i as int]),
        ensures
            e == run_stop(self.body(), i as int),
            i < e <= self.hi - self.lo,
    {
        let ghost raw = self.body();
        let n = self.hi - self.lo;
        let mut e = i;
        proof {
            lemma_run_stop(raw, i as int);
        }
        while e < n && !is_special_byte(self.src[self.lo + e])
            invariant
                self.wf(),
                raw == self.body(),
                n == raw.len(),
                i <= e <= n,
                run_stop(raw, i as int) == run_stop(raw, e as int),
            decreases n - e,
        {
            proof {
                assert(raw[e as int] == self.src@[self.lo + e]);
            }
            e = e + 1;
        }
        proof {
            if e < n {
                assert(raw[e as int] == self.src@[self.lo + e]);
            }
            assert(i < e);
        }
        e
    }

    /// Appends the text of the plain bytes `body[i..e]`.
    fn push_bytes(&mut self, i: usize, e: usize)
        requires
            old(self).wf(),
            i <= e <= old(self).hi - old(self).lo,
        ensures
            final(self).src == old(self).src,
            final(self).lo == old(self).lo,
            final(self).hi == old(self).hi,
            final(self).page == old(self).page,
            final(self).out@ == old(self).out@ + bytes_text(old(self).body().subrange(i as int, e as int)),
    {
        let ghost raw = self.body();
        let bytes = slice_range(self.src, self.lo + i, self.lo + e);
        proof {
            assert(bytes@ =~= raw.subrange(i as int, e as int));
        }
        match str_from_utf8(bytes) {
            Some(text) => {
                self.out.append(text);
            },
            None => {
                let ghost before = self.out@;
                let mut k: usize = 0;
                while k < bytes.len()
                    invariant
                        k <= bytes@.len(),
                        self.src == old(self).src,
                        self.lo == old(self).lo,
                        self.hi == old(self).hi,
                        self.page == old(self).page,
                        self.out@ == before + Seq::new(k as nat, |j: int| bytes@[j] as char),
                    decreases bytes@.len() - k,
                {
                    let c = latin1(bytes[k]);
                    push_char(&mut self.out, c);
                    proof {
                        assert(c == bytes@[k as int] as char);
                        assert(self.out@ =~= before + Seq::new((k + 1) as nat, |j: int| bytes@[j] as char));
                    }
                    k = k + 1;
                }
                proof {
                    assert(Seq::new(k as nat, |j: int| bytes@[j] as char) =~= Seq::new(
                        bytes@.len(),
                        |j: int| bytes@[j] as char,
                    ));
                }
            },
        }
    }

    /// Decodes the directive whose backslash is at `i`; returns the index
    /// just past it.
    fn directive(&mut self, i: usize) -> (r: Result<usize>)
        requires
            old(self).wf(),
            i < old(self).hi - old(self).lo,
            old(self).body()[i as int] == 92,
        ensures
            final(self).wf(),
            final(self).src == old(self).src,
            final(self).lo == old(self).lo,
            final(self).hi == old(self).hi,
            match directive(old(self).body(), i as int, old(self).page) {
                Ok((t, next, p)) => r == Ok::<usize, Error>(next as usize) && i < next <= old(
                    self,
                ).hi - old(self).lo && final(self).out@ == old(self).out@ + t && final(self).page
                    == p,
                Err(o) => r matches Err(e) && e.is_syntax_at(old(self).src@, old(self).lo + o),
            },
    {
        let ghost raw = self.body();
        let ghost before = self.out@;
        let n = self.hi - self.lo;
        let a1 = self.at(i, 1);
        let a2 = self.at(i, 2);
        let a3 = self.at(i, 3);
        if a1 == 92 {
            push_char(&mut self.out, '\\');
            proof {
                assert(self.out@ =~= before + seq!['\\']);
                assert(directive(raw, i as int, self.page) == Ok::<(Seq<char>, int, u8), int>(
                    (seq!['\\'], i + 2, self.page),
                ));
            }
            Ok(i + 2)
        } else if a1 == 78 && a2 == 92 {
            push_char(&mut self.out, '\n');
            proof {
                assert(self.out@ =~= before + seq!['\n']);
            }
            Ok(i + 3)
        } else if a1 == 84 && a2 == 92 {
            push_char(&mut self.out, '\t');
            proof {
                assert(self.out@ =~= before + seq!['\t']);
            }
            Ok(i + 3)
        } else if a1 == 83 && a2 == 92 && i + 3 < n {
            if self.page != 65 {
                let part = (self.page - 64) as u64;
                let mut message = owned("\\S\\ in code page ISO 8859-");
                push_decimal(&mut message, part);
                message.append(" is not supported");
                return Err(self.error(i, message));
            }
            let c = self.src[self.lo + i + 3];
            proof {
                assert(raw[i + 3] == c);
            }
            if !(32 <= c && c <= 126) {
                return Err(
                    self.error(i, owned("\\S\\ must be followed by a printable ASCII character")),
                );
            }
            let ch = latin1(c + 128);
            push_char(&mut self.out, ch);
            proof {
                assert(self.out@ =~= before + seq![ch]);
                assert(directive(raw, i as int, 65) == Ok::<(Seq<char>, int, u8), int>(
                    (seq![ch], i + 4, 65u8),
                ));
            }
            Ok(i + 4)
        } else if a1 == 80 && 65 <= a2 && a2 <= 73 && a3 == 92 {
            let p = self.src[self.lo + i + 2];
            proof {
                assert(raw[i + 2] == p);
                assert(before + Seq::<char>::empty() =~= before);
                assert(directive(raw, i as int, self.page) == Ok::<(Seq<char>, int, u8), int>(
                    (Seq::empty(), i + 4, p),
                ));
            }
            self.page = p;
            Ok(i + 4)
        } else if a1 == 88 && a2 == 92 && i + 4 < n {
            proof {
                assert(self.src@.subrange(self.lo + i + 3, self.lo + i + 5) =~= raw.subrange(
                    i + 3,
                    i + 5,
                ));
            }
            match hex(self.src, self.lo + i + 3, self.lo + i + 5) {
                Some(v) => {
                    proof {
                        assert(pow16(2) == 256) by {
                            reveal_with_fuel(pow16, 3);
                        }
                        assert(is_scalar(v as u32)) by {
                            assert(v < 256);
                        }
                    }
                    let c = char_from_u32(v as u32);
                    match c {
                        Some(ch) => {
                            push_char(&mut self.out, ch);
                            proof {
                                assert(self.out@ =~= before + seq![ch]);
                            }
                            Ok(i + 5)
                        },
                        None => Err(self.error(i, owned("\\X\\ must be followed by two hexadecimal digits"))),
                    }
                },
                None => {
                    Err(self.error(i, owned("\\X\\ must be followed by two hexadecimal digits")))
                },
            }
        } else if a1 == 88 && (a2 == 50 || a2 == 52) && a3 == 92 {
            let width: usize = if a2 == 50 { 4 } else { 8 };
            proof {
                lemma_codes_at(raw, i + 4, width as int);
            }
            self.extended(i, width)
        } else {
            push_char(&mut self.out, '\\');
            proof {
                assert(self.out@ =~= before + seq!['\\']);
            }
            Ok(i + 1)
        }
    }

    /// The byte `k` past `i` in the body, or -1 past its end.
    fn at(&self, i: usize, k: usize) -> (b: i32)
        requires
            self.wf(),
            i < self.hi - self.lo,
            k <= 3,
        ensures
            b == (if 0 <= i + k < self.body().len() { self.body()[i + k] as int } else { -1 }),
    {
        if i + k < self.hi - self.lo {
            proof {
                assert(self.body()[i + k] == self.src@[self.lo + i + k]);
            }
            self.src[self.lo + i + k] as i32
        } else {
            -1
        }
    }

    /// Decodes `\X2\` (`width` 4) or `\X4\` (`width` 8) starting at `i`.
    fn extended(&mut self, i: usize, width: usize) -> (r: Result<usize>)
        requires
            old(self).wf(),
            i + 3 < old(self).hi - old(self).lo,
            width == 4 || width == 8,
        ensures
            final(self).wf(),
            final(self).src == old(self).src,
            final(self).lo == old(self).lo,
            final(self).hi == old(self).hi,
            final(self).page == old(self).page,
            match codes_at(old(self).body(), i + 4, width as int) {
                Err(o) => r matches Err(e) && e.is_syntax_at(old(self).src@, old(self).lo + o),
                Ok((codes, e)) => match if width == 4 {
                    utf16_text(codes)
                } else {
                    scalars_text(codes)
                } {
                    Some(t) => r == Ok::<usize, Error>((e + 4) as usize) && e + 4 <= old(self).hi
                        - old(self).lo && final(self).out@ == old(self).out@ + t,
                    None => r matches Err(err) && err.is_syntax_at(
                        old(self).src@,
                        old(self).lo + i,
                    ),
                },
            },
    {
        let ghost raw = self.body();
        let n = self.hi - self.lo;
        let mut pos = i + 4;
        let mut codes: Vec<u32> = Vec::new();
        proof {
            lemma_codes_at(raw, pos as int, width as int);
        }
        loop
            invariant
                self.wf(),
                raw == self.body(),
                n == raw.len(),
                self.src == old(self).src,
                self.lo == old(self).lo,
                self.hi == old(self).hi,
                self.page == old(self).page,
                self.out == old(self).out,
                i + 4 <= pos <= n,
                width == 4 || width == 8,
                codes_at(raw, i + 4, width as int) == match codes_at(raw, pos as int, width as int) {
                    Ok((cs, e)) => Ok((codes@.map_values(|c: u32| c as nat) + cs, e)),
                    Err(o) => Err(o),
                },
                width == 4 ==> forall|k: int| 0 <= k < codes@.len() ==> codes@[k] <= 0xFFFF,
            ensures
                at_end_marker(raw, pos as int),
                i + 4 <= pos <= n,
                self.wf(),
                raw == self.body(),
                self.src == old(self).src,
                self.lo == old(self).lo,
                self.hi == old(self).hi,
                self.page == old(self).page,
                self.out == old(self).out,
                codes_at(raw, i + 4, width as int) == match codes_at(raw, pos as int, width as int) {
                    Ok((cs, e)) => Ok((codes@.map_values(|c: u32| c as nat) + cs, e)),
                    Err(o) => Err(o),
                },
                width == 4 ==> forall|k: int| 0 <= k < codes@.len() ==> codes@[k] <= 0xFFFF,
            decreases n - pos,
        {
            if self.is_end_marker(pos) {
                break;
            }
            if n - pos < width {
                let at = pos;
                let mut message = owned("expected ");
                push_decimal(&mut message, width as u64);
                message.append(" hexadecimal digits or \\X0\\");
                return Err(self.error(at, message));
            }
            proof {
                assert(self.src@.subrange(self.lo + pos, self.lo + pos + width) =~= raw.subrange(
                    pos as int,
                    pos + width,
                ));
            }
            match hex(self.src, self.lo + pos, self.lo + pos + width) {
                None => {
                    let at = pos;
                    let mut message = owned("expected ");
                    push_decimal(&mut message, width as u64);
                    message.append(" hexadecimal digits or \\X0\\");
                    return Err(self.error(at, message));
                },
                Some(code) => {
                    proof {
                        if width == 4 {
                            assert(pow16(4) == 65536) by { reveal_with_fuel(pow16, 5); }
                        }
                        let old_codes = codes@.map_values(|c: u32| c as nat);
                        let new_codes = codes@.push(code).map_values(|c: u32| c as nat);
                        assert(new_codes =~= old_codes.push(code as nat));
                        match codes_at(raw, pos + width, width as int) {
                            Ok((cs, e)) => {
                                assert(old_codes + (seq![code as nat] + cs) =~= new_codes + cs);
                            },
                            Err(o) => {},
                        }
                    }
                    codes.push(code);
                    pos = pos + width;
                },
            }
        }
        proof {
            assert(codes_at(raw, pos as int, width as int) == Ok::<(Seq<nat>, int), int>(
                (Seq::empty(), pos as int),
            ));
            assert(codes@.map_values(|c: u32| c as nat) + Seq::<nat>::empty() =~= codes@.map_values(
                |c: u32| c as nat,
            ));
        }
        let ghost all = codes@.map_values(|c: u32| c as nat);
        let text = if width == 4 {
            utf16(&codes)
        } else {
            scalars(&codes)
        };
        match text {
            Some(t) => {
                self.out.append(t.as_str());
                Ok(pos + 4)
            },
            None => Err(self.error(i, owned("invalid Unicode in extended string directive"))),
        }
    }

    fn is_end_marker(&self, pos: usize) -> (b: bool)
        requires
            self.wf(),
            pos <= self.hi - self.lo,
        ensures
            b == at_end_marker(self.body(), pos as int),
    {
        let n = self.hi - self.lo;
        if n - pos < 4 {
            return false;
        }
        let s = self.src;
        let l = self.lo + pos;
        proof {
            assert(self.body()[pos as int] == s@[l as int]);
            assert(self.body()[pos + 1] == s@[l + 1]);
            assert(self.body()[pos + 2] == s@[l + 2]);
            assert(self.body()[pos + 3] == s@[l + 3]);
        }
        s[l] == 92 && s[l + 1] == 88 && s[l + 2] == 48 && s[l + 3] == 92
    }

    fn error(&self, i: usize, message: String) -> (e: Error)
        requires
            self.wf(),
            i <= self.hi - self.lo,
        ensures
            e.is_syntax_at(self.src@, self.lo + i),
    {
        Error::syntax(self.src, self.lo + i, message)
    }
}

/// Exec form of [`is_special`].
fn is_special_byte(b: u8) -> (r: bool)
    ensures
        r == is_special(b),
{
    b == 92 || b == 39 || b == 13 || b == 10
}

/// The value of the hexadecimal digit `b`.
fn hex_digit(b: u8) -> (r: Option<u32>)
    ensures
        match hex_digit_value(b) {
            Some(v) => r == Some(v as u32),
            None => r is None,
        },
{
    if 48 <= b && b <= 57 {
        Some((b - 48) as u32)
    } else if 65 <= b && b <= 70 {
        Some((b - 55) as u32)
    } else if 97 <= b && b <= 102 {
        Some((b - 87) as u32)
    } else {
        None
    }
}

proof fn lemma_hex_bound(d: Seq<u8>)
    ensures
        hex_value(d) matches Some(v) ==> v < pow16(d.len()),
    decreases d.len(),
{
    if d.len() > 0 {
        lemma_hex_bound(d.drop_last());
    }
}

/// `16` to the power `n`.
pub open spec fn pow16(n: nat) -> nat
    decreases n,
{
    if n == 0 {
        1
    } else {
        16 * pow16((n - 1) as nat)
    }
}

/// The value of the hexadecimal digits `src[start..end]` (at most 8).
fn hex(src: &[u8], start: usize, end: usize) -> (r: Option<u32>)
    requires
        start <= end <= src@.len(),
        end - start <= 8,
    ensures
        match hex_value(src@.subrange(start as int, end as int)) {
            Some(v) => r == Some(v as u32) && v <= u32::MAX && v < pow16((end - start) as nat),
            None => r is None,
        },
{
    let ghost d = src@.subrange(start as int, end as int);
    let mut acc: u32 = 0;
    let mut i = start;
    proof {
        assert(d.take(0) =~= Seq::<u8>::empty());
    }
    while i < end
        invariant
            start <= i <= end <= src@.len(),
            end - start <= 8,
            d == src@.subrange(start as int, end as int),
            hex_value(d.take(i - start)) == Some(acc as nat),
            acc < pow16((i - start) as nat),
        decreases end - i,
    {
        proof {
            assert(d.take(i - start + 1).drop_last() =~= d.take(i - start));
            assert(d[i - start] == src@[i as int]);
            assert(pow16((i - start) as nat) <= 0x10000000) by {
                lemma_pow16_mono((i - start) as nat, 7);
                assert(pow16(7) == 0x10000000) by { reveal_with_fuel(pow16, 8); }
            }
        }
        match hex_digit(src[i]) {
            None => {
                proof {
                    lemma_hex_none_extends(d, i - start + 1);
                }
                return None;
            },
            Some(x) => {
                acc = acc * 16 + x;
            },
        }
        i += 1;
    }
    proof {
        assert(d.take(end - start) =~= d);
    }
    Some(acc)
}

proof fn lemma_pow16_mono(a: nat, b: nat)
    requires
        a <= b,
    ensures
        pow16(a) <= pow16(b),
    decreases b,
{
    if a < b {
        lemma_pow16_mono(a, (b - 1) as nat);
    }
}

proof fn lemma_hex_none_extends(d: Seq<u8>, k: int)
    requires
        0 <= k <= d.len(),
        hex_value(d.take(k)) is None,
    ensures
        hex_value(d) is None,
    decreases d.len() - k,
{
    if k < d.len() {
        assert(d.take(k + 1).drop_last() =~= d.take(k));
        lemma_hex_none_extends(d, k + 1);
    } else {
        assert(d.take(k) =~= d);
    }
}

/// UTF-16 code units as text; `None` for an unpaired surrogate.
fn utf16(units: &Vec<u32>) -> (r: Option<String>)
    requires
        forall|k: int| 0 <= k < units@.len() ==> units@[k] <= 0xFFFF,
    ensures
        match utf16_text(units@.map_values(|c: u32| c as nat)) {
            Some(t) => r matches Some(s) && s@ == t,
            None => r is None,
        },
{
    let ghost all = units@.map_values(|c: u32| c as nat);
    let mut out = String::new();
    let mut i: usize = 0;
    proof {
        assert(all.subrange(0, all.len() as int) =~= all);
        lemma_prepend_opt_empty(utf16_text(all));
    }
    while i < units.len()
        invariant
            i <= units@.len(),
            all == units@.map_values(|c: u32| c as nat),
            forall|k: int| 0 <= k < units@.len() ==> units@[k] <= 0xFFFF,
            utf16_text(all) == prepend_opt(out@, utf16_text(all.subrange(i as int, all.len() as int))),
        decreases units@.len() - i,
    {
        let u = units[i];
        let ghost rest = all.subrange(i as int, all.len() as int);
        proof {
            assert(rest[0] == u as nat);
            assert(rest.drop_first() =~= all.subrange(i + 1, all.len() as int));
            if i + 1 < units.len() {
                assert(rest[1] == units@[i + 1] as nat);
                assert(rest.subrange(2, rest.len() as int) =~= all.subrange(i + 2, all.len() as int));
            }
        }
        if u < 0xD800 || 0xDFFF < u {
            match char_from_u32(u) {
                Some(c) => {
                    proof {
                        assert(c == (u as nat) as char);
                        let t = utf16_text(all.subrange(i + 1, all.len() as int));
                        if let Some(tt) = t {
                            assert(out@ + (seq![c] + tt) =~= out@.push(c) + tt);
                        }
                    }
                    push_char(&mut out, c);
                    i = i + 1;
                },
                None => {
                    proof {
                        assert(vstd::utf8::is_scalar(u)) by {
                            assert(vstd::utf8::has_width_1_encoding(u) || vstd::utf8::has_width_2_encoding(u)
                                || vstd::utf8::has_width_3_encoding(u));
                        }
                    }
                    return None;
                },
            }
        } else if u <= 0xDBFF && i + 1 < units.len() && 0xDC00 <= units[i + 1] && units[i + 1]
            <= 0xDFFF {
            let v = 0x10000 + (u - 0xD800) * 0x400 + (units[i + 1] - 0xDC00);
            match char_from_u32(v) {
                Some(c) => {
                    proof {
                        let t = utf16_text(all.subrange(i + 2, all.len() as int));
                        if let Some(tt) = t {
                            assert(out@ + (seq![c] + tt) =~= out@.push(c) + tt);
                        }
                    }
                    push_char(&mut out, c);
                    i = i + 2;
                },
                None => {
                    proof {
                        assert(vstd::utf8::has_width_4_encoding(v));
                    }
                    return None;
                },
            }
        } else {
            return None;
        }
    }
    proof {
        assert(all.subrange(i as int, all.len() as int) =~= Seq::<nat>::empty());
        assert(out@ + Seq::<char>::empty() =~= out@);
    }
    Some(out)
}

/// `t` followed by the text of `r`, if `r` is text.
pub open spec fn prepend_opt(t: Seq<char>, r: Option<Seq<char>>) -> Option<Seq<char>> {
    match r {
        Some(rest) => Some(t + rest),
        None => None,
    }
}

proof fn lemma_prepend_opt_empty(r: Option<Seq<char>>)
    ensures
        prepend_opt(Seq::empty(), r) == r,
{
    if let Some(t) = r {
        assert(Seq::<char>::empty() + t =~= t);
    }
}

/// Code points as text; `None` if one is not a scalar value.
fn scalars(codes: &Vec<u32>) -> (r: Option<String>)
    ensures
        match scalars_text(codes@.map_values(|c: u32| c as nat)) {
            Some(t) => r matches Some(s) && s@ == t,
            None => r is None,
        },
{
    let ghost all = codes@.map_values(|c: u32| c as nat);
    let mut out = String::new();
    let mut i: usize = 0;
    proof {
        assert(all.subrange(0, all.len() as int) =~= all);
        lemma_prepend_opt_empty(scalars_text(all));
    }
    while i < codes.len()
        invariant
            i <= codes@.len(),
            all == codes@.map_values(|c: u32| c as nat),
            scalars_text(all) == prepend_opt(out@, scalars_text(all.subrange(i as int, all.len() as int))),
        decreases codes@.len() - i,
    {
        let ghost rest = all.subrange(i as int, all.len() as int);
        proof {
            assert(rest[0] == codes@[i as int] as nat);
            assert(rest.drop_first() =~= all.subrange(i + 1, all.len() as int));
        }
        match char_from_u32(codes[i]) {
            Some(c) => {
                proof {
                    let t = scalars_text(all.subrange(i + 1, all.len() as int));
                    if let Some(tt) = t {
                        assert(out@ + (seq![c] + tt) =~= out@.push(c) + tt);
                    }
                }
                push_char(&mut out, c);
                i = i + 1;
            },
            None => {
                return None;
            },
        }
    }
    proof {
        assert(all.subrange(i as int, all.len() as int) =~= Seq::<nat>::empty());
        assert(out@ + Seq::<char>::empty() =~= out@);
    }
    Some(out)
}

} // verus!
