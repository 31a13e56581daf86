//! Parser for the subset of EXPRESS that record layout depends on.
use vstd::prelude::*;
use vstd::string::*;
use super::lexer::{tokenize, tokens_from, Kind, Tok};
use super::schema::{
    attribute_view, copy_type, entity_view, redeclaration_view, type_def_view, type_view, AggregateKind, Attribute, AttributeRef,
    AttributeView, Entity, EntityView, Redeclaration, RedeclarationView, Schema, SchemaView, TypeDef, TypeDefView,
    TypeRef, TypeRefView,
};
use crate::error::{Error, Result};
use crate::text::{bytes_eq_ignore_case, eq_ignore_case, latin1, lossy, owned, push_char};

verus! {

// ---------------------------------------------------------------------
// Tokens.
// ---------------------------------------------------------------------

/// True if every token of `ts` lies in `src`, and every symbol is one
/// byte long.
pub open spec fn toks_ok(src: Seq<u8>, ts: Seq<Tok>) -> bool {
    &&& forall|k: int|
        0 <= k < ts.len() ==> (#[trigger] ts[k]).start < ts[k].end <= src.len() && (ts[k].kind
            == Kind::Symbol ==> ts[k].end == ts[k].start + 1)
    &&& forall|k: int, j: int| 0 <= k < j < ts.len() ==> (#[trigger] ts[k]).end <= (#[trigger] ts[j]).start
}

/// The text of token `t`.
pub open spec fn text_of(src: Seq<u8>, t: Tok) -> Seq<u8> {
    src.subrange(t.start as int, t.end as int)
}

/// True if `t` is the keyword `kw`, ignoring ASCII case.
pub open spec fn keyword_at(src: Seq<u8>, t: Tok, kw: Seq<u8>) -> bool {
    t.kind == Kind::Ident && eq_ignore_case(text_of(src, t), kw)
}

/// True if `t` is the symbol `b`.
pub open spec fn symbol_at(src: Seq<u8>, t: Tok, b: u8) -> bool {
    t.kind == Kind::Symbol && src[t.start as int] == b
}

/// `b` with ASCII lower-case letters mapped to upper case.
pub open spec fn upper_byte(b: u8) -> u8 {
    if 97 <= b <= 122 {
        (b - 32) as u8
    } else {
        b
    }
}

/// The upper-cased text of an identifier.
pub open spec fn word_of(s: Seq<u8>) -> Seq<char> {
    Seq::new(s.len(), |i: int| upper_byte(s[i]) as char)
}

proof fn lemma_tokens_ok(s: Seq<u8>, i: int)
    requires
        0 <= i,
        s.len() < usize::MAX,
    ensures
        tokens_from(s, i) matches Ok(ts) ==> toks_ok(s, ts) && forall|k: int| 0 <= k < ts.len() ==> i <= #[trigger] ts[k].start,
    decreases s.len() - i,
{
    if 0 <= i < s.len() {
        if super::lexer::is_space(s[i]) {
            lemma_tokens_ok(s, i + 1);
        } else if s[i] == 40 && i + 1 < s.len() && s[i + 1] == 42 {
            if let Some(e) = super::lexer::remark_end(s, i + 2, 1) {
                if i < e <= s.len() {
                    lemma_tokens_ok(s, e);
                }
            }
        } else if s[i] == 45 && i + 1 < s.len() && s[i + 1] == 45 {
            if let Some(e) = crate::p21::lexer::find_byte(s, i, 10) {
                if i < e <= s.len() {
                    lemma_tokens_ok(s, e);
                }
            }
        } else {
            super::lexer::lemma_token_at(s, i);
            if let Ok((kind, e)) = super::lexer::token_at(s, i) {
                if e > i && e <= s.len() {
                    assert(kind == Kind::Symbol ==> e == i + 1);
                    lemma_tokens_ok(s, e);
                    if let Ok(rest) = tokens_from(s, e) {
                        let ts = seq![Tok { kind, start: i as usize, end: e as usize }] + rest;
                        assert forall|k: int| 0 <= k < ts.len() implies (#[trigger] ts[k]).start < ts[k].end
                            <= s.len() && (ts[k].kind == Kind::Symbol ==> ts[k].end == ts[k].start + 1) && i <= ts[k].start by {
                            if k > 0 {
                                assert(ts[k] == rest[k - 1]);
                            }
                        }
                        assert forall|k: int, j: int| 0 <= k < j < ts.len() implies (#[trigger] ts[k]).end <= (
                        #[trigger] ts[j]).start by {
                            assert(ts[j] == rest[j - 1]);
                            if k > 0 {
                                assert(ts[k] == rest[k - 1]);
                            }
                        }
                    }
                }
            }
        }
    }
}

/// Tokens that each take a byte of `src` are no more than its bytes.
proof fn lemma_tokens_count(src: Seq<u8>, ts: Seq<Tok>)
    requires
        toks_ok(src, ts),
    ensures
        ts.len() <= src.len(),
{
    assert forall|k: int| 0 <= k < ts.len() implies k <= #[trigger] ts[k].start by {
        lemma_token_start(src, ts, k);
    }
    if ts.len() > 0 {
        assert(ts.len() - 1 <= ts[ts.len() - 1].start);
    }
}

proof fn lemma_token_start(src: Seq<u8>, ts: Seq<Tok>, k: int)
    requires
        toks_ok(src, ts),
        0 <= k < ts.len(),
    ensures
        k <= ts[k].start,
    decreases k,
{
    if k > 0 {
        lemma_token_start(src, ts, k - 1);
        assert(ts[k - 1].end <= ts[k].start);
        assert(ts[k - 1].start < ts[k - 1].end);
    }
}

/// The position just past the `symbol` that ends a skip starting at
/// `pos`, `depth` levels inside parentheses or brackets; `None` if the
/// tokens run out first.
pub open spec fn past(src: Seq<u8>, ts: Seq<Tok>, pos: int, symbol: u8, depth: nat) -> Option<int>
    decreases ts.len() - pos,
{
    if pos < 0 || pos >= ts.len() {
        None
    } else if ts[pos].kind != Kind::Symbol {
        past(src, ts, pos + 1, symbol, depth)
    } else {
        let b = src[ts[pos].start as int];
        if depth == 0 && b == symbol {
            Some(pos + 1)
        } else if b == 40 || b == 91 {
            past(src, ts, pos + 1, symbol, depth + 1)
        } else if b == 41 || b == 93 {
            past(src, ts, pos + 1, symbol, if depth == 0 { 0 } else { (depth - 1) as nat })
        } else {
            past(src, ts, pos + 1, symbol, depth)
        }
    }
}

/// The position just past the `)` closing parentheses opened `depth`
/// levels before `pos`.
pub open spec fn paren_end(src: Seq<u8>, ts: Seq<Tok>, pos: int, depth: nat) -> Option<int>
    decreases ts.len() - pos,
{
    if pos < 0 || pos >= ts.len() {
        None
    } else if symbol_at(src, ts[pos], 40) {
        paren_end(src, ts, pos + 1, depth + 1)
    } else if symbol_at(src, ts[pos], 41) {
        if depth <= 1 {
            Some(pos + 1)
        } else {
            paren_end(src, ts, pos + 1, (depth - 1) as nat)
        }
    } else {
        paren_end(src, ts, pos + 1, depth)
    }
}

/// The position just past the keyword `end` that closes a block opened
/// with `begin` `depth` levels before `pos`.
pub open spec fn block_end(src: Seq<u8>, ts: Seq<Tok>, pos: int, begin: Seq<u8>, end: Seq<u8>, depth: nat) -> Option<int>
    decreases ts.len() - pos,
{
    if pos < 0 || pos >= ts.len() {
        None
    } else if keyword_at(src, ts[pos], begin) {
        block_end(src, ts, pos + 1, begin, end, depth + 1)
    } else if keyword_at(src, ts[pos], end) {
        if depth <= 1 {
            Some(pos + 1)
        } else {
            block_end(src, ts, pos + 1, begin, end, (depth - 1) as nat)
        }
    } else {
        block_end(src, ts, pos + 1, begin, end, depth)
    }
}

/// The value of the decimal digits `s`.
pub open spec fn digits_value(s: Seq<u8>) -> nat
    decreases s.len(),
{
    if s.len() == 0 {
        0
    } else {
        digits_value(s.drop_last()) * 10 + (s.last() - 48) as nat
    }
}

/// True if every byte of `s` is a decimal digit.
pub open spec fn all_digits(s: Seq<u8>) -> bool {
    forall|i: int| 0 <= i < s.len() ==> 48 <= #[trigger] s[i] <= 57
}

/// The value of a bound written as the tokens `ts[start..end]`: that of a
/// lone integer literal that fits 64 bits, else `None`.
pub open spec fn bound_value(src: Seq<u8>, ts: Seq<Tok>, start: int, end: int) -> Option<u64> {
    if end == start + 1 && ts[start].kind == Kind::Integer && all_digits(text_of(src, ts[start]))
        && digits_value(text_of(src, ts[start])) <= u64::MAX {
        Some(digits_value(text_of(src, ts[start])) as u64)
    } else {
        None
    }
}


proof fn lemma_past_advances(src: Seq<u8>, ts: Seq<Tok>, pos: int, symbol: u8, depth: nat)
    ensures
        past(src, ts, pos, symbol, depth) matches Some(p) ==> pos < p <= ts.len(),
    decreases ts.len() - pos,
{
    if 0 <= pos < ts.len() {
        lemma_past_advances(src, ts, pos + 1, symbol, depth);
        lemma_past_advances(src, ts, pos + 1, symbol, depth + 1);
        lemma_past_advances(src, ts, pos + 1, symbol, if depth == 0 { 0 } else { (depth - 1) as nat });
    }
}

proof fn lemma_paren_end_advances(src: Seq<u8>, ts: Seq<Tok>, pos: int, depth: nat)
    ensures
        paren_end(src, ts, pos, depth) matches Some(p) ==> pos < p <= ts.len(),
    decreases ts.len() - pos,
{
    if 0 <= pos < ts.len() {
        lemma_paren_end_advances(src, ts, pos + 1, depth);
        lemma_paren_end_advances(src, ts, pos + 1, depth + 1);
        if depth > 1 {
            lemma_paren_end_advances(src, ts, pos + 1, (depth - 1) as nat);
        }
    }
}

proof fn lemma_block_end_advances(src: Seq<u8>, ts: Seq<Tok>, pos: int, begin: Seq<u8>, end: Seq<u8>, depth: nat)
    ensures
        block_end(src, ts, pos, begin, end, depth) matches Some(p) ==> pos < p <= ts.len(),
    decreases ts.len() - pos,
{
    if 0 <= pos < ts.len() {
        lemma_block_end_advances(src, ts, pos + 1, begin, end, depth);
        lemma_block_end_advances(src, ts, pos + 1, begin, end, depth + 1);
        if depth > 1 {
            lemma_block_end_advances(src, ts, pos + 1, begin, end, (depth - 1) as nat);
        }
    }
}

/// True if every byte of `s` is a decimal digit.
fn digits_only(s: &[u8]) -> (b: bool)
    ensures
        b == all_digits(s@),
{
    let mut i: usize = 0;
    while i < s.len()
        invariant
            i <= s@.len(),
            forall|j: int| 0 <= j < i ==> 48 <= #[trigger] s@[j] <= 57,
        decreases s@.len() - i,
    {
        if s[i] < 48 || s[i] > 57 {
            return false;
        }
        i = i + 1;
    }
    true
}

/// Longer prefixes of digits have larger values.
proof fn lemma_digits_grow(s: Seq<u8>, i: int, k: int)
    requires
        0 <= i <= k <= s.len(),
        forall|j: int| 0 <= j < s.len() ==> 48 <= #[trigger] s[j] <= 57,
    ensures
        digits_value(s.take(i)) <= digits_value(s.take(k)),
    decreases k - i,
{
    if i < k {
        lemma_digits_grow(s, i, k - 1);
        assert(s.take(k).drop_last() =~= s.take(k - 1));
    }
}

/// The value of the digits `s`, if it fits 64 bits.
fn parse_digits(s: &[u8]) -> (r: Option<u64>)
    requires
        forall|i: int| 0 <= i < s@.len() ==> 48 <= #[trigger] s@[i] <= 57,
    ensures
        r == (if digits_value(s@) <= u64::MAX { Some(digits_value(s@) as u64) } else { None }),
{
    let mut v: u64 = 0;
    let mut i: usize = 0;
    while i < s.len()
        invariant
            i <= s@.len(),
            forall|j: int| 0 <= j < s@.len() ==> 48 <= #[trigger] s@[j] <= 57,
            v == digits_value(s@.take(i as int)),
        decreases s@.len() - i,
    {
        proof {
            assert(s@.take(i + 1).drop_last() =~= s@.take(i as int));
            assert(s@.take(s@.len() as int) =~= s@);
            lemma_digits_grow(s@, i + 1, s@.len() as int);
        }
        let d = (s[i] - 48) as u64;
        match v.checked_mul(10) {
            Some(m) => match m.checked_add(d) {
                Some(n) => {
                    v = n;
                },
                None => {
                    return None;
                },
            },
            None => {
                proof {
                    assert(digits_value(s@.take(i + 1)) > u64::MAX) by (nonlinear_arith)
                        requires
                            v * 10 > u64::MAX,
                            digits_value(s@.take(i + 1)) == v * 10 + (s@[i as int] - 48) as nat,
                    ;
                }
                return None;
            },
        }
        i = i + 1;
    }
    proof {
        assert(s@.take(i as int) =~= s@);
    }
    Some(v)
}

/// Exec form of [`upper_byte`].
fn upper_of(b: u8) -> (r: u8)
    ensures
        r == upper_byte(b),
{
    if 97 <= b && b <= 122 {
        b - 32
    } else {
        b
    }
}

/// Parses the first schema in the EXPRESS source `src`.
pub fn parse(src: &[u8]) -> (r: Result<Schema>)
    requires
        src@.len() < usize::MAX,
    ensures
        r matches Err(e) ==> e is Syntax,
        match tokens_from(src@, 0) {
            Err(o) => r matches Err(e) && e.is_syntax_at(src@, o),
            Ok(ts) => match sp_schema(src@, ts) {
                Ok(sv) => r matches Ok(s) && s@ == sv,
                Err(o) => r matches Err(e) && e.is_syntax_at(src@, o),
            },
        },
{
    let tokens = match tokenize(src) {
        Ok(v) => v,
        Err(e) => {
            return Err(e);
        },
    };
    proof {
        lemma_tokens_ok(src@, 0);
        lemma_tokens_count(src@, tokens@);
    }
    let parser = Parser { src, tokens, pos: 0 };
    parser.schema()
}

struct Parser<'a> {
    src: &'a [u8],
    tokens: Vec<Tok>,
    pos: usize,
}

enum AttributeName {
    Plain(String),
    Redeclared(AttributeRef),
}

/// The views of `entities`.
spec fn entity_views(entities: Seq<Entity>) -> Seq<EntityView> {
    entities.map_values(|e: Entity| entity_view(e))
}

/// The views of `types`.
spec fn type_def_views(types: Seq<(String, TypeDef)>) -> Seq<(Seq<char>, TypeDefView)> {
    types.map_values(|t: (String, TypeDef)| type_def_view(t))
}

/// The views of `names`.
spec fn names_view(names: Seq<AttributeName>) -> Seq<AttrNameView> {
    names.map_values(|n: AttributeName| attr_name_view(n))
}

/// The view of `n`.
spec fn attr_name_view(n: AttributeName) -> AttrNameView {
    match n {
        AttributeName::Plain(w) => AttrNameView::Plain(w@),
        AttributeName::Redeclared(r) => AttrNameView::Redeclared(r.entity@, r.attribute@),
    }
}


impl<'a> Parser<'a> {
    spec fn inv(&self) -> bool {
        &&& self.src@.len() < usize::MAX
        &&& self.pos <= self.tokens@.len() < usize::MAX
        &&& toks_ok(self.src@, self.tokens@)
    }

    /// True if `self` continues `old`: same input, no going back.
    spec fn grows(&self, old: Parser<'a>) -> bool {
        &&& self.inv()
        &&& self.src@ == old.src@
        &&& self.tokens@ == old.tokens@
        &&& old.pos <= self.pos
    }

    fn peek(&self) -> (r: Option<Tok>)
        requires
            self.inv(),
        ensures
            r == (if self.pos < self.tokens@.len() { Some(self.tokens@[self.pos as int]) } else { None }),
    {
        if self.pos < self.tokens.len() {
            Some(self.tokens[self.pos])
        } else {
            None
        }
    }

    fn next(&mut self, expected: &str) -> (r: Result<Tok>)
        requires
            old(self).inv(),
        ensures
            final(self).grows(*old(self)),
            old(self).pos < old(self).tokens@.len() ==> r == Ok::<Tok, Error>(old(self).tokens@[old(self).pos as int])
                && final(self).pos == old(self).pos + 1,
            old(self).pos >= old(self).tokens@.len() ==> (r matches Err(e) && e.is_syntax_at(
                old(self).src@,
                old(self).src@.len() as int,
            ) && e.syntax_message() == "unexpected end of schema; expected "@ + expected@),
    {
        match self.peek() {
            Some(token) => {
                self.pos = self.pos + 1;
                Ok(token)
            },
            None => Err(self.end_of_input(expected)),
        }
    }

    fn text(&self, token: Tok) -> (r: &'a [u8])
        requires
            token.start <= token.end <= self.src@.len(),
        ensures
            r@ == text_of(self.src@, token),
    {
        crate::p21::lexer::slice_range(self.src, token.start, token.end)
    }

    fn word(&self, token: Tok) -> (r: Option<String>)
        requires
            token.start <= token.end <= self.src@.len(),
        ensures
            token.kind == Kind::Ident ==> (r matches Some(w) && w@ == word_of(text_of(self.src@, token))),
            token.kind != Kind::Ident ==> r is None,
    {
        if token.kind != Kind::Ident {
            return None;
        }
        let text = self.text(token);
        let mut w = String::new();
        let mut i: usize = 0;
        while i < text.len()
            invariant
                i <= text@.len(),
                w@ == word_of(text@.take(i as int)),
            decreases text@.len() - i,
        {
            push_char(&mut w, latin1(upper_of(text[i])));
            proof {
                assert(word_of(text@.take(i + 1)) =~= word_of(text@.take(i as int)).push(
                    upper_byte(text@[i as int]) as char,
                ));
            }
            i = i + 1;
        }
        proof {
            assert(text@.take(i as int) =~= text@);
        }
        Some(w)
    }

    fn is_keyword(&self, token: Tok, keyword: &str) -> (b: bool)
        requires
            token.start <= token.end <= self.src@.len(),
        ensures
            b == keyword_at(self.src@, token, keyword.spec_bytes()),
    {
        token.kind == Kind::Ident && bytes_eq_ignore_case(self.text(token), keyword.as_bytes())
    }

    fn is_symbol(&self, token: Tok, symbol: u8) -> (b: bool)
        requires
            token.start < token.end <= self.src@.len(),
            token.kind == Kind::Symbol ==> token.end == token.start + 1,
        ensures
            b == symbol_at(self.src@, token, symbol),
    {
        token.kind == Kind::Symbol && self.src[token.start] == symbol
    }

    fn eat_keyword(&mut self, keyword: &str) -> (b: bool)
        requires
            old(self).inv(),
        ensures
            final(self).grows(*old(self)),
            b == (old(self).pos < old(self).tokens@.len() && keyword_at(
                old(self).src@,
                old(self).tokens@[old(self).pos as int],
                keyword.spec_bytes(),
            )),
            final(self).pos == old(self).pos + if b { 1int } else { 0int },
    {
        let found = match self.peek() {
            Some(t) => self.is_keyword(t, keyword),
            None => false,
        };
        if found {
            self.pos = self.pos + 1;
        }
        found
    }

    fn eat_symbol(&mut self, symbol: u8) -> (b: bool)
        requires
            old(self).inv(),
        ensures
            final(self).grows(*old(self)),
            b == (old(self).pos < old(self).tokens@.len() && symbol_at(
                old(self).src@,
                old(self).tokens@[old(self).pos as int],
                symbol,
            )),
            final(self).pos == old(self).pos + if b { 1int } else { 0int },
    {
        let found = match self.peek() {
            Some(t) => self.is_symbol(t, symbol),
            None => false,
        };
        if found {
            self.pos = self.pos + 1;
        }
        found
    }

    fn expect_keyword(&mut self, keyword: &str) -> (r: Result<()>)
        requires
            old(self).inv(),
        ensures
            final(self).grows(*old(self)),
            r is Ok <==> (old(self).pos < old(self).tokens@.len() && keyword_at(
                old(self).src@,
                old(self).tokens@[old(self).pos as int],
                keyword.spec_bytes(),
            )),
            r is Ok ==> final(self).pos == old(self).pos + 1,
            r matches Err(e) ==> e.is_syntax_at(
                old(self).src@,
                if old(self).pos < old(self).tokens@.len() {
                    old(self).tokens@[old(self).pos as int].start as int
                } else {
                    old(self).src@.len() as int
                },
            ),
    {
        let token = match self.next(keyword) {
            Ok(v) => v,
            Err(e) => {
                return Err(e);
            },
        };
        if self.is_keyword(token, keyword) {
            Ok(())
        } else {
            Err(self.unexpected(token, keyword))
        }
    }

    fn expect_symbol(&mut self, symbol: u8) -> (r: Result<()>)
        requires
            old(self).inv(),
        ensures
            final(self).grows(*old(self)),
            r is Ok <==> (old(self).pos < old(self).tokens@.len() && symbol_at(
                old(self).src@,
                old(self).tokens@[old(self).pos as int],
                symbol,
            )),
            r is Ok ==> final(self).pos == old(self).pos + 1,
            r matches Err(e) ==> e.is_syntax_at(
                old(self).src@,
                if old(self).pos < old(self).tokens@.len() {
                    old(self).tokens@[old(self).pos as int].start as int
                } else {
                    old(self).src@.len() as int
                },
            ),
    {
        let mut expected = owned("'");
        push_char(&mut expected, latin1(symbol));
        expected.append("'");
        let token = match self.next(expected.as_str()) {
            Ok(v) => v,
            Err(e) => {
                return Err(e);
            },
        };
        if self.is_symbol(token, symbol) {
            Ok(())
        } else {
            Err(self.unexpected(token, expected.as_str()))
        }
    }

    fn ident(&mut self, expected: &str) -> (r: Result<String>)
        requires
            old(self).inv(),
        ensures
            final(self).grows(*old(self)),
            r is Ok <==> (old(self).pos < old(self).tokens@.len() && old(self).tokens@[old(
                self,
            ).pos as int].kind == Kind::Ident),
            r matches Ok(w) ==> final(self).pos == old(self).pos + 1 && w@ == word_of(
                text_of(old(self).src@, old(self).tokens@[old(self).pos as int]),
            ),
            r matches Err(e) ==> e.is_syntax_at(
                old(self).src@,
                if old(self).pos < old(self).tokens@.len() {
                    old(self).tokens@[old(self).pos as int].start as int
                } else {
                    old(self).src@.len() as int
                },
            ),
    {
        let token = match self.next(expected) {
            Ok(v) => v,
            Err(e) => {
                return Err(e);
            },
        };
        match self.word(token) {
            Some(w) => Ok(w),
            None => Err(self.unexpected(token, expected)),
        }
    }

    fn unexpected(&self, token: Tok, expected: &str) -> (e: Error)
        requires
            self.inv(),
            token.start < token.end <= self.src@.len(),
        ensures
            e.is_syntax_at(self.src@, token.start as int),
    {
        let text = self.text(token);
        let shown_len = if text.len() > 40 { 40 } else { text.len() };
        let shown = lossy(crate::p21::lexer::slice_range(text, 0, shown_len));
        let mut message = owned("expected ");
        message.append(expected);
        message.append(", found '");
        message.append(shown.as_str());
        message.append("'");
        Error::syntax(self.src, token.start, message)
    }

    fn end_of_input(&self, expected: &str) -> (e: Error)
        requires
            self.inv(),
        ensures
            e.is_syntax_at(self.src@, self.src@.len() as int),
            e.syntax_message() == "unexpected end of schema; expected "@ + expected@,
    {
        let mut message = owned("unexpected end of schema; expected ");
        message.append(expected);
        Error::syntax(self.src, self.src.len(), message)
    }
}

impl<'a> Parser<'a> {
    /// Skips through the next `symbol` outside parentheses and brackets.
    fn skip_past(&mut self, symbol: u8) -> (r: Result<()>)
        requires
            old(self).inv(),
        ensures
            final(self).grows(*old(self)),
            match past(old(self).src@, old(self).tokens@, old(self).pos as int, symbol, 0) {
                Some(p) => r is Ok && final(self).pos == p,
                None => r matches Err(e) && e.is_syntax_at(old(self).src@, old(self).src@.len() as int),
            },
            r is Ok ==> old(self).pos < final(self).pos,
    {
        let ghost start = *self;
        proof {
            lemma_past_advances(self.src@, self.tokens@, self.pos as int, symbol, 0);
        }
        let expected = if symbol == 59 {
            "';'"
        } else if symbol == 58 {
            "':'"
        } else if symbol == 93 {
            "']'"
        } else {
            "a closing symbol"
        };
        let mut depth: usize = 0;
        loop
            invariant
                self.grows(start),
                start == *old(self),
                depth <= self.pos,
                past(start.src@, start.tokens@, start.pos as int, symbol, 0) == past(
                    self.src@,
                    self.tokens@,
                    self.pos as int,
                    symbol,
                    depth as nat,
                ),
            decreases self.tokens@.len() - self.pos,
        {
            let token = match self.next(expected) {
                Ok(v) => v,
                Err(e) => {
                    return Err(e);
                },
            };
            if token.kind != Kind::Symbol {
                continue;
            }
            let byte = self.src[token.start];
            if depth == 0 && byte == symbol {
                return Ok(());
            }
            if byte == 40 || byte == 91 {
                depth = depth + 1;
            } else if byte == 41 || byte == 93 {
                depth = if depth == 0 { 0 } else { depth - 1 };
            }
        }
    }

    /// Skips through the `)` closing an already consumed `(`.
    fn skip_rest_of_parentheses(&mut self) -> (r: Result<()>)
        requires
            old(self).inv(),
        ensures
            final(self).grows(*old(self)),
            match paren_end(old(self).src@, old(self).tokens@, old(self).pos as int, 1) {
                Some(p) => r is Ok && final(self).pos == p,
                None => r matches Err(e) && e.is_syntax_at(old(self).src@, old(self).src@.len() as int),
            },
    {
        let ghost start = *self;
        proof {
            lemma_paren_end_advances(self.src@, self.tokens@, self.pos as int, 1);
        }
        let mut depth: usize = 1;
        loop
            invariant
                self.grows(start),
                start == *old(self),
                1 <= depth <= self.pos + 1,
                paren_end(start.src@, start.tokens@, start.pos as int, 1) == paren_end(
                    self.src@,
                    self.tokens@,
                    self.pos as int,
                    depth as nat,
                ),
            decreases self.tokens@.len() - self.pos,
        {
            let token = match self.next("')'") {
                Ok(v) => v,
                Err(e) => {
                    return Err(e);
                },
            };
            if self.is_symbol(token, 40) {
                depth = depth + 1;
            } else if self.is_symbol(token, 41) {
                if depth == 1 {
                    return Ok(());
                }
                depth = depth - 1;
            }
        }
    }

    fn skip_parenthesised(&mut self) -> (r: Result<()>)
        requires
            old(self).inv(),
        ensures
            final(self).grows(*old(self)),
            r is Ok ==> old(self).pos < final(self).pos,
            r matches Err(e) ==> e is Syntax,
            match sp_parenthesised(old(self).src@, old(self).tokens@, old(self).pos as int) {
                Ok(q) => r is Ok && final(self).pos == q,
                Err(o) => r matches Err(e) && e.is_syntax_at(old(self).src@, o),
            },
    {
        if let Err(e) = self.expect_symbol(40) {
            return Err(e);
        }
        let r = self.skip_rest_of_parentheses();
        proof {
            lemma_paren_end_advances(self.src@, self.tokens@, old(self).pos + 1, 1);
        }
        r
    }

    /// Skips from after `begin` through `end ;`, allowing `begin` to nest.
    fn skip_block(&mut self, begin: &str, end: &str) -> (r: Result<()>)
        requires
            old(self).inv(),
        ensures
            final(self).grows(*old(self)),
            match block_end(old(self).src@, old(self).tokens@, old(self).pos as int, begin.spec_bytes(), end.spec_bytes(), 1) {
                Some(p) => (r is Ok <==> p < old(self).tokens@.len() && symbol_at(
                    old(self).src@,
                    old(self).tokens@[p],
                    59,
                )) && (r is Ok ==> final(self).pos == p + 1),
                None => r matches Err(e) && e.is_syntax_at(old(self).src@, old(self).src@.len() as int),
            },
            r matches Err(e) ==> e is Syntax,
            match sp_block(old(self).src@, old(self).tokens@, old(self).pos as int, begin.spec_bytes(), end.spec_bytes()) {
                Ok(q) => r is Ok && final(self).pos == q,
                Err(o) => r matches Err(e) && e.is_syntax_at(old(self).src@, o),
            },
    {
        let ghost start = *self;
        proof {
            lemma_block_end_advances(self.src@, self.tokens@, self.pos as int, begin.spec_bytes(), end.spec_bytes(), 1);
        }
        let mut depth: usize = 1;
        loop
            invariant
                self.grows(start),
                start == *old(self),
                1 <= depth <= self.pos + 1,
                block_end(start.src@, start.tokens@, start.pos as int, begin.spec_bytes(), end.spec_bytes(), 1)
                    == block_end(self.src@, self.tokens@, self.pos as int, begin.spec_bytes(), end.spec_bytes(), depth as nat),
            decreases self.tokens@.len() - self.pos,
        {
            let token = match self.next(end) {
                Ok(v) => v,
                Err(e) => {
                    return Err(e);
                },
            };
            if self.is_keyword(token, begin) {
                depth = depth + 1;
            } else if self.is_keyword(token, end) {
                if depth == 1 {
                    return self.expect_symbol(59);
                }
                depth = depth - 1;
            }
        }
    }

    /// A bound up to and including `terminator`: its value if it is a lone
    /// integer literal, otherwise `None`.
    fn bound(&mut self, terminator: u8) -> (r: Result<Option<u64>>)
        requires
            old(self).inv(),
        ensures
            final(self).grows(*old(self)),
            match past(old(self).src@, old(self).tokens@, old(self).pos as int, terminator, 0) {
                Some(p) => r == Ok::<Option<u64>, Error>(bound_value(old(self).src@, old(self).tokens@, old(self).pos as int, p - 1))
                    && final(self).pos == p,
                None => r matches Err(e) && e.is_syntax_at(old(self).src@, old(self).src@.len() as int),
            },
    {
        let start = self.pos;
        if let Err(e) = self.skip_past(terminator) {
            return Err(e);
        }
        proof {
            lemma_past_advances(self.src@, self.tokens@, start as int, terminator, 0);
        }
        if self.pos - start == 2 && self.tokens[start].kind == Kind::Integer {
            let text = self.text(self.tokens[start]);
            if digits_only(text) {
                Ok(parse_digits(text))
            } else {
                Ok(None)
            }
        } else {
            Ok(None)
        }
    }
}

// ---------------------------------------------------------------------
// The grammar read, as a function of the source and its tokens.
// ---------------------------------------------------------------------

/// Where an error at token `p` is reported: the token's start, or the end
/// of the source past the last token.
pub open spec fn at(src: Seq<u8>, ts: Seq<Tok>, p: int) -> int {
    if 0 <= p < ts.len() {
        ts[p].start as int
    } else {
        src.len() as int
    }
}

/// True if token `p` is the keyword `kw`.
pub open spec fn kw_at(src: Seq<u8>, ts: Seq<Tok>, p: int, kw: Seq<u8>) -> bool {
    0 <= p < ts.len() && keyword_at(src, ts[p], kw)
}

/// True if token `p` is the symbol `b`.
pub open spec fn sym_at(src: Seq<u8>, ts: Seq<Tok>, p: int, b: u8) -> bool {
    0 <= p < ts.len() && symbol_at(src, ts[p], b)
}

/// The identifier at `p`, upper-cased.
pub open spec fn sp_ident(src: Seq<u8>, ts: Seq<Tok>, p: int) -> core::result::Result<(int, Seq<char>), int> {
    if 0 <= p < ts.len() && ts[p].kind == Kind::Ident {
        Ok((p + 1, word_of(text_of(src, ts[p]))))
    } else {
        Err(at(src, ts, p))
    }
}

/// The symbol `b` at `p`.
pub open spec fn sp_sym(src: Seq<u8>, ts: Seq<Tok>, p: int, b: u8) -> core::result::Result<int, int> {
    if sym_at(src, ts, p, b) {
        Ok(p + 1)
    } else {
        Err(at(src, ts, p))
    }
}

/// The keyword `kw` at `p`.
pub open spec fn sp_kw(src: Seq<u8>, ts: Seq<Tok>, p: int, kw: Seq<u8>) -> core::result::Result<int, int> {
    if kw_at(src, ts, p, kw) {
        Ok(p + 1)
    } else {
        Err(at(src, ts, p))
    }
}

/// Through the next `symbol` outside parentheses and brackets.
pub open spec fn sp_past(src: Seq<u8>, ts: Seq<Tok>, p: int, symbol: u8) -> core::result::Result<int, int> {
    match past(src, ts, p, symbol, 0) {
        Some(q) => Ok(q),
        None => Err(src.len() as int),
    }
}

/// Through the `)` closing a `(` just read.
pub open spec fn sp_paren_rest(src: Seq<u8>, ts: Seq<Tok>, p: int) -> core::result::Result<int, int> {
    match paren_end(src, ts, p, 1) {
        Some(q) => Ok(q),
        None => Err(src.len() as int),
    }
}

/// `( ... )`.
pub open spec fn sp_parenthesised(src: Seq<u8>, ts: Seq<Tok>, p: int) -> core::result::Result<int, int> {
    match sp_sym(src, ts, p, 40) {
        Ok(q) => sp_paren_rest(src, ts, q),
        Err(o) => Err(o),
    }
}

/// From after `begin` through `end ;`.
pub open spec fn sp_block(src: Seq<u8>, ts: Seq<Tok>, p: int, begin: Seq<u8>, end: Seq<u8>) -> core::result::Result<int, int> {
    match block_end(src, ts, p, begin, end, 1) {
        Some(q) => sp_sym(src, ts, q, 59),
        None => Err(src.len() as int),
    }
}

/// A bound through `terminator`, with its value if it is a literal.
pub open spec fn sp_bound(src: Seq<u8>, ts: Seq<Tok>, p: int, terminator: u8) -> core::result::Result<(int, Option<u64>), int> {
    match past(src, ts, p, terminator, 0) {
        Some(q) => Ok((q, bound_value(src, ts, p, q - 1))),
        None => Err(src.len() as int),
    }
}

/// `lower : upper ]`.
pub open spec fn sp_bounds(src: Seq<u8>, ts: Seq<Tok>, p: int) -> core::result::Result<(int, (Option<u64>, Option<u64>)), int> {
    match sp_bound(src, ts, p, 58) {
        Err(o) => Err(o),
        Ok((q, lower)) => match sp_bound(src, ts, q, 93) {
            Err(o) => Err(o),
            Ok((r, upper)) => Ok((r, (lower, upper))),
        },
    }
}

/// `OPTIONAL` and `UNIQUE` before an aggregate's element type, skipped.
pub open spec fn skip_modifiers(src: Seq<u8>, ts: Seq<Tok>, p: int) -> int
    decreases ts.len() - p,
{
    if 0 <= p < ts.len() && (kw_at(src, ts, p, "OPTIONAL".spec_bytes()) || kw_at(src, ts, p, "UNIQUE".spec_bytes())) {
        skip_modifiers(src, ts, p + 1)
    } else {
        p
    }
}

/// The aggregate a keyword names.
pub open spec fn aggregate_kind(src: Seq<u8>, t: Tok) -> Option<AggregateKind> {
    if keyword_at(src, t, "ARRAY".spec_bytes()) {
        Some(AggregateKind::Array)
    } else if keyword_at(src, t, "BAG".spec_bytes()) {
        Some(AggregateKind::Bag)
    } else if keyword_at(src, t, "LIST".spec_bytes()) {
        Some(AggregateKind::List)
    } else if keyword_at(src, t, "SET".spec_bytes()) {
        Some(AggregateKind::SetOf)
    } else if keyword_at(src, t, "AGGREGATE".spec_bytes()) {
        Some(AggregateKind::Aggregate)
    } else {
        None
    }
}

/// An aggregate type after its keyword, at `p`: an `AGGREGATE`'s label,
/// its bounds, `OF` and the modifiers; where the element type starts and
/// the bounds.
pub open spec fn sp_aggregate_head(src: Seq<u8>, ts: Seq<Tok>, p: int, kind: AggregateKind) -> core::result::Result<
    (int, (Option<u64>, Option<u64>)),
    int,
> {
    let labelled: core::result::Result<int, int> = if kind == AggregateKind::Aggregate && sym_at(src, ts, p, 58) {
        match sp_ident(src, ts, p + 1) {
            Ok((q, _)) => Ok(q),
            Err(o) => Err(o),
        }
    } else {
        Ok(p)
    };
    match labelled {
        Err(o) => Err(o),
        Ok(p2) => {
            let bounded: core::result::Result<(int, (Option<u64>, Option<u64>)), int> = if sym_at(src, ts, p2, 91) {
                sp_bounds(src, ts, p2 + 1)
            } else {
                Ok((p2, (Some(0u64), None)))
            };
            match bounded {
                Err(o) => Err(o),
                Ok((p3, b)) => match sp_kw(src, ts, p3, "OF".spec_bytes()) {
                    Err(o) => Err(o),
                    Ok(p4) => Ok((skip_modifiers(src, ts, p4), b)),
                },
            }
        },
    }
}

/// A built-in type after its keyword `t` at `p`.
pub open spec fn sp_builtin_rest(src: Seq<u8>, ts: Seq<Tok>, p: int, t: Tok) -> core::result::Result<int, int> {
    if keyword_at(src, t, "STRING".spec_bytes()) || keyword_at(src, t, "BINARY".spec_bytes()) || keyword_at(
        src,
        t,
        "REAL".spec_bytes(),
    ) {
        let widthed: core::result::Result<int, int> = if sym_at(src, ts, p, 40) {
            sp_paren_rest(src, ts, p + 1)
        } else {
            Ok(p)
        };
        match widthed {
            Err(o) => Err(o),
            Ok(q) => Ok(if kw_at(src, ts, q, "FIXED".spec_bytes()) {
                q + 1
            } else {
                q
            }),
        }
    } else if (keyword_at(src, t, "GENERIC".spec_bytes()) || keyword_at(src, t, "GENERIC_ENTITY".spec_bytes()))
        && sym_at(src, ts, p, 58) {
        match sp_ident(src, ts, p + 1) {
            Ok((q, _)) => Ok(q),
            Err(o) => Err(o),
        }
    } else {
        Ok(p)
    }
}

/// True if `t` names a built-in simple type.
pub open spec fn builtin_kw(src: Seq<u8>, t: Tok) -> bool {
    keyword_at(src, t, "STRING".spec_bytes()) || keyword_at(src, t, "BINARY".spec_bytes()) || keyword_at(
        src,
        t,
        "REAL".spec_bytes(),
    ) || keyword_at(src, t, "GENERIC".spec_bytes()) || keyword_at(src, t, "GENERIC_ENTITY".spec_bytes())
        || keyword_at(src, t, "INTEGER".spec_bytes()) || keyword_at(src, t, "NUMBER".spec_bytes()) || keyword_at(
        src,
        t,
        "LOGICAL".spec_bytes(),
    ) || keyword_at(src, t, "BOOLEAN".spec_bytes())
}

/// A type at `p`.
pub open spec fn sp_type(src: Seq<u8>, ts: Seq<Tok>, p: int) -> core::result::Result<(int, TypeRefView), int>
    decreases ts.len() - p,
{
    if !(0 <= p < ts.len()) {
        Err(src.len() as int)
    } else if ts[p].kind != Kind::Ident {
        Err(ts[p].start as int)
    } else {
        let t = ts[p];
        let word = word_of(text_of(src, t));
        match aggregate_kind(src, t) {
            Some(kind) => match sp_aggregate_head(src, ts, p + 1, kind) {
                Err(o) => Err(o),
                Ok((q, (lower, upper))) => if q <= p || q > ts.len() {
                    Err(src.len() as int)
                } else {
                    match sp_type(src, ts, q) {
                        Err(o) => Err(o),
                        Ok((r, element)) => Ok((r, TypeRefView::Aggregate { kind, lower, upper, element: Box::new(element) })),
                    }
                },
            },
            None => if builtin_kw(src, t) {
                match sp_builtin_rest(src, ts, p + 1, t) {
                    Err(o) => Err(o),
                    Ok(q) => Ok((q, TypeRefView::Builtin(word))),
                }
            } else {
                Ok((p + 1, TypeRefView::Named(word)))
            },
        }
    }
}

/// An attribute name: `name`, or `SELF\entity.attribute [RENAMED name]`.
pub enum AttrNameView {
    Plain(Seq<char>),
    Redeclared(Seq<char>, Seq<char>),
}

/// The attribute name at `p`.
pub open spec fn sp_attribute_name(src: Seq<u8>, ts: Seq<Tok>, p: int) -> core::result::Result<(int, AttrNameView), int> {
    if !(0 <= p < ts.len()) {
        Err(src.len() as int)
    } else if !keyword_at(src, ts[p], "SELF".spec_bytes()) {
        if ts[p].kind == Kind::Ident {
            Ok((p + 1, AttrNameView::Plain(word_of(text_of(src, ts[p])))))
        } else {
            Err(ts[p].start as int)
        }
    } else {
        match sp_sym(src, ts, p + 1, 92) {
            Err(o) => Err(o),
            Ok(p2) => match sp_ident(src, ts, p2) {
                Err(o) => Err(o),
                Ok((p3, entity)) => match sp_sym(src, ts, p3, 46) {
                    Err(o) => Err(o),
                    Ok(p4) => match sp_ident(src, ts, p4) {
                        Err(o) => Err(o),
                        Ok((p5, attribute)) => if kw_at(src, ts, p5, "RENAMED".spec_bytes()) {
                            match sp_ident(src, ts, p5 + 1) {
                                Err(o) => Err(o),
                                Ok((p6, _)) => Ok((p6, AttrNameView::Redeclared(entity, attribute))),
                            }
                        } else {
                            Ok((p5, AttrNameView::Redeclared(entity, attribute)))
                        },
                    },
                },
            },
        }
    }
}

/// The names of an explicit attribute declaration from `p` through its
/// `:`, after those in `names`.
pub open spec fn sp_names(src: Seq<u8>, ts: Seq<Tok>, p: int, names: Seq<AttrNameView>) -> core::result::Result<
    (int, Seq<AttrNameView>),
    int,
>
    decreases ts.len() - p,
{
    match sp_attribute_name(src, ts, p) {
        Err(o) => Err(o),
        Ok((p1, n)) => if !(0 <= p1 < ts.len()) {
            Err(src.len() as int)
        } else if symbol_at(src, ts[p1], 58) {
            Ok((p1 + 1, names.push(n)))
        } else if symbol_at(src, ts[p1], 44) {
            if p1 + 1 <= p {
                Err(src.len() as int)
            } else {
                sp_names(src, ts, p1 + 1, names.push(n))
            }
        } else {
            Err(ts[p1].start as int)
        },
    }
}

/// `e` with the declaration of `names`, optional or not, of type `ty`.
pub open spec fn declare(e: EntityView, names: Seq<AttrNameView>, optional: bool, ty: TypeRefView) -> EntityView
    decreases names.len(),
{
    if names.len() == 0 {
        e
    } else {
        let e1 = declare(e, names.drop_last(), optional, ty);
        match names.last() {
            AttrNameView::Plain(name) => EntityView {
                attributes: e1.attributes.push(AttributeView { name, optional, ty }),
                ..e1
            },
            AttrNameView::Redeclared(entity, attribute) => EntityView {
                redeclared: e1.redeclared.push(RedeclarationView { entity, attribute, optional, ty }),
                ..e1
            },
        }
    }
}

/// An explicit attribute declaration at `p`, added to `e`.
pub open spec fn sp_explicit(src: Seq<u8>, ts: Seq<Tok>, p: int, e: EntityView) -> core::result::Result<(int, EntityView), int> {
    match sp_names(src, ts, p, Seq::empty()) {
        Err(o) => Err(o),
        Ok((q, names)) => {
            let optional = kw_at(src, ts, q, "OPTIONAL".spec_bytes());
            let q2 = if optional {
                q + 1
            } else {
                q
            };
            match sp_type(src, ts, q2) {
                Err(o) => Err(o),
                Ok((q3, ty)) => match sp_sym(src, ts, q3, 59) {
                    Err(o) => Err(o),
                    Ok(q4) => Ok((q4, declare(e, names, optional, ty))),
                },
            }
        },
    }
}

/// The supertypes of `SUBTYPE OF (`, from `p` through the `)`, added to
/// `e`.
pub open spec fn sp_supertypes(src: Seq<u8>, ts: Seq<Tok>, p: int, e: EntityView) -> core::result::Result<(int, EntityView), int>
    decreases ts.len() - p,
{
    match sp_ident(src, ts, p) {
        Err(o) => Err(o),
        Ok((p1, name)) => {
            let e1 = EntityView { supertypes: e.supertypes.push(name), ..e };
            if !(0 <= p1 < ts.len()) {
                Err(src.len() as int)
            } else if symbol_at(src, ts[p1], 41) {
                Ok((p1 + 1, e1))
            } else if symbol_at(src, ts[p1], 44) {
                if p1 + 1 <= p {
                    Err(src.len() as int)
                } else {
                    sp_supertypes(src, ts, p1 + 1, e1)
                }
            } else {
                Err(ts[p1].start as int)
            }
        },
    }
}

/// An entity's header clauses from `p` through the `;` that ends it.
pub open spec fn sp_entity_head(src: Seq<u8>, ts: Seq<Tok>, p: int, e: EntityView) -> core::result::Result<(int, EntityView), int>
    decreases ts.len() - p,
{
    if !(0 <= p < ts.len()) {
        Err(src.len() as int)
    } else if symbol_at(src, ts[p], 59) {
        Ok((p + 1, e))
    } else {
        let step: core::result::Result<(int, EntityView), int> = if keyword_at(src, ts[p], "ABSTRACT".spec_bytes()) {
            Ok((p + 1, EntityView { is_abstract: true, ..e }))
        } else if keyword_at(src, ts[p], "SUPERTYPE".spec_bytes()) {
            if kw_at(src, ts, p + 1, "OF".spec_bytes()) {
                match sp_parenthesised(src, ts, p + 2) {
                    Ok(q) => Ok((q, e)),
                    Err(o) => Err(o),
                }
            } else {
                Ok((p + 1, e))
            }
        } else if keyword_at(src, ts[p], "SUBTYPE".spec_bytes()) {
            match sp_kw(src, ts, p + 1, "OF".spec_bytes()) {
                Err(o) => Err(o),
                Ok(p2) => match sp_sym(src, ts, p2, 40) {
                    Err(o) => Err(o),
                    Ok(p3) => sp_supertypes(src, ts, p3, e),
                },
            }
        } else {
            Err(ts[p].start as int)
        };
        match step {
            Err(o) => Err(o),
            Ok((q, e1)) => if q <= p || q > ts.len() {
                Err(src.len() as int)
            } else {
                sp_entity_head(src, ts, q, e1)
            },
        }
    }
}

/// Which part of an entity's body is being read.
#[derive(Clone, Copy, PartialEq, Eq, Structural)]
pub enum Section {
    Explicit,
    Derive,
    Skip,
}

/// An entity's body from `p` through `END_ENTITY;`, in `section`.
pub open spec fn sp_entity_body(src: Seq<u8>, ts: Seq<Tok>, p: int, e: EntityView, section: Section) -> core::result::Result<
    (int, EntityView),
    int,
>
    decreases ts.len() - p,
{
    if !(0 <= p < ts.len()) {
        Err(src.len() as int)
    } else if keyword_at(src, ts[p], "END_ENTITY".spec_bytes()) {
        match sp_sym(src, ts, p + 1, 59) {
            Ok(q) => Ok((q, e)),
            Err(o) => Err(o),
        }
    } else if keyword_at(src, ts[p], "DERIVE".spec_bytes()) {
        sp_entity_body(src, ts, p + 1, e, Section::Derive)
    } else if keyword_at(src, ts[p], "INVERSE".spec_bytes()) || keyword_at(src, ts[p], "UNIQUE".spec_bytes())
        || keyword_at(src, ts[p], "WHERE".spec_bytes()) {
        sp_entity_body(src, ts, p + 1, e, Section::Skip)
    } else {
        let step: core::result::Result<(int, EntityView), int> = match section {
            Section::Explicit => sp_explicit(src, ts, p, e),
            Section::Derive => match sp_attribute_name(src, ts, p) {
                Err(o) => Err(o),
                Ok((p1, n)) => {
                    let e1 = match n {
                        AttrNameView::Redeclared(entity, attribute) => EntityView {
                            derived: e.derived.push((entity, attribute)),
                            ..e
                        },
                        AttrNameView::Plain(_) => e,
                    };
                    match sp_past(src, ts, p1, 59) {
                        Ok(q) => Ok((q, e1)),
                        Err(o) => Err(o),
                    }
                },
            },
            Section::Skip => match sp_past(src, ts, p, 59) {
                Ok(q) => Ok((q, e)),
                Err(o) => Err(o),
            },
        };
        match step {
            Err(o) => Err(o),
            Ok((q, e1)) => if q <= p || q > ts.len() {
                Err(src.len() as int)
            } else {
                sp_entity_body(src, ts, q, e1, section)
            },
        }
    }
}

/// The entity declared from `p`, just after `ENTITY`, through
/// `END_ENTITY;`.
pub open spec fn sp_entity(src: Seq<u8>, ts: Seq<Tok>, p: int) -> core::result::Result<(int, EntityView), int> {
    match sp_ident(src, ts, p) {
        Err(o) => Err(o),
        Ok((p1, name)) => {
            let e0 = EntityView {
                name,
                is_abstract: false,
                supertypes: Seq::empty(),
                attributes: Seq::empty(),
                redeclared: Seq::empty(),
                derived: Seq::empty(),
            };
            match sp_entity_head(src, ts, p1, e0) {
                Err(o) => Err(o),
                Ok((p2, e1)) => sp_entity_body(src, ts, p2, e1, Section::Explicit),
            }
        },
    }
}

/// From `p` through the `END_TYPE ;` that ends a type declaration.
pub open spec fn sp_end_type(src: Seq<u8>, ts: Seq<Tok>, p: int) -> core::result::Result<int, int>
    decreases ts.len() - p,
{
    if !(0 <= p < ts.len()) {
        Err(src.len() as int)
    } else if keyword_at(src, ts[p], "END_TYPE".spec_bytes()) {
        sp_sym(src, ts, p + 1, 59)
    } else {
        sp_end_type(src, ts, p + 1)
    }
}

/// The type declared from `p`, just after `TYPE`, through `END_TYPE;`.
pub open spec fn sp_type_decl(src: Seq<u8>, ts: Seq<Tok>, p: int) -> core::result::Result<(int, (Seq<char>, TypeDefView)), int> {
    match sp_ident(src, ts, p) {
        Err(o) => Err(o),
        Ok((p1, name)) => match sp_sym(src, ts, p1, 61) {
            Err(o) => Err(o),
            Ok(p2) => {
                let def: core::result::Result<(int, TypeDefView), int> = if kw_at(src, ts, p2, "EXTENSIBLE".spec_bytes())
                    || kw_at(src, ts, p2, "SELECT".spec_bytes()) || kw_at(src, ts, p2, "ENUMERATION".spec_bytes()) {
                    match sp_past(src, ts, p2, 59) {
                        Ok(q) => Ok((q, TypeDefView::Constructed)),
                        Err(o) => Err(o),
                    }
                } else {
                    match sp_type(src, ts, p2) {
                        Err(o) => Err(o),
                        Ok((q1, ty)) => match sp_sym(src, ts, q1, 59) {
                            Ok(q) => Ok((q, TypeDefView::Alias(ty))),
                            Err(o) => Err(o),
                        },
                    }
                };
                match def {
                    Err(o) => Err(o),
                    Ok((q, d)) => match sp_end_type(src, ts, q) {
                        Ok(r) => Ok((r, (name, d))),
                        Err(o) => Err(o),
                    },
                }
            },
        },
    }
}

/// The block keywords a schema's skipped declarations open and close.
pub open spec fn block_of(src: Seq<u8>, t: Tok) -> Option<(Seq<u8>, Seq<u8>)> {
    if keyword_at(src, t, "FUNCTION".spec_bytes()) {
        Some(("FUNCTION".spec_bytes(), "END_FUNCTION".spec_bytes()))
    } else if keyword_at(src, t, "PROCEDURE".spec_bytes()) {
        Some(("PROCEDURE".spec_bytes(), "END_PROCEDURE".spec_bytes()))
    } else if keyword_at(src, t, "RULE".spec_bytes()) {
        Some(("RULE".spec_bytes(), "END_RULE".spec_bytes()))
    } else if keyword_at(src, t, "SUBTYPE_CONSTRAINT".spec_bytes()) {
        Some(("SUBTYPE_CONSTRAINT".spec_bytes(), "END_SUBTYPE_CONSTRAINT".spec_bytes()))
    } else if keyword_at(src, t, "CONSTANT".spec_bytes()) {
        Some(("CONSTANT".spec_bytes(), "END_CONSTANT".spec_bytes()))
    } else {
        None
    }
}

/// The declaration at `p`, other than `END_SCHEMA`, after `entities` and
/// `types`: where the next one starts, and the entities and types then.
#[verifier::opaque]
pub open spec fn sp_declaration(
    src: Seq<u8>,
    ts: Seq<Tok>,
    p: int,
    entities: Seq<EntityView>,
    types: Seq<(Seq<char>, TypeDefView)>,
) -> core::result::Result<(int, Seq<EntityView>, Seq<(Seq<char>, TypeDefView)>), int> {
    if keyword_at(src, ts[p], "ENTITY".spec_bytes()) {
        match sp_entity(src, ts, p + 1) {
            Ok((q, e)) => Ok((q, entities.push(e), types)),
            Err(o) => Err(o),
        }
    } else if keyword_at(src, ts[p], "TYPE".spec_bytes()) {
        match sp_type_decl(src, ts, p + 1) {
            Ok((q, d)) => Ok((q, entities, types.push(d))),
            Err(o) => Err(o),
        }
    } else if block_of(src, ts[p]) is Some {
        let (begin, end) = block_of(src, ts[p])->0;
        match sp_block(src, ts, p + 1, begin, end) {
            Ok(q) => Ok((q, entities, types)),
            Err(o) => Err(o),
        }
    } else if keyword_at(src, ts[p], "USE".spec_bytes()) || keyword_at(src, ts[p], "REFERENCE".spec_bytes()) {
        match sp_past(src, ts, p + 1, 59) {
            Ok(q) => Ok((q, entities, types)),
            Err(o) => Err(o),
        }
    } else {
        Err(ts[p].start as int)
    }
}

/// The declarations from `p` through `END_SCHEMA;`, after `entities` and
/// `types`.
pub open spec fn sp_declarations(
    src: Seq<u8>,
    ts: Seq<Tok>,
    p: int,
    name: Seq<char>,
    entities: Seq<EntityView>,
    types: Seq<(Seq<char>, TypeDefView)>,
) -> core::result::Result<SchemaView, int>
    decreases ts.len() - p,
{
    if !(0 <= p < ts.len()) {
        Err(src.len() as int)
    } else if keyword_at(src, ts[p], "END_SCHEMA".spec_bytes()) {
        match sp_sym(src, ts, p + 1, 59) {
            Ok(_) => Ok(SchemaView { name, entities, types }),
            Err(o) => Err(o),
        }
    } else {
        match sp_declaration(src, ts, p, entities, types) {
            Err(o) => Err(o),
            Ok((q, es, tys)) => if q <= p || q > ts.len() {
                Err(src.len() as int)
            } else {
                sp_declarations(src, ts, q, name, es, tys)
            },
        }
    }
}

/// The first schema of the tokens `ts` of `src`, or the offset of the
/// error that refuses it.
pub open spec fn sp_schema(src: Seq<u8>, ts: Seq<Tok>) -> core::result::Result<SchemaView, int> {
    match sp_kw(src, ts, 0, "SCHEMA".spec_bytes()) {
        Err(o) => Err(o),
        Ok(p1) => match sp_ident(src, ts, p1) {
            Err(o) => Err(o),
            Ok((p2, name)) => {
                let p3 = if 0 <= p2 < ts.len() && ts[p2].kind == Kind::String {
                    p2 + 1
                } else {
                    p2
                };
                match sp_sym(src, ts, p3, 59) {
                    Err(o) => Err(o),
                    Ok(p4) => sp_declarations(src, ts, p4, name, Seq::empty(), Seq::empty()),
                }
            },
        },
    }
}

/// The ensures every grammar step shares: it only moves forward, moves
/// when it succeeds, and fails only with a syntax error.
spec fn stepped<T>(after: Parser, before: Parser, r: Result<T>) -> bool {
    &&& after.grows(before)
    &&& r is Ok ==> before.pos < after.pos
    &&& r matches Err(e) ==> e is Syntax
}

impl<'a> Parser<'a> {
    fn schema(self) -> (r: Result<Schema>)
        requires
            self.inv(),
            self.pos == 0,
        ensures
            r matches Err(e) ==> e is Syntax,
            match sp_schema(self.src@, self.tokens@) {
                Ok(sv) => r matches Ok(s) && s@ == sv,
                Err(o) => r matches Err(e) && e.is_syntax_at(self.src@, o),
            },
    {
        let mut p = self;
        let ghost start = p;
        if let Err(e) = p.expect_keyword("SCHEMA") {
            return Err(e);
        }
        let name = match p.ident("a schema name") {
            Ok(v) => v,
            Err(e) => {
                return Err(e);
            },
        };
        let is_string = match p.peek() {
            Some(t) => t.kind == Kind::String,
            None => false,
        };
        if is_string {
            p.pos = p.pos + 1;
        }
        if let Err(e) = p.expect_symbol(59) {
            return Err(e);
        }
        let ghost goal = sp_schema(start.src@, start.tokens@);
        let mut entities: Vec<Entity> = Vec::new();
        let mut types: Vec<(String, TypeDef)> = Vec::new();
        proof {
            assert(entity_views(entities@) =~= Seq::<EntityView>::empty());
            assert(type_def_views(types@) =~= Seq::<(Seq<char>, TypeDefView)>::empty());
        }
        loop
            invariant_except_break
                goal == sp_declarations(
                    p.src@,
                    p.tokens@,
                    p.pos as int,
                    name@,
                    entity_views(entities@),
                    type_def_views(types@),
                ),
            invariant
                p.grows(start),
                start.src@ == self.src@,
                start.tokens@ == self.tokens@,
                goal == sp_schema(start.src@, start.tokens@),
            ensures
                goal == Ok::<SchemaView, int>(
                    SchemaView { name: name@, entities: entity_views(entities@), types: type_def_views(types@) },
                ),
            decreases p.tokens@.len() - p.pos,
        {
            let token = match p.peek() {
                Some(t) => t,
                None => {
                    return Err(p.end_of_input("a declaration or END_SCHEMA"));
                },
            };
            if p.is_keyword(token, "END_SCHEMA") {
                p.pos = p.pos + 1;
                if let Err(e) = p.expect_symbol(59) {
                    return Err(e);
                }
                break;
            }
            if let Err(e) = p.declaration(&mut entities, &mut types) {
                return Err(e);
            }
        }
        proof {
            assert(entity_views(entities@) =~= entities@.map_values(|e: Entity| entity_view(e)));
            assert(type_def_views(types@) =~= types@.map_values(|t: (String, TypeDef)| type_def_view(t)));
        }
        Ok(Schema::new(name, entities, types))
    }

    /// The declaration at the current token, other than `END_SCHEMA`:
    /// entities and types are kept, the other declarations skipped.
    fn declaration(&mut self, entities: &mut Vec<Entity>, types: &mut Vec<(String, TypeDef)>) -> (r: Result<()>)
        requires
            old(self).inv(),
            old(self).pos < old(self).tokens@.len(),
        ensures
            stepped(*final(self), *old(self), r),
            match sp_declaration(
                old(self).src@,
                old(self).tokens@,
                old(self).pos as int,
                entity_views(old(entities)@),
                type_def_views(old(types)@),
            ) {
                Ok((q, es, tys)) => r is Ok && final(self).pos == q && entity_views(final(entities)@) == es
                    && type_def_views(final(types)@) == tys,
                Err(o) => r matches Err(e) && e.is_syntax_at(old(self).src@, o),
            },
    {
        proof {
            reveal(sp_declaration);
        }
        let expected = "a declaration or END_SCHEMA";
        let token = match self.next(expected) {
            Ok(v) => v,
            Err(e) => {
                return Err(e);
            },
        };
        if self.is_keyword(token, "ENTITY") {
            let e = match self.entity() {
                Ok(v) => v,
                Err(e) => {
                    return Err(e);
                },
            };
            let ghost before = entities@;
            entities.push(e);
            proof {
                assert(entity_views(entities@) =~= entity_views(before).push(entity_view(e)));
            }
        } else if self.is_keyword(token, "TYPE") {
            let d = match self.type_decl() {
                Ok(v) => v,
                Err(e) => {
                    return Err(e);
                },
            };
            let ghost before = types@;
            types.push(d);
            proof {
                assert(type_def_views(types@) =~= type_def_views(before).push(type_def_view(d)));
            }
        } else if self.is_keyword(token, "FUNCTION") {
            if let Err(e) = self.skip_block("FUNCTION", "END_FUNCTION") {
                return Err(e);
            }
        } else if self.is_keyword(token, "PROCEDURE") {
            if let Err(e) = self.skip_block("PROCEDURE", "END_PROCEDURE") {
                return Err(e);
            }
        } else if self.is_keyword(token, "RULE") {
            if let Err(e) = self.skip_block("RULE", "END_RULE") {
                return Err(e);
            }
        } else if self.is_keyword(token, "SUBTYPE_CONSTRAINT") {
            if let Err(e) = self.skip_block("SUBTYPE_CONSTRAINT", "END_SUBTYPE_CONSTRAINT") {
                return Err(e);
            }
        } else if self.is_keyword(token, "CONSTANT") {
            if let Err(e) = self.skip_block("CONSTANT", "END_CONSTANT") {
                return Err(e);
            }
        } else if self.is_keyword(token, "USE") || self.is_keyword(token, "REFERENCE") {
            if let Err(e) = self.skip_past(59) {
                return Err(e);
            }
        } else {
            return Err(self.unexpected(token, expected));
        }
        Ok(())
    }

    fn entity(&mut self) -> (r: Result<Entity>)
        requires
            old(self).inv(),
        ensures
            stepped(*final(self), *old(self), r),
            match sp_entity(old(self).src@, old(self).tokens@, old(self).pos as int) {
                Ok((q, ev)) => r matches Ok(e) && entity_view(e) == ev && final(self).pos == q,
                Err(o) => r matches Err(e) && e.is_syntax_at(old(self).src@, o),
            },
    {
        let name = match self.ident("an entity name") {
            Ok(v) => v,
            Err(e) => {
                return Err(e);
            },
        };
        let mut entity = Entity {
            name,
            is_abstract: false,
            supertypes: Vec::new(),
            attributes: Vec::new(),
            redeclared: Vec::new(),
            derived: Vec::new(),
        };
        proof {
            assert(entity_view(entity).supertypes =~= Seq::empty());
            assert(entity_view(entity).attributes =~= Seq::empty());
            assert(entity_view(entity).redeclared =~= Seq::empty());
            assert(entity_view(entity).derived =~= Seq::empty());
        }
        if let Err(e) = self.entity_head(&mut entity) {
            return Err(e);
        }
        if let Err(e) = self.entity_body(&mut entity) {
            return Err(e);
        }
        Ok(entity)
    }

    /// The supertype and subtype clauses, through the `;` that ends an
    /// entity's header.
    fn entity_head(&mut self, entity: &mut Entity) -> (r: Result<()>)
        requires
            old(self).inv(),
        ensures
            final(self).grows(*old(self)),
            r matches Err(e) ==> e is Syntax,
            match sp_entity_head(old(self).src@, old(self).tokens@, old(self).pos as int, entity_view(*old(entity))) {
                Ok((q, ev)) => r is Ok && entity_view(*final(entity)) == ev && final(self).pos == q,
                Err(o) => r matches Err(e) && e.is_syntax_at(old(self).src@, o),
            },
    {
        let ghost start = *self;
        let ghost goal = sp_entity_head(self.src@, self.tokens@, self.pos as int, entity_view(*entity));
        loop
            invariant
                self.grows(start),
                start == *old(self),
                goal == sp_entity_head(start.src@, start.tokens@, start.pos as int, entity_view(*old(entity))),
                goal == sp_entity_head(self.src@, self.tokens@, self.pos as int, entity_view(*entity)),
            decreases self.tokens@.len() - self.pos,
        {
            let ghost at = self.pos as int;
            let expected = "ABSTRACT, SUPERTYPE, SUBTYPE or ';'";
            let token = match self.next(expected) {
                Ok(v) => v,
                Err(e) => {
                    return Err(e);
                },
            };
            if self.is_symbol(token, 59) {
                return Ok(());
            }
            if self.is_keyword(token, "ABSTRACT") {
                let ghost before = entity_view(*entity);
                entity.is_abstract = true;
                proof {
                    assert(entity_view(*entity) == EntityView { is_abstract: true, ..before });
                }
            } else if self.is_keyword(token, "SUPERTYPE") {
                if self.eat_keyword("OF") {
                    if let Err(e) = self.skip_parenthesised() {
                        return Err(e);
                    }
                }
            } else if self.is_keyword(token, "SUBTYPE") {
                if let Err(e) = self.expect_keyword("OF") {
                    return Err(e);
                }
                if let Err(e) = self.expect_symbol(40) {
                    return Err(e);
                }
                if let Err(e) = self.supertypes(entity) {
                    return Err(e);
                }
            } else {
                return Err(self.unexpected(token, expected));
            }
            assert(at < self.pos);
        }
    }

    /// The names after `SUBTYPE OF (`, through the `)`.
    fn supertypes(&mut self, entity: &mut Entity) -> (r: Result<()>)
        requires
            old(self).inv(),
        ensures
            final(self).grows(*old(self)),
            r is Ok ==> old(self).pos < final(self).pos,
            r matches Err(e) ==> e is Syntax,
            match sp_supertypes(old(self).src@, old(self).tokens@, old(self).pos as int, entity_view(*old(entity))) {
                Ok((q, ev)) => r is Ok && entity_view(*final(entity)) == ev && final(self).pos == q,
                Err(o) => r matches Err(e) && e.is_syntax_at(old(self).src@, o),
            },
    {
        let ghost start = *self;
        let ghost goal = sp_supertypes(self.src@, self.tokens@, self.pos as int, entity_view(*entity));
        loop
            invariant
                self.grows(start),
                start == *old(self),
                goal == sp_supertypes(start.src@, start.tokens@, start.pos as int, entity_view(*old(entity))),
                goal == sp_supertypes(self.src@, self.tokens@, self.pos as int, entity_view(*entity)),
            decreases self.tokens@.len() - self.pos,
        {
            let ghost at = self.pos as int;
            let supertype = match self.ident("a supertype name") {
                Ok(v) => v,
                Err(e) => {
                    return Err(e);
                },
            };
            let ghost before = entity_view(*entity);
            entity.supertypes.push(supertype);
            proof {
                assert(entity_view(*entity).supertypes =~= before.supertypes.push(supertype@));
                assert(entity_view(*entity) == EntityView { supertypes: before.supertypes.push(supertype@), ..before });
            }
            let separator = match self.next("',' or ')'") {
                Ok(v) => v,
                Err(e) => {
                    return Err(e);
                },
            };
            if self.is_symbol(separator, 41) {
                return Ok(());
            }
            if !self.is_symbol(separator, 44) {
                return Err(self.unexpected(separator, "',' or ')'"));
            }
            assert(at < self.pos);
        }
    }

    /// An entity's attributes, through `END_ENTITY;`.
    fn entity_body(&mut self, entity: &mut Entity) -> (r: Result<()>)
        requires
            old(self).inv(),
        ensures
            final(self).grows(*old(self)),
            r matches Err(e) ==> e is Syntax,
            match sp_entity_body(old(self).src@, old(self).tokens@, old(self).pos as int, entity_view(*old(entity)), Section::Explicit) {
                Ok((q, ev)) => r is Ok && entity_view(*final(entity)) == ev && final(self).pos == q,
                Err(o) => r matches Err(e) && e.is_syntax_at(old(self).src@, o),
            },
    {
        let ghost start = *self;
        let ghost goal = sp_entity_body(self.src@, self.tokens@, self.pos as int, entity_view(*entity), Section::Explicit);
        let mut section = Section::Explicit;
        loop
            invariant
                self.grows(start),
                start == *old(self),
                goal == sp_entity_body(start.src@, start.tokens@, start.pos as int, entity_view(*old(entity)), Section::Explicit),
                goal == sp_entity_body(self.src@, self.tokens@, self.pos as int, entity_view(*entity), section),
            decreases self.tokens@.len() - self.pos,
        {
            let ghost at = self.pos as int;
            let token = match self.peek() {
                Some(t) => t,
                None => {
                    return Err(self.end_of_input("an attribute or END_ENTITY"));
                },
            };
            if self.is_keyword(token, "END_ENTITY") {
                self.pos = self.pos + 1;
                return self.expect_symbol(59);
            }
            if self.is_keyword(token, "DERIVE") {
                self.pos = self.pos + 1;
                section = Section::Derive;
                continue;
            }
            if self.is_keyword(token, "INVERSE") || self.is_keyword(token, "UNIQUE") || self.is_keyword(
                token,
                "WHERE",
            ) {
                self.pos = self.pos + 1;
                section = Section::Skip;
                continue;
            }
            match section {
                Section::Explicit => {
                    if let Err(e) = self.explicit_attributes(entity) {
                        return Err(e);
                    }
                },
                Section::Derive => {
                    match self.attribute_name() {
                        Ok(AttributeName::Redeclared(reference)) => {
                            let ghost before = entity_view(*entity);
                            let ghost pair = (reference.entity@, reference.attribute@);
                            entity.derived.push(reference);
                            proof {
                                assert(entity_view(*entity).derived =~= before.derived.push(pair));
                                assert(entity_view(*entity) == EntityView { derived: before.derived.push(pair), ..before });
                            }
                        },
                        Ok(AttributeName::Plain(_)) => {},
                        Err(e) => {
                            return Err(e);
                        },
                    }
                    if let Err(e) = self.skip_past(59) {
                        return Err(e);
                    }
                },
                Section::Skip => {
                    if let Err(e) = self.skip_past(59) {
                        return Err(e);
                    }
                },
            }
            assert(at < self.pos);
        }
    }

    /// `a, b : [OPTIONAL] type;`, where each name may be a redeclaration.
    fn explicit_attributes(&mut self, entity: &mut Entity) -> (r: Result<()>)
        requires
            old(self).inv(),
        ensures
            stepped(*final(self), *old(self), r),
            match sp_explicit(old(self).src@, old(self).tokens@, old(self).pos as int, entity_view(*old(entity))) {
                Ok((q, ev)) => r is Ok && entity_view(*final(entity)) == ev && final(self).pos == q,
                Err(o) => r matches Err(e) && e.is_syntax_at(old(self).src@, o),
            },
    {
        let names = match self.attribute_names() {
            Ok(v) => v,
            Err(e) => {
                return Err(e);
            },
        };
        let optional = self.eat_keyword("OPTIONAL");
        let ty = match self.type_ref() {
            Ok(v) => v,
            Err(e) => {
                return Err(e);
            },
        };
        if let Err(e) = self.expect_symbol(59) {
            return Err(e);
        }
        declare_names(entity, &names, optional, &ty);
        Ok(())
    }

    /// The names of an explicit attribute declaration, through the `:`.
    fn attribute_names(&mut self) -> (r: Result<Vec<AttributeName>>)
        requires
            old(self).inv(),
        ensures
            stepped(*final(self), *old(self), r),
            match sp_names(old(self).src@, old(self).tokens@, old(self).pos as int, Seq::empty()) {
                Ok((q, nv)) => r matches Ok(names) && names_view(names@) == nv && final(self).pos == q,
                Err(o) => r matches Err(e) && e.is_syntax_at(old(self).src@, o),
            },
    {
        let ghost start = *self;
        let ghost goal = sp_names(self.src@, self.tokens@, self.pos as int, Seq::empty());
        let mut names: Vec<AttributeName> = Vec::new();
        proof {
            assert(names_view(names@) =~= Seq::empty());
        }
        loop
            invariant_except_break
                goal == sp_names(self.src@, self.tokens@, self.pos as int, names_view(names@)),
            invariant
                self.grows(start),
                start == *old(self),
                start.pos < self.pos || names@.len() == 0,
                goal == sp_names(start.src@, start.tokens@, start.pos as int, Seq::empty()),
            ensures
                start.pos < self.pos,
                goal == Ok::<(int, Seq<AttrNameView>), int>((self.pos as int, names_view(names@))),
            decreases self.tokens@.len() - self.pos,
        {
            let ghost at = self.pos as int;
            let name = match self.attribute_name() {
                Ok(v) => v,
                Err(e) => {
                    return Err(e);
                },
            };
            let ghost before = names@;
            names.push(name);
            proof {
                assert(names_view(names@) =~= names_view(before).push(attr_name_view(name)));
            }
            let separator = match self.next("',' or ':'") {
                Ok(v) => v,
                Err(e) => {
                    return Err(e);
                },
            };
            if self.is_symbol(separator, 58) {
                break;
            }
            if !self.is_symbol(separator, 44) {
                return Err(self.unexpected(separator, "',' or ':'"));
            }
            assert(at < self.pos);
        }
        Ok(names)
    }
}

/// Adds to `entity` the declaration of `names`, optional or not, of type
/// `ty`: attributes for plain names, redeclarations for the others.
fn declare_names(entity: &mut Entity, names: &Vec<AttributeName>, optional: bool, ty: &TypeRef)
    ensures
        entity_view(*final(entity)) == declare(entity_view(*old(entity)), names_view(names@), optional, type_view(*ty)),
{
    let ghost e0 = entity_view(*entity);
    let ghost nv = names_view(names@);
    let mut k: usize = 0;
    while k < names.len()
        invariant
            k <= names@.len(),
            nv == names_view(names@),
            e0 == entity_view(*old(entity)),
            entity_view(*entity) == declare(e0, nv.take(k as int), optional, type_view(*ty)),
        decreases names@.len() - k,
    {
        let ghost before = entity_view(*entity);
        match &names[k] {
            AttributeName::Plain(name) => {
                entity.attributes.push(Attribute { name: name.clone(), optional, ty: copy_type(ty) });
                proof {
                    let a = AttributeView { name: name@, optional, ty: type_view(*ty) };
                    assert(entity_view(*entity).attributes =~= before.attributes.push(a));
                    assert(entity_view(*entity) == EntityView { attributes: before.attributes.push(a), ..before });
                }
            },
            AttributeName::Redeclared(attribute) => {
                entity.redeclared.push(
                    Redeclaration {
                        attribute: AttributeRef {
                            entity: attribute.entity.clone(),
                            attribute: attribute.attribute.clone(),
                        },
                        optional,
                        ty: copy_type(ty),
                    },
                );
                proof {
                    let d = RedeclarationView {
                        entity: attribute.entity@,
                        attribute: attribute.attribute@,
                        optional,
                        ty: type_view(*ty),
                    };
                    assert(entity_view(*entity).redeclared =~= before.redeclared.push(d));
                    assert(entity_view(*entity) == EntityView { redeclared: before.redeclared.push(d), ..before });
                }
            },
        }
        proof {
            assert(nv.take(k + 1).drop_last() =~= nv.take(k as int));
        }
        k = k + 1;
    }
    proof {
        assert(nv.take(names@.len() as int) =~= nv);
    }
}

impl<'a> Parser<'a> {
    /// `name` or `SELF\entity.attribute [RENAMED name]`.
    fn attribute_name(&mut self) -> (r: Result<AttributeName>)
        requires
            old(self).inv(),
        ensures
            stepped(*final(self), *old(self), r),
            match sp_attribute_name(old(self).src@, old(self).tokens@, old(self).pos as int) {
                Ok((q, n)) => r matches Ok(x) && attr_name_view(x) == n && final(self).pos == q,
                Err(o) => r matches Err(e) && e.is_syntax_at(old(self).src@, o),
            },
    {
        let token = match self.next("an attribute name") {
            Ok(v) => v,
            Err(e) => {
                return Err(e);
            },
        };
        if !self.is_keyword(token, "SELF") {
            return match self.word(token) {
                Some(w) => Ok(AttributeName::Plain(w)),
                None => Err(self.unexpected(token, "an attribute name")),
            };
        }
        if let Err(e) = self.expect_symbol(92) {
            return Err(e);
        }
        let entity = match self.ident("a supertype name") {
            Ok(v) => v,
            Err(e) => {
                return Err(e);
            },
        };
        if let Err(e) = self.expect_symbol(46) {
            return Err(e);
        }
        let attribute = match self.ident("an attribute name") {
            Ok(v) => v,
            Err(e) => {
                return Err(e);
            },
        };
        if self.eat_keyword("RENAMED") {
            if let Err(e) = self.ident("the new attribute name") {
                return Err(e);
            }
        }
        Ok(AttributeName::Redeclared(AttributeRef { entity, attribute }))
    }

    /// `TYPE name = underlying; [WHERE ...] END_TYPE;` after `TYPE`.
    fn type_decl(&mut self) -> (r: Result<(String, TypeDef)>)
        requires
            old(self).inv(),
        ensures
            stepped(*final(self), *old(self), r),
            match sp_type_decl(old(self).src@, old(self).tokens@, old(self).pos as int) {
                Ok((q, d)) => r matches Ok(x) && type_def_view(x) == d && final(self).pos == q,
                Err(o) => r matches Err(e) && e.is_syntax_at(old(self).src@, o),
            },
    {
        let name = match self.ident("a type name") {
            Ok(v) => v,
            Err(e) => {
                return Err(e);
            },
        };
        if let Err(e) = self.expect_symbol(61) {
            return Err(e);
        }
        let constructed = match self.peek() {
            Some(t) => self.is_keyword(t, "EXTENSIBLE") || self.is_keyword(t, "SELECT") || self.is_keyword(
                t,
                "ENUMERATION",
            ),
            None => false,
        };
        let def = if constructed {
            if let Err(e) = self.skip_past(59) {
                return Err(e);
            }
            TypeDef::Constructed
        } else {
            let ty = match self.type_ref() {
                Ok(v) => v,
                Err(e) => {
                    return Err(e);
                },
            };
            if let Err(e) = self.expect_symbol(59) {
                return Err(e);
            }
            TypeDef::Alias(ty)
        };
        if let Err(e) = self.end_type() {
            return Err(e);
        }
        Ok((name, def))
    }

    /// Skips through the `END_TYPE ;` that ends a type declaration.
    fn end_type(&mut self) -> (r: Result<()>)
        requires
            old(self).inv(),
        ensures
            final(self).grows(*old(self)),
            r matches Err(e) ==> e is Syntax,
            match sp_end_type(old(self).src@, old(self).tokens@, old(self).pos as int) {
                Ok(q) => r is Ok && final(self).pos == q,
                Err(o) => r matches Err(e) && e.is_syntax_at(old(self).src@, o),
            },
    {
        let ghost start = *self;
        let ghost goal = sp_end_type(self.src@, self.tokens@, self.pos as int);
        loop
            invariant
                self.grows(start),
                start == *old(self),
                goal == sp_end_type(start.src@, start.tokens@, start.pos as int),
                goal == sp_end_type(self.src@, self.tokens@, self.pos as int),
            decreases self.tokens@.len() - self.pos,
        {
            let token = match self.next("END_TYPE") {
                Ok(v) => v,
                Err(e) => {
                    return Err(e);
                },
            };
            if self.is_keyword(token, "END_TYPE") {
                return self.expect_symbol(59);
            }
        }
    }

    /// An aggregate type after its keyword: the label, the bounds, `OF` and
    /// the modifiers before the element type.
    fn aggregate_head(&mut self, kind: AggregateKind) -> (r: Result<(Option<u64>, Option<u64>)>)
        requires
            old(self).inv(),
        ensures
            final(self).grows(*old(self)),
            r matches Err(e) ==> e is Syntax,
            match sp_aggregate_head(old(self).src@, old(self).tokens@, old(self).pos as int, kind) {
                Ok((q, b)) => r == Ok::<(Option<u64>, Option<u64>), Error>(b) && final(self).pos == q,
                Err(o) => r matches Err(e) && e.is_syntax_at(old(self).src@, o),
            },
    {
        if kind == AggregateKind::Aggregate && self.eat_symbol(58) {
            if let Err(e) = self.ident("a type label") {
                return Err(e);
            }
        }
        let (lower, upper) = if self.eat_symbol(91) {
            match self.bounds() {
                Ok(v) => v,
                Err(e) => {
                    return Err(e);
                },
            }
        } else {
            (Some(0), None)
        };
        if let Err(e) = self.expect_keyword("OF") {
            return Err(e);
        }
        let ghost p4 = self.pos as int;
        loop
            invariant
                self.grows(*old(self)),
                p4 <= self.pos,
                skip_modifiers(self.src@, self.tokens@, self.pos as int) == skip_modifiers(
                    self.src@,
                    self.tokens@,
                    p4,
                ),
            ensures
                self.grows(*old(self)),
                self.pos == skip_modifiers(self.src@, self.tokens@, p4),
            decreases self.tokens@.len() - self.pos,
        {
            if !(self.eat_keyword("OPTIONAL") || self.eat_keyword("UNIQUE")) {
                break;
            }
        }
        Ok((lower, upper))
    }

    /// What follows a built-in type's keyword `token`: a width and
    /// `FIXED`, or a label.
    fn builtin_rest(&mut self, token: Tok) -> (r: Result<()>)
        requires
            old(self).inv(),
            token.start <= token.end <= old(self).src@.len(),
        ensures
            final(self).grows(*old(self)),
            r matches Err(e) ==> e is Syntax,
            match sp_builtin_rest(old(self).src@, old(self).tokens@, old(self).pos as int, token) {
                Ok(q) => r is Ok && final(self).pos == q,
                Err(o) => r matches Err(e) && e.is_syntax_at(old(self).src@, o),
            },
    {
        if self.is_keyword(token, "STRING") || self.is_keyword(token, "BINARY") || self.is_keyword(token, "REAL") {
            if self.eat_symbol(40) {
                if let Err(e) = self.skip_rest_of_parentheses() {
                    return Err(e);
                }
            }
            self.eat_keyword("FIXED");
        } else if self.is_keyword(token, "GENERIC") || self.is_keyword(token, "GENERIC_ENTITY") {
            if self.eat_symbol(58) {
                if let Err(e) = self.ident("a type label") {
                    return Err(e);
                }
            }
        }
        Ok(())
    }

    fn type_ref(&mut self) -> (r: Result<TypeRef>)
        requires
            old(self).inv(),
        ensures
            stepped(*final(self), *old(self), r),
            match sp_type(old(self).src@, old(self).tokens@, old(self).pos as int) {
                Ok((q, t)) => r matches Ok(x) && type_view(x) == t && final(self).pos == q,
                Err(o) => r matches Err(e) && e.is_syntax_at(old(self).src@, o),
            },
        decreases old(self).tokens@.len() - old(self).pos,
    {
        let token = match self.next("a type") {
            Ok(v) => v,
            Err(e) => {
                return Err(e);
            },
        };
        let word = match self.word(token) {
            Some(w) => w,
            None => {
                return Err(self.unexpected(token, "a type"));
            },
        };
        let kind = if self.is_keyword(token, "ARRAY") {
            Some(AggregateKind::Array)
        } else if self.is_keyword(token, "BAG") {
            Some(AggregateKind::Bag)
        } else if self.is_keyword(token, "LIST") {
            Some(AggregateKind::List)
        } else if self.is_keyword(token, "SET") {
            Some(AggregateKind::SetOf)
        } else if self.is_keyword(token, "AGGREGATE") {
            Some(AggregateKind::Aggregate)
        } else {
            None
        };
        proof {
            assert(kind == aggregate_kind(self.src@, token));
        }
        if let Some(kind) = kind {
            let (lower, upper) = match self.aggregate_head(kind) {
                Ok(v) => v,
                Err(e) => {
                    return Err(e);
                },
            };
            let element = match self.type_ref() {
                Ok(v) => v,
                Err(e) => {
                    return Err(e);
                },
            };
            return Ok(TypeRef::Aggregate { kind, lower, upper, element: Box::new(element) });
        }
        if self.is_keyword(token, "STRING") || self.is_keyword(token, "BINARY") || self.is_keyword(token, "REAL")
            || self.is_keyword(token, "GENERIC") || self.is_keyword(token, "GENERIC_ENTITY") || self.is_keyword(
            token,
            "INTEGER",
        ) || self.is_keyword(token, "NUMBER") || self.is_keyword(token, "LOGICAL") || self.is_keyword(
            token,
            "BOOLEAN",
        ) {
            if let Err(e) = self.builtin_rest(token) {
                return Err(e);
            }
            Ok(TypeRef::Builtin(word))
        } else {
            Ok(TypeRef::Named(word))
        }
    }

    /// `lower : upper ]` after `[`, keeping bounds that are literals.
    fn bounds(&mut self) -> (r: Result<(Option<u64>, Option<u64>)>)
        requires
            old(self).inv(),
        ensures
            stepped(*final(self), *old(self), r),
            match sp_bounds(old(self).src@, old(self).tokens@, old(self).pos as int) {
                Ok((q, b)) => r == Ok::<(Option<u64>, Option<u64>), Error>(b) && final(self).pos == q,
                Err(o) => r matches Err(e) && e.is_syntax_at(old(self).src@, o),
            },
    {
        proof {
            lemma_past_advances(self.src@, self.tokens@, self.pos as int, 58, 0);
        }
        let lower = match self.bound(58) {
            Ok(v) => v,
            Err(e) => {
                return Err(e);
            },
        };
        proof {
            lemma_past_advances(self.src@, self.tokens@, self.pos as int, 93, 0);
        }
        let upper = match self.bound(93) {
            Ok(v) => v,
            Err(e) => {
                return Err(e);
            },
        };
        Ok((lower, upper))
    }
}

} // verus!
