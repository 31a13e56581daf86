//! Parser for the Part 21 exchange structure.
//!
//! Validates the grammar of the whole file and records every instance's
//! tokens into an [`Exchange`]. Parameters are checked for well-formed
//! nesting but not interpreted; that is the model's job.
//!
//! Leniencies, in addition to the lexer's: the header may hold any number
//! of entities; section keywords are matched ignoring ASCII case; edition 3
//! `ANCHOR` and `REFERENCE` entries are kept as written, one token list
//! each, and not checked further; `SIGNATURE` sections are kept as text;
//! anything after `END-ISO-10303-21;` is ignored.
use vstd::prelude::*;
use vstd::string::*;
use vstd::hash_map::HashMapWithView;
use crate::error::{Error, Result};
use crate::text::{owned, push_decimal, range_eq_ignore_case, eq_ignore_case, lossy};
use super::lexer::{lemma_next_at, next_at, lexeme, slice_range, start_of, Lexer, Span, Token, TokenKind};
use super::exchange::{
    genuine, ordered, instance_ok, entry_ok, DataSection, Entry, Exchange, ExtraKind,
    ExtraSection, Instance,
};

verus! {

/// Parameter lists nested deeper than this are rejected. Real files nest a
/// handful of levels; this bounds what crafted input can make us track.
pub const MAX_DEPTH: usize = 128;

/// A token read at position `p` is genuine and lies after `p`.
pub proof fn lemma_next_genuine(s: Seq<u8>, p: int)
    requires
        0 <= p <= s.len() < usize::MAX,
    ensures
        next_at(s, p) matches Ok(Some(t)) ==> genuine(s, t) && p <= t.span.start,
{
    lemma_next_at(s, p);
}

/// Every instance's name is the `#id` token read where its text starts.
pub open spec fn instances_named(src: Seq<u8>, ins: Seq<Instance>) -> bool {
    forall|p: int|
        0 <= p < ins.len() ==> lexeme(src, (#[trigger] ins[p]).span.start as int) == Ok::<
            (TokenKind, int),
            int,
        >((TokenKind::InstanceName(ins[p].id), ins[p].name_end as int))
}

/// The instances appear in the order of their text, without overlapping.
pub open spec fn in_file_order(ins: Seq<Instance>) -> bool {
    forall|p: int, q: int| 0 <= p < q < ins.len() ==> #[trigger] ins[p].span.end <= #[trigger] ins[q].span.start
}

/// The instances are in file order and all end at or before `c`, which
/// leaves room for no more than `c` of them.
pub open spec fn placed(ins: Seq<Instance>, c: int) -> bool {
    &&& in_file_order(ins)
    &&& ins.len() <= c
    &&& forall|p: int| 0 <= p < ins.len() ==> (#[trigger] ins[p]).span.end <= c
}

/// Parses a complete Part 21 file.
///
/// It succeeds exactly when [`file_spec`] accepts `src`, and the exchange
/// then holds what `file_spec` reads: its tokens, instances, index,
/// sections and header. The exchange is well formed over `src`, its
/// instances are in the order of their text, and each instance's `#id` is
/// the name token that starts its text. A refusal is the error
/// `file_spec` gives: a syntax error at its offset, or the instance name
/// defined twice.
///
/// # Errors
///
/// Returns [`Error::Syntax`] if the file is not well-formed, and
/// [`Error::DuplicateId`] if an instance name is defined more than once.
/// References to undefined instances are not checked here; see
/// `Graph::new`.
pub fn parse(src: &[u8]) -> (r: Result<Exchange<'_>>)
    requires
        src@.len() < usize::MAX,
    ensures
        r matches Ok(ex) ==> {
            &&& ex.wf()
            &&& ex.src_view() == src@
            &&& in_file_order(ex.instances_view())
            &&& instances_named(src@, ex.instances_view())
        },
        match file_spec(src@) {
            Ok(f) => r matches Ok(ex) && exchange_is(ex, f),
            Err(e) => r matches Err(err) && error_is(err, e, src@),
        },
{
    Parser::new(src).file()
}

/// An open parenthesis of a parameter list: a list, or a typed value's.
#[derive(Clone, Copy, PartialEq, Eq, Structural)]
pub enum Frame {
    List,
    Typed,
}

/// What may come next in a parameter list.
#[derive(Clone, Copy, PartialEq, Eq, Structural)]
pub enum Expect {
    ParamOrClose,
    Param,
    CommaOrClose,
}

// ---------------------------------------------------------------------
// The grammar, as a function of the source.
// ---------------------------------------------------------------------

/// Where reading stands: the lexer's position, a token read ahead, and
/// the tokens kept so far.
pub struct PState {
    pub pos: int,
    pub peeked: Option<Token>,
    pub tokens: Seq<Token>,
}

/// Where the next token starts, or the position if none is read ahead.
pub open spec fn cur(s: PState) -> int {
    match s.peeked {
        Some(t) => t.span.start as int,
        None => s.pos,
    }
}

/// Why a file is refused: a syntax error at an offset, or an instance name
/// defined twice.
pub enum PErr {
    Syntax(int),
    Duplicate(u64),
}

/// True if `e` is the error `pe` in `src`.
pub open spec fn error_is(e: Error, pe: PErr, src: Seq<u8>) -> bool {
    match pe {
        PErr::Syntax(o) => e.is_syntax_at(src, o),
        PErr::Duplicate(id) => e == Error::DuplicateId(id),
    }
}

/// `s` with `t` kept.
pub open spec fn kept(s: PState, t: Token) -> PState {
    PState { pos: s.pos, peeked: s.peeked, tokens: s.tokens.push(t) }
}

/// Reads ahead one token, unless one is already.
pub open spec fn sp_peek(src: Seq<u8>, s: PState) -> core::result::Result<PState, PErr> {
    match s.peeked {
        Some(_) => Ok(s),
        None => match next_at(src, s.pos) {
            Ok(None) => Ok(PState { pos: src.len() as int, peeked: None, tokens: s.tokens }),
            Ok(Some(t)) => Ok(PState { pos: t.span.end as int, peeked: Some(t), tokens: s.tokens }),
            Err(o) => Err(PErr::Syntax(o)),
        },
    }
}

/// Reads the next token; the end of input is an error.
pub open spec fn sp_next(src: Seq<u8>, s: PState) -> core::result::Result<(PState, Token), PErr> {
    match s.peeked {
        Some(t) => Ok((PState { pos: s.pos, peeked: None, tokens: s.tokens }, t)),
        None => match next_at(src, s.pos) {
            Ok(None) => Err(PErr::Syntax(src.len() as int)),
            Ok(Some(t)) => Ok((PState { pos: t.span.end as int, peeked: None, tokens: s.tokens }, t)),
            Err(o) => Err(PErr::Syntax(o)),
        },
    }
}

/// Reads the next token, which must be of `kind`.
pub open spec fn sp_expect(src: Seq<u8>, s: PState, kind: TokenKind) -> core::result::Result<(PState, Token), PErr> {
    match sp_next(src, s) {
        Ok((s1, t)) => if t.kind == kind {
            Ok((s1, t))
        } else {
            Err(PErr::Syntax(t.span.start as int))
        },
        Err(e) => Err(e),
    }
}

/// True if `t` is the keyword `kw`, ignoring ASCII case.
pub open spec fn is_kw(src: Seq<u8>, t: Token, kw: Seq<char>) -> bool {
    t.kind == TokenKind::Keyword && eq_ignore_case(t.span.of(src), crate::text::ascii_bytes(kw))
}

/// Reads the keyword `kw`.
pub open spec fn sp_expect_kw(src: Seq<u8>, s: PState, kw: Seq<char>) -> core::result::Result<PState, PErr> {
    match sp_next(src, s) {
        Ok((s1, t)) => if is_kw(src, t, kw) {
            Ok(s1)
        } else {
            Err(PErr::Syntax(t.span.start as int))
        },
        Err(e) => Err(e),
    }
}

/// Reads the keyword `kw` if it comes next.
pub open spec fn sp_eat_kw(src: Seq<u8>, s: PState, kw: Seq<char>) -> core::result::Result<(PState, Option<Token>), PErr> {
    match sp_peek(src, s) {
        Ok(s1) => match s1.peeked {
            Some(t) => if is_kw(src, t, kw) {
                Ok((PState { pos: s1.pos, peeked: None, tokens: s1.tokens }, Some(t)))
            } else {
                Ok((s1, None))
            },
            None => Ok((s1, None)),
        },
        Err(e) => Err(e),
    }
}

/// True for the kinds of token that are a whole parameter.
pub open spec fn simple_param(k: TokenKind) -> bool {
    match k {
        TokenKind::Dollar | TokenKind::Asterisk | TokenKind::Integer | TokenKind::Real | TokenKind::String
        | TokenKind::Enumeration | TokenKind::Binary | TokenKind::InstanceName(_) | TokenKind::ConstantName
        | TokenKind::ValueName | TokenKind::Resource => true,
        _ => false,
    }
}

/// True if `s2` reads on from `s`: every token read moves the cursor on.
pub open spec fn advances(src: Seq<u8>, s: PState, s2: PState) -> bool {
    cur(s) < cur(s2) <= src.len()
}

/// The rest of a parameter list, with `stack` open and `expect` next,
/// through the `)` that closes the outermost.
pub open spec fn sp_params(src: Seq<u8>, s: PState, stack: Seq<Frame>, expect: Expect) -> core::result::Result<PState, PErr>
    decreases src.len() - cur(s),
{
    match sp_next(src, s) {
        Err(e) => Err(e),
        Ok((s1, t)) => {
            let s2 = kept(s1, t);
            if !advances(src, s, s2) || stack.len() == 0 {
                Err(PErr::Syntax(t.span.start as int))
            } else if expect == Expect::CommaOrClose {
                if t.kind == TokenKind::Comma {
                    if stack.last() == Frame::Typed {
                        Err(PErr::Syntax(t.span.start as int))
                    } else {
                        sp_params(src, s2, stack, Expect::Param)
                    }
                } else if t.kind == TokenKind::RightParen {
                    if stack.len() == 1 {
                        Ok(s2)
                    } else {
                        sp_params(src, s2, stack.drop_last(), Expect::CommaOrClose)
                    }
                } else {
                    Err(PErr::Syntax(t.span.start as int))
                }
            } else if expect == Expect::ParamOrClose && t.kind == TokenKind::RightParen {
                if stack.len() == 1 {
                    Ok(s2)
                } else {
                    sp_params(src, s2, stack.drop_last(), Expect::CommaOrClose)
                }
            } else if t.kind == TokenKind::LeftParen {
                if stack.len() >= MAX_DEPTH {
                    Err(PErr::Syntax(t.span.start as int))
                } else {
                    sp_params(src, s2, stack.push(Frame::List), Expect::ParamOrClose)
                }
            } else if t.kind == TokenKind::Keyword || t.kind == TokenKind::UserKeyword {
                match sp_expect(src, s2, TokenKind::LeftParen) {
                    Err(e) => Err(e),
                    Ok((s3, open)) => {
                        let s4 = kept(s3, open);
                        if !advances(src, s, s4) {
                            Err(PErr::Syntax(t.span.start as int))
                        } else if stack.len() >= MAX_DEPTH {
                            Err(PErr::Syntax(t.span.start as int))
                        } else {
                            sp_params(src, s4, stack.push(Frame::Typed), Expect::Param)
                        }
                    },
                }
            } else if simple_param(t.kind) {
                sp_params(src, s2, stack, Expect::CommaOrClose)
            } else {
                Err(PErr::Syntax(t.span.start as int))
            }
        },
    }
}

/// `NAME(params)` whose name `name` was just read.
pub open spec fn sp_record(src: Seq<u8>, s: PState, name: Token) -> core::result::Result<PState, PErr> {
    let s1 = kept(s, name);
    match sp_expect(src, s1, TokenKind::LeftParen) {
        Err(e) => Err(e),
        Ok((s2, open)) => sp_params(src, kept(s2, open), seq![Frame::List], Expect::ParamOrClose),
    }
}

/// The rest of a complex instance's records, through its `)`; `seen` if
/// one record was read.
pub open spec fn sp_parts(src: Seq<u8>, s: PState, seen: bool) -> core::result::Result<PState, PErr>
    decreases src.len() - cur(s),
{
    match sp_next(src, s) {
        Err(e) => Err(e),
        Ok((s1, part)) => if part.kind == TokenKind::Keyword || part.kind == TokenKind::UserKeyword {
            match sp_record(src, s1, part) {
                Err(e) => Err(e),
                Ok(s2) => if advances(src, s, s2) {
                    sp_parts(src, s2, true)
                } else {
                    Err(PErr::Syntax(part.span.start as int))
                },
            }
        } else if part.kind == TokenKind::RightParen && seen {
            Ok(kept(s1, part))
        } else {
            Err(PErr::Syntax(part.span.start as int))
        },
    }
}

/// The instance `#id = ...;` whose name `name` was just read.
pub open spec fn sp_instance(src: Seq<u8>, s: PState, name: Token, id: u64) -> core::result::Result<(PState, Instance), PErr> {
    match sp_expect(src, s, TokenKind::Equals) {
        Err(e) => Err(e),
        Ok((s1, _)) => {
            let start = s1.tokens.len();
            match sp_next(src, s1) {
                Err(e) => Err(e),
                Ok((s2, t)) => {
                    let body: core::result::Result<(PState, bool), PErr> = if t.kind == TokenKind::Keyword && src[t.span.start as int] == 38 {
                        Err(PErr::Syntax(t.span.start as int))
                    } else if t.kind == TokenKind::Keyword || t.kind == TokenKind::UserKeyword {
                        match sp_record(src, s2, t) {
                            Ok(s3) => Ok((s3, false)),
                            Err(e) => Err(e),
                        }
                    } else if t.kind == TokenKind::LeftParen {
                        match sp_parts(src, kept(s2, t), false) {
                            Ok(s3) => Ok((s3, true)),
                            Err(e) => Err(e),
                        }
                    } else {
                        Err(PErr::Syntax(t.span.start as int))
                    };
                    match body {
                        Err(e) => Err(e),
                        Ok((s3, complex)) => match sp_expect(src, s3, TokenKind::Semicolon) {
                            Err(e) => Err(e),
                            Ok((s4, end)) => Ok(
                                (
                                    s4,
                                    Instance {
                                        id,
                                        span: Span { start: name.span.start, end: end.span.end },
                                        name_end: name.span.end,
                                        token_start: start as usize,
                                        token_end: s4.tokens.len() as usize,
                                        complex,
                                    },
                                ),
                            ),
                        },
                    }
                },
            }
        },
    }
}

/// What a data section reads: the state after it, the instances and index
/// so far, and the section.
pub struct DataRead {
    pub s: PState,
    pub instances: Seq<Instance>,
    pub index: Map<u64, usize>,
    pub section: DataSection,
}

/// The instances of a data section through its `ENDSEC;`.
pub open spec fn sp_instances(
    src: Seq<u8>,
    s: PState,
    ins: Seq<Instance>,
    ix: Map<u64, usize>,
    params_start: usize,
    params_end: usize,
    first: usize,
) -> core::result::Result<DataRead, PErr>
    decreases src.len() - cur(s),
{
    match sp_next(src, s) {
        Err(e) => Err(e),
        Ok((s1, token)) => match token.kind {
            TokenKind::InstanceName(id) => match sp_instance(src, s1, token, id) {
                Err(e) => Err(e),
                Ok((s2, inst)) => if ix.contains_key(id) {
                    Err(PErr::Duplicate(id))
                } else if advances(src, s, s2) {
                    sp_instances(src, s2, ins.push(inst), ix.insert(id, ins.len() as usize), params_start, params_end, first)
                } else {
                    Err(PErr::Syntax(token.span.start as int))
                },
            },
            _ => if is_kw(src, token, "ENDSEC"@) {
                match sp_expect(src, s1, TokenKind::Semicolon) {
                    Err(e) => Err(e),
                    Ok((s2, _)) => Ok(
                        DataRead {
                            s: s2,
                            instances: ins,
                            index: ix,
                            section: DataSection { params_start, params_end, first, last: ins.len() as usize },
                        },
                    ),
                }
            } else {
                Err(PErr::Syntax(token.span.start as int))
            },
        },
    }
}

/// A data section after its `DATA` keyword.
#[verifier::opaque]
pub open spec fn sp_data(src: Seq<u8>, s: PState, ins: Seq<Instance>, ix: Map<u64, usize>) -> core::result::Result<DataRead, PErr> {
    let params_start = s.tokens.len();
    match sp_peek(src, s) {
        Err(e) => Err(e),
        Ok(s1) => {
            let head: core::result::Result<PState, PErr> = match s1.peeked {
                Some(t) => if t.kind == TokenKind::LeftParen {
                    match sp_next(src, s1) {
                        Err(e) => Err(e),
                        Ok((s2, open)) => sp_params(src, kept(s2, open), seq![Frame::List], Expect::ParamOrClose),
                    }
                } else {
                    Ok(s1)
                },
                None => Ok(s1),
            };
            match head {
                Err(e) => Err(e),
                Ok(s4) => {
                    let params_end = s4.tokens.len();
                    match sp_expect(src, s4, TokenKind::Semicolon) {
                        Err(e) => Err(e),
                        Ok((s5, _)) => sp_instances(src, s5, ins, ix, params_start as usize, params_end as usize, ins.len() as usize),
                    }
                },
            }
        },
    }
}


/// An edition 3 section as plain values.
pub struct ExtraView {
    pub kind: ExtraKind,
    pub span: Span,
    pub entries: Seq<Entry>,
}

/// The view of `x`.
pub open spec fn extra_view_of(x: ExtraSection) -> ExtraView {
    ExtraView { kind: x.kind, span: x.span, entries: x.entries@ }
}

/// The rest of an entry whose first token `first` is kept at `start`,
/// through its `;`.
pub open spec fn sp_entry(src: Seq<u8>, s: PState, first: Token, start: usize) -> core::result::Result<(PState, Entry), PErr>
    decreases src.len() - cur(s),
{
    match sp_next(src, s) {
        Err(e) => Err(e),
        Ok((s1, t)) => if t.kind == TokenKind::Semicolon {
            Ok((s1, Entry { span: Span { start: first.span.start, end: t.span.end }, start, end: s1.tokens.len() as usize }))
        } else {
            let s2 = kept(s1, t);
            if advances(src, s, s2) {
                sp_entry(src, s2, first, start)
            } else {
                Err(PErr::Syntax(t.span.start as int))
            }
        },
    }
}

/// The entries of an edition 3 section through its `ENDSEC;`.
pub open spec fn sp_entries(src: Seq<u8>, s: PState, from: usize, kind: ExtraKind, entries: Seq<Entry>) -> core::result::Result<
    (PState, ExtraView),
    PErr,
>
    decreases src.len() - cur(s),
{
    match sp_eat_kw(src, s, "ENDSEC"@) {
        Err(e) => Err(e),
        Ok((s1, Some(_))) => match sp_expect(src, s1, TokenKind::Semicolon) {
            Err(e) => Err(e),
            Ok((s2, semi)) => Ok((s2, ExtraView { kind, span: Span { start: from, end: semi.span.end }, entries })),
        },
        Ok((s1, None)) => match sp_next(src, s1) {
            Err(e) => Err(e),
            Ok((s2, first)) => {
                let step: core::result::Result<(PState, Seq<Entry>), PErr> = if kind != ExtraKind::Signature {
                    match sp_entry(src, kept(s2, first), first, s2.tokens.len() as usize) {
                        Ok((s3, e)) => Ok((s3, entries.push(e))),
                        Err(e) => Err(e),
                    }
                } else {
                    Ok((s2, entries))
                };
                match step {
                    Err(e) => Err(e),
                    Ok((s3, es)) => if advances(src, s, s3) {
                        sp_entries(src, s3, from, kind, es)
                    } else {
                        Err(PErr::Syntax(first.span.start as int))
                    },
                }
            },
        },
    }
}

/// An edition 3 section after its keyword `keyword`.
#[verifier::opaque]
pub open spec fn sp_extra(src: Seq<u8>, s: PState, keyword: Token, kind: ExtraKind) -> core::result::Result<(PState, ExtraView), PErr> {
    match sp_expect(src, s, TokenKind::Semicolon) {
        Err(e) => Err(e),
        Ok((s1, _)) => sp_entries(src, s1, keyword.span.start, kind, Seq::empty()),
    }
}

/// The header's entities through its `ENDSEC`: the state after, and where
/// the `ENDSEC` starts.
pub open spec fn sp_header(src: Seq<u8>, s: PState) -> core::result::Result<(PState, usize), PErr>
    decreases src.len() - cur(s),
{
    match sp_eat_kw(src, s, "ENDSEC"@) {
        Err(e) => Err(e),
        Ok((s1, Some(endsec))) => Ok((s1, endsec.span.start)),
        Ok((s1, None)) => match sp_next(src, s1) {
            Err(e) => Err(e),
            Ok((s2, t)) => if t.kind != TokenKind::Keyword && t.kind != TokenKind::UserKeyword {
                Err(PErr::Syntax(t.span.start as int))
            } else {
                match sp_record(src, s2, t) {
                    Err(e) => Err(e),
                    Ok(s3) => match sp_expect(src, s3, TokenKind::Semicolon) {
                        Err(e) => Err(e),
                        Ok((s4, _)) => if advances(src, s, s4) {
                            sp_header(src, s4)
                        } else {
                            Err(PErr::Syntax(t.span.start as int))
                        },
                    },
                }
            },
        },
    }
}

/// What a file holds, as plain values.
pub struct FileRead {
    pub tokens: Seq<Token>,
    pub header_start: usize,
    pub header_stop: usize,
    pub header_text: Span,
    pub sections: Seq<DataSection>,
    pub instances: Seq<Instance>,
    pub index: Map<u64, usize>,
    pub extras: Seq<ExtraView>,
}

/// What one section after the header gives: more to read, the whole
/// file, or an error.
pub enum SectionStep {
    More(PState, Seq<DataSection>, Seq<ExtraView>, Seq<Instance>, Map<u64, usize>),
    Done(FileRead),
    Fail(PErr),
}

/// One section after the header.
pub open spec fn sp_step(
    src: Seq<u8>,
    s: PState,
    header: (usize, usize, Span),
    sections: Seq<DataSection>,
    extras: Seq<ExtraView>,
    ins: Seq<Instance>,
    ix: Map<u64, usize>,
) -> SectionStep {
    match sp_next(src, s) {
        Err(e) => SectionStep::Fail(e),
        Ok((s1, token)) => if is_kw(src, token, "DATA"@) {
            match sp_data(src, s1, ins, ix) {
                Err(e) => SectionStep::Fail(e),
                Ok(d) => SectionStep::More(d.s, sections.push(d.section), extras, d.instances, d.index),
            }
        } else if is_kw(src, token, "ANCHOR"@) || is_kw(src, token, "REFERENCE"@) || is_kw(src, token, "SIGNATURE"@) {
            let kind = if is_kw(src, token, "ANCHOR"@) {
                ExtraKind::Anchor
            } else if is_kw(src, token, "REFERENCE"@) {
                ExtraKind::Reference
            } else {
                ExtraKind::Signature
            };
            match sp_extra(src, s1, token, kind) {
                Err(e) => SectionStep::Fail(e),
                Ok((s2, x)) => SectionStep::More(s2, sections, extras.push(x), ins, ix),
            }
        } else if is_kw(src, token, "END-ISO-10303-21"@) {
            match sp_expect(src, s1, TokenKind::Semicolon) {
                Err(e) => SectionStep::Fail(e),
                Ok((s2, _)) => SectionStep::Done(
                    FileRead {
                        tokens: s2.tokens,
                        header_start: header.0,
                        header_stop: header.1,
                        header_text: header.2,
                        sections,
                        instances: ins,
                        index: ix,
                        extras,
                    },
                ),
            }
        } else {
            SectionStep::Fail(PErr::Syntax(token.span.start as int))
        },
    }
}

/// The sections after the header, through `END-ISO-10303-21;`.
pub open spec fn sp_sections(
    src: Seq<u8>,
    s: PState,
    header: (usize, usize, Span),
    sections: Seq<DataSection>,
    extras: Seq<ExtraView>,
    ins: Seq<Instance>,
    ix: Map<u64, usize>,
) -> core::result::Result<FileRead, PErr>
    decreases src.len() - cur(s),
{
    match sp_step(src, s, header, sections, extras, ins, ix) {
        SectionStep::More(s2, sections2, extras2, ins2, ix2) => if advances(src, s, s2) {
            sp_sections(src, s2, header, sections2, extras2, ins2, ix2)
        } else {
            Err(PErr::Syntax(cur(s)))
        },
        SectionStep::Done(f) => Ok(f),
        SectionStep::Fail(e) => Err(e),
    }
}

/// True if `ex` holds what `f` says: its tokens, instances, index, data
/// and edition 3 sections, and header.
pub open spec fn exchange_is(ex: Exchange, f: FileRead) -> bool {
    &&& ex.tokens_view() == f.tokens
    &&& ex.instances_view() == f.instances
    &&& ex.index_view() == f.index
    &&& ex.sections_view() == f.sections
    &&& ex.extra_view().map_values(|x: ExtraSection| extra_view_of(x)) == f.extras
    &&& ex.header_range() == (f.header_start, f.header_stop)
    &&& ex.header_span_view() == f.header_text
}

/// The file's start through the header's `ENDSEC;`: the state after, and
/// where the header's tokens start and stop and its text lies.
pub open spec fn sp_preamble(src: Seq<u8>, s0: PState) -> core::result::Result<(PState, (usize, usize, Span)), PErr> {
    match sp_expect_kw(src, s0, "ISO-10303-21"@) {
        Err(e) => Err(e),
        Ok(s1) => match sp_expect(src, s1, TokenKind::Semicolon) {
            Err(e) => Err(e),
            Ok((s2, _)) => match sp_expect_kw(src, s2, "HEADER"@) {
                Err(e) => Err(e),
                Ok(s3) => match sp_expect(src, s3, TokenKind::Semicolon) {
                    Err(e) => Err(e),
                    Ok((s4, open)) => match sp_header(src, s4) {
                        Err(e) => Err(e),
                        Ok((s5, header_end)) => match sp_expect(src, s5, TokenKind::Semicolon) {
                            Err(e) => Err(e),
                            Ok((s6, _)) => Ok(
                                (
                                    s6,
                                    (
                                        s4.tokens.len() as usize,
                                        s6.tokens.len() as usize,
                                        Span { start: open.span.end, end: header_end },
                                    ),
                                ),
                            ),
                        },
                    },
                },
            },
        },
    }
}

/// What `src` holds as a Part 21 file, or why it is refused.
pub open spec fn file_spec(src: Seq<u8>) -> core::result::Result<FileRead, PErr> {
    let s0 = PState { pos: start_of(src), peeked: None, tokens: Seq::empty() };
    match sp_preamble(src, s0) {
        Err(e) => Err(e),
        Ok((s6, header)) => sp_sections(src, s6, header, Seq::empty(), Seq::empty(), Seq::empty(), Map::empty()),
    }
}

struct Parser<'a> {
    src: &'a [u8],
    lexer: Lexer<'a>,
    peeked: Option<Token>,
    tokens: Vec<Token>,
}

/// The instances are well placed in `ts`, and `ix` maps each one's id to
/// its position and nothing else.
pub open spec fn instances_ok(src: Seq<u8>, ts: Seq<Token>, ins: Seq<Instance>, ix: Map<u64, usize>) -> bool {
    &&& forall|p: int| 0 <= p < ins.len() ==> instance_ok(src, ts, #[trigger] ins[p])
    &&& forall|p: int| 0 <= p < ins.len() ==> #[trigger] ix.contains_key(ins[p].id) && ix[ins[p].id] == p
    &&& forall|id: u64| #[trigger] ix.contains_key(id) ==> ix[id] < ins.len() && ins[ix[id] as int].id == id
}

/// The sections' ranges lie within `nt` tokens and `ni` instances.
pub open spec fn sections_ok(nt: int, ni: int, secs: Seq<DataSection>) -> bool {
    forall|s: int| 0 <= s < secs.len() ==> {
        let d = #[trigger] secs[s];
        &&& d.params_start <= d.params_end <= nt
        &&& d.first <= d.last <= ni
    }
}

/// The extra sections' entries are well placed.
pub open spec fn extras_ok(src: Seq<u8>, ts: Seq<Token>, extra: Seq<ExtraSection>) -> bool {
    &&& forall|s: int, e: int|
        0 <= s < extra.len() && 0 <= e < extra[s].entries@.len() ==> entry_ok(
            src,
            ts,
            #[trigger] extra[s].entries@[e],
        )
    &&& forall|s: int| 0 <= s < extra.len() ==> (#[trigger] extra[s]).span.start <= extra[s].span.end
        <= src.len()
}

impl<'a> Parser<'a> {
    /// Where the next token starts, or the lexer's position if none is
    /// peeked.
    spec fn cursor(&self) -> int {
        match self.peeked {
            Some(t) => t.span.start as int,
            None => self.lexer.position(),
        }
    }

    /// Where reading stands, as plain values.
    spec fn st(&self) -> PState {
        PState { pos: self.lexer.position(), peeked: self.peeked, tokens: self.tokens@ }
    }

    spec fn inv(&self) -> bool {
        &&& self.src@.len() < usize::MAX
        &&& self.lexer.wf()
        &&& self.lexer.input() == self.src@
        &&& forall|i: int| 0 <= i < self.tokens@.len() ==> genuine(self.src@, #[trigger] self.tokens@[i])
        &&& ordered(self.tokens@)
        &&& forall|i: int| 0 <= i < self.tokens@.len() ==> (#[trigger] self.tokens@[i]).span.end <= self.cursor()
        &&& match self.peeked {
            Some(t) => genuine(self.src@, t) && t.span.end == self.lexer.position(),
            None => true,
        }
        &&& 0 <= self.cursor() <= self.src@.len()
    }

    /// `self` was reached from `old` by reading on: the kept tokens were
    /// extended, the cursor did not move back, and every new token starts at
    /// or after `old`'s cursor.
    spec fn grows_from(&self, old: Parser<'a>) -> bool {
        &&& self.src@ == old.src@
        &&& old.tokens@.len() <= self.tokens@.len()
        &&& self.tokens@.subrange(0, old.tokens@.len() as int) == old.tokens@
        &&& old.cursor() <= self.cursor()
        &&& forall|j: int|
            old.tokens@.len() <= j < self.tokens@.len() ==> old.cursor() <= (
            #[trigger] self.tokens@[j]).span.start
    }

    /// `t` was just read: nothing was kept, it lies between the old and new
    /// cursors and after every kept token.
    spec fn consumed(&self, old: Parser<'a>, t: Token) -> bool {
        &&& self.tokens@ == old.tokens@
        &&& genuine(self.src@, t)
        &&& old.cursor() <= t.span.start
        &&& t.span.end <= self.cursor()
        &&& forall|i: int| 0 <= i < self.tokens@.len() ==> (#[trigger] self.tokens@[i]).span.end <= t.span.start
    }

    proof fn lemma_grows_trans(a: Parser<'a>, b: Parser<'a>, c: Parser<'a>)
        requires
            b.grows_from(a),
            c.grows_from(b),
        ensures
            c.grows_from(a),
    {
        assert(c.tokens@.subrange(0, a.tokens@.len() as int) =~= a.tokens@) by {
            assert(c.tokens@.subrange(0, a.tokens@.len() as int) =~= c.tokens@.subrange(
                0,
                b.tokens@.len() as int,
            ).subrange(0, a.tokens@.len() as int));
        }
        assert forall|j: int| a.tokens@.len() <= j < c.tokens@.len() implies a.cursor() <= (
        #[trigger] c.tokens@[j]).span.start by {
            if j < b.tokens@.len() {
                assert(c.tokens@[j] == c.tokens@.subrange(0, b.tokens@.len() as int)[j]);
            }
        }
    }

    proof fn lemma_grows_refl(a: Parser<'a>)
        ensures
            a.grows_from(a),
    {
        assert(a.tokens@.subrange(0, a.tokens@.len() as int) =~= a.tokens@);
    }

    fn new(src: &'a [u8]) -> (p: Self)
        requires
            src@.len() < usize::MAX,
        ensures
            p.inv(),
            p.src@ == src@,
            p.tokens@.len() == 0,
            p.st() == (PState { pos: start_of(src@), peeked: None, tokens: Seq::empty() }),
    {
        Parser { src, lexer: Lexer::new(src), peeked: None, tokens: Vec::new() }
    }

    /// Keeps `token`, read since `from`.
    fn keep(&mut self, token: Token, Ghost(from): Ghost<Parser<'a>>)
        requires
            old(self).inv(),
            old(self).grows_from(from),
            genuine(old(self).src@, token),
            from.cursor() <= token.span.start,
            token.span.end <= old(self).cursor(),
            forall|i: int| 0 <= i < old(self).tokens@.len() ==> (#[trigger] old(self).tokens@[i]).span.end
                <= token.span.start,
        ensures
            final(self).inv(),
            final(self).grows_from(from),
            final(self).tokens@ == old(self).tokens@.push(token),
            final(self).cursor() == old(self).cursor(),
            final(self).st() == kept(old(self).st(), token),
    {
        self.tokens.push(token);
        proof {
            assert(self.tokens@.subrange(0, from.tokens@.len() as int) =~= old(self).tokens@.subrange(
                0,
                from.tokens@.len() as int,
            ));
        }
    }

    fn peek(&mut self) -> (r: Result<Option<Token>>)
        requires
            old(self).inv(),
        ensures
            r is Ok ==> final(self).inv() && final(self).grows_from(*old(self)),
            r is Ok ==> final(self).tokens@ == old(self).tokens@,
            r matches Ok(Some(t)) ==> final(self).peeked == Some(t),
            match sp_peek(old(self).src@, old(self).st()) {
                Ok(s1) => r == Ok::<Option<Token>, Error>(s1.peeked) && final(self).st() == s1,
                Err(e) => r matches Err(err) && error_is(err, e, old(self).src@),
            },
    {
        if self.peeked.is_none() {
            proof {
                lemma_next_genuine(self.src@, self.lexer.position());
            }
            match self.lexer.next_token() {
                Ok(t) => {
                    self.peeked = t;
                },
                Err(e) => return Err(e),
            }
        }
        proof {
            assert(self.tokens@.subrange(0, old(self).tokens@.len() as int) =~= old(self).tokens@);
        }
        Ok(self.peeked)
    }

    fn next(&mut self, expected: &str) -> (r: Result<Token>)
        requires
            old(self).inv(),
        ensures
            r matches Ok(t) ==> final(self).inv() && final(self).grows_from(*old(self))
                && final(self).consumed(*old(self), t),
            match sp_next(old(self).src@, old(self).st()) {
                Ok((s1, t)) => r == Ok::<Token, Error>(t) && final(self).st() == s1,
                Err(e) => r matches Err(err) && error_is(err, e, old(self).src@),
            },
    {
        proof {
            assert(self.tokens@.subrange(0, old(self).tokens@.len() as int) =~= old(self).tokens@);
        }
        if let Some(token) = self.peeked {
            self.peeked = None;
            return Ok(token);
        }
        proof {
            lemma_next_genuine(self.src@, self.lexer.position());
        }
        match self.lexer.next_token() {
            Ok(Some(t)) => Ok(t),
            Ok(None) => {
                let mut message = owned("unexpected end of file; expected ");
                message.append(expected);
                Err(Error::syntax(self.src, self.src.len(), message))
            },
            Err(e) => Err(e),
        }
    }

    fn expect(&mut self, kind: TokenKind, expected: &str) -> (r: Result<Token>)
        requires
            old(self).inv(),
        ensures
            r matches Ok(t) ==> final(self).inv() && final(self).grows_from(*old(self))
                && final(self).consumed(*old(self), t) && t.kind == kind,
            match sp_expect(old(self).src@, old(self).st(), kind) {
                Ok((s1, t)) => r == Ok::<Token, Error>(t) && final(self).st() == s1,
                Err(e) => r matches Err(err) && error_is(err, e, old(self).src@),
            },
    {
        let token = match self.next(expected) {
            Ok(t) => t,
            Err(e) => return Err(e),
        };
        if token.kind == kind {
            Ok(token)
        } else {
            Err(self.unexpected(token, expected))
        }
    }

    /// True if `token` is the keyword `keyword`, ignoring ASCII case.
    fn is_keyword(&self, token: Token, keyword: &str) -> (b: bool)
        requires
            self.inv(),
            genuine(self.src@, token),
            crate::text::is_ascii_text(keyword@),
        ensures
            b == (token.kind == TokenKind::Keyword && eq_ignore_case(
                token.span.of(self.src@),
                crate::text::ascii_bytes(keyword@),
            )),
            b == is_kw(self.src@, token, keyword@),
    {
        token.kind == TokenKind::Keyword && range_eq_ignore_case(
            self.src,
            token.span.start,
            token.span.end,
            crate::text::ascii_of(keyword),
        )
    }

    fn expect_keyword(&mut self, keyword: &str) -> (r: Result<()>)
        requires
            old(self).inv(),
            crate::text::is_ascii_text(keyword@),
        ensures
            r is Ok ==> final(self).inv() && final(self).grows_from(*old(self)),
            match sp_expect_kw(old(self).src@, old(self).st(), keyword@) {
                Ok(s1) => r is Ok && final(self).st() == s1,
                Err(e) => r matches Err(err) && error_is(err, e, old(self).src@),
            },
    {
        let token = match self.next(keyword) {
            Ok(t) => t,
            Err(e) => return Err(e),
        };
        if self.is_keyword(token, keyword) {
            Ok(())
        } else {
            Err(self.unexpected(token, keyword))
        }
    }

    /// Consumes and returns the next token if it is `keyword`.
    fn eat_keyword(&mut self, keyword: &str) -> (r: Result<Option<Token>>)
        requires
            old(self).inv(),
            crate::text::is_ascii_text(keyword@),
        ensures
            r is Ok ==> final(self).inv() && final(self).grows_from(*old(self)),
            r is Ok ==> final(self).tokens@ == old(self).tokens@,
            r matches Ok(Some(t)) ==> final(self).consumed(*old(self), t),
            match sp_eat_kw(old(self).src@, old(self).st(), keyword@) {
                Ok((s1, found)) => r == Ok::<Option<Token>, Error>(found) && final(self).st() == s1,
                Err(e) => r matches Err(err) && error_is(err, e, old(self).src@),
            },
    {
        let peeked = match self.peek() {
            Ok(p) => p,
            Err(e) => return Err(e),
        };
        match peeked {
            Some(token) => {
                if self.is_keyword(token, keyword) {
                    self.peeked = None;
                    proof {
                        assert(self.tokens@.subrange(0, old(self).tokens@.len() as int) =~= old(
                            self,
                        ).tokens@);
                    }
                    Ok(Some(token))
                } else {
                    Ok(None)
                }
            },
            None => Ok(None),
        }
    }

    fn unexpected(&self, token: Token, expected: &str) -> (e: Error)
        requires
            self.inv(),
            genuine(self.src@, token),
        ensures
            e.is_syntax_at(self.src@, token.span.start as int),
    {
        let text = token.span.slice(self.src);
        let shown_len = if text.len() > 40 { 40 } else { text.len() };
        let shown = lossy(slice_range(text, 0, shown_len));
        let mut message = owned("expected ");
        message.append(expected);
        message.append(", found '");
        message.append(shown.as_str());
        if text.len() > 40 {
            message.append("...");
        }
        message.append("'");
        Error::syntax(self.src, token.span.start, message)
    }
}

impl<'a> Parser<'a> {
    /// Parses `NAME(params)` whose name token was read since `from`.
    fn record(&mut self, name: Token, Ghost(from): Ghost<Parser<'a>>) -> (r: Result<()>)
        requires
            old(self).inv(),
            old(self).grows_from(from),
            genuine(old(self).src@, name),
            from.cursor() <= name.span.start,
            name.span.end <= old(self).cursor(),
            forall|i: int| 0 <= i < old(self).tokens@.len() ==> (#[trigger] old(self).tokens@[i]).span.end
                <= name.span.start,
        ensures
            r is Ok ==> final(self).inv() && final(self).grows_from(from),
            r is Ok ==> old(self).cursor() <= final(self).cursor(),
            match sp_record(old(self).src@, old(self).st(), name) {
                Ok(s1) => r is Ok && final(self).st() == s1,
                Err(e) => r matches Err(err) && error_is(err, e, old(self).src@),
            },
    {
        self.keep(name, Ghost(from));
        let ghost s1 = *self;
        let open = match self.expect(TokenKind::LeftParen, "'('") {
            Ok(t) => t,
            Err(e) => return Err(e),
        };
        proof {
            Self::lemma_grows_trans(from, s1, *self);
        }
        self.keep(open, Ghost(from));
        let ghost s2 = *self;
        let r = self.parameters();
        proof {
            if r is Ok {
                Self::lemma_grows_trans(from, s2, *self);
                assert(s1.cursor() <= s2.cursor());
            }
        }
        r
    }

    fn push(&self, stack: &mut Vec<Frame>, frame: Frame, token: Token) -> (r: Result<()>)
        requires
            self.inv(),
        ensures
            r is Ok <==> old(stack)@.len() < MAX_DEPTH,
            r is Ok ==> final(stack)@ == old(stack)@.push(frame),
            r matches Err(e) ==> e.is_syntax_at(self.src@, token.span.start as int),
    {
        if stack.len() >= MAX_DEPTH {
            let mut message = owned("parameters nested more than ");
            push_decimal(&mut message, MAX_DEPTH as u64);
            message.append(" levels deep");
            return Err(Error::syntax(self.src, token.span.start, message));
        }
        stack.push(frame);
        Ok(())
    }

    /// Parses parameters up to and including the `)` that closes the `(`
    /// just kept. Iterative, so nesting depth cannot overflow the stack.
    fn parameters(&mut self) -> (r: Result<()>)
        requires
            old(self).inv(),
        ensures
            r is Ok ==> final(self).inv() && final(self).grows_from(*old(self)),
            match sp_params(old(self).src@, old(self).st(), seq![Frame::List], Expect::ParamOrClose) {
                Ok(s1) => r is Ok && final(self).st() == s1,
                Err(e) => r matches Err(err) && error_is(err, e, old(self).src@),
            },
    {
        let ghost s0 = *self;
        let mut stack: Vec<Frame> = Vec::new();
        stack.push(Frame::List);
        let mut expect = Expect::ParamOrClose;
        proof {
            Self::lemma_grows_refl(s0);
        }
        loop
            invariant
                *old(self) == s0,
                self.inv(),
                self.grows_from(s0),
                0 < stack@.len() <= MAX_DEPTH,
                sp_params(s0.src@, s0.st(), seq![Frame::List], Expect::ParamOrClose) == sp_params(
                    s0.src@,
                    self.st(),
                    stack@,
                    expect,
                ),
            decreases self.src@.len() - self.cursor(),
        {
            let ghost before = *self;
            let expected = match expect {
                Expect::ParamOrClose => "a parameter or ')'",
                Expect::Param => "a parameter",
                Expect::CommaOrClose => "',' or ')'",
            };
            let token = match self.next(expected) {
                Ok(t) => t,
                Err(e) => return Err(e),
            };
            self.keep(token, Ghost(before));
            proof {
                Self::lemma_grows_trans(s0, before, *self);
                assert(advances(self.src@, before.st(), self.st()));
            }
            let kind = token.kind;
            if expect == Expect::CommaOrClose {
                if kind == TokenKind::Comma {
                    if stack[stack.len() - 1] == Frame::Typed {
                        return Err(
                            Error::syntax(
                                self.src,
                                token.span.start,
                                owned("a typed parameter holds exactly one value"),
                            ),
                        );
                    }
                    expect = Expect::Param;
                } else if kind == TokenKind::RightParen {
                    stack.pop();
                    if stack.len() == 0 {
                        return Ok(());
                    }
                    expect = Expect::CommaOrClose;
                } else {
                    return Err(self.unexpected(token, "',' or ')'"));
                }
            } else if expect == Expect::ParamOrClose && kind == TokenKind::RightParen {
                stack.pop();
                if stack.len() == 0 {
                    return Ok(());
                }
                expect = Expect::CommaOrClose;
            } else {
                match kind {
                    TokenKind::LeftParen => {
                        match self.push(&mut stack, Frame::List, token) {
                            Ok(()) => {},
                            Err(e) => return Err(e),
                        }
                        expect = Expect::ParamOrClose;
                    },
                    TokenKind::Keyword | TokenKind::UserKeyword => {
                        let ghost b1 = *self;
                        let open = match self.expect(TokenKind::LeftParen, "'(' after type name") {
                            Ok(t) => t,
                            Err(e) => return Err(e),
                        };
                        proof {
                            Self::lemma_grows_trans(s0, b1, *self);
                        }
                        self.keep(open, Ghost(s0));
                        proof {
                            assert(advances(self.src@, before.st(), self.st()));
                        }
                        match self.push(&mut stack, Frame::Typed, token) {
                            Ok(()) => {},
                            Err(e) => return Err(e),
                        }
                        expect = Expect::Param;
                    },
                    TokenKind::Dollar | TokenKind::Asterisk | TokenKind::Integer | TokenKind::Real
                    | TokenKind::String | TokenKind::Enumeration | TokenKind::Binary
                    | TokenKind::InstanceName(_) | TokenKind::ConstantName | TokenKind::ValueName
                    | TokenKind::Resource => {
                        expect = Expect::CommaOrClose;
                    },
                    _ => {
                        return Err(self.unexpected(token, "a parameter"));
                    },
                }
            }
        }
    }

    /// The rest of a complex instance's records, through its `)`.
    fn parts(&mut self) -> (r: Result<()>)
        requires
            old(self).inv(),
        ensures
            r is Ok ==> final(self).inv() && final(self).grows_from(*old(self)),
            match sp_parts(old(self).src@, old(self).st(), false) {
                Ok(s1) => r is Ok && final(self).st() == s1,
                Err(e) => r matches Err(err) && error_is(err, e, old(self).src@),
            },
    {
        let ghost s0 = *self;
        let mut seen = false;
        proof {
            Self::lemma_grows_refl(s0);
        }
        loop
            invariant_except_break
                sp_parts(s0.src@, s0.st(), false) == sp_parts(s0.src@, self.st(), seen),
            invariant
                *old(self) == s0,
                self.inv(),
                self.grows_from(s0),
            ensures
                sp_parts(s0.src@, s0.st(), false) == Ok::<PState, PErr>(self.st()),
            decreases self.src@.len() - self.cursor(),
        {
            let ghost before = *self;
            let expected = if seen {
                "an entity record or ')'"
            } else {
                "an entity record"
            };
            let part = match self.next(expected) {
                Ok(t) => t,
                Err(e) => return Err(e),
            };
            proof {
                Self::lemma_grows_trans(s0, before, *self);
            }
            if part.kind == TokenKind::Keyword || part.kind == TokenKind::UserKeyword {
                match self.record(part, Ghost(before)) {
                    Ok(()) => {},
                    Err(e) => return Err(e),
                }
                proof {
                    Self::lemma_grows_trans(s0, before, *self);
                    assert(advances(self.src@, before.st(), self.st()));
                }
                seen = true;
            } else if part.kind == TokenKind::RightParen && seen {
                self.keep(part, Ghost(before));
                proof {
                    Self::lemma_grows_trans(s0, before, *self);
                }
                break ;
            } else {
                return Err(self.unexpected(part, expected));
            }
        }
        Ok(())
    }

    /// The instance `#id = ...;` whose name token has just been read.
    fn instance(&mut self, name: Token, id: u64) -> (r: Result<Instance>)
        requires
            old(self).inv(),
            genuine(old(self).src@, name),
            name.kind == TokenKind::InstanceName(id),
            name.span.end <= old(self).cursor(),
        ensures
            r matches Ok(inst) ==> {
                &&& final(self).inv()
                &&& final(self).grows_from(*old(self))
                &&& instance_ok(final(self).src@, final(self).tokens@, inst)
                &&& inst.id == id
                &&& inst.span.start == name.span.start
                &&& inst.name_end == name.span.end
                &&& inst.span.end <= final(self).cursor()
            },
            match sp_instance(old(self).src@, old(self).st(), name, id) {
                Ok((s1, inst)) => r == Ok::<Instance, Error>(inst) && final(self).st() == s1,
                Err(e) => r matches Err(err) && error_is(err, e, old(self).src@),
            },
    {
        let ghost s0 = *self;
        match self.expect(TokenKind::Equals, "'='") {
            Ok(_) => {},
            Err(e) => return Err(e),
        }
        let ghost s1 = *self;
        proof {
            Self::lemma_grows_refl(s1);
        }
        let start = self.tokens.len();
        let token = match self.next("an entity record") {
            Ok(t) => t,
            Err(e) => return Err(e),
        };
        let complex;
        if token.kind == TokenKind::Keyword && self.src[token.span.start] == 38 {
            return Err(
                Error::syntax(
                    self.src,
                    token.span.start,
                    owned("scope structures (&SCOPE) are not supported"),
                ),
            );
        } else if token.kind == TokenKind::Keyword || token.kind == TokenKind::UserKeyword {
            match self.record(token, Ghost(s1)) {
                Ok(()) => {},
                Err(e) => return Err(e),
            }
            complex = false;
        } else if token.kind == TokenKind::LeftParen {
            self.keep(token, Ghost(s1));
            let ghost b3 = *self;
            match self.parts() {
                Ok(()) => {},
                Err(e) => return Err(e),
            }
            proof {
                Self::lemma_grows_trans(s1, b3, *self);
            }
            complex = true;
        } else {
            return Err(self.unexpected(token, "an entity record"));
        }
        let ghost s2 = *self;
        let end = match self.expect(TokenKind::Semicolon, "';'") {
            Ok(t) => t,
            Err(e) => return Err(e),
        };
        proof {
            Self::lemma_grows_trans(s1, s2, *self);
            Self::lemma_grows_trans(s0, s1, *self);
        }
        let inst = Instance {
            id,
            span: Span { start: name.span.start, end: end.span.end },
            name_end: name.span.end,
            token_start: start,
            token_end: self.tokens.len(),
            complex,
        };
        proof {
            assert(self.src@[name.span.start as int] == 35);
            assert forall|k: int| inst.token_start <= k < inst.token_end implies inst.name_end <= (
            #[trigger] self.tokens@[k]).span.start && self.tokens@[k].span.end <= inst.span.end by {
                assert(s1.cursor() <= self.tokens@[k].span.start);
            }
        }
        Ok(inst)
    }
}

proof fn lemma_instances_grow(src: Seq<u8>, ts1: Seq<Token>, ts2: Seq<Token>, ins: Seq<Instance>, ix: Map<u64, usize>)
    requires
        instances_ok(src, ts1, ins, ix),
        ts1.len() <= ts2.len(),
        ts2.subrange(0, ts1.len() as int) == ts1,
    ensures
        instances_ok(src, ts2, ins, ix),
{
    assert forall|p: int| 0 <= p < ins.len() implies instance_ok(src, ts2, #[trigger] ins[p]) by {
        let inst = ins[p];
        assert(instance_ok(src, ts1, inst));
        assert forall|k: int| inst.token_start <= k < inst.token_end implies inst.name_end <= (
        #[trigger] ts2[k]).span.start && ts2[k].span.end <= inst.span.end by {
            assert(ts2[k] == ts2.subrange(0, ts1.len() as int)[k]);
            assert(ts1[k] == ts2[k]);
        }
    }
}

proof fn lemma_instances_push(
    src: Seq<u8>,
    ts: Seq<Token>,
    ins: Seq<Instance>,
    ix: Map<u64, usize>,
    inst: Instance,
)
    requires
        instances_ok(src, ts, ins, ix),
        instance_ok(src, ts, inst),
        !ix.contains_key(inst.id),
        ins.len() < usize::MAX,
    ensures
        instances_ok(src, ts, ins.push(inst), ix.insert(inst.id, ins.len() as usize)),
{
    let ins2 = ins.push(inst);
    let ix2 = ix.insert(inst.id, ins.len() as usize);
    assert forall|p: int| 0 <= p < ins2.len() implies #[trigger] ix2.contains_key(ins2[p].id)
        && ix2[ins2[p].id] == p by {
        if p < ins.len() {
            assert(ix.contains_key(ins[p].id));
        }
    }
    assert forall|id: u64| #[trigger] ix2.contains_key(id) implies ix2[id] < ins2.len()
        && ins2[ix2[id] as int].id == id by {
        if id != inst.id {
            assert(ix.contains_key(id));
        }
    }
}

proof fn lemma_entries_grow(src: Seq<u8>, ts1: Seq<Token>, ts2: Seq<Token>, entries: Seq<Entry>)
    requires
        forall|e: int| 0 <= e < entries.len() ==> entry_ok(src, ts1, #[trigger] entries[e]),
        ts1.len() <= ts2.len(),
        ts2.subrange(0, ts1.len() as int) == ts1,
    ensures
        forall|e: int| 0 <= e < entries.len() ==> entry_ok(src, ts2, #[trigger] entries[e]),
{
    assert forall|e: int| 0 <= e < entries.len() implies entry_ok(src, ts2, #[trigger] entries[e]) by {
        let en = entries[e];
        assert(entry_ok(src, ts1, en));
        assert forall|k: int| en.start <= k < en.end implies en.span.start <= (#[trigger] ts2[k]).span.start
            && ts2[k].span.end <= en.span.end by {
            assert(ts2[k] == ts2.subrange(0, ts1.len() as int)[k]);
        }
    }
}

proof fn lemma_extras_grow(src: Seq<u8>, ts1: Seq<Token>, ts2: Seq<Token>, extra: Seq<ExtraSection>)
    requires
        extras_ok(src, ts1, extra),
        ts1.len() <= ts2.len(),
        ts2.subrange(0, ts1.len() as int) == ts1,
    ensures
        extras_ok(src, ts2, extra),
{
    assert forall|s: int, e: int|
        0 <= s < extra.len() && 0 <= e < extra[s].entries@.len() implies entry_ok(
        src,
        ts2,
        #[trigger] extra[s].entries@[e],
    ) by {
        let en = extra[s].entries@[e];
        assert(entry_ok(src, ts1, en));
        assert forall|k: int| en.start <= k < en.end implies en.span.start <= (#[trigger] ts2[k]).span.start
            && ts2[k].span.end <= en.span.end by {
            assert(ts2[k] == ts2.subrange(0, ts1.len() as int)[k]);
        }
    }
}

impl<'a> Parser<'a> {
    #[verifier::rlimit(80)]
    fn data_section(
        &mut self,
        instances: &mut Vec<Instance>,
        index: &mut HashMapWithView<u64, usize>,
    ) -> (r: Result<DataSection>)
        requires
            old(self).inv(),
            instances_ok(old(self).src@, old(self).tokens@, old(instances)@, old(index)@),
            placed(old(instances)@, old(self).cursor()),
            instances_named(old(self).src@, old(instances)@),
        ensures
            r matches Ok(d) ==> {
                &&& final(self).inv()
                &&& final(self).grows_from(*old(self))
                &&& instances_ok(final(self).src@, final(self).tokens@, final(instances)@, final(index)@)
                &&& placed(final(instances)@, final(self).cursor())
                &&& instances_named(final(self).src@, final(instances)@)
                &&& old(instances)@.len() <= final(instances)@.len()
                &&& d.params_start <= d.params_end <= final(self).tokens@.len()
                &&& d.first <= d.last <= final(instances)@.len()
            },
            match sp_data(old(self).src@, old(self).st(), old(instances)@, old(index)@) {
                Ok(d) => r == Ok::<DataSection, Error>(d.section) && final(self).st() == d.s && final(instances)@ == d.instances
                    && final(index)@ == d.index,
                Err(e) => r matches Err(err) && error_is(err, e, old(self).src@),
            },
    {
        broadcast use vstd::std_specs::hash::group_hash_axioms;

        reveal(sp_data);
        let ghost s0 = *self;
        let params_start = self.tokens.len();
        let peeked = match self.peek() {
            Ok(p) => p,
            Err(e) => return Err(e),
        };
        let ghost s1 = *self;
        proof {
            Self::lemma_grows_refl(s1);
        }
        if let Some(t) = peeked {
            if t.kind == TokenKind::LeftParen {
                let open = match self.next("'('") {
                    Ok(t) => t,
                    Err(e) => return Err(e),
                };
                self.keep(open, Ghost(s1));
                let ghost s2 = *self;
                match self.parameters() {
                    Ok(()) => {},
                    Err(e) => return Err(e),
                }
                proof {
                    Self::lemma_grows_trans(s1, s2, *self);
                }
            }
        }
        let params_end = self.tokens.len();
        let ghost s3 = *self;
        match self.expect(TokenKind::Semicolon, "';'") {
            Ok(_) => {},
            Err(e) => return Err(e),
        }
        proof {
            Self::lemma_grows_trans(s1, s3, *self);
            Self::lemma_grows_trans(s0, s1, *self);
            lemma_instances_grow(self.src@, s0.tokens@, self.tokens@, instances@, index@);
        }
        let first = instances.len();
        loop
            invariant
                *old(self) == s0,
                self.inv(),
                self.grows_from(s0),
                instances_ok(self.src@, self.tokens@, instances@, index@),
                placed(instances@, self.cursor()),
                instances_named(self.src@, instances@),
                params_start <= params_end <= self.tokens@.len(),
                old(instances)@.len() <= first <= instances@.len(),
                sp_data(s0.src@, s0.st(), old(instances)@, old(index)@) == sp_instances(
                    s0.src@,
                    self.st(),
                    instances@,
                    index@,
                    params_start,
                    params_end,
                    first,
                ),
            decreases self.src@.len() - self.cursor(),
        {
            let ghost before = *self;
            let token = match self.next("an entity instance or ENDSEC") {
                Ok(t) => t,
                Err(e) => return Err(e),
            };
            let ghost mid = *self;
            proof {
                Self::lemma_grows_trans(s0, before, mid);
            }
            match token.kind {
                TokenKind::InstanceName(id) => {
                    let instance = match self.instance(token, id) {
                        Ok(i) => i,
                        Err(e) => return Err(e),
                    };
                    proof {
                        Self::lemma_grows_trans(s0, mid, *self);
                        lemma_instances_grow(self.src@, before.tokens@, self.tokens@, instances@, index@);
                    }
                    if index.contains_key(&id) {
                        return Err(Error::DuplicateId(id));
                    }
                    proof {
                        assert(advances(self.src@, before.st(), self.st()));
                    }
                    proof {
                        lemma_instances_push(self.src@, self.tokens@, instances@, index@, instance);
                    }
                    index.insert(id, instances.len());
                    instances.push(instance);
                },
                _ => {
                    proof {
                        reveal_strlit("ENDSEC");
                    }
                    if self.is_keyword(token, "ENDSEC") {
                        let ghost b5 = *self;
                        match self.expect(TokenKind::Semicolon, "';'") {
                            Ok(_) => {},
                            Err(e) => return Err(e),
                        }
                        proof {
                            Self::lemma_grows_trans(s0, b5, *self);
                            lemma_instances_grow(self.src@, before.tokens@, self.tokens@, instances@, index@);
                        }
                        return Ok(DataSection { params_start, params_end, first, last: instances.len() });
                    }
                    return Err(self.unexpected(token, "an entity instance or ENDSEC"));
                },
            }
        }
    }
}

impl<'a> Parser<'a> {
    /// The rest of an entry whose first token `first` was just kept,
    /// through its `;`.
    fn entry(&mut self, first: Token) -> (r: Result<Entry>)
        requires
            old(self).inv(),
            old(self).tokens@.len() >= 1,
            old(self).tokens@.last() == first,
            first.span.end <= old(self).cursor(),
        ensures
            r matches Ok(e) ==> {
                &&& final(self).inv()
                &&& final(self).grows_from(*old(self))
                &&& entry_ok(final(self).src@, final(self).tokens@, e)
            },
            match sp_entry(old(self).src@, old(self).st(), first, (old(self).tokens@.len() - 1) as usize) {
                Ok((s1, e)) => r == Ok::<Entry, Error>(e) && final(self).st() == s1,
                Err(e) => r matches Err(err) && error_is(err, e, old(self).src@),
            },
    {
        let ghost s0 = *self;
        let start = self.tokens.len() - 1;
        proof {
            Self::lemma_grows_refl(s0);
            let ts = s0.tokens@;
            assert(first.span.start < first.span.end) by {
                assert(genuine(s0.src@, ts[ts.len() - 1]));
            }
        }
        loop
            invariant
                *old(self) == s0,
                self.inv(),
                self.grows_from(s0),
                start + 1 == s0.tokens@.len(),
                s0.tokens@[start as int] == first,
                first.span.start < first.span.end <= s0.cursor(),
                sp_entry(s0.src@, s0.st(), first, start) == sp_entry(s0.src@, self.st(), first, start),
            decreases self.src@.len() - self.cursor(),
        {
            let ghost c0 = *self;
            let token = match self.next("';'") {
                Ok(t) => t,
                Err(e) => return Err(e),
            };
            proof {
                Self::lemma_grows_trans(s0, c0, *self);
            }
            if token.kind == TokenKind::Semicolon {
                let entry = Entry {
                    span: Span { start: first.span.start, end: token.span.end },
                    start,
                    end: self.tokens.len(),
                };
                proof {
                    assert forall|k: int| entry.start <= k < entry.end implies entry.span.start
                        <= (#[trigger] self.tokens@[k]).span.start && self.tokens@[k].span.end
                        <= entry.span.end by {
                        if k == start {
                            assert(self.tokens@[k] == self.tokens@.subrange(0, s0.tokens@.len() as int)[k]);
                        }
                    }
                }
                return Ok(entry);
            }
            self.keep(token, Ghost(c0));
            proof {
                Self::lemma_grows_trans(s0, c0, *self);
                assert(advances(self.src@, c0.st(), self.st()));
            }
        }
    }

    /// An `ANCHOR`, `REFERENCE` or `SIGNATURE` section after its keyword:
    /// each entry up to its `;` is kept as one token list. A signature's
    /// content is not tokenised into entries.
    #[verifier::rlimit(60)]
    fn extra_section(&mut self, keyword: Token, kind: ExtraKind) -> (r: Result<ExtraSection>)
        requires
            old(self).inv(),
            genuine(old(self).src@, keyword),
            keyword.span.start <= old(self).cursor(),
        ensures
            r matches Ok(x) ==> {
                &&& final(self).inv()
                &&& final(self).grows_from(*old(self))
                &&& x.kind == kind
                &&& x.span.start <= x.span.end <= final(self).src@.len()
                &&& forall|e: int|
                    0 <= e < x.entries@.len() ==> entry_ok(
                        final(self).src@,
                        final(self).tokens@,
                        #[trigger] x.entries@[e],
                    )
            },
            match sp_extra(old(self).src@, old(self).st(), keyword, kind) {
                Ok((s1, x)) => r matches Ok(xs) && extra_view_of(xs) == x && final(self).st() == s1,
                Err(e) => r matches Err(err) && error_is(err, e, old(self).src@),
            },
    {
        reveal(sp_extra);
        let ghost s0 = *self;
        match self.expect(TokenKind::Semicolon, "';'") {
            Ok(_) => {},
            Err(e) => return Err(e),
        }
        let mut entries: Vec<Entry> = Vec::new();
        loop
            invariant
                *old(self) == s0,
                self.inv(),
                self.grows_from(s0),
                keyword.span.start <= self.cursor(),
                forall|e: int|
                    0 <= e < entries@.len() ==> entry_ok(
                        self.src@,
                        self.tokens@,
                        #[trigger] entries@[e],
                    ),
                sp_extra(s0.src@, s0.st(), keyword, kind) == sp_entries(
                    s0.src@,
                    self.st(),
                    keyword.span.start,
                    kind,
                    entries@,
                ),
            decreases self.src@.len() - self.cursor(),
        {
            let ghost before = *self;
            proof {
                reveal_strlit("ENDSEC");
            }
            let endsec = match self.eat_keyword("ENDSEC") {
                Ok(t) => t,
                Err(e) => return Err(e),
            };
            if endsec.is_some() {
                let ghost b1 = *self;
                let semi = match self.expect(TokenKind::Semicolon, "';'") {
                    Ok(t) => t,
                    Err(e) => return Err(e),
                };
                proof {
                    Self::lemma_grows_trans(before, b1, *self);
                    Self::lemma_grows_trans(s0, before, *self);
                    lemma_entries_grow(self.src@, before.tokens@, self.tokens@, entries@);
                }
                return Ok(
                    ExtraSection {
                        kind,
                        span: Span { start: keyword.span.start, end: semi.span.end },
                        entries,
                    },
                );
            }
            let first = match self.next("an entry or ENDSEC") {
                Ok(t) => t,
                Err(e) => return Err(e),
            };
            proof {
                Self::lemma_grows_trans(s0, before, *self);
            }
            if kind != ExtraKind::Signature {
                let ghost b2 = *self;
                self.keep(first, Ghost(before));
                let ghost b3 = *self;
                let entry = match self.entry(first) {
                    Ok(e) => e,
                    Err(e) => return Err(e),
                };
                proof {
                    Self::lemma_grows_trans(before, b3, *self);
                    Self::lemma_grows_trans(s0, before, *self);
                    lemma_entries_grow(self.src@, before.tokens@, self.tokens@, entries@);
                    assert(b3.st() == kept(b2.st(), first));
                }
                entries.push(entry);
            }
            proof {
                Self::lemma_grows_trans(s0, before, *self);
                assert(advances(self.src@, before.st(), self.st()));
            }
        }
    }

    /// The header's entities through its `ENDSEC`, after `HEADER;`, which
    /// ends at `open_end`; returns where the `ENDSEC` starts.
    #[verifier::rlimit(60)]
    fn header_entities(&mut self, open_end: usize) -> (r: Result<usize>)
        requires
            old(self).inv(),
            open_end <= old(self).cursor(),
        ensures
            r matches Ok(header_end) ==> {
                &&& final(self).inv()
                &&& final(self).grows_from(*old(self))
                &&& open_end <= header_end <= final(self).cursor()
                &&& forall|i: int| 0 <= i < final(self).tokens@.len() ==> (#[trigger] final(self).tokens@[i]).span.end <= header_end
            },
            match sp_header(old(self).src@, old(self).st()) {
                Ok((s1, e)) => r == Ok::<usize, Error>(e) && final(self).st() == s1,
                Err(e) => r matches Err(err) && error_is(err, e, old(self).src@),
            },
    {
        let ghost src = self.src@;
        let ghost h0 = *self;
        proof {
            Self::lemma_grows_refl(h0);
        }
        let mut header_end: usize = open_end;
        loop
            invariant_except_break
                sp_header(src, h0.st()) == sp_header(src, self.st()),
            invariant
                self.inv(),
                self.grows_from(h0),
                *old(self) == h0,
                self.src@ == src,
                open_end <= h0.cursor(),
            ensures
                self.inv(),
                self.grows_from(h0),
                self.src@ == src,
                open_end <= header_end <= self.cursor(),
                forall|i: int| 0 <= i < self.tokens@.len() ==> (#[trigger] self.tokens@[i]).span.end <= header_end,
                sp_header(src, h0.st()) == Ok::<(PState, usize), PErr>((self.st(), header_end)),
            decreases self.src@.len() - self.cursor(),
        {
            let ghost before = *self;
            proof {
                reveal_strlit("ENDSEC");
            }
            match self.eat_keyword("ENDSEC") {
                Ok(Some(endsec)) => {
                    proof {
                        Self::lemma_grows_trans(h0, before, *self);
                    }
                    header_end = endsec.span.start;
                    break ;
                },
                Ok(None) => {},
                Err(e) => return Err(e),
            }
            let ghost b1 = *self;
            proof {
                Self::lemma_grows_trans(h0, before, b1);
            }
            let token = match self.next("a header entity or ENDSEC") {
                Ok(t) => t,
                Err(e) => return Err(e),
            };
            if token.kind != TokenKind::Keyword && token.kind != TokenKind::UserKeyword {
                return Err(self.unexpected(token, "a header entity or ENDSEC"));
            }
            match self.record(token, Ghost(b1)) {
                Ok(()) => {},
                Err(e) => return Err(e),
            }
            let ghost b2 = *self;
            match self.expect(TokenKind::Semicolon, "';'") {
                Ok(_) => {},
                Err(e) => return Err(e),
            }
            proof {
                Self::lemma_grows_trans(b1, b2, *self);
                Self::lemma_grows_trans(h0, b1, *self);
                assert(advances(src, before.st(), self.st()));
            }
        }
        Ok(header_end)
    }

    /// The file's start through the header's `ENDSEC;`.
    #[verifier::rlimit(60)]
    fn preamble(&mut self) -> (r: Result<(usize, usize, Span)>)
        requires
            old(self).inv(),
        ensures
            r matches Ok((header_start, header_stop, header_text)) ==> {
                &&& final(self).inv()
                &&& final(self).grows_from(*old(self))
                &&& header_start <= header_stop == final(self).tokens@.len()
                &&& header_text.start <= header_text.end <= final(self).src@.len()
                &&& forall|k: int| header_start <= k < header_stop ==> header_text.start <= (
                    #[trigger] final(self).tokens@[k]).span.start && final(self).tokens@[k].span.end <= header_text.end
            },
            match sp_preamble(old(self).src@, old(self).st()) {
                Ok((s1, hv)) => r == Ok::<(usize, usize, Span), Error>(hv) && final(self).st() == s1,
                Err(e) => r matches Err(err) && error_is(err, e, old(self).src@),
            },
    {
        let ghost s0 = *self;
        proof {
            reveal_strlit("ISO-10303-21");
            reveal_strlit("HEADER");
        }
        match self.expect_keyword("ISO-10303-21") {
            Ok(()) => {},
            Err(e) => return Err(e),
        }
        match self.expect(TokenKind::Semicolon, "';'") {
            Ok(_) => {},
            Err(e) => return Err(e),
        }
        match self.expect_keyword("HEADER") {
            Ok(()) => {},
            Err(e) => return Err(e),
        }
        let ghost b0 = *self;
        let header_open = match self.expect(TokenKind::Semicolon, "';'") {
            Ok(t) => t,
            Err(e) => return Err(e),
        };
        let ghost h0 = *self;
        let header_start = self.tokens.len();
        let header_end = match self.header_entities(header_open.span.end) {
            Ok(e) => e,
            Err(e) => return Err(e),
        };
        let ghost h1 = *self;
        match self.expect(TokenKind::Semicolon, "';'") {
            Ok(_) => {},
            Err(e) => return Err(e),
        }
        let header_stop = self.tokens.len();
        let header_text = Span { start: header_open.span.end, end: header_end };
        proof {
            Self::lemma_grows_trans(h0, h1, *self);
            assert forall|k: int| header_start <= k < header_stop implies header_text.start <= (
            #[trigger] self.tokens@[k]).span.start && self.tokens@[k].span.end <= header_end by {
                assert(h1.tokens@[k].span.end <= header_end);
                assert(self.tokens@[k] == h1.tokens@[k]);
            }
            Self::lemma_grows_trans(s0, h0, *self);
        }
        Ok((header_start, header_stop, header_text))
    }

    #[verifier::rlimit(100)]
    fn file(self) -> (r: Result<Exchange<'a>>)
        requires
            self.inv(),
            self.st() == (PState { pos: start_of(self.src@), peeked: None, tokens: Seq::empty() }),
        ensures
            r matches Ok(ex) ==> {
                &&& ex.wf()
                &&& ex.src_view() == self.src@
                &&& in_file_order(ex.instances_view())
                &&& instances_named(self.src@, ex.instances_view())
            },
            match file_spec(self.src@) {
                Ok(f) => r matches Ok(ex) && exchange_is(ex, f),
                Err(e) => r matches Err(err) && error_is(err, e, self.src@),
            },
    {
        broadcast use vstd::std_specs::hash::group_hash_axioms;

        let ghost src = self.src@;
        let mut p = self;
        let (header_start, header_stop, header_text) = match p.preamble() {
            Ok(h) => h,
            Err(e) => return Err(e),
        };
        let ghost hdr = p;
        proof {
            Self::lemma_grows_refl(hdr);
        }
        let mut sections: Vec<DataSection> = Vec::new();
        let mut extra: Vec<ExtraSection> = Vec::new();
        let mut instances: Vec<Instance> = Vec::new();
        let mut index: HashMapWithView<u64, usize> = HashMapWithView::new();
        let ghost hv = (header_start, header_stop, header_text);
        let ghost goal = file_spec(src);
        proof {
            assert(goal == sp_sections(src, hdr.st(), hv, Seq::empty(), Seq::empty(), Seq::empty(), Map::empty()));
            assert(index@ =~= Map::<u64, usize>::empty());
            assert(extra@.map_values(|x: ExtraSection| extra_view_of(x)) =~= Seq::<ExtraView>::empty());
        }
        loop
            invariant
                p.inv(),
                p.grows_from(hdr),
                p.src@ == src,
                header_stop == hdr.tokens@.len(),
                src == self.src@,
                header_start <= header_stop,
                header_text.start <= header_text.end <= src.len(),
                forall|k: int| header_start <= k < header_stop ==> header_text.start <= (
                #[trigger] hdr.tokens@[k]).span.start && hdr.tokens@[k].span.end <= header_text.end,
                instances_ok(src, p.tokens@, instances@, index@),
                placed(instances@, p.cursor()),
                instances_named(src, instances@),
                sections_ok(p.tokens@.len() as int, instances@.len() as int, sections@),
                extras_ok(src, p.tokens@, extra@),
                hv == (header_start, header_stop, header_text),
                goal == file_spec(src),
                goal == sp_sections(
                    src,
                    p.st(),
                    hv,
                    sections@,
                    extra@.map_values(|x: ExtraSection| extra_view_of(x)),
                    instances@,
                    index@,
                ),
            decreases p.src@.len() - p.cursor(),
        {
            let ghost before = p;
            let done = match p.section(&mut sections, &mut extra, &mut instances, &mut index, Ghost(hv)) {
                Ok(d) => d,
                Err(e) => return Err(e),
            };
            proof {
                Self::lemma_grows_trans(hdr, before, p);
            }
            if done {
                proof {
                    assert forall|k: int| header_start <= k < header_stop implies header_text.start <= (
                    #[trigger] p.tokens@[k]).span.start && p.tokens@[k].span.end <= header_text.end by {
                        assert(p.tokens@[k] == p.tokens@.subrange(0, header_stop as int)[k]);
                    }
                }
                return Ok(
                    Exchange::from_parts(
                        p.src,
                        p.tokens,
                        header_start,
                        header_stop,
                        header_text,
                        sections,
                        instances,
                        index,
                        extra,
                    ),
                );
            }
        }
    }

    /// A data section after its `DATA` keyword, added to what was read.
    #[verifier::rlimit(60)]
    fn after_data(
        &mut self,
        sections: &mut Vec<DataSection>,
        extra: &mut Vec<ExtraSection>,
        instances: &mut Vec<Instance>,
        index: &mut HashMapWithView<u64, usize>,
    ) -> (r: Result<()>)
        requires
            old(self).inv(),
            instances_ok(old(self).src@, old(self).tokens@, old(instances)@, old(index)@),
            placed(old(instances)@, old(self).cursor()),
            instances_named(old(self).src@, old(instances)@),
            sections_ok(old(self).tokens@.len() as int, old(instances)@.len() as int, old(sections)@),
            extras_ok(old(self).src@, old(self).tokens@, old(extra)@),
        ensures
            r is Ok ==> {
                &&& final(self).inv()
                &&& final(self).grows_from(*old(self))
                &&& instances_ok(final(self).src@, final(self).tokens@, final(instances)@, final(index)@)
                &&& placed(final(instances)@, final(self).cursor())
                &&& instances_named(final(self).src@, final(instances)@)
                &&& sections_ok(final(self).tokens@.len() as int, final(instances)@.len() as int, final(sections)@)
                &&& extras_ok(final(self).src@, final(self).tokens@, final(extra)@)
            },
            final(extra)@ == old(extra)@,
            match sp_data(old(self).src@, old(self).st(), old(instances)@, old(index)@) {
                Ok(d) => r is Ok && final(self).st() == d.s && final(sections)@ == old(sections)@.push(d.section)
                    && final(instances)@ == d.instances && final(index)@ == d.index,
                Err(e) => r matches Err(err) && error_is(err, e, old(self).src@),
            },
    {
        let ghost src = self.src@;
        let ghost before = *self;
        let section = match self.data_section(instances, index) {
            Ok(d) => d,
            Err(e) => return Err(e),
        };
        proof {
            lemma_extras_grow(src, before.tokens@, self.tokens@, extra@);
        }
        sections.push(section);
        Ok(())
    }

    /// An edition 3 section after its keyword `token`, added to what was
    /// read.
    #[verifier::rlimit(60)]
    fn after_extra(
        &mut self,
        token: Token,
        kind: ExtraKind,
        extra: &mut Vec<ExtraSection>,
        instances: &Vec<Instance>,
        index: &HashMapWithView<u64, usize>,
    ) -> (r: Result<()>)
        requires
            old(self).inv(),
            genuine(old(self).src@, token),
            token.span.start <= old(self).cursor(),
            instances_ok(old(self).src@, old(self).tokens@, instances@, index@),
            placed(instances@, old(self).cursor()),
            extras_ok(old(self).src@, old(self).tokens@, old(extra)@),
        ensures
            r is Ok ==> {
                &&& final(self).inv()
                &&& final(self).grows_from(*old(self))
                &&& instances_ok(final(self).src@, final(self).tokens@, instances@, index@)
                &&& placed(instances@, final(self).cursor())
                &&& extras_ok(final(self).src@, final(self).tokens@, final(extra)@)
            },
            match sp_extra(old(self).src@, old(self).st(), token, kind) {
                Ok((s2, x)) => r is Ok && final(self).st() == s2 && final(extra)@.map_values(
                    |x: ExtraSection| extra_view_of(x),
                ) == old(extra)@.map_values(|x: ExtraSection| extra_view_of(x)).push(x),
                Err(e) => r matches Err(err) && error_is(err, e, old(self).src@),
            },
    {
        let ghost src = self.src@;
        let ghost before = *self;
        let x = match self.extra_section(token, kind) {
            Ok(x) => x,
            Err(e) => return Err(e),
        };
        proof {
            lemma_extras_grow(src, before.tokens@, self.tokens@, extra@);
            lemma_instances_grow(src, before.tokens@, self.tokens@, instances@, index@);
        }
        let ghost old_extra = extra@;
        extra.push(x);
        proof {
            assert(extra@.map_values(|x: ExtraSection| extra_view_of(x)) =~= old_extra.map_values(
                |x: ExtraSection| extra_view_of(x),
            ).push(extra_view_of(x)));
        }
        Ok(())
    }

    /// One section after the header; `true` once `END-ISO-10303-21;` is
    /// read.
    #[verifier::rlimit(100)]
    fn section(
        &mut self,
        sections: &mut Vec<DataSection>,
        extra: &mut Vec<ExtraSection>,
        instances: &mut Vec<Instance>,
        index: &mut HashMapWithView<u64, usize>,
        Ghost(hv): Ghost<(usize, usize, Span)>,
    ) -> (r: Result<bool>)
        requires
            old(self).inv(),
            instances_ok(old(self).src@, old(self).tokens@, old(instances)@, old(index)@),
            placed(old(instances)@, old(self).cursor()),
            instances_named(old(self).src@, old(instances)@),
            sections_ok(old(self).tokens@.len() as int, old(instances)@.len() as int, old(sections)@),
            extras_ok(old(self).src@, old(self).tokens@, old(extra)@),
        ensures
            r is Ok ==> {
                &&& final(self).inv()
                &&& final(self).grows_from(*old(self))
                &&& instances_ok(final(self).src@, final(self).tokens@, final(instances)@, final(index)@)
                &&& placed(final(instances)@, final(self).cursor())
                &&& instances_named(final(self).src@, final(instances)@)
                &&& sections_ok(final(self).tokens@.len() as int, final(instances)@.len() as int, final(sections)@)
                &&& extras_ok(final(self).src@, final(self).tokens@, final(extra)@)
            },
            ({
                let step = sp_step(
                    old(self).src@,
                    old(self).st(),
                    hv,
                    old(sections)@,
                    old(extra)@.map_values(|x: ExtraSection| extra_view_of(x)),
                    old(instances)@,
                    old(index)@,
                );
                &&& r == Ok::<bool, Error>(false) ==> advances(old(self).src@, old(self).st(), final(self).st()) && step
                    == SectionStep::More(
                    final(self).st(),
                    final(sections)@,
                    final(extra)@.map_values(|x: ExtraSection| extra_view_of(x)),
                    final(instances)@,
                    final(index)@,
                )
                &&& r == Ok::<bool, Error>(true) ==> step == SectionStep::Done(
                    FileRead {
                        tokens: final(self).tokens@,
                        header_start: hv.0,
                        header_stop: hv.1,
                        header_text: hv.2,
                        sections: final(sections)@,
                        instances: final(instances)@,
                        index: final(index)@,
                        extras: final(extra)@.map_values(|x: ExtraSection| extra_view_of(x)),
                    },
                )
                &&& r matches Err(err) ==> (step matches SectionStep::Fail(e) && error_is(err, e, old(self).src@))
            }),
    {
        let ghost src = self.src@;
        let ghost before = *self;
        let token = match self.next("DATA, END-ISO-10303-21 or another section") {
            Ok(t) => t,
            Err(e) => return Err(e),
        };
        let ghost mid = *self;
        proof {
            reveal_strlit("DATA");
            reveal_strlit("ANCHOR");
            reveal_strlit("REFERENCE");
            reveal_strlit("SIGNATURE");
            reveal_strlit("END-ISO-10303-21");
        }
        let extra_kind = if self.is_keyword(token, "ANCHOR") {
            Some(ExtraKind::Anchor)
        } else if self.is_keyword(token, "REFERENCE") {
            Some(ExtraKind::Reference)
        } else if self.is_keyword(token, "SIGNATURE") {
            Some(ExtraKind::Signature)
        } else {
            None
        };
        if self.is_keyword(token, "DATA") {
            match self.after_data(sections, extra, instances, index) {
                Ok(()) => {},
                Err(e) => return Err(e),
            }
            proof {
                Self::lemma_grows_trans(before, mid, *self);
                assert(advances(src, before.st(), self.st()));
            }
            Ok(false)
        } else if let Some(kind) = extra_kind {
            match self.after_extra(token, kind, extra, instances, index) {
                Ok(()) => {},
                Err(e) => return Err(e),
            }
            proof {
                Self::lemma_grows_trans(before, mid, *self);
                assert(advances(src, before.st(), self.st()));
            }
            Ok(false)
        } else if self.is_keyword(token, "END-ISO-10303-21") {
            match self.expect(TokenKind::Semicolon, "';'") {
                Ok(_) => {},
                Err(e) => return Err(e),
            }
            proof {
                Self::lemma_grows_trans(before, mid, *self);
                lemma_extras_grow(src, mid.tokens@, self.tokens@, extra@);
                lemma_instances_grow(src, mid.tokens@, self.tokens@, instances@, index@);
            }
            Ok(true)
        } else {
            Err(self.unexpected(token, "DATA, END-ISO-10303-21 or another section"))
        }
    }
}

} // verus!
