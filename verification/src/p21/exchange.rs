//! The parsed, still untyped, form of a Part 21 file.
//!
//! An [`Exchange`] keeps the source bytes and one flat vector of tokens.
//! Each [`Instance`] records its `#id`, the span of its original text and
//! the range of tokens that make up its record or records. Nothing is
//! decoded up front: [`Records`], [`Params`] and [`Literal`] are cheap views
//! that walk the tokens on demand.
use vstd::prelude::*;
use vstd::hash_map::HashMapWithView;
use vstd::string::*;
use vstd::hash_set::HashSetWithView;
use crate::error::Result;
use crate::text::{bytes_eq_ignore_case, eq_ignore_case, ascii_bytes, is_ascii_text, ascii_of};
use super::lexer::{lexeme, slice_range, Span, Token, TokenKind, is_digit, digits_value};
use super::string::{decode_string, decoded};

verus! {

// ---------------------------------------------------------------------
// Token-level facts every exchange keeps.
// ---------------------------------------------------------------------

/// True if `t` is a token the lexer reads at its start in `src`.
pub open spec fn genuine(src: Seq<u8>, t: Token) -> bool {
    &&& t.span.start < t.span.end <= src.len()
    &&& lexeme(src, t.span.start as int) == Ok::<(TokenKind, int), int>((t.kind, t.span.end as int))
}

/// True if the tokens are in source order and do not overlap.
pub open spec fn ordered(ts: Seq<Token>) -> bool {
    forall|i: int, j: int| 0 <= i < j < ts.len() ==> #[trigger] ts[i].span.end <= #[trigger] ts[j].span.start
}

/// `ts[a..b]`, or nothing if that range is not within `ts`.
pub open spec fn tokens_between(ts: Seq<Token>, a: int, b: int) -> Seq<Token> {
    if 0 <= a <= b <= ts.len() {
        ts.subrange(a, b)
    } else {
        Seq::empty()
    }
}

/// The index of the `)` that closes the parenthesis depth reached at `i`
/// with `depth` open, or `ts.len()` if there is none.
pub open spec fn matching_from(ts: Seq<Token>, i: int, depth: nat) -> int
    decreases ts.len() - i,
{
    if i < 0 || i >= ts.len() {
        ts.len() as int
    } else if ts[i].kind == TokenKind::LeftParen {
        matching_from(ts, i + 1, depth + 1)
    } else if ts[i].kind == TokenKind::RightParen {
        let d: nat = if depth > 0 { (depth - 1) as nat } else { 0 };
        if d == 0 {
            i
        } else {
            matching_from(ts, i + 1, d)
        }
    } else {
        matching_from(ts, i + 1, depth)
    }
}

/// Given tokens starting with `(`, the index of the matching `)`, or
/// `ts.len()` if there is none.
pub open spec fn matching(ts: Seq<Token>) -> int {
    matching_from(ts, 0, 0)
}

/// The instance names among `ts`, in order, repeats included.
pub open spec fn ids_in(ts: Seq<Token>) -> Seq<u64>
    decreases ts.len(),
{
    if ts.len() == 0 {
        Seq::empty()
    } else {
        let rest = ids_in(ts.drop_first());
        match ts[0].kind {
            TokenKind::InstanceName(id) => seq![id] + rest,
            _ => rest,
        }
    }
}

pub proof fn lemma_matching_from(ts: Seq<Token>, i: int, depth: nat)
    requires
        0 <= i <= ts.len(),
    ensures
        i <= matching_from(ts, i, depth) <= ts.len(),
        matching_from(ts, i, depth) < ts.len() ==> ts[matching_from(ts, i, depth)].kind
            == TokenKind::RightParen,
    decreases ts.len() - i,
{
    if i < ts.len() {
        if ts[i].kind == TokenKind::LeftParen {
            lemma_matching_from(ts, i + 1, depth + 1);
        } else if ts[i].kind == TokenKind::RightParen {
            let d: nat = if depth > 0 { (depth - 1) as nat } else { 0 };
            if d != 0 {
                lemma_matching_from(ts, i + 1, d);
            }
        } else {
            lemma_matching_from(ts, i + 1, depth);
        }
    }
}

// ---------------------------------------------------------------------
// The exchange.
// ---------------------------------------------------------------------

/// The kind of an edition 3 section other than `DATA`.
#[derive(Debug, Clone, Copy, PartialEq, Eq, Structural)]
pub enum ExtraKind {
    Anchor,
    Reference,
    Signature,
}

/// One entry of an edition 3 `ANCHOR` or `REFERENCE` section.
#[derive(Debug, Clone, Copy, PartialEq, Eq, Structural)]
pub struct Entry {
    /// The entry's source text, `;` included.
    pub span: Span,
    /// Its tokens, `;` excluded, as positions in the exchange's tokens.
    pub start: usize,
    pub end: usize,
}

/// An edition 3 `ANCHOR`, `REFERENCE` or `SIGNATURE` section.
#[derive(Debug, Clone)]
pub struct ExtraSection {
    pub kind: ExtraKind,
    /// From the section keyword through its `ENDSEC;`.
    pub span: Span,
    /// Each entry; empty for a signature.
    pub entries: Vec<Entry>,
}

/// An edition 3 anchor: a name under which other files can refer to part
/// of this one, such as `<origin>=#12;`.
#[derive(Debug, Clone, Copy, PartialEq, Eq)]
pub struct Anchor<'e> {
    /// The anchor name, without its angle brackets.
    pub name: &'e str,
    /// The instance the anchor names, if it names exactly one.
    pub target: Option<u64>,
    /// The whole entry as written.
    pub text: &'e [u8],
}

/// An edition 3 external reference: a name defined by another file, such
/// as `#12=<bolt.stp#shape>;`.
#[derive(Debug, Clone, Copy, PartialEq, Eq)]
pub struct ExternalReference<'e> {
    /// The name the reference defines.
    pub name: ReferenceName<'e>,
    /// The resource it stands for, without its angle brackets.
    pub uri: &'e str,
}

/// The name an [`ExternalReference`] defines.
#[derive(Debug, Clone, Copy, PartialEq, Eq)]
pub enum ReferenceName<'e> {
    /// An entity instance name, `#12`.
    Instance(u64),
    /// A constant instance name, `#NAME`, without the `#`.
    Constant(&'e str),
    /// A value instance name, `@name`, without the `@`.
    Value(&'e str),
}

/// One entity instance from a data section.
#[derive(Debug, Clone, Copy, PartialEq, Eq, Structural)]
pub struct Instance {
    /// The instance name: `123` for `#123`.
    pub id: u64,
    /// Source bytes from the `#` of the name through the terminating `;`.
    pub span: Span,
    /// Where the name `#123` ends in the source.
    pub name_end: usize,
    /// Its tokens, as positions in the exchange's tokens.
    pub token_start: usize,
    pub token_end: usize,
    /// True for a complex instance such as `#1=(A(..)B(..));`.
    pub complex: bool,
}

impl Instance {
    /// True for a complex instance such as `#1=(A(..)B(..));`.
    pub fn is_complex(&self) -> (b: bool)
        ensures
            b == self.complex,
    {
        self.complex
    }
}

/// A data section as kept by the exchange.
#[derive(Debug, Clone, Copy, PartialEq, Eq, Structural)]
pub struct DataSection {
    /// Tokens of the optional `DATA(...)` parameter list, parentheses
    /// included.
    pub params_start: usize,
    pub params_end: usize,
    /// Positions in the exchange's instances.
    pub first: usize,
    pub last: usize,
}

/// A data section: its optional parameters and the instances it holds.
#[derive(Debug, Clone, Copy)]
pub struct Section<'e> {
    /// The parameters of `DATA(...)`; empty for a plain `DATA;`.
    pub params: Params<'e>,
    /// The instances in this section, in file order.
    pub instances: &'e [Instance],
}

/// A parsed Part 21 file, borrowing its source bytes.
pub struct Exchange<'a> {
    src: &'a [u8],
    tokens: Vec<Token>,
    header_start: usize,
    header_end: usize,
    header_text: Span,
    sections: Vec<DataSection>,
    instances: Vec<Instance>,
    index: HashMapWithView<u64, usize>,
    extra: Vec<ExtraSection>,
    external: HashSetWithView<u64>,
}

/// True if the instance is well placed in `src` and `ts`: its tokens are
/// within the exchange's, its text within the source, its name before its
/// tokens and every token inside its text.
pub open spec fn instance_ok(src: Seq<u8>, ts: Seq<Token>, inst: Instance) -> bool {
    &&& inst.token_start <= inst.token_end <= ts.len()
    &&& inst.span.start < inst.name_end <= inst.span.end <= src.len()
    &&& src[inst.span.start as int] == 35
    &&& forall|k: int| inst.token_start <= k < inst.token_end ==> inst.name_end <= (#[trigger] ts[k]).span.start
        && ts[k].span.end <= inst.span.end
}

/// True if the entry is well placed: its tokens are within `ts` and inside
/// its text, which is within the source.
pub open spec fn entry_ok(src: Seq<u8>, ts: Seq<Token>, e: Entry) -> bool {
    &&& e.start <= e.end <= ts.len()
    &&& e.span.start <= e.span.end <= src.len()
    &&& forall|k: int| e.start <= k < e.end ==> e.span.start <= (#[trigger] ts[k]).span.start && ts[k].span.end
        <= e.span.end
}

/// The instance names that the entries define, if they are `REFERENCE`
/// entries (`kind`).
pub open spec fn entry_ids(kind: ExtraKind, entries: Seq<Entry>, ts: Seq<Token>) -> Set<u64>
    decreases entries.len(),
{
    if entries.len() == 0 {
        Set::empty()
    } else {
        let rest = entry_ids(kind, entries.drop_last(), ts);
        if kind == ExtraKind::Reference {
            match first_kind(ts, entries.last()) {
                TokenKind::InstanceName(id) => rest.insert(id),
                _ => rest,
            }
        } else {
            rest
        }
    }
}

/// The instance names defined by the `REFERENCE` entries of `extra`.
pub open spec fn external_ids(extra: Seq<ExtraSection>, ts: Seq<Token>) -> Set<u64>
    decreases extra.len(),
{
    if extra.len() == 0 {
        Set::empty()
    } else {
        external_ids(extra.drop_last(), ts).union(
            entry_ids(extra.last().kind, extra.last().entries@, ts),
        )
    }
}

/// The kind of an entry's first token, or `;` if it has none.
pub open spec fn first_kind(ts: Seq<Token>, e: Entry) -> TokenKind {
    if e.start < e.end && e.start < ts.len() {
        ts[e.start as int].kind
    } else {
        TokenKind::Semicolon
    }
}

impl<'a> Exchange<'a> {
    /// The source bytes.
    pub closed spec fn src_view(&self) -> Seq<u8> {
        self.src@
    }

    /// All kept tokens.
    pub closed spec fn tokens_view(&self) -> Seq<Token> {
        self.tokens@
    }

    /// The instances, in file order.
    pub closed spec fn instances_view(&self) -> Seq<Instance> {
        self.instances@
    }

    /// Instance positions by `#id`.
    pub closed spec fn index_view(&self) -> Map<u64, usize> {
        self.index@
    }

    /// The header's token range.
    pub closed spec fn header_range(&self) -> (usize, usize) {
        (self.header_start, self.header_end)
    }

    /// Where the header text lies between `HEADER;` and `ENDSEC;`.
    pub closed spec fn header_span_view(&self) -> Span {
        self.header_text
    }

    /// The data sections.
    pub closed spec fn sections_view(&self) -> Seq<DataSection> {
        self.sections@
    }

    /// The edition 3 sections other than `DATA`.
    pub closed spec fn extra_view(&self) -> Seq<ExtraSection> {
        self.extra@
    }

    /// The instance names defined by other files.
    pub closed spec fn external_view(&self) -> Set<u64> {
        self.external@
    }

    /// The exchange's invariant.
    pub open spec fn wf(&self) -> bool {
        let src = self.src_view();
        let ts = self.tokens_view();
        let ins = self.instances_view();
        let ix = self.index_view();
        &&& src.len() < usize::MAX
        &&& forall|i: int| 0 <= i < ts.len() ==> genuine(src, #[trigger] ts[i])
        &&& ordered(ts)
        &&& self.header_range().0 <= self.header_range().1 <= ts.len()
        &&& self.header_span_view().start <= self.header_span_view().end <= src.len()
        &&& forall|k: int| self.header_range().0 <= k < self.header_range().1 ==> self.header_span_view().start
            <= (#[trigger] ts[k]).span.start && ts[k].span.end <= self.header_span_view().end
        &&& forall|p: int| 0 <= p < ins.len() ==> instance_ok(src, ts, #[trigger] ins[p])
        &&& forall|p: int, q: int| 0 <= p < q < ins.len() ==> #[trigger] ins[p].span.end <= #[trigger] ins[q].span.start
        &&& forall|p: int| 0 <= p < ins.len() ==> #[trigger] ix.contains_key(ins[p].id) && ix[ins[p].id]
            == p
        &&& forall|id: u64| #[trigger] ix.contains_key(id) ==> ix[id] < ins.len() && ins[ix[id] as int].id
            == id
        &&& forall|s: int| 0 <= s < self.sections_view().len() ==> {
            let d = #[trigger] self.sections_view()[s];
            &&& d.params_start <= d.params_end <= ts.len()
            &&& d.first <= d.last <= ins.len()
        }
        &&& forall|s: int, e: int|
            0 <= s < self.extra_view().len() && 0 <= e < self.extra_view()[s].entries@.len()
                ==> entry_ok(src, ts, #[trigger] self.extra_view()[s].entries@[e])
        &&& forall|s: int| 0 <= s < self.extra_view().len() ==> (#[trigger] self.extra_view()[s]).span.start
            <= self.extra_view()[s].span.end <= src.len()
        &&& self.external_view() == external_ids(self.extra_view(), ts)
    }

    /// The instances of a well-formed exchange lie in file order without
    /// overlapping, have distinct names, are found again by their names,
    /// and each starts with `#`.
    pub proof fn lemma_instances_ordered_and_indexed(&self)
        requires
            self.wf(),
        ensures
            forall|j: int, k: int|
                0 <= j < k < self.instances_view().len() ==> (#[trigger] self.instances_view()[j]).span.end
                    <= (#[trigger] self.instances_view()[k]).span.start && self.instances_view()[j].id
                    != self.instances_view()[k].id,
            forall|k: int|
                0 <= k < self.instances_view().len() ==> self.index_view()[(
                #[trigger] self.instances_view()[k]).id] == k && self.src_view()[self.instances_view()[k].span.start as int]
                    == 35,
    {
        assert forall|j: int, k: int| 0 <= j < k < self.instances_view().len() implies (
        #[trigger] self.instances_view()[j]).span.end <= (#[trigger] self.instances_view()[k]).span.start
            && self.instances_view()[j].id != self.instances_view()[k].id by {
            if self.instances_view()[j].id == self.instances_view()[k].id {
                self.lemma_ids_unique(j, k);
            }
        }
        assert forall|k: int| 0 <= k < self.instances_view().len() implies self.index_view()[(
        #[trigger] self.instances_view()[k]).id] == k && self.src_view()[self.instances_view()[k].span.start as int]
            == 35 by {
            assert(instance_ok(self.src_view(), self.tokens_view(), self.instances_view()[k]));
            assert(self.index_view().contains_key(self.instances_view()[k].id));
        }
    }

    /// Instance positions by `#id` agree with the instances: ids are unique.
    pub proof fn lemma_ids_unique(&self, p: int, q: int)
        requires
            self.wf(),
            0 <= p < self.instances_view().len(),
            0 <= q < self.instances_view().len(),
            self.instances_view()[p].id == self.instances_view()[q].id,
        ensures
            p == q,
    {
        assert(self.index_view().contains_key(self.instances_view()[p].id));
        assert(self.index_view().contains_key(self.instances_view()[q].id));
    }

    /// Builds an exchange from parts the parser checked.
    pub(crate) fn from_parts(
        src: &'a [u8],
        tokens: Vec<Token>,
        header_start: usize,
        header_end: usize,
        header_text: Span,
        sections: Vec<DataSection>,
        instances: Vec<Instance>,
        index: HashMapWithView<u64, usize>,
        extra: Vec<ExtraSection>,
    ) -> (ex: Self)
        requires
            src@.len() < usize::MAX,
            forall|i: int| 0 <= i < tokens@.len() ==> genuine(src@, #[trigger] tokens@[i]),
            ordered(tokens@),
            header_start <= header_end <= tokens@.len(),
            header_text.start <= header_text.end <= src@.len(),
            forall|k: int| header_start <= k < header_end ==> header_text.start <= (
            #[trigger] tokens@[k]).span.start && tokens@[k].span.end <= header_text.end,
            forall|p: int| 0 <= p < instances@.len() ==> instance_ok(src@, tokens@, #[trigger] instances@[p]),
            forall|p: int, q: int|
                0 <= p < q < instances@.len() ==> #[trigger] instances@[p].span.end <= #[trigger] instances@[q].span.start,
            forall|p: int| 0 <= p < instances@.len() ==> #[trigger] index@.contains_key(instances@[p].id)
                && index@[instances@[p].id] == p,
            forall|id: u64| #[trigger] index@.contains_key(id) ==> index@[id] < instances@.len()
                && instances@[index@[id] as int].id == id,
            forall|s: int| 0 <= s < sections@.len() ==> {
                let d = #[trigger] sections@[s];
                &&& d.params_start <= d.params_end <= tokens@.len()
                &&& d.first <= d.last <= instances@.len()
            },
            forall|s: int, e: int|
                0 <= s < extra@.len() && 0 <= e < extra@[s].entries@.len() ==> entry_ok(
                    src@,
                    tokens@,
                    #[trigger] extra@[s].entries@[e],
                ),
            forall|s: int| 0 <= s < extra@.len() ==> (#[trigger] extra@[s]).span.start <= extra@[s].span.end
                <= src@.len(),
        ensures
            ex.wf(),
            ex.src_view() == src@,
            ex.tokens_view() == tokens@,
            ex.instances_view() == instances@,
            ex.index_view() == index@,
            ex.sections_view() == sections@,
            ex.extra_view() == extra@,
            ex.header_range() == (header_start, header_end),
            ex.header_span_view() == header_text,
    {
        broadcast use vstd::std_specs::hash::group_hash_axioms;
        let mut external: HashSetWithView<u64> = HashSetWithView::new();
        let mut s: usize = 0;
        while s < extra.len()
            invariant
                s <= extra@.len(),
                forall|s2: int, e: int|
                    0 <= s2 < extra@.len() && 0 <= e < extra@[s2].entries@.len() ==> entry_ok(
                        src@,
                        tokens@,
                        #[trigger] extra@[s2].entries@[e],
                    ),
                external@ == external_ids(extra@.take(s as int), tokens@),
            decreases extra@.len() - s,
        {
            let section = &extra[s];
            let ghost before = external@;
            let mut e: usize = 0;
            while e < section.entries.len()
                invariant
                    s < extra@.len(),
                    *section == extra@[s as int],
                    e <= section.entries@.len(),
                    forall|s2: int, e2: int|
                        0 <= s2 < extra@.len() && 0 <= e2 < extra@[s2].entries@.len() ==> entry_ok(
                            src@,
                            tokens@,
                            #[trigger] extra@[s2].entries@[e2],
                        ),
                    external@ == before.union(
                        entry_ids(section.kind, section.entries@.take(e as int), tokens@),
                    ),
                decreases section.entries@.len() - e,
            {
                let entry = section.entries[e];
                proof {
                    assert(entry_ok(src@, tokens@, extra@[s as int].entries@[e as int]));
                    assert(section.entries@.take(e + 1).drop_last() =~= section.entries@.take(
                        e as int,
                    ));
                    assert(section.entries@.take(e + 1).last() == entry);
                }
                if section.kind == ExtraKind::Reference && entry.start < entry.end {
                    match tokens[entry.start].kind {
                        TokenKind::InstanceName(id) => {
                            external.insert(id);
                        },
                        _ => {},
                    }
                }
                proof {
                    assert(external@ =~= before.union(
                        entry_ids(section.kind, section.entries@.take(e + 1), tokens@),
                    ));
                }
                e = e + 1;
            }
            proof {
                assert(extra@.take(s + 1).drop_last() =~= extra@.take(s as int));
                assert(section.entries@.take(e as int) =~= section.entries@);
            }
            s = s + 1;
        }
        proof {
            assert(extra@.take(extra@.len() as int) =~= extra@);
        }
        Exchange {
            src,
            tokens,
            header_start,
            header_end,
            header_text,
            sections,
            instances,
            index,
            extra,
            external,
        }
    }
}


// ---------------------------------------------------------------------
// Views over tokens.
// ---------------------------------------------------------------------

/// True if every token in `ts` is genuine in `src`.
pub open spec fn tokens_ok(src: Seq<u8>, ts: Seq<Token>) -> bool {
    &&& src.len() < usize::MAX
    &&& forall|i: int| 0 <= i < ts.len() ==> genuine(src, #[trigger] ts[i])
}

/// Splits tokens that start with a record name: the name, the record's
/// parameter tokens, and the tokens after the record.
pub open spec fn record_split(ts: Seq<Token>) -> (Token, Seq<Token>, Seq<Token>) {
    let rest = ts.drop_first();
    let close = matching(rest);
    (ts[0], tokens_between(rest, 1, close), tokens_between(rest, close + 1, rest.len() as int))
}

/// The records of a sequence of records, as name tokens and parameter
/// tokens.
pub open spec fn record_list(ts: Seq<Token>) -> Seq<(Token, Seq<Token>)>
    decreases ts.len(),
{
    if ts.len() == 0 {
        Seq::empty()
    } else {
        let (name, params, rest) = record_split(ts);
        proof {
            lemma_matching_from(ts.drop_first(), 0, 0);
        }
        seq![(name, params)] + record_list(rest)
    }
}

/// Separators between parameters; `)`, `;` and `=` cannot occur in parsed
/// parameters.
pub open spec fn is_separator(k: TokenKind) -> bool {
    k == TokenKind::Comma || k == TokenKind::RightParen || k == TokenKind::Semicolon || k
        == TokenKind::Equals
}

/// The first index at or after `i` that is not a separator.
pub open spec fn skip_separators(ts: Seq<Token>, i: int) -> int
    decreases ts.len() - i,
{
    if i < 0 || i >= ts.len() || !is_separator(ts[i].kind) {
        i
    } else {
        skip_separators(ts, i + 1)
    }
}

/// The tokens after the parameter that starts at `k`.
pub open spec fn after_param(ts: Seq<Token>, k: int) -> Seq<Token> {
    let from = ts.subrange(k, ts.len() as int);
    match ts[k].kind {
        TokenKind::LeftParen => tokens_between(from, matching(from) + 1, from.len() as int),
        TokenKind::Keyword | TokenKind::UserKeyword => {
            let rest = from.drop_first();
            tokens_between(rest, matching(rest) + 1, rest.len() as int)
        },
        _ => from.drop_first(),
    }
}

/// The tokens of the first parameter in `ts`.
pub open spec fn first_param_tokens(ts: Seq<Token>) -> Seq<Token> {
    let k = skip_separators(ts, 0);
    if 0 <= k < ts.len() {
        ts.subrange(k, ts.len() - after_param(ts, k).len())
    } else {
        Seq::empty()
    }
}

/// The tokens of parameter `i` of `ts`; empty if there is none.
pub open spec fn param_tokens(ts: Seq<Token>, i: nat) -> Seq<Token> {
    first_param_tokens(params_after(ts, i))
}

/// The parameters in `ts`, as the index of the token each starts at.
pub open spec fn param_starts(ts: Seq<Token>) -> Seq<int>
    decreases ts.len(),
{
    let k = skip_separators(ts, 0);
    if k < 0 || k >= ts.len() {
        Seq::empty()
    } else {
        let rest = after_param(ts, k);
        if rest.len() < ts.len() {
            seq![k] + param_starts(rest)
        } else {
            Seq::empty()
        }
    }
}

/// The number of parameters in `ts`.
pub open spec fn param_count(ts: Seq<Token>) -> nat
    decreases ts.len(),
{
    let k = skip_separators(ts, 0);
    if k < 0 || k >= ts.len() {
        0
    } else {
        let rest = after_param(ts, k);
        if rest.len() < ts.len() {
            1 + param_count(rest)
        } else {
            0
        }
    }
}

/// The tokens of the `n`th parameter onward.
pub open spec fn params_after(ts: Seq<Token>, n: nat) -> Seq<Token>
    decreases n,
{
    if n == 0 {
        ts
    } else {
        let k = skip_separators(ts, 0);
        if k < 0 || k >= ts.len() {
            Seq::empty()
        } else {
            params_after(after_param(ts, k), (n - 1) as nat)
        }
    }
}

pub proof fn lemma_skip_separators(ts: Seq<Token>, i: int)
    requires
        0 <= i <= ts.len(),
    ensures
        i <= skip_separators(ts, i) <= ts.len(),
        skip_separators(ts, i) < ts.len() ==> !is_separator(ts[skip_separators(ts, i)].kind),
    decreases ts.len() - i,
{
    if i < ts.len() && is_separator(ts[i].kind) {
        lemma_skip_separators(ts, i + 1);
    }
}

pub proof fn lemma_after_param(ts: Seq<Token>, k: int)
    requires
        0 <= k < ts.len(),
    ensures
        after_param(ts, k).len() < ts.len() - k,
        after_param(ts, k).len() < ts.len(),
        forall|i: int|
            0 <= i < after_param(ts, k).len() ==> exists|j: int|
                k < j < ts.len() && #[trigger] after_param(ts, k)[i] == ts[j],
{
    let from = ts.subrange(k, ts.len() as int);
    lemma_matching_from(from, 0, 0);
    lemma_matching_from(from.drop_first(), 0, 0);
    let a = after_param(ts, k);
    assert forall|i: int| 0 <= i < a.len() implies exists|j: int|
        k < j < ts.len() && #[trigger] a[i] == ts[j] by {
        match ts[k].kind {
            TokenKind::LeftParen => {
                let c = matching(from);
                assert(a[i] == ts[k + c + 1 + i]);
            },
            TokenKind::Keyword | TokenKind::UserKeyword => {
                let c = matching(from.drop_first());
                assert(a[i] == ts[k + c + 2 + i]);
            },
            _ => {
                assert(a[i] == ts[k + 1 + i]);
            },
        }
    }
}

/// An iterator over a sequence of records such as the header or the
/// partial entities of a complex instance.
#[derive(Debug, Clone, Copy)]
pub struct Records<'e> {
    src: &'e [u8],
    tokens: &'e [Token],
}

/// An entity type name with its parameters, such as
/// `PRODUCT('a','b',$,(#2))`.
#[derive(Debug, Clone, Copy)]
pub struct Record<'e> {
    src: &'e [u8],
    name: Token,
    params: &'e [Token],
}

/// An iterator over the parameters of a record or list.
#[derive(Debug, Clone, Copy)]
pub struct Params<'e> {
    src: &'e [u8],
    tokens: &'e [Token],
}

/// An iterator over the instance names an instance refers to.
#[derive(Debug, Clone, Copy)]
pub struct References<'e> {
    tokens: &'e [Token],
}

/// A literal parameter value.
#[derive(Debug, Clone, Copy)]
pub struct Literal<'e> {
    src: &'e [u8],
    token: Token,
}

/// One parameter of a record or list.
#[derive(Debug, Clone, Copy)]
pub enum Param<'e> {
    /// `$`: an unset optional attribute.
    Unset,
    /// `*`: an attribute redeclared as derived by a subtype.
    Derived,
    /// An integer literal.
    Integer(Literal<'e>),
    /// A real literal.
    Real(Literal<'e>),
    /// A string literal.
    String(Literal<'e>),
    /// An enumeration value such as `.T.`.
    Enumeration(Literal<'e>),
    /// A binary literal.
    Binary(Literal<'e>),
    /// A reference to entity instance `#id`.
    Reference(u64),
    /// An edition 3 constant reference, `#NAME`.
    ConstantReference(Literal<'e>),
    /// An edition 3 value reference, `@name`.
    ValueReference(Literal<'e>),
    /// An edition 3 resource reference, `<...>`.
    Resource(Literal<'e>),
    /// A parenthesised list of parameters.
    List(Params<'e>),
    /// A typed value such as `LENGTH_MEASURE(5.0)`.
    Typed(Record<'e>),
}

impl<'e> Records<'e> {
    pub closed spec fn src_view(&self) -> Seq<u8> {
        self.src@
    }

    pub closed spec fn tokens_view(&self) -> Seq<Token> {
        self.tokens@
    }

    pub open spec fn wf(&self) -> bool {
        tokens_ok(self.src_view(), self.tokens_view())
    }

    /// The records still to come, as names and parameter tokens.
    pub open spec fn remaining(&self) -> Seq<(Token, Seq<Token>)> {
        record_list(self.tokens_view())
    }

    /// The next record.
    pub fn next(&mut self) -> (r: Option<Record<'e>>)
        requires
            old(self).wf(),
        ensures
            final(self).wf(),
            final(self).src_view() == old(self).src_view(),
            old(self).remaining().len() == 0 ==> r is None && final(self).remaining().len() == 0,
            old(self).remaining().len() > 0 ==> (r matches Some(rec) && rec.wf() && rec.src_view()
                == old(self).src_view() && rec.name_token() == old(self).remaining()[0].0
                && rec.params_view() == old(self).remaining()[0].1 && final(self).remaining()
                == old(self).remaining().drop_first()),
    {
        if self.tokens.len() == 0 {
            return None;
        }
        let ghost ts = self.tokens@;
        let name = self.tokens[0];
        let rest = slice_range(self.tokens, 1, self.tokens.len());
        proof {
            assert(rest@ =~= ts.drop_first());
            lemma_matching_from(rest@, 0, 0);
        }
        let close = matching_exec(rest);
        let params = sub_exec(rest, 1, close);
        let after = if close < rest.len() {
            slice_range(rest, close + 1, rest.len())
        } else {
            slice_range(rest, 0, 0)
        };
        proof {
            assert(after@ =~= tokens_between(rest@, close + 1, rest@.len() as int));
            assert forall|i: int| 0 <= i < params@.len() implies genuine(self.src@, #[trigger] params@[i]) by {
                assert(params@[i] == ts[i + 2]);
            }
            assert forall|i: int| 0 <= i < after@.len() implies genuine(self.src@, #[trigger] after@[i]) by {
                assert(after@[i] == ts[close + 2 + i]);
            }
        }
        self.tokens = after;
        Some(Record { src: self.src, name, params })
    }

    /// All remaining records, in order.
    pub fn to_vec(self) -> (v: Vec<Record<'e>>)
        requires
            self.wf(),
        ensures
            v@.len() == self.remaining().len(),
            forall|k: int| 0 <= k < v@.len() ==> (#[trigger] v@[k]).wf() && v@[k].src_view()
                == self.src_view() && v@[k].name_token() == self.remaining()[k].0
                && v@[k].params_view() == self.remaining()[k].1,
    {
        let mut it = self;
        let mut v: Vec<Record<'e>> = Vec::new();
        proof {
            assert(self.remaining() =~= v@.map_values(
                |r: Record<'e>| (r.name_token(), r.params_view()),
            ) + it.remaining());
        }
        loop
            invariant
                it.wf(),
                it.src_view() == self.src_view(),
                self.remaining() == v@.map_values(|r: Record<'e>| (r.name_token(), r.params_view()))
                    + it.remaining(),
                forall|k: int| 0 <= k < v@.len() ==> (#[trigger] v@[k]).wf() && v@[k].src_view()
                    == self.src_view(),
            decreases it.remaining().len(),
        {
            let ghost before = it;
            match it.next() {
                None => {
                    proof {
                        assert(self.remaining() =~= v@.map_values(
                            |r: Record<'e>| (r.name_token(), r.params_view()),
                        ));
                        assert forall|k: int| 0 <= k < v@.len() implies v@[k].name_token()
                            == self.remaining()[k].0 && v@[k].params_view() == self.remaining()[k].1 by {
                            assert(self.remaining()[k] == v@.map_values(
                                |r: Record<'e>| (r.name_token(), r.params_view()),
                            )[k]);
                        }
                    }
                    return v;
                },
                Some(rec) => {
                    proof {
                        assert(v@.push(rec).map_values(
                            |r: Record<'e>| (r.name_token(), r.params_view()),
                        ) + it.remaining() =~= v@.map_values(
                            |r: Record<'e>| (r.name_token(), r.params_view()),
                        ) + before.remaining());
                    }
                    v.push(rec);
                },
            }
        }
    }
}

pub(crate) proof fn lemma_record_list_shrinks(ts: Seq<Token>)
    ensures
        ts.len() > 0 ==> record_split(ts).2.len() < ts.len(),
        ts.len() > 0 <==> record_list(ts).len() > 0,
{
    if ts.len() > 0 {
        lemma_matching_from(ts.drop_first(), 0, 0);
    }
}

/// The index of the `)` matching the `(` that `ts` starts with, or
/// `ts.len()`.
pub fn matching_exec(ts: &[Token]) -> (c: usize)
    ensures
        c == matching(ts@),
{
    let mut depth: usize = 0;
    let mut i: usize = 0;
    while i < ts.len()
        invariant
            i <= ts@.len(),
            depth <= i,
            matching(ts@) == matching_from(ts@, i as int, depth as nat),
        decreases ts@.len() - i,
    {
        match ts[i].kind {
            TokenKind::LeftParen => {
                depth = depth + 1;
            },
            TokenKind::RightParen => {
                depth = if depth > 0 { depth - 1 } else { 0 };
                if depth == 0 {
                    return i;
                }
            },
            _ => {},
        }
        i = i + 1;
    }
    ts.len()
}

/// `ts[a..b]`, or an empty slice if that range is not within `ts`.
pub fn sub_exec(ts: &[Token], a: usize, b: usize) -> (r: &[Token])
    ensures
        r@ == tokens_between(ts@, a as int, b as int),
{
    if a <= b && b <= ts.len() {
        slice_range(ts, a, b)
    } else {
        let r = slice_range(ts, 0, 0);
        proof {
            assert(r@ =~= Seq::<Token>::empty());
        }
        r
    }
}

impl<'e> Record<'e> {
    pub closed spec fn src_view(&self) -> Seq<u8> {
        self.src@
    }

    /// The record's name token.
    pub closed spec fn name_token(&self) -> Token {
        self.name
    }

    /// The record's parameter tokens.
    pub closed spec fn params_view(&self) -> Seq<Token> {
        self.params@
    }

    pub open spec fn wf(&self) -> bool {
        &&& tokens_ok(self.src_view(), self.params_view())
        &&& genuine(self.src_view(), self.name_token())
    }

    /// The type name exactly as written, for example `b"PRODUCT"`.
    pub fn name(self) -> (n: &'e [u8])
        requires
            self.wf(),
        ensures
            n@ == self.name_token().span.of(self.src_view()),
    {
        self.name.span.slice(self.src)
    }

    /// True if the type name equals `name`, ignoring ASCII case.
    pub fn is(self, name: &str) -> (b: bool)
        requires
            self.wf(),
        ensures
            b == eq_ignore_case(self.name_token().span.of(self.src_view()), name.spec_bytes()),
    {
        bytes_eq_ignore_case(self.name(), name.as_bytes())
    }

    /// The record's parameter tokens.
    pub(crate) fn param_token_slice(self) -> (r: &'e [Token])
        ensures
            r@ == self.params_view(),
    {
        self.params
    }

    /// The record's parameters, in order.
    pub fn params(self) -> (p: Params<'e>)
        requires
            self.wf(),
        ensures
            p.wf(),
            p.src_view() == self.src_view(),
            p.tokens_view() == self.params_view(),
    {
        Params { src: self.src, tokens: self.params }
    }

    /// The parameter at `index`, counting from 0, or `None` if the record
    /// has fewer parameters.
    pub fn param(self, index: usize) -> (r: Option<Param<'e>>)
        requires
            self.wf(),
        ensures
            index >= param_count(self.params_view()) ==> r is None,
            index < param_count(self.params_view()) ==> (r matches Some(p) && p.wf() && p.reads(self.src_view()) && p.is_first_of(params_after(self.params_view(), index as nat))),
    {
        let mut ps = self.params();
        let mut i: usize = 0;
        while i < index
            invariant
                ps.wf(),
                ps.src_view() == self.src_view(),
                i <= index,
                ps.tokens_view() == params_after(self.params_view(), i as nat),
                param_count(self.params_view()) == i + param_count(ps.tokens_view()) || (
                param_count(self.params_view()) < i && ps.tokens_view().len() == 0),
            decreases index - i,
        {
            let ghost before = ps.tokens_view();
            proof {
                lemma_params_after_step(self.params_view(), i as nat);
            }
            match ps.next() {
                None => {
                    proof {
                        lemma_param_count_zero(before);
                    }
                    return None;
                },
                Some(_) => {},
            }
            i = i + 1;
        }
        proof {
            lemma_param_count_zero(ps.tokens_view());
        }
        ps.next()
    }
}

proof fn lemma_params_after_step(ts: Seq<Token>, n: nat)
    ensures
        params_after(ts, n + 1) == {
            let cur = params_after(ts, n);
            let k = skip_separators(cur, 0);
            if k < 0 || k >= cur.len() {
                Seq::<Token>::empty()
            } else {
                after_param(cur, k)
            }
        },
    decreases n,
{
    let k = skip_separators(ts, 0);
    if n == 0 {
        assert(params_after(ts, 0) == ts);
        if 0 <= k < ts.len() {
            assert(params_after(after_param(ts, k), 0) == after_param(ts, k));
            assert(params_after(ts, 1) == params_after(after_param(ts, k), 0));
        } else {
            assert(params_after(ts, 1) == Seq::<Token>::empty());
        }
    } else if 0 <= k < ts.len() {
        lemma_params_after_step(after_param(ts, k), (n - 1) as nat);
        assert(params_after(ts, n) == params_after(after_param(ts, k), (n - 1) as nat));
        assert(params_after(ts, n + 1) == params_after(after_param(ts, k), n));
    } else {
        assert(params_after(ts, n) == Seq::<Token>::empty());
        assert(params_after(ts, n + 1) == Seq::<Token>::empty());
        assert(skip_separators(Seq::<Token>::empty(), 0) == 0);
    }
}

proof fn lemma_param_count_zero(ts: Seq<Token>)
    ensures
        param_count(ts) == 0 <==> {
            let k = skip_separators(ts, 0);
            k < 0 || k >= ts.len()
        },
{
    lemma_skip_separators(ts, 0);
    let k = skip_separators(ts, 0);
    if 0 <= k < ts.len() {
        lemma_after_param(ts, k);
    }
}

impl<'e> Params<'e> {
    pub closed spec fn src_view(&self) -> Seq<u8> {
        self.src@
    }

    pub closed spec fn tokens_view(&self) -> Seq<Token> {
        self.tokens@
    }

    pub open spec fn wf(&self) -> bool {
        tokens_ok(self.src_view(), self.tokens_view())
    }

    /// The number of parameters still to come.
    pub open spec fn remaining_count(&self) -> nat {
        param_count(self.tokens_view())
    }

    /// The parameters written as `tokens` in `src`.
    pub(crate) fn over(src: &'e [u8], tokens: &'e [Token]) -> (p: Params<'e>)
        requires
            tokens_ok(src@, tokens@),
        ensures
            p.wf(),
            p.src_view() == src@,
            p.tokens_view() == tokens@,
    {
        Params { src, tokens }
    }

    /// The next parameter.
    #[verifier::rlimit(60)]
    pub fn next(&mut self) -> (r: Option<Param<'e>>)
        requires
            old(self).wf(),
        ensures
            final(self).wf(),
            final(self).src_view() == old(self).src_view(),
            ({
                let ts = old(self).tokens_view();
                let k = skip_separators(ts, 0);
                if k >= ts.len() {
                    r is None && final(self).tokens_view().len() == 0
                } else {
                    r matches Some(p) && p.wf() && p.reads(old(self).src_view())
                        && p.is_first_of(ts) && final(self).tokens_view() == after_param(ts, k)
                }
            }),
            old(self).remaining_count() == 0 ==> r is None,
            old(self).remaining_count() > 0 ==> r is Some && final(self).remaining_count()
                == old(self).remaining_count() - 1,
    {
        let ghost ts = self.tokens@;
        let mut k: usize = 0;
        proof {
            lemma_skip_separators(ts, 0);
            lemma_param_count_zero(ts);
        }
        while k < self.tokens.len() && is_separator_exec(self.tokens[k].kind)
            invariant
                k <= self.tokens@.len(),
                self.tokens@ == ts,
                skip_separators(ts, 0) == skip_separators(ts, k as int),
            decreases self.tokens@.len() - k,
        {
            k = k + 1;
        }
        if k >= self.tokens.len() {
            self.tokens = slice_range(self.tokens, 0, 0);
            return None;
        }
        proof {
            lemma_after_param(ts, k as int);
        }
        let token = self.tokens[k];
        let from = slice_range(self.tokens, k, self.tokens.len());
        let literal = Literal { src: self.src, token };
        proof {
            assert(genuine(self.src@, token));
            assert(from@ =~= ts.subrange(k as int, ts.len() as int));
        }
        let param = match token.kind {
            TokenKind::LeftParen => {
                let close = matching_exec(from);
                proof {
                    lemma_matching_from(from@, 0, 0);
                }
                let inner = sub_exec(from, 1, close);
                let after = if close < from.len() {
                    slice_range(from, close + 1, from.len())
                } else {
                    slice_range(from, 0, 0)
                };
                proof {
                    assert(after@ =~= after_param(ts, k as int));
                    assert forall|i: int| 0 <= i < inner@.len() implies genuine(self.src@, #[trigger] inner@[i]) by {
                        assert(inner@[i] == ts[k + 1 + i]);
                    }
                    assert forall|i: int| 0 <= i < after@.len() implies genuine(self.src@, #[trigger] after@[i]) by {
                        assert(after@[i] == ts[k + close + 1 + i]);
                    }
                }
                self.tokens = after;
                Param::List(Params { src: self.src, tokens: inner })
            },
            TokenKind::Keyword | TokenKind::UserKeyword => {
                let rest = slice_range(from, 1, from.len());
                let close = matching_exec(rest);
                proof {
                    lemma_matching_from(rest@, 0, 0);
                    assert(rest@ =~= from@.drop_first());
                }
                let params = sub_exec(rest, 1, close);
                let after = if close < rest.len() {
                    slice_range(rest, close + 1, rest.len())
                } else {
                    slice_range(rest, 0, 0)
                };
                proof {
                    assert(after@ =~= after_param(ts, k as int));
                    assert forall|i: int| 0 <= i < params@.len() implies genuine(self.src@, #[trigger] params@[i]) by {
                        assert(params@[i] == ts[k + 2 + i]);
                    }
                    assert forall|i: int| 0 <= i < after@.len() implies genuine(self.src@, #[trigger] after@[i]) by {
                        assert(after@[i] == ts[k + close + 2 + i]);
                    }
                }
                self.tokens = after;
                Param::Typed(Record { src: self.src, name: token, params })
            },
            _ => {
                let after = slice_range(from, 1, from.len());
                proof {
                    assert(after@ =~= after_param(ts, k as int));
                    assert forall|i: int| 0 <= i < after@.len() implies genuine(self.src@, #[trigger] after@[i]) by {
                        assert(after@[i] == ts[k + 1 + i]);
                    }
                }
                self.tokens = after;
                match token.kind {
                    TokenKind::Dollar => Param::Unset,
                    TokenKind::Asterisk => Param::Derived,
                    TokenKind::Integer => Param::Integer(literal),
                    TokenKind::Real => Param::Real(literal),
                    TokenKind::String => Param::String(literal),
                    TokenKind::Enumeration => Param::Enumeration(literal),
                    TokenKind::Binary => Param::Binary(literal),
                    TokenKind::InstanceName(id) => Param::Reference(id),
                    TokenKind::ConstantName => Param::ConstantReference(literal),
                    TokenKind::ValueName => Param::ValueReference(literal),
                    _ => Param::Resource(literal),
                }
            },
        };
        proof {
            lemma_after_param(ts, k as int);
            assert(param_count(ts) == 1 + param_count(after_param(ts, k as int)));
            assert(param.is_first_of(ts));
        }
        Some(param)
    }

    /// The tokens of the next parameter, which is then skipped.
    pub fn next_tokens(&mut self) -> (r: Option<&'e [Token]>)
        requires
            old(self).wf(),
        ensures
            final(self).wf(),
            final(self).src_view() == old(self).src_view(),
            ({
                let ts = old(self).tokens_view();
                let k = skip_separators(ts, 0);
                if k >= ts.len() {
                    r is None && final(self).tokens_view().len() == 0
                } else {
                    r matches Some(t) && t@ == first_param_tokens(ts) && final(self).tokens_view()
                        == after_param(ts, k)
                }
            }),
    {
        let before = self.tokens;
        let ghost ts = before@;
        let mut k: usize = 0;
        proof {
            lemma_skip_separators(ts, 0);
        }
        while k < before.len() && is_separator_exec(before[k].kind)
            invariant
                k <= before@.len(),
                before@ == ts,
                skip_separators(ts, 0) == skip_separators(ts, k as int),
            decreases before@.len() - k,
        {
            k = k + 1;
        }
        match self.next() {
            None => None,
            Some(_) => {
                proof {
                    lemma_after_param(ts, k as int);
                }
                let after = self.tokens.len();
                Some(slice_range(before, k, before.len() - after))
            },
        }
    }

    /// The number of parameters still to come.
    pub fn count(self) -> (n: usize)
        requires
            self.wf(),
        ensures
            n == self.remaining_count(),
    {
        let mut it = self;
        let mut n: usize = 0;
        let total = self.tokens.len();
        proof {
            lemma_count_bound(self.tokens_view());
        }
        loop
            invariant
                it.wf(),
                n + it.remaining_count() == self.remaining_count(),
                it.remaining_count() <= it.tokens_view().len(),
                n + it.tokens_view().len() <= total,
            decreases it.tokens_view().len(),
        {
            let ghost before = it.tokens_view();
            proof {
                lemma_skip_separators(before, 0);
                lemma_param_count_zero(before);
                let k = skip_separators(before, 0);
                if 0 <= k < before.len() {
                    lemma_after_param(before, k);
                    lemma_count_bound(after_param(before, k));
                }
            }
            match it.next() {
                None => {
                    return n;
                },
                Some(_) => {
                    n = n + 1;
                },
            }
        }
    }
}

proof fn lemma_count_bound(ts: Seq<Token>)
    ensures
        param_count(ts) <= ts.len(),
    decreases ts.len(),
{
    lemma_skip_separators(ts, 0);
    let k = skip_separators(ts, 0);
    if 0 <= k < ts.len() {
        lemma_after_param(ts, k);
        lemma_count_bound(after_param(ts, k));
    }
}

/// Exec form of [`is_separator`].
fn is_separator_exec(k: TokenKind) -> (b: bool)
    ensures
        b == is_separator(k),
{
    match k {
        TokenKind::Comma | TokenKind::RightParen | TokenKind::Semicolon | TokenKind::Equals => true,
        _ => false,
    }
}

impl<'e> Param<'e> {
    /// True if the parameter's literals and records read from `src`.
    pub open spec fn reads(&self, src: Seq<u8>) -> bool {
        match self {
            Param::Integer(l) | Param::Real(l) | Param::String(l) | Param::Enumeration(l)
            | Param::Binary(l) | Param::ConstantReference(l) | Param::ValueReference(l)
            | Param::Resource(l) => l.src_view() == src,
            Param::List(p) => p.src_view() == src,
            Param::Typed(r) => r.src_view() == src,
            _ => true,
        }
    }

    pub open spec fn wf(&self) -> bool {
        match self {
            Param::Integer(l) | Param::Real(l) | Param::String(l) | Param::Enumeration(l)
            | Param::Binary(l) | Param::ConstantReference(l) | Param::ValueReference(l)
            | Param::Resource(l) => l.wf(),
            Param::List(p) => p.wf(),
            Param::Typed(r) => r.wf(),
            _ => true,
        }
    }

    /// True if this is the first parameter in `ts`, read as a parameter
    /// list would read it.
    pub open spec fn is_first_of(&self, ts: Seq<Token>) -> bool {
        let k = skip_separators(ts, 0);
        &&& 0 <= k < ts.len()
        &&& {
            let t = ts[k];
            let from = ts.subrange(k, ts.len() as int);
            match self {
                Param::Unset => t.kind == TokenKind::Dollar,
                Param::Derived => t.kind == TokenKind::Asterisk,
                Param::Integer(l) => t.kind == TokenKind::Integer && l.token_view() == t,
                Param::Real(l) => t.kind == TokenKind::Real && l.token_view() == t,
                Param::String(l) => t.kind == TokenKind::String && l.token_view() == t,
                Param::Enumeration(l) => t.kind == TokenKind::Enumeration && l.token_view() == t,
                Param::Binary(l) => t.kind == TokenKind::Binary && l.token_view() == t,
                Param::Reference(id) => t.kind == TokenKind::InstanceName(*id),
                Param::ConstantReference(l) => t.kind == TokenKind::ConstantName && l.token_view() == t,
                Param::ValueReference(l) => t.kind == TokenKind::ValueName && l.token_view() == t,
                Param::Resource(l) => t.kind == TokenKind::Resource && l.token_view() == t,
                Param::List(p) => t.kind == TokenKind::LeftParen && p.tokens_view() == tokens_between(
                    from,
                    1,
                    matching(from),
                ),
                Param::Typed(r) => (t.kind == TokenKind::Keyword || t.kind == TokenKind::UserKeyword)
                    && r.name_token() == t && r.params_view() == tokens_between(
                    from.drop_first(),
                    1,
                    matching(from.drop_first()),
                ),
            }
        }
    }

    /// The referenced `#id`, if this is a [`Param::Reference`].
    pub fn reference(&self) -> (r: Option<u64>)
        ensures
            r == (match self {
                Param::Reference(id) => Some(*id),
                _ => None,
            }),
    {
        match self {
            Param::Reference(id) => Some(*id),
            _ => None,
        }
    }

    /// The items, if this is a [`Param::List`].
    pub fn list(&self) -> (r: Option<Params<'e>>)
        ensures
            r == (match self {
                Param::List(items) => Some(*items),
                _ => None,
            }),
    {
        match self {
            Param::List(items) => Some(*items),
            _ => None,
        }
    }

    /// The typed value's record, if this is a [`Param::Typed`].
    pub fn typed(&self) -> (r: Option<Record<'e>>)
        ensures
            r == (match self {
                Param::Typed(record) => Some(*record),
                _ => None,
            }),
    {
        match self {
            Param::Typed(record) => Some(*record),
            _ => None,
        }
    }

    /// The literal, for integers, reals, strings, enumerations, binaries
    /// and edition 3 constant, value and resource references.
    pub fn literal(&self) -> (r: Option<Literal<'e>>)
        ensures
            r == (match self {
                Param::Integer(l) | Param::Real(l) | Param::String(l) | Param::Enumeration(l)
                | Param::Binary(l) | Param::ConstantReference(l) | Param::ValueReference(l)
                | Param::Resource(l) => Some(*l),
                _ => None,
            }),
    {
        match self {
            Param::Integer(l) | Param::Real(l) | Param::String(l) | Param::Enumeration(l)
            | Param::Binary(l) | Param::ConstantReference(l) | Param::ValueReference(l)
            | Param::Resource(l) => Some(*l),
            _ => None,
        }
    }

    /// True for `$`.
    pub fn is_unset(&self) -> (b: bool)
        ensures
            b == (*self matches Param::Unset),
    {
        match self {
            Param::Unset => true,
            _ => false,
        }
    }
}

/// True if every byte of `d` is a decimal digit.
pub open spec fn all_digits(d: Seq<u8>) -> bool {
    forall|k: int| 0 <= k < d.len() ==> is_digit(#[trigger] d[k])
}

/// True if `text` starts with a sign.
pub open spec fn signed(text: Seq<u8>) -> bool {
    text.len() > 0 && (text[0] == 45 || text[0] == 43)
}

/// `text` without its sign.
pub open spec fn unsigned_part(text: Seq<u8>) -> Seq<u8> {
    if signed(text) { text.drop_first() } else { text }
}

/// The value an integer literal's text denotes, if it is an optional sign
/// followed by decimal digits.
pub open spec fn integer_value(text: Seq<u8>) -> Option<int> {
    let digits = unsigned_part(text);
    if digits.len() > 0 && all_digits(digits) {
        Some(if text[0] == 45 { -(digits_value(digits) as int) } else { digits_value(digits) as int })
    } else {
        None
    }
}

impl<'e> Literal<'e> {
    pub closed spec fn src_view(&self) -> Seq<u8> {
        self.src@
    }

    pub closed spec fn token_view(&self) -> Token {
        self.token
    }

    pub open spec fn wf(&self) -> bool {
        &&& self.src_view().len() < usize::MAX
        &&& genuine(self.src_view(), self.token_view())
    }

    /// The literal's text as written.
    pub open spec fn text_view(&self) -> Seq<u8> {
        self.token_view().span.of(self.src_view())
    }

    /// The literal exactly as written, including any quotes, dots or sign.
    pub fn text(self) -> (t: &'e [u8])
        requires
            self.wf(),
        ensures
            t@ == self.text_view(),
    {
        self.token.span.slice(self.src)
    }

    /// Where the literal is in the source.
    pub fn span(self) -> (s: Span)
        ensures
            s == self.token_view().span,
    {
        self.token.span
    }

    /// Decodes a string literal; see [`decode_string`].
    ///
    /// # Errors
    ///
    /// Returns [`Error::Syntax`](crate::Error::Syntax) if this is not a
    /// string literal or it contains a malformed directive.
    pub fn decode(self) -> (r: Result<String>)
        requires
            self.wf(),
        ensures
            match decoded(self.src_view(), self.token_view().span) {
                Ok(t) => r matches Ok(s) && s@ == t,
                Err(o) => r matches Err(e) && e.is_syntax_at(self.src_view(), o),
            },
    {
        decode_string(self.src, self.token.span)
    }

    /// The value of an integer literal; `None` for other literals or if it
    /// does not fit in an `i64`.
    pub fn to_i64(self) -> (r: Option<i64>)
        requires
            self.wf(),
        ensures
            r == (if self.token_view().kind == TokenKind::Integer {
                match integer_value(self.text_view()) {
                    Some(v) => if i64::MIN <= v <= i64::MAX { Some(v as i64) } else { None },
                    None => None,
                }
            } else {
                None
            }),
    {
        if self.token.kind != TokenKind::Integer {
            return None;
        }
        let text = self.text();
        parse_i64(text)
    }

    /// The value of an enumeration literal without its dots: `"T"` for
    /// `.T.`. `None` for other literals.
    pub fn enumeration(self) -> (r: Option<&'e str>)
        requires
            self.wf(),
        ensures
            r is Some <==> self.token_view().kind == TokenKind::Enumeration && self.text_view().len()
                >= 2 && vstd::utf8::valid_utf8(
                self.text_view().subrange(1, self.text_view().len() - 1),
            ),
            r matches Some(s) ==> s@ == vstd::utf8::decode_utf8(
                self.text_view().subrange(1, self.text_view().len() - 1),
            ),
    {
        if self.token.kind != TokenKind::Enumeration {
            return None;
        }
        let text = self.text();
        if text.len() < 2 {
            return None;
        }
        crate::text::str_from_utf8(slice_range(text, 1, text.len() - 1))
    }
}

/// The value of `[sign] digits`, if it fits in an `i64`.
fn parse_i64(text: &[u8]) -> (r: Option<i64>)
    ensures
        r == match integer_value(text@) {
            Some(v) => if i64::MIN <= v <= i64::MAX { Some(v as i64) } else { None },
            None => None,
        },
{
    let n = text.len();
    if n == 0 {
        return None;
    }
    let neg = text[0] == 45;
    let start: usize = if text[0] == 45 || text[0] == 43 { 1 } else { 0 };
    if start >= n {
        return None;
    }
    let ghost digits = text@.subrange(start as int, n as int);
    proof {
        assert(digits =~= if start == 1 { text@.drop_first() } else { text@ });
        assert(digits.take(0) =~= Seq::<u8>::empty());
    }
    let mut acc: u64 = 0;
    let mut i = start;
    while i < n
        invariant
            start <= i <= n == text@.len(),
            start < n,
            digits == text@.subrange(start as int, n as int),
            digits == unsigned_part(text@),
            start == 1 <==> signed(text@),
            start <= 1,
            neg == (text@[0] == 45),
            forall|k: int| 0 <= k < i - start ==> is_digit(#[trigger] digits[k]),
            acc <= 0x8000000000000000,
            acc == digits_value(digits.take(i - start)),
            acc <= 0x8000000000000000,
        decreases n - i,
    {
        let b = text[i];
        proof {
            assert(digits[i - start] == b);
            assert(digits.take(i - start + 1).drop_last() =~= digits.take(i - start));
        }
        if !(48 <= b && b <= 57) {
            proof {
                assert(!is_digit(digits[i - start]));
                assert(!all_digits(digits));
                assert(integer_value(text@) is None);
            }
            return None;
        }
        let d = (b - 48) as u64;
        if acc > 0x0CCCCCCCCCCCCCCC || acc * 10 + d > 0x8000000000000000 {
            proof {
                let j = i - start + 1;
                assert(digits.take(j).last() == b);
                assert(digits_value(digits.take(j)) == digits_value(digits.take(j).drop_last()) * 10 + (b - 48) as nat);
                assert(digits_value(digits.take(i - start + 1)) == acc * 10 + d);
                if acc > 0x0CCCCCCCCCCCCCCC {
                    assert(acc * 10 + d > 0x8000000000000000) by (nonlinear_arith)
                        requires
                            acc > 0x0CCCCCCCCCCCCCCC,
                            d >= 0,
                    ;
                }
                if all_digits(digits) {
                    lemma_digits_monotone_all(digits, i - start + 1);
                    assert(digits_value(digits) > 0x8000000000000000);
                }
                assert(integer_value(text@) matches Some(v) ==> !(i64::MIN <= v <= i64::MAX));
            }
            return None;
        }
        acc = acc * 10 + d;
        i = i + 1;
    }
    proof {
        assert(digits.take(n - start) =~= digits);
    }
    if neg {
        if acc == 0x8000000000000000 {
            Some(i64::MIN)
        } else {
            Some(-(acc as i64))
        }
    } else if acc <= 0x7FFFFFFFFFFFFFFF {
        Some(acc as i64)
    } else {
        None
    }
}

proof fn lemma_digits_monotone_all(d: Seq<u8>, i: int)
    requires
        0 <= i <= d.len(),
    ensures
        all_digits(d) ==> digits_value(d.take(i)) <= digits_value(d),
    decreases d.len() - i,
{
    if i < d.len() {
        lemma_digits_monotone_all(d, i + 1);
        assert(d.take(i + 1).drop_last() =~= d.take(i));
    } else {
        assert(d.take(i) =~= d);
    }
}

impl<'e> References<'e> {
    pub closed spec fn tokens_view(&self) -> Seq<Token> {
        self.tokens@
    }

    /// The instance names still to come.
    pub open spec fn remaining(&self) -> Seq<u64> {
        ids_in(self.tokens_view())
    }

    /// The next instance name referred to.
    pub fn next(&mut self) -> (r: Option<u64>)
        ensures
            old(self).remaining().len() == 0 ==> r is None && final(self).remaining().len() == 0,
            old(self).remaining().len() > 0 ==> r == Some(old(self).remaining()[0])
                && final(self).remaining() == old(self).remaining().drop_first(),
    {
        let mut i: usize = 0;
        let ghost ts = self.tokens@;
        proof {
            assert(ts.subrange(0, ts.len() as int) =~= ts);
        }
        while i < self.tokens.len()
            invariant
                i <= self.tokens@.len(),
                self.tokens@ == ts,
                ts == old(self).tokens_view(),
                ids_in(ts) == ids_in(ts.subrange(i as int, ts.len() as int)),
            decreases ts.len() - i,
        {
            proof {
                let rest = ts.subrange(i as int, ts.len() as int);
                assert(rest.drop_first() =~= ts.subrange(i + 1, ts.len() as int));
            }
            if let TokenKind::InstanceName(id) = self.tokens[i].kind {
                self.tokens = slice_range(self.tokens, i + 1, self.tokens.len());
                proof {
                    let rest = ts.subrange(i as int, ts.len() as int);
                    assert(rest[0] == ts[i as int]);
                    assert(ids_in(rest) == seq![id] + ids_in(rest.drop_first()));
                    assert(ids_in(ts).drop_first() =~= ids_in(self.tokens@));
                }
                return Some(id);
            }
            i = i + 1;
        }
        proof {
            assert(ts.subrange(i as int, ts.len() as int) =~= Seq::<Token>::empty());
        }
        self.tokens = slice_range(self.tokens, 0, 0);
        None
    }

    /// All remaining instance names, in order.
    pub fn to_vec(self) -> (v: Vec<u64>)
        ensures
            v@ == self.remaining(),
    {
        let mut it = self;
        let mut v: Vec<u64> = Vec::new();
        proof {
            assert(self.remaining() =~= v@ + it.remaining());
        }
        loop
            invariant
                self.remaining() == v@ + it.remaining(),
            decreases it.remaining().len(),
        {
            let ghost before = it.remaining();
            match it.next() {
                None => {
                    proof {
                        assert(v@ + it.remaining() =~= v@);
                    }
                    return v;
                },
                Some(id) => {
                    proof {
                        assert(v@.push(id) + it.remaining() =~= v@ + before);
                    }
                    v.push(id);
                },
            }
        }
    }
}

/// The instance names among `tokens`, in order, repeats included.
pub fn ids_of(tokens: &[Token]) -> (v: Vec<u64>)
    ensures
        v@ == ids_in(tokens@),
{
    References { tokens }.to_vec()
}

// ---------------------------------------------------------------------
// Queries.
// ---------------------------------------------------------------------

/// `text` without `front` bytes at the start and `back` at the end, as
/// text; empty if that is not UTF-8 or the text is too short.
pub open spec fn inner_text(text: Seq<u8>, front: int, back: int) -> Seq<char> {
    let end = text.len() - back;
    if front <= end && vstd::utf8::valid_utf8(text.subrange(front, end)) {
        vstd::utf8::decode_utf8(text.subrange(front, end))
    } else {
        Seq::empty()
    }
}

/// The anchor an `ANCHOR` entry defines, if its first token is a resource
/// name: its name, the instance it names if it names exactly one, and its
/// text.
pub open spec fn anchor_of(src: Seq<u8>, ts: Seq<Token>, e: Entry) -> Option<
    (Seq<char>, Option<u64>, Seq<u8>),
> {
    let toks = tokens_between(ts, e.start as int, e.end as int);
    if toks.len() > 0 && toks[0].kind == TokenKind::Resource {
        let target = if toks.len() == 3 {
            match toks[2].kind {
                TokenKind::InstanceName(id) => Some(id),
                _ => None,
            }
        } else {
            None
        };
        Some((inner_text(toks[0].span.of(src), 1, 1), target, e.span.of(src)))
    } else {
        None
    }
}

/// The anchors of some entries, in order.
pub open spec fn entry_anchors(src: Seq<u8>, ts: Seq<Token>, entries: Seq<Entry>) -> Seq<
    (Seq<char>, Option<u64>, Seq<u8>),
>
    decreases entries.len(),
{
    if entries.len() == 0 {
        Seq::empty()
    } else {
        let rest = entry_anchors(src, ts, entries.drop_last());
        match anchor_of(src, ts, entries.last()) {
            Some(a) => rest.push(a),
            None => rest,
        }
    }
}

/// The anchors of the `ANCHOR` sections of `extra`, in file order.
pub open spec fn anchors_in(src: Seq<u8>, ts: Seq<Token>, extra: Seq<ExtraSection>) -> Seq<
    (Seq<char>, Option<u64>, Seq<u8>),
>
    decreases extra.len(),
{
    if extra.len() == 0 {
        Seq::empty()
    } else {
        anchors_in(src, ts, extra.drop_last()) + if extra.last().kind == ExtraKind::Anchor {
            entry_anchors(src, ts, extra.last().entries@)
        } else {
            Seq::empty()
        }
    }
}

/// The external reference a `REFERENCE` entry defines, if it has the form
/// `name = <uri>`: the kind of name (0 instance, 1 constant, 2 value), the
/// instance id, the name's text without its sigil, and the uri.
pub open spec fn reference_of(src: Seq<u8>, ts: Seq<Token>, e: Entry) -> Option<
    (int, u64, Seq<char>, Seq<char>),
> {
    let toks = tokens_between(ts, e.start as int, e.end as int);
    if toks.len() == 3 && toks[1].kind == TokenKind::Equals && toks[2].kind == TokenKind::Resource {
        let uri = inner_text(toks[2].span.of(src), 1, 1);
        let text = toks[0].span.of(src);
        match toks[0].kind {
            TokenKind::InstanceName(id) => Some((0, id, Seq::empty(), uri)),
            TokenKind::ConstantName => Some((1, 0, inner_text(text, 1, 0), uri)),
            TokenKind::ValueName => Some((2, 0, inner_text(text, 1, 0), uri)),
            _ => None,
        }
    } else {
        None
    }
}

/// The external references of some entries, in order.
pub open spec fn entry_references(src: Seq<u8>, ts: Seq<Token>, entries: Seq<Entry>) -> Seq<
    (int, u64, Seq<char>, Seq<char>),
>
    decreases entries.len(),
{
    if entries.len() == 0 {
        Seq::empty()
    } else {
        let rest = entry_references(src, ts, entries.drop_last());
        match reference_of(src, ts, entries.last()) {
            Some(a) => rest.push(a),
            None => rest,
        }
    }
}

/// The external references of the `REFERENCE` sections of `extra`, in file
/// order.
pub open spec fn references_in(src: Seq<u8>, ts: Seq<Token>, extra: Seq<ExtraSection>) -> Seq<
    (int, u64, Seq<char>, Seq<char>),
>
    decreases extra.len(),
{
    if extra.len() == 0 {
        Seq::empty()
    } else {
        references_in(src, ts, extra.drop_last()) + if extra.last().kind == ExtraKind::Reference {
            entry_references(src, ts, extra.last().entries@)
        } else {
            Seq::empty()
        }
    }
}

impl<'e> ReferenceName<'e> {
    /// The name as (kind, instance id, text): kind 0 for an instance name,
    /// 1 for a constant name and 2 for a value name.
    pub open spec fn view_parts(&self) -> (int, u64, Seq<char>) {
        match self {
            ReferenceName::Instance(id) => (0, *id, Seq::empty()),
            ReferenceName::Constant(s) => (1, 0, s@),
            ReferenceName::Value(s) => (2, 0, s@),
        }
    }
}

/// True if `name` (the bytes of a `&str`) names one of the records.
pub open spec fn names_a_record(src: Seq<u8>, list: Seq<(Token, Seq<Token>)>, name: Seq<u8>) -> bool {
    exists|k: int| 0 <= k < list.len() && eq_ignore_case(#[trigger] list[k].0.span.of(src), name)
}

/// `text[front..len - back]` as text, or `""`.
fn inner(text: &[u8], front: usize, back: usize) -> (s: &str)
    ensures
        s@ == inner_text(text@, front as int, back as int),
{
    if back <= text.len() && front <= text.len() - back {
        match crate::text::str_from_utf8(slice_range(text, front, text.len() - back)) {
            Some(s) => s,
            None => {
                let e = "";
                proof {
                    reveal_strlit("");
                }
                e
            },
        }
    } else {
        proof {
            reveal_strlit("");
        }
        ""
    }
}

impl<'a> Exchange<'a> {
    /// The tokens of an instance.
    pub open spec fn instance_tokens_view(&self, inst: Instance) -> Seq<Token> {
        tokens_between(self.tokens_view(), inst.token_start as int, inst.token_end as int)
    }

    /// The records of an instance, as names and parameter tokens.
    pub open spec fn records_view(&self, inst: Instance) -> Seq<(Token, Seq<Token>)> {
        let ts = self.instance_tokens_view(inst);
        record_list(if inst.complex { tokens_between(ts, 1, ts.len() - 1) } else { ts })
    }

    /// The header records, as names and parameter tokens.
    pub open spec fn header_view(&self) -> Seq<(Token, Seq<Token>)> {
        record_list(
            self.tokens_view().subrange(self.header_range().0 as int, self.header_range().1 as int),
        )
    }

    /// True if instance `inst` has a record named `name`, ignoring case.
    pub open spec fn has_record(&self, inst: Instance, name: Seq<u8>) -> bool {
        names_a_record(self.src_view(), self.records_view(inst), name)
    }

    /// The source bytes the file was parsed from.
    pub fn source(&self) -> (s: &'a [u8])
        ensures
            s@ == self.src_view(),
    {
        self.src
    }

    /// The header entities, normally `FILE_DESCRIPTION`, `FILE_NAME` and
    /// `FILE_SCHEMA`, in file order.
    pub fn header(&self) -> (r: Records<'_>)
        requires
            self.wf(),
        ensures
            r.wf(),
            r.src_view() == self.src_view(),
            r.remaining() == self.header_view(),
    {
        let tokens = slice_range(self.tokens.as_slice(), self.header_start, self.header_end);
        proof {
            assert forall|i: int| 0 <= i < tokens@.len() implies genuine(self.src@, #[trigger] tokens@[i]) by {
                assert(tokens@[i] == self.tokens@[self.header_start + i]);
            }
        }
        Records { src: self.src, tokens }
    }

    /// The first header entity named `name`, ignoring ASCII case.
    pub fn header_entity(&self, name: &str) -> (r: Option<Record<'_>>)
        requires
            self.wf(),
        ensures
            r is None <==> !names_a_record(self.src_view(), self.header_view(), name.spec_bytes()),
            r matches Some(rec) ==> rec.wf() && rec.src_view() == self.src_view() && exists|k: int|
                0 <= k < self.header_view().len() && rec.name_token() == self.header_view()[k].0
                    && rec.params_view() == self.header_view()[k].1 && eq_ignore_case(
                    self.header_view()[k].0.span.of(self.src_view()),
                    name.spec_bytes(),
                ) && forall|j: int| 0 <= j < k ==> !eq_ignore_case(
                    #[trigger] self.header_view()[j].0.span.of(self.src_view()),
                    name.spec_bytes(),
                ),
    {
        let records = self.header();
        first_named(records, name)
    }

    /// The data sections, in file order. Edition 2 files have exactly one.
    pub fn sections(&self) -> (v: Vec<Section<'_>>)
        requires
            self.wf(),
        ensures
            v@.len() == self.sections_view().len(),
            forall|s: int| 0 <= s < v@.len() ==> {
                let d = self.sections_view()[s];
                let ps = self.tokens_view().subrange(d.params_start as int, d.params_end as int);
                &&& (#[trigger] v@[s]).params.wf()
                &&& v@[s].params.src_view() == self.src_view()
                &&& v@[s].params.tokens_view() == tokens_between(ps, 1, ps.len() - 1)
                &&& v@[s].instances@ == self.instances_view().subrange(d.first as int, d.last as int)
            },
    {
        let mut v: Vec<Section<'_>> = Vec::new();
        let mut s: usize = 0;
        while s < self.sections.len()
            invariant
                self.wf(),
                s <= self.sections@.len(),
                v@.len() == s,
                forall|j: int| 0 <= j < s ==> {
                    let d = self.sections_view()[j];
                    let ps = self.tokens_view().subrange(d.params_start as int, d.params_end as int);
                    &&& (#[trigger] v@[j]).params.wf()
                    &&& v@[j].params.src_view() == self.src_view()
                    &&& v@[j].params.tokens_view() == tokens_between(ps, 1, ps.len() - 1)
                    &&& v@[j].instances@ == self.instances_view().subrange(d.first as int, d.last as int)
                },
            decreases self.sections@.len() - s,
        {
            let d = self.sections[s];
            proof {
                assert(self.sections_view()[s as int] == d);
            }
            let ps = slice_range(self.tokens.as_slice(), d.params_start, d.params_end);
            let inner = if ps.len() >= 1 {
                sub_exec(ps, 1, ps.len() - 1)
            } else {
                sub_exec(ps, 1, 0)
            };
            proof {
                assert forall|i: int| 0 <= i < inner@.len() implies genuine(self.src@, #[trigger] inner@[i]) by {
                    assert(inner@[i] == self.tokens@[d.params_start + 1 + i]);
                }
            }
            let instances = slice_range(self.instances.as_slice(), d.first, d.last);
            v.push(Section { params: Params { src: self.src, tokens: inner }, instances });
            s = s + 1;
        }
        v
    }

    /// All instances from all data sections, in file order.
    pub fn instances(&self) -> (r: &[Instance])
        ensures
            r@ == self.instances_view(),
    {
        self.instances.as_slice()
    }

    /// Positions in [`instances`](Self::instances) of every instance with a
    /// record named `name`, ignoring ASCII case, in file order. A complex
    /// instance matches if any of its partial entities does.
    pub fn instances_of(&self, name: &str) -> (v: Vec<usize>)
        requires
            self.wf(),
        ensures
            forall|i: int, j: int| 0 <= i < j < v@.len() ==> v@[i] < v@[j],
            forall|i: int| 0 <= i < v@.len() ==> (#[trigger] v@[i]) < self.instances_view().len()
                && self.has_record(self.instances_view()[v@[i] as int], name.spec_bytes()),
            forall|p: int|
                0 <= p < self.instances_view().len() && self.has_record(
                    #[trigger] self.instances_view()[p],
                    name.spec_bytes(),
                ) ==> v@.contains(p as usize),
    {
        let mut v: Vec<usize> = Vec::new();
        let mut p: usize = 0;
        while p < self.instances.len()
            invariant
                self.wf(),
                p <= self.instances@.len(),
                forall|i: int, j: int| 0 <= i < j < v@.len() ==> v@[i] < v@[j],
                forall|i: int| 0 <= i < v@.len() ==> (#[trigger] v@[i]) < p && self.has_record(
                    self.instances_view()[v@[i] as int],
                    name.spec_bytes(),
                ),
                forall|q: int|
                    0 <= q < p && self.has_record(#[trigger] self.instances_view()[q], name.spec_bytes())
                        ==> v@.contains(q as usize),
            decreases self.instances@.len() - p,
        {
            let records = self.records(&self.instances[p]);
            let found = first_named(records, name);
            let ghost old_v = v@;
            if found.is_some() {
                v.push(p);
            }
            proof {
                assert forall|q: int|
                    0 <= q < p + 1 && self.has_record(#[trigger] self.instances_view()[q], name.spec_bytes())
                        implies v@.contains(q as usize) by {
                    if q == p {
                        assert(v@[v@.len() - 1] == p);
                    } else {
                        assert(old_v.contains(q as usize));
                        let w = choose|w: int| 0 <= w < old_v.len() && old_v[w] == q as usize;
                        assert(v@[w] == old_v[w]);
                    }
                }
            }
            p = p + 1;
        }
        v
    }

    /// Looks up instance `#id`.
    pub fn get(&self, id: u64) -> (r: Option<&Instance>)
        requires
            self.wf(),
        ensures
            r is None <==> !self.index_view().contains_key(id),
            r matches Some(inst) ==> *inst == self.instances_view()[self.index_view()[id] as int]
                && inst.id == id,
    {
        match self.position(id) {
            Some(i) => Some(&self.instances[i]),
            None => None,
        }
    }

    /// The position of instance `#id` in [`instances`](Self::instances).
    pub fn position(&self, id: u64) -> (r: Option<usize>)
        requires
            self.wf(),
        ensures
            r is None <==> !self.index_view().contains_key(id),
            r matches Some(i) ==> i == self.index_view()[id] && i < self.instances_view().len()
                && self.instances_view()[i as int].id == id,
    {
        match self.index.get(&id) {
            Some(i) => Some(*i),
            None => None,
        }
    }

    /// The instance's original text, from `#` through `;`, byte for byte.
    pub fn text(&self, instance: &Instance) -> (t: &'a [u8])
        requires
            instance.span.within(self.src_view().len() as int),
        ensures
            t@ == instance.span.of(self.src_view()),
    {
        instance.span.slice(self.src)
    }

    /// The records of an instance: one for a simple instance, one per
    /// partial entity for a complex instance.
    pub fn records(&self, instance: &Instance) -> (r: Records<'_>)
        requires
            self.wf(),
        ensures
            r.wf(),
            r.src_view() == self.src_view(),
            r.remaining() == self.records_view(*instance),
    {
        let tokens = self.instance_tokens(instance);
        let tokens = if instance.complex {
            if tokens.len() >= 1 {
                sub_exec(tokens, 1, tokens.len() - 1)
            } else {
                sub_exec(tokens, 1, 0)
            }
        } else {
            tokens
        };
        proof {
            let all = self.instance_tokens_view(*instance);
            assert forall|i: int| 0 <= i < tokens@.len() implies genuine(self.src@, #[trigger] tokens@[i]) by {
                if instance.complex {
                    assert(tokens@[i] == all[i + 1]);
                }
            }
        }
        Records { src: self.src, tokens }
    }

    /// The `#id`s an instance refers to, in order of appearance and
    /// including repeats. Names inside string literals are not references
    /// and are never reported.
    pub fn references(&self, instance: &Instance) -> (r: References<'_>)
        requires
            self.wf(),
        ensures
            r.remaining() == ids_in(self.instance_tokens_view(*instance)),
    {
        References { tokens: self.instance_tokens(instance) }
    }

    /// The tokens of an instance.
    pub fn instance_tokens(&self, instance: &Instance) -> (r: &[Token])
        requires
            self.wf(),
        ensures
            r@ == self.instance_tokens_view(*instance),
            forall|i: int| 0 <= i < r@.len() ==> genuine(self.src_view(), #[trigger] r@[i]),
    {
        let r = sub_exec(self.tokens.as_slice(), instance.token_start, instance.token_end);
        proof {
            assert forall|i: int| 0 <= i < r@.len() implies genuine(self.src@, #[trigger] r@[i]) by {
                assert(r@[i] == self.tokens@[instance.token_start + i]);
            }
        }
        r
    }

    /// The tokens at positions `start..end`, or none if out of range.
    pub fn tokens_in(&self, start: usize, end: usize) -> (r: &[Token])
        requires
            self.wf(),
        ensures
            r@ == tokens_between(self.tokens_view(), start as int, end as int),
    {
        sub_exec(self.tokens.as_slice(), start, end)
    }

    /// True if instance name `#id` is defined by another file, in an edition
    /// 3 `REFERENCE` section, rather than by this one.
    pub fn is_external(&self, id: u64) -> (b: bool)
        requires
            self.wf(),
        ensures
            b == external_ids(self.extra_view(), self.tokens_view()).contains(id),
    {
        self.external.contains(&id)
    }

    /// The edition 3 sections other than `DATA`.
    pub fn extra_sections(&self) -> (r: &[ExtraSection])
        ensures
            r@ == self.extra_view(),
    {
        self.extra.as_slice()
    }

    /// The source text between `HEADER;` and `ENDSEC;`, comments included.
    pub fn header_text(&self) -> (t: &'a [u8])
        requires
            self.wf(),
        ensures
            t@ == self.header_span_view().of(self.src_view()),
    {
        self.header_text.slice(self.src)
    }

    /// Where [`header_text`](Self::header_text) is in the source.
    pub fn header_span(&self) -> (s: Span)
        ensures
            s == self.header_span_view(),
    {
        self.header_text
    }

    /// The tokens of the header entities.
    pub fn header_tokens(&self) -> (r: &[Token])
        requires
            self.wf(),
        ensures
            r@ == self.tokens_view().subrange(
                self.header_range().0 as int,
                self.header_range().1 as int,
            ),
    {
        slice_range(self.tokens.as_slice(), self.header_start, self.header_end)
    }

    /// The data sections as kept.
    pub fn data_sections(&self) -> (r: &[DataSection])
        ensures
            r@ == self.sections_view(),
    {
        self.sections.as_slice()
    }

    /// The source text of a data section's parameter list, parentheses
    /// included; empty for a plain `DATA;`.
    pub open spec fn params_text(&self, d: DataSection) -> Seq<u8> {
        if d.params_start < d.params_end {
            self.src_view().subrange(
                self.tokens_view()[d.params_start as int].span.start as int,
                self.tokens_view()[d.params_end - 1].span.end as int,
            )
        } else {
            Seq::empty()
        }
    }

    /// The source text of a data section's parameter list, parentheses
    /// included; empty for a plain `DATA;`.
    pub fn section_params(&self, d: &DataSection) -> (t: &'a [u8])
        requires
            self.wf(),
            d.params_start <= d.params_end <= self.tokens_view().len(),
        ensures
            t@ == self.params_text(*d),
    {
        if d.params_start < d.params_end {
            let first = self.tokens[d.params_start];
            let last = self.tokens[d.params_end - 1];
            proof {
                if d.params_start < d.params_end - 1 {
                    assert(self.tokens@[d.params_start as int].span.end <= self.tokens@[d.params_end
                        - 1].span.start);
                }
            }
            slice_range(self.src, first.span.start, last.span.end)
        } else {
            slice_range(self.src, 0, 0)
        }
    }

    /// The edition 3 anchors, in file order; empty for edition 2 files.
    pub fn anchors(&self) -> (v: Vec<Anchor<'_>>)
        requires
            self.wf(),
        ensures
            v@.len() == anchors_in(self.src_view(), self.tokens_view(), self.extra_view()).len(),
            forall|k: int| 0 <= k < v@.len() ==> {
                let a = anchors_in(self.src_view(), self.tokens_view(), self.extra_view())[k];
                &&& (#[trigger] v@[k]).name@ == a.0
                &&& v@[k].target == a.1
                &&& v@[k].text@ == a.2
            },
    {
        let ghost src = self.src@;
        let ghost ts = self.tokens@;
        let mut v: Vec<Anchor<'_>> = Vec::new();
        let mut s: usize = 0;
        while s < self.extra.len()
            invariant
                self.wf(),
                src == self.src_view(),
                ts == self.tokens_view(),
                s <= self.extra@.len(),
                v@.len() == anchors_in(src, ts, self.extra@.take(s as int)).len(),
                forall|k: int| 0 <= k < v@.len() ==> {
                    let a = anchors_in(src, ts, self.extra@.take(s as int))[k];
                    &&& (#[trigger] v@[k]).name@ == a.0
                    &&& v@[k].target == a.1
                    &&& v@[k].text@ == a.2
                },
            decreases self.extra@.len() - s,
        {
            let section = &self.extra[s];
            let ghost before = anchors_in(src, ts, self.extra@.take(s as int));
            let ghost n0 = v@.len();
            proof {
                assert(self.extra@.take(s + 1).drop_last() =~= self.extra@.take(s as int));
                assert(self.extra@.take(s + 1).last() == *section);
            }
            if section.kind == ExtraKind::Anchor {
                let mut e: usize = 0;
                while e < section.entries.len()
                    invariant
                        self.wf(),
                        src == self.src_view(),
                        ts == self.tokens_view(),
                        s < self.extra@.len(),
                        *section == self.extra@[s as int],
                        e <= section.entries@.len(),
                        n0 == before.len(),
                        v@.len() == n0 + entry_anchors(src, ts, section.entries@.take(e as int)).len(),
                        forall|k: int| 0 <= k < n0 ==> {
                            let a = before[k];
                            &&& (#[trigger] v@[k]).name@ == a.0
                            &&& v@[k].target == a.1
                            &&& v@[k].text@ == a.2
                        },
                        forall|k: int| n0 <= k < v@.len() ==> {
                            let a = entry_anchors(src, ts, section.entries@.take(e as int))[k - n0];
                            &&& (#[trigger] v@[k]).name@ == a.0
                            &&& v@[k].target == a.1
                            &&& v@[k].text@ == a.2
                        },
                    decreases section.entries@.len() - e,
                {
                    let entry = section.entries[e];
                    proof {
                        assert(section.entries@.take(e + 1).drop_last() =~= section.entries@.take(
                            e as int,
                        ));
                        assert(section.entries@.take(e + 1).last() == entry);
                        assert(entry_ok(src, ts, self.extra@[s as int].entries@[e as int]));
                    }
                    let tokens = self.tokens_in(entry.start, entry.end);
                    if tokens.len() > 0 && tokens[0].kind == TokenKind::Resource {
                        let target = if tokens.len() == 3 {
                            match tokens[2].kind {
                                TokenKind::InstanceName(id) => Some(id),
                                _ => None,
                            }
                        } else {
                            None
                        };
                        let name_tok = tokens[0];
                        proof {
                            assert(genuine(src, ts[entry.start as int]));
                            assert(name_tok == ts[entry.start as int]);
                        }
                        let name = inner(name_tok.span.slice(self.src), 1, 1);
                        let text = entry.span.slice(self.src);
                        v.push(Anchor { name, target, text });
                    }
                    e = e + 1;
                }
                proof {
                    assert(section.entries@.take(e as int) =~= section.entries@);
                }
            }
            proof {
                let after = anchors_in(src, ts, self.extra@.take(s + 1));
                assert forall|k: int| 0 <= k < v@.len() implies {
                    let a = after[k];
                    &&& (#[trigger] v@[k]).name@ == a.0
                    &&& v@[k].target == a.1
                    &&& v@[k].text@ == a.2
                } by {
                    if k < n0 {
                        assert(after[k] == before[k]);
                    }
                }
            }
            s = s + 1;
        }
        proof {
            assert(self.extra@.take(self.extra@.len() as int) =~= self.extra@);
        }
        v
    }

    /// The edition 3 external references, in file order; empty for edition 2
    /// files.
    pub fn external_references(&self) -> (v: Vec<ExternalReference<'_>>)
        requires
            self.wf(),
        ensures
            v@.len() == references_in(self.src_view(), self.tokens_view(), self.extra_view()).len(),
            forall|k: int| 0 <= k < v@.len() ==> {
                let a = references_in(self.src_view(), self.tokens_view(), self.extra_view())[k];
                &&& (#[trigger] v@[k]).name.view_parts() == (a.0, a.1, a.2)
                &&& v@[k].uri@ == a.3
            },
    {
        let ghost src = self.src@;
        let ghost ts = self.tokens@;
        let mut v: Vec<ExternalReference<'_>> = Vec::new();
        let mut s: usize = 0;
        while s < self.extra.len()
            invariant
                self.wf(),
                src == self.src_view(),
                ts == self.tokens_view(),
                s <= self.extra@.len(),
                v@.len() == references_in(src, ts, self.extra@.take(s as int)).len(),
                forall|k: int| 0 <= k < v@.len() ==> {
                    let a = references_in(src, ts, self.extra@.take(s as int))[k];
                    &&& (#[trigger] v@[k]).name.view_parts() == (a.0, a.1, a.2)
                    &&& v@[k].uri@ == a.3
                },
            decreases self.extra@.len() - s,
        {
            let section = &self.extra[s];
            let ghost before = references_in(src, ts, self.extra@.take(s as int));
            let ghost n0 = v@.len();
            proof {
                assert(self.extra@.take(s + 1).drop_last() =~= self.extra@.take(s as int));
                assert(self.extra@.take(s + 1).last() == *section);
            }
            if section.kind == ExtraKind::Reference {
                let mut e: usize = 0;
                while e < section.entries.len()
                    invariant
                        self.wf(),
                        src == self.src_view(),
                        ts == self.tokens_view(),
                        s < self.extra@.len(),
                        *section == self.extra@[s as int],
                        e <= section.entries@.len(),
                        n0 == before.len(),
                        v@.len() == n0 + entry_references(src, ts, section.entries@.take(e as int)).len(),
                        forall|k: int| 0 <= k < n0 ==> {
                            let a = before[k];
                            &&& (#[trigger] v@[k]).name.view_parts() == (a.0, a.1, a.2)
                            &&& v@[k].uri@ == a.3
                        },
                        forall|k: int| n0 <= k < v@.len() ==> {
                            let a = entry_references(src, ts, section.entries@.take(e as int))[k - n0];
                            &&& (#[trigger] v@[k]).name.view_parts() == (a.0, a.1, a.2)
                            &&& v@[k].uri@ == a.3
                        },
                    decreases section.entries@.len() - e,
                {
                    let entry = section.entries[e];
                    proof {
                        assert(section.entries@.take(e + 1).drop_last() =~= section.entries@.take(
                            e as int,
                        ));
                        assert(section.entries@.take(e + 1).last() == entry);
                        assert(entry_ok(src, ts, self.extra@[s as int].entries@[e as int]));
                    }
                    let tokens = self.tokens_in(entry.start, entry.end);
                    if tokens.len() == 3 && tokens[1].kind == TokenKind::Equals && tokens[2].kind
                        == TokenKind::Resource {
                        let lhs = tokens[0];
                        let uri_tok = tokens[2];
                        proof {
                            assert(lhs == ts[entry.start as int]);
                            assert(uri_tok == ts[entry.start + 2]);
                            assert(genuine(src, ts[entry.start as int]));
                            assert(genuine(src, ts[entry.start + 2]));
                        }
                        let uri = inner(uri_tok.span.slice(self.src), 1, 1);
                        let text = lhs.span.slice(self.src);
                        let name = match lhs.kind {
                            TokenKind::InstanceName(id) => Some(ReferenceName::Instance(id)),
                            TokenKind::ConstantName => Some(ReferenceName::Constant(inner(text, 1, 0))),
                            TokenKind::ValueName => Some(ReferenceName::Value(inner(text, 1, 0))),
                            _ => None,
                        };
                        if let Some(name) = name {
                            v.push(ExternalReference { name, uri });
                        }
                    }
                    e = e + 1;
                }
                proof {
                    assert(section.entries@.take(e as int) =~= section.entries@);
                }
            }
            proof {
                let after = references_in(src, ts, self.extra@.take(s + 1));
                assert forall|k: int| 0 <= k < v@.len() implies {
                    let a = after[k];
                    &&& (#[trigger] v@[k]).name.view_parts() == (a.0, a.1, a.2)
                    &&& v@[k].uri@ == a.3
                } by {
                    if k < n0 {
                        assert(after[k] == before[k]);
                    }
                }
            }
            s = s + 1;
        }
        proof {
            assert(self.extra@.take(self.extra@.len() as int) =~= self.extra@);
        }
        v
    }
}

/// The first record among `records` named `name`, ignoring ASCII case.
fn first_named<'e>(records: Records<'e>, name: &str) -> (r: Option<Record<'e>>)
    requires
        records.wf(),
    ensures
        r is None <==> !names_a_record(records.src_view(), records.remaining(), name.spec_bytes()),
        r matches Some(rec) ==> rec.wf() && rec.src_view() == records.src_view() && exists|k: int|
            0 <= k < records.remaining().len() && rec.name_token() == records.remaining()[k].0
                && rec.params_view() == records.remaining()[k].1 && eq_ignore_case(
                records.remaining()[k].0.span.of(records.src_view()),
                name.spec_bytes(),
            ) && forall|j: int| 0 <= j < k ==> !eq_ignore_case(
                #[trigger] records.remaining()[j].0.span.of(records.src_view()),
                name.spec_bytes(),
            ),
{
    let ghost all = records.remaining();
    let ghost src = records.src_view();
    let mut it = records;
    let ghost mut seen: int = 0;
    loop
        invariant
            it.wf(),
            it.src_view() == src,
            all == records.remaining(),
            src == records.src_view(),
            0 <= seen <= all.len(),
            it.remaining() == all.subrange(seen, all.len() as int),
            forall|k: int| 0 <= k < seen ==> !eq_ignore_case(#[trigger] all[k].0.span.of(src), name.spec_bytes()),
        decreases it.remaining().len(),
    {
        match it.next() {
            None => {
                proof {
                    assert(seen == all.len());
                    assert(!names_a_record(src, all, name.spec_bytes())) by {
                        assert forall|k: int| 0 <= k < all.len() implies !eq_ignore_case(
                            #[trigger] all[k].0.span.of(src),
                            name.spec_bytes(),
                        ) by {}
                    }
                }
                return None;
            },
            Some(rec) => {
                proof {
                    assert(all[seen] == all.subrange(seen, all.len() as int)[0]);
                    assert(it.remaining() =~= all.subrange(seen + 1, all.len() as int));
                }
                if rec.is(name) {
                    proof {
                        assert(eq_ignore_case(all[seen].0.span.of(src), name.spec_bytes()));
                    }
                    return Some(rec);
                }
                proof {
                    seen = seen + 1;
                }
            },
        }
    }
}

} // verus!
