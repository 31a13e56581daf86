//! Removing personal and identifying text from a STEP file.
//!
//! This is what `stepq strip` writes. Only string literals change, each
//! replaced where it stands: geometry, numbers, instance names and entity
//! types are copied byte for byte by [`Writer`](crate::p21::Writer) with the
//! [`Replacements`] this module plans. Strings that carry meaning for a
//! reader (contexts, categories, colour and font names, the names of
//! validation properties and user attributes) are left alone.
use vstd::prelude::*;
use vstd::string::*;
use crate::lint::{first_rec, rec_named};
use crate::p21::exchange::{
    after_param, matching, lemma_matching_from, param_count, params_after, skip_separators, tokens_between,
    Exchange, Param, Params, Record,
};
use crate::p21::lexer::{lexeme, Token, TokenKind};
use crate::p21::Replacements;
use crate::text::{
    append_bytes, ascii_bytes, ascii_of, bytes_end_with_ignore_case, decimal_bytes, ends_with_ignore_case, fold,
    push_decimal_bytes,
};

verus! {

/// What [`strip`] plans to change.
pub struct Stripped {
    /// The strings to write instead, for `Writer::replacements`.
    pub replacements: Replacements,
    /// How many instances have a replaced string; the header is not
    /// counted.
    pub instances: usize,
}

/// True if `src` holds a string literal token from `start` to `end`.
pub open spec fn string_token(src: Seq<u8>, start: int, end: int) -> bool {
    &&& 0 <= start < end <= src.len()
    &&& lexeme(src, start) == Ok::<(TokenKind, int), int>((TokenKind::String, end))
}

/// True if `text` is a quoted string literal.
pub open spec fn quoted(text: Seq<u8>) -> bool {
    &&& text.len() >= 2
    &&& text[0] == 39
    &&& text[text.len() - 1] == 39
}

/// True if every replacement swaps a string literal of `src` for another
/// quoted string.
pub open spec fn strings_only(src: Seq<u8>, m: Map<usize, (usize, Seq<u8>)>) -> bool {
    forall|k: usize| #[trigger] m.contains_key(k) ==> string_token(src, k as int, m[k].0 as int) && quoted(m[k].1)
}

/// The size of a parameter as a list, which bounds how deep blanking goes.
pub open spec fn list_size(param: Param) -> nat {
    match param {
        Param::List(items) => items.tokens_view().len() + 1,
        _ => 0,
    }
}


// ---------------------------------------------------------------------
// The plan.
// ---------------------------------------------------------------------

/// True for the kinds of token a literal parameter is.
pub open spec fn literal_kind(k: TokenKind) -> bool {
    match k {
        TokenKind::Integer | TokenKind::Real | TokenKind::String | TokenKind::Enumeration | TokenKind::Binary
        | TokenKind::ConstantName | TokenKind::ValueName | TokenKind::Resource => true,
        _ => false,
    }
}

/// `''`.
pub open spec fn blank_text() -> Seq<u8> {
    seq![39u8, 39u8]
}

/// The tokens from parameter `i` of `ts` on, if it has one.
pub open spec fn param_tokens(ts: Seq<Token>, i: nat) -> Option<Seq<Token>> {
    if i < param_count(ts) {
        Some(params_after(ts, i))
    } else {
        None
    }
}

/// `m` with the first parameter of `ts` replaced by `text`, if it is a
/// string literal that reads otherwise.
pub open spec fn set_first(src: Seq<u8>, m: Map<usize, (usize, Seq<u8>)>, ts: Seq<Token>, text: Seq<u8>) -> Map<
    usize,
    (usize, Seq<u8>),
> {
    let k = skip_separators(ts, 0);
    if 0 <= k < ts.len() && literal_kind(ts[k].kind) && ts[k].span.of(src).len() > 0 && ts[k].span.of(src)[0] == 39
        && ts[k].span.of(src) != text {
        m.insert(ts[k].span.start, (ts[k].span.end, text))
    } else {
        m
    }
}

/// [`set_first`] for a parameter that may be absent.
pub open spec fn set_param(src: Seq<u8>, m: Map<usize, (usize, Seq<u8>)>, p: Option<Seq<Token>>, text: Seq<u8>) -> Map<
    usize,
    (usize, Seq<u8>),
> {
    match p {
        Some(ts) => set_first(src, m, ts, text),
        None => m,
    }
}

/// `m` with the first parameter of `ts` blanked: a string, or every string
/// of a list at any depth.
pub open spec fn blank_first(src: Seq<u8>, m: Map<usize, (usize, Seq<u8>)>, ts: Seq<Token>) -> Map<
    usize,
    (usize, Seq<u8>),
>
    decreases ts.len(), 0int,
{
    let k = skip_separators(ts, 0);
    if 0 <= k < ts.len() && ts[k].kind == TokenKind::LeftParen {
        let from = ts.subrange(k, ts.len() as int);
        let inner = tokens_between(from, 1, matching(from));
        if inner.len() < ts.len() {
            blank_items(src, m, inner)
        } else {
            m
        }
    } else {
        set_first(src, m, ts, blank_text())
    }
}

/// `m` with every parameter of `ts` blanked as [`blank_first`] does.
pub open spec fn blank_items(src: Seq<u8>, m: Map<usize, (usize, Seq<u8>)>, ts: Seq<Token>) -> Map<
    usize,
    (usize, Seq<u8>),
>
    decreases ts.len(), 1int,
{
    let k = skip_separators(ts, 0);
    if 0 <= k < ts.len() {
        let rest = after_param(ts, k);
        if rest.len() < ts.len() {
            blank_items(src, blank_first(src, m, ts), rest)
        } else {
            m
        }
    } else {
        m
    }
}

/// [`blank_first`] for a parameter that may be absent.
pub open spec fn blank_param(src: Seq<u8>, m: Map<usize, (usize, Seq<u8>)>, p: Option<Seq<Token>>) -> Map<
    usize,
    (usize, Seq<u8>),
> {
    match p {
        Some(ts) => blank_first(src, m, ts),
        None => m,
    }
}

/// What is blanked in the header: the first `FILE_NAME`'s author,
/// organization and authorization, and with `anonymize` its name.
pub open spec fn header_plan(src: Seq<u8>, header: Seq<(Token, Seq<Token>)>, anonymize: bool) -> Map<
    usize,
    (usize, Seq<u8>),
> {
    match first_rec(src, header, "FILE_NAME", 0) {
        Some(k) => {
            let ts = header[k].1;
            let m0 = Map::<usize, (usize, Seq<u8>)>::empty();
            let m1 = if anonymize {
                set_param(src, m0, param_tokens(ts, 0), blank_text())
            } else {
                m0
            };
            let m2 = blank_param(src, m1, param_tokens(ts, 2));
            let m3 = blank_param(src, m2, param_tokens(ts, 3));
            set_param(src, m3, param_tokens(ts, 6), blank_text())
        },
        None => Map::empty(),
    }
}

/// True if one of `recs` is a person, an organization or an address.
pub open spec fn personal(src: Seq<u8>, recs: Seq<(Token, Seq<Token>)>) -> bool {
    exists|j: int| 0 <= j < recs.len() && #[trigger] personal_record(src, recs[j])
}

/// True if `r` is a person, an organization or an address.
pub open spec fn personal_record(src: Seq<u8>, r: (Token, Seq<Token>)) -> bool {
    rec_named(src, r, "PERSON") || rec_named(src, r, "ORGANIZATION") || ends_with_ignore_case(
        r.0.span.of(src),
        ascii_bytes("ADDRESS"@),
    )
}

/// `m` with every string of `recs[..i]` blanked.
pub open spec fn blank_records(src: Seq<u8>, m: Map<usize, (usize, Seq<u8>)>, recs: Seq<(Token, Seq<Token>)>, i: int) -> Map<
    usize,
    (usize, Seq<u8>),
>
    decreases i,
{
    if i <= 0 {
        m
    } else {
        blank_items(src, blank_records(src, m, recs, i - 1), recs[i - 1].1)
    }
}

/// `n + 1`, wrapping.
pub open spec fn wrap_inc(n: usize) -> usize {
    if n == usize::MAX {
        0
    } else {
        (n + 1) as usize
    }
}

/// `'<prefix><n>'`.
pub open spec fn label_text(prefix: Seq<u8>, n: usize) -> Seq<u8> {
    seq![39u8] + prefix + decimal_bytes(n as nat) + seq![39u8]
}

/// The plan so far with its product and usage counters.
pub struct PlanState {
    pub replacements: Map<usize, (usize, Seq<u8>)>,
    pub products: usize,
    pub usages: usize,
}

/// The plan `m` with the counters `products` and `usages`.
pub open spec fn plan_state(m: Map<usize, (usize, Seq<u8>)>, products: usize, usages: usize) -> PlanState {
    PlanState { replacements: m, products, usages }
}

/// What anonymizing does to the record `r` of an instance, complex or not.
pub open spec fn anonymize_record(src: Seq<u8>, st: PlanState, r: (Token, Seq<Token>), complex: bool) -> PlanState {
    let m = st.replacements;
    let ts = r.1;
    if rec_named(src, r, "PRODUCT") {
        let n = wrap_inc(st.products);
        let t = label_text(ascii_bytes("product-"@), n);
        PlanState {
            replacements: set_param(
                src,
                set_param(src, set_param(src, m, param_tokens(ts, 0), t), param_tokens(ts, 1), t),
                param_tokens(ts, 2),
                blank_text(),
            ),
            products: n,
            usages: st.usages,
        }
    } else if rec_named(src, r, "PRODUCT_DEFINITION") || rec_named(src, r, "PRODUCT_DEFINITION_FORMATION") || rec_named(
        src,
        r,
        "PRODUCT_DEFINITION_FORMATION_WITH_SPECIFIED_SOURCE",
    ) {
        PlanState { replacements: set_param(src, m, param_tokens(ts, 1), blank_text()), ..st }
    } else if rec_named(src, r, "NEXT_ASSEMBLY_USAGE_OCCURRENCE") && !complex {
        let n = wrap_inc(st.usages);
        let t = label_text(ascii_bytes("usage-"@), n);
        let m1 = set_param(src, m, param_tokens(ts, 0), t);
        let m2 = set_param(src, m1, param_tokens(ts, 1), blank_text());
        let m3 = set_param(src, m2, param_tokens(ts, 2), blank_text());
        PlanState { replacements: set_param(src, m3, param_tokens(ts, 5), blank_text()), products: st.products, usages: n }
    } else if rec_named(src, r, "PRODUCT_DEFINITION_RELATIONSHIP") {
        let n = wrap_inc(st.usages);
        let t = label_text(ascii_bytes("usage-"@), n);
        let m1 = set_param(src, m, param_tokens(ts, 0), t);
        let m2 = set_param(src, m1, param_tokens(ts, 1), blank_text());
        PlanState { replacements: set_param(src, m2, param_tokens(ts, 2), blank_text()), products: st.products, usages: n }
    } else if rec_named(src, r, "ASSEMBLY_COMPONENT_USAGE") {
        PlanState { replacements: set_param(src, m, param_tokens(ts, 0), blank_text()), ..st }
    } else if rec_named(src, r, "PRODUCT_DEFINITION_SHAPE") {
        PlanState {
            replacements: set_param(src, set_param(src, m, param_tokens(ts, 0), blank_text()), param_tokens(ts, 1), blank_text()),
            ..st
        }
    } else if rec_named(src, r, "DESCRIPTIVE_REPRESENTATION_ITEM") {
        PlanState { replacements: set_param(src, m, param_tokens(ts, 1), blank_text()), ..st }
    } else if ends_with_ignore_case(r.0.span.of(src), ascii_bytes("SHAPE_REPRESENTATION"@)) {
        PlanState { replacements: set_param(src, m, param_tokens(ts, 0), blank_text()), ..st }
    } else {
        st
    }
}

/// [`anonymize_record`] over `recs[..i]`.
pub open spec fn anonymize_records(src: Seq<u8>, st: PlanState, recs: Seq<(Token, Seq<Token>)>, complex: bool, i: int) -> PlanState
    decreases i,
{
    if i <= 0 {
        st
    } else {
        anonymize_record(src, anonymize_records(src, st, recs, complex, i - 1), recs[i - 1], complex)
    }
}

/// What the plan does to one instance with records `recs`.
pub open spec fn instance_plan(src: Seq<u8>, st: PlanState, recs: Seq<(Token, Seq<Token>)>, complex: bool, anonymize: bool) -> PlanState {
    if personal(src, recs) {
        PlanState { replacements: blank_records(src, st.replacements, recs, recs.len() as int), ..st }
    } else if anonymize {
        anonymize_records(src, st, recs, complex, recs.len() as int)
    } else {
        st
    }
}

/// The plan after the header and the first `i` instances of `ex`, and how
/// many of those instances it changed.
pub open spec fn plan_upto(ex: Exchange, anonymize: bool, i: int) -> (PlanState, nat)
    decreases i,
{
    let src = ex.src_view();
    if i <= 0 {
        (PlanState { replacements: header_plan(src, ex.header_view(), anonymize), products: 0, usages: 0 }, 0)
    } else {
        let (st, n) = plan_upto(ex, anonymize, i - 1);
        let inst = ex.instances_view()[i - 1];
        let next = instance_plan(src, st, ex.records_view(inst), inst.complex, anonymize);
        (next, n + if next.replacements.dom().len() > st.replacements.dom().len() {
            1nat
        } else {
            0nat
        })
    }
}

// ---------------------------------------------------------------------
// What the plain mode does.
// ---------------------------------------------------------------------

/// True if every replacement in `m` is the empty string `''`.
pub open spec fn blanks_only(m: Map<usize, (usize, Seq<u8>)>) -> bool {
    forall|k: usize| #[trigger] m.contains_key(k) ==> m[k].1 == blank_text()
}

proof fn lemma_blank_keeps(src: Seq<u8>, m: Map<usize, (usize, Seq<u8>)>, ts: Seq<Token>, first: bool)
    requires
        blanks_only(m),
    ensures
        first ==> blanks_only(blank_first(src, m, ts)),
        !first ==> blanks_only(blank_items(src, m, ts)),
    decreases ts.len(), if first { 0int } else { 1int },
{
    let k = skip_separators(ts, 0);
    if first {
        if 0 <= k < ts.len() && ts[k].kind == TokenKind::LeftParen {
            let from = ts.subrange(k, ts.len() as int);
            let inner = tokens_between(from, 1, matching(from));
            if inner.len() < ts.len() {
                lemma_blank_keeps(src, m, inner, false);
            }
        }
    } else {
        if 0 <= k < ts.len() {
            let rest = after_param(ts, k);
            if rest.len() < ts.len() {
                lemma_blank_keeps(src, m, ts, true);
                lemma_blank_keeps(src, blank_first(src, m, ts), rest, false);
            }
        }
    }
}

proof fn lemma_blank_records_keeps(src: Seq<u8>, m: Map<usize, (usize, Seq<u8>)>, recs: Seq<(Token, Seq<Token>)>, i: int)
    requires
        blanks_only(m),
    ensures
        blanks_only(blank_records(src, m, recs, i)),
    decreases i,
{
    if i > 0 {
        lemma_blank_records_keeps(src, m, recs, i - 1);
        lemma_blank_keeps(src, blank_records(src, m, recs, i - 1), recs[i - 1].1, false);
    }
}

proof fn lemma_plain_plan(ex: Exchange, i: int)
    ensures
        blanks_only(plan_upto(ex, false, i).0.replacements),
    decreases i,
{
    let src = ex.src_view();
    if i <= 0 {
        let hv = ex.header_view();
        match first_rec(src, hv, "FILE_NAME", 0) {
            Some(k) => {
                let ts = hv[k].1;
                let m0 = Map::<usize, (usize, Seq<u8>)>::empty();
                assert(blanks_only(m0));
                let m2 = blank_param(src, m0, param_tokens(ts, 2));
                if let Some(t) = param_tokens(ts, 2) {
                    lemma_blank_keeps(src, m0, t, true);
                }
                let m3 = blank_param(src, m2, param_tokens(ts, 3));
                if let Some(t) = param_tokens(ts, 3) {
                    lemma_blank_keeps(src, m2, t, true);
                }
            },
            None => {
                assert(blanks_only(Map::<usize, (usize, Seq<u8>)>::empty()));
            },
        }
    } else {
        lemma_plain_plan(ex, i - 1);
        let st = plan_upto(ex, false, i - 1).0;
        let inst = ex.instances_view()[i - 1];
        let recs = ex.records_view(inst);
        if personal(src, recs) {
            lemma_blank_records_keeps(src, st.replacements, recs, recs.len() as int);
        }
    }
}

/// Without `anonymize`, [`strip`] only blanks strings: every string it
/// replaces becomes `''`, and nothing is renamed.
pub proof fn lemma_plain_strip_only_blanks(ex: Exchange)
    ensures
        blanks_only(plan_upto(ex, false, ex.instances_view().len() as int).0.replacements),
{
    lemma_plain_plan(ex, ex.instances_view().len() as int);
}

/// The replacements planned so far.
struct Plan {
    replacements: Replacements,
}

impl Plan {
    /// Replaces a string attribute with `text`, if it is a string that
    /// differs. `ts` are the tokens from the attribute on.
    fn set(&mut self, param: Option<Param<'_>>, text: &[u8], Ghost(src): Ghost<Seq<u8>>, Ghost(ts): Ghost<Option<Seq<Token>>>)
        requires
            strings_only(src, old(self).replacements@),
            param matches Some(p) ==> p.wf() && p.reads(src) && (ts matches Some(t) && p.is_first_of(t)),
            param is None ==> ts is None,
            quoted(text@),
        ensures
            strings_only(src, final(self).replacements@),
            old(self).replacements@.dom().subset_of(final(self).replacements@.dom()),
            final(self).replacements@ == set_param(src, old(self).replacements@, ts, text@),
    {
        let literal = match param {
            Some(p) => match p.literal() {
                Some(l) => l,
                None => return ,
            },
            None => return ,
        };
        let source = literal.text();
        if source.len() > 0 && source[0] == 39 && !bytes_equal(source, text) {
            let mut replacement: Vec<u8> = Vec::new();
            append_bytes(&mut replacement, text);
            let span = literal.span();
            proof {
                assert(src[span.start as int] == 39);
            }
            self.replacements.replace(span, replacement);
        }
    }

    /// Blanks a string attribute.
    fn blank(&mut self, param: Option<Param<'_>>, Ghost(src): Ghost<Seq<u8>>, Ghost(ts): Ghost<Option<Seq<Token>>>)
        requires
            strings_only(src, old(self).replacements@),
            param matches Some(p) ==> p.wf() && p.reads(src) && (ts matches Some(t) && p.is_first_of(t)),
            param is None ==> ts is None,
        ensures
            strings_only(src, final(self).replacements@),
            old(self).replacements@.dom().subset_of(final(self).replacements@.dom()),
            final(self).replacements@ == set_param(src, old(self).replacements@, ts, blank_text()),
    {
        proof {
            reveal_strlit("''");
        }
        let text = ascii_of("''");
        proof {
            assert(text@ =~= blank_text());
        }
        self.set(param, text, Ghost(src), Ghost(ts));
    }

    /// Blanks a string attribute, or every string in a list, at any depth.
    fn blank_all(&mut self, param: Option<Param<'_>>, Ghost(src): Ghost<Seq<u8>>, Ghost(ts): Ghost<Option<Seq<Token>>>)
        requires
            strings_only(src, old(self).replacements@),
            param matches Some(p) ==> p.wf() && p.reads(src) && (ts matches Some(t) && p.is_first_of(t)),
            param is None ==> ts is None,
        ensures
            strings_only(src, final(self).replacements@),
            old(self).replacements@.dom().subset_of(final(self).replacements@.dom()),
            final(self).replacements@ == blank_param(src, old(self).replacements@, ts),
        decreases
            match param {
                Some(p) => list_size(p),
                None => 0,
            },
            1int,
    {
        let p = match param {
            Some(p) => p,
            None => return ,
        };
        let ghost t = ts->0;
        match p.list() {
            Some(items) => {
                proof {
                    let k = skip_separators(t, 0);
                    let from = t.subrange(k, t.len() as int);
                    lemma_matching_from(from, 0, 0);
                    assert(items.tokens_view() == tokens_between(from, 1, matching(from)));
                }
                self.blank_items_of(items, Ghost(src), Ghost(list_size(p)));
            },
            None => self.blank(Some(p), Ghost(src), Ghost(ts)),
        }
    }

    /// Blanks every parameter of `items`, each as [`Plan::blank_all`] does.
    fn blank_items_of(&mut self, items: Params<'_>, Ghost(src): Ghost<Seq<u8>>, Ghost(bound): Ghost<nat>)
        requires
            strings_only(src, old(self).replacements@),
            items.wf(),
            items.src_view() == src,
            items.tokens_view().len() < bound,
        ensures
            strings_only(src, final(self).replacements@),
            old(self).replacements@.dom().subset_of(final(self).replacements@.dom()),
            final(self).replacements@ == blank_items(src, old(self).replacements@, items.tokens_view()),
        decreases bound, 0int,
    {
        let mut rest = items;
        loop
            invariant
                rest.wf(),
                rest.src_view() == src,
                rest.tokens_view().len() <= items.tokens_view().len(),
                items.tokens_view().len() < bound,
                strings_only(src, self.replacements@),
                old(self).replacements@.dom().subset_of(self.replacements@.dom()),
                blank_items(src, old(self).replacements@, items.tokens_view()) == blank_items(
                    src,
                    self.replacements@,
                    rest.tokens_view(),
                ),
            ensures
                rest.tokens_view().len() == 0,
            decreases rest.tokens_view().len(),
        {
            let ghost ts = rest.tokens_view();
            proof {
                crate::p21::exchange::lemma_skip_separators(ts, 0);
            }
            match rest.next() {
                Some(item) => {
                    proof {
                        let k = crate::p21::exchange::skip_separators(ts, 0);
                        crate::p21::exchange::lemma_after_param(ts, k);
                        let from = ts.subrange(k, ts.len() as int);
                        lemma_matching_from(from, 0, 0);
                        if let Param::List(q) = item {
                            assert(q.tokens_view() == tokens_between(from, 1, matching(from)));
                            assert(q.tokens_view().len() < ts.len());
                        }
                        assert(list_size(item) <= ts.len());
                    }
                    let ghost m0 = self.replacements@;
                    self.blank_all(Some(item), Ghost(src), Ghost(Some(ts)));
                    proof {
                        assert(self.replacements@ == blank_first(src, m0, ts));
                    }
                },
                None => break ,
            }
        }
        proof {
            let k = skip_separators(rest.tokens_view(), 0);
            assert(rest.tokens_view().len() == 0);
        }
    }
}

/// True if `a` and `b` hold the same bytes.
fn bytes_equal(a: &[u8], b: &[u8]) -> (r: bool)
    ensures
        r == (a@ == b@),
{
    if a.len() != b.len() {
        return false;
    }
    let mut i: usize = 0;
    while i < a.len()
        invariant
            a@.len() == b@.len(),
            i <= a@.len(),
            forall|k: int| 0 <= k < i ==> a@[k] == b@[k],
        decreases a@.len() - i,
    {
        if a[i] != b[i] {
            return false;
        }
        i = i + 1;
    }
    proof {
        assert(a@ =~= b@);
    }
    true
}

/// `'<prefix><n>'` as bytes.
fn label(prefix: &str, n: usize) -> (t: Vec<u8>)
    requires
        crate::text::is_ascii_text(prefix@),
    ensures
        quoted(t@),
        t@ == label_text(ascii_bytes(prefix@), n),
{
    let mut t: Vec<u8> = Vec::new();
    t.push(39);
    append_bytes(&mut t, ascii_of(prefix));
    push_decimal_bytes(&mut t, n as u64);
    t.push(39);
    proof {
        assert(t@ =~= label_text(ascii_bytes(prefix@), n));
    }
    t
}

/// Plans the replacements for `exchange`.
///
/// Always blanks the header's `FILE_NAME` author, organization and
/// authorization, and every string of `PERSON`, `ORGANIZATION` and address
/// instances. With `anonymize`, also renames every `PRODUCT` to
/// `product-1`, `product-2`, ... (both id and name) and every assembly
/// usage id to `usage-1`, ..., and blanks: the header's file name; product,
/// formation and definition descriptions; usage names, descriptions and
/// reference designators; shape representation and product definition
/// shape names; and the text of descriptive representation items, which is
/// where user-defined attribute values live.
pub fn strip(exchange: &Exchange<'_>, anonymize: bool) -> (s: Stripped)
    requires
        exchange.wf(),
    ensures
        strings_only(exchange.src_view(), s.replacements@),
        s.replacements@ == plan_upto(*exchange, anonymize, exchange.instances_view().len() as int).0.replacements,
        s.instances == plan_upto(*exchange, anonymize, exchange.instances_view().len() as int).1,
{
    let ghost src = exchange.src_view();
    let mut plan = Plan { replacements: Replacements::new() };
    proof {
        reveal_strlit("FILE_NAME");
        assert(plan.replacements@ =~= Map::<usize, (usize, Seq<u8>)>::empty());
    }
    let ghost hv = exchange.header_view();
    match exchange.header_entity("FILE_NAME") {
        Some(file_name) => {
            let ghost ts = file_name.params_view();
            proof {
                let k = choose|k: int|
                    0 <= k < hv.len() && file_name.name_token() == hv[k].0 && file_name.params_view() == hv[k].1
                        && crate::text::eq_ignore_case(hv[k].0.span.of(src), "FILE_NAME".spec_bytes()) && forall|j: int|
                        0 <= j < k ==> !crate::text::eq_ignore_case(
                            #[trigger] hv[j].0.span.of(src),
                            "FILE_NAME".spec_bytes(),
                        );
                assert forall|j: int| 0 <= j < k implies !#[trigger] rec_named(src, hv[j], "FILE_NAME") by {
                    assert(!crate::text::eq_ignore_case(hv[j].0.span.of(src), "FILE_NAME".spec_bytes()));
                }
                crate::lint::lemma_first_rec(src, hv, "FILE_NAME", 0, k);
                assert(ts == hv[k].1);
            }
            if anonymize {
                plan.blank(file_name.param(0), Ghost(src), Ghost(param_tokens(ts, 0)));
            }
            plan.blank_all(file_name.param(2), Ghost(src), Ghost(param_tokens(ts, 2)));
            plan.blank_all(file_name.param(3), Ghost(src), Ghost(param_tokens(ts, 3)));
            plan.blank(file_name.param(6), Ghost(src), Ghost(param_tokens(ts, 6)));
        },
        None => {
            proof {
                assert forall|j: int| 0 <= j < hv.len() implies !#[trigger] rec_named(src, hv[j], "FILE_NAME") by {
                    if rec_named(src, hv[j], "FILE_NAME") {
                        assert(crate::p21::exchange::names_a_record(src, hv, "FILE_NAME".spec_bytes()));
                    }
                }
                crate::lint::lemma_no_rec(src, hv, "FILE_NAME", 0);
            }
        },
    }
    let mut products: usize = 0;
    let mut usages: usize = 0;
    let mut touched: usize = 0;
    let instances = exchange.instances();
    let mut i: usize = 0;
    while i < instances.len()
        invariant
            exchange.wf(),
            src == exchange.src_view(),
            instances@ == exchange.instances_view(),
            i <= instances@.len(),
            touched <= i,
            strings_only(src, plan.replacements@),
            plan_upto(*exchange, anonymize, i as int) == (
                PlanState { replacements: plan.replacements@, products, usages },
                touched as nat,
            ),
        decreases instances@.len() - i,
    {
        let instance = &instances[i];
        let before = plan.replacements.len();
        let ghost st0 = PlanState { replacements: plan.replacements@, products, usages };
        let records = exchange.records(instance).to_vec();
        let ghost recs = exchange.records_view(*instance);
        let personal_found = is_personal(&records, Ghost(src), Ghost(recs));
        if personal_found {
            blank_records_of(&mut plan, &records, Ghost(src), Ghost(recs));
        } else if anonymize {
            anonymize_records_of(&mut plan, &records, instance.is_complex(), &mut products, &mut usages, Ghost(src), Ghost(recs));
        }
        proof {
            assert(PlanState { replacements: plan.replacements@, products, usages } == instance_plan(
                src,
                st0,
                recs,
                instance.complex,
                anonymize,
            ));
        }
        if plan.replacements.len() > before {
            touched = touched + 1;
        }
        i = i + 1;
    }
    Stripped { replacements: plan.replacements, instances: touched }
}

/// True if one of `records` is a person, an organization or an address.
fn is_personal(records: &Vec<Record>, Ghost(src): Ghost<Seq<u8>>, Ghost(recs): Ghost<Seq<(Token, Seq<Token>)>>) -> (b: bool)
    requires
        crate::info::records_are(records@, src, recs),
    ensures
        b == personal(src, recs),
{
    proof {
        reveal_strlit("PERSON");
        reveal_strlit("ORGANIZATION");
        reveal_strlit("ADDRESS");
    }
    let mut found = false;
    let mut r: usize = 0;
    while r < records.len()
        invariant
            crate::info::records_are(records@, src, recs),
            r <= records@.len(),
            found <==> exists|j: int| 0 <= j < r && #[trigger] personal_record(src, recs[j]),
        decreases records@.len() - r,
    {
        let record = records[r];
        proof {
            reveal_strlit("ADDRESS");
        }
        if record.is("PERSON") || record.is("ORGANIZATION") || bytes_end_with_ignore_case(
            record.name(),
            ascii_of("ADDRESS"),
        ) {
            proof {
                assert(personal_record(src, recs[r as int]));
            }
            found = true;
        }
        r = r + 1;
    }
    found
}

/// Blanks every string of `records`.
fn blank_records_of(plan: &mut Plan, records: &Vec<Record>, Ghost(src): Ghost<Seq<u8>>, Ghost(recs): Ghost<Seq<(Token, Seq<Token>)>>)
    requires
        crate::info::records_are(records@, src, recs),
        strings_only(src, old(plan).replacements@),
    ensures
        strings_only(src, final(plan).replacements@),
        final(plan).replacements@ == blank_records(src, old(plan).replacements@, recs, recs.len() as int),
{
    let mut r: usize = 0;
    while r < records.len()
        invariant
            crate::info::records_are(records@, src, recs),
            r <= records@.len(),
            strings_only(src, plan.replacements@),
            plan.replacements@ == blank_records(src, old(plan).replacements@, recs, r as int),
        decreases records@.len() - r,
    {
        let params = records[r].params();
        plan.blank_items_of(params, Ghost(src), Ghost((params.tokens_view().len() + 1) as nat));
        r = r + 1;
    }
}

/// Anonymizes `records`, counting products and usages.
fn anonymize_records_of(
    plan: &mut Plan,
    records: &Vec<Record>,
    complex: bool,
    products: &mut usize,
    usages: &mut usize,
    Ghost(src): Ghost<Seq<u8>>,
    Ghost(recs): Ghost<Seq<(Token, Seq<Token>)>>,
)
    requires
        crate::info::records_are(records@, src, recs),
        strings_only(src, old(plan).replacements@),
    ensures
        strings_only(src, final(plan).replacements@),
        plan_state(final(plan).replacements@, *final(products), *final(usages))
            == anonymize_records(
            src,
            plan_state(old(plan).replacements@, *old(products), *old(usages)),
            recs,
            complex,
            recs.len() as int,
        ),
{
    let ghost st0 = plan_state(plan.replacements@, *products, *usages);
    let mut r: usize = 0;
    while r < records.len()
        invariant
            crate::info::records_are(records@, src, recs),
            r <= records@.len(),
            strings_only(src, plan.replacements@),
            plan_state(plan.replacements@, *products, *usages) == anonymize_records(
                src,
                st0,
                recs,
                complex,
                r as int,
            ),
        decreases records@.len() - r,
    {
        anonymize_record_of(plan, records[r], complex, products, usages, Ghost(src), Ghost(recs[r as int]));
        r = r + 1;
    }
}

/// Anonymizes one record.
fn anonymize_record_of(
    plan: &mut Plan,
    record: Record,
    complex: bool,
    products: &mut usize,
    usages: &mut usize,
    Ghost(src): Ghost<Seq<u8>>,
    Ghost(rv): Ghost<(Token, Seq<Token>)>,
)
    requires
        record.wf(),
        record.src_view() == src,
        record.name_token() == rv.0,
        record.params_view() == rv.1,
        strings_only(src, old(plan).replacements@),
    ensures
        strings_only(src, final(plan).replacements@),
        plan_state(final(plan).replacements@, *final(products), *final(usages))
            == anonymize_record(
            src,
            plan_state(old(plan).replacements@, *old(products), *old(usages)),
            rv,
            complex,
        ),
{
    let ghost ts = rv.1;
    proof {
        reveal_strlit("PRODUCT");
        reveal_strlit("PRODUCT_DEFINITION");
        reveal_strlit("PRODUCT_DEFINITION_FORMATION");
        reveal_strlit("PRODUCT_DEFINITION_FORMATION_WITH_SPECIFIED_SOURCE");
        reveal_strlit("NEXT_ASSEMBLY_USAGE_OCCURRENCE");
        reveal_strlit("PRODUCT_DEFINITION_RELATIONSHIP");
        reveal_strlit("ASSEMBLY_COMPONENT_USAGE");
        reveal_strlit("PRODUCT_DEFINITION_SHAPE");
        reveal_strlit("DESCRIPTIVE_REPRESENTATION_ITEM");
        reveal_strlit("SHAPE_REPRESENTATION");
        reveal_strlit("product-");
        reveal_strlit("usage-");
    }
    if record.is("PRODUCT") {
        *products = products.wrapping_add(1);
        let name = label("product-", *products);
        plan.set(record.param(0), name.as_slice(), Ghost(src), Ghost(param_tokens(ts, 0)));
        plan.set(record.param(1), name.as_slice(), Ghost(src), Ghost(param_tokens(ts, 1)));
        plan.blank(record.param(2), Ghost(src), Ghost(param_tokens(ts, 2)));
    } else if record.is("PRODUCT_DEFINITION") || record.is("PRODUCT_DEFINITION_FORMATION") || record.is(
        "PRODUCT_DEFINITION_FORMATION_WITH_SPECIFIED_SOURCE",
    ) {
        plan.blank(record.param(1), Ghost(src), Ghost(param_tokens(ts, 1)));
    } else if record.is("NEXT_ASSEMBLY_USAGE_OCCURRENCE") && !complex {
        *usages = usages.wrapping_add(1);
        let name = label("usage-", *usages);
        plan.set(record.param(0), name.as_slice(), Ghost(src), Ghost(param_tokens(ts, 0)));
        plan.blank(record.param(1), Ghost(src), Ghost(param_tokens(ts, 1)));
        plan.blank(record.param(2), Ghost(src), Ghost(param_tokens(ts, 2)));
        plan.blank(record.param(5), Ghost(src), Ghost(param_tokens(ts, 5)));
    } else if record.is("PRODUCT_DEFINITION_RELATIONSHIP") {
        // The partial entities of a complex usage.
        *usages = usages.wrapping_add(1);
        let name = label("usage-", *usages);
        plan.set(record.param(0), name.as_slice(), Ghost(src), Ghost(param_tokens(ts, 0)));
        plan.blank(record.param(1), Ghost(src), Ghost(param_tokens(ts, 1)));
        plan.blank(record.param(2), Ghost(src), Ghost(param_tokens(ts, 2)));
    } else if record.is("ASSEMBLY_COMPONENT_USAGE") {
        plan.blank(record.param(0), Ghost(src), Ghost(param_tokens(ts, 0)));
    } else if record.is("PRODUCT_DEFINITION_SHAPE") {
        plan.blank(record.param(0), Ghost(src), Ghost(param_tokens(ts, 0)));
        plan.blank(record.param(1), Ghost(src), Ghost(param_tokens(ts, 1)));
    } else if record.is("DESCRIPTIVE_REPRESENTATION_ITEM") {
        plan.blank(record.param(1), Ghost(src), Ghost(param_tokens(ts, 1)));
    } else if bytes_end_with_ignore_case(record.name(), ascii_of("SHAPE_REPRESENTATION")) {
        plan.blank(record.param(0), Ghost(src), Ghost(param_tokens(ts, 0)));
    }
}

/// Anonymizing blanks the name of every shape representation: a record
/// whose entity name ends in `SHAPE_REPRESENTATION`, ignoring case, has its
/// attribute 0 replaced by `''` where it is a string that reads otherwise,
/// and nothing else of the plan changes.
pub proof fn lemma_shape_representation_names_are_blanked(
    src: Seq<u8>,
    st: PlanState,
    r: (Token, Seq<Token>),
    complex: bool,
)
    requires
        ends_with_ignore_case(r.0.span.of(src), ascii_bytes("SHAPE_REPRESENTATION"@)),
    ensures
        anonymize_record(src, st, r, complex) == (PlanState {
            replacements: set_param(src, st.replacements, param_tokens(r.1, 0), blank_text()),
            ..st
        }),
{
    let n = r.0.span.of(src);
    let len = n.len() as int;
    reveal_strlit("SHAPE_REPRESENTATION");
    reveal_strlit("PRODUCT");
    reveal_strlit("PRODUCT_DEFINITION");
    reveal_strlit("PRODUCT_DEFINITION_FORMATION");
    reveal_strlit("PRODUCT_DEFINITION_FORMATION_WITH_SPECIFIED_SOURCE");
    reveal_strlit("NEXT_ASSEMBLY_USAGE_OCCURRENCE");
    reveal_strlit("PRODUCT_DEFINITION_RELATIONSHIP");
    reveal_strlit("ASSEMBLY_COMPONENT_USAGE");
    reveal_strlit("PRODUCT_DEFINITION_SHAPE");
    reveal_strlit("DESCRIPTIVE_REPRESENTATION_ITEM");
    let sfx = ascii_bytes("SHAPE_REPRESENTATION"@);
    assert(sfx.len() == 20);
    assert(len >= 20);
    // The last byte reads `N` and the sixth from the end `T`.
    let tail = n.subrange(len - 20, len);
    assert(fold(tail[19]) == fold(sfx[19]));
    assert(fold(tail[14]) == fold(sfx[14]));
    assert(tail[19] == n[len - 1]);
    assert(tail[14] == n[len - 6]);
    assert(sfx[19] == 78u8);
    assert(sfx[14] == 84u8);
    assert(!rec_named(src, r, "PRODUCT")) by {
        vstd::string::is_ascii_spec_bytes("PRODUCT");
    }
    assert(!rec_named(src, r, "PRODUCT_DEFINITION")) by {
        vstd::string::is_ascii_spec_bytes("PRODUCT_DEFINITION");
    }
    assert(!rec_named(src, r, "PRODUCT_DEFINITION_FORMATION")) by {
        vstd::string::is_ascii_spec_bytes("PRODUCT_DEFINITION_FORMATION");
        let b = "PRODUCT_DEFINITION_FORMATION".spec_bytes();
        if rec_named(src, r, "PRODUCT_DEFINITION_FORMATION") {
            assert(fold(n[len - 6]) == fold(b[22]));
        }
    }
    assert(!rec_named(src, r, "PRODUCT_DEFINITION_FORMATION_WITH_SPECIFIED_SOURCE")) by {
        vstd::string::is_ascii_spec_bytes("PRODUCT_DEFINITION_FORMATION_WITH_SPECIFIED_SOURCE");
        let b = "PRODUCT_DEFINITION_FORMATION_WITH_SPECIFIED_SOURCE".spec_bytes();
        if rec_named(src, r, "PRODUCT_DEFINITION_FORMATION_WITH_SPECIFIED_SOURCE") {
            assert(fold(n[len - 1]) == fold(b[49]));
        }
    }
    assert(!rec_named(src, r, "NEXT_ASSEMBLY_USAGE_OCCURRENCE")) by {
        vstd::string::is_ascii_spec_bytes("NEXT_ASSEMBLY_USAGE_OCCURRENCE");
        let b = "NEXT_ASSEMBLY_USAGE_OCCURRENCE".spec_bytes();
        if rec_named(src, r, "NEXT_ASSEMBLY_USAGE_OCCURRENCE") {
            assert(fold(n[len - 1]) == fold(b[29]));
        }
    }
    assert(!rec_named(src, r, "PRODUCT_DEFINITION_RELATIONSHIP")) by {
        vstd::string::is_ascii_spec_bytes("PRODUCT_DEFINITION_RELATIONSHIP");
        let b = "PRODUCT_DEFINITION_RELATIONSHIP".spec_bytes();
        if rec_named(src, r, "PRODUCT_DEFINITION_RELATIONSHIP") {
            assert(fold(n[len - 1]) == fold(b[30]));
        }
    }
    assert(!rec_named(src, r, "ASSEMBLY_COMPONENT_USAGE")) by {
        vstd::string::is_ascii_spec_bytes("ASSEMBLY_COMPONENT_USAGE");
        let b = "ASSEMBLY_COMPONENT_USAGE".spec_bytes();
        if rec_named(src, r, "ASSEMBLY_COMPONENT_USAGE") {
            assert(fold(n[len - 1]) == fold(b[23]));
        }
    }
    assert(!rec_named(src, r, "PRODUCT_DEFINITION_SHAPE")) by {
        vstd::string::is_ascii_spec_bytes("PRODUCT_DEFINITION_SHAPE");
        let b = "PRODUCT_DEFINITION_SHAPE".spec_bytes();
        if rec_named(src, r, "PRODUCT_DEFINITION_SHAPE") {
            assert(fold(n[len - 1]) == fold(b[23]));
        }
    }
    assert(!rec_named(src, r, "DESCRIPTIVE_REPRESENTATION_ITEM")) by {
        vstd::string::is_ascii_spec_bytes("DESCRIPTIVE_REPRESENTATION_ITEM");
        let b = "DESCRIPTIVE_REPRESENTATION_ITEM".spec_bytes();
        if rec_named(src, r, "DESCRIPTIVE_REPRESENTATION_ITEM") {
            assert(fold(n[len - 1]) == fold(b[30]));
        }
    }
}

/// Anonymizing a `PRODUCT` numbers it: its id and name both become
/// `'product-<n>'`, `n` counting the products so far, and its description
/// is blanked.
pub proof fn lemma_anonymized_products_are_numbered(src: Seq<u8>, st: PlanState, r: (Token, Seq<Token>), complex: bool)
    requires
        rec_named(src, r, "PRODUCT"),
    ensures
        anonymize_record(src, st, r, complex) == (PlanState {
            replacements: set_param(
                src,
                set_param(
                    src,
                    set_param(src, st.replacements, param_tokens(r.1, 0), label_text(ascii_bytes("product-"@), wrap_inc(st.products))),
                    param_tokens(r.1, 1),
                    label_text(ascii_bytes("product-"@), wrap_inc(st.products)),
                ),
                param_tokens(r.1, 2),
                blank_text(),
            ),
            products: wrap_inc(st.products),
            usages: st.usages,
        }),
{
    reveal_strlit("PRODUCT");
    vstd::string::is_ascii_spec_bytes("PRODUCT");
    reveal_strlit("PRODUCT_DEFINITION");
    vstd::string::is_ascii_spec_bytes("PRODUCT_DEFINITION");
    reveal_strlit("PRODUCT_DEFINITION_FORMATION");
    vstd::string::is_ascii_spec_bytes("PRODUCT_DEFINITION_FORMATION");
    reveal_strlit("PRODUCT_DEFINITION_FORMATION_WITH_SPECIFIED_SOURCE");
    vstd::string::is_ascii_spec_bytes("PRODUCT_DEFINITION_FORMATION_WITH_SPECIFIED_SOURCE");
    reveal_strlit("NEXT_ASSEMBLY_USAGE_OCCURRENCE");
    vstd::string::is_ascii_spec_bytes("NEXT_ASSEMBLY_USAGE_OCCURRENCE");
    reveal_strlit("PRODUCT_DEFINITION_RELATIONSHIP");
    vstd::string::is_ascii_spec_bytes("PRODUCT_DEFINITION_RELATIONSHIP");
    reveal_strlit("ASSEMBLY_COMPONENT_USAGE");
    vstd::string::is_ascii_spec_bytes("ASSEMBLY_COMPONENT_USAGE");
    reveal_strlit("PRODUCT_DEFINITION_SHAPE");
    vstd::string::is_ascii_spec_bytes("PRODUCT_DEFINITION_SHAPE");
    reveal_strlit("DESCRIPTIVE_REPRESENTATION_ITEM");
    vstd::string::is_ascii_spec_bytes("DESCRIPTIVE_REPRESENTATION_ITEM");
    let n = r.0.span.of(src);
}

/// Anonymizing a product definition or a formation of one blanks its
/// description (attribute 1), and nothing else.
pub proof fn lemma_anonymized_definitions_lose_descriptions(src: Seq<u8>, st: PlanState, r: (Token, Seq<Token>), complex: bool)
    requires
        rec_named(src, r, "PRODUCT_DEFINITION") || rec_named(src, r, "PRODUCT_DEFINITION_FORMATION") || rec_named(src, r, "PRODUCT_DEFINITION_FORMATION_WITH_SPECIFIED_SOURCE"),
    ensures
        anonymize_record(src, st, r, complex) == (PlanState {
            replacements: set_param(src, st.replacements, param_tokens(r.1, 1), blank_text()),
            ..st
        }),
{
    reveal_strlit("PRODUCT");
    vstd::string::is_ascii_spec_bytes("PRODUCT");
    reveal_strlit("PRODUCT_DEFINITION");
    vstd::string::is_ascii_spec_bytes("PRODUCT_DEFINITION");
    reveal_strlit("PRODUCT_DEFINITION_FORMATION");
    vstd::string::is_ascii_spec_bytes("PRODUCT_DEFINITION_FORMATION");
    reveal_strlit("PRODUCT_DEFINITION_FORMATION_WITH_SPECIFIED_SOURCE");
    vstd::string::is_ascii_spec_bytes("PRODUCT_DEFINITION_FORMATION_WITH_SPECIFIED_SOURCE");
    reveal_strlit("NEXT_ASSEMBLY_USAGE_OCCURRENCE");
    vstd::string::is_ascii_spec_bytes("NEXT_ASSEMBLY_USAGE_OCCURRENCE");
    reveal_strlit("PRODUCT_DEFINITION_RELATIONSHIP");
    vstd::string::is_ascii_spec_bytes("PRODUCT_DEFINITION_RELATIONSHIP");
    reveal_strlit("ASSEMBLY_COMPONENT_USAGE");
    vstd::string::is_ascii_spec_bytes("ASSEMBLY_COMPONENT_USAGE");
    reveal_strlit("PRODUCT_DEFINITION_SHAPE");
    vstd::string::is_ascii_spec_bytes("PRODUCT_DEFINITION_SHAPE");
    reveal_strlit("DESCRIPTIVE_REPRESENTATION_ITEM");
    vstd::string::is_ascii_spec_bytes("DESCRIPTIVE_REPRESENTATION_ITEM");
    let n = r.0.span.of(src);
    assert(!(rec_named(src, r, "PRODUCT") && (rec_named(src, r, "PRODUCT_DEFINITION") || rec_named(src, r, "PRODUCT_DEFINITION_FORMATION") || rec_named(src, r, "PRODUCT_DEFINITION_FORMATION_WITH_SPECIFIED_SOURCE")))) by {

    }
}

/// Anonymizing a simple `NEXT_ASSEMBLY_USAGE_OCCURRENCE` numbers it: its
/// id becomes `'usage-<n>'`, `n` counting the usages so far, and its name,
/// description and reference designator are blanked.
pub proof fn lemma_anonymized_usages_are_numbered(src: Seq<u8>, st: PlanState, r: (Token, Seq<Token>), complex: bool)
    requires
        rec_named(src, r, "NEXT_ASSEMBLY_USAGE_OCCURRENCE") && !complex,
    ensures
        anonymize_record(src, st, r, complex) == (PlanState {
            replacements: set_param(
                src,
                set_param(
                    src,
                    set_param(
                        src,
                        set_param(src, st.replacements, param_tokens(r.1, 0), label_text(ascii_bytes("usage-"@), wrap_inc(st.usages))),
                        param_tokens(r.1, 1),
                        blank_text(),
                    ),
                    param_tokens(r.1, 2),
                    blank_text(),
                ),
                param_tokens(r.1, 5),
                blank_text(),
            ),
            products: st.products,
            usages: wrap_inc(st.usages),
        }),
{
    reveal_strlit("PRODUCT");
    vstd::string::is_ascii_spec_bytes("PRODUCT");
    reveal_strlit("PRODUCT_DEFINITION");
    vstd::string::is_ascii_spec_bytes("PRODUCT_DEFINITION");
    reveal_strlit("PRODUCT_DEFINITION_FORMATION");
    vstd::string::is_ascii_spec_bytes("PRODUCT_DEFINITION_FORMATION");
    reveal_strlit("PRODUCT_DEFINITION_FORMATION_WITH_SPECIFIED_SOURCE");
    vstd::string::is_ascii_spec_bytes("PRODUCT_DEFINITION_FORMATION_WITH_SPECIFIED_SOURCE");
    reveal_strlit("NEXT_ASSEMBLY_USAGE_OCCURRENCE");
    vstd::string::is_ascii_spec_bytes("NEXT_ASSEMBLY_USAGE_OCCURRENCE");
    reveal_strlit("PRODUCT_DEFINITION_RELATIONSHIP");
    vstd::string::is_ascii_spec_bytes("PRODUCT_DEFINITION_RELATIONSHIP");
    reveal_strlit("ASSEMBLY_COMPONENT_USAGE");
    vstd::string::is_ascii_spec_bytes("ASSEMBLY_COMPONENT_USAGE");
    reveal_strlit("PRODUCT_DEFINITION_SHAPE");
    vstd::string::is_ascii_spec_bytes("PRODUCT_DEFINITION_SHAPE");
    reveal_strlit("DESCRIPTIVE_REPRESENTATION_ITEM");
    vstd::string::is_ascii_spec_bytes("DESCRIPTIVE_REPRESENTATION_ITEM");
    let n = r.0.span.of(src);
    assert(!(rec_named(src, r, "PRODUCT") && (rec_named(src, r, "NEXT_ASSEMBLY_USAGE_OCCURRENCE")))) by {

    }
    assert(!(rec_named(src, r, "PRODUCT_DEFINITION") && (rec_named(src, r, "NEXT_ASSEMBLY_USAGE_OCCURRENCE")))) by {

    }
    assert(!(rec_named(src, r, "PRODUCT_DEFINITION_FORMATION") && (rec_named(src, r, "NEXT_ASSEMBLY_USAGE_OCCURRENCE")))) by {

    }
    assert(!(rec_named(src, r, "PRODUCT_DEFINITION_FORMATION_WITH_SPECIFIED_SOURCE") && (rec_named(src, r, "NEXT_ASSEMBLY_USAGE_OCCURRENCE")))) by {

    }
}

/// Anonymizing a `PRODUCT_DEFINITION_RELATIONSHIP` (the partial entity of
/// a complex usage) numbers it as a usage: its id becomes `'usage-<n>'`,
/// and its name and description are blanked.
pub proof fn lemma_anonymized_relationships_are_numbered(src: Seq<u8>, st: PlanState, r: (Token, Seq<Token>), complex: bool)
    requires
        rec_named(src, r, "PRODUCT_DEFINITION_RELATIONSHIP"),
    ensures
        anonymize_record(src, st, r, complex) == (PlanState {
            replacements: set_param(
                src,
                set_param(
                    src,
                    set_param(src, st.replacements, param_tokens(r.1, 0), label_text(ascii_bytes("usage-"@), wrap_inc(st.usages))),
                    param_tokens(r.1, 1),
                    blank_text(),
                ),
                param_tokens(r.1, 2),
                blank_text(),
            ),
            products: st.products,
            usages: wrap_inc(st.usages),
        }),
{
    reveal_strlit("PRODUCT");
    vstd::string::is_ascii_spec_bytes("PRODUCT");
    reveal_strlit("PRODUCT_DEFINITION");
    vstd::string::is_ascii_spec_bytes("PRODUCT_DEFINITION");
    reveal_strlit("PRODUCT_DEFINITION_FORMATION");
    vstd::string::is_ascii_spec_bytes("PRODUCT_DEFINITION_FORMATION");
    reveal_strlit("PRODUCT_DEFINITION_FORMATION_WITH_SPECIFIED_SOURCE");
    vstd::string::is_ascii_spec_bytes("PRODUCT_DEFINITION_FORMATION_WITH_SPECIFIED_SOURCE");
    reveal_strlit("NEXT_ASSEMBLY_USAGE_OCCURRENCE");
    vstd::string::is_ascii_spec_bytes("NEXT_ASSEMBLY_USAGE_OCCURRENCE");
    reveal_strlit("PRODUCT_DEFINITION_RELATIONSHIP");
    vstd::string::is_ascii_spec_bytes("PRODUCT_DEFINITION_RELATIONSHIP");
    reveal_strlit("ASSEMBLY_COMPONENT_USAGE");
    vstd::string::is_ascii_spec_bytes("ASSEMBLY_COMPONENT_USAGE");
    reveal_strlit("PRODUCT_DEFINITION_SHAPE");
    vstd::string::is_ascii_spec_bytes("PRODUCT_DEFINITION_SHAPE");
    reveal_strlit("DESCRIPTIVE_REPRESENTATION_ITEM");
    vstd::string::is_ascii_spec_bytes("DESCRIPTIVE_REPRESENTATION_ITEM");
    let n = r.0.span.of(src);
    assert(!(rec_named(src, r, "PRODUCT") && (rec_named(src, r, "PRODUCT_DEFINITION_RELATIONSHIP")))) by {

    }
    assert(!(rec_named(src, r, "PRODUCT_DEFINITION") && (rec_named(src, r, "PRODUCT_DEFINITION_RELATIONSHIP")))) by {

    }
    assert(!(rec_named(src, r, "PRODUCT_DEFINITION_FORMATION") && (rec_named(src, r, "PRODUCT_DEFINITION_RELATIONSHIP")))) by {

    }
    assert(!(rec_named(src, r, "PRODUCT_DEFINITION_FORMATION_WITH_SPECIFIED_SOURCE") && (rec_named(src, r, "PRODUCT_DEFINITION_RELATIONSHIP")))) by {

    }
    assert(!(rec_named(src, r, "NEXT_ASSEMBLY_USAGE_OCCURRENCE") && (rec_named(src, r, "PRODUCT_DEFINITION_RELATIONSHIP")))) by {

    }
}

/// Anonymizing an `ASSEMBLY_COMPONENT_USAGE` blanks its id (attribute 0),
/// and nothing else.
pub proof fn lemma_anonymized_component_usages_lose_ids(src: Seq<u8>, st: PlanState, r: (Token, Seq<Token>), complex: bool)
    requires
        rec_named(src, r, "ASSEMBLY_COMPONENT_USAGE"),
    ensures
        anonymize_record(src, st, r, complex) == (PlanState {
            replacements: set_param(src, st.replacements, param_tokens(r.1, 0), blank_text()),
            ..st
        }),
{
    reveal_strlit("PRODUCT");
    vstd::string::is_ascii_spec_bytes("PRODUCT");
    reveal_strlit("PRODUCT_DEFINITION");
    vstd::string::is_ascii_spec_bytes("PRODUCT_DEFINITION");
    reveal_strlit("PRODUCT_DEFINITION_FORMATION");
    vstd::string::is_ascii_spec_bytes("PRODUCT_DEFINITION_FORMATION");
    reveal_strlit("PRODUCT_DEFINITION_FORMATION_WITH_SPECIFIED_SOURCE");
    vstd::string::is_ascii_spec_bytes("PRODUCT_DEFINITION_FORMATION_WITH_SPECIFIED_SOURCE");
    reveal_strlit("NEXT_ASSEMBLY_USAGE_OCCURRENCE");
    vstd::string::is_ascii_spec_bytes("NEXT_ASSEMBLY_USAGE_OCCURRENCE");
    reveal_strlit("PRODUCT_DEFINITION_RELATIONSHIP");
    vstd::string::is_ascii_spec_bytes("PRODUCT_DEFINITION_RELATIONSHIP");
    reveal_strlit("ASSEMBLY_COMPONENT_USAGE");
    vstd::string::is_ascii_spec_bytes("ASSEMBLY_COMPONENT_USAGE");
    reveal_strlit("PRODUCT_DEFINITION_SHAPE");
    vstd::string::is_ascii_spec_bytes("PRODUCT_DEFINITION_SHAPE");
    reveal_strlit("DESCRIPTIVE_REPRESENTATION_ITEM");
    vstd::string::is_ascii_spec_bytes("DESCRIPTIVE_REPRESENTATION_ITEM");
    let n = r.0.span.of(src);
    assert(!(rec_named(src, r, "PRODUCT") && (rec_named(src, r, "ASSEMBLY_COMPONENT_USAGE")))) by {

    }
    assert(!(rec_named(src, r, "PRODUCT_DEFINITION") && (rec_named(src, r, "ASSEMBLY_COMPONENT_USAGE")))) by {

    }
    assert(!(rec_named(src, r, "PRODUCT_DEFINITION_FORMATION") && (rec_named(src, r, "ASSEMBLY_COMPONENT_USAGE")))) by {

    }
    assert(!(rec_named(src, r, "PRODUCT_DEFINITION_FORMATION_WITH_SPECIFIED_SOURCE") && (rec_named(src, r, "ASSEMBLY_COMPONENT_USAGE")))) by {

    }
    assert(!(rec_named(src, r, "NEXT_ASSEMBLY_USAGE_OCCURRENCE") && (rec_named(src, r, "ASSEMBLY_COMPONENT_USAGE")))) by {

    }
    assert(!(rec_named(src, r, "PRODUCT_DEFINITION_RELATIONSHIP") && (rec_named(src, r, "ASSEMBLY_COMPONENT_USAGE")))) by {

    }
}

/// Anonymizing a `PRODUCT_DEFINITION_SHAPE` blanks its name and
/// description (attributes 0 and 1), and nothing else.
pub proof fn lemma_anonymized_definition_shapes_lose_names(src: Seq<u8>, st: PlanState, r: (Token, Seq<Token>), complex: bool)
    requires
        rec_named(src, r, "PRODUCT_DEFINITION_SHAPE"),
    ensures
        anonymize_record(src, st, r, complex) == (PlanState {
            replacements: set_param(src, set_param(src, st.replacements, param_tokens(r.1, 0), blank_text()), param_tokens(r.1, 1), blank_text()),
            ..st
        }),
{
    reveal_strlit("PRODUCT");
    vstd::string::is_ascii_spec_bytes("PRODUCT");
    reveal_strlit("PRODUCT_DEFINITION");
    vstd::string::is_ascii_spec_bytes("PRODUCT_DEFINITION");
    reveal_strlit("PRODUCT_DEFINITION_FORMATION");
    vstd::string::is_ascii_spec_bytes("PRODUCT_DEFINITION_FORMATION");
    reveal_strlit("PRODUCT_DEFINITION_FORMATION_WITH_SPECIFIED_SOURCE");
    vstd::string::is_ascii_spec_bytes("PRODUCT_DEFINITION_FORMATION_WITH_SPECIFIED_SOURCE");
    reveal_strlit("NEXT_ASSEMBLY_USAGE_OCCURRENCE");
    vstd::string::is_ascii_spec_bytes("NEXT_ASSEMBLY_USAGE_OCCURRENCE");
    reveal_strlit("PRODUCT_DEFINITION_RELATIONSHIP");
    vstd::string::is_ascii_spec_bytes("PRODUCT_DEFINITION_RELATIONSHIP");
    reveal_strlit("ASSEMBLY_COMPONENT_USAGE");
    vstd::string::is_ascii_spec_bytes("ASSEMBLY_COMPONENT_USAGE");
    reveal_strlit("PRODUCT_DEFINITION_SHAPE");
    vstd::string::is_ascii_spec_bytes("PRODUCT_DEFINITION_SHAPE");
    reveal_strlit("DESCRIPTIVE_REPRESENTATION_ITEM");
    vstd::string::is_ascii_spec_bytes("DESCRIPTIVE_REPRESENTATION_ITEM");
    let n = r.0.span.of(src);
    assert(!(rec_named(src, r, "PRODUCT") && (rec_named(src, r, "PRODUCT_DEFINITION_SHAPE")))) by {

    }
    assert(!(rec_named(src, r, "PRODUCT_DEFINITION") && (rec_named(src, r, "PRODUCT_DEFINITION_SHAPE")))) by {

    }
    assert(!(rec_named(src, r, "PRODUCT_DEFINITION_FORMATION") && (rec_named(src, r, "PRODUCT_DEFINITION_SHAPE")))) by {

    }
    assert(!(rec_named(src, r, "PRODUCT_DEFINITION_FORMATION_WITH_SPECIFIED_SOURCE") && (rec_named(src, r, "PRODUCT_DEFINITION_SHAPE")))) by {

    }
    assert(!(rec_named(src, r, "NEXT_ASSEMBLY_USAGE_OCCURRENCE") && (rec_named(src, r, "PRODUCT_DEFINITION_SHAPE")))) by {

    }
    assert(!(rec_named(src, r, "PRODUCT_DEFINITION_RELATIONSHIP") && (rec_named(src, r, "PRODUCT_DEFINITION_SHAPE")))) by {

    }
    assert(!(rec_named(src, r, "ASSEMBLY_COMPONENT_USAGE") && (rec_named(src, r, "PRODUCT_DEFINITION_SHAPE")))) by {
        if rec_named(src, r, "ASSEMBLY_COMPONENT_USAGE") && rec_named(src, r, "PRODUCT_DEFINITION_SHAPE") {
            assert(fold(n[0]) == fold("ASSEMBLY_COMPONENT_USAGE".spec_bytes()[0]));
            assert(fold(n[0]) == fold("PRODUCT_DEFINITION_SHAPE".spec_bytes()[0]));
        }
    }
}

/// Anonymizing a `DESCRIPTIVE_REPRESENTATION_ITEM` blanks its description
/// (attribute 1), and nothing else.
pub proof fn lemma_anonymized_descriptive_items_lose_descriptions(src: Seq<u8>, st: PlanState, r: (Token, Seq<Token>), complex: bool)
    requires
        rec_named(src, r, "DESCRIPTIVE_REPRESENTATION_ITEM"),
    ensures
        anonymize_record(src, st, r, complex) == (PlanState {
            replacements: set_param(src, st.replacements, param_tokens(r.1, 1), blank_text()),
            ..st
        }),
{
    reveal_strlit("PRODUCT");
    vstd::string::is_ascii_spec_bytes("PRODUCT");
    reveal_strlit("PRODUCT_DEFINITION");
    vstd::string::is_ascii_spec_bytes("PRODUCT_DEFINITION");
    reveal_strlit("PRODUCT_DEFINITION_FORMATION");
    vstd::string::is_ascii_spec_bytes("PRODUCT_DEFINITION_FORMATION");
    reveal_strlit("PRODUCT_DEFINITION_FORMATION_WITH_SPECIFIED_SOURCE");
    vstd::string::is_ascii_spec_bytes("PRODUCT_DEFINITION_FORMATION_WITH_SPECIFIED_SOURCE");
    reveal_strlit("NEXT_ASSEMBLY_USAGE_OCCURRENCE");
    vstd::string::is_ascii_spec_bytes("NEXT_ASSEMBLY_USAGE_OCCURRENCE");
    reveal_strlit("PRODUCT_DEFINITION_RELATIONSHIP");
    vstd::string::is_ascii_spec_bytes("PRODUCT_DEFINITION_RELATIONSHIP");
    reveal_strlit("ASSEMBLY_COMPONENT_USAGE");
    vstd::string::is_ascii_spec_bytes("ASSEMBLY_COMPONENT_USAGE");
    reveal_strlit("PRODUCT_DEFINITION_SHAPE");
    vstd::string::is_ascii_spec_bytes("PRODUCT_DEFINITION_SHAPE");
    reveal_strlit("DESCRIPTIVE_REPRESENTATION_ITEM");
    vstd::string::is_ascii_spec_bytes("DESCRIPTIVE_REPRESENTATION_ITEM");
    let n = r.0.span.of(src);
    assert(!(rec_named(src, r, "PRODUCT") && (rec_named(src, r, "DESCRIPTIVE_REPRESENTATION_ITEM")))) by {

    }
    assert(!(rec_named(src, r, "PRODUCT_DEFINITION") && (rec_named(src, r, "DESCRIPTIVE_REPRESENTATION_ITEM")))) by {

    }
    assert(!(rec_named(src, r, "PRODUCT_DEFINITION_FORMATION") && (rec_named(src, r, "DESCRIPTIVE_REPRESENTATION_ITEM")))) by {

    }
    assert(!(rec_named(src, r, "PRODUCT_DEFINITION_FORMATION_WITH_SPECIFIED_SOURCE") && (rec_named(src, r, "DESCRIPTIVE_REPRESENTATION_ITEM")))) by {

    }
    assert(!(rec_named(src, r, "NEXT_ASSEMBLY_USAGE_OCCURRENCE") && (rec_named(src, r, "DESCRIPTIVE_REPRESENTATION_ITEM")))) by {

    }
    assert(!(rec_named(src, r, "PRODUCT_DEFINITION_RELATIONSHIP") && (rec_named(src, r, "DESCRIPTIVE_REPRESENTATION_ITEM")))) by {
        if rec_named(src, r, "PRODUCT_DEFINITION_RELATIONSHIP") && rec_named(src, r, "DESCRIPTIVE_REPRESENTATION_ITEM") {
            assert(fold(n[0]) == fold("PRODUCT_DEFINITION_RELATIONSHIP".spec_bytes()[0]));
            assert(fold(n[0]) == fold("DESCRIPTIVE_REPRESENTATION_ITEM".spec_bytes()[0]));
        }
    }
    assert(!(rec_named(src, r, "ASSEMBLY_COMPONENT_USAGE") && (rec_named(src, r, "DESCRIPTIVE_REPRESENTATION_ITEM")))) by {

    }
    assert(!(rec_named(src, r, "PRODUCT_DEFINITION_SHAPE") && (rec_named(src, r, "DESCRIPTIVE_REPRESENTATION_ITEM")))) by {

    }
}

} // verus!
