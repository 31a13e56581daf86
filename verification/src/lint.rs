//! Structural problems in a STEP file, found without a geometry kernel.
//!
//! This is what `stepq lint` prints. Every check works on the entity graph
//! and, when a schema is available, on the attribute layout the schema
//! declares. Nothing is evaluated.
//!
//! Errors are violations of Part 21 or of the schema that receiving systems
//! may reject or silently misread. Warnings are omissions that conformant
//! readers tolerate but recommended practice asks for.
use vstd::prelude::*;
use vstd::string::*;
use crate::error::Error;
use crate::express::check::{plural, problem_views, problems_upto, KindView, ProblemView};
use crate::express::schema::{first_word, upper};
use crate::express::{check, Problem, ProblemKind, Schema};
use crate::model::graph::{dangling, Graph};
use crate::p21::exchange::{
    after_param, first_param_tokens, lemma_after_param, lemma_skip_separators, param_tokens, params_after,
    skip_separators, Exchange, Instance, Params, Record,
};
use crate::p21::lexer::{Token, TokenKind};
use crate::p21::string::decoded;
use crate::text::{decimal, eq_ignore_case, owned, push_decimal};
use vstd::hash_set::HashSetWithView;

verus! {

/// How serious a finding is.
#[derive(Debug, Clone, Copy, PartialEq, Eq, PartialOrd, Ord, Structural)]
pub enum Severity {
    /// The file violates Part 21 or its schema.
    Error,
    /// The file omits something recommended practice asks for.
    Warning,
}

impl Severity {
    /// The severity's name, as `stepq lint` prints it.
    pub fn name(self) -> (s: &'static str)
        ensures
            s@ == (match self {
                Severity::Error => "error"@,
                Severity::Warning => "warning"@,
            }),
    {
        match self {
            Severity::Error => "error",
            Severity::Warning => "warning",
        }
    }
}

/// The checks `lint` runs.
#[derive(Debug, Clone, Copy, PartialEq, Eq, PartialOrd, Ord, Hash, Structural)]
pub enum Check {
    /// The file is not well-formed Part 21. Nothing else is checked.
    Syntax,
    /// An instance name is defined twice. Nothing else is checked.
    DuplicateId,
    /// A reference to an instance that does not exist.
    DanglingReference,
    /// An entity type the schema does not define.
    UnknownEntity,
    /// A record with a different number of attributes than the schema
    /// declares.
    AttributeCount,
    /// A list shorter than its aggregate's lower bound, such as an empty
    /// `SET [1:?]`.
    TooFewElements,
    /// A `representation_relationship_with_transformation` whose two
    /// representations share one context, which its WHERE rule forbids.
    SharedContext,
    /// No `application_protocol_definition`.
    MissingApplicationProtocol,
    /// A `product` in no `product_related_product_category`.
    UncategorizedProduct,
}

/// How serious findings of check `c` are.
pub open spec fn severity_of(c: Check) -> Severity {
    match c {
        Check::MissingApplicationProtocol | Check::UncategorizedProduct => Severity::Warning,
        _ => Severity::Error,
    }
}

impl Check {
    /// The check's name, as `stepq lint` prints it.
    pub fn name(self) -> (s: &'static str)
        ensures
            s@ == (match self {
                Check::Syntax => "syntax"@,
                Check::DuplicateId => "duplicate-id"@,
                Check::DanglingReference => "dangling-reference"@,
                Check::UnknownEntity => "unknown-entity"@,
                Check::AttributeCount => "attribute-count"@,
                Check::TooFewElements => "too-few-elements"@,
                Check::SharedContext => "shared-context"@,
                Check::MissingApplicationProtocol => "missing-application-protocol"@,
                Check::UncategorizedProduct => "uncategorized-product"@,
            }),
    {
        match self {
            Check::Syntax => "syntax",
            Check::DuplicateId => "duplicate-id",
            Check::DanglingReference => "dangling-reference",
            Check::UnknownEntity => "unknown-entity",
            Check::AttributeCount => "attribute-count",
            Check::TooFewElements => "too-few-elements",
            Check::SharedContext => "shared-context",
            Check::MissingApplicationProtocol => "missing-application-protocol",
            Check::UncategorizedProduct => "uncategorized-product",
        }
    }

    /// How serious this check's findings are.
    pub fn severity(self) -> (s: Severity)
        ensures
            s == severity_of(self),
    {
        match self {
            Check::MissingApplicationProtocol | Check::UncategorizedProduct => Severity::Warning,
            _ => Severity::Error,
        }
    }
}

/// One problem.
#[derive(Debug, Clone, PartialEq, Eq)]
pub struct Finding {
    /// How serious it is.
    pub severity: Severity,
    /// Which check found it.
    pub check: Check,
    /// The instance at fault, `#id`; `None` for the file as a whole.
    pub instance: Option<u64>,
    /// What is wrong, without the instance name.
    pub message: String,
}

/// A [`Finding`] as plain values.
pub struct FindingView {
    pub severity: Severity,
    pub check: Check,
    pub instance: Option<u64>,
    pub message: Seq<char>,
}

impl View for Finding {
    type V = FindingView;

    open spec fn view(&self) -> FindingView {
        FindingView { severity: self.severity, check: self.check, instance: self.instance, message: self.message@ }
    }
}

/// The views of `v`.
pub open spec fn finding_views(v: Seq<Finding>) -> Seq<FindingView> {
    v.map_values(|f: Finding| f@)
}

/// A finding of check `c` about `instance`.
pub open spec fn finding_of(c: Check, instance: Option<u64>, message: Seq<char>) -> FindingView {
    FindingView { severity: severity_of(c), check: c, instance, message }
}

/// The result of [`lint`].
#[derive(Debug, Clone, PartialEq, Eq)]
pub struct Report {
    /// `FILE_SCHEMA` identifiers from the header.
    pub file_schemas: Vec<String>,
    /// The schema records were checked against, if one matched.
    pub checked_schema: Option<String>,
    /// Findings, file-level ones first, then by instance name.
    pub findings: Vec<Finding>,
}

/// The number of findings of `fs` with severity `s`.
pub open spec fn count_of(fs: Seq<Finding>, s: Severity) -> nat
    decreases fs.len(),
{
    if fs.len() == 0 {
        0
    } else {
        count_of(fs.drop_last(), s) + if fs.last().severity == s {
            1nat
        } else {
            0nat
        }
    }
}

impl Report {
    /// Number of findings with [`Severity::Error`].
    pub fn errors(&self) -> (n: usize)
        ensures
            n == count_of(self.findings@, Severity::Error),
    {
        self.count(Severity::Error)
    }

    /// Number of findings with [`Severity::Warning`].
    pub fn warnings(&self) -> (n: usize)
        ensures
            n == count_of(self.findings@, Severity::Warning),
    {
        self.count(Severity::Warning)
    }

    fn count(&self, severity: Severity) -> (n: usize)
        ensures
            n == count_of(self.findings@, severity),
    {
        let mut n: usize = 0;
        let mut k: usize = 0;
        while k < self.findings.len()
            invariant
                k <= self.findings@.len(),
                n == count_of(self.findings@.take(k as int), severity),
                n <= k,
            decreases self.findings@.len() - k,
        {
            proof {
                assert(self.findings@.take(k + 1).drop_last() =~= self.findings@.take(k as int));
            }
            if self.findings[k].severity == severity {
                n = n + 1;
            }
            k = k + 1;
        }
        proof {
            assert(self.findings@.take(k as int) =~= self.findings@);
        }
        n
    }
}

fn finding(check: Check, instance: Option<u64>, message: String) -> (f: Finding)
    ensures
        f@ == finding_of(check, instance, message@),
{
    Finding { severity: check.severity(), check, instance, message }
}

/// The one finding of a file that does not parse.
pub open spec fn unparsable_finding(e: Error) -> FindingView {
    match e {
        Error::DuplicateId(id) => finding_of(Check::DuplicateId, Some(id), "is defined more than once"@),
        _ => finding_of(Check::Syntax, None, e.display()),
    }
}

/// The report on a file that does not parse.
fn unparsable(error: &Error) -> (r: Report)
    ensures
        r.file_schemas@.len() == 0,
        r.checked_schema is None,
        finding_views(r.findings@) == seq![unparsable_finding(*error)],
{
    let f = match error {
        Error::DuplicateId(id) => finding(Check::DuplicateId, Some(*id), owned("is defined more than once")),
        _ => finding(Check::Syntax, None, error.to_string()),
    };
    let mut findings: Vec<Finding> = Vec::new();
    findings.push(f);
    proof {
        assert(finding_views(findings@) =~= seq![unparsable_finding(*error)]);
    }
    Report { file_schemas: Vec::new(), checked_schema: None, findings }
}

// ---------------------------------------------------------------------
// Parameters by tokens.
// ---------------------------------------------------------------------

/// The parameters written as `ts`, each as its tokens, in order.
pub open spec fn params_of(ts: Seq<Token>) -> Seq<Seq<Token>>
    decreases ts.len(),
{
    let k = skip_separators(ts, 0);
    if 0 <= k < ts.len() {
        proof {
            lemma_after_param(ts, k);
        }
        seq![first_param_tokens(ts)] + params_of(after_param(ts, k))
    } else {
        Seq::empty()
    }
}

/// The instance a one-token parameter `pt` refers to.
pub open spec fn reference_in(pt: Seq<Token>) -> Option<u64> {
    if pt.len() == 1 {
        match pt[0].kind {
            TokenKind::InstanceName(id) => Some(id),
            _ => None,
        }
    } else {
        None
    }
}

/// The instance parameter `i` of `ts` refers to.
pub open spec fn ref_param(ts: Seq<Token>, i: nat) -> Option<u64> {
    reference_in(param_tokens(ts, i))
}

/// The items of parameter `i` of `ts`, if it is a list.
pub open spec fn list_items(ts: Seq<Token>, i: nat) -> Option<Seq<Token>> {
    let pt = param_tokens(ts, i);
    if pt.len() >= 2 && pt[0].kind == TokenKind::LeftParen {
        Some(pt.subrange(1, pt.len() - 1))
    } else {
        None
    }
}

/// The references among the one-token parameters `ps`, in order.
pub open spec fn references_among(ps: Seq<Seq<Token>>) -> Seq<u64>
    decreases ps.len(),
{
    if ps.len() == 0 {
        Seq::empty()
    } else {
        references_among(ps.drop_last()) + match reference_in(ps.last()) {
            Some(id) => seq![id],
            None => Seq::empty(),
        }
    }
}

/// The decoded string literals among the one-token parameters `ps`.
pub open spec fn strings_among(src: Seq<u8>, ps: Seq<Seq<Token>>) -> Seq<Seq<char>>
    decreases ps.len(),
{
    if ps.len() == 0 {
        Seq::empty()
    } else {
        strings_among(src, ps.drop_last()) + if ps.last().len() == 1 {
            match decoded(src, ps.last()[0].span) {
                Ok(t) => seq![t],
                Err(_) => Seq::empty(),
            }
        } else {
            Seq::empty()
        }
    }
}

/// The tokens of parameter `index` of `record`; empty if it has none.
pub(crate) fn param_slice<'e>(record: Record<'e>, index: usize) -> (r: &'e [Token])
    requires
        record.wf(),
    ensures
        r@ == param_tokens(record.params_view(), index as nat),
        forall|q: int| 0 <= q < r@.len() ==> crate::p21::exchange::genuine(record.src_view(), #[trigger] r@[q]),
{
    let mut ps = record.params();
    let mut j: usize = 0;
    while j < index
        invariant
            ps.wf(),
            ps.src_view() == record.src_view(),
            j <= index,
            ps.tokens_view() == params_after(record.params_view(), j as nat),
        decreases index - j,
    {
        let ghost ts = ps.tokens_view();
        proof {
            lemma_skip_separators(ts, 0);
        }
        match ps.next_tokens() {
            Some(_) => {},
            None => {},
        }
        proof {
            crate::model::extract::lemma_params_after_next(record.params_view(), j as nat);
        }
        j = j + 1;
    }
    let ghost ts = ps.tokens_view();
    proof {
        lemma_skip_separators(ts, 0);
    }
    match ps.next_tokens() {
        Some(pt) => {
            proof {
                let k = skip_separators(ts, 0);
                assert forall|q: int| 0 <= q < pt@.len() implies crate::p21::exchange::genuine(
                    record.src_view(),
                    #[trigger] pt@[q],
                ) by {
                    assert(pt@[q] == ts[k + q]);
                }
            }
            pt
        },
        None => {
            let empty = crate::p21::lexer::slice_range(record.param_token_slice(), 0, 0);
            proof {
                assert(first_param_tokens(ts) =~= Seq::<Token>::empty());
                assert(empty@ =~= Seq::<Token>::empty());
            }
            empty
        },
    }
}

/// The instance parameter `index` of `record` refers to.
pub(crate) fn ref_at(record: Record, index: usize) -> (r: Option<u64>)
    requires
        record.wf(),
    ensures
        r == ref_param(record.params_view(), index as nat),
{
    let pt = param_slice(record, index);
    if pt.len() == 1 {
        match pt[0].kind {
            TokenKind::InstanceName(id) => Some(id),
            _ => None,
        }
    } else {
        None
    }
}

/// The items of parameter `index` of `record`, if it is a list.
pub(crate) fn items_at<'e>(record: Record<'e>, index: usize) -> (r: Option<&'e [Token]>)
    requires
        record.wf(),
    ensures
        match list_items(record.params_view(), index as nat) {
            Some(items) => r matches Some(v) && v@ == items && forall|q: int|
                0 <= q < v@.len() ==> crate::p21::exchange::genuine(record.src_view(), #[trigger] v@[q]),
            None => r is None,
        },
{
    let pt = param_slice(record, index);
    if pt.len() >= 2 && pt[0].kind == TokenKind::LeftParen {
        let items = crate::p21::lexer::slice_range(pt, 1, pt.len() - 1);
        proof {
            assert forall|q: int| 0 <= q < items@.len() implies crate::p21::exchange::genuine(
                record.src_view(),
                #[trigger] items@[q],
            ) by {
                assert(items@[q] == pt@[q + 1]);
            }
        }
        Some(items)
    } else {
        None
    }
}

/// The references among the parameters written as `items`.
pub(crate) fn references_in_items(src: &[u8], items: &[Token]) -> (v: Vec<u64>)
    requires
        crate::p21::exchange::tokens_ok(src@, items@),
    ensures
        v@ == references_among(params_of(items@)),
{
    let mut ps = Params::over(src, items);
    let ghost mut seen: Seq<Seq<Token>> = Seq::empty();
    let mut out: Vec<u64> = Vec::new();
    loop
        invariant
            ps.wf(),
            params_of(items@) == seen + params_of(ps.tokens_view()),
            out@ == references_among(seen),
        decreases ps.tokens_view().len(),
    {
        let ghost ts = ps.tokens_view();
        proof {
            lemma_skip_separators(ts, 0);
        }
        match ps.next_tokens() {
            None => {
                proof {
                    assert(params_of(ts) =~= Seq::<Seq<Token>>::empty());
                    assert(seen + params_of(ts) =~= seen);
                }
                return out;
            },
            Some(pt) => {
                proof {
                    let k = skip_separators(ts, 0);
                    lemma_after_param(ts, k);
                    assert(params_of(ts) == seq![pt@] + params_of(ps.tokens_view()));
                    assert(seen + params_of(ts) =~= seen.push(pt@) + params_of(ps.tokens_view()));
                    assert(seen.push(pt@).drop_last() =~= seen);
                    seen = seen.push(pt@);
                }
                if pt.len() == 1 {
                    match pt[0].kind {
                        TokenKind::InstanceName(id) => {
                            out.push(id);
                        },
                        _ => {},
                    }
                }
            },
        }
    }
}

/// The decoded string literals among the parameters written as `items`.
fn strings_in_items(src: &[u8], items: &[Token]) -> (v: Vec<String>)
    requires
        crate::p21::exchange::tokens_ok(src@, items@),
    ensures
        v@.map_values(|s: String| s@) == strings_among(src@, params_of(items@)),
{
    let mut ps = Params::over(src, items);
    let ghost mut seen: Seq<Seq<Token>> = Seq::empty();
    let mut out: Vec<String> = Vec::new();
    loop
        invariant
            ps.wf(),
            ps.src_view() == src@,
            src@.len() < usize::MAX,
            params_of(items@) == seen + params_of(ps.tokens_view()),
            out@.map_values(|s: String| s@) == strings_among(src@, seen),
        decreases ps.tokens_view().len(),
    {
        let ghost ts = ps.tokens_view();
        proof {
            lemma_skip_separators(ts, 0);
        }
        match ps.next_tokens() {
            None => {
                proof {
                    assert(params_of(ts) =~= Seq::<Seq<Token>>::empty());
                    assert(seen + params_of(ts) =~= seen);
                }
                return out;
            },
            Some(pt) => {
                let ghost before = out@;
                proof {
                    let k = skip_separators(ts, 0);
                    lemma_after_param(ts, k);
                    assert(params_of(ts) == seq![pt@] + params_of(ps.tokens_view()));
                    assert(seen + params_of(ts) =~= seen.push(pt@) + params_of(ps.tokens_view()));
                    assert(seen.push(pt@).drop_last() =~= seen);
                    seen = seen.push(pt@);
                }
                if pt.len() == 1 {
                    match crate::p21::string::decode_string(src, pt[0].span) {
                        Ok(text) => {
                            out.push(text);
                            proof {
                                assert(out@.map_values(|s: String| s@) =~= before.map_values(|s: String| s@).push(
                                    out@.last()@,
                                ));
                            }
                        },
                        Err(_) => {},
                    }
                }
            },
        }
    }
}

// ---------------------------------------------------------------------
// Structure.
// ---------------------------------------------------------------------

/// True if record `r` is named `name`, ignoring ASCII case.
pub open spec fn rec_named(src: Seq<u8>, r: (Token, Seq<Token>), name: &str) -> bool {
    eq_ignore_case(r.0.span.of(src), name.spec_bytes())
}

/// The first of `recs[k..]` named `name`.
pub open spec fn first_rec(src: Seq<u8>, recs: Seq<(Token, Seq<Token>)>, name: &str, k: int) -> Option<int>
    decreases recs.len() - k,
{
    if k < 0 || k >= recs.len() {
        None
    } else if rec_named(src, recs[k], name) {
        Some(k)
    } else {
        first_rec(src, recs, name, k + 1)
    }
}

/// `rep_1` and `rep_2` of instance `inst` if it is a
/// `representation_relationship_with_transformation`.
pub open spec fn transformed(ex: Exchange, inst: Instance) -> Option<(u64, u64)> {
    let src = ex.src_view();
    let recs = ex.records_view(inst);
    let base = if inst.complex {
        if first_rec(src, recs, "REPRESENTATION_RELATIONSHIP_WITH_TRANSFORMATION", 0) is Some {
            first_rec(src, recs, "REPRESENTATION_RELATIONSHIP", 0)
        } else {
            None
        }
    } else if recs.len() > 0 && rec_named(src, recs[0], "REPRESENTATION_RELATIONSHIP_WITH_TRANSFORMATION") {
        Some(0int)
    } else {
        None
    };
    match base {
        Some(b) => match (ref_param(recs[b].1, 2), ref_param(recs[b].1, 3)) {
            (Some(r1), Some(r2)) => Some((r1, r2)),
            _ => None,
        },
        None => None,
    }
}

/// `context_of_items` of the representation `#id`.
pub open spec fn context_spec(ex: Exchange, id: u64) -> Option<u64> {
    if ex.index_view().contains_key(id) {
        let inst = ex.instances_view()[ex.index_view()[id] as int];
        let recs = ex.records_view(inst);
        let base = if inst.complex {
            first_rec(ex.src_view(), recs, "REPRESENTATION", 0)
        } else if recs.len() > 0 {
            Some(0int)
        } else {
            None
        };
        match base {
            Some(b) => ref_param(recs[b].1, 2),
            None => None,
        }
    } else {
        None
    }
}

/// The message of a shared-context finding.
pub open spec fn shared_message(r1: u64, r2: u64, c: u64) -> Seq<char> {
    "representations #"@ + decimal(r1 as nat) + " and #"@ + decimal(r2 as nat) + " share context #"@ + decimal(
        c as nat,
    ) + "; a transformation needs two distinct contexts"@
}

/// The shared-context finding of instance `inst`, if any.
pub open spec fn shared_finding(ex: Exchange, inst: Instance) -> Seq<FindingView> {
    match transformed(ex, inst) {
        Some((r1, r2)) => match (context_spec(ex, r1), context_spec(ex, r2)) {
            (Some(c1), Some(c2)) => if c1 == c2 {
                seq![finding_of(Check::SharedContext, Some(inst.id), shared_message(r1, r2, c1))]
            } else {
                Seq::empty()
            },
            _ => Seq::empty(),
        },
        None => Seq::empty(),
    }
}

/// The kind of record a structure check looks at.
pub open spec fn is_protocol(src: Seq<u8>, r: (Token, Seq<Token>)) -> bool {
    rec_named(src, r, "APPLICATION_PROTOCOL_DEFINITION")
}

pub open spec fn is_product(src: Seq<u8>, r: (Token, Seq<Token>)) -> bool {
    !is_protocol(src, r) && rec_named(src, r, "PRODUCT")
}

pub open spec fn is_category(src: Seq<u8>, r: (Token, Seq<Token>)) -> bool {
    !is_protocol(src, r) && !rec_named(src, r, "PRODUCT") && rec_named(src, r, "PRODUCT_RELATED_PRODUCT_CATEGORY")
}

/// The products among the first `k` records of instance `inst`, one per
/// `PRODUCT` record.
pub open spec fn products_in(ex: Exchange, inst: Instance, k: int) -> Seq<u64>
    decreases k,
{
    if k <= 0 {
        Seq::empty()
    } else {
        products_in(ex, inst, k - 1) + if is_product(ex.src_view(), ex.records_view(inst)[k - 1]) {
            seq![inst.id]
        } else {
            Seq::empty()
        }
    }
}

/// The products of the first `n` instances, in file order.
pub open spec fn products_upto(ex: Exchange, n: int) -> Seq<u64>
    decreases n,
{
    if n <= 0 {
        Seq::empty()
    } else {
        let inst = ex.instances_view()[n - 1];
        products_upto(ex, n - 1) + products_in(ex, inst, ex.records_view(inst).len() as int)
    }
}

/// True if record `r` is a category that lists `#id`.
pub open spec fn lists_product(src: Seq<u8>, r: (Token, Seq<Token>), id: u64) -> bool {
    is_category(src, r) && match list_items(r.1, 2) {
        Some(items) => references_among(params_of(items)).contains(id),
        None => false,
    }
}

/// True if a category among the first `n` instances lists `#id`.
pub open spec fn categorized_upto(ex: Exchange, n: int, id: u64) -> bool {
    exists|m: int, k: int|
        0 <= m < n && 0 <= k < ex.records_view(ex.instances_view()[m]).len() && #[trigger] lists_product(
            ex.src_view(),
            ex.records_view(ex.instances_view()[m])[k],
            id,
        )
}

/// True if one of the first `n` instances is an application protocol
/// definition.
pub open spec fn protocol_upto(ex: Exchange, n: int) -> bool {
    exists|m: int, k: int|
        0 <= m < n && 0 <= k < ex.records_view(ex.instances_view()[m]).len() && #[trigger] is_protocol(
            ex.src_view(),
            ex.records_view(ex.instances_view()[m])[k],
        )
}

/// The shared-context findings of the first `n` instances.
pub open spec fn shared_upto(ex: Exchange, n: int) -> Seq<FindingView>
    decreases n,
{
    if n <= 0 {
        Seq::empty()
    } else {
        shared_upto(ex, n - 1) + shared_finding(ex, ex.instances_view()[n - 1])
    }
}

/// The uncategorized-product findings of `products`.
pub open spec fn uncategorized(ex: Exchange, products: Seq<u64>) -> Seq<FindingView>
    decreases products.len(),
{
    if products.len() == 0 {
        Seq::empty()
    } else {
        let id = products.last();
        uncategorized(ex, products.drop_last()) + if categorized_upto(ex, ex.instances_view().len() as int, id) {
            Seq::empty()
        } else {
            seq![
                finding_of(
                    Check::UncategorizedProduct,
                    Some(id),
                    "PRODUCT is in no PRODUCT_RELATED_PRODUCT_CATEGORY"@,
                ),
            ]
        }
    }
}

/// The message of a missing-application-protocol finding.
pub open spec fn missing_protocol_message() -> Seq<char> {
    "no APPLICATION_PROTOCOL_DEFINITION; readers cannot tell which protocol the file conforms to"@
}

/// The structure findings of `ex`: shared contexts in file order, then a
/// missing protocol, then uncategorized products in file order.
pub open spec fn structure_spec(ex: Exchange) -> Seq<FindingView> {
    let n = ex.instances_view().len() as int;
    shared_upto(ex, n) + missing_protocol(ex) + uncategorized(ex, products_upto(ex, n))
}

/// The missing-protocol finding of `ex`, if it has instances but no
/// application protocol definition.
pub open spec fn missing_protocol(ex: Exchange) -> Seq<FindingView> {
    let n = ex.instances_view().len() as int;
    if !protocol_upto(ex, n) && n > 0 {
        seq![finding_of(Check::MissingApplicationProtocol, None, missing_protocol_message())]
    } else {
        Seq::empty()
    }
}

/// The first of `records[k..]` named `name`.
pub(crate) fn find_rec(records: &Vec<Record>, name: &str, Ghost(src): Ghost<Seq<u8>>, Ghost(recs): Ghost<Seq<(Token, Seq<Token>)>>) -> (r: Option<usize>)
    requires
        records@.len() == recs.len(),
        forall|j: int|
            0 <= j < records@.len() ==> (#[trigger] records@[j]).wf() && records@[j].src_view() == src
                && records@[j].name_token() == recs[j].0 && records@[j].params_view() == recs[j].1,
    ensures
        match first_rec(src, recs, name, 0) {
            Some(k) => r matches Some(i) && i as int == k && k < recs.len(),
            None => r is None,
        },
{
    let mut k: usize = 0;
    while k < records.len()
        invariant
            records@.len() == recs.len(),
            forall|j: int|
                0 <= j < records@.len() ==> (#[trigger] records@[j]).wf() && records@[j].src_view() == src
                    && records@[j].name_token() == recs[j].0 && records@[j].params_view() == recs[j].1,
            k <= records@.len(),
            first_rec(src, recs, name, 0) == first_rec(src, recs, name, k as int),
        decreases records@.len() - k,
    {
        if records[k].is(name) {
            return Some(k);
        }
        k = k + 1;
    }
    None
}

/// `rep_1` and `rep_2` of a `representation_relationship_with_transformation`.
fn transformed_representations(exchange: &Exchange, instance: &Instance, records: &Vec<Record>) -> (r: Option<(u64, u64)>)
    requires
        exchange.wf(),
        crate::model::extract::records_of(*exchange, *instance, records@),
    ensures
        r == transformed(*exchange, *instance),
{
    let ghost src = exchange.src_view();
    let ghost recs = exchange.records_view(*instance);
    let base = if instance.is_complex() {
        match find_rec(records, "REPRESENTATION_RELATIONSHIP_WITH_TRANSFORMATION", Ghost(src), Ghost(recs)) {
            Some(_) => find_rec(records, "REPRESENTATION_RELATIONSHIP", Ghost(src), Ghost(recs)),
            None => None,
        }
    } else if records.len() > 0 && records[0].is("REPRESENTATION_RELATIONSHIP_WITH_TRANSFORMATION") {
        Some(0)
    } else {
        None
    };
    match base {
        Some(b) => {
            let r1 = ref_at(records[b], 2);
            let r2 = ref_at(records[b], 3);
            match (r1, r2) {
                (Some(a), Some(c)) => Some((a, c)),
                _ => None,
            }
        },
        None => None,
    }
}

/// `context_of_items` of the representation `#id`.
fn context_of(exchange: &Exchange, id: u64) -> (r: Option<u64>)
    requires
        exchange.wf(),
    ensures
        r == context_spec(*exchange, id),
{
    let instance = match exchange.get(id) {
        Some(i) => i,
        None => {
            return None;
        },
    };
    let records = exchange.records(instance).to_vec();
    let ghost src = exchange.src_view();
    let ghost recs = exchange.records_view(*instance);
    proof {
        assert(crate::model::extract::records_of(*exchange, *instance, records@));
    }
    let base = if instance.is_complex() {
        find_rec(&records, "REPRESENTATION", Ghost(src), Ghost(recs))
    } else if records.len() > 0 {
        Some(0)
    } else {
        None
    };
    match base {
        Some(b) => ref_at(records[b], 2),
        None => None,
    }
}


proof fn lemma_protocol_step(ex: Exchange, n: int)
    requires
        0 <= n < ex.instances_view().len(),
    ensures
        protocol_upto(ex, n + 1) == (protocol_upto(ex, n) || exists|k: int|
            0 <= k < ex.records_view(ex.instances_view()[n]).len() && #[trigger] is_protocol(
                ex.src_view(),
                ex.records_view(ex.instances_view()[n])[k],
            )),
{
    if protocol_upto(ex, n + 1) {
        let (m, k) = choose|m: int, k: int|
            0 <= m < n + 1 && 0 <= k < ex.records_view(ex.instances_view()[m]).len() && #[trigger] is_protocol(
                ex.src_view(),
                ex.records_view(ex.instances_view()[m])[k],
            );
        if m < n {
            assert(protocol_upto(ex, n));
        }
    }
}

proof fn lemma_categorized_step(ex: Exchange, n: int, id: u64)
    requires
        0 <= n < ex.instances_view().len(),
    ensures
        categorized_upto(ex, n + 1, id) == (categorized_upto(ex, n, id) || exists|k: int|
            0 <= k < ex.records_view(ex.instances_view()[n]).len() && #[trigger] lists_product(
                ex.src_view(),
                ex.records_view(ex.instances_view()[n])[k],
                id,
            )),
{
    if categorized_upto(ex, n + 1, id) {
        let (m, k) = choose|m: int, k: int|
            0 <= m < n + 1 && 0 <= k < ex.records_view(ex.instances_view()[m]).len() && #[trigger] lists_product(
                ex.src_view(),
                ex.records_view(ex.instances_view()[m])[k],
                id,
            );
        if m < n {
            assert(categorized_upto(ex, n, id));
        }
    }
}

/// Looks at the records of one instance: protocol definitions, products
/// and the products categories list.
fn scan_instance(
    exchange: &Exchange,
    instance: &Instance,
    records: &Vec<Record>,
    has_protocol: &mut bool,
    products: &mut Vec<u64>,
    categorized: &mut HashSetWithView<u64>,
)
    requires
        exchange.wf(),
        crate::model::extract::records_of(*exchange, *instance, records@),
    ensures
        *final(has_protocol) == (*old(has_protocol) || exists|j: int|
            0 <= j < records@.len() && #[trigger] is_protocol(
                exchange.src_view(),
                exchange.records_view(*instance)[j],
            )),
        final(products)@ == old(products)@ + products_in(*exchange, *instance, records@.len() as int),
        forall|id: u64|
            #[trigger] final(categorized)@.contains(id) <==> (old(categorized)@.contains(id) || exists|j: int|
                0 <= j < records@.len() && #[trigger] lists_product(
                    exchange.src_view(),
                    exchange.records_view(*instance)[j],
                    id,
                )),
{
    broadcast use vstd::std_specs::hash::group_hash_axioms;
    let ghost ex = *exchange;
    let ghost src = ex.src_view();
    let ghost recs = ex.records_view(*instance);
    let ghost has0 = *has_protocol;
    let ghost products0 = products@;
    let ghost cat0 = categorized@;
    let source = exchange.source();
    let mut k: usize = 0;
    while k < records.len()
        invariant
            ex == *exchange,
            ex.wf(),
            src == ex.src_view(),
            source@ == src,
            recs == ex.records_view(*instance),
            crate::model::extract::records_of(ex, *instance, records@),
            k <= records@.len(),
            *has_protocol == (has0 || exists|j: int| 0 <= j < k && #[trigger] is_protocol(src, recs[j])),
            products@ == products0 + products_in(ex, *instance, k as int),
            forall|id: u64|
                #[trigger] categorized@.contains(id) <==> (cat0.contains(id) || exists|j: int|
                    0 <= j < k && #[trigger] lists_product(src, recs[j], id)),
        decreases records@.len() - k,
    {
        let record = records[k];
        let ghost r = recs[k as int];
        let ghost cat_before = categorized@;
        let ghost has_before = *has_protocol;
        let ghost products_before = products@;
        let protocol = record.is("APPLICATION_PROTOCOL_DEFINITION");
        let product = record.is("PRODUCT");
        let category = record.is("PRODUCT_RELATED_PRODUCT_CATEGORY");
        proof {
            assert(protocol == is_protocol(src, r));
        }
        if protocol {
            *has_protocol = true;
        } else if product {
            products.push(instance.id);
        } else if category {
            match items_at(record, 2) {
                Some(items) => {
                    let refs = references_in_items(source, items);
                    let mut j: usize = 0;
                    while j < refs.len()
                        invariant
                            j <= refs@.len(),
                            forall|id: u64| #[trigger] categorized@.contains(id) <==> (cat_before.contains(id) || refs@.take(j as int).contains(id)),
                        decreases refs@.len() - j,
                    {
                        let ghost c = categorized@;
                        categorized.insert(refs[j]);
                        proof {
                            assert forall|id: u64| #[trigger] categorized@.contains(id) <==> (cat_before.contains(id) || refs@.take(j + 1).contains(id)) by {
                                if refs@.take(j + 1).contains(id) && !refs@.take(j as int).contains(id) {
                                    let q = choose|q: int| 0 <= q < j + 1 && #[trigger] refs@.take(j + 1)[q] == id;
                                    if q < j {
                                        assert(refs@.take(j as int)[q] == id);
                                    }
                                }
                                if refs@.take(j as int).contains(id) {
                                    let q = choose|q: int| 0 <= q < j && #[trigger] refs@.take(j as int)[q] == id;
                                    assert(refs@.take(j + 1)[q] == id);
                                }
                                if id == refs@[j as int] {
                                    assert(refs@.take(j + 1)[j as int] == id);
                                }
                            }
                        }
                        j = j + 1;
                    }
                    proof {
                        assert(refs@.take(j as int) =~= refs@);
                    }
                },
                None => {},
            }
        }
        proof {
            assert forall|id: u64| #[trigger] categorized@.contains(id) <==> (cat0.contains(id) || exists|j: int|
                0 <= j < k + 1 && #[trigger] lists_product(src, recs[j], id)) by {
                if lists_product(src, recs[k as int], id) {
                    assert(exists|j: int| 0 <= j < k + 1 && #[trigger] lists_product(src, recs[j], id));
                }
                if exists|j: int| 0 <= j < k + 1 && #[trigger] lists_product(src, recs[j], id) {
                    let j = choose|j: int| 0 <= j < k + 1 && #[trigger] lists_product(src, recs[j], id);
                    if j < k {
                        assert(exists|j2: int| 0 <= j2 < k && #[trigger] lists_product(src, recs[j2], id));
                    }
                }
                if exists|j: int| 0 <= j < k && #[trigger] lists_product(src, recs[j], id) {
                    let j = choose|j: int| 0 <= j < k && #[trigger] lists_product(src, recs[j], id);
                    assert(0 <= j < k + 1);
                }
            }
            if is_protocol(src, r) {
                assert(exists|j: int| 0 <= j < k + 1 && #[trigger] is_protocol(src, recs[j]));
            }
            if exists|j: int| 0 <= j < k + 1 && #[trigger] is_protocol(src, recs[j]) {
                let j = choose|j: int| 0 <= j < k + 1 && #[trigger] is_protocol(src, recs[j]);
                if j < k {
                    assert(exists|j2: int| 0 <= j2 < k && #[trigger] is_protocol(src, recs[j2]));
                }
            }
            if has_before && !has0 {
                let j = choose|j: int| 0 <= j < k && #[trigger] is_protocol(src, recs[j]);
                assert(0 <= j < k + 1);
            }
            assert(products@ == products0 + products_in(ex, *instance, k + 1));
        }
        k = k + 1;
    }
}

/// Appends the shared-context finding of one instance, if any.
fn shared_context(exchange: &Exchange, instance: &Instance, records: &Vec<Record>, findings: &mut Vec<Finding>)
    requires
        exchange.wf(),
        crate::model::extract::records_of(*exchange, *instance, records@),
    ensures
        finding_views(final(findings)@) == finding_views(old(findings)@) + shared_finding(*exchange, *instance),
{
    match transformed_representations(exchange, instance, records) {
        Some((rep_1, rep_2)) => {
            match (context_of(exchange, rep_1), context_of(exchange, rep_2)) {
                (Some(context_1), Some(context_2)) => {
                    if context_1 == context_2 {
                        let mut message = owned("representations #");
                        push_decimal(&mut message, rep_1);
                        message.append(" and #");
                        push_decimal(&mut message, rep_2);
                        message.append(" share context #");
                        push_decimal(&mut message, context_1);
                        message.append("; a transformation needs two distinct contexts");
                        proof {
                            assert(message@ =~= shared_message(rep_1, rep_2, context_1));
                        }
                        let ghost before = findings@;
                        findings.push(finding(Check::SharedContext, Some(instance.id), message));
                        proof {
                            assert(finding_views(findings@) =~= finding_views(before).push(findings@.last()@));
                        }
                    } else {
                        proof {
                            assert(finding_views(findings@) =~= finding_views(findings@) + shared_finding(*exchange, *instance));
                        }
                    }
                },
                _ => {
                    proof {
                        assert(finding_views(findings@) =~= finding_views(findings@) + shared_finding(*exchange, *instance));
                    }
                },
            }
        },
        None => {
            proof {
                assert(finding_views(findings@) =~= finding_views(findings@) + shared_finding(*exchange, *instance));
            }
        },
    }
}


/// Appends an uncategorized-product finding for each of `products` that
/// no category lists.
fn uncategorized_findings(
    exchange: &Exchange,
    products: &Vec<u64>,
    categorized: &HashSetWithView<u64>,
    findings: &mut Vec<Finding>,
)
    requires
        forall|id: u64|
            #[trigger] categorized@.contains(id) <==> categorized_upto(*exchange, exchange.instances_view().len() as int, id),
    ensures
        finding_views(final(findings)@) == finding_views(old(findings)@) + uncategorized(*exchange, products@),
{
    let ghost ex = *exchange;
    let ghost mid = finding_views(findings@);
    let mut j: usize = 0;
    while j < products.len()
        invariant
            ex == *exchange,
            j <= products@.len(),
            forall|id: u64|
                #[trigger] categorized@.contains(id) <==> categorized_upto(ex, ex.instances_view().len() as int, id),
            finding_views(findings@) == mid + uncategorized(ex, products@.take(j as int)),
        decreases products@.len() - j,
    {
        let product = products[j];
        proof {
            assert(products@.take(j + 1).drop_last() =~= products@.take(j as int));
        }
        if !categorized.contains(&product) {
            let ghost before = findings@;
            findings.push(
                finding(
                    Check::UncategorizedProduct,
                    Some(product),
                    owned("PRODUCT is in no PRODUCT_RELATED_PRODUCT_CATEGORY"),
                ),
            );
            proof {
                assert(finding_views(findings@) =~= finding_views(before).push(findings@.last()@));
            }
        }
        j = j + 1;
    }
    proof {
        assert(products@.take(j as int) =~= products@);
    }
}

/// Walks the instances: appends their shared-context findings and
/// collects whether a protocol is defined, the products and the products
/// categories list.
#[verifier::rlimit(40)]
fn scan_instances(exchange: &Exchange, findings: &mut Vec<Finding>) -> (r: (bool, Vec<u64>, HashSetWithView<u64>))
    requires
        exchange.wf(),
    ensures
        r.0 == protocol_upto(*exchange, exchange.instances_view().len() as int),
        r.1@ == products_upto(*exchange, exchange.instances_view().len() as int),
        forall|id: u64|
            #[trigger] r.2@.contains(id) <==> categorized_upto(*exchange, exchange.instances_view().len() as int, id),
        finding_views(final(findings)@) == finding_views(old(findings)@) + shared_upto(
            *exchange,
            exchange.instances_view().len() as int,
        ),
{
    broadcast use vstd::std_specs::hash::group_hash_axioms;
    let ghost ex = *exchange;
    let ghost start = finding_views(findings@);
    let mut has_application_protocol = false;
    let mut products: Vec<u64> = Vec::new();
    let mut categorized: HashSetWithView<u64> = HashSetWithView::new();
    let instances = exchange.instances();
    let mut n: usize = 0;
    proof {
        assert(finding_views(findings@) =~= start + shared_upto(ex, 0));
    }
    while n < instances.len()
        invariant
            ex == *exchange,
            ex.wf(),
            instances@ == ex.instances_view(),
            n <= instances@.len(),
            has_application_protocol == protocol_upto(ex, n as int),
            products@ == products_upto(ex, n as int),
            forall|id: u64| #[trigger] categorized@.contains(id) <==> categorized_upto(ex, n as int, id),
            finding_views(findings@) == start + shared_upto(ex, n as int),
        decreases instances@.len() - n,
    {
        let instance = &instances[n];
        let records = exchange.records(instance).to_vec();
        proof {
            assert(crate::model::extract::records_of(ex, *instance, records@));
        }
        scan_instance(exchange, instance, &records, &mut has_application_protocol, &mut products, &mut categorized);
        shared_context(exchange, instance, &records, findings);
        proof {
            lemma_protocol_step(ex, n as int);
            assert forall|id: u64| #[trigger] categorized@.contains(id) <==> categorized_upto(ex, n + 1, id) by {
                lemma_categorized_step(ex, n as int, id);
            }
        }
        n = n + 1;
    }
    (has_application_protocol, products, categorized)
}

/// Appends the missing-protocol finding, if `has_protocol` is false and
/// `exchange` has instances.
fn missing_protocol_finding(exchange: &Exchange, has_protocol: bool, findings: &mut Vec<Finding>)
    requires
        has_protocol == protocol_upto(*exchange, exchange.instances_view().len() as int),
    ensures
        finding_views(final(findings)@) == finding_views(old(findings)@) + missing_protocol(*exchange),
{
    if !has_protocol && exchange.instances().len() > 0 {
        let ghost before = findings@;
        findings.push(
            finding(
                Check::MissingApplicationProtocol,
                None,
                owned(
                    "no APPLICATION_PROTOCOL_DEFINITION; readers cannot tell which protocol the file conforms to",
                ),
            ),
        );
        proof {
            assert(finding_views(findings@) =~= finding_views(before).push(findings@.last()@));
        }
    } else {
        proof {
            assert(finding_views(findings@) =~= finding_views(findings@) + missing_protocol(*exchange));
        }
    }
}

/// Appends the structure findings of `exchange`.
fn structure_findings(exchange: &Exchange, findings: &mut Vec<Finding>)
    requires
        exchange.wf(),
    ensures
        finding_views(final(findings)@) == finding_views(old(findings)@) + structure_spec(*exchange),
{
    let ghost ex = *exchange;
    let ghost start = finding_views(findings@);
    let (has_application_protocol, products, categorized) = scan_instances(exchange, findings);
    missing_protocol_finding(exchange, has_application_protocol, findings);
    uncategorized_findings(exchange, &products, &categorized, findings);
    proof {
        assert(finding_views(findings@) =~= start + structure_spec(ex));
    }
}

// ---------------------------------------------------------------------
// The report.
// ---------------------------------------------------------------------

/// The `FILE_SCHEMA` identifiers of `ex`: the decoded strings in the list
/// that is the first parameter of the first `FILE_SCHEMA` header entity.
pub open spec fn file_schemas_spec(ex: Exchange) -> Seq<Seq<char>> {
    let src = ex.src_view();
    let header = ex.header_view();
    match first_rec(src, header, "FILE_SCHEMA", 0) {
        Some(k) => match list_items(header[k].1, 0) {
            Some(items) => strings_among(src, params_of(items)),
            None => Seq::empty(),
        },
        None => Seq::empty(),
    }
}

/// True if one of `names` names schema `s`.
pub open spec fn named_by(s: Schema, names: Seq<Seq<char>>) -> bool {
    exists|q: int| 0 <= q < names.len() && upper(first_word(#[trigger] names[q], 0)) == upper(s.name_view())
}

/// The first of `schemas[i..]` that one of `names` names.
pub open spec fn first_match(schemas: Seq<Schema>, names: Seq<Seq<char>>, i: int) -> Option<int>
    decreases schemas.len() - i,
{
    if i < 0 || i >= schemas.len() {
        None
    } else if named_by(schemas[i], names) {
        Some(i)
    } else {
        first_match(schemas, names, i + 1)
    }
}

/// The dangling-reference findings of `d`, in order.
pub open spec fn dangling_findings(ex: Exchange, d: Seq<(usize, u64)>) -> Seq<FindingView>
    decreases d.len(),
{
    if d.len() == 0 {
        Seq::empty()
    } else {
        dangling_findings(ex, d.drop_last()).push(
            finding_of(
                Check::DanglingReference,
                Some(ex.instances_view()[d.last().0 as int].id),
                "references undefined instance #"@ + decimal(d.last().1 as nat),
            ),
        )
    }
}

/// The text of problem `p` after its leading `#id `.
pub open spec fn problem_text(p: ProblemView) -> Seq<char> {
    p.entity + match p.kind {
        KindView::UnknownEntity => ": entity type is not in the schema"@,
        KindView::AttributeCount { expected, found } => ": expected "@ + decimal(expected) + " attribute"@
            + plural(expected) + ", found "@ + decimal(found),
        KindView::TooFewElements { attribute, min, found } => "."@ + attribute + ": needs at least "@
            + decimal(min) + " element"@ + plural(min) + ", found "@ + decimal(found),
    }
}

/// The check a schema problem of kind `k` is reported under.
pub open spec fn problem_check(k: KindView) -> Check {
    match k {
        KindView::UnknownEntity => Check::UnknownEntity,
        KindView::AttributeCount { .. } => Check::AttributeCount,
        KindView::TooFewElements { .. } => Check::TooFewElements,
    }
}

/// The findings of schema problems `ps`, in order.
pub open spec fn problem_findings(ps: Seq<ProblemView>) -> Seq<FindingView>
    decreases ps.len(),
{
    if ps.len() == 0 {
        Seq::empty()
    } else {
        let p = ps.last();
        problem_findings(ps.drop_last()).push(finding_of(problem_check(p.kind), Some(p.instance), problem_text(p)))
    }
}

/// True if a finding about `a` sorts no later than one about `b`:
/// findings about the file as a whole first, then by instance name.
pub open spec fn key_le(a: Option<u64>, b: Option<u64>) -> bool {
    match (a, b) {
        (None, _) => true,
        (Some(_), None) => false,
        (Some(x), Some(y)) => x <= y,
    }
}

/// `x` inserted into `s` after the last finding that sorts no later than it.
pub open spec fn insert_sorted(s: Seq<FindingView>, x: FindingView) -> Seq<FindingView>
    decreases s.len(),
{
    if s.len() == 0 {
        seq![x]
    } else if key_le(s.last().instance, x.instance) {
        s.push(x)
    } else {
        insert_sorted(s.drop_last(), x).push(s.last())
    }
}

/// `s` stably sorted by instance: findings with the same key keep their
/// order.
pub open spec fn sorted_by_instance(s: Seq<FindingView>) -> Seq<FindingView>
    decreases s.len(),
{
    if s.len() == 0 {
        s
    } else {
        insert_sorted(sorted_by_instance(s.drop_last()), s.last())
    }
}

/// The findings of `ex` in the order the checks run: dangling references,
/// then schema problems against `schemas[chosen]` if one was chosen, then
/// structure.
pub open spec fn findings_in_run_order(ex: Exchange, schemas: Seq<Schema>, chosen: Option<int>) -> Seq<FindingView> {
    let checked = match chosen {
        Some(c) => problem_findings(problems_upto(schemas[c], ex, ex.instances_view().len() as int)),
        None => Seq::empty(),
    };
    dangling_findings(ex, dangling(ex)) + checked + structure_spec(ex)
}

/// True if `r` is the report on the parsed file `ex` with `schemas`.
pub open spec fn reports(r: Report, ex: Exchange, schemas: Seq<Schema>) -> bool {
    let names = file_schemas_spec(ex);
    let chosen = first_match(schemas, names, 0);
    &&& r.file_schemas@.map_values(|s: String| s@) == names
    &&& match chosen {
        Some(c) => r.checked_schema matches Some(name) && name@ == schemas[c].name_view(),
        None => r.checked_schema is None,
    }
    &&& finding_views(r.findings@) == sorted_by_instance(findings_in_run_order(ex, schemas, chosen))
}

/// True if `s` is ordered by instance: findings about the file as a
/// whole first, then by instance name.
pub open spec fn sorted_keys(s: Seq<FindingView>) -> bool {
    forall|i: int, j: int| 0 <= i < j < s.len() ==> key_le(#[trigger] s[i].instance, #[trigger] s[j].instance)
}

/// The findings of `s` about `key`, in order.
pub open spec fn about(s: Seq<FindingView>, key: Option<u64>) -> Seq<FindingView>
    decreases s.len(),
{
    if s.len() == 0 {
        Seq::empty()
    } else {
        about(s.drop_last(), key) + if s.last().instance == key {
            seq![s.last()]
        } else {
            Seq::empty()
        }
    }
}

proof fn lemma_insert_sorted(s: Seq<FindingView>, x: FindingView, b: Option<u64>, key: Option<u64>)
    requires
        sorted_keys(s),
    ensures
        sorted_keys(insert_sorted(s, x)),
        insert_sorted(s, x).to_multiset() == s.to_multiset().insert(x),
        about(insert_sorted(s, x), key) == about(s, key) + if x.instance == key {
            seq![x]
        } else {
            Seq::<FindingView>::empty()
        },
        (forall|i: int| 0 <= i < s.len() ==> key_le(#[trigger] s[i].instance, b)) && key_le(x.instance, b)
            ==> forall|i: int| 0 <= i < insert_sorted(s, x).len() ==> key_le(#[trigger] insert_sorted(s, x)[i].instance, b),
    decreases s.len(),
{
    broadcast use vstd::seq_lib::to_multiset_build;

    let r = insert_sorted(s, x);
    if s.len() == 0 {
        assert(r == s.push(x));
        assert(about(s.push(x), key).len() >= 0);
        assert(s.push(x).drop_last() =~= s);
    } else if key_le(s.last().instance, x.instance) {
        assert(r == s.push(x));
        assert(s.push(x).drop_last() =~= s);
        assert forall|i: int, j: int| 0 <= i < j < r.len() implies key_le(#[trigger] r[i].instance, #[trigger] r[j].instance) by {
            if j == s.len() {
                if i < s.len() - 1 {
                    assert(key_le(s[i].instance, s[s.len() - 1].instance));
                }
            } else {
                assert(key_le(s[i].instance, s[j].instance));
            }
        }
    } else {
        let t = s.drop_last();
        let last = s.last();
        assert forall|i: int, j: int| 0 <= i < j < t.len() implies key_le(#[trigger] t[i].instance, #[trigger] t[j].instance) by {
            assert(key_le(s[i].instance, s[j].instance));
        }
        assert forall|i: int| 0 <= i < t.len() implies key_le(#[trigger] t[i].instance, last.instance) by {
            assert(key_le(s[i].instance, s[s.len() - 1].instance));
        }
        lemma_insert_sorted(t, x, last.instance, key);
        let q = insert_sorted(t, x);
        assert(r == q.push(last));
        assert(q.push(last).drop_last() =~= q);
        assert(t.push(last) =~= s);
        assert forall|i: int, j: int| 0 <= i < j < r.len() implies key_le(#[trigger] r[i].instance, #[trigger] r[j].instance) by {
            if j == q.len() {
                assert(key_le(q[i].instance, last.instance));
            } else {
                assert(key_le(q[i].instance, q[j].instance));
            }
        }
        if (forall|i: int| 0 <= i < s.len() ==> key_le(#[trigger] s[i].instance, b)) && key_le(x.instance, b) {
            assert(key_le(s[s.len() - 1].instance, b));
            assert forall|i: int| 0 <= i < r.len() implies key_le(#[trigger] r[i].instance, b) by {
                if i < q.len() {
                    assert(key_le(q[i].instance, last.instance));
                }
            }
        }
        assert(last.instance != x.instance);
        assert(about(r, key) =~= about(s, key) + if x.instance == key {
            seq![x]
        } else {
            Seq::<FindingView>::empty()
        });
    }
}

/// The findings of a report are ordered by instance, findings about the
/// file as a whole first; they are exactly the findings the checks made,
/// each as often as it was made; and the findings about any one instance
/// keep the order in which the checks made them.
pub proof fn lemma_findings_sorted(s: Seq<FindingView>)
    ensures
        sorted_keys(sorted_by_instance(s)),
        sorted_by_instance(s).to_multiset() == s.to_multiset(),
        forall|key: Option<u64>| #[trigger] about(sorted_by_instance(s), key) == about(s, key),
    decreases s.len(),
{
    broadcast use vstd::seq_lib::to_multiset_build;

    if s.len() > 0 {
        let t = s.drop_last();
        lemma_findings_sorted(t);
        lemma_insert_sorted(sorted_by_instance(t), s.last(), None, None);
        assert(t.push(s.last()) =~= s);
        assert forall|key: Option<u64>| #[trigger] about(sorted_by_instance(s), key) == about(s, key) by {
            lemma_insert_sorted(sorted_by_instance(t), s.last(), None, key);
        }
    }
}

fn key_le_exec(a: Option<u64>, b: Option<u64>) -> (r: bool)
    ensures
        r == key_le(a, b),
{
    match (a, b) {
        (None, _) => true,
        (Some(_), None) => false,
        (Some(x), Some(y)) => x <= y,
    }
}

proof fn lemma_insert_at(s: Seq<FindingView>, x: FindingView, p: int)
    requires
        0 <= p <= s.len(),
        forall|j: int| p <= j < s.len() ==> !key_le(#[trigger] s[j].instance, x.instance),
        p > 0 ==> key_le(s[p - 1].instance, x.instance),
    ensures
        insert_sorted(s, x) == s.take(p).push(x) + s.skip(p),
    decreases s.len(),
{
    if s.len() == p {
        assert(s.take(p) =~= s);
        assert(s.skip(p) =~= Seq::<FindingView>::empty());
        if s.len() == 0 {
            assert(seq![x] =~= s.take(p).push(x) + s.skip(p));
        } else {
            assert(s.push(x) =~= s.take(p).push(x) + s.skip(p));
        }
    } else {
        let t = s.drop_last();
        assert(!key_le(s[s.len() - 1].instance, x.instance));
        assert forall|j: int| p <= j < t.len() implies !key_le(#[trigger] t[j].instance, x.instance) by {
            assert(t[j] == s[j]);
        }
        lemma_insert_at(t, x, p);
        assert(t.take(p) =~= s.take(p));
        assert((t.take(p).push(x) + t.skip(p)).push(s.last()) =~= s.take(p).push(x) + s.skip(p));
    }
}

/// `findings`, stably sorted by instance.
fn sort_findings(findings: Vec<Finding>) -> (r: Vec<Finding>)
    ensures
        finding_views(r@) == sorted_by_instance(finding_views(findings@)),
{
    let ghost all = finding_views(findings@);
    let mut rest = findings;
    let mut reversed: Vec<Finding> = Vec::new();
    while rest.len() > 0
        invariant
            rest@.len() + reversed@.len() == all.len(),
            forall|i: int| 0 <= i < rest@.len() ==> (#[trigger] rest@[i])@ == all[i],
            forall|i: int| 0 <= i < reversed@.len() ==> (#[trigger] reversed@[i])@ == all[all.len() - 1 - i],
        decreases rest@.len(),
    {
        match rest.pop() {
            Some(f) => {
                reversed.push(f);
            },
            None => {},
        }
    }
    let mut out: Vec<Finding> = Vec::new();
    proof {
        assert(all.take(0) =~= Seq::<FindingView>::empty());
        assert(finding_views(out@) =~= sorted_by_instance(all.take(0)));
    }
    while reversed.len() > 0
        invariant
            reversed@.len() <= all.len(),
            forall|i: int| 0 <= i < reversed@.len() ==> (#[trigger] reversed@[i])@ == all[all.len() - 1 - i],
            finding_views(out@) == sorted_by_instance(all.take(all.len() - reversed@.len())),
        decreases reversed@.len(),
    {
        let ghost k = all.len() - reversed@.len();
        let ghost last = reversed@.len() - 1;
        proof {
            assert(reversed@[last]@ == all[k]);
        }
        match reversed.pop() {
            Some(f) => {
                let ghost x = f@;
                let ghost s = finding_views(out@);
                let mut p: usize = out.len();
                while p > 0 && !key_le_exec(out[p - 1].instance, f.instance)
                    invariant
                        p <= out@.len(),
                        s == finding_views(out@),
                        x == f@,
                        forall|j: int| p <= j < out@.len() ==> !key_le(#[trigger] out@[j].instance, x.instance),
                    decreases p,
                {
                    p = p - 1;
                }
                proof {
                    assert forall|j: int| p <= j < s.len() implies !key_le(#[trigger] s[j].instance, x.instance) by {
                        assert(s[j] == out@[j]@);
                    }
                    if p > 0 {
                        assert(s[p - 1] == out@[p - 1]@);
                    }
                    lemma_insert_at(s, x, p as int);
                    assert(all.take(k + 1).drop_last() =~= all.take(k));
                    assert(all.take(k + 1).last() == all[k]);
                }
                out.insert(p, f);
                proof {
                    assert(finding_views(out@) =~= s.take(p as int).push(x) + s.skip(p as int));
                }
            },
            None => {},
        }
    }
    proof {
        assert(all.take(all.len() as int) =~= all);
    }
    out
}

/// The first of `schemas` that one of `names` names.
fn matching_schema(schemas: &[Schema], names: &Vec<String>) -> (r: Option<usize>)
    ensures
        match first_match(schemas@, names@.map_values(|s: String| s@), 0) {
            Some(c) => r matches Some(i) && i as int == c && c < schemas@.len(),
            None => r is None,
        },
{
    let ghost views = names@.map_values(|s: String| s@);
    let mut i: usize = 0;
    while i < schemas.len()
        invariant
            views == names@.map_values(|s: String| s@),
            i <= schemas@.len(),
            first_match(schemas@, views, 0) == first_match(schemas@, views, i as int),
        decreases schemas@.len() - i,
    {
        let mut j: usize = 0;
        while j < names.len()
            invariant
                views == names@.map_values(|s: String| s@),
                i < schemas@.len(),
                first_match(schemas@, views, 0) == first_match(schemas@, views, i as int),
                j <= names@.len(),
                forall|q: int| 0 <= q < j ==> upper(first_word(#[trigger] views[q], 0)) != upper(schemas@[i as int].name_view()),
            decreases names@.len() - j,
        {
            proof {
                assert(views[j as int] == names@[j as int]@);
            }
            if schemas[i].matches(names[j].as_str()) {
                proof {
                    assert(named_by(schemas@[i as int], views));
                }
                return Some(i);
            }
            j = j + 1;
        }
        proof {
            assert(!named_by(schemas@[i as int], views));
        }
        i = i + 1;
    }
    None
}

pub(crate) proof fn lemma_first_rec(src: Seq<u8>, recs: Seq<(Token, Seq<Token>)>, name: &str, i: int, k: int)
    requires
        0 <= i <= k < recs.len(),
        rec_named(src, recs[k], name),
        forall|j: int| 0 <= j < k ==> !#[trigger] rec_named(src, recs[j], name),
    ensures
        first_rec(src, recs, name, i) == Some(k),
    decreases k - i,
{
    if i < k {
        lemma_first_rec(src, recs, name, i + 1, k);
    }
}

pub(crate) proof fn lemma_no_rec(src: Seq<u8>, recs: Seq<(Token, Seq<Token>)>, name: &str, i: int)
    requires
        0 <= i,
        forall|j: int| 0 <= j < recs.len() ==> !#[trigger] rec_named(src, recs[j], name),
    ensures
        first_rec(src, recs, name, i) is None,
    decreases recs.len() - i,
{
    if i < recs.len() {
        lemma_no_rec(src, recs, name, i + 1);
    }
}

/// The `FILE_SCHEMA` identifiers from the header of `exchange`.
fn file_schemas(exchange: &Exchange) -> (v: Vec<String>)
    requires
        exchange.wf(),
    ensures
        v@.map_values(|s: String| s@) == file_schemas_spec(*exchange),
{
    let ghost ex = *exchange;
    let ghost src = ex.src_view();
    let ghost header = ex.header_view();
    match exchange.header_entity("FILE_SCHEMA") {
        Some(record) => {
            proof {
                let k = choose|k: int|
                    0 <= k < header.len() && record.name_token() == header[k].0 && record.params_view() == header[k].1
                        && eq_ignore_case(header[k].0.span.of(src), "FILE_SCHEMA".spec_bytes()) && forall|j: int|
                        0 <= j < k ==> !eq_ignore_case(#[trigger] header[j].0.span.of(src), "FILE_SCHEMA".spec_bytes());
                assert forall|j: int| 0 <= j < k implies !#[trigger] rec_named(src, header[j], "FILE_SCHEMA") by {}
                lemma_first_rec(src, header, "FILE_SCHEMA", 0, k);
            }
            match items_at(record, 0) {
                Some(items) => strings_in_items(exchange.source(), items),
                None => Vec::new(),
            }
        },
        None => {
            proof {
                assert forall|j: int| 0 <= j < header.len() implies !#[trigger] rec_named(src, header[j], "FILE_SCHEMA") by {
                    if rec_named(src, header[j], "FILE_SCHEMA") {
                        assert(crate::p21::exchange::names_a_record(src, header, "FILE_SCHEMA".spec_bytes()));
                    }
                }
                lemma_no_rec(src, header, "FILE_SCHEMA", 0);
            }
            let v: Vec<String> = Vec::new();
            proof {
                assert(v@.map_values(|s: String| s@) =~= Seq::<Seq<char>>::empty());
            }
            v
        },
    }
}

/// The text of `problem` without its leading `#id `.
fn problem_message(problem: &Problem) -> (s: String)
    ensures
        s@ == problem_text(problem@),
        problem.display() == "#"@ + decimal(problem.instance as nat) + " "@ + s@,
{
    let mut s = problem.entity.clone();
    match &problem.kind {
        ProblemKind::UnknownEntity => {
            s.append(": entity type is not in the schema");
        },
        ProblemKind::AttributeCount { expected, found } => {
            s.append(": expected ");
            push_decimal(&mut s, *expected as u64);
            s.append(" attribute");
            if *expected != 1 {
                s.append("s");
            }
            s.append(", found ");
            push_decimal(&mut s, *found as u64);
        },
        ProblemKind::TooFewElements { attribute, min, found } => {
            s.append(".");
            s.append(attribute.as_str());
            s.append(": needs at least ");
            push_decimal(&mut s, *min);
            s.append(" element");
            if *min != 1 {
                s.append("s");
            }
            s.append(", found ");
            push_decimal(&mut s, *found as u64);
        },
    }
    proof {
        assert(s@ =~= problem_text(problem@));
    }
    s
}

/// Appends a finding for each problem `schema` finds in `exchange`.
fn schema_findings(schema: &Schema, exchange: &Exchange, findings: &mut Vec<Finding>)
    requires
        exchange.wf(),
    ensures
        finding_views(final(findings)@) == finding_views(old(findings)@) + problem_findings(
            problems_upto(*schema, *exchange, exchange.instances_view().len() as int),
        ),
{
    let problems = check(schema, exchange);
    let ghost ps = problem_views(problems@);
    let ghost start = finding_views(findings@);
    let mut k: usize = 0;
    while k < problems.len()
        invariant
            ps == problem_views(problems@),
            k <= problems@.len(),
            finding_views(findings@) == start + problem_findings(ps.take(k as int)),
        decreases problems@.len() - k,
    {
        let problem = &problems[k];
        let check = match problem.kind {
            ProblemKind::UnknownEntity => Check::UnknownEntity,
            ProblemKind::AttributeCount { .. } => Check::AttributeCount,
            ProblemKind::TooFewElements { .. } => Check::TooFewElements,
        };
        let message = problem_message(problem);
        let ghost before = findings@;
        findings.push(finding(check, Some(problem.instance), message));
        proof {
            assert(ps[k as int] == problem@);
            assert(ps.take(k + 1).drop_last() =~= ps.take(k as int));
            assert(ps.take(k + 1).last() == problem@);
            assert(problem_check(problem@.kind) == check);
            assert(findings@.last()@ == finding_of(problem_check(problem@.kind), Some(problem@.instance), problem_text(problem@)));
            assert(problem_findings(ps.take(k + 1)) =~= problem_findings(ps.take(k as int)).push(findings@.last()@));
            assert(finding_views(findings@) =~= finding_views(before).push(findings@.last()@));
        }
        k = k + 1;
    }
    proof {
        assert(ps.take(k as int) =~= ps);
    }
}

/// Checks the parsed file `exchange`; see [`lint`].
pub fn lint_exchange(exchange: Exchange, schemas: &[Schema]) -> (r: Report)
    requires
        exchange.wf(),
    ensures
        reports(r, exchange, schemas@),
        sorted_keys(finding_views(r.findings@)),
{
    let ghost ex = exchange;
    let file_schemas = file_schemas(&exchange);
    let ghost names = file_schemas@.map_values(|s: String| s@);
    let chosen = matching_schema(schemas, &file_schemas);
    let graph = Graph::build(exchange);
    let mut findings: Vec<Finding> = Vec::new();
    let unresolved = graph.unresolved();
    let mut k: usize = 0;
    while k < unresolved.len()
        invariant
            graph.wf(),
            graph.exchange_view() == ex,
            unresolved@ == dangling(ex),
            k <= unresolved@.len(),
            finding_views(findings@) == dangling_findings(ex, unresolved@.take(k as int)),
        decreases unresolved@.len() - k,
    {
        let (node, to) = unresolved[k];
        proof {
            crate::model::graph::lemma_dangling_nodes(ex, ex.instances_view().len() as int);
            assert(unresolved@[k as int].0 < ex.instances_view().len());
        }
        let mut message = owned("references undefined instance #");
        push_decimal(&mut message, to);
        let ghost before = findings@;
        findings.push(finding(Check::DanglingReference, Some(graph.instance(node).id), message));
        proof {
            assert(unresolved@.take(k + 1).drop_last() =~= unresolved@.take(k as int));
            assert(finding_views(findings@) =~= finding_views(before).push(findings@.last()@));
        }
        k = k + 1;
    }
    proof {
        assert(unresolved@.take(k as int) =~= unresolved@);
    }
    let ghost after_dangling = finding_views(findings@);
    let checked_schema = match chosen {
        Some(c) => {
            schema_findings(&schemas[c], graph.exchange(), &mut findings);
            Some(owned(schemas[c].name()))
        },
        None => None,
    };
    structure_findings(graph.exchange(), &mut findings);
    let ghost all = finding_views(findings@);
    let findings = sort_findings(findings);
    proof {
        assert(all =~= findings_in_run_order(ex, schemas@, first_match(schemas@, names, 0)));
        lemma_findings_sorted(all);
    }
    Report { file_schemas, checked_schema, findings }
}

/// Checks the file in `src`.
///
/// Records are checked against the first of `schemas` that the header's
/// `FILE_SCHEMA` names; with no match, schema checks are skipped and
/// [`Report::checked_schema`] is `None`. A file that does not parse yields
/// a single [`Check::Syntax`] or [`Check::DuplicateId`] finding.
pub fn lint(src: &[u8], schemas: &[Schema]) -> (r: Report)
    requires
        src@.len() < usize::MAX,
    ensures
        match crate::p21::parser::file_spec(src@) {
            Ok(f) => exists|ex: Exchange|
                ex.wf() && ex.src_view() == src@ && crate::p21::parser::exchange_is(ex, f) && #[trigger] reports(
                    r,
                    ex,
                    schemas@,
                ),
            Err(pe) => r.file_schemas@.len() == 0 && r.checked_schema is None && exists|e: Error|
                crate::p21::parser::error_is(e, pe, src@) && finding_views(r.findings@) == seq![
                    #[trigger] unparsable_finding(e),
                ],
        },
{
    match crate::p21::parse(src) {
        Ok(exchange) => {
            let ghost ex = exchange;
            let r = lint_exchange(exchange, schemas);
            proof {
                assert(reports(r, ex, schemas@));
            }
            r
        },
        Err(error) => {
            let r = unparsable(&error);
            proof {
                assert(finding_views(r.findings@) == seq![unparsable_finding(error)]);
            }
            r
        },
    }
}

} // verus!
