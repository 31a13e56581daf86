//! Semantic PMI: geometric tolerances, dimensions and datums.
//!
//! This is what `stepq pmi` prints. AP242 represents product and
//! manufacturing information twice: as presentation (annotation curves and
//! text for display) and as semantics (tolerances, datums and dimensions a
//! program can act on). This module reads the semantic half from the entity
//! graph. Every value is kept as written — the source text of a measure,
//! never re-printed — and every item is tied to the product definition it
//! belongs to.
use vstd::prelude::*;
use vstd::string::*;
use crate::assemble::first_record;
use crate::info::{enum_names, lower_ascii, lower_char, option_view, records_are, upper_name};
use crate::lint::{first_rec, params_of, rec_named, references_among};
use crate::model::graph::Graph;
use crate::p21::exchange::{integer_value, Exchange, Param, Record};
use crate::p21::lexer::{Token, TokenKind};
use crate::props::{
    list_refs, param_view, ref_of, representation_items_of, starts_with_text, subject_of, text_of, value_of,
    value_views, values_of, ParamView, Subject, SubjectView, Value, ValueView,
};

verus! {

/// Everything [`pmi`] found, each list in file order.
#[derive(Debug, Clone, PartialEq, Eq)]
pub struct Pmi {
    /// Every `datum`.
    pub datums: Vec<Datum>,
    /// Every geometric tolerance.
    pub tolerances: Vec<Tolerance>,
    /// Every size and location dimension.
    pub dimensions: Vec<Dimension>,
}

/// A datum, such as `A`.
#[derive(Debug, Clone, PartialEq, Eq)]
pub struct Datum {
    /// The `#id` of the `datum`.
    pub instance: u64,
    /// `datum.identification`, the letter on the drawing.
    pub label: String,
    /// The datum itself, and the product definition it belongs to.
    pub subject: Subject,
}

/// A geometric tolerance, such as a position tolerance of 0.75 to A|B|C.
#[derive(Debug, Clone, PartialEq, Eq)]
pub struct Tolerance {
    /// The `#id` of the tolerance.
    pub instance: u64,
    /// The characteristic, lower case with spaces: `position`, `flatness`,
    /// `surface profile`, …; `geometric` if the file names none.
    pub kind: String,
    /// `geometric_tolerance.name`.
    pub name: Option<String>,
    /// `geometric_tolerance.magnitude`.
    pub magnitude: Option<Value>,
    /// The datum references, in order of precedence.
    pub datums: Vec<DatumReference>,
    /// Tolerance modifiers, lower case, such as
    /// `maximum_material_requirement`.
    pub modifiers: Vec<String>,
    /// For a tolerance per unit area or length, that unit.
    pub unit_size: Option<Value>,
    /// The toleranced shape aspect.
    pub target: Subject,
}

/// One datum in a tolerance's datum reference frame.
#[derive(Debug, Clone, PartialEq, Eq)]
pub struct DatumReference {
    /// The datum's label; a common datum's labels joined with `-`.
    pub label: String,
    /// Datum modifiers, lower case.
    pub modifiers: Vec<String>,
}

/// Whether a dimension is a size or a location.
#[derive(Debug, Clone, Copy, PartialEq, Eq, Structural)]
pub enum DimensionKind {
    /// A `dimensional_size`: the size of one feature.
    Size,
    /// A `dimensional_location`: the distance or angle between two.
    Location,
}

/// A dimension with its values and tolerance.
#[derive(Debug, Clone, PartialEq, Eq)]
pub struct Dimension {
    /// The `#id` of the dimension.
    pub instance: u64,
    /// Size or location.
    pub kind: DimensionKind,
    /// The dimension's name, such as `diameter` or `linear distance`.
    pub name: Option<String>,
    /// The values its representation gives, such as `nominal value`.
    pub values: Vec<Value>,
    /// A plus-minus tolerance's bounds, if it has one.
    pub tolerance: Option<Bounds>,
    /// The feature a size applies to, or the feature a location is measured
    /// from.
    pub target: Subject,
    /// For a location, the feature it is measured to.
    pub related: Option<Subject>,
}

/// The lower and upper bounds of a plus-minus tolerance.
#[derive(Debug, Clone, PartialEq, Eq)]
pub struct Bounds {
    /// `tolerance_value.lower_bound`.
    pub lower: Option<Value>,
    /// `tolerance_value.upper_bound`.
    pub upper: Option<Value>,
}

// ---------------------------------------------------------------------
// Views.
// ---------------------------------------------------------------------

/// The view of `o`.
pub open spec fn value_option(o: Option<Value>) -> Option<ValueView> {
    match o {
        Some(v) => Some(v@),
        None => None,
    }
}

/// The views of `v`.
pub open spec fn string_views(v: Seq<String>) -> Seq<Seq<char>> {
    v.map_values(|s: String| s@)
}

/// A [`DatumReference`] as plain values.
pub struct DatumReferenceView {
    pub label: Seq<char>,
    pub modifiers: Seq<Seq<char>>,
}

impl View for DatumReference {
    type V = DatumReferenceView;

    open spec fn view(&self) -> DatumReferenceView {
        DatumReferenceView { label: self.label@, modifiers: string_views(self.modifiers@) }
    }
}

/// The views of `v`.
pub open spec fn reference_views(v: Seq<DatumReference>) -> Seq<DatumReferenceView> {
    v.map_values(|r: DatumReference| r@)
}

/// A [`Datum`] as plain values.
pub struct DatumView {
    pub instance: u64,
    pub label: Seq<char>,
    pub subject: SubjectView,
}

impl View for Datum {
    type V = DatumView;

    open spec fn view(&self) -> DatumView {
        DatumView { instance: self.instance, label: self.label@, subject: self.subject@ }
    }
}

/// A [`Tolerance`] as plain values.
pub struct ToleranceView {
    pub instance: u64,
    pub kind: Seq<char>,
    pub name: Option<Seq<char>>,
    pub magnitude: Option<ValueView>,
    pub datums: Seq<DatumReferenceView>,
    pub modifiers: Seq<Seq<char>>,
    pub unit_size: Option<ValueView>,
    pub target: SubjectView,
}

impl View for Tolerance {
    type V = ToleranceView;

    open spec fn view(&self) -> ToleranceView {
        ToleranceView {
            instance: self.instance,
            kind: self.kind@,
            name: option_view(self.name),
            magnitude: value_option(self.magnitude),
            datums: reference_views(self.datums@),
            modifiers: string_views(self.modifiers@),
            unit_size: value_option(self.unit_size),
            target: self.target@,
        }
    }
}

/// [`Bounds`] as plain values.
pub struct BoundsView {
    pub lower: Option<ValueView>,
    pub upper: Option<ValueView>,
}

impl View for Bounds {
    type V = BoundsView;

    open spec fn view(&self) -> BoundsView {
        BoundsView { lower: value_option(self.lower), upper: value_option(self.upper) }
    }
}

/// A [`Dimension`] as plain values.
pub struct DimensionView {
    pub instance: u64,
    pub kind: DimensionKind,
    pub name: Option<Seq<char>>,
    pub values: Seq<ValueView>,
    pub tolerance: Option<BoundsView>,
    pub target: SubjectView,
    pub related: Option<SubjectView>,
}

impl View for Dimension {
    type V = DimensionView;

    open spec fn view(&self) -> DimensionView {
        DimensionView {
            instance: self.instance,
            kind: self.kind,
            name: option_view(self.name),
            values: value_views(self.values@),
            tolerance: match self.tolerance {
                Some(b) => Some(b@),
                None => None,
            },
            target: self.target@,
            related: match self.related {
                Some(s) => Some(s@),
                None => None,
            },
        }
    }
}

// ---------------------------------------------------------------------
// Entity type lists.
// ---------------------------------------------------------------------

/// The characteristic subtypes of `geometric_tolerance`, which a simple
/// instance names directly.
pub open spec fn tolerance_kind(i: int) -> Seq<char> {
    if i == 0 {
        "ANGULARITY_TOLERANCE"@
    } else if i == 1 {
        "CIRCULAR_RUNOUT_TOLERANCE"@
    } else if i == 2 {
        "COAXIALITY_TOLERANCE"@
    } else if i == 3 {
        "CONCENTRICITY_TOLERANCE"@
    } else if i == 4 {
        "CYLINDRICITY_TOLERANCE"@
    } else if i == 5 {
        "FLATNESS_TOLERANCE"@
    } else if i == 6 {
        "LINE_PROFILE_TOLERANCE"@
    } else if i == 7 {
        "PARALLELISM_TOLERANCE"@
    } else if i == 8 {
        "PERPENDICULARITY_TOLERANCE"@
    } else if i == 9 {
        "POSITION_TOLERANCE"@
    } else if i == 10 {
        "ROUNDNESS_TOLERANCE"@
    } else if i == 11 {
        "STRAIGHTNESS_TOLERANCE"@
    } else if i == 12 {
        "SURFACE_PROFILE_TOLERANCE"@
    } else if i == 13 {
        "SYMMETRY_TOLERANCE"@
    } else {
        "TOTAL_RUNOUT_TOLERANCE"@
    }
}

/// The number of characteristic subtypes.
pub const TOLERANCE_KIND_COUNT: usize = 15;

/// The subtypes of `geometric_tolerance_with_datum_reference`; a simple
/// instance of one keeps its datum system as attribute 4.
pub open spec fn with_datums(i: int) -> Seq<char> {
    if i == 0 {
        "ANGULARITY_TOLERANCE"@
    } else if i == 1 {
        "CIRCULAR_RUNOUT_TOLERANCE"@
    } else if i == 2 {
        "COAXIALITY_TOLERANCE"@
    } else if i == 3 {
        "CONCENTRICITY_TOLERANCE"@
    } else if i == 4 {
        "PARALLELISM_TOLERANCE"@
    } else if i == 5 {
        "PERPENDICULARITY_TOLERANCE"@
    } else if i == 6 {
        "SYMMETRY_TOLERANCE"@
    } else {
        "TOTAL_RUNOUT_TOLERANCE"@
    }
}

/// The number of subtypes with datums.
pub const WITH_DATUMS_COUNT: usize = 8;

/// The size dimensions.
pub open spec fn size_kind(i: int) -> Seq<char> {
    if i == 0 {
        "DIMENSIONAL_SIZE"@
    } else if i == 1 {
        "ANGULAR_SIZE"@
    } else {
        "DIMENSIONAL_SIZE_WITH_PATH"@
    }
}

/// The location dimensions.
pub open spec fn location_kind(i: int) -> Seq<char> {
    if i == 0 {
        "DIMENSIONAL_LOCATION"@
    } else if i == 1 {
        "ANGULAR_LOCATION"@
    } else {
        "DIMENSIONAL_LOCATION_WITH_PATH"@
    }
}

/// The number of size, and of location, dimension types.
pub const DIMENSION_KIND_COUNT: usize = 3;

/// One of the lists of entity types above.
pub enum KindList {
    /// The characteristic subtypes of `geometric_tolerance`.
    Tolerance,
    /// The subtypes that keep a datum system as attribute 4.
    WithDatums,
    /// The size dimensions.
    Size,
    /// The location dimensions.
    Location,
}

/// The length of `list`.
pub open spec fn list_len(list: KindList) -> int {
    match list {
        KindList::Tolerance => TOLERANCE_KIND_COUNT as int,
        KindList::WithDatums => WITH_DATUMS_COUNT as int,
        _ => DIMENSION_KIND_COUNT as int,
    }
}

/// Entry `j` of `list`.
pub open spec fn list_entry(list: KindList, j: int) -> Seq<char> {
    match list {
        KindList::Tolerance => tolerance_kind(j),
        KindList::WithDatums => with_datums(j),
        KindList::Size => size_kind(j),
        KindList::Location => location_kind(j),
    }
}

/// True if `n` is on `list`.
pub open spec fn on_list(list: KindList, n: Seq<char>) -> bool {
    exists|j: int| 0 <= j < list_len(list) && n == #[trigger] list_entry(list, j)
}

/// True if `n` is a characteristic subtype of `geometric_tolerance`.
pub open spec fn is_tolerance_kind(n: Seq<char>) -> bool {
    on_list(KindList::Tolerance, n)
}

/// True if `n` keeps its datum system as attribute 4.
pub open spec fn is_with_datums(n: Seq<char>) -> bool {
    on_list(KindList::WithDatums, n)
}

/// True if `n` is a size dimension.
pub open spec fn is_size(n: Seq<char>) -> bool {
    on_list(KindList::Size, n)
}

/// True if `n` is a location dimension.
pub open spec fn is_location(n: Seq<char>) -> bool {
    on_list(KindList::Location, n)
}

/// The characteristic a tolerance subtype `n` names: `n` without
/// `_TOLERANCE`, lower case, with spaces for underscores.
pub open spec fn characteristic(n: Seq<char>) -> Seq<char> {
    Seq::new((n.len() - 10) as nat, |i: int| if n[i] == '_' { ' ' } else { lower_char(n[i]) })
}

// ---------------------------------------------------------------------
// Datum references.
// ---------------------------------------------------------------------

/// The enumeration values in list parameter `pv`, lower case.
pub open spec fn enumerations_of(src: Seq<u8>, pv: Option<ParamView>) -> Seq<Seq<char>> {
    match pv {
        Some(ParamView::List(items)) => enum_names(src, params_of(items)).map_values(|n: Seq<char>| lower_ascii(n)),
        _ => Seq::empty(),
    }
}

/// The first record of instance `#id`, if the file defines it and it has
/// one.
pub open spec fn first_record_of(ex: Exchange, id: u64) -> Option<(Token, Seq<Token>)> {
    if ex.index_view().contains_key(id) {
        let recs = ex.records_view(ex.instances_view()[ex.index_view()[id] as int]);
        if recs.len() > 0 {
            Some(recs[0])
        } else {
            None
        }
    } else {
        None
    }
}

/// The label of datum `#id`: its `identification`, attribute 4.
pub open spec fn datum_label_of(ex: Exchange, id: u64) -> Option<Seq<char>> {
    match first_record_of(ex, id) {
        Some(r) => if rec_named(ex.src_view(), r, "DATUM") {
            text_of(ex.src_view(), param_view(r.1, 4))
        } else {
            None
        },
        None => None,
    }
}

/// `labels` joined with `-`.
pub open spec fn joined_labels(labels: Seq<Seq<char>>) -> Seq<char>
    decreases labels.len(),
{
    if labels.len() == 0 {
        Seq::empty()
    } else if labels.len() == 1 {
        labels[0]
    } else {
        joined_labels(labels.drop_last()) + "-"@ + labels.last()
    }
}

/// The datum reference that the compartment or element `#id` makes: its
/// base datum (or a common datum's labels joined with `-`) and modifiers.
/// Common datums are followed at most `fuel` deep.
pub open spec fn compartment_of(ex: Exchange, id: u64, fuel: nat) -> Option<DatumReferenceView>
    decreases fuel, 0nat,
{
    if fuel == 0 {
        None
    } else {
        let src = ex.src_view();
        match first_record_of(ex, id) {
            Some(r) => if !starts_with_text(upper_name(r.0.span.of(src)), "DATUM_REFERENCE_"@) {
                None
            } else {
                match param_view(r.1, 4) {
                    Some(base) => {
                        let label = match base {
                            ParamView::List(items) => Some(
                                joined_labels(element_labels(ex, references_among(params_of(items)), (fuel - 1) as nat)),
                            ),
                            ParamView::Reference(d) => datum_label_of(ex, d),
                            _ => None,
                        };
                        match label {
                            Some(l) => Some(DatumReferenceView { label: l, modifiers: enumerations_of(src, param_view(r.1, 5)) }),
                            None => None,
                        }
                    },
                    None => None,
                }
            },
            None => None,
        }
    }
}

/// The labels of the elements `ids` of a common datum that make datum
/// references, in order.
pub open spec fn element_labels(ex: Exchange, ids: Seq<u64>, fuel: nat) -> Seq<Seq<char>>
    decreases fuel, ids.len() + 1,
{
    if ids.len() == 0 {
        Seq::empty()
    } else {
        element_labels(ex, ids.drop_last(), fuel) + match compartment_of(ex, ids.last(), fuel) {
            Some(e) => seq![e.label],
            None => Seq::empty(),
        }
    }
}

/// The datum references the compartments `ids` make, in order.
pub open spec fn compartments_of(ex: Exchange, ids: Seq<u64>, fuel: nat) -> Seq<DatumReferenceView>
    decreases ids.len(),
{
    if ids.len() == 0 {
        Seq::empty()
    } else {
        compartments_of(ex, ids.drop_last(), fuel) + match compartment_of(ex, ids.last(), fuel) {
            Some(e) => seq![e],
            None => Seq::empty(),
        }
    }
}

/// The precedence a `datum_reference` gives as attribute 0; the largest
/// `i64` if it gives none.
pub open spec fn precedence_of(src: Seq<u8>, pv: Option<ParamView>) -> int {
    match pv {
        Some(ParamView::Literal(t)) => if t.kind == TokenKind::Integer {
            match integer_value(t.span.of(src)) {
                Some(v) => if i64::MIN <= v <= i64::MAX {
                    v
                } else {
                    i64::MAX as int
                },
                None => i64::MAX as int,
            }
        } else {
            i64::MAX as int
        },
        _ => i64::MAX as int,
    }
}

/// The references found so far after looking at `#id`: those made
/// directly, in order, and older files' `datum_reference`s with their
/// precedence.
pub open spec fn reference_step(
    ex: Exchange,
    id: u64,
    fuel: nat,
    direct: Seq<DatumReferenceView>,
    ranked: Seq<(int, DatumReferenceView)>,
) -> (Seq<DatumReferenceView>, Seq<(int, DatumReferenceView)>) {
    let src = ex.src_view();
    match first_record_of(ex, id) {
        Some(r) => if rec_named(src, r, "DATUM_SYSTEM") {
            (direct + compartments_of(ex, list_refs(param_view(r.1, 4)), fuel), ranked)
        } else if rec_named(src, r, "DATUM_REFERENCE") {
            match ref_of(param_view(r.1, 1)) {
                Some(d) => match datum_label_of(ex, d) {
                    Some(label) => (
                        direct,
                        ranked.push((precedence_of(src, param_view(r.1, 0)), DatumReferenceView { label, modifiers: Seq::empty() })),
                    ),
                    None => (direct, ranked),
                },
                None => (direct, ranked),
            }
        } else {
            match compartment_of(ex, id, fuel) {
                Some(e) => (direct.push(e), ranked),
                None => (direct, ranked),
            }
        },
        None => (direct, ranked),
    }
}

/// The references after looking at each of `ids` in turn.
pub open spec fn references_fold(ex: Exchange, ids: Seq<u64>, fuel: nat) -> (Seq<DatumReferenceView>, Seq<(int, DatumReferenceView)>)
    decreases ids.len(),
{
    if ids.len() == 0 {
        (Seq::empty(), Seq::empty())
    } else {
        let (d, r) = references_fold(ex, ids.drop_last(), fuel);
        reference_step(ex, ids.last(), fuel, d, r)
    }
}

/// `x` inserted into `s` after the last entry whose precedence is no
/// larger.
pub open spec fn insert_ranked(s: Seq<(int, DatumReferenceView)>, x: (int, DatumReferenceView)) -> Seq<(int, DatumReferenceView)>
    decreases s.len(),
{
    if s.len() == 0 {
        seq![x]
    } else if s.last().0 <= x.0 {
        s.push(x)
    } else {
        insert_ranked(s.drop_last(), x).push(s.last())
    }
}

/// `s` stably sorted by precedence.
pub open spec fn by_precedence(s: Seq<(int, DatumReferenceView)>) -> Seq<(int, DatumReferenceView)>
    decreases s.len(),
{
    if s.len() == 0 {
        s
    } else {
        insert_ranked(by_precedence(s.drop_last()), s.last())
    }
}

/// A tolerance's datum references, from the datum system list `pv`:
/// through a `datum_system`'s compartments, or older files'
/// `datum_reference`s ordered by precedence, after the others.
pub open spec fn datum_references_of(ex: Exchange, pv: Option<ParamView>, fuel: nat) -> Seq<DatumReferenceView> {
    let (direct, ranked) = references_fold(ex, list_refs(pv), fuel);
    direct + by_precedence(ranked).map_values(|p: (int, DatumReferenceView)| p.1)
}

/// The enumeration values in list parameter `index` of `record`, lower
/// case.
fn enumerations_at(src: &[u8], record: Record, index: usize) -> (v: Vec<String>)
    requires
        record.wf(),
        record.src_view() == src@,
    ensures
        string_views(v@) == enumerations_of(src@, param_view(record.params_view(), index as nat)),
{
    let items = match crate::props::param_at(record, index) {
        Some(p) => match p.list() {
            Some(items) => items,
            None => {
                let v: Vec<String> = Vec::new();
                proof {
                    assert(string_views(v@) =~= Seq::<Seq<char>>::empty());
                }
                return v;
            },
        },
        None => {
            let v: Vec<String> = Vec::new();
            proof {
                assert(string_views(v@) =~= Seq::<Seq<char>>::empty());
            }
            return v;
        },
    };
    let ghost all = items.tokens_view();
    let mut ps = items;
    let ghost mut seen: Seq<Seq<Token>> = Seq::empty();
    let mut out: Vec<String> = Vec::new();
    proof {
        assert(string_views(out@) =~= enum_names(src@, seen).map_values(|n: Seq<char>| lower_ascii(n)));
    }
    loop
        invariant
            ps.wf(),
            ps.src_view() == src@,
            all == items.tokens_view(),
            param_view(record.params_view(), index as nat) == Some(ParamView::List(all)),
            params_of(all) == seen + params_of(ps.tokens_view()),
            string_views(out@) == enum_names(src@, seen).map_values(|n: Seq<char>| lower_ascii(n)),
        decreases ps.tokens_view().len(),
    {
        let ghost ts = ps.tokens_view();
        proof {
            crate::p21::exchange::lemma_skip_separators(ts, 0);
        }
        match ps.next_tokens() {
            None => {
                proof {
                    assert(params_of(ts) =~= Seq::<Seq<Token>>::empty());
                    assert(seen + params_of(ts) =~= seen);
                }
                return out;
            },
            Some(pt) => {
                let ghost before = seen;
                let ghost out_before = out@;
                proof {
                    let k = crate::p21::exchange::skip_separators(ts, 0);
                    crate::p21::exchange::lemma_after_param(ts, k);
                    assert(params_of(ts) == seq![pt@] + params_of(ps.tokens_view()));
                    assert(seen + params_of(ts) =~= seen.push(pt@) + params_of(ps.tokens_view()));
                    assert(seen.push(pt@).drop_last() =~= seen);
                    seen = seen.push(pt@);
                    assert forall|q: int| 0 <= q < pt@.len() implies crate::p21::exchange::genuine(
                        src@,
                        #[trigger] pt@[q],
                    ) by {
                        assert(pt@[q] == ts[k + q]);
                    }
                }
                let mut name = String::new();
                let found = crate::info::push_enum_name(src, pt, &mut name);
                if found {
                    out.push(name);
                }
                proof {
                    match crate::info::enum_name(src@, pt@) {
                        Some(n) => {
                            assert(enum_names(src@, seen) == enum_names(src@, before).push(n));
                            assert(name@ =~= lower_ascii(n));
                            assert(string_views(out@) =~= string_views(out_before).push(name@));
                            assert(enum_names(src@, seen).map_values(|n: Seq<char>| lower_ascii(n)) =~= enum_names(
                                src@,
                                before,
                            ).map_values(|n: Seq<char>| lower_ascii(n)).push(lower_ascii(n)));
                        },
                        None => {
                            assert(enum_names(src@, seen) =~= enum_names(src@, before));
                        },
                    }
                }
            },
        }
    }
}

/// The first record of instance `#id`.
fn first_record_exec<'e>(exchange: &'e Exchange, id: u64) -> (r: Option<Record<'e>>)
    requires
        exchange.wf(),
    ensures
        match first_record_of(*exchange, id) {
            Some(rec) => r matches Some(v) && v.wf() && v.src_view() == exchange.src_view() && v.name_token() == rec.0
                && v.params_view() == rec.1,
            None => r is None,
        },
{
    match exchange.get(id) {
        Some(instance) => {
            let mut records = exchange.records(instance);
            records.next()
        },
        None => None,
    }
}

/// The label of datum `#id`.
fn datum_label(exchange: &Exchange, id: u64) -> (r: Option<String>)
    requires
        exchange.wf(),
    ensures
        option_view(r) == datum_label_of(*exchange, id),
{
    match first_record_exec(exchange, id) {
        Some(record) => if record.is("DATUM") {
            crate::props::text_at(record, 4)
        } else {
            None
        },
        None => None,
    }
}

/// True if the record named `name` is a datum reference compartment or
/// element.
fn is_compartment(name: &[u8]) -> (b: bool)
    ensures
        b == starts_with_text(upper_name(name@), "DATUM_REFERENCE_"@),
{
    let upper = crate::info::upper_name_of(name);
    let s = upper.as_str();
    proof {
        reveal_strlit("DATUM_REFERENCE_");
    }
    16 <= s.unicode_len() && crate::props::occurs_at(s, "DATUM_REFERENCE_", 0)
}

/// The datum reference that the compartment or element `#id` makes,
/// following common datums at most `fuel` deep.
fn compartment_reference(exchange: &Exchange, id: u64, fuel: usize) -> (r: Option<DatumReference>)
    requires
        exchange.wf(),
    ensures
        match compartment_of(*exchange, id, fuel as nat) {
            Some(v) => r matches Some(x) && x@ == v,
            None => r is None,
        },
    decreases fuel, 0nat,
{
    if fuel == 0 {
        return None;
    }
    let record = match first_record_exec(exchange, id) {
        Some(r) => r,
        None => {
            return None;
        },
    };
    if !is_compartment(record.name()) {
        return None;
    }
    let base = match crate::props::param_at(record, 4) {
        Some(p) => p,
        None => {
            return None;
        },
    };
    let label = match base {
        Param::List(_) => {
            let ids = crate::props::list_refs_at(record, 4);
            Some(element_label(exchange, &ids, fuel - 1))
        },
        Param::Reference(d) => datum_label(exchange, d),
        _ => None,
    };
    match label {
        Some(l) => {
            let modifiers = enumerations_at(exchange.source(), record, 5);
            Some(DatumReference { label: l, modifiers })
        },
        None => None,
    }
}

/// The labels of the elements `ids` of a common datum, joined with `-`.
fn element_label(exchange: &Exchange, ids: &Vec<u64>, fuel: usize) -> (s: String)
    requires
        exchange.wf(),
    ensures
        s@ == joined_labels(element_labels(*exchange, ids@, fuel as nat)),
    decreases fuel, 1nat,
{
    let mut out = String::new();
    let ghost mut labels: Seq<Seq<char>> = Seq::empty();
    let mut any = false;
    let mut k: usize = 0;
    while k < ids.len()
        invariant
            exchange.wf(),
            k <= ids@.len(),
            any == (labels.len() > 0),
            labels == element_labels(*exchange, ids@.take(k as int), fuel as nat),
            out@ == joined_labels(labels),
        decreases ids@.len() - k,
    {
        proof {
            assert(ids@.take(k + 1).drop_last() =~= ids@.take(k as int));
            assert(ids@.take(k + 1).last() == ids@[k as int]);
        }
        match compartment_reference(exchange, ids[k], fuel) {
            Some(e) => {
                if any {
                    out.append("-");
                }
                out.append(e.label.as_str());
                any = true;
                proof {
                    let before = labels;
                    labels = labels.push(e.label@);
                    assert(labels.drop_last() =~= before);
                    assert(out@ =~= joined_labels(labels));
                }
            },
            None => {},
        }
        k = k + 1;
    }
    proof {
        assert(ids@.take(k as int) =~= ids@);
    }
    out
}

/// The precedence attribute 0 of `record` gives.
fn precedence_at(record: Record) -> (v: i64)
    requires
        record.wf(),
    ensures
        v as int == precedence_of(record.src_view(), param_view(record.params_view(), 0)),
{
    match crate::props::param_at(record, 0) {
        Some(p) => match p.literal() {
            Some(l) => match l.to_i64() {
                Some(v) => v,
                None => i64::MAX,
            },
            None => i64::MAX,
        },
        None => i64::MAX,
    }
}

/// The views of `v`.
pub open spec fn ranked_views(v: Seq<(i64, DatumReference)>) -> Seq<(int, DatumReferenceView)> {
    v.map_values(|p: (i64, DatumReference)| (p.0 as int, p.1@))
}

proof fn lemma_insert_ranked_at(s: Seq<(int, DatumReferenceView)>, x: (int, DatumReferenceView), p: int)
    requires
        0 <= p <= s.len(),
        forall|j: int| p <= j < s.len() ==> (#[trigger] s[j]).0 > x.0,
        p > 0 ==> s[p - 1].0 <= x.0,
    ensures
        insert_ranked(s, x) == s.take(p).push(x) + s.skip(p),
    decreases s.len(),
{
    if s.len() == p {
        assert(s.take(p) =~= s);
        assert(s.skip(p) =~= Seq::<(int, DatumReferenceView)>::empty());
        if s.len() == 0 {
            assert(seq![x] =~= s.take(p).push(x) + s.skip(p));
        } else {
            assert(s.push(x) =~= s.take(p).push(x) + s.skip(p));
        }
    } else {
        let t = s.drop_last();
        assert(s[s.len() - 1].0 > x.0);
        assert forall|j: int| p <= j < t.len() implies (#[trigger] t[j]).0 > x.0 by {
            assert(t[j] == s[j]);
        }
        lemma_insert_ranked_at(t, x, p);
        assert(t.take(p) =~= s.take(p));
        assert((t.take(p).push(x) + t.skip(p)).push(s.last()) =~= s.take(p).push(x) + s.skip(p));
    }
}

/// Appends the references of `ranked`, stably sorted by precedence, to
/// `out`.
fn push_by_precedence(ranked: Vec<(i64, DatumReference)>, out: &mut Vec<DatumReference>)
    ensures
        reference_views(final(out)@) == reference_views(old(out)@) + by_precedence(ranked_views(ranked@)).map_values(
            |p: (int, DatumReferenceView)| p.1,
        ),
{
    let ghost all = ranked_views(ranked@);
    let mut rest = ranked;
    let mut reversed: Vec<(i64, DatumReference)> = Vec::new();
    while rest.len() > 0
        invariant
            rest@.len() + reversed@.len() == all.len(),
            forall|i: int| 0 <= i < rest@.len() ==> ((#[trigger] rest@[i]).0 as int, rest@[i].1@) == all[i],
            forall|i: int|
                0 <= i < reversed@.len() ==> ((#[trigger] reversed@[i]).0 as int, reversed@[i].1@) == all[all.len() - 1 - i],
        decreases rest@.len(),
    {
        match rest.pop() {
            Some(f) => {
                reversed.push(f);
            },
            None => {},
        }
    }
    let mut sorted: Vec<(i64, DatumReference)> = Vec::new();
    proof {
        assert(all.take(0) =~= Seq::<(int, DatumReferenceView)>::empty());
        assert(ranked_views(sorted@) =~= by_precedence(all.take(0)));
    }
    while reversed.len() > 0
        invariant
            reversed@.len() <= all.len(),
            forall|i: int|
                0 <= i < reversed@.len() ==> ((#[trigger] reversed@[i]).0 as int, reversed@[i].1@) == all[all.len() - 1 - i],
            ranked_views(sorted@) == by_precedence(all.take(all.len() - reversed@.len())),
        decreases reversed@.len(),
    {
        let ghost k = all.len() - reversed@.len();
        let ghost last = reversed@.len() - 1;
        proof {
            assert((reversed@[last].0 as int, reversed@[last].1@) == all[k]);
        }
        match reversed.pop() {
            Some(f) => {
                let ghost x = (f.0 as int, f.1@);
                let ghost sv = ranked_views(sorted@);
                let mut p: usize = sorted.len();
                while p > 0 && sorted[p - 1].0 > f.0
                    invariant
                        p <= sorted@.len(),
                        sv == ranked_views(sorted@),
                        x == (f.0 as int, f.1@),
                        forall|j: int| p <= j < sorted@.len() ==> (#[trigger] sorted@[j]).0 > f.0,
                    decreases p,
                {
                    p = p - 1;
                }
                proof {
                    assert forall|j: int| p <= j < sv.len() implies (#[trigger] sv[j]).0 > x.0 by {
                        assert(sv[j] == (sorted@[j].0 as int, sorted@[j].1@));
                    }
                    if p > 0 {
                        assert(sv[p - 1] == (sorted@[p - 1].0 as int, sorted@[p - 1].1@));
                    }
                    lemma_insert_ranked_at(sv, x, p as int);
                    assert(all.take(k + 1).drop_last() =~= all.take(k));
                    assert(all.take(k + 1).last() == all[k]);
                }
                sorted.insert(p, f);
                proof {
                    assert(ranked_views(sorted@) =~= sv.take(p as int).push(x) + sv.skip(p as int));
                }
            },
            None => {},
        }
    }
    proof {
        assert(all.take(all.len() as int) =~= all);
    }
    let ghost sorted_views = ranked_views(sorted@);
    let mut back: Vec<(i64, DatumReference)> = Vec::new();
    while sorted.len() > 0
        invariant
            sorted@.len() + back@.len() == sorted_views.len(),
            forall|i: int|
                0 <= i < sorted@.len() ==> ((#[trigger] sorted@[i]).0 as int, sorted@[i].1@) == sorted_views[i],
            forall|i: int|
                0 <= i < back@.len() ==> ((#[trigger] back@[i]).0 as int, back@[i].1@) == sorted_views[sorted_views.len() - 1
                    - i],
        decreases sorted@.len(),
    {
        match sorted.pop() {
            Some(f) => {
                back.push(f);
            },
            None => {},
        }
    }
    let ghost start = reference_views(out@);
    let ghost tail = sorted_views.map_values(|p: (int, DatumReferenceView)| p.1);
    proof {
        assert(tail.take(0) =~= Seq::<DatumReferenceView>::empty());
        assert(reference_views(out@) =~= start + tail.take(0));
    }
    while back.len() > 0
        invariant
            back@.len() <= sorted_views.len(),
            tail == sorted_views.map_values(|p: (int, DatumReferenceView)| p.1),
            forall|i: int|
                0 <= i < back@.len() ==> ((#[trigger] back@[i]).0 as int, back@[i].1@) == sorted_views[sorted_views.len() - 1
                    - i],
            reference_views(out@) == start + tail.take(sorted_views.len() - back@.len()),
        decreases back@.len(),
    {
        let ghost k = sorted_views.len() - back@.len();
        let ghost last = back@.len() - 1;
        proof {
            assert(back@[last].1@ == sorted_views[k].1);
        }
        match back.pop() {
            Some(f) => {
                let ghost before = out@;
                out.push(f.1);
                proof {
                    assert(tail.take(k + 1) =~= tail.take(k).push(tail[k]));
                    assert(reference_views(out@) =~= reference_views(before).push(out@.last()@));
                }
            },
            None => {},
        }
    }
    proof {
        assert(tail.take(sorted_views.len() as int) =~= tail);
    }
}

/// Appends the datum references the compartments `ids` make.
fn push_compartments(exchange: &Exchange, ids: &Vec<u64>, fuel: usize, out: &mut Vec<DatumReference>)
    requires
        exchange.wf(),
    ensures
        reference_views(final(out)@) == reference_views(old(out)@) + compartments_of(*exchange, ids@, fuel as nat),
{
    let ghost start = reference_views(out@);
    let mut j: usize = 0;
    while j < ids.len()
        invariant
            exchange.wf(),
            j <= ids@.len(),
            reference_views(out@) == start + compartments_of(*exchange, ids@.take(j as int), fuel as nat),
        decreases ids@.len() - j,
    {
        proof {
            assert(ids@.take(j + 1).drop_last() =~= ids@.take(j as int));
            assert(ids@.take(j + 1).last() == ids@[j as int]);
        }
        let ghost before = out@;
        match compartment_reference(exchange, ids[j], fuel) {
            Some(e) => {
                out.push(e);
                proof {
                    assert(reference_views(out@) =~= reference_views(before).push(out@.last()@));
                }
            },
            None => {},
        }
        proof {
            assert(reference_views(out@) =~= start + compartments_of(*exchange, ids@.take(j + 1), fuel as nat));
        }
        j = j + 1;
    }
    proof {
        assert(ids@.take(j as int) =~= ids@);
    }
}

/// A tolerance's datum references, from the datum system list parameter
/// `index` of `record`.
fn datum_references(exchange: &Exchange, record: Record, index: usize, fuel: usize) -> (v: Vec<DatumReference>)
    requires
        exchange.wf(),
        record.wf(),
        record.src_view() == exchange.src_view(),
    ensures
        reference_views(v@) == datum_references_of(*exchange, param_view(record.params_view(), index as nat), fuel as nat),
{
    let ghost ex = *exchange;
    let ids = crate::props::list_refs_at(record, index);
    let mut direct: Vec<DatumReference> = Vec::new();
    let mut ranked: Vec<(i64, DatumReference)> = Vec::new();
    let mut k: usize = 0;
    proof {
        assert(reference_views(direct@) =~= Seq::<DatumReferenceView>::empty());
        assert(ranked_views(ranked@) =~= Seq::<(int, DatumReferenceView)>::empty());
    }
    while k < ids.len()
        invariant
            ex == *exchange,
            ex.wf(),
            k <= ids@.len(),
            (reference_views(direct@), ranked_views(ranked@)) == references_fold(ex, ids@.take(k as int), fuel as nat),
        decreases ids@.len() - k,
    {
        let id = ids[k];
        proof {
            assert(ids@.take(k + 1).drop_last() =~= ids@.take(k as int));
            assert(ids@.take(k + 1).last() == id);
        }
        match first_record_exec(exchange, id) {
            Some(r) => {
                if r.is("DATUM_SYSTEM") {
                    let comps = crate::props::list_refs_at(r, 4);
                    push_compartments(exchange, &comps, fuel, &mut direct);
                } else if r.is("DATUM_REFERENCE") {
                    match crate::props::ref_at(r, 1) {
                        Some(d) => match datum_label(exchange, d) {
                            Some(label) => {
                                let precedence = precedence_at(r);
                                let ghost before = ranked@;
                                ranked.push((precedence, DatumReference { label, modifiers: Vec::new() }));
                                proof {
                                    assert(string_views(ranked@.last().1.modifiers@) =~= Seq::<Seq<char>>::empty());
                                    assert(ranked_views(ranked@) =~= ranked_views(before).push(
                                        (ranked@.last().0 as int, ranked@.last().1@),
                                    ));
                                }
                            },
                            None => {},
                        },
                        None => {},
                    }
                } else {
                    let ghost before = direct@;
                    match compartment_reference(exchange, id, fuel) {
                        Some(e) => {
                            direct.push(e);
                            proof {
                                assert(reference_views(direct@) =~= reference_views(before).push(direct@.last()@));
                            }
                        },
                        None => {},
                    }
                }
            },
            None => {},
        }
        k = k + 1;
    }
    proof {
        assert(ids@.take(k as int) =~= ids@);
    }
    push_by_precedence(ranked, &mut direct);
    direct
}

// ---------------------------------------------------------------------
// Dimensions.
// ---------------------------------------------------------------------

/// Bound `k` of a `tolerance_value` with parameters `params`.
pub open spec fn bound_of(ex: Exchange, params: Seq<Token>, k: nat) -> Option<ValueView> {
    match ref_of(param_view(params, k)) {
        Some(b) => value_of(ex, b),
        None => None,
    }
}

/// The parameters of the `tolerance_value` that `pv` refers to.
pub open spec fn tolerance_range(ex: Exchange, pv: Option<ParamView>) -> Option<Seq<Token>> {
    match ref_of(pv) {
        Some(id) => match first_record_of(ex, id) {
            Some(r) => if rec_named(ex.src_view(), r, "TOLERANCE_VALUE") {
                Some(r.1)
            } else {
                None
            },
            None => None,
        },
        None => None,
    }
}

/// The values and tolerance found so far after looking at `user`, a node
/// that refers to the dimension `#id`.
pub open spec fn dimension_step(g: Graph, id: u64, user: usize, values: Seq<ValueView>, tol: Option<BoundsView>) -> (Seq<ValueView>, Option<BoundsView>) {
    let ex = g.exchange_view();
    let src = ex.src_view();
    match first_record(g, user as int) {
        Some(r) => if rec_named(src, r, "DIMENSIONAL_CHARACTERISTIC_REPRESENTATION") && ref_of(param_view(r.1, 0)) == Some(id) {
            let items = match ref_of(param_view(r.1, 1)) {
                Some(rep) => representation_items_of(ex, rep),
                None => Seq::empty(),
            };
            (values + values_of(ex, items), tol)
        } else if rec_named(src, r, "PLUS_MINUS_TOLERANCE") && ref_of(param_view(r.1, 1)) == Some(id) {
            match tolerance_range(ex, param_view(r.1, 0)) {
                Some(range) => (values, Some(BoundsView { lower: bound_of(ex, range, 0), upper: bound_of(ex, range, 1) })),
                None => (values, tol),
            }
        } else {
            (values, tol)
        },
        None => (values, tol),
    }
}

/// The values and tolerance after looking at each of `users` in turn.
pub open spec fn dimension_fold(g: Graph, id: u64, users: Seq<usize>) -> (Seq<ValueView>, Option<BoundsView>)
    decreases users.len(),
{
    if users.len() == 0 {
        (Seq::empty(), None)
    } else {
        let (v, t) = dimension_fold(g, id, users.drop_last());
        dimension_step(g, id, users.last(), v, t)
    }
}

/// The view of `o`.
pub open spec fn bounds_option(o: Option<Bounds>) -> Option<BoundsView> {
    match o {
        Some(b) => Some(b@),
        None => None,
    }
}

/// Bound `k` of the `tolerance_value` record `range`.
fn bound_at(exchange: &Exchange, range: Record, k: usize) -> (r: Option<Value>)
    requires
        exchange.wf(),
        range.wf(),
    ensures
        value_option(r) == bound_of(*exchange, range.params_view(), k as nat),
{
    match crate::props::ref_at(range, k) {
        Some(b) => crate::props::value(exchange, b),
        None => None,
    }
}

/// A dimension's values, from the `shape_dimension_representation` its
/// `dimensional_characteristic_representation` names, and its plus-minus
/// tolerance, from a `plus_minus_tolerance` whose range is a
/// `tolerance_value`.
fn dimension_values(graph: &Graph, node: usize, id: u64) -> (r: (Vec<Value>, Option<Bounds>))
    requires
        graph.wf(),
        node < graph.exchange_view().instances_view().len(),
    ensures
        (value_views(r.0@), bounds_option(r.1)) == dimension_fold(*graph, id, graph.backward_view()[node as int]),
{
    let ghost g = *graph;
    let exchange = graph.exchange();
    let users = graph.referenced_by(node);
    proof {
        crate::assemble::lemma_neighbours_are_nodes(g, node as int);
    }
    let mut values: Vec<Value> = Vec::new();
    let mut tolerance: Option<Bounds> = None;
    let mut j: usize = 0;
    proof {
        assert(value_views(values@) =~= Seq::<ValueView>::empty());
    }
    while j < users.len()
        invariant
            graph.wf(),
            g == *graph,
            *exchange == g.exchange_view(),
            crate::assemble::nodes_of(g, users@),
            j <= users@.len(),
            (value_views(values@), bounds_option(tolerance)) == dimension_fold(g, id, users@.take(j as int)),
        decreases users@.len() - j,
    {
        let user = users[j];
        proof {
            assert(users@.take(j + 1).drop_last() =~= users@.take(j as int));
            assert(users@.take(j + 1).last() == user);
            assert(user < g.exchange_view().instances_view().len());
        }
        match crate::assemble::first_of(graph, user) {
            Some(record) => {
                if record.is("DIMENSIONAL_CHARACTERISTIC_REPRESENTATION") && crate::props::ref_at(record, 0) == Some(id) {
                    let items = match crate::props::ref_at(record, 1) {
                        Some(rep) => crate::props::representation_items(exchange, rep),
                        None => Vec::new(),
                    };
                    crate::props::push_values(exchange, &items, &mut values);
                } else if record.is("PLUS_MINUS_TOLERANCE") && crate::props::ref_at(record, 1) == Some(id) {
                    let range = match crate::props::ref_at(record, 0) {
                        Some(rid) => match first_record_exec(exchange, rid) {
                            Some(r) => if r.is("TOLERANCE_VALUE") {
                                Some(r)
                            } else {
                                None
                            },
                            None => None,
                        },
                        None => None,
                    };
                    match range {
                        Some(range) => {
                            tolerance = Some(Bounds { lower: bound_at(exchange, range, 0), upper: bound_at(exchange, range, 1) });
                        },
                        None => {},
                    }
                }
            },
            None => {},
        }
        j = j + 1;
    }
    proof {
        assert(users@.take(j as int) =~= users@);
    }
    (values, tolerance)
}

// ---------------------------------------------------------------------
// Entity type lists, executable.
// ---------------------------------------------------------------------

fn tolerance_kind_str(i: usize) -> (s: &'static str)
    requires
        i < TOLERANCE_KIND_COUNT,
    ensures
        s@ == tolerance_kind(i as int),
{
    match i {
        0 => "ANGULARITY_TOLERANCE",
        1 => "CIRCULAR_RUNOUT_TOLERANCE",
        2 => "COAXIALITY_TOLERANCE",
        3 => "CONCENTRICITY_TOLERANCE",
        4 => "CYLINDRICITY_TOLERANCE",
        5 => "FLATNESS_TOLERANCE",
        6 => "LINE_PROFILE_TOLERANCE",
        7 => "PARALLELISM_TOLERANCE",
        8 => "PERPENDICULARITY_TOLERANCE",
        9 => "POSITION_TOLERANCE",
        10 => "ROUNDNESS_TOLERANCE",
        11 => "STRAIGHTNESS_TOLERANCE",
        12 => "SURFACE_PROFILE_TOLERANCE",
        13 => "SYMMETRY_TOLERANCE",
        _ => "TOTAL_RUNOUT_TOLERANCE",
    }
}

fn with_datums_str(i: usize) -> (s: &'static str)
    requires
        i < WITH_DATUMS_COUNT,
    ensures
        s@ == with_datums(i as int),
{
    match i {
        0 => "ANGULARITY_TOLERANCE",
        1 => "CIRCULAR_RUNOUT_TOLERANCE",
        2 => "COAXIALITY_TOLERANCE",
        3 => "CONCENTRICITY_TOLERANCE",
        4 => "PARALLELISM_TOLERANCE",
        5 => "PERPENDICULARITY_TOLERANCE",
        6 => "SYMMETRY_TOLERANCE",
        _ => "TOTAL_RUNOUT_TOLERANCE",
    }
}

fn size_str(i: usize) -> (s: &'static str)
    requires
        i < DIMENSION_KIND_COUNT,
    ensures
        s@ == size_kind(i as int),
{
    match i {
        0 => "DIMENSIONAL_SIZE",
        1 => "ANGULAR_SIZE",
        _ => "DIMENSIONAL_SIZE_WITH_PATH",
    }
}

fn location_str(i: usize) -> (s: &'static str)
    requires
        i < DIMENSION_KIND_COUNT,
    ensures
        s@ == location_kind(i as int),
{
    match i {
        0 => "DIMENSIONAL_LOCATION",
        1 => "ANGULAR_LOCATION",
        _ => "DIMENSIONAL_LOCATION_WITH_PATH",
    }
}

/// True if `a` and `b` are the same text.
fn same_text(a: &str, b: &str) -> (r: bool)
    ensures
        r == (a@ == b@),
{
    let n = a.unicode_len();
    if n != b.unicode_len() {
        return false;
    }
    let r = crate::props::occurs_at(a, b, 0);
    proof {
        assert(a@.subrange(0, n as int) =~= a@);
    }
    r
}

/// True if `name` is on `list`.
fn listed_as(name: &str, list: KindList) -> (b: bool)
    ensures
        b == on_list(list, name@),
{
    let n = match list {
        KindList::Tolerance => TOLERANCE_KIND_COUNT,
        KindList::WithDatums => WITH_DATUMS_COUNT,
        _ => DIMENSION_KIND_COUNT,
    };
    let mut i: usize = 0;
    while i < n
        invariant
            n == list_len(list),
            i <= n,
            forall|j: int| 0 <= j < i ==> name@ != #[trigger] list_entry(list, j),
        decreases n - i,
    {
        let entry = match list {
            KindList::Tolerance => tolerance_kind_str(i),
            KindList::WithDatums => with_datums_str(i),
            KindList::Size => size_str(i),
            KindList::Location => location_str(i),
        };
        proof {
            assert(entry@ == list_entry(list, i as int));
        }
        if same_text(name, entry) {
            return true;
        }
        i = i + 1;
    }
    false
}

/// The first of `recs[k..]` whose upper-cased name is a characteristic
/// subtype.
pub open spec fn first_kind(src: Seq<u8>, recs: Seq<(Token, Seq<Token>)>, k: int) -> Option<int>
    decreases recs.len() - k,
{
    if k < 0 || k >= recs.len() {
        None
    } else if is_tolerance_kind(upper_name(recs[k].0.span.of(src))) {
        Some(k)
    } else {
        first_kind(src, recs, k + 1)
    }
}

/// The characteristic of a tolerance with records `recs`; `geometric` if
/// none names one.
pub open spec fn kind_text(src: Seq<u8>, recs: Seq<(Token, Seq<Token>)>) -> Seq<char> {
    match first_kind(src, recs, 0) {
        Some(k) => characteristic(upper_name(recs[k].0.span.of(src))),
        None => "geometric"@,
    }
}

proof fn lemma_kind_length(n: Seq<char>)
    requires
        is_tolerance_kind(n),
    ensures
        n.len() >= 10,
{
    let i = choose|i: int| 0 <= i < list_len(KindList::Tolerance) && n == #[trigger] list_entry(KindList::Tolerance, i);
    reveal_strlit("ANGULARITY_TOLERANCE");
    reveal_strlit("CIRCULAR_RUNOUT_TOLERANCE");
    reveal_strlit("COAXIALITY_TOLERANCE");
    reveal_strlit("CONCENTRICITY_TOLERANCE");
    reveal_strlit("CYLINDRICITY_TOLERANCE");
    reveal_strlit("FLATNESS_TOLERANCE");
    reveal_strlit("LINE_PROFILE_TOLERANCE");
    reveal_strlit("PARALLELISM_TOLERANCE");
    reveal_strlit("PERPENDICULARITY_TOLERANCE");
    reveal_strlit("POSITION_TOLERANCE");
    reveal_strlit("ROUNDNESS_TOLERANCE");
    reveal_strlit("STRAIGHTNESS_TOLERANCE");
    reveal_strlit("SURFACE_PROFILE_TOLERANCE");
    reveal_strlit("SYMMETRY_TOLERANCE");
    reveal_strlit("TOTAL_RUNOUT_TOLERANCE");
}

/// The characteristic a tolerance subtype names.
fn characteristic_of(name: &str) -> (s: String)
    requires
        name@.len() >= 10,
    ensures
        s@ == characteristic(name@),
{
    let n = name.unicode_len();
    let mut out = String::new();
    let mut i: usize = 0;
    while i < n - 10
        invariant
            n == name@.len(),
            n >= 10,
            i <= n - 10,
            out@ =~= characteristic(name@).take(i as int),
        decreases n - 10 - i,
    {
        let c = name.get_char(i);
        let d = if c == '_' {
            ' '
        } else {
            crate::info::lower_char_exec(c)
        };
        crate::text::push_char(&mut out, d);
        proof {
            assert(characteristic(name@).take(i + 1) =~= characteristic(name@).take(i as int).push(d));
        }
        i = i + 1;
    }
    proof {
        assert(characteristic(name@).take(i as int) =~= characteristic(name@));
    }
    out
}

/// The characteristic of a tolerance with `records`.
fn kind_of_records(records: &Vec<Record>, Ghost(src): Ghost<Seq<u8>>, Ghost(recs): Ghost<Seq<(Token, Seq<Token>)>>) -> (s: String)
    requires
        records_are(records@, src, recs),
    ensures
        s@ == kind_text(src, recs),
{
    let mut k: usize = 0;
    while k < records.len()
        invariant
            records_are(records@, src, recs),
            k <= records@.len(),
            first_kind(src, recs, 0) == first_kind(src, recs, k as int),
        decreases records@.len() - k,
    {
        let name = crate::info::upper_name_of(records[k].name());
        if listed_as(name.as_str(), KindList::Tolerance) {
            proof {
                lemma_kind_length(name@);
            }
            return characteristic_of(name.as_str());
        }
        k = k + 1;
    }
    crate::text::owned("geometric")
}

// ---------------------------------------------------------------------
// The PMI of a file.
// ---------------------------------------------------------------------

/// What one instance contributes.
pub enum PmiItem {
    Datum(DatumView),
    Tolerance(ToleranceView),
    Dimension(DimensionView),
}

/// The tolerance instance `n` (`inst`, with records `recs`) makes, given
/// its base record `b`.
pub open spec fn tolerance_item(
    g: Graph,
    defs: Seq<u64>,
    n: int,
    simple: Option<(Token, Seq<Token>)>,
    b: (Token, Seq<Token>),
) -> Option<PmiItem> {
    let ex = g.exchange_view();
    let src = ex.src_view();
    let inst = ex.instances_view()[n];
    let recs = ex.records_view(inst);
    let fuel = ex.instances_view().len();
    match ref_of(param_view(b.1, 3)) {
        Some(target) => {
            let datums = match first_rec(src, recs, "GEOMETRIC_TOLERANCE_WITH_DATUM_REFERENCE", 0) {
                Some(k) => datum_references_of(ex, param_view(recs[k].1, 0), fuel),
                None => match simple {
                    Some(r) => if is_with_datums(upper_name(r.0.span.of(src))) {
                        datum_references_of(ex, param_view(r.1, 4), fuel)
                    } else {
                        Seq::empty()
                    },
                    None => Seq::empty(),
                },
            };
            Some(
                PmiItem::Tolerance(
                    ToleranceView {
                        instance: inst.id,
                        kind: kind_text(src, recs),
                        name: text_of(src, param_view(b.1, 0)),
                        magnitude: match ref_of(param_view(b.1, 2)) {
                            Some(m) => value_of(ex, m),
                            None => None,
                        },
                        datums,
                        modifiers: match first_rec(src, recs, "GEOMETRIC_TOLERANCE_WITH_MODIFIERS", 0) {
                            Some(k) => enumerations_of(src, param_view(recs[k].1, 0)),
                            None => Seq::empty(),
                        },
                        unit_size: match first_rec(src, recs, "GEOMETRIC_TOLERANCE_WITH_DEFINED_UNIT", 0) {
                            Some(k) => match ref_of(param_view(recs[k].1, 0)) {
                                Some(u) => value_of(ex, u),
                                None => None,
                            },
                            None => None,
                        },
                        target: subject_of(ex, defs, target),
                    },
                ),
            )
        },
        None => None,
    }
}

/// The dimension the simple instance `n` with record `r` makes; `size`
/// if it is a size.
pub open spec fn dimension_item(g: Graph, defs: Seq<u64>, n: int, r: (Token, Seq<Token>), size: bool) -> Option<PmiItem> {
    let ex = g.exchange_view();
    let src = ex.src_view();
    let inst = ex.instances_view()[n];
    let p = |i: nat| param_view(r.1, i);
    let (name, target) = if size {
        (p(1), p(0))
    } else {
        (p(0), p(2))
    };
    match ref_of(target) {
        Some(t) => {
            let (values, tolerance) = dimension_fold(g, inst.id, g.backward_view()[n]);
            Some(
                PmiItem::Dimension(
                    DimensionView {
                        instance: inst.id,
                        kind: if size {
                            DimensionKind::Size
                        } else {
                            DimensionKind::Location
                        },
                        name: text_of(src, name),
                        values,
                        tolerance,
                        target: subject_of(ex, defs, t),
                        related: if size {
                            None
                        } else {
                            match ref_of(p(3)) {
                                Some(rel) => Some(subject_of(ex, defs, rel)),
                                None => None,
                            }
                        },
                    },
                ),
            )
        },
        None => None,
    }
}

/// What instance `n` contributes: a datum, a tolerance, a dimension, or
/// nothing.
pub open spec fn pmi_item(g: Graph, defs: Seq<u64>, n: int) -> Option<PmiItem> {
    let ex = g.exchange_view();
    let src = ex.src_view();
    let inst = ex.instances_view()[n];
    let recs = ex.records_view(inst);
    let simple: Option<(Token, Seq<Token>)> = if inst.complex {
        None
    } else if recs.len() > 0 {
        Some(recs[0])
    } else {
        None
    };
    match simple {
        Some(r) if rec_named(src, r, "DATUM") => match text_of(src, param_view(r.1, 4)) {
            Some(label) => Some(PmiItem::Datum(DatumView { instance: inst.id, label, subject: subject_of(ex, defs, inst.id) })),
            None => None,
        },
        _ => {
            let base = match first_rec(src, recs, "GEOMETRIC_TOLERANCE", 0) {
                Some(k) => Some(recs[k]),
                None => match simple {
                    Some(r) => if is_tolerance_kind(upper_name(r.0.span.of(src))) {
                        Some(r)
                    } else {
                        None
                    },
                    None => None,
                },
            };
            match base {
                Some(b) => tolerance_item(g, defs, n, simple, b),
                None => match simple {
                    Some(r) => {
                        let name = upper_name(r.0.span.of(src));
                        if is_size(name) || is_location(name) {
                            dimension_item(g, defs, n, r, is_size(name))
                        } else {
                            None
                        }
                    },
                    None => None,
                },
            }
        },
    }
}

/// The datums of the first `n` instances, in file order.
pub open spec fn datums_upto(g: Graph, defs: Seq<u64>, n: int) -> Seq<DatumView>
    decreases n,
{
    if n <= 0 {
        Seq::empty()
    } else {
        datums_upto(g, defs, n - 1) + match pmi_item(g, defs, n - 1) {
            Some(PmiItem::Datum(d)) => seq![d],
            _ => Seq::empty(),
        }
    }
}

/// The tolerances of the first `n` instances, in file order.
pub open spec fn tolerances_upto(g: Graph, defs: Seq<u64>, n: int) -> Seq<ToleranceView>
    decreases n,
{
    if n <= 0 {
        Seq::empty()
    } else {
        tolerances_upto(g, defs, n - 1) + match pmi_item(g, defs, n - 1) {
            Some(PmiItem::Tolerance(t)) => seq![t],
            _ => Seq::empty(),
        }
    }
}

/// The dimensions of the first `n` instances, in file order.
pub open spec fn dimensions_upto(g: Graph, defs: Seq<u64>, n: int) -> Seq<DimensionView>
    decreases n,
{
    if n <= 0 {
        Seq::empty()
    } else {
        dimensions_upto(g, defs, n - 1) + match pmi_item(g, defs, n - 1) {
            Some(PmiItem::Dimension(d)) => seq![d],
            _ => Seq::empty(),
        }
    }
}

/// The views of `v`.
pub open spec fn datum_views(v: Seq<Datum>) -> Seq<DatumView> {
    v.map_values(|d: Datum| d@)
}

/// The views of `v`.
pub open spec fn tolerance_views(v: Seq<Tolerance>) -> Seq<ToleranceView> {
    v.map_values(|t: Tolerance| t@)
}

/// The views of `v`.
pub open spec fn dimension_views(v: Seq<Dimension>) -> Seq<DimensionView> {
    v.map_values(|d: Dimension| d@)
}

/// True if `item` is what `found` holds, as an item.
pub open spec fn item_is(item: Option<PmiItem>, datum: Option<Datum>, tolerance: Option<Tolerance>, dimension: Option<Dimension>) -> bool {
    match item {
        Some(PmiItem::Datum(d)) => datum matches Some(x) && x@ == d && tolerance is None && dimension is None,
        Some(PmiItem::Tolerance(t)) => tolerance matches Some(x) && x@ == t && datum is None && dimension is None,
        Some(PmiItem::Dimension(d)) => dimension matches Some(x) && x@ == d && datum is None && tolerance is None,
        None => datum is None && tolerance is None && dimension is None,
    }
}

/// The tolerance of node `node` with records `records`, whose base record
/// is `records[b]` or else `simple`.
fn tolerance_at(
    graph: &Graph,
    definitions: &[u64],
    node: usize,
    records: &Vec<Record>,
    simple: Option<Record>,
    base: Record,
    Ghost(b): Ghost<(Token, Seq<Token>)>,
) -> (r: Option<Tolerance>)
    requires
        graph.wf(),
        node < graph.exchange_view().instances_view().len(),
        records_are(
            records@,
            graph.exchange_view().src_view(),
            graph.exchange_view().records_view(graph.exchange_view().instances_view()[node as int]),
        ),
        base.wf(),
        base.name_token() == b.0,
        base.params_view() == b.1,
        base.src_view() == graph.exchange_view().src_view(),
        ({
            let recs = graph.exchange_view().records_view(graph.exchange_view().instances_view()[node as int]);
            let inst = graph.exchange_view().instances_view()[node as int];
            match simple {
                Some(r) => !inst.complex && recs.len() > 0 && r.wf() && r.src_view() == graph.exchange_view().src_view()
                    && r.name_token() == recs[0].0 && r.params_view() == recs[0].1,
                None => inst.complex || recs.len() == 0,
            }
        }),
    ensures
        ({
            let recs = graph.exchange_view().records_view(graph.exchange_view().instances_view()[node as int]);
            let sv: Option<(Token, Seq<Token>)> = match simple {
                Some(_) => Some(recs[0]),
                None => None,
            };
            match tolerance_item(*graph, definitions@, node as int, sv, b) {
                Some(PmiItem::Tolerance(t)) => r matches Some(x) && x@ == t,
                _ => r is None,
            }
        }),
{
    let ghost g = *graph;
    let exchange = graph.exchange();
    let ghost src = exchange.src_view();
    let instance = graph.instance(node);
    let ghost recs = exchange.records_view(*instance);
    let fuel = exchange.instances().len();
    let target = match crate::props::ref_at(base, 3) {
        Some(t) => t,
        None => {
            return None;
        },
    };
    let datums = match crate::lint::find_rec(records, "GEOMETRIC_TOLERANCE_WITH_DATUM_REFERENCE", Ghost(src), Ghost(recs)) {
        Some(k) => datum_references(exchange, records[k], 0, fuel),
        None => match simple {
            Some(r) => {
                let name = crate::info::upper_name_of(r.name());
                if listed_as(name.as_str(), KindList::WithDatums) {
                    datum_references(exchange, r, 4, fuel)
                } else {
                    let v: Vec<DatumReference> = Vec::new();
                    proof {
                        assert(reference_views(v@) =~= Seq::<DatumReferenceView>::empty());
                    }
                    v
                }
            },
            None => {
                let v: Vec<DatumReference> = Vec::new();
                proof {
                    assert(reference_views(v@) =~= Seq::<DatumReferenceView>::empty());
                }
                v
            },
        },
    };
    let magnitude = match crate::props::ref_at(base, 2) {
        Some(m) => crate::props::value(exchange, m),
        None => None,
    };
    let modifiers = match crate::lint::find_rec(records, "GEOMETRIC_TOLERANCE_WITH_MODIFIERS", Ghost(src), Ghost(recs)) {
        Some(k) => enumerations_at(exchange.source(), records[k], 0),
        None => {
            let v: Vec<String> = Vec::new();
            proof {
                assert(string_views(v@) =~= Seq::<Seq<char>>::empty());
            }
            v
        },
    };
    let unit_size = match crate::lint::find_rec(records, "GEOMETRIC_TOLERANCE_WITH_DEFINED_UNIT", Ghost(src), Ghost(recs)) {
        Some(k) => match crate::props::ref_at(records[k], 0) {
            Some(u) => crate::props::value(exchange, u),
            None => None,
        },
        None => None,
    };
    Some(
        Tolerance {
            instance: instance.id,
            kind: kind_of_records(records, Ghost(src), Ghost(recs)),
            name: crate::props::text_at(base, 0),
            magnitude,
            datums,
            modifiers,
            unit_size,
            target: crate::props::subject(exchange, definitions, target),
        },
    )
}

/// The dimension of node `node`, whose record is `record`.
fn dimension_at(graph: &Graph, definitions: &[u64], node: usize, record: Record, size: bool) -> (r: Option<Dimension>)
    requires
        graph.wf(),
        node < graph.exchange_view().instances_view().len(),
        record.wf(),
        record.src_view() == graph.exchange_view().src_view(),
    ensures
        match dimension_item(*graph, definitions@, node as int, (record.name_token(), record.params_view()), size) {
            Some(PmiItem::Dimension(d)) => r matches Some(x) && x@ == d,
            _ => r is None,
        },
{
    let exchange = graph.exchange();
    let instance = graph.instance(node);
    let (name_index, target_index) = if size {
        (1, 0)
    } else {
        (0, 2)
    };
    let target = match crate::props::ref_at(record, target_index) {
        Some(t) => t,
        None => {
            return None;
        },
    };
    let (values, tolerance) = dimension_values(graph, node, instance.id);
    let related = if size {
        None
    } else {
        match crate::props::ref_at(record, 3) {
            Some(rel) => Some(crate::props::subject(exchange, definitions, rel)),
            None => None,
        }
    };
    Some(
        Dimension {
            instance: instance.id,
            kind: if size {
                DimensionKind::Size
            } else {
                DimensionKind::Location
            },
            name: crate::props::text_at(record, name_index),
            values,
            tolerance,
            target: crate::props::subject(exchange, definitions, target),
            related,
        },
    )
}

/// What node `node` contributes.
fn pmi_at(graph: &Graph, definitions: &[u64], node: usize) -> (r: (Option<Datum>, Option<Tolerance>, Option<Dimension>))
    requires
        graph.wf(),
        node < graph.exchange_view().instances_view().len(),
    ensures
        item_is(pmi_item(*graph, definitions@, node as int), r.0, r.1, r.2),
{
    let ghost g = *graph;
    let exchange = graph.exchange();
    let ghost src = exchange.src_view();
    let instance = graph.instance(node);
    let ghost recs = exchange.records_view(*instance);
    let records = exchange.records(instance).to_vec();
    let simple = if instance.is_complex() {
        None
    } else if records.len() > 0 {
        Some(records[0])
    } else {
        None
    };
    match simple {
        Some(r) => {
            if r.is("DATUM") {
                return match crate::props::text_at(r, 4) {
                    Some(label) => (
                        Some(
                            Datum {
                                instance: instance.id,
                                label,
                                subject: crate::props::subject(exchange, definitions, instance.id),
                            },
                        ),
                        None,
                        None,
                    ),
                    None => (None, None, None),
                };
            }
        },
        None => {},
    }
    let found = crate::lint::find_rec(&records, "GEOMETRIC_TOLERANCE", Ghost(src), Ghost(recs));
    let base = match found {
        Some(k) => Some(records[k]),
        None => match simple {
            Some(r) => {
                let name = crate::info::upper_name_of(r.name());
                if listed_as(name.as_str(), KindList::Tolerance) {
                    Some(r)
                } else {
                    None
                }
            },
            None => None,
        },
    };
    match base {
        Some(b) => {
            let ghost bv = match found {
                Some(k) => recs[k as int],
                None => recs[0],
            };
            let t = tolerance_at(graph, definitions, node, &records, simple, b, Ghost(bv));
            (None, t, None)
        },
        None => match simple {
            Some(r) => {
                let name = crate::info::upper_name_of(r.name());
                let size = listed_as(name.as_str(), KindList::Size);
                let location = listed_as(name.as_str(), KindList::Location);
                if size || location {
                    (None, None, dimension_at(graph, definitions, node, r, size))
                } else {
                    (None, None, None)
                }
            },
            None => (None, None, None),
        },
    }
}

/// Reads the semantic PMI of the file behind `graph`. `definitions` are
/// the `#id`s of the file's product definitions; they say which instance
/// each datum, tolerance and dimension belongs to.
#[verifier::rlimit(40)]
pub fn pmi_among(graph: &Graph, definitions: &[u64]) -> (found: Pmi)
    requires
        graph.wf(),
    ensures
        ({
            let n = graph.exchange_view().instances_view().len() as int;
            &&& datum_views(found.datums@) == datums_upto(*graph, definitions@, n)
            &&& tolerance_views(found.tolerances@) == tolerances_upto(*graph, definitions@, n)
            &&& dimension_views(found.dimensions@) == dimensions_upto(*graph, definitions@, n)
        }),
{
    let ghost g = *graph;
    let count = graph.len();
    let mut datums: Vec<Datum> = Vec::new();
    let mut tolerances: Vec<Tolerance> = Vec::new();
    let mut dimensions: Vec<Dimension> = Vec::new();
    let mut node: usize = 0;
    proof {
        assert(datum_views(datums@) =~= Seq::<DatumView>::empty());
        assert(tolerance_views(tolerances@) =~= Seq::<ToleranceView>::empty());
        assert(dimension_views(dimensions@) =~= Seq::<DimensionView>::empty());
    }
    while node < count
        invariant
            graph.wf(),
            g == *graph,
            count == g.exchange_view().instances_view().len(),
            node <= count,
            datum_views(datums@) == datums_upto(g, definitions@, node as int),
            tolerance_views(tolerances@) == tolerances_upto(g, definitions@, node as int),
            dimension_views(dimensions@) == dimensions_upto(g, definitions@, node as int),
        decreases count - node,
    {
        let ghost d0 = datums@;
        let ghost t0 = tolerances@;
        let ghost m0 = dimensions@;
        let (d, t, m) = pmi_at(graph, definitions, node);
        match d {
            Some(x) => {
                datums.push(x);
            },
            None => {},
        }
        match t {
            Some(x) => {
                tolerances.push(x);
            },
            None => {},
        }
        match m {
            Some(x) => {
                dimensions.push(x);
            },
            None => {},
        }
        proof {
            assert(datum_views(datums@) =~= datums_upto(g, definitions@, node + 1));
            assert(tolerance_views(tolerances@) =~= tolerances_upto(g, definitions@, node + 1));
            assert(dimension_views(dimensions@) =~= dimensions_upto(g, definitions@, node + 1));
        }
        node = node + 1;
    }
    Pmi { datums, tolerances, dimensions }
}

impl Pmi {
    /// True if the file holds no semantic PMI.
    pub fn is_empty(&self) -> (b: bool)
        ensures
            b == (self.datums@.len() == 0 && self.tolerances@.len() == 0 && self.dimensions@.len() == 0),
    {
        self.datums.len() == 0 && self.tolerances.len() == 0 && self.dimensions.len() == 0
    }
}

/// Reads the semantic PMI of the file behind `graph`, whose product
/// structure is `structure`.
pub fn pmi(graph: &Graph, structure: &crate::model::ProductStructure) -> (found: Pmi)
    requires
        graph.wf(),
    ensures
        ({
            let ids = structure.definitions_view().map_values(|d: crate::model::assembly::DefinitionView| d.instance);
            let n = graph.exchange_view().instances_view().len() as int;
            &&& datum_views(found.datums@) == datums_upto(*graph, ids, n)
            &&& tolerance_views(found.tolerances@) == tolerances_upto(*graph, ids, n)
            &&& dimension_views(found.dimensions@) == dimensions_upto(*graph, ids, n)
        }),
{
    let ids = crate::model::assembly::definition_ids(structure);
    pmi_among(graph, ids.as_slice())
}

/// The characteristic subtypes of `geometric_tolerance` that ISO 10303-242
/// lists, one per kind of tolerance.
pub open spec fn characteristic_subtypes() -> Seq<Seq<char>> {
    seq![
        "ANGULARITY_TOLERANCE"@,
        "CIRCULAR_RUNOUT_TOLERANCE"@,
        "COAXIALITY_TOLERANCE"@,
        "CONCENTRICITY_TOLERANCE"@,
        "CYLINDRICITY_TOLERANCE"@,
        "FLATNESS_TOLERANCE"@,
        "LINE_PROFILE_TOLERANCE"@,
        "PARALLELISM_TOLERANCE"@,
        "PERPENDICULARITY_TOLERANCE"@,
        "POSITION_TOLERANCE"@,
        "ROUNDNESS_TOLERANCE"@,
        "STRAIGHTNESS_TOLERANCE"@,
        "SURFACE_PROFILE_TOLERANCE"@,
        "SYMMETRY_TOLERANCE"@,
        "TOTAL_RUNOUT_TOLERANCE"@,
    ]
}

/// Each characteristic subtype of `geometric_tolerance` is recognised as
/// the kind of a tolerance.
pub proof fn lemma_characteristic_subtypes_are_kinds()
    ensures
        forall|j: int| 0 <= j < characteristic_subtypes().len() ==> is_tolerance_kind(#[trigger] characteristic_subtypes()[j]),
{
    assert(list_entry(KindList::Tolerance, 0) == "ANGULARITY_TOLERANCE"@);
    assert(list_entry(KindList::Tolerance, 1) == "CIRCULAR_RUNOUT_TOLERANCE"@);
    assert(list_entry(KindList::Tolerance, 2) == "COAXIALITY_TOLERANCE"@);
    assert(list_entry(KindList::Tolerance, 3) == "CONCENTRICITY_TOLERANCE"@);
    assert(list_entry(KindList::Tolerance, 4) == "CYLINDRICITY_TOLERANCE"@);
    assert(list_entry(KindList::Tolerance, 5) == "FLATNESS_TOLERANCE"@);
    assert(list_entry(KindList::Tolerance, 6) == "LINE_PROFILE_TOLERANCE"@);
    assert(list_entry(KindList::Tolerance, 7) == "PARALLELISM_TOLERANCE"@);
    assert(list_entry(KindList::Tolerance, 8) == "PERPENDICULARITY_TOLERANCE"@);
    assert(list_entry(KindList::Tolerance, 9) == "POSITION_TOLERANCE"@);
    assert(list_entry(KindList::Tolerance, 10) == "ROUNDNESS_TOLERANCE"@);
    assert(list_entry(KindList::Tolerance, 11) == "STRAIGHTNESS_TOLERANCE"@);
    assert(list_entry(KindList::Tolerance, 12) == "SURFACE_PROFILE_TOLERANCE"@);
    assert(list_entry(KindList::Tolerance, 13) == "SYMMETRY_TOLERANCE"@);
    assert(list_entry(KindList::Tolerance, 14) == "TOTAL_RUNOUT_TOLERANCE"@);
    assert forall|j: int| 0 <= j < characteristic_subtypes().len() implies is_tolerance_kind(
        #[trigger] characteristic_subtypes()[j],
    ) by {
        assert(characteristic_subtypes()[j] == list_entry(KindList::Tolerance, j));
    }
}

/// A tolerance whose first record names a characteristic subtype has the
/// characteristic that subtype names as its kind: `surface profile` for
/// `SURFACE_PROFILE_TOLERANCE`.
pub proof fn lemma_named_subtype_is_the_kind(src: Seq<u8>, recs: Seq<(Token, Seq<Token>)>)
    requires
        recs.len() > 0,
        characteristic_subtypes().contains(upper_name(recs[0].0.span.of(src))),
    ensures
        kind_text(src, recs) == characteristic(upper_name(recs[0].0.span.of(src))),
{
    lemma_characteristic_subtypes_are_kinds();
    let j = choose|j: int| 0 <= j < characteristic_subtypes().len() && characteristic_subtypes()[j] == upper_name(
        recs[0].0.span.of(src),
    );
    assert(is_tolerance_kind(characteristic_subtypes()[j]));
    assert(first_kind(src, recs, 0) == Some(0int));
}

/// The kind of a `SURFACE_PROFILE_TOLERANCE` reads `surface profile`.
pub proof fn lemma_surface_profile_kind()
    ensures
        is_tolerance_kind("SURFACE_PROFILE_TOLERANCE"@),
        characteristic("SURFACE_PROFILE_TOLERANCE"@) == "surface profile"@,
{
    lemma_characteristic_subtypes_are_kinds();
    assert(characteristic_subtypes()[12] == "SURFACE_PROFILE_TOLERANCE"@);
    reveal_strlit("SURFACE_PROFILE_TOLERANCE");
    reveal_strlit("surface profile");
    assert(characteristic("SURFACE_PROFILE_TOLERANCE"@) =~= "surface profile"@);
}

/// The subtypes of `geometric_tolerance_with_datum_reference`.
pub open spec fn datum_subtypes() -> Seq<Seq<char>> {
    seq![
        "ANGULARITY_TOLERANCE"@,
        "CIRCULAR_RUNOUT_TOLERANCE"@,
        "COAXIALITY_TOLERANCE"@,
        "CONCENTRICITY_TOLERANCE"@,
        "PARALLELISM_TOLERANCE"@,
        "PERPENDICULARITY_TOLERANCE"@,
        "SYMMETRY_TOLERANCE"@,
        "TOTAL_RUNOUT_TOLERANCE"@,
    ]
}

/// Each subtype of `geometric_tolerance_with_datum_reference` is read with
/// its datum system.
pub proof fn lemma_datum_subtypes_keep_datums()
    ensures
        forall|j: int| 0 <= j < datum_subtypes().len() ==> is_with_datums(#[trigger] datum_subtypes()[j]),
{
    assert(list_entry(KindList::WithDatums, 0) == "ANGULARITY_TOLERANCE"@);
    assert(list_entry(KindList::WithDatums, 1) == "CIRCULAR_RUNOUT_TOLERANCE"@);
    assert(list_entry(KindList::WithDatums, 2) == "COAXIALITY_TOLERANCE"@);
    assert(list_entry(KindList::WithDatums, 3) == "CONCENTRICITY_TOLERANCE"@);
    assert(list_entry(KindList::WithDatums, 4) == "PARALLELISM_TOLERANCE"@);
    assert(list_entry(KindList::WithDatums, 5) == "PERPENDICULARITY_TOLERANCE"@);
    assert(list_entry(KindList::WithDatums, 6) == "SYMMETRY_TOLERANCE"@);
    assert(list_entry(KindList::WithDatums, 7) == "TOTAL_RUNOUT_TOLERANCE"@);
    assert forall|j: int| 0 <= j < datum_subtypes().len() implies is_with_datums(#[trigger] datum_subtypes()[j]) by {
        assert(datum_subtypes()[j] == list_entry(KindList::WithDatums, j));
    }
}

/// The size dimension entity types.
pub open spec fn size_dimensions() -> Seq<Seq<char>> {
    seq![
        "DIMENSIONAL_SIZE"@,
        "ANGULAR_SIZE"@,
        "DIMENSIONAL_SIZE_WITH_PATH"@,
    ]
}

/// Each size dimension entity type is read as a size.
pub proof fn lemma_size_dimensions_are_sizes()
    ensures
        forall|j: int| 0 <= j < size_dimensions().len() ==> is_size(#[trigger] size_dimensions()[j]),
{
    assert(list_entry(KindList::Size, 0) == "DIMENSIONAL_SIZE"@);
    assert(list_entry(KindList::Size, 1) == "ANGULAR_SIZE"@);
    assert(list_entry(KindList::Size, 2) == "DIMENSIONAL_SIZE_WITH_PATH"@);
    assert forall|j: int| 0 <= j < size_dimensions().len() implies is_size(#[trigger] size_dimensions()[j]) by {
        assert(size_dimensions()[j] == list_entry(KindList::Size, j));
    }
}

/// The location dimension entity types.
pub open spec fn location_dimensions() -> Seq<Seq<char>> {
    seq![
        "DIMENSIONAL_LOCATION"@,
        "ANGULAR_LOCATION"@,
        "DIMENSIONAL_LOCATION_WITH_PATH"@,
    ]
}

/// Each location dimension entity type is read as a location.
pub proof fn lemma_location_dimensions_are_locations()
    ensures
        forall|j: int| 0 <= j < location_dimensions().len() ==> is_location(#[trigger] location_dimensions()[j]),
{
    assert(list_entry(KindList::Location, 0) == "DIMENSIONAL_LOCATION"@);
    assert(list_entry(KindList::Location, 1) == "ANGULAR_LOCATION"@);
    assert(list_entry(KindList::Location, 2) == "DIMENSIONAL_LOCATION_WITH_PATH"@);
    assert forall|j: int| 0 <= j < location_dimensions().len() implies is_location(#[trigger] location_dimensions()[j]) by {
        assert(location_dimensions()[j] == list_entry(KindList::Location, j));
    }
}

} // verus!
