//! Product properties: user-defined attributes, validation properties and
//! persistent identifiers.
//!
//! This is what `stepq props` prints. A property is a `property_definition`
//! that points at what it describes: a product definition, its shape, or a
//! shape aspect of it. Its values are the items of the representations that
//! `property_definition_representation`s tie to it. Values are returned as
//! written: numbers are the source text, never re-parsed and re-printed.
use vstd::prelude::*;
use vstd::string::*;
use crate::info::upper_name;
use crate::lint::{first_rec, params_of, rec_named, references_among};
use crate::model::graph::Graph;
use crate::p21::exchange::{matching, param_count, params_after, skip_separators, tokens_between, Exchange, Instance, Param, Record};
use crate::p21::lexer::{Token, TokenKind};
use crate::p21::string::decoded;
use crate::text::{ends_with_ignore_case, lossy, lossy_text};

verus! {

// ---------------------------------------------------------------------
// Parameters.
// ---------------------------------------------------------------------

/// A parameter as plain values.
pub enum ParamView {
    /// `$`.
    Unset,
    /// `*`.
    Derived,
    /// A literal: a number, string, enumeration, binary or edition 3
    /// reference, as its token.
    Literal(Token),
    /// A reference to `#id`.
    Reference(u64),
    /// A list, as the tokens between its parentheses.
    List(Seq<Token>),
    /// A typed value such as `LENGTH_MEASURE(5.0)`: its name token and the
    /// tokens between its parentheses.
    Typed(Token, Seq<Token>),
}

/// Parameter `i` of the parameter tokens `ts`; `None` if there are fewer.
pub open spec fn param_view(ts: Seq<Token>, i: nat) -> Option<ParamView> {
    if i >= param_count(ts) {
        None
    } else {
        let r = params_after(ts, i);
        let k = skip_separators(r, 0);
        let t = r[k];
        let from = r.subrange(k, r.len() as int);
        Some(
            match t.kind {
                TokenKind::Dollar => ParamView::Unset,
                TokenKind::Asterisk => ParamView::Derived,
                TokenKind::InstanceName(id) => ParamView::Reference(id),
                TokenKind::LeftParen => ParamView::List(tokens_between(from, 1, matching(from))),
                TokenKind::Keyword | TokenKind::UserKeyword => ParamView::Typed(
                    t,
                    tokens_between(from.drop_first(), 1, matching(from.drop_first())),
                ),
                _ => ParamView::Literal(t),
            },
        )
    }
}

/// The plain view of the parameter `p`.
pub open spec fn param_model(p: Param) -> ParamView {
    match p {
        Param::Unset => ParamView::Unset,
        Param::Derived => ParamView::Derived,
        Param::Reference(id) => ParamView::Reference(id),
        Param::List(items) => ParamView::List(items.tokens_view()),
        Param::Typed(r) => ParamView::Typed(r.name_token(), r.params_view()),
        Param::Integer(l) | Param::Real(l) | Param::String(l) | Param::Enumeration(l) | Param::Binary(l)
        | Param::ConstantReference(l) | Param::ValueReference(l) | Param::Resource(l) => ParamView::Literal(
            l.token_view(),
        ),
    }
}

/// Parameter `index` of `record`.
pub(crate) fn param_at<'e>(record: Record<'e>, index: usize) -> (r: Option<Param<'e>>)
    requires
        record.wf(),
    ensures
        match param_view(record.params_view(), index as nat) {
            Some(v) => r matches Some(p) && param_model(p) == v && p.wf() && p.reads(record.src_view()),
            None => r is None,
        },
{
    record.param(index)
}

/// The reference that parameter `pv` makes.
pub open spec fn ref_of(pv: Option<ParamView>) -> Option<u64> {
    match pv {
        Some(ParamView::Reference(id)) => Some(id),
        _ => None,
    }
}

/// A string attribute: parameter `pv` decoded; `None` if it is unset or
/// not a string.
pub open spec fn text_of(src: Seq<u8>, pv: Option<ParamView>) -> Option<Seq<char>> {
    match pv {
        Some(ParamView::Literal(t)) => match decoded(src, t.span) {
            Ok(s) => Some(s),
            Err(_) => None,
        },
        _ => None,
    }
}

/// A literal's value as written: a string decoded, any other literal (or a
/// string that does not decode) its source text.
pub open spec fn literal_text(src: Seq<u8>, t: Token) -> Seq<char> {
    match decoded(src, t.span) {
        Ok(s) => s,
        Err(_) => lossy_text(t.span.of(src)),
    }
}

/// A typed value such as `VOLUME_MEASURE(96858.9)`: its upper-cased type
/// and its value's source text; for a plain literal, no type and its text;
/// for anything else, or no parameter, no type and no text.
pub open spec fn typed_of(src: Seq<u8>, pv: Option<ParamView>) -> (Option<Seq<char>>, Seq<char>) {
    match pv {
        Some(ParamView::Typed(name, params)) => (
            Some(upper_name(name.span.of(src))),
            match param_view(params, 0) {
                Some(ParamView::Literal(t)) => literal_text(src, t),
                _ => Seq::empty(),
            },
        ),
        Some(ParamView::Literal(t)) => (None, literal_text(src, t)),
        _ => (None, Seq::empty()),
    }
}

/// The reference parameter `index` of `record` makes.
pub(crate) fn ref_at(record: Record, index: usize) -> (r: Option<u64>)
    requires
        record.wf(),
    ensures
        r == ref_of(param_view(record.params_view(), index as nat)),
{
    match param_at(record, index) {
        Some(p) => p.reference(),
        None => None,
    }
}

/// String attribute `index` of `record`.
pub(crate) fn text_at(record: Record, index: usize) -> (r: Option<String>)
    requires
        record.wf(),
    ensures
        crate::info::option_view(r) == text_of(record.src_view(), param_view(record.params_view(), index as nat)),
{
    match param_at(record, index) {
        Some(p) => match p.literal() {
            Some(literal) => match literal.decode() {
                Ok(s) => Some(s),
                Err(_) => None,
            },
            None => None,
        },
        None => None,
    }
}

/// The value of `literal` as written.
pub(crate) fn literal_value(literal: crate::p21::exchange::Literal) -> (s: String)
    requires
        literal.wf(),
    ensures
        s@ == literal_text(literal.src_view(), literal.token_view()),
{
    match literal.decode() {
        Ok(s) => s,
        Err(_) => lossy(literal.text()),
    }
}

/// The type and value text of parameter `index` of `record`.
fn typed_at(record: Record, index: usize) -> (r: (Option<String>, String))
    requires
        record.wf(),
    ensures
        (crate::info::option_view(r.0), r.1@) == typed_of(record.src_view(), param_view(record.params_view(), index as nat)),
{
    match param_at(record, index) {
        Some(p) => match p.typed() {
            Some(typed) => {
                let name = crate::info::upper_name_of(typed.name());
                let value = match param_at(typed, 0) {
                    Some(q) => match q.literal() {
                        Some(l) => literal_value(l),
                        None => String::new(),
                    },
                    None => String::new(),
                };
                (Some(name), value)
            },
            None => match p.literal() {
                Some(l) => (None, literal_value(l)),
                None => (None, String::new()),
            },
        },
        None => (None, String::new()),
    }
}

// ---------------------------------------------------------------------
// Instances.
// ---------------------------------------------------------------------

/// The upper-cased names of `recs` joined with `+`.
pub open spec fn joined_names(src: Seq<u8>, recs: Seq<(Token, Seq<Token>)>) -> Seq<char>
    decreases recs.len(),
{
    if recs.len() == 0 {
        Seq::empty()
    } else if recs.len() == 1 {
        upper_name(recs[0].0.span.of(src))
    } else {
        joined_names(src, recs.drop_last()) + "+"@ + upper_name(recs.last().0.span.of(src))
    }
}

/// The entities, upper-cased and joined with `+`, of instance `inst`.
pub open spec fn entity_of(ex: Exchange, inst: Instance) -> Seq<char> {
    joined_names(ex.src_view(), ex.records_view(inst))
}

/// The entities, upper-cased and joined with `+`, of `instance`.
pub(crate) fn entity(exchange: &Exchange, instance: &Instance) -> (s: String)
    requires
        exchange.wf(),
    ensures
        s@ == entity_of(*exchange, *instance),
{
    let ghost src = exchange.src_view();
    let ghost recs = exchange.records_view(*instance);
    let records = exchange.records(instance).to_vec();
    let mut out = String::new();
    let mut k: usize = 0;
    while k < records.len()
        invariant
            crate::info::records_are(records@, src, recs),
            k <= records@.len(),
            out@ == joined_names(src, recs.take(k as int)),
        decreases records@.len() - k,
    {
        let name = crate::info::upper_name_of(records[k].name());
        proof {
            assert(recs.take(k + 1).drop_last() =~= recs.take(k as int));
            assert(recs.take(k + 1).last() == recs[k as int]);
        }
        if k > 0 {
            out.append("+");
        }
        out.append(name.as_str());
        proof {
            if k == 0 {
                assert(recs.take(1)[0] == recs[0]);
                assert(out@ =~= joined_names(src, recs.take(k + 1)));
            } else {
                assert(out@ =~= joined_names(src, recs.take(k + 1)));
            }
        }
        k = k + 1;
    }
    proof {
        assert(recs.take(k as int) =~= recs);
    }
    out
}

/// The references among the parameters of `ps`, in order.
fn list_references(items: crate::p21::exchange::Params) -> (v: Vec<u64>)
    requires
        items.wf(),
    ensures
        v@ == references_among(params_of(items.tokens_view())),
{
    let ghost all = items.tokens_view();
    let mut ps = items;
    let ghost mut seen: Seq<Seq<Token>> = Seq::empty();
    let mut out: Vec<u64> = Vec::new();
    loop
        invariant
            ps.wf(),
            all == items.tokens_view(),
            params_of(all) == seen + params_of(ps.tokens_view()),
            out@ == references_among(seen),
        decreases ps.tokens_view().len(),
    {
        let ghost ts = ps.tokens_view();
        proof {
            crate::p21::exchange::lemma_skip_separators(ts, 0);
        }
        match ps.next_tokens() {
            None => {
                proof {
                    assert(params_of(ts) =~= Seq::<Seq<Token>>::empty());
                    assert(seen + params_of(ts) =~= seen);
                }
                return out;
            },
            Some(pt) => {
                proof {
                    let k = skip_separators(ts, 0);
                    crate::p21::exchange::lemma_after_param(ts, k);
                    assert(params_of(ts) == seq![pt@] + params_of(ps.tokens_view()));
                    assert(seen + params_of(ts) =~= seen.push(pt@) + params_of(ps.tokens_view()));
                    assert(seen.push(pt@).drop_last() =~= seen);
                    seen = seen.push(pt@);
                }
                if pt.len() == 1 {
                    match pt[0].kind {
                        TokenKind::InstanceName(id) => {
                            out.push(id);
                        },
                        _ => {},
                    }
                }
            },
        }
    }
}

/// The references in list parameter `pv`, in order.
pub open spec fn list_refs(pv: Option<ParamView>) -> Seq<u64> {
    match pv {
        Some(ParamView::List(items)) => references_among(params_of(items)),
        _ => Seq::empty(),
    }
}

/// The references in list parameter `index` of `record`.
pub(crate) fn list_refs_at(record: Record, index: usize) -> (v: Vec<u64>)
    requires
        record.wf(),
    ensures
        v@ == list_refs(param_view(record.params_view(), index as nat)),
{
    match param_at(record, index) {
        Some(p) => match p.list() {
            Some(items) => list_references(items),
            None => Vec::new(),
        },
        None => Vec::new(),
    }
}

/// The items of representation `#id`, in order.
pub open spec fn representation_items_of(ex: Exchange, id: u64) -> Seq<u64> {
    if ex.index_view().contains_key(id) {
        let inst = ex.instances_view()[ex.index_view()[id] as int];
        let recs = ex.records_view(inst);
        let base = if inst.complex {
            first_rec(ex.src_view(), recs, "REPRESENTATION", 0)
        } else if recs.len() > 0 {
            Some(0int)
        } else {
            None
        };
        match base {
            Some(b) => list_refs(param_view(recs[b].1, 1)),
            None => Seq::empty(),
        }
    } else {
        Seq::empty()
    }
}

/// The items of representation `#id`, in order.
pub(crate) fn representation_items(exchange: &Exchange, id: u64) -> (v: Vec<u64>)
    requires
        exchange.wf(),
    ensures
        v@ == representation_items_of(*exchange, id),
{
    let instance = match exchange.get(id) {
        Some(i) => i,
        None => {
            return Vec::new();
        },
    };
    let records = exchange.records(instance).to_vec();
    let ghost recs = exchange.records_view(*instance);
    let base = if instance.is_complex() {
        crate::lint::find_rec(&records, "REPRESENTATION", Ghost(exchange.src_view()), Ghost(recs))
    } else if records.len() > 0 {
        Some(0)
    } else {
        None
    };
    match base {
        Some(b) => list_refs_at(records[b], 1),
        None => Vec::new(),
    }
}

// ---------------------------------------------------------------------
// Values.
// ---------------------------------------------------------------------

/// One value of a property: one representation item.
#[derive(Debug, Clone, PartialEq, Eq)]
pub struct Value {
    /// The `#id` of the representation item.
    pub instance: u64,
    /// The item's name.
    pub name: Option<String>,
    /// The measure type, such as `VOLUME_MEASURE`, for measure and value
    /// items; the entity type for other items.
    pub measure: Option<String>,
    /// The value as written: a number's source text, a decoded string, or
    /// for items that are not values (a centroid point, say) the item's
    /// whole instance text.
    pub value: String,
    /// The `#id` of the unit, for measures with one.
    pub unit: Option<u64>,
}

/// A [`Value`] as plain values.
pub struct ValueView {
    pub instance: u64,
    pub name: Option<Seq<char>>,
    pub measure: Option<Seq<char>>,
    pub value: Seq<char>,
    pub unit: Option<u64>,
}

impl View for Value {
    type V = ValueView;

    open spec fn view(&self) -> ValueView {
        ValueView {
            instance: self.instance,
            name: crate::info::option_view(self.name),
            measure: crate::info::option_view(self.measure),
            value: self.value@,
            unit: self.unit,
        }
    }
}

/// The views of `v`.
pub open spec fn value_views(v: Seq<Value>) -> Seq<ValueView> {
    v.map_values(|x: Value| x@)
}

/// Instance `inst` (`#id`) kept whole: its first record's name, its
/// entities and its text.
pub open spec fn whole_value(ex: Exchange, id: u64, inst: Instance) -> ValueView {
    let src = ex.src_view();
    let recs = ex.records_view(inst);
    ValueView {
        instance: id,
        name: if recs.len() > 0 {
            text_of(src, param_view(recs[0].1, 0))
        } else {
            None
        },
        measure: Some(entity_of(ex, inst)),
        value: lossy_text(inst.span.of(src)),
        unit: None,
    }
}

/// The value of a simple instance `#id` whose record is `r`, if it is a
/// value item.
pub open spec fn simple_value(src: Seq<u8>, id: u64, r: (Token, Seq<Token>)) -> Option<ValueView> {
    let p = |i: nat| param_view(r.1, i);
    if rec_named(src, r, "MEASURE_REPRESENTATION_ITEM") || rec_named(src, r, "VALUE_REPRESENTATION_ITEM") {
        let (kind, v) = typed_of(src, p(1));
        Some(ValueView { instance: id, name: text_of(src, p(0)), measure: kind, value: v, unit: ref_of(p(2)) })
    } else if ends_with_ignore_case(r.0.span.of(src), "MEASURE_WITH_UNIT".spec_bytes()) && param_count(r.1) == 2 {
        let (kind, v) = typed_of(src, p(0));
        Some(ValueView { instance: id, name: None, measure: kind, value: v, unit: ref_of(p(1)) })
    } else if rec_named(src, r, "DESCRIPTIVE_REPRESENTATION_ITEM") {
        Some(
            ValueView {
                instance: id,
                name: text_of(src, p(0)),
                measure: None,
                value: match text_of(src, p(1)) {
                    Some(t) => t,
                    None => Seq::empty(),
                },
                unit: None,
            },
        )
    } else if ends_with_ignore_case(r.0.span.of(src), "_REPRESENTATION_ITEM".spec_bytes()) && param_count(r.1) == 2 {
        match p(1) {
            Some(ParamView::Literal(t)) => Some(
                ValueView { instance: id, name: text_of(src, p(0)), measure: None, value: literal_text(src, t), unit: None },
            ),
            _ => None,
        }
    } else {
        None
    }
}

/// Instance `#id` read as a value: a measure, a descriptive or literal
/// item, or failing those its whole text; `None` if the file does not
/// define it.
pub open spec fn value_of(ex: Exchange, id: u64) -> Option<ValueView> {
    if ex.index_view().contains_key(id) {
        let inst = ex.instances_view()[ex.index_view()[id] as int];
        let src = ex.src_view();
        let recs = ex.records_view(inst);
        if inst.complex {
            match (first_rec(src, recs, "REPRESENTATION_ITEM", 0), first_rec(src, recs, "MEASURE_WITH_UNIT", 0)) {
                (Some(i), Some(m)) => {
                    let (kind, v) = typed_of(src, param_view(recs[m].1, 0));
                    Some(
                        ValueView {
                            instance: id,
                            name: text_of(src, param_view(recs[i].1, 0)),
                            measure: kind,
                            value: v,
                            unit: ref_of(param_view(recs[m].1, 1)),
                        },
                    )
                },
                _ => Some(whole_value(ex, id, inst)),
            }
        } else if recs.len() > 0 {
            match simple_value(src, id, recs[0]) {
                Some(v) => Some(v),
                None => Some(whole_value(ex, id, inst)),
            }
        } else {
            Some(whole_value(ex, id, inst))
        }
    } else {
        None
    }
}

/// The value of the simple instance `#id` whose record is `record`, if it
/// is a value item.
fn simple_value_at(id: u64, record: Record) -> (r: Option<Value>)
    requires
        record.wf(),
    ensures
        match simple_value(record.src_view(), id, (record.name_token(), record.params_view())) {
            Some(v) => r matches Some(x) && x@ == v,
            None => r is None,
        },
{
    if record.is("MEASURE_REPRESENTATION_ITEM") || record.is("VALUE_REPRESENTATION_ITEM") {
        let (kind, value) = typed_at(record, 1);
        return Some(Value { instance: id, name: text_at(record, 0), measure: kind, value, unit: ref_at(record, 2) });
    }
    let count = record.params().count();
    if crate::text::bytes_end_with_ignore_case(record.name(), "MEASURE_WITH_UNIT".as_bytes()) && count == 2 {
        let (kind, value) = typed_at(record, 0);
        return Some(Value { instance: id, name: None, measure: kind, value, unit: ref_at(record, 1) });
    }
    if record.is("DESCRIPTIVE_REPRESENTATION_ITEM") {
        let value = match text_at(record, 1) {
            Some(t) => t,
            None => String::new(),
        };
        return Some(Value { instance: id, name: text_at(record, 0), measure: None, value, unit: None });
    }
    if crate::text::bytes_end_with_ignore_case(record.name(), "_REPRESENTATION_ITEM".as_bytes()) && count == 2 {
        match param_at(record, 1) {
            Some(p) => match p.literal() {
                Some(l) => {
                    return Some(
                        Value { instance: id, name: text_at(record, 0), measure: None, value: literal_value(l), unit: None },
                    );
                },
                None => {
                    return None;
                },
            },
            None => {
                return None;
            },
        }
    }
    None
}

/// Instance `instance` (`#id`) kept whole.
fn whole_value_of(exchange: &Exchange, id: u64, instance: &Instance, records: &Vec<Record>) -> (v: Value)
    requires
        exchange.wf(),
        exists|p: int| 0 <= p < exchange.instances_view().len() && exchange.instances_view()[p] == *instance,
        crate::info::records_are(records@, exchange.src_view(), exchange.records_view(*instance)),
    ensures
        v@ == whole_value(*exchange, id, *instance),
{
    proof {
        let p = choose|p: int| 0 <= p < exchange.instances_view().len() && exchange.instances_view()[p] == *instance;
        assert(crate::p21::exchange::instance_ok(exchange.src_view(), exchange.tokens_view(), exchange.instances_view()[p]));
    }
    let name = if records.len() > 0 {
        text_at(records[0], 0)
    } else {
        None
    };
    Value {
        instance: id,
        name,
        measure: Some(entity(exchange, instance)),
        value: lossy(exchange.text(instance)),
        unit: None,
    }
}

/// Instance `#id` read as a value.
pub(crate) fn value(exchange: &Exchange, id: u64) -> (r: Option<Value>)
    requires
        exchange.wf(),
    ensures
        match value_of(*exchange, id) {
            Some(v) => r matches Some(x) && x@ == v,
            None => r is None,
        },
{
    let ghost src = exchange.src_view();
    let instance = match exchange.get(id) {
        Some(i) => i,
        None => {
            return None;
        },
    };
    let ghost recs = exchange.records_view(*instance);
    let records = exchange.records(instance).to_vec();
    proof {
        assert(exchange.instances_view()[exchange.index_view()[id] as int] == *instance);
    }
    if instance.is_complex() {
        let item = crate::lint::find_rec(&records, "REPRESENTATION_ITEM", Ghost(src), Ghost(recs));
        let measure = crate::lint::find_rec(&records, "MEASURE_WITH_UNIT", Ghost(src), Ghost(recs));
        match (item, measure) {
            (Some(i), Some(m)) => {
                let (kind, value) = typed_at(records[m], 0);
                return Some(
                    Value { instance: id, name: text_at(records[i], 0), measure: kind, value, unit: ref_at(records[m], 1) },
                );
            },
            _ => {},
        }
    } else if records.len() > 0 {
        match simple_value_at(id, records[0]) {
            Some(v) => {
                return Some(v);
            },
            None => {},
        }
    }
    Some(whole_value_of(exchange, id, instance, &records))
}

// ---------------------------------------------------------------------
// Subjects.
// ---------------------------------------------------------------------

/// What a property or identifier is attached to.
#[derive(Debug, Clone, PartialEq, Eq)]
pub struct Subject {
    /// The `#id` the property or identifier points at.
    pub instance: u64,
    /// Its upper-cased entity type; for a complex instance, the partial
    /// entities joined with `+`.
    pub entity: String,
    /// The product definition it belongs to, found by following product
    /// definition shapes, shape aspects and property definitions; `None` if
    /// that leads nowhere, as for a property of an assembly usage.
    pub product_definition: Option<u64>,
}

/// A [`Subject`] as plain values.
pub struct SubjectView {
    pub instance: u64,
    pub entity: Seq<char>,
    pub product_definition: Option<u64>,
}

impl View for Subject {
    type V = SubjectView;

    open spec fn view(&self) -> SubjectView {
        SubjectView { instance: self.instance, entity: self.entity@, product_definition: self.product_definition }
    }
}

/// True if `pat` occurs in `s`.
pub open spec fn contains_text(s: Seq<char>, pat: Seq<char>) -> bool {
    exists|i: int| 0 <= i <= s.len() - pat.len() && #[trigger] s.subrange(i, i + pat.len()) == pat
}

/// True if `s` starts with `pat`.
pub open spec fn starts_with_text(s: Seq<char>, pat: Seq<char>) -> bool {
    pat.len() <= s.len() && s.subrange(0, pat.len() as int) == pat
}

/// True if a record with upper-cased name `n` keeps what it describes as
/// attribute 2: a shape, a shape aspect (or a subtype, such as a datum) or
/// a property definition.
pub open spec fn describes(n: Seq<char>) -> bool {
    n == "PRODUCT_DEFINITION_SHAPE"@ || n == "PROPERTY_DEFINITION"@ || contains_text(n, "SHAPE_ASPECT"@)
        || starts_with_text(n, "DATUM"@)
}

/// The first of `recs[k..]` that [`describes`] something.
pub open spec fn first_describing(src: Seq<u8>, recs: Seq<(Token, Seq<Token>)>, k: int) -> Option<int>
    decreases recs.len() - k,
{
    if k < 0 || k >= recs.len() {
        None
    } else if describes(upper_name(recs[k].0.span.of(src))) {
        Some(k)
    } else {
        first_describing(src, recs, k + 1)
    }
}

/// The product definition among `defs` that `#current` belongs to, found
/// in at most `fuel` steps along attribute 2.
pub open spec fn owner(ex: Exchange, defs: Seq<u64>, current: u64, fuel: nat) -> Option<u64>
    decreases fuel,
{
    if fuel == 0 {
        None
    } else if defs.contains(current) {
        Some(current)
    } else if !ex.index_view().contains_key(current) {
        None
    } else {
        let recs = ex.records_view(ex.instances_view()[ex.index_view()[current] as int]);
        match first_describing(ex.src_view(), recs, 0) {
            Some(k) => match ref_of(param_view(recs[k].1, 2)) {
                Some(next) => owner(ex, defs, next, (fuel - 1) as nat),
                None => None,
            },
            None => None,
        }
    }
}

/// What `#target` is and which of the product definitions `defs` it
/// belongs to, within 16 steps.
pub open spec fn subject_of(ex: Exchange, defs: Seq<u64>, target: u64) -> SubjectView {
    SubjectView {
        instance: target,
        entity: if ex.index_view().contains_key(target) {
            entity_of(ex, ex.instances_view()[ex.index_view()[target] as int])
        } else {
            Seq::empty()
        },
        product_definition: owner(ex, defs, target, 16),
    }
}

/// True if `pat` occurs in `s` at `i`.
pub(crate) fn occurs_at(s: &str, pat: &str, i: usize) -> (b: bool)
    requires
        i + pat@.len() <= s@.len(),
    ensures
        b == (s@.subrange(i as int, i + pat@.len()) == pat@),
{
    let n = s.unicode_len();
    let m = pat.unicode_len();
    let mut j: usize = 0;
    while j < m
        invariant
            n == s@.len(),
            m == pat@.len(),
            i + m <= s@.len(),
            j <= m,
            forall|q: int| 0 <= q < j ==> s@[i + q] == pat@[q],
        decreases m - j,
    {
        if s.get_char(i + j) != pat.get_char(j) {
            proof {
                assert(s@.subrange(i as int, i + m)[j as int] != pat@[j as int]);
            }
            return false;
        }
        j = j + 1;
    }
    proof {
        assert(s@.subrange(i as int, i + m) =~= pat@);
    }
    true
}

/// True if `pat` occurs in `s`.
fn has_text(s: &str, pat: &str) -> (b: bool)
    ensures
        b == contains_text(s@, pat@),
{
    let n = s.unicode_len();
    let m = pat.unicode_len();
    if m > n {
        return false;
    }
    let mut i: usize = 0;
    loop
        invariant
            n == s@.len(),
            m == pat@.len(),
            m <= n,
            i <= n - m,
            forall|q: int| 0 <= q < i ==> #[trigger] s@.subrange(q, q + m) != pat@,
        decreases n - m - i,
    {
        if occurs_at(s, pat, i) {
            return true;
        }
        if i == n - m {
            return false;
        }
        i = i + 1;
    }
}

/// True if the record named `name` (upper case) describes something.
fn describes_exec(name: &String) -> (b: bool)
    ensures
        b == describes(name@),
{
    let s = name.as_str();
    let n = s.unicode_len();
    proof {
        reveal_strlit("DATUM");
    }
    *name == crate::text::owned("PRODUCT_DEFINITION_SHAPE") || *name == crate::text::owned("PROPERTY_DEFINITION")
        || has_text(s, "SHAPE_ASPECT") || (5 <= n && occurs_at(s, "DATUM", 0))
}

/// The first record of `records` that describes something.
fn find_describing(records: &Vec<Record>, Ghost(src): Ghost<Seq<u8>>, Ghost(recs): Ghost<Seq<(Token, Seq<Token>)>>) -> (r: Option<usize>)
    requires
        crate::info::records_are(records@, src, recs),
    ensures
        match first_describing(src, recs, 0) {
            Some(k) => r matches Some(i) && i as int == k && k < recs.len(),
            None => r is None,
        },
{
    let mut k: usize = 0;
    while k < records.len()
        invariant
            crate::info::records_are(records@, src, recs),
            k <= records@.len(),
            first_describing(src, recs, 0) == first_describing(src, recs, k as int),
        decreases records@.len() - k,
    {
        let name = crate::info::upper_name_of(records[k].name());
        if describes_exec(&name) {
            return Some(k);
        }
        k = k + 1;
    }
    None
}

/// True if `defs` holds `id`.
pub(crate) fn holds(defs: &[u64], id: u64) -> (b: bool)
    ensures
        b == defs@.contains(id),
{
    let mut k: usize = 0;
    while k < defs.len()
        invariant
            k <= defs@.len(),
            forall|q: int| 0 <= q < k ==> defs@[q] != id,
        decreases defs@.len() - k,
    {
        if defs[k] == id {
            proof {
                assert(defs@[k as int] == id);
            }
            return true;
        }
        k = k + 1;
    }
    false
}

/// What `#target` is and which of `definitions` it belongs to.
pub(crate) fn subject(exchange: &Exchange, definitions: &[u64], target: u64) -> (s: Subject)
    requires
        exchange.wf(),
    ensures
        s@ == subject_of(*exchange, definitions@, target),
{
    let ghost ex = *exchange;
    let entity_name = match exchange.get(target) {
        Some(instance) => entity(exchange, instance),
        None => String::new(),
    };
    let mut current = target;
    let mut product_definition: Option<u64> = None;
    let mut fuel: usize = 16;
    let mut done = false;
    while fuel > 0 && !done
        invariant
            ex == *exchange,
            ex.wf(),
            fuel <= 16,
            done ==> product_definition == owner(ex, definitions@, target, 16),
            !done ==> owner(ex, definitions@, target, 16) == owner(ex, definitions@, current, fuel as nat),
            !done ==> product_definition is None,
        decreases fuel * 2 + if done {
            0int
        } else {
            1int
        },
    {
        if holds(definitions, current) {
            product_definition = Some(current);
            done = true;
        } else {
            match exchange.get(current) {
                None => {
                    done = true;
                },
                Some(instance) => {
                    let records = exchange.records(instance).to_vec();
                    let ghost recs = ex.records_view(*instance);
                    match find_describing(&records, Ghost(ex.src_view()), Ghost(recs)) {
                        Some(k) => match ref_at(records[k], 2) {
                            Some(next) => {
                                current = next;
                                fuel = fuel - 1;
                            },
                            None => {
                                done = true;
                            },
                        },
                        None => {
                            done = true;
                        },
                    }
                },
            }
        }
    }
    Subject { instance: target, entity: entity_name, product_definition }
}

// ---------------------------------------------------------------------
// Properties and identifiers.
// ---------------------------------------------------------------------

/// Everything [`properties`] found.
#[derive(Debug, Clone, PartialEq, Eq)]
pub struct Properties {
    /// Every `property_definition`, in file order.
    pub properties: Vec<Property>,
    /// Every `id_attribute`, in file order.
    pub identifiers: Vec<Identifier>,
}

/// One `property_definition` and its values.
#[derive(Debug, Clone, PartialEq, Eq)]
pub struct Property {
    /// The `#id` of the `property_definition`.
    pub instance: u64,
    /// What kind of property this is.
    pub kind: PropertyKind,
    /// `property_definition.name`.
    pub name: Option<String>,
    /// `property_definition.description`.
    pub description: Option<String>,
    /// What the property describes.
    pub subject: Subject,
    /// Values from every representation tied to the property, in order.
    pub values: Vec<Value>,
}

/// The kind of a property.
#[derive(Debug, Clone, Copy, PartialEq, Eq, Structural)]
pub enum PropertyKind {
    /// A validation property: geometric (volume, area, centroid, …) or of
    /// attributes (how many user attributes of each type), named
    /// `geometric validation property` or `attribute validation property`,
    /// with spaces or underscores.
    Validation,
    /// A user-defined attribute: associated with a `general_property`, or
    /// described as `user defined attribute`.
    UserDefined,
    /// Anything else.
    Other,
}

/// One `id_attribute`: a persistent identifier.
#[derive(Debug, Clone, PartialEq, Eq)]
pub struct Identifier {
    /// The `#id` of the `id_attribute`.
    pub instance: u64,
    /// The identifier.
    pub id: String,
    /// What it identifies.
    pub subject: Subject,
}

/// A [`Property`] as plain values.
pub struct PropertyView {
    pub instance: u64,
    pub kind: PropertyKind,
    pub name: Option<Seq<char>>,
    pub description: Option<Seq<char>>,
    pub subject: SubjectView,
    pub values: Seq<ValueView>,
}

impl View for Property {
    type V = PropertyView;

    open spec fn view(&self) -> PropertyView {
        PropertyView {
            instance: self.instance,
            kind: self.kind,
            name: crate::info::option_view(self.name),
            description: crate::info::option_view(self.description),
            subject: self.subject@,
            values: value_views(self.values@),
        }
    }
}

/// An [`Identifier`] as plain values.
pub struct IdentifierView {
    pub instance: u64,
    pub id: Seq<char>,
    pub subject: SubjectView,
}

impl View for Identifier {
    type V = IdentifierView;

    open spec fn view(&self) -> IdentifierView {
        IdentifierView { instance: self.instance, id: self.id@, subject: self.subject@ }
    }
}

/// `c`, with `_` read as a space and ASCII letters in lower case.
pub open spec fn label_char(c: char) -> char {
    crate::info::lower_char(if c == '_' { ' ' } else { c })
}

/// True if `field` is `expected` with underscores read as spaces and
/// ASCII case ignored.
pub open spec fn label_is(field: Option<Seq<char>>, expected: Seq<char>) -> bool {
    match field {
        Some(t) => t.len() == expected.len() && forall|i: int| 0 <= i < t.len() ==> label_char(t[i]) == label_char(expected[i]),
        None => false,
    }
}

/// The kind of a property with `name` and `description`; `general` if a
/// `general_property_association` names it.
pub open spec fn kind_of(name: Option<Seq<char>>, description: Option<Seq<char>>, general: bool) -> PropertyKind {
    if label_is(name, "geometric validation property"@) || label_is(name, "attribute validation property"@) {
        PropertyKind::Validation
    } else if general || label_is(description, "user defined attribute"@) {
        PropertyKind::UserDefined
    } else {
        PropertyKind::Other
    }
}

/// The values of the items `items`, in order, leaving out those the file
/// does not define.
pub open spec fn values_of(ex: Exchange, items: Seq<u64>) -> Seq<ValueView>
    decreases items.len(),
{
    if items.len() == 0 {
        Seq::empty()
    } else {
        values_of(ex, items.drop_last()) + match value_of(ex, items.last()) {
            Some(v) => seq![v],
            None => Seq::empty(),
        }
    }
}

/// The values and whether a general property is associated, after looking
/// at `user`, a node that refers to the property definition `#id`.
pub open spec fn link_step(g: Graph, id: u64, user: usize, values: Seq<ValueView>, general: bool) -> (Seq<ValueView>, bool) {
    let ex = g.exchange_view();
    let src = ex.src_view();
    match crate::assemble::first_record(g, user as int) {
        Some(link) => {
            let pv = |k: nat| param_view(link.1, k);
            if (rec_named(src, link, "PROPERTY_DEFINITION_REPRESENTATION") || rec_named(src, link, "SHAPE_DEFINITION_REPRESENTATION"))
                && ref_of(pv(0)) == Some(id) {
                let items = match ref_of(pv(1)) {
                    Some(rep) => representation_items_of(ex, rep),
                    None => Seq::empty(),
                };
                (values + values_of(ex, items), general)
            } else if rec_named(src, link, "GENERAL_PROPERTY_ASSOCIATION") && ref_of(pv(3)) == Some(id) {
                (values, true)
            } else {
                (values, general)
            }
        },
        None => (values, general),
    }
}

/// The values and general flag after looking at each of `users` in turn.
pub open spec fn links_fold(g: Graph, id: u64, users: Seq<usize>) -> (Seq<ValueView>, bool)
    decreases users.len(),
{
    if users.len() == 0 {
        (Seq::empty(), false)
    } else {
        let (v, gen) = links_fold(g, id, users.drop_last());
        link_step(g, id, users.last(), v, gen)
    }
}

/// The property that node `n` defines, if it is a simple
/// `property_definition` with a reference as attribute 2.
pub open spec fn property_at(g: Graph, defs: Seq<u64>, n: int) -> Option<PropertyView> {
    let ex = g.exchange_view();
    let src = ex.src_view();
    let inst = ex.instances_view()[n];
    match crate::assemble::first_record(g, n) {
        Some(r) => if !inst.complex && rec_named(src, r, "PROPERTY_DEFINITION") {
            match ref_of(param_view(r.1, 2)) {
                Some(target) => {
                    let name = text_of(src, param_view(r.1, 0));
                    let description = text_of(src, param_view(r.1, 1));
                    let (values, general) = links_fold(g, inst.id, g.backward_view()[n]);
                    Some(
                        PropertyView {
                            instance: inst.id,
                            kind: kind_of(name, description, general),
                            name,
                            description,
                            subject: subject_of(ex, defs, target),
                            values,
                        },
                    )
                },
                None => None,
            }
        } else {
            None
        },
        None => None,
    }
}

/// The identifier that node `n` defines, if it is a simple `id_attribute`
/// with a string and a reference.
pub open spec fn identifier_at(g: Graph, defs: Seq<u64>, n: int) -> Option<IdentifierView> {
    let ex = g.exchange_view();
    let src = ex.src_view();
    let inst = ex.instances_view()[n];
    match crate::assemble::first_record(g, n) {
        Some(r) => if !inst.complex && !rec_named(src, r, "PROPERTY_DEFINITION") && rec_named(src, r, "ID_ATTRIBUTE") {
            match (text_of(src, param_view(r.1, 0)), ref_of(param_view(r.1, 1))) {
                (Some(id), Some(target)) => Some(IdentifierView { instance: inst.id, id, subject: subject_of(ex, defs, target) }),
                _ => None,
            }
        } else {
            None
        },
        None => None,
    }
}

/// The properties of the first `n` nodes, in file order.
pub open spec fn properties_upto(g: Graph, defs: Seq<u64>, n: int) -> Seq<PropertyView>
    decreases n,
{
    if n <= 0 {
        Seq::empty()
    } else {
        properties_upto(g, defs, n - 1) + match property_at(g, defs, n - 1) {
            Some(p) => seq![p],
            None => Seq::empty(),
        }
    }
}

/// The identifiers of the first `n` nodes, in file order.
pub open spec fn identifiers_upto(g: Graph, defs: Seq<u64>, n: int) -> Seq<IdentifierView>
    decreases n,
{
    if n <= 0 {
        Seq::empty()
    } else {
        identifiers_upto(g, defs, n - 1) + match identifier_at(g, defs, n - 1) {
            Some(i) => seq![i],
            None => Seq::empty(),
        }
    }
}

/// The views of `v`.
pub open spec fn property_views(v: Seq<Property>) -> Seq<PropertyView> {
    v.map_values(|p: Property| p@)
}

/// The views of `v`.
pub open spec fn identifier_views(v: Seq<Identifier>) -> Seq<IdentifierView> {
    v.map_values(|i: Identifier| i@)
}

/// True if `field` is `expected` with underscores read as spaces and
/// ASCII case ignored.
fn label_matches(field: &Option<String>, expected: &str) -> (b: bool)
    ensures
        b == label_is(crate::info::option_view(*field), expected@),
{
    match field {
        Some(t) => {
            let s = t.as_str();
            let n = s.unicode_len();
            if n != expected.unicode_len() {
                return false;
            }
            let mut i: usize = 0;
            while i < n
                invariant
                    n == s@.len(),
                    n == expected@.len(),
                    s@ == t@,
                    crate::info::option_view(*field) == Some(t@),
                    i <= n,
                    forall|q: int| 0 <= q < i ==> label_char(s@[q]) == label_char(expected@[q]),
                decreases n - i,
            {
                let a = s.get_char(i);
                let b = expected.get_char(i);
                let a2 = if a == '_' {
                    ' '
                } else {
                    a
                };
                let b2 = if b == '_' {
                    ' '
                } else {
                    b
                };
                if crate::info::lower_char_exec(a2) != crate::info::lower_char_exec(b2) {
                    proof {
                        assert(label_char(t@[i as int]) != label_char(expected@[i as int]));
                    }
                    return false;
                }
                i = i + 1;
            }
            true
        },
        None => false,
    }
}

/// Appends the values of `items`, leaving out those the file does not
/// define.
pub(crate) fn push_values(exchange: &Exchange, items: &Vec<u64>, values: &mut Vec<Value>)
    requires
        exchange.wf(),
    ensures
        value_views(final(values)@) == value_views(old(values)@) + values_of(*exchange, items@),
{
    let ghost start = value_views(values@);
    let mut k: usize = 0;
    while k < items.len()
        invariant
            exchange.wf(),
            k <= items@.len(),
            value_views(values@) == start + values_of(*exchange, items@.take(k as int)),
        decreases items@.len() - k,
    {
        proof {
            assert(items@.take(k + 1).drop_last() =~= items@.take(k as int));
            assert(items@.take(k + 1).last() == items@[k as int]);
        }
        let ghost before = values@;
        match value(exchange, items[k]) {
            Some(v) => {
                values.push(v);
                proof {
                    assert(value_views(values@) =~= value_views(before).push(values@.last()@));
                }
            },
            None => {},
        }
        proof {
            assert(value_views(values@) =~= start + values_of(*exchange, items@.take(k + 1)));
        }
        k = k + 1;
    }
    proof {
        assert(items@.take(k as int) =~= items@);
    }
}

/// The values of the property definition at `node` (`#id`) and whether a
/// general property is associated with it.
fn property_links(graph: &Graph, node: usize, id: u64) -> (r: (Vec<Value>, bool))
    requires
        graph.wf(),
        node < graph.exchange_view().instances_view().len(),
    ensures
        (value_views(r.0@), r.1) == links_fold(*graph, id, graph.backward_view()[node as int]),
{
    let ghost g = *graph;
    let exchange = graph.exchange();
    let users = graph.referenced_by(node);
    proof {
        crate::assemble::lemma_neighbours_are_nodes(g, node as int);
    }
    let mut values: Vec<Value> = Vec::new();
    let mut general = false;
    let mut j: usize = 0;
    proof {
        assert(value_views(values@) =~= Seq::<ValueView>::empty());
    }
    while j < users.len()
        invariant
            graph.wf(),
            g == *graph,
            *exchange == g.exchange_view(),
            crate::assemble::nodes_of(g, users@),
            j <= users@.len(),
            (value_views(values@), general) == links_fold(g, id, users@.take(j as int)),
        decreases users@.len() - j,
    {
        let user = users[j];
        proof {
            assert(users@.take(j + 1).drop_last() =~= users@.take(j as int));
            assert(users@.take(j + 1).last() == user);
            assert(user < g.exchange_view().instances_view().len());
        }
        match crate::assemble::first_of(graph, user) {
            Some(link) => {
                if (link.is("PROPERTY_DEFINITION_REPRESENTATION") || link.is("SHAPE_DEFINITION_REPRESENTATION"))
                    && ref_at(link, 0) == Some(id) {
                    let items = match ref_at(link, 1) {
                        Some(rep) => representation_items(exchange, rep),
                        None => Vec::new(),
                    };
                    push_values(exchange, &items, &mut values);
                } else if link.is("GENERAL_PROPERTY_ASSOCIATION") && ref_at(link, 3) == Some(id) {
                    general = true;
                }
            },
            None => {},
        }
        j = j + 1;
    }
    proof {
        assert(users@.take(j as int) =~= users@);
    }
    (values, general)
}

/// Finds every property and identifier in the file behind `graph`.
/// `definitions` are the `#id`s of the file's product definitions; they
/// say which instance a property or identifier belongs to.
pub fn properties_among(graph: &Graph, definitions: &[u64]) -> (r: Properties)
    requires
        graph.wf(),
    ensures
        property_views(r.properties@) == properties_upto(
            *graph,
            definitions@,
            graph.exchange_view().instances_view().len() as int,
        ),
        identifier_views(r.identifiers@) == identifiers_upto(
            *graph,
            definitions@,
            graph.exchange_view().instances_view().len() as int,
        ),
{
    let ghost g = *graph;
    let exchange = graph.exchange();
    let instances = exchange.instances();
    let mut properties: Vec<Property> = Vec::new();
    let mut identifiers: Vec<Identifier> = Vec::new();
    let mut node: usize = 0;
    proof {
        assert(property_views(properties@) =~= Seq::<PropertyView>::empty());
        assert(identifier_views(identifiers@) =~= Seq::<IdentifierView>::empty());
    }
    while node < instances.len()
        invariant
            graph.wf(),
            g == *graph,
            *exchange == g.exchange_view(),
            instances@ == g.exchange_view().instances_view(),
            node <= instances@.len(),
            property_views(properties@) == properties_upto(g, definitions@, node as int),
            identifier_views(identifiers@) == identifiers_upto(g, definitions@, node as int),
        decreases instances@.len() - node,
    {
        let instance = &instances[node];
        let ghost pbefore = properties@;
        let ghost ibefore = identifiers@;
        match crate::assemble::first_of(graph, node) {
            Some(record) => {
                if !instance.is_complex() {
                    if record.is("PROPERTY_DEFINITION") {
                        match ref_at(record, 2) {
                            Some(target) => {
                                let name = text_at(record, 0);
                                let description = text_at(record, 1);
                                let (values, general) = property_links(graph, node, instance.id);
                                let kind = if label_matches(&name, "geometric validation property") || label_matches(
                                    &name,
                                    "attribute validation property",
                                ) {
                                    PropertyKind::Validation
                                } else if general || label_matches(&description, "user defined attribute") {
                                    PropertyKind::UserDefined
                                } else {
                                    PropertyKind::Other
                                };
                                let subject = subject(exchange, definitions, target);
                                properties.push(
                                    Property { instance: instance.id, kind, name, description, subject, values },
                                );
                                proof {
                                    assert(property_views(properties@) =~= property_views(pbefore).push(properties@.last()@));
                                }
                            },
                            None => {},
                        }
                    } else if record.is("ID_ATTRIBUTE") {
                        match (text_at(record, 0), ref_at(record, 1)) {
                            (Some(id), Some(target)) => {
                                let subject = subject(exchange, definitions, target);
                                identifiers.push(Identifier { instance: instance.id, id, subject });
                                proof {
                                    assert(identifier_views(identifiers@) =~= identifier_views(ibefore).push(
                                        identifiers@.last()@,
                                    ));
                                }
                            },
                            _ => {},
                        }
                    }
                }
            },
            None => {},
        }
        proof {
            assert(property_views(properties@) =~= properties_upto(g, definitions@, node + 1));
            assert(identifier_views(identifiers@) =~= identifiers_upto(g, definitions@, node + 1));
        }
        node = node + 1;
    }
    Properties { properties, identifiers }
}

/// `o`, if it is there and not empty.
pub open spec fn nonempty(o: Option<Seq<char>>) -> Option<Seq<char>> {
    match o {
        Some(t) => if t.len() > 0 {
            Some(t)
        } else {
            None
        },
        None => None,
    }
}

/// The label of property `p`: the description of a validation property,
/// otherwise the name, each falling back to the other; empty if neither is
/// given.
pub open spec fn label_of(p: PropertyView) -> Seq<char> {
    let name = nonempty(p.name);
    let description = nonempty(p.description);
    let label = if p.kind == PropertyKind::Validation {
        if description is Some {
            description
        } else {
            name
        }
    } else if name is Some {
        name
    } else {
        description
    };
    match label {
        Some(t) => t,
        None => Seq::empty(),
    }
}

/// `o` as text, if it is there and not empty.
fn nonempty_str(o: &Option<String>) -> (r: Option<&str>)
    ensures
        match nonempty(crate::info::option_view(*o)) {
            Some(t) => r matches Some(s) && s@ == t,
            None => r is None,
        },
{
    match o {
        Some(t) => {
            let s = t.as_str();
            if s.unicode_len() > 0 {
                Some(s)
            } else {
                None
            }
        },
        None => None,
    }
}

impl Property {
    /// A name for display: the description of a validation property
    /// (`volume of #602`), otherwise the name, falling back to the
    /// description.
    pub fn label(&self) -> (s: &str)
        ensures
            s@ == label_of(self@),
    {
        let name = nonempty_str(&self.name);
        let description = nonempty_str(&self.description);
        let label = if self.kind == PropertyKind::Validation {
            match description {
                Some(d) => Some(d),
                None => name,
            }
        } else {
            match name {
                Some(n) => Some(n),
                None => description,
            }
        };
        match label {
            Some(l) => l,
            None => {
                proof {
                    reveal_strlit("");
                }
                ""
            },
        }
    }
}

/// Finds every property and identifier in the file behind `graph`, whose
/// product structure is `structure`.
pub fn properties(graph: &Graph, structure: &crate::model::ProductStructure) -> (r: Properties)
    requires
        graph.wf(),
    ensures
        ({
            let ids = structure.definitions_view().map_values(|d: crate::model::assembly::DefinitionView| d.instance);
            let n = graph.exchange_view().instances_view().len() as int;
            &&& property_views(r.properties@) == properties_upto(*graph, ids, n)
            &&& identifier_views(r.identifiers@) == identifiers_upto(*graph, ids, n)
        }),
{
    let ids = crate::model::assembly::definition_ids(structure);
    properties_among(graph, ids.as_slice())
}

} // verus!
