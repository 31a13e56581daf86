//! Checks a parsed file's records against a schema's attribute layout.
use vstd::prelude::*;
use vstd::string::*;
use super::parser::{upper_byte, word_of};
use super::schema::{
    closure_spec, layout_spec, own_slots_spec, position_of, slot_views, upper, Schema, Slot, SlotView,
};
use crate::p21::exchange::{
    first_param_tokens, param_count, param_tokens, params_after, skip_separators, tokens_between,
    Exchange, Instance, Params, Record,
};
use crate::p21::lexer::{Token, TokenKind};
use crate::text::{decimal, latin1, owned, push_char, push_decimal};

verus! {

/// One way an instance does not fit the schema.
#[derive(Debug, Clone, PartialEq, Eq)]
pub struct Problem {
    /// The instance name, `#id`.
    pub instance: u64,
    /// The upper-cased entity type of the record at fault.
    pub entity: String,
    /// What is wrong.
    pub kind: ProblemKind,
}

/// What is wrong with a record.
#[derive(Debug, Clone, PartialEq, Eq)]
pub enum ProblemKind {
    /// The entity type, or one of its supertypes, is not in the schema.
    UnknownEntity,
    /// The record has the wrong number of attributes.
    AttributeCount {
        /// Attributes the schema declares for this record.
        expected: usize,
        /// Attributes the record has.
        found: usize,
    },
    /// A list has fewer elements than its aggregate type's lower bound.
    TooFewElements {
        /// The attribute.
        attribute: String,
        /// The lower bound.
        min: u64,
        /// Elements present.
        found: usize,
    },
}

/// A [`ProblemKind`] as plain values.
pub enum KindView {
    UnknownEntity,
    AttributeCount { expected: nat, found: nat },
    TooFewElements { attribute: Seq<char>, min: nat, found: nat },
}

/// A [`Problem`] as plain values.
pub struct ProblemView {
    pub instance: u64,
    pub entity: Seq<char>,
    pub kind: KindView,
}

impl View for Problem {
    type V = ProblemView;

    open spec fn view(&self) -> ProblemView {
        ProblemView {
            instance: self.instance,
            entity: self.entity@,
            kind: match self.kind {
                ProblemKind::UnknownEntity => KindView::UnknownEntity,
                ProblemKind::AttributeCount { expected, found } => KindView::AttributeCount {
                    expected: expected as nat,
                    found: found as nat,
                },
                ProblemKind::TooFewElements { attribute, min, found } => KindView::TooFewElements {
                    attribute: attribute@,
                    min: min as nat,
                    found: found as nat,
                },
            },
        }
    }
}

/// `"s"` unless `n` is 1.
pub open spec fn plural(n: nat) -> Seq<char> {
    if n == 1 {
        Seq::empty()
    } else {
        "s"@
    }
}

impl Problem {
    /// The problem as printed, starting with `#id`.
    pub open spec fn display(self) -> Seq<char> {
        let head = "#"@ + decimal(self.instance as nat) + " "@ + self.entity@;
        match self.kind {
            ProblemKind::UnknownEntity => head + ": entity type is not in the schema"@,
            ProblemKind::AttributeCount { expected, found } => head + ": expected "@ + decimal(expected as nat)
                + " attribute"@ + plural(expected as nat) + ", found "@ + decimal(found as nat),
            ProblemKind::TooFewElements { attribute, min, found } => head + "."@ + attribute@
                + ": needs at least "@ + decimal(min as nat) + " element"@ + plural(min as nat) + ", found "@
                + decimal(found as nat),
        }
    }

    /// The problem as printed; see [`display`](Self::display).
    #[allow(clippy::inherent_to_string)]
    pub fn to_string(&self) -> (s: String)
        ensures
            s@ == self.display(),
    {
        let mut s = owned("#");
        push_decimal(&mut s, self.instance);
        s.append(" ");
        s.append(self.entity.as_str());
        match &self.kind {
            ProblemKind::UnknownEntity => {
                s.append(": entity type is not in the schema");
            },
            ProblemKind::AttributeCount { expected, found } => {
                s.append(": expected ");
                push_decimal(&mut s, *expected as u64);
                s.append(" attribute");
                if *expected != 1 {
                    s.append("s");
                }
                s.append(", found ");
                push_decimal(&mut s, *found as u64);
            },
            ProblemKind::TooFewElements { attribute, min, found } => {
                s.append(".");
                s.append(attribute.as_str());
                s.append(": needs at least ");
                push_decimal(&mut s, *min);
                s.append(" element");
                if *min != 1 {
                    s.append("s");
                }
                s.append(", found ");
                push_decimal(&mut s, *found as u64);
            },
        }
        proof {
            assert(s@ =~= self.display());
        }
        s
    }
}

// ---------------------------------------------------------------------
// What is checked.
// ---------------------------------------------------------------------

/// The upper-cased record names of `inst`.
pub open spec fn record_names(ex: Exchange, inst: Instance) -> Seq<Seq<char>> {
    ex.records_view(inst).map_values(|r: (Token, Seq<Token>)| word_of(r.0.span.of(ex.src_view())))
}

/// The layout of the partial records `names` of a complex instance.
pub open spec fn complex_layout(s: Schema, names: Seq<Seq<char>>) -> Option<Seq<Seq<SlotView>>> {
    let es = s.entities_view();
    match closure_spec(es, names.map_values(|n: Seq<char>| upper(n))) {
        Some(order) => if forall|p: int| 0 <= p < names.len() ==> #[trigger] position_of(es, upper(names[p])) is Some {
            Some(
                Seq::new(
                    names.len(),
                    |p: int| own_slots_spec(es, s.types_view(), order, position_of(es, upper(names[p]))->0),
                ),
            )
        } else {
            None
        },
        None => None,
    }
}

/// The layout of a simple instance whose record is named `name`.
pub open spec fn simple_layout(s: Schema, name: Seq<char>) -> Option<Seq<SlotView>> {
    match closure_spec(s.entities_view(), seq![upper(name)]) {
        Some(order) => Some(layout_spec(s.entities_view(), s.types_view(), order, order.len() as int)),
        None => None,
    }
}

/// The layout the records of `inst` are checked against, one slot list per
/// record; `None` if an entity type is not in the schema.
pub open spec fn layout_of(s: Schema, ex: Exchange, inst: Instance) -> Option<Seq<Seq<SlotView>>> {
    let names = record_names(ex, inst);
    if inst.complex {
        complex_layout(s, names)
    } else if names.len() == 0 {
        None
    } else {
        match simple_layout(s, names[0]) {
            Some(slots) => Some(seq![slots]),
            None => None,
        }
    }
}

/// The first of `names[k..]` that is not in the schema.
pub open spec fn first_unknown(s: Schema, names: Seq<Seq<char>>, k: int) -> Option<Seq<char>>
    decreases names.len() - k,
{
    if k < 0 || k >= names.len() {
        None
    } else if simple_layout(s, names[k]) is None {
        Some(names[k])
    } else {
        first_unknown(s, names, k + 1)
    }
}

/// The entity an unknown-entity problem names: the first record name not in
/// the schema, else the first record name, else nothing.
pub open spec fn unknown_name(s: Schema, names: Seq<Seq<char>>) -> Seq<char> {
    match first_unknown(s, names, 0) {
        Some(n) => n,
        None => if names.len() > 0 {
            names[0]
        } else {
            Seq::empty()
        },
    }
}

/// The number of items of a list parameter written as `pt`, or `None` if
/// the parameter is not a list.
pub open spec fn list_count(pt: Seq<Token>) -> Option<nat> {
    if pt.len() >= 2 && pt[0].kind == TokenKind::LeftParen {
        Some(param_count(pt.subrange(1, pt.len() - 1)))
    } else {
        None
    }
}

/// The too-few-elements problems of parameters `i..` of a record whose
/// parameter tokens are `ts`.
pub open spec fn list_problems(id: u64, name: Seq<char>, ts: Seq<Token>, slots: Seq<SlotView>, i: int) -> Seq<ProblemView>
    decreases slots.len() - i,
{
    if i < 0 || i >= slots.len() {
        Seq::empty()
    } else {
        let here = match (slots[i].min_len, list_count(param_tokens(ts, i as nat))) {
            (Some(min), Some(found)) => if found < min {
                seq![
                    ProblemView {
                        instance: id,
                        entity: name,
                        kind: KindView::TooFewElements { attribute: slots[i].name, min: min as nat, found },
                    },
                ]
            } else {
                Seq::empty()
            },
            _ => Seq::empty(),
        };
        here + list_problems(id, name, ts, slots, i + 1)
    }
}

/// The problems of the records `k..` of `inst` under `layout`.
pub open spec fn record_problems(ex: Exchange, inst: Instance, layout: Seq<Seq<SlotView>>, k: int) -> Seq<ProblemView>
    decreases layout.len() - k,
{
    let recs = ex.records_view(inst);
    let names = record_names(ex, inst);
    if k < 0 || k >= layout.len() || k >= recs.len() {
        Seq::empty()
    } else {
        let ts = recs[k].1;
        let slots = layout[k];
        let here = if param_count(ts) != slots.len() {
            seq![
                ProblemView {
                    instance: inst.id,
                    entity: names[k],
                    kind: KindView::AttributeCount { expected: slots.len(), found: param_count(ts) },
                },
            ]
        } else {
            list_problems(inst.id, names[k], ts, slots, 0)
        };
        here + record_problems(ex, inst, layout, k + 1)
    }
}

/// The problems of instance `inst`.
pub open spec fn instance_problems(s: Schema, ex: Exchange, inst: Instance) -> Seq<ProblemView> {
    match layout_of(s, ex, inst) {
        Some(layout) => record_problems(ex, inst, layout, 0),
        None => seq![
            ProblemView {
                instance: inst.id,
                entity: unknown_name(s, record_names(ex, inst)),
                kind: KindView::UnknownEntity,
            },
        ],
    }
}

/// The problems of the first `n` instances of `ex`, in file order.
pub open spec fn problems_upto(s: Schema, ex: Exchange, n: int) -> Seq<ProblemView>
    decreases n,
{
    if n <= 0 {
        Seq::empty()
    } else {
        problems_upto(s, ex, n - 1) + instance_problems(s, ex, ex.instances_view()[n - 1])
    }
}

/// The views of `v`.
pub open spec fn problem_views(v: Seq<Problem>) -> Seq<ProblemView> {
    v.map_values(|p: Problem| p@)
}

/// The views of the slot lists `v`.
pub open spec fn layout_views(v: Seq<Vec<Slot>>) -> Seq<Seq<SlotView>> {
    v.map_values(|s: Vec<Slot>| slot_views(s@))
}

/// The upper-cased name of `record`.
fn record_name(record: Record) -> (s: String)
    requires
        record.wf(),
    ensures
        s@ == word_of(record.name_token().span.of(record.src_view())),
{
    let text = record.name();
    let mut w = String::new();
    let mut i: usize = 0;
    while i < text.len()
        invariant
            i <= text@.len(),
            w@ == word_of(text@.take(i as int)),
        decreases text@.len() - i,
    {
        let b = text[i];
        let u = if 97 <= b && b <= 122 { b - 32 } else { b };
        push_char(&mut w, latin1(u));
        proof {
            assert(word_of(text@.take(i + 1)) =~= word_of(text@.take(i as int)).push(upper_byte(b) as char));
        }
        i = i + 1;
    }
    proof {
        assert(text@.take(i as int) =~= text@);
    }
    w
}

/// The number of items of parameter `index` of `record`, if it is a list.
fn list_len_at(record: Record, src: &[u8], index: usize) -> (r: Option<usize>)
    requires
        record.wf(),
        src@ == record.src_view(),
    ensures
        match list_count(param_tokens(record.params_view(), index as nat)) {
            Some(n) => r == Some(n as usize) && n <= usize::MAX,
            None => r is None,
        },
{
    let mut ps = record.params();
    let mut j: usize = 0;
    while j < index
        invariant
            ps.wf(),
            ps.src_view() == src@,
            j <= index,
            ps.tokens_view() == params_after(record.params_view(), j as nat),
        decreases index - j,
    {
        let ghost ts = ps.tokens_view();
        proof {
            crate::p21::exchange::lemma_skip_separators(ts, 0);
        }
        match ps.next_tokens() {
            Some(_) => {},
            None => {},
        }
        proof {
            crate::model::extract::lemma_params_after_next(record.params_view(), j as nat);
        }
        j = j + 1;
    }
    let ghost ts = ps.tokens_view();
    proof {
        crate::p21::exchange::lemma_skip_separators(ts, 0);
    }
    match ps.next_tokens() {
        Some(pt) => {
            if pt.len() >= 2 && pt[0].kind == TokenKind::LeftParen {
                let items = crate::p21::exchange::sub_exec(pt, 1, pt.len() - 1);
                proof {
                    assert(items@ =~= pt@.subrange(1, pt@.len() - 1));
                    let k = skip_separators(ts, 0);
                    assert forall|q: int| 0 <= q < items@.len() implies crate::p21::exchange::genuine(
                        src@,
                        #[trigger] items@[q],
                    ) by {
                        assert(items@[q] == ts[k + 1 + q]);
                    }
                }
                let n = Params::over(src, items).count();
                Some(n)
            } else {
                None
            }
        },
        None => {
            proof {
                assert(first_param_tokens(ts) =~= Seq::<Token>::empty());
            }
            None
        },
    }
}

/// The characters of the strings `names`.
pub open spec fn names_view(names: Seq<String>) -> Seq<Seq<char>> {
    names.map_values(|n: String| n@)
}

/// The layout records named `names` are checked against: those of a
/// complex instance's partial records, or of a simple instance's one.
pub open spec fn layout_for(s: Schema, names: Seq<Seq<char>>, complex: bool) -> Option<Seq<Seq<SlotView>>> {
    if complex {
        complex_layout(s, names)
    } else if names.len() == 0 {
        None
    } else {
        match simple_layout(s, names[0]) {
            Some(slots) => Some(seq![slots]),
            None => None,
        }
    }
}

/// Computes [`layout_for`].
fn layout(schema: &Schema, names: &Vec<String>, complex: bool) -> (r: Option<Vec<Vec<Slot>>>)
    ensures
        match layout_for(*schema, names_view(names@), complex) {
            Some(l) => r matches Some(v) && layout_views(v@) == l,
            None => r is None,
        },
{
    let ghost nv = names_view(names@);
    if complex {
        let mut partials: Vec<&str> = Vec::new();
        let mut k: usize = 0;
        while k < names.len()
            invariant
                k <= names@.len(),
                partials@.len() == k,
                forall|q: int| 0 <= q < k ==> (#[trigger] partials@[q])@ == names@[q]@,
            decreases names@.len() - k,
        {
            partials.push(names[k].as_str());
            k = k + 1;
        }
        let ghost es = schema.entities_view();
        proof {
            assert(super::schema::upper_all(partials@) =~= nv.map_values(|n: Seq<char>| upper(n)));
        }
        let r = schema.complex_slots(partials.as_slice());
        proof {
            match closure_spec(es, nv.map_values(|n: Seq<char>| upper(n))) {
                Some(order) => {
                    if let Some(vv) = &r {
                        assert forall|p: int| 0 <= p < nv.len() implies #[trigger] position_of(es, upper(nv[p])) is Some by {
                            assert(super::schema::holds_own(es, schema.types_view(), order, upper(partials@[p]@), vv@[p]@));
                        }
                        assert(layout_views(vv@) =~= Seq::new(
                            nv.len(),
                            |p: int| own_slots_spec(es, schema.types_view(), order, position_of(es, upper(nv[p]))->0),
                        )) by {
                            assert forall|p: int| 0 <= p < nv.len() implies layout_views(vv@)[p] == own_slots_spec(
                                es,
                                schema.types_view(),
                                order,
                                position_of(es, upper(nv[p]))->0,
                            ) by {
                                assert(super::schema::holds_own(es, schema.types_view(), order, upper(partials@[p]@), vv@[p]@));
                            }
                        }
                    } else {
                        let p = choose|p: int|
                            0 <= p < partials@.len() && #[trigger] position_of(es, upper(partials@[p]@)) is None;
                        assert(position_of(es, upper(nv[p])) is None);
                    }
                },
                None => {},
            }
        }
        r
    } else if names.len() == 0 {
        None
    } else {
        match schema.slots(names[0].as_str()) {
            Some(slots) => {
                let mut v: Vec<Vec<Slot>> = Vec::new();
                v.push(slots);
                proof {
                    assert(layout_views(v@) =~= seq![slot_views(v@[0]@)]);
                }
                Some(v)
            },
            None => None,
        }
    }
}

/// The entity an unknown-entity problem names.
fn unknown(schema: &Schema, names: &Vec<String>) -> (s: String)
    ensures
        s@ == unknown_name(*schema, names_view(names@)),
{
    let ghost nv = names_view(names@);
    let mut k: usize = 0;
    while k < names.len()
        invariant
            nv == names_view(names@),
            k <= names@.len(),
            first_unknown(*schema, nv, 0) == first_unknown(*schema, nv, k as int),
        decreases names@.len() - k,
    {
        if schema.slots(names[k].as_str()).is_none() {
            return names[k].clone();
        }
        k = k + 1;
    }
    if names.len() > 0 {
        names[0].clone()
    } else {
        String::new()
    }
}

/// Appends the problems of the records of `instance` under `layout`.
fn record_checks(
    exchange: &Exchange,
    instance: &Instance,
    records: &Vec<Record>,
    names: &Vec<String>,
    layout: &Vec<Vec<Slot>>,
    out: &mut Vec<Problem>,
)
    requires
        exchange.wf(),
        crate::model::extract::records_of(*exchange, *instance, records@),
        names_view(names@) == record_names(*exchange, *instance),
    ensures
        problem_views(final(out)@) == problem_views(old(out)@) + record_problems(
            *exchange,
            *instance,
            layout_views(layout@),
            0,
        ),
{
    let ghost ex = *exchange;
    let ghost lv = layout_views(layout@);
    let ghost total = problem_views(out@) + record_problems(ex, *instance, lv, 0);
    let src = exchange.source();
    proof {
        assert(names_view(names@).len() == names@.len());
    }
    let mut k: usize = 0;
    while k < records.len() && k < layout.len()
        invariant
            ex == *exchange,
            ex.wf(),
            src@ == ex.src_view(),
            lv == layout_views(layout@),
            crate::model::extract::records_of(ex, *instance, records@),
            names_view(names@) == record_names(ex, *instance),
            names@.len() == records@.len(),
            k <= records@.len(),
            problem_views(out@) + record_problems(ex, *instance, lv, k as int) == total,
        decreases records@.len() - k,
    {
        let record = records[k];
        let ghost ts = ex.records_view(*instance)[k as int].1;
        let count = record.params().count();
        let slots = &layout[k];
        proof {
            assert(names_view(names@)[k as int] == names@[k as int]@);
            assert(lv[k as int] == slot_views(slots@));
        }
        if count != slots.len() {
            let ghost before = out@;
            out.push(
                Problem {
                    instance: instance.id,
                    entity: names[k].clone(),
                    kind: ProblemKind::AttributeCount { expected: slots.len(), found: count },
                },
            );
            proof {
                assert(problem_views(out@) =~= problem_views(before) + seq![problem_views(out@).last()]);
            }
        } else {
            let ghost goal = problem_views(out@) + list_problems(
                instance.id,
                names@[k as int]@,
                ts,
                slot_views(slots@),
                0,
            );
            let mut i: usize = 0;
            while i < slots.len()
                invariant
                    ex == *exchange,
                    src@ == ex.src_view(),
                    record.wf(),
                    record.src_view() == ex.src_view(),
                    record.params_view() == ts,
                    k < names@.len(),
                    i <= slots@.len(),
                    problem_views(out@) + list_problems(instance.id, names@[k as int]@, ts, slot_views(slots@), i as int)
                        == goal,
                decreases slots@.len() - i,
            {
                let ghost before = out@;
                let ghost sv = slot_views(slots@);
                proof {
                    assert(sv[i as int] == slots@[i as int]@);
                }
                if let Some(min) = slots[i].min_len {
                    if let Some(found) = list_len_at(record, src, i) {
                        if (found as u64) < min {
                            out.push(
                                Problem {
                                    instance: instance.id,
                                    entity: names[k].clone(),
                                    kind: ProblemKind::TooFewElements {
                                        attribute: slots[i].name.clone(),
                                        min,
                                        found,
                                    },
                                },
                            );
                            proof {
                                assert(problem_views(out@) =~= problem_views(before) + seq![problem_views(out@).last()]);
                            }
                        }
                    }
                }
                i = i + 1;
            }
        }
        k = k + 1;
    }
}

/// Checks every record in `exchange` against `schema`: that its entity
/// type exists, that it has as many attributes as the schema declares, and
/// that no list is shorter than its aggregate type allows. Problems are
/// returned in file order.
///
/// Simple instances are checked against the full inherited layout
/// ([`Schema::slots`]); each partial record of a complex instance against
/// its own attributes ([`Schema::complex_slots`]).
pub fn check(schema: &Schema, exchange: &Exchange) -> (v: Vec<Problem>)
    requires
        exchange.wf(),
    ensures
        problem_views(v@) == problems_upto(*schema, *exchange, exchange.instances_view().len() as int),
{
    let ghost ex = *exchange;
    let instances = exchange.instances();
    let mut problems: Vec<Problem> = Vec::new();
    let mut n: usize = 0;
    while n < instances.len()
        invariant
            ex == *exchange,
            ex.wf(),
            instances@ == ex.instances_view(),
            n <= instances@.len(),
            problem_views(problems@) == problems_upto(*schema, ex, n as int),
        decreases instances@.len() - n,
    {
        let instance = &instances[n];
        let records = exchange.records(instance).to_vec();
        proof {
            assert(crate::model::extract::records_of(ex, *instance, records@));
        }
        let mut names: Vec<String> = Vec::new();
        let mut k: usize = 0;
        while k < records.len()
            invariant
                ex == *exchange,
                crate::model::extract::records_of(ex, *instance, records@),
                k <= records@.len(),
                names_view(names@) == record_names(ex, *instance).take(k as int),
            decreases records@.len() - k,
        {
            let name = record_name(records[k]);
            let ghost before = names@;
            names.push(name);
            proof {
                assert(names_view(names@) =~= names_view(before).push(name@));
                assert(record_names(ex, *instance)[k as int] == name@);
                assert(names_view(names@) =~= record_names(ex, *instance).take(k + 1));
            }
            k = k + 1;
        }
        proof {
            assert(record_names(ex, *instance).take(k as int) =~= record_names(ex, *instance));
        }
        let ghost before = problems@;
        match layout(schema, &names, instance.is_complex()) {
            None => {
                problems.push(
                    Problem { instance: instance.id, entity: unknown(schema, &names), kind: ProblemKind::UnknownEntity },
                );
                proof {
                    assert(problem_views(problems@) =~= problem_views(before) + instance_problems(*schema, ex, *instance));
                }
            },
            Some(layout) => {
                record_checks(exchange, instance, &records, &names, &layout, &mut problems);
            },
        }
        n = n + 1;
    }
    problems
}

} // verus!
