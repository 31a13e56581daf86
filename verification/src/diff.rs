//! A structural comparison of two STEP files.
//!
//! Instance names mean nothing across two exports of the same model, so
//! files are compared by what they describe: header fields and units, how
//! many instances of each entity type they hold, products (matched by
//! `product.id`) and property values. Geometry is compared only through
//! those counts and through validation properties, never evaluated. Each
//! section lists its changes in key order.
use vstd::prelude::*;
use vstd::string::*;

use crate::info::{
    lemma_lex_asymmetric, lemma_lex_irreflexive, lemma_lex_total, lex_less, lex_lt, option_view, string_views,
    occurrences, summarizes, EntityCount, Info,
};
use crate::model::assembly::{definition_views, Definition, DefinitionView, ProductStructure};
use crate::model::Graph;
use crate::props::{label_of, properties, property_views, properties_upto, Property, PropertyView};
use crate::table::{join, separated, text_or_empty};
use crate::text::{decimal, decimal_string, push_char};

verus! {

// ---------------------------------------------------------------------
// Keyed values in key order.
// ---------------------------------------------------------------------

/// `m` with the value of `k` set to `v`: the entry replaced where `k` is a
/// key, else added before the first greater key.
pub open spec fn put<V>(m: Seq<(Seq<char>, V)>, k: Seq<char>, v: V) -> Seq<(Seq<char>, V)>
    decreases m.len(),
{
    if m.len() == 0 {
        seq![(k, v)]
    } else if m[0].0 == k {
        m.update(0, (k, v))
    } else if lex_lt(k, m[0].0) {
        seq![(k, v)] + m
    } else {
        seq![m[0]] + put(m.drop_first(), k, v)
    }
}

/// The entries of `m`, each put in turn into an empty collection.
pub open spec fn collect<V>(m: Seq<(Seq<char>, V)>) -> Seq<(Seq<char>, V)>
    decreases m.len(),
{
    if m.len() == 0 {
        Seq::empty()
    } else {
        put(collect(m.drop_last()), m.last().0, m.last().1)
    }
}

/// The entries of `m` with their keys as text.
pub open spec fn keyed<V>(m: Seq<(String, V)>) -> Seq<(Seq<char>, V)> {
    m.map_values(|e: (String, V)| (e.0@, e.1))
}

/// The entries of `m` as text.
pub open spec fn texts(m: Seq<(String, String)>) -> Seq<(Seq<char>, Seq<char>)> {
    m.map_values(|e: (String, String)| (e.0@, e.1@))
}

proof fn lemma_put<V>(m: Seq<(Seq<char>, V)>, k: Seq<char>, v: V, i: int)
    requires
        0 <= i <= m.len(),
        forall|j: int| 0 <= j < i ==> lex_lt(#[trigger] m[j].0, k),
        i < m.len() ==> !lex_lt(m[i].0, k),
    ensures
        put(m, k, v) == if i < m.len() && m[i].0 == k {
            m.update(i, (k, v))
        } else {
            m.insert(i, (k, v))
        },
    decreases m.len(),
{
    if m.len() == 0 {
        assert(put(m, k, v) =~= m.insert(0, (k, v)));
    } else if i == 0 {
        if m[0].0 != k {
            lemma_lex_total(m[0].0, k);
            assert(put(m, k, v) =~= m.insert(0, (k, v)));
        }
    } else {
        lemma_lex_asymmetric(m[0].0, k);
        lemma_lex_irreflexive(k);
        let rest = m.drop_first();
        assert forall|j: int| 0 <= j < i - 1 implies lex_lt(#[trigger] rest[j].0, k) by {
            assert(rest[j] == m[j + 1]);
        }
        lemma_put(rest, k, v, i - 1);
        if i < m.len() && m[i].0 == k {
            assert(put(m, k, v) =~= m.update(i, (k, v)));
        } else {
            assert(put(m, k, v) =~= m.insert(i, (k, v)));
        }
    }
}

/// Sets the value of `k` in `m` to `v`.
fn put_entry<V>(m: &mut Vec<(String, V)>, k: String, v: V)
    ensures
        keyed(final(m)@) == put(keyed(old(m)@), k@, v),
{
    let ghost km = keyed(m@);
    let mut i: usize = 0;
    while i < m.len() && lex_less(m[i].0.as_str(), k.as_str())
        invariant
            i <= m@.len(),
            km == keyed(m@),
            forall|j: int| 0 <= j < i ==> lex_lt(#[trigger] km[j].0, k@),
        decreases m@.len() - i,
    {
        i = i + 1;
    }
    proof {
        lemma_put(km, k@, v, i as int);
    }
    let ghost kv = k@;
    if i < m.len() && !lex_less(k.as_str(), m[i].0.as_str()) {
        proof {
            if km[i as int].0 != kv {
                lemma_lex_total(km[i as int].0, kv);
            }
        }
        m.set(i, (k, v));
        proof {
            assert(keyed(m@) =~= km.update(i as int, (kv, v)));
        }
    } else {
        m.insert(i, (k, v));
        proof {
            assert(keyed(m@) =~= km.insert(i as int, (kv, v)));
        }
    }
}

/// True if `a` and `b` are the same text.
pub(crate) fn same_text(a: &str, b: &str) -> (r: bool)
    ensures
        r == (a@ == b@),
{
    proof {
        lemma_lex_asymmetric(a@, b@);
        if a@ != b@ {
            lemma_lex_total(a@, b@);
        } else {
            lemma_lex_irreflexive(a@);
        }
    }
    !lex_less(a, b) && !lex_less(b, a)
}

// ---------------------------------------------------------------------
// Field changes.
// ---------------------------------------------------------------------

/// A named value in both files; `None` where the file has none.
#[derive(Debug, Clone, PartialEq, Eq)]
pub struct FieldChange {
    /// What differs, such as `originating_system`.
    pub field: String,
    /// The value in the first file.
    pub old: Option<String>,
    /// The value in the second file.
    pub new: Option<String>,
}

/// A [`FieldChange`] as plain values.
pub struct FieldChangeView {
    pub field: Seq<char>,
    pub old: Option<Seq<char>>,
    pub new: Option<Seq<char>>,
}

/// The view of `c`.
pub open spec fn field_change_view(c: FieldChange) -> FieldChangeView {
    FieldChangeView { field: c.field@, old: option_view(c.old), new: option_view(c.new) }
}

/// The views of `v`.
pub open spec fn field_change_views(v: Seq<FieldChange>) -> Seq<FieldChangeView> {
    v.map_values(|c: FieldChange| field_change_view(c))
}

/// The keys of `a` and `b` whose values differ, merged in order: a key
/// only `a` has, one only `b` has, or one both have with other values.
pub open spec fn changes(a: Seq<(Seq<char>, Seq<char>)>, b: Seq<(Seq<char>, Seq<char>)>) -> Seq<FieldChangeView>
    decreases a.len() + b.len(),
{
    if a.len() == 0 && b.len() == 0 {
        Seq::empty()
    } else if b.len() == 0 || (a.len() > 0 && lex_lt(a[0].0, b[0].0)) {
        seq![FieldChangeView { field: a[0].0, old: Some(a[0].1), new: None }] + changes(a.drop_first(), b)
    } else if a.len() == 0 || lex_lt(b[0].0, a[0].0) {
        seq![FieldChangeView { field: b[0].0, old: None, new: Some(b[0].1) }] + changes(a, b.drop_first())
    } else if a[0].1 == b[0].1 {
        changes(a.drop_first(), b.drop_first())
    } else {
        seq![FieldChangeView { field: a[0].0, old: Some(a[0].1), new: Some(b[0].1) }] + changes(
            a.drop_first(),
            b.drop_first(),
        )
    }
}

/// The keyed values of `old` and `new` that differ, merged in key order.
pub fn fields(old: &Vec<(String, String)>, new: &Vec<(String, String)>) -> (r: Vec<FieldChange>)
    ensures
        field_change_views(r@) == changes(texts(old@), texts(new@)),
{
    let ghost a = texts(old@);
    let ghost b = texts(new@);
    let mut out: Vec<FieldChange> = Vec::new();
    let mut i: usize = 0;
    let mut j: usize = 0;
    proof {
        assert(a.skip(0) =~= a);
        assert(b.skip(0) =~= b);
        assert(field_change_views(out@) =~= Seq::empty());
    }
    while i < old.len() || j < new.len()
        invariant
            i <= old@.len(),
            j <= new@.len(),
            a == texts(old@),
            b == texts(new@),
            changes(a, b) == field_change_views(out@) + changes(a.skip(i as int), b.skip(j as int)),
        decreases old@.len() + new@.len() - i - j,
    {
        let ghost sa = a.skip(i as int);
        let ghost sb = b.skip(j as int);
        let ghost before = out@;
        if j >= new.len() || (i < old.len() && lex_less(old[i].0.as_str(), new[j].0.as_str())) {
            proof {
                assert(sa[0] == a[i as int]);
                assert(sa.drop_first() =~= a.skip(i + 1));
            }
            out.push(FieldChange { field: old[i].0.clone(), old: Some(old[i].1.clone()), new: None });
            i = i + 1;
        } else if i >= old.len() || lex_less(new[j].0.as_str(), old[i].0.as_str()) {
            proof {
                assert(sb[0] == b[j as int]);
                assert(sb.drop_first() =~= b.skip(j + 1));
            }
            out.push(FieldChange { field: new[j].0.clone(), old: None, new: Some(new[j].1.clone()) });
            j = j + 1;
        } else {
            proof {
                assert(sa[0] == a[i as int]);
                assert(sb[0] == b[j as int]);
                assert(sa.drop_first() =~= a.skip(i + 1));
                assert(sb.drop_first() =~= b.skip(j + 1));
            }
            if !same_text(old[i].1.as_str(), new[j].1.as_str()) {
                out.push(
                    FieldChange {
                        field: old[i].0.clone(),
                        old: Some(old[i].1.clone()),
                        new: Some(new[j].1.clone()),
                    },
                );
            }
            i = i + 1;
            j = j + 1;
        }
        proof {
            assert(field_change_views(out@) =~= field_change_views(before) + field_change_views(out@).skip(
                before.len() as int,
            ));
        }
    }
    proof {
        assert(a.skip(i as int) =~= Seq::<(Seq<char>, Seq<char>)>::empty());
        assert(b.skip(j as int) =~= Seq::<(Seq<char>, Seq<char>)>::empty());
        assert(field_change_views(out@) + Seq::<FieldChangeView>::empty() =~= field_change_views(out@));
    }
    out
}

// ---------------------------------------------------------------------
// Header fields.
// ---------------------------------------------------------------------

/// `x` placed into `s` after the texts that do not sort after it.
pub open spec fn insert_text(s: Seq<Seq<char>>, x: Seq<char>) -> Seq<Seq<char>>
    decreases s.len(),
{
    if s.len() == 0 {
        seq![x]
    } else if lex_lt(x, s[0]) {
        seq![x] + s
    } else {
        seq![s[0]] + insert_text(s.drop_first(), x)
    }
}

/// `s` in ascending order.
pub open spec fn sorted_texts(s: Seq<Seq<char>>) -> Seq<Seq<char>>
    decreases s.len(),
{
    if s.len() == 0 {
        Seq::empty()
    } else {
        insert_text(sorted_texts(s.drop_last()), s.last())
    }
}

proof fn lemma_insert_text(s: Seq<Seq<char>>, x: Seq<char>, i: int)
    requires
        0 <= i <= s.len(),
        forall|j: int| 0 <= j < i ==> !lex_lt(x, #[trigger] s[j]),
        i < s.len() ==> lex_lt(x, s[i]),
    ensures
        insert_text(s, x) == s.insert(i, x),
    decreases s.len(),
{
    if s.len() == 0 {
        assert(insert_text(s, x) =~= s.insert(0, x));
    } else if i == 0 {
        assert(insert_text(s, x) =~= s.insert(0, x));
    } else {
        let rest = s.drop_first();
        assert forall|j: int| 0 <= j < i - 1 implies !lex_lt(x, #[trigger] rest[j]) by {
            assert(rest[j] == s[j + 1]);
        }
        lemma_insert_text(rest, x, i - 1);
        assert(insert_text(s, x) =~= s.insert(i, x));
    }
}

/// The texts of `v` in ascending order.
fn sorted_strings(v: &Vec<String>) -> (r: Vec<String>)
    ensures
        string_views(r@) == sorted_texts(string_views(v@)),
{
    let mut out: Vec<String> = Vec::new();
    let mut k: usize = 0;
    proof {
        assert(string_views(v@.take(0)) =~= Seq::empty());
        assert(string_views(out@) =~= Seq::empty());
    }
    while k < v.len()
        invariant
            k <= v@.len(),
            string_views(out@) == sorted_texts(string_views(v@.take(k as int))),
        decreases v@.len() - k,
    {
        let ghost before = string_views(out@);
        let mut i: usize = 0;
        while i < out.len() && !lex_less(v[k].as_str(), out[i].as_str())
            invariant
                k < v@.len(),
                i <= out@.len(),
                before == string_views(out@),
                forall|j: int| 0 <= j < i ==> !lex_lt(v@[k as int]@, #[trigger] before[j]),
            decreases out@.len() - i,
        {
            i = i + 1;
        }
        proof {
            lemma_insert_text(before, v@[k as int]@, i as int);
        }
        out.insert(i, v[k].clone());
        proof {
            assert(string_views(out@) =~= before.insert(i as int, v@[k as int]@));
            let taken = string_views(v@.take(k + 1));
            assert(taken.drop_last() =~= string_views(v@.take(k as int)));
            assert(taken.last() == v@[k as int]@);
        }
        k = k + 1;
    }
    proof {
        assert(v@.take(k as int) =~= v@);
    }
    out
}

/// The field `name`, where `value` is not empty.
pub open spec fn entry(name: Seq<char>, value: Seq<char>) -> Seq<(Seq<char>, Seq<char>)> {
    if value.len() == 0 {
        Seq::empty()
    } else {
        seq![(name, value)]
    }
}

/// The units of one kind as a field's value: sorted, since the same units
/// declared in another order are the same.
pub open spec fn unit_field(names: Seq<Seq<char>>) -> Seq<char> {
    separated(sorted_texts(names), ", "@)
}

/// The header fields, units and instance count of `info` that are not
/// empty, in key order.
pub open spec fn header_fields_text(info: Info) -> Seq<(Seq<char>, Seq<char>)> {
    let h = info.header;
    entry("author"@, separated(string_views(h.author@), ", "@)) + entry(
        "authorization"@,
        text_or_empty(option_view(h.authorization)),
    ) + entry("description"@, separated(string_views(h.description@), ", "@)) + entry(
        "implementation_level"@,
        text_or_empty(option_view(h.implementation_level)),
    ) + entry("instances"@, decimal(info.instances as nat)) + entry("name"@, text_or_empty(option_view(h.name)))
        + entry("organization"@, separated(string_views(h.organization@), ", "@)) + entry(
        "originating_system"@,
        text_or_empty(option_view(h.originating_system)),
    ) + entry("preprocessor_version"@, text_or_empty(option_view(h.preprocessor_version))) + entry(
        "schemas"@,
        separated(string_views(h.schemas@), ", "@),
    ) + entry("time_stamp"@, text_or_empty(option_view(h.time_stamp))) + entry(
        "units.length"@,
        unit_field(string_views(info.units.length@)),
    ) + entry("units.plane_angle"@, unit_field(string_views(info.units.plane_angle@))) + entry(
        "units.solid_angle"@,
        unit_field(string_views(info.units.solid_angle@)),
    )
}

/// Adds the field `name` where `value` is not empty.
fn push_field(out: &mut Vec<(String, String)>, name: &str, value: String)
    ensures
        texts(final(out)@) == texts(old(out)@) + entry(name@, value@),
{
    let ghost before = texts(out@);
    if value.unicode_len() > 0 {
        out.push((name.to_owned(), value));
    }
    proof {
        assert(texts(out@) =~= before + entry(name@, value@));
    }
}

/// The text of `o`, or an empty string.
fn text_of(o: &Option<String>) -> (r: String)
    ensures
        r@ == text_or_empty(option_view(*o)),
{
    match o {
        Some(s) => s.clone(),
        None => String::new(),
    }
}

/// The header fields, units and instance count of `info` that are not
/// empty, in key order.
pub fn header_fields(info: &Info) -> (r: Vec<(String, String)>)
    ensures
        texts(r@) == header_fields_text(*info),
{
    let h = &info.header;
    let mut out: Vec<(String, String)> = Vec::new();
    proof {
        assert(texts(out@) =~= Seq::empty());
    }
    push_field(&mut out, "author", join(&h.author, ", "));
    push_field(&mut out, "authorization", text_of(&h.authorization));
    push_field(&mut out, "description", join(&h.description, ", "));
    push_field(&mut out, "implementation_level", text_of(&h.implementation_level));
    push_field(&mut out, "instances", decimal_string(info.instances as u64));
    push_field(&mut out, "name", text_of(&h.name));
    push_field(&mut out, "organization", join(&h.organization, ", "));
    push_field(&mut out, "originating_system", text_of(&h.originating_system));
    push_field(&mut out, "preprocessor_version", text_of(&h.preprocessor_version));
    push_field(&mut out, "schemas", join(&h.schemas, ", "));
    push_field(&mut out, "time_stamp", text_of(&h.time_stamp));
    push_field(&mut out, "units.length", join(&sorted_strings(&info.units.length), ", "));
    push_field(&mut out, "units.plane_angle", join(&sorted_strings(&info.units.plane_angle), ", "));
    push_field(&mut out, "units.solid_angle", join(&sorted_strings(&info.units.solid_angle), ", "));
    proof {
        assert(texts(out@) =~= header_fields_text(*info));
    }
    out
}

// ---------------------------------------------------------------------
// Entity types.
// ---------------------------------------------------------------------

/// How many instances of an entity type each file has.
#[derive(Debug, Clone, PartialEq, Eq)]
pub struct CountChange {
    /// Upper-cased entity type.
    pub entity_type: String,
    /// Records in the first file.
    pub old: usize,
    /// Records in the second file.
    pub new: usize,
}

/// The views of `v`, as entity type, old count and new count.
pub open spec fn count_change_views(v: Seq<CountChange>) -> Seq<(Seq<char>, usize, usize)> {
    v.map_values(|c: CountChange| (c.entity_type@, c.old, c.new))
}

/// The counts of `v` by name, in name order.
pub open spec fn counts_by_name(v: Seq<EntityCount>) -> Seq<(Seq<char>, usize)> {
    collect(v.map_values(|e: EntityCount| (e.name@, e.count)))
}

/// The names whose counts differ in `a` and `b`, merged in order, a name
/// missing from one side counting zero there.
pub open spec fn count_changes(a: Seq<(Seq<char>, usize)>, b: Seq<(Seq<char>, usize)>) -> Seq<(Seq<char>, usize, usize)>
    decreases a.len() + b.len(),
{
    if a.len() == 0 && b.len() == 0 {
        Seq::empty()
    } else if b.len() == 0 || (a.len() > 0 && lex_lt(a[0].0, b[0].0)) {
        (if a[0].1 != 0 {
            seq![(a[0].0, a[0].1, 0usize)]
        } else {
            Seq::empty()
        }) + count_changes(a.drop_first(), b)
    } else if a.len() == 0 || lex_lt(b[0].0, a[0].0) {
        (if b[0].1 != 0 {
            seq![(b[0].0, 0usize, b[0].1)]
        } else {
            Seq::empty()
        }) + count_changes(a, b.drop_first())
    } else {
        (if a[0].1 != b[0].1 {
            seq![(a[0].0, a[0].1, b[0].1)]
        } else {
            Seq::empty()
        }) + count_changes(a.drop_first(), b.drop_first())
    }
}

/// The counts of `v` by name, in name order.
fn by_name(v: &Vec<EntityCount>) -> (r: Vec<(String, usize)>)
    ensures
        keyed(r@) == counts_by_name(v@),
{
    let ghost pairs = v@.map_values(|e: EntityCount| (e.name@, e.count));
    let mut out: Vec<(String, usize)> = Vec::new();
    let mut k: usize = 0;
    proof {
        assert(keyed(out@) =~= Seq::empty());
        assert(pairs.take(0) =~= Seq::empty());
    }
    while k < v.len()
        invariant
            k <= v@.len(),
            pairs == v@.map_values(|e: EntityCount| (e.name@, e.count)),
            keyed(out@) == collect(pairs.take(k as int)),
        decreases v@.len() - k,
    {
        put_entry(&mut out, v[k].name.clone(), v[k].count);
        proof {
            assert(pairs.take(k + 1).drop_last() =~= pairs.take(k as int));
        }
        k = k + 1;
    }
    proof {
        assert(pairs.take(k as int) =~= pairs);
    }
    out
}

/// The entity types whose instance counts differ, in name order.
pub fn entity_types(old: &Info, new: &Info) -> (r: Vec<CountChange>)
    ensures
        count_change_views(r@) == count_changes(
            counts_by_name(old.entity_types@),
            counts_by_name(new.entity_types@),
        ),
{
    let a = by_name(&old.entity_types);
    let b = by_name(&new.entity_types);
    let ghost ka = keyed(a@);
    let ghost kb = keyed(b@);
    let mut out: Vec<CountChange> = Vec::new();
    let mut i: usize = 0;
    let mut j: usize = 0;
    proof {
        assert(ka.skip(0) =~= ka);
        assert(kb.skip(0) =~= kb);
        assert(count_change_views(out@) =~= Seq::empty());
    }
    while i < a.len() || j < b.len()
        invariant
            i <= a@.len(),
            j <= b@.len(),
            ka == keyed(a@),
            kb == keyed(b@),
            count_changes(ka, kb) == count_change_views(out@) + count_changes(ka.skip(i as int), kb.skip(j as int)),
        decreases a@.len() + b@.len() - i - j,
    {
        let ghost sa = ka.skip(i as int);
        let ghost sb = kb.skip(j as int);
        let ghost before = count_change_views(out@);
        if j >= b.len() || (i < a.len() && lex_less(a[i].0.as_str(), b[j].0.as_str())) {
            proof {
                assert(sa[0] == ka[i as int]);
                assert(sa.drop_first() =~= ka.skip(i + 1));
            }
            if a[i].1 != 0 {
                out.push(CountChange { entity_type: a[i].0.clone(), old: a[i].1, new: 0 });
            }
            i = i + 1;
        } else if i >= a.len() || lex_less(b[j].0.as_str(), a[i].0.as_str()) {
            proof {
                assert(sb[0] == kb[j as int]);
                assert(sb.drop_first() =~= kb.skip(j + 1));
            }
            if b[j].1 != 0 {
                out.push(CountChange { entity_type: b[j].0.clone(), old: 0, new: b[j].1 });
            }
            j = j + 1;
        } else {
            proof {
                assert(sa[0] == ka[i as int]);
                assert(sb[0] == kb[j as int]);
                assert(sa.drop_first() =~= ka.skip(i + 1));
                assert(sb.drop_first() =~= kb.skip(j + 1));
            }
            if a[i].1 != b[j].1 {
                out.push(CountChange { entity_type: a[i].0.clone(), old: a[i].1, new: b[j].1 });
            }
            i = i + 1;
            j = j + 1;
        }
        proof {
            assert(count_change_views(out@) =~= before + count_change_views(out@).skip(before.len() as int));
        }
    }
    proof {
        assert(ka.skip(i as int) =~= Seq::<(Seq<char>, usize)>::empty());
        assert(kb.skip(j as int) =~= Seq::<(Seq<char>, usize)>::empty());
        assert(count_change_views(out@) + Seq::<(Seq<char>, usize, usize)>::empty() =~= count_change_views(out@));
    }
    out
}

// ---------------------------------------------------------------------
// Products.
// ---------------------------------------------------------------------

/// Whether something is only in the second file, only in the first, or in
/// both but different.
#[derive(Debug, Clone, Copy, PartialEq, Eq, Structural)]
pub enum ChangeKind {
    /// Only in the second file.
    Added,
    /// Only in the first file.
    Removed,
    /// In both, with different values.
    Changed,
}

/// A product definition that differs.
#[derive(Debug, Clone, PartialEq, Eq)]
pub struct ProductChange {
    /// The product's key: `product.id`, else its name, else the
    /// definition's `#id`; a repeated key gets ` (2)`, ` (3)`, … in file
    /// order.
    pub product: String,
    /// Added, removed or changed.
    pub kind: ChangeKind,
    /// For a changed product, the fields that differ.
    pub fields: Vec<FieldChange>,
}

/// A [`ProductChange`] as plain values.
pub struct ProductChangeView {
    pub product: Seq<char>,
    pub kind: ChangeKind,
    pub fields: Seq<FieldChangeView>,
}

/// The views of `v`.
pub open spec fn product_change_views(v: Seq<ProductChange>) -> Seq<ProductChangeView> {
    v.map_values(
        |c: ProductChange| ProductChangeView { product: c.product@, kind: c.kind, fields: field_change_views(c.fields@) },
    )
}

/// The product id of `d`, or nothing.
pub open spec fn product_id(d: DefinitionView) -> Seq<char> {
    match d.product {
        Some(p) => text_or_empty(p.id),
        None => Seq::empty(),
    }
}

/// The product name of `d`, or nothing.
pub open spec fn product_name(d: DefinitionView) -> Seq<char> {
    match d.product {
        Some(p) => text_or_empty(p.name),
        None => Seq::empty(),
    }
}

/// The product description of `d`, or nothing.
pub open spec fn product_description(d: DefinitionView) -> Seq<char> {
    match d.product {
        Some(p) => text_or_empty(p.description),
        None => Seq::empty(),
    }
}

/// What a definition is known by: its product's id, else its product's
/// name, else its own `#id`.
pub open spec fn base_key(d: DefinitionView) -> Seq<char> {
    if product_id(d).len() > 0 {
        product_id(d)
    } else if product_name(d).len() > 0 {
        product_name(d)
    } else {
        "#"@ + decimal(d.instance as nat)
    }
}

/// The base keys of `ds`.
pub open spec fn base_keys(ds: Seq<DefinitionView>) -> Seq<Seq<char>> {
    ds.map_values(|d: DefinitionView| base_key(d))
}

/// Key `i` of `bases`, made unique: the `n`th use of a base, from the
/// second on, gets ` (n)`.
pub open spec fn numbered_key(bases: Seq<Seq<char>>, i: int) -> Seq<char> {
    let n = occurrences(bases.take(i + 1), bases[i]);
    if n == 1 {
        bases[i]
    } else {
        bases[i] + " ("@ + decimal(n) + ")"@
    }
}

/// A key per definition of `ds`, in definition order.
pub open spec fn definition_keys_text(ds: Seq<DefinitionView>) -> Seq<Seq<char>> {
    Seq::new(ds.len(), |i: int| numbered_key(base_keys(ds), i))
}

/// The compared fields of definition `d` that are not empty, in key order.
pub open spec fn definition_fields_text(d: DefinitionView) -> Seq<(Seq<char>, Seq<char>)> {
    entry("definition.description"@, text_or_empty(d.description)) + entry(
        "definition.id"@,
        text_or_empty(d.id),
    ) + entry("description"@, product_description(d)) + entry("name"@, product_name(d)) + entry(
        "version"@,
        text_or_empty(d.version),
    )
}

/// The definitions of `ds` by key, with their fields, in key order; of two
/// definitions with one key the later stands.
pub open spec fn product_index(ds: Seq<DefinitionView>) -> Seq<(Seq<char>, Seq<(Seq<char>, Seq<char>)>)> {
    collect(Seq::new(ds.len(), |i: int| (definition_keys_text(ds)[i], definition_fields_text(ds[i]))))
}

/// The keys of `a` and `b` whose fields differ, merged in order.
pub open spec fn product_changes(
    a: Seq<(Seq<char>, Seq<(Seq<char>, Seq<char>)>)>,
    b: Seq<(Seq<char>, Seq<(Seq<char>, Seq<char>)>)>,
) -> Seq<ProductChangeView>
    decreases a.len() + b.len(),
{
    if a.len() == 0 && b.len() == 0 {
        Seq::empty()
    } else if b.len() == 0 || (a.len() > 0 && lex_lt(a[0].0, b[0].0)) {
        seq![ProductChangeView { product: a[0].0, kind: ChangeKind::Removed, fields: Seq::empty() }]
            + product_changes(a.drop_first(), b)
    } else if a.len() == 0 || lex_lt(b[0].0, a[0].0) {
        seq![ProductChangeView { product: b[0].0, kind: ChangeKind::Added, fields: Seq::empty() }]
            + product_changes(a, b.drop_first())
    } else if a[0].1 == b[0].1 {
        product_changes(a.drop_first(), b.drop_first())
    } else {
        seq![ProductChangeView { product: a[0].0, kind: ChangeKind::Changed, fields: changes(a[0].1, b[0].1) }]
            + product_changes(a.drop_first(), b.drop_first())
    }
}

/// The fields of an index entry as text.
pub open spec fn indexed(m: Seq<(Seq<char>, Vec<(String, String)>)>) -> Seq<(Seq<char>, Seq<(Seq<char>, Seq<char>)>)> {
    m.map_values(|e: (Seq<char>, Vec<(String, String)>)| (e.0, texts(e.1@)))
}

proof fn lemma_put_indexed(m: Seq<(Seq<char>, Vec<(String, String)>)>, k: Seq<char>, v: Vec<(String, String)>)
    ensures
        indexed(put(m, k, v)) == put(indexed(m), k, texts(v@)),
    decreases m.len(),
{
    if m.len() == 0 {
        assert(indexed(put(m, k, v)) =~= put(indexed(m), k, texts(v@)));
    } else if m[0].0 == k {
        assert(indexed(put(m, k, v)) =~= put(indexed(m), k, texts(v@)));
    } else if lex_lt(k, m[0].0) {
        assert(indexed(put(m, k, v)) =~= put(indexed(m), k, texts(v@)));
    } else {
        lemma_put_indexed(m.drop_first(), k, v);
        assert(indexed(m).drop_first() =~= indexed(m.drop_first()));
        assert(indexed(put(m, k, v)) =~= put(indexed(m), k, texts(v@)));
    }
}

/// What `d` is known by, before keys are made unique.
fn base_key_of(d: &Definition) -> (r: String)
    ensures
        r@ == base_key(d@),
{
    let id = match &d.product {
        Some(p) => text_of(&p.id),
        None => String::new(),
    };
    if id.unicode_len() > 0 {
        return id;
    }
    let name = match &d.product {
        Some(p) => text_of(&p.name),
        None => String::new(),
    };
    if name.unicode_len() > 0 {
        return name;
    }
    let mut r = "#".to_owned();
    r.append(decimal_string(d.instance).as_str());
    r
}

/// A key per definition of `structure`, in definition order: the product's
/// id, else its name, else the definition's `#id`, a repeated one getting
/// ` (2)`, ` (3)`, … in file order.
pub fn definition_keys(structure: &ProductStructure) -> (r: Vec<String>)
    ensures
        string_views(r@) == definition_keys_text(structure.definitions_view()),
{
    let ds = structure.definitions();
    let ghost dv = structure.definitions_view();
    let mut bases: Vec<String> = Vec::new();
    let mut k: usize = 0;
    while k < ds.len()
        invariant
            k <= ds@.len(),
            definition_views(ds@) == dv,
            dv.len() == ds@.len(),
            string_views(bases@) == base_keys(dv).take(k as int),
        decreases ds@.len() - k,
    {
        let ghost before = bases@;
        let b = base_key_of(&ds[k]);
        bases.push(b);
        proof {
            assert(ds@[k as int]@ == dv[k as int]);
            assert(base_keys(dv)[k as int] == base_key(dv[k as int]));
            assert(b@ == base_keys(dv)[k as int]);
            assert(bases@ =~= before.push(b));
            assert(string_views(bases@) =~= string_views(before).push(b@));
            assert(base_keys(dv).take(k + 1) =~= base_keys(dv).take(k as int).push(base_keys(dv)[k as int]));
        }
        k = k + 1;
    }
    let ghost bv = base_keys(dv);
    proof {
        assert(string_views(bases@) =~= bv);
    }
    let mut keys: Vec<String> = Vec::new();
    let mut i: usize = 0;
    while i < bases.len()
        invariant
            i <= bases@.len(),
            string_views(bases@) == bv,
            bv == base_keys(dv),
            bv.len() == dv.len(),
            string_views(keys@) == definition_keys_text(dv).take(i as int),
        decreases bases@.len() - i,
    {
        let key = numbered(&bases, i);
        proof {
            assert(i < dv.len());
            assert(definition_keys_text(dv)[i as int] == numbered_key(base_keys(dv), i as int));
        }
        let ghost before = keys@;
        keys.push(key);
        proof {
            assert(bv[i as int] == bases@[i as int]@);
            assert(key@ == definition_keys_text(dv)[i as int]);
            assert(string_views(keys@) =~= string_views(before).push(key@));
            assert(definition_keys_text(dv).take(i + 1) =~= definition_keys_text(dv).take(i as int).push(
                definition_keys_text(dv)[i as int],
            ));
        }
        i = i + 1;
    }
    proof {
        assert(string_views(keys@) =~= definition_keys_text(dv));
    }
    keys
}

/// The compared fields of `d` that are not empty, in key order.
fn definition_fields(d: &Definition) -> (r: Vec<(String, String)>)
    ensures
        texts(r@) == definition_fields_text(d@),
{
    let mut out: Vec<(String, String)> = Vec::new();
    proof {
        assert(texts(out@) =~= Seq::empty());
    }
    let (description, name) = match &d.product {
        Some(p) => (text_of(&p.description), text_of(&p.name)),
        None => (String::new(), String::new()),
    };
    push_field(&mut out, "definition.description", text_of(&d.description));
    push_field(&mut out, "definition.id", text_of(&d.id));
    push_field(&mut out, "description", description);
    push_field(&mut out, "name", name);
    push_field(&mut out, "version", text_of(&d.version));
    proof {
        assert(texts(out@) =~= definition_fields_text(d@));
    }
    out
}

/// The definitions of `structure` by key, with their fields, in key order.
fn index(structure: &ProductStructure) -> (r: Vec<(String, Vec<(String, String)>)>)
    ensures
        indexed(keyed(r@)) == product_index(structure.definitions_view()),
{
    let ds = structure.definitions();
    let ghost dv = structure.definitions_view();
    let keys = definition_keys(structure);
    proof {
        assert(string_views(keys@).len() == keys@.len());
    }
    let ghost pairs = Seq::new(
        dv.len(),
        |i: int| (definition_keys_text(dv)[i], definition_fields_text(dv[i])),
    );
    let mut out: Vec<(String, Vec<(String, String)>)> = Vec::new();
    let mut k: usize = 0;
    proof {
        assert(indexed(keyed(out@)) =~= Seq::empty());
        assert(pairs.take(0) =~= Seq::empty());
    }
    while k < ds.len()
        invariant
            k <= ds@.len(),
            definition_views(ds@) == dv,
            dv.len() == ds@.len(),
            keys@.len() == dv.len(),
            string_views(keys@) == definition_keys_text(dv),
            pairs == Seq::new(dv.len(), |i: int| (definition_keys_text(dv)[i], definition_fields_text(dv[i]))),
            indexed(keyed(out@)) == collect(pairs.take(k as int)),
        decreases ds@.len() - k,
    {
        let fields = definition_fields(&ds[k]);
        let ghost before = keyed(out@);
        let key = keys[k].clone();
        proof {
            assert(ds@[k as int]@ == dv[k as int]);
            assert(key@ == definition_keys_text(dv)[k as int]);
            lemma_put_indexed(before, key@, fields);
        }
        put_entry(&mut out, key, fields);
        proof {
            assert(pairs.take(k + 1).drop_last() =~= pairs.take(k as int));
        }
        k = k + 1;
    }
    proof {
        assert(pairs.take(k as int) =~= pairs);
    }
    out
}

/// True if `a` and `b` hold the same fields.
fn same_fields(a: &Vec<(String, String)>, b: &Vec<(String, String)>) -> (r: bool)
    ensures
        r == (texts(a@) == texts(b@)),
{
    if a.len() != b.len() {
        proof {
            assert(texts(a@).len() != texts(b@).len());
        }
        return false;
    }
    let mut i: usize = 0;
    while i < a.len()
        invariant
            i <= a@.len(),
            a@.len() == b@.len(),
            texts(a@).take(i as int) == texts(b@).take(i as int),
        decreases a@.len() - i,
    {
        if !same_text(a[i].0.as_str(), b[i].0.as_str()) || !same_text(a[i].1.as_str(), b[i].1.as_str()) {
            proof {
                assert(texts(a@)[i as int] != texts(b@)[i as int]);
            }
            return false;
        }
        proof {
            assert(texts(a@).take(i + 1) =~= texts(a@).take(i as int).push(texts(a@)[i as int]));
            assert(texts(b@).take(i + 1) =~= texts(b@).take(i as int).push(texts(b@)[i as int]));
        }
        i = i + 1;
    }
    proof {
        assert(texts(a@).take(i as int) =~= texts(a@));
        assert(texts(b@).take(i as int) =~= texts(b@));
    }
    true
}

/// The products added, removed or changed between the files behind `old`
/// and `new`, matched by key, in key order.
pub fn products(old: &ProductStructure, new: &ProductStructure) -> (r: Vec<ProductChange>)
    ensures
        product_change_views(r@) == product_changes(
            product_index(old.definitions_view()),
            product_index(new.definitions_view()),
        ),
{
    let a = index(old);
    let b = index(new);
    let ghost ka = indexed(keyed(a@));
    let ghost kb = indexed(keyed(b@));
    let mut out: Vec<ProductChange> = Vec::new();
    let mut i: usize = 0;
    let mut j: usize = 0;
    proof {
        assert(ka.skip(0) =~= ka);
        assert(kb.skip(0) =~= kb);
        assert(product_change_views(out@) =~= Seq::empty());
    }
    while i < a.len() || j < b.len()
        invariant
            i <= a@.len(),
            j <= b@.len(),
            ka == indexed(keyed(a@)),
            kb == indexed(keyed(b@)),
            product_changes(ka, kb) == product_change_views(out@) + product_changes(
                ka.skip(i as int),
                kb.skip(j as int),
            ),
        decreases a@.len() + b@.len() - i - j,
    {
        let ghost sa = ka.skip(i as int);
        let ghost sb = kb.skip(j as int);
        let ghost before = product_change_views(out@);
        if j >= b.len() || (i < a.len() && lex_less(a[i].0.as_str(), b[j].0.as_str())) {
            proof {
                assert(sa[0] == ka[i as int]);
                assert(sa.drop_first() =~= ka.skip(i + 1));
            }
            out.push(ProductChange { product: a[i].0.clone(), kind: ChangeKind::Removed, fields: Vec::new() });
            proof {
                assert(field_change_views(out@.last().fields@) =~= Seq::empty());
            }
            i = i + 1;
        } else if i >= a.len() || lex_less(b[j].0.as_str(), a[i].0.as_str()) {
            proof {
                assert(sb[0] == kb[j as int]);
                assert(sb.drop_first() =~= kb.skip(j + 1));
            }
            out.push(ProductChange { product: b[j].0.clone(), kind: ChangeKind::Added, fields: Vec::new() });
            proof {
                assert(field_change_views(out@.last().fields@) =~= Seq::empty());
            }
            j = j + 1;
        } else {
            proof {
                assert(sa[0] == ka[i as int]);
                assert(sb[0] == kb[j as int]);
                assert(sa.drop_first() =~= ka.skip(i + 1));
                assert(sb.drop_first() =~= kb.skip(j + 1));
            }
            if !same_fields(&a[i].1, &b[j].1) {
                let changed = fields(&a[i].1, &b[j].1);
                out.push(ProductChange { product: a[i].0.clone(), kind: ChangeKind::Changed, fields: changed });
            }
            i = i + 1;
            j = j + 1;
        }
        proof {
            assert(product_change_views(out@) =~= before + product_change_views(out@).skip(before.len() as int));
        }
    }
    proof {
        assert(ka.skip(i as int) =~= Seq::<(Seq<char>, Seq<(Seq<char>, Seq<char>)>)>::empty());
        assert(kb.skip(j as int) =~= Seq::<(Seq<char>, Seq<(Seq<char>, Seq<char>)>)>::empty());
        assert(product_change_views(out@) + Seq::<ProductChangeView>::empty() =~= product_change_views(out@));
    }
    out
}

// ---------------------------------------------------------------------
// Property values.
// ---------------------------------------------------------------------

/// True if `c` is an ASCII digit.
pub open spec fn is_digit(c: char) -> bool {
    48 <= (c as u32) <= 57
}

/// `s` with the digits that follow a `#` left out, the first character
/// coming after a `#` where `after_hash` is set.
pub open spec fn plain_from(s: Seq<char>, after_hash: bool) -> Seq<char>
    decreases s.len(),
{
    if s.len() == 0 {
        Seq::empty()
    } else if after_hash && is_digit(s[0]) {
        plain_from(s.drop_first(), true)
    } else {
        seq![s[0]] + plain_from(s.drop_first(), s[0] == '#')
    }
}

/// `s` with every instance name `#123` written `#`.
pub open spec fn without_names(s: Seq<char>) -> Seq<char> {
    plain_from(s, false)
}

/// `text` with every `#123` replaced by `#`, so that the same property in
/// two exports compares equal.
pub fn without_instance_names(text: &str) -> (r: String)
    ensures
        r@ == without_names(text@),
{
    let n = text.unicode_len();
    let mut out = String::new();
    let mut after_hash = false;
    let mut i: usize = 0;
    proof {
        assert(text@.skip(0) =~= text@);
    }
    while i < n
        invariant
            n == text@.len(),
            i <= n,
            without_names(text@) == out@ + plain_from(text@.skip(i as int), after_hash),
        decreases n - i,
    {
        let c = text.get_char(i);
        proof {
            assert(text@.skip(i as int)[0] == c);
            assert(text@.skip(i as int).drop_first() =~= text@.skip(i + 1));
        }
        let digit = (c as u32) >= 48 && (c as u32) <= 57;
        if !(after_hash && digit) {
            let ghost before = out@;
            push_char(&mut out, c);
            after_hash = c == '#';
            proof {
                assert(out@ =~= before + seq![c]);
                assert(before + (seq![c] + plain_from(text@.skip(i + 1), after_hash)) =~= out@ + plain_from(
                    text@.skip(i + 1),
                    after_hash,
                ));
            }
        }
        i = i + 1;
    }
    proof {
        assert(text@.skip(i as int) =~= Seq::<char>::empty());
        assert(out@ + Seq::<char>::empty() =~= out@);
    }
    out
}

/// The key and value of each value of property `p`: its label, with the
/// value's own name after ` / ` where that differs, and the value, both
/// without instance names. A property without values has one, empty.
pub open spec fn property_entries(p: PropertyView) -> Seq<(Seq<char>, Seq<char>)> {
    let label = without_names(label_of(p));
    if p.values.len() == 0 {
        seq![(label, Seq::empty())]
    } else {
        Seq::new(
            p.values.len(),
            |i: int|
                {
                    let name = text_or_empty(p.values[i].name);
                    let key = if name.len() == 0 || name == label_of(p) {
                        label
                    } else {
                        label + " / "@ + without_names(name)
                    };
                    (key, without_names(p.values[i].value))
                },
        )
    }
}

/// The first definition of `ds` from `j` on that is instance `id`.
pub open spec fn position_from(ds: Seq<DefinitionView>, id: u64, j: int) -> Option<int>
    decreases ds.len() - j,
{
    if j < 0 || j >= ds.len() {
        None
    } else if ds[j].instance == id {
        Some(j)
    } else {
        position_from(ds, id, j + 1)
    }
}

/// The key of the definition a property belongs to, or nothing.
pub open spec fn owner_key(ds: Seq<DefinitionView>, definition: Option<u64>) -> Seq<char> {
    match definition {
        Some(id) => match position_from(ds, id, 0) {
            Some(j) => definition_keys_text(ds)[j],
            None => Seq::empty(),
        },
        None => Seq::empty(),
    }
}

/// Product key, property key and value of every value of `props`, in
/// order.
pub open spec fn property_rows(props: Seq<PropertyView>, ds: Seq<DefinitionView>) -> Seq<(Seq<char>, Seq<char>, Seq<char>)>
    decreases props.len(),
{
    if props.len() == 0 {
        Seq::empty()
    } else {
        let p = props.last();
        let owner = owner_key(ds, p.subject.product_definition);
        property_rows(props.drop_last(), ds) + property_entries(p).map_values(
            |e: (Seq<char>, Seq<char>)| (owner, e.0, e.1),
        )
    }
}

/// Product key and property key of each row, run together around a NUL.
pub open spec fn joined_keys(rows: Seq<(Seq<char>, Seq<char>, Seq<char>)>) -> Seq<Seq<char>> {
    rows.map_values(|r: (Seq<char>, Seq<char>, Seq<char>)| r.0 + seq!['\0'] + r.1)
}

/// The first NUL of `s` from `i` on, or its length.
pub open spec fn first_nul(s: Seq<char>, i: int) -> int
    decreases s.len() - i,
{
    if i < 0 || i >= s.len() {
        s.len() as int
    } else if s[i] == '\0' {
        i
    } else {
        first_nul(s, i + 1)
    }
}

/// `s` cut at its first NUL, which is left out.
pub open spec fn split_nul(s: Seq<char>) -> (Seq<char>, Seq<char>) {
    let i = first_nul(s, 0);
    if i < s.len() {
        (s.take(i), s.skip(i + 1))
    } else {
        (s, Seq::empty())
    }
}

/// True if `x` sorts before `y`: by the first text, then the second.
pub open spec fn pair_lt(x: (Seq<char>, Seq<char>), y: (Seq<char>, Seq<char>)) -> bool {
    lex_lt(x.0, y.0) || (x.0 == y.0 && lex_lt(x.1, y.1))
}

/// `m` with the value of `k` set to `v`, keys ordered by [`pair_lt`].
pub open spec fn put_pair<V>(m: Seq<((Seq<char>, Seq<char>), V)>, k: (Seq<char>, Seq<char>), v: V) -> Seq<
    ((Seq<char>, Seq<char>), V),
>
    decreases m.len(),
{
    if m.len() == 0 {
        seq![(k, v)]
    } else if m[0].0 == k {
        m.update(0, (k, v))
    } else if pair_lt(k, m[0].0) {
        seq![(k, v)] + m
    } else {
        seq![m[0]] + put_pair(m.drop_first(), k, v)
    }
}

/// The entries of `m`, each put in turn into an empty collection.
pub open spec fn collect_pairs<V>(m: Seq<((Seq<char>, Seq<char>), V)>) -> Seq<((Seq<char>, Seq<char>), V)>
    decreases m.len(),
{
    if m.len() == 0 {
        Seq::empty()
    } else {
        put_pair(collect_pairs(m.drop_last()), m.last().0, m.last().1)
    }
}

/// Every property value of `props` by product key and property key, a
/// repeated key getting ` (2)`, ` (3)`, … in file order, in key order.
pub open spec fn property_values_text(props: Seq<PropertyView>, ds: Seq<DefinitionView>) -> Seq<
    ((Seq<char>, Seq<char>), Seq<char>),
> {
    let rows = property_rows(props, ds);
    collect_pairs(Seq::new(rows.len(), |i: int| (split_nul(numbered_key(joined_keys(rows), i)), rows[i].2)))
}

proof fn lemma_pair_total(x: (Seq<char>, Seq<char>), y: (Seq<char>, Seq<char>))
    ensures
        x != y ==> pair_lt(x, y) || pair_lt(y, x),
        !(pair_lt(x, y) && pair_lt(y, x)),
        !pair_lt(x, x),
{
    lemma_lex_asymmetric(x.0, y.0);
    lemma_lex_asymmetric(x.1, y.1);
    lemma_lex_irreflexive(x.0);
    lemma_lex_irreflexive(x.1);
    if x != y {
        if x.0 != y.0 {
            lemma_lex_total(x.0, y.0);
        } else {
            lemma_lex_total(x.1, y.1);
        }
    }
}

proof fn lemma_put_pair<V>(m: Seq<((Seq<char>, Seq<char>), V)>, k: (Seq<char>, Seq<char>), v: V, i: int)
    requires
        0 <= i <= m.len(),
        forall|j: int| 0 <= j < i ==> pair_lt(#[trigger] m[j].0, k),
        i < m.len() ==> !pair_lt(m[i].0, k),
    ensures
        put_pair(m, k, v) == if i < m.len() && m[i].0 == k {
            m.update(i, (k, v))
        } else {
            m.insert(i, (k, v))
        },
    decreases m.len(),
{
    if m.len() == 0 {
        assert(put_pair(m, k, v) =~= m.insert(0, (k, v)));
    } else if i == 0 {
        if m[0].0 != k {
            lemma_pair_total(m[0].0, k);
            assert(put_pair(m, k, v) =~= m.insert(0, (k, v)));
        }
    } else {
        lemma_pair_total(m[0].0, k);
        lemma_pair_total(k, k);
        let rest = m.drop_first();
        assert forall|j: int| 0 <= j < i - 1 implies pair_lt(#[trigger] rest[j].0, k) by {
            assert(rest[j] == m[j + 1]);
        }
        lemma_put_pair(rest, k, v, i - 1);
        if i < m.len() && m[i].0 == k {
            assert(put_pair(m, k, v) =~= m.update(i, (k, v)));
        } else {
            assert(put_pair(m, k, v) =~= m.insert(i, (k, v)));
        }
    }
}

/// The entries of `m` as text.
pub open spec fn pair_texts(m: Seq<((String, String), String)>) -> Seq<((Seq<char>, Seq<char>), Seq<char>)> {
    m.map_values(|e: ((String, String), String)| ((e.0.0@, e.0.1@), e.1@))
}

/// True if `a` sorts before `b` by [`pair_lt`].
fn pair_less(a: &(String, String), b: &(String, String)) -> (r: bool)
    ensures
        r == pair_lt((a.0@, a.1@), (b.0@, b.1@)),
{
    lex_less(a.0.as_str(), b.0.as_str()) || (same_text(a.0.as_str(), b.0.as_str()) && lex_less(
        a.1.as_str(),
        b.1.as_str(),
    ))
}

/// Sets the value of `k` in `m` to `v`.
fn put_pair_entry(m: &mut Vec<((String, String), String)>, k: (String, String), v: String)
    ensures
        pair_texts(final(m)@) == put_pair(pair_texts(old(m)@), (k.0@, k.1@), v@),
{
    let ghost km = pair_texts(m@);
    let ghost kv = (k.0@, k.1@);
    let mut i: usize = 0;
    while i < m.len() && pair_less(&m[i].0, &k)
        invariant
            i <= m@.len(),
            km == pair_texts(m@),
            kv == (k.0@, k.1@),
            forall|j: int| 0 <= j < i ==> pair_lt(#[trigger] km[j].0, kv),
        decreases m@.len() - i,
    {
        i = i + 1;
    }
    proof {
        lemma_put_pair(km, kv, v@, i as int);
    }
    let ghost vv = v@;
    if i < m.len() && !pair_less(&k, &m[i].0) {
        proof {
            if km[i as int].0 != kv {
                lemma_pair_total(km[i as int].0, kv);
            }
        }
        m.set(i, (k, v));
        proof {
            assert(pair_texts(m@) =~= km.update(i as int, (kv, vv)));
        }
    } else {
        m.insert(i, (k, v));
        proof {
            assert(pair_texts(m@) =~= km.insert(i as int, (kv, vv)));
        }
    }
}

/// `s` cut at its first NUL, which is left out.
fn split_at_nul(s: &str) -> (r: (String, String))
    ensures
        (r.0@, r.1@) == split_nul(s@),
{
    let n = s.unicode_len();
    let mut i: usize = 0;
    while i < n && s.get_char(i) != '\0'
        invariant
            n == s@.len(),
            i <= n,
            first_nul(s@, 0) == first_nul(s@, i as int),
        decreases n - i,
    {
        i = i + 1;
    }
    if i < n {
        let head = s.substring_char(0, i).to_owned();
        let tail = s.substring_char(i + 1, n).to_owned();
        proof {
            assert(head@ =~= s@.take(i as int));
            assert(tail@ =~= s@.skip(i + 1));
        }
        (head, tail)
    } else {
        (s.to_owned(), String::new())
    }
}

/// Entry `i` of `bases`, made unique as [`numbered_key`] says.
fn numbered(bases: &Vec<String>, i: usize) -> (r: String)
    requires
        i < bases@.len(),
    ensures
        r@ == numbered_key(string_views(bases@), i as int),
{
    let ghost bv = string_views(bases@);
    let len = bases.len();
    let mut n: usize = 0;
    let mut j: usize = 0;
    while j <= i
        invariant
            len == bases@.len(),
            i < bases@.len(),
            j <= i + 1,
            n <= j,
            bv == string_views(bases@),
            n == occurrences(bv.take(j as int), bv[i as int]),
        decreases i + 1 - j,
    {
        proof {
            assert(bv.take(j + 1).drop_last() =~= bv.take(j as int));
        }
        if same_text(bases[j].as_str(), bases[i].as_str()) {
            n = n + 1;
        }
        j = j + 1;
    }
    if n == 1 {
        bases[i].clone()
    } else {
        let mut key = bases[i].clone();
        key.append(" (");
        key.append(decimal_string(n as u64).as_str());
        key.append(")");
        proof {
            assert(key@ =~= bases@[i as int]@ + " ("@ + decimal(n as nat) + ")"@);
        }
        key
    }
}

/// The key of definition `definition` among `ds`, whose keys are `keys`,
/// or an empty string.
fn owner_of(ds: &[Definition], keys: &Vec<String>, definition: Option<u64>) -> (r: String)
    requires
        string_views(keys@) == definition_keys_text(definition_views(ds@)),
    ensures
        r@ == owner_key(definition_views(ds@), definition),
{
    let ghost dv = definition_views(ds@);
    match definition {
        None => String::new(),
        Some(id) => {
            let mut j: usize = 0;
            while j < ds.len()
                invariant
                    dv == definition_views(ds@),
                    dv.len() == ds@.len(),
                    string_views(keys@) == definition_keys_text(dv),
                    definition == Some(id),
                    j <= ds@.len(),
                    position_from(dv, id, 0) == position_from(dv, id, j as int),
                decreases ds@.len() - j,
            {
                proof {
                    assert(dv[j as int] == ds@[j as int]@);
                }
                if ds[j].instance == id {
                    proof {
                        assert(string_views(keys@).len() == keys@.len());
                        assert(definition_keys_text(dv).len() == dv.len());
                        assert(string_views(keys@)[j as int] == keys@[j as int]@);
                        assert(position_from(dv, id, j as int) == Some(j as int));
                        assert(position_from(dv, id, 0) == Some(j as int));
                        assert(definition == Some(id));
                        assert(owner_key(dv, definition) == definition_keys_text(dv)[j as int]);
                    }
                    return keys[j].clone();
                }
                j = j + 1;
            }
            String::new()
        },
    }
}

/// The views of `v`.
pub open spec fn row_views(v: Seq<(String, String, String)>) -> Seq<(Seq<char>, Seq<char>, Seq<char>)> {
    v.map_values(|r: (String, String, String)| (r.0@, r.1@, r.2@))
}

/// Adds the rows of property `p`, belonging to the definition with key
/// `owner`.
fn push_property_rows(rows: &mut Vec<(String, String, String)>, p: &Property, owner: &String)
    ensures
        row_views(final(rows)@) == row_views(old(rows)@) + property_entries(p@).map_values(
            |e: (Seq<char>, Seq<char>)| (owner@, e.0, e.1),
        ),
{
    let ghost pv = p@;
    let ghost entries = property_entries(pv).map_values(|e: (Seq<char>, Seq<char>)| (owner@, e.0, e.1));
    let ghost start = row_views(rows@);
    let label_text = p.label();
    let label = without_instance_names(label_text);
    if p.values.len() == 0 {
        rows.push((owner.clone(), label, String::new()));
        proof {
            assert(row_views(rows@) =~= start + entries);
        }
        return;
    }
    let mut k: usize = 0;
    while k < p.values.len()
        invariant
            k <= p.values@.len(),
            pv == p@,
            pv.values.len() == p.values@.len(),
            pv.values.len() > 0,
            label@ == without_names(label_of(pv)),
            label_text@ == label_of(pv),
            entries == property_entries(pv).map_values(|e: (Seq<char>, Seq<char>)| (owner@, e.0, e.1)),
            row_views(rows@) == start + entries.take(k as int),
        decreases p.values@.len() - k,
    {
        let v = &p.values[k];
        proof {
            assert(pv.values[k as int] == v@);
        }
        let name = text_of(&v.name);
        let key = if name.unicode_len() == 0 || same_text(name.as_str(), label_text) {
            label.clone()
        } else {
            let mut key = label.clone();
            key.append(" / ");
            key.append(without_instance_names(name.as_str()).as_str());
            key
        };
        let value = without_instance_names(v.value.as_str());
        let ghost before = row_views(rows@);
        rows.push((owner.clone(), key, value));
        proof {
            assert(row_views(rows@) =~= before.push((owner@, key@, value@)));
            assert(entries[k as int] == (owner@, key@, value@));
            assert(entries.take(k + 1) =~= entries.take(k as int).push(entries[k as int]));
        }
        k = k + 1;
    }
    proof {
        assert(entries.take(k as int) =~= entries);
    }
}

/// Product key, property key and value of every value of `props`.
fn rows_of(props: &Vec<Property>, structure: &ProductStructure) -> (r: Vec<(String, String, String)>)
    ensures
        row_views(r@) == property_rows(property_views(props@), structure.definitions_view()),
{
    let ds = structure.definitions();
    let keys = definition_keys(structure);
    let ghost dv = structure.definitions_view();
    let ghost pv = property_views(props@);
    let mut rows: Vec<(String, String, String)> = Vec::new();
    let mut t: usize = 0;
    proof {
        assert(row_views(rows@) =~= Seq::empty());
        assert(pv.take(0) =~= Seq::empty());
    }
    while t < props.len()
        invariant
            t <= props@.len(),
            dv == definition_views(ds@),
            dv == structure.definitions_view(),
            pv == property_views(props@),
            string_views(keys@) == definition_keys_text(dv),
            row_views(rows@) == property_rows(pv.take(t as int), dv),
        decreases props@.len() - t,
    {
        let p = &props[t];
        let owner = owner_of(ds, &keys, p.subject.product_definition);
        proof {
            assert(pv[t as int] == p@);
            assert(pv.take(t + 1).drop_last() =~= pv.take(t as int));
            assert(pv.take(t + 1).last() == p@);
        }
        push_property_rows(&mut rows, p, &owner);
        t = t + 1;
    }
    proof {
        assert(pv.take(t as int) =~= pv);
    }
    rows
}

/// Every property value of `props` by product key and property key, in
/// key order.
fn property_values(props: &Vec<Property>, structure: &ProductStructure) -> (r: Vec<((String, String), String)>)
    ensures
        pair_texts(r@) == property_values_text(property_views(props@), structure.definitions_view()),
{
    let rows = rows_of(props, structure);
    let ghost rv = row_views(rows@);
    let ghost jk = joined_keys(rv);
    let ghost entries = Seq::new(
        rv.len(),
        |i: int| (split_nul(numbered_key(joined_keys(rv), i)), rv[i].2),
    );
    let mut joined: Vec<String> = Vec::new();
    let mut out: Vec<((String, String), String)> = Vec::new();
    let mut i: usize = 0;
    proof {
        assert(pair_texts(out@) =~= Seq::empty());
        assert(entries.take(0) =~= Seq::empty());
        assert(string_views(joined@) =~= jk.take(0));
    }
    while i < rows.len()
        invariant
            i <= rows@.len(),
            rv == row_views(rows@),
            jk == joined_keys(rv),
            entries == Seq::new(rv.len(), |i: int| (split_nul(numbered_key(joined_keys(rv), i)), rv[i].2)),
            string_views(joined@) == jk.take(i as int),
            pair_texts(out@) == collect_pairs(entries.take(i as int)),
        decreases rows@.len() - i,
    {
        let mut c = rows[i].0.clone();
        push_char(&mut c, '\0');
        c.append(rows[i].1.as_str());
        let ghost before = joined@;
        joined.push(c);
        proof {
            assert(rv[i as int] == (rows@[i as int].0@, rows@[i as int].1@, rows@[i as int].2@));
            assert(jk[i as int] == c@);
            assert(string_views(joined@) =~= jk.take(i + 1));
        }
        let key = numbered(&joined, i);
        proof {
            assert(numbered_key(string_views(joined@), i as int) == numbered_key(jk, i as int)) by {
                assert(string_views(joined@).take(i + 1) =~= jk.take(i + 1));
            }
        }
        let (product, property) = split_at_nul(key.as_str());
        put_pair_entry(&mut out, (product, property), rows[i].2.clone());
        proof {
            assert(entries[i as int] == (split_nul(numbered_key(jk, i as int)), rv[i as int].2));
            assert(entries.take(i + 1).drop_last() =~= entries.take(i as int));
        }
        i = i + 1;
    }
    proof {
        assert(entries.take(i as int) =~= entries);
    }
    out
}

/// One property value that differs.
#[derive(Debug, Clone, PartialEq, Eq)]
pub struct PropertyChange {
    /// The product key, or empty for properties of no product definition.
    pub product: String,
    /// The property label and value name, with `#id`s replaced by `#`; a
    /// repeated key gets ` (2)`, ` (3)`, … in file order.
    pub property: String,
    /// Added, removed or changed.
    pub kind: ChangeKind,
    /// The value in the first file.
    pub old: Option<String>,
    /// The value in the second file.
    pub new: Option<String>,
}

/// A [`PropertyChange`] as plain values.
pub struct PropertyChangeView {
    pub product: Seq<char>,
    pub property: Seq<char>,
    pub kind: ChangeKind,
    pub old: Option<Seq<char>>,
    pub new: Option<Seq<char>>,
}

/// The views of `v`.
pub open spec fn property_change_views(v: Seq<PropertyChange>) -> Seq<PropertyChangeView> {
    v.map_values(
        |c: PropertyChange|
            PropertyChangeView {
                product: c.product@,
                property: c.property@,
                kind: c.kind,
                old: option_view(c.old),
                new: option_view(c.new),
            },
    )
}

/// The property values of `a` and `b` that differ, merged in key order.
pub open spec fn property_changes_text(
    a: Seq<((Seq<char>, Seq<char>), Seq<char>)>,
    b: Seq<((Seq<char>, Seq<char>), Seq<char>)>,
) -> Seq<PropertyChangeView>
    decreases a.len() + b.len(),
{
    if a.len() == 0 && b.len() == 0 {
        Seq::empty()
    } else if b.len() == 0 || (a.len() > 0 && pair_lt(a[0].0, b[0].0)) {
        seq![
            PropertyChangeView {
                product: a[0].0.0,
                property: a[0].0.1,
                kind: ChangeKind::Removed,
                old: Some(a[0].1),
                new: None,
            },
        ] + property_changes_text(a.drop_first(), b)
    } else if a.len() == 0 || pair_lt(b[0].0, a[0].0) {
        seq![
            PropertyChangeView {
                product: b[0].0.0,
                property: b[0].0.1,
                kind: ChangeKind::Added,
                old: None,
                new: Some(b[0].1),
            },
        ] + property_changes_text(a, b.drop_first())
    } else if a[0].1 == b[0].1 {
        property_changes_text(a.drop_first(), b.drop_first())
    } else {
        seq![
            PropertyChangeView {
                product: a[0].0.0,
                property: a[0].0.1,
                kind: ChangeKind::Changed,
                old: Some(a[0].1),
                new: Some(b[0].1),
            },
        ] + property_changes_text(a.drop_first(), b.drop_first())
    }
}

/// The property values added, removed or changed between `old` and `new`,
/// the properties of files whose product structures are `old_structure`
/// and `new_structure`, in key order.
pub fn property_changes(
    old: &Vec<Property>,
    new: &Vec<Property>,
    old_structure: &ProductStructure,
    new_structure: &ProductStructure,
) -> (r: Vec<PropertyChange>)
    ensures
        property_change_views(r@) == property_changes_text(
            property_values_text(property_views(old@), old_structure.definitions_view()),
            property_values_text(property_views(new@), new_structure.definitions_view()),
        ),
{
    let a = property_values(old, old_structure);
    let b = property_values(new, new_structure);
    let ghost ka = pair_texts(a@);
    let ghost kb = pair_texts(b@);
    let mut out: Vec<PropertyChange> = Vec::new();
    let mut i: usize = 0;
    let mut j: usize = 0;
    proof {
        assert(ka.skip(0) =~= ka);
        assert(kb.skip(0) =~= kb);
        assert(property_change_views(out@) =~= Seq::empty());
    }
    while i < a.len() || j < b.len()
        invariant
            i <= a@.len(),
            j <= b@.len(),
            ka == pair_texts(a@),
            kb == pair_texts(b@),
            property_changes_text(ka, kb) == property_change_views(out@) + property_changes_text(
                ka.skip(i as int),
                kb.skip(j as int),
            ),
        decreases a@.len() + b@.len() - i - j,
    {
        let ghost sa = ka.skip(i as int);
        let ghost sb = kb.skip(j as int);
        let ghost before = property_change_views(out@);
        if j >= b.len() || (i < a.len() && pair_less(&a[i].0, &b[j].0)) {
            proof {
                assert(sa[0] == ka[i as int]);
                assert(sa.drop_first() =~= ka.skip(i + 1));
            }
            out.push(
                PropertyChange {
                    product: a[i].0.0.clone(),
                    property: a[i].0.1.clone(),
                    kind: ChangeKind::Removed,
                    old: Some(a[i].1.clone()),
                    new: None,
                },
            );
            i = i + 1;
        } else if i >= a.len() || pair_less(&b[j].0, &a[i].0) {
            proof {
                assert(sb[0] == kb[j as int]);
                assert(sb.drop_first() =~= kb.skip(j + 1));
            }
            out.push(
                PropertyChange {
                    product: b[j].0.0.clone(),
                    property: b[j].0.1.clone(),
                    kind: ChangeKind::Added,
                    old: None,
                    new: Some(b[j].1.clone()),
                },
            );
            j = j + 1;
        } else {
            proof {
                assert(sa[0] == ka[i as int]);
                assert(sb[0] == kb[j as int]);
                assert(sa.drop_first() =~= ka.skip(i + 1));
                assert(sb.drop_first() =~= kb.skip(j + 1));
            }
            if !same_text(a[i].1.as_str(), b[j].1.as_str()) {
                out.push(
                    PropertyChange {
                        product: a[i].0.0.clone(),
                        property: a[i].0.1.clone(),
                        kind: ChangeKind::Changed,
                        old: Some(a[i].1.clone()),
                        new: Some(b[j].1.clone()),
                    },
                );
            }
            i = i + 1;
            j = j + 1;
        }
        proof {
            assert(property_change_views(out@) =~= before + property_change_views(out@).skip(before.len() as int));
        }
    }
    proof {
        assert(ka.skip(i as int) =~= Seq::<((Seq<char>, Seq<char>), Seq<char>)>::empty());
        assert(kb.skip(j as int) =~= Seq::<((Seq<char>, Seq<char>), Seq<char>)>::empty());
        assert(property_change_views(out@) + Seq::<PropertyChangeView>::empty() =~= property_change_views(out@));
    }
    out
}

// ---------------------------------------------------------------------
// The comparison.
// ---------------------------------------------------------------------

/// What differs between two files, section by section, each in key order;
/// see [`diff`].
#[derive(Debug, Clone, PartialEq, Eq)]
pub struct Diff {
    /// Header fields, units and the instance count, by field name.
    pub header: Vec<FieldChange>,
    /// Entity types whose instance count differs, by name.
    pub entity_types: Vec<CountChange>,
    /// Products added, removed or changed, by key.
    pub products: Vec<ProductChange>,
    /// Property values added, removed or changed, by product and property.
    pub properties: Vec<PropertyChange>,
}

impl Diff {
    /// True if nothing differs.
    pub fn is_empty(&self) -> (b: bool)
        ensures
            b == (self.header@.len() == 0 && self.entity_types@.len() == 0 && self.products@.len() == 0
                && self.properties@.len() == 0),
    {
        self.header.len() == 0 && self.entity_types.len() == 0 && self.products.len() == 0
            && self.properties.len() == 0
    }

    /// The number of differences in all sections.
    pub fn len(&self) -> (n: usize)
        requires
            self.header@.len() + self.entity_types@.len() + self.products@.len() + self.properties@.len()
                <= usize::MAX,
        ensures
            n == self.header@.len() + self.entity_types@.len() + self.products@.len() + self.properties@.len(),
    {
        self.header.len() + self.entity_types.len() + self.products.len() + self.properties.len()
    }
}

/// The properties of the file behind `g`, whose product structure is `s`.
pub open spec fn file_properties(g: Graph, s: ProductStructure) -> Seq<PropertyView> {
    properties_upto(
        g,
        s.definitions_view().map_values(|d: crate::model::assembly::DefinitionView| d.instance),
        g.exchange_view().instances_view().len() as int,
    )
}

/// True if `d` is what differs between two files summarised by `old_info`
/// and `new_info`, with product structures `old_structure` and
/// `new_structure` and properties `old_properties` and `new_properties`.
pub open spec fn compares(
    d: Diff,
    old_info: Info,
    new_info: Info,
    old_structure: ProductStructure,
    new_structure: ProductStructure,
    old_properties: Seq<PropertyView>,
    new_properties: Seq<PropertyView>,
) -> bool {
    &&& field_change_views(d.header@) == changes(header_fields_text(old_info), header_fields_text(new_info))
    &&& count_change_views(d.entity_types@) == count_changes(
        counts_by_name(old_info.entity_types@),
        counts_by_name(new_info.entity_types@),
    )
    &&& product_change_views(d.products@) == product_changes(
        product_index(old_structure.definitions_view()),
        product_index(new_structure.definitions_view()),
    )
    &&& property_change_views(d.properties@) == property_changes_text(
        property_values_text(old_properties, old_structure.definitions_view()),
        property_values_text(new_properties, new_structure.definitions_view()),
    )
}

/// Compares two files by their summaries, product structures and
/// properties.
pub fn compare(
    old_info: &Info,
    new_info: &Info,
    old_structure: &ProductStructure,
    new_structure: &ProductStructure,
    old_properties: &Vec<Property>,
    new_properties: &Vec<Property>,
) -> (d: Diff)
    ensures
        compares(
            d,
            *old_info,
            *new_info,
            *old_structure,
            *new_structure,
            property_views(old_properties@),
            property_views(new_properties@),
        ),
{
    Diff {
        header: fields(&header_fields(old_info), &header_fields(new_info)),
        entity_types: entity_types(old_info, new_info),
        products: products(old_structure, new_structure),
        properties: property_changes(old_properties, new_properties, old_structure, new_structure),
    }
}

/// Compares the files behind `old` and `new`.
pub fn diff(old: &Graph, new: &Graph) -> (d: Diff)
    requires
        old.wf(),
        new.wf(),
    ensures
        exists|oi: Info, ni: Info, os: ProductStructure, ns: ProductStructure|
            #![trigger summarizes(oi, *old), summarizes(ni, *new), os.of(*old), ns.of(*new)]
            summarizes(oi, *old) && summarizes(ni, *new) && os.of(*old) && ns.of(*new) && compares(
                d,
                oi,
                ni,
                os,
                ns,
                file_properties(*old, os),
                file_properties(*new, ns),
            ),
{
    let old_info = Info::new(old);
    let new_info = Info::new(new);
    let old_structure = ProductStructure::new(old);
    let new_structure = ProductStructure::new(new);
    let old_properties = properties(old, &old_structure);
    let new_properties = properties(new, &new_structure);
    let d = compare(
        &old_info,
        &new_info,
        &old_structure,
        &new_structure,
        &old_properties.properties,
        &new_properties.properties,
    );
    proof {
        assert(property_views(old_properties.properties@) == file_properties(*old, old_structure));
        assert(property_views(new_properties.properties@) == file_properties(*new, new_structure));
        assert(summarizes(old_info, *old) && summarizes(new_info, *new) && old_structure.of(*old)
            && new_structure.of(*new));
    }
    d
}

// ---------------------------------------------------------------------
// A file compared with itself.
// ---------------------------------------------------------------------

proof fn lemma_no_changes(a: Seq<(Seq<char>, Seq<char>)>)
    ensures
        changes(a, a) == Seq::<FieldChangeView>::empty(),
    decreases a.len(),
{
    if a.len() > 0 {
        lemma_lex_irreflexive(a[0].0);
        lemma_no_changes(a.drop_first());
    }
}

proof fn lemma_no_count_changes(a: Seq<(Seq<char>, usize)>)
    ensures
        count_changes(a, a) == Seq::<(Seq<char>, usize, usize)>::empty(),
    decreases a.len(),
{
    if a.len() > 0 {
        lemma_lex_irreflexive(a[0].0);
        lemma_no_count_changes(a.drop_first());
        assert(count_changes(a, a) =~= count_changes(a.drop_first(), a.drop_first()));
    }
}

proof fn lemma_no_product_changes(a: Seq<(Seq<char>, Seq<(Seq<char>, Seq<char>)>)>)
    ensures
        product_changes(a, a) == Seq::<ProductChangeView>::empty(),
    decreases a.len(),
{
    if a.len() > 0 {
        lemma_lex_irreflexive(a[0].0);
        lemma_no_product_changes(a.drop_first());
    }
}

proof fn lemma_no_property_changes(a: Seq<((Seq<char>, Seq<char>), Seq<char>)>)
    ensures
        property_changes_text(a, a) == Seq::<PropertyChangeView>::empty(),
    decreases a.len(),
{
    if a.len() > 0 {
        lemma_pair_total(a[0].0, a[0].0);
        lemma_no_property_changes(a.drop_first());
    }
}

/// A file has no differences with itself: comparing a summary, product
/// structure and properties with themselves finds nothing in any section.
pub proof fn lemma_same_file_has_no_differences(
    d: Diff,
    info: Info,
    structure: ProductStructure,
    props: Seq<PropertyView>,
)
    requires
        compares(d, info, info, structure, structure, props, props),
    ensures
        d.header@.len() == 0,
        d.entity_types@.len() == 0,
        d.products@.len() == 0,
        d.properties@.len() == 0,
{
    lemma_no_changes(header_fields_text(info));
    lemma_no_count_changes(counts_by_name(info.entity_types@));
    lemma_no_product_changes(product_index(structure.definitions_view()));
    lemma_no_property_changes(property_values_text(props, structure.definitions_view()));
    assert(field_change_views(d.header@).len() == d.header@.len());
    assert(count_change_views(d.entity_types@).len() == d.entity_types@.len());
    assert(product_change_views(d.products@).len() == d.products@.len());
    assert(property_change_views(d.properties@).len() == d.properties@.len());
}

/// True if `value` is empty or `fields` hold it under `key`.
pub open spec fn lists_field(fields: Seq<(Seq<char>, Seq<char>)>, key: Seq<char>, value: Seq<char>) -> bool {
    value.len() > 0 ==> exists|k: int| 0 <= k < fields.len() && #[trigger] fields[k] == (key, value)
}

proof fn lemma_entry_listed(before: Seq<(Seq<char>, Seq<char>)>, key: Seq<char>, value: Seq<char>)
    ensures
        lists_field(before + entry(key, value), key, value),
{
    if value.len() > 0 {
        assert((before + entry(key, value))[before.len() as int] == (key, value));
    }
}

proof fn lemma_listed_kept(fields: Seq<(Seq<char>, Seq<char>)>, more: Seq<(Seq<char>, Seq<char>)>, key: Seq<char>, value: Seq<char>)
    requires
        lists_field(fields, key, value),
    ensures
        lists_field(fields + more, key, value),
{
    if value.len() > 0 {
        let k = choose|k: int| 0 <= k < fields.len() && #[trigger] fields[k] == (key, value);
        assert((fields + more)[k] == (key, value));
    }
}

/// The header fields compared hold every field of the header, the units of
/// each kind sorted and joined, and the instance count, each that is not
/// empty under its own name: two files whose schemas, say, differ show a
/// `schemas` change.
#[verifier::rlimit(40)]
pub proof fn lemma_header_fields_list_every_field(info: Info)
    ensures
        lists_field(header_fields_text(info), "author"@, separated(string_views(info.header.author@), ", "@)),
        lists_field(header_fields_text(info), "authorization"@, text_or_empty(option_view(info.header.authorization))),
        lists_field(header_fields_text(info), "description"@, separated(string_views(info.header.description@), ", "@)),
        lists_field(header_fields_text(info), "implementation_level"@, text_or_empty(option_view(info.header.implementation_level))),
        lists_field(header_fields_text(info), "instances"@, decimal(info.instances as nat)),
        lists_field(header_fields_text(info), "name"@, text_or_empty(option_view(info.header.name))),
        lists_field(header_fields_text(info), "organization"@, separated(string_views(info.header.organization@), ", "@)),
        lists_field(header_fields_text(info), "originating_system"@, text_or_empty(option_view(info.header.originating_system))),
        lists_field(header_fields_text(info), "preprocessor_version"@, text_or_empty(option_view(info.header.preprocessor_version))),
        lists_field(header_fields_text(info), "schemas"@, separated(string_views(info.header.schemas@), ", "@)),
        lists_field(header_fields_text(info), "time_stamp"@, text_or_empty(option_view(info.header.time_stamp))),
        lists_field(header_fields_text(info), "units.length"@, unit_field(string_views(info.units.length@))),
        lists_field(header_fields_text(info), "units.plane_angle"@, unit_field(string_views(info.units.plane_angle@))),
        lists_field(header_fields_text(info), "units.solid_angle"@, unit_field(string_views(info.units.solid_angle@))),
{
    let h = info.header;
    let e0 = entry("author"@, separated(string_views(h.author@), ", "@));
    let e1 = entry("authorization"@, text_or_empty(option_view(h.authorization)));
    let e2 = entry("description"@, separated(string_views(h.description@), ", "@));
    let e3 = entry("implementation_level"@, text_or_empty(option_view(h.implementation_level)));
    let e4 = entry("instances"@, decimal(info.instances as nat));
    let e5 = entry("name"@, text_or_empty(option_view(h.name)));
    let e6 = entry("organization"@, separated(string_views(h.organization@), ", "@));
    let e7 = entry("originating_system"@, text_or_empty(option_view(h.originating_system)));
    let e8 = entry("preprocessor_version"@, text_or_empty(option_view(h.preprocessor_version)));
    let e9 = entry("schemas"@, separated(string_views(h.schemas@), ", "@));
    let e10 = entry("time_stamp"@, text_or_empty(option_view(h.time_stamp)));
    let e11 = entry("units.length"@, unit_field(string_views(info.units.length@)));
    let e12 = entry("units.plane_angle"@, unit_field(string_views(info.units.plane_angle@)));
    let e13 = entry("units.solid_angle"@, unit_field(string_views(info.units.solid_angle@)));
    let p0 = Seq::<(Seq<char>, Seq<char>)>::empty() + e0;
    assert(p0 =~= e0);
    let p1 = p0 + e1;
    let p2 = p1 + e2;
    let p3 = p2 + e3;
    let p4 = p3 + e4;
    let p5 = p4 + e5;
    let p6 = p5 + e6;
    let p7 = p6 + e7;
    let p8 = p7 + e8;
    let p9 = p8 + e9;
    let p10 = p9 + e10;
    let p11 = p10 + e11;
    let p12 = p11 + e12;
    let p13 = p12 + e13;
    assert(header_fields_text(info) == p13);
    lemma_entry_listed(Seq::<(Seq<char>, Seq<char>)>::empty(), "author"@, separated(string_views(h.author@), ", "@));
    lemma_listed_kept(p0, e1, "author"@, separated(string_views(h.author@), ", "@));
    lemma_listed_kept(p1, e2, "author"@, separated(string_views(h.author@), ", "@));
    lemma_listed_kept(p2, e3, "author"@, separated(string_views(h.author@), ", "@));
    lemma_listed_kept(p3, e4, "author"@, separated(string_views(h.author@), ", "@));
    lemma_listed_kept(p4, e5, "author"@, separated(string_views(h.author@), ", "@));
    lemma_listed_kept(p5, e6, "author"@, separated(string_views(h.author@), ", "@));
    lemma_listed_kept(p6, e7, "author"@, separated(string_views(h.author@), ", "@));
    lemma_listed_kept(p7, e8, "author"@, separated(string_views(h.author@), ", "@));
    lemma_listed_kept(p8, e9, "author"@, separated(string_views(h.author@), ", "@));
    lemma_listed_kept(p9, e10, "author"@, separated(string_views(h.author@), ", "@));
    lemma_listed_kept(p10, e11, "author"@, separated(string_views(h.author@), ", "@));
    lemma_listed_kept(p11, e12, "author"@, separated(string_views(h.author@), ", "@));
    lemma_listed_kept(p12, e13, "author"@, separated(string_views(h.author@), ", "@));
    lemma_entry_listed(p0, "authorization"@, text_or_empty(option_view(h.authorization)));
    lemma_listed_kept(p1, e2, "authorization"@, text_or_empty(option_view(h.authorization)));
    lemma_listed_kept(p2, e3, "authorization"@, text_or_empty(option_view(h.authorization)));
    lemma_listed_kept(p3, e4, "authorization"@, text_or_empty(option_view(h.authorization)));
    lemma_listed_kept(p4, e5, "authorization"@, text_or_empty(option_view(h.authorization)));
    lemma_listed_kept(p5, e6, "authorization"@, text_or_empty(option_view(h.authorization)));
    lemma_listed_kept(p6, e7, "authorization"@, text_or_empty(option_view(h.authorization)));
    lemma_listed_kept(p7, e8, "authorization"@, text_or_empty(option_view(h.authorization)));
    lemma_listed_kept(p8, e9, "authorization"@, text_or_empty(option_view(h.authorization)));
    lemma_listed_kept(p9, e10, "authorization"@, text_or_empty(option_view(h.authorization)));
    lemma_listed_kept(p10, e11, "authorization"@, text_or_empty(option_view(h.authorization)));
    lemma_listed_kept(p11, e12, "authorization"@, text_or_empty(option_view(h.authorization)));
    lemma_listed_kept(p12, e13, "authorization"@, text_or_empty(option_view(h.authorization)));
    lemma_entry_listed(p1, "description"@, separated(string_views(h.description@), ", "@));
    lemma_listed_kept(p2, e3, "description"@, separated(string_views(h.description@), ", "@));
    lemma_listed_kept(p3, e4, "description"@, separated(string_views(h.description@), ", "@));
    lemma_listed_kept(p4, e5, "description"@, separated(string_views(h.description@), ", "@));
    lemma_listed_kept(p5, e6, "description"@, separated(string_views(h.description@), ", "@));
    lemma_listed_kept(p6, e7, "description"@, separated(string_views(h.description@), ", "@));
    lemma_listed_kept(p7, e8, "description"@, separated(string_views(h.description@), ", "@));
    lemma_listed_kept(p8, e9, "description"@, separated(string_views(h.description@), ", "@));
    lemma_listed_kept(p9, e10, "description"@, separated(string_views(h.description@), ", "@));
    lemma_listed_kept(p10, e11, "description"@, separated(string_views(h.description@), ", "@));
    lemma_listed_kept(p11, e12, "description"@, separated(string_views(h.description@), ", "@));
    lemma_listed_kept(p12, e13, "description"@, separated(string_views(h.description@), ", "@));
    lemma_entry_listed(p2, "implementation_level"@, text_or_empty(option_view(h.implementation_level)));
    lemma_listed_kept(p3, e4, "implementation_level"@, text_or_empty(option_view(h.implementation_level)));
    lemma_listed_kept(p4, e5, "implementation_level"@, text_or_empty(option_view(h.implementation_level)));
    lemma_listed_kept(p5, e6, "implementation_level"@, text_or_empty(option_view(h.implementation_level)));
    lemma_listed_kept(p6, e7, "implementation_level"@, text_or_empty(option_view(h.implementation_level)));
    lemma_listed_kept(p7, e8, "implementation_level"@, text_or_empty(option_view(h.implementation_level)));
    lemma_listed_kept(p8, e9, "implementation_level"@, text_or_empty(option_view(h.implementation_level)));
    lemma_listed_kept(p9, e10, "implementation_level"@, text_or_empty(option_view(h.implementation_level)));
    lemma_listed_kept(p10, e11, "implementation_level"@, text_or_empty(option_view(h.implementation_level)));
    lemma_listed_kept(p11, e12, "implementation_level"@, text_or_empty(option_view(h.implementation_level)));
    lemma_listed_kept(p12, e13, "implementation_level"@, text_or_empty(option_view(h.implementation_level)));
    lemma_entry_listed(p3, "instances"@, decimal(info.instances as nat));
    lemma_listed_kept(p4, e5, "instances"@, decimal(info.instances as nat));
    lemma_listed_kept(p5, e6, "instances"@, decimal(info.instances as nat));
    lemma_listed_kept(p6, e7, "instances"@, decimal(info.instances as nat));
    lemma_listed_kept(p7, e8, "instances"@, decimal(info.instances as nat));
    lemma_listed_kept(p8, e9, "instances"@, decimal(info.instances as nat));
    lemma_listed_kept(p9, e10, "instances"@, decimal(info.instances as nat));
    lemma_listed_kept(p10, e11, "instances"@, decimal(info.instances as nat));
    lemma_listed_kept(p11, e12, "instances"@, decimal(info.instances as nat));
    lemma_listed_kept(p12, e13, "instances"@, decimal(info.instances as nat));
    lemma_entry_listed(p4, "name"@, text_or_empty(option_view(h.name)));
    lemma_listed_kept(p5, e6, "name"@, text_or_empty(option_view(h.name)));
    lemma_listed_kept(p6, e7, "name"@, text_or_empty(option_view(h.name)));
    lemma_listed_kept(p7, e8, "name"@, text_or_empty(option_view(h.name)));
    lemma_listed_kept(p8, e9, "name"@, text_or_empty(option_view(h.name)));
    lemma_listed_kept(p9, e10, "name"@, text_or_empty(option_view(h.name)));
    lemma_listed_kept(p10, e11, "name"@, text_or_empty(option_view(h.name)));
    lemma_listed_kept(p11, e12, "name"@, text_or_empty(option_view(h.name)));
    lemma_listed_kept(p12, e13, "name"@, text_or_empty(option_view(h.name)));
    lemma_entry_listed(p5, "organization"@, separated(string_views(h.organization@), ", "@));
    lemma_listed_kept(p6, e7, "organization"@, separated(string_views(h.organization@), ", "@));
    lemma_listed_kept(p7, e8, "organization"@, separated(string_views(h.organization@), ", "@));
    lemma_listed_kept(p8, e9, "organization"@, separated(string_views(h.organization@), ", "@));
    lemma_listed_kept(p9, e10, "organization"@, separated(string_views(h.organization@), ", "@));
    lemma_listed_kept(p10, e11, "organization"@, separated(string_views(h.organization@), ", "@));
    lemma_listed_kept(p11, e12, "organization"@, separated(string_views(h.organization@), ", "@));
    lemma_listed_kept(p12, e13, "organization"@, separated(string_views(h.organization@), ", "@));
    lemma_entry_listed(p6, "originating_system"@, text_or_empty(option_view(h.originating_system)));
    lemma_listed_kept(p7, e8, "originating_system"@, text_or_empty(option_view(h.originating_system)));
    lemma_listed_kept(p8, e9, "originating_system"@, text_or_empty(option_view(h.originating_system)));
    lemma_listed_kept(p9, e10, "originating_system"@, text_or_empty(option_view(h.originating_system)));
    lemma_listed_kept(p10, e11, "originating_system"@, text_or_empty(option_view(h.originating_system)));
    lemma_listed_kept(p11, e12, "originating_system"@, text_or_empty(option_view(h.originating_system)));
    lemma_listed_kept(p12, e13, "originating_system"@, text_or_empty(option_view(h.originating_system)));
    lemma_entry_listed(p7, "preprocessor_version"@, text_or_empty(option_view(h.preprocessor_version)));
    lemma_listed_kept(p8, e9, "preprocessor_version"@, text_or_empty(option_view(h.preprocessor_version)));
    lemma_listed_kept(p9, e10, "preprocessor_version"@, text_or_empty(option_view(h.preprocessor_version)));
    lemma_listed_kept(p10, e11, "preprocessor_version"@, text_or_empty(option_view(h.preprocessor_version)));
    lemma_listed_kept(p11, e12, "preprocessor_version"@, text_or_empty(option_view(h.preprocessor_version)));
    lemma_listed_kept(p12, e13, "preprocessor_version"@, text_or_empty(option_view(h.preprocessor_version)));
    lemma_entry_listed(p8, "schemas"@, separated(string_views(h.schemas@), ", "@));
    lemma_listed_kept(p9, e10, "schemas"@, separated(string_views(h.schemas@), ", "@));
    lemma_listed_kept(p10, e11, "schemas"@, separated(string_views(h.schemas@), ", "@));
    lemma_listed_kept(p11, e12, "schemas"@, separated(string_views(h.schemas@), ", "@));
    lemma_listed_kept(p12, e13, "schemas"@, separated(string_views(h.schemas@), ", "@));
    lemma_entry_listed(p9, "time_stamp"@, text_or_empty(option_view(h.time_stamp)));
    lemma_listed_kept(p10, e11, "time_stamp"@, text_or_empty(option_view(h.time_stamp)));
    lemma_listed_kept(p11, e12, "time_stamp"@, text_or_empty(option_view(h.time_stamp)));
    lemma_listed_kept(p12, e13, "time_stamp"@, text_or_empty(option_view(h.time_stamp)));
    lemma_entry_listed(p10, "units.length"@, unit_field(string_views(info.units.length@)));
    lemma_listed_kept(p11, e12, "units.length"@, unit_field(string_views(info.units.length@)));
    lemma_listed_kept(p12, e13, "units.length"@, unit_field(string_views(info.units.length@)));
    lemma_entry_listed(p11, "units.plane_angle"@, unit_field(string_views(info.units.plane_angle@)));
    lemma_listed_kept(p12, e13, "units.plane_angle"@, unit_field(string_views(info.units.plane_angle@)));
    lemma_entry_listed(p12, "units.solid_angle"@, unit_field(string_views(info.units.solid_angle@)));
}

} // verus!
