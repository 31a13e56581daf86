//! Writer for the Part 21 exchange structure.
//!
//! Output is assembled from the source text. Every instance is copied
//! byte for byte from its original span (whitespace, comments, number
//! formatting and string escapes included) and only instance names
//! (`#id` tokens) are rewritten when renumbering. A string literal is a
//! single token, so `#` inside one is never touched. Comments inside an
//! instance are copied as they are, so a comment that mentions an old
//! `#id` keeps the old number.
use vstd::prelude::*;
use vstd::hash_map::HashMapWithView;
use vstd::hash_set::HashSetWithView;
use crate::error::{Error, Result};
use crate::text::{append_bytes, ascii_bytes, ascii_of, decimal_bytes, push_decimal_bytes};
use super::exchange::{
    external_ids, ids_in, instance_ok, references_in, tokens_between, DataSection, Entry, Exchange, ExtraKind,
    ExtraSection, Instance, ReferenceName,
};
use super::lexer::{slice_range, Span, Token, TokenKind};

verus! {

/// One replaced token: its span and the text written instead.
struct Replacement {
    start: usize,
    end: usize,
    text: Vec<u8>,
}

/// Text to write in place of individual tokens, such as a string literal
/// blanked or a name replaced. Every token without a replacement is still
/// copied from the source.
pub struct Replacements {
    /// By the token's start offset in the source, strictly ascending.
    entries: Vec<Replacement>,
}

/// The replacement for the token at `span`, if one is recorded for exactly
/// that span.
pub open spec fn replacement_for(m: Map<usize, (usize, Seq<u8>)>, span: Span) -> Option<Seq<u8>> {
    if m.contains_key(span.start) && m[span.start].0 == span.end {
        Some(m[span.start].1)
    } else {
        None
    }
}

/// True if a replaced token starts within `span`.
pub open spec fn replaced_within(m: Map<usize, (usize, Seq<u8>)>, span: Span) -> bool {
    exists|k: usize| #[trigger] m.contains_key(k) && span.start <= k < span.end
}

impl Replacements {
    #[verifier::type_invariant]
    spec fn ascending(&self) -> bool {
        forall|i: int, j: int|
            0 <= i < j < self.entries@.len() ==> #[trigger] self.entries@[i].start
                < #[trigger] self.entries@[j].start
    }

    /// The replacements, by the start of the token they replace: its end
    /// and the text.
    pub closed spec fn view(&self) -> Map<usize, (usize, Seq<u8>)> {
        Map::new(
            |k: usize| exists|i: int| 0 <= i < self.entries@.len() && #[trigger] self.entries@[i].start == k,
            |k: usize|
                {
                    let i = choose|i: int| 0 <= i < self.entries@.len() && #[trigger] self.entries@[i].start == k;
                    (self.entries@[i].end, self.entries@[i].text@)
                },
        )
    }

    proof fn lemma_entry(&self, i: int)
        requires
            self.ascending(),
            0 <= i < self.entries@.len(),
        ensures
            self@.contains_key(self.entries@[i].start),
            self@[self.entries@[i].start] == (self.entries@[i].end, self.entries@[i].text@),
    {
        let k = self.entries@[i].start;
        assert(self@.contains_key(k));
        let j = choose|j: int| 0 <= j < self.entries@.len() && #[trigger] self.entries@[j].start == k;
        if j < i {
            assert(self.entries@[j].start < self.entries@[i].start);
        } else if i < j {
            assert(self.entries@[i].start < self.entries@[j].start);
        }
    }

    /// No replacements.
    pub fn new() -> (r: Self)
        ensures
            r@ == Map::<usize, (usize, Seq<u8>)>::empty(),
    {
        let r = Replacements { entries: Vec::new() };
        proof {
            assert(r@ =~= Map::<usize, (usize, Seq<u8>)>::empty());
        }
        r
    }

    /// The position of the first entry starting at or after `start`.
    fn lower_bound(&self, start: usize) -> (i: usize)
        ensures
            i <= self.entries@.len(),
            forall|j: int| 0 <= j < i ==> #[trigger] self.entries@[j].start < start,
            forall|j: int| i <= j < self.entries@.len() ==> start <= #[trigger] self.entries@[j].start,
    {
        proof {
            use_type_invariant(self);
        }
        let mut lo: usize = 0;
        let mut hi: usize = self.entries.len();
        while lo < hi
            invariant
                self.ascending(),
                lo <= hi <= self.entries@.len(),
                forall|j: int| 0 <= j < lo ==> #[trigger] self.entries@[j].start < start,
                forall|j: int| hi <= j < self.entries@.len() ==> start <= #[trigger] self.entries@[j].start,
            decreases hi - lo,
        {
            let mid = lo + (hi - lo) / 2;
            if self.entries[mid].start < start {
                lo = mid + 1;
            } else {
                hi = mid;
            }
        }
        lo
    }

    /// Writes `text` instead of the token at `span`, which must be exactly
    /// one token's span, as from `Literal::span`. `text` is written as
    /// given, so a string must include its quotes. A later replacement of
    /// the same token wins.
    pub fn replace(&mut self, span: Span, text: Vec<u8>)
        ensures
            final(self)@ == old(self)@.insert(span.start, (span.end, text@)),
    {
        proof {
            use_type_invariant(&*self);
        }
        let i = self.lower_bound(span.start);
        let ghost before = self.entries@;
        let ghost text_view = text@;
        let entry = Replacement { start: span.start, end: span.end, text };
        let mut entries: Vec<Replacement> = Vec::new();
        std::mem::swap(&mut entries, &mut self.entries);
        if i < entries.len() && entries[i].start == span.start {
            entries.set(i, entry);
            proof {
                assert(entries@ == before.update(i as int, entry));
            }
        } else {
            entries.insert(i, entry);
            proof {
                assert(entries@ == before.insert(i as int, entry));
            }
        }
        proof {
            assert forall|a: int, b: int| 0 <= a < b < entries@.len() implies #[trigger] entries@[a].start
                < #[trigger] entries@[b].start by {
                if entries@.len() == before.len() {
                    if a != i && b != i {
                        assert(before[a].start < before[b].start);
                    } else if a == i {
                        assert(before[a].start < before[b].start);
                    } else {
                        assert(before[a].start < before[b].start);
                    }
                } else {
                    if b < i {
                        assert(before[a].start < before[b].start);
                    } else if a > i {
                        assert(before[a - 1].start < before[b - 1].start);
                    } else if a == i {
                        assert(span.start <= before[b - 1].start);
                        assert(b - 1 >= i);
                        assert(!(b - 1 == i && before[b - 1].start == span.start));
                    } else if b == i {
                        assert(before[a].start < span.start);
                    } else {
                        assert(before[a].start < span.start);
                        assert(span.start <= before[b - 1].start);
                    }
                }
            }
        }
        self.entries = entries;
        proof {
            use_type_invariant(&*self);
            let old_map = old(self)@;
            let expected = old_map.insert(span.start, (span.end, text_view));
            assert forall|k: usize| #[trigger] self@.contains_key(k) <==> expected.contains_key(k) by {
                if self@.contains_key(k) {
                    let j = choose|j: int| 0 <= j < self.entries@.len() && #[trigger] self.entries@[j].start == k;
                    if k != span.start {
                        let j0 = if self.entries@.len() == before.len() || j < i {
                            j
                        } else {
                            j - 1
                        };
                        assert(before[j0].start == k);
                        assert(old_map.contains_key(k));
                    }
                }
                if old_map.contains_key(k) && k != span.start {
                    let j = choose|j: int| 0 <= j < before.len() && #[trigger] before[j].start == k;
                    if self.entries@.len() == before.len() || j < i {
                        assert(self.entries@[j].start == k);
                    } else {
                        assert(self.entries@[j + 1].start == k);
                    }
                }
                if k == span.start {
                    assert(self.entries@[i as int].start == k);
                }
            }
            assert forall|k: usize| #[trigger] self@.contains_key(k) implies self@[k] == expected[k] by {
                let j = choose|j: int| 0 <= j < self.entries@.len() && #[trigger] self.entries@[j].start == k;
                self.lemma_entry(j);
                if k != span.start {
                    let j0 = if self.entries@.len() == before.len() || j < i {
                        j
                    } else {
                        j - 1
                    };
                    assert(before[j0] == self.entries@[j]);
                    old(self).lemma_entry(j0);
                } else {
                    assert(j == i);
                }
            }
            assert(self@ =~= expected);
        }
    }

    /// The number of tokens replaced.
    pub fn len(&self) -> (n: usize)
        ensures
            self@.dom().finite(),
            n == self@.dom().len(),
    {
        proof {
            use_type_invariant(self);
            let keys = self.entries@.map_values(|e: Replacement| e.start);
            assert(keys.no_duplicates()) by {
                assert forall|a: int, b: int| 0 <= a < keys.len() && 0 <= b < keys.len() && a != b implies keys[a]
                    != keys[b] by {
                    if a < b {
                        assert(self.entries@[a].start < self.entries@[b].start);
                    } else {
                        assert(self.entries@[b].start < self.entries@[a].start);
                    }
                }
            }
            assert(self@.dom() =~= keys.to_set()) by {
                assert forall|k: usize| #[trigger] self@.dom().contains(k) <==> keys.to_set().contains(k) by {
                    if self@.dom().contains(k) {
                        let j = choose|j: int| 0 <= j < self.entries@.len() && #[trigger] self.entries@[j].start == k;
                        assert(keys[j] == k);
                    }
                    if keys.to_set().contains(k) {
                        assert(keys.contains(k));
                        let j = choose|j: int| 0 <= j < keys.len() && keys[j] == k;
                        assert(self.entries@[j].start == k);
                    }
                }
            }
            keys.unique_seq_to_set();
        }
        self.entries.len()
    }

    /// True if nothing is replaced.
    pub fn is_empty(&self) -> (b: bool)
        ensures
            b == (self@.dom().len() == 0),
            self@.dom().finite(),
    {
        self.len() == 0
    }

    /// The text to write instead of the token at `span`.
    fn get(&self, span: Span) -> (r: Option<&[u8]>)
        ensures
            match replacement_for(self@, span) {
                Some(t) => r matches Some(x) && x@ == t,
                None => r is None,
            },
    {
        proof {
            use_type_invariant(self);
        }
        let i = self.lower_bound(span.start);
        if i < self.entries.len() && self.entries[i].start == span.start {
            proof {
                self.lemma_entry(i as int);
            }
            if self.entries[i].end == span.end {
                return Some(self.entries[i].text.as_slice());
            }
            return None;
        }
        proof {
            if self@.contains_key(span.start) {
                let j = choose|j: int| 0 <= j < self.entries@.len() && #[trigger] self.entries@[j].start
                    == span.start;
                assert(j >= i);
                if j > i {
                    assert(self.entries@[i as int].start < self.entries@[j].start);
                }
            }
        }
        None
    }

    /// True if a replaced token starts within `span`.
    fn any_within(&self, span: Span) -> (b: bool)
        ensures
            b == replaced_within(self@, span),
    {
        proof {
            use_type_invariant(self);
        }
        let i = self.lower_bound(span.start);
        let b = i < self.entries.len() && self.entries[i].start < span.end;
        proof {
            if b {
                let k = self.entries@[i as int].start;
                assert(self@.contains_key(k));
            }
            if replaced_within(self@, span) {
                let k = choose|k: usize| #[trigger] self@.contains_key(k) && span.start <= k < span.end;
                let j = choose|j: int| 0 <= j < self.entries@.len() && #[trigger] self.entries@[j].start == k;
                assert(j >= i);
                if j > i {
                    assert(self.entries@[i as int].start < self.entries@[j].start);
                }
            }
        }
        b
    }
}

impl Default for Replacements {
    fn default() -> (r: Self)
        ensures
            r@ == Map::<usize, (usize, Seq<u8>)>::empty(),
    {
        Replacements::new()
    }
}

/// A later replacement of the same token wins: replacing a token twice
/// leaves only the second text.
pub proof fn lemma_later_replacement_wins(
    m: Map<usize, (usize, Seq<u8>)>,
    span: Span,
    first: Seq<u8>,
    second: Seq<u8>,
)
    ensures
        m.insert(span.start, (span.end, first)).insert(span.start, (span.end, second)) == m.insert(
            span.start,
            (span.end, second),
        ),
        replacement_for(m.insert(span.start, (span.end, second)), span) == Some(second),
{
    assert(m.insert(span.start, (span.end, first)).insert(span.start, (span.end, second)) =~= m.insert(
        span.start,
        (span.end, second),
    ));
}


/// How instance names are assigned in the output.
#[derive(Debug, Clone, Copy, PartialEq, Eq, Structural)]
pub enum Numbering {
    /// Keep every instance's original `#id`. Each written instance is then
    /// identical to its source text.
    Preserve,
    /// Number the written instances `#1`, `#2`, ... in file order.
    Dense,
}

impl Default for Numbering {
    fn default() -> (n: Self)
        ensures
            n == Numbering::Preserve,
    {
        Numbering::Preserve
    }
}

/// Writes all or part of an [`Exchange`] back out as Part 21.
#[derive(Clone, Copy)]
pub struct Writer<'e, 'a> {
    exchange: &'e Exchange<'a>,
    header: Option<&'e [u8]>,
    numbering: Numbering,
    replacements: Option<&'e Replacements>,
}

// ---------------------------------------------------------------------
// Output names.
// ---------------------------------------------------------------------

/// How many of `s` are true.
pub open spec fn count_true(s: Seq<bool>) -> nat
    decreases s.len(),
{
    if s.len() == 0 {
        0
    } else {
        count_true(s.drop_last()) + if s.last() {
            1nat
        } else {
            0nat
        }
    }
}

proof fn lemma_count_true_bound(s: Seq<bool>)
    ensures
        count_true(s) <= s.len(),
    decreases s.len(),
{
    if s.len() > 0 {
        lemma_count_true_bound(s.drop_last());
    }
}

proof fn lemma_count_true_step(s: Seq<bool>, p: int)
    requires
        0 <= p < s.len(),
    ensures
        count_true(s.take(p + 1)) == count_true(s.take(p)) + if s[p] {
            1nat
        } else {
            0nat
        },
{
    assert(s.take(p + 1).drop_last() =~= s.take(p));
}

/// Which of `n` positions `positions` selects.
pub open spec fn selection(n: int, positions: Seq<usize>) -> Seq<bool> {
    Seq::new(n as nat, |p: int| positions.contains(p as usize))
}

/// The `#id`s instance `p` refers to.
pub open spec fn refs_at(ex: Exchange, p: int) -> Seq<u64> {
    ids_in(ex.instance_tokens_view(ex.instances_view()[p]))
}

/// The output name of every instance by position: `None` if it is not
/// selected, else its `#id`, or its rank among the selected when `dense`.
pub open spec fn data_names(ex: Exchange, sel: Seq<bool>, dense: bool) -> Seq<Option<u64>> {
    Seq::new(
        sel.len(),
        |p: int|
            if sel[p] {
                Some(
                    if dense {
                        (count_true(sel.take(p)) + 1) as u64
                    } else {
                        ex.instances_view()[p].id
                    },
                )
            } else {
                None
            },
    )
}

/// The external instance names (edition 3) that selected instances refer
/// to.
pub open spec fn used_external(ex: Exchange, sel: Seq<bool>) -> Set<u64> {
    Set::new(
        |id: u64|
            external_ids(ex.extra_view(), ex.tokens_view()).contains(id) && exists|p: int|
                0 <= p < sel.len() && sel[p] && #[trigger] refs_at(ex, p).contains(id),
    )
}

/// The instance names of the external references `refs` that are in
/// `used`, in order.
pub open spec fn external_list(refs: Seq<(int, u64, Seq<char>, Seq<char>)>, used: Set<u64>) -> Seq<u64>
    decreases refs.len(),
{
    if refs.len() == 0 {
        Seq::empty()
    } else {
        let rest = external_list(refs.drop_last(), used);
        if refs.last().0 == 0 && used.contains(refs.last().1) {
            rest.push(refs.last().1)
        } else {
            rest
        }
    }
}

/// The output names of the external names `list`, and the last number
/// given: when `dense`, each new name gets the next number after `start`;
/// otherwise each keeps its own.
pub open spec fn external_names(list: Seq<u64>, dense: bool, start: int) -> (Map<u64, u64>, int)
    decreases list.len(),
{
    if list.len() == 0 {
        (Map::empty(), start)
    } else {
        let (m, next) = external_names(list.drop_last(), dense, start);
        let id = list.last();
        if !dense {
            (m.insert(id, id), next)
        } else if m.contains_key(id) {
            (m, next)
        } else {
            (m.insert(id, (next + 1) as u64), next + 1)
        }
    }
}

proof fn lemma_external_names_bound(list: Seq<u64>, dense: bool, start: int)
    ensures
        start <= external_names(list, dense, start).1 <= start + list.len(),
    decreases list.len(),
{
    if list.len() > 0 {
        lemma_external_names_bound(list.drop_last(), dense, start);
    }
}

proof fn lemma_external_list_len(refs: Seq<(int, u64, Seq<char>, Seq<char>)>, used: Set<u64>)
    ensures
        external_list(refs, used).len() <= refs.len(),
    decreases refs.len(),
{
    if refs.len() > 0 {
        lemma_external_list_len(refs.drop_last(), used);
    }
}

/// The external names' output names for a selection.
pub open spec fn external_map(ex: Exchange, sel: Seq<bool>, dense: bool) -> Map<u64, u64> {
    external_names(
        external_list(
            references_in(ex.src_view(), ex.tokens_view(), ex.extra_view()),
            used_external(ex, sel),
        ),
        dense,
        count_true(sel) as int,
    ).0
}

/// Dense numbering counts the instances and the external names they use:
/// the count must fit an instance name.
pub open spec fn names_fit(ex: Exchange) -> bool {
    ex.instances_view().len() + references_in(ex.src_view(), ex.tokens_view(), ex.extra_view()).len()
        <= u64::MAX
}

/// The output name of `#id`: its instance's, or its external name's.
pub open spec fn name_of(ex: Exchange, data: Seq<Option<u64>>, ext: Map<u64, u64>, id: u64) -> Option<u64> {
    if ex.index_view().contains_key(id) {
        data[ex.index_view()[id] as int]
    } else if ext.contains_key(id) {
        Some(ext[id])
    } else {
        None
    }
}

/// Output names: of every instance by position (`None` if not written),
/// and of the external instance names that are written.
struct Names {
    data: Vec<Option<u64>>,
    external: HashMapWithView<u64, u64>,
}

impl Names {
    /// The output name of `#id`, if it is written.
    fn of(&self, exchange: &Exchange, id: u64) -> (r: Option<u64>)
        requires
            exchange.wf(),
            self.data@.len() == exchange.instances_view().len(),
        ensures
            r == name_of(*exchange, self.data@, self.external@, id),
    {
        match exchange.position(id) {
            Some(position) => self.data[position],
            None => match self.external.get(&id) {
                Some(name) => Some(*name),
                None => None,
            },
        }
    }
}

/// The output name of the instance `from` refers to as `#id`.
fn target_name(exchange: &Exchange, names: &Names, from: &Instance, id: u64) -> (r: Result<u64>)
    requires
        exchange.wf(),
        names.data@.len() == exchange.instances_view().len(),
    ensures
        match name_of(*exchange, names.data@, names.external@, id) {
            Some(n) => r == Ok::<u64, Error>(n),
            None => r == Err::<u64, Error>(Error::UnresolvedReference { from: from.id, to: id }),
        },
{
    match names.of(exchange, id) {
        Some(n) => Ok(n),
        None => Err(Error::UnresolvedReference { from: from.id, to: id }),
    }
}

impl<'e, 'a> Writer<'e, 'a> {
    /// The exchange written.
    pub closed spec fn exchange_view(&self) -> Exchange<'a> {
        *self.exchange
    }

    /// The header entities to write, if not the source's.
    pub closed spec fn header_view(&self) -> Option<Seq<u8>> {
        match self.header {
            Some(h) => Some(h@),
            None => None,
        }
    }

    /// How instance names are assigned.
    pub closed spec fn numbering_view(&self) -> Numbering {
        self.numbering
    }

    /// The token replacements, if any.
    pub closed spec fn replacements_view(&self) -> Option<Map<usize, (usize, Seq<u8>)>> {
        match self.replacements {
            Some(r) => Some(r@),
            None => None,
        }
    }

    /// A writer for `exchange` that copies the source header and keeps
    /// instance names.
    pub fn new(exchange: &'e Exchange<'a>) -> (w: Self)
        ensures
            w.exchange_view() == *exchange,
            w.header_view() is None,
            w.numbering_view() == Numbering::Preserve,
            w.replacements_view() is None,
    {
        Writer { exchange, header: None, numbering: Numbering::Preserve, replacements: None }
    }

    /// Writes replacement text for individual tokens of the source header
    /// and of instances. Instances with no replaced token are still copied
    /// byte for byte; a header given with [`header`](Self::header) is
    /// written as given.
    pub fn replacements(self, replacements: &'e Replacements) -> (w: Self)
        ensures
            w.exchange_view() == self.exchange_view(),
            w.header_view() == self.header_view(),
            w.numbering_view() == self.numbering_view(),
            w.replacements_view() == Some(replacements@),
    {
        Writer { replacements: Some(replacements), ..self }
    }

    /// Chooses how instance names are assigned.
    pub fn numbering(self, numbering: Numbering) -> (w: Self)
        ensures
            w.exchange_view() == self.exchange_view(),
            w.header_view() == self.header_view(),
            w.numbering_view() == numbering,
            w.replacements_view() == self.replacements_view(),
    {
        Writer { numbering, ..self }
    }

    /// Replaces the header entities.
    ///
    /// `entities` is written between `HEADER;` and `ENDSEC;` exactly as
    /// given, so it must be complete header records, each ending in `;`.
    /// By default the source header is copied verbatim.
    pub fn header(self, entities: &'e [u8]) -> (w: Self)
        ensures
            w.exchange_view() == self.exchange_view(),
            w.header_view() == Some(entities@),
            w.numbering_view() == self.numbering_view(),
            w.replacements_view() == self.replacements_view(),
    {
        Writer { header: Some(entities), ..self }
    }

    /// The output name of every selected instance, and of every external
    /// instance name (edition 3) a selected instance refers to. When
    /// renumbering, external names follow the instances, in the order of
    /// their `REFERENCE` entries.
    fn assign_names(&self, positions: &[usize]) -> (names: Names)
        requires
            self.exchange_view().wf(),
            names_fit(self.exchange_view()),
            forall|j: int| 0 <= j < positions@.len() ==> #[trigger] positions@[j] < self.exchange_view().instances_view().len(),
        ensures
            names.data@ == data_names(
                self.exchange_view(),
                selection(self.exchange_view().instances_view().len() as int, positions@),
                self.numbering_view() == Numbering::Dense,
            ),
            names.external@ == external_map(
                self.exchange_view(),
                selection(self.exchange_view().instances_view().len() as int, positions@),
                self.numbering_view() == Numbering::Dense,
            ),
    {
        broadcast use vstd::std_specs::hash::group_hash_axioms;

        let exchange = self.exchange;
        let ghost ex = *exchange;
        let instances = exchange.instances();
        let n = instances.len();
        let ghost sel = selection(n as int, positions@);
        let mut data: Vec<Option<u64>> = Vec::new();
        while data.len() < n
            invariant
                data@.len() <= n,
                forall|p: int| 0 <= p < data@.len() ==> data@[p] is None,
            decreases n - data@.len(),
        {
            data.push(None);
        }
        let mut j: usize = 0;
        while j < positions.len()
            invariant
                n == instances@.len(),
                instances@ == ex.instances_view(),
                data@.len() == n,
                j <= positions@.len(),
                forall|k: int| 0 <= k < positions@.len() ==> #[trigger] positions@[k] < n,
                forall|p: int|
                    0 <= p < n ==> #[trigger] data@[p] == if positions@.take(j as int).contains(p as usize) {
                        Some(instances@[p].id)
                    } else {
                        None
                    },
            decreases positions@.len() - j,
        {
            let position = positions[j];
            data.set(position, Some(instances[position].id));
            proof {
                assert forall|p: int| 0 <= p < n implies #[trigger] positions@.take(j + 1).contains(p as usize)
                    == (positions@.take(j as int).contains(p as usize) || p == position) by {
                    let t0 = positions@.take(j as int);
                    let t1 = positions@.take(j + 1);
                    if t1.contains(p as usize) {
                        let k = choose|k: int| 0 <= k < t1.len() && t1[k] == p as usize;
                        if k < j {
                            assert(t0[k] == t1[k]);
                        }
                    }
                    if t0.contains(p as usize) {
                        let k = choose|k: int| 0 <= k < t0.len() && t0[k] == p as usize;
                        assert(t1[k] == t0[k]);
                    }
                    if p == position {
                        assert(t1[j as int] == position);
                    }
                }
            }
            j = j + 1;
        }
        proof {
            assert(positions@.take(j as int) =~= positions@);
        }
        // The external names that selected instances use.
        let mut used: HashSetWithView<u64> = HashSetWithView::new();
        let mut p: usize = 0;
        while p < n
            invariant
                ex == *exchange,
                ex.wf(),
                n == instances@.len(),
                instances@ == ex.instances_view(),
                sel == selection(n as int, positions@),
                data@.len() == n,
                forall|q: int| 0 <= q < n ==> (#[trigger] data@[q] is Some) == sel[q],
                p <= n,
                used@ == Set::new(
                    |id: u64|
                        external_ids(ex.extra_view(), ex.tokens_view()).contains(id) && exists|q: int|
                            0 <= q < p && sel[q] && #[trigger] refs_at(ex, q).contains(id),
                ),
            decreases n - p,
        {
            let ghost before = used@;
            if data[p].is_some() {
                let mut refs = exchange.references(&instances[p]);
                let ghost all = refs.remaining();
                let ghost mut seen: int = 0;
                loop
                    invariant
                        ex == *exchange,
                        ex.wf(),
                        p < n,
                        sel[p as int],
                        all == refs_at(ex, p as int),
                        0 <= seen <= all.len(),
                        refs.remaining() == all.skip(seen),
                        used@ == before.union(
                            Set::new(
                                |id: u64|
                                    external_ids(ex.extra_view(), ex.tokens_view()).contains(id)
                                        && all.take(seen).contains(id),
                            ),
                        ),
                    ensures
                        seen == all.len(),
                    decreases all.len() - seen,
                {
                    match refs.next() {
                        None => {
                            proof {
                                assert(all.skip(seen).len() == 0);
                            }
                            break ;
                        },
                        Some(id) => {
                            proof {
                                assert(all.skip(seen)[0] == all[seen]);
                                assert(all.skip(seen).drop_first() =~= all.skip(seen + 1));
                            }
                            if exchange.is_external(id) {
                                used.insert(id);
                            }
                            proof {
                                let t0 = all.take(seen);
                                let t1 = all.take(seen + 1);
                                assert forall|x: u64| #[trigger] t1.contains(x) == (t0.contains(x) || x == id) by {
                                    if t1.contains(x) {
                                        let k = choose|k: int| 0 <= k < t1.len() && t1[k] == x;
                                        if k < seen {
                                            assert(t0[k] == t1[k]);
                                        }
                                    }
                                    if t0.contains(x) {
                                        let k = choose|k: int| 0 <= k < t0.len() && t0[k] == x;
                                        assert(t1[k] == t0[k]);
                                    }
                                    if x == id {
                                        assert(t1[seen] == id);
                                    }
                                }
                                seen = seen + 1;
                                assert(used@ =~= before.union(
                                    Set::new(
                                        |x: u64|
                                            external_ids(ex.extra_view(), ex.tokens_view()).contains(x)
                                                && all.take(seen).contains(x),
                                    ),
                                ));
                            }
                        },
                    }
                }
                proof {
                    assert(all.take(seen) =~= all);
                }
            }
            proof {
                let next = Set::new(
                    |id: u64|
                        external_ids(ex.extra_view(), ex.tokens_view()).contains(id) && exists|q: int|
                            0 <= q < p + 1 && sel[q] && #[trigger] refs_at(ex, q).contains(id),
                );
                assert forall|id: u64| #[trigger] used@.contains(id) <==> next.contains(id) by {
                    if next.contains(id) && !before.contains(id) {
                        let q = choose|q: int| 0 <= q < p + 1 && sel[q] && #[trigger] refs_at(ex, q).contains(id);
                        assert(q == p);
                    }
                    if used@.contains(id) && !before.contains(id) {
                        assert(sel[p as int]);
                        assert(refs_at(ex, p as int).contains(id));
                    }
                }
                assert(used@ =~= next);
            }
            p = p + 1;
        }
        proof {
            assert(used@ =~= used_external(ex, sel));
        }
        let refs = exchange.external_references();
        let ghost all_refs = references_in(ex.src_view(), ex.tokens_view(), ex.extra_view());
        let ghost used_set = used@;
        let dense = self.numbering == Numbering::Dense;
        let mut next: u64 = 0;
        if dense {
            let mut q: usize = 0;
            while q < n
                invariant
                    n == instances@.len(),
                    instances@ == ex.instances_view(),
                    sel.len() == n,
                    q <= n,
                    data@.len() == n,
                    next == count_true(sel.take(q as int)),
                    forall|r: int|
                        0 <= r < q ==> #[trigger] data@[r] == data_names(ex, sel, true)[r],
                    forall|r: int|
                        q <= r < n ==> #[trigger] data@[r] == if sel[r] {
                            Some(instances@[r].id)
                        } else {
                            None
                        },
                decreases n - q,
            {
                proof {
                    lemma_count_true_step(sel, q as int);
                    lemma_count_true_bound(sel.take(q as int));
                }
                if data[q].is_some() {
                    next = next + 1;
                    data.set(q, Some(next));
                }
                q = q + 1;
            }
            proof {
                assert(sel.take(n as int) =~= sel);
            }
        }
        proof {
            assert(data@ =~= data_names(ex, sel, dense));
            lemma_count_true_bound(sel);
            lemma_external_list_len(all_refs, used_set);
        }
        let mut external: HashMapWithView<u64, u64> = HashMapWithView::new();
        let mut k: usize = 0;
        let ghost start: int = count_true(sel) as int;
        proof {
            assert(external@ =~= Map::<u64, u64>::empty());
            assert(all_refs.take(0) =~= Seq::empty());
        }
        while k < refs.len()
            invariant
                refs@.len() == all_refs.len(),
                forall|i: int| 0 <= i < refs@.len() ==> {
                    let a = all_refs[i];
                    &&& (#[trigger] refs@[i]).name.view_parts() == (a.0, a.1, a.2)
                },
                used@ == used_set,
                k <= refs@.len(),
                start + all_refs.len() <= u64::MAX,
                dense ==> next == external_names(external_list(all_refs.take(k as int), used_set), dense, start).1,
                external@ == external_names(external_list(all_refs.take(k as int), used_set), dense, start).0,
            decreases refs@.len() - k,
        {
            let ghost prev = all_refs.take(k as int);
            proof {
                assert(all_refs.take(k + 1).drop_last() =~= prev);
                lemma_external_list_len(prev, used_set);
                lemma_external_names_bound(external_list(prev, used_set), dense, start);
            }
            let ghost l0 = external_list(prev, used_set);
            let ghost l1 = external_list(all_refs.take(k + 1), used_set);
            proof {
                assert(all_refs.take(k + 1).last() == all_refs[k as int]);
                assert(refs@[k as int].name.view_parts().0 == all_refs[k as int].0);
                if all_refs[k as int].0 == 0 && used_set.contains(all_refs[k as int].1) {
                    assert(l1 == l0.push(all_refs[k as int].1));
                    assert(l1.drop_last() =~= l0);
                } else {
                    assert(l1 == l0);
                }
            }
            if let ReferenceName::Instance(id) = refs[k].name {
                proof {
                    assert(all_refs[k as int].1 == id);
                }
                if used.contains(&id) {
                    if dense {
                        if !external.contains_key(&id) {
                            next = next + 1;
                            external.insert(id, next);
                        }
                    } else {
                        external.insert(id, id);
                    }
                }
            }
            k = k + 1;
        }
        proof {
            assert(all_refs.take(k as int) =~= all_refs);
        }
        Names { data, external }
    }
}

// ---------------------------------------------------------------------
// Pruning: which list items of an instance to drop.
// ---------------------------------------------------------------------

/// The positions of the `(` still open after reading `ts[0..i]`, innermost
/// last.
pub open spec fn open_parens(ts: Seq<Token>, i: int) -> Seq<usize>
    decreases i,
{
    if i <= 0 {
        Seq::empty()
    } else {
        let st = open_parens(ts, i - 1);
        if ts[i - 1].kind == TokenKind::LeftParen {
            st.push((i - 1) as usize)
        } else if ts[i - 1].kind == TokenKind::RightParen && st.len() > 0 {
            st.drop_last()
        } else {
            st
        }
    }
}

/// True if `ts[i]` is directly inside a list: the `(` enclosing it does
/// not follow a name, which would make it a record or a typed value.
pub open spec fn in_list(ts: Seq<Token>, i: int) -> bool {
    let st = open_parens(ts, i);
    &&& st.len() > 0
    &&& st.last() > 0
    &&& ts[st.last() - 1].kind != TokenKind::Keyword
    &&& ts[st.last() - 1].kind != TokenKind::UserKeyword
}

/// True if `ts[i]` is a whole item of a list: between `(` or `,` and `,`
/// or `)`.
pub open spec fn is_item(ts: Seq<Token>, i: int) -> bool {
    &&& in_list(ts, i)
    &&& 0 < i
    &&& (ts[i - 1].kind == TokenKind::LeftParen || ts[i - 1].kind == TokenKind::Comma)
    &&& i + 1 < ts.len()
    &&& (ts[i + 1].kind == TokenKind::Comma || ts[i + 1].kind == TokenKind::RightParen)
}

/// The last position before `j` that `removed` keeps, or -1.
pub open spec fn nearest_kept(removed: Seq<bool>, j: int) -> int
    decreases j,
{
    if j <= 0 {
        -1
    } else if !removed[j - 1] {
        j - 1
    } else {
        nearest_kept(removed, j - 1)
    }
}

/// True if `#id` has an output name.
pub open spec fn named(ex: Exchange, data: Seq<Option<u64>>, ext: Map<u64, u64>, id: u64) -> bool {
    name_of(ex, data, ext, id) is Some
}

/// The removal plan after token `i` is considered: an unnamed instance
/// name that is a list item is dropped with one neighbouring comma; one
/// that is not is the error.
pub open spec fn plan_step(
    ex: Exchange,
    data: Seq<Option<u64>>,
    ext: Map<u64, u64>,
    ts: Seq<Token>,
    r: Seq<bool>,
    i: int,
) -> core::result::Result<Seq<bool>, u64> {
    match ts[i].kind {
        TokenKind::InstanceName(id) => if named(ex, data, ext, id) {
            Ok(r)
        } else if !is_item(ts, i) {
            Err(id)
        } else {
            let r1 = r.update(i, true);
            if ts[i + 1].kind == TokenKind::Comma {
                Ok(r1.update(i + 1, true))
            } else {
                let j = nearest_kept(r1, i);
                if j >= 0 && ts[j].kind == TokenKind::Comma {
                    Ok(r1.update(j, true))
                } else {
                    Ok(r1)
                }
            }
        },
        _ => Ok(r),
    }
}

/// The removal plan for the first `k` tokens of `ts`, or the first unnamed
/// instance name that is not a list item.
pub open spec fn plan_upto(
    ex: Exchange,
    data: Seq<Option<u64>>,
    ext: Map<u64, u64>,
    ts: Seq<Token>,
    k: int,
) -> core::result::Result<Seq<bool>, u64>
    decreases k,
{
    if k <= 0 {
        Ok(Seq::new(ts.len(), |i: int| false))
    } else {
        match plan_upto(ex, data, ext, ts, k - 1) {
            Err(id) => Err(id),
            Ok(r) => plan_step(ex, data, ext, ts, r, k - 1),
        }
    }
}

/// The removal plan for instance `p`.
pub open spec fn plan_for(ex: Exchange, data: Seq<Option<u64>>, ext: Map<u64, u64>, p: int) -> core::result::Result<
    Seq<bool>,
    u64,
> {
    let ts = ex.instance_tokens_view(ex.instances_view()[p]);
    plan_upto(ex, data, ext, ts, ts.len() as int)
}

proof fn lemma_plan_len(ex: Exchange, data: Seq<Option<u64>>, ext: Map<u64, u64>, ts: Seq<Token>, k: int)
    requires
        k <= ts.len(),
    ensures
        plan_upto(ex, data, ext, ts, k) matches Ok(r) ==> r.len() == ts.len(),
        plan_upto(ex, data, ext, ts, k) matches Err(id) ==> ids_in(ts).contains(id) && !named(
            ex,
            data,
            ext,
            id,
        ),
    decreases k,
{
    if k > 0 {
        lemma_plan_len(ex, data, ext, ts, k - 1);
        if let TokenKind::InstanceName(id) = ts[k - 1].kind {
            lemma_ids_in_contains(ts, k - 1);
            if let Ok(r) = plan_upto(ex, data, ext, ts, k - 1) {
                lemma_nearest_kept_range(r.update(k - 1, true), k - 1);
            }
        }
    }
}

proof fn lemma_nearest_kept_range(r: Seq<bool>, j: int)
    ensures
        -1 <= nearest_kept(r, j) < j || (j <= 0 && nearest_kept(r, j) == -1),
    decreases j,
{
    if j > 0 {
        lemma_nearest_kept_range(r, j - 1);
    }
}

/// Once the plan fails, it fails with the same `#id` however many more
/// tokens are considered.
proof fn lemma_plan_err_stays(
    ex: Exchange,
    data: Seq<Option<u64>>,
    ext: Map<u64, u64>,
    ts: Seq<Token>,
    k1: int,
    k2: int,
)
    requires
        0 <= k1 <= k2,
        plan_upto(ex, data, ext, ts, k1) is Err,
    ensures
        plan_upto(ex, data, ext, ts, k2) == plan_upto(ex, data, ext, ts, k1),
    decreases k2 - k1,
{
    if k2 > k1 {
        lemma_plan_err_stays(ex, data, ext, ts, k1, k2 - 1);
    }
}

/// An instance name among the tokens is among their `#id`s.
proof fn lemma_ids_in_contains(ts: Seq<Token>, i: int)
    requires
        0 <= i < ts.len(),
        ts[i].kind is InstanceName,
    ensures
        ids_in(ts).contains(ts[i].kind->InstanceName_0),
    decreases i,
{
    let rest = ts.drop_first();
    if i == 0 {
        assert(ids_in(ts)[0] == ts[0].kind->InstanceName_0);
    } else {
        assert(rest[i - 1] == ts[i]);
        lemma_ids_in_contains(rest, i - 1);
        let id = ts[i].kind->InstanceName_0;
        let k = choose|k: int| 0 <= k < ids_in(rest).len() && ids_in(rest)[k] == id;
        match ts[0].kind {
            TokenKind::InstanceName(first) => {
                assert(ids_in(ts) == seq![first] + ids_in(rest));
                assert(ids_in(ts)[k + 1] == id);
            },
            _ => {
                assert(ids_in(ts)[k] == id);
            },
        }
    }
}

/// True if selected instance `p` can be written: a pruned one's plan
/// succeeds, and every `#id` any other refers to has an output name.
pub open spec fn passes(
    ex: Exchange,
    data: Seq<Option<u64>>,
    ext: Map<u64, u64>,
    pruned: Seq<bool>,
    p: int,
) -> bool {
    if pruned[p] {
        plan_for(ex, data, ext, p) is Ok
    } else {
        forall|k: int| 0 <= k < refs_at(ex, p).len() ==> named(ex, data, ext, #[trigger] refs_at(ex, p)[k])
    }
}

/// The plan of a written, pruned instance; `None` otherwise.
pub open spec fn plan_view(o: Option<Vec<bool>>) -> Option<Seq<bool>> {
    match o {
        Some(v) => Some(v@),
        None => None,
    }
}

impl<'e, 'a> Writer<'e, 'a> {
    /// Which tokens of `instance` to drop so that no list item refers to an
    /// unselected instance, keeping exactly one comma between the items left.
    fn removal_plan(&self, instance: &Instance, names: &Names, Ghost(p): Ghost<int>) -> (r: Result<Vec<bool>>)
        requires
            self.exchange_view().wf(),
            0 <= p < self.exchange_view().instances_view().len(),
            *instance == self.exchange_view().instances_view()[p],
            names.data@.len() == self.exchange_view().instances_view().len(),
        ensures
            match plan_for(self.exchange_view(), names.data@, names.external@, p) {
                Ok(plan) => r matches Ok(v) && v@ == plan,
                Err(id) => r == Err::<Vec<bool>, Error>(Error::UnresolvedReference { from: instance.id, to: id }),
            },
    {
        let exchange = self.exchange;
        let ghost ex = *exchange;
        let ghost data = names.data@;
        let ghost ext = names.external@;
        let tokens = exchange.instance_tokens(instance);
        let ghost ts = tokens@;
        let len = tokens.len();
        // The `(` enclosing each token; a `(` right after a name opens a
        // record or typed value, not a list.
        let mut enclosing: Vec<Option<usize>> = Vec::new();
        let mut open: Vec<usize> = Vec::new();
        let mut i: usize = 0;
        while i < len
            invariant
                len == ts.len(),
                tokens@ == ts,
                i <= len,
                open@ == open_parens(ts, i as int),
                forall|q: int| 0 <= q < open@.len() ==> #[trigger] open@[q] < i,
                enclosing@.len() == i,
                forall|j: int|
                    0 <= j < i ==> #[trigger] enclosing@[j] == if open_parens(ts, j).len() > 0 {
                        Some(open_parens(ts, j).last())
                    } else {
                        None
                    },
            decreases len - i,
        {
            let last = if open.len() > 0 {
                Some(open[open.len() - 1])
            } else {
                None
            };
            enclosing.push(last);
            if tokens[i].kind == TokenKind::LeftParen {
                open.push(i);
            } else if tokens[i].kind == TokenKind::RightParen && open.len() > 0 {
                open.pop();
            }
            i = i + 1;
        }
        let mut removed: Vec<bool> = Vec::new();
        while removed.len() < len
            invariant
                removed@.len() <= len,
                forall|j: int| 0 <= j < removed@.len() ==> !removed@[j],
            decreases len - removed@.len(),
        {
            removed.push(false);
        }
        proof {
            assert(removed@ =~= Seq::new(ts.len(), |j: int| false));
        }
        let mut i: usize = 0;
        while i < len
            invariant
                ex == *exchange,
                ex == self.exchange_view(),
                ex.wf(),
                data == names.data@,
                ext == names.external@,
                data.len() == ex.instances_view().len(),
                len == ts.len(),
                tokens@ == ts,
                ts == ex.instance_tokens_view(ex.instances_view()[p]),
                *instance == ex.instances_view()[p],
                i <= len,
                enclosing@.len() == len,
                forall|j: int|
                    0 <= j < len ==> #[trigger] enclosing@[j] == if open_parens(ts, j).len() > 0 {
                        Some(open_parens(ts, j).last())
                    } else {
                        None
                    },
                plan_upto(ex, data, ext, ts, i as int) == Ok::<Seq<bool>, u64>(removed@),
            decreases len - i,
        {
            let ghost r0 = removed@;
            proof {
                lemma_plan_len(ex, data, ext, ts, i as int);
            }
            if let TokenKind::InstanceName(id) = tokens[i].kind {
                if names.of(exchange, id).is_none() {
                    proof {
                        lemma_open_parens_below(ts, i as int);
                    }
                    let listed = match enclosing[i] {
                        Some(paren) => paren > 0 && tokens[paren - 1].kind != TokenKind::Keyword
                            && tokens[paren - 1].kind != TokenKind::UserKeyword,
                        None => false,
                    };
                    let before_ok = i > 0 && (tokens[i - 1].kind == TokenKind::LeftParen
                        || tokens[i - 1].kind == TokenKind::Comma);
                    let after_comma = i + 1 < len && tokens[i + 1].kind == TokenKind::Comma;
                    let after_ok = i + 1 < len && (tokens[i + 1].kind == TokenKind::Comma
                        || tokens[i + 1].kind == TokenKind::RightParen);
                    if !(listed && before_ok && after_ok) {
                        proof {
                            assert(!is_item(ts, i as int));
                            assert(!named(ex, data, ext, id));
                            assert(ts[i as int].kind == TokenKind::InstanceName(id));
                            assert(plan_step(ex, data, ext, ts, r0, i as int) == Err::<Seq<bool>, u64>(id));
                            assert(plan_upto(ex, data, ext, ts, i + 1) == Err::<Seq<bool>, u64>(id));
                            lemma_plan_err_stays(ex, data, ext, ts, i + 1, len as int);
                        }
                        return Err(Error::UnresolvedReference { from: instance.id, to: id });
                    }
                    removed.set(i, true);
                    if after_comma {
                        removed.set(i + 1, true);
                    } else {
                        let ghost r1 = removed@;
                        proof {
                            lemma_nearest_kept_range(r1, i as int);
                        }
                        let mut j: usize = i;
                        loop
                            invariant_except_break
                                removed@ == r1,
                                nearest_kept(r1, i as int) == nearest_kept(r1, j as int),
                            invariant
                                j <= i < len,
                                len == ts.len(),
                                r1.len() == len,
                                tokens@ == ts,
                            ensures
                                removed@ == (if nearest_kept(r1, i as int) >= 0 && ts[nearest_kept(
                                    r1,
                                    i as int,
                                )].kind == TokenKind::Comma {
                                    r1.update(nearest_kept(r1, i as int), true)
                                } else {
                                    r1
                                }),
                            decreases j,
                        {
                            if j == 0 {
                                break ;
                            }
                            j = j - 1;
                            if removed[j] {
                                continue ;
                            }
                            if tokens[j].kind == TokenKind::Comma {
                                removed.set(j, true);
                            }
                            break ;
                        }
                    }
                }
            }
            i = i + 1;
        }
        proof {
            lemma_plan_len(ex, data, ext, ts, len as int);
        }
        Ok(removed)
    }
}

/// Every open `(` recorded before `i` is at a position below `i`.
proof fn lemma_open_parens_below(ts: Seq<Token>, i: int)
    ensures
        forall|q: int| 0 <= q < open_parens(ts, i).len() ==> #[trigger] open_parens(ts, i)[q] < i,
    decreases i,
{
    if i > 0 {
        lemma_open_parens_below(ts, i - 1);
        let st = open_parens(ts, i - 1);
        if ts[i - 1].kind == TokenKind::LeftParen {
            assert forall|q: int| 0 <= q < st.push((i - 1) as usize).len() implies #[trigger] st.push(
                (i - 1) as usize,
            )[q] < i by {
                if q < st.len() {
                    assert(st.push((i - 1) as usize)[q] == st[q]);
                }
            }
        } else if ts[i - 1].kind == TokenKind::RightParen && st.len() > 0 {
            assert forall|q: int| 0 <= q < st.drop_last().len() implies #[trigger] st.drop_last()[q] < i by {
                assert(st.drop_last()[q] == st[q]);
            }
        }
    }
}

impl<'e, 'a> Writer<'e, 'a> {
    /// Checks that every selected instance's references resolve, and plans
    /// the list items to remove from pruned instances. Returns, by position,
    /// which of a pruned instance's tokens to drop.
    fn check_closed(&self, names: &Names, pruned: &[bool]) -> (r: Result<Vec<Option<Vec<bool>>>>)
        requires
            self.exchange_view().wf(),
            names.data@.len() == self.exchange_view().instances_view().len(),
            pruned@.len() == self.exchange_view().instances_view().len(),
        ensures
            r is Ok <==> forall|p: int|
                0 <= p < names.data@.len() && names.data@[p] is Some ==> passes(
                    self.exchange_view(),
                    names.data@,
                    names.external@,
                    pruned@,
                    p,
                ),
            r matches Ok(plans) ==> plans@.len() == names.data@.len() && forall|p: int|
                0 <= p < names.data@.len() ==> #[trigger] plan_view(plans@[p]) == if names.data@[p] is Some
                    && pruned@[p] {
                    Some(plan_for(self.exchange_view(), names.data@, names.external@, p)->Ok_0)
                } else {
                    None
                },
            r matches Err(e) ==> exists|p: int|
                0 <= p < names.data@.len() && names.data@[p] is Some && !passes(
                    self.exchange_view(),
                    names.data@,
                    names.external@,
                    pruned@,
                    p,
                ) && #[trigger] unresolved_from(self.exchange_view(), names.data@, names.external@, p, e)
                    && e == failure_at(self.exchange_view(), names.data@, names.external@, pruned@, p)
                    && forall|q: int|
                    0 <= q < p && names.data@[q] is Some ==> passes(
                        self.exchange_view(),
                        names.data@,
                        names.external@,
                        pruned@,
                        q,
                    ),
    {
        let ghost ex = self.exchange_view();
        let ghost data = names.data@;
        let ghost ext = names.external@;
        let n = self.exchange.instances().len();
        let mut plans: Vec<Option<Vec<bool>>> = Vec::new();
        while plans.len() < n
            invariant
                plans@.len() <= n,
                forall|q: int| 0 <= q < plans@.len() ==> plans@[q] is None,
            decreases n - plans@.len(),
        {
            plans.push(None);
        }
        let mut position: usize = 0;
        while position < n
            invariant
                ex == self.exchange_view(),
                ex.wf(),
                data == names.data@,
                ext == names.external@,
                n == ex.instances_view().len(),
                data.len() == n,
                pruned@.len() == n,
                plans@.len() == n,
                position <= n,
                forall|q: int| 0 <= q < position && data[q] is Some ==> passes(ex, data, ext, pruned@, q),
                forall|q: int|
                    0 <= q < n ==> #[trigger] plan_view(plans@[q]) == if q < position && data[q] is Some
                        && pruned@[q] {
                        Some(plan_for(ex, data, ext, q)->Ok_0)
                    } else {
                        None
                    },
            decreases n - position,
        {
            if names.data[position].is_some() {
                match self.check_instance(names, position, pruned[position]) {
                    Ok(plan) => {
                        plans.set(position, plan);
                    },
                    Err(e) => {
                        return Err(e);
                    },
                }
            }
            position = position + 1;
        }
        Ok(plans)
    }

    /// Checks one selected instance: plans a pruned one's removals, and
    /// checks that every `#id` any other refers to has an output name.
    fn check_instance(&self, names: &Names, position: usize, pruned: bool) -> (r: Result<Option<Vec<bool>>>)
        requires
            self.exchange_view().wf(),
            names.data@.len() == self.exchange_view().instances_view().len(),
            position < names.data@.len(),
        ensures
            forall|pr: Seq<bool>|
                pr.len() == names.data@.len() && pr[position as int] == pruned ==> (r is Ok <==> passes(
                    self.exchange_view(),
                    names.data@,
                    names.external@,
                    pr,
                    position as int,
                )),
            r matches Ok(plan) ==> plan_view(plan) == if pruned {
                Some(plan_for(self.exchange_view(), names.data@, names.external@, position as int)->Ok_0)
            } else {
                None
            },
            r matches Err(e) ==> unresolved_from(
                self.exchange_view(),
                names.data@,
                names.external@,
                position as int,
                e,
            ),
            r matches Err(e) ==> forall|pr: Seq<bool>|
                pr.len() == names.data@.len() && pr[position as int] == pruned ==> e == failure_at(
                    self.exchange_view(),
                    names.data@,
                    names.external@,
                    pr,
                    position as int,
                ),
    {
        let exchange = self.exchange;
        let ghost ex = *exchange;
        let ghost data = names.data@;
        let ghost ext = names.external@;
        let instance = &exchange.instances()[position];
        if pruned {
            proof {
                let ts = ex.instance_tokens_view(ex.instances_view()[position as int]);
                lemma_plan_len(ex, data, ext, ts, ts.len() as int);
            }
            match self.removal_plan(instance, names, Ghost(position as int)) {
                Ok(v) => Ok(Some(v)),
                Err(e) => Err(e),
            }
        } else {
            let mut refs = exchange.references(instance);
            let ghost all = refs.remaining();
            let ghost mut seen: int = 0;
            loop
                invariant
                    ex == *exchange,
                    ex == self.exchange_view(),
                    ex.wf(),
                    !pruned,
                    data == names.data@,
                    ext == names.external@,
                    data.len() == ex.instances_view().len(),
                    position < data.len(),
                    *instance == ex.instances_view()[position as int],
                    all == refs_at(ex, position as int),
                    0 <= seen <= all.len(),
                    refs.remaining() == all.skip(seen),
                    forall|k: int| 0 <= k < seen ==> named(ex, data, ext, #[trigger] all[k]),
                ensures
                    seen == all.len(),
                decreases all.len() - seen,
            {
                match refs.next() {
                    None => {
                        proof {
                            assert(all.skip(seen).len() == 0);
                        }
                        break ;
                    },
                    Some(id) => {
                        proof {
                            assert(all.skip(seen)[0] == all[seen]);
                            assert(all.skip(seen).drop_first() =~= all.skip(seen + 1));
                        }
                        match target_name(exchange, names, instance, id) {
                            Ok(_) => {},
                            Err(e) => {
                                proof {
                                    assert(all[seen] == id);
                                    assert(!named(ex, data, ext, all[seen]));
                                    assert(all.contains(id));
                                    lemma_first_unnamed(ex, data, ext, all, seen);
                                }
                                return Err(e);
                            },
                        }
                        proof {
                            seen = seen + 1;
                        }
                    },
                }
            }
            Ok(None)
        }
    }
}

/// The first of `refs` that has no output name.
pub open spec fn first_unnamed(ex: Exchange, data: Seq<Option<u64>>, ext: Map<u64, u64>, refs: Seq<u64>) -> u64
    decreases refs.len(),
{
    if refs.len() == 0 {
        0
    } else if !named(ex, data, ext, refs[0]) {
        refs[0]
    } else {
        first_unnamed(ex, data, ext, refs.drop_first())
    }
}

/// The error that refuses selected instance `p`: the first reference with
/// no output name, or, for a pruned instance, the one its removal plan
/// stops at.
pub open spec fn failure_at(ex: Exchange, data: Seq<Option<u64>>, ext: Map<u64, u64>, pruned: Seq<bool>, p: int) -> Error {
    Error::UnresolvedReference {
        from: ex.instances_view()[p].id,
        to: if pruned[p] {
            plan_for(ex, data, ext, p)->Err_0
        } else {
            first_unnamed(ex, data, ext, refs_at(ex, p))
        },
    }
}

proof fn lemma_first_unnamed(ex: Exchange, data: Seq<Option<u64>>, ext: Map<u64, u64>, all: Seq<u64>, s: int)
    requires
        0 <= s < all.len(),
        forall|k: int| 0 <= k < s ==> named(ex, data, ext, #[trigger] all[k]),
        !named(ex, data, ext, all[s]),
    ensures
        first_unnamed(ex, data, ext, all) == all[s],
    decreases s,
{
    if s > 0 {
        let rest = all.drop_first();
        assert(named(ex, data, ext, all[0]));
        assert forall|k: int| 0 <= k < s - 1 implies named(ex, data, ext, #[trigger] rest[k]) by {
            assert(rest[k] == all[k + 1]);
        }
        lemma_first_unnamed(ex, data, ext, rest, s - 1);
    }
}

/// `e` reports that selected instance `p` refers to an `#id` that has no
/// output name.
pub open spec fn unresolved_from(ex: Exchange, data: Seq<Option<u64>>, ext: Map<u64, u64>, p: int, e: Error) -> bool {
    match e {
        Error::UnresolvedReference { from, to } => {
            &&& from == ex.instances_view()[p].id
            &&& refs_at(ex, p).contains(to)
            &&& !named(ex, data, ext, to)
        },
        _ => false,
    }
}

// ---------------------------------------------------------------------
// The text written.
// ---------------------------------------------------------------------

/// Writing from `c` up to token `tok`, then `sub` in its place, if there is
/// a substitute and the token lies between `c` and `end`: the bytes
/// written and where copying resumes.
pub open spec fn subst_step(src: Seq<u8>, c: int, tok: Token, end: int, sub: Option<Seq<u8>>) -> (Seq<u8>, int) {
    match sub {
        Some(t) => if c <= tok.span.start <= tok.span.end <= end {
            (src.subrange(c, tok.span.start as int) + t, tok.span.end as int)
        } else {
            (Seq::empty(), c)
        },
        None => (Seq::empty(), c),
    }
}

/// The bytes written for the first `k` tokens of `ts` when copying `src`
/// from `start`, with `f` giving substitutes, and where copying resumes.
pub open spec fn subst_upto(
    src: Seq<u8>,
    ts: Seq<Token>,
    k: int,
    start: int,
    end: int,
    f: spec_fn(int, Token) -> Option<Seq<u8>>,
) -> (Seq<u8>, int)
    decreases k,
{
    if k <= 0 {
        (Seq::empty(), start)
    } else {
        let (o, c) = subst_upto(src, ts, k - 1, start, end, f);
        let (o2, c2) = subst_step(src, c, ts[k - 1], end, f(k - 1, ts[k - 1]));
        (o + o2, c2)
    }
}

/// `src[start..end]` with the tokens `ts` that `f` gives a substitute for
/// written as that substitute.
pub open spec fn subst(
    src: Seq<u8>,
    ts: Seq<Token>,
    start: int,
    end: int,
    f: spec_fn(int, Token) -> Option<Seq<u8>>,
) -> Seq<u8> {
    let (o, c) = subst_upto(src, ts, ts.len() as int, start, end, f);
    o + src.subrange(c, end)
}

proof fn lemma_subst_cursor(
    src: Seq<u8>,
    ts: Seq<Token>,
    k: int,
    start: int,
    end: int,
    f: spec_fn(int, Token) -> Option<Seq<u8>>,
)
    requires
        start <= end,
    ensures
        start <= subst_upto(src, ts, k, start, end, f).1 <= end,
    decreases k,
{
    if k > 0 {
        lemma_subst_cursor(src, ts, k - 1, start, end, f);
    }
}

/// `#n` as bytes.
pub open spec fn name_text(n: u64) -> Seq<u8> {
    seq![35u8] + decimal_bytes(n as nat)
}

/// Substitutes from token replacements alone.
pub open spec fn replacing(m: Map<usize, (usize, Seq<u8>)>) -> spec_fn(int, Token) -> Option<Seq<u8>> {
    |i: int, t: Token| replacement_for(m, t.span)
}

/// Substitutes within an instance: dropped tokens, replaced tokens, and,
/// when renumbering, instance names.
pub open spec fn instance_subst(
    ex: Exchange,
    data: Seq<Option<u64>>,
    ext: Map<u64, u64>,
    dense: bool,
    repl: Option<Map<usize, (usize, Seq<u8>)>>,
    removed: Option<Seq<bool>>,
) -> spec_fn(int, Token) -> Option<Seq<u8>> {
    |i: int, t: Token|
        if removed is Some && removed->Some_0[i] {
            Some(Seq::<u8>::empty())
        } else if repl is Some && replacement_for(repl->Some_0, t.span) is Some {
            replacement_for(repl->Some_0, t.span)
        } else if dense && t.kind is InstanceName {
            Some(name_text(name_of(ex, data, ext, t.kind->InstanceName_0)->Some_0))
        } else {
            None
        }
}

/// The text written for `inst`, named `name`, with `removed` its dropped
/// tokens: its source text, renamed, with replacements and drops applied.
pub open spec fn instance_out(
    ex: Exchange,
    data: Seq<Option<u64>>,
    ext: Map<u64, u64>,
    dense: bool,
    repl: Option<Map<usize, (usize, Seq<u8>)>>,
    inst: Instance,
    name: u64,
    removed: Option<Seq<bool>>,
) -> Seq<u8> {
    let src = ex.src_view();
    let r = match repl {
        Some(m) => if replaced_within(m, inst.span) {
            Some(m)
        } else {
            None
        },
        None => None,
    };
    if !dense && removed is None && r is None {
        inst.span.of(src)
    } else {
        let lead = if dense {
            name_text(name)
        } else {
            Seq::empty()
        };
        let c0 = if dense {
            inst.name_end as int
        } else {
            inst.span.start as int
        };
        lead + subst(
            src,
            ex.instance_tokens_view(inst),
            c0,
            inst.span.end as int,
            instance_subst(ex, data, ext, dense, r, removed),
        )
    }
}

/// True if `#id`s in `inst` that `removed` does not drop have output names
/// wherever renaming needs them.
pub open spec fn writable(
    ex: Exchange,
    data: Seq<Option<u64>>,
    ext: Map<u64, u64>,
    dense: bool,
    inst: Instance,
    removed: Option<Seq<bool>>,
) -> bool {
    let ts = ex.instance_tokens_view(inst);
    &&& removed matches Some(r) ==> r.len() == ts.len()
    &&& dense ==> forall|k: int|
        0 <= k < ts.len() && (#[trigger] ts[k]).kind is InstanceName && !(removed is Some
            && removed->Some_0[k]) ==> named(ex, data, ext, ts[k].kind->InstanceName_0)
}

/// The ASCII bytes of the text `s`.
pub open spec fn bytes_of(s: &str) -> Seq<u8> {
    ascii_bytes(s@)
}

/// Writes `text`, which is ASCII.
fn write_text(out: &mut Vec<u8>, text: &str)
    requires
        crate::text::is_ascii_text(text@),
    ensures
        final(out)@ == old(out)@ + bytes_of(text),
{
    append_bytes(out, ascii_of(text));
}

/// Writes `#n`.
fn write_name(out: &mut Vec<u8>, n: u64)
    ensures
        final(out)@ == old(out)@ + name_text(n),
{
    out.push(35);
    push_decimal_bytes(out, n);
    proof {
        assert(final(out)@ =~= old(out)@ + name_text(n));
    }
}

/// Writes `src[cursor..]` up to `token` and `text` in its place, if
/// `token` lies between `cursor` and `end`; returns where copying resumes.
fn splice(out: &mut Vec<u8>, src: &[u8], cursor: usize, token: Token, text: &[u8], end: usize) -> (c: usize)
    requires
        cursor <= end <= src@.len(),
    ensures
        (final(out)@, c as int) == ({
            let (o, c2) = subst_step(src@, cursor as int, token, end as int, Some(text@));
            (old(out)@ + o, c2)
        }),
{
    if cursor <= token.span.start && token.span.start <= token.span.end && token.span.end <= end {
        append_bytes(out, slice_range(src, cursor, token.span.start));
        append_bytes(out, text);
        proof {
            assert(final(out)@ =~= old(out)@ + (src@.subrange(cursor as int, token.span.start as int)
                + text@));
        }
        token.span.end
    } else {
        proof {
            assert(final(out)@ =~= old(out)@ + Seq::<u8>::empty());
        }
        cursor
    }
}

/// Writes `span` of `src`, with the replaced tokens among `tokens` swapped
/// for their replacement text.
fn write_replaced(out: &mut Vec<u8>, src: &[u8], span: Span, tokens: &[Token], replacements: &Replacements)
    requires
        span.start <= span.end <= src@.len(),
    ensures
        final(out)@ == old(out)@ + subst(
            src@,
            tokens@,
            span.start as int,
            span.end as int,
            replacing(replacements@),
        ),
{
    let ghost f = replacing(replacements@);
    let mut cursor = span.start;
    let mut i: usize = 0;
    while i < tokens.len()
        invariant
            span.start <= span.end <= src@.len(),
            i <= tokens@.len(),
            f == replacing(replacements@),
            span.start <= cursor <= span.end,
            (out@, cursor as int) == ({
                let (o, c) = subst_upto(src@, tokens@, i as int, span.start as int, span.end as int, f);
                (old(out)@ + o, c)
            }),
        decreases tokens@.len() - i,
    {
        let token = tokens[i];
        let ghost o_before = out@;
        let ghost c_before = cursor as int;
        match replacements.get(token.span) {
            Some(text) => {
                cursor = splice(out, src, cursor, token, text, span.end);
            },
            None => {},
        }
        proof {
            lemma_subst_cursor(src@, tokens@, i + 1, span.start as int, span.end as int, f);
            assert(out@ =~= old(out)@ + subst_upto(src@, tokens@, i + 1, span.start as int, span.end as int, f).0);
        }
        i = i + 1;
    }
    append_bytes(out, slice_range(src, cursor, span.end));
    proof {
        assert(final(out)@ =~= old(out)@ + subst(src@, tokens@, span.start as int, span.end as int, f));
    }
}

/// The removal plan drops every unnamed instance name it has considered.
proof fn lemma_plan_marks(ex: Exchange, data: Seq<Option<u64>>, ext: Map<u64, u64>, ts: Seq<Token>, k: int)
    requires
        0 <= k <= ts.len(),
    ensures
        plan_upto(ex, data, ext, ts, k) matches Ok(r) ==> forall|j: int|
            0 <= j < k && (#[trigger] ts[j]).kind is InstanceName && !named(
                ex,
                data,
                ext,
                ts[j].kind->InstanceName_0,
            ) ==> r[j],
    decreases k,
{
    if k > 0 {
        lemma_plan_marks(ex, data, ext, ts, k - 1);
        lemma_plan_len(ex, data, ext, ts, k - 1);
        if let Ok(r) = plan_upto(ex, data, ext, ts, k - 1) {
            lemma_nearest_kept_range(r.update(k - 1, true), k - 1);
        }
    }
}

/// The removal plans, by position, of the written instances that are
/// pruned.
pub open spec fn plans_of(ex: Exchange, data: Seq<Option<u64>>, ext: Map<u64, u64>, pruned: Seq<bool>) -> Seq<
    Option<Seq<bool>>,
> {
    Seq::new(
        data.len(),
        |p: int|
            if data[p] is Some && pruned[p] {
                Some(plan_for(ex, data, ext, p)->Ok_0)
            } else {
                None
            },
    )
}

/// The tokens of an edition 3 entry.
pub open spec fn entry_tokens(ex: Exchange, e: Entry) -> Seq<Token> {
    tokens_between(ex.tokens_view(), e.start as int, e.end as int)
}

/// True if an `ANCHOR` or `REFERENCE` entry still applies: a reference
/// whose instance name a written instance uses (constant and value names
/// always), an anchor whose instances are all written.
pub open spec fn entry_kept(ex: Exchange, data: Seq<Option<u64>>, ext: Map<u64, u64>, kind: ExtraKind, e: Entry) -> bool {
    let ts = entry_tokens(ex, e);
    if kind == ExtraKind::Reference {
        if ts.len() > 0 && ts[0].kind is InstanceName {
            ext.contains_key(ts[0].kind->InstanceName_0)
        } else {
            true
        }
    } else {
        forall|k: int|
            0 <= k < ts.len() && (#[trigger] ts[k]).kind is InstanceName ==> named(
                ex,
                data,
                ext,
                ts[k].kind->InstanceName_0,
            )
    }
}

/// The entries that still apply, in order.
pub open spec fn kept_entries(
    ex: Exchange,
    data: Seq<Option<u64>>,
    ext: Map<u64, u64>,
    kind: ExtraKind,
    entries: Seq<Entry>,
) -> Seq<Entry>
    decreases entries.len(),
{
    if entries.len() == 0 {
        Seq::empty()
    } else {
        let rest = kept_entries(ex, data, ext, kind, entries.drop_last());
        if entry_kept(ex, data, ext, kind, entries.last()) {
            rest.push(entries.last())
        } else {
            rest
        }
    }
}

/// Substitutes within an entry: instance names whose output name differs.
pub open spec fn renaming(ex: Exchange, data: Seq<Option<u64>>, ext: Map<u64, u64>) -> spec_fn(int, Token) -> Option<
    Seq<u8>,
> {
    |i: int, t: Token|
        if t.kind is InstanceName && name_of(ex, data, ext, t.kind->InstanceName_0) is Some && name_of(
            ex,
            data,
            ext,
            t.kind->InstanceName_0,
        )->Some_0 != t.kind->InstanceName_0 {
            Some(name_text(name_of(ex, data, ext, t.kind->InstanceName_0)->Some_0))
        } else {
            None
        }
}

/// The text written for some entries, each renamed and on a line of its
/// own.
pub open spec fn entries_text(ex: Exchange, data: Seq<Option<u64>>, ext: Map<u64, u64>, entries: Seq<Entry>) -> Seq<
    u8,
>
    decreases entries.len(),
{
    if entries.len() == 0 {
        Seq::empty()
    } else {
        let e = entries.last();
        entries_text(ex, data, ext, entries.drop_last()) + subst(
            ex.src_view(),
            entry_tokens(ex, e),
            e.span.start as int,
            e.span.end as int,
            renaming(ex, data, ext),
        ) + bytes_of("\n")
    }
}

/// The text written for an `ANCHOR` or `REFERENCE` section: nothing if no
/// entry still applies.
pub open spec fn extra_out(ex: Exchange, data: Seq<Option<u64>>, ext: Map<u64, u64>, x: ExtraSection) -> Seq<u8> {
    let kept = kept_entries(ex, data, ext, x.kind, x.entries@);
    if kept.len() == 0 {
        Seq::empty()
    } else {
        (if x.kind == ExtraKind::Anchor {
            bytes_of("ANCHOR;\n")
        } else {
            bytes_of("REFERENCE;\n")
        }) + entries_text(ex, data, ext, kept) + bytes_of("ENDSEC;\n")
    }
}

/// The header written: the given entities, or the source's with its
/// replaced tokens swapped, or the source's as written.
pub open spec fn header_out(ex: Exchange, header: Option<Seq<u8>>, repl: Option<Map<usize, (usize, Seq<u8>)>>) -> Seq<
    u8,
> {
    let hs = ex.header_span_view();
    match header {
        Some(h) => h,
        None => match repl {
            Some(m) => if replaced_within(m, hs) {
                subst(
                    ex.src_view(),
                    ex.tokens_view().subrange(ex.header_range().0 as int, ex.header_range().1 as int),
                    hs.start as int,
                    hs.end as int,
                    replacing(m),
                )
            } else {
                hs.of(ex.src_view())
            },
            None => hs.of(ex.src_view()),
        },
    }
}

/// The edition 3 sections other than signatures, in order: as written, or
/// with what still applies renamed.
pub open spec fn extras_out(
    ex: Exchange,
    data: Seq<Option<u64>>,
    ext: Map<u64, u64>,
    verbatim: bool,
    extra: Seq<ExtraSection>,
) -> Seq<u8>
    decreases extra.len(),
{
    if extra.len() == 0 {
        Seq::empty()
    } else {
        let x = extra.last();
        extras_out(ex, data, ext, verbatim, extra.drop_last()) + if x.kind == ExtraKind::Signature {
            Seq::empty()
        } else if verbatim {
            x.span.of(ex.src_view()) + bytes_of("\n")
        } else {
            extra_out(ex, data, ext, x)
        }
    }
}

/// The signature sections, as written.
pub open spec fn signatures_out(ex: Exchange, extra: Seq<ExtraSection>) -> Seq<u8>
    decreases extra.len(),
{
    if extra.len() == 0 {
        Seq::empty()
    } else {
        let x = extra.last();
        signatures_out(ex, extra.drop_last()) + if x.kind == ExtraKind::Signature {
            x.span.of(ex.src_view()) + bytes_of("\n")
        } else {
            Seq::empty()
        }
    }
}

/// The written instances among positions `first..k`, each on a line.
pub open spec fn instances_out(
    ex: Exchange,
    data: Seq<Option<u64>>,
    ext: Map<u64, u64>,
    dense: bool,
    repl: Option<Map<usize, (usize, Seq<u8>)>>,
    plans: Seq<Option<Seq<bool>>>,
    first: int,
    k: int,
) -> Seq<u8>
    decreases k - first,
{
    if k <= first {
        Seq::empty()
    } else {
        instances_out(ex, data, ext, dense, repl, plans, first, k - 1) + match data[k - 1] {
            Some(name) => instance_out(
                ex,
                data,
                ext,
                dense,
                repl,
                ex.instances_view()[k - 1],
                name,
                plans[k - 1],
            ) + bytes_of("\n"),
            None => Seq::empty(),
        }
    }
}

/// The data sections: each with its parameters and written instances.
pub open spec fn sections_out(
    ex: Exchange,
    data: Seq<Option<u64>>,
    ext: Map<u64, u64>,
    dense: bool,
    repl: Option<Map<usize, (usize, Seq<u8>)>>,
    plans: Seq<Option<Seq<bool>>>,
    secs: Seq<DataSection>,
) -> Seq<u8>
    decreases secs.len(),
{
    if secs.len() == 0 {
        Seq::empty()
    } else {
        let d = secs.last();
        sections_out(ex, data, ext, dense, repl, plans, secs.drop_last()) + bytes_of("DATA")
            + ex.params_text(d) + bytes_of(";\n") + instances_out(
            ex,
            data,
            ext,
            dense,
            repl,
            plans,
            d.first as int,
            d.last as int,
        ) + bytes_of("ENDSEC;\n")
    }
}

/// True if the output leaves everything as written: names kept, nothing
/// replaced, dropped or left out. Only then are signatures still valid.
pub open spec fn verbatim(
    dense: bool,
    repl: Option<Map<usize, (usize, Seq<u8>)>>,
    data: Seq<Option<u64>>,
    plans: Seq<Option<Seq<bool>>>,
) -> bool {
    &&& !dense
    &&& repl is None
    &&& forall|p: int| 0 <= p < data.len() ==> #[trigger] data[p] is Some
    &&& forall|p: int| 0 <= p < plans.len() ==> #[trigger] plans[p] is None
}

/// The whole file written.
pub open spec fn file_out(
    ex: Exchange,
    header: Option<Seq<u8>>,
    dense: bool,
    repl: Option<Map<usize, (usize, Seq<u8>)>>,
    data: Seq<Option<u64>>,
    ext: Map<u64, u64>,
    plans: Seq<Option<Seq<bool>>>,
) -> Seq<u8> {
    let v = verbatim(dense, repl, data, plans);
    bytes_of("ISO-10303-21;\nHEADER;") + header_out(ex, header, repl) + bytes_of("ENDSEC;\n")
        + extras_out(ex, data, ext, v, ex.extra_view()) + sections_out(
        ex,
        data,
        ext,
        dense,
        repl,
        plans,
        ex.sections_view(),
    ) + (if v {
        signatures_out(ex, ex.extra_view())
    } else {
        Seq::empty()
    }) + bytes_of("END-ISO-10303-21;\n")
}

/// The dropped tokens of an instance, if any.
pub open spec fn removed_view(r: Option<&[bool]>) -> Option<Seq<bool>> {
    match r {
        Some(x) => Some(x@),
        None => None,
    }
}

impl<'e, 'a> Writer<'e, 'a> {
    /// Writes one instance from its source text, renaming instance names
    /// when renumbering and dropping the tokens `removed` marks.
    fn write_instance(
        &self,
        out: &mut Vec<u8>,
        instance: &Instance,
        name: u64,
        names: &Names,
        removed: Option<&[bool]>,
    ) -> (r: Result<()>)
        requires
            self.exchange_view().wf(),
            names.data@.len() == self.exchange_view().instances_view().len(),
            instance_ok(self.exchange_view().src_view(), self.exchange_view().tokens_view(), *instance),
            writable(
                self.exchange_view(),
                names.data@,
                names.external@,
                self.numbering_view() == Numbering::Dense,
                *instance,
                removed_view(removed),
            ),
        ensures
            r is Ok,
            final(out)@ == old(out)@ + instance_out(
                self.exchange_view(),
                names.data@,
                names.external@,
                self.numbering_view() == Numbering::Dense,
                self.replacements_view(),
                *instance,
                name,
                removed_view(removed),
            ),
    {
        let exchange = self.exchange;
        let ghost ex = *exchange;
        let ghost data = names.data@;
        let ghost ext = names.external@;
        let dense = self.numbering == Numbering::Dense;
        let replacements = match self.replacements {
            Some(r) => if r.any_within(instance.span) {
                Some(r)
            } else {
                None
            },
            None => None,
        };
        let ghost rview: Option<Map<usize, (usize, Seq<u8>)>> = match replacements {
            Some(r) => Some(r@),
            None => None,
        };
        if !dense && removed.is_none() && replacements.is_none() {
            append_bytes(out, exchange.text(instance));
            return Ok(());
        }
        let src = exchange.source();
        let end = instance.span.end;
        let mut cursor = instance.span.start;
        if dense {
            write_name(out, name);
            cursor = instance.name_end;
        }
        let ghost lead = out@;
        let ghost c0 = cursor as int;
        let tokens = exchange.instance_tokens(instance);
        let ghost f = instance_subst(ex, data, ext, dense, rview, removed_view(removed));
        let mut i: usize = 0;
        while i < tokens.len()
            invariant
                ex == self.exchange_view(),
                ex == *exchange,
                ex.wf(),
                data == names.data@,
                ext == names.external@,
                data.len() == ex.instances_view().len(),
                src@ == ex.src_view(),
                end == instance.span.end,
                end <= src@.len(),
                tokens@ == ex.instance_tokens_view(*instance),
                dense == (self.numbering_view() == Numbering::Dense),
                writable(ex, data, ext, dense, *instance, removed_view(removed)),
                rview == match replacements {
                    Some(r) => Some(r@),
                    None => None::<Map<usize, (usize, Seq<u8>)>>,
                },
                f == instance_subst(ex, data, ext, dense, rview, removed_view(removed)),
                c0 <= end,
                i <= tokens@.len(),
                c0 <= cursor <= end,
                (out@, cursor as int) == ({
                    let (o, c) = subst_upto(src@, tokens@, i as int, c0, end as int, f);
                    (lead + o, c)
                }),
            decreases tokens@.len() - i,
        {
            let token = tokens[i];
            let drop = match removed {
                Some(r) => r[i],
                None => false,
            };
            if drop {
                cursor = splice(out, src, cursor, token, slice_range(src, 0, 0), end);
            } else {
                let replaced = match replacements {
                    Some(r) => r.get(token.span),
                    None => None,
                };
                match replaced {
                    Some(text) => {
                        cursor = splice(out, src, cursor, token, text, end);
                    },
                    None => {
                        if dense {
                            if let TokenKind::InstanceName(id) = token.kind {
                                proof {
                                    assert(tokens@[i as int] == token);
                                    assert(!(removed_view(removed) is Some && removed_view(removed)->Some_0[i as int]));
                                    assert(named(ex, data, ext, id));
                                }
                                let target = match target_name(exchange, names, instance, id) {
                                    Ok(t) => t,
                                    Err(e) => return Err(e),
                                };
                                let mut text: Vec<u8> = Vec::new();
                                write_name(&mut text, target);
                                cursor = splice(out, src, cursor, token, text.as_slice(), end);
                            }
                        }
                    },
                }
            }
            proof {
                lemma_subst_cursor(src@, tokens@, i + 1, c0, end as int, f);
                assert(out@ =~= lead + subst_upto(src@, tokens@, i + 1, c0, end as int, f).0);
            }
            i = i + 1;
        }
        append_bytes(out, slice_range(src, cursor, end));
        proof {
            assert(final(out)@ =~= old(out)@ + instance_out(
                ex,
                data,
                ext,
                dense,
                self.replacements_view(),
                *instance,
                name,
                removed_view(removed),
            ));
        }
        Ok(())
    }
}

impl<'e, 'a> Writer<'e, 'a> {
    /// Writes the entries of an `ANCHOR` or `REFERENCE` section that still
    /// apply, renamed: anchors whose instances are all written, and
    /// references a written instance uses (constant and value names always).
    fn write_extra_section(&self, out: &mut Vec<u8>, section: &ExtraSection, names: &Names)
        requires
            self.exchange_view().wf(),
            names.data@.len() == self.exchange_view().instances_view().len(),
            forall|e: int|
                0 <= e < section.entries@.len() ==> super::exchange::entry_ok(
                    self.exchange_view().src_view(),
                    self.exchange_view().tokens_view(),
                    #[trigger] section.entries@[e],
                ),
        ensures
            final(out)@ == old(out)@ + extra_out(self.exchange_view(), names.data@, names.external@, *section),
    {
        broadcast use vstd::std_specs::hash::group_hash_axioms;

        let exchange = self.exchange;
        let ghost ex = *exchange;
        let ghost data = names.data@;
        let ghost ext = names.external@;
        let src = exchange.source();
        let mut kept: Vec<Entry> = Vec::new();
        let mut e: usize = 0;
        while e < section.entries.len()
            invariant
                ex == *exchange,
                ex == self.exchange_view(),
                ex.wf(),
                data == names.data@,
                ext == names.external@,
                data.len() == ex.instances_view().len(),
                e <= section.entries@.len(),
                kept@ == kept_entries(ex, data, ext, section.kind, section.entries@.take(e as int)),
                forall|k: int|
                    0 <= k < kept@.len() ==> super::exchange::entry_ok(
                        ex.src_view(),
                        ex.tokens_view(),
                        #[trigger] kept@[k],
                    ),
                forall|k: int|
                    0 <= k < section.entries@.len() ==> super::exchange::entry_ok(
                        ex.src_view(),
                        ex.tokens_view(),
                        #[trigger] section.entries@[k],
                    ),
            decreases section.entries@.len() - e,
        {
            let entry = section.entries[e];
            let tokens = exchange.tokens_in(entry.start, entry.end);
            let keep = if section.kind == ExtraKind::Reference {
                if tokens.len() > 0 {
                    match tokens[0].kind {
                        TokenKind::InstanceName(id) => names.external.contains_key(&id),
                        _ => true,
                    }
                } else {
                    true
                }
            } else {
                let mut all = true;
                let mut k: usize = 0;
                while k < tokens.len()
                    invariant
                        ex == *exchange,
                        ex.wf(),
                        data == names.data@,
                        ext == names.external@,
                        data.len() == ex.instances_view().len(),
                        k <= tokens@.len(),
                        all == forall|j: int|
                            0 <= j < k && (#[trigger] tokens@[j]).kind is InstanceName ==> named(
                                ex,
                                data,
                                ext,
                                tokens@[j].kind->InstanceName_0,
                            ),
                    decreases tokens@.len() - k,
                {
                    if let TokenKind::InstanceName(id) = tokens[k].kind {
                        if names.of(exchange, id).is_none() {
                            all = false;
                        }
                    }
                    k = k + 1;
                }
                all
            };
            proof {
                assert(section.entries@.take(e + 1).drop_last() =~= section.entries@.take(e as int));
                assert(section.entries@.take(e + 1).last() == entry);
                assert(keep == entry_kept(ex, data, ext, section.kind, entry));
            }
            if keep {
                kept.push(entry);
            }
            e = e + 1;
        }
        proof {
            assert(section.entries@.take(e as int) =~= section.entries@);
        }
        if kept.len() == 0 {
            return ;
        }
        proof {
            reveal_strlit("ANCHOR;\n");
            reveal_strlit("REFERENCE;\n");
            reveal_strlit("\n");
            reveal_strlit("ENDSEC;\n");
        }
        if section.kind == ExtraKind::Anchor {
            write_text(out, "ANCHOR;\n");
        } else {
            write_text(out, "REFERENCE;\n");
        }
        let ghost head = out@;
        let ghost f = renaming(ex, data, ext);
        let mut k: usize = 0;
        while k < kept.len()
            invariant
                ex == *exchange,
                ex.wf(),
                data == names.data@,
                ext == names.external@,
                data.len() == ex.instances_view().len(),
                src@ == ex.src_view(),
                f == renaming(ex, data, ext),
                k <= kept@.len(),
                forall|j: int|
                    0 <= j < kept@.len() ==> super::exchange::entry_ok(
                        ex.src_view(),
                        ex.tokens_view(),
                        #[trigger] kept@[j],
                    ),
                out@ == head + entries_text(ex, data, ext, kept@.take(k as int)),
            decreases kept@.len() - k,
        {
            let entry = kept[k];
            proof {
                assert(super::exchange::entry_ok(ex.src_view(), ex.tokens_view(), kept@[k as int]));
            }
            let tokens = exchange.tokens_in(entry.start, entry.end);
            let ghost base = out@;
            let mut cursor = entry.span.start;
            let mut i: usize = 0;
            while i < tokens.len()
                invariant
                    ex == *exchange,
                    ex.wf(),
                    data == names.data@,
                    ext == names.external@,
                    data.len() == ex.instances_view().len(),
                    src@ == ex.src_view(),
                    f == renaming(ex, data, ext),
                    entry.span.start <= entry.span.end <= src@.len(),
                    tokens@ == entry_tokens(ex, entry),
                    i <= tokens@.len(),
                    entry.span.start <= cursor <= entry.span.end,
                    (out@, cursor as int) == ({
                        let (o, c) = subst_upto(
                            src@,
                            tokens@,
                            i as int,
                            entry.span.start as int,
                            entry.span.end as int,
                            f,
                        );
                        (base + o, c)
                    }),
                decreases tokens@.len() - i,
            {
                let token = tokens[i];
                if let TokenKind::InstanceName(id) = token.kind {
                    match names.of(exchange, id) {
                        Some(name) => {
                            if name != id {
                                let mut text: Vec<u8> = Vec::new();
                                write_name(&mut text, name);
                                cursor = splice(out, src, cursor, token, text.as_slice(), entry.span.end);
                            }
                        },
                        None => {},
                    }
                }
                proof {
                    lemma_subst_cursor(
                        src@,
                        tokens@,
                        i + 1,
                        entry.span.start as int,
                        entry.span.end as int,
                        f,
                    );
                    assert(out@ =~= base + subst_upto(
                        src@,
                        tokens@,
                        i + 1,
                        entry.span.start as int,
                        entry.span.end as int,
                        f,
                    ).0);
                }
                i = i + 1;
            }
            append_bytes(out, slice_range(src, cursor, entry.span.end));
            proof {
                reveal_strlit("\n");
            }
            write_text(out, "\n");
            proof {
                assert(kept@.take(k + 1).drop_last() =~= kept@.take(k as int));
                assert(kept@.take(k + 1).last() == entry);
                assert(out@ =~= head + entries_text(ex, data, ext, kept@.take(k + 1)));
            }
            k = k + 1;
        }
        write_text(out, "ENDSEC;\n");
        proof {
            assert(kept@.take(k as int) =~= kept@);
            assert(final(out)@ =~= old(out)@ + extra_out(ex, data, ext, *section));
        }
    }
}

/// The removal plans, as views.
pub open spec fn plans_view(plans: Seq<Option<Vec<bool>>>) -> Seq<Option<Seq<bool>>> {
    Seq::new(plans.len(), |p: int| plan_view(plans[p]))
}

impl<'e, 'a> Writer<'e, 'a> {
    fn write_extras(&self, out: &mut Vec<u8>, names: &Names, verbatim: bool)
        requires
            self.exchange_view().wf(),
            names.data@.len() == self.exchange_view().instances_view().len(),
        ensures
            final(out)@ == old(out)@ + extras_out(
                self.exchange_view(),
                names.data@,
                names.external@,
                verbatim,
                self.exchange_view().extra_view(),
            ),
    {
        let exchange = self.exchange;
        let ghost ex = *exchange;
        let src = exchange.source();
        let extra = exchange.extra_sections();
        let mut k: usize = 0;
        while k < extra.len()
            invariant
                ex == *exchange,
                ex == self.exchange_view(),
                ex.wf(),
                names.data@.len() == ex.instances_view().len(),
                src@ == ex.src_view(),
                extra@ == ex.extra_view(),
                k <= extra@.len(),
                out@ == old(out)@ + extras_out(ex, names.data@, names.external@, verbatim, extra@.take(k as int)),
            decreases extra@.len() - k,
        {
            let section = &extra[k];
            proof {
                assert(extra@.take(k + 1).drop_last() =~= extra@.take(k as int));
                assert(extra@.take(k + 1).last() == *section);
                reveal_strlit("\n");
            }
            if section.kind != ExtraKind::Signature {
                if verbatim {
                    append_bytes(out, section.span.slice(src));
                    write_text(out, "\n");
                } else {
                    self.write_extra_section(out, section, names);
                }
            }
            proof {
                assert(out@ =~= old(out)@ + extras_out(
                    ex,
                    names.data@,
                    names.external@,
                    verbatim,
                    extra@.take(k + 1),
                ));
            }
            k = k + 1;
        }
        proof {
            assert(extra@.take(k as int) =~= extra@);
        }
    }

    fn write_signatures(&self, out: &mut Vec<u8>)
        requires
            self.exchange_view().wf(),
        ensures
            final(out)@ == old(out)@ + signatures_out(self.exchange_view(), self.exchange_view().extra_view()),
    {
        let exchange = self.exchange;
        let ghost ex = *exchange;
        let src = exchange.source();
        let extra = exchange.extra_sections();
        let mut k: usize = 0;
        while k < extra.len()
            invariant
                ex == *exchange,
                ex.wf(),
                src@ == ex.src_view(),
                extra@ == ex.extra_view(),
                k <= extra@.len(),
                out@ == old(out)@ + signatures_out(ex, extra@.take(k as int)),
            decreases extra@.len() - k,
        {
            let section = &extra[k];
            proof {
                assert(extra@.take(k + 1).drop_last() =~= extra@.take(k as int));
                assert(extra@.take(k + 1).last() == *section);
                reveal_strlit("\n");
            }
            if section.kind == ExtraKind::Signature {
                append_bytes(out, section.span.slice(src));
                write_text(out, "\n");
            }
            proof {
                assert(out@ =~= old(out)@ + signatures_out(ex, extra@.take(k + 1)));
            }
            k = k + 1;
        }
        proof {
            assert(extra@.take(k as int) =~= extra@);
        }
    }

    fn write_sections(&self, out: &mut Vec<u8>, names: &Names, plans: &[Option<Vec<bool>>]) -> (r: Result<()>)
        requires
            self.exchange_view().wf(),
            names.data@.len() == self.exchange_view().instances_view().len(),
            plans@.len() == names.data@.len(),
            forall|p: int|
                0 <= p < names.data@.len() && #[trigger] names.data@[p] is Some ==> writable(
                    self.exchange_view(),
                    names.data@,
                    names.external@,
                    self.numbering_view() == Numbering::Dense,
                    self.exchange_view().instances_view()[p],
                    plan_view(plans@[p]),
                ),
        ensures
            r is Ok,
            final(out)@ == old(out)@ + sections_out(
                self.exchange_view(),
                names.data@,
                names.external@,
                self.numbering_view() == Numbering::Dense,
                self.replacements_view(),
                plans_view(plans@),
                self.exchange_view().sections_view(),
            ),
    {
        let exchange = self.exchange;
        let ghost ex = *exchange;
        let ghost data = names.data@;
        let ghost ext = names.external@;
        let ghost dense = self.numbering_view() == Numbering::Dense;
        let ghost pv = plans_view(plans@);
        let instances = exchange.instances();
        let sections = exchange.data_sections();
        let mut s: usize = 0;
        while s < sections.len()
            invariant
                ex == *exchange,
                ex == self.exchange_view(),
                ex.wf(),
                data == names.data@,
                ext == names.external@,
                dense == (self.numbering_view() == Numbering::Dense),
                pv == plans_view(plans@),
                data.len() == ex.instances_view().len(),
                plans@.len() == data.len(),
                instances@ == ex.instances_view(),
                sections@ == ex.sections_view(),
                forall|p: int|
                    0 <= p < data.len() && #[trigger] data[p] is Some ==> writable(
                        ex,
                        data,
                        ext,
                        dense,
                        ex.instances_view()[p],
                        plan_view(plans@[p]),
                    ),
                s <= sections@.len(),
                out@ == old(out)@ + sections_out(
                    ex,
                    data,
                    ext,
                    dense,
                    self.replacements_view(),
                    pv,
                    sections@.take(s as int),
                ),
            decreases sections@.len() - s,
        {
            let d = sections[s];
            proof {
                assert(sections@.take(s + 1).drop_last() =~= sections@.take(s as int));
                assert(sections@.take(s + 1).last() == d);
                assert(ex.sections_view()[s as int] == d);
                reveal_strlit("DATA");
                reveal_strlit(";\n");
                reveal_strlit("\n");
                reveal_strlit("ENDSEC;\n");
            }
            let ghost head = out@;
            write_text(out, "DATA");
            append_bytes(out, exchange.section_params(&d));
            write_text(out, ";\n");
            let ghost base = out@;
            let mut position = d.first;
            while position < d.last
                invariant
                    ex == *exchange,
                    ex == self.exchange_view(),
                    ex.wf(),
                    data == names.data@,
                    ext == names.external@,
                    dense == (self.numbering_view() == Numbering::Dense),
                    pv == plans_view(plans@),
                    data.len() == ex.instances_view().len(),
                    plans@.len() == data.len(),
                    instances@ == ex.instances_view(),
                    d.first <= d.last <= data.len(),
                    forall|p: int|
                        0 <= p < data.len() && #[trigger] data[p] is Some ==> writable(
                            ex,
                            data,
                            ext,
                            dense,
                            ex.instances_view()[p],
                            plan_view(plans@[p]),
                        ),
                    d.first <= position <= d.last,
                    out@ == base + instances_out(
                        ex,
                        data,
                        ext,
                        dense,
                        self.replacements_view(),
                        pv,
                        d.first as int,
                        position as int,
                    ),
                decreases d.last - position,
            {
                proof {
                    reveal_strlit("\n");
                }
                match names.data[position] {
                    Some(name) => {
                        let removed = match &plans[position] {
                            Some(v) => Some(v.as_slice()),
                            None => None,
                        };
                        proof {
                            assert(removed_view(removed) == plan_view(plans@[position as int]));
                            assert(pv[position as int] == plan_view(plans@[position as int]));
                            assert(data[position as int] is Some);
                            assert(instance_ok(ex.src_view(), ex.tokens_view(), ex.instances_view()[position as int]));
                        }
                        match self.write_instance(out, &instances[position], name, names, removed) {
                            Ok(()) => {},
                            Err(e) => return Err(e),
                        }
                        write_text(out, "\n");
                    },
                    None => {},
                }
                proof {
                    assert(out@ =~= base + instances_out(
                        ex,
                        data,
                        ext,
                        dense,
                        self.replacements_view(),
                        pv,
                        d.first as int,
                        position + 1,
                    ));
                }
                position = position + 1;
            }
            write_text(out, "ENDSEC;\n");
            proof {
                assert(out@ =~= old(out)@ + sections_out(
                    ex,
                    data,
                    ext,
                    dense,
                    self.replacements_view(),
                    pv,
                    sections@.take(s + 1),
                ));
            }
            s = s + 1;
        }
        proof {
            assert(sections@.take(s as int) =~= sections@);
        }
        Ok(())
    }
}

impl<'e, 'a> Writer<'e, 'a> {
    fn write_header(&self, out: &mut Vec<u8>)
        requires
            self.exchange_view().wf(),
        ensures
            final(out)@ == old(out)@ + header_out(
                self.exchange_view(),
                self.header_view(),
                self.replacements_view(),
            ),
    {
        let exchange = self.exchange;
        match self.header {
            Some(header) => append_bytes(out, header),
            None => match self.replacements {
                Some(replacements) => {
                    if replacements.any_within(exchange.header_span()) {
                        write_replaced(
                            out,
                            exchange.source(),
                            exchange.header_span(),
                            exchange.header_tokens(),
                            replacements,
                        );
                    } else {
                        append_bytes(out, exchange.header_text());
                    }
                },
                None => append_bytes(out, exchange.header_text()),
            },
        }
    }

    /// True if the output leaves everything as written.
    fn unchanged(&self, names: &Names, plans: &[Option<Vec<bool>>]) -> (b: bool)
        requires
            plans@.len() == names.data@.len(),
        ensures
            b == verbatim(
                self.numbering_view() == Numbering::Dense,
                self.replacements_view(),
                names.data@,
                plans_view(plans@),
            ),
    {
        let ghost data = names.data@;
        let ghost pv = plans_view(plans@);
        let n = names.data.len();
        let mut all_named = true;
        let mut no_plans = true;
        let mut p: usize = 0;
        while p < n
            invariant
                n == data.len(),
                data == names.data@,
                plans@.len() == n,
                pv == plans_view(plans@),
                p <= n,
                all_named == forall|q: int| 0 <= q < p ==> #[trigger] data[q] is Some,
                no_plans == forall|q: int| 0 <= q < p ==> #[trigger] pv[q] is None,
            decreases n - p,
        {
            if names.data[p].is_none() {
                all_named = false;
            }
            if plans[p].is_some() {
                no_plans = false;
            }
            proof {
                assert(pv[p as int] == plan_view(plans@[p as int]));
            }
            p = p + 1;
        }
        self.numbering == Numbering::Preserve && self.replacements.is_none() && all_named && no_plans
    }

    #[verifier::rlimit(40)]
    fn write_file(&self, out: &mut Vec<u8>, names: &Names, plans: &[Option<Vec<bool>>]) -> (r: Result<()>)
        requires
            self.exchange_view().wf(),
            names.data@.len() == self.exchange_view().instances_view().len(),
            plans@.len() == names.data@.len(),
            forall|p: int|
                0 <= p < names.data@.len() && #[trigger] names.data@[p] is Some ==> writable(
                    self.exchange_view(),
                    names.data@,
                    names.external@,
                    self.numbering_view() == Numbering::Dense,
                    self.exchange_view().instances_view()[p],
                    plan_view(plans@[p]),
                ),
        ensures
            r is Ok,
            final(out)@ == old(out)@ + file_out(
                self.exchange_view(),
                self.header_view(),
                self.numbering_view() == Numbering::Dense,
                self.replacements_view(),
                names.data@,
                names.external@,
                plans_view(plans@),
            ),
    {
        // Unchanged output keeps edition 3 sections as written, signatures
        // included; anything else invalidates a signature.
        let unchanged = self.unchanged(names, plans);
        proof {
            reveal_strlit("ISO-10303-21;\nHEADER;");
            reveal_strlit("ENDSEC;\n");
            reveal_strlit("END-ISO-10303-21;\n");
        }
        let ghost o0 = out@;
        write_text(out, "ISO-10303-21;\nHEADER;");
        let ghost o1 = out@;
        self.write_header(out);
        let ghost o2 = out@;
        write_text(out, "ENDSEC;\n");
        let ghost o3 = out@;
        self.write_extras(out, names, unchanged);
        let ghost o4 = out@;
        match self.write_sections(out, names, plans) {
            Ok(()) => {},
            Err(e) => return Err(e),
        }
        let ghost o5 = out@;
        if unchanged {
            self.write_signatures(out);
        }
        let ghost o6 = out@;
        write_text(out, "END-ISO-10303-21;\n");
        proof {
            let sig = if unchanged {
                signatures_out(self.exchange_view(), self.exchange_view().extra_view())
            } else {
                Seq::<u8>::empty()
            };
            assert(o6 =~= o5 + sig);
            assert(final(out)@ =~= old(out)@ + file_out(
                self.exchange_view(),
                self.header_view(),
                self.numbering_view() == Numbering::Dense,
                self.replacements_view(),
                names.data@,
                names.external@,
                plans_view(plans@),
            ));
        }
        Ok(())
    }
}

/// What writing the instances at `positions`, with those at `pruned`
/// pruned, does: it succeeds exactly when every selected instance can be
/// written, and then appends the file to `before`; otherwise it writes
/// nothing and reports a selected instance and an `#id` it refers to that
/// is not written.
pub open spec fn write_result(
    w: Writer,
    positions: Seq<usize>,
    pruned: Seq<usize>,
    before: Seq<u8>,
    after: Seq<u8>,
    r: Result<()>,
) -> bool {
    let ex = w.exchange_view();
    let n = ex.instances_view().len() as int;
    let sel = selection(n, positions);
    let dense = w.numbering_view() == Numbering::Dense;
    let data = data_names(ex, sel, dense);
    let ext = external_map(ex, sel, dense);
    let pr = selection(n, pruned);
    &&& (r is Ok <==> forall|p: int| 0 <= p < n && sel[p] ==> passes(ex, data, ext, pr, p))
    &&& (r is Ok ==> after == before + file_out(
        ex,
        w.header_view(),
        dense,
        w.replacements_view(),
        data,
        ext,
        plans_of(ex, data, ext, pr),
    ))
    &&& (r is Err ==> after == before)
    &&& (r matches Err(e) ==> exists|p: int|
        0 <= p < n && sel[p] && !passes(ex, data, ext, pr, p) && #[trigger] unresolved_from(
            ex,
            data,
            ext,
            p,
            e,
        ) && e == failure_at(ex, data, ext, pr, p) && forall|q: int|
            0 <= q < p && sel[q] ==> passes(ex, data, ext, pr, q))
}

/// An instance that passes the check can be written.
proof fn lemma_writable(
    ex: Exchange,
    data: Seq<Option<u64>>,
    ext: Map<u64, u64>,
    dense: bool,
    pr: Seq<bool>,
    p: int,
)
    requires
        ex.wf(),
        0 <= p < ex.instances_view().len(),
        pr.len() == ex.instances_view().len(),
        passes(ex, data, ext, pr, p),
    ensures
        writable(
            ex,
            data,
            ext,
            dense,
            ex.instances_view()[p],
            if pr[p] {
                Some(plan_for(ex, data, ext, p)->Ok_0)
            } else {
                None
            },
        ),
{
    let ts = ex.instance_tokens_view(ex.instances_view()[p]);
    if pr[p] {
        lemma_plan_len(ex, data, ext, ts, ts.len() as int);
        lemma_plan_marks(ex, data, ext, ts, ts.len() as int);
    } else {
        assert forall|k: int|
            0 <= k < ts.len() && (#[trigger] ts[k]).kind is InstanceName implies named(
            ex,
            data,
            ext,
            ts[k].kind->InstanceName_0,
        ) by {
            lemma_ids_in_contains(ts, k);
            let id = ts[k].kind->InstanceName_0;
            let j = choose|j: int| 0 <= j < ids_in(ts).len() && ids_in(ts)[j] == id;
            assert(refs_at(ex, p)[j] == id);
        }
    }
}

impl<'e, 'a> Writer<'e, 'a> {
    /// Writes every instance.
    ///
    /// # Errors
    ///
    /// Returns [`Error::UnresolvedReference`] if the source itself has a
    /// dangling reference; nothing is written then.
    pub fn write_all(&self, out: &mut Vec<u8>) -> (r: Result<()>)
        requires
            self.exchange_view().wf(),
            names_fit(self.exchange_view()),
        ensures
            write_result(
                *self,
                Seq::new(self.exchange_view().instances_view().len(), |p: int| p as usize),
                Seq::empty(),
                old(out)@,
                final(out)@,
                r,
            ),
    {
        let n = self.exchange.instances().len();
        let mut positions: Vec<usize> = Vec::new();
        while positions.len() < n
            invariant
                positions@.len() <= n,
                forall|p: int| 0 <= p < positions@.len() ==> #[trigger] positions@[p] == p as usize,
            decreases n - positions@.len(),
        {
            positions.push(positions.len());
        }
        proof {
            assert(positions@ =~= Seq::new(n as nat, |p: int| p as usize));
        }
        self.write_selection(positions.as_slice(), out)
    }

    /// Writes the instances at `positions` (indices into
    /// `Exchange::instances`) once each and in file order, whatever order
    /// `positions` lists them in.
    ///
    /// Data sections are kept, with their parameters, even when none of
    /// their instances is selected.
    ///
    /// # Errors
    ///
    /// Returns [`Error::UnresolvedReference`] if a selected instance refers
    /// to one that is not selected. That is checked before anything is
    /// written: a file with a dangling reference silently misses data.
    pub fn write_selection(&self, positions: &[usize], out: &mut Vec<u8>) -> (r: Result<()>)
        requires
            self.exchange_view().wf(),
            names_fit(self.exchange_view()),
            forall|j: int|
                0 <= j < positions@.len() ==> #[trigger] positions@[j] < self.exchange_view().instances_view().len(),
        ensures
            write_result(*self, positions@, Seq::empty(), old(out)@, final(out)@, r),
    {
        let none: Vec<usize> = Vec::new();
        self.write_pruned(positions, none.as_slice(), out)
    }

    /// Like [`write_selection`](Self::write_selection), except that the
    /// instances at `pruned` positions may list instances that are not
    /// selected: those list items are removed, with their separating commas,
    /// and everything else in the instance is copied as usual.
    ///
    /// This is how an aggregate shared by many products (a layer
    /// assignment, a category) is written into a file holding only some of
    /// them. Only items of a list are removed; a pruned instance's other
    /// references must still be selected. A list can become empty, which the
    /// caller must avoid where the schema forbids it.
    ///
    /// # Errors
    ///
    /// Returns [`Error::UnresolvedReference`] for a reference to an
    /// unselected instance that is not a list item of a pruned instance,
    /// before anything is written.
    pub fn write_pruned(&self, positions: &[usize], pruned: &[usize], out: &mut Vec<u8>) -> (r: Result<()>)
        requires
            self.exchange_view().wf(),
            names_fit(self.exchange_view()),
            forall|j: int|
                0 <= j < positions@.len() ==> #[trigger] positions@[j] < self.exchange_view().instances_view().len(),
            forall|j: int|
                0 <= j < pruned@.len() ==> #[trigger] pruned@[j] < self.exchange_view().instances_view().len(),
        ensures
            write_result(*self, positions@, pruned@, old(out)@, final(out)@, r),
    {
        let ghost ex = self.exchange_view();
        let names = self.assign_names(positions);
        let n = names.data.len();
        let ghost sel = selection(n as int, positions@);
        let ghost pr = selection(n as int, pruned@);
        let ghost dense = self.numbering_view() == Numbering::Dense;
        let mut is_pruned: Vec<bool> = Vec::new();
        while is_pruned.len() < n
            invariant
                is_pruned@.len() <= n,
                forall|p: int| 0 <= p < is_pruned@.len() ==> !is_pruned@[p],
            decreases n - is_pruned@.len(),
        {
            is_pruned.push(false);
        }
        let mut j: usize = 0;
        while j < pruned.len()
            invariant
                n == ex.instances_view().len(),
                is_pruned@.len() == n,
                j <= pruned@.len(),
                forall|k: int| 0 <= k < pruned@.len() ==> #[trigger] pruned@[k] < n,
                forall|p: int| 0 <= p < n ==> #[trigger] is_pruned@[p] == pruned@.take(j as int).contains(p as usize),
            decreases pruned@.len() - j,
        {
            let position = pruned[j];
            is_pruned.set(position, true);
            proof {
                assert forall|p: int| 0 <= p < n implies #[trigger] pruned@.take(j + 1).contains(p as usize)
                    == (pruned@.take(j as int).contains(p as usize) || p == position) by {
                    let t0 = pruned@.take(j as int);
                    let t1 = pruned@.take(j + 1);
                    if t1.contains(p as usize) {
                        let k = choose|k: int| 0 <= k < t1.len() && t1[k] == p as usize;
                        if k < j {
                            assert(t0[k] == t1[k]);
                        }
                    }
                    if t0.contains(p as usize) {
                        let k = choose|k: int| 0 <= k < t0.len() && t0[k] == p as usize;
                        assert(t1[k] == t0[k]);
                    }
                    if p == position {
                        assert(t1[j as int] == position);
                    }
                }
            }
            j = j + 1;
        }
        proof {
            assert(pruned@.take(j as int) =~= pruned@);
            assert(is_pruned@ =~= pr);
        }
        let plans = match self.check_closed(&names, is_pruned.as_slice()) {
            Ok(plans) => plans,
            Err(e) => {
                proof {
                    let data = names.data@;
                    let ext = names.external@;
                    let p = choose|p: int|
                        0 <= p < data.len() && data[p] is Some && !passes(ex, data, ext, pr, p)
                            && #[trigger] unresolved_from(ex, data, ext, p, e) && e == failure_at(
                            ex,
                            data,
                            ext,
                            pr,
                            p,
                        ) && forall|q: int| 0 <= q < p && data[q] is Some ==> passes(ex, data, ext, pr, q);
                    assert(sel[p]);
                    assert forall|q: int| 0 <= q < p && sel[q] implies passes(ex, data, ext, pr, q) by {
                        assert(data[q] is Some);
                    }
                }
                return Err(e);
            },
        };
        proof {
            let data = names.data@;
            let ext = names.external@;
            assert(plans_view(plans@) =~= plans_of(ex, data, ext, pr)) by {
                assert forall|p: int| 0 <= p < plans@.len() implies plans_view(plans@)[p] == plans_of(
                    ex,
                    data,
                    ext,
                    pr,
                )[p] by {
                    assert(plan_view(plans@[p]) == plans_view(plans@)[p]);
                }
            }
            assert forall|p: int| 0 <= p < data.len() && #[trigger] data[p] is Some implies writable(
                ex,
                data,
                ext,
                dense,
                ex.instances_view()[p],
                plan_view(plans@[p]),
            ) by {
                lemma_writable(ex, data, ext, dense, pr, p);
                assert(plan_view(plans@[p]) == plans_view(plans@)[p]);
            }
        }
        match self.write_file(out, &names, plans.as_slice()) {
            Ok(()) => {},
            Err(e) => return Err(e),
        }
        Ok(())
    }
}

} // verus!
