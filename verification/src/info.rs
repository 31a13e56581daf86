//! A summary of a STEP file: header, units, counts and entity types.
//!
//! This is what `stepq info` prints. It is computed from the entity graph
//! alone, without evaluating geometry, and lives in the library so that
//! other front ends can reuse it.
use vstd::prelude::*;
use vstd::string::*;
use crate::lint::{first_rec, items_at, list_items, param_slice, params_of};
use crate::model::graph::{dangling, Graph};
use crate::p21::exchange::{
    lemma_after_param, lemma_skip_separators, param_tokens, skip_separators, first_param_tokens, Exchange, Instance,
    Params, Record,
};
use crate::p21::lexer::{Token, TokenKind};
use crate::p21::string::{decode_string, decoded};
use crate::text::{lossy, lossy_text};

verus! {

/// Summary of a parsed file; see [`Info::new`].
#[derive(Debug, Clone, PartialEq, Eq)]
pub struct Info {
    /// Size of the source in bytes.
    pub bytes: usize,
    /// Decoded header fields.
    pub header: Header,
    /// Number of data sections.
    pub sections: usize,
    /// Number of entity instances.
    pub instances: usize,
    /// How many of those instances are complex.
    pub complex_instances: usize,
    /// Instances with a `PRODUCT` record.
    pub products: usize,
    /// `NEXT_ASSEMBLY_USAGE_OCCURRENCE` instances: one per component
    /// placed in an assembly. Zero for a single part.
    pub assembly_usages: usize,
    /// References to instances that are not defined.
    pub unresolved_references: usize,
    /// Units the file declares.
    pub units: Units,
    /// Record counts per entity type, most frequent first, then by name.
    /// Names are upper-cased. A complex instance counts once for each of
    /// its partial entities.
    pub entity_types: Vec<EntityCount>,
}

/// Decoded header fields. Empty strings are omitted.
#[derive(Debug, Clone, Default, PartialEq, Eq)]
pub struct Header {
    /// `FILE_DESCRIPTION.description`.
    pub description: Vec<String>,
    /// `FILE_DESCRIPTION.implementation_level`, such as `2;1`.
    pub implementation_level: Option<String>,
    /// `FILE_NAME.name`.
    pub name: Option<String>,
    /// `FILE_NAME.time_stamp`.
    pub time_stamp: Option<String>,
    /// `FILE_NAME.author`.
    pub author: Vec<String>,
    /// `FILE_NAME.organization`.
    pub organization: Vec<String>,
    /// `FILE_NAME.preprocessor_version`.
    pub preprocessor_version: Option<String>,
    /// `FILE_NAME.originating_system`.
    pub originating_system: Option<String>,
    /// `FILE_NAME.authorization`.
    pub authorization: Option<String>,
    /// `FILE_SCHEMA.schema_identifiers`.
    pub schemas: Vec<String>,
}

/// Units declared in the file, lower-cased, each listed once in file
/// order: `millimetre` for an SI unit with a prefix, or the name of a
/// conversion-based unit such as `inch` or `degree`.
#[derive(Debug, Clone, Default, PartialEq, Eq)]
pub struct Units {
    /// Length units.
    pub length: Vec<String>,
    /// Plane angle units.
    pub plane_angle: Vec<String>,
    /// Solid angle units.
    pub solid_angle: Vec<String>,
}

/// How many records of one entity type a file contains.
#[derive(Debug, Clone, PartialEq, Eq)]
pub struct EntityCount {
    /// Upper-cased entity type name.
    pub name: String,
    /// Number of records.
    pub count: usize,
}

// ---------------------------------------------------------------------
// String attributes.
// ---------------------------------------------------------------------

/// True if `c` is white space as Unicode defines it, which is what
/// `char::is_whitespace` tests.
pub open spec fn is_space(c: char) -> bool {
    let u = c as u32;
    ||| 9 <= u <= 13
    ||| u == 32
    ||| u == 0x85
    ||| u == 0xA0
    ||| u == 0x1680
    ||| 0x2000 <= u <= 0x200A
    ||| u == 0x2028
    ||| u == 0x2029
    ||| u == 0x202F
    ||| u == 0x205F
    ||| u == 0x3000
}

/// True if `s` is empty or all white space.
pub open spec fn blank(s: Seq<char>) -> bool {
    forall|i: int| 0 <= i < s.len() ==> is_space(#[trigger] s[i])
}

/// The value of the one-token string parameter `pt`: its decoded text, or
/// its raw text if a directive in it is malformed; `None` if `pt` is not a
/// string or the value is blank.
pub open spec fn string_value(src: Seq<u8>, pt: Seq<Token>) -> Option<Seq<char>> {
    if pt.len() == 1 && pt[0].kind == TokenKind::String {
        let v = match decoded(src, pt[0].span) {
            Ok(t) => t,
            Err(_) => lossy_text(pt[0].span.of(src)),
        };
        if blank(v) {
            None
        } else {
            Some(v)
        }
    } else {
        None
    }
}

/// The value of string parameter `i` of `ts`.
pub open spec fn text_of(src: Seq<u8>, ts: Seq<Token>, i: nat) -> Option<Seq<char>> {
    string_value(src, param_tokens(ts, i))
}

/// The values of the string parameters among `ps`, in order.
pub open spec fn strings_of(src: Seq<u8>, ps: Seq<Seq<Token>>) -> Seq<Seq<char>>
    decreases ps.len(),
{
    if ps.len() == 0 {
        Seq::empty()
    } else {
        strings_of(src, ps.drop_last()) + match string_value(src, ps.last()) {
            Some(v) => seq![v],
            None => Seq::empty(),
        }
    }
}

/// The values of the strings in list parameter `i` of `ts`.
pub open spec fn texts_of(src: Seq<u8>, ts: Seq<Token>, i: nat) -> Seq<Seq<char>> {
    match list_items(ts, i) {
        Some(items) => strings_of(src, params_of(items)),
        None => Seq::empty(),
    }
}

/// The views of `v`.
pub open spec fn string_views(v: Seq<String>) -> Seq<Seq<char>> {
    v.map_values(|s: String| s@)
}

/// The view of `o`.
pub open spec fn option_view(o: Option<String>) -> Option<Seq<char>> {
    match o {
        Some(s) => Some(s@),
        None => None,
    }
}

/// True if `c` is white space.
fn is_space_char(c: char) -> (b: bool)
    ensures
        b == is_space(c),
{
    let u = c as u32;
    (9 <= u && u <= 13) || u == 32 || u == 0x85 || u == 0xA0 || u == 0x1680 || (0x2000 <= u && u <= 0x200A)
        || u == 0x2028 || u == 0x2029 || u == 0x202F || u == 0x205F || u == 0x3000
}

/// True if `s` is empty or all white space.
fn is_blank(s: &String) -> (b: bool)
    ensures
        b == blank(s@),
{
    let t = s.as_str();
    let n = t.unicode_len();
    let mut k: usize = 0;
    while k < n
        invariant
            n == t@.len(),
            t@ == s@,
            k <= n,
            forall|i: int| 0 <= i < k ==> is_space(#[trigger] s@[i]),
        decreases n - k,
    {
        if !is_space_char(t.get_char(k)) {
            return false;
        }
        k = k + 1;
    }
    true
}

/// The value of the one-token string parameter `pt`.
fn string_at(src: &[u8], pt: &[Token]) -> (r: Option<String>)
    requires
        src@.len() < usize::MAX,
        forall|q: int| 0 <= q < pt@.len() ==> crate::p21::exchange::genuine(src@, #[trigger] pt@[q]),
    ensures
        option_view(r) == string_value(src@, pt@),
{
    if pt.len() != 1 || pt[0].kind != TokenKind::String {
        return None;
    }
    let value = match decode_string(src, pt[0].span) {
        Ok(t) => t,
        Err(_) => lossy(pt[0].span.slice(src)),
    };
    if is_blank(&value) {
        None
    } else {
        Some(value)
    }
}

/// The value of string parameter `index` of `record`.
pub(crate) fn text_at(src: &[u8], record: Record, index: usize) -> (r: Option<String>)
    requires
        record.wf(),
        record.src_view() == src@,
        src@.len() < usize::MAX,
    ensures
        option_view(r) == text_of(src@, record.params_view(), index as nat),
{
    string_at(src, param_slice(record, index))
}

/// The values of the strings in list parameter `index` of `record`.
fn texts_at(src: &[u8], record: Record, index: usize) -> (v: Vec<String>)
    requires
        record.wf(),
        record.src_view() == src@,
        src@.len() < usize::MAX,
    ensures
        string_views(v@) == texts_of(src@, record.params_view(), index as nat),
{
    let items = match items_at(record, index) {
        Some(items) => items,
        None => {
            let v: Vec<String> = Vec::new();
            proof {
                assert(string_views(v@) =~= Seq::<Seq<char>>::empty());
            }
            return v;
        },
    };
    let mut ps = Params::over(src, items);
    let ghost mut seen: Seq<Seq<Token>> = Seq::empty();
    let mut out: Vec<String> = Vec::new();
    proof {
        assert(string_views(out@) =~= strings_of(src@, seen));
    }
    loop
        invariant
            ps.wf(),
            ps.src_view() == src@,
            src@.len() < usize::MAX,
            list_items(record.params_view(), index as nat) == Some(items@),
            params_of(items@) == seen + params_of(ps.tokens_view()),
            string_views(out@) == strings_of(src@, seen),
        decreases ps.tokens_view().len(),
    {
        let ghost ts = ps.tokens_view();
        proof {
            lemma_skip_separators(ts, 0);
        }
        match ps.next_tokens() {
            None => {
                proof {
                    assert(params_of(ts) =~= Seq::<Seq<Token>>::empty());
                    assert(seen + params_of(ts) =~= seen);
                }
                return out;
            },
            Some(pt) => {
                let ghost before = out@;
                proof {
                    let k = skip_separators(ts, 0);
                    lemma_after_param(ts, k);
                    assert(params_of(ts) == seq![pt@] + params_of(ps.tokens_view()));
                    assert(seen + params_of(ts) =~= seen.push(pt@) + params_of(ps.tokens_view()));
                    assert(seen.push(pt@).drop_last() =~= seen);
                    seen = seen.push(pt@);
                    assert forall|q: int| 0 <= q < pt@.len() implies crate::p21::exchange::genuine(
                        src@,
                        #[trigger] pt@[q],
                    ) by {
                        assert(pt@[q] == ts[k + q]);
                    }
                }
                match string_at(src, pt) {
                    Some(text) => {
                        out.push(text);
                        proof {
                            assert(string_views(out@) =~= string_views(before).push(out@.last()@));
                        }
                    },
                    None => {},
                }
            },
        }
    }
}


// ---------------------------------------------------------------------
// The header.
// ---------------------------------------------------------------------

/// The parameters of the first header entity named `name`.
pub open spec fn header_params(ex: Exchange, name: &str) -> Option<Seq<Token>> {
    match first_rec(ex.src_view(), ex.header_view(), name, 0) {
        Some(k) => Some(ex.header_view()[k].1),
        None => None,
    }
}

/// String attribute `i` of header entity `name`.
pub open spec fn header_text(ex: Exchange, name: &str, i: nat) -> Option<Seq<char>> {
    match header_params(ex, name) {
        Some(ts) => text_of(ex.src_view(), ts, i),
        None => None,
    }
}

/// The strings of list attribute `i` of header entity `name`.
pub open spec fn header_texts(ex: Exchange, name: &str, i: nat) -> Seq<Seq<char>> {
    match header_params(ex, name) {
        Some(ts) => texts_of(ex.src_view(), ts, i),
        None => Seq::empty(),
    }
}

/// True if `h` holds the header fields of `ex`.
pub open spec fn reads_header(h: Header, ex: Exchange) -> bool {
    &&& string_views(h.description@) == header_texts(ex, "FILE_DESCRIPTION", 0)
    &&& option_view(h.implementation_level) == header_text(ex, "FILE_DESCRIPTION", 1)
    &&& option_view(h.name) == header_text(ex, "FILE_NAME", 0)
    &&& option_view(h.time_stamp) == header_text(ex, "FILE_NAME", 1)
    &&& string_views(h.author@) == header_texts(ex, "FILE_NAME", 2)
    &&& string_views(h.organization@) == header_texts(ex, "FILE_NAME", 3)
    &&& option_view(h.preprocessor_version) == header_text(ex, "FILE_NAME", 4)
    &&& option_view(h.originating_system) == header_text(ex, "FILE_NAME", 5)
    &&& option_view(h.authorization) == header_text(ex, "FILE_NAME", 6)
    &&& string_views(h.schemas@) == header_texts(ex, "FILE_SCHEMA", 0)
}

/// The first header entity named `name`.
fn header_record<'e>(exchange: &'e Exchange, name: &str) -> (r: Option<Record<'e>>)
    requires
        exchange.wf(),
    ensures
        match header_params(*exchange, name) {
            Some(ts) => r matches Some(rec) && rec.wf() && rec.src_view() == exchange.src_view()
                && rec.params_view() == ts,
            None => r is None,
        },
{
    let ghost ex = *exchange;
    let ghost src = ex.src_view();
    let ghost header = ex.header_view();
    match exchange.header_entity(name) {
        Some(record) => {
            proof {
                let k = choose|k: int|
                    0 <= k < header.len() && record.name_token() == header[k].0 && record.params_view() == header[k].1
                        && crate::text::eq_ignore_case(header[k].0.span.of(src), name.spec_bytes()) && forall|j: int|
                        0 <= j < k ==> !crate::text::eq_ignore_case(#[trigger] header[j].0.span.of(src), name.spec_bytes());
                assert forall|j: int| 0 <= j < k implies !#[trigger] crate::lint::rec_named(src, header[j], name) by {}
                crate::lint::lemma_first_rec(src, header, name, 0, k);
            }
            Some(record)
        },
        None => {
            proof {
                assert forall|j: int| 0 <= j < header.len() implies !#[trigger] crate::lint::rec_named(src, header[j], name) by {
                    if crate::lint::rec_named(src, header[j], name) {
                        assert(crate::p21::exchange::names_a_record(src, header, name.spec_bytes()));
                    }
                }
                crate::lint::lemma_no_rec(src, header, name, 0);
            }
            None
        },
    }
}

/// The decoded header fields of `exchange`.
fn read_header(exchange: &Exchange) -> (h: Header)
    requires
        exchange.wf(),
    ensures
        reads_header(h, *exchange),
{
    let src = exchange.source();
    let mut header = Header {
        description: Vec::new(),
        implementation_level: None,
        name: None,
        time_stamp: None,
        author: Vec::new(),
        organization: Vec::new(),
        preprocessor_version: None,
        originating_system: None,
        authorization: None,
        schemas: Vec::new(),
    };
    proof {
        assert(string_views(header.description@) =~= Seq::<Seq<char>>::empty());
        assert(string_views(header.author@) =~= Seq::<Seq<char>>::empty());
        assert(string_views(header.organization@) =~= Seq::<Seq<char>>::empty());
        assert(string_views(header.schemas@) =~= Seq::<Seq<char>>::empty());
    }
    match header_record(exchange, "FILE_DESCRIPTION") {
        Some(description) => {
            header.description = texts_at(src, description, 0);
            header.implementation_level = text_at(src, description, 1);
        },
        None => {},
    }
    match header_record(exchange, "FILE_NAME") {
        Some(name) => {
            header.name = text_at(src, name, 0);
            header.time_stamp = text_at(src, name, 1);
            header.author = texts_at(src, name, 2);
            header.organization = texts_at(src, name, 3);
            header.preprocessor_version = text_at(src, name, 4);
            header.originating_system = text_at(src, name, 5);
            header.authorization = text_at(src, name, 6);
        },
        None => {},
    }
    match header_record(exchange, "FILE_SCHEMA") {
        Some(schema) => {
            header.schemas = texts_at(src, schema, 0);
        },
        None => {},
    }
    header
}


// ---------------------------------------------------------------------
// Units.
// ---------------------------------------------------------------------

/// True if one of `recs` is named `name`.
pub open spec fn has_named(src: Seq<u8>, recs: Seq<(Token, Seq<Token>)>, name: &str) -> bool {
    first_rec(src, recs, name, 0) is Some
}

/// True if a record of `recs` has a name that ends in `_UNIT`, ignoring
/// case.
pub open spec fn declares_unit(src: Seq<u8>, recs: Seq<(Token, Seq<Token>)>) -> bool {
    exists|k: int|
        0 <= k < recs.len() && #[trigger] crate::text::ends_with_ignore_case(recs[k].0.span.of(src), "_UNIT".spec_bytes())
}

/// Which list a unit instance with records `recs` goes in: 0 for length,
/// 1 for plane angle, 2 for solid angle; `None` if it is no such unit.
pub open spec fn unit_kind(src: Seq<u8>, recs: Seq<(Token, Seq<Token>)>) -> Option<int> {
    if !declares_unit(src, recs) {
        None
    } else if has_named(src, recs, "LENGTH_UNIT") {
        Some(0)
    } else if has_named(src, recs, "PLANE_ANGLE_UNIT") {
        Some(1)
    } else if has_named(src, recs, "SOLID_ANGLE_UNIT") {
        Some(2)
    } else {
        None
    }
}

/// `c` with ASCII upper-case letters mapped to lower case.
pub open spec fn lower_char(c: char) -> char {
    if 'A' <= c <= 'Z' {
        ((c as u32) + 32) as char
    } else {
        c
    }
}

/// `s` with ASCII upper-case letters mapped to lower case.
pub open spec fn lower_ascii(s: Seq<char>) -> Seq<char> {
    Seq::new(s.len(), |i: int| lower_char(s[i]))
}

/// The name of the enumeration value written as the one token `pt`, such
/// as `MILLI` for `.MILLI.`.
pub open spec fn enum_name(src: Seq<u8>, pt: Seq<Token>) -> Option<Seq<char>> {
    if pt.len() == 1 && pt[0].kind == TokenKind::Enumeration && pt[0].span.of(src).len() >= 2 {
        let b = pt[0].span.of(src);
        Some(Seq::new((b.len() - 2) as nat, |i: int| b[i + 1] as char))
    } else {
        None
    }
}

/// The enumeration names among `ps`, in order.
pub open spec fn enum_names(src: Seq<u8>, ps: Seq<Seq<Token>>) -> Seq<Seq<char>>
    decreases ps.len(),
{
    if ps.len() == 0 {
        Seq::empty()
    } else {
        enum_names(src, ps.drop_last()) + match enum_name(src, ps.last()) {
            Some(n) => seq![n],
            None => Seq::empty(),
        }
    }
}

/// The texts of `parts`, one after another.
pub open spec fn joined(parts: Seq<Seq<char>>) -> Seq<char>
    decreases parts.len(),
{
    if parts.len() == 0 {
        Seq::empty()
    } else {
        joined(parts.drop_last()) + parts.last()
    }
}

/// The label of an `SI_UNIT` with parameters `ts`: its enumeration values
/// run together in lower case, such as `millimetre`.
pub open spec fn si_label(src: Seq<u8>, ts: Seq<Token>) -> Option<Seq<char>> {
    let parts = enum_names(src, params_of(ts));
    if parts.len() == 0 {
        None
    } else {
        Some(lower_ascii(joined(parts)))
    }
}

/// The label of a unit instance with records `recs`: its SI label, or
/// else the lower-cased name of a conversion-based unit.
pub open spec fn unit_label(src: Seq<u8>, recs: Seq<(Token, Seq<Token>)>) -> Option<Seq<char>> {
    let si = match first_rec(src, recs, "SI_UNIT", 0) {
        Some(k) => si_label(src, recs[k].1),
        None => None,
    };
    match si {
        Some(l) => Some(l),
        None => match first_rec(src, recs, "CONVERSION_BASED_UNIT", 0) {
            Some(k) => match text_of(src, recs[k].1, 0) {
                Some(t) => Some(crate::text::lowercase(t)),
                None => None,
            },
            None => None,
        },
    }
}

/// `list` with `x` added at the end unless it is there already.
pub open spec fn add_once(list: Seq<Seq<char>>, x: Seq<char>) -> Seq<Seq<char>> {
    if list.contains(x) {
        list
    } else {
        list.push(x)
    }
}

/// Length, plane angle and solid angle units of the first `n` instances.
pub open spec fn units_upto(ex: Exchange, n: int) -> (Seq<Seq<char>>, Seq<Seq<char>>, Seq<Seq<char>>)
    decreases n,
{
    if n <= 0 {
        (Seq::empty(), Seq::empty(), Seq::empty())
    } else {
        let (l, p, s) = units_upto(ex, n - 1);
        let src = ex.src_view();
        let recs = ex.records_view(ex.instances_view()[n - 1]);
        match (unit_kind(src, recs), unit_label(src, recs)) {
            (Some(k), Some(x)) => if k == 0 {
                (add_once(l, x), p, s)
            } else if k == 1 {
                (l, add_once(p, x), s)
            } else {
                (l, p, add_once(s, x))
            },
            _ => (l, p, s),
        }
    }
}

/// True if `u` holds the units of `ex`.
pub open spec fn reads_units(u: Units, ex: Exchange) -> bool {
    let (l, p, s) = units_upto(ex, ex.instances_view().len() as int);
    &&& string_views(u.length@) == l
    &&& string_views(u.plane_angle@) == p
    &&& string_views(u.solid_angle@) == s
}

/// True if `records` are the records `recs` of a file with source `src`.
pub open spec fn records_are(records: Seq<Record>, src: Seq<u8>, recs: Seq<(Token, Seq<Token>)>) -> bool {
    &&& records.len() == recs.len()
    &&& forall|j: int|
        0 <= j < records.len() ==> (#[trigger] records[j]).wf() && records[j].src_view() == src
            && records[j].name_token() == recs[j].0 && records[j].params_view() == recs[j].1
}

/// True if a record of `records` has a name that ends in `_UNIT`.
fn names_a_unit(records: &Vec<Record>, Ghost(src): Ghost<Seq<u8>>, Ghost(recs): Ghost<Seq<(Token, Seq<Token>)>>) -> (b: bool)
    requires
        records_are(records@, src, recs),
    ensures
        b == declares_unit(src, recs),
{
    let mut k: usize = 0;
    while k < records.len()
        invariant
            records_are(records@, src, recs),
            k <= records@.len(),
            forall|j: int| 0 <= j < k ==> !#[trigger] crate::text::ends_with_ignore_case(recs[j].0.span.of(src), "_UNIT".spec_bytes()),
        decreases records@.len() - k,
    {
        if crate::text::bytes_end_with_ignore_case(records[k].name(), "_UNIT".as_bytes()) {
            return true;
        }
        k = k + 1;
    }
    false
}

/// Which list the unit instance with `records` goes in.
fn unit_kind_of(records: &Vec<Record>, Ghost(src): Ghost<Seq<u8>>, Ghost(recs): Ghost<Seq<(Token, Seq<Token>)>>) -> (r: Option<u8>)
    requires
        records_are(records@, src, recs),
    ensures
        match unit_kind(src, recs) {
            Some(k) => r matches Some(v) && v as int == k,
            None => r is None,
        },
{
    if !names_a_unit(records, Ghost(src), Ghost(recs)) {
        return None;
    }
    if crate::lint::find_rec(records, "LENGTH_UNIT", Ghost(src), Ghost(recs)).is_some() {
        Some(0)
    } else if crate::lint::find_rec(records, "PLANE_ANGLE_UNIT", Ghost(src), Ghost(recs)).is_some() {
        Some(1)
    } else if crate::lint::find_rec(records, "SOLID_ANGLE_UNIT", Ghost(src), Ghost(recs)).is_some() {
        Some(2)
    } else {
        None
    }
}

/// `c` with ASCII upper-case letters mapped to lower case.
pub(crate) fn lower_char_exec(c: char) -> (r: char)
    ensures
        r == lower_char(c),
{
    if 'A' <= c && c <= 'Z' {
        let v = (c as u32) + 32;
        let r = crate::text::char_from_u32(v);
        proof {
            assert(vstd::utf8::is_scalar(v));
        }
        match r {
            Some(l) => l,
            None => c,
        }
    } else {
        c
    }
}

/// Appends the lower-cased name of the enumeration value written as `pt`,
/// if `pt` is one.
pub(crate) fn push_enum_name(src: &[u8], pt: &[Token], out: &mut String) -> (found: bool)
    requires
        forall|q: int| 0 <= q < pt@.len() ==> crate::p21::exchange::genuine(src@, #[trigger] pt@[q]),
    ensures
        match enum_name(src@, pt@) {
            Some(n) => found && final(out)@ == old(out)@ + lower_ascii(n),
            None => !found && final(out)@ == old(out)@,
        },
{
    if pt.len() != 1 || pt[0].kind != TokenKind::Enumeration || pt[0].span.end - pt[0].span.start < 2 {
        return false;
    }
    let ghost b = pt@[0].span.of(src@);
    let ghost n = Seq::new((b.len() - 2) as nat, |i: int| b[i + 1] as char);
    let ghost start = out@;
    let first = pt[0].span.start + 1;
    let last = pt[0].span.end - 1;
    let mut i: usize = first;
    while i < last
        invariant
            first <= i <= last,
            first == pt@[0].span.start + 1,
            last == pt@[0].span.end - 1,
            pt@[0].span.end <= src@.len(),
            b == pt@[0].span.of(src@),
            n == Seq::new((b.len() - 2) as nat, |i: int| b[i + 1] as char),
            out@ == start + lower_ascii(n.take(i - first)),
        decreases last - i,
    {
        let c = crate::text::latin1(src[i]);
        crate::text::push_char(out, lower_char_exec(c));
        proof {
            assert(n[i - first] == c);
            assert(lower_ascii(n.take(i + 1 - first)) =~= lower_ascii(n.take(i - first)).push(lower_char(c)));
        }
        i = i + 1;
    }
    proof {
        assert(n.take(i - first) =~= n);
    }
    true
}

/// The label of the `SI_UNIT` record `record`.
fn si_label_at(src: &[u8], record: Record) -> (r: Option<String>)
    requires
        record.wf(),
        record.src_view() == src@,
    ensures
        option_view(r) == si_label(src@, record.params_view()),
{
    let mut ps = record.params();
    let ghost mut seen: Seq<Seq<Token>> = Seq::empty();
    let mut out = String::new();
    let mut any = false;
    proof {
        assert(out@ =~= lower_ascii(joined(enum_names(src@, seen))));
    }
    loop
        invariant
            ps.wf(),
            ps.src_view() == src@,
            params_of(record.params_view()) == seen + params_of(ps.tokens_view()),
            out@ == lower_ascii(joined(enum_names(src@, seen))),
            any == (enum_names(src@, seen).len() > 0),
        decreases ps.tokens_view().len(),
    {
        let ghost ts = ps.tokens_view();
        proof {
            lemma_skip_separators(ts, 0);
        }
        match ps.next_tokens() {
            None => {
                proof {
                    assert(params_of(ts) =~= Seq::<Seq<Token>>::empty());
                    assert(seen + params_of(ts) =~= seen);
                }
                if any {
                    return Some(out);
                } else {
                    return None;
                }
            },
            Some(pt) => {
                let ghost before = seen;
                proof {
                    let k = skip_separators(ts, 0);
                    lemma_after_param(ts, k);
                    assert(params_of(ts) == seq![pt@] + params_of(ps.tokens_view()));
                    assert(seen + params_of(ts) =~= seen.push(pt@) + params_of(ps.tokens_view()));
                    assert(seen.push(pt@).drop_last() =~= seen);
                    seen = seen.push(pt@);
                    assert forall|q: int| 0 <= q < pt@.len() implies crate::p21::exchange::genuine(
                        src@,
                        #[trigger] pt@[q],
                    ) by {
                        assert(pt@[q] == ts[k + q]);
                    }
                }
                let found = push_enum_name(src, pt, &mut out);
                proof {
                    let parts = enum_names(src@, before);
                    match enum_name(src@, pt@) {
                        Some(n) => {
                            assert(enum_names(src@, seen) == parts.push(n));
                            assert(parts.push(n).drop_last() =~= parts);
                            assert(lower_ascii(joined(parts) + n) =~= lower_ascii(joined(parts)) + lower_ascii(n));
                        },
                        None => {
                            assert(enum_names(src@, seen) =~= parts);
                        },
                    }
                }
                if found {
                    any = true;
                }
            },
        }
    }
}

/// The label of the unit instance with `records`.
fn unit_label_of(src: &[u8], records: &Vec<Record>, Ghost(recs): Ghost<Seq<(Token, Seq<Token>)>>) -> (r: Option<String>)
    requires
        records_are(records@, src@, recs),
        src@.len() < usize::MAX,
    ensures
        option_view(r) == unit_label(src@, recs),
{
    let si = match crate::lint::find_rec(records, "SI_UNIT", Ghost(src@), Ghost(recs)) {
        Some(k) => si_label_at(src, records[k]),
        None => None,
    };
    match si {
        Some(label) => Some(label),
        None => match crate::lint::find_rec(records, "CONVERSION_BASED_UNIT", Ghost(src@), Ghost(recs)) {
            Some(k) => match text_at(src, records[k], 0) {
                Some(t) => Some(crate::text::to_lowercase(t.as_str())),
                None => None,
            },
            None => None,
        },
    }
}

/// Adds `x` to the end of `list` unless it is there already.
fn add_once_exec(list: &mut Vec<String>, x: String)
    ensures
        string_views(final(list)@) == add_once(string_views(old(list)@), x@),
{
    let ghost views = string_views(list@);
    let mut k: usize = 0;
    while k < list.len()
        invariant
            views == string_views(list@),
            k <= list@.len(),
            forall|j: int| 0 <= j < k ==> #[trigger] views[j] != x@,
        decreases list@.len() - k,
    {
        if list[k] == x {
            proof {
                assert(views[k as int] == x@);
                assert(views.contains(x@));
            }
            return;
        }
        k = k + 1;
    }
    proof {
        assert(!views.contains(x@));
    }
    list.push(x);
    proof {
        assert(string_views(list@) =~= views.push(x@));
    }
}

/// The units `exchange` declares.
fn read_units(exchange: &Exchange) -> (u: Units)
    requires
        exchange.wf(),
    ensures
        reads_units(u, *exchange),
{
    let ghost ex = *exchange;
    let src = exchange.source();
    let instances = exchange.instances();
    let mut units = Units { length: Vec::new(), plane_angle: Vec::new(), solid_angle: Vec::new() };
    proof {
        assert(string_views(units.length@) =~= Seq::<Seq<char>>::empty());
        assert(string_views(units.plane_angle@) =~= Seq::<Seq<char>>::empty());
        assert(string_views(units.solid_angle@) =~= Seq::<Seq<char>>::empty());
    }
    let mut n: usize = 0;
    while n < instances.len()
        invariant
            ex == *exchange,
            ex.wf(),
            src@ == ex.src_view(),
            instances@ == ex.instances_view(),
            n <= instances@.len(),
            ({
                let (l, p, s) = units_upto(ex, n as int);
                &&& string_views(units.length@) == l
                &&& string_views(units.plane_angle@) == p
                &&& string_views(units.solid_angle@) == s
            }),
        decreases instances@.len() - n,
    {
        let instance = &instances[n];
        let records = exchange.records(instance).to_vec();
        let ghost recs = ex.records_view(*instance);
        match unit_kind_of(&records, Ghost(src@), Ghost(recs)) {
            Some(kind) => match unit_label_of(src, &records, Ghost(recs)) {
                Some(label) => {
                    if kind == 0 {
                        add_once_exec(&mut units.length, label);
                    } else if kind == 1 {
                        add_once_exec(&mut units.plane_angle, label);
                    } else {
                        add_once_exec(&mut units.solid_angle, label);
                    }
                },
                None => {},
            },
            None => {},
        }
        n = n + 1;
    }
    units
}


// ---------------------------------------------------------------------
// Entity types.
// ---------------------------------------------------------------------

/// The record name `b`, upper-cased.
pub open spec fn upper_name(b: Seq<u8>) -> Seq<char> {
    Seq::new(b.len(), |i: int| crate::express::schema::upper_char(b[i] as char))
}

/// The upper-cased names of `recs`, in order.
pub open spec fn names_of(src: Seq<u8>, recs: Seq<(Token, Seq<Token>)>) -> Seq<Seq<char>>
    decreases recs.len(),
{
    if recs.len() == 0 {
        Seq::empty()
    } else {
        names_of(src, recs.drop_last()).push(upper_name(recs.last().0.span.of(src)))
    }
}

/// The upper-cased names of the records of the first `n` instances.
pub open spec fn type_names_upto(ex: Exchange, n: int) -> Seq<Seq<char>>
    decreases n,
{
    if n <= 0 {
        Seq::empty()
    } else {
        type_names_upto(ex, n - 1) + names_of(ex.src_view(), ex.records_view(ex.instances_view()[n - 1]))
    }
}

/// The upper-cased names of all records of `ex`, in file order.
pub open spec fn type_names(ex: Exchange) -> Seq<Seq<char>> {
    type_names_upto(ex, ex.instances_view().len() as int)
}

/// How many times `x` occurs in `s`.
pub open spec fn occurrences(s: Seq<Seq<char>>, x: Seq<char>) -> nat
    decreases s.len(),
{
    if s.len() == 0 {
        0
    } else {
        occurrences(s.drop_last(), x) + if s.last() == x {
            1nat
        } else {
            0nat
        }
    }
}

proof fn lemma_occurrences_bound(s: Seq<Seq<char>>, x: Seq<char>)
    ensures
        occurrences(s, x) <= s.len(),
    decreases s.len(),
{
    if s.len() > 0 {
        lemma_occurrences_bound(s.drop_last(), x);
    }
}

proof fn lemma_record_list_len(ts: Seq<Token>)
    ensures
        crate::p21::exchange::record_list(ts).len() <= ts.len(),
    decreases ts.len(),
{
    if ts.len() > 0 {
        crate::p21::exchange::lemma_record_list_shrinks(ts);
        lemma_record_list_len(crate::p21::exchange::record_split(ts).2);
    }
}

proof fn lemma_names_of_len(src: Seq<u8>, recs: Seq<(Token, Seq<Token>)>)
    ensures
        names_of(src, recs).len() == recs.len(),
    decreases recs.len(),
{
    if recs.len() > 0 {
        lemma_names_of_len(src, recs.drop_last());
    }
}

/// The number of tokens the first `n` instances span.
pub open spec fn token_total(ins: Seq<Instance>, n: int) -> int
    decreases n,
{
    if n <= 0 {
        0
    } else {
        token_total(ins, n - 1) + (ins[n - 1].token_end - ins[n - 1].token_start)
    }
}

/// Where the tokens of the last of the first `n` instances that has any
/// end; 0 if none has any.
pub open spec fn last_end(ins: Seq<Instance>, n: int) -> int
    decreases n,
{
    if n <= 0 {
        0
    } else if ins[n - 1].token_start < ins[n - 1].token_end {
        ins[n - 1].token_end as int
    } else {
        last_end(ins, n - 1)
    }
}

proof fn lemma_ranges_apart(ex: Exchange, q: int, n: int)
    requires
        ex.wf(),
        0 <= q < n < ex.instances_view().len(),
        ex.instances_view()[q].token_start < ex.instances_view()[q].token_end,
        ex.instances_view()[n].token_start < ex.instances_view()[n].token_end,
    ensures
        ex.instances_view()[q].token_end <= ex.instances_view()[n].token_start,
{
    let ins = ex.instances_view();
    let ts = ex.tokens_view();
    let k = ins[q].token_end - 1;
    let k2 = ins[n].token_start as int;
    assert(crate::p21::exchange::instance_ok(ex.src_view(), ts, ins[q]));
    assert(crate::p21::exchange::instance_ok(ex.src_view(), ts, ins[n]));
    assert(ins[q].span.end <= ins[n].span.start);
    assert(ts[k].span.end <= ins[q].span.end);
    assert(ins[n].name_end <= ts[k2].span.start);
    assert(crate::p21::exchange::genuine(ex.src_view(), ts[k]));
    assert(crate::p21::exchange::genuine(ex.src_view(), ts[k2]));
    if k2 < k {
        assert(ts[k2].span.end <= ts[k].span.start);
    }
}

proof fn lemma_last_end(ex: Exchange, n: int, m: int)
    requires
        ex.wf(),
        0 <= n <= m < ex.instances_view().len(),
        ex.instances_view()[m].token_start < ex.instances_view()[m].token_end,
    ensures
        last_end(ex.instances_view(), n) <= ex.instances_view()[m].token_start,
    decreases n,
{
    let ins = ex.instances_view();
    if n > 0 {
        if ins[n - 1].token_start < ins[n - 1].token_end {
            lemma_ranges_apart(ex, n - 1, m);
        } else {
            lemma_last_end(ex, n - 1, m);
        }
    }
}

proof fn lemma_token_total(ex: Exchange, n: int)
    requires
        ex.wf(),
        0 <= n <= ex.instances_view().len(),
    ensures
        token_total(ex.instances_view(), n) <= last_end(ex.instances_view(), n) <= ex.tokens_view().len(),
    decreases n,
{
    let ins = ex.instances_view();
    if n > 0 {
        lemma_token_total(ex, n - 1);
        assert(crate::p21::exchange::instance_ok(ex.src_view(), ex.tokens_view(), ins[n - 1]));
        if ins[n - 1].token_start < ins[n - 1].token_end {
            lemma_last_end(ex, n - 1, n - 1);
        }
    }
}

proof fn lemma_type_names_bound(ex: Exchange, n: int)
    requires
        ex.wf(),
        0 <= n <= ex.instances_view().len(),
    ensures
        type_names_upto(ex, n).len() <= token_total(ex.instances_view(), n),
    decreases n,
{
    if n > 0 {
        lemma_type_names_bound(ex, n - 1);
        let inst = ex.instances_view()[n - 1];
        assert(crate::p21::exchange::instance_ok(ex.src_view(), ex.tokens_view(), inst));
        let t = ex.instance_tokens_view(inst);
        assert(t.len() == inst.token_end - inst.token_start);
        lemma_record_list_len(if inst.complex { crate::p21::exchange::tokens_between(t, 1, t.len() - 1) } else { t });
        lemma_names_of_len(ex.src_view(), ex.records_view(inst));
    }
}

/// There are fewer records in `ex` than `usize` can count.
proof fn lemma_record_count(ex: Exchange)
    requires
        ex.wf(),
    ensures
        type_names(ex).len() <= usize::MAX,
{
    lemma_type_names_bound(ex, ex.instances_view().len() as int);
    lemma_token_total(ex, ex.instances_view().len() as int);
    let ts = ex.tokens_view();
    if ts.len() > 0 {
        lemma_token_starts(ex, ts.len() - 1);
        assert(crate::p21::exchange::genuine(ex.src_view(), ts[ts.len() - 1]));
    }
}

/// Tokens do not overlap and each covers a byte, so token `i` starts at
/// byte `i` or later.
proof fn lemma_token_starts(ex: Exchange, i: int)
    requires
        ex.wf(),
        0 <= i < ex.tokens_view().len(),
    ensures
        ex.tokens_view()[i].span.start >= i,
    decreases i,
{
    let ts = ex.tokens_view();
    if i > 0 {
        lemma_token_starts(ex, i - 1);
        assert(crate::p21::exchange::genuine(ex.src_view(), ts[i - 1]));
        assert(ts[i - 1].span.end <= ts[i].span.start);
    }
}

/// True if `a` sorts before `b`, character by character.
pub open spec fn lex_lt(a: Seq<char>, b: Seq<char>) -> bool
    decreases a.len(),
{
    if a.len() == 0 {
        b.len() > 0
    } else if b.len() == 0 {
        false
    } else if a[0] != b[0] {
        (a[0] as int) < (b[0] as int)
    } else {
        lex_lt(a.drop_first(), b.drop_first())
    }
}

/// True if the entity type count `x` is listed before `y`: more records
/// first, then by name.
pub open spec fn ranks_before(x: (Seq<char>, nat), y: (Seq<char>, nat)) -> bool {
    x.1 > y.1 || (x.1 == y.1 && lex_lt(x.0, y.0))
}

/// The views of `v`, as names and counts.
pub open spec fn count_views(v: Seq<EntityCount>) -> Seq<(Seq<char>, nat)> {
    v.map_values(|e: EntityCount| (e.name@, e.count as nat))
}

/// True if `v` lists each of `names` once with the number of times it
/// occurs, most frequent first, then by name.
pub open spec fn tallies(v: Seq<(Seq<char>, nat)>, names: Seq<Seq<char>>) -> bool {
    &&& forall|i: int, j: int| 0 <= i < j < v.len() ==> ranks_before(#[trigger] v[i], #[trigger] v[j])
    &&& forall|i: int| 0 <= i < v.len() ==> (#[trigger] v[i]).1 == occurrences(names, v[i].0)
    &&& forall|x: Seq<char>| names.contains(x) <==> exists|i: int| 0 <= i < v.len() && (#[trigger] v[i]).0 == x
}

pub(crate) proof fn lemma_lex_total(a: Seq<char>, b: Seq<char>)
    requires
        a != b,
    ensures
        lex_lt(a, b) || lex_lt(b, a),
    decreases a.len(),
{
    if a.len() == 0 {
        if b.len() == 0 {
            assert(a =~= b);
        }
    } else if b.len() == 0 {
    } else if a[0] != b[0] {
        assert((a[0] as int) != (b[0] as int));
    } else {
        if a.drop_first() == b.drop_first() {
            assert(a.drop_first().len() == b.drop_first().len());
            assert(a =~= b) by {
                assert forall|i: int| 0 <= i < a.len() implies a[i] == b[i] by {
                    if i > 0 {
                        assert(a[i] == a.drop_first()[i - 1]);
                        assert(b[i] == b.drop_first()[i - 1]);
                    }
                }
            }
        }
        lemma_lex_total(a.drop_first(), b.drop_first());
    }
}

pub(crate) proof fn lemma_lex_asymmetric(a: Seq<char>, b: Seq<char>)
    ensures
        !(lex_lt(a, b) && lex_lt(b, a)),
    decreases a.len(),
{
    if a.len() > 0 && b.len() > 0 && a[0] == b[0] {
        lemma_lex_asymmetric(a.drop_first(), b.drop_first());
    }
}

proof fn lemma_lex_transitive(a: Seq<char>, b: Seq<char>, c: Seq<char>)
    requires
        lex_lt(a, b),
        lex_lt(b, c),
    ensures
        lex_lt(a, c),
    decreases a.len(),
{
    if a.len() > 0 && b.len() > 0 && c.len() > 0 && a[0] == b[0] && b[0] == c[0] {
        lemma_lex_transitive(a.drop_first(), b.drop_first(), c.drop_first());
    }
}

proof fn lemma_ranks_transitive(x: (Seq<char>, nat), y: (Seq<char>, nat), z: (Seq<char>, nat))
    requires
        ranks_before(x, y),
        ranks_before(y, z),
    ensures
        ranks_before(x, z),
{
    if x.1 == y.1 && y.1 == z.1 {
        lemma_lex_transitive(x.0, y.0, z.0);
    }
}

proof fn lemma_ranks_total(x: (Seq<char>, nat), y: (Seq<char>, nat))
    requires
        x.0 != y.0,
    ensures
        ranks_before(x, y) || ranks_before(y, x),
        !(ranks_before(x, y) && ranks_before(y, x)),
{
    lemma_lex_total(x.0, y.0);
    lemma_lex_asymmetric(x.0, y.0);
}

/// True if `a` sorts before `b`, character by character.
pub(crate) fn lex_less(a: &str, b: &str) -> (r: bool)
    ensures
        r == lex_lt(a@, b@),
{
    let n = a.unicode_len();
    let m = b.unicode_len();
    let mut i: usize = 0;
    proof {
        assert(a@.skip(0) =~= a@);
        assert(b@.skip(0) =~= b@);
    }
    while i < n && i < m
        invariant
            n == a@.len(),
            m == b@.len(),
            i <= n,
            i <= m,
            lex_lt(a@, b@) == lex_lt(a@.skip(i as int), b@.skip(i as int)),
        decreases n - i,
    {
        let x = a.get_char(i);
        let y = b.get_char(i);
        proof {
            assert(a@.skip(i as int)[0] == x);
            assert(b@.skip(i as int)[0] == y);
            assert(a@.skip(i as int).drop_first() =~= a@.skip(i + 1));
            assert(b@.skip(i as int).drop_first() =~= b@.skip(i + 1));
        }
        if x != y {
            return (x as u32) < (y as u32);
        }
        i = i + 1;
    }
    i == n && i < m
}

/// `b` upper-cased, as text.
pub(crate) fn upper_name_of(b: &[u8]) -> (r: String)
    ensures
        r@ == upper_name(b@),
{
    let mut out = String::new();
    let mut i: usize = 0;
    while i < b.len()
        invariant
            i <= b@.len(),
            out@ == upper_name(b@.take(i as int)),
        decreases b@.len() - i,
    {
        let c = crate::text::latin1(b[i]);
        let u = if 'a' <= c && c <= 'z' {
            let v = (c as u32) - 32;
            proof {
                assert(vstd::utf8::is_scalar(v));
            }
            match crate::text::char_from_u32(v) {
                Some(u) => u,
                None => c,
            }
        } else {
            c
        };
        crate::text::push_char(&mut out, u);
        proof {
            assert(out@ =~= upper_name(b@.take(i + 1)));
        }
        i = i + 1;
    }
    proof {
        assert(b@.take(i as int) =~= b@);
    }
    out
}

proof fn lemma_occurrences_absent(s: Seq<Seq<char>>, x: Seq<char>)
    requires
        !s.contains(x),
    ensures
        occurrences(s, x) == 0,
    decreases s.len(),
{
    if s.len() > 0 {
        assert(!s.drop_last().contains(x)) by {
            if s.drop_last().contains(x) {
                let i = choose|i: int| 0 <= i < s.drop_last().len() && s.drop_last()[i] == x;
                assert(s[i] == x);
            }
        }
        lemma_occurrences_absent(s.drop_last(), x);
    }
}

/// Distinct names with counts, as a tally is kept while counting.
pub open spec fn tally_ok(names: Seq<String>, counts: Seq<usize>, seen: Seq<Seq<char>>) -> bool {
    &&& names.len() == counts.len()
    &&& forall|i: int, j: int| 0 <= i < j < names.len() ==> (#[trigger] names[i])@ != (#[trigger] names[j])@
    &&& forall|i: int| 0 <= i < names.len() ==> #[trigger] counts[i] == occurrences(seen, names[i]@)
    &&& forall|x: Seq<char>| seen.contains(x) <==> exists|i: int| 0 <= i < names.len() && (#[trigger] names[i])@ == x
}

/// Counts one more occurrence of `name`.
fn tally(names: &mut Vec<String>, counts: &mut Vec<usize>, name: String, Ghost(seen): Ghost<Seq<Seq<char>>>)
    requires
        tally_ok(old(names)@, old(counts)@, seen),
        seen.len() < usize::MAX,
    ensures
        tally_ok(final(names)@, final(counts)@, seen.push(name@)),
{
    let ghost x = name@;
    let ghost after = seen.push(x);
    proof {
        assert(after.drop_last() =~= seen);
    }
    let mut i: usize = 0;
    while i < names.len()
        invariant
            tally_ok(names@, counts@, seen),
            seen.len() < usize::MAX,
            name@ == x,
            after == seen.push(x),
            after.drop_last() == seen,
            after.last() == x,
            i <= names@.len(),
            forall|j: int| 0 <= j < i ==> (#[trigger] names@[j])@ != x,
        decreases names@.len() - i,
    {
        if names[i] == name {
            proof {
                lemma_occurrences_bound(seen, x);
            }
            let ghost old_counts = counts@;
            let c = counts[i] + 1;
            counts.set(i, c);
            proof {
                assert forall|j: int| 0 <= j < names@.len() implies #[trigger] counts@[j] == occurrences(after, names@[j]@) by {
                    assert(occurrences(after, names@[j]@) == occurrences(seen, names@[j]@) + if x == names@[j]@ {
                        1nat
                    } else {
                        0nat
                    });
                    if j != i {
                        assert(counts@[j] == old_counts[j]);
                        assert(names@[j]@ != x) by {
                            if j < i {
                            } else {
                                assert(names@[i as int]@ != names@[j]@);
                            }
                        }
                    }
                }
                assert forall|y: Seq<char>| after.contains(y) <==> exists|j: int| 0 <= j < names@.len() && (#[trigger] names@[j])@ == y by {
                    if after.contains(y) && !seen.contains(y) {
                        let q = choose|q: int| 0 <= q < after.len() && after[q] == y;
                        assert(y == x);
                        assert(names@[i as int]@ == y);
                    }
                    if seen.contains(y) {
                        let q = choose|q: int| 0 <= q < seen.len() && seen[q] == y;
                        assert(after[q] == y);
                    }
                }
            }
            return;
        }
        i = i + 1;
    }
    proof {
        assert(!seen.contains(x));
        lemma_occurrences_absent(seen, x);
    }
    let ghost old_names = names@;
    let ghost old_counts = counts@;
    names.push(name);
    counts.push(1);
    proof {
        assert forall|j: int| 0 <= j < names@.len() implies #[trigger] counts@[j] == occurrences(after, names@[j]@) by {
            assert(occurrences(after, names@[j]@) == occurrences(seen, names@[j]@) + if x == names@[j]@ {
                1nat
            } else {
                0nat
            });
            if j < names@.len() - 1 {
                assert(names@[j] == old_names[j]);
                assert(counts@[j] == old_counts[j]);
                assert(names@[j]@ != x);
            }
        }
        assert forall|i: int, j: int| 0 <= i < j < names@.len() implies (#[trigger] names@[i])@ != (#[trigger] names@[j])@ by {
            assert(names@[i] == old_names[i]);
            if j < names@.len() - 1 {
                assert(names@[j] == old_names[j]);
            }
        }
        assert forall|y: Seq<char>| after.contains(y) implies exists|j: int| 0 <= j < names@.len() && (#[trigger] names@[j])@ == y by {
            let q = choose|q: int| 0 <= q < after.len() && after[q] == y;
            if q == after.len() - 1 {
                assert(names@[names@.len() - 1]@ == y);
            } else {
                assert(seen[q] == y);
                assert(seen.contains(y));
                let j = choose|j: int| 0 <= j < old_names.len() && (#[trigger] old_names[j])@ == y;
                assert(names@[j] == old_names[j]);
            }
        }
        assert forall|y: Seq<char>| (exists|j: int| 0 <= j < names@.len() && (#[trigger] names@[j])@ == y) implies after.contains(y) by {
            let j = choose|j: int| 0 <= j < names@.len() && (#[trigger] names@[j])@ == y;
            if j == names@.len() - 1 {
                assert(after[after.len() - 1] == y);
            } else {
                assert(names@[j] == old_names[j]);
                assert(exists|k: int| 0 <= k < old_names.len() && (#[trigger] old_names[k])@ == y);
                assert(seen.contains(y));
                let q = choose|q: int| 0 <= q < seen.len() && seen[q] == y;
                assert(after[q] == y);
            }
        }
    }
}

proof fn lemma_upto_mono(ex: Exchange, n: int, m: int)
    requires
        0 <= n <= m,
    ensures
        type_names_upto(ex, n).len() <= type_names_upto(ex, m).len(),
    decreases m,
{
    if n < m {
        lemma_upto_mono(ex, n, m - 1);
    }
}

/// The upper-cased record names of `exchange`, each with the number of
/// records that have it.
fn count_types(exchange: &Exchange) -> (r: (Vec<String>, Vec<usize>))
    requires
        exchange.wf(),
    ensures
        tally_ok(r.0@, r.1@, type_names(*exchange)),
{
    let ghost ex = *exchange;
    let ghost src = ex.src_view();
    let ghost total = ex.instances_view().len() as int;
    proof {
        lemma_record_count(ex);
    }
    let instances = exchange.instances();
    let mut names: Vec<String> = Vec::new();
    let mut counts: Vec<usize> = Vec::new();
    let mut n: usize = 0;
    proof {
        assert forall|x: Seq<char>| type_names_upto(ex, 0).contains(x) <==> exists|i: int|
            0 <= i < names@.len() && (#[trigger] names@[i])@ == x by {}
    }
    while n < instances.len()
        invariant
            ex == *exchange,
            ex.wf(),
            src == ex.src_view(),
            total == instances@.len(),
            instances@ == ex.instances_view(),
            n <= instances@.len(),
            type_names(ex).len() <= usize::MAX,
            tally_ok(names@, counts@, type_names_upto(ex, n as int)),
        decreases instances@.len() - n,
    {
        let records = exchange.records(&instances[n]).to_vec();
        let ghost recs = ex.records_view(instances@[n as int]);
        let ghost before = type_names_upto(ex, n as int);
        proof {
            lemma_upto_mono(ex, n + 1, total);
            assert(recs.take(0) =~= Seq::<(Token, Seq<Token>)>::empty());
            assert(before + names_of(src, recs.take(0)) =~= before);
        }
        let mut k: usize = 0;
        while k < records.len()
            invariant
                records_are(records@, src, recs),
                ex.wf(),
                k <= records@.len(),
                before + names_of(src, recs) == type_names_upto(ex, n + 1),
                type_names_upto(ex, n + 1).len() <= usize::MAX,
                tally_ok(names@, counts@, before + names_of(src, recs.take(k as int))),
            decreases records@.len() - k,
        {
            let name = upper_name_of(records[k].name());
            let ghost seen = before + names_of(src, recs.take(k as int));
            proof {
                assert(recs.take(k + 1).drop_last() =~= recs.take(k as int));
                assert(recs.take(k + 1).last() == recs[k as int]);
                assert(names_of(src, recs.take(k + 1)) == names_of(src, recs.take(k as int)).push(name@));
                assert(before + names_of(src, recs.take(k + 1)) =~= seen.push(name@));
                lemma_names_of_len(src, recs.take(k as int));
                lemma_names_of_len(src, recs);
            }
            tally(&mut names, &mut counts, name, Ghost(seen));
            k = k + 1;
        }
        proof {
            assert(recs.take(k as int) =~= recs);
        }
        n = n + 1;
    }
    (names, counts)
}

/// The name and count at `i`.
pub open spec fn entry(names: Seq<String>, counts: Seq<usize>, i: int) -> (Seq<char>, nat) {
    (names[i]@, counts[i] as nat)
}

/// True if `order` lists each of `0..m` once, ranked.
pub open spec fn ranked(order: Seq<usize>, names: Seq<String>, counts: Seq<usize>, m: int) -> bool {
    &&& order.len() == m
    &&& forall|j: int| 0 <= j < order.len() ==> #[trigger] order[j] < m
    &&& forall|i: usize| i < m ==> #[trigger] order.contains(i)
    &&& forall|a: int, b: int|
        0 <= a < b < order.len() ==> ranks_before(
            entry(names, counts, #[trigger] order[a] as int),
            entry(names, counts, #[trigger] order[b] as int),
        )
}

/// True if entry `a` ranks before entry `b`.
fn ranks_before_exec(names: &Vec<String>, counts: &Vec<usize>, a: usize, b: usize) -> (r: bool)
    requires
        a < names@.len(),
        b < names@.len(),
        names@.len() == counts@.len(),
    ensures
        r == ranks_before(entry(names@, counts@, a as int), entry(names@, counts@, b as int)),
{
    counts[a] > counts[b] || (counts[a] == counts[b] && lex_less(names[a].as_str(), names[b].as_str()))
}

/// The positions of the entries, most frequent first, then by name.
fn ranking(names: &Vec<String>, counts: &Vec<usize>) -> (order: Vec<usize>)
    requires
        names@.len() == counts@.len(),
        forall|i: int, j: int| 0 <= i < j < names@.len() ==> (#[trigger] names@[i])@ != (#[trigger] names@[j])@,
    ensures
        ranked(order@, names@, counts@, names@.len() as int),
{
    let mut order: Vec<usize> = Vec::new();
    let mut m: usize = 0;
    while m < names.len()
        invariant
            names@.len() == counts@.len(),
            forall|i: int, j: int| 0 <= i < j < names@.len() ==> (#[trigger] names@[i])@ != (#[trigger] names@[j])@,
            m <= names@.len(),
            ranked(order@, names@, counts@, m as int),
        decreases names@.len() - m,
    {
        let ghost em = entry(names@, counts@, m as int);
        let mut p: usize = order.len();
        while p > 0 && !ranks_before_exec(names, counts, order[p - 1], m)
            invariant
                names@.len() == counts@.len(),
                m < names@.len(),
                em == entry(names@, counts@, m as int),
                ranked(order@, names@, counts@, m as int),
                p <= order@.len(),
                forall|j: int| p <= j < order@.len() ==> !ranks_before(entry(names@, counts@, #[trigger] order@[j] as int), em),
            decreases p,
        {
            p = p - 1;
        }
        let ghost old_order = order@;
        proof {
            assert forall|j: int| p <= j < old_order.len() implies ranks_before(em, entry(names@, counts@, #[trigger] old_order[j] as int)) by {
                let o = old_order[j] as int;
                assert(o < m);
                assert(names@[o]@ != names@[m as int]@);
                lemma_ranks_total(em, entry(names@, counts@, o));
            }
        }
        order.insert(p, m);
        proof {
            let q = order@;
            assert(q == old_order.insert(p as int, m));
            assert forall|a: int, b: int| 0 <= a < b < q.len() implies ranks_before(
                entry(names@, counts@, #[trigger] q[a] as int),
                entry(names@, counts@, #[trigger] q[b] as int),
            ) by {
                if b < p {
                    assert(q[a] == old_order[a] && q[b] == old_order[b]);
                } else if b == p {
                    assert(q[a] == old_order[a]);
                    if a < p - 1 {
                        assert(ranks_before(entry(names@, counts@, old_order[a] as int), entry(names@, counts@, old_order[p - 1] as int)));
                        lemma_ranks_transitive(entry(names@, counts@, old_order[a] as int), entry(names@, counts@, old_order[p - 1] as int), em);
                    }
                } else if a == p {
                    assert(q[b] == old_order[b - 1]);
                } else if a < p {
                    assert(q[a] == old_order[a] && q[b] == old_order[b - 1]);
                } else {
                    assert(q[a] == old_order[a - 1] && q[b] == old_order[b - 1]);
                }
            }
            assert forall|i: usize| i < m + 1 implies #[trigger] q.contains(i) by {
                if i == m {
                    assert(q[p as int] == m);
                } else {
                    assert(old_order.contains(i));
                    let j = choose|j: int| 0 <= j < old_order.len() && old_order[j] == i;
                    if j < p {
                        assert(q[j] == i);
                    } else {
                        assert(q[j + 1] == i);
                    }
                }
            }
            assert forall|j: int| 0 <= j < q.len() implies #[trigger] q[j] < m + 1 by {
                if j < p {
                    assert(q[j] == old_order[j]);
                } else if j > p {
                    assert(q[j] == old_order[j - 1]);
                }
            }
        }
        m = m + 1;
    }
    order
}

/// The entity type counts in the order `order` gives.
fn listed(names: &Vec<String>, counts: &Vec<usize>, order: &Vec<usize>) -> (v: Vec<EntityCount>)
    requires
        names@.len() == counts@.len(),
        forall|j: int| 0 <= j < order@.len() ==> #[trigger] order@[j] < names@.len(),
    ensures
        count_views(v@) == order@.map_values(|i: usize| entry(names@, counts@, i as int)),
{
    let mut v: Vec<EntityCount> = Vec::new();
    let mut j: usize = 0;
    while j < order.len()
        invariant
            names@.len() == counts@.len(),
            forall|j: int| 0 <= j < order@.len() ==> #[trigger] order@[j] < names@.len(),
            j <= order@.len(),
            count_views(v@) == order@.take(j as int).map_values(|i: usize| entry(names@, counts@, i as int)),
        decreases order@.len() - j,
    {
        let i = order[j];
        let ghost before = v@;
        v.push(EntityCount { name: names[i].clone(), count: counts[i] });
        proof {
            assert(count_views(v@) =~= count_views(before).push(entry(names@, counts@, i as int)));
            assert(order@.take(j + 1).map_values(|i: usize| entry(names@, counts@, i as int)) =~= order@.take(
                j as int,
            ).map_values(|i: usize| entry(names@, counts@, i as int)).push(entry(names@, counts@, i as int)));
        }
        j = j + 1;
    }
    proof {
        assert(order@.take(j as int) =~= order@);
    }
    v
}

/// Record counts per entity type of `exchange`, most frequent first, then
/// by name.
fn entity_types(exchange: &Exchange) -> (v: Vec<EntityCount>)
    requires
        exchange.wf(),
    ensures
        tallies(count_views(v@), type_names(*exchange)),
{
    let ghost all = type_names(*exchange);
    let (names, counts) = count_types(exchange);
    let order = ranking(&names, &counts);
    let v = listed(&names, &counts, &order);
    proof {
        let cv = count_views(v@);
        assert(cv.len() == order@.len());
        assert forall|i: int| 0 <= i < cv.len() implies cv[i] == entry(names@, counts@, order@[i] as int) by {}
        assert forall|a: int, b: int| 0 <= a < b < cv.len() implies ranks_before(#[trigger] cv[a], #[trigger] cv[b]) by {
            assert(cv[a] == entry(names@, counts@, order@[a] as int));
            assert(cv[b] == entry(names@, counts@, order@[b] as int));
        }
        assert forall|i: int| 0 <= i < cv.len() implies (#[trigger] cv[i]).1 == occurrences(all, cv[i].0) by {
            assert(cv[i] == entry(names@, counts@, order@[i] as int));
            assert(counts@[order@[i] as int] == occurrences(all, names@[order@[i] as int]@));
        }
        assert forall|x: Seq<char>| all.contains(x) implies exists|i: int| 0 <= i < cv.len() && (#[trigger] cv[i]).0 == x by {
            let i = choose|i: int| 0 <= i < names@.len() && (#[trigger] names@[i])@ == x;
            let iu = i as usize;
            assert(order@.contains(iu));
            let j = choose|j: int| 0 <= j < order@.len() && order@[j] == iu;
            assert(cv[j] == entry(names@, counts@, i));
        }
        assert forall|x: Seq<char>| (exists|i: int| 0 <= i < cv.len() && (#[trigger] cv[i]).0 == x) implies all.contains(x) by {
            let j = choose|j: int| 0 <= j < cv.len() && (#[trigger] cv[j]).0 == x;
            assert(cv[j] == entry(names@, counts@, order@[j] as int));
            let i = order@[j] as int;
            assert(names@[i]@ == x);
        }
    }
    v
}

/// The number of records named `name` (upper case).
fn count_named(names: &Vec<String>, counts: &Vec<usize>, name: &str, Ghost(all): Ghost<Seq<Seq<char>>>) -> (c: usize)
    requires
        tally_ok(names@, counts@, all),
    ensures
        c == occurrences(all, name@),
{
    let key = crate::text::owned(name);
    let mut i: usize = 0;
    while i < names.len()
        invariant
            tally_ok(names@, counts@, all),
            key@ == name@,
            i <= names@.len(),
            forall|j: int| 0 <= j < i ==> (#[trigger] names@[j])@ != name@,
        decreases names@.len() - i,
    {
        if names[i] == key {
            return counts[i];
        }
        i = i + 1;
    }
    proof {
        lemma_occurrences_absent(all, name@);
    }
    0
}

/// The number of complex instances among the first `n` of `ins`.
pub open spec fn complex_upto(ins: Seq<Instance>, n: int) -> nat
    decreases n,
{
    if n <= 0 {
        0
    } else {
        complex_upto(ins, n - 1) + if ins[n - 1].complex {
            1nat
        } else {
            0nat
        }
    }
}

/// True if `info` summarises the file behind `graph`, as [`Info::new`]
/// reads it.
pub open spec fn summarizes(info: Info, graph: Graph) -> bool {
    let ex = graph.exchange_view();
    let n = ex.instances_view().len() as int;
    &&& info.bytes == ex.src_view().len()
    &&& reads_header(info.header, ex)
    &&& info.sections == ex.sections_view().len()
    &&& info.instances == n
    &&& info.complex_instances == complex_upto(ex.instances_view(), n)
    &&& info.products == occurrences(type_names(ex), "PRODUCT"@)
    &&& info.assembly_usages == occurrences(type_names(ex), "NEXT_ASSEMBLY_USAGE_OCCURRENCE"@)
    &&& info.unresolved_references == dangling(ex).len()
    &&& reads_units(info.units, ex)
    &&& tallies(count_views(info.entity_types@), type_names(ex))
}

impl Info {
    /// Summarises the file behind `graph`.
    ///
    /// Build the graph with [`Graph::build`] to summarise files that have
    /// dangling references; they are counted, not fatal.
    pub fn new(graph: &Graph) -> (info: Info)
        requires
            graph.wf(),
        ensures
            summarizes(info, *graph),
    {
        let exchange = graph.exchange();
        let ghost ex = *exchange;
        let instances = exchange.instances();
        let mut complex_instances: usize = 0;
        let mut n: usize = 0;
        while n < instances.len()
            invariant
                instances@ == ex.instances_view(),
                n <= instances@.len(),
                complex_instances == complex_upto(ex.instances_view(), n as int),
                complex_instances <= n,
            decreases instances@.len() - n,
        {
            if instances[n].is_complex() {
                complex_instances = complex_instances + 1;
            }
            n = n + 1;
        }
        let (names, counts) = count_types(exchange);
        let products = count_named(&names, &counts, "PRODUCT", Ghost(type_names(ex)));
        let assembly_usages = count_named(&names, &counts, "NEXT_ASSEMBLY_USAGE_OCCURRENCE", Ghost(type_names(ex)));
        Info {
            bytes: exchange.source().len(),
            header: read_header(exchange),
            sections: exchange.sections().len(),
            instances: instances.len(),
            complex_instances,
            products,
            assembly_usages,
            unresolved_references: graph.unresolved().len(),
            units: read_units(exchange),
            entity_types: entity_types(exchange),
        }
    }
}


/// True if `s` holds no ASCII lower-case letter.
pub open spec fn no_lower(s: Seq<char>) -> bool {
    forall|j: int| 0 <= j < s.len() ==> !('a' <= #[trigger] s[j] <= 'z')
}

proof fn lemma_upper_name(b: Seq<u8>)
    ensures
        no_lower(upper_name(b)),
{
    assert forall|j: int| 0 <= j < upper_name(b).len() implies !('a' <= #[trigger] upper_name(b)[j] <= 'z') by {
        let c = b[j] as char;
        if 'a' <= c <= 'z' {
            assert((c as u32) - 32 < 'a' as u32);
        }
    }
}

proof fn lemma_names_of_upper(src: Seq<u8>, recs: Seq<(Token, Seq<Token>)>)
    ensures
        forall|i: int| 0 <= i < names_of(src, recs).len() ==> no_lower(#[trigger] names_of(src, recs)[i]),
    decreases recs.len(),
{
    if recs.len() > 0 {
        lemma_names_of_upper(src, recs.drop_last());
        lemma_upper_name(recs.last().0.span.of(src));
        assert forall|i: int| 0 <= i < names_of(src, recs).len() implies no_lower(#[trigger] names_of(src, recs)[i]) by {
            if i < names_of(src, recs.drop_last()).len() {
                assert(names_of(src, recs)[i] == names_of(src, recs.drop_last())[i]);
            }
        }
    }
}

proof fn lemma_type_names_upper(ex: Exchange, n: int)
    ensures
        forall|i: int| 0 <= i < type_names_upto(ex, n).len() ==> no_lower(#[trigger] type_names_upto(ex, n)[i]),
    decreases n,
{
    if n > 0 {
        lemma_type_names_upper(ex, n - 1);
        let a = type_names_upto(ex, n - 1);
        let b = names_of(ex.src_view(), ex.records_view(ex.instances_view()[n - 1]));
        lemma_names_of_upper(ex.src_view(), ex.records_view(ex.instances_view()[n - 1]));
        assert forall|i: int| 0 <= i < type_names_upto(ex, n).len() implies no_lower(#[trigger] type_names_upto(ex, n)[i]) by {
            if i < a.len() {
                assert(type_names_upto(ex, n)[i] == a[i]);
            } else {
                assert(type_names_upto(ex, n)[i] == b[i - a.len()]);
            }
        }
    }
}

/// The entity types of a summary are listed most frequent first, then by
/// name, each name once.
pub proof fn lemma_entity_types_ranked(info: Info, graph: Graph)
    requires
        summarizes(info, graph),
    ensures
        forall|i: int, j: int|
            0 <= i < j < info.entity_types@.len() ==> (#[trigger] info.entity_types@[i]).count > (
            #[trigger] info.entity_types@[j]).count || (info.entity_types@[i].count == info.entity_types@[j].count
                && lex_lt(info.entity_types@[i].name@, info.entity_types@[j].name@)),
        forall|i: int, j: int|
            0 <= i < j < info.entity_types@.len() ==> (#[trigger] info.entity_types@[i]).name@ != (
            #[trigger] info.entity_types@[j]).name@,
{
    let v = count_views(info.entity_types@);
    assert forall|i: int, j: int| 0 <= i < j < info.entity_types@.len() implies ((
    #[trigger] info.entity_types@[i]).count > (#[trigger] info.entity_types@[j]).count || (
    info.entity_types@[i].count == info.entity_types@[j].count && lex_lt(
        info.entity_types@[i].name@,
        info.entity_types@[j].name@,
    ))) && info.entity_types@[i].name@ != info.entity_types@[j].name@ by {
        assert(ranks_before(v[i], v[j]));
        lemma_lex_irreflexive(v[i].0);
        assert(v[i].1 == occurrences(type_names(graph.exchange_view()), v[i].0));
        assert(v[j].1 == occurrences(type_names(graph.exchange_view()), v[j].0));
    }
}

/// Entity type names are counted upper-cased: no name in a tally of a
/// file's records holds a lower-case letter.
pub proof fn lemma_entity_types_are_upper_case(v: Seq<(Seq<char>, nat)>, ex: Exchange)
    requires
        tallies(v, type_names(ex)),
    ensures
        forall|i: int| 0 <= i < v.len() ==> no_lower(#[trigger] v[i].0),
{
    lemma_type_names_upper(ex, ex.instances_view().len() as int);
    assert forall|i: int| 0 <= i < v.len() implies no_lower(#[trigger] v[i].0) by {
        let names = type_names(ex);
        let x = v[i].0;
        assert(0 <= i < v.len() && v[i].0 == x);
        assert(names.contains(x));
        let m = choose|m: int| 0 <= m < names.len() && names[m] == v[i].0;
        assert(no_lower(names[m]));
    }
}


/// The counts of `v` added up.
pub open spec fn count_sum(v: Seq<(Seq<char>, nat)>) -> nat
    decreases v.len(),
{
    if v.len() == 0 {
        0
    } else {
        count_sum(v.drop_last()) + v.last().1
    }
}

/// How often each of `ks` occurs in `names`, added up.
spec fn occ_sum(names: Seq<Seq<char>>, ks: Seq<Seq<char>>) -> nat
    decreases ks.len(),
{
    if ks.len() == 0 {
        0
    } else {
        occ_sum(names, ks.drop_last()) + occurrences(names, ks.last())
    }
}

/// How many of `ks` are `y`.
spec fn key_count(ks: Seq<Seq<char>>, y: Seq<char>) -> nat
    decreases ks.len(),
{
    if ks.len() == 0 {
        0
    } else {
        key_count(ks.drop_last(), y) + if ks.last() == y {
            1nat
        } else {
            0nat
        }
    }
}

pub(crate) proof fn lemma_lex_irreflexive(a: Seq<char>)
    ensures
        !lex_lt(a, a),
    decreases a.len(),
{
    if a.len() > 0 {
        lemma_lex_irreflexive(a.drop_first());
    }
}

proof fn lemma_occ_sum_push(names: Seq<Seq<char>>, y: Seq<char>, ks: Seq<Seq<char>>)
    ensures
        occ_sum(names.push(y), ks) == occ_sum(names, ks) + key_count(ks, y),
    decreases ks.len(),
{
    if ks.len() > 0 {
        lemma_occ_sum_push(names, y, ks.drop_last());
        assert(names.push(y).drop_last() =~= names);
    }
}

proof fn lemma_occ_sum_remove(names: Seq<Seq<char>>, ks: Seq<Seq<char>>, p: int)
    requires
        0 <= p < ks.len(),
    ensures
        occ_sum(names, ks) == occ_sum(names, ks.remove(p)) + occurrences(names, ks[p]),
    decreases ks.len(),
{
    if p == ks.len() - 1 {
        assert(ks.remove(p) =~= ks.drop_last());
    } else {
        lemma_occ_sum_remove(names, ks.drop_last(), p);
        assert(ks.remove(p).drop_last() =~= ks.drop_last().remove(p));
        assert(ks.remove(p).last() == ks.last());
    }
}

proof fn lemma_key_count(ks: Seq<Seq<char>>, y: Seq<char>)
    requires
        ks.no_duplicates(),
    ensures
        ks.contains(y) ==> key_count(ks, y) == 1,
        !ks.contains(y) ==> key_count(ks, y) == 0,
    decreases ks.len(),
{
    if ks.len() > 0 {
        let r = ks.drop_last();
        assert(r.no_duplicates());
        lemma_key_count(r, y);
        if ks.last() == y {
            assert(!r.contains(y)) by {
                if r.contains(y) {
                    let m = choose|m: int| 0 <= m < r.len() && r[m] == y;
                    assert(ks[m] == ks[ks.len() - 1]);
                }
            }
        } else {
            if ks.contains(y) {
                let m = choose|m: int| 0 <= m < ks.len() && ks[m] == y;
                assert(r[m] == y);
            }
            if r.contains(y) {
                let m = choose|m: int| 0 <= m < r.len() && r[m] == y;
                assert(ks[m] == y);
            }
        }
    }
}

/// Distinct keys covering exactly the names count each name once.
proof fn lemma_occ_sum_all(names: Seq<Seq<char>>, ks: Seq<Seq<char>>)
    requires
        ks.no_duplicates(),
        forall|x: Seq<char>| names.contains(x) <==> ks.contains(x),
    ensures
        occ_sum(names, ks) == names.len(),
    decreases names.len(),
{
    if names.len() == 0 {
        lemma_occ_sum_zero(names, ks);
    } else {
        let n1 = names.drop_last();
        let y = names.last();
        assert(n1.push(y) =~= names);
        assert(names.contains(y)) by {
            assert(names[names.len() - 1] == y);
        }
        lemma_occ_sum_push(n1, y, ks);
        lemma_key_count(ks, y);
        if n1.contains(y) {
            assert forall|x: Seq<char>| n1.contains(x) <==> ks.contains(x) by {
                if names.contains(x) && !n1.contains(x) {
                    let m = choose|m: int| 0 <= m < names.len() && names[m] == x;
                    if m < n1.len() {
                        assert(n1[m] == x);
                    }
                }
                if n1.contains(x) {
                    let m = choose|m: int| 0 <= m < n1.len() && n1[m] == x;
                    assert(names[m] == x);
                }
            }
            lemma_occ_sum_all(n1, ks);
        } else {
            let p = choose|p: int| 0 <= p < ks.len() && ks[p] == y;
            let k2 = ks.remove(p);
            lemma_occ_sum_remove(n1, ks, p);
            lemma_occurrences_absent(n1, y);
            assert(k2.no_duplicates()) by {
                assert forall|a: int, b: int| 0 <= a < k2.len() && 0 <= b < k2.len() && a != b implies k2[a] != k2[b] by {
                    let a2 = if a < p { a } else { a + 1 };
                    let b2 = if b < p { b } else { b + 1 };
                    assert(k2[a] == ks[a2]);
                    assert(k2[b] == ks[b2]);
                }
            }
            assert forall|x: Seq<char>| n1.contains(x) <==> k2.contains(x) by {
                if n1.contains(x) {
                    let m = choose|m: int| 0 <= m < n1.len() && n1[m] == x;
                    assert(names[m] == x);
                    assert(ks.contains(x));
                    let q = choose|q: int| 0 <= q < ks.len() && ks[q] == x;
                    assert(x != y);
                    assert(q != p);
                    let q2 = if q < p { q } else { q - 1 };
                    assert(k2[q2] == x);
                }
                if k2.contains(x) {
                    let q = choose|q: int| 0 <= q < k2.len() && k2[q] == x;
                    let q2 = if q < p { q } else { q + 1 };
                    assert(ks[q2] == x);
                    assert(q2 != p);
                    assert(x != y);
                    assert(names.contains(x));
                    let m = choose|m: int| 0 <= m < names.len() && names[m] == x;
                    assert(m != names.len() - 1);
                    assert(n1[m] == x);
                }
            }
            lemma_occ_sum_all(n1, k2);
        }
    }
}

proof fn lemma_occ_sum_zero(names: Seq<Seq<char>>, ks: Seq<Seq<char>>)
    requires
        names.len() == 0,
    ensures
        occ_sum(names, ks) == 0,
    decreases ks.len(),
{
    if ks.len() > 0 {
        lemma_occ_sum_zero(names, ks.drop_last());
    }
}

proof fn lemma_count_sum(v: Seq<(Seq<char>, nat)>, names: Seq<Seq<char>>)
    requires
        forall|i: int| 0 <= i < v.len() ==> (#[trigger] v[i]).1 == occurrences(names, v[i].0),
    ensures
        count_sum(v) == occ_sum(names, v.map_values(|e: (Seq<char>, nat)| e.0)),
    decreases v.len(),
{
    if v.len() > 0 {
        lemma_count_sum(v.drop_last(), names);
        assert(v.map_values(|e: (Seq<char>, nat)| e.0).drop_last() =~= v.drop_last().map_values(
            |e: (Seq<char>, nat)| e.0,
        ));
    }
}

/// The entity type counts of a file add up to its number of records: each
/// record is counted once, under its own type.
pub proof fn lemma_entity_counts_add_up(v: Seq<(Seq<char>, nat)>, ex: Exchange)
    requires
        tallies(v, type_names(ex)),
    ensures
        count_sum(v) == type_names(ex).len(),
{
    let names = type_names(ex);
    let ks = v.map_values(|e: (Seq<char>, nat)| e.0);
    lemma_count_sum(v, names);
    assert(ks.no_duplicates()) by {
        assert forall|a: int, b: int| 0 <= a < ks.len() && 0 <= b < ks.len() && a != b implies ks[a] != ks[b] by {
            let (i, j) = if a < b { (a, b) } else { (b, a) };
            assert(ranks_before(v[i], v[j]));
            if v[i].0 == v[j].0 {
                lemma_lex_irreflexive(v[i].0);
            }
        }
    }
    assert forall|x: Seq<char>| names.contains(x) <==> ks.contains(x) by {
        if names.contains(x) {
            let i = choose|i: int| 0 <= i < v.len() && (#[trigger] v[i]).0 == x;
            assert(ks[i] == x);
        }
        if ks.contains(x) {
            let i = choose|i: int| 0 <= i < ks.len() && ks[i] == x;
            assert(v[i].0 == x);
        }
    }
    lemma_occ_sum_all(names, ks);
}

} // verus!
