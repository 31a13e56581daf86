//! Text that `stepq` prints: the table of `stepq info`, with a summary of
//! the header and counts and then the entity types, most frequent first;
//! product labels; and CSV fields.
use vstd::prelude::*;
use vstd::string::*;

use crate::info::{option_view, string_views, EntityCount, Info, Units};
use crate::model::assembly::{Definition, DefinitionView};
use crate::text::{decimal, decimal_string, digit_char, latin1, push_char};

verus! {

/// `n` spaces.
pub open spec fn spaces(n: nat) -> Seq<char> {
    Seq::new(n, |i: int| ' ')
}

/// `s` padded with spaces on the right to `width` characters.
pub open spec fn left_aligned(s: Seq<char>, width: nat) -> Seq<char> {
    if s.len() < width {
        s + spaces((width - s.len()) as nat)
    } else {
        s
    }
}

/// `s` padded with spaces on the left to `width` characters.
pub open spec fn right_aligned(s: Seq<char>, width: nat) -> Seq<char> {
    if s.len() < width {
        spaces((width - s.len()) as nat) + s
    } else {
        s
    }
}

/// The three decimal digits of `n < 1000`, with leading zeros.
pub open spec fn three_digits(n: nat) -> Seq<char> {
    seq![digit_char(n / 100), digit_char(n / 10 % 10), digit_char(n % 10)]
}

/// `n` in decimal with a comma between groups of three digits, counted
/// from the right: `1,234,567`.
pub open spec fn grouped_text(n: nat) -> Seq<char>
    decreases n,
{
    if n < 1000 {
        decimal(n)
    } else {
        grouped_text(n / 1000) + seq![','] + three_digits(n % 1000)
    }
}

/// `parts` with `sep` between each two.
pub open spec fn separated(parts: Seq<Seq<char>>, sep: Seq<char>) -> Seq<char>
    decreases parts.len(),
{
    if parts.len() == 0 {
        Seq::empty()
    } else if parts.len() == 1 {
        parts[0]
    } else {
        separated(parts.drop_last(), sep) + sep + parts.last()
    }
}

/// The text of `o`, or nothing.
pub open spec fn text_or_empty(o: Option<Seq<char>>) -> Seq<char> {
    match o {
        Some(s) => s,
        None => Seq::empty(),
    }
}

/// One summary line: the label padded to twenty characters, two spaces and
/// the value. A line with an empty value is left out.
pub open spec fn row_text(label: Seq<char>, value: Seq<char>) -> Seq<char> {
    if value.len() == 0 {
        Seq::empty()
    } else {
        left_aligned(label, 20) + "  "@ + value + "\n"@
    }
}

/// `kind` followed by the unit names, or nothing where there are none.
pub open spec fn unit_entry(kind: Seq<char>, names: Seq<Seq<char>>) -> Seq<Seq<char>> {
    if names.len() == 0 {
        Seq::empty()
    } else {
        seq![kind + " "@ + separated(names, ", "@)]
    }
}

/// The units line's value: `length millimetre; plane angle degree`.
pub open spec fn units_text(u: Units) -> Seq<char> {
    separated(
        unit_entry("length"@, string_views(u.length@)) + unit_entry("plane angle"@, string_views(u.plane_angle@))
            + unit_entry("solid angle"@, string_views(u.solid_angle@)),
        "; "@,
    )
}

/// The instances line's value: `1,204 (3 complex) in 1 data section`.
pub open spec fn instances_text(info: Info) -> Seq<char> {
    grouped_text(info.instances as nat) + " ("@ + grouped_text(info.complex_instances as nat) + " complex) in "@
        + decimal(info.sections as nat) + " data "@ + if info.sections == 1 {
        "section"@
    } else {
        "sections"@
    }
}

/// The products line's value: `12 (9 assembly usages)`.
pub open spec fn products_text(info: Info) -> Seq<char> {
    grouped_text(info.products as nat) + " ("@ + if info.assembly_usages == 0 {
        "no assembly structure"@
    } else {
        grouped_text(info.assembly_usages as nat) + " assembly usages"@
    } + ")"@
}

/// The warning line, where some references go nowhere.
pub open spec fn warning_text(info: Info) -> Seq<char> {
    if info.unresolved_references > 0 {
        row_text("Warning"@, grouped_text(info.unresolved_references as nat) + " references to undefined instances"@)
    } else {
        Seq::empty()
    }
}

/// The summary lines naming the file, its schema and its authors.
#[verifier::opaque]
pub open spec fn identity_text(name: Seq<char>, info: Info) -> Seq<char> {
    let h = info.header;
    row_text("File"@, name + " ("@ + grouped_text(info.bytes as nat) + " bytes)"@) + row_text(
        "Schema"@,
        separated(string_views(h.schemas@), ", "@),
    ) + row_text("Name"@, text_or_empty(option_view(h.name))) + row_text(
        "Time stamp"@,
        text_or_empty(option_view(h.time_stamp)),
    ) + row_text("Author"@, separated(string_views(h.author@), ", "@)) + row_text(
        "Organization"@,
        separated(string_views(h.organization@), ", "@),
    )
}

/// The summary lines on where the file comes from.
#[verifier::opaque]
pub open spec fn origin_text(info: Info) -> Seq<char> {
    let h = info.header;
    row_text("Originating system"@, text_or_empty(option_view(h.originating_system))) + row_text(
        "Preprocessor"@,
        text_or_empty(option_view(h.preprocessor_version)),
    ) + row_text("Authorization"@, text_or_empty(option_view(h.authorization))) + row_text(
        "Description"@,
        separated(string_views(h.description@), "; "@),
    ) + row_text("Implementation level"@, text_or_empty(option_view(h.implementation_level)))
}

/// The summary lines on what the file holds.
#[verifier::opaque]
pub open spec fn figures_text(info: Info) -> Seq<char> {
    row_text("Units"@, units_text(info.units)) + row_text("Instances"@, instances_text(info)) + row_text(
        "Products"@,
        products_text(info),
    ) + warning_text(info)
}

/// The summary lines of `info` for the file called `name`.
pub open spec fn summary_text(name: Seq<char>, info: Info) -> Seq<char> {
    identity_text(name, info) + origin_text(info) + figures_text(info)
}

/// One line per entity type: the count right-aligned to ten characters,
/// two spaces and the name.
pub open spec fn count_rows(counts: Seq<EntityCount>) -> Seq<char>
    decreases counts.len(),
{
    if counts.len() == 0 {
        Seq::empty()
    } else {
        count_rows(counts.drop_last()) + right_aligned(grouped_text(counts.last().count as nat), 10) + "  "@
            + counts.last().name@ + "\n"@
    }
}

/// How many of `len` entity types a table lists: `top` of them, or all
/// where `top` is zero.
pub open spec fn shown_count(len: nat, top: nat) -> nat {
    if top == 0 || top > len {
        len
    } else {
        top
    }
}

/// The entity type lines: a heading with their number, the `top` most
/// frequent (all where `top` is zero), and how many more there are.
pub open spec fn entity_lines_text(info: Info, top: nat) -> Seq<char> {
    let n = info.entity_types@.len();
    let shown = shown_count(n, top);
    let hidden = (n - shown) as nat;
    "Entity types ("@ + decimal(n) + ")\n"@ + count_rows(info.entity_types@.take(shown as int)) + if hidden > 0 {
        spaces(10) + "  … "@ + decimal(hidden) + " more (--top 0 lists all)\n"@
    } else {
        Seq::empty()
    }
}

/// The table of `info` for the file called `name`: the summary lines, an
/// empty line and the entity type lines.
pub open spec fn info_table_text(name: Seq<char>, info: Info, top: nat) -> Seq<char> {
    summary_text(name, info) + "\n"@ + entity_lines_text(info, top)
}

/// `n` with its digits grouped by three: `1,234,567`.
pub fn grouped(n: usize) -> (s: String)
    ensures
        s@ == grouped_text(n as nat),
    decreases n,
{
    if n < 1000 {
        return decimal_string(n as u64);
    }
    let mut s = grouped(n / 1000);
    push_char(&mut s, ',');
    let m = n % 1000;
    push_char(&mut s, latin1((48 + m / 100) as u8));
    push_char(&mut s, latin1((48 + m / 10 % 10) as u8));
    push_char(&mut s, latin1((48 + m % 10) as u8));
    proof {
        assert(s@ =~= grouped_text((n / 1000) as nat) + seq![','] + three_digits(m as nat));
    }
    s
}

/// Appends `n` spaces to `out`.
fn push_spaces(out: &mut String, n: usize)
    ensures
        final(out)@ == old(out)@ + spaces(n as nat),
{
    let mut k: usize = 0;
    while k < n
        invariant
            k <= n,
            out@ == old(out)@ + spaces(k as nat),
        decreases n - k,
    {
        push_char(out, ' ');
        k = k + 1;
        proof {
            assert(out@ =~= old(out)@ + spaces(k as nat));
        }
    }
}

/// Appends the summary line for `label` and `value` to `out`.
fn push_row(out: &mut String, label: &str, value: &str)
    ensures
        final(out)@ == old(out)@ + row_text(label@, value@),
{
    if value.is_empty() {
        proof {
            assert(old(out)@ + row_text(label@, value@) =~= old(out)@);
        }
        return;
    }
    out.append(label);
    let n = label.unicode_len();
    if n < 20 {
        push_spaces(out, 20 - n);
    }
    out.append("  ");
    out.append(value);
    out.append("\n");
    proof {
        assert(out@ =~= old(out)@ + row_text(label@, value@));
    }
}

/// `parts` with `sep` between each two.
pub(crate) fn join(parts: &Vec<String>, sep: &str) -> (r: String)
    ensures
        r@ == separated(string_views(parts@), sep@),
{
    let mut r = String::new();
    let mut k: usize = 0;
    while k < parts.len()
        invariant
            k <= parts@.len(),
            r@ == separated(string_views(parts@.take(k as int)), sep@),
        decreases parts@.len() - k,
    {
        if k > 0 {
            r.append(sep);
        }
        r.append(parts[k].as_str());
        proof {
            let v = string_views(parts@.take(k + 1));
            assert(v.drop_last() =~= string_views(parts@.take(k as int)));
            assert(v.last() == parts@[k as int]@);
            if k == 0 {
                assert(v =~= seq![parts@[0]@]);
            }
        }
        k = k + 1;
    }
    proof {
        assert(parts@.take(k as int) =~= parts@);
    }
    r
}

/// The text of `o`, or an empty string.
fn text_or_empty_string(o: &Option<String>) -> (r: String)
    ensures
        r@ == text_or_empty(option_view(*o)),
{
    match o {
        Some(s) => s.clone(),
        None => String::new(),
    }
}

/// Adds the units entry for `kind` to `entries`.
fn push_unit_entry(entries: &mut Vec<String>, kind: &str, names: &Vec<String>)
    ensures
        string_views(final(entries)@) == string_views(old(entries)@) + unit_entry(kind@, string_views(names@)),
{
    if names.len() == 0 {
        proof {
            assert(string_views(names@).len() == 0);
            assert(string_views(old(entries)@) + unit_entry(kind@, string_views(names@)) =~= string_views(old(entries)@));
        }
        return;
    }
    let mut entry = String::new();
    entry.append(kind);
    entry.append(" ");
    let listed = join(names, ", ");
    entry.append(listed.as_str());
    let ghost before = entries@;
    entries.push(entry);
    proof {
        assert(string_views(entries@) =~= string_views(before) + unit_entry(kind@, string_views(names@)));
    }
}

/// The units line's value.
fn units_string(u: &Units) -> (r: String)
    ensures
        r@ == units_text(*u),
{
    let mut entries: Vec<String> = Vec::new();
    proof {
        assert(string_views(entries@) =~= Seq::empty());
    }
    push_unit_entry(&mut entries, "length", &u.length);
    push_unit_entry(&mut entries, "plane angle", &u.plane_angle);
    push_unit_entry(&mut entries, "solid angle", &u.solid_angle);
    proof {
        assert(string_views(entries@) =~= unit_entry("length"@, string_views(u.length@)) + unit_entry(
            "plane angle"@,
            string_views(u.plane_angle@),
        ) + unit_entry("solid angle"@, string_views(u.solid_angle@)));
    }
    join(&entries, "; ")
}

/// The instances line's value.
fn instances_string(info: &Info) -> (r: String)
    ensures
        r@ == instances_text(*info),
{
    let mut r = grouped(info.instances);
    r.append(" (");
    r.append(grouped(info.complex_instances).as_str());
    r.append(" complex) in ");
    r.append(decimal_string(info.sections as u64).as_str());
    r.append(" data ");
    if info.sections == 1 {
        r.append("section");
    } else {
        r.append("sections");
    }
    proof {
        assert(r@ =~= instances_text(*info));
    }
    r
}

/// The products line's value.
fn products_string(info: &Info) -> (r: String)
    ensures
        r@ == products_text(*info),
{
    let mut r = grouped(info.products);
    r.append(" (");
    if info.assembly_usages == 0 {
        r.append("no assembly structure");
    } else {
        r.append(grouped(info.assembly_usages).as_str());
        r.append(" assembly usages");
    }
    r.append(")");
    proof {
        assert(r@ =~= products_text(*info));
    }
    r
}

/// Appends the summary lines naming the file, its schema and its authors.
fn push_identity(out: &mut String, name: &str, info: &Info)
    ensures
        final(out)@ == old(out)@ + identity_text(name@, *info),
{
    reveal(identity_text);
    let h = &info.header;
    let mut file = String::new();
    file.append(name);
    file.append(" (");
    file.append(grouped(info.bytes).as_str());
    file.append(" bytes)");
    push_row(out, "File", file.as_str());
    push_row(out, "Schema", join(&h.schemas, ", ").as_str());
    push_row(out, "Name", text_or_empty_string(&h.name).as_str());
    push_row(out, "Time stamp", text_or_empty_string(&h.time_stamp).as_str());
    push_row(out, "Author", join(&h.author, ", ").as_str());
    push_row(out, "Organization", join(&h.organization, ", ").as_str());
    proof {
        assert(out@ =~= old(out)@ + identity_text(name@, *info));
    }
}

/// Appends the summary lines on where the file comes from.
fn push_origin(out: &mut String, info: &Info)
    ensures
        final(out)@ == old(out)@ + origin_text(*info),
{
    reveal(origin_text);
    let h = &info.header;
    push_row(out, "Originating system", text_or_empty_string(&h.originating_system).as_str());
    push_row(out, "Preprocessor", text_or_empty_string(&h.preprocessor_version).as_str());
    push_row(out, "Authorization", text_or_empty_string(&h.authorization).as_str());
    push_row(out, "Description", join(&h.description, "; ").as_str());
    push_row(out, "Implementation level", text_or_empty_string(&h.implementation_level).as_str());
    proof {
        assert(out@ =~= old(out)@ + origin_text(*info));
    }
}

/// Appends the summary lines on what the file holds.
fn push_figures(out: &mut String, info: &Info)
    ensures
        final(out)@ == old(out)@ + figures_text(*info),
{
    reveal(figures_text);
    push_row(out, "Units", units_string(&info.units).as_str());
    push_row(out, "Instances", instances_string(info).as_str());
    push_row(out, "Products", products_string(info).as_str());
    let ghost before = out@;
    if info.unresolved_references > 0 {
        let mut warning = grouped(info.unresolved_references);
        warning.append(" references to undefined instances");
        push_row(out, "Warning", warning.as_str());
    }
    proof {
        assert(out@ =~= before + warning_text(*info));
        assert(out@ =~= old(out)@ + figures_text(*info));
    }
}

/// The table `stepq info` prints for `info`, read from the file called
/// `name`: the summary lines, then the `top` most frequent entity types
/// (all of them where `top` is zero) and how many more there are.
pub fn info_table(name: &str, info: &Info, top: usize) -> (t: String)
    ensures
        t@ == info_table_text(name@, *info, top as nat),
{
    let mut out = String::new();
    push_identity(&mut out, name, info);
    push_origin(&mut out, info);
    push_figures(&mut out, info);
    out.append("\n");
    push_entity_lines(&mut out, info, top);
    proof {
        assert(out@ =~= info_table_text(name@, *info, top as nat));
    }
    out
}

/// Appends the entity type lines.
fn push_entity_lines(out: &mut String, info: &Info, top: usize)
    ensures
        final(out)@ == old(out)@ + entity_lines_text(*info, top as nat),
{
    out.append("Entity types (");
    let n = info.entity_types.len();
    out.append(decimal_string(n as u64).as_str());
    out.append(")\n");
    let shown = if top == 0 || top > n {
        n
    } else {
        top
    };
    let ghost head = out@;
    let mut k: usize = 0;
    while k < shown
        invariant
            k <= shown <= n,
            n == info.entity_types@.len(),
            out@ == head + count_rows(info.entity_types@.take(k as int)),
        decreases shown - k,
    {
        let entity = &info.entity_types[k];
        let count = grouped(entity.count);
        let width = count.as_str().unicode_len();
        if width < 10 {
            push_spaces(out, 10 - width);
        }
        out.append(count.as_str());
        out.append("  ");
        out.append(entity.name.as_str());
        out.append("\n");
        proof {
            let rows = info.entity_types@.take(k + 1);
            assert(rows.drop_last() =~= info.entity_types@.take(k as int));
            assert(out@ =~= head + count_rows(rows));
        }
        k = k + 1;
    }
    let ghost rows = out@;
    let hidden = n - shown;
    if hidden > 0 {
        push_spaces(out, 10);
        out.append("  … ");
        out.append(decimal_string(hidden as u64).as_str());
        out.append(" more (--top 0 lists all)\n");
    }
    proof {
        assert(out@ =~= old(out)@ + entity_lines_text(*info, top as nat));
    }
}

// ---------------------------------------------------------------------
// Labels and CSV fields.
// ---------------------------------------------------------------------

/// How a definition is shown: its product's name, with the product id in
/// brackets where that differs; the product id, or else the definition's
/// own id, where the product has no name; `#n` where there is none.
pub open spec fn definition_label_text(d: DefinitionView) -> Seq<char> {
    let id: Option<Seq<char>> = match d.product {
        Some(p) => p.id,
        None => None,
    };
    let product_name: Option<Seq<char>> = match d.product {
        Some(p) => p.name,
        None => None,
    };
    let name = if product_name is Some {
        product_name
    } else if id is Some {
        id
    } else {
        d.id
    };
    match name {
        Some(n) => match id {
            Some(i) => if n != i {
                n + " ["@ + i + "]"@
            } else {
                n
            },
            None => n,
        },
        None => "#"@ + decimal(d.instance as nat),
    }
}

/// The product name of `definition`, with its id when that differs.
pub fn definition_label(definition: &Definition) -> (r: String)
    ensures
        r@ == definition_label_text(definition@),
{
    let (id, product_name) = match &definition.product {
        Some(p) => (&p.id, &p.name),
        None => (&None, &None),
    };
    let name = match product_name {
        Some(n) => Some(n),
        None => match id {
            Some(i) => Some(i),
            None => match &definition.id {
                Some(d) => Some(d),
                None => None,
            },
        },
    };
    match name {
        Some(n) => match id {
            Some(i) => {
                if crate::diff::same_text(n.as_str(), i.as_str()) {
                    n.clone()
                } else {
                    let mut r = n.clone();
                    r.append(" [");
                    r.append(i.as_str());
                    r.append("]");
                    proof {
                        assert(r@ =~= n@ + " ["@ + i@ + "]"@);
                    }
                    r
                }
            },
            None => n.clone(),
        },
        None => {
            let mut r = String::new();
            r.append("#");
            r.append(decimal_string(definition.instance).as_str());
            proof {
                assert(r@ =~= "#"@ + decimal(definition.instance as nat));
            }
            r
        },
    }
}

/// What a definition is in a structure listing.
pub fn kind_label(is_assembly: bool) -> (r: &'static str)
    ensures
        r@ == if is_assembly {
            "assembly"@
        } else {
            "part"@
        },
{
    if is_assembly {
        "assembly"
    } else {
        "part"
    }
}

/// True if `c` forces a CSV field into quotes.
pub open spec fn special_in_csv(c: char) -> bool {
    c == ',' || c == '"' || c == '\n' || c == '\r'
}

/// `s` with each `"` doubled.
pub open spec fn doubled_quotes(s: Seq<char>) -> Seq<char>
    decreases s.len(),
{
    if s.len() == 0 {
        Seq::empty()
    } else {
        doubled_quotes(s.drop_last()) + if s.last() == '"' {
            seq!['"', '"']
        } else {
            seq![s.last()]
        }
    }
}

/// `s` as a CSV field: in quotes, with its quotes doubled, where it holds a
/// comma, a quote or a line break; as it is otherwise.
pub open spec fn csv_text(s: Seq<char>) -> Seq<char> {
    if exists|i: int| 0 <= i < s.len() && special_in_csv(#[trigger] s[i]) {
        seq!['"'] + doubled_quotes(s) + seq!['"']
    } else {
        s
    }
}

/// Quotes a CSV field when it contains a comma, quote or line break.
pub fn csv_field(value: &str) -> (r: String)
    ensures
        r@ == csv_text(value@),
{
    let n = value.unicode_len();
    let mut doubled = String::new();
    let mut special = false;
    let mut i: usize = 0;
    while i < n
        invariant
            n == value@.len(),
            i <= n,
            doubled@ == doubled_quotes(value@.take(i as int)),
            special == exists|k: int| 0 <= k < i && special_in_csv(#[trigger] value@[k]),
        decreases n - i,
    {
        let c = value.get_char(i);
        if c == ',' || c == '"' || c == '\n' || c == '\r' {
            special = true;
        }
        push_char(&mut doubled, c);
        if c == '"' {
            push_char(&mut doubled, '"');
        }
        proof {
            assert(value@.take(i + 1).drop_last() =~= value@.take(i as int));
            assert(value@.take(i + 1).last() == c);
            assert(doubled@ =~= doubled_quotes(value@.take(i + 1)));
            if special_in_csv(c) {
                assert(special_in_csv(value@[i as int]));
            }
        }
        i = i + 1;
    }
    proof {
        assert(value@.take(i as int) =~= value@);
    }
    if special {
        let mut r = String::new();
        push_char(&mut r, '"');
        r.append(doubled.as_str());
        push_char(&mut r, '"');
        proof {
            assert(r@ =~= seq!['"'] + doubled_quotes(value@) + seq!['"']);
        }
        r
    } else {
        value.to_owned()
    }
}

} // verus!
