//! Small text utilities shared by the reader, the writer and the error
//! messages: decimal numerals, ASCII case folding and string building.
use vstd::prelude::*;
use vstd::string::*;

verus! {

/// The character for decimal digit `d`.
pub open spec fn digit_char(d: nat) -> char {
    (48 + d) as char
}

/// The decimal numeral of `n`, without sign or leading zeros.
pub open spec fn decimal(n: nat) -> Seq<char>
    decreases n,
{
    if n < 10 {
        seq![digit_char(n)]
    } else {
        decimal(n / 10).push(digit_char(n % 10))
    }
}

/// The decimal numeral of `n` as ASCII bytes.
pub open spec fn decimal_bytes(n: nat) -> Seq<u8>
    decreases n,
{
    if n < 10 {
        seq![(48 + n) as u8]
    } else {
        decimal_bytes(n / 10).push((48 + n % 10) as u8)
    }
}

/// Appends `c` to `s`.
///
/// Trusted: calls `String::push`, which std documents as appending the
/// character to the end of the string.
#[verifier::external_body]
pub fn push_char(s: &mut String, c: char)
    ensures
        final(s)@ == old(s)@.push(c),
{
    s.push(c)
}

/// Converts a code point to a character if it is a Unicode scalar value.
///
/// Trusted: calls `char::from_u32`, which std documents as returning
/// `Some` exactly for the scalar values (not a surrogate, at most
/// `0x10FFFF`), and the character with that code point.
#[verifier::external_body]
pub fn char_from_u32(v: u32) -> (c: Option<char>)
    ensures
        c is Some <==> vstd::utf8::is_scalar(v),
        c matches Some(ch) ==> ch as u32 == v && ch == v as char,
{
    char::from_u32(v)
}

/// Reads `bytes` as UTF-8.
///
/// Trusted: calls `std::str::from_utf8`, which std documents as succeeding
/// exactly when the bytes are valid UTF-8, with the string they encode.
#[verifier::external_body]
pub fn str_from_utf8(bytes: &[u8]) -> (r: Option<&str>)
    ensures
        r is Some <==> vstd::utf8::valid_utf8(bytes@),
        r matches Some(s) ==> s@ == vstd::utf8::decode_utf8(bytes@),
{
    std::str::from_utf8(bytes).ok()
}

/// What `String::from_utf8_lossy` makes of `b`: its text, with each
/// invalid UTF-8 sequence shown as U+FFFD.
pub uninterp spec fn lossy_text(b: Seq<u8>) -> Seq<char>;

/// The bytes as text, with invalid UTF-8 shown as U+FFFD.
///
/// Trusted: calls `String::from_utf8_lossy`. The result is named
/// [`lossy_text`]; std documents that valid UTF-8 comes back as the text it
/// encodes.
#[verifier::external_body]
pub fn lossy(bytes: &[u8]) -> (r: String)
    ensures
        r@ == lossy_text(bytes@),
        vstd::utf8::valid_utf8(bytes@) ==> r@ == vstd::utf8::decode_utf8(bytes@),
{
    String::from_utf8_lossy(bytes).into_owned()
}

/// What `str::to_lowercase` makes of `s`: each character mapped to its
/// Unicode lower-case form.
pub uninterp spec fn lowercase(s: Seq<char>) -> Seq<char>;

/// `s` in lower case, as Unicode defines it.
///
/// Trusted: calls `str::to_lowercase`, whose result depends on `s` alone
/// and is named [`lowercase`].
#[verifier::external_body]
pub fn to_lowercase(s: &str) -> (r: String)
    ensures
        r@ == lowercase(s@),
{
    s.to_lowercase()
}

/// The character with the Latin-1 (ISO 8859-1) code `b`.
pub fn latin1(b: u8) -> (c: char)
    ensures
        c as u32 == b as u32,
        c == b as char,
{
    let r = char_from_u32(b as u32);
    proof {
        assert(vstd::utf8::is_scalar(b as u32));
    }
    match r {
        Some(c) => c,
        None => ' ',
    }
}

/// Appends the decimal numeral of `n` to `s`.
pub fn push_decimal(s: &mut String, n: u64)
    ensures
        final(s)@ == old(s)@ + decimal(n as nat),
    decreases n,
{
    if n >= 10 {
        push_decimal(s, n / 10);
    }
    let d = (n % 10) as u32;
    let c = latin1((48 + d) as u8);
    push_char(s, c);
    proof {
        assert(c == digit_char((n % 10) as nat));
        if n >= 10 {
            assert(decimal(n as nat) == decimal((n / 10) as nat).push(digit_char((n % 10) as nat)));
        } else {
            assert(decimal(n as nat) == seq![digit_char(n as nat)]);
        }
        assert(final(s)@ =~= old(s)@ + decimal(n as nat));
    }
}

/// The decimal numeral of `n`.
pub fn decimal_string(n: u64) -> (s: String)
    ensures
        s@ == decimal(n as nat),
{
    let mut s = String::new();
    push_decimal(&mut s, n);
    proof {
        assert(s@ =~= decimal(n as nat));
    }
    s
}

/// Appends the decimal numeral of `n`, as ASCII bytes, to `out`.
pub fn push_decimal_bytes(out: &mut Vec<u8>, n: u64)
    ensures
        final(out)@ == old(out)@ + decimal_bytes(n as nat),
    decreases n,
{
    if n >= 10 {
        push_decimal_bytes(out, n / 10);
    }
    let d = (n % 10) as u8;
    out.push(48 + d);
    proof {
        assert(final(out)@ =~= old(out)@ + decimal_bytes(n as nat));
    }
}

/// `b` with ASCII letters mapped to lower case.
pub open spec fn fold(b: u8) -> u8 {
    if 65 <= b <= 90 {
        (b + 32) as u8
    } else {
        b
    }
}

/// True if `a` and `b` are equal ignoring ASCII case.
pub open spec fn eq_ignore_case(a: Seq<u8>, b: Seq<u8>) -> bool {
    &&& a.len() == b.len()
    &&& forall|i: int| 0 <= i < a.len() ==> #[trigger] fold(a[i]) == fold(b[i])
}

/// The ASCII bytes of a character sequence whose characters are all ASCII.
pub open spec fn ascii_bytes(s: Seq<char>) -> Seq<u8> {
    Seq::new(s.len(), |i: int| s[i] as u8)
}

/// True if every character of `s` is ASCII.
pub open spec fn is_ascii_text(s: Seq<char>) -> bool {
    vstd::utf8::is_ascii_chars(s)
}

/// Exec form of [`fold`].
pub fn fold_byte(b: u8) -> (r: u8)
    ensures
        r == fold(b),
{
    if 65 <= b && b <= 90 {
        b + 32
    } else {
        b
    }
}

/// True if the bytes `a[start..end]` equal `b` ignoring ASCII case.
pub fn range_eq_ignore_case(a: &[u8], start: usize, end: usize, b: &[u8]) -> (r: bool)
    requires
        start <= end <= a@.len(),
    ensures
        r == eq_ignore_case(a@.subrange(start as int, end as int), b@),
{
    if end - start != b.len() {
        return false;
    }
    let mut i: usize = 0;
    while i < b.len()
        invariant
            start <= end <= a@.len(),
            end - start == b@.len(),
            i <= b@.len(),
            forall|k: int| 0 <= k < i ==> fold(a@[start + k]) == fold(b@[k]),
        decreases b@.len() - i,
    {
        if fold_byte(a[start + i]) != fold_byte(b[i]) {
            proof {
                let sub = a@.subrange(start as int, end as int);
                assert(fold(sub[i as int]) != fold(b@[i as int]));
            }
            return false;
        }
        i += 1;
    }
    proof {
        let sub = a@.subrange(start as int, end as int);
        assert forall|k: int| 0 <= k < sub.len() implies #[trigger] fold(sub[k]) == fold(b@[k]) by {
            assert(sub[k] == a@[start + k]);
        }
    }
    true
}

/// True if `a` equals `b` ignoring ASCII case.
pub fn bytes_eq_ignore_case(a: &[u8], b: &[u8]) -> (r: bool)
    ensures
        r == eq_ignore_case(a@, b@),
{
    let r = range_eq_ignore_case(a, 0, a.len(), b);
    proof {
        assert(a@.subrange(0, a@.len() as int) =~= a@);
    }
    r
}

/// The bytes of an ASCII string slice.
pub fn ascii_of(s: &str) -> (b: &[u8])
    requires
        is_ascii_text(s@),
    ensures
        b@ == ascii_bytes(s@),
{
    let b = s.as_bytes();
    proof {
        vstd::string::is_ascii_spec_bytes(s);
        assert(b@ =~= ascii_bytes(s@));
    }
    b
}

/// A new string holding `s`.
pub fn owned(s: &str) -> (r: String)
    ensures
        r@ == s@,
{
    s.to_string()
}

/// Appends `bytes` to `out`.
pub fn append_bytes(out: &mut Vec<u8>, bytes: &[u8])
    ensures
        final(out)@ == old(out)@ + bytes@,
{
    let mut i: usize = 0;
    while i < bytes.len()
        invariant
            i <= bytes@.len(),
            out@ == old(out)@ + bytes@.take(i as int),
        decreases bytes@.len() - i,
    {
        out.push(bytes[i]);
        proof {
            assert(bytes@.take(i + 1) =~= bytes@.take(i as int).push(bytes@[i as int]));
        }
        i = i + 1;
    }
    proof {
        assert(bytes@.take(i as int) =~= bytes@);
    }
}

/// True if `name` ends with `suffix`, ignoring ASCII case.
pub open spec fn ends_with_ignore_case(name: Seq<u8>, suffix: Seq<u8>) -> bool {
    &&& suffix.len() <= name.len()
    &&& eq_ignore_case(name.subrange(name.len() - suffix.len(), name.len() as int), suffix)
}

/// True if `name` ends with `suffix`, ignoring ASCII case.
pub fn bytes_end_with_ignore_case(name: &[u8], suffix: &[u8]) -> (b: bool)
    ensures
        b == ends_with_ignore_case(name@, suffix@),
{
    if suffix.len() > name.len() {
        false
    } else {
        range_eq_ignore_case(name, name.len() - suffix.len(), name.len(), suffix)
    }
}

} // verus!
