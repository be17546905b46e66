//! Text helpers: cleaning of display strings, the leading fields of a
//! colon-separated address, decimal numbers and joined lists.

use vstd::prelude::*;

verus! {

/// `String::push` appends the given character to the end of the string.
pub assume_specification[ String::push ](s: &mut String, c: char)
    ensures
        final(s)@ == old(s)@.push(c),
;

/// Whether a character is one of the three quote marks that are blanked out
/// of display strings: the apostrophe, the backtick and the double quote.
pub open spec fn is_quote(c: char) -> bool {
    c == '\'' || c == '`' || c == '"'
}

/// The character that stands for `c` in a cleaned string.
pub open spec fn clean_char(c: char) -> char {
    if is_quote(c) {
        ' '
    } else {
        c
    }
}

/// The cleaned form of a text: every quote mark replaced by one space, every
/// other character kept in place.
pub open spec fn sanitized(s: Seq<char>) -> Seq<char> {
    Seq::new(s.len(), |i: int| clean_char(s[i]))
}

/// Replaces each apostrophe, backtick and double quote of `input` by a space.
pub fn sanitize_string(input: &str) -> (out: String)
    ensures
        out@ == sanitized(input@),
{
    let mut out = String::new();
    for c in it: input.chars()
        invariant
            it.seq() == input@,
            out@ == sanitized(input@.take(it.index() as int)),
    {
        let d: char = if c == '\'' || c == '`' || c == '"' { ' ' } else { c };
        out.push(d);
        assert(out@ =~= sanitized(input@.take(it.index() + 1)));
    }
    assert(input@.take(input@.len() as int) =~= input@);
    out
}

/// The upper-case form of a text, as `str::to_uppercase` gives it: Unicode's
/// upper-case mapping, applied character by character.
pub uninterp spec fn uppercase_of(s: Seq<char>) -> Seq<char>;

/// Calls `str::to_uppercase`. The result depends on the text alone; it is
/// given the name `uppercase_of` and nothing more is claimed of it.
#[verifier::external_body]
pub(crate) fn to_upper(s: &str) -> (out: String)
    ensures
        out@ == uppercase_of(s@),
{
    s.to_uppercase()
}

/// The characters of the first `n` colon-separated fields of `s`, run
/// together without the colons: `s` is read up to its `n`-th colon or its
/// end, and every colon on the way is dropped.
pub open spec fn leading_fields(s: Seq<char>, n: nat) -> Seq<char>
    decreases s.len(),
{
    if n == 0 || s.len() == 0 {
        Seq::empty()
    } else if s[0] == ':' {
        leading_fields(s.drop_first(), (n - 1) as nat)
    } else {
        seq![s[0]] + leading_fields(s.drop_first(), n)
    }
}

/// The first three colon-separated fields of an address, run together: of
/// `aa:bb:cc:dd:ee:ff` it gives `aabbcc`.
pub fn mac_prefix(mac: &str) -> (out: String)
    ensures
        out@ == leading_fields(mac@, 3),
{
    let mut out = String::new();
    let mut left: u8 = 3;
    assert(mac@.skip(0) =~= mac@);
    assert(out@ + leading_fields(mac@, 3) =~= leading_fields(mac@, 3));
    for c in it: mac.chars()
        invariant
            it.seq() == mac@,
            left <= 3,
            leading_fields(mac@, 3) == out@ + leading_fields(
                mac@.skip(it.index() as int),
                left as nat,
            ),
    {
        let ghost rest = mac@.skip(it.index() as int);
        assert(rest[0] == c);
        assert(rest.drop_first() =~= mac@.skip(it.index() + 1));
        if left > 0 {
            if c == ':' {
                left -= 1;
            } else {
                let ghost before = out@;
                out.push(c);
                assert(before.push(c) + leading_fields(rest.drop_first(), left as nat) =~= before
                    + (seq![c] + leading_fields(rest.drop_first(), left as nat)));
            }
        }
    }
    assert(out@ + Seq::<char>::empty() =~= out@);
    out
}

/// The character of a decimal digit.
pub open spec fn digit(d: nat) -> char {
    if d == 0 {
        '0'
    } else if d == 1 {
        '1'
    } else if d == 2 {
        '2'
    } else if d == 3 {
        '3'
    } else if d == 4 {
        '4'
    } else if d == 5 {
        '5'
    } else if d == 6 {
        '6'
    } else if d == 7 {
        '7'
    } else if d == 8 {
        '8'
    } else {
        '9'
    }
}

/// The decimal numeral of `n`, without leading zeros.
pub open spec fn decimal(n: nat) -> Seq<char>
    decreases n,
{
    if n < 10 {
        seq![digit(n)]
    } else {
        decimal(n / 10).push(digit(n % 10))
    }
}

fn digit_char(d: u64) -> (c: char)
    requires
        d < 10,
    ensures
        c == digit(d as nat),
{
    if d == 0 {
        '0'
    } else if d == 1 {
        '1'
    } else if d == 2 {
        '2'
    } else if d == 3 {
        '3'
    } else if d == 4 {
        '4'
    } else if d == 5 {
        '5'
    } else if d == 6 {
        '6'
    } else if d == 7 {
        '7'
    } else if d == 8 {
        '8'
    } else {
        '9'
    }
}

/// Writes `n` in decimal.
pub fn format_decimal(n: u64) -> (out: String)
    ensures
        out@ == decimal(n as nat),
    decreases n,
{
    if n < 10 {
        let mut out = String::new();
        out.push(digit_char(n));
        assert(out@ =~= seq![digit(n as nat)]);
        out
    } else {
        let mut out = format_decimal(n / 10);
        out.push(digit_char(n % 10));
        out
    }
}

/// The text of a span of time: its earlier end, a hyphen, its later end.
pub open spec fn span_text(a: nat, b: nat) -> Seq<char> {
    if a <= b {
        decimal(a) + seq!['-'] + decimal(b)
    } else {
        decimal(b) + seq!['-'] + decimal(a)
    }
}

/// Writes a span of time as `from-to`, the smaller of the two times first.
pub fn format_span(a: u64, b: u64) -> (out: String)
    ensures
        out@ == span_text(a as nat, b as nat),
{
    let (low, high) = if a <= b { (a, b) } else { (b, a) };
    let mut out = format_decimal(low);
    out.push('-');
    let tail = format_decimal(high);
    out.append(tail.as_str());
    assert(out@ =~= decimal(low as nat) + seq!['-'] + decimal(high as nat));
    out
}

/// The parts run together with a comma between each two.
pub open spec fn joined(parts: Seq<Seq<char>>) -> Seq<char>
    decreases parts.len(),
{
    if parts.len() == 0 {
        Seq::empty()
    } else if parts.len() == 1 {
        parts[0]
    } else {
        joined(parts.drop_last()) + seq![','] + parts.last()
    }
}

} // verus!
