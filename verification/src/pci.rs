use vstd::prelude::*;

verus! {

/// Why a string is not accepted as a PCI ID.
#[derive(Debug, Clone, Copy, PartialEq, Eq)]
pub enum PciIdError {
    /// After trimming and removing an optional `0x`/`0X` prefix, the text is not
    /// exactly four hexadecimal digits.
    NotFourHexDigits,
}

/// Unicode `White_Space`, the set of characters that `str::trim` removes.
pub open spec fn is_white_space(c: char) -> bool {
    ||| ('\u{9}' <= c && c <= '\u{d}')
    ||| c == ' '
    ||| c == '\u{85}'
    ||| c == '\u{a0}'
    ||| c == '\u{1680}'
    ||| ('\u{2000}' <= c && c <= '\u{200a}')
    ||| c == '\u{2028}'
    ||| c == '\u{2029}'
    ||| c == '\u{202f}'
    ||| c == '\u{205f}'
    ||| c == '\u{3000}'
}

/// `s` without its leading white space.
pub open spec fn trim_start_spec(s: Seq<char>) -> Seq<char>
    decreases s.len(),
{
    if s.len() > 0 && is_white_space(s[0]) {
        trim_start_spec(s.drop_first())
    } else {
        s
    }
}

/// `s` without its trailing white space.
pub open spec fn trim_end_spec(s: Seq<char>) -> Seq<char>
    decreases s.len(),
{
    if s.len() > 0 && is_white_space(s.last()) {
        trim_end_spec(s.drop_last())
    } else {
        s
    }
}

/// `s` without leading and trailing white space.
pub open spec fn trim_spec(s: Seq<char>) -> Seq<char> {
    trim_end_spec(trim_start_spec(s))
}

/// `s` without a leading `0x` or `0X`.
pub open spec fn strip_hex_prefix(s: Seq<char>) -> Seq<char> {
    if s.len() >= 2 && s[0] == '0' && (s[1] == 'x' || s[1] == 'X') {
        s.skip(2)
    } else {
        s
    }
}

/// An ASCII hexadecimal digit.
pub open spec fn is_hex_digit(c: char) -> bool {
    ||| ('0' <= c && c <= '9')
    ||| ('a' <= c && c <= 'f')
    ||| ('A' <= c && c <= 'F')
}

/// The value of a hexadecimal digit.
pub open spec fn hex_digit_value(c: char) -> nat {
    if '0' <= c && c <= '9' {
        (c as nat - '0' as nat) as nat
    } else if 'a' <= c && c <= 'f' {
        (c as nat - 'a' as nat + 10) as nat
    } else {
        (c as nat - 'A' as nat + 10) as nat
    }
}

/// The number that a string of hexadecimal digits denotes, most significant first.
pub open spec fn hex_value(s: Seq<char>) -> nat
    decreases s.len(),
{
    if s.len() == 0 {
        0
    } else {
        hex_value(s.drop_last()) * 16 + hex_digit_value(s.last())
    }
}

/// The digits of a PCI ID as written: trimmed, without a `0x`/`0X` prefix.
pub open spec fn pci_id_digits(s: Seq<char>) -> Seq<char> {
    strip_hex_prefix(trim_spec(s))
}

/// Whether `s` is accepted as a PCI ID: four hexadecimal digits once trimmed and
/// stripped of an optional `0x`/`0X` prefix.
pub open spec fn is_valid_pci_id(s: Seq<char>) -> bool {
    let d = pci_id_digits(s);
    &&& d.len() == 4
    &&& forall|i: int| 0 <= i < d.len() ==> is_hex_digit(#[trigger] d[i])
}

/// Copies the characters of a string slice into a vector.
fn chars_of(s: &str) -> (out: Vec<char>)
    ensures
        out@ == s@,
{
    let mut out: Vec<char> = Vec::new();
    for c in it: s.chars()
        invariant
            out@ == it.seq().take(it.index() as int),
    {
        out.push(c);
    }
    out
}

fn is_white_space_char(c: char) -> (b: bool)
    ensures
        b == is_white_space(c),
{
    ('\u{9}' <= c && c <= '\u{d}') || c == ' ' || c == '\u{85}' || c == '\u{a0}' || c == '\u{1680}'
        || ('\u{2000}' <= c && c <= '\u{200a}') || c == '\u{2028}' || c == '\u{2029}'
        || c == '\u{202f}' || c == '\u{205f}' || c == '\u{3000}'
}

fn is_hex_digit_char(c: char) -> (b: bool)
    ensures
        b == is_hex_digit(c),
{
    ('0' <= c && c <= '9') || ('a' <= c && c <= 'f') || ('A' <= c && c <= 'F')
}

fn hex_digit_char_value(c: char) -> (v: u32)
    requires
        is_hex_digit(c),
    ensures
        v == hex_digit_value(c),
        v < 16,
{
    if '0' <= c && c <= '9' {
        (c as u32) - ('0' as u32)
    } else if 'a' <= c && c <= 'f' {
        (c as u32) - ('a' as u32) + 10
    } else {
        (c as u32) - ('A' as u32) + 10
    }
}

proof fn lemma_trim_start_skip(s: Seq<char>, i: int)
    requires
        0 <= i <= s.len(),
        forall|k: int| 0 <= k < i ==> is_white_space(#[trigger] s[k]),
    ensures
        trim_start_spec(s) == trim_start_spec(s.skip(i)),
    decreases i,
{
    if i > 0 {
        assert(s.skip(1) =~= s.drop_first());
        lemma_trim_start_skip(s.drop_first(), i - 1);
        assert(s.drop_first().skip(i - 1) =~= s.skip(i));
    } else {
        assert(s.skip(0) =~= s);
    }
}

proof fn lemma_trim_end_take(s: Seq<char>, j: int)
    requires
        0 <= j <= s.len(),
        forall|k: int| j <= k < s.len() ==> is_white_space(#[trigger] s[k]),
    ensures
        trim_end_spec(s) == trim_end_spec(s.take(j)),
    decreases s.len() - j,
{
    if j < s.len() {
        lemma_trim_end_take(s.drop_last(), j);
        assert(s.drop_last().take(j) =~= s.take(j));
    } else {
        assert(s.take(j) =~= s);
    }
}

proof fn lemma_hex_value_step(s: Seq<char>, i: int)
    requires
        0 <= i < s.len(),
    ensures
        hex_value(s.take(i + 1)) == hex_value(s.take(i)) * 16 + hex_digit_value(s[i]),
{
    assert(s.take(i + 1).drop_last() =~= s.take(i));
}

/// Parses a PCI vendor or device ID written as four hexadecimal digits, optionally
/// surrounded by white space and prefixed with `0x` or `0X`.
pub fn parse_pci_id(id: &str) -> (result: Result<u32, PciIdError>)
    ensures
        match result {
            Ok(v) => is_valid_pci_id(id@) && v == hex_value(pci_id_digits(id@)),
            Err(e) => !is_valid_pci_id(id@) && e == PciIdError::NotFourHexDigits,
        },
{
    let chars = chars_of(id);
    let n = chars.len();
    let ghost s = chars@;

    // Leading white space.
    let mut start: usize = 0;
    while start < n && is_white_space_char(chars[start])
        invariant
            n == s.len(),
            s == chars@,
            0 <= start <= n,
            forall|k: int| 0 <= k < start ==> is_white_space(#[trigger] s[k]),
        decreases n - start,
    {
        start = start + 1;
    }
    proof {
        lemma_trim_start_skip(s, start as int);
    }
    // Trailing white space.
    let mut end: usize = n;
    while end > start && is_white_space_char(chars[end - 1])
        invariant
            n == s.len(),
            s == chars@,
            start <= end <= n,
            forall|k: int| end <= k < n ==> is_white_space(#[trigger] s[k]),
        decreases end - start,
    {
        end = end - 1;
    }
    let ghost t = s.subrange(start as int, end as int);
    proof {
        let u = s.skip(start as int);
        if start < n {
            assert(!is_white_space(u[0]));
        }
        assert(trim_start_spec(u) == u);
        assert forall|k: int| end - start <= k < u.len() implies is_white_space(#[trigger] u[k]) by {
            assert(u[k] == s[k + start]);
        }
        lemma_trim_end_take(u, end - start);
        assert(u.take(end - start) =~= t);
        if end > start {
            assert(t.last() == s[end - 1]);
        }
        assert(trim_end_spec(t) == t);
        assert(trim_spec(s) == t);
    }
    // Optional `0x` / `0X` prefix.
    let mut first = start;
    if end - start >= 2 && chars[start] == '0' && (chars[start + 1] == 'x' || chars[start + 1] == 'X') {
        first = start + 2;
    }
    let ghost d = s.subrange(first as int, end as int);
    assert(d =~= pci_id_digits(s));
    if end - first != 4 {
        assert(pci_id_digits(s).len() != 4);
        return Err(PciIdError::NotFourHexDigits);
    }
    let mut value: u32 = 0;
    let mut i: usize = first;
    while i < end
        invariant
            s == chars@,
            n == s.len(),
            first <= i <= end <= n,
            end - first == 4,
            d == s.subrange(first as int, end as int),
            d == pci_id_digits(s),
            s == id@,
            forall|k: int| 0 <= k < i - first ==> is_hex_digit(#[trigger] d[k]),
            value == hex_value(d.take(i - first)),
            value < pow16(i - first),
        decreases end - i,
    {
        let c = chars[i];
        if !is_hex_digit_char(c) {
            assert(d[i - first] == c);
            assert(!is_hex_digit(pci_id_digits(s)[i - first]));
            return Err(PciIdError::NotFourHexDigits);
        }
        let digit = hex_digit_char_value(c);
        proof {
            lemma_hex_value_step(d, i - first);
            assert(d[i - first] == c);
            assert(value * 16 + digit < pow16(i - first + 1)) by (nonlinear_arith)
                requires
                    value < pow16(i - first),
                    digit < 16,
                    pow16(i - first + 1) == pow16(i - first) * 16,
            ;
        }
        value = value * 16 + digit;
        i = i + 1;
    }
    assert(d.take(4) =~= d);
    Ok(value)
}

/// 16 raised to `k`, for the digit counts a PCI ID can have.
spec fn pow16(k: int) -> int {
    if k <= 0 {
        1
    } else if k == 1 {
        16
    } else if k == 2 {
        256
    } else if k == 3 {
        4096
    } else {
        65536
    }
}

/// `c` in upper case, if it is an ASCII lower-case letter.
pub open spec fn ascii_upper(c: char) -> char {
    if 'a' <= c && c <= 'z' {
        ((c as u32) - 32) as char
    } else {
        c
    }
}

proof fn lemma_hex_value_upper(d: Seq<char>)
    requires
        forall|i: int| 0 <= i < d.len() ==> is_hex_digit(#[trigger] d[i]),
    ensures
        hex_value(d.map_values(|c: char| ascii_upper(c))) == hex_value(d),
    decreases d.len(),
{
    if d.len() > 0 {
        let u = d.map_values(|c: char| ascii_upper(c));
        assert(u.drop_last() =~= d.drop_last().map_values(|c: char| ascii_upper(c)));
        lemma_hex_value_upper(d.drop_last());
        let c = d.last();
        assert(is_hex_digit(d[d.len() - 1]));
        assert(u.last() == ascii_upper(c));
        if 'a' <= c && c <= 'f' {
            assert((c as u32) - 32 == (c as u32) - ('a' as u32) + ('A' as u32));
        }
    }
}

/// A PCI ID is read the same whether its hexadecimal digits are written in lower
/// or upper case, and with or without a `0x` prefix: for four hexadecimal digits
/// `d`, the strings `d`, its upper-case form, and `0x` followed by `d` are all
/// accepted, with the same value.
pub proof fn lemma_pci_id_case_and_prefix(d: Seq<char>)
    requires
        d.len() == 4,
        forall|i: int| 0 <= i < d.len() ==> is_hex_digit(#[trigger] d[i]),
    ensures
        is_valid_pci_id(d),
        is_valid_pci_id(d.map_values(|c: char| ascii_upper(c))),
        is_valid_pci_id(seq!['0', 'x'] + d),
        hex_value(pci_id_digits(d)) == hex_value(d),
        hex_value(pci_id_digits(d.map_values(|c: char| ascii_upper(c)))) == hex_value(d),
        hex_value(pci_id_digits(seq!['0', 'x'] + d)) == hex_value(d),
{
    let u = d.map_values(|c: char| ascii_upper(c));
    let p = seq!['0', 'x'] + d;
    assert forall|i: int| 0 <= i < u.len() implies is_hex_digit(#[trigger] u[i]) by {
        assert(is_hex_digit(d[i]));
    }
    lemma_trim_fixed(d);
    lemma_trim_fixed(u);
    lemma_trim_fixed(p);
    assert(!(d[0] == '0' && (d[1] == 'x' || d[1] == 'X'))) by {
        assert(is_hex_digit(d[1]));
    }
    assert(!(u[0] == '0' && (u[1] == 'x' || u[1] == 'X'))) by {
        assert(is_hex_digit(u[1]));
    }
    assert(strip_hex_prefix(p) =~= d);
    lemma_hex_value_upper(d);
}

/// A string that starts and ends with a non-white-space character is its own trim.
proof fn lemma_trim_fixed(s: Seq<char>)
    requires
        s.len() > 0,
        !is_white_space(s[0]),
        !is_white_space(s.last()),
    ensures
        trim_spec(s) == s,
{
}

/// The hexadecimal digits in lower case, by value.
pub open spec fn lower_hex_digits() -> Seq<char> {
    seq!['0', '1', '2', '3', '4', '5', '6', '7', '8', '9', 'a', 'b', 'c', 'd', 'e', 'f']
}

/// The hexadecimal digits in upper case, by value.
pub open spec fn upper_hex_digits() -> Seq<char> {
    seq!['0', '1', '2', '3', '4', '5', '6', '7', '8', '9', 'A', 'B', 'C', 'D', 'E', 'F']
}

/// The digit for `d < 16`, in upper or lower case.
pub open spec fn hex_digit_char(d: int, upper: bool) -> char {
    if upper {
        upper_hex_digits()[d]
    } else {
        lower_hex_digits()[d]
    }
}

/// `v` written as four hexadecimal digits, most significant first, padded with
/// zeros: what `{:04x}` (lower case) or `{:04X}` (upper case) writes for
/// `v <= 0xFFFF`.
pub open spec fn hex4(v: u32, upper: bool) -> Seq<char> {
    seq![
        hex_digit_char((v / 4096) as int % 16, upper),
        hex_digit_char((v / 256) as int % 16, upper),
        hex_digit_char((v / 16) as int % 16, upper),
        hex_digit_char(v as int % 16, upper),
    ]
}

proof fn lemma_hex_digit_char(d: int, upper: bool)
    requires
        0 <= d < 16,
    ensures
        is_hex_digit(hex_digit_char(d, upper)),
        hex_digit_value(hex_digit_char(d, upper)) == d,
        hex_digit_char(d, upper) != 'x',
        hex_digit_char(d, upper) != 'X',
        !is_white_space(hex_digit_char(d, upper)),
{
    let l = lower_hex_digits();
    let u = upper_hex_digits();
    assert(l[0] == '0' && l[1] == '1' && l[2] == '2' && l[3] == '3' && l[4] == '4' && l[5] == '5' && l[6] == '6'
        && l[7] == '7' && l[8] == '8' && l[9] == '9' && l[10] == 'a' && l[11] == 'b' && l[12] == 'c' && l[13] == 'd'
        && l[14] == 'e' && l[15] == 'f');
    assert(u[0] == '0' && u[1] == '1' && u[2] == '2' && u[3] == '3' && u[4] == '4' && u[5] == '5' && u[6] == '6'
        && u[7] == '7' && u[8] == '8' && u[9] == '9' && u[10] == 'A' && u[11] == 'B' && u[12] == 'C' && u[13] == 'D'
        && u[14] == 'E' && u[15] == 'F');
}

/// Every PCI ID up to `0xFFFF` reads back from its four-digit hexadecimal form:
/// in lower or upper case, with or without a `0x`/`0X` prefix, and with any white
/// space around it (`{:04x}`, `{:04X}`, `{:#06x}`, ` {:04x}\n`, ...).
pub proof fn lemma_pci_id_round_trip(v: u32, upper: bool, prefix: Seq<char>, lead: Seq<char>, trail: Seq<char>)
    requires
        v <= 0xFFFF,
        prefix == Seq::<char>::empty() || prefix == seq!['0', 'x'] || prefix == seq!['0', 'X'],
        forall|i: int| 0 <= i < lead.len() ==> is_white_space(#[trigger] lead[i]),
        forall|i: int| 0 <= i < trail.len() ==> is_white_space(#[trigger] trail[i]),
    ensures
        is_valid_pci_id(lead + prefix + hex4(v, upper) + trail),
        hex_value(pci_id_digits(lead + prefix + hex4(v, upper) + trail)) == v,
{
    let h = hex4(v, upper);
    let core = prefix + h;
    let s = lead + prefix + h + trail;
    let d3 = (v / 4096) as int % 16;
    let d2 = (v / 256) as int % 16;
    let d1 = (v / 16) as int % 16;
    let d0 = v as int % 16;
    lemma_hex_digit_char(d3, upper);
    lemma_hex_digit_char(d2, upper);
    lemma_hex_digit_char(d1, upper);
    lemma_hex_digit_char(d0, upper);
    // Trimming leaves the prefix and the digits.
    assert(s =~= lead + (core + trail));
    assert forall|k: int| 0 <= k < lead.len() implies is_white_space(#[trigger] s[k]) by {
        assert(s[k] == lead[k]);
    }
    lemma_trim_start_skip(s, lead.len() as int);
    let r = core + trail;
    assert(s.skip(lead.len() as int) =~= r);
    assert(!is_white_space(r[0])) by {
        assert(r[0] == core[0]);
    }
    assert(trim_start_spec(r) == r);
    assert forall|k: int| core.len() <= k < r.len() implies is_white_space(#[trigger] r[k]) by {
        assert(r[k] == trail[k - core.len()]);
    }
    lemma_trim_end_take(r, core.len() as int);
    assert(r.take(core.len() as int) =~= core);
    assert(core.last() == h[3]);
    assert(trim_end_spec(core) == core);
    assert(trim_spec(s) == core);
    // The prefix comes off; without one, the second digit is not `x`.
    assert(strip_hex_prefix(core) =~= h);
    // The digits and their value.
    assert forall|i: int| 0 <= i < h.len() implies is_hex_digit(#[trigger] h[i]) by {}
    reveal_with_fuel(hex_value, 5);
    assert(h.drop_last().drop_last().drop_last().drop_last() =~= Seq::<char>::empty());
    assert(h.drop_last() =~= seq![h[0], h[1], h[2]]);
    assert(h.drop_last().drop_last() =~= seq![h[0], h[1]]);
    assert(h.drop_last().drop_last().drop_last() =~= seq![h[0]]);
    assert(hex_value(h) == ((d3 * 16 + d2) * 16 + d1) * 16 + d0);
    assert(((d3 * 16 + d2) * 16 + d1) * 16 + d0 == v) by (nonlinear_arith)
        requires
            v <= 0xFFFF,
            d3 == (v / 4096) as int % 16,
            d2 == (v / 256) as int % 16,
            d1 == (v / 16) as int % 16,
            d0 == v as int % 16,
    ;
}

} // verus!
