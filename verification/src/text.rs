//! The grammar of one line of the saved form: fields parted by runs of white space,
//! and identifiers written in decimal.

use vstd::prelude::*;
use vstd::string::*;

verus! {

/// Whether a character is white space: the characters that part the fields of a line.
pub open spec fn is_space(c: char) -> bool {
    ('\u{9}' <= c && c <= '\u{d}') || c == ' ' || c == '\u{85}' || c == '\u{a0}' || c
        == '\u{1680}' || ('\u{2000}' <= c && c <= '\u{200a}') || c == '\u{2028}' || c
        == '\u{2029}' || c == '\u{202f}' || c == '\u{205f}' || c == '\u{3000}'
}

/// Whether a character is white space.
pub fn char_is_space(c: char) -> (out: bool)
    ensures
        out == is_space(c),
{
    ('\u{9}' <= c && c <= '\u{d}') || c == ' ' || c == '\u{85}' || c == '\u{a0}' || c
        == '\u{1680}' || ('\u{2000}' <= c && c <= '\u{200a}') || c == '\u{2028}' || c
        == '\u{2029}' || c == '\u{202f}' || c == '\u{205f}' || c == '\u{3000}'
}

/// Whether a text holds no white space at all.
pub open spec fn no_space(s: Seq<char>) -> bool {
    forall|i: int| 0 <= i < s.len() ==> !is_space(#[trigger] s[i])
}

/// The first position at or after `from` whose character is white space (`space` true)
/// or is not (`space` false); the length of the text where there is none.
pub open spec fn scan(s: Seq<char>, from: int, space: bool) -> int
    decreases s.len() - from,
{
    if from < 0 || from >= s.len() || is_space(s[from]) == space {
        from
    } else {
        scan(s, from + 1, space)
    }
}

/// A scan passes exactly the characters that are not of the kind it looks for.
pub proof fn lemma_scan_stops(s: Seq<char>, from: int, to: int, space: bool)
    requires
        0 <= from <= to <= s.len(),
        forall|k: int| from <= k < to ==> is_space(#[trigger] s[k]) != space,
        to == s.len() || is_space(s[to]) == space,
    ensures
        scan(s, from, space) == to,
    decreases to - from,
{
    if from < to {
        lemma_scan_stops(s, from + 1, to, space);
    }
}

/// The two parts of a text around its first run of white space: what stands before
/// the run, and what follows it up to the end. `None` where the text holds no white
/// space.
pub open spec fn split_field_text(s: Seq<char>) -> Option<(Seq<char>, Seq<char>)> {
    let i = scan(s, 0, true);
    if i >= s.len() {
        None
    } else {
        Some((s.subrange(0, i), s.subrange(scan(s, i, false), s.len() as int)))
    }
}

/// A field without white space, one blank and a rest that does not begin with white
/// space split into that field and that rest.
pub proof fn lemma_split_joined(a: Seq<char>, b: Seq<char>)
    requires
        no_space(a),
        b.len() > 0 ==> !is_space(b[0]),
    ensures
        split_field_text(a + seq![' '] + b) == Some((a, b)),
{
    let s = a + seq![' '] + b;
    let i = a.len() as int;
    assert forall|k: int| 0 <= k < i implies is_space(#[trigger] s[k]) != true by {
        assert(s[k] == a[k]);
    }
    assert(s[i] == ' ');
    lemma_scan_stops(s, 0, i, true);
    assert(b.len() > 0 ==> s[i + 1] == b[0]);
    lemma_scan_stops(s, i, i + 1, false);
    assert(s.subrange(0, i) =~= a);
    assert(s.subrange(i + 1, s.len() as int) =~= b);
}

fn find(s: &str, from: usize, n: usize, space: bool) -> (out: usize)
    requires
        n == s@.len(),
        from <= n,
    ensures
        out == scan(s@, from as int, space),
        from <= out <= n,
{
    let mut i: usize = from;
    while i < n && char_is_space(s.get_char(i)) != space
        invariant
            n == s@.len(),
            from <= i <= n,
            scan(s@, from as int, space) == scan(s@, i as int, space),
        decreases n - i,
    {
        i += 1;
    }
    i
}

/// Splits a text at its first run of white space.
pub fn split_field(s: &str) -> (out: Option<(&str, &str)>)
    ensures
        match split_field_text(s@) {
            Some((head, rest)) => out is Some && out.unwrap().0@ == head && out.unwrap().1@
                == rest,
            None => out is None,
        },
{
    let n = s.unicode_len();
    let i = find(s, 0, n, true);
    if i >= n {
        None
    } else {
        let j = find(s, i, n, false);
        Some((s.substring_char(0, i), s.substring_char(j, n)))
    }
}

/// Whether a character is one of the ten decimal digits.
pub open spec fn is_digit(c: char) -> bool {
    '0' <= c && c <= '9'
}

/// The number that a decimal digit stands for.
pub open spec fn digit_value(c: char) -> int {
    c as int - 48
}

/// The decimal digit that stands for a number below ten.
pub open spec fn digit_char(d: int) -> char {
    (d + 48) as char
}

/// Whether a text is made of decimal digits only.
pub open spec fn all_digits(s: Seq<char>) -> bool {
    forall|i: int| 0 <= i < s.len() ==> is_digit(#[trigger] s[i])
}

/// The number that a text of decimal digits denotes, the empty text denoting zero.
pub open spec fn digits_value(s: Seq<char>) -> int
    decreases s.len(),
{
    if s.len() == 0 {
        0
    } else {
        digits_value(s.drop_last()) * 10 + digit_value(s.last())
    }
}

/// An identifier in decimal, without sign or leading zeros.
pub open spec fn id_text(n: int) -> Seq<char>
    decreases n,
{
    if n < 10 {
        seq![digit_char(n)]
    } else {
        id_text(n / 10).push(digit_char(n % 10))
    }
}

/// The identifier that a text denotes: an optional plus sign and then one decimal
/// digit or more, whose value fits in 64 bits. `None` for any other text.
pub open spec fn parse_id_text(s: Seq<char>) -> Option<u64> {
    let digits = if s.len() > 0 && s[0] == '+' {
        s.subrange(1, s.len() as int)
    } else {
        s
    };
    if digits.len() > 0 && all_digits(digits) && digits_value(digits) <= u64::MAX {
        Some(digits_value(digits) as u64)
    } else {
        None
    }
}

/// A longer text of digits denotes no smaller number than any of its beginnings.
pub proof fn lemma_digits_value_grows(s: Seq<char>, k: int)
    requires
        all_digits(s),
        0 <= k <= s.len(),
    ensures
        0 <= digits_value(s.take(k)) <= digits_value(s),
    decreases s.len(),
{
    if s.len() == 0 {
        assert(s.take(k) =~= s);
    } else if k == s.len() {
        assert(s.take(k) =~= s);
        lemma_digits_value_grows(s.drop_last(), k - 1);
        assert(is_digit(s.last()));
    } else {
        lemma_digits_value_grows(s.drop_last(), k);
        assert(s.drop_last().take(k) =~= s.take(k));
        assert(is_digit(s.last()));
    }
}

/// What holds of an identifier written in decimal: it is made of digits, it is not
/// empty, and it denotes the identifier.
pub proof fn lemma_id_text(n: int)
    requires
        0 <= n,
    ensures
        id_text(n).len() > 0,
        all_digits(id_text(n)),
        digits_value(id_text(n)) == n,
        no_space(id_text(n)),
        is_digit(id_text(n)[0]),
    decreases n,
{
    if n < 10 {
        let s = id_text(n);
        assert(s.drop_last() =~= Seq::<char>::empty());
        assert(digits_value(s.drop_last()) == 0);
    } else {
        lemma_id_text(n / 10);
        let s = id_text(n);
        assert(s.drop_last() =~= id_text(n / 10));
    }
}

/// Reading an identifier that was written in decimal gives it back.
pub proof fn lemma_id_round_trip(k: u64)
    ensures
        parse_id_text(id_text(k as int)) == Some(k),
{
    lemma_id_text(k as int);
}

fn digit_str(d: u64) -> (out: &'static str)
    requires
        d < 10,
    ensures
        out@ == seq![digit_char(d as int)],
{
    proof {
        reveal_strlit("0");
        reveal_strlit("1");
        reveal_strlit("2");
        reveal_strlit("3");
        reveal_strlit("4");
        reveal_strlit("5");
        reveal_strlit("6");
        reveal_strlit("7");
        reveal_strlit("8");
        reveal_strlit("9");
    }
    let out = if d == 0 {
        "0"
    } else if d == 1 {
        "1"
    } else if d == 2 {
        "2"
    } else if d == 3 {
        "3"
    } else if d == 4 {
        "4"
    } else if d == 5 {
        "5"
    } else if d == 6 {
        "6"
    } else if d == 7 {
        "7"
    } else if d == 8 {
        "8"
    } else {
        "9"
    };
    assert(out@ =~= seq![digit_char(d as int)]);
    out
}

/// Writes an identifier in decimal.
pub fn render_id(n: u64) -> (out: String)
    ensures
        out@ == id_text(n as int),
    decreases n,
{
    if n < 10 {
        String::from_str(digit_str(n))
    } else {
        let mut out = render_id(n / 10);
        out.append(digit_str(n % 10));
        assert(out@ =~= id_text(n as int));
        out
    }
}

/// Reads an identifier: `None` where the text is not one.
pub fn parse_id(s: &str) -> (out: Option<u64>)
    ensures
        out == parse_id_text(s@),
{
    let n = s.unicode_len();
    let start: usize = if n > 0 && s.get_char(0) == '+' {
        1
    } else {
        0
    };
    if start == n {
        return None;
    }
    let ghost digits = if s@.len() > 0 && s@[0] == '+' {
        s@.subrange(1, s@.len() as int)
    } else {
        s@
    };
    let mut acc: u64 = 0;
    let mut i: usize = start;
    assert(digits.take(0) =~= Seq::<char>::empty());
    while i < n
        invariant
            n == s@.len(),
            start <= i <= n,
            start < n,
            digits.len() == n - start,
            forall|j: int| 0 <= j < digits.len() ==> digits[j] == s@[start + j],
            digits == if s@.len() > 0 && s@[0] == '+' {
                s@.subrange(1, s@.len() as int)
            } else {
                s@
            },
            all_digits(digits.take(i - start)),
            acc == digits_value(digits.take(i - start)),
        decreases n - i,
    {
        let c = s.get_char(i);
        let ghost k = i - start;
        assert(digits[k] == c);
        if !('0' <= c && c <= '9') {
            return None;
        }
        let d: u64 = (c as u32 - 48) as u64;
        proof {
            assert(digits.take(k + 1).drop_last() =~= digits.take(k));
            assert(digits.take(k + 1).last() == c);
            assert forall|j: int| 0 <= j < k + 1 implies is_digit(
                #[trigger] digits.take(k + 1)[j],
            ) by {
                if j < k {
                    assert(digits.take(k)[j] == digits[j]);
                }
            }
            assert(digits_value(digits.take(k + 1)) == acc * 10 + d);
        }
        if acc > (u64::MAX - d) / 10 {
            proof {
                if all_digits(digits) {
                    lemma_digits_value_grows(digits, k + 1);
                }
            }
            return None;
        }
        acc = acc * 10 + d;
        i += 1;
    }
    assert(digits.take(n - start) =~= digits);
    Some(acc)
}

/// What each of a sequence of lines holds.
pub open spec fn line_views(s: Seq<String>) -> Seq<Seq<char>> {
    Seq::new(s.len(), |i: int| s[i]@)
}

/// The text that stands for a payload: the payload itself, or the word `None` where
/// there is none.
pub open spec fn payload_text(data: Option<Seq<char>>) -> Seq<char> {
    match data {
        Some(text) => text,
        None => "None"@,
    }
}

/// Whether the text that stands for a payload can be a field of a line: it is not
/// empty and holds no white space.
pub open spec fn writable(data: Option<Seq<char>>) -> bool {
    payload_text(data).len() > 0 && no_space(payload_text(data))
}

/// The payload that is read from the text that stands for a payload: always a present
/// one, so that an absent payload comes back as the word `None`.
pub open spec fn read_back(data: Option<Seq<char>>) -> Option<Seq<char>> {
    Some(payload_text(data))
}

/// What a payload holds, as a sequence of characters.
pub open spec fn payload_view(data: Option<String>) -> Option<Seq<char>> {
    match data {
        Some(text) => Some(text@),
        None => None,
    }
}

/// Appends to `out` the text that stands for a payload.
pub fn push_payload(out: &mut String, data: &Option<String>)
    ensures
        final(out)@ == old(out)@ + payload_text(payload_view(*data)),
{
    match data {
        Some(text) => out.append(text.as_str()),
        None => out.append("None"),
    }
}

/// Appends one blank to `out`.
pub fn push_blank(out: &mut String)
    ensures
        final(out)@ == old(out)@ + seq![' '],
{
    proof {
        reveal_strlit(" ");
    }
    out.append(" ");
    assert(" "@ =~= seq![' ']);
}

} // verus!
