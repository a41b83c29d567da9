//! Reading numbers and number lists from text lines.

use vstd::prelude::*;
use vstd::string::*;

verus! {

/// `c` has the Unicode `White_Space` property.
pub open spec fn is_white_space(c: char) -> bool {
    let u = c as u32;
    ||| 0x9 <= u <= 0xD
    ||| u == 0x20
    ||| u == 0x85
    ||| u == 0xA0
    ||| u == 0x1680
    ||| 0x2000 <= u <= 0x200A
    ||| u == 0x2028
    ||| u == 0x2029
    ||| u == 0x202F
    ||| u == 0x205F
    ||| u == 0x3000
}

/// Number of white-space characters at the start of `s`.
pub open spec fn leading_white_space(s: Seq<char>) -> nat
    decreases s.len(),
{
    if s.len() > 0 && is_white_space(s[0]) {
        1 + leading_white_space(s.drop_first())
    } else {
        0
    }
}

/// Number of white-space characters at the end of `s`.
pub open spec fn trailing_white_space(s: Seq<char>) -> nat
    decreases s.len(),
{
    if s.len() > 0 && is_white_space(s.last()) {
        1 + trailing_white_space(s.drop_last())
    } else {
        0
    }
}

/// `s` without its leading and trailing white space.
pub open spec fn trim(s: Seq<char>) -> Seq<char> {
    let t = s.skip(leading_white_space(s) as int);
    t.take(t.len() - trailing_white_space(t))
}

pub open spec fn is_digit(c: char) -> bool {
    '0' <= c <= '9'
}

pub open spec fn digit_value(c: char) -> int {
    c as int - '0' as int
}

/// The number written by the decimal digits `s`.
pub open spec fn decimal_value(s: Seq<char>) -> int
    decreases s.len(),
{
    if s.len() == 0 {
        0
    } else {
        decimal_value(s.drop_last()) * 10 + digit_value(s.last())
    }
}

/// `s` without a leading `+` or `-`.
pub open spec fn unsigned_part(s: Seq<char>) -> Seq<char> {
    if s.len() > 0 && (s[0] == '-' || s[0] == '+') {
        s.drop_first()
    } else {
        s
    }
}

pub open spec fn all_digits(d: Seq<char>) -> bool {
    forall|i: int| 0 <= i < d.len() ==> is_digit(#[trigger] d[i])
}

/// The `i32` that `s` writes in the form `i32` accepts from text: an
/// optional `+` or `-`, then one or more decimal digits; `None` when `s` has
/// another form or the number does not fit.
pub open spec fn i32_text_value(s: Seq<char>) -> Option<i32> {
    let digits = unsigned_part(s);
    let v = if s.len() > 0 && s[0] == '-' {
        -decimal_value(digits)
    } else {
        decimal_value(digits)
    };
    if digits.len() > 0 && all_digits(digits) && i32::MIN <= v <= i32::MAX {
        Some(v as i32)
    } else {
        None
    }
}

/// The pieces of `s` between single spaces, as `split(" ")` gives them.
pub open spec fn split_on_space(s: Seq<char>) -> Seq<Seq<char>>
    decreases s.len(),
{
    if s.len() == 0 {
        seq![Seq::empty()]
    } else {
        let rest = split_on_space(s.drop_last());
        if s.last() == ' ' {
            rest.push(Seq::empty())
        } else {
            rest.update(rest.len() - 1, rest.last().push(s.last()))
        }
    }
}

pub proof fn lemma_split_nonempty(s: Seq<char>)
    ensures
        split_on_space(s).len() >= 1,
    decreases s.len(),
{
    if s.len() > 0 {
        lemma_split_nonempty(s.drop_last());
    }
}

proof fn lemma_decimal_prefix(d: Seq<char>, k: int)
    requires
        0 <= k <= d.len(),
        all_digits(d),
    ensures
        0 <= decimal_value(d.take(k)) <= decimal_value(d),
    decreases d.len(),
{
    if d.len() > 0 {
        if k == d.len() {
            assert(d.take(k) =~= d);
            lemma_decimal_prefix(d.drop_last(), k - 1);
            assert(d.drop_last().take(k - 1) =~= d.drop_last());
        } else {
            lemma_decimal_prefix(d.drop_last(), k);
            assert(d.drop_last().take(k) =~= d.take(k));
            lemma_decimal_prefix(d.drop_last(), d.len() - 1);
            assert(d.drop_last().take(d.len() - 1) =~= d.drop_last());
        }
    }
}

/// Reads the `i32` written in `value@[from..to)`, or `None` when that text
/// is not one.
pub(crate) fn parse_i32_between(value: &str, from: usize, to: usize) -> (r: Option<i32>)
    requires
        from <= to <= value@.len(),
    ensures
        r == i32_text_value(value@.subrange(from as int, to as int)),
{
    let ghost s = value@.subrange(from as int, to as int);
    if from == to {
        return None;
    }
    let first = value.get_char(from);
    let negative = first == '-';
    let start = if first == '-' || first == '+' {
        from + 1
    } else {
        from
    };
    let ghost digits = value@.subrange(start as int, to as int);
    assert(digits =~= unsigned_part(s));
    if start == to {
        return None;
    }
    let mut acc: i64 = 0;
    let mut i: usize = start;
    while i < to
        invariant
            from <= start < to <= value@.len(),
            start <= i <= to,
            digits == value@.subrange(start as int, to as int),
            s == value@.subrange(from as int, to as int),
            digits == unsigned_part(s),
            negative == (s[0] == '-'),
            forall|q: int| 0 <= q < i - start ==> is_digit(#[trigger] digits[q]),
            acc == decimal_value(digits.take(i - start)),
            0 <= acc <= 2147483648,
        decreases to - i,
    {
        let c = value.get_char(i);
        assert(c == digits[i - start]);
        if c < '0' || c > '9' {
            assert(!is_digit(digits[i - start]));
            assert(!all_digits(digits));
            return None;
        }
        let d = (c as u32 - '0' as u32) as i64;
        acc = acc * 10 + d;
        proof {
            assert(digits.take(i - start + 1).drop_last() =~= digits.take(i - start));
        }
        i += 1;
        if acc > 2147483648 {
            proof {
                assert(forall|q: int| 0 <= q < i - start ==> is_digit(#[trigger] digits[q]));
                if all_digits(digits) {
                    lemma_decimal_prefix(digits, i - start);
                    assert(decimal_value(digits) > 2147483648);
                }
                assert(i32_text_value(s) is None);
            }
            return None;
        }
    }
    assert(digits.take(to - start) =~= digits);
    if negative {
        Some((-acc) as i32)
    } else if acc <= 2147483647 {
        Some(acc as i32)
    } else {
        None
    }
}

/// Reads an `i32` written in decimal, or `None` when `value` is not one.
pub fn parse_i32(value: &str) -> (r: Option<i32>)
    ensures
        r == i32_text_value(value@),
{
    let n = value.unicode_len();
    assert(value@.subrange(0, n as int) =~= value@);
    parse_i32_between(value, 0, n)
}

/// Reads an `i32` written in decimal; the text must be one.
pub fn parse_num(value: &str) -> (n: i32)
    requires
        i32_text_value(value@) is Some,
    ensures
        i32_text_value(value@) == Some(n),
{
    match parse_i32(value) {
        Some(n) => n,
        None => {
            assert(false);
            0
        },
    }
}

fn is_white_space_exec(c: char) -> (r: bool)
    ensures
        r == is_white_space(c),
{
    let u = c as u32;
    (0x9 <= u && u <= 0xD) || u == 0x20 || u == 0x85 || u == 0xA0 || u == 0x1680 || (0x2000 <= u
        && u <= 0x200A) || u == 0x2028 || u == 0x2029 || u == 0x202F || u == 0x205F || u == 0x3000
}

proof fn lemma_leading_white_space(s: Seq<char>, a: int)
    requires
        0 <= a <= s.len(),
        forall|q: int| 0 <= q < a ==> is_white_space(#[trigger] s[q]),
        a == s.len() || !is_white_space(s[a]),
    ensures
        leading_white_space(s) == a,
    decreases a,
{
    if a > 0 {
        lemma_leading_white_space(s.drop_first(), a - 1);
    }
}

proof fn lemma_trailing_white_space(t: Seq<char>, c: int)
    requires
        0 <= c <= t.len(),
        forall|q: int| t.len() - c <= q < t.len() ==> is_white_space(#[trigger] t[q]),
        c == t.len() || !is_white_space(t[t.len() - c - 1]),
    ensures
        trailing_white_space(t) == c,
    decreases c,
{
    if c > 0 {
        lemma_trailing_white_space(t.drop_last(), c - 1);
    }
}

/// The character positions `[a, b)` of `value` that remain after trimming.
fn trimmed_bounds(value: &str) -> (r: (usize, usize))
    ensures
        r.0 <= r.1 <= value@.len(),
        value@.subrange(r.0 as int, r.1 as int) == trim(value@),
{
    let n = value.unicode_len();
    let mut a: usize = 0;
    while a < n && is_white_space_exec(value.get_char(a))
        invariant
            a <= n == value@.len(),
            forall|q: int| 0 <= q < a ==> is_white_space(#[trigger] value@[q]),
        decreases n - a,
    {
        a += 1;
    }
    let mut b: usize = n;
    while b > a && is_white_space_exec(value.get_char(b - 1))
        invariant
            a <= b <= n == value@.len(),
            forall|q: int| b <= q < n ==> is_white_space(#[trigger] value@[q]),
        decreases b - a,
    {
        b -= 1;
    }
    proof {
        let s = value@;
        lemma_leading_white_space(s, a as int);
        let t = s.skip(a as int);
        assert forall|q: int| t.len() - (n - b) <= q < t.len() implies is_white_space(
            #[trigger] t[q],
        ) by {
            assert(t[q] == s[q + a]);
        }
        lemma_trailing_white_space(t, (n - b) as int);
        assert(t.take(t.len() - (n - b)) =~= s.subrange(a as int, b as int));
    }
    (a, b)
}

/// Reads the `i32` written in `line` once trimmed, or `None` when it is not one.
pub fn parse_line_i32(line: &str) -> (r: Option<i32>)
    ensures
        r == i32_text_value(trim(line@)),
{
    let (a, b) = trimmed_bounds(line);
    parse_i32_between(line, a, b)
}

/// Reads the `i32` written in `line` once trimmed; the line must hold one.
pub fn read_line_as_i32(line: &str) -> (n: i32)
    requires
        i32_text_value(trim(line@)) is Some,
    ensures
        i32_text_value(trim(line@)) == Some(n),
{
    match parse_line_i32(line) {
        Some(n) => n,
        None => {
            assert(false);
            0
        },
    }
}

/// Pieces that are finished in a prefix of `s` stay the same pieces of `s`.
pub proof fn lemma_split_prefix(s: Seq<char>, i: int, j: int)
    requires
        0 <= i <= j <= s.len(),
    ensures
        split_on_space(s.take(i)).len() <= split_on_space(s.take(j)).len(),
        forall|k: int|
            0 <= k < split_on_space(s.take(i)).len() - 1 ==> #[trigger] split_on_space(s.take(j))[k]
                == split_on_space(s.take(i))[k],
    decreases j - i,
{
    if i < j {
        lemma_split_prefix(s, i, j - 1);
        assert(s.take(j).drop_last() =~= s.take(j - 1));
        lemma_split_nonempty(s.take(j - 1));
    }
}

/// The characters of `value`.
pub fn chars_of(value: &str) -> (chars: Vec<char>)
    ensures
        chars@ == value@,
{
    let n = value.unicode_len();
    let mut chars: Vec<char> = Vec::new();
    let mut i: usize = 0;
    while i < n
        invariant
            n == value@.len(),
            i <= n,
            chars@ =~= value@.take(i as int),
        decreases n - i,
    {
        chars.push(value.get_char(i));
        i += 1;
    }
    assert(value@.take(n as int) =~= value@);
    chars
}

/// `needle` occurs in `haystack` as a run of consecutive characters.
pub open spec fn contains_text(haystack: Seq<char>, needle: Seq<char>) -> bool {
    exists|i: int|
        0 <= i <= haystack.len() - needle.len() && #[trigger] haystack.subrange(i, i + needle.len())
            == needle
}

/// Whether `needle` occurs in `haystack`.
pub fn contains(haystack: &str, needle: &str) -> (found: bool)
    ensures
        found == contains_text(haystack@, needle@),
{
    let hay = chars_of(haystack);
    let pat = chars_of(needle);
    let n = hay.len();
    let m = pat.len();
    if m > n {
        return false;
    }
    let mut i: usize = 0;
    while i <= n - m
        invariant
            hay@ == haystack@,
            pat@ == needle@,
            n == hay@.len(),
            m == pat@.len(),
            m <= n,
            i <= n - m + 1,
            forall|p: int| 0 <= p < i ==> #[trigger] hay@.subrange(p, p + m) != pat@,
        decreases n - m + 1 - i,
    {
        let mut j: usize = 0;
        while j < m && hay[i + j] == pat[j]
            invariant
                n == hay@.len(),
                m == pat@.len(),
                i + m <= n,
                j <= m,
                forall|q: int| 0 <= q < j ==> hay@[i + q] == pat@[q],
            decreases m - j,
        {
            j += 1;
        }
        if j == m {
            assert(hay@.subrange(i as int, i + m) =~= pat@);
            return true;
        }
        assert(hay@.subrange(i as int, i + m)[j as int] != pat@[j as int]);
        i += 1;
    }
    assert forall|p: int| 0 <= p <= haystack@.len() - needle@.len() implies #[trigger] haystack@.subrange(
        p,
        p + needle@.len(),
    ) != needle@ by {
        assert(hay@.subrange(p, p + m) != pat@);
    }
    false
}

} // verus!
