//! Character-level helpers shared by the time parser and the fuzzy matcher:
//! decimal digits, unsigned integer parsing, field splitting and rendering.

use vstd::prelude::*;

verus! {

/// The characters of `s`, in order.
///
/// Trusted: std's `str::chars` followed by `collect`, which yields the
/// Unicode scalar values of the string one by one, so the vector holds
/// exactly the string's view.
#[verifier::external_body]
pub(crate) fn chars_of(s: &str) -> (chars: Vec<char>)
    ensures
        chars@ == s@,
{
    s.chars().collect()
}

/// Appends one character to a string.
///
/// Trusted: std's `String::push`, which appends the character at the end.
#[verifier::external_body]
pub(crate) fn push_char(s: &mut String, c: char)
    ensures
        final(s)@ == old(s)@.push(c),
{
    s.push(c);
}

/// Compares two string slices.
///
/// Trusted: std's `==` on `str`, which holds exactly when both slices hold
/// the same characters.
#[verifier::external_body]
pub(crate) fn str_eq(a: &str, b: &str) -> (eq: bool)
    ensures
        eq == (a@ == b@),
{
    a == b
}

/// Lowercases a string.
///
/// Trusted: std's `str::to_lowercase`; its result is named, not stated.
#[verifier::external_body]
pub(crate) fn to_lowercase(s: &str) -> (lower: String)
    ensures
        lower@ == lowercase(s@),
{
    s.to_lowercase()
}

/// What std's `str::to_lowercase` returns for a string: the Unicode
/// lowercase mapping of every character.
pub uninterp spec fn lowercase(s: Seq<char>) -> Seq<char>;

/// Whether `c` is an ASCII decimal digit.
pub open spec fn is_digit(c: char) -> bool {
    '0' <= c && c <= '9'
}

/// The value of an ASCII decimal digit.
pub open spec fn digit_value(c: char) -> nat {
    (c as int - '0' as int) as nat
}

/// The ASCII character of the digit `d` (below ten).
pub open spec fn digit_char(d: nat) -> char {
    (d + '0' as int) as char
}

/// Whether every character of `s` is a decimal digit.
pub open spec fn all_digits(s: Seq<char>) -> bool {
    forall|i: int| 0 <= i < s.len() ==> is_digit(#[trigger] s[i])
}

/// The number that the decimal digits `s` spell, most significant first.
pub open spec fn digits_value(s: Seq<char>) -> nat
    decreases s.len(),
{
    if s.len() == 0 {
        0
    } else {
        digits_value(s.drop_last()) * 10 + digit_value(s.last())
    }
}

/// What std's `u32::from_str` accepts: an optional `+` followed by at least
/// one decimal digit, whose value fits in a `u32`.
pub open spec fn parse_u32_spec(s: Seq<char>) -> Option<u32> {
    let digits = if s.len() > 0 && s[0] == '+' {
        s.drop_first()
    } else {
        s
    };
    if digits.len() == 0 || !all_digits(digits) || digits_value(digits) > u32::MAX {
        None
    } else {
        Some(digits_value(digits) as u32)
    }
}

/// The decimal representation of `n`, without leading zeros.
pub open spec fn decimal(n: nat) -> Seq<char>
    decreases n,
{
    if n < 10 {
        seq![digit_char(n)]
    } else {
        decimal(n / 10).push(digit_char(n % 10))
    }
}

/// The decimal representation of `n`, padded with zeros to at least two
/// characters (the `{:02}` format).
pub open spec fn pad2(n: nat) -> Seq<char> {
    if n < 10 {
        seq!['0', digit_char(n)]
    } else {
        decimal(n)
    }
}

/// The pieces of `s` between occurrences of `sep`, as std's `str::split`
/// yields them: always at least one piece, empty pieces kept.
pub open spec fn split_on(s: Seq<char>, sep: char) -> Seq<Seq<char>>
    decreases s.len(),
{
    if s.len() == 0 {
        seq![Seq::<char>::empty()]
    } else {
        let init = split_on(s.drop_last(), sep);
        if s.last() == sep {
            init.push(Seq::<char>::empty())
        } else {
            init.update(init.len() - 1, init.last().push(s.last()))
        }
    }
}

pub proof fn lemma_split_on_nonempty(s: Seq<char>, sep: char)
    ensures
        split_on(s, sep).len() >= 1,
    decreases s.len(),
{
    if s.len() > 0 {
        lemma_split_on_nonempty(s.drop_last(), sep);
    }
}

pub proof fn lemma_digits_value_monotone(s: Seq<char>, i: int)
    requires
        0 <= i <= s.len(),
    ensures
        digits_value(s.subrange(0, i)) <= digits_value(s),
    decreases s.len() - i,
{
    if i < s.len() {
        lemma_digits_value_monotone(s, i + 1);
        assert(s.subrange(0, i + 1).drop_last() =~= s.subrange(0, i));
    } else {
        assert(s.subrange(0, i) =~= s);
    }
}

pub proof fn lemma_digit_roundtrip(d: nat)
    requires
        d < 10,
    ensures
        is_digit(digit_char(d)),
        digit_value(digit_char(d)) == d,
{
}

/// Reading back the decimal representation of `n` gives `n`.
pub proof fn lemma_decimal_roundtrip(n: nat)
    ensures
        decimal(n).len() >= 1,
        all_digits(decimal(n)),
        digits_value(decimal(n)) == n,
        decimal(n)[0] != '+',
    decreases n,
{
    if n < 10 {
        lemma_digit_roundtrip(n);
        let one = seq![digit_char(n)];
        assert(one.drop_last() =~= Seq::<char>::empty());
        assert(one.last() == digit_char(n));
        assert(digits_value(one) == digits_value(Seq::<char>::empty()) * 10 + digit_value(
            digit_char(n),
        ));
    } else {
        lemma_decimal_roundtrip(n / 10);
        lemma_digit_roundtrip(n % 10);
        let d = decimal(n / 10);
        let full = d.push(digit_char(n % 10));
        assert(full.drop_last() =~= d);
        assert(full.last() == digit_char(n % 10));
        assert(digits_value(full) == digits_value(d) * 10 + digit_value(digit_char(n % 10)));
        assert((n / 10) * 10 + n % 10 == n);
        assert forall|i: int| 0 <= i < decimal(n).len() implies is_digit(#[trigger] decimal(n)[i]) by {
            if i < d.len() {
                assert(decimal(n)[i] == d[i]);
            }
        }
    }
}

/// Reading back the zero-padded representation of `n` gives `n`.
pub proof fn lemma_pad2_roundtrip(n: nat)
    ensures
        pad2(n).len() >= 2,
        all_digits(pad2(n)),
        digits_value(pad2(n)) == n,
        pad2(n)[0] != '+',
        !pad2(n).contains(':'),
{
    lemma_decimal_roundtrip(n);
    if n < 10 {
        lemma_digit_roundtrip(n);
        let p = seq!['0', digit_char(n)];
        assert(p.drop_last() =~= seq!['0']);
        assert(seq!['0'].drop_last() =~= Seq::<char>::empty());
        assert(digits_value(seq!['0']) == digits_value(Seq::<char>::empty()) * 10 + digit_value(
            '0',
        ));
        assert(digits_value(seq!['0']) == 0);
        assert(p.last() == digit_char(n));
        assert(digits_value(p) == digits_value(seq!['0']) * 10 + digit_value(digit_char(n)));
        assert forall|i: int| 0 <= i < p.len() implies is_digit(#[trigger] p[i]) by {}
    } else {
        lemma_decimal_len(n);
    }
    assert forall|i: int| 0 <= i < pad2(n).len() implies pad2(n)[i] != ':' by {
        assert(is_digit(pad2(n)[i]));
    }
}

pub proof fn lemma_decimal_len(n: nat)
    ensures
        n >= 10 ==> decimal(n).len() >= 2,
    decreases n,
{
    if n >= 10 {
        lemma_decimal_roundtrip(n / 10);
    }
}

/// Splitting a string that has no separator gives the string itself.
pub proof fn lemma_split_no_sep(s: Seq<char>, sep: char)
    requires
        !s.contains(sep),
    ensures
        split_on(s, sep) == seq![s],
    decreases s.len(),
{
    if s.len() == 0 {
        assert(s =~= Seq::<char>::empty());
        assert(seq![Seq::<char>::empty()] =~= seq![s]);
    } else {
        assert(!s.drop_last().contains(sep)) by {
            if s.drop_last().contains(sep) {
                let i = choose|i: int| 0 <= i < s.drop_last().len() && s.drop_last()[i] == sep;
                assert(s[i] == sep);
            }
        }
        lemma_split_no_sep(s.drop_last(), sep);
        assert(s.last() != sep) by {
            assert(s[s.len() - 1] == s.last());
        }
        assert(s.drop_last().push(s.last()) =~= s);
    }
}

/// Splitting `a + [sep] + b` splits `a` and `b` apart.
pub proof fn lemma_split_concat(a: Seq<char>, sep: char, b: Seq<char>)
    ensures
        split_on(a.push(sep) + b, sep) == split_on(a, sep) + split_on(b, sep),
    decreases b.len(),
{
    lemma_split_on_nonempty(a, sep);
    if b.len() == 0 {
        assert(a.push(sep) + b =~= a.push(sep));
        assert(a.push(sep).drop_last() =~= a);
        assert(split_on(a, sep).push(Seq::<char>::empty()) =~= split_on(a, sep) + split_on(b, sep));
    } else {
        let b0 = b.drop_last();
        lemma_split_concat(a, sep, b0);
        lemma_split_on_nonempty(b0, sep);
        let s = a.push(sep) + b;
        assert(s.drop_last() =~= a.push(sep) + b0);
        assert(s.last() == b.last());
        let fa = split_on(a, sep);
        let fb0 = split_on(b0, sep);
        if b.last() == sep {
            assert((fa + fb0).push(Seq::<char>::empty()) =~= fa + fb0.push(Seq::<char>::empty()));
        } else {
            let init = fa + fb0;
            assert(init.last() == fb0.last());
            assert(init.update(init.len() - 1, init.last().push(b.last())) =~= fa + fb0.update(
                fb0.len() - 1,
                fb0.last().push(b.last()),
            ));
        }
    }
}

/// The first piece of `s` ends at the first separator `e` (or at the end).
pub proof fn lemma_split_first(s: Seq<char>, sep: char, e: int)
    requires
        0 <= e <= s.len(),
        !s.subrange(0, e).contains(sep),
        e == s.len() || s[e] == sep,
    ensures
        split_on(s, sep)[0] == s.subrange(0, e),
        e == s.len() ==> split_on(s, sep).len() == 1,
        e < s.len() ==> split_on(s, sep) == seq![s.subrange(0, e)] + split_on(
            s.subrange(e + 1, s.len() as int),
            sep,
        ),
{
    if e == s.len() {
        assert(s.subrange(0, e) =~= s);
        lemma_split_no_sep(s, sep);
    } else {
        let a = s.subrange(0, e);
        let b = s.subrange(e + 1, s.len() as int);
        assert(a.push(sep) + b =~= s);
        lemma_split_concat(a, sep, b);
        lemma_split_no_sep(a, sep);
    }
}

/// The position of the first `sep` in `chars[start..]`, or the length.
pub fn find_sep(chars: &Vec<char>, start: usize, sep: char) -> (e: usize)
    requires
        start <= chars@.len(),
    ensures
        start <= e <= chars@.len(),
        !chars@.subrange(start as int, e as int).contains(sep),
        e == chars@.len() || chars@[e as int] == sep,
{
    let mut i = start;
    while i < chars.len()
        invariant
            start <= i <= chars@.len(),
            !chars@.subrange(start as int, i as int).contains(sep),
        decreases chars@.len() - i,
    {
        if chars[i] == sep {
            return i;
        }
        proof {
            let next = chars@.subrange(start as int, i + 1);
            assert(!next.contains(sep)) by {
                if next.contains(sep) {
                    let k = choose|k: int| 0 <= k < next.len() && next[k] == sep;
                    if k < i - start {
                        assert(chars@.subrange(start as int, i as int)[k] == sep);
                    }
                }
            }
        }
        i = i + 1;
    }
    i
}

/// Parses the characters `chars[start..end]` as std's `u32::from_str` does.
#[verifier::loop_isolation(false)]
pub fn parse_u32(chars: &Vec<char>, start: usize, end: usize) -> (r: Option<u32>)
    requires
        start <= end <= chars@.len(),
    ensures
        r == parse_u32_spec(chars@.subrange(start as int, end as int)),
{
    let ghost s = chars@.subrange(start as int, end as int);
    let mut first = start;
    if start < end && chars[start] == '+' {
        first = start + 1;
    }
    let ghost digits = chars@.subrange(first as int, end as int);
    assert(digits =~= (if s.len() > 0 && s[0] == '+' {
        s.drop_first()
    } else {
        s
    }));
    if first == end {
        return None;
    }
    let mut i = first;
    while i < end
        invariant
            first <= i <= end <= chars@.len(),
            forall|k: int| first <= k < i ==> is_digit(#[trigger] chars@[k]),
        decreases end - i,
    {
        let c = chars[i];
        if !('0' <= c && c <= '9') {
            assert(digits[i - first] == chars@[i as int]);
            assert(!is_digit(digits[i - first]));
            assert(!all_digits(digits));
            return None;
        }
        i = i + 1;
    }
    assert(all_digits(digits)) by {
        assert forall|k: int| 0 <= k < digits.len() implies is_digit(#[trigger] digits[k]) by {
            assert(digits[k] == chars@[first + k]);
        }
    }
    let mut value: u32 = 0;
    let mut j = first;
    while j < end
        invariant
            first <= j <= end <= chars@.len(),
            digits == chars@.subrange(first as int, end as int),
            all_digits(digits),
            value == digits_value(chars@.subrange(first as int, j as int)),
        decreases end - j,
    {
        let c = chars[j];
        assert(is_digit(digits[j - first]));
        let d = (c as u32) - ('0' as u32);
        let ghost prefix = chars@.subrange(first as int, j as int + 1);
        assert(prefix.drop_last() =~= chars@.subrange(first as int, j as int));
        assert(prefix.last() == c);
        assert(digit_value(c) == d);
        assert(digits_value(prefix) == value * 10 + d);
        if value > 429496729 || (value == 429496729 && d > 5) {
            proof {
                assert(digits_value(prefix) > u32::MAX);
                lemma_digits_value_monotone(digits, j - first + 1);
                assert(digits.subrange(0, j - first + 1) =~= prefix);
            }
            return None;
        }
        value = value * 10 + d;
        j = j + 1;
    }
    assert(chars@.subrange(first as int, end as int) =~= digits);
    Some(value)
}

/// Renders `n` in decimal, padded with zeros to at least two characters.
pub fn push_pad2(out: &mut String, n: u32)
    ensures
        final(out)@ == old(out)@ + pad2(n as nat),
{
    if n < 10 {
        push_char(out, '0');
        push_char(out, ((n as u8) + 48u8) as char);
        assert(old(out)@.push('0').push(digit_char(n as nat)) =~= old(out)@ + pad2(n as nat));
    } else {
        push_decimal(out, n);
    }
}

/// Renders `n` in decimal.
pub fn push_decimal(out: &mut String, n: u32)
    ensures
        final(out)@ == old(out)@ + decimal(n as nat),
    decreases n,
{
    if n < 10 {
        push_char(out, ((n as u8) + 48u8) as char);
        assert(old(out)@.push(digit_char(n as nat)) =~= old(out)@ + decimal(n as nat));
    } else {
        push_decimal(out, n / 10);
        let d = n % 10;
        push_char(out, ((d as u8) + 48u8) as char);
        assert(old(out)@ + decimal((n / 10) as nat) + seq![digit_char(d as nat)] =~= old(out)@
            + decimal(n as nat));
    }
}

} // verus!
