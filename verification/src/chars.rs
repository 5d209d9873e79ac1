//! Character-level helpers: decimal digits, reading and writing of `usize`
//! in decimal, trimming of spaces, and searching for a character.

use vstd::prelude::*;

verus! {

/// A decimal digit `'0'..='9'`.
pub open spec fn is_digit(c: char) -> bool {
    '0' <= c && c <= '9'
}

/// Every character of `s` is a decimal digit.
pub open spec fn all_digits(s: Seq<char>) -> bool {
    forall|i: int| 0 <= i < s.len() ==> is_digit(#[trigger] s[i])
}

/// The numeric value of a digit character.
pub open spec fn digit_value(c: char) -> nat {
    (c as int - '0' as int) as nat
}

/// The character of a digit `d < 10`.
pub open spec fn digit_char(d: nat) -> char {
    (d + 48) as char
}

/// The value of a string of decimal digits, most significant digit first.
pub open spec fn digits_value(s: Seq<char>) -> nat
    decreases s.len(),
{
    if s.len() == 0 {
        0
    } else {
        digits_value(s.drop_last()) * 10 + digit_value(s.last())
    }
}

/// A non-empty string of decimal digits whose value fits in `usize`.
pub open spec fn spec_parse_digits(s: Seq<char>) -> Option<usize> {
    if s.len() > 0 && all_digits(s) && digits_value(s) <= usize::MAX {
        Some(digits_value(s) as usize)
    } else {
        None
    }
}

/// What `str::parse::<usize>` accepts: an optional leading `+`, then one or
/// more decimal digits whose value fits in `usize`.
pub open spec fn spec_parse_usize(s: Seq<char>) -> Option<usize> {
    if s.len() > 0 && s[0] == '+' {
        spec_parse_digits(s.drop_first())
    } else {
        spec_parse_digits(s)
    }
}

/// The decimal representation of `n`, as `format!("{}", n)` writes it.
pub open spec fn decimal(n: nat) -> Seq<char>
    decreases n,
{
    if n < 10 {
        seq![digit_char(n)]
    } else {
        decimal(n / 10).push(digit_char(n % 10))
    }
}

/// The decimal representation of a `usize`.
pub open spec fn usize_decimal(n: usize) -> Seq<char> {
    decimal(n as nat)
}

/// `s` without its leading spaces.
pub open spec fn trim_start(s: Seq<char>) -> Seq<char>
    decreases s.len(),
{
    if s.len() > 0 && s[0] == ' ' {
        trim_start(s.drop_first())
    } else {
        s
    }
}

/// `s` without its trailing spaces.
pub open spec fn trim_end(s: Seq<char>) -> Seq<char>
    decreases s.len(),
{
    if s.len() > 0 && s.last() == ' ' {
        trim_end(s.drop_last())
    } else {
        s
    }
}

/// `s` without its leading and trailing spaces.
pub open spec fn trim(s: Seq<char>) -> Seq<char> {
    trim_end(trim_start(s))
}

/// The first position at or after `p` that holds `c`, or `s.len()` when
/// there is none.
pub open spec fn next_index_of(s: Seq<char>, p: int, c: char) -> int
    decreases s.len() - p,
{
    if p >= s.len() {
        s.len() as int
    } else if s[p] == c {
        p
    } else {
        next_index_of(s, p + 1, c)
    }
}

/// The value of a prefix of a digit string is at most the value of the whole.
pub proof fn lemma_digits_prefix_le(s: Seq<char>, j: int)
    requires
        all_digits(s),
        0 <= j <= s.len(),
    ensures
        digits_value(s.take(j)) <= digits_value(s),
    decreases s.len(),
{
    if j < s.len() {
        let t = s.drop_last();
        assert(t.take(j) =~= s.take(j));
        lemma_digits_prefix_le(t, j);
    } else {
        assert(s.take(j) =~= s);
    }
}

/// `decimal(n)` is a non-empty digit string whose value is `n`.
pub proof fn lemma_decimal(n: nat)
    ensures
        decimal(n).len() > 0,
        all_digits(decimal(n)),
        digits_value(decimal(n)) == n,
        decimal(n)[0] != '+',
    decreases n,
{
    if n < 10 {
        let s = decimal(n);
        assert(s.drop_last() =~= Seq::<char>::empty());
        assert(digits_value(Seq::<char>::empty()) == 0);
    } else {
        lemma_decimal(n / 10);
        let s = decimal(n);
        assert(s.drop_last() =~= decimal(n / 10));
        assert(s[0] == decimal(n / 10)[0]);
        assert forall|i: int| 0 <= i < s.len() implies is_digit(#[trigger] s[i]) by {
            if i < s.len() - 1 {
                assert(s[i] == decimal(n / 10)[i]);
            }
        }
    }
}

/// Reading back what `format!("{}", n)` writes gives `n`.
pub proof fn lemma_parse_decimal(n: usize)
    ensures
        spec_parse_usize(decimal(n as nat)) == Some(n),
{
    lemma_decimal(n as nat);
}

/// `next_index_of` stays within `p..=s.len()`, finds `c` where it stops
/// short of the end, and skips no `c` on the way.
pub proof fn lemma_next_index_of(s: Seq<char>, p: int, c: char)
    requires
        0 <= p <= s.len(),
    ensures
        p <= next_index_of(s, p, c) <= s.len(),
        next_index_of(s, p, c) < s.len() ==> s[next_index_of(s, p, c)] == c,
        forall|i: int| p <= i < next_index_of(s, p, c) ==> s[i] != c,
    decreases s.len() - p,
{
    if p < s.len() && s[p] != c {
        lemma_next_index_of(s, p + 1, c);
    }
}

/// `std::num::ParseIntError`, the error of reading an integer.
#[verifier::external_type_specification]
#[verifier::external_body]
pub struct ExParseIntError(std::num::ParseIntError);

/// `str::parse::<usize>`. std documents that it accepts an optional `+` sign
/// followed by decimal digits (nothing else, no spaces) whose value fits in a
/// `usize`, and returns an error otherwise: this is `spec_parse_usize`. Which
/// error it returns (its kind) is left unsaid.
#[verifier::external_body]
pub(crate) fn std_parse_usize(s: &str) -> (r: Result<usize, std::num::ParseIntError>)
    ensures
        match r {
            Ok(n) => spec_parse_usize(s@) == Some(n),
            Err(_) => spec_parse_usize(s@) is None,
        },
{
    s.parse::<usize>()
}

/// `String::push`: appends one character.
#[verifier::external_body]
pub(crate) fn push_char(s: &mut String, c: char)
    ensures
        final(s)@ == old(s)@.push(c),
{
    s.push(c)
}

/// The characters of `s`, in order.
pub fn str_to_chars(s: &str) -> (r: Vec<char>)
    ensures
        r@ == s@,
{
    let len = s.unicode_len();
    let mut r: Vec<char> = Vec::new();
    let mut i: usize = 0;
    while i < len
        invariant
            len == s@.len(),
            i <= len,
            r@ == s@.take(i as int),
        decreases len - i,
    {
        r.push(s.get_char(i));
        i = i + 1;
        assert(r@ =~= s@.take(i as int));
    }
    assert(s@.take(len as int) =~= s@);
    r
}

/// The characters `v[a..b]` as a `String`.
pub fn chars_to_string(v: &Vec<char>, a: usize, b: usize) -> (r: String)
    requires
        a <= b <= v.len(),
    ensures
        r@ == v@.subrange(a as int, b as int),
{
    let mut r = String::new();
    let mut i: usize = a;
    while i < b
        invariant
            a <= i <= b,
            b <= v.len(),
            r@ == v@.subrange(a as int, i as int),
        decreases b - i,
    {
        push_char(&mut r, v[i]);
        i = i + 1;
        assert(r@ =~= v@.subrange(a as int, i as int));
    }
    r
}

/// The characters `v[a..b]` as a new vector.
pub fn sub_chars(v: &Vec<char>, a: usize, b: usize) -> (r: Vec<char>)
    requires
        a <= b <= v.len(),
    ensures
        r@ == v@.subrange(a as int, b as int),
{
    let mut r: Vec<char> = Vec::new();
    let mut i: usize = a;
    while i < b
        invariant
            a <= i <= b,
            b <= v.len(),
            r@ == v@.subrange(a as int, i as int),
        decreases b - i,
    {
        r.push(v[i]);
        i = i + 1;
        assert(r@ =~= v@.subrange(a as int, i as int));
    }
    r
}

/// Whether `v[a..b]` holds only decimal digits.
pub fn all_digits_in(v: &Vec<char>, a: usize, b: usize) -> (r: bool)
    requires
        a <= b <= v.len(),
    ensures
        r == all_digits(v@.subrange(a as int, b as int)),
{
    let ghost s = v@.subrange(a as int, b as int);
    let mut i: usize = a;
    while i < b
        invariant
            a <= i <= b,
            b <= v.len(),
            s == v@.subrange(a as int, b as int),
            forall|k: int| 0 <= k < i - a ==> is_digit(#[trigger] s[k]),
        decreases b - i,
    {
        let c = v[i];
        if !('0' <= c && c <= '9') {
            assert(!is_digit(s[i - a]));
            return false;
        }
        i = i + 1;
    }
    true
}

/// Reads `v[a..b]` as a non-empty string of decimal digits; `None` when it
/// is empty, holds another character, or its value exceeds `usize::MAX`.
pub fn parse_digits(v: &Vec<char>, a: usize, b: usize) -> (r: Option<usize>)
    requires
        a <= b <= v.len(),
    ensures
        r == spec_parse_digits(v@.subrange(a as int, b as int)),
{
    let ghost body = v@.subrange(a as int, b as int);
    if a == b {
        return None;
    }
    let mut i: usize = a;
    let mut acc: usize = 0;
    while i < b
        invariant
            a <= i <= b,
            b <= v.len(),
            body == v@.subrange(a as int, b as int),
            all_digits(body.take(i - a)),
            acc == digits_value(body.take(i - a)),
        decreases b - i,
    {
        let c = v[i];
        assert(c == body[i - a]);
        if !('0' <= c && c <= '9') {
            assert(!all_digits(body));
            return None;
        }
        let d: usize = ((c as u32) - ('0' as u32)) as usize;
        assert(body.take(i - a + 1).drop_last() =~= body.take(i - a));
        assert(body.take(i - a + 1).last() == c);
        if acc > (usize::MAX - d) / 10 {
            proof {
                assert(digits_value(body.take(i - a + 1)) == acc * 10 + d);
                if all_digits(body) {
                    lemma_digits_prefix_le(body, i - a + 1);
                }
            }
            return None;
        }
        acc = acc * 10 + d;
        i = i + 1;
        assert forall|k: int| 0 <= k < i - a implies is_digit(#[trigger] body.take(i - a)[k]) by {
            if k < i - a - 1 {
                assert(body.take(i - a)[k] == body.take(i - a - 1)[k]);
            }
        }
    }
    assert(body.take(i - a) =~= body);
    Some(acc)
}

/// `str::parse::<usize>` on `s`, with `None` where it returns an error.
pub fn parse_usize(s: &str) -> (r: Option<usize>)
    ensures
        r == spec_parse_usize(s@),
{
    let v = str_to_chars(s);
    let len = v.len();
    if len > 0 && v[0] == '+' {
        assert(v@.subrange(1, len as int) =~= s@.drop_first());
        parse_digits(&v, 1, len)
    } else {
        assert(v@.subrange(0, len as int) =~= s@);
        parse_digits(&v, 0, len)
    }
}

/// Appends the decimal representation of `n` to `s`.
fn push_decimal(n: usize, s: &mut String)
    ensures
        final(s)@ == old(s)@ + decimal(n as nat),
    decreases n,
{
    if n >= 10 {
        push_decimal(n / 10, s);
    }
    let d: u8 = (n % 10) as u8;
    let c = (d + 48u8) as char;
    push_char(s, c);
    assert(final(s)@ =~= old(s)@ + decimal(n as nat));
}

/// `format!("{}", n)`: the decimal representation of `n`.
pub fn usize_to_decimal(n: usize) -> (r: String)
    ensures
        r@ == decimal(n as nat),
{
    let mut s = String::new();
    push_decimal(n, &mut s);
    assert(s@ =~= decimal(n as nat));
    s
}

/// The first position at or after `p` where `v` holds `c`, or `v.len()`.
pub fn find_char(v: &Vec<char>, p: usize, c: char) -> (r: usize)
    requires
        p <= v.len(),
    ensures
        r == next_index_of(v@, p as int, c),
        p <= r <= v.len(),
{
    proof {
        lemma_next_index_of(v@, p as int, c);
    }
    let mut i: usize = p;
    while i < v.len() && v[i] != c
        invariant
            p <= i <= v.len(),
            next_index_of(v@, p as int, c) == next_index_of(v@, i as int, c),
        decreases v.len() - i,
    {
        i = i + 1;
    }
    i
}

/// The bounds of `v[a..b]` once its leading and trailing spaces are removed.
pub fn trim_bounds(v: &Vec<char>, a: usize, b: usize) -> (r: (usize, usize))
    requires
        a <= b <= v.len(),
    ensures
        a <= r.0 <= r.1 <= b,
        v@.subrange(r.0 as int, r.1 as int) == trim(v@.subrange(a as int, b as int)),
{
    let mut i: usize = a;
    while i < b && v[i] == ' '
        invariant
            a <= i <= b,
            b <= v.len(),
            trim_start(v@.subrange(a as int, b as int)) == trim_start(v@.subrange(i as int, b as int)),
        decreases b - i,
    {
        assert(v@.subrange(i as int, b as int).drop_first() =~= v@.subrange(i + 1, b as int));
        i = i + 1;
    }
    let mut j: usize = b;
    while j > i && v[j - 1] == ' '
        invariant
            a <= i <= j <= b,
            b <= v.len(),
            trim_start(v@.subrange(a as int, b as int)) == v@.subrange(i as int, b as int),
            trim_end(v@.subrange(i as int, b as int)) == trim_end(v@.subrange(i as int, j as int)),
        decreases j - i,
    {
        assert(v@.subrange(i as int, j as int).drop_last() =~= v@.subrange(i as int, j - 1));
        j = j - 1;
    }
    (i, j)
}

} // verus!
