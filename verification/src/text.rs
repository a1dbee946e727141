//! Text helpers shared by the gateway: trimming, lower-casing, equality and
//! decimal rendering of integers.

use vstd::prelude::*;

verus! {

/// A char with the Unicode `White_Space` property, as `char::is_whitespace`
/// documents it.
pub open spec fn is_white_space(c: char) -> bool {
    let u = c as u32;
    ||| 0x09 <= u <= 0x0d
    ||| u == 0x20 || u == 0x85 || u == 0xa0 || u == 0x1680
    ||| 0x2000 <= u <= 0x200a
    ||| u == 0x2028 || u == 0x2029 || u == 0x202f || u == 0x205f || u == 0x3000
}

/// A string without its leading white space.
pub open spec fn trim_start_spec(s: Seq<char>) -> Seq<char>
    decreases s.len(),
{
    if s.len() > 0 && is_white_space(s[0]) { trim_start_spec(s.drop_first()) } else { s }
}

/// A string without its trailing white space.
pub open spec fn trim_end_spec(s: Seq<char>) -> Seq<char>
    decreases s.len(),
{
    if s.len() > 0 && is_white_space(s.last()) { trim_end_spec(s.drop_last()) } else { s }
}

/// What `str::trim` returns for a string: the string without its leading
/// and trailing white space.
#[verifier::opaque]
pub open spec fn spec_trim(s: Seq<char>) -> Seq<char> {
    trim_end_spec(trim_start_spec(s))
}

/// A string that holds a char other than white space keeps one when trimmed.
pub proof fn lemma_trim_keeps_non_white(s: Seq<char>, i: int)
    requires
        0 <= i < s.len(),
        !is_white_space(s[i]),
    ensures
        spec_trim(s).len() > 0,
{
    reveal(spec_trim);
    lemma_trim_start_keeps(s, i);
    let t = trim_start_spec(s);
    let j = choose|j: int| 0 <= j < t.len() && !is_white_space(t[j]);
    lemma_trim_end_keeps(t, j);
}

proof fn lemma_trim_start_keeps(s: Seq<char>, i: int)
    requires
        0 <= i < s.len(),
        !is_white_space(s[i]),
    ensures
        exists|j: int| 0 <= j < trim_start_spec(s).len() && !is_white_space(#[trigger] trim_start_spec(s)[j]),
    decreases s.len(),
{
    if s.len() > 0 && is_white_space(s[0]) {
        assert(i > 0);
        assert(s.drop_first()[i - 1] == s[i]);
        lemma_trim_start_keeps(s.drop_first(), i - 1);
        assert(trim_start_spec(s) == trim_start_spec(s.drop_first()));
    } else {
        assert(trim_start_spec(s) == s);
        assert(!is_white_space(trim_start_spec(s)[i]));
    }
}

proof fn lemma_trim_end_keeps(s: Seq<char>, i: int)
    requires
        0 <= i < s.len(),
        !is_white_space(s[i]),
    ensures
        trim_end_spec(s).len() > 0,
    decreases s.len(),
{
    if s.len() > 0 && is_white_space(s.last()) {
        assert(i < s.len() - 1);
        assert(s.drop_last()[i] == s[i]);
        lemma_trim_end_keeps(s.drop_last(), i);
    }
}

/// What `str::to_lowercase` returns for a string, as a sequence of chars.
pub uninterp spec fn spec_lowercase(s: Seq<char>) -> Seq<char>;

/// Calls `str::trim`, which std documents as the input without its leading
/// and trailing white space (chars with the Unicode `White_Space` property);
/// `spec_trim` states that.
#[verifier::external_body]
pub(crate) fn trim_text<'a>(s: &'a str) -> (r: &'a str)
    ensures
        r@ == spec_trim(s@),
{
    s.trim()
}

/// Calls `str::to_lowercase`. The contract names its result `spec_lowercase`
/// of the input and states what std documents of its length: each char maps
/// to one or more chars, so the result is empty exactly when the input is.
/// The Unicode case mapping itself is not restated.
#[verifier::external_body]
pub(crate) fn lowercase_text(s: &str) -> (r: String)
    ensures
        r@ == spec_lowercase(s@),
        r@.len() == 0 <==> s@.len() == 0,
{
    s.to_lowercase()
}

/// Calls `<str as PartialEq>::eq`: two string slices are equal exactly when
/// they hold the same chars.
#[verifier::external_body]
pub(crate) fn str_eq(a: &str, b: &str) -> (r: bool)
    ensures
        r == (a@ == b@),
{
    a == b
}


/// The char for a decimal digit.
pub open spec fn digit_char(d: nat) -> char {
    if d == 0 { '0' } else if d == 1 { '1' } else if d == 2 { '2' } else if d == 3 { '3' }
    else if d == 4 { '4' } else if d == 5 { '5' } else if d == 6 { '6' } else if d == 7 { '7' }
    else if d == 8 { '8' } else { '9' }
}

/// Decimal digits of a natural number, most significant first, no leading zeros.
pub open spec fn decimal_digits(n: nat) -> Seq<char>
    decreases n,
{
    if n < 10 {
        seq![digit_char(n)]
    } else {
        decimal_digits(n / 10).push(digit_char(n % 10))
    }
}

/// The decimal rendering of an integer, as `format!("{}", n)` writes it.
pub open spec fn decimal_text(n: int) -> Seq<char> {
    if n < 0 {
        seq!['-'] + decimal_digits((-n) as nat)
    } else {
        decimal_digits(n as nat)
    }
}

fn digit_str(d: u64) -> (r: &'static str)
    requires
        d < 10,
    ensures
        r@ == seq![digit_char(d as nat)],
{
    proof {
        reveal_strlit("0");
        reveal_strlit("1");
        reveal_strlit("2");
        reveal_strlit("3");
        reveal_strlit("4");
        reveal_strlit("5");
        reveal_strlit("6");
        reveal_strlit("7");
        reveal_strlit("8");
        reveal_strlit("9");
    }
    if d == 0 { "0" } else if d == 1 { "1" } else if d == 2 { "2" } else if d == 3 { "3" }
    else if d == 4 { "4" } else if d == 5 { "5" } else if d == 6 { "6" } else if d == 7 { "7" }
    else if d == 8 { "8" } else { "9" }
}

fn append_digits(out: &mut String, n: u64)
    ensures
        final(out)@ == old(out)@ + decimal_digits(n as nat),
    decreases n,
{
    if n >= 10 {
        append_digits(out, n / 10);
    }
    let d = digit_str(n % 10);
    out.append(d);
    proof {
        if n >= 10 {
            assert(decimal_digits(n as nat) == decimal_digits((n / 10) as nat).push(digit_char((n % 10) as nat)));
        }
    }
}

/// Appends the decimal rendering of `n` to `out`.
pub fn append_decimal(out: &mut String, n: i64)
    ensures
        final(out)@ == old(out)@ + decimal_text(n as int),
{
    if n < 0 {
        proof { reveal_strlit("-"); }
        out.append("-");
        let wide: i128 = n as i128;
        let magnitude: u64 = (0i128 - wide) as u64;
        append_digits(out, magnitude);
        assert(out@ == old(out)@ + decimal_text(n as int));
    } else {
        append_digits(out, n as u64);
    }
}

} // verus!

verus! {

/// The chars of each string, in order.
pub open spec fn strs(v: Seq<String>) -> Seq<Seq<char>> {
    v.map_values(|s: String| s@)
}

/// An integer clamped to the range of `i64`, as saturating arithmetic gives it.
pub open spec fn clamp_i64(x: int) -> i64 {
    if x > i64::MAX { i64::MAX } else if x < i64::MIN { i64::MIN } else { x as i64 }
}

/// `a.saturating_add(b)` for `i64`.
pub fn saturating_add_i64(a: i64, b: i64) -> (r: i64)
    ensures
        r == clamp_i64(a + b),
{
    let wide: i128 = a as i128 + b as i128;
    if wide > i64::MAX as i128 {
        i64::MAX
    } else if wide < i64::MIN as i128 {
        i64::MIN
    } else {
        wide as i64
    }
}

/// `a.saturating_sub(b)` for `i64`.
pub fn saturating_sub_i64(a: i64, b: i64) -> (r: i64)
    ensures
        r == clamp_i64(a - b),
{
    let wide: i128 = a as i128 - b as i128;
    if wide > i64::MAX as i128 {
        i64::MAX
    } else if wide < i64::MIN as i128 {
        i64::MIN
    } else {
        wide as i64
    }
}

/// What a string normalizes to as an identity (trimmed, then lower-cased),
/// or `None` when nothing is left.
pub open spec fn spec_normalize(v: Seq<char>) -> Option<Seq<char>> {
    let t = spec_trim(v);
    if t.len() == 0 { None } else { Some(spec_lowercase(t)) }
}

/// Trims and lower-cases a string; `None` when nothing is left.
pub fn normalize_identity(value: &str) -> (r: Option<String>)
    ensures
        match r {
            Some(s) => spec_normalize(value@) == Some(s@),
            None => spec_normalize(value@) is None,
        },
{
    let normalized = lowercase_text(trim_text(value));
    if normalized.as_str().is_empty() {
        None
    } else {
        Some(normalized)
    }
}

/// Normalized identities of a list, in order, without empty ones and
/// without repeats (the first occurrence stays).
pub open spec fn normalized_unique(values: Seq<Seq<char>>) -> Seq<Seq<char>>
    decreases values.len(),
{
    if values.len() == 0 {
        Seq::empty()
    } else {
        let rest = normalized_unique(values.drop_last());
        match spec_normalize(values.last()) {
            Some(n) => if rest.contains(n) { rest } else { rest.push(n) },
            None => rest,
        }
    }
}

/// A string is what some string normalizes to: trimmed and lower-cased,
/// and not empty.
pub open spec fn is_normalized(v: Seq<char>) -> bool {
    exists|x: Seq<char>| #[trigger] spec_normalize(x) == Some(v)
}

/// `normalized_unique` holds no string twice, and each of its strings is a
/// normalized one.
pub proof fn lemma_normalized_unique(values: Seq<Seq<char>>)
    ensures
        normalized_unique(values).no_duplicates(),
        forall|i: int| 0 <= i < normalized_unique(values).len() ==> is_normalized(#[trigger] normalized_unique(values)[i]),
    decreases values.len(),
{
    if values.len() > 0 {
        let rest = normalized_unique(values.drop_last());
        lemma_normalized_unique(values.drop_last());
        let r = normalized_unique(values);
        match spec_normalize(values.last()) {
            Some(n) => {
                if !rest.contains(n) {
                    assert(r == rest.push(n));
                    assert forall|i: int, j: int| 0 <= i < r.len() && 0 <= j < r.len() && i != j implies r[i] != r[j] by {
                        if i == rest.len() {
                            assert(r[j] == rest[j]);
                        } else if j == rest.len() {
                            assert(r[i] == rest[i]);
                        } else {
                            assert(r[i] == rest[i] && r[j] == rest[j]);
                        }
                    }
                    assert forall|i: int| 0 <= i < r.len() implies is_normalized(#[trigger] r[i]) by {
                        if i < rest.len() {
                            assert(r[i] == rest[i]);
                        } else {
                            assert(spec_normalize(values.last()) == Some(r[i]));
                        }
                    }
                }
            },
            None => {},
        }
    }
}

/// Whether a list of strings holds a string equal to `s`.
pub fn contains_text(list: &Vec<String>, s: &str) -> (r: bool)
    ensures
        r == strs(list@).contains(s@),
{
    let mut i: usize = 0;
    while i < list.len()
        invariant
            i <= list@.len(),
            forall|j: int| 0 <= j < i ==> list@[j]@ != s@,
        decreases list@.len() - i,
    {
        if str_eq(list[i].as_str(), s) {
            assert(strs(list@)[i as int] == s@);
            return true;
        }
        i = i + 1;
    }
    proof {
        if strs(list@).contains(s@) {
            let j = choose|j: int| 0 <= j < list@.len() && #[trigger] strs(list@)[j] == s@;
            assert(list@[j]@ == s@);
        }
    }
    false
}

/// Normalizes each string of a list as an identity, dropping empty results
/// and repeats.
pub fn normalize_unique(values: &Vec<String>) -> (r: Vec<String>)
    ensures
        strs(r@) == normalized_unique(strs(values@)),
{
    let ghost vs = strs(values@);
    let mut result: Vec<String> = Vec::new();
    let mut i: usize = 0;
    proof { assert(vs.take(0) =~= Seq::<Seq<char>>::empty()); }
    while i < values.len()
        invariant
            i <= values@.len(),
            vs == strs(values@),
            strs(result@) == normalized_unique(vs.take(i as int)),
        decreases values@.len() - i,
    {
        proof {
            assert(vs.take(i + 1).drop_last() =~= vs.take(i as int));
            assert(vs.take(i + 1).last() == values@[i as int]@);
        }
        match normalize_identity(values[i].as_str()) {
            Some(n) => {
                if !contains_text(&result, n.as_str()) {
                    let ghost before = result@;
                    result.push(n);
                    proof {
                        assert(strs(result@) =~= strs(before).push(n@));
                    }
                }
            }
            None => {}
        }
        i = i + 1;
    }
    proof { assert(vs.take(values@.len() as int) =~= vs); }
    result
}

} // verus!
