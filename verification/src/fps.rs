//! Frame-rate canonicalisation: integers ("60"), decimals ("29.97") and
//! rationals ("30000/1001") become a reduced fraction "num/den" whose parts
//! fit ffmpeg's rational limit, and ffprobe stream data is read for a usable
//! source rate.
use crate::json::{JsonValue, spec_array_items, spec_as_str, spec_get};
use crate::text::{
    find_char, first_index, lemma_first_index, lemma_first_index_at,
    all_digits, chars_of, decimal, digit_value, digits_value, is_digit, is_white_space, lemma_decimal_digits,
    lemma_decimal_len_bound, pow10, push_char, push_decimal, string_of, trim, trim_bounds,
};
use vstd::arithmetic::div_mod::{
    lemma_fundamental_div_mod, lemma_mod_multiples_basic, lemma_truncate_middle,
};
use vstd::prelude::*;

verus! {

/// Largest numerator or denominator a canonical rate may have (ffmpeg's AVRational limit).
pub const MAX_COMPONENT: i64 = 2147483647;

/// Why a frame rate was refused.
#[derive(Debug, Clone, Copy, PartialEq, Eq, Structural)]
pub enum FpsError {
    /// Not a positive integer, decimal or `num/den` rational.
    InvalidFormat,
    /// The rate is zero or has a zero denominator.
    NotPositive,
    /// Too many decimals, or a component beyond the representable range.
    TooLarge,
}

/// Number of bytes of `c` in UTF-8.
pub open spec fn utf8_width(c: char) -> nat {
    let u = c as u32;
    if u < 0x80 {
        1
    } else if u < 0x800 {
        2
    } else if u < 0x10000 {
        3
    } else {
        4
    }
}

/// Number of bytes of `s` in UTF-8.
pub open spec fn utf8_len(s: Seq<char>) -> nat
    decreases s.len(),
{
    if s.len() == 0 {
        0
    } else {
        utf8_len(s.drop_last()) + utf8_width(s.last())
    }
}

/// `s` splits at its first `c` into two non-empty digit runs.
pub open spec fn digits_around(s: Seq<char>, c: char) -> bool {
    let k = first_index(s, c);
    &&& k >= 0
    &&& all_digits(s.subrange(0, k))
    &&& all_digits(s.subrange(k + 1, s.len() as int))
}

/// The text shape of a rate: `D+`, `D+.D+` or `D+/D+` with `D` an ASCII digit.
pub open spec fn is_rate_shape(s: Seq<char>) -> bool {
    ||| all_digits(s)
    ||| digits_around(s, '.')
    ||| digits_around(s, '/')
}

/// The fraction that the rate text `t` (of rate shape) names before reduction.
pub open spec fn raw_rate(t: Seq<char>) -> Result<(int, int), FpsError> {
    let s = first_index(t, '/');
    let p = first_index(t, '.');
    if s >= 0 {
        let n = digits_value(t.subrange(0, s));
        let d = digits_value(t.subrange(s + 1, t.len() as int));
        if n > i64::MAX || d > i64::MAX {
            Err(FpsError::TooLarge)
        } else if d == 0 {
            Err(FpsError::NotPositive)
        } else {
            Ok((n as int, d as int))
        }
    } else if p >= 0 {
        let frac = t.subrange(p + 1, t.len() as int);
        if frac.len() > 9 {
            Err(FpsError::TooLarge)
        } else {
            let den = pow10(frac.len());
            let num = digits_value(t.subrange(0, p)) * den + digits_value(frac);
            if num > i64::MAX {
                Err(FpsError::TooLarge)
            } else {
                Ok((num as int, den as int))
            }
        }
    } else {
        let n = digits_value(t);
        if n > i64::MAX {
            Err(FpsError::TooLarge)
        } else {
            Ok((n as int, 1))
        }
    }
}

/// Greatest common divisor (Euclid).
pub open spec fn gcd(a: nat, b: nat) -> nat
    decreases b,
{
    if b == 0 {
        a
    } else {
        gcd(b, a % b)
    }
}

/// The canonical rate `(num, den)` named by `value`, or why it is refused.
pub open spec fn fps_spec(value: Seq<char>) -> Result<(int, int), FpsError> {
    let t = trim(value);
    if t.len() == 0 || utf8_len(t) > 32 || !is_rate_shape(t) {
        Err(FpsError::InvalidFormat)
    } else {
        match raw_rate(t) {
            Err(e) => Err(e),
            Ok((n, d)) => {
                let g = gcd(n as nat, d as nat) as int;
                let rn = n / g;
                let rd = d / g;
                if rn <= 0 {
                    Err(FpsError::NotPositive)
                } else if rn > MAX_COMPONENT || rd > MAX_COMPONENT {
                    Err(FpsError::TooLarge)
                } else {
                    Ok((rn, rd))
                }
            },
        }
    }
}

/// The text `num/den`.
pub open spec fn fraction_text(n: int, d: int) -> Seq<char> {
    decimal(n as nat) + seq!['/'] + decimal(d as nat)
}

/// Whether `text` has the shape of a rate, by the pattern
/// `^(?:[0-9]+(?:\.[0-9]+)?|[0-9]+/[0-9]+)$` of the `regex` crate.
#[verifier::external_body]
fn matches_rate_pattern(text: &str) -> (b: bool)
    ensures
        b == is_rate_shape(text@),
{
    regex::Regex::new(r"^(?:[0-9]+(?:\.[0-9]+)?|[0-9]+/[0-9]+)$").unwrap().is_match(text)
}

/// The fraction `numer/denom` in lowest terms, by `num_rational::Ratio::new`.
#[verifier::external_body]
fn ratio_in_lowest_terms(numer: i64, denom: i64) -> (r: (i64, i64))
    requires
        0 <= numer,
        0 < denom,
    ensures
        r.0 == numer as int / gcd(numer as nat, denom as nat) as int,
        r.1 == denom as int / gcd(numer as nat, denom as nat) as int,
{
    let q = num_rational::Ratio::new(numer, denom);
    (*q.numer(), *q.denom())
}

proof fn lemma_digits_value_push(s: Seq<char>, i: int, j: int)
    requires
        0 <= i < j <= s.len(),
        is_digit(s[j - 1]),
    ensures
        digits_value(s.subrange(i, j)) == digits_value(s.subrange(i, j - 1)) * 10 + digit_value(
            s[j - 1],
        ),
{
    assert(s.subrange(i, j).drop_last() =~= s.subrange(i, j - 1));
    assert(s.subrange(i, j).last() == s[j - 1]);
}

proof fn lemma_all_digits_range(s: Seq<char>, a: int, b: int)
    requires
        0 <= a <= b <= s.len(),
        all_digits(s.subrange(a, b)),
    ensures
        forall|x: int| a <= x < b ==> is_digit(#[trigger] s[x]),
{
    assert forall|x: int| a <= x < b implies is_digit(#[trigger] s[x]) by {
        assert(s.subrange(a, b)[x - a] == s[x]);
    }
}

proof fn lemma_digits_value_mono(s: Seq<char>, i: int, j: int, k: int)
    requires
        0 <= i <= j <= k <= s.len(),
        forall|x: int| i <= x < k ==> is_digit(#[trigger] s[x]),
    ensures
        digits_value(s.subrange(i, j)) <= digits_value(s.subrange(i, k)),
    decreases k - j,
{
    if j < k {
        assert(is_digit(s[k - 1]));
        lemma_digits_value_mono(s, i, j, k - 1);
        lemma_digits_value_push(s, i, k);
    }
}

/// The value of the digit run `v[lo..hi]`, or `None` beyond `i64::MAX`.
fn parse_digits_i64(v: &[char], lo: usize, hi: usize) -> (r: Option<i64>)
    requires
        lo <= hi <= v@.len(),
        forall|x: int| lo <= x < hi ==> is_digit(#[trigger] v@[x]),
    ensures
        match r {
            Some(n) => n == digits_value(v@.subrange(lo as int, hi as int)),
            None => digits_value(v@.subrange(lo as int, hi as int)) > i64::MAX,
        },
{
    let mut acc: i64 = 0;
    let mut i = lo;
    assert(v@.subrange(lo as int, lo as int) =~= Seq::<char>::empty());
    while i < hi
        invariant
            lo <= i <= hi <= v@.len(),
            forall|x: int| lo <= x < hi ==> is_digit(#[trigger] v@[x]),
            acc == digits_value(v@.subrange(lo as int, i as int)),
            acc >= 0,
        decreases hi - i,
    {
        let d = (v[i] as u32 - '0' as u32) as i64;
        assert(is_digit(v@[i as int]));
        proof {
            lemma_digits_value_push(v@, lo as int, i + 1);
        }
        match acc.checked_mul(10) {
            None => {
                proof {
                    lemma_digits_value_mono(v@, lo as int, i + 1, hi as int);
                }
                return None;
            },
            Some(m) => match m.checked_add(d) {
                None => {
                    proof {
                        lemma_digits_value_mono(v@, lo as int, i + 1, hi as int);
                    }
                    return None;
                },
                Some(a) => {
                    acc = a;
                },
            },
        }
        i = i + 1;
    }
    Some(acc)
}

/// Whether `v[lo..hi]` takes more than `limit` bytes in UTF-8.
fn utf8_len_exceeds(v: &[char], lo: usize, hi: usize, limit: usize) -> (b: bool)
    requires
        lo <= hi <= v@.len(),
        limit < 1000,
    ensures
        b == (utf8_len(v@.subrange(lo as int, hi as int)) > limit),
{
    let mut total: usize = 0;
    let mut i = lo;
    assert(v@.subrange(lo as int, lo as int) =~= Seq::<char>::empty());
    while i < hi
        invariant
            lo <= i <= hi <= v@.len(),
            total == utf8_len(v@.subrange(lo as int, i as int)),
            total <= limit,
            limit < 1000,
        decreases hi - i,
    {
        let u = v[i] as u32;
        let w: usize = if u < 0x80 {
            1
        } else if u < 0x800 {
            2
        } else if u < 0x10000 {
            3
        } else {
            4
        };
        assert(v@.subrange(lo as int, i + 1).drop_last() =~= v@.subrange(lo as int, i as int));
        total = total + w;
        i = i + 1;
        if total > limit {
            proof {
                lemma_utf8_len_mono(v@, lo as int, i as int, hi as int);
            }
            return true;
        }
    }
    false
}

proof fn lemma_utf8_len_mono(s: Seq<char>, i: int, j: int, k: int)
    requires
        0 <= i <= j <= k <= s.len(),
    ensures
        utf8_len(s.subrange(i, j)) <= utf8_len(s.subrange(i, k)),
    decreases k - j,
{
    if j < k {
        lemma_utf8_len_mono(s, i, j, k - 1);
        assert(s.subrange(i, k).drop_last() =~= s.subrange(i, k - 1));
    }
}

/// Validates and canonicalises a frame rate: an integer ("60"), a decimal
/// ("29.97") or a rational ("30000/1001"), surrounded by optional white space,
/// becomes the reduced fraction "num/den" with both parts at most
/// [`MAX_COMPONENT`].
pub fn parse_fps(value: &str) -> (r: Result<String, FpsError>)
    ensures
        match fps_spec(value@) {
            Ok((n, d)) => r is Ok && r->Ok_0@ == fraction_text(n, d),
            Err(e) => r == Err::<String, FpsError>(e),
        },
{
    let v = chars_of(value);
    let (lo, hi) = trim_bounds(&v);
    let ghost t = trim(value@);
    assert(t == v@.subrange(lo as int, hi as int));
    if lo == hi || utf8_len_exceeds(&v, lo, hi, 32) {
        return Err(FpsError::InvalidFormat);
    }
    let text = string_of(&v, lo, hi);
    if !matches_rate_pattern(text.as_str()) {
        return Err(FpsError::InvalidFormat);
    }
    let slash = find_char(&v, lo, hi, '/');
    let dot = find_char(&v, lo, hi, '.');
    let (numer, denom): (i64, i64) = match slash {
        Some(k) => {
            proof {
                lemma_shape_digits(t, '/');
                assert(t.subrange(0, k - lo) =~= v@.subrange(lo as int, k as int));
                assert(t.subrange(k - lo + 1, t.len() as int) =~= v@.subrange(k + 1, hi as int));
                lemma_all_digits_range(v@, lo as int, k as int);
                lemma_all_digits_range(v@, k + 1, hi as int);
            }
            let n = match parse_digits_i64(&v, lo, k) {
                Some(n) => n,
                None => {
                    return Err(FpsError::TooLarge);
                },
            };
            let d = match parse_digits_i64(&v, k + 1, hi) {
                Some(d) => d,
                None => {
                    return Err(FpsError::TooLarge);
                },
            };
            if d == 0 {
                return Err(FpsError::NotPositive);
            }
            (n, d)
        },
        None => match dot {
            Some(k) => {
                proof {
                    lemma_shape_digits(t, '.');
                    assert(t.subrange(0, k - lo) =~= v@.subrange(lo as int, k as int));
                    assert(t.subrange(k - lo + 1, t.len() as int) =~= v@.subrange(
                        k + 1,
                        hi as int,
                    ));
                    lemma_all_digits_range(v@, lo as int, k as int);
                    lemma_all_digits_range(v@, k + 1, hi as int);
                }
                let places = hi - (k + 1);
                if places > 9 {
                    return Err(FpsError::TooLarge);
                }
                let den = pow10_exec(places);
                let int_val = match parse_digits_i64(&v, lo, k) {
                    Some(n) => n,
                    None => {
                        proof {
                            assert(den >= 1);
                            assert(digits_value(t.subrange(0, k - lo)) * den >= digits_value(
                                t.subrange(0, k - lo),
                            )) by (nonlinear_arith)
                                requires
                                    den >= 1,
                            ;
                        }
                        return Err(FpsError::TooLarge);
                    },
                };
                let frac_val = match parse_digits_i64(&v, k + 1, hi) {
                    Some(f) => f,
                    None => {
                        return Err(FpsError::TooLarge);
                    },
                };
                let num = match int_val.checked_mul(den) {
                    Some(m) => match m.checked_add(frac_val) {
                        Some(x) => x,
                        None => {
                            return Err(FpsError::TooLarge);
                        },
                    },
                    None => {
                        proof {
                            assert(frac_val >= 0);
                        }
                        return Err(FpsError::TooLarge);
                    },
                };
                (num, den)
            },
            None => {
                proof {
                    lemma_shape_plain(t);
                    lemma_all_digits_range(v@, lo as int, hi as int);
                }
                match parse_digits_i64(&v, lo, hi) {
                    Some(n) => (n, 1),
                    None => {
                        return Err(FpsError::TooLarge);
                    },
                }
            },
        },
    };
    let (rn, rd) = ratio_in_lowest_terms(numer, denom);
    proof {
        lemma_gcd_pos(numer as nat, denom as nat);
    }
    if rn <= 0 {
        return Err(FpsError::NotPositive);
    }
    if rn > MAX_COMPONENT || rd > MAX_COMPONENT {
        return Err(FpsError::TooLarge);
    }
    let mut out = String::new();
    push_decimal(&mut out, rn as u64);
    push_char(&mut out, '/');
    push_decimal(&mut out, rd as u64);
    assert(out@ =~= fraction_text(rn as int, rd as int));
    Ok(out)
}

fn pow10_exec(k: usize) -> (p: i64)
    requires
        k <= 9,
    ensures
        p == pow10(k as nat),
        p >= 1,
{
    let mut p: i64 = 1;
    let mut i: usize = 0;
    while i < k
        invariant
            i <= k <= 9,
            p == pow10(i as nat),
            1 <= p <= 1000000000,
            p <= pow10_bound(i),
        decreases k - i,
    {
        p = p * 10;
        i = i + 1;
    }
    p
}

spec fn pow10_bound(i: usize) -> int {
    if i == 0 { 1 } else if i == 1 { 10 } else if i == 2 { 100 } else if i == 3 { 1000 } else if i
        == 4 { 10000 } else if i == 5 { 100000 } else if i == 6 { 1000000 } else if i == 7 {
        10000000 } else if i == 8 { 100000000 } else { 1000000000 }
}

proof fn lemma_shape_digits(t: Seq<char>, c: char)
    requires
        is_rate_shape(t),
        first_index(t, c) >= 0,
        c == '.' || c == '/',
    ensures
        digits_around(t, c),
{
    lemma_first_index(t, c);
    let k = first_index(t, c);
    if all_digits(t) {
        assert(is_digit(t[k]));
    } else if c == '.' && digits_around(t, '/') {
        let s = first_index(t, '/');
        lemma_first_index(t, '/');
        if k < s {
            assert(is_digit(t.subrange(0, s)[k]));
        } else {
            assert(is_digit(t.subrange(s + 1, t.len() as int)[k - s - 1]));
        }
    } else if c == '/' && digits_around(t, '.') {
        let p = first_index(t, '.');
        lemma_first_index(t, '.');
        if k < p {
            assert(is_digit(t.subrange(0, p)[k]));
        } else {
            assert(is_digit(t.subrange(p + 1, t.len() as int)[k - p - 1]));
        }
    }
}

proof fn lemma_shape_plain(t: Seq<char>)
    requires
        is_rate_shape(t),
        first_index(t, '.') < 0,
        first_index(t, '/') < 0,
    ensures
        all_digits(t),
{
}

/// A positive second argument makes the gcd positive.
pub proof fn lemma_gcd_pos(a: nat, b: nat)
    requires
        b > 0,
    ensures
        gcd(a, b) > 0,
        gcd(a, b) <= b,
    decreases b,
{
    if a % b == 0 {
        assert(gcd(b, 0) == b);
    } else {
        lemma_gcd_pos(b, a % b);
    }
}


/// The gcd divides both of its arguments.
pub proof fn lemma_gcd_divides(a: nat, b: nat)
    requires
        b > 0,
    ensures
        a % gcd(a, b) == 0,
        b % gcd(a, b) == 0,
    decreases b,
{
    lemma_gcd_pos(a, b);
    if a % b == 0 {
        assert(gcd(b, 0) == b);
        assert(b % b == 0) by {
            lemma_mod_multiples_basic(1, b as int);
        }
    } else {
        let r = a % b;
        let g = gcd(b, r);
        lemma_gcd_divides(b, r);
        lemma_gcd_pos(b, r);
        lemma_fundamental_div_mod(a as int, b as int);
        lemma_fundamental_div_mod(b as int, g as int);
        lemma_fundamental_div_mod(r as int, g as int);
        let q1 = b as int / g as int;
        let q2 = r as int / g as int;
        assert(a as int == g * ((a as int / b as int) * q1 + q2)) by (nonlinear_arith)
            requires
                a as int == b as int * (a as int / b as int) + r as int,
                b as int == g * q1,
                r as int == g * q2,
        ;
        lemma_mod_multiples_basic((a as int / b as int) * q1 + q2, g as int);
        assert(g * ((a as int / b as int) * q1 + q2) == ((a as int / b as int) * q1 + q2) * g)
            by (nonlinear_arith);
    }
}

/// Scaling both arguments scales the gcd.
pub proof fn lemma_gcd_scale(k: nat, a: nat, b: nat)
    requires
        k > 0,
        b > 0,
    ensures
        gcd(k * a, k * b) == k * gcd(a, b),
    decreases b,
{
    assert(k * b > 0) by (nonlinear_arith)
        requires
            k > 0,
            b > 0,
    ;
    lemma_truncate_middle(a as int, k as int, b as int);
    assert((k * a) % (k * b) == k * (a % b));
    if a % b == 0 {
        assert(gcd(k * a, k * b) == gcd(k * b, 0));
        assert(gcd(a, b) == gcd(b, 0));
    } else {
        lemma_gcd_scale(k, b, a % b);
        assert(gcd(k * a, k * b) == gcd(k * b, k * (a % b)));
    }
}

/// Dividing both arguments by their gcd leaves coprime numbers.
pub proof fn lemma_gcd_reduced(a: nat, b: nat)
    requires
        b > 0,
    ensures
        gcd(a / gcd(a, b), b / gcd(a, b)) == 1,
        b / gcd(a, b) > 0,
{
    let g = gcd(a, b);
    lemma_gcd_pos(a, b);
    lemma_gcd_divides(a, b);
    lemma_fundamental_div_mod(a as int, g as int);
    lemma_fundamental_div_mod(b as int, g as int);
    let x = a / g;
    let y = b / g;
    assert(a == g * x);
    assert(b == g * y);
    assert(y > 0) by (nonlinear_arith)
        requires
            b == g * y,
            b > 0,
            g > 0,
    ;
    lemma_gcd_scale(g, x, y);
    let c = gcd(x, y);
    assert(g == g * c);
    assert(c == 1) by (nonlinear_arith)
        requires
            g == g * c,
            g > 0,
    ;
}

/// A canonical rate is a positive fraction in lowest terms with both parts
/// at most [`MAX_COMPONENT`].
pub proof fn lemma_fps_canonical(value: Seq<char>)
    requires
        fps_spec(value) is Ok,
    ensures
        ({
            let (n, d) = fps_spec(value)->Ok_0;
            &&& 0 < n <= MAX_COMPONENT
            &&& 0 < d <= MAX_COMPONENT
            &&& gcd(n as nat, d as nat) == 1
        }),
{
    let t = trim(value);
    let (n0, d0) = raw_rate(t)->Ok_0;
    lemma_raw_rate_nonneg(t);
    lemma_gcd_reduced(n0 as nat, d0 as nat);
    lemma_gcd_pos(n0 as nat, d0 as nat);
}

/// What a rate must be to be accepted: its trimmed text is non-empty and at
/// most 32 bytes, has rate shape, and names a fraction whose components fit
/// `i64`, with a positive numerator and a positive denominator, whose reduced
/// components are at most `MAX_COMPONENT`.
pub open spec fn accepted_rate(value: Seq<char>) -> bool {
    let t = trim(value);
    &&& t.len() > 0
    &&& utf8_len(t) <= 32
    &&& is_rate_shape(t)
    &&& raw_rate(t) is Ok
    &&& {
        let (n, d) = raw_rate(t)->Ok_0;
        let g = gcd(n as nat, d as nat) as int;
        &&& n > 0
        &&& d > 0
        &&& n / g <= MAX_COMPONENT
        &&& d / g <= MAX_COMPONENT
    }
}

/// A rate is accepted exactly when it is `accepted_rate`, and then the result
/// is the fraction it names divided by the gcd of its parts: in lowest terms.
pub proof fn lemma_parse_fps_accepts(value: Seq<char>)
    ensures
        fps_spec(value) is Ok <==> accepted_rate(value),
        accepted_rate(value) ==> ({
            let (n, d) = raw_rate(trim(value))->Ok_0;
            let g = gcd(n as nat, d as nat) as int;
            let (rn, rd) = fps_spec(value)->Ok_0;
            &&& rn == n / g
            &&& rd == d / g
            &&& gcd(rn as nat, rd as nat) == 1
        }),
{
    let t = trim(value);
    if raw_rate(t) is Ok {
        lemma_raw_rate_nonneg(t);
        let (n, d) = raw_rate(t)->Ok_0;
        let g = gcd(n as nat, d as nat) as int;
        lemma_gcd_pos(n as nat, d as nat);
        lemma_gcd_divides(n as nat, d as nat);
        lemma_fundamental_div_mod(n, g);
        if n > 0 {
            assert(n / g > 0) by (nonlinear_arith)
                requires
                    n == g * (n / g) + n % g,
                    n % g == 0,
                    n > 0,
                    g > 0,
            ;
        } else {
            assert(n / g == 0);
        }
    }
    if fps_spec(value) is Ok {
        lemma_fps_canonical(value);
    }
}

/// Whether `n/d` is the number that the rate text `t` names: an integer
/// `a` is `a/1`; `a/b` has `n * b == a * d`; `a.f` has
/// `n * 10^|f| == (a * 10^|f| + f) * d`.
pub open spec fn names_rate(t: Seq<char>, n: int, d: int) -> bool {
    let s = first_index(t, '/');
    let p = first_index(t, '.');
    &&& s >= 0 ==> n * digits_value(t.subrange(s + 1, t.len() as int)) == digits_value(
        t.subrange(0, s),
    ) * d
    &&& s < 0 && p >= 0 ==> n * pow10((t.len() - p - 1) as nat) == (digits_value(t.subrange(0, p))
        * pow10((t.len() - p - 1) as nat) + digits_value(t.subrange(p + 1, t.len() as int))) * d
    &&& s < 0 && p < 0 ==> n == digits_value(t) && d == 1
}

/// An accepted rate is the number its text names, in lowest terms: an
/// integer `a` gives `a/1`; `a/b` gives `n/d` with `n * b == a * d`; and
/// `a.f` gives `n/d` with `n * 10^|f| == (a * 10^|f| + f) * d`. A decimal
/// with more than nine fraction digits is refused as too large.
pub proof fn lemma_parse_fps_value(value: Seq<char>)
    ensures
        fps_spec(value) is Ok ==> names_rate(
            trim(value),
            fps_spec(value)->Ok_0.0,
            fps_spec(value)->Ok_0.1,
        ),
        ({
            let t = trim(value);
            let p = first_index(t, '.');
            t.len() > 0 && utf8_len(t) <= 32 && is_rate_shape(t) && first_index(t, '/') < 0 && p
                >= 0 && t.len() - p - 1 > 9
        }) ==> fps_spec(value) == Err::<(int, int), FpsError>(FpsError::TooLarge),
{
    let t = trim(value);
    if fps_spec(value) is Ok {
        lemma_raw_rate_nonneg(t);
        let (n0, d0) = raw_rate(t)->Ok_0;
        let g = gcd(n0 as nat, d0 as nat) as int;
        lemma_gcd_pos(n0 as nat, d0 as nat);
        lemma_gcd_divides(n0 as nat, d0 as nat);
        lemma_fundamental_div_mod(n0, g);
        lemma_fundamental_div_mod(d0, g);
        let rn = n0 / g;
        let rd = d0 / g;
        assert(rn * d0 == n0 * rd) by (nonlinear_arith)
            requires
                n0 == g * rn + n0 % g,
                d0 == g * rd + d0 % g,
                n0 % g == 0,
                d0 % g == 0,
        ;
        let s = first_index(t, '/');
        let p = first_index(t, '.');
        lemma_first_index(t, '/');
        lemma_first_index(t, '.');
        assert(fps_spec(value)->Ok_0 == (rn, rd));
        if s >= 0 {
            let a = digits_value(t.subrange(0, s));
            let b = digits_value(t.subrange(s + 1, t.len() as int));
            assert(n0 == a);
            assert(d0 == b);
            assert(rn * b == a * rd);
            assert(names_rate(t, rn, rd));
        } else if p >= 0 {
            let k = (t.len() - p - 1) as nat;
            assert(t.subrange(p + 1, t.len() as int).len() == k);
            let a = digits_value(t.subrange(0, p));
            let f = digits_value(t.subrange(p + 1, t.len() as int));
            assert(d0 == pow10(k));
            assert(n0 == a * pow10(k) + f);
            assert(rn * pow10(k) == (a * pow10(k) + f) * rd);
            assert(names_rate(t, rn, rd));
        } else {
            assert(d0 == 1);
            assert(n0 == digits_value(t));
            assert(gcd(n0 as nat, 1) == gcd(1, (n0 as nat) % 1));
            assert((n0 as nat) % 1 == 0);
            assert(gcd(1, 0) == 1);
            assert(g == 1);
            assert(n0 / g == n0 && d0 / g == 1) by (nonlinear_arith)
                requires
                    g == 1,
                    d0 == 1,
            ;
            assert(names_rate(t, rn, rd)) by {
                assert(s < 0 && p < 0);
            }
        }
    }
}

proof fn lemma_raw_rate_nonneg(t: Seq<char>)
    requires
        raw_rate(t) is Ok,
    ensures
        raw_rate(t)->Ok_0.0 >= 0,
        raw_rate(t)->Ok_0.1 > 0,
{
    let s = first_index(t, '/');
    let p = first_index(t, '.');
    if s < 0 && p >= 0 {
        lemma_pow10_pos(t.subrange(p + 1, t.len() as int).len());
    }
}

proof fn lemma_pow10_pos(k: nat)
    ensures
        pow10(k) >= 1,
    decreases k,
{
    if k > 0 {
        lemma_pow10_pos((k - 1) as nat);
    }
}

proof fn lemma_trim_keeps(s: Seq<char>)
    requires
        s.len() > 0,
        !is_white_space(s[0]),
        !is_white_space(s.last()),
    ensures
        trim(s) == s,
{
}

proof fn lemma_utf8_len_ascii(s: Seq<char>)
    requires
        forall|i: int| 0 <= i < s.len() ==> (#[trigger] s[i] as u32) < 0x80,
    ensures
        utf8_len(s) == s.len(),
    decreases s.len(),
{
    if s.len() > 0 {
        lemma_utf8_len_ascii(s.drop_last());
    }
}

/// Canonicalising a canonical rate gives it back unchanged.
pub proof fn lemma_parse_fps_idempotent(value: Seq<char>)
    requires
        fps_spec(value) is Ok,
    ensures
        fps_spec(fraction_text(fps_spec(value)->Ok_0.0, fps_spec(value)->Ok_0.1)) == fps_spec(
            value,
        ),
{
    lemma_fps_canonical(value);
    let (n, d) = fps_spec(value)->Ok_0;
    let dn = decimal(n as nat);
    let dd = decimal(d as nat);
    let c = fraction_text(n, d);
    lemma_decimal_digits(n as nat);
    lemma_decimal_digits(d as nat);
    assert(pow10(10) == 10000000000nat) by {
        reveal_with_fuel(pow10, 11);
    }
    lemma_decimal_len_bound(n as nat, 10);
    lemma_decimal_len_bound(d as nat, 10);
    let k = dn.len() as int;
    assert(c.len() == dn.len() + 1 + dd.len());
    assert forall|i: int| 0 <= i < c.len() implies (#[trigger] c[i] as u32) < 0x80 by {
        if i < k {
            assert(c[i] == dn[i]);
            assert(is_digit(dn[i]));
        } else if i > k {
            assert(c[i] == dd[i - k - 1]);
            assert(is_digit(dd[i - k - 1]));
        }
    }
    lemma_utf8_len_ascii(c);
    assert(is_digit(dn[0]));
    assert(c[0] == dn[0]);
    assert(c.last() == dd.last());
    assert(is_digit(dd[dd.len() - 1]));
    lemma_trim_keeps(c);
    assert forall|j: int| 0 <= j < k implies c[j] != '/' by {
        assert(c[j] == dn[j]);
        assert(is_digit(dn[j]));
    }
    assert(c[k] == '/');
    lemma_first_index_at(c, '/', k);
    assert(c.subrange(0, k) =~= dn);
    assert(c.subrange(k + 1, c.len() as int) =~= dd);
    assert(digits_around(c, '/'));
    assert(is_rate_shape(c));
    assert(raw_rate(c) == Ok::<(int, int), FpsError>((n, d)));
    assert(gcd(n as nat, d as nat) == 1);
    assert(n / 1 == n && d / 1 == d);
}


/// The canonical rate that one field of a probed stream offers, if usable:
/// a string other than `"0/0"` and `""` that [`parse_fps`] accepts.
pub open spec fn stream_rate(stream: JsonValue, field: Seq<char>) -> Option<Seq<char>> {
    match spec_get(stream, field) {
        Some(v) => match spec_as_str(v) {
            Some(val) => if val != "0/0"@ && val.len() > 0 && fps_spec(val) is Ok {
                Some(fraction_text(fps_spec(val)->Ok_0.0, fps_spec(val)->Ok_0.1))
            } else {
                None
            },
            None => None,
        },
        None => None,
    }
}

/// The source rate read from ffprobe's `streams` output: the first stream's
/// `avg_frame_rate`, else its `r_frame_rate`, whichever is first usable.
pub open spec fn probe_fps_spec(parsed: JsonValue) -> Option<Seq<char>> {
    match spec_get(parsed, "streams"@) {
        Some(s) => match spec_array_items(s) {
            Some(streams) => if streams.len() == 0 {
                None
            } else {
                match stream_rate(streams[0], "avg_frame_rate"@) {
                    Some(r) => Some(r),
                    None => stream_rate(streams[0], "r_frame_rate"@),
                }
            },
            None => None,
        },
        None => None,
    }
}

/// A probed rate is always canonical: parsing it again gives it back.
pub proof fn lemma_probe_fps_canonical(parsed: JsonValue)
    ensures
        probe_fps_spec(parsed) matches Some(r) ==> fps_spec(r) is Ok && fraction_text(
            fps_spec(r)->Ok_0.0,
            fps_spec(r)->Ok_0.1,
        ) == r,
{
    if let Some(s) = spec_get(parsed, "streams"@) {
        if let Some(streams) = spec_array_items(s) {
            if streams.len() > 0 {
                let st = streams[0];
                if let Some(v) = spec_get(st, "avg_frame_rate"@) {
                    if let Some(val) = spec_as_str(v) {
                        if fps_spec(val) is Ok {
                            lemma_parse_fps_idempotent(val);
                        }
                    }
                }
                if let Some(v) = spec_get(st, "r_frame_rate"@) {
                    if let Some(val) = spec_as_str(v) {
                        if fps_spec(val) is Ok {
                            lemma_parse_fps_idempotent(val);
                        }
                    }
                }
            }
        }
    }
}

fn stream_rate_exec(stream: &JsonValue, field: &str) -> (r: Option<String>)
    ensures
        match r {
            Some(x) => stream_rate(*stream, field@) == Some(x@),
            None => stream_rate(*stream, field@) is None,
        },
{
    match stream.get(field) {
        Some(v) => match v.as_str() {
            Some(val) => {
                proof {
                    reveal_strlit("0/0");
                    reveal_strlit("");
                }
                if crate::text::str_eq(val, "0/0") || crate::text::str_eq(val, "") {
                    return None;
                }
                match parse_fps(val) {
                    Ok(c) => Some(c),
                    Err(_) => None,
                }
            },
            None => None,
        },
        None => None,
    }
}

/// Probes a source's frame rate from ffprobe's JSON `streams` output,
/// preferring `avg_frame_rate` and falling back to `r_frame_rate`.
pub fn probe_fps_from_json(parsed: &JsonValue) -> (r: Option<String>)
    ensures
        match r {
            Some(x) => probe_fps_spec(*parsed) == Some(x@),
            None => probe_fps_spec(*parsed) is None,
        },
{
    let streams = match parsed.get("streams") {
        Some(s) => match s.as_array() {
            Some(a) => a,
            None => {
                return None;
            },
        },
        None => {
            return None;
        },
    };
    if streams.len() == 0 {
        return None;
    }
    let stream = &streams[0];
    match stream_rate_exec(stream, "avg_frame_rate") {
        Some(c) => Some(c),
        None => stream_rate_exec(stream, "r_frame_rate"),
    }
}

} // verus!
