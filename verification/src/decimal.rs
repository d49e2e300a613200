//! Decimal text form of scaled monetary values: the display format
//! `[-]W.FFFF` (exactly four fractional digits, zero padded) and the parser
//! for decimal strings with an optional sign, an optional point and any
//! number of fractional digits, rounded to four digits half away from zero.

use vstd::prelude::*;

verus! {

/// Digit value of a character, or -1 when it is no decimal digit.
pub open spec fn digit_val(c: char) -> int {
    match c {
        '0' => 0,
        '1' => 1,
        '2' => 2,
        '3' => 3,
        '4' => 4,
        '5' => 5,
        '6' => 6,
        '7' => 7,
        '8' => 8,
        '9' => 9,
        _ => -1,
    }
}

pub open spec fn is_digit(c: char) -> bool {
    digit_val(c) >= 0
}

pub open spec fn all_digits(s: Seq<char>) -> bool {
    forall|i: int| 0 <= i < s.len() ==> is_digit(#[trigger] s[i])
}

/// The character of a digit value (0 through 9).
pub open spec fn digit_char(d: int) -> char {
    if d == 0 {
        '0'
    } else if d == 1 {
        '1'
    } else if d == 2 {
        '2'
    } else if d == 3 {
        '3'
    } else if d == 4 {
        '4'
    } else if d == 5 {
        '5'
    } else if d == 6 {
        '6'
    } else if d == 7 {
        '7'
    } else if d == 8 {
        '8'
    } else {
        '9'
    }
}

/// Value of a digit string, most significant digit first.
pub open spec fn digits_val(s: Seq<char>) -> int
    decreases s.len(),
{
    if s.len() == 0 {
        0
    } else {
        10 * digits_val(s.drop_last()) + digit_val(s.last())
    }
}

/// Decimal digits of a nonnegative integer, without leading zeros.
pub open spec fn dec_digits(n: int) -> Seq<char>
    decreases n,
{
    if n < 10 {
        seq![digit_char(n)]
    } else {
        dec_digits(n / 10).push(digit_char(n % 10))
    }
}

pub open spec fn pow10(k: int) -> int
    decreases k,
{
    if k <= 0 {
        1
    } else {
        10 * pow10(k - 1)
    }
}

/// The four zero-padded digits of a fractional part (0 <= f < 10000).
pub open spec fn frac4_digits(f: int) -> Seq<char> {
    seq![
        digit_char(f / 1000 % 10),
        digit_char(f / 100 % 10),
        digit_char(f / 10 % 10),
        digit_char(f % 10),
    ]
}

/// Display form of a scaled value: `[-]W.FFFF`.
pub open spec fn spec_display(n: int) -> Seq<char> {
    let mag = if n < 0 {
        -n
    } else {
        n
    };
    let body = dec_digits(mag / 10000) + seq!['.'] + frac4_digits(mag % 10000);
    if n < 0 {
        seq!['-'] + body
    } else {
        body
    }
}

/// Index of the first `'.'` in `s`, or `s.len()` when there is none.
pub open spec fn first_dot(s: Seq<char>) -> int
    decreases s.len(),
{
    if s.len() == 0 {
        0
    } else if s[0] == '.' {
        0
    } else {
        1 + first_dot(s.drop_first())
    }
}

/// Scaled value of the fractional digits, rounded to four digits with ties
/// away from zero.
pub open spec fn frac_scaled(fp: Seq<char>) -> int {
    if fp.len() <= 4 {
        digits_val(fp) * pow10(4 - fp.len())
    } else {
        digits_val(fp.take(4)) + if digit_val(fp[4]) >= 5 {
            1int
        } else {
            0int
        }
    }
}

/// Scaled magnitude of an unsigned decimal body, or `None` when the body is
/// not a decimal: digits, at most one point, at least one digit.
pub open spec fn parse_mag(body: Seq<char>) -> Option<int> {
    let d = first_dot(body);
    let wp = body.take(d);
    let fp = if d == body.len() {
        Seq::<char>::empty()
    } else {
        body.skip(d + 1)
    };
    if all_digits(wp) && all_digits(fp) && wp.len() + fp.len() >= 1 {
        Some(digits_val(wp) * 10000 + frac_scaled(fp))
    } else {
        None
    }
}

/// Parse a signed decimal string into a scaled value; `None` when the text is
/// not a decimal or the value does not fit the scaled 64-bit domain.
pub open spec fn spec_parse(s: Seq<char>) -> Option<int> {
    if s.len() > 0 && s[0] == '-' {
        match parse_mag(s.drop_first()) {
            Some(m) => if -m >= i64::MIN {
                Some(-m)
            } else {
                None
            },
            None => None,
        }
    } else {
        match parse_mag(s) {
            Some(m) => if m <= i64::MAX {
                Some(m)
            } else {
                None
            },
            None => None,
        }
    }
}

pub proof fn lemma_digits_val_nonneg(s: Seq<char>)
    requires
        all_digits(s),
    ensures
        digits_val(s) >= 0,
    decreases s.len(),
{
    if s.len() > 0 {
        assert(all_digits(s.drop_last()));
        lemma_digits_val_nonneg(s.drop_last());
        assert(is_digit(s.last()));
    }
}

/// One digit more at the end multiplies the value by ten and adds the digit.
pub proof fn lemma_digits_val_take_step(s: Seq<char>, k: int)
    requires
        0 <= k < s.len(),
    ensures
        digits_val(s.take(k + 1)) == 10 * digits_val(s.take(k)) + digit_val(s[k]),
{
    assert(s.take(k + 1).drop_last() =~= s.take(k));
    assert(s.take(k + 1).last() == s[k]);
}

/// A digit string is worth at least any of its prefixes.
pub proof fn lemma_digits_val_prefix_le(s: Seq<char>, k: int)
    requires
        all_digits(s),
        0 <= k <= s.len(),
    ensures
        digits_val(s.take(k)) <= digits_val(s),
    decreases s.len() - k,
{
    if k == s.len() {
        assert(s.take(k) =~= s);
    } else {
        lemma_digits_val_take_step(s, k);
        assert(all_digits(s.take(k)));
        lemma_digits_val_nonneg(s.take(k));
        assert(is_digit(s[k]));
        lemma_digits_val_prefix_le(s, k + 1);
    }
}

/// The decimal digits of a nonnegative integer read back as that integer.
pub proof fn lemma_dec_digits(n: int)
    requires
        n >= 0,
    ensures
        all_digits(dec_digits(n)),
        dec_digits(n).len() >= 1,
        digits_val(dec_digits(n)) == n,
    decreases n,
{
    if n < 10 {
        let s = dec_digits(n);
        assert(s =~= seq![digit_char(n)]);
        assert(s.drop_last() =~= Seq::<char>::empty());
        assert(digits_val(Seq::<char>::empty()) == 0);
        assert(digits_val(s) == 10 * digits_val(s.drop_last()) + digit_val(s.last()));
        assert(digit_val(digit_char(n)) == n);
    } else {
        lemma_dec_digits(n / 10);
        let s = dec_digits(n);
        assert(s =~= dec_digits(n / 10).push(digit_char(n % 10)));
        assert(s.drop_last() =~= dec_digits(n / 10));
        assert(s.last() == digit_char(n % 10));
        assert(digit_val(digit_char(n % 10)) == n % 10);
        assert(forall|i: int| 0 <= i < s.len() ==> is_digit(#[trigger] s[i])) by {
            assert(forall|i: int|
                0 <= i < s.len() - 1 ==> s[i] == #[trigger] dec_digits(n / 10)[i]);
        }
    }
}

/// Characterisation of `first_dot`: the least index that holds `'.'`.
pub proof fn lemma_first_dot_at(s: Seq<char>, d: int)
    requires
        0 <= d <= s.len(),
        forall|j: int| 0 <= j < d ==> #[trigger] s[j] != '.',
        d < s.len() ==> s[d] == '.',
    ensures
        first_dot(s) == d,
    decreases d,
{
    if s.len() == 0 {
    } else if d == 0 {
    } else {
        lemma_first_dot_at(s.drop_first(), d - 1);
    }
}

/// The four padded digits of a fractional part read back as that part.
pub proof fn lemma_frac4(f: int)
    requires
        0 <= f < 10000,
    ensures
        all_digits(frac4_digits(f)),
        frac4_digits(f).len() == 4,
        frac_scaled(frac4_digits(f)) == f,
{
    let s = frac4_digits(f);
    let d3 = f / 1000 % 10;
    let d2 = f / 100 % 10;
    let d1 = f / 10 % 10;
    let d0 = f % 10;
    assert(digit_val(digit_char(d3)) == d3);
    assert(digit_val(digit_char(d2)) == d2);
    assert(digit_val(digit_char(d1)) == d1);
    assert(digit_val(digit_char(d0)) == d0);
    let s3 = seq![digit_char(d3), digit_char(d2), digit_char(d1)];
    let s2 = seq![digit_char(d3), digit_char(d2)];
    let s1 = seq![digit_char(d3)];
    assert(s.drop_last() =~= s3);
    assert(s3.drop_last() =~= s2);
    assert(s2.drop_last() =~= s1);
    assert(s1.drop_last() =~= Seq::<char>::empty());
    assert(digits_val(Seq::<char>::empty()) == 0);
    assert(digits_val(s1) == 10 * digits_val(s1.drop_last()) + digit_val(s1.last()));
    assert(digits_val(s2) == 10 * digits_val(s2.drop_last()) + digit_val(s2.last()));
    assert(digits_val(s3) == 10 * digits_val(s3.drop_last()) + digit_val(s3.last()));
    assert(digits_val(s) == 10 * digits_val(s.drop_last()) + digit_val(s.last()));
    assert(digits_val(s) == ((d3 * 10 + d2) * 10 + d1) * 10 + d0);
    assert(f / 1000 < 10);
    assert(f == 1000 * (f / 1000) + 100 * (f / 100 % 10) + 10 * (f / 10 % 10) + f % 10) by {
        assert(f == 10 * (f / 10) + f % 10);
        assert(f / 10 == 10 * (f / 100) + f / 10 % 10);
        assert(f / 100 == 10 * (f / 1000) + f / 100 % 10);
        assert(f / 10 / 10 == f / 100) by (nonlinear_arith)
            requires 0 <= f;
        assert(f / 100 / 10 == f / 1000) by (nonlinear_arith)
            requires 0 <= f;
    }
    assert(s.take(4) =~= s);
    assert(pow10(0) == 1);
}

pub proof fn lemma_pow10_pos(k: int)
    ensures
        pow10(k) >= 1,
    decreases k,
{
    if k > 0 {
        lemma_pow10_pos(k - 1);
    }
}

/// A string of `k` digits is worth less than `10^k`.
pub proof fn lemma_digits_val_upper(s: Seq<char>)
    requires
        all_digits(s),
    ensures
        digits_val(s) < pow10(s.len() as int),
    decreases s.len(),
{
    if s.len() > 0 {
        assert(all_digits(s.drop_last()));
        lemma_digits_val_upper(s.drop_last());
        assert(is_digit(s.last()));
        assert(digit_val(s.last()) <= 9);
    } else {
        assert(pow10(0) == 1);
    }
}

pub proof fn lemma_frac_scaled_bounds(fp: Seq<char>)
    requires
        all_digits(fp),
    ensures
        0 <= frac_scaled(fp) <= 10000,
{
    let len = fp.len() as int;
    assert(pow10(0) == 1);
    assert(pow10(1) == 10);
    assert(pow10(2) == 100);
    assert(pow10(3) == 1000);
    assert(pow10(4) == 10000);
    if len <= 4 {
        lemma_digits_val_nonneg(fp);
        lemma_digits_val_upper(fp);
        let p = pow10(4 - len);
        if len == 0 {
            assert(digits_val(fp) == 0);
        } else if len == 1 {
            assert(digits_val(fp) * p <= 9 * 1000);
        } else if len == 2 {
            assert(digits_val(fp) * p <= 99 * 100);
        } else if len == 3 {
            assert(digits_val(fp) * p <= 999 * 10);
        } else {
            assert(digits_val(fp) * p <= 9999 * 1);
        }
        assert(digits_val(fp) * p >= 0) by (nonlinear_arith)
            requires digits_val(fp) >= 0 && p >= 1;
    } else {
        assert(all_digits(fp.take(4)));
        lemma_digits_val_nonneg(fp.take(4));
        lemma_digits_val_upper(fp.take(4));
    }
}

/// The scaled magnitude is at least the value of the whole part.
pub proof fn lemma_mag_ge_whole(wp: Seq<char>, fp: Seq<char>)
    requires
        all_digits(wp),
        all_digits(fp),
    ensures
        digits_val(wp) * 10000 + frac_scaled(fp) >= digits_val(wp),
{
    lemma_digits_val_nonneg(wp);
    lemma_frac_scaled_bounds(fp);
    assert(digits_val(wp) * 10000 >= digits_val(wp)) by (nonlinear_arith)
        requires digits_val(wp) >= 0;
}

pub proof fn lemma_first_dot_bounds(s: Seq<char>)
    ensures
        0 <= first_dot(s) <= s.len(),
    decreases s.len(),
{
    if s.len() > 0 && s[0] != '.' {
        lemma_first_dot_bounds(s.drop_first());
    }
}

/// When a point exists, `first_dot` lands on one.
pub proof fn lemma_first_dot_is_dot(s: Seq<char>)
    ensures
        first_dot(s) < s.len() ==> s[first_dot(s)] == '.',
    decreases s.len(),
{
    if s.len() > 0 && s[0] != '.' {
        lemma_first_dot_is_dot(s.drop_first());
        lemma_first_dot_bounds(s.drop_first());
    }
}

/// `first_dot` is at least any prefix length free of points.
pub proof fn lemma_first_dot_ge(s: Seq<char>, k: int)
    requires
        0 <= k <= s.len(),
        forall|j: int| 0 <= j < k ==> #[trigger] s[j] != '.',
    ensures
        first_dot(s) >= k,
    decreases k,
{
    lemma_first_dot_bounds(s);
    if k > 0 {
        assert(s[0] != '.');
        assert(forall|j: int| 0 <= j < k - 1 ==> #[trigger] s.drop_first()[j] != '.') by {
            assert(forall|j: int| 0 <= j < k - 1 ==> #[trigger] s.drop_first()[j] == s[j + 1]);
        }
        lemma_first_dot_ge(s.drop_first(), k - 1);
        assert(first_dot(s) == 1 + first_dot(s.drop_first()));
    }
}

/// A magnitude beyond the unsigned 64-bit range parses to `None`, whatever
/// the sign.
pub proof fn lemma_parse_too_big(sv: Seq<char>, neg: bool, body: Seq<char>, m: int)
    requires
        parse_mag(body) == Some(m),
        m > u64::MAX as int,
        neg <==> (sv.len() > 0 && sv[0] == '-'),
        neg ==> body == sv.drop_first(),
        !neg ==> body == sv,
    ensures
        spec_parse(sv) is None,
{
    assert(u64::MAX as int >= i64::MAX as int);
    assert(-m < i64::MIN as int);
}

/// Round trip: parsing the display form of any scaled 64-bit value yields
/// that value back.
pub proof fn lemma_display_parse(n: int)
    requires
        i64::MIN <= n <= i64::MAX,
    ensures
        spec_parse(spec_display(n)) == Some(n),
{
    let mag = if n < 0 { -n } else { n };
    let w = mag / 10000;
    let f = mag % 10000;
    lemma_dec_digits(w);
    lemma_frac4(f);
    let wd = dec_digits(w);
    let body = wd + seq!['.'] + frac4_digits(f);
    let d = wd.len() as int;
    assert(forall|j: int| 0 <= j < d ==> #[trigger] body[j] != '.') by {
        assert(forall|j: int| 0 <= j < d ==> #[trigger] body[j] == wd[j]);
    }
    assert(body[d] == '.');
    lemma_first_dot_at(body, d);
    assert(body.take(d) =~= wd);
    assert(body.skip(d + 1) =~= frac4_digits(f));
    assert(parse_mag(body) == Some(digits_val(wd) * 10000 + frac_scaled(frac4_digits(f))));
    assert(mag == 10000 * (mag / 10000) + mag % 10000);
    assert(parse_mag(body) == Some(mag));
    if n < 0 {
        let s = spec_display(n);
        assert(s =~= seq!['-'] + body);
        assert(s[0] == '-');
        assert(s.drop_first() =~= body);
        assert(-mag == n);
    } else {
        let s = spec_display(n);
        assert(s =~= body);
        assert(s[0] == wd[0]);
        assert(is_digit(s[0]));
        assert(s[0] != '-');
    }
}

} // verus!

