//! Exact fixed-point monetary values with four fractional decimal digits,
//! stored as a scaled signed 64-bit integer (`scaled = real * 10_000`).

use vstd::prelude::*;

verus! {

use vstd::std_specs::cmp::PartialOrdSpec;
use vstd::string::{StringExecFns, StrSliceExecFns};
use crate::decimal::{
    digit_char, digit_val, is_digit, all_digits, digits_val, dec_digits, pow10, first_dot,
    frac_scaled, parse_mag, spec_display, spec_parse, lemma_digits_val_nonneg,
    lemma_digits_val_take_step, lemma_digits_val_prefix_le, lemma_digits_val_upper,
    lemma_frac_scaled_bounds, lemma_mag_ge_whole, lemma_first_dot_at, lemma_first_dot_ge,
    lemma_first_dot_bounds, lemma_first_dot_is_dot, lemma_parse_too_big, lemma_display_parse,
};

/// The digit value of a character, or `None` when it is no decimal digit.
fn digit_of(c: char) -> (r: Option<u64>)
    ensures
        match r {
            Some(d) => is_digit(c) && d as int == digit_val(c),
            None => !is_digit(c),
        },
{
    match c {
        '0' => Some(0u64),
        '1' => Some(1u64),
        '2' => Some(2u64),
        '3' => Some(3u64),
        '4' => Some(4u64),
        '5' => Some(5u64),
        '6' => Some(6u64),
        '7' => Some(7u64),
        '8' => Some(8u64),
        '9' => Some(9u64),
        _ => None,
    }
}

/// Append the character of one digit value to a string.
fn push_digit(out: &mut String, d: u64)
    requires
        d < 10,
    ensures
        final(out)@ == old(out)@ + seq![digit_char(d as int)],
{
    let s: &str = if d == 0 {
        "0"
    } else if d == 1 {
        "1"
    } else if d == 2 {
        "2"
    } else if d == 3 {
        "3"
    } else if d == 4 {
        "4"
    } else if d == 5 {
        "5"
    } else if d == 6 {
        "6"
    } else if d == 7 {
        "7"
    } else if d == 8 {
        "8"
    } else {
        "9"
    };
    proof {
        reveal_strlit("0");
        reveal_strlit("1");
        reveal_strlit("2");
        reveal_strlit("3");
        reveal_strlit("4");
        reveal_strlit("5");
        reveal_strlit("6");
        reveal_strlit("7");
        reveal_strlit("8");
        reveal_strlit("9");
        assert(s@ =~= seq![digit_char(d as int)]);
    }
    out.append(s);
}

/// Append the decimal digits of a whole number, most significant first.
fn push_dec_digits(out: &mut String, n: u64)
    ensures
        final(out)@ == old(out)@ + dec_digits(n as int),
    decreases n,
{
    if n < 10 {
        push_digit(out, n);
        proof {
            assert(old(out)@ + seq![digit_char(n as int)] =~= old(out)@ + dec_digits(n as int));
        }
    } else {
        push_dec_digits(out, n / 10);
        push_digit(out, n % 10);
        proof {
            assert((old(out)@ + dec_digits((n / 10) as int)) + seq![digit_char((n % 10) as int)]
                =~= old(out)@ + dec_digits(n as int));
        }
    }
}

/// Number of scaled units per whole unit: four fractional decimal digits.
pub const SCALE: i64 = 10_000;

/// A monetary value as a scaled signed 64-bit integer.
///
/// The view of an `Amount` is its scaled value as a mathematical integer.
#[derive(Debug, Clone, Copy, PartialEq, Eq, Structural)]
pub struct Amount(pub i64);

impl View for Amount {
    type V = int;

    open spec fn view(&self) -> int {
        self.0 as int
    }
}

impl Amount {
    /// Construct an amount directly from a scaled integer (identity).
    pub fn from_scaled(value: i64) -> (r: Amount)
        ensures
            r@ == value as int,
    {
        Amount(value)
    }

    /// Exact addition. The caller must rule overflow out; overflow on
    /// ingestion input is a documented non-goal of the ledger.
    pub fn add(self, rhs: Amount) -> (r: Amount)
        requires
            i64::MIN <= self@ + rhs@ <= i64::MAX,
        ensures
            r@ == self@ + rhs@,
    {
        Amount(self.0 + rhs.0)
    }

    /// Exact in-place addition.
    pub fn add_assign(&mut self, rhs: Amount)
        requires
            i64::MIN <= old(self)@ + rhs@ <= i64::MAX,
        ensures
            final(self)@ == old(self)@ + rhs@,
    {
        self.0 = self.0 + rhs.0;
    }

    /// Exact in-place subtraction.
    pub fn sub_assign(&mut self, rhs: Amount)
        requires
            i64::MIN <= old(self)@ - rhs@ <= i64::MAX,
        ensures
            final(self)@ == old(self)@ - rhs@,
    {
        self.0 = self.0 - rhs.0;
    }

    /// Total addition: `None` exactly when the exact sum does not fit the
    /// scaled 64-bit domain.
    pub fn checked_add(self, rhs: Amount) -> (r: Option<Amount>)
        ensures
            i64::MIN <= self@ + rhs@ <= i64::MAX ==> r == Some(Amount((self@ + rhs@) as i64)),
            !(i64::MIN <= self@ + rhs@ <= i64::MAX) ==> r is None,
    {
        match self.0.checked_add(rhs.0) {
            Some(v) => Some(Amount(v)),
            None => None,
        }
    }
}

impl Amount {
    /// Display form `[-]W.FFFF`: the whole part, a point, and exactly four
    /// zero-padded fractional digits.
    pub fn display_string(&self) -> (r: String)
        ensures
            r@ == spec_display(self@),
    {
        let mut out = String::new();
        let mag: u64 = if self.0 >= 0 {
            self.0 as u64
        } else if self.0 == i64::MIN {
            9223372036854775808u64
        } else {
            (-self.0) as u64
        };
        assert(mag as int == if self@ < 0 { -self@ } else { self@ });
        if self.0 < 0 {
            proof {
                reveal_strlit("-");
            }
            out.append("-");
            assert(out@ =~= seq!['-']);
        }
        let whole = mag / 10000;
        let frac = mag % 10000;
        push_dec_digits(&mut out, whole);
        proof {
            reveal_strlit(".");
        }
        out.append(".");
        push_digit(&mut out, frac / 1000);
        push_digit(&mut out, frac / 100 % 10);
        push_digit(&mut out, frac / 10 % 10);
        push_digit(&mut out, frac % 10);
        proof {
            assert(frac / 1000 % 10 == frac / 1000);
            assert(out@ =~= spec_display(self@));
        }
        out
    }

    /// The value whose display form this amount has, read back: the display
    /// format always parses, to the same scaled value.
    pub proof fn lemma_display_round_trip(self)
        ensures
            spec_parse(spec_display(self@)) == Some(self@),
    {
        lemma_display_parse(self@);
    }

    /// Parse a decimal string: an optional sign, digits, an optional point
    /// and fractional digits, rounded to four digits half away from zero.
    /// `None` when the text is not a decimal or the value does not fit the
    /// scaled signed 64-bit domain.
    #[verifier::rlimit(80)]
    pub fn from_decimal_str(s: &str) -> (r: Option<Amount>)
        ensures
            match r {
                Some(a) => spec_parse(s@) == Some(a@),
                None => spec_parse(s@) is None,
            },
    {
        let len = s.unicode_len();
        let neg = if len > 0 {
            s.get_char(0) == '-'
        } else {
            false
        };
        let start: usize = if neg {
            1
        } else {
            0
        };
        let ghost body = s@.skip(start as int);
        proof {
            if !neg {
                assert(body =~= s@);
            } else {
                assert(body =~= s@.drop_first());
            }
        }
        // Scan: record the first point; every other character must be a digit.
        let mut seen_dot = false;
        let mut dot: usize = len;
        let mut i = start;
        while i < len
            invariant
                len == s@.len(),
                start <= i <= len,
                start <= 1,
                neg <==> (s@.len() > 0 && s@[0] == '-'),
                neg ==> start == 1,
                !neg ==> start == 0,
                body == s@.skip(start as int),
                neg ==> body == s@.drop_first(),
                !neg ==> body == s@,
                seen_dot ==> start <= dot && dot < i && s@[dot as int] == '.',
                !seen_dot ==> dot == len,
                forall|j: int| start <= j < i && j != dot ==> is_digit(#[trigger] s@[j]),
            decreases len - i,
        {
            let c = s.get_char(i);
            if c == '.' {
                if seen_dot {
                    proof {
                        let d = (dot - start) as int;
                        assert(forall|j: int| 0 <= j < d ==> #[trigger] body[j] != '.') by {
                            assert(forall|j: int|
                                0 <= j < d ==> is_digit(#[trigger] body[j]) && body[j] == s@[j
                                    + start]);
                        }
                        assert(body[d] == '.');
                        lemma_first_dot_at(body, d);
                        let fp = body.skip(d + 1);
                        assert(fp[i - dot - 1] == s@[i as int]);
                        assert(!is_digit('.'));
                        assert(!all_digits(fp));
                        assert(parse_mag(body) is None);
                    }
                    return None;
                }
                seen_dot = true;
                dot = i;
            } else {
                match digit_of(c) {
                    Some(_) => {
                    },
                    None => {
                        proof {
                            if seen_dot {
                                let d = (dot - start) as int;
                                assert(forall|j: int| 0 <= j < d ==> #[trigger] body[j] != '.')
                                    by {
                                    assert(forall|j: int|
                                        0 <= j < d ==> is_digit(#[trigger] body[j]) && body[j]
                                            == s@[j + start]);
                                }
                                assert(body[d] == '.');
                                lemma_first_dot_at(body, d);
                                let fp = body.skip(d + 1);
                                assert(fp[i - dot - 1] == s@[i as int]);
                                assert(!all_digits(fp));
                            } else {
                                let k = (i - start) as int;
                                assert(forall|j: int| 0 <= j < k ==> #[trigger] body[j] != '.')
                                    by {
                                    assert(forall|j: int|
                                        0 <= j < k ==> is_digit(#[trigger] body[j]) && body[j]
                                            == s@[j + start]);
                                }
                                lemma_first_dot_ge(body, k);
                                lemma_first_dot_bounds(body);
                                let d = first_dot(body);
                                let wp = body.take(d);
                                assert(body[k] == s@[i as int]);
                                if k < d {
                                    assert(wp[k] == body[k]);
                                    assert(!all_digits(wp));
                                } else {
                                    // k == d: the bad character would be the point
                                    assert(body[k] != '.');
                                    assert(d < body.len() ==> body[d] == '.') by {
                                        lemma_first_dot_is_dot(body);
                                    }
                                    assert(false);
                                }
                            }
                            assert(parse_mag(body) is None);
                        }
                        return None;
                    },
                }
            }
            i += 1;
        }
        // Split positions are now known: digits, then maybe a point, then digits.
        let wp_end = if seen_dot {
            dot
        } else {
            len
        };
        let ghost d_rel = (wp_end - start) as int;
        let ghost wp = body.take(d_rel);
        let ghost fp = if seen_dot {
            body.skip(d_rel + 1)
        } else {
            Seq::<char>::empty()
        };
        proof {
            assert(forall|j: int| 0 <= j < d_rel ==> #[trigger] body[j] != '.') by {
                assert(forall|j: int|
                    0 <= j < d_rel ==> is_digit(#[trigger] body[j]) && body[j] == s@[j + start]);
            }
            if seen_dot {
                assert(body[d_rel] == '.');
            }
            lemma_first_dot_at(body, d_rel);
            assert(all_digits(wp)) by {
                assert(forall|j: int|
                    0 <= j < wp.len() ==> #[trigger] wp[j] == s@[j + start] && is_digit(s@[j
                        + start]));
            }
            assert(all_digits(fp)) by {
                if seen_dot {
                    assert(forall|j: int|
                        0 <= j < fp.len() ==> #[trigger] fp[j] == s@[j + dot + 1] && is_digit(s@[j
                            + dot + 1]));
                }
            }
            if !seen_dot {
                assert(wp =~= body);
            }
        }
        let ndigits = (len - start) - (if seen_dot {
            1
        } else {
            0
        });
        if ndigits == 0 {
            proof {
                assert(wp.len() + fp.len() == 0);
                assert(parse_mag(body) is None);
            }
            return None;
        }
        let ghost mag_spec = digits_val(wp) * 10000 + frac_scaled(fp);
        proof {
            assert(parse_mag(body) == Some(mag_spec));
        }
        // Whole part, most significant digit first.
        let mut w: u64 = 0;
        let mut i = start;
        while i < wp_end
            invariant
                len == s@.len(),
                start <= i <= wp_end <= len,
                start <= 1,
                neg <==> (s@.len() > 0 && s@[0] == '-'),
                neg ==> start == 1,
                !neg ==> start == 0,
                body == s@.skip(start as int),
                neg ==> body == s@.drop_first(),
                !neg ==> body == s@,
                d_rel == wp_end - start,
                wp == body.take(d_rel),
                all_digits(wp),
                all_digits(fp),
                parse_mag(body) == Some(mag_spec),
                mag_spec == digits_val(wp) * 10000 + frac_scaled(fp),
                forall|j: int| start <= j < wp_end ==> is_digit(#[trigger] s@[j]),
                w as int == digits_val(body.take(i - start)),
            decreases wp_end - i,
        {
            let c = s.get_char(i);
            let ghost k = (i - start) as int;
            proof {
                assert(body[k] == s@[i as int]);
                assert(wp[k] == body[k]);
                lemma_digits_val_take_step(body, k);
            }
            let d = match digit_of(c) {
                Some(d) => d,
                None => {
                    proof {
                        assert(false);
                    }
                    return None;
                },
            };
            let w2 = match w.checked_mul(10) {
                Some(x) => match x.checked_add(d) {
                    Some(y) => y,
                    None => {
                        proof {
                            assert(wp.take(k + 1) =~= body.take(k + 1));
                            assert(digits_val(body.take(k + 1)) == 10 * (w as int) + d as int);
                            lemma_too_big_whole(s@, neg, body, wp, fp, mag_spec, k);
                        }
                        return None;
                    },
                },
                None => {
                    proof {
                        assert(wp.take(k + 1) =~= body.take(k + 1));
                        assert(is_digit(wp[k]));
                        assert(digits_val(body.take(k + 1)) == 10 * (w as int) + digit_val(
                            body[k],
                        ));
                        assert(digit_val(body[k]) >= 0);
                        lemma_too_big_whole(s@, neg, body, wp, fp, mag_spec, k);
                    }
                    return None;
                },
            };
            w = w2;
            i += 1;
        }
        proof {
            assert(body.take((wp_end - start) as int) =~= wp);
        }
        // Fractional part: up to four digits, then one digit decides rounding.
        let mut f: u64 = 0;
        if seen_dot {
            let mut k: usize = 0;
            let mut i = dot + 1;
            while i < len && k < 4
                invariant
                    len == s@.len(),
                    start <= dot < len,
                    start <= 1,
                    i == dot + 1 + k,
                    dot + 1 <= i <= len,
                    k <= 4,
                    body == s@.skip(start as int),
                    d_rel == dot - start,
                    fp == body.skip(d_rel + 1),
                    all_digits(fp),
                    fp.len() == len - dot - 1,
                    forall|j: int| dot < j < len ==> is_digit(#[trigger] s@[j]),
                    f as int == digits_val(fp.take(k as int)),
                    (f as int) < pow10(k as int),
                decreases len - i,
            {
                let c = s.get_char(i);
                proof {
                    assert(fp[k as int] == s@[i as int]);
                    lemma_digits_val_take_step(fp, k as int);
                    lemma_digits_val_upper(fp.take(k as int + 1));
                    assert(pow10(0) == 1);
                    assert(pow10(1) == 10);
                    assert(pow10(2) == 100);
                    assert(pow10(3) == 1000);
                    assert(pow10(4) == 10000);
                }
                let d = match digit_of(c) {
                    Some(d) => d,
                    None => {
                        proof {
                            assert(false);
                        }
                        return None;
                    },
                };
                f = f * 10 + d;
                k += 1;
                i += 1;
            }
            proof {
                assert(pow10(0) == 1);
                assert(pow10(1) == 10);
                assert(pow10(2) == 100);
                assert(pow10(3) == 1000);
                assert(pow10(4) == 10000);
            }
            if k < 4 {
                // the fraction has fewer than four digits: zero padding
                proof {
                    assert(i == len);
                    assert(fp.take(k as int) =~= fp);
                }
                let pad: u64 = if k == 0 {
                    10000
                } else if k == 1 {
                    1000
                } else if k == 2 {
                    100
                } else {
                    10
                };
                proof {
                    assert(pow10(0) == 1);
                    assert(pow10(1) == 10);
                    assert(pow10(2) == 100);
                    assert(pow10(3) == 1000);
                    if k == 0 {
                        assert(f < 1);
                    } else if k == 1 {
                        assert(f < 10);
                    } else if k == 2 {
                        assert(f < 100);
                    } else {
                        assert(f < 1000);
                    }
                }
                f = f * pad;
                proof {
                    assert(f as int == frac_scaled(fp));
                }
            } else {
                if i < len {
                    // a fifth digit: round half away from zero
                    let c5 = s.get_char(i);
                    proof {
                        assert(fp[4] == s@[i as int]);
                    }
                    let d5 = match digit_of(c5) {
                        Some(d) => d,
                        None => {
                            proof {
                                assert(false);
                            }
                            return None;
                        },
                    };
                    if d5 >= 5 {
                        f = f + 1;
                    }
                    proof {
                        assert(fp.len() > 4);
                        assert(f as int == frac_scaled(fp));
                    }
                } else {
                    proof {
                        assert(fp.take(4) =~= fp);
                        assert(f as int == frac_scaled(fp));
                    }
                }
            }
        } else {
            proof {
                assert(digits_val(Seq::<char>::empty()) == 0);
                assert(pow10(0) == 1);
                assert(pow10(1) == 10);
                assert(pow10(2) == 100);
                assert(pow10(3) == 1000);
                assert(pow10(4) == 10000);
                assert(f as int == frac_scaled(fp));
            }
        }
        proof {
            lemma_frac_scaled_bounds(fp);
            lemma_digits_val_nonneg(wp);
        }
        // Combine whole and fraction into the scaled magnitude.
        let m64 = match w.checked_mul(10000) {
            Some(x) => x,
            None => {
                proof {
                    assert(digits_val(wp) * 10000 > u64::MAX as int);
                    lemma_parse_too_big(s@, neg, body, mag_spec);
                }
                return None;
            },
        };
        let mag = match m64.checked_add(f) {
            Some(x) => x,
            None => {
                proof {
                    lemma_parse_too_big(s@, neg, body, mag_spec);
                }
                return None;
            },
        };
        proof {
            assert(mag as int == mag_spec);
        }
        if neg {
            if mag > 9223372036854775808u64 {
                proof {
                    assert(-mag_spec < i64::MIN as int);
                }
                return None;
            }
            if mag == 9223372036854775808u64 {
                proof {
                    assert(i64::MIN as int == -mag_spec);
                }
                return Some(Amount(i64::MIN));
            }
            Some(Amount(-(mag as i64)))
        } else {
            if mag > 9223372036854775807u64 {
                proof {
                    assert(mag_spec > i64::MAX as int);
                }
                return None;
            }
            Some(Amount(mag as i64))
        }
    }
}

/// An intermediate overflow while reading the whole part means the value
/// cannot fit: the magnitude exceeds the unsigned 64-bit range.
proof fn lemma_too_big_whole(
    sv: Seq<char>,
    neg: bool,
    body: Seq<char>,
    wp: Seq<char>,
    fp: Seq<char>,
    mag_spec: int,
    k: int,
)
    requires
        parse_mag(body) == Some(mag_spec),
        mag_spec == digits_val(wp) * 10000 + frac_scaled(fp),
        all_digits(wp),
        all_digits(fp),
        0 <= k < wp.len(),
        digits_val(wp.take(k + 1)) > u64::MAX as int,
        neg <==> (sv.len() > 0 && sv[0] == '-'),
        neg ==> body == sv.drop_first(),
        !neg ==> body == sv,
    ensures
        spec_parse(sv) is None,
{
    lemma_digits_val_prefix_le(wp, k + 1);
    lemma_mag_ge_whole(wp, fp);
    lemma_parse_too_big(sv, neg, body, mag_spec);
}

impl Default for Amount {
    /// The zero amount.
    fn default() -> (r: Amount)
        ensures
            r@ == 0,
    {
        Amount(0)
    }
}

impl PartialOrd for Amount {
    fn partial_cmp(&self, other: &Amount) -> (r: Option<core::cmp::Ordering>) {
        if self.0 < other.0 {
            Some(core::cmp::Ordering::Less)
        } else if self.0 == other.0 {
            Some(core::cmp::Ordering::Equal)
        } else {
            Some(core::cmp::Ordering::Greater)
        }
    }
}

impl vstd::std_specs::cmp::PartialOrdSpecImpl for Amount {
    open spec fn obeys_partial_cmp_spec() -> bool {
        true
    }

    open spec fn partial_cmp_spec(&self, other: &Amount) -> Option<core::cmp::Ordering> {
        if self@ < other@ {
            Some(core::cmp::Ordering::Less)
        } else if self@ == other@ {
            Some(core::cmp::Ordering::Equal)
        } else {
            Some(core::cmp::Ordering::Greater)
        }
    }
}

} // verus!
