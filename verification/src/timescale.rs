//! Timestamp arithmetic: the calendar conversion behind the
//! configuration file's two time lines, the exactly-held decimal
//! multiplication factor, and the scaling of per-record offsets.

use vstd::prelude::*;
use vstd::arithmetic::div_mod::{
    lemma_basic_div, lemma_div_decreases, lemma_div_is_ordered, lemma_div_multiples_vanish,
    lemma_div_pos_is_pos, lemma_fundamental_div_mod, lemma_fundamental_div_mod_converse,
    lemma_mod_division_less_than_divisor,
};

use crate::text::{
    all_digits, digits_value, find_char_clipped, find_exp_clipped, is_inf_text, is_infinity_text,
    is_nan_text, lemma_digits_value_nonneg, spec_parse_i64, find_exp, find_dot,
    parse_digits_capped, parse_i64_range, subvec, unsigned_part,
};

verus! {

/// Nanoseconds from the Unix epoch to the first moment of the year 2000,
/// the reference epoch that decoded timestamps are measured from.
pub const REFERENCE_EPOCH_OFFSET_NANOS: i64 = 946684800000000000;

// ---------------------------------------------------------------------
// Calendar conversion
// ---------------------------------------------------------------------

/// The UTC nanosecond timestamp (since the Unix epoch) that the given
/// calendar fields name, or nothing when they name no valid moment in
/// nanosecond range. The value is a function of the fields alone.
pub uninterp spec fn utc_nanos(
    year: int,
    month: int,
    day: int,
    hour: int,
    minute: int,
    second: int,
    micro: int,
) -> Option<i64>;

/// Relies on chrono's `NaiveDate::from_ymd_opt`,
/// `NaiveDate::and_hms_micro_opt`, `NaiveDateTime::and_utc` and
/// `DateTime::timestamp_nanos_opt`: together they return `Some` of the
/// UTC nanoseconds since the Unix epoch exactly when the fields name a
/// valid calendar moment within the `i64` nanosecond range, and the
/// result depends on the seven fields alone.
#[verifier::external_body]
pub fn utc_timestamp_nanos(
    year: i32,
    month: u32,
    day: u32,
    hour: u32,
    minute: u32,
    second: u32,
    micro: u32,
) -> (r: Option<i64>)
    ensures
        r == utc_nanos(
            year as int,
            month as int,
            day as int,
            hour as int,
            minute as int,
            second as int,
            micro as int,
        ),
{
    match chrono::NaiveDate::from_ymd_opt(year, month, day) {
        Some(date) => match date.and_hms_micro_opt(hour, minute, second, micro) {
            Some(moment) => moment.and_utc().timestamp_nanos_opt(),
            None => None,
        },
        None => None,
    }
}

// ---------------------------------------------------------------------
// Powers of ten and rounding division
// ---------------------------------------------------------------------

/// Ten to the `k`.
pub open spec fn pow10(k: nat) -> int
    decreases k,
{
    if k == 0 {
        1
    } else {
        10 * pow10((k - 1) as nat)
    }
}

pub proof fn lemma_pow10_pos(k: nat)
    ensures
        pow10(k) >= 1,
    decreases k,
{
    if k > 0 {
        lemma_pow10_pos((k - 1) as nat);
    }
}

pub proof fn lemma_pow10_monotone(a: nat, b: nat)
    requires
        a <= b,
    ensures
        pow10(a) <= pow10(b),
    decreases b,
{
    if a < b {
        lemma_pow10_monotone(a, (b - 1) as nat);
        lemma_pow10_pos((b - 1) as nat);
    }
}

pub proof fn lemma_pow10_adds(a: nat, b: nat)
    ensures
        pow10(a + b) == pow10(a) * pow10(b),
    decreases a,
{
    if a == 0 {
    } else {
        lemma_pow10_adds((a - 1) as nat, b);
        assert(10 * (pow10((a - 1) as nat) * pow10(b)) == (10 * pow10((a - 1) as nat)) * pow10(
            b,
        )) by (nonlinear_arith);
        assert((a + b - 1) as nat == (a - 1) as nat + b);
    }
}

pub proof fn lemma_pow10_38()
    ensures
        pow10(38) == 100000000000000000000000000000000000000int,
{
    reveal_with_fuel(pow10, 40);
}

/// Division to the nearest integer, halves away from zero, for a
/// positive divisor.
pub open spec fn round_div(a: int, b: int) -> int {
    if a >= 0 {
        (a + b / 2) / b
    } else {
        -(((-a) + b / 2) / b)
    }
}

/// Exact multiples divide back out, whatever the sign.
pub proof fn lemma_round_div_exact(y: int, c: int)
    requires
        c > 0,
    ensures
        round_div(y * c, c) == y,
{
    lemma_div_pos_is_pos(c, 2);
    lemma_div_decreases(c, 2);
    if y >= 0 {
        assert(y * c >= 0) by (nonlinear_arith)
            requires
                y >= 0 && c > 0,
        ;
        lemma_fundamental_div_mod_converse(y * c + c / 2, c, y, c / 2);
    } else {
        assert(y * c < 0) by (nonlinear_arith)
            requires
                y < 0 && c > 0,
        ;
        assert(-(y * c) == (-y) * c) by (nonlinear_arith);
        lemma_fundamental_div_mod_converse((-y) * c + c / 2, c, -y, c / 2);
    }
}

/// A factor of a thousand cancels from a rounding division.
pub proof fn lemma_round_div_cancel(x: int, p: int)
    requires
        p > 0,
    ensures
        round_div(x * 1000, p * 1000) == round_div(x, p),
    decreases (if x < 0 { 1int } else { 0int }),
{
    if x >= 0 {
        let h = p / 2;
        let q = (x + h) / p;
        let s = (x + h) % p;
        lemma_fundamental_div_mod(x + h, p);
        lemma_mod_division_less_than_divisor(x + h, p);
        lemma_fundamental_div_mod(p, 2);
        lemma_mod_division_less_than_divisor(p, 2);
        // the divisor is even, so its half is exact
        assert(p * 1000 == 2 * (500 * p));
        lemma_div_multiples_vanish(500 * p, 2);
        assert((p * 1000) / 2 == 500 * p);
        // scale the division identity by a thousand
        assert(x == p * q + s - h);
        assert(1000 * (p * q) == (p * 1000) * q) by (nonlinear_arith);
        assert(2 * h == p - p % 2);
        assert(1000 * h == 500 * (p - p % 2));
        assert(x * 1000 + (p * 1000) / 2 == (p * 1000) * q + (1000 * s + 500 * (p % 2)));
        assert(0 <= 1000 * s + 500 * (p % 2) < p * 1000);
        lemma_fundamental_div_mod_converse(
            x * 1000 + (p * 1000) / 2,
            p * 1000,
            q,
            1000 * s + 500 * (p % 2),
        );
    } else {
        lemma_round_div_cancel(-x, p);
    }
}

// ---------------------------------------------------------------------
// The timestamp multiplication factor
// ---------------------------------------------------------------------

/// A timestamp multiplication factor. A plain decimal is held exactly;
/// the floating-point words `inf`, `infinity` and `nan` are held
/// symbolically, so that every factor text that parses as a float can
/// be represented.
#[derive(Clone, Copy, Debug, PartialEq, Eq, Structural)]
pub enum TimestampFactor {
    /// The signed digits of the factor as written, point removed,
    /// scaled by the given power of ten: the value is
    /// `mantissa * 10^exp10`.
    Finite { mantissa: i64, exp10: i32 },
    /// An infinite factor: any nonzero offset scales past the
    /// representable range.
    Infinite { negative: bool },
    /// A factor that is no number: it contributes no offset.
    NotANumber,
}

/// The digits of a factor mantissa with the decimal point taken out,
/// and the count of fractional digits.
pub open spec fn mantissa_digits(mant: Seq<char>) -> Seq<char> {
    let dot = find_char_clipped(mant, '.');
    if dot < mant.len() {
        mant.subrange(0, dot) + mant.subrange(dot + 1, mant.len() as int)
    } else {
        mant
    }
}

/// How many digits of the factor mantissa stand right of the point.
pub open spec fn mantissa_frac_len(mant: Seq<char>) -> int {
    let dot = find_char_clipped(mant, '.');
    if dot < mant.len() {
        mant.len() - dot - 1
    } else {
        0
    }
}

/// What parsing `s` as a factor yields. The grammar is the
/// floating-point text grammar: an optional sign, then either one of
/// the special words (held symbolically) or digits with at most one
/// point, at least one digit, and an optional integer exponent. The
/// digits must fit an `i64` and the effective power of ten an `i32`:
/// the machine limits of the exact decimal form.
pub open spec fn spec_parse_factor(s: Seq<char>) -> Option<TimestampFactor> {
    let b = unsigned_part(s);
    let neg = s.len() > 0 && s[0] == '-';
    if is_inf_text(b) || is_infinity_text(b) {
        Some(TimestampFactor::Infinite { negative: neg })
    } else if is_nan_text(b) {
        Some(TimestampFactor::NotANumber)
    } else {
        spec_parse_finite_factor(b, neg)
    }
}

/// The plain-decimal arm of the factor grammar.
pub open spec fn spec_parse_finite_factor(b: Seq<char>, neg: bool) -> Option<TimestampFactor> {
    let e = find_exp_clipped(b);
    let mant = b.subrange(0, e);
    let exp_val = if e < b.len() {
        spec_parse_i64(b.subrange(e + 1, b.len() as int))
    } else {
        Some(0i64)
    };
    let digits = mantissa_digits(mant);
    let frac_len = mantissa_frac_len(mant);
    if digits.len() > 0 && all_digits(digits) && digits_value(digits) <= i64::MAX && exp_val
        is Some && i32::MIN <= exp_val->0 - frac_len <= i32::MAX {
        Some(
            TimestampFactor::Finite {
                mantissa: if neg {
                    (-digits_value(digits)) as i64
                } else {
                    digits_value(digits) as i64
                },
                exp10: (exp_val->0 - frac_len) as i32,
            },
        )
    } else {
        None
    }
}

/// Parses `v[from..to]` as a factor.
pub fn parse_factor(v: &Vec<char>, from: usize, to: usize) -> (r: Option<TimestampFactor>)
    requires
        from <= to <= v@.len(),
    ensures
        r == spec_parse_factor(v@.subrange(from as int, to as int)),
{
    let ghost s = v@.subrange(from as int, to as int);
    if from == to {
        proof {
            assert(mantissa_digits(unsigned_part(s)).len() == 0);
        }
        return None;
    }
    let c0 = v[from];
    let neg = c0 == '-';
    let start: usize = if c0 == '-' || c0 == '+' {
        from + 1
    } else {
        from
    };
    let ghost b = unsigned_part(s);
    proof {
        assert(b =~= v@.subrange(start as int, to as int));
    }
    // the special words are held symbolically
    if to - start == 3 {
        let c1 = v[start];
        let c2 = v[start + 1];
        let c3 = v[start + 2];
        if (c1 == 'i' || c1 == 'I') && (c2 == 'n' || c2 == 'N') && (c3 == 'f' || c3 == 'F') {
            proof {
                assert(is_inf_text(b));
            }
            return Some(TimestampFactor::Infinite { negative: neg });
        }
        if (c1 == 'n' || c1 == 'N') && (c2 == 'a' || c2 == 'A') && (c3 == 'n' || c3 == 'N') {
            proof {
                assert(is_nan_text(b));
                assert(!is_inf_text(b));
            }
            return Some(TimestampFactor::NotANumber);
        }
    }
    if to - start == 8 {
        let c1 = v[start];
        let c2 = v[start + 1];
        let c3 = v[start + 2];
        let c4 = v[start + 3];
        let c5 = v[start + 4];
        let c6 = v[start + 5];
        let c7 = v[start + 6];
        let c8 = v[start + 7];
        if (c1 == 'i' || c1 == 'I') && (c2 == 'n' || c2 == 'N') && (c3 == 'f' || c3 == 'F') && (c4
            == 'i' || c4 == 'I') && (c5 == 'n' || c5 == 'N') && (c6 == 'i' || c6 == 'I') && (c7
            == 't' || c7 == 'T') && (c8 == 'y' || c8 == 'Y') {
            proof {
                assert(is_infinity_text(b));
            }
            return Some(TimestampFactor::Infinite { negative: neg });
        }
    }
    proof {
        assert(!is_inf_text(b) && !is_infinity_text(b) && !is_nan_text(b));
    }
    parse_finite_factor(v, start, to, neg)
}

/// Parses `v[start..to]` as the plain-decimal arm of the factor
/// grammar; the sign has already been taken off.
#[verifier::rlimit(100)]
fn parse_finite_factor(v: &Vec<char>, start: usize, to: usize, neg: bool) -> (r: Option<
    TimestampFactor,
>)
    requires
        start <= to <= v@.len(),
    ensures
        r == spec_parse_finite_factor(v@.subrange(start as int, to as int), neg),
{
    let ghost b = v@.subrange(start as int, to as int);
    let e = find_exp(v, start, to);
    let ghost mant = b.subrange(0, e - start);
    if start == to {
        proof {
            assert(mantissa_digits(mant).len() == 0);
        }
        return None;
    }
    proof {
        assert(mant =~= v@.subrange(start as int, e as int));
    }
    let exp_val: i64 = if e < to {
        proof {
            assert(b.subrange(e - start + 1, b.len() as int) =~= v@.subrange(e + 1, to as int));
        }
        match parse_i64_range(v, e + 1, to) {
            Some(x) => x,
            None => {
                return None;
            },
        }
    } else {
        0
    };
    let dot = find_dot(v, start, e);
    let mut digits: Vec<char> = subvec(v, start, dot);
    let mut rest: Vec<char> = if dot < e {
        subvec(v, dot + 1, e)
    } else {
        Vec::new()
    };
    digits.append(&mut rest);
    let ghost dseq = mantissa_digits(mant);
    proof {
        if dot < e {
            assert(mant.subrange(0, dot - start) =~= v@.subrange(start as int, dot as int));
            assert(mant.subrange(dot - start + 1, mant.len() as int) =~= v@.subrange(
                dot + 1,
                e as int,
            ));
            assert(dseq =~= digits@);
        } else {
            assert(dseq =~= digits@);
        }
    }
    let frac_len: usize = if dot < e {
        e - dot - 1
    } else {
        0
    };
    let m = match parse_digits_capped(&digits, 0, digits.len(), 9223372036854775807) {
        Some(m) => m,
        None => {
            proof {
                assert(digits@.subrange(0, digits@.len() as int) =~= digits@);
                if dseq.len() > 0 && all_digits(dseq) {
                    lemma_digits_value_nonneg(dseq);
                }
            }
            return None;
        },
    };
    proof {
        assert(digits@.subrange(0, digits@.len() as int) =~= digits@);
        lemma_digits_value_nonneg(dseq);
    }
    let exp10_full: i128 = exp_val as i128 - frac_len as i128;
    if exp10_full < i32::MIN as i128 || exp10_full > i32::MAX as i128 {
        return None;
    }
    let mantissa: i64 = if neg {
        -(m as i64)
    } else {
        m as i64
    };
    Some(TimestampFactor::Finite { mantissa, exp10: exp10_full as i32 })
}

} // verus!

verus! {

// ---------------------------------------------------------------------
// Scaling a record's raw offset into a timestamp
// ---------------------------------------------------------------------

/// `x` clamped into the `i64` range.
pub open spec fn clamp_i64(x: int) -> int {
    if x < i64::MIN {
        i64::MIN as int
    } else if x > i64::MAX {
        i64::MAX as int
    } else {
        x
    }
}

/// What a finite factor scales a nanosecond offset to: the plain
/// product for a nonnegative power of ten, otherwise the nearest
/// integer, halves away from zero.
pub open spec fn finite_scaled(mantissa: int, exp10: int, nanos: int) -> int {
    if exp10 >= 0 {
        mantissa * nanos * pow10(exp10 as nat)
    } else {
        round_div(mantissa * nanos, pow10((-exp10) as nat))
    }
}

/// A record's timestamp: the first data time plus the offset scaled by
/// the factor, microseconds promoted to nanoseconds before scaling and
/// the result rounded to the nearest nanosecond, clamped into the
/// representable range. A factor that is no number contributes
/// nothing; an infinite factor drives every nonzero offset to the
/// nearest bound.
pub open spec fn spec_record_timestamp(first: int, factor: TimestampFactor, micros: int) -> int {
    match factor {
        TimestampFactor::Finite { mantissa, exp10 } => clamp_i64(
            first + finite_scaled(mantissa as int, exp10 as int, 1000 * micros),
        ),
        TimestampFactor::NotANumber => clamp_i64(first),
        TimestampFactor::Infinite { negative } => if micros == 0 {
            clamp_i64(first)
        } else if negative != (micros < 0) {
            i64::MIN as int
        } else {
            i64::MAX as int
        },
    }
}

/// The magnitude of `x`.
pub open spec fn abs_int(x: int) -> int {
    if x < 0 {
        -x
    } else {
        x
    }
}

/// The magnitude of `x`, widened.
fn abs_to_u128(x: i64) -> (r: u128)
    ensures
        r as int == abs_int(x as int),
{
    if x < 0 {
        (-(x as i128)) as u128
    } else {
        x as u128
    }
}

/// Ten to the `k`, executably.
fn pow10_u128(k: u32) -> (r: u128)
    requires
        k <= 38,
    ensures
        r as int == pow10(k as nat),
{
    let mut p: u128 = 1;
    let mut i: u32 = 0;
    while i < k
        invariant
            i <= k <= 38,
            p as int == pow10(i as nat),
        decreases k - i,
    {
        proof {
            lemma_pow10_monotone((i + 1) as nat, 38);
            lemma_pow10_38();
            lemma_pow10_pos(i as nat);
            assert(pow10((i + 1) as nat) == 10 * pow10(i as nat));
        }
        p = p * 10;
        i = i + 1;
    }
    p
}

/// The first data time plus a signed magnitude, clamped.
fn combine(first: i64, neg: bool, value_mag: u128) -> (r: i64)
    ensures
        r as int == clamp_i64(
            first as int + (if neg {
                -(value_mag as int)
            } else {
                value_mag as int
            }),
        ),
{
    if value_mag >= 0x10000000000000000u128 {
        if neg {
            i64::MIN
        } else {
            i64::MAX
        }
    } else {
        let s: i128 = if neg {
            -(value_mag as i128)
        } else {
            value_mag as i128
        };
        let sum: i128 = first as i128 + s;
        if sum < i64::MIN as i128 {
            i64::MIN
        } else if sum > i64::MAX as i128 {
            i64::MAX
        } else {
            sum as i64
        }
    }
}

/// The first data time plus an offset already known to be far outside
/// the representable range, clamped.
fn saturate_extreme(first: i64, neg: bool, Ghost(scaled): Ghost<int>) -> (r: i64)
    requires
        neg ==> scaled <= -0x10000000000000000,
        !neg ==> scaled >= 0x10000000000000000,
    ensures
        r as int == clamp_i64(first as int + scaled),
{
    if neg {
        i64::MIN
    } else {
        i64::MAX
    }
}

/// Scales one record's raw microsecond offset by the factor, rounds to
/// the nearest nanosecond, and adds the first data time, clamping into
/// the representable range.
pub fn scale_timestamp(first_data_time: i64, factor: &TimestampFactor, micros: i64) -> (r: i64)
    ensures
        r as int == spec_record_timestamp(first_data_time as int, *factor, micros as int),
{
    let (m, e) = match *factor {
        TimestampFactor::NotANumber => {
            return first_data_time;
        },
        TimestampFactor::Infinite { negative } => {
            if micros == 0 {
                return first_data_time;
            }
            if negative != (micros < 0) {
                return i64::MIN;
            }
            return i64::MAX;
        },
        TimestampFactor::Finite { mantissa, exp10 } => (mantissa, exp10),
    };
    let neg = (m < 0) != (micros < 0);
    let m_mag = abs_to_u128(m);
    let mic_mag = abs_to_u128(micros);
    proof {
        assert((m_mag as int) * (mic_mag as int) <= 0x40000000000000000000000000000000int)
            by (nonlinear_arith)
            requires
                0 <= m_mag as int <= 0x8000000000000000,
                0 <= mic_mag as int <= 0x8000000000000000,
        ;
    }
    let mag: u128 = m_mag * mic_mag;
    let ghost nanos: int = 1000 * (micros as int);
    let ghost prod: int = (m as int) * nanos;
    proof {
        assert((m as int) * (micros as int) == (if neg {
            -((m_mag as int) * (mic_mag as int))
        } else {
            (m_mag as int) * (mic_mag as int)
        })) by (nonlinear_arith)
            requires
                m_mag as int == abs_int(m as int),
                mic_mag as int == abs_int(micros as int),
                neg == (((m as int) < 0) != ((micros as int) < 0)),
        ;
        assert((m as int) * (1000 * (micros as int)) == 1000 * ((m as int) * (micros as int)))
            by (nonlinear_arith);
        assert(prod == (if neg {
            -((mag as int) * 1000)
        } else {
            (mag as int) * 1000
        }));
    }
    if e >= 0 {
        let ghost scaled = finite_scaled(m as int, e as int, nanos);
        proof {
            assert(scaled == prod * pow10(e as nat));
        }
        if mag == 0 {
            proof {
                assert(prod == 0);
                assert(scaled == 0);
            }
            return combine(first_data_time, false, 0);
        }
        proof {
            lemma_pow10_pos(e as nat);
        }
        if e > 38 {
            proof {
                lemma_pow10_38();
                lemma_pow10_monotone(39, e as nat);
                assert(pow10(39) == 10 * pow10(38));
                assert((mag as int) * 1000 * pow10(e as nat) >= pow10(39)) by (nonlinear_arith)
                    requires
                        mag as int >= 1,
                        pow10(e as nat) >= pow10(39),
                        pow10(39) >= 1,
                ;
                assert(prod * pow10(e as nat) == (if neg {
                    -((mag as int) * 1000 * pow10(e as nat))
                } else {
                    (mag as int) * 1000 * pow10(e as nat)
                })) by (nonlinear_arith)
                    requires
                        prod == (if neg {
                            -((mag as int) * 1000)
                        } else {
                            (mag as int) * 1000
                        }),
                ;
            }
            return saturate_extreme(first_data_time, neg, Ghost(scaled));
        }
        let p10 = pow10_u128(e as u32);
        proof {
            assert(prod * pow10(e as nat) == (if neg {
                -((mag as int) * 1000 * pow10(e as nat))
            } else {
                (mag as int) * 1000 * pow10(e as nat)
            })) by (nonlinear_arith)
                requires
                    prod == (if neg {
                        -((mag as int) * 1000)
                    } else {
                        (mag as int) * 1000
                    }),
            ;
        }
        match mag.checked_mul(1000) {
            None => {
                proof {
                    assert((mag as int) * 1000 * pow10(e as nat) >= (mag as int) * 1000)
                        by (nonlinear_arith)
                        requires
                            pow10(e as nat) >= 1,
                            (mag as int) * 1000 > u128::MAX,
                    ;
                }
                saturate_extreme(first_data_time, neg, Ghost(scaled))
            },
            Some(t) => {
                match t.checked_mul(p10) {
                    None => {
                        proof {
                            assert((t as int) * (p10 as int) == (mag as int) * 1000 * pow10(
                                e as nat,
                            ));
                        }
                        saturate_extreme(first_data_time, neg, Ghost(scaled))
                    },
                    Some(vm) => {
                        proof {
                            assert(vm as int == (mag as int) * 1000 * pow10(e as nat));
                        }
                        combine(first_data_time, neg, vm)
                    },
                }
            },
        }
    } else {
        let ghost scaled = finite_scaled(m as int, e as int, nanos);
        let ghost pk = pow10((-(e as int)) as nat);
        proof {
            assert(scaled == round_div(prod, pk));
            lemma_pow10_pos((-(e as int)) as nat);
        }
        let k: u64 = (-(e as i64)) as u64;
        if mag == 0 {
            proof {
                assert(prod == 0);
                lemma_div_pos_is_pos(pk, 2);
                lemma_div_decreases(pk, 2);
                lemma_basic_div(pk / 2, pk);
                assert(scaled == 0);
            }
            return combine(first_data_time, false, 0);
        }
        if k <= 3 {
            let small = pow10_u128((3 - k) as u32);
            proof {
                lemma_pow10_adds((k as nat), (3 - k) as nat);
                assert(pow10(3) == 1000) by {
                    reveal_with_fuel(pow10, 5);
                }
                // prod divides out exactly: it is a multiple of the divisor
                assert((mag as int) * 1000 == ((mag as int) * (small as int)) * pk)
                    by (nonlinear_arith)
                    requires
                        1000 == pk * (small as int),
                ;
            }
            match mag.checked_mul(small) {
                None => {
                    proof {
                        if neg {
                            lemma_round_div_exact(-((mag as int) * (small as int)), pk);
                            assert((-((mag as int) * (small as int))) * pk == -(((mag as int) * (
                            small as int)) * pk)) by (nonlinear_arith);
                        } else {
                            lemma_round_div_exact((mag as int) * (small as int), pk);
                        }
                    }
                    saturate_extreme(first_data_time, neg, Ghost(scaled))
                },
                Some(vm) => {
                    proof {
                        if neg {
                            lemma_round_div_exact(-(vm as int), pk);
                            assert((-(vm as int)) * pk == -((vm as int) * pk))
                                by (nonlinear_arith);
                        } else {
                            lemma_round_div_exact(vm as int, pk);
                        }
                    }
                    combine(first_data_time, neg, vm)
                },
            }
        } else {
            let d: u64 = k - 3;
            let ghost pd = pow10(d as nat);
            proof {
                lemma_pow10_pos(d as nat);
                lemma_pow10_adds(d as nat, 3);
                assert(pow10(3) == 1000) by {
                    reveal_with_fuel(pow10, 5);
                }
                assert(pk == pd * 1000);
                if neg {
                    lemma_round_div_cancel(-(mag as int), pd);
                    assert((-(mag as int)) * 1000 == -((mag as int) * 1000));
                    assert(round_div(prod, pk) == round_div(-(mag as int), pd));
                } else {
                    lemma_round_div_cancel(mag as int, pd);
                    assert(round_div(prod, pk) == round_div(mag as int, pd));
                }
            }
            if d > 38 {
                // the half-divisor already dwarfs the product: the
                // rounded quotient is zero
                proof {
                    lemma_pow10_38();
                    lemma_pow10_monotone(39, d as nat);
                    assert(pow10(39) == 10 * pow10(38));
                    lemma_div_is_ordered(pow10(39), pd, 2);
                    assert(pow10(39) == 2 * 500000000000000000000000000000000000000int);
                    lemma_div_multiples_vanish(500000000000000000000000000000000000000int, 2);
                    lemma_fundamental_div_mod(pd, 2);
                    lemma_mod_division_less_than_divisor(pd, 2);
                    lemma_div_pos_is_pos(pd, 2);
                    assert(mag as int + pd / 2 < pd);
                    lemma_basic_div(mag as int + pd / 2, pd);
                    assert(round_div(mag as int, pd) == 0);
                    assert(round_div(-(mag as int), pd) == 0);
                    assert(scaled == 0);
                }
                combine(first_data_time, false, 0)
            } else {
                let p10 = pow10_u128(d as u32);
                proof {
                    lemma_pow10_38();
                    lemma_pow10_monotone(d as nat, 38);
                }
                let q = (mag + p10 / 2) / p10;
                proof {
                    assert(q as int == ((mag as int) + pd / 2) / pd);
                    assert(round_div(mag as int, pd) == q);
                    if neg {
                        assert(round_div(-(mag as int), pd) == -(q as int));
                    }
                }
                combine(first_data_time, neg, q)
            }
        }
    }
}

} // verus!
