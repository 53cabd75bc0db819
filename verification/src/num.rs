use vstd::prelude::*;

use crate::model::{CfgValue, ValueModel};

verus! {

/// Decimal digit test by character code.
pub open spec fn is_digit(c: char) -> bool {
    48 <= c as u32 <= 57
}

/// First index at or after `i` that does not hold a digit.
pub open spec fn digits_end(t: Seq<char>, i: int) -> int
    decreases t.len() - i,
{
    if 0 <= i < t.len() && is_digit(t[i]) {
        digits_end(t, i + 1)
    } else {
        i
    }
}

/// Digit accumulation: `d` gathers up to nineteen significant decimal
/// digits; a digit that no longer fits adjusts the scale by `drop_delta`
/// (one for digits left of the decimal point, zero for dropped fraction
/// digits) and marks the sticky flag when nonzero, while a kept digit
/// adjusts the scale by `keep_delta` (zero left of the point, minus one
/// right of it). The scale is clamped to a billion either way, far beyond
/// any value with a finite rounding.
pub open spec fn acc_digits(t: Seq<char>, i: int, end: int, d: u64, sc: i64, st: bool, keep_delta: i64, drop_delta: i64) -> (u64, i64, bool)
    decreases end - i,
{
    if !(0 <= i < end && end <= t.len()) {
        (d, sc, st)
    } else {
        let dv: u64 = if t[i] as u32 >= 48 {
            (t[i] as u32 - 48) as u64
        } else {
            99
        };
        if d <= 1_844_674_407_370_955_154u64 && dv <= 9 {
            let d2 = (10 * d + dv) as u64;
            let sc2 = if -1_000_000_000 <= sc + keep_delta <= 1_000_000_000 {
                (sc + keep_delta) as i64
            } else {
                sc
            };
            acc_digits(t, i + 1, end, d2, sc2, st, keep_delta, drop_delta)
        } else {
            let sc2 = if -1_000_000_000 <= sc + drop_delta <= 1_000_000_000 {
                (sc + drop_delta) as i64
            } else {
                sc
            };
            acc_digits(t, i + 1, end, d, sc2, st || (1 <= dv <= 9), keep_delta, drop_delta)
        }
    }
}

/// Exponent accumulation, saturating high.
pub open spec fn acc_exp(t: Seq<char>, i: int, end: int, e: i64) -> i64
    decreases end - i,
{
    if !(0 <= i < end && end <= t.len()) {
        e
    } else {
        let dv: i64 = if t[i] as u32 >= 48 {
            (t[i] as u32 - 48) as i64
        } else {
            99
        };
        let e2: i64 = if e <= 100_000_000 && 0 <= dv <= 9 {
            (10 * e + dv) as i64
        } else {
            e
        };
        acc_exp(t, i + 1, end, e2)
    }
}

/// The decimal fields of a numeric literal: sign, significand, and the
/// power of ten it is scaled by. The shape is an optional minus sign, an
/// integer part, an optional fraction introduced by a point with at least
/// one digit, and an optional exponent with at least one digit.
pub open spec fn numeric_fields(t: Seq<char>) -> (bool, u64, i64, bool) {
    let neg = t.len() > 0 && t[0] == '-';
    let s0: int = if neg {
        1
    } else {
        0
    };
    let ie = digits_end(t, s0);
    let intpart = acc_digits(t, s0, ie, 0, 0, false, 0, 1);
    let has_frac = ie + 1 < t.len() && t[ie] == '.' && is_digit(t[ie + 1]);
    let fe: int = if has_frac {
        digits_end(t, ie + 1)
    } else {
        ie
    };
    let withfrac = if has_frac {
        acc_digits(t, ie + 1, fe, intpart.0, intpart.1, intpart.2, -1int as i64, 0)
    } else {
        intpart
    };
    let exp: i64 = if fe < t.len() && (t[fe] == 'e' || t[fe] == 'E') {
        let es: int = if fe + 1 < t.len() && (t[fe + 1] == '+' || t[fe + 1] == '-') {
            fe + 2
        } else {
            fe + 1
        };
        let ee = digits_end(t, es);
        if ee > es {
            let mag = acc_exp(t, es, ee, 0);
            if fe + 1 < t.len() && t[fe + 1] == '-' {
                (0 - mag) as i64
            } else {
                mag
            }
        } else {
            0
        }
    } else {
        0
    };
    let e10: i64 = if -2_000_000_000 <= exp + withfrac.1 <= 2_000_000_000 {
        (exp + withfrac.1) as i64
    } else if exp + withfrac.1 > 0 {
        2_000_000_000
    } else {
        (-2_000_000_000) as i64
    };
    (neg, withfrac.0, e10, withfrac.2)
}

/// Ten to the `k`.
pub open spec fn pow10(k: nat) -> int
    decreases k,
{
    if k == 0 {
        1
    } else {
        10 * pow10((k - 1) as nat)
    }
}

/// Five to the `k`.
pub open spec fn pow5(k: nat) -> int
    decreases k,
{
    if k == 0 {
        1
    } else {
        5 * pow5((k - 1) as nat)
    }
}

/// Drops low decimal digits until the scale fits the division routine.
pub open spec fn reduce_sig(d: u64, f: int, st: bool) -> (u64, int, bool)
    decreases f,
{
    if f <= 54 || d == 0 {
        (d, f, st)
    } else {
        reduce_sig(d / 10, f - 1, st || d % 10 != 0)
    }
}

/// Doubles the denominator until the quotient drops below two; `e2` counts
/// the binary exponent gained. Once the denominator fills its word, the
/// numerator is halved instead, its dropped low bits folded into the sticky
/// flag. The step budget covers any 128-bit operands; it cannot run out for
/// them.
pub open spec fn norm_up(num: int, den: int, e2: int, st: bool, steps: nat) -> (int, int, int, bool)
    decreases steps,
{
    if steps == 0 || den < 1 || num < 2 * den {
        (num, den, e2, st)
    } else if den <= 0x4000_0000_0000_0000_0000_0000_0000_0000 {
        norm_up(num, 2 * den, e2 + 1, st, (steps - 1) as nat)
    } else {
        norm_up(num / 2, den, e2 + 1, st || num % 2 == 1, (steps - 1) as nat)
    }
}

/// Doubles the numerator until the quotient reaches one; `e2` counts the
/// binary exponent lost, giving up below the smallest half-subnormal.
pub open spec fn norm_down(num: int, den: int, e2: int) -> (int, int)
    decreases 152 + e2,
{
    if num < 1 || num >= den || e2 <= -151 {
        (num, e2)
    } else {
        norm_down(2 * num, den, e2 - 1)
    }
}

/// Long-division bit generator: produces `count` quotient bits of
/// `num / den` into `m`, doubling the remainder each step; a remainder
/// above half the 128-bit range stops early, which a denominator within
/// range never produces.
pub open spec fn gen_bits(num: int, den: int, count: nat, m: int) -> (int, int)
    decreases count,
{
    if count == 0 || den < 1 {
        (m, num)
    } else if num >= den {
        if num - den > 0x7fff_ffff_ffff_ffff_ffff_ffff_ffff_ffff {
            (m, num)
        } else {
            gen_bits(2 * (num - den), den, (count - 1) as nat, 2 * m + 1)
        }
    } else {
        if num > 0x7fff_ffff_ffff_ffff_ffff_ffff_ffff_ffff {
            (m, num)
        } else {
            gen_bits(2 * num, den, (count - 1) as nat, 2 * m)
        }
    }
}

/// Rounds the positive rational `num / den` times two to the `e2_0` to
/// binary32 with the given sign, to nearest, ties to even. `sticky0`
/// records decimal digits already dropped below the significand.
pub open spec fn round_div(num: int, den: int, neg: bool, sticky0: bool, e2_0: int) -> u32 {
    let sign: u32 = if neg {
        0x8000_0000
    } else {
        0
    };
    if num <= 0 || den <= 0 {
        sign
    } else {
        let up = norm_up(num, den, e2_0, sticky0, 300);
        let dn = norm_down(up.0, up.1, up.2);
        if dn.1 <= -151 {
            sign
        } else {
            let e2 = dn.1;
            let count: nat = if e2 >= -126 {
                24
            } else {
                (24 + 126 + e2) as nat
            };
            let g = gen_bits(dn.0, up.1, count, 0);
            let m = g.0;
            let rem = g.1;
            let bit_r = rem >= up.1;
            let sticky = up.3 || (if bit_r {
                rem > up.1
            } else {
                rem > 0
            });
            let m2 = if bit_r && (sticky || m % 2 == 1) {
                m + 1
            } else {
                m
            };
            if e2 > 127 {
                (sign + 0x7f80_0000) as u32
            } else if e2 >= -126 {
                (sign + ((e2 + 126) * 0x80_0000) + m2) as u32
            } else {
                (sign + m2 as u32) as u32
            }
        }
    }
}

/// The binary32 bit pattern of a numeric literal: the decimal value of the
/// text, correctly rounded to nearest with ties to even. A magnitude at or
/// above two to the 128th gives infinity; negative scales are divided out
/// as powers of five with a binary exponent bias, so subnormals round
/// exactly; a value too small for the smallest subnormal gives zero.
pub open spec fn literal_bits(t: Seq<char>) -> u32 {
    let fields = numeric_fields(t);
    let neg = fields.0;
    let d = fields.1;
    let e10 = fields.2;
    let st = fields.3;
    let sign: u32 = if neg {
        0x8000_0000
    } else {
        0
    };
    if d == 0 {
        sign
    } else if e10 >= 0 {
        if e10 > 38 || d * pow10(e10 as nat) >= 0x1_0000_0000_0000_0000_0000_0000_0000_0000 {
            (sign + 0x7f80_0000) as u32
        } else {
            round_div(d * pow10(e10 as nat), 1, neg, st, 0)
        }
    } else {
        let red = reduce_sig(d, -e10, st);
        if red.0 == 0 {
            sign
        } else {
            round_div(red.0 as int, pow5(red.1 as nat), neg, red.2, -red.1)
        }
    }
}

/// Whether the binary32 value with this bit pattern has zero fractional
/// part: zeroes and finite values whose mantissa holds no bits below the
/// binary point do; infinities and NaNs do not.
pub open spec fn bits_fract_zero(bits: u32) -> bool {
    let e = (bits / 0x80_0000) % 0x100;
    let m = bits % 0x80_0000;
    if e == 255 {
        false
    } else if e == 0 {
        m == 0
    } else if e < 127 {
        false
    } else if e >= 150 {
        true
    } else {
        (m as int) % pow2((150 - e) as nat) == 0
    }
}

/// Two to the `k`.
pub open spec fn pow2(k: nat) -> int
    decreases k,
{
    if k == 0 {
        1
    } else {
        2 * pow2((k - 1) as nat)
    }
}

/// The binary32 value with this bit pattern, truncated toward zero and
/// saturated to the i32 range; a NaN gives zero.
pub open spec fn bits_to_i32_sat(bits: u32) -> i32 {
    let neg = bits >= 0x8000_0000;
    let e = (bits / 0x80_0000) % 0x100;
    let m = bits % 0x80_0000;
    if e == 255 && m != 0 {
        0
    } else if e < 127 {
        0
    } else if e >= 158 {
        if neg {
            i32::MIN
        } else {
            i32::MAX
        }
    } else {
        let full = 0x80_0000 + m;
        let mag: int = if e >= 150 {
            full * pow2((e - 150) as nat)
        } else {
            full / pow2((150 - e) as nat)
        };
        if neg {
            if mag > 0x8000_0000 {
                i32::MIN
            } else {
                (0 - mag) as i32
            }
        } else {
            if mag > 0x7fff_ffff {
                i32::MAX
            } else {
                mag as i32
            }
        }
    }
}

/// The value a numeric literal denotes: its binary32 rounding, classified
/// as an integer when that float has zero fractional part and as a float
/// otherwise.
pub open spec fn numeric_value_model(t: Seq<char>) -> ValueModel {
    let bits = literal_bits(t);
    if bits_fract_zero(bits) {
        ValueModel::Long(bits_to_i32_sat(bits))
    } else {
        ValueModel::Float(bits)
    }
}


proof fn lemma_pow10_mono(a: nat, b: nat)
    requires
        a <= b,
    ensures
        pow10(a) <= pow10(b),
        pow10(a) >= 1,
    decreases b,
{
    if b > 0 {
        lemma_pow10_mono(if a == b {
            (a - 1) as nat
        } else {
            a
        }, (b - 1) as nat);
    }
}

/// Ten to the `k` as a 128-bit word.
fn pow10_x(k: u32) -> (r: u128)
    requires
        k <= 38,
    ensures
        r as int == pow10(k as nat),
    decreases k,
{
    proof {
        assert(pow10(38) == 0x4b3b4ca85a86c47a098a224000000000int) by {
            reveal_with_fuel(pow10, 40);
        }
        lemma_pow10_mono(k as nat, 38);
        if k > 0 {
            lemma_pow10_mono((k - 1) as nat, 38);
        }
    }
    if k == 0 {
        1
    } else {
        10 * pow10_x(k - 1)
    }
}

fn digits_end_x(t: &Vec<char>, i: usize) -> (r: usize)
    requires
        i <= t@.len(),
    ensures
        r as int == digits_end(t@, i as int),
        i <= r <= t@.len(),
    decreases t@.len() - i,
{
    if i < t.len() {
        let c = t[i];
        if 48 <= c as u32 && c as u32 <= 57 {
            return digits_end_x(t, i + 1);
        }
    }
    i
}

fn acc_digits_x(t: &Vec<char>, i: usize, end: usize, d: u64, sc: i64, st: bool, kd: i64, dd: i64) -> (r: (
    u64,
    i64,
    bool,
))
    requires
        end <= t@.len(),
        -1_000_000_001 <= sc <= 1_000_000_001,
        -1 <= kd <= 1,
        -1 <= dd <= 1,
    ensures
        (r.0, r.1, r.2) == acc_digits(t@, i as int, end as int, d, sc, st, kd, dd),
        -1_000_000_001 <= r.1 <= 1_000_000_001,
    decreases end - i,
{
    if !(i < end) {
        return (d, sc, st);
    }
    let c = t[i];
    let dv: u64 = if c as u32 >= 48 {
        (c as u32 - 48) as u64
    } else {
        99
    };
    if d <= 1_844_674_407_370_955_154u64 && dv <= 9 {
        let d2 = 10 * d + dv;
        let sc2 = if -1_000_000_000 <= sc + kd && sc + kd <= 1_000_000_000 {
            sc + kd
        } else {
            sc
        };
        acc_digits_x(t, i + 1, end, d2, sc2, st, kd, dd)
    } else {
        let sc2 = if -1_000_000_000 <= sc + dd && sc + dd <= 1_000_000_000 {
            sc + dd
        } else {
            sc
        };
        acc_digits_x(t, i + 1, end, d, sc2, st || (1 <= dv && dv <= 9), kd, dd)
    }
}

fn acc_exp_x(t: &Vec<char>, i: usize, end: usize, e: i64) -> (r: i64)
    requires
        end <= t@.len(),
        0 <= e <= 1_000_000_009,
    ensures
        r == acc_exp(t@, i as int, end as int, e),
        0 <= r <= 1_000_000_009,
    decreases end - i,
{
    if !(i < end) {
        return e;
    }
    let c = t[i];
    let dv: i64 = if c as u32 >= 48 {
        (c as u32 - 48) as i64
    } else {
        99
    };
    let e2: i64 = if e <= 100_000_000 && 0 <= dv && dv <= 9 {
        10 * e + dv
    } else {
        e
    };
    acc_exp_x(t, i + 1, end, e2)
}

/// The decimal fields of a numeric literal.
fn numeric_fields_x(t: &Vec<char>) -> (r: (bool, u64, i64, bool))
    ensures
        (r.0, r.1, r.2, r.3) == numeric_fields(t@),
{
    let neg = t.len() > 0 && t[0] == '-';
    let s0: usize = if neg {
        1
    } else {
        0
    };
    let ie = digits_end_x(t, s0);
    let intpart = acc_digits_x(t, s0, ie, 0, 0, false, 0, 1);
    let has_frac = ie < t.len() && ie + 1 < t.len() && t[ie] == '.' && {
        let c2 = t[ie + 1];
        48 <= c2 as u32 && c2 as u32 <= 57
    };
    let fe: usize = if has_frac {
        digits_end_x(t, ie + 1)
    } else {
        ie
    };
    let withfrac = if has_frac {
        acc_digits_x(t, ie + 1, fe, intpart.0, intpart.1, intpart.2, -1, 0)
    } else {
        intpart
    };
    let exp: i64 = if fe < t.len() && (t[fe] == 'e' || t[fe] == 'E') {
        let has_sign = fe + 1 < t.len() && (t[fe + 1] == '+' || t[fe + 1] == '-');
        let es: usize = if has_sign {
            fe + 2
        } else {
            fe + 1
        };
        let ee = if es <= t.len() {
            digits_end_x(t, es)
        } else {
            es
        };
        if ee > es {
            let mag = acc_exp_x(t, es, ee, 0);
            if fe + 1 < t.len() && t[fe + 1] == '-' {
                0 - mag
            } else {
                mag
            }
        } else {
            0
        }
    } else {
        0
    };
    let e10: i64 = if -2_000_000_000 <= exp + withfrac.1 && exp + withfrac.1 <= 2_000_000_000 {
        exp + withfrac.1
    } else if exp + withfrac.1 > 0 {
        2_000_000_000
    } else {
        -2_000_000_000
    };
    (neg, withfrac.0, e10, withfrac.2)
}

proof fn lemma_pow5_mono(a: nat, b: nat)
    requires
        a <= b,
    ensures
        pow5(a) <= pow5(b),
        pow5(a) >= 1,
    decreases b,
{
    if b > 0 {
        lemma_pow5_mono(if a == b {
            (a - 1) as nat
        } else {
            a
        }, (b - 1) as nat);
    }
}

/// Five to the `k` as a 128-bit word.
fn pow5_x(k: u32) -> (r: u128)
    requires
        k <= 54,
    ensures
        r as int == pow5(k as nat),
    decreases k,
{
    proof {
        assert(pow5(54) == 0x29c30f1029939b146664242d97d9f649int) by {
            reveal_with_fuel(pow5, 56);
        }
        lemma_pow5_mono(k as nat, 54);
        if k > 0 {
            lemma_pow5_mono((k - 1) as nat, 54);
        }
    }
    if k == 0 {
        1
    } else {
        5 * pow5_x(k - 1)
    }
}

fn reduce_sig_x(d: u64, f: i64, st: bool) -> (r: (u64, i64, bool))
    requires
        0 <= f <= 2_000_000_000,
    ensures
        (r.0, r.1 as int, r.2) == reduce_sig(d, f as int, st),
        0 <= r.1 <= f,
        r.0 != 0 ==> r.1 <= 54,
    decreases f,
{
    if f <= 54 || d == 0 {
        (d, f, st)
    } else {
        reduce_sig_x(d / 10, f - 1, st || d % 10 != 0)
    }
}

fn norm_up_x(num: u128, den: u128, e2: i64, st: bool, steps: u32) -> (r: (u128, u128, i64, bool))
    requires
        den <= 0x8000_0000_0000_0000_0000_0000_0000_0000,
        -400 <= e2,
        e2 + steps <= 2000,
    ensures
        (r.0 as int, r.1 as int, r.2 as int, r.3) == norm_up(
            num as int,
            den as int,
            e2 as int,
            st,
            steps as nat,
        ),
        r.1 <= 0x8000_0000_0000_0000_0000_0000_0000_0000,
        r.2 <= e2 + steps,
        -400 <= r.2,
    decreases steps,
{
    if steps == 0 || den < 1 || num / 2 < den {
        proof {
            assert((num / 2 < den) == (num < 2 * den));
        }
        (num, den, e2, st)
    } else if den <= 0x4000_0000_0000_0000_0000_0000_0000_0000 {
        norm_up_x(num, 2 * den, e2 + 1, st, steps - 1)
    } else {
        norm_up_x(num / 2, den, e2 + 1, st || num % 2 == 1, steps - 1)
    }
}

fn norm_down_x(num: u128, den: u128, e2: i64) -> (r: (u128, i64))
    requires
        den <= 0x8000_0000_0000_0000_0000_0000_0000_0000,
        -400 <= e2 <= 2000,
    ensures
        (r.0 as int, r.1 as int) == norm_down(num as int, den as int, e2 as int),
        -151 <= r.1 || r.1 == e2,
        r.1 <= e2,
    decreases 152 + e2,
{
    if num < 1 || num >= den || e2 <= -151 {
        (num, e2)
    } else {
        norm_down_x(2 * num, den, e2 - 1)
    }
}

fn gen_bits_x(num: u128, den: u128, count: u32, m: u64) -> (r: (u64, u128))
    requires
        den <= 0x8000_0000_0000_0000_0000_0000_0000_0000,
        count <= 24,
        (m as int) < pow2((24 - count) as nat),
    ensures
        (r.0 as int, r.1 as int) == gen_bits(num as int, den as int, count as nat, m as int),
        r.0 < 0x100_0000,
    decreases count,
{
    proof {
        lemma_pow2_mono((24 - count) as nat, 24);
        assert(pow2(24) == 0x100_0000int) by {
            reveal_with_fuel(pow2, 26);
        }
    }
    if count == 0 || den < 1 {
        (m, num)
    } else if num >= den {
        if num - den > 0x7fff_ffff_ffff_ffff_ffff_ffff_ffff_ffff {
            (m, num)
        } else {
            gen_bits_x(2 * (num - den), den, count - 1, 2 * m + 1)
        }
    } else {
        if num > 0x7fff_ffff_ffff_ffff_ffff_ffff_ffff_ffff {
            (m, num)
        } else {
            gen_bits_x(2 * num, den, count - 1, 2 * m)
        }
    }
}

/// Rounds the positive rational `num / den` times two to the `e2_0` to
/// binary32.
fn round_div_x(num: u128, den: u128, neg: bool, sticky0: bool, e2_0: i64) -> (r: u32)
    requires
        den <= 0x8000_0000_0000_0000_0000_0000_0000_0000,
        -60 <= e2_0 <= 0,
    ensures
        r == round_div(num as int, den as int, neg, sticky0, e2_0 as int),
{
    let sign: u32 = if neg {
        0x8000_0000
    } else {
        0
    };
    if num == 0 || den == 0 {
        return sign;
    }
    let up = norm_up_x(num, den, e2_0, sticky0, 300);
    let dn = norm_down_x(up.0, up.1, up.2);
    if dn.1 <= -151 {
        return sign;
    }
    let e2 = dn.1;
    let count: u32 = if e2 >= -126 {
        24
    } else {
        (24 + 126 + e2) as u32
    };
    proof {
        lemma_pow2_mono(0, (24 - count) as nat);
    }
    let g = gen_bits_x(dn.0, up.1, count, 0);
    let m = g.0;
    let rem = g.1;
    let bit_r = rem >= up.1;
    let sticky = up.3 || (if bit_r {
        rem > up.1
    } else {
        rem > 0
    });
    let m2: u64 = if bit_r && (sticky || m % 2 == 1) {
        m + 1
    } else {
        m
    };
    if e2 > 127 {
        sign + 0x7f80_0000
    } else if e2 >= -126 {
        sign + (((e2 + 126) as u32) * 0x80_0000) + (m2 as u32)
    } else {
        sign + (m2 as u32)
    }
}

/// The binary32 bit pattern of a numeric literal.
fn literal_bits_x(t: &Vec<char>) -> (r: u32)
    ensures
        r == literal_bits(t@),
{
    let fields = numeric_fields_x(t);
    let neg = fields.0;
    let d = fields.1;
    let e10 = fields.2;
    let st = fields.3;
    let sign: u32 = if neg {
        0x8000_0000
    } else {
        0
    };
    if d == 0 {
        return sign;
    }
    if e10 >= 0 {
        if e10 > 38 {
            return sign + 0x7f80_0000;
        }
        let p = pow10_x(e10 as u32);
        proof {
            lemma_pow10_mono(e10 as nat, 38);
            assert(pow10(38) == 0x4b3b4ca85a86c47a098a224000000000int) by {
            reveal_with_fuel(pow10, 40);
        }
        }
        if (d as u128) > u128::MAX / p {
            proof {
                assert((d as u128) > u128::MAX / p ==> (d as int) * (p as int) > u128::MAX as int)
                    by (nonlinear_arith)
                    requires
                        p >= 1,
                ;
            }
            return sign + 0x7f80_0000;
        }
        proof {
            assert((d as u128) <= u128::MAX / p ==> (d as int) * (p as int) <= u128::MAX as int)
                by (nonlinear_arith)
                requires
                    p >= 1,
            ;
        }
        let num = (d as u128) * p;
        round_div_x(num, 1, neg, st, 0)
    } else {
        let red = reduce_sig_x(d, 0 - e10, st);
        if red.0 == 0 {
            return sign;
        }
        let p = pow5_x(red.1 as u32);
        proof {
            lemma_pow5_mono(red.1 as nat, 54);
            assert(pow5(54) == 0x29c30f1029939b146664242d97d9f649int) by {
                reveal_with_fuel(pow5, 56);
            }
        }
        round_div_x(red.0 as u128, p, neg, red.2, 0 - red.1)
    }
}

/// Whether the binary32 value with this bit pattern has zero fractional
/// part.
pub fn bits_fract_zero_x(bits: u32) -> (r: bool)
    ensures
        r == bits_fract_zero(bits),
{
    let e = (bits / 0x80_0000) % 0x100;
    let m = bits % 0x80_0000;
    if e == 255 {
        false
    } else if e == 0 {
        m == 0
    } else if e < 127 {
        false
    } else if e >= 150 {
        true
    } else {
        let k = 150 - e;
        let p = pow2_x(k);
        m % p == 0
    }
}

proof fn lemma_pow2_mono(a: nat, b: nat)
    requires
        a <= b,
    ensures
        pow2(a) <= pow2(b),
        pow2(a) >= 1,
    decreases b,
{
    if b > 0 {
        lemma_pow2_mono(if a == b {
            (a - 1) as nat
        } else {
            a
        }, (b - 1) as nat);
    }
}

/// Two to the `k` as a 32-bit word.
fn pow2_x(k: u32) -> (r: u32)
    requires
        k <= 31,
    ensures
        r as int == pow2(k as nat),
        r >= 1,
    decreases k,
{
    proof {
        assert(pow2(31) == 0x8000_0000int) by {
            reveal_with_fuel(pow2, 33);
        }
        lemma_pow2_mono(k as nat, 31);
        if k > 0 {
            lemma_pow2_mono((k - 1) as nat, 31);
        }
    }
    if k == 0 {
        1
    } else {
        2 * pow2_x(k - 1)
    }
}

/// The binary32 value with this bit pattern, truncated toward zero and
/// saturated to the i32 range.
pub fn bits_to_i32_sat_x(bits: u32) -> (r: i32)
    ensures
        r == bits_to_i32_sat(bits),
{
    let neg = bits >= 0x8000_0000;
    let e = (bits / 0x80_0000) % 0x100;
    let m = bits % 0x80_0000;
    if e == 255 && m != 0 {
        return 0;
    }
    if e < 127 {
        return 0;
    }
    if e >= 158 {
        return if neg {
            i32::MIN
        } else {
            i32::MAX
        };
    }
    let full: u64 = 0x80_0000 + (m as u64);
    let mag: u64 = if e >= 150 {
        let k = e - 150;
        let p2 = pow2_x(k);
        proof {
            lemma_pow2_mono((e - 150) as nat, 7);
            assert(pow2(7) == 128int) by {
                reveal_with_fuel(pow2, 9);
            }
            assert((full as int) * (p2 as int) < 0x8000_0000int) by (nonlinear_arith)
                requires
                    0 < full < 0x100_0000,
                    0 < p2 <= 128,
            ;
        }
        full * (p2 as u64)
    } else {
        let k = 150 - e;
        if k <= 31 {
            let p2 = pow2_x(k);
            full / (p2 as u64)
        } else {
            proof {
                assert(false);
            }
            0
        }
    };
    if neg {
        if mag > 0x8000_0000 {
            i32::MIN
        } else {
            #[verifier::truncate] ((0i64 - (mag as i64)) as i32)
        }
    } else {
        if mag > 0x7fff_ffff {
            i32::MAX
        } else {
            mag as i32
        }
    }
}

/// The value a numeric literal denotes.
pub fn numeric_value(t: &Vec<char>) -> (v: CfgValue)
    ensures
        v.model() == numeric_value_model(t@),
{
    let bits = literal_bits_x(t);
    if bits_fract_zero_x(bits) {
        CfgValue::Long(bits_to_i32_sat_x(bits))
    } else {
        CfgValue::Float(bits)
    }
}

} // verus!
