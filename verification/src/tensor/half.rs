//! Half precision numbers and single precision numbers as bit patterns.

use super::dtype::DType;
use vstd::prelude::*;

verus! {

/// Two to the power of `n`.
pub open spec fn power_of_two(n: nat) -> nat
    decreases n,
{
    if n == 0 {
        1
    } else {
        2 * power_of_two((n - 1) as nat)
    }
}

/// The sign of a single precision number: one for negative.
pub open spec fn single_sign(bits: u32) -> int {
    bits as int / 0x8000_0000
}

/// The exponent field of a single precision number.
pub open spec fn single_exponent(bits: u32) -> int {
    bits as int / 0x80_0000 % 256
}

/// The fraction field of a single precision number.
pub open spec fn single_fraction(bits: u32) -> int {
    bits as int % 0x80_0000
}

/// A half precision number without its sign, from the fields of a single precision number.
///
/// Infinity stays, and so does a NaN, whatever its fraction was. What is too large becomes
/// infinity, what is too small zero or a subnormal number; bits that do not fit are cut off.
pub open spec fn half_magnitude(exponent: int, fraction: int) -> int {
    let e = exponent - 112;
    if exponent == 255 {
        0x7c00 + if fraction == 0 {
            0
        } else {
            1int
        }
    } else if e >= 31 {
        0x7c00
    } else if e < -10 {
        0
    } else if e <= 0 {
        (fraction + 0x80_0000) / power_of_two((1 - e) as nat) as int / 8192
    } else {
        e * 1024 + fraction / 8192
    }
}

/// The half precision bits of single precision bits.
pub open spec fn to_half(bits: u32) -> int {
    single_sign(bits) * 0x8000 + half_magnitude(single_exponent(bits), single_fraction(bits))
}

/// Two to the power of `n`.
fn two_to(n: u32) -> (p: u32)
    requires
        n <= 11,
    ensures
        p == power_of_two(n as nat),
        1 <= p <= 2048,
{
    reveal_with_fuel(power_of_two, 12);
    let mut p: u32 = 1;
    let mut i: u32 = 0;
    while i < n
        invariant
            i <= n <= 11,
            p == power_of_two(i as nat),
            1 <= p,
            p * power_of_two((11 - i) as nat) == 2048,
            power_of_two((11 - i) as nat) >= 1,
        decreases n - i,
    {
        proof {
            let rest = power_of_two((11 - i - 1) as nat);
            assert(power_of_two((11 - i) as nat) == 2 * rest);
            assert(p * (2 * rest) == (2 * p) * rest) by (nonlinear_arith);
            lemma_power_positive((11 - i - 1) as nat);
            assert(2 * p <= 2048) by (nonlinear_arith)
                requires
                    (2 * p) * rest == 2048,
                    rest >= 1,
            ;
            assert(power_of_two((i + 1) as nat) == 2 * power_of_two(i as nat));
        }
        p = p * 2;
        i = i + 1;
    }
    proof {
        let rest = power_of_two((11 - i) as nat);
        assert(p <= 2048) by (nonlinear_arith)
            requires
                p * rest == 2048,
                rest >= 1,
        ;
    }
    p
}

proof fn lemma_power_positive(n: nat)
    ensures
        power_of_two(n) >= 1,
    decreases n,
{
    if n > 0 {
        lemma_power_positive((n - 1) as nat);
    }
}

/// Turns a single precision number into a half precision number.
pub fn f32_to_f16(bits: u32) -> (half: u16)
    ensures
        half == to_half(bits),
{
    let sign: u32 = bits / 0x8000_0000;
    let exponent: u32 = bits / 0x80_0000 % 256;
    let fraction: u32 = bits % 0x80_0000;
    let magnitude: u32 = if exponent == 255 {
        0x7c00 + if fraction == 0 { 0 } else { 1 }
    } else if exponent >= 143 {
        0x7c00
    } else if exponent < 102 {
        0
    } else if exponent <= 112 {
        let shift: u32 = 113 - exponent;
        let divisor: u32 = two_to(shift);
        proof {
            let whole = fraction + 0x80_0000;
            vstd::arithmetic::div_mod::lemma_div_is_ordered_by_denominator(
                whole as int,
                1,
                divisor as int,
            );
        }
        (fraction + 0x80_0000) / divisor / 8192
    } else {
        (exponent - 112) * 1024 + fraction / 8192
    };
    (sign * 0x8000 + magnitude) as u16
}

/// The place of the highest bit of a number between one and 1023.
pub open spec fn top_bit(n: int) -> int
    decreases n,
{
    if n <= 1 {
        0
    } else {
        1 + top_bit(n / 2)
    }
}

/// A single precision number without its sign, from the fields of a half precision number.
/// Every half precision number is one of single precision.
pub open spec fn single_magnitude(exponent: int, fraction: int) -> int {
    if exponent == 31 {
        255 * 0x80_0000 + fraction * 8192
    } else if exponent > 0 {
        (exponent + 112) * 0x80_0000 + fraction * 8192
    } else if fraction == 0 {
        0
    } else {
        let p = top_bit(fraction);
        (103 + p) * 0x80_0000 + (fraction - power_of_two(p as nat)) * power_of_two((23 - p) as nat)
    }
}

/// The single precision bits of half precision bits.
pub open spec fn to_single(half: u16) -> int {
    half as int / 0x8000 * 0x8000_0000 + single_magnitude(
        half as int / 1024 % 32,
        half as int % 1024,
    )
}

/// The place of the highest bit, and what it means.
proof fn lemma_top_bit(n: int)
    requires
        1 <= n < 1024,
    ensures
        0 <= top_bit(n) < 10,
        power_of_two(top_bit(n) as nat) <= n < 2 * power_of_two(top_bit(n) as nat),
{
    reveal_with_fuel(top_bit, 11);
    reveal_with_fuel(power_of_two, 11);
}

/// Turns a half precision number into a single precision number.
pub fn f16_to_f32(half: u16) -> (bits: u32)
    ensures
        bits == to_single(half),
{
    let sign: u32 = (half / 0x8000) as u32;
    let exponent: u32 = (half / 1024 % 32) as u32;
    let fraction: u32 = (half % 1024) as u32;
    let magnitude: u32 = if exponent == 31 {
        0x7f80_0000 + fraction * 8192
    } else if exponent > 0 {
        (exponent + 112) * 0x80_0000 + fraction * 8192
    } else if fraction == 0 {
        0
    } else {
        let mut shifted: u32 = fraction;
        let mut shifts: u32 = 0;
        let ghost p = top_bit(fraction as int);
        proof {
            lemma_top_bit(fraction as int);
            reveal_with_fuel(power_of_two, 12);
            assert(fraction * power_of_two(0) == fraction) by {
                assert(power_of_two(0) == 1);
                assert(fraction * 1 == fraction);
            }
        }
        while shifted < 1024
            invariant
                1 <= fraction < 1024,
                p == top_bit(fraction as int),
                0 <= p < 10,
                power_of_two(p as nat) <= fraction < 2 * power_of_two(p as nat),
                shifts <= 10 - p,
                shifted == fraction * power_of_two(shifts as nat),
                shifted < 2048,
            decreases 10 - p - shifts,
        {
            proof {
                lemma_shift_room(fraction as int, p, shifts as int);
                assert(fraction * (2 * power_of_two(shifts as nat)) == 2 * (fraction
                    * power_of_two(shifts as nat))) by (nonlinear_arith);
                assert(power_of_two((shifts + 1) as nat) == 2 * power_of_two(shifts as nat));
            }
            shifted = shifted * 2;
            shifts = shifts + 1;
        }
        proof {
            lemma_shift_end(fraction as int, p, shifts as int);
            lemma_scaled_fraction(fraction as int, p);
        }
        (113 - shifts) * 0x80_0000 + (shifted - 1024) * 8192
    };
    assert(single_magnitude(exponent as int, fraction as int) == magnitude);
    assert(magnitude < 0x8000_0000);
    sign * 0x8000_0000 + magnitude
}

/// Below 1024 there is room for one more doubling.
proof fn lemma_shift_room(fraction: int, p: int, shifts: int)
    requires
        0 <= p < 10,
        0 <= shifts <= 10 - p,
        power_of_two(p as nat) <= fraction < 2 * power_of_two(p as nat),
        fraction * power_of_two(shifts as nat) < 1024,
    ensures
        shifts < 10 - p,
{
    reveal_with_fuel(power_of_two, 12);
    if shifts == 10 - p {
        assert(fraction * power_of_two((10 - p) as nat) >= power_of_two(p as nat) * power_of_two(
            (10 - p) as nat,
        )) by (nonlinear_arith)
            requires
                fraction >= power_of_two(p as nat),
                power_of_two((10 - p) as nat) >= 0,
        ;
        lemma_power_split(p as nat, (10 - p) as nat);
    }
}

proof fn lemma_power_split(a: nat, b: nat)
    ensures
        power_of_two(a) * power_of_two(b) == power_of_two(a + b),
    decreases a,
{
    if a > 0 {
        lemma_power_split((a - 1) as nat, b);
        assert((2 * power_of_two((a - 1) as nat)) * power_of_two(b) == 2 * (power_of_two(
            (a - 1) as nat,
        ) * power_of_two(b))) by (nonlinear_arith);
    } else {
        assert(power_of_two(0) * power_of_two(b) == power_of_two(b)) by {
            assert(power_of_two(0) == 1);
        }
    }
}

/// Doubling has brought the highest bit to the tenth place.
proof fn lemma_shift_end(fraction: int, p: int, shifts: int)
    requires
        0 <= p < 10,
        0 <= shifts <= 10 - p,
        power_of_two(p as nat) <= fraction < 2 * power_of_two(p as nat),
        fraction * power_of_two(shifts as nat) >= 1024,
    ensures
        shifts == 10 - p,
{
    reveal_with_fuel(power_of_two, 12);
    if shifts < 10 - p {
        let s = power_of_two(shifts as nat);
        lemma_power_positive(shifts as nat);
        assert(fraction * s < 2 * (power_of_two(p as nat) * s)) by (nonlinear_arith)
            requires
                fraction < 2 * power_of_two(p as nat),
                s >= 1,
        ;
        lemma_power_split(p as nat, shifts as nat);
        lemma_power_split((p + shifts) as nat, (9 - p - shifts) as nat);
        lemma_power_positive((9 - p - shifts) as nat);
        assert(power_of_two(9) == 512);
        assert(power_of_two((p + shifts) as nat) <= 512) by (nonlinear_arith)
            requires
                power_of_two((p + shifts) as nat) * power_of_two((9 - p - shifts) as nat) == 512,
                power_of_two((9 - p - shifts) as nat) >= 1,
        ;
    }
}

/// Shifting a fraction up to its place in two steps or in one is the same.
proof fn lemma_scaled_fraction(fraction: int, p: int)
    requires
        0 <= p < 10,
        power_of_two(p as nat) <= fraction < 2 * power_of_two(p as nat),
    ensures
        (fraction * power_of_two((10 - p) as nat) - 1024) * 8192 == (fraction - power_of_two(
            p as nat,
        )) * power_of_two((23 - p) as nat),
        0 <= (fraction * power_of_two((10 - p) as nat) - 1024) * 8192 < 0x80_0000,
{
    reveal_with_fuel(power_of_two, 14);
    let a = power_of_two(p as nat) as int;
    let b = power_of_two((10 - p) as nat) as int;
    lemma_power_split(p as nat, (10 - p) as nat);
    lemma_power_split((10 - p) as nat, 13);
    assert(a * b == 1024);
    assert(power_of_two(13) == 8192);
    assert((fraction * b - 1024) * 8192 == (fraction - a) * (b * 8192)) by (nonlinear_arith)
        requires
            a * b == 1024,
    ;
    assert(0 <= fraction * b - 1024 < 1024) by (nonlinear_arith)
        requires
            a * b == 1024,
            a <= fraction < 2 * a,
            b >= 1,
    ;
}

/// A half precision number survives the way through single precision, unless it is a NaN.
pub proof fn law_half_survives_single(half: u16)
    requires
        half as int / 1024 % 32 != 31 || half as int % 1024 == 0,
    ensures
        0 <= to_single(half) <= u32::MAX,
        to_half(to_single(half) as u32) == half,
{
    let sign = half as int / 0x8000;
    let exponent = half as int / 1024 % 32;
    let fraction = half as int % 1024;
    let magnitude = single_magnitude(exponent, fraction);
    assert(half == sign * 0x8000 + exponent * 1024 + fraction);
    if exponent == 0 && fraction > 0 {
        let p = top_bit(fraction);
        lemma_top_bit(fraction);
        lemma_scaled_fraction(fraction, p);
        let low = (fraction - power_of_two(p as nat)) * power_of_two((23 - p) as nat);
        assert(magnitude == (103 + p) * 0x80_0000 + low);
        let bits = to_single(half) as u32;
        assert(single_exponent(bits) == 103 + p);
        assert(single_fraction(bits) == low);
        assert(single_sign(bits) == sign);
        let b = power_of_two((10 - p) as nat) as int;
        lemma_power_positive((10 - p) as nat);
        assert(1 - (103 + p - 112) == 10 - p);
        let whole = low + 0x80_0000;
        assert(whole == b * (fraction * 8192)) by (nonlinear_arith)
            requires
                low == (fraction * b - 1024) * 8192,
                whole == low + 0x80_0000,
        ;
        vstd::arithmetic::div_mod::lemma_div_multiples_vanish(fraction * 8192, b);
        assert(whole / b == fraction * 8192);
    }
}

/// Whether single precision bits are those of a NaN.
pub open spec fn is_nan(bits: u32) -> bool {
    single_exponent(bits) == 255 && single_fraction(bits) != 0
}

/// Stored in half precision, a NaN stays a NaN and an infinity stays the same infinity.
pub proof fn law_half_keeps_nan_and_infinity(bits: u32)
    requires
        single_exponent(bits) == 255,
    ensures
        is_nan(bits) ==> is_nan(stored(bits, DType::F16) as u32),
        !is_nan(bits) ==> stored(bits, DType::F16) == bits,
{
    let half = to_half(bits);
    assert(half / 1024 % 32 == 31);
    assert(bits == single_sign(bits) * 0x8000_0000 + 255 * 0x80_0000 + single_fraction(bits));
    if is_nan(bits) {
        assert(half % 1024 == 1);
        let back = to_single(half as u16);
        assert(back == single_sign(bits) * 0x8000_0000 + 255 * 0x80_0000 + 8192);
    } else {
        assert(half % 1024 == 0);
    }
}

/// Turns a single precision number into a brain float: the upper half of its bits.
pub fn f32_to_bf16(bits: u32) -> (brain: u16)
    ensures
        brain == bits / 0x1_0000,
{
    (bits / 0x1_0000) as u16
}

/// Turns a brain float into a single precision number: zero bits are added.
pub fn bf16_to_f32(brain: u16) -> (bits: u32)
    ensures
        bits == brain * 0x1_0000,
{
    (brain as u32) * 0x1_0000
}

/// A brain float survives the way through single precision, and a single precision number
/// loses its lower half on the way through a brain float.
pub proof fn law_brain_floats(brain: u16, bits: u32)
    ensures
        (brain * 0x1_0000) as u32 / 0x1_0000 == brain,
        (bits / 0x1_0000) * 0x1_0000 == bits - bits % 0x1_0000,
{
}

/// What is left of a single precision number once it was stored as `dtype`.
pub open spec fn stored(bits: u32, dtype: DType) -> int {
    match dtype {
        DType::F32 => bits as int,
        DType::F16 => to_single(to_half(bits) as u16),
        DType::BF16 => (bits / 0x1_0000) * 0x1_0000,
    }
}

/// Stores a single precision number as `dtype` and reads it back.
pub fn store_as(bits: u32, dtype: DType) -> (kept: u32)
    ensures
        kept == stored(bits, dtype),
{
    match dtype {
        DType::F32 => bits,
        DType::F16 => f16_to_f32(f32_to_f16(bits)),
        DType::BF16 => bf16_to_f32(f32_to_bf16(bits)),
    }
}

/// Whether single precision bits are those of a NaN or an infinity.
pub open spec fn is_nan_or_inf(bits: u32) -> bool {
    single_exponent(bits) == 255
}

/// Whether some single precision number is a NaN or an infinity.
pub fn has_nan_inf(data: &[u32]) -> (yes: bool)
    ensures
        yes == exists|i: int| 0 <= i < data@.len() && is_nan_or_inf(#[trigger] data@[i]),
{
    let mut i: usize = 0;
    while i < data.len()
        invariant
            i <= data@.len(),
            forall|j: int| 0 <= j < i ==> !is_nan_or_inf(#[trigger] data@[j]),
        decreases data@.len() - i,
    {
        if data[i] / 0x80_0000 % 256 == 255 {
            return true;
        }
        i = i + 1;
    }
    false
}

/// Stored in half precision, a number loses what does not fit: the thirteen lowest bits of its
/// fraction where it is neither too large nor too small; what is too large becomes an infinity,
/// and what is much too small becomes zero, all with the same sign.
pub proof fn law_half_cuts_off(bits: u32)
    ensures
        113 <= single_exponent(bits) <= 142 ==> stored(bits, DType::F16) == bits - bits % 8192,
        143 <= single_exponent(bits) < 255 ==> stored(bits, DType::F16) == single_sign(bits)
            * 0x8000_0000 + 0x7f80_0000,
        single_exponent(bits) < 102 ==> stored(bits, DType::F16) == single_sign(bits) * 0x8000_0000,
{
    let (sign, exponent, fraction) = (
        single_sign(bits),
        single_exponent(bits),
        single_fraction(bits),
    );
    assert(bits == sign * 0x8000_0000 + exponent * 0x80_0000 + fraction);
    assert(0 <= sign <= 1);
    let half = to_half(bits);
    if 113 <= exponent <= 142 {
        let e = exponent - 112;
        let top = fraction / 8192;
        assert(half == sign * 0x8000 + e * 1024 + top);
        assert(half / 0x8000 == sign && half / 1024 % 32 == e && half % 1024 == top);
        assert(bits % 8192 == fraction % 8192);
    } else if 143 <= exponent < 255 {
        assert(half == sign * 0x8000 + 0x7c00);
    } else if exponent < 102 {
        assert(half == sign * 0x8000);
    }
}

/// A number that is too small for an ordinary half precision number becomes the greatest multiple
/// of the least one that it reaches.
pub proof fn law_small_halves_count_the_least(bits: u32)
    requires
        102 <= single_exponent(bits) <= 112,
    ensures
        ({
            let count = to_half(bits) - single_sign(bits) * 0x8000;
            let least = power_of_two((113 - single_exponent(bits)) as nat) * 8192;
            &&& 0 <= count < 1024
            &&& count * least <= single_fraction(bits) + 0x80_0000
            &&& single_fraction(bits) + 0x80_0000 < (count + 1) * least
        }),
{
    let exponent = single_exponent(bits);
    let n = (113 - exponent) as nat;
    let p = power_of_two(n) as int;
    lemma_power_positive(n);
    let a = single_fraction(bits) + 0x80_0000;
    let q = a / p;
    let count = q / 8192;
    vstd::arithmetic::div_mod::lemma_fundamental_div_mod(a, p);
    vstd::arithmetic::div_mod::lemma_mod_bound(a, p);
    let (r, s) = (a % p, q % 8192);
    assert(q == 8192 * count + s);
    assert(p * (8192 * count + s) == count * (p * 8192) + p * s) by (nonlinear_arith);
    assert((count + 1) * (p * 8192) == count * (p * 8192) + p * 8192) by (nonlinear_arith);
    assert(0 <= p * s && p * s <= p * 8191) by (nonlinear_arith)
        requires
            p >= 1,
            0 <= s <= 8191,
    ;
    assert(p >= 2) by {
        assert(p == 2 * power_of_two((n - 1) as nat));
        lemma_power_positive((n - 1) as nat);
    }
    assert(q >= 0 && q < 0x80_0000) by {
        if q >= 0x80_0000 {
            assert(p * q >= 2 * 0x80_0000) by (nonlinear_arith)
                requires
                    p >= 2,
                    q >= 0x80_0000,
            ;
        }
        if q < 0 {
            assert(p * q <= -p) by (nonlinear_arith)
                requires
                    p >= 2,
                    q <= -1,
            ;
        }
    }
}

} // verus!
