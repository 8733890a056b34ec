use vstd::prelude::*;

verus! {

/// Engine pitch units per unit of caller pitch.
pub const PITCH_SCALE: u64 = 50;

/// Engine rate units per unit of caller rate; 175 is the engine's normal speed.
pub const NORMAL_RATE: u64 = 175;

/// Engine volume units per unit of caller volume.
pub const VOLUME_SCALE: u64 = 100;

pub open spec fn two_pow(n: nat) -> nat
    decreases n,
{
    if n == 0 {
        1
    } else {
        2 * two_pow((n - 1) as nat)
    }
}

/// Sign bit of an IEEE-754 single-precision bit pattern.
pub open spec fn sign_of(bits: u32) -> bool {
    bits / 0x8000_0000 == 1
}

/// Biased exponent field of a single-precision bit pattern.
pub open spec fn exponent_of(bits: u32) -> nat {
    ((bits / 0x80_0000) % 256) as nat
}

/// Fraction field of a single-precision bit pattern.
pub open spec fn fraction_of(bits: u32) -> nat {
    (bits % 0x80_0000) as nat
}

/// Integer significand: the value is `significand_of(b) * 2^(effective_exponent(b) - 150)`.
pub open spec fn significand_of(bits: u32) -> nat {
    if exponent_of(bits) == 0 {
        fraction_of(bits)
    } else {
        fraction_of(bits) + 0x80_0000
    }
}

pub open spec fn effective_exponent(bits: u32) -> nat {
    if exponent_of(bits) == 0 {
        1
    } else {
        exponent_of(bits)
    }
}

/// `n / d` rounded to the nearest integer, halves away from zero (`n >= 0`, `d > 0`).
pub open spec fn round_half_up(n: nat, d: nat) -> nat
    recommends
        d > 0,
{
    ((2 * n + d) / (2 * d)) as nat
}

/// Magnitude of `value(bits) * factor`, rounded to the nearest integer.
pub open spec fn scaled_magnitude(bits: u32, factor: nat) -> nat {
    let x = significand_of(bits) * factor;
    let e = effective_exponent(bits);
    if e >= 150 {
        x * two_pow((e - 150) as nat)
    } else {
        round_half_up(x, two_pow((150 - e) as nat))
    }
}

/// Clamps an integer into the range of `i32`, as a saturating conversion does.
pub open spec fn saturate_i32(v: int) -> i32 {
    if v > i32::MAX {
        i32::MAX
    } else if v < i32::MIN {
        i32::MIN
    } else {
        v as i32
    }
}

/// The engine value for the single-precision number with bit pattern `bits`
/// scaled by `factor`: the product rounded to the nearest integer (halves away
/// from zero) and saturated into `i32`. Not-a-number maps to 0, infinities to
/// the bound of their sign.
pub open spec fn scaled_unit(bits: u32, factor: nat) -> i32 {
    if exponent_of(bits) == 255 {
        if fraction_of(bits) != 0 {
            0
        } else if sign_of(bits) {
            i32::MIN
        } else {
            i32::MAX
        }
    } else if sign_of(bits) {
        saturate_i32(-(scaled_magnitude(bits, factor) as int))
    } else {
        saturate_i32(scaled_magnitude(bits, factor) as int)
    }
}

proof fn lemma_two_pow_monotone(a: nat, b: nat)
    requires
        a <= b,
    ensures
        two_pow(a) <= two_pow(b),
        two_pow(a) >= 1,
    decreases b,
{
    if b > a {
        lemma_two_pow_monotone(a, (b - 1) as nat);
    } else if a > 0 {
        lemma_two_pow_monotone((a - 1) as nat, (a - 1) as nat);
    }
}

proof fn lemma_two_pow_landmarks()
    ensures
        two_pow(0) == 1,
        two_pow(7) == 0x80,
        two_pow(8) == 0x100,
        two_pow(40) == 0x100_0000_0000,
{
    reveal_with_fuel(two_pow, 41);
}

fn two_pow_exec(n: u64) -> (r: u64)
    requires
        n <= 40,
    ensures
        r == two_pow(n as nat),
{
    let mut r: u64 = 1;
    let mut i: u64 = 0;
    proof {
        lemma_two_pow_landmarks();
        lemma_two_pow_monotone(0, 40);
    }
    while i < n
        invariant
            i <= n <= 40,
            r == two_pow(i as nat),
            r <= two_pow(40),
        decreases n - i,
    {
        proof {
            lemma_two_pow_monotone((i + 1) as nat, 40);
            lemma_two_pow_landmarks();
        }
        r = r * 2;
        i = i + 1;
    }
    r
}

fn saturate_exec(neg: bool, mag: u64) -> (r: i32)
    ensures
        r == (if neg {
            saturate_i32(-(mag as int))
        } else {
            saturate_i32(mag as int)
        }),
{
    if neg {
        if mag > 0x8000_0000 {
            i32::MIN
        } else {
            (0 - (mag as i64)) as i32
        }
    } else if mag > 0x7fff_ffff {
        i32::MAX
    } else {
        mag as i32
    }
}

/// Maps a caller value, given as the bit pattern of a single-precision number,
/// onto an engine scale of `factor` units per unit.
pub fn scale_unit(bits: u32, factor: u64) -> (r: i32)
    requires
        1 <= factor <= 1000,
    ensures
        r == scaled_unit(bits, factor as nat),
{
    let neg = bits / 0x8000_0000 == 1;
    let exp = (bits / 0x80_0000) % 256;
    let frac = bits % 0x80_0000;
    if exp == 255 {
        if frac != 0 {
            return 0;
        } else if neg {
            return i32::MIN;
        } else {
            return i32::MAX;
        }
    }
    let mant: u64 = if exp == 0 { frac as u64 } else { frac as u64 + 0x80_0000 };
    let e: u64 = if exp == 0 { 1 } else { exp as u64 };
    assert(mant == significand_of(bits) && e == effective_exponent(bits));
    assert(mant < 0x100_0000);
    assert(mant * factor <= 0x100_0000 * 1000) by (nonlinear_arith)
        requires
            mant < 0x100_0000,
            factor <= 1000,
    ;
    let x: u64 = mant * factor;
    let mag: u64;
    if e >= 150 {
        let shift = e - 150;
        if shift >= 8 {
            proof {
                lemma_two_pow_monotone(8, shift as nat);
                lemma_two_pow_landmarks();
                assert(mant >= 0x80_0000);
                let p = two_pow(shift as nat);
                assert(x * p >= 0x8000_0000) by (nonlinear_arith)
                    requires
                        mant >= 0x80_0000,
                        factor >= 1,
                        x == mant * factor,
                        p >= 0x100,
                ;
            }
            mag = 0x1_0000_0000;
        } else {
            let p = two_pow_exec(shift);
            proof {
                lemma_two_pow_monotone(shift as nat, 7);
                lemma_two_pow_landmarks();
                assert(x * p <= 0x100_0000 * 1000 * 0x80) by (nonlinear_arith)
                    requires
                        x <= 0x100_0000 * 1000,
                        p <= 0x80,
                ;
            }
            mag = x * p;
        }
    } else {
        let k = 150 - e;
        if k > 40 {
            proof {
                lemma_two_pow_monotone(40, k as nat);
                lemma_two_pow_landmarks();
                let d = two_pow(k as nat);
                assert(((2 * x + d) as int) / ((2 * d) as int) == 0) by (nonlinear_arith)
                    requires
                        d >= 0x100_0000_0000,
                        x <= 0x100_0000 * 1000,
                ;
            }
            mag = 0;
        } else {
            let d = two_pow_exec(k);
            proof {
                lemma_two_pow_monotone(k as nat, 40);
                lemma_two_pow_landmarks();
            }
            mag = (2 * x + d) / (2 * d);
        }
    }
    saturate_exec(neg, mag)
}

/// Engine pitch for a caller pitch: `round(p * 50)`.
pub fn engine_pitch(bits: u32) -> (r: i32)
    ensures
        r == scaled_unit(bits, PITCH_SCALE as nat),
{
    scale_unit(bits, PITCH_SCALE)
}

/// Engine rate for a caller rate: `round(r * 175)`.
pub fn engine_rate(bits: u32) -> (r: i32)
    ensures
        r == scaled_unit(bits, NORMAL_RATE as nat),
{
    scale_unit(bits, NORMAL_RATE)
}

/// Engine volume for a caller volume: `round(v * 100)`.
pub fn engine_volume(bits: u32) -> (r: i32)
    ensures
        r == scaled_unit(bits, VOLUME_SCALE as nat),
{
    scale_unit(bits, VOLUME_SCALE)
}

} // verus!
