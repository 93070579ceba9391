//! One audio sample: a single-precision IEEE 754 number, kept as its bit
//! pattern so that every statement about it is a statement about integers.
//!
//! Amplitudes use the range of signed 16-bit PCM. They are carried as
//! floating point between the stages of the pipeline, so that resampling and
//! noise suppression do not clip or round in between.

use vstd::arithmetic::div_mod::{
    lemma_basic_div, lemma_div_is_ordered, lemma_div_multiples_vanish,
    lemma_div_multiples_vanish_quotient,
};
use vstd::arithmetic::power2::{
    lemma2_to64, lemma_pow2_adds, lemma_pow2_pos, lemma_pow2_strictly_increases,
    lemma_pow2_unfold, pow2,
};
use vstd::bits::lemma_u32_shr_is_div;
use vstd::prelude::*;

verus! {

/// The weight of the sign bit in a bit pattern.
pub const SIGN_BIT: u32 = 0x8000_0000;

/// The weight of the lowest exponent bit; also the implicit leading bit of
/// the significand of a normal number.
pub const HIDDEN_BIT: u32 = 0x80_0000;

/// The least amplitude that 16-bit PCM can hold.
pub const PCM_MIN: i16 = -32768;

/// The greatest amplitude that 16-bit PCM can hold.
pub const PCM_MAX: i16 = 32767;

/// A sample, as the 32 bits of a single-precision floating-point number:
/// one sign bit, eight exponent bits, twenty-three fraction bits.
#[derive(Clone, Copy, Debug, PartialEq, Eq)]
pub struct Sample {
    pub bits: u32,
}

impl Sample {
    /// The sign bit is set.
    pub open spec fn negative(self) -> bool {
        self.bits >= SIGN_BIT
    }

    /// The biased exponent field, 0 to 255.
    pub open spec fn exponent(self) -> nat {
        ((self.bits / HIDDEN_BIT) % 256) as nat
    }

    /// The fraction field, below 2^23.
    pub open spec fn fraction(self) -> nat {
        (self.bits % HIDDEN_BIT) as nat
    }

    /// Not a number: the exponent field is all ones and the fraction is not zero.
    pub open spec fn is_nan(self) -> bool {
        self.exponent() == 255 && self.fraction() != 0
    }

    /// The significand as an integer: the fraction, with the implicit leading
    /// bit for every pattern that is not subnormal.
    pub open spec fn significand(self) -> nat {
        if self.exponent() == 0 {
            self.fraction()
        } else {
            (HIDDEN_BIT + self.fraction()) as nat
        }
    }

    /// The absolute value in units of 2^-149, the spacing of the subnormal
    /// numbers: every finite single-precision number is a whole multiple of
    /// it. An infinity counts as 2^128, which lies beyond every finite value.
    pub open spec fn magnitude(self) -> nat {
        if self.exponent() == 0 {
            self.significand()
        } else {
            self.significand() * pow2((self.exponent() - 1) as nat)
        }
    }

    /// The integer part of the absolute value.
    pub open spec fn whole(self) -> nat {
        self.magnitude() / pow2(149)
    }

    /// The value with its fractional part cut off, that is, rounded toward zero.
    pub open spec fn truncated(self) -> int {
        if self.negative() {
            -(self.whole() as int)
        } else {
            self.whole() as int
        }
    }

    /// The 16-bit PCM amplitude of the sample: the value limited to the range
    /// from -32768 to 32767 and rounded toward zero. A NaN gives -32768.
    pub open spec fn pcm(self) -> int {
        if self.is_nan() {
            PCM_MIN as int
        } else if self.truncated() < PCM_MIN {
            PCM_MIN as int
        } else if self.truncated() > PCM_MAX {
            PCM_MAX as int
        } else {
            self.truncated()
        }
    }

    /// The sample is exactly the integer `x`, and is positive zero where `x`
    /// is zero.
    pub open spec fn holds(self, x: int) -> bool {
        &&& self.exponent() < 255
        &&& self.negative() == (x < 0)
        &&& self.magnitude() == (if x < 0 { -x } else { x }) * pow2(149)
    }

    /// The sample that is exactly the integer `x`. There is one for every
    /// `x` of the PCM range, and never more than one.
    pub open spec fn of_int(x: int) -> Sample {
        choose|s: Sample| s.holds(x)
    }

    /// Silence: positive zero.
    pub fn silence() -> (s: Sample)
        ensures
            s.bits == 0,
            s == Sample::of_int(0),
    {
        let s = Sample { bits: 0 };
        proof {
            lemma_pow2_pos(149);
            assert(s.holds(0));
            lemma_holds_once(s, Sample::of_int(0), 0);
        }
        s
    }

    /// Widens a 16-bit PCM amplitude to a sample of the same value. Every
    /// such amplitude has an exact single-precision representation.
    pub fn from_pcm(x: i16) -> (s: Sample)
        ensures
            s.holds(x as int),
            s == Sample::of_int(x as int),
    {
        if x == 0 {
            let s = Sample::silence();
            proof {
                lemma_of_int_holds(0);
            }
            return s;
        }
        let amplitude: u32 = if x < 0 {
            (-(x as i32)) as u32
        } else {
            x as u32
        };
        let mut significand: u32 = amplitude;
        let mut exponent: u32 = 150;
        proof {
            lemma2_to64();
            assert(amplitude * pow2(0) == amplitude) by (nonlinear_arith)
                requires
                    pow2(0) == 1,
            ;
        }
        while significand < HIDDEN_BIT
            invariant
                1 <= amplitude <= 32768,
                127 <= exponent <= 150,
                significand == amplitude * pow2((150 - exponent) as nat),
                significand < 2 * HIDDEN_BIT,
            decreases exponent,
        {
            proof {
                lemma_doubling(amplitude as nat, significand as nat, exponent as nat);
            }
            significand = significand * 2;
            exponent = exponent - 1;
        }
        let sign: u32 = if x < 0 {
            SIGN_BIT
        } else {
            0
        };
        let s = Sample { bits: sign + exponent * HIDDEN_BIT + (significand - HIDDEN_BIT) };
        proof {
            lemma_packed(s, x < 0, exponent as nat, significand as nat, amplitude as nat);
            lemma_holds_once(s, Sample::of_int(x as int), x as int);
        }
        s
    }

    /// Narrows the sample to 16-bit PCM: limits it to the range from -32768
    /// to 32767, saturating, and rounds toward zero.
    pub fn to_pcm(self) -> (x: i16)
        ensures
            x == self.pcm(),
    {
        let exponent: u32 = (self.bits / HIDDEN_BIT) % 256;
        let fraction: u32 = self.bits % HIDDEN_BIT;
        let negative: bool = self.bits >= SIGN_BIT;
        if exponent == 255 && fraction != 0 {
            return PCM_MIN;
        }
        if exponent < 127 {
            proof {
                self.lemma_below_one();
            }
            return 0;
        }
        if exponent >= 142 {
            proof {
                self.lemma_beyond_range();
            }
            return if negative {
                PCM_MIN
            } else {
                PCM_MAX
            };
        }
        let significand: u32 = HIDDEN_BIT + fraction;
        let shift: u32 = 150 - exponent;
        let whole: u32 = significand >> shift;
        proof {
            lemma_u32_shr_is_div(significand, shift);
            lemma_whole_is_quotient(significand as nat, exponent as nat);
            lemma2_to64();
            if 9 < shift {
                lemma_pow2_strictly_increases(9, shift as nat);
            }
            assert(pow2(9) == 512);
            assert(whole < 32768) by (nonlinear_arith)
                requires
                    whole == significand as nat / pow2(shift as nat),
                    significand < 0x100_0000,
                    pow2(shift as nat) >= 512,
            ;
            assert(self.whole() == whole);
        }
        if negative {
            -(whole as i16)
        } else {
            whole as i16
        }
    }

    /// A sample of absolute value below one has the integer part zero.
    proof fn lemma_below_one(self)
        requires
            self.exponent() < 127,
        ensures
            self.whole() == 0,
    {
        lemma2_to64();
        lemma_pow2_pos(149);
        if self.exponent() == 0 {
            lemma_pow2_strictly_increases(23, 149);
        } else {
            let j = (self.exponent() - 1) as nat;
            lemma_pow2_pos(j);
            if j < 125 {
                lemma_pow2_strictly_increases(j, 125);
            }
            lemma_pow2_adds(24, 125);
            assert(pow2(24) == 0x100_0000);
            assert(self.significand() * pow2(j) < pow2(24) * pow2(125)) by (nonlinear_arith)
                requires
                    self.significand() < pow2(24),
                    0 < pow2(j) <= pow2(125),
            ;
        }
        lemma_basic_div(self.magnitude() as int, pow2(149) as int);
    }

    /// From the exponent field 142 on, the absolute value is at least 32768.
    proof fn lemma_beyond_range(self)
        requires
            self.exponent() >= 142,
        ensures
            self.whole() >= 32768,
    {
        let j = (self.exponent() - 1) as nat;
        let unit = pow2(149);
        lemma2_to64();
        lemma_pow2_pos(149);
        if 141 < j {
            lemma_pow2_strictly_increases(141, j);
        }
        lemma_pow2_adds(23, 141);
        lemma_pow2_adds(15, 149);
        assert(pow2(23) == HIDDEN_BIT);
        assert(pow2(15) == 32768);
        assert(self.significand() * pow2(j) >= pow2(23) * pow2(141)) by (nonlinear_arith)
            requires
                self.significand() >= pow2(23),
                pow2(j) >= pow2(141),
        ;
        assert(self.magnitude() >= 32768 * unit);
        lemma_div_is_ordered(32768 * (unit as int), self.magnitude() as int, unit as int);
        lemma_div_multiples_vanish(32768, unit as int);
        assert(32768 * unit == unit * 32768) by (nonlinear_arith);
    }

    /// Widening a 16-bit amplitude and narrowing it again gives it back: a
    /// sample that is exactly an integer of the PCM range has that integer as
    /// its PCM amplitude.
    pub proof fn lemma_pcm_of_held(self, x: int)
        requires
            self.holds(x),
            PCM_MIN <= x <= PCM_MAX,
        ensures
            self.pcm() == x,
    {
        let unit = pow2(149);
        let amplitude = if x < 0 {
            -x
        } else {
            x
        };
        lemma_pow2_pos(149);
        lemma_div_multiples_vanish(amplitude, unit as int);
        assert(amplitude * unit == unit * amplitude) by (nonlinear_arith);
        assert(self.whole() == amplitude);
    }
}

/// One step of normalising: while the significand lacks its leading bit, it
/// can be doubled and the exponent lowered by one without leaving the range
/// of the exponents and without changing the value.
proof fn lemma_doubling(amplitude: nat, significand: nat, exponent: nat)
    requires
        1 <= amplitude,
        127 <= exponent <= 150,
        significand == amplitude * pow2((150 - exponent) as nat),
        significand < HIDDEN_BIT,
    ensures
        127 < exponent,
        2 * significand == amplitude * pow2((151 - exponent) as nat),
{
    let k = (150 - exponent) as nat;
    lemma_pow2_unfold(k + 1);
    assert(significand * 2 == amplitude * pow2(k + 1)) by (nonlinear_arith)
        requires
            significand == amplitude * pow2(k),
            pow2(k + 1) == 2 * pow2(k),
    ;
    if exponent == 127 {
        lemma2_to64();
        assert(pow2(23) == HIDDEN_BIT);
        assert(amplitude * pow2(23) >= pow2(23)) by (nonlinear_arith)
            requires
                amplitude >= 1,
        ;
    }
}

/// A sign, an exponent and a normalised significand, packed into a bit
/// pattern, make the sample that is exactly the signed amplitude.
proof fn lemma_packed(s: Sample, negative: bool, exponent: nat, significand: nat, amplitude: nat)
    requires
        1 <= amplitude,
        127 <= exponent <= 150,
        HIDDEN_BIT <= significand < 2 * HIDDEN_BIT,
        significand == amplitude * pow2((150 - exponent) as nat),
        s.bits == (if negative {
            SIGN_BIT as int
        } else {
            0
        }) + exponent * HIDDEN_BIT + (significand - HIDDEN_BIT),
    ensures
        s.holds(
            if negative {
                -(amplitude as int)
            } else {
                amplitude as int
            },
        ),
{
    let k = (150 - exponent) as nat;
    let j = (exponent - 1) as nat;
    let sign: int = if negative {
        SIGN_BIT as int
    } else {
        0
    };
    assert(s.bits / HIDDEN_BIT == sign / (HIDDEN_BIT as int) + exponent);
    assert(s.exponent() == exponent);
    assert(s.fraction() == significand - HIDDEN_BIT);
    assert(s.significand() == significand);
    lemma_pow2_adds(k, j);
    assert(significand * pow2(j) == amplitude * pow2(149)) by (nonlinear_arith)
        requires
            significand == amplitude * pow2(k),
            pow2(k) * pow2(j) == pow2(149),
    ;
}

/// Normalising ends: from any stage of it a sample is reached that is
/// exactly the signed amplitude.
proof fn lemma_normalised(negative: bool, amplitude: nat, significand: nat, exponent: nat) -> (s:
    Sample)
    requires
        1 <= amplitude,
        127 <= exponent <= 150,
        significand == amplitude * pow2((150 - exponent) as nat),
        1 <= significand < 2 * HIDDEN_BIT,
    ensures
        s.holds(
            if negative {
                -(amplitude as int)
            } else {
                amplitude as int
            },
        ),
    decreases exponent,
{
    if significand < HIDDEN_BIT {
        lemma_doubling(amplitude, significand, exponent);
        lemma_normalised(negative, amplitude, 2 * significand, (exponent - 1) as nat)
    } else {
        let sign: int = if negative {
            SIGN_BIT as int
        } else {
            0
        };
        let s = Sample { bits: (sign + exponent * HIDDEN_BIT + (significand - HIDDEN_BIT)) as u32 };
        lemma_packed(s, negative, exponent, significand, amplitude);
        s
    }
}

/// Every integer from -32768 to 32768, and so every amplitude that 16-bit
/// PCM can hold, is exactly some sample.
pub proof fn lemma_of_int_holds(x: int)
    requires
        -32768 <= x <= 32768,
    ensures
        Sample::of_int(x).holds(x),
{
    if x == 0 {
        lemma_pow2_pos(149);
        assert(Sample { bits: 0 }.holds(0));
    } else {
        let amplitude = (if x < 0 {
            -x
        } else {
            x
        }) as nat;
        lemma2_to64();
        assert(amplitude * pow2(0) == amplitude) by (nonlinear_arith)
            requires
                pow2(0) == 1,
        ;
        let s = lemma_normalised(x < 0, amplitude, amplitude, 150);
        assert(s.holds(x));
    }
}

/// The sign, the exponent field and the fraction field make up the whole bit
/// pattern.
proof fn lemma_fields_make_bits(a: Sample, b: Sample)
    requires
        a.negative() == b.negative(),
        a.exponent() == b.exponent(),
        a.fraction() == b.fraction(),
    ensures
        a == b,
{
    let qa = a.bits / HIDDEN_BIT;
    let qb = b.bits / HIDDEN_BIT;
    assert(a.bits == qa * HIDDEN_BIT + a.bits % HIDDEN_BIT);
    assert(b.bits == qb * HIDDEN_BIT + b.bits % HIDDEN_BIT);
    assert(a.negative() == (qa >= 256));
    assert(b.negative() == (qb >= 256));
    assert(qa < 512 && qb < 512);
    assert(qa == qb);
}

/// A sample that is not zero and not subnormal has a magnitude between
/// 2^23 and 2^24 times the power of two that its exponent field selects.
proof fn lemma_normal_bounds(s: Sample)
    requires
        s.exponent() >= 1,
    ensures
        HIDDEN_BIT * pow2((s.exponent() - 1) as nat) <= s.magnitude(),
        s.magnitude() < 2 * HIDDEN_BIT * pow2((s.exponent() - 1) as nat),
{
    let p = pow2((s.exponent() - 1) as nat);
    lemma_pow2_pos((s.exponent() - 1) as nat);
    assert(HIDDEN_BIT * p <= s.significand() * p && s.significand() * p < 2 * HIDDEN_BIT * p)
        by (nonlinear_arith)
        requires
            HIDDEN_BIT <= s.significand() < 2 * HIDDEN_BIT,
            p > 0,
    ;
}

/// No two samples are exactly the same integer: the value, together with
/// the rule that zero is positive zero, fixes every bit.
pub proof fn lemma_holds_once(a: Sample, b: Sample, x: int)
    requires
        a.holds(x),
        b.holds(x),
    ensures
        a == b,
{
    let amplitude = if x < 0 {
        -x
    } else {
        x
    };
    let unit = pow2(149);
    lemma_pow2_pos(149);
    lemma2_to64();
    lemma_pow2_strictly_increases(23, 149);
    assert(pow2(23) == HIDDEN_BIT);
    if amplitude == 0 {
        assert(amplitude * unit == 0) by (nonlinear_arith)
            requires
                amplitude == 0,
        ;
        if a.exponent() >= 1 {
            lemma_normal_bounds(a);
            lemma_pow2_pos((a.exponent() - 1) as nat);
            assert(HIDDEN_BIT * pow2((a.exponent() - 1) as nat) > 0) by (nonlinear_arith)
                requires
                    pow2((a.exponent() - 1) as nat) > 0,
            ;
        }
        if b.exponent() >= 1 {
            lemma_normal_bounds(b);
            lemma_pow2_pos((b.exponent() - 1) as nat);
            assert(HIDDEN_BIT * pow2((b.exponent() - 1) as nat) > 0) by (nonlinear_arith)
                requires
                    pow2((b.exponent() - 1) as nat) > 0,
            ;
        }
    } else {
        assert(amplitude * unit >= unit) by (nonlinear_arith)
            requires
                amplitude >= 1,
                unit > 0,
        ;
        assert(a.exponent() >= 1 && b.exponent() >= 1);
        lemma_normal_bounds(a);
        lemma_normal_bounds(b);
        let ja = (a.exponent() - 1) as nat;
        let jb = (b.exponent() - 1) as nat;
        if ja < jb {
            lemma_exponent_orders(ja, jb);
        } else if jb < ja {
            lemma_exponent_orders(jb, ja);
        } else {
            lemma_pow2_pos(ja);
            assert(a.significand() == b.significand()) by (nonlinear_arith)
                requires
                    a.significand() * pow2(ja) == b.significand() * pow2(ja),
                    pow2(ja) > 0,
            ;
        }
    }
    lemma_fields_make_bits(a, b);
}

/// Everything with the smaller exponent lies below everything with the
/// greater one.
proof fn lemma_exponent_orders(low: nat, high: nat)
    requires
        low < high,
    ensures
        2 * HIDDEN_BIT * pow2(low) <= HIDDEN_BIT * pow2(high),
{
    lemma_pow2_unfold(low + 1);
    if low + 1 < high {
        lemma_pow2_strictly_increases(low + 1, high);
    }
    assert(2 * HIDDEN_BIT * pow2(low) <= HIDDEN_BIT * pow2(high)) by (nonlinear_arith)
        requires
            pow2(low + 1) == 2 * pow2(low),
            pow2(low + 1) <= pow2(high),
    ;
}

/// Dividing `significand * 2^(exponent - 1)` by 2^149 is dividing the
/// significand by 2^(150 - exponent).
proof fn lemma_whole_is_quotient(significand: nat, exponent: nat)
    requires
        1 <= exponent <= 150,
    ensures
        (significand * pow2((exponent - 1) as nat)) / pow2(149) == significand / pow2(
            (150 - exponent) as nat,
        ),
{
    let j = (exponent - 1) as nat;
    let k = (150 - exponent) as nat;
    lemma_pow2_adds(j, k);
    lemma_pow2_pos(j);
    lemma_pow2_pos(k);
    lemma_div_multiples_vanish_quotient(pow2(j) as int, significand as int, pow2(k) as int);
    assert(significand * pow2(j) == pow2(j) * significand) by (nonlinear_arith);
}

} // verus!
