//! Fractions of a span of days, held and multiplied as IEEE 754
//! single-precision numbers, in integer arithmetic.

use vstd::arithmetic::div_mod::{
    lemma_div_denominator, lemma_div_is_ordered, lemma_div_is_ordered_by_denominator,
    lemma_div_multiples_vanish, lemma_fundamental_div_mod,
};
use vstd::arithmetic::mul::{lemma_mul_inequality, lemma_mul_is_associative};
use vstd::arithmetic::power2::{
    lemma2_to64, lemma_pow2_adds, lemma_pow2_pos, lemma_pow2_unfold, pow2,
};
use vstd::prelude::*;

verus! {

/// The bit pattern of the single-precision number 1.
pub const ONE_BITS: u32 = 0x3F80_0000;

/// The bit pattern of the single-precision number 0.25.
pub const QUARTER_BITS: u32 = 0x3E80_0000;

/// The bit pattern of the single-precision number 0.5.
pub const HALF_BITS: u32 = 0x3F00_0000;

/// Two to the power 23: the weight of the exponent field in a bit pattern,
/// and the hidden leading bit of a significand.
pub const HIDDEN_BIT: u32 = 0x80_0000;

/// Two to the power 24: one more than the largest significand.
pub const SIGNIFICAND_LIMIT: u64 = 0x100_0000;

/// The significand of the positive single-precision number with bit pattern
/// `bits`: the number is `significand * 2^binary_exponent`.
pub open spec fn significand(bits: u32) -> nat {
    if bits / HIDDEN_BIT == 0 {
        (bits % HIDDEN_BIT) as nat
    } else {
        (HIDDEN_BIT + bits % HIDDEN_BIT) as nat
    }
}

/// The power of two by which the significand of `bits` is scaled.
pub open spec fn binary_exponent(bits: u32) -> int {
    if bits / HIDDEN_BIT == 0 {
        -149
    } else {
        bits / HIDDEN_BIT - 150
    }
}

/// How many low bits `n` has beyond the 24 that a significand holds.
pub open spec fn excess_bits(n: nat) -> nat
    decreases n,
{
    if n < SIGNIFICAND_LIMIT {
        0
    } else {
        1 + excess_bits(n / 2)
    }
}

/// `n / unit` rounded to the nearest whole number, a tie going to the even
/// neighbour.
pub open spec fn round_half_even(n: nat, unit: nat) -> nat {
    let quotient = n / unit;
    let rest = n % unit;
    if 2 * rest < unit {
        quotient
    } else if 2 * rest > unit {
        quotient + 1
    } else if quotient % 2 == 0 {
        quotient
    } else {
        quotient + 1
    }
}

/// `n` as single precision holds it: rounded to 24 significant bits.
pub open spec fn single_rounded(n: nat) -> nat {
    let unit = pow2(excess_bits(n));
    round_half_even(n, unit) * unit
}

/// The whole part of the single-precision product of `days` and the number
/// with bit pattern `bits`.
pub open spec fn scaled_days(days: nat, bits: u32) -> nat {
    single_rounded(days * significand(bits)) / pow2((-binary_exponent(bits)) as nat)
}

/// A number below `2^(24 + room)` has at most `room` bits too many, and
/// without them it fits a significand.
pub proof fn lemma_excess_bits(n: nat, room: nat)
    requires
        n < SIGNIFICAND_LIMIT * pow2(room),
    ensures
        excess_bits(n) <= room,
        pow2(excess_bits(n)) > 0,
        n / pow2(excess_bits(n)) < SIGNIFICAND_LIMIT,
    decreases n,
{
    lemma2_to64();
    if n >= SIGNIFICAND_LIMIT {
        assert(room >= 1);
        lemma_pow2_unfold(room);
        lemma_excess_bits(n / 2, (room - 1) as nat);
        let rest = excess_bits(n / 2);
        lemma_pow2_unfold(rest + 1);
        lemma_div_denominator(n as int, 2, pow2(rest) as int);
    }
}

/// Rounding to the nearest whole number goes to one of the two neighbours.
pub proof fn lemma_round_half_even_near(n: nat, unit: nat)
    requires
        unit > 0,
    ensures
        n / unit <= round_half_even(n, unit) <= n / unit + 1,
        n % unit == 0 ==> round_half_even(n, unit) == n / unit,
{
}

/// A fraction below 1 of a span of days is never more than the span, in
/// single precision too.
pub proof fn lemma_scaled_days_at_most(days: nat, bits: u32)
    requires
        0 < bits < ONE_BITS,
        days < 0x1_0000,
    ensures
        scaled_days(days, bits) <= days,
{
    lemma2_to64();
    let sig = significand(bits);
    let down = (-binary_exponent(bits)) as nat;
    let n = days * sig;
    assert(sig < SIGNIFICAND_LIMIT);
    assert(down >= 24);
    assert(n <= days * 0x100_0000) by (nonlinear_arith)
        requires
            n == days * sig,
            sig < 0x100_0000,
    ;
    assert(n < SIGNIFICAND_LIMIT * pow2(16)) by (nonlinear_arith)
        requires
            n <= days * 0x100_0000,
            days < 0x1_0000,
            pow2(16) == 0x1_0000,
    ;
    lemma_excess_bits(n, 16);
    let s = excess_bits(n);
    let unit = pow2(s);
    let whole = days * pow2((24 - s) as nat);
    lemma_pow2_adds((24 - s) as nat, s);
    assert(whole * unit == days * 0x100_0000) by {
        lemma_mul_is_associative(days as int, pow2((24 - s) as nat) as int, unit as int);
    }
    lemma_round_half_even_near(n, unit);
    lemma_fundamental_div_mod(n as int, unit as int);
    let quotient = n / unit;
    let rounded = round_half_even(n, unit);
    assert(rounded <= whole) by {
        if n % unit == 0 {
            assert(quotient * unit <= whole * unit) by (nonlinear_arith)
                requires
                    n == unit * quotient + n % unit,
                    n % unit == 0,
                    n <= whole * unit,
            ;
            assert(quotient <= whole) by (nonlinear_arith)
                requires
                    quotient * unit <= whole * unit,
                    unit > 0,
            ;
        } else {
            assert(quotient < whole) by (nonlinear_arith)
                requires
                    n == unit * quotient + n % unit,
                    n % unit > 0,
                    n <= whole * unit,
                    unit > 0,
            ;
        }
    }
    assert(rounded * unit <= days * 0x100_0000) by {
        lemma_mul_inequality(rounded as int, whole as int, unit as int);
    }
    lemma_pow2_adds(24, (down - 24) as nat);
    lemma_pow2_pos((down - 24) as nat);
    assert(pow2(down) >= 0x100_0000) by (nonlinear_arith)
        requires
            pow2(down) == 0x100_0000 * pow2((down - 24) as nat),
            pow2((down - 24) as nat) > 0,
    ;
    lemma_div_is_ordered_by_denominator((rounded * unit) as int, 0x100_0000, pow2(down) as int);
    lemma_div_is_ordered((rounded * unit) as int, (days * 0x100_0000) as int, 0x100_0000);
    assert((days * 0x100_0000) / 0x100_0000 == days) by {
        lemma_div_multiples_vanish(days as int, 0x100_0000);
    }
}

/// A fraction that is one over a power of two is taken exactly: the whole
/// part of the days divided by that power.
pub proof fn lemma_scaled_days_of_binary_fraction(days: nat, bits: u32)
    requires
        0 < bits < ONE_BITS,
        bits % HIDDEN_BIT == 0,
        days < 0x1_0000,
    ensures
        scaled_days(days, bits) == days / pow2((127 - bits / HIDDEN_BIT) as nat),
{
    lemma2_to64();
    let field = bits / HIDDEN_BIT;
    assert(1 <= field <= 126);
    let down = (150 - field) as nat;
    let n = days * 0x80_0000;
    assert(n < SIGNIFICAND_LIMIT * pow2(16)) by (nonlinear_arith)
        requires
            n == days * 0x80_0000,
            days < 0x1_0000,
            pow2(16) == 0x1_0000,
    ;
    lemma_excess_bits(n, 16);
    let s = excess_bits(n);
    let unit = pow2(s);
    lemma_pow2_adds((23 - s) as nat, s);
    let factor = days * pow2((23 - s) as nat);
    assert(n == factor * unit) by {
        lemma_mul_is_associative(days as int, pow2((23 - s) as nat) as int, unit as int);
    }
    assert(n % unit == 0 && n / unit == factor) by {
        lemma_fundamental_div_mod(n as int, unit as int);
        lemma_div_multiples_vanish(factor as int, unit as int);
        assert(unit * factor == factor * unit) by (nonlinear_arith);
    }
    assert(single_rounded(n) == n);
    lemma_pow2_adds(23, (127 - field) as nat);
    lemma_pow2_pos((127 - field) as nat);
    lemma_div_denominator(n as int, 0x80_0000, pow2((127 - field) as nat) as int);
    assert(n / 0x80_0000 == days) by {
        lemma_div_multiples_vanish(days as int, 0x80_0000);
    }
}

/// A quarter and a half of a span of days are the whole parts of the days
/// divided by four and by two.
pub proof fn lemma_quarter_and_half(days: nat)
    requires
        days < 0x1_0000,
    ensures
        scaled_days(days, QUARTER_BITS) == days / 4,
        scaled_days(days, HALF_BITS) == days / 2,
{
    lemma2_to64();
    lemma_scaled_days_of_binary_fraction(days, QUARTER_BITS);
    lemma_scaled_days_of_binary_fraction(days, HALF_BITS);
}

/// A number strictly between 0 and 1, held as the bit pattern of a
/// single-precision number (what `f32::to_bits` gives).
#[derive(Clone, Copy, PartialEq, Eq, Structural, Debug)]
pub struct Fraction {
    pub bits: u32,
}

impl Fraction {
    /// Whether the bit pattern is that of a number strictly between 0 and 1.
    pub open spec fn wf(&self) -> bool {
        0 < self.bits < ONE_BITS
    }

    /// The fraction with the given bit pattern, if the pattern is that of a
    /// number strictly between 0 and 1.
    pub fn from_bits(bits: u32) -> (made: Option<Fraction>)
        ensures
            made is Some <==> 0 < bits < ONE_BITS,
            made matches Some(f) ==> f.bits == bits && f.wf(),
    {
        if 0 < bits && bits < ONE_BITS {
            Some(Fraction { bits })
        } else {
            None
        }
    }

    /// This fraction of `days` days, in whole days: the whole part of the
    /// product as single-precision arithmetic gives it.
    pub fn of_days(&self, days: u16) -> (part: u16)
        requires
            self.wf(),
        ensures
            part == scaled_days(days as nat, self.bits),
            part <= days,
    {
        let field: u32 = self.bits / HIDDEN_BIT;
        let low: u32 = self.bits % HIDDEN_BIT;
        let sig: u64 = if field == 0 {
            low as u64
        } else {
            (HIDDEN_BIT + low) as u64
        };
        let down: u32 = if field == 0 {
            149
        } else {
            150 - field
        };
        assert(days as u64 * sig < 0x100_0000_0000) by (nonlinear_arith)
            requires
                days < 0x1_0000,
                sig < 0x100_0000,
        ;
        let n: u64 = days as u64 * sig;
        let mut kept: u64 = n;
        let mut unit: u64 = 1;
        let ghost mut excess: nat = 0;
        proof {
            lemma2_to64();
        }
        while kept >= SIGNIFICAND_LIMIT
            invariant
                n < 0x100_0000_0000,
                unit == pow2(excess),
                1 <= unit < 0x2_0000,
                kept == n as nat / unit as nat,
                excess_bits(n as nat) == excess + excess_bits(kept as nat),
            decreases kept,
        {
            proof {
                lemma_fundamental_div_mod(n as int, unit as int);
                assert(unit < 0x1_0000) by (nonlinear_arith)
                    requires
                        n == unit * kept + n % unit,
                        n % unit >= 0,
                        kept >= 0x100_0000,
                        n < 0x100_0000_0000,
                        unit >= 1,
                ;
                lemma_div_denominator(n as int, unit as int, 2);
                lemma_pow2_unfold(excess + 1);
            }
            kept = kept / 2;
            unit = unit * 2;
            proof {
                excess = excess + 1;
            }
        }
        let rest: u64 = n % unit;
        let nearest: u64 = if 2 * rest > unit || (2 * rest == unit && kept % 2 == 1) {
            kept + 1
        } else {
            kept
        };
        assert(nearest == round_half_even(n as nat, unit as nat));
        assert(nearest * unit <= 0x100_0000 * 0x2_0000) by (nonlinear_arith)
            requires
                nearest <= 0x100_0000,
                unit <= 0x2_0000,
        ;
        let rounded: u64 = nearest * unit;
        assert(rounded == single_rounded(n as nat));
        let mut part: u64 = rounded;
        let mut done: u32 = 0;
        while done < down
            invariant
                done <= down,
                part == rounded as nat / pow2(done as nat),
                pow2(done as nat) > 0,
            decreases down - done,
        {
            proof {
                lemma_div_denominator(rounded as int, pow2(done as nat) as int, 2);
                lemma_pow2_unfold((done + 1) as nat);
            }
            part = part / 2;
            done = done + 1;
        }
        proof {
            lemma_scaled_days_at_most(days as nat, self.bits);
        }
        part as u16
    }

    /// The bit pattern of this fraction.
    pub fn bits(&self) -> (bits: u32)
        ensures
            bits == self.bits,
    {
        self.bits
    }
}

} // verus!
