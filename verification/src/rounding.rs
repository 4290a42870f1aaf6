//! Where the 99th percentile of a sorted sample stands.
//!
//! The rank is the sample's size times 0.99, computed in double precision and cut to a whole
//! number. It is computed here in whole numbers: a double holds 53 significant bits, and both the
//! size and the product are rounded to the nearest such number, half-way cases to the even one.

use vstd::arithmetic::div_mod::{
    lemma_div_denominator, lemma_fundamental_div_mod, lemma_fundamental_div_mod_converse,
};
use vstd::arithmetic::power2::{
    lemma2_to64, lemma2_to64_rest, lemma_pow2_adds, lemma_pow2_pos, lemma_pow2_strictly_increases,
    lemma_pow2_unfold, pow2,
};
use vstd::prelude::*;

verus! {

/// 2 to the power 53: below it every whole number is a double.
pub const TWO_53: u64 = 9007199254740992;

/// The double nearest to 0.99, as a multiple of 2 to the power -53.
pub const DOUBLE_099: u64 = 8917127262193582;

/// How many of the low bits of `x` a double does not hold.
pub open spec fn excess_bits(x: nat) -> nat
    decreases x,
{
    if x < TWO_53 {
        0
    } else {
        1 + excess_bits(x / 2)
    }
}

/// The double nearest to `x`: of the two multiples around `x` of the last place that a double
/// holds, the nearer one, and half-way between them the one with an even quotient.
pub open spec fn nearest_double(x: nat) -> nat {
    let unit = pow2(excess_bits(x));
    let below = x / unit;
    let rest = x % unit;
    if 2 * rest < unit || (2 * rest == unit && below % 2 == 0) {
        below * unit
    } else {
        (below + 1) * unit
    }
}

/// The rank of the 99th percentile in a sample of `count` values: `count` times 0.99 in double
/// precision, without the fraction.
pub open spec fn p99_rank(count: nat) -> nat {
    nearest_double(nearest_double(count) * DOUBLE_099 as nat) / TWO_53 as nat
}

/// The last place of a double is between its 2^-53rd and its 2^-52nd part.
proof fn lemma_last_place(x: nat)
    ensures
        x < TWO_53 * pow2(excess_bits(x)),
        x >= TWO_53 ==> TWO_53 * pow2(excess_bits(x)) <= 2 * x,
        x < TWO_53 ==> pow2(excess_bits(x)) == 1,
    decreases x,
{
    if x < TWO_53 {
        lemma2_to64();
    } else {
        lemma_last_place(x / 2);
        lemma_pow2_unfold(excess_bits(x));
    }
}

/// Rounding to a double changes a number by at most its 2^-53rd part.
proof fn lemma_nearest_double(x: nat)
    ensures
        TWO_53 * nearest_double(x) <= TWO_53 * x + x,
        TWO_53 * x <= TWO_53 * nearest_double(x) + x,
        x < TWO_53 ==> nearest_double(x) == x,
{
    let unit = pow2(excess_bits(x));
    lemma_pow2_pos(excess_bits(x));
    lemma_last_place(x);
    lemma_fundamental_div_mod(x as int, unit as int);
    let below = x / unit;
    let rest = x % unit;
    assert(below * unit == unit * below) by (nonlinear_arith);
    assert((below + 1) * unit == unit * below + unit) by (nonlinear_arith);
    if x < TWO_53 {
        assert(rest == 0);
    }
}

/// A sample that holds values has a 99th percentile.
pub proof fn law_p99_rank_in_sample(count: nat)
    requires
        count > 0,
    ensures
        p99_rank(count) < count,
{
    let size = nearest_double(count);
    let product = size * DOUBLE_099 as nat;
    lemma_nearest_double(count);
    lemma_nearest_double(product);
    assert(nearest_double(product) < TWO_53 * count);
}

/// The 99th percentile does not stand before the middle of the sample.
pub proof fn law_p99_rank_behind_median(count: nat)
    ensures
        count / 2 <= p99_rank(count),
{
    let size = nearest_double(count);
    let product = size * DOUBLE_099 as nat;
    lemma_nearest_double(count);
    lemma_nearest_double(product);
    assert(TWO_53 * (count / 2) <= nearest_double(product));
}

/// For a sample that fits into memory the rank is 99 hundredths of its size, without the
/// fraction.
pub proof fn law_p99_rank_of_small_samples(count: nat)
    requires
        count <= 0x4000_0000_0000,
    ensures
        p99_rank(count) == 99 * count / 100,
{
    let product = count * DOUBLE_099 as nat;
    let rounded = nearest_double(product);
    let rank = 99 * count / 100;
    lemma_nearest_double(count);
    lemma_nearest_double(product);
    if (99 * count) % 100 == 0 && count > 0 {
        let hundreds = count / 100;
        assert(count == 100 * hundreds);
        let unit = pow2(excess_bits(product));
        lemma_last_place(product);
        lemma_pow2_pos(excess_bits(product));
        assert(unit >= 99 * hundreds);
        assert(unit <= TWO_53);
        lemma_pow2_divides(excess_bits(product));
        let places = choose|places: nat| TWO_53 == #[trigger] (places * unit);
        let above = places * (99 * hundreds);
        assert(above * unit == TWO_53 * (99 * hundreds)) by (nonlinear_arith)
            requires
                above == places * (99 * hundreds),
                TWO_53 == places * unit,
        ;
        let rest = unit - 8 * hundreds;
        assert((above - 1) * unit == above * unit - unit) by (nonlinear_arith);
        assert(product == (above - 1) * unit + rest);
        lemma_fundamental_div_mod_converse(product as int, unit as int, above - 1, rest);
        assert(rounded == above * unit);
    }
    assert(rank * TWO_53 <= rounded < (rank + 1) * TWO_53);
}

proof fn lemma_pow2_divides(bits: nat)
    requires
        pow2(bits) <= TWO_53,
    ensures
        exists|places: nat| TWO_53 == #[trigger] (places * pow2(bits)),
{
    lemma2_to64_rest();
    if bits > 53 {
        lemma_pow2_strictly_increases(53, bits);
    }
    lemma_pow2_adds((53 - bits) as nat, bits);
    assert(TWO_53 == pow2((53 - bits) as nat) * pow2(bits));
}

/// Rounds a number to the nearest double.
fn round_to_double(x: u128) -> (rounded: u128)
    requires
        x <= 0x1000_0000_0000_0000_0000_0000_0000_0000,
    ensures
        rounded == nearest_double(x as nat),
{
    let mut unit: u128 = 1;
    let mut below: u128 = x;
    let ghost mut bits: nat = 0;
    proof {
        lemma2_to64();
    }
    while below >= TWO_53 as u128
        invariant
            x <= 0x1000_0000_0000_0000_0000_0000_0000_0000,
            unit == pow2(bits),
            unit >= 1,
            below == x / unit,
            excess_bits(x as nat) == bits + excess_bits(below as nat),
        decreases below,
    {
        proof {
            lemma_fundamental_div_mod(x as int, unit as int);
            assert(unit <= x) by (nonlinear_arith)
                requires
                    x == unit * below + x % unit,
                    below >= 1,
                    x % unit >= 0,
            ;
            lemma_div_denominator(x as int, unit as int, 2);
            lemma_pow2_unfold(bits + 1);
            bits = bits + 1;
        }
        unit = unit * 2;
        below = below / 2;
    }
    proof {
        lemma_nearest_double(x as nat);
        lemma_fundamental_div_mod(x as int, unit as int);
        assert(below * unit == unit * below) by (nonlinear_arith);
        assert((below + 1) * unit == unit * below + unit) by (nonlinear_arith);
    }
    let rest: u128 = x % unit;
    if rest < unit - rest || (rest == unit - rest && below % 2 == 0) {
        below * unit
    } else {
        (below + 1) * unit
    }
}

/// Computes the rank of the 99th percentile in a sample of `count` values.
pub fn rank_of_p99(count: u64) -> (rank: u64)
    ensures
        rank == p99_rank(count as nat),
{
    let size: u128 = round_to_double(count as u128);
    proof {
        lemma_nearest_double(count as nat);
        assert(size <= 0x1_0000_0000_0000_1000);
        assert(size * DOUBLE_099 <= 0x1_0000_0000_0000_1000 * DOUBLE_099) by (nonlinear_arith)
            requires
                size <= 0x1_0000_0000_0000_1000,
        ;
    }
    let product: u128 = size * DOUBLE_099 as u128;
    let rounded: u128 = round_to_double(product);
    proof {
        lemma_nearest_double(product as nat);
        if count > 0 {
            law_p99_rank_in_sample(count as nat);
        }
    }
    (rounded / TWO_53 as u128) as u64
}

/// Where `x` lies between the powers of two that doubles with this last place span, the nearest
/// double is a multiple of the last place, no other multiple is nearer to `x`, and half-way
/// between two multiples it is the even one.
pub proof fn law_no_double_is_nearer(x: nat, bits: nat, other: int)
    requires
        x < 9007199254740992 * pow2(bits),
        bits > 0 ==> 4503599627370496 * pow2(bits) <= x,
    ensures
        nearest_double(x) % pow2(bits) == 0,
        nearest_double(x) - x <= (if other * pow2(bits) >= x {
            other * pow2(bits) - x
        } else {
            x - other * pow2(bits)
        }),
        x - nearest_double(x) <= (if other * pow2(bits) >= x {
            other * pow2(bits) - x
        } else {
            x - other * pow2(bits)
        }),
        2 * (x % pow2(bits)) == pow2(bits) ==> (nearest_double(x) / pow2(bits)) % 2 == 0,
{
    lemma_last_place_bits(x, bits);
    let unit = pow2(bits) as int;
    lemma_pow2_pos(bits);
    lemma_fundamental_div_mod(x as int, unit);
    let below = x as int / unit;
    let rest = x as int % unit;
    let up = 2 * rest >= unit && !(2 * rest == unit && below % 2 == 0);
    let quotient = if up { below + 1 } else { below };
    assert(nearest_double(x) == quotient * unit);
    lemma_fundamental_div_mod_converse(quotient * unit, unit, quotient, 0);
    assert(quotient * unit == unit * below + (if up { unit } else { 0 })) by (nonlinear_arith)
        requires
            quotient == (if up { below + 1 } else { below }),
    ;
    if other <= below {
        assert(other * unit <= unit * below) by (nonlinear_arith)
            requires
                other <= below,
                unit > 0,
        ;
    } else {
        assert(other * unit >= unit * below + unit) by (nonlinear_arith)
            requires
                other >= below + 1,
                unit > 0,
        ;
    }
}

/// The last place of a double follows from between which powers of two it lies.
proof fn lemma_last_place_bits(x: nat, bits: nat)
    requires
        x < 9007199254740992 * pow2(bits),
        bits > 0 ==> 4503599627370496 * pow2(bits) <= x,
    ensures
        excess_bits(x) == bits,
{
    let excess = excess_bits(x);
    lemma_last_place(x);
    lemma2_to64();
    if x < TWO_53 {
        if bits > 0 {
            lemma_pow2_strictly_increases(0, bits);
        }
    } else {
        if bits < excess {
            if bits + 1 < excess {
                lemma_pow2_strictly_increases(bits + 1, excess);
            }
            lemma_pow2_unfold(bits + 1);
        }
        if excess < bits {
            if excess + 1 < bits {
                lemma_pow2_strictly_increases(excess + 1, bits);
            }
            lemma_pow2_unfold(excess + 1);
        }
    }
}

/// The rank is the product of the two doubles, rounded to a double, without the fraction.
pub proof fn law_p99_rank_cuts_the_product(count: nat)
    ensures
        9007199254740992 * p99_rank(count) <= nearest_double(
            nearest_double(count) * 8917127262193582,
        ),
        nearest_double(nearest_double(count) * 8917127262193582) < 9007199254740992 * (p99_rank(
            count,
        ) + 1),
{
}

} // verus!
