//! Rounding of positive rationals to IEEE 754 binary64, on integers.
//!
//! A binary64 number carries 53 significant bits. Between `2^e` and
//! `2^(e+1)` the representable values are the multiples of `2^(e-52)`, and
//! an arithmetic operation returns the representable value nearest to the
//! exact result, the one with an even significand where two are equally
//! near. This module states that rule for a quotient of two naturals that
//! is at least 1, and computes it with integer arithmetic only.

use crate::binary64_laws::{
    lemma_floor_log2_below, lemma_leading_zeros_is_floor_log2, lemma_quotient_binade,
    lemma_round_ties_even_at_most, lemma_scaled_to_significand,
};
use vstd::arithmetic::div_mod::lemma_basic_div;
use vstd::arithmetic::power2::*;
use vstd::prelude::*;

verus! {

/// Number of significant bits of a binary64 value, less one.
pub const FRACTION_BITS: u32 = 52;

/// A non-negative dyadic rational, `num / 2^scale`.
pub struct Dyadic {
    pub num: nat,
    pub scale: nat,
}

impl Dyadic {
    /// The integer part of the value.
    pub open spec fn floor(self) -> nat {
        self.num / pow2(self.scale)
    }

    /// Whether binary64 holds the value: whether it is a significand of at
    /// most 53 bits times a power of two. The range of the exponent is
    /// left aside.
    pub open spec fn is_binary64(self) -> bool {
        exists|m: nat, k: nat| m <= pow2(53) && self.num == #[trigger] shifted(m, k)
    }

    /// Whether two dyadic rationals are the same number.
    pub open spec fn same_value(self, other: Dyadic) -> bool {
        self.num * pow2(other.scale) == other.num * pow2(self.scale)
    }
}

/// `m * 2^k`.
pub open spec fn shifted(m: nat, k: nat) -> nat {
    m * pow2(k)
}

/// Position of the highest set bit of `x`, that is `floor(log2(x))`, and 0
/// for `x == 0`.
pub open spec fn floor_log2(x: nat) -> nat
    decreases x,
{
    if x < 2 {
        0
    } else {
        1 + floor_log2(x / 2)
    }
}

/// The integer nearest to `n / d`; of two equally near, the even one.
pub open spec fn round_ties_even(n: nat, d: nat) -> nat
    recommends
        d > 0,
{
    let q = n / d;
    let r = n % d;
    if 2 * r < d || (2 * r == d && q % 2 == 0) {
        q
    } else {
        q + 1
    }
}

/// The distance between two integers.
pub open spec fn distance(x: int, y: int) -> nat {
    if x <= y {
        (y - x) as nat
    } else {
        (x - y) as nat
    }
}

/// How far `v` is from `n / d`, in units of `1 / (d * 2^v.scale)`.
pub open spec fn error(n: nat, d: nat, v: Dyadic) -> nat {
    distance((n * pow2(v.scale)) as int, (v.num * d) as int)
}

/// The significand of the binary64 value nearest to `n / d`, for
/// `n / d >= 1`: with `2^e <= n / d < 2^(e+1)`, the quotient in units of
/// `2^(e-52)`, rounded to the nearest integer, ties to even.
pub open spec fn significand(n: nat, d: nat) -> nat
    recommends
        0 < d <= n,
{
    let e = floor_log2(n / d);
    if e <= FRACTION_BITS {
        round_ties_even(n * pow2((FRACTION_BITS - e) as nat), d)
    } else {
        round_ties_even(n, d * pow2((e - FRACTION_BITS) as nat))
    }
}

/// The binary64 value nearest to `n / d`, ties to even, for `n / d >= 1`:
/// with `2^e <= n / d < 2^(e+1)`, the significand times `2^(e-52)`.
/// Exponent overflow is not modelled.
pub open spec fn nearest_binary64(n: nat, d: nat) -> Dyadic
    recommends
        0 < d <= n,
{
    let e = floor_log2(n / d);
    if e <= FRACTION_BITS {
        Dyadic { num: significand(n, d), scale: (FRACTION_BITS - e) as nat }
    } else {
        Dyadic { num: significand(n, d) * pow2((e - FRACTION_BITS) as nat), scale: 0 }
    }
}
/// A rounded quotient as the machine holds it; its view is the dyadic
/// rational `num / 2^scale`.
#[derive(Clone, Copy, Debug)]
pub struct Rounded {
    pub num: u128,
    pub scale: u32,
}

impl View for Rounded {
    type V = Dyadic;

    open spec fn view(&self) -> Dyadic {
        Dyadic { num: self.num as nat, scale: self.scale as nat }
    }
}

impl Rounded {
    /// The integer part of the value.
    pub fn floor(&self) -> (f: u128)
        ensures
            f == self@.floor(),
    {
        if self.scale >= 128 {
            proof {
                lemma2_to64();
                lemma_pow2_adds(64, 64);
                if self.scale > 128 {
                    lemma_pow2_strictly_increases(128, self.scale as nat);
                }
                lemma_basic_div(self.num as int, pow2(self.scale as nat) as int);
            }
            0
        } else {
            proof {
                vstd::bits::lemma_u128_shr_is_div(self.num, self.scale as u128);
            }
            self.num >> self.scale
        }
    }
}

/// `2^k` as a machine integer.
pub fn power_of_two(k: u32) -> (p: u128)
    requires
        k < 64,
    ensures
        p == pow2(k as nat),
{
    proof {
        vstd::bits::lemma_u64_pow2_no_overflow(k as nat);
        vstd::bits::lemma_u64_shl_is_mul(1, k as u64);
    }
    (1u64 << k) as u128
}

/// Divides and rounds to the nearest integer, ties to even.
pub fn round_quotient(n: u128, d: u128) -> (m: u128)
    requires
        d > 0,
        n / d < u128::MAX,
    ensures
        m == round_ties_even(n as nat, d as nat),
{
    let q: u128 = n / d;
    let r: u128 = n % d;
    let rest: u128 = d - r;
    if r < rest || (r == rest && q % 2 == 0) {
        q
    } else {
        q + 1
    }
}

/// Rounds `n / d` to the nearest binary64 value.
pub fn round_to_binary64(n: u128, d: u128) -> (r: Rounded)
    requires
        0 < d <= n,
        d <= u64::MAX,
        n / d <= u64::MAX,
    ensures
        r@ == nearest_binary64(n as nat, d as nat),
{
    let x: u64 = (n / d) as u64;
    proof {
        lemma2_to64();
        lemma2_to64_rest();
        lemma_quotient_binade(n as nat, d as nat);
        lemma_leading_zeros_is_floor_log2(x);
        lemma_floor_log2_below(x as nat, 64);
        lemma_scaled_to_significand(n as nat, d as nat);
    }
    let e: u32 = 63 - x.leading_zeros();
    if e <= FRACTION_BITS {
        let up: u32 = FRACTION_BITS - e;
        let p: u128 = power_of_two(up);
        proof {
            assert(pow2(53) * d < 0x1_0000_0000_0000_0000_0000_0000_0000_0000) by (nonlinear_arith)
                requires
                    pow2(53) == 0x20_0000_0000_0000,
                    d <= 0xffff_ffff_ffff_ffff,
            ;
            lemma_round_ties_even_at_most(n as nat * p as nat, d as nat, pow2(53));
        }
        let num: u128 = round_quotient(n * p, d);
        Rounded { num, scale: up }
    } else {
        let down: u32 = e - FRACTION_BITS;
        let p: u128 = power_of_two(down);
        proof {
            if down < 11 {
                lemma_pow2_strictly_increases(down as nat, 11);
            }
            assert(d * p <= 0xffff_ffff_ffff_ffff * 0x800) by (nonlinear_arith)
                requires
                    p <= 0x800,
                    d <= 0xffff_ffff_ffff_ffff,
            ;
            lemma_round_ties_even_at_most(n as nat, d as nat * p as nat, pow2(53));
        }
        let m: u128 = round_quotient(n, d * p);
        proof {
            assert(m * p <= 0x20_0000_0000_0000 * 0x800) by (nonlinear_arith)
                requires
                    p <= 0x800,
                    m <= 0x20_0000_0000_0000,
            ;
        }
        Rounded { num: m * p, scale: 0 }
    }
}

} // verus!
