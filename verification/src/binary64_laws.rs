//! Laws of rounding to binary64: what the rounded value is bounded by, and
//! that no binary64 value is nearer to the exact one.

use crate::binary64::{
    distance, error, floor_log2, nearest_binary64, round_ties_even, shifted, significand, Dyadic,
};
use vstd::arithmetic::div_mod::*;
use vstd::arithmetic::mul::*;
use vstd::arithmetic::power2::*;
use vstd::prelude::*;
use vstd::std_specs::bits::u64_leading_zeros;

verus! {

/// A positive number lies in the binade that its logarithm names:
/// `2^e <= x < 2^(e+1)` for `e == floor_log2(x)`.
pub proof fn lemma_floor_log2_bounds(x: nat)
    requires
        x >= 1,
    ensures
        pow2(floor_log2(x)) <= x < pow2(floor_log2(x) + 1),
    decreases x,
{
    lemma2_to64();
    if x >= 2 {
        lemma_floor_log2_bounds(x / 2);
        let e = floor_log2(x / 2);
        lemma_pow2_unfold(e + 1);
        lemma_pow2_unfold(e + 2);
    }
}

/// A positive number below `2^t` has a logarithm below `t`.
pub proof fn lemma_floor_log2_below(x: nat, t: nat)
    requires
        1 <= x < pow2(t),
    ensures
        floor_log2(x) < t,
{
    lemma_floor_log2_bounds(x);
    if floor_log2(x) > t {
        lemma_pow2_strictly_increases(t, floor_log2(x));
    }
}

/// Rounding to the nearest integer does not fall below an integer that the
/// quotient reaches.
pub proof fn lemma_round_ties_even_at_least(n: nat, d: nat, lo: nat)
    requires
        d > 0,
        lo * d <= n,
    ensures
        lo <= round_ties_even(n, d),
{
    let q = n / d;
    let r = n % d;
    lemma_fundamental_div_mod(n as int, d as int);
    lemma_mod_pos_bound(n as int, d as int);
    assert(lo <= q) by (nonlinear_arith)
        requires
            d > 0,
            lo * d <= n,
            n == d * q + r,
            0 <= r < d,
    ;
}

/// Rounding to the nearest integer does not rise above an integer that
/// bounds the quotient.
pub proof fn lemma_round_ties_even_at_most(n: nat, d: nat, hi: nat)
    requires
        d > 0,
        n <= hi * d,
    ensures
        round_ties_even(n, d) <= hi,
{
    let q = n / d;
    let r = n % d;
    lemma_fundamental_div_mod(n as int, d as int);
    lemma_mod_pos_bound(n as int, d as int);
    assert(q < hi || (q == hi && r == 0)) by (nonlinear_arith)
        requires
            d > 0,
            n <= hi * d,
            n == d * q + r,
            0 <= r < d,
    ;
}

/// No integer is nearer to the quotient than the rounded one, and where
/// another is as near, the rounded one is even.
pub proof fn lemma_round_ties_even_is_nearest(n: nat, d: nat, other: int)
    requires
        d > 0,
    ensures
        ({
            let rounded = round_ties_even(n, d) as int;
            &&& distance(n as int, rounded * d) <= distance(n as int, other * d)
            &&& other != rounded && distance(n as int, rounded * d) == distance(
                n as int,
                other * d,
            ) ==> rounded % 2 == 0
        }),
{
    let q = (n / d) as int;
    let r = (n % d) as int;
    lemma_fundamental_div_mod(n as int, d as int);
    lemma_mod_pos_bound(n as int, d as int);
    assert(q * d == n - r && (q + 1) * d == n - r + d) by (nonlinear_arith)
        requires
            n == d * q + r,
    ;
    if other <= q - 1 {
        assert(other * d <= n - r - d) by (nonlinear_arith)
            requires
                other <= q - 1,
                d > 0,
                q * d == n - r,
        ;
    } else if other >= q + 2 {
        assert(other * d >= n - r + 2 * d) by (nonlinear_arith)
            requires
                other >= q + 2,
                d > 0,
                q * d == n - r,
        ;
    }
}

/// The quotient lies in its binade: `2^e * d <= n < 2^(e+1) * d` for
/// `e == floor_log2(n / d)`.
pub proof fn lemma_quotient_binade(n: nat, d: nat)
    requires
        0 < d <= n,
    ensures
        n / d >= 1,
        pow2(floor_log2(n / d)) * d <= n < pow2(floor_log2(n / d) + 1) * d,
{
    let x = n / d;
    let r = n % d;
    lemma_fundamental_div_mod(n as int, d as int);
    lemma_mod_pos_bound(n as int, d as int);
    assert(x >= 1) by (nonlinear_arith)
        requires
            0 < d <= n,
            n == d * x + r,
            0 <= r < d,
    ;
    lemma_floor_log2_bounds(x);
    let lo = pow2(floor_log2(x));
    let hi = pow2(floor_log2(x) + 1);
    assert(lo * d <= n < hi * d) by (nonlinear_arith)
        requires
            lo <= x < hi,
            n == d * x + r,
            0 <= r < d,
    ;
}

/// Scaled by the spacing of its binade, the quotient becomes a significand:
/// it lies between `2^52` and `2^53`.
pub proof fn lemma_scaled_to_significand(n: nat, d: nat)
    requires
        0 < d <= n,
    ensures
        ({
            let e = floor_log2(n / d);
            &&& e <= 52 ==> pow2(52) * d <= n * pow2((52 - e) as nat) < pow2(53) * d
            &&& e > 52 ==> d * pow2((e - 52) as nat) > 0 && pow2(52) * (d * pow2((e - 52) as nat))
                <= n < pow2(53) * (d * pow2((e - 52) as nat))
        }),
{
    let e = floor_log2(n / d);
    lemma_quotient_binade(n, d);
    let lo = pow2(e);
    let hi = pow2(e + 1);
    if e <= 52 {
        let up = (52 - e) as nat;
        let p = pow2(up);
        lemma_pow2_adds(e, up);
        lemma_pow2_adds(e + 1, up);
        lemma_pow2_pos(up);
        assert(pow2(52) * d <= n * p < pow2(53) * d) by (nonlinear_arith)
            requires
                lo * d <= n < hi * d,
                pow2(52) == lo * p,
                pow2(53) == hi * p,
                p > 0,
        ;
    } else {
        let down = (e - 52) as nat;
        let p = pow2(down);
        lemma_pow2_adds(52, down);
        lemma_pow2_adds(53, down);
        lemma_pow2_pos(down);
        assert(pow2(52) * (d * p) <= n < pow2(53) * (d * p)) by (nonlinear_arith)
            requires
                lo * d <= n < hi * d,
                lo == pow2(52) * p,
                hi == pow2(53) * p,
        ;
        assert(d * p > 0) by (nonlinear_arith)
            requires
                d > 0,
                p > 0,
        ;
    }
}

/// The rounded value stays in the binade of the exact one, its upper end
/// included: the significand lies between `2^52` and `2^53`.
pub proof fn lemma_nearest_binary64_binade(n: nat, d: nat)
    requires
        0 < d <= n,
    ensures
        ({
            let e = floor_log2(n / d);
            let r = nearest_binary64(n, d);
            &&& e <= 52 ==> r.scale == 52 - e && pow2(52) <= r.num <= pow2(53)
            &&& e > 52 ==> r.scale == 0 && pow2(e) <= r.num <= pow2(e + 1)
        }),
{
    let e = floor_log2(n / d);
    lemma_scaled_to_significand(n, d);
    if e <= 52 {
        let p = pow2((52 - e) as nat);
        lemma_round_ties_even_at_least(n * p, d, pow2(52));
        lemma_round_ties_even_at_most(n * p, d, pow2(53));
    } else {
        let down = (e - 52) as nat;
        let p = pow2(down);
        lemma_pow2_adds(52, down);
        lemma_pow2_adds(53, down);
        lemma_round_ties_even_at_least(n, d * p, pow2(52));
        lemma_round_ties_even_at_most(n, d * p, pow2(53));
        let m = round_ties_even(n, d * p);
        assert(pow2(e) <= m * p <= pow2(e + 1)) by (nonlinear_arith)
            requires
                pow2(52) <= m <= pow2(53),
                pow2(e) == pow2(52) * p,
                pow2(e + 1) == pow2(53) * p,
        ;
    }
}

/// Rounding to binary64 does not fall below an integer of at most 53 bits
/// that the exact quotient reaches; nor does truncating the rounded value.
pub proof fn lemma_nearest_binary64_at_least(n: nat, d: nat, a: nat)
    requires
        d > 0,
        1 <= a <= pow2(53),
        a * d <= n,
    ensures
        a * pow2(nearest_binary64(n, d).scale) <= nearest_binary64(n, d).num,
        a <= nearest_binary64(n, d).floor(),
{
    assert(d <= n) by (nonlinear_arith)
        requires
            d > 0,
            1 <= a,
            a * d <= n,
    ;
    let e = floor_log2(n / d);
    lemma_nearest_binary64_binade(n, d);
    if e <= 52 {
        let p = pow2((52 - e) as nat);
        lemma_pow2_pos((52 - e) as nat);
        assert((a * p) * d <= n * p) by (nonlinear_arith)
            requires
                a * d <= n,
                p > 0,
        ;
        lemma_round_ties_even_at_least(n * p, d, a * p);
        let m = round_ties_even(n * p, d);
        lemma_div_is_ordered((a * p) as int, m as int, p as int);
        lemma_div_by_multiple(a as int, p as int);
    } else {
        if e > 53 {
            lemma_pow2_strictly_increases(53, e);
        }
        lemma2_to64();
    }
}

/// Rounding to binary64 does not rise above an integer of at most 53 bits
/// that bounds the exact quotient.
pub proof fn lemma_nearest_binary64_at_most(n: nat, d: nat, a: nat)
    requires
        0 < d <= n,
        a <= pow2(53),
        n <= a * d,
    ensures
        nearest_binary64(n, d).num <= a * pow2(nearest_binary64(n, d).scale),
{
    let e = floor_log2(n / d);
    lemma_scaled_to_significand(n, d);
    if e <= 52 {
        let p = pow2((52 - e) as nat);
        assert(n * p <= (a * p) * d) by (nonlinear_arith)
            requires
                n <= a * d,
        ;
        lemma_round_ties_even_at_most(n * p, d, a * p);
    } else {
        // Only `2^53` itself is left: a quotient in a higher binade
        // exceeds every integer of 53 bits.
        let p = pow2((e - 52) as nat);
        lemma_pow2_adds(52, (e - 52) as nat);
        assert(pow2(52) * p <= a) by (nonlinear_arith)
            requires
                pow2(52) * (d * p) <= n <= a * d,
                d > 0,
        ;
        if e > 53 {
            lemma_pow2_strictly_increases(53, e);
        }
        lemma2_to64();
        assert(e == 53 && p == 2 && a == pow2(53));
        assert(n <= pow2(52) * (d * p)) by (nonlinear_arith)
            requires
                n <= a * d,
                a == pow2(52) * p,
        ;
        lemma_round_ties_even_at_most(n, d * p, pow2(52));
        assert(a * pow2(0) == a);
    }
}

/// An integer of at most 53 bits is a binary64 value: rounding returns it.
pub proof fn lemma_nearest_binary64_of_integer(a: nat, d: nat)
    requires
        d > 0,
        1 <= a <= pow2(53),
    ensures
        nearest_binary64(a * d, d).num == a * pow2(nearest_binary64(a * d, d).scale),
        nearest_binary64(a * d, d).floor() == a,
{
    assert(d <= a * d) by (nonlinear_arith)
        requires
            d > 0,
            1 <= a,
    ;
    lemma_nearest_binary64_at_least(a * d, d, a);
    lemma_nearest_binary64_at_most(a * d, d, a);
    let scale = nearest_binary64(a * d, d).scale;
    lemma_pow2_pos(scale);
    lemma_div_by_multiple(a as int, pow2(scale) as int);
}

/// Two differences in a fixed ratio have distances in that ratio.
proof fn lemma_distance_scales(x1: int, y1: int, c1: nat, x2: int, y2: int, c2: nat)
    requires
        c1 > 0,
        c2 > 0,
        (x1 - y1) * c1 == (x2 - y2) * c2,
    ensures
        distance(x1, y1) * c1 == distance(x2, y2) * c2,
{
    assert((x1 <= y1) == (x2 <= y2)) by (nonlinear_arith)
        requires
            c1 > 0,
            c2 > 0,
            (x1 - y1) * c1 == (x2 - y2) * c2,
    ;
    assert((y1 - x1) * c1 == (y2 - x2) * c2) by (nonlinear_arith)
        requires
            (x1 - y1) * c1 == (x2 - y2) * c2,
    ;
}

/// Among the binary64 values, none is nearer to a quotient than the
/// multiple of the spacing `2^a / 2^b` of its binade that is nearest to it.
/// The other value is `m * 2^k / 2^ws`.
proof fn lemma_grid_is_nearest(n: nat, d: nat, a: nat, b: nat, m: nat, k: nat, ws: nat)
    requires
        d > 0,
        m <= pow2(53),
        pow2(52) * (d * pow2(a)) <= n * pow2(b),
    ensures
        ({
            let r = round_ties_even(n * pow2(b), d * pow2(a));
            let err_r = distance((n * pow2(b)) as int, (r * (d * pow2(a))) as int);
            let err_w = distance((n * pow2(ws)) as int, (shifted(m, k) * d) as int);
            &&& err_r * pow2(ws) <= err_w * pow2(b)
            &&& err_r * pow2(ws) == err_w * pow2(b) && shifted(m, k) * pow2(b) != (r * pow2(a))
                * pow2(ws) ==> r % 2 == 0
        }),
{
    let pa = pow2(a);
    let pb = pow2(b);
    let pk = pow2(k);
    let ps = pow2(ws);
    let big_n = n * pb;
    let big_d = d * pa;
    let wn = m * pk;
    let low = pow2(52);
    let r = round_ties_even(big_n, big_d);
    let err_r = distance(big_n as int, (r * big_d) as int);
    let err_w = distance((n * ps) as int, (wn * d) as int);
    lemma_pow2_pos(a);
    lemma_pow2_pos(b);
    lemma_pow2_pos(k);
    lemma_pow2_pos(ws);
    lemma_pow2_adds(k, b);
    lemma_pow2_adds(ws, a);
    assert(big_d > 0) by (nonlinear_arith)
        requires
            big_d == d * pa,
            d > 0,
            pa > 0,
    ;
    if k + b >= ws + a {
        // The other value is a multiple of the spacing too.
        let j = (k + b - ws - a) as nat;
        let pj = pow2(j);
        lemma_pow2_adds(j, ws + a);
        let w = m * pj;
        assert(wn * pb == w * (ps * pa)) by (nonlinear_arith)
            requires
                wn == m * pk,
                w == m * pj,
                pk * pb == pj * (ps * pa),
        ;
        assert((wn * d) * pb == (w * big_d) * ps) by (nonlinear_arith)
            requires
                wn * pb == w * (ps * pa),
                big_d == d * pa,
        ;
        assert((n * ps) * pb == big_n * ps) by (nonlinear_arith)
            requires
                big_n == n * pb,
        ;
        lemma_mul_is_distributive_sub_other_way(pb as int, (n * ps) as int, (wn * d) as int);
        lemma_mul_is_distributive_sub_other_way(ps as int, big_n as int, (w * big_d) as int);
        lemma_distance_scales(
            (n * ps) as int,
            (wn * d) as int,
            pb,
            big_n as int,
            (w * big_d) as int,
            ps,
        );
        lemma_round_ties_even_is_nearest(big_n, big_d, w as int);
        let err_g = distance(big_n as int, (w * big_d) as int);
        assert(err_r * ps <= err_g * ps && (err_r * ps == err_g * ps ==> err_r == err_g))
            by (nonlinear_arith)
            requires
                err_r <= err_g,
                ps > 0,
        ;
        assert(w == r ==> wn * pb == (r * pa) * ps) by (nonlinear_arith)
            requires
                wn * pb == w * (ps * pa),
        ;
    } else {
        // The other value is so fine that it lies at or below the lower
        // end of the binade.
        lemma_pow2_unfold(53);
        lemma_pow2_unfold(ws + a);
        if k + b + 1 < ws + a {
            lemma_pow2_strictly_increases(k + b, (ws + a - 1) as nat);
        }
        assert(wn * pb <= low * (ps * pa)) by (nonlinear_arith)
            requires
                wn == m * pk,
                m <= 2 * low,
                2 * (pk * pb) <= ps * pa,
                pb > 0,
                pk > 0,
        ;
        lemma_round_ties_even_is_nearest(big_n, big_d, low as int);
        assert(err_r <= big_n - low * big_d);
        assert((wn * d) * pb <= (low * big_d) * ps) by (nonlinear_arith)
            requires
                wn * pb <= low * (ps * pa),
                big_d == d * pa,
                d > 0,
        ;
        assert(wn * d <= n * ps) by (nonlinear_arith)
            requires
                (wn * d) * pb <= (low * big_d) * ps,
                low * big_d <= big_n,
                big_n == n * pb,
                pb > 0,
                ps > 0,
        ;
        assert(err_w * pb - (big_n - low * big_d) * ps == (low * big_d) * ps - (wn * d) * pb)
            by (nonlinear_arith)
            requires
                err_w == n * ps - wn * d,
                big_n == n * pb,
        ;
        assert(err_r * ps <= (big_n - low * big_d) * ps && (err_r * ps == (big_n - low * big_d)
            * ps ==> err_r == big_n - low * big_d)) by (nonlinear_arith)
            requires
                err_r <= big_n - low * big_d,
                ps > 0,
        ;
        if err_r * ps == err_w * pb && r == low {
            assert(wn * pb == (r * pa) * ps) by (nonlinear_arith)
                requires
                    (wn * d) * pb == (low * big_d) * ps,
                    big_d == d * pa,
                    d > 0,
                    r == low,
            ;
        }
    }
}

/// The rounded value is a binary64 value.
pub proof fn lemma_nearest_binary64_is_binary64(n: nat, d: nat)
    requires
        0 < d <= n,
    ensures
        nearest_binary64(n, d).is_binary64(),
{
    let e = floor_log2(n / d);
    lemma_nearest_binary64_binade(n, d);
    lemma_scaled_to_significand(n, d);
    lemma2_to64();
    if e <= 52 {
        assert(nearest_binary64(n, d).num == shifted(significand(n, d), 0));
    } else {
        let down = (e - 52) as nat;
        lemma_round_ties_even_at_most(n, d * pow2(down), pow2(53));
        assert(nearest_binary64(n, d).num == shifted(significand(n, d), down));
    }
}

/// No binary64 value is nearer to the quotient than the rounded one, and
/// where another is as near, the rounded one has an even significand.
pub proof fn lemma_nearest_binary64_is_nearest(n: nat, d: nat, other: Dyadic)
    requires
        0 < d <= n,
        other.is_binary64(),
    ensures
        ({
            let rounded = nearest_binary64(n, d);
            &&& error(n, d, rounded) * pow2(other.scale) <= error(n, d, other) * pow2(
                rounded.scale,
            )
            &&& error(n, d, rounded) * pow2(other.scale) == error(n, d, other) * pow2(
                rounded.scale,
            ) && !rounded.same_value(other) ==> significand(n, d) % 2 == 0
        }),
{
    let e = floor_log2(n / d);
    let rounded = nearest_binary64(n, d);
    let (m, k) = choose|m: nat, k: nat| m <= pow2(53) && other.num == #[trigger] shifted(m, k);
    lemma_scaled_to_significand(n, d);
    lemma2_to64();
    let r = significand(n, d);
    if e <= 52 {
        let up = (52 - e) as nat;
        assert(d * pow2(0) == d);
        lemma_grid_is_nearest(n, d, 0, up, m, k, other.scale);
        assert(r * pow2(0) == r);
    } else {
        let down = (e - 52) as nat;
        assert(n * pow2(0) == n);
        lemma_grid_is_nearest(n, d, down, 0, m, k, other.scale);
        assert((r * pow2(down)) * d == r * (d * pow2(down))) by (nonlinear_arith);
        assert(error(n, d, rounded) * pow2(other.scale) == error(n, d, other) * pow2(0)
            ==> error(n, d, rounded) * pow2(other.scale) == error(n, d, other));
    }
}

/// The leading zeros of a positive 64-bit word give its logarithm.
pub proof fn lemma_leading_zeros_is_floor_log2(x: u64)
    requires
        x >= 1,
    ensures
        u64_leading_zeros(x) == 63 - floor_log2(x as nat),
    decreases x,
{
    reveal(u64_leading_zeros);
    if x >= 2 {
        lemma_leading_zeros_is_floor_log2(x / 2);
    } else {
        assert(u64_leading_zeros(0) == 64);
    }
}

} // verus!
