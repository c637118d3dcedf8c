//! The jump consistent hash.
//!
//! A key drives a linear congruential generator. Each state of the
//! generator yields a jump distance, and with it the next bucket that the
//! key would move to if there were enough buckets. The key belongs to the
//! last bucket of that sequence that exists.

use crate::binary64::{
    floor_log2, nearest_binary64, power_of_two, round_to_binary64, Dyadic, Rounded,
};
use crate::binary64_laws::{
    lemma_floor_log2_below, lemma_nearest_binary64_at_least, lemma_nearest_binary64_at_most,
    lemma_nearest_binary64_binade, lemma_quotient_binade,
};
use vstd::arithmetic::div_mod::*;
use vstd::arithmetic::power2::*;
use vstd::prelude::*;

verus! {

/// Multiplier of the linear congruential generator.
pub const MULTIPLIER: u64 = 2862933555777941757;

/// The largest number of buckets.
pub const MAX_BUCKETS: i32 = 0x7fff_ffff;

/// One step of the generator: `key * MULTIPLIER + 1` modulo `2^64`.
pub open spec fn lcg_step(key: u64) -> u64 {
    ((key * MULTIPLIER + 1) % 0x1_0000_0000_0000_0000) as u64
}

/// The 31 high bits of a generator state.
pub open spec fn random_bits(key: u64) -> nat {
    (key / 0x2_0000_0000) as nat
}

/// The factor by which a generator state moves a key on: the binary64
/// quotient `2^31 / (random_bits + 1)`, between 1 and `2^31`.
pub open spec fn jump_distance(key: u64) -> Dyadic {
    nearest_binary64(pow2(31), random_bits(key) + 1)
}

/// The bucket after `bucket` under the generator state `key`: the binary64
/// product of `bucket + 1` and the jump distance, truncated.
#[verifier::opaque]
pub open spec fn next_jump(bucket: int, key: u64) -> int {
    let distance = jump_distance(key);
    nearest_binary64((bucket + 1) as nat * distance.num, pow2(distance.scale)).floor() as int
}

/// The bucket that a key settles in, once it has reached `bucket` with the
/// generator in state `key`: it jumps on as long as the next bucket exists.
pub open spec fn bucket_from(key: u64, bucket: int, num_buckets: int) -> int
    decreases num_buckets - bucket,
    when 0 <= bucket < num_buckets <= MAX_BUCKETS
{
    let state = lcg_step(key);
    let next = next_jump(bucket, state);
    if next < num_buckets {
        proof {
            lemma_next_jump_advances(bucket, state);
        }
        bucket_from(state, next, num_buckets)
    } else {
        bucket
    }
}

/// The bucket of `key` among `num_buckets` buckets; bucket 0 where there is
/// no bucket at all.
pub open spec fn bucket_of(key: u64, num_buckets: i32) -> int {
    if num_buckets <= 0 {
        0
    } else {
        bucket_from(key, 0, num_buckets as int)
    }
}

/// The state of the generator after `steps` steps from `key`.
pub open spec fn state_at(key: u64, steps: nat) -> u64
    decreases steps,
{
    if steps == 0 {
        key
    } else {
        lcg_step(state_at(key, (steps - 1) as nat))
    }
}

/// The jump sequence of a key: the bucket it has reached after `jumps`
/// jumps from bucket 0. The sequence does not depend on the number of
/// buckets.
pub open spec fn visited(key: u64, jumps: nat) -> int
    decreases jumps,
{
    if jumps == 0 {
        0
    } else {
        next_jump(visited(key, (jumps - 1) as nat), state_at(key, jumps))
    }
}

/// Maps `key` to one of `num_buckets` buckets by jump consistent hashing.
///
/// A bucket count of zero or less is answered with bucket 0.
pub fn jump_hash(key: u64, num_buckets: i32) -> (bucket: i32)
    ensures
        bucket == bucket_of(key, num_buckets),
        num_buckets >= 1 ==> 0 <= bucket < num_buckets,
        num_buckets <= 0 ==> bucket == 0,
{
    if num_buckets <= 0 {
        return 0;
    }
    let ghost start: u64 = key;
    let ghost mut before: u64 = key;
    let mut key: u64 = key;
    let mut current_bucket: i64 = -1;
    let mut next_jump: i64 = 0;

    while next_jump < num_buckets as i64
        invariant
            1 <= num_buckets <= MAX_BUCKETS,
            -1 <= current_bucket < next_jump,
            current_bucket < num_buckets,
            current_bucket == -1 ==> next_jump == 0 && key == start,
            current_bucket >= 0 ==> {
                &&& key == lcg_step(before)
                &&& next_jump == self::next_jump(current_bucket as int, key)
                &&& bucket_from(before, current_bucket as int, num_buckets as int) == bucket_from(
                    start,
                    0,
                    num_buckets as int,
                )
            },
        decreases num_buckets - current_bucket,
    {
        proof {
            before = key;
        }
        current_bucket = next_jump;
        key = advance_key(key);
        next_jump = compute_next_jump(current_bucket, key);
    }
    proof {
        lemma_bucket_in_range(start, num_buckets);
    }
    current_bucket as i32
}

/// Advances the generator by one step.
pub fn advance_key(key: u64) -> (next: u64)
    ensures
        next == lcg_step(key),
{
    let product: u64 = key.wrapping_mul(MULTIPLIER);
    proof {
        let m: int = 0x1_0000_0000_0000_0000;
        lemma_add_mod_noop_right(1, key * MULTIPLIER, m);
        lemma_small_mod(1, m as nat);
        if product == u64::MAX {
            lemma_mod_self_0(m);
        } else {
            lemma_small_mod((product + 1) as nat, m as nat);
        }
    }
    product.wrapping_add(1)
}

/// Computes the jump distance of a generator state.
pub fn compute_jump_distance(key: u64) -> (distance: Rounded)
    ensures
        distance@ == jump_distance(key),
{
    let bits: u64 = key >> 33;
    assert(bits == key / 0x2_0000_0000 && bits < 0x8000_0000) by (bit_vector)
        requires
            bits == key >> 33,
    ;
    let d: u128 = (bits + 1) as u128;
    proof {
        lemma2_to64();
        lemma_div_nonincreasing(0x8000_0000, d as int);
    }
    round_to_binary64(0x8000_0000, d)
}

/// Computes the bucket after `bucket` under the generator state `key`.
pub fn compute_next_jump(bucket: i64, key: u64) -> (next: i64)
    requires
        0 <= bucket < MAX_BUCKETS,
    ensures
        next == next_jump(bucket as int, key),
        bucket < next,
{
    let distance: Rounded = compute_jump_distance(key);
    let count: u128 = (bucket + 1) as u128;
    proof {
        reveal(next_jump);
        lemma_jump_distance_bounds(key);
        lemma_next_jump_advances(bucket as int, key);
        lemma2_to64();
        lemma2_to64_rest();
        assert(count * distance.num <= 0x7fff_ffff * 0x20_0000_0000_0000) by (nonlinear_arith)
            requires
                count <= 0x7fff_ffff,
                distance.num <= 0x20_0000_0000_0000,
        ;
    }
    let n: u128 = count * distance.num;
    let d: u128 = power_of_two(distance.scale);
    proof {
        lemma_pow2_strictly_increases(distance.scale as nat, 53);
        assert(d <= n <= (count * pow2(31)) * d) by (nonlinear_arith)
            requires
                count >= 1,
                d <= distance.num <= pow2(31) * d,
                n == count * distance.num,
        ;
        lemma_product_below(n as nat, d as nat, count as nat);
    }
    let product: Rounded = round_to_binary64(n, d);
    product.floor() as i64
}

/// The bucket of a key is one of the buckets: `0 <= bucket < num_buckets`.
pub proof fn lemma_bucket_in_range(key: u64, num_buckets: i32)
    requires
        num_buckets >= 1,
    ensures
        0 <= bucket_of(key, num_buckets) < num_buckets,
{
    lemma_bucket_from_range(key, 0, num_buckets as int);
}

/// Without buckets every key is given bucket 0.
pub proof fn lemma_bucket_without_buckets(key: u64, num_buckets: i32)
    requires
        num_buckets <= 0,
    ensures
        bucket_of(key, num_buckets) == 0,
{
}

/// The bucket of a key does not decrease when buckets are added.
pub proof fn lemma_growth_is_monotonic(key: u64, fewer: i32, more: i32)
    requires
        1 <= fewer < more,
    ensures
        bucket_of(key, fewer) <= bucket_of(key, more),
{
    lemma_growth_moves_to_new_buckets(key, fewer, more);
    lemma_bucket_in_range(key, fewer);
}

/// When buckets are added, a key stays in its bucket or moves to one of
/// the new buckets; it never moves between the buckets that were there.
pub proof fn lemma_growth_moves_to_new_buckets(key: u64, fewer: i32, more: i32)
    requires
        1 <= fewer <= more,
    ensures
        bucket_of(key, more) == bucket_of(key, fewer) || bucket_of(key, more) >= fewer,
{
    lemma_bucket_from_growth(key, 0, fewer as int, more as int);
}

/// The bucket of a key is the last bucket of its jump sequence that
/// exists. The result is the index of that bucket in the sequence.
pub proof fn lemma_bucket_is_last_visited(key: u64, num_buckets: i32) -> (last: nat)
    requires
        num_buckets >= 1,
    ensures
        visited(key, last) == bucket_of(key, num_buckets),
        visited(key, last) < num_buckets <= visited(key, last + 1),
{
    lemma_bucket_from_is_last_visited(key, 0, num_buckets as int)
}

/// Each jump moves forward: the next bucket lies beyond the present one,
/// and below `2^62`.
pub proof fn lemma_next_jump_advances(bucket: int, key: u64)
    requires
        0 <= bucket < MAX_BUCKETS,
    ensures
        bucket < next_jump(bucket, key) <= 0x4000_0000_0000_0000,
{
    reveal(next_jump);
    let distance = jump_distance(key);
    let a = (bucket + 1) as nat;
    let n = a * distance.num;
    let d = pow2(distance.scale);
    lemma_jump_distance_bounds(key);
    lemma2_to64();
    lemma2_to64_rest();
    lemma_pow2_pos(distance.scale);
    assert(d <= a * d <= n <= (a * pow2(31)) * d) by (nonlinear_arith)
        requires
            a >= 1,
            d <= distance.num <= pow2(31) * d,
            n == a * distance.num,
    ;
    lemma_nearest_binary64_at_least(n, d, a);
    lemma_product_below(n, d, a);
}

/// A jump distance is a binary64 value between 1 and `2^31`, held with a
/// full significand.
pub proof fn lemma_jump_distance_bounds(key: u64)
    ensures
        ({
            let distance = jump_distance(key);
            &&& 21 <= distance.scale <= 52
            &&& pow2(52) <= distance.num <= pow2(53)
            &&& pow2(distance.scale) <= distance.num <= pow2(31) * pow2(distance.scale)
        }),
{
    let n = pow2(31);
    let d = random_bits(key) + 1;
    lemma2_to64();
    lemma2_to64_rest();
    lemma_quotient_binade(n, d);
    lemma_div_nonincreasing(n as int, d as int);
    lemma_floor_log2_below(n / d, 32);
    lemma_nearest_binary64_binade(n, d);
    assert(1 * d <= n <= n * d) by (nonlinear_arith)
        requires
            1 <= d <= n,
    ;
    lemma_nearest_binary64_at_least(n, d, 1);
    lemma_nearest_binary64_at_most(n, d, n);
}

/// The binary64 product of a bucket count and a jump distance, truncated,
/// stays below `2^62`.
proof fn lemma_product_below(n: nat, d: nat, a: nat)
    requires
        0 < d <= n,
        a <= 0x7fff_ffff,
        n <= (a * pow2(31)) * d,
    ensures
        n / d < 0x4000_0000_0000_0000,
        nearest_binary64(n, d).floor() <= 0x4000_0000_0000_0000,
{
    lemma2_to64();
    lemma2_to64_rest();
    let bound = a * pow2(31);
    lemma_div_is_ordered(n as int, (bound * d) as int, d as int);
    lemma_div_by_multiple(bound as int, d as int);
    lemma_quotient_binade(n, d);
    lemma_floor_log2_below(n / d, 62);
    lemma_nearest_binary64_binade(n, d);
    let e = floor_log2(n / d);
    let r = nearest_binary64(n, d);
    lemma_pow2_pos(r.scale);
    lemma_div_nonincreasing(r.num as int, pow2(r.scale) as int);
    if e > 52 && e + 1 < 62 {
        lemma_pow2_strictly_increases(e + 1, 62);
    }
}

/// A key settles at or beyond the bucket it has reached, in a bucket that
/// exists.
pub proof fn lemma_bucket_from_range(key: u64, bucket: int, num_buckets: int)
    requires
        0 <= bucket < num_buckets <= MAX_BUCKETS,
    ensures
        bucket <= bucket_from(key, bucket, num_buckets) < num_buckets,
    decreases num_buckets - bucket,
{
    let state = lcg_step(key);
    let next = next_jump(bucket, state);
    lemma_next_jump_advances(bucket, state);
    if next < num_buckets {
        lemma_bucket_from_range(state, next, num_buckets);
    }
}

/// With more buckets, a key on its way either settles where it did before
/// or in one of the buckets that were added.
pub proof fn lemma_bucket_from_growth(key: u64, bucket: int, fewer: int, more: int)
    requires
        0 <= bucket < fewer <= more <= MAX_BUCKETS,
    ensures
        bucket_from(key, bucket, more) == bucket_from(key, bucket, fewer) || bucket_from(
            key,
            bucket,
            more,
        ) >= fewer,
    decreases fewer - bucket,
{
    let state = lcg_step(key);
    let next = next_jump(bucket, state);
    lemma_next_jump_advances(bucket, state);
    if next < fewer {
        lemma_bucket_from_growth(state, next, fewer, more);
    } else if next < more {
        lemma_bucket_from_range(state, next, more);
    }
}

/// A key on its way along its jump sequence settles in the last bucket of
/// the sequence that exists. The result is the index of that bucket in the
/// sequence.
pub proof fn lemma_bucket_from_is_last_visited(key: u64, jumps: nat, num_buckets: int) -> (last:
    nat)
    requires
        0 <= visited(key, jumps) < num_buckets <= MAX_BUCKETS,
    ensures
        last >= jumps,
        visited(key, last) == bucket_from(state_at(key, jumps), visited(key, jumps), num_buckets),
        visited(key, last) < num_buckets <= visited(key, last + 1),
    decreases num_buckets - visited(key, jumps),
{
    let state = state_at(key, jumps + 1);
    let next = visited(key, jumps + 1);
    lemma_next_jump_advances(visited(key, jumps), state);
    if next < num_buckets {
        lemma_bucket_from_is_last_visited(key, jumps + 1, num_buckets)
    } else {
        jumps
    }
}

} // verus!
