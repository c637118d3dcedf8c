use jump_hash::algo::{advance_key, compute_jump_distance, compute_next_jump, MAX_BUCKETS, MULTIPLIER};
use jump_hash::jump_hash;

/// The same hash, computed with the machine's binary64 arithmetic.
fn float_jump_hash(mut key: u64, num_buckets: i32) -> i32 {
    if num_buckets <= 0 {
        return 0;
    }
    let mut current_bucket: i64 = -1;
    let mut next_jump: i64 = 0;
    while next_jump < num_buckets as i64 {
        current_bucket = next_jump;
        key = key.wrapping_mul(2862933555777941757).wrapping_add(1);
        let random_bits: u64 = key >> 33;
        let jump_distance: f64 = (1i64 << 31) as f64 / (random_bits + 1) as f64;
        next_jump = ((current_bucket + 1) as f64 * jump_distance) as i64;
    }
    current_bucket as i32
}

/// A small generator of test keys, independent of the one under test.
fn scramble(state: &mut u64) -> u64 {
    *state ^= *state << 13;
    *state ^= *state >> 7;
    *state ^= *state << 17;
    *state
}

#[test]
fn test_basic_distribution() {
    let bucket: i32 = jump_hash(123456789, 10);
    assert!(bucket >= 0 && bucket < 10);
}

#[test]
fn test_consistency() {
    let key: u64 = 987654321;
    let bucket1: i32 = jump_hash(key, 10);
    let bucket2: i32 = jump_hash(key, 10);
    assert_eq!(bucket1, bucket2);
}

#[test]
fn test_edge_cases() {
    assert_eq!(jump_hash(123, 0), 0);
    assert_eq!(jump_hash(123, 1), 0);
    assert_eq!(jump_hash(0, 5), jump_hash(0, 5));
}

#[test]
fn test_bucket_expansion() {
    let key: u64 = 123456789;
    let bucket_10: i32 = jump_hash(key, 10);
    let bucket_20: i32 = jump_hash(key, 20);

    // A key stays where it is or moves to a bucket with a higher number.
    assert!(bucket_20 >= bucket_10);

    assert!(bucket_20 < 20);
}

#[test]
fn test_minimal_redistribution() {
    let num_keys: u64 = 1_000_000_000;
    let initial_buckets: i32 = 1000;
    let new_buckets: i32 = 1500;
    let mut moved_keys: u64 = 0;
    let mut sampled_keys: u64 = 0;

    // Every 2500th key of the first billion: 400,000 keys.
    let mut key: u64 = 0;
    while key < num_keys {
        let initial_bucket: i32 = jump_hash(key, initial_buckets);
        let new_bucket: i32 = jump_hash(key, new_buckets);

        if new_bucket != initial_bucket {
            moved_keys += 1;
        }
        sampled_keys += 1;
        key += 2500;
    }

    let move_percentage: f64 = (moved_keys as f64 / sampled_keys as f64) * 100.0;

    // A third of the buckets is new, so about a third of the keys moves.
    assert!(
        move_percentage > 30.0 && move_percentage < 35.0,
        "Expected ~33% movement, got {}%",
        move_percentage
    );

    println!(
        "Moved {}% of keys when increasing buckets from {} to {}",
        move_percentage, initial_buckets, new_buckets
    );
}

#[test]
fn test_iteration_count() {
    let test_cases = [
        (10, "10 buckets"),
        (100, "100 buckets"),
        (1_000, "1K buckets"),
        (10_000, "10K buckets"),
        (100_000, "100K buckets"),
        (1_000_000, "1M buckets"),
    ];

    for (num_buckets, label) in test_cases {
        let mut total_iterations: u64 = 0;
        let num_keys: i64 = 10_000;

        for key in 0..num_keys {
            let mut iterations: u64 = 0;
            let mut k: i64 = key;
            let mut b: i64 = -1;
            let mut j: i64 = 0;

            while j < num_buckets as i64 {
                iterations += 1;
                b = j;
                k = k.wrapping_mul(2862933555777941757).wrapping_add(1);
                let random_bits: i64 = k >> 33;
                j = ((b + 1) as f64 * ((1i64 << 31) as f64 / (random_bits + 1) as f64)) as i64;
            }
            total_iterations += iterations;
        }

        let avg_iterations: f64 = total_iterations as f64 / num_keys as f64;
        println!("{}: Average iterations = {:.2}", label, avg_iterations);

        // About ln(num_buckets) + 1 jumps are expected.
        let expected_iterations: f64 = (num_buckets as f64).ln() + 1.0;
        assert!(avg_iterations < expected_iterations * 2.0, "Too many iterations for {}", label);
    }
}

#[test]
fn iteration_count_of_the_library_is_logarithmic() {
    let test_cases: [i32; 6] = [10, 100, 1_000, 10_000, 100_000, 1_000_000];
    for num_buckets in test_cases {
        let mut total_iterations: u64 = 0;
        let num_keys: u64 = 10_000;
        for key in 0..num_keys {
            let mut state: u64 = key;
            let mut bucket: i64 = 0;
            loop {
                total_iterations += 1;
                state = advance_key(state);
                let next: i64 = compute_next_jump(bucket, state);
                if next >= num_buckets as i64 {
                    break;
                }
                bucket = next;
            }
            assert_eq!(bucket as i32, jump_hash(key, num_buckets));
        }
        let avg_iterations: f64 = total_iterations as f64 / num_keys as f64;
        let expected_iterations: f64 = (num_buckets as f64).ln() + 1.0;
        assert!(avg_iterations < expected_iterations * 2.0);
        assert!(avg_iterations > expected_iterations / 2.0);
    }
}

#[test]
fn known_buckets() {
    assert_eq!(jump_hash(123456789, 10), 7);
    assert_eq!(jump_hash(987654321, 10), 2);
    assert_eq!(jump_hash(123456789, 20), 7);
    assert_eq!(jump_hash(123456789, 7), 0);
    assert_eq!(jump_hash(123456789, 8), 7);
    assert_eq!(jump_hash(123456789, 100), 34);
    assert_eq!(jump_hash(123456789, 1000), 294);
    assert_eq!(jump_hash(123456789, 1500), 294);
    assert_eq!(jump_hash(123456789, i32::MAX), 1234790967);
    assert_eq!(jump_hash(42, 1000), 571);
    assert_eq!(jump_hash(42, 1500), 571);
    assert_eq!(jump_hash(u64::MAX, 2), 1);
    assert_eq!(jump_hash(u64::MAX, 3), 2);
    assert_eq!(jump_hash(u64::MAX, 10), 9);
    assert_eq!(jump_hash(u64::MAX, 20), 10);
    assert_eq!(jump_hash(u64::MAX, 1000), 313);
    assert_eq!(jump_hash(u64::MAX, i32::MAX), 699554662);
}

#[test]
fn key_zero_stays_in_bucket_zero() {
    // The first state after key 0 has no high bits, so the first jump
    // leads beyond every bucket count.
    assert_eq!(jump_hash(0, 1), 0);
    assert_eq!(jump_hash(0, 5), 0);
    assert_eq!(jump_hash(0, 1000), 0);
    assert_eq!(jump_hash(0, i32::MAX), 0);
}

#[test]
fn no_buckets_gives_bucket_zero() {
    let keys: [u64; 5] = [0, 1, 123, 123456789, u64::MAX];
    for key in keys {
        assert_eq!(jump_hash(key, 0), 0);
        assert_eq!(jump_hash(key, -1), 0);
        assert_eq!(jump_hash(key, -1000), 0);
        assert_eq!(jump_hash(key, i32::MIN), 0);
    }
}

#[test]
fn one_bucket_takes_every_key() {
    let mut state: u64 = 0x9e3779b97f4a7c15;
    for _ in 0..10_000 {
        assert_eq!(jump_hash(scramble(&mut state), 1), 0);
    }
}

#[test]
fn bucket_is_in_range() {
    let counts: [i32; 9] = [1, 2, 3, 10, 1000, 65536, 1 << 30, i32::MAX - 1, i32::MAX];
    let mut state: u64 = 0x2545f4914f6cdd1d;
    for _ in 0..5_000 {
        let key: u64 = scramble(&mut state);
        for num_buckets in counts {
            let bucket: i32 = jump_hash(key, num_buckets);
            assert!(0 <= bucket && bucket < num_buckets);
        }
    }
}

#[test]
fn repeated_calls_agree() {
    let mut state: u64 = 77;
    for _ in 0..5_000 {
        let key: u64 = scramble(&mut state);
        let num_buckets: i32 = (scramble(&mut state) % 100_000) as i32 + 1;
        assert_eq!(jump_hash(key, num_buckets), jump_hash(key, num_buckets));
    }
    assert_eq!(jump_hash(0, 5), jump_hash(0, 5));
}

#[test]
fn agrees_with_binary64_arithmetic() {
    let counts: [i32; 10] = [1, 2, 7, 10, 1000, 1500, 1_000_000, 1 << 30, i32::MAX - 1, i32::MAX];
    let mut state: u64 = 0xdeadbeefcafebabe;
    for _ in 0..20_000 {
        let key: u64 = scramble(&mut state);
        for num_buckets in counts {
            assert_eq!(jump_hash(key, num_buckets), float_jump_hash(key, num_buckets));
        }
    }
    for key in 0..20_000u64 {
        assert_eq!(jump_hash(key, 1000), float_jump_hash(key, 1000));
        assert_eq!(jump_hash(key, i32::MAX), float_jump_hash(key, i32::MAX));
    }
}

#[test]
fn agrees_with_binary64_arithmetic_on_random_bucket_counts() {
    let mut state: u64 = 0x0123456789abcdef;
    for _ in 0..50_000 {
        let key: u64 = scramble(&mut state);
        let num_buckets: i32 = (scramble(&mut state) >> 33) as i32;
        assert_eq!(jump_hash(key, num_buckets), float_jump_hash(key, num_buckets));
    }
}

#[test]
fn growth_never_lowers_the_bucket() {
    let mut state: u64 = 31337;
    for _ in 0..5_000 {
        let key: u64 = scramble(&mut state);
        let first: i32 = (scramble(&mut state) % 10_000) as i32 + 1;
        let second: i32 = (scramble(&mut state) % 10_000) as i32 + 1;
        let fewer: i32 = first.min(second);
        let more: i32 = first.max(second);
        assert!(jump_hash(key, fewer) <= jump_hash(key, more));
    }
    assert!(jump_hash(123456789, 10) <= jump_hash(123456789, 11));
    assert!(jump_hash(u64::MAX, 1) <= jump_hash(u64::MAX, i32::MAX));
}

#[test]
fn growth_moves_keys_to_new_buckets_only() {
    let mut state: u64 = 4242;
    for _ in 0..5_000 {
        let key: u64 = scramble(&mut state);
        let fewer: i32 = (scramble(&mut state) % 10_000) as i32 + 1;
        let more: i32 = fewer + (scramble(&mut state) % 10_000) as i32;
        let before: i32 = jump_hash(key, fewer);
        let after: i32 = jump_hash(key, more);
        assert!(after == before || after >= fewer);
    }
    // From 7 to 8 buckets this key moves, and it moves to the new bucket.
    assert_eq!(jump_hash(123456789, 7), 0);
    assert_eq!(jump_hash(123456789, 8), 7);
}

#[test]
fn one_more_bucket_moves_a_key_there_or_nowhere() {
    let mut state: u64 = 99;
    for _ in 0..2_000 {
        let key: u64 = scramble(&mut state);
        let mut before: i32 = jump_hash(key, 1);
        for num_buckets in 2..60 {
            let after: i32 = jump_hash(key, num_buckets);
            assert!(after == before || after == num_buckets - 1);
            before = after;
        }
    }
}

#[test]
fn bucket_is_the_last_of_the_jump_sequence_below_the_count() {
    // The jump sequence of this key, whatever the number of buckets.
    let sequence: [i64; 13] =
        [0, 7, 34, 118, 294, 5834, 8303, 42483, 172707, 561473, 1467682, 3899303, 12375807];
    let mut state: u64 = 123456789;
    let mut bucket: i64 = 0;
    for jumps in 1..13 {
        state = advance_key(state);
        bucket = compute_next_jump(bucket, state);
        assert_eq!(bucket, sequence[jumps]);
    }
    for num_buckets in 1..=12375807i32 {
        if num_buckets > 6000 && num_buckets % 997 != 0 {
            continue;
        }
        let mut last: usize = 0;
        while sequence[last + 1] < num_buckets as i64 {
            last += 1;
        }
        assert_eq!(jump_hash(123456789, num_buckets) as i64, sequence[last]);
    }
}

#[test]
fn generator_steps() {
    assert_eq!(MULTIPLIER, 2862933555777941757);
    assert_eq!(advance_key(0), 1);
    assert_eq!(advance_key(1), 2862933555777941758);
    assert_eq!(advance_key(123456789), 2346802254543592898);
    // The product wraps around 2^64.
    assert_eq!(advance_key(u64::MAX), 15583810517931609860);
    // The sum wraps around 2^64: the multiplier has an inverse modulo 2^64,
    // so some key is taken to 0.
    let mut inverse: u64 = 1;
    for _ in 0..6 {
        inverse = inverse.wrapping_mul(2u64.wrapping_sub(MULTIPLIER.wrapping_mul(inverse)));
    }
    assert_eq!(MULTIPLIER.wrapping_mul(inverse), 1);
    let key: u64 = u64::MAX.wrapping_mul(inverse);
    assert_eq!(key.wrapping_mul(MULTIPLIER), u64::MAX);
    assert_eq!(advance_key(key), 0);
}

#[test]
fn jump_distances() {
    // No high bits: 2^31 / 1.
    let distance = compute_jump_distance(0);
    assert_eq!((distance.num, distance.scale), (1 << 52, 21));
    let distance = compute_jump_distance((1 << 33) - 1);
    assert_eq!((distance.num, distance.scale), (1 << 52, 21));
    // 2^31 / 2.
    let distance = compute_jump_distance(1 << 33);
    assert_eq!((distance.num, distance.scale), (1 << 52, 22));
    // 2^31 / 3 is not a binary fraction and is rounded down.
    let distance = compute_jump_distance(2 << 33);
    assert_eq!((distance.num, distance.scale), (6004799503160661, 23));
    // 2^31 / 7 is rounded up.
    let distance = compute_jump_distance(6 << 33);
    assert_eq!((distance.num, distance.scale), (5146971002709138, 24));
    let distance = compute_jump_distance(12345 << 33);
    assert_eq!((distance.num, distance.scale), (5976589688549992, 35));
    let distance = compute_jump_distance((1 << 30) << 33);
    assert_eq!((distance.num, distance.scale), (9007199246352384, 52));
    // All high bits: 2^31 / 2^31.
    let distance = compute_jump_distance(u64::MAX);
    assert_eq!((distance.num, distance.scale), (1 << 52, 52));
}

#[test]
fn jump_distance_agrees_with_binary64_division() {
    let mut state: u64 = 0xfeedface;
    for _ in 0..100_000 {
        let key: u64 = scramble(&mut state);
        let distance = compute_jump_distance(key);
        let expected: f64 = (1i64 << 31) as f64 / ((key >> 33) + 1) as f64;
        assert!(distance.num <= 1 << 53);
        assert_eq!(distance.num as f64 / (1u64 << distance.scale) as f64, expected);
    }
}

#[test]
fn next_jumps() {
    assert_eq!(compute_next_jump(0, 1), 2147483648);
    assert_eq!(compute_next_jump(0, 123456789), 2147483648);
    assert_eq!(compute_next_jump(5, 987654321), 12884901888);
    assert_eq!(compute_next_jump(999, 16045690984503098046), 1149);
    assert_eq!(compute_next_jump(0, u64::MAX), 1);
    // The smallest step from the last bucket but one.
    assert_eq!(compute_next_jump((MAX_BUCKETS - 1) as i64, u64::MAX), 2147483647);
    // The largest products.
    assert_eq!(compute_next_jump((MAX_BUCKETS - 1) as i64, 1 << 33), 2305843008139952128);
    assert_eq!(compute_next_jump((MAX_BUCKETS - 1) as i64, 0), 4611686016279904256);
}

#[test]
fn next_jump_agrees_with_binary64_arithmetic() {
    let mut state: u64 = 0x5eed;
    for _ in 0..200_000 {
        let key: u64 = scramble(&mut state);
        let width: u64 = scramble(&mut state) % 31;
        let bucket: i64 = ((scramble(&mut state) >> 33) >> width) as i64;
        if bucket >= MAX_BUCKETS as i64 {
            continue;
        }
        let distance: f64 = (1i64 << 31) as f64 / ((key >> 33) + 1) as f64;
        let expected: i64 = ((bucket + 1) as f64 * distance) as i64;
        let next: i64 = compute_next_jump(bucket, key);
        assert_eq!(next, expected);
        assert!(next > bucket);
    }
}

#[test]
fn next_jump_agrees_with_binary64_arithmetic_on_small_divisors() {
    let buckets: [i64; 9] = [0, 1, 2, 3, 7, 1000, 12345678, 1 << 30, (1 << 31) - 2];
    for random_bits in 0..3_000u64 {
        let key: u64 = random_bits << 33 | 0x1234;
        for bucket in buckets {
            let distance: f64 = (1i64 << 31) as f64 / (random_bits + 1) as f64;
            let expected: i64 = ((bucket + 1) as f64 * distance) as i64;
            assert_eq!(compute_next_jump(bucket, key), expected);
        }
    }
}
