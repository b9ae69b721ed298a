use my_library::random::{i64_from_bits, inclusive_request, place_draw};
use my_library::{RandomNumberGenerator, RandomPlugin};
use rand::rngs::StdRng;
use rand::{Rng, SeedableRng};

#[test]
fn random_test_range_bounds() {
    let mut rng = RandomNumberGenerator::new().unwrap();

    for _ in 0..1000 {
        let n = rng.range(1, 10);
        assert!(n >= 1);
        assert!(n < 10);
    }
}

#[test]
fn random_test_reproducibility() {
    let mut rng = (RandomNumberGenerator::seeded(1), RandomNumberGenerator::seeded(1));

    (0..1000).for_each(|_| {
        assert_eq!(
            rng.0.range(u32::MIN as i64, u32::MAX as i64),
            rng.1.range(u32::MIN as i64, u32::MAX as i64),
        );
    });
}

#[test]
fn random_test_next_types() {
    let mut rng = RandomNumberGenerator::new().unwrap();
    let _: u64 = rng.next();
}

#[test]
fn range_draws_every_value_of_a_small_range() {
    let mut rng = RandomNumberGenerator::seeded(7);
    let mut seen = [false; 6];
    for _ in 0..1000 {
        let n = rng.range(1, 7);
        assert!((1..7).contains(&n));
        seen[(n - 1) as usize] = true;
    }
    assert!(seen.iter().all(|s| *s));
}

#[test]
fn range_inclusive_includes_both_ends() {
    let mut rng = RandomNumberGenerator::seeded(7);
    let mut seen = [false; 3];
    for _ in 0..1000 {
        let n = rng.range_inclusive(-1, 1);
        assert!((-1..=1).contains(&n));
        seen[(n + 1) as usize] = true;
    }
    assert!(seen.iter().all(|s| *s));
    assert_eq!(rng.range_inclusive(5, 5), 5);
    assert_eq!(rng.range(5, 6), 5);
}

#[test]
fn range_inclusive_reaches_the_largest_values() {
    let mut rng = RandomNumberGenerator::seeded(11);
    for _ in 0..100 {
        let n = rng.range_inclusive(i64::MAX - 1, i64::MAX);
        assert!(n >= i64::MAX - 1);
        let _ = rng.range_inclusive(i64::MIN, i64::MAX);
    }
}

#[test]
fn different_seeds_give_different_sequences() {
    let mut a = RandomNumberGenerator::seeded(1);
    let mut b = RandomNumberGenerator::seeded(2);
    let left: Vec<u64> = (0..8).map(|_| a.next()).collect();
    let right: Vec<u64> = (0..8).map(|_| b.next()).collect();
    assert_ne!(left, right);
}

#[test]
fn next_does_not_repeat_one_value() {
    let mut rng = RandomNumberGenerator::seeded(3);
    let first = rng.next();
    assert!((0..16).any(|_| rng.next() != first));
}

#[test]
fn the_plugin_builds_a_generator() {
    let mut rng = RandomPlugin.build().unwrap();
    let n = rng.range(0, 100);
    assert!((0..100).contains(&n));
}

#[test]
fn bits_are_read_in_twos_complement() {
    assert_eq!(i64_from_bits(0), 0);
    assert_eq!(i64_from_bits(1), 1);
    assert_eq!(i64_from_bits(0x7fff_ffff_ffff_ffff), i64::MAX);
    assert_eq!(i64_from_bits(0x8000_0000_0000_0000), i64::MIN);
    assert_eq!(i64_from_bits(0x8000_0000_0000_0001), i64::MIN + 1);
    assert_eq!(i64_from_bits(u64::MAX), -1);
    assert_eq!(i64_from_bits(u64::MAX - 41), -42);
}

#[test]
fn an_inclusive_range_is_drawn_from_a_half_open_one() {
    assert_eq!(inclusive_request(1, 6), (1, 7));
    assert_eq!(inclusive_request(5, 5), (5, 6));
    assert_eq!(inclusive_request(i64::MIN, 0), (i64::MIN, 1));
    assert_eq!(inclusive_request(i64::MIN, i64::MAX - 1), (i64::MIN, i64::MAX));
    // Where the range ends with the largest value, it is moved down.
    assert_eq!(inclusive_request(10, i64::MAX), (9, i64::MAX));
    assert_eq!(inclusive_request(i64::MAX, i64::MAX), (i64::MAX - 1, i64::MAX));
    assert_eq!(inclusive_request(i64::MIN + 1, i64::MAX), (i64::MIN, i64::MAX));
}

#[test]
fn a_draw_is_moved_to_its_place() {
    assert_eq!(place_draw(6, 1), 1);
    assert_eq!(place_draw(6, 6), 6);
    assert_eq!(place_draw(i64::MAX - 1, i64::MAX - 1), i64::MAX - 1);
    assert_eq!(place_draw(i64::MAX, 9), 10);
    assert_eq!(place_draw(i64::MAX, i64::MAX - 1), i64::MAX);
    assert_eq!(place_draw(i64::MAX, i64::MIN), i64::MIN + 1);
}

#[test]
fn every_draw_of_a_request_has_its_own_place() {
    for (start, end) in [(1, 6), (-3, 3), (i64::MAX - 4, i64::MAX), (i64::MIN, i64::MIN + 4)] {
        let (low, high) = inclusive_request(start, end);
        assert_eq!(high as i128 - low as i128, end as i128 - start as i128 + 1);
        let mut expected = start;
        let mut drawn = low;
        while drawn < high {
            assert_eq!(place_draw(end, drawn), expected);
            drawn += 1;
            if expected < end {
                expected += 1;
            }
        }
        assert_eq!(place_draw(end, high - 1), end);
    }
}

#[test]
fn a_seeded_generator_draws_what_rand_draws() {
    let mut ours = RandomNumberGenerator::seeded(17);
    let mut theirs = StdRng::seed_from_u64(17);
    for _ in 0..100 {
        assert_eq!(ours.range(-50, 50), theirs.random_range(-50i64..50));
        assert_eq!(ours.next(), theirs.random::<u64>());
        assert_eq!(ours.range_inclusive(1, 6), theirs.random_range(1i64..=6));
        assert_eq!(
            ours.range_inclusive(i64::MAX - 5, i64::MAX),
            theirs.random_range(i64::MAX - 6..i64::MAX) + 1
        );
        assert_eq!(
            ours.range_inclusive(i64::MIN, i64::MAX),
            i64_from_bits(theirs.random::<u64>())
        );
    }
}

#[test]
fn a_generator_made_from_a_source_draws_from_it() {
    let mut made = RandomNumberGenerator::from_rng(StdRng::seed_from_u64(5));
    let mut seeded = RandomNumberGenerator::seeded(5);
    let mut source = StdRng::seed_from_u64(5);
    for _ in 0..100 {
        let n = made.next();
        assert_eq!(n, seeded.next());
        assert_eq!(n, source.random::<u64>());
    }
}
