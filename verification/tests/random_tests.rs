use skiplist::period::PERIOD;
use skiplist::random::{Random, MODULUS, MULTIPLIER};

#[test]
fn random_test() {
    let mut rand = Random::new(16);
    for i in 1..100 {
        let random = rand.uniform(i);
        assert!(random < i);
    }
}

#[test]
fn the_constants_are_those_of_the_minimal_standard_generator() {
    assert_eq!(MODULUS, 2147483647);
    assert_eq!(MODULUS, (1u32 << 31) - 1);
    assert_eq!(MULTIPLIER, 16807);
    assert_eq!(MULTIPLIER, 7 * 7 * 7 * 7 * 7);
}

#[test]
fn next_follows_the_recurrence() {
    let mut rand = Random::new(1);
    assert_eq!(rand.next(), 16807);
    assert_eq!(rand.next(), 282475249);
    assert_eq!(rand.next(), 1622650073);
    assert_eq!(rand.next(), 984943658);
    assert_eq!(rand.next(), 1144108930);
}

#[test]
fn next_from_sixteen() {
    let mut rand = Random::new(16);
    assert_eq!(rand.next(), 268912);
    assert_eq!(rand.next(), 224636690);
    assert_eq!(rand.next(), 192597404);
}

#[test]
fn the_ten_thousandth_value_from_seed_one() {
    let mut rand = Random::new(1);
    let mut value = 0;
    for _ in 0..10000 {
        value = rand.next();
    }
    assert_eq!(value, 1043618065);
}

#[test]
fn next_agrees_with_the_product_modulo_the_modulus() {
    let mut rand = Random::new(123456789);
    let mut state: u64 = 123456789;
    for _ in 0..5000 {
        state = state * 16807 % 2147483647;
        assert_eq!(rand.next() as u64, state);
    }
}

#[test]
fn next_stays_among_the_non_zero_residues() {
    for seed in [0u32, 1, 2, 2147483645, 2147483646, 2147483647, 2147483648, u32::MAX] {
        let mut rand = Random::new(seed);
        for _ in 0..2000 {
            let value = rand.next();
            assert!(1 <= value && value <= 2147483646);
        }
    }
}

#[test]
fn next_from_the_largest_state() {
    // 2147483646 is -1 modulo the modulus, so its successor is -16807.
    let mut rand = Random::new(2147483646);
    assert_eq!(rand.next(), 2147483647 - 16807);
}

#[test]
fn bad_seeds_are_replaced_by_one() {
    assert_eq!(Random::new(0).next(), 16807);
    assert_eq!(Random::new(2147483647).next(), 16807);
    assert_eq!(Random::new(0x8000_0000).next(), 16807);
    assert_eq!(Random::new(u32::MAX).next(), 16807);
}

#[test]
fn only_the_low_31_bits_of_the_seed_count() {
    let mut low = Random::new(16);
    let mut high = Random::new(0x8000_0010);
    for _ in 0..100 {
        assert_eq!(low.next(), high.next());
    }
}

#[test]
fn equal_seeds_give_equal_sequences() {
    let mut a = Random::new(0xdeadbeef);
    let mut b = Random::new(0xdeadbeef);
    for n in 1..2000 {
        assert_eq!(a.uniform(n), b.uniform(n));
    }
}

#[test]
fn uniform_exact_values() {
    let mut rand = Random::new(16);
    let drawn: Vec<u32> = (0..8).map(|_| rand.uniform(10)).collect();
    assert_eq!(drawn, vec![2, 0, 4, 9, 4, 1, 4, 8]);
}

#[test]
fn uniform_stays_below_its_bound_over_thousands_of_draws() {
    for n in [1u32, 2, 3, 4, 7, 10, 100, 1000, 65536, 2147483647, u32::MAX] {
        let mut rand = Random::new(301);
        for _ in 0..5000 {
            assert!(rand.uniform(n) < n);
        }
    }
}

#[test]
fn uniform_of_one_is_zero() {
    let mut rand = Random::new(42);
    for _ in 0..1000 {
        assert_eq!(rand.uniform(1), 0);
    }
}

#[test]
fn uniform_advances_the_generator_by_one_step() {
    let mut a = Random::new(99);
    let mut b = Random::new(99);
    a.uniform(5);
    b.next();
    assert_eq!(a.next(), b.next());
}

#[test]
fn one_in_exact_values() {
    let mut rand = Random::new(16);
    let drawn: Vec<bool> = (0..8).map(|_| rand.one_in(4)).collect();
    assert_eq!(drawn, vec![true, false, true, false, true, false, true, false]);
}

#[test]
fn one_in_one_is_always_true() {
    let mut rand = Random::new(5);
    for _ in 0..1000 {
        assert!(rand.one_in(1));
    }
}

#[test]
fn one_in_is_true_when_the_next_value_is_a_multiple() {
    let mut a = Random::new(77);
    let mut b = Random::new(77);
    for _ in 0..2000 {
        assert_eq!(a.one_in(4), b.next() % 4 == 0);
    }
}

#[test]
fn one_in_four_is_true_about_a_quarter_of_the_time() {
    let mut rand = Random::new(301);
    let mut hits = 0;
    for _ in 0..40000 {
        if rand.one_in(4) {
            hits += 1;
        }
    }
    assert!(9000 < hits && hits < 11000);
}

#[test]
fn skewed_exact_values() {
    let mut rand = Random::new(301);
    let drawn: Vec<u32> = (0..8).map(|_| rand.skewed(10)).collect();
    assert_eq!(drawn, vec![4, 12, 9, 18, 162, 141, 196, 26]);
}

#[test]
fn skewed_stays_below_the_power_of_two() {
    for max_log in 0..=31u32 {
        let mut rand = Random::new(max_log + 1);
        for _ in 0..500 {
            let value = rand.skewed(max_log);
            assert!((value as u64) < (1u64 << max_log));
        }
    }
}

#[test]
fn skewed_of_zero_is_zero() {
    let mut rand = Random::new(8);
    for _ in 0..100 {
        assert_eq!(rand.skewed(0), 0);
    }
}

#[test]
fn skewed_advances_the_generator_by_two_steps() {
    let mut a = Random::new(1234);
    let mut b = Random::new(1234);
    a.skewed(20);
    b.next();
    b.next();
    assert_eq!(a.next(), b.next());
}

#[test]
fn random_level_exact_values() {
    let mut rand = Random::new(7);
    let drawn: Vec<usize> = (0..20).map(|_| rand.random_level(4, 2)).collect();
    assert_eq!(drawn, vec![1, 1, 2, 1, 1, 3, 1, 3, 2, 2, 1, 3, 1, 1, 1, 1, 2, 3, 1, 1]);
}

#[test]
fn random_level_stays_between_one_and_the_maximum() {
    for max_level in 1..=16usize {
        let mut rand = Random::new(max_level as u32);
        for _ in 0..2000 {
            let level = rand.random_level(max_level, 4);
            assert!(1 <= level && level <= max_level);
        }
    }
}

#[test]
fn random_level_with_one_level_draws_nothing() {
    let mut rand = Random::new(7);
    for _ in 0..3 {
        assert_eq!(rand.random_level(1, 4), 1);
    }
    assert_eq!(rand.next(), Random::new(7).next());
}

#[test]
fn random_level_with_branching_one_is_the_maximum() {
    let mut rand = Random::new(0xdeadbeef);
    for _ in 0..5 {
        assert_eq!(rand.random_level(5, 1), 5);
    }
}

#[test]
fn random_level_is_mostly_one() {
    let mut rand = Random::new(0xdeadbeef);
    let mut counts = [0usize; 13];
    for _ in 0..40000 {
        counts[rand.random_level(12, 4)] += 1;
    }
    assert!(counts[1] > 28000 && counts[1] < 32000);
    assert!(counts[2] > 6500 && counts[2] < 8500);
    assert!(counts[1] > counts[2] && counts[2] > counts[3] && counts[3] > counts[4]);
}

#[test]
fn no_state_comes_back_early() {
    for seed in [1u32, 16, 0xdeadbeef] {
        let mut rand = Random::new(seed);
        let first = rand.next();
        for _ in 0..3_000_000 {
            assert_ne!(rand.next(), first);
        }
    }
}

#[test]
fn the_period_is_the_number_of_non_zero_residues() {
    assert_eq!(PERIOD, MODULUS - 1);
    assert_eq!(PERIOD, 2 * 3 * 3 * 7 * 11 * 31 * 151 * 331);
}
