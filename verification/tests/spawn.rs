use haex::primes::{is_prime, next_prime};
use rand::rngs::SmallRng;
use rand::SeedableRng;
use haex::spawn::{bag_random, is_excluded, skip_for, BagRandom, SpawnIterator};

#[test]
fn bag_random_test() {
    let mut rng = SmallRng::seed_from_u64(0);
    let count = 50;
    let mut bag = bag_random(count, &mut rng).unwrap();
    let mut v = std::collections::BTreeSet::new();
    while let Some(value) = bag.next() {
        v.insert(value);
    }
    assert_eq!(v.len(), count);
    assert_eq!(v.iter().next(), Some(&0));
    assert_eq!(v.iter().last(), Some(&(count - 1)));
}

#[test]
fn bag_is_a_permutation_for_many_sizes() {
    for count in [0usize, 1, 2, 3, 4, 7, 9, 16, 25, 49, 50, 53, 100, 121, 169, 1000] {
        for seed in 0..5u64 {
            let mut rng = SmallRng::seed_from_u64(seed);
            let mut bag = bag_random(count, &mut rng).unwrap();
            let mut seen = vec![false; count];
            let mut handed_out = 0;
            while let Some(value) = bag.next() {
                assert!(value < count);
                assert!(!seen[value]);
                seen[value] = true;
                handed_out += 1;
            }
            assert_eq!(handed_out, count);
            assert_eq!(bag.next(), None);
        }
    }
}

#[test]
fn primes_are_told_from_squares_of_primes() {
    let primes = [2usize, 3, 5, 7, 11, 13, 17, 19, 23, 29, 31, 37, 41, 43, 47, 53];
    for n in 0..=53usize {
        assert_eq!(is_prime(n), primes.contains(&n), "{}", n);
    }
    assert!(!is_prime(25));
    assert!(!is_prime(121));
    assert!(!is_prime(169));
    assert!(is_prime(7919));
    assert!(!is_prime(7917));
    assert_eq!(next_prime(0), Some(2));
    assert_eq!(next_prime(24), Some(29));
    assert_eq!(next_prime(25), Some(29));
    assert_eq!(next_prime(50), Some(53));
    assert_eq!(next_prime(53), Some(53));
    assert_eq!(next_prime(usize::MAX), None);
}

#[test]
fn skip_is_the_polynomial_of_the_draws() {
    // 3 * 50 * 50 + 7 * 50 + 11 = 7861 = 148 * 53 + 17
    assert_eq!(skip_for(50, 53, 3, 7, 11), 17);
    assert_eq!(skip_for(5, 5, 1, 1, 5), 0);
    assert_eq!(skip_for(usize::MAX, 7, usize::MAX, usize::MAX, 1), {
        let m = (usize::MAX % 7) as u128;
        ((m * m % 7 * m + m * m + 1) % 7) as usize
    });
}

#[test]
fn sampler_steps_round_its_prime() {
    assert!(BagRandom::with_draws(5, 5, 1, 1, 5).is_none());
    // step 2 round 5: 2, 4, 1, 3, 0
    let mut bag = BagRandom::with_draws(5, 5, 1, 1, 2).unwrap();
    let mut order = vec![];
    while let Some(value) = bag.next() {
        order.push(value);
    }
    assert_eq!(order, vec![2, 4, 1, 3, 0]);
    // four values round 5 with step 3: 3, 1, (4 is passed over), 2, 0
    let mut bag = BagRandom::with_draws(4, 5, 5, 5, 3).unwrap();
    let mut order = vec![];
    while let Some(value) = bag.next() {
        order.push(value);
    }
    assert_eq!(order, vec![3, 1, 2, 0]);
}

#[test]
fn excluded_region_is_half_open() {
    let region = [1, 2, 4, 5];
    assert!(is_excluded(&region, (1, 2)));
    assert!(is_excluded(&region, (3, 4)));
    assert!(!is_excluded(&region, (4, 4)));
    assert!(!is_excluded(&region, (3, 5)));
    assert!(!is_excluded(&region, (0, 3)));
}

#[test]
fn spawn_cells_avoid_the_region_and_stop_at_the_cap() {
    let bag = BagRandom::with_draws(12, 13, 1, 1, 1).unwrap();
    let mut spawns = SpawnIterator::new(3, bag, 4, [0, 0, 2, 2]);
    assert_eq!(spawns.size_hint(), (0, Some(3)));
    let mut cells = vec![];
    while let Some(cell) = spawns.next() {
        cells.push(cell);
    }
    assert_eq!(cells.len(), 3);
    for cell in &cells {
        assert!(cell.0 < 4 && cell.1 < 3);
        assert!(!(cell.0 < 2 && cell.1 < 2));
    }
    let bag = BagRandom::with_draws(4, 5, 1, 1, 1).unwrap();
    let mut spawns = SpawnIterator::new(10, bag, 2, [0, 0, 2, 1]);
    let mut cells = vec![];
    while let Some(cell) = spawns.next() {
        cells.push(cell);
    }
    cells.sort();
    assert_eq!(cells, vec![(0, 1), (1, 1)]);
}

#[test]
fn fresh_sampler_steps_round_the_next_prime_from_zero() {
    for (count, prime) in [(0usize, 2usize), (2, 2), (3, 3), (25, 29), (50, 53), (64, 67)] {
        for seed in 0..10u64 {
            let mut rng = SmallRng::seed_from_u64(seed);
            let bag = bag_random(count, &mut rng).unwrap();
            assert_eq!(bag.count, count);
            assert_eq!(bag.prime, prime);
            assert_eq!(bag.next, 0);
            assert_eq!(bag.returned, 0);
            assert!(0 < bag.skip && bag.skip < prime);
        }
    }
}
