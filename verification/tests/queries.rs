use prime_sieve::prime_sieve_vec::PrimeSieveVec;
use prime_sieve::primes_less_than::PrimesLessThan;

fn trial_is_prime(x: usize) -> bool {
    if x < 2 {
        return false;
    }
    let mut d = 2;
    while d * d <= x {
        if x % d == 0 {
            return false;
        }
        d += 1;
    }
    true
}

fn naive_primes_below(bound: usize) -> Vec<usize> {
    (0..bound).filter(|x| trial_is_prime(*x)).collect()
}

#[test]
fn primes_less_than_n_works() {
    let mut sieve = PrimeSieveVec::default();
    let mut primes_lte = |n| sieve.count_primes_less_or_equal_unchecked(n);

    assert_eq!(primes_lte(10), 4);
    assert_eq!(primes_lte(100), 25);
    assert_eq!(primes_lte(1_000), 168);
    assert_eq!(primes_lte(10_000), 1_229);
    assert_eq!(primes_lte(100_000), 9_592);
    assert_eq!(primes_lte(1_000_000), 78_498);
}

#[test]
fn checked_count_matches_known_values() {
    let mut sieve = PrimeSieveVec::default();
    assert_eq!(sieve.count_primes_less_or_equal(10), Some(4));
    assert_eq!(sieve.count_primes_less_or_equal(100), Some(25));
    assert_eq!(sieve.count_primes_less_or_equal(1_000), Some(168));
    assert_eq!(sieve.count_primes_less_or_equal(10_000), Some(1_229));
    assert_eq!(sieve.count_primes_less_or_equal(100_000), Some(9_592));
    assert_eq!(sieve.count_primes_less_or_equal(1_000_000), Some(78_498));
}

#[test]
fn count_includes_the_bound_itself() {
    let mut sieve = PrimeSieveVec::default();
    assert_eq!(sieve.count_primes_less_or_equal(0), Some(0));
    assert_eq!(sieve.count_primes_less_or_equal(1), Some(0));
    assert_eq!(sieve.count_primes_less_or_equal(2), Some(1));
    assert_eq!(sieve.count_primes_less_or_equal(3), Some(2));
    assert_eq!(sieve.count_primes_less_or_equal(4), Some(2));
    assert_eq!(sieve.count_primes_less_or_equal(7), Some(4));
    assert_eq!(sieve.count_primes_less_or_equal(96), Some(24));
    assert_eq!(sieve.count_primes_less_or_equal(97), Some(25));
    assert_eq!(sieve.count_primes_less_or_equal(98), Some(25));
}

#[test]
fn count_agrees_with_trial_division() {
    let mut sieve = PrimeSieveVec::default();
    for n in 0..2_000 {
        let expected = naive_primes_below(n + 1).len();
        assert_eq!(sieve.count_primes_less_or_equal(n), Some(expected));
    }
}

#[test]
fn count_on_an_empty_cache_is_unavailable() {
    let mut sieve = PrimeSieveVec {
        primes: Vec::new(),
        end_segment: 1,
        extend_at_most_n_segments_target: 1,
    };
    assert_eq!(sieve.count_primes_less_or_equal(10), None);
    assert!(sieve.primes.is_empty());
    assert_eq!(sieve.end_segment, 1);
    assert_eq!(sieve.extend_at_most_n_segments_target, 1);
    assert_eq!(sieve.most_recent_prime(), None);
}

#[test]
fn first_five_primes() {
    let mut sieve = PrimeSieveVec::default();
    assert_eq!(sieve.first_n_primes(5), Some(&[2, 3, 5, 7, 11][..]));
    let mut exact = PrimeSieveVec::default();
    assert_eq!(exact.calculate_first_n_primes_exact(5), Some(&[2, 3, 5, 7, 11][..]));
}

#[test]
fn first_n_primes_of_a_filled_cache_needs_no_growth() {
    let mut sieve = PrimeSieveVec::default();
    assert_eq!(sieve.first_n_primes(0), Some(&[][..]));
    assert_eq!(sieve.first_n_primes(3), Some(&[2, 3, 5][..]));
    assert_eq!(sieve.first_n_primes(4), Some(&[2, 3, 5, 7][..]));
    assert_eq!(sieve.primes, vec![2, 3, 5, 7]);
    assert_eq!(sieve.end_segment, 1);
}

#[test]
fn first_n_primes_are_the_n_smallest() {
    let all = naive_primes_below(8_000);
    for n in [1usize, 4, 5, 9, 10, 100, 500, 1_000] {
        let mut sieve = PrimeSieveVec::default();
        let first = sieve.first_n_primes(n).map(|list| list.to_vec());
        assert_eq!(first, Some(all[..n].to_vec()));
        assert!(sieve.primes.len() >= n);
    }
}

#[test]
fn nth_prime_counts_from_zero() {
    let mut sieve = PrimeSieveVec::default();
    assert_eq!(sieve.nth_prime(0), Some(2));
    assert_eq!(sieve.nth_prime(4), Some(11));
    assert_eq!(sieve.nth_prime(3), Some(7));
    assert_eq!(sieve.nth_prime(24), Some(97));
    assert_eq!(sieve.nth_prime(99), Some(541));
    assert_eq!(sieve.nth_prime(999), Some(7_919));
    assert_eq!(sieve.nth_prime(9_999), Some(104_729));
}

#[test]
fn queried_cache_is_sorted_and_prime() {
    let mut sieve = PrimeSieveVec::default();
    assert_eq!(sieve.count_primes_less_or_equal(5_000), Some(669));
    assert!(sieve.primes.windows(2).all(|pair| pair[0] < pair[1]));
    assert!(sieve.primes.iter().all(|p| trial_is_prime(*p)));
    let last = *sieve.most_recent_prime().unwrap();
    assert_eq!(sieve.primes, naive_primes_below(last + 1));
}

#[test]
fn counting_twice_changes_nothing() {
    let mut sieve = PrimeSieveVec::default();
    let first = sieve.count_primes_less_or_equal(3_000);
    let primes = sieve.primes.clone();
    let cursor = sieve.end_segment;
    let second = sieve.count_primes_less_or_equal(3_000);
    assert_eq!(first, Some(430));
    assert_eq!(second, first);
    assert_eq!(sieve.primes, primes);
    assert_eq!(sieve.end_segment, cursor);
}

#[test]
fn a_smaller_query_keeps_the_cache() {
    let mut sieve = PrimeSieveVec::default();
    assert_eq!(sieve.count_primes_less_or_equal(1_000), Some(168));
    let len = sieve.primes.len();
    assert_eq!(sieve.count_primes_less_or_equal(10), Some(4));
    assert_eq!(sieve.primes.len(), len);
    assert_eq!(sieve.nth_prime(2), Some(5));
    assert_eq!(sieve.primes.len(), len);
}

#[test]
fn queries_fail_where_no_step_is_possible() {
    let mut sieve = PrimeSieveVec {
        primes: vec![2, 3, 5, 7],
        end_segment: 1,
        extend_at_most_n_segments_target: 5,
    };
    assert!(!sieve.can_extend_by(5));
    assert_eq!(sieve.count_primes_less_or_equal(7), Some(4));
    assert_eq!(sieve.count_primes_less_or_equal(8), None);
    assert_eq!(sieve.nth_prime(3), Some(7));
    assert_eq!(sieve.nth_prime(4), None);
    assert_eq!(sieve.first_n_primes(4), Some(&[2, 3, 5, 7][..]));
    assert_eq!(sieve.first_n_primes(5), None);
    assert_eq!(sieve.primes, vec![2, 3, 5, 7]);
    assert_eq!(sieve.end_segment, 1);
}

#[test]
fn most_recent_prime_is_the_last_entry() {
    let mut sieve = PrimeSieveVec::default();
    assert_eq!(sieve.most_recent_prime(), Some(&7));
    assert_eq!(*sieve.most_recent_prime_unchecked(), 7);
    sieve.extend();
    assert_eq!(sieve.most_recent_prime(), Some(&23));
    assert_eq!(*sieve.most_recent_prime_unchecked(), 23);
}

#[test]
fn reserving_changes_nothing_to_see() {
    let mut sieve = PrimeSieveVec::default();
    sieve.reserve_in_advance(10_000);
    assert!(sieve.primes.capacity() >= 10_004);
    assert_eq!(sieve.primes, vec![2, 3, 5, 7]);
    assert_eq!(sieve.end_segment, 1);
    assert_eq!(sieve.extend_at_most_n_segments_target, 1);
    assert_eq!(sieve.count_primes_less_or_equal(100), Some(25));
}

#[test]
fn count_stream_reports_each_count_once() {
    let mut counts = PrimesLessThan { n: 0, sieve: PrimeSieveVec::default(), greatest_so_far: 0 };
    for expected in 1..=200usize {
        assert_eq!(counts.next(), Some(expected));
    }
    assert_eq!(counts.n, 1_224);
    assert_eq!(counts.greatest_so_far, 200);
}

#[test]
fn count_stream_skips_to_the_first_larger_count() {
    let mut counts = PrimesLessThan { n: 20, sieve: PrimeSieveVec::default(), greatest_so_far: 10 };
    assert_eq!(counts.next(), Some(11));
    assert_eq!(counts.n, 32);
    assert_eq!(counts.greatest_so_far, 11);
    assert_eq!(counts.next(), Some(12));
    assert_eq!(counts.n, 38);
}

#[test]
fn count_stream_ends_where_the_cache_cannot_grow() {
    let stuck = PrimeSieveVec {
        primes: vec![2, 3, 5, 7],
        end_segment: 1,
        extend_at_most_n_segments_target: 5,
    };
    let mut counts = PrimesLessThan { n: 6, sieve: stuck, greatest_so_far: 3 };
    assert_eq!(counts.next(), Some(4));
    assert_eq!(counts.n, 8);
    assert_eq!(counts.next(), None);
    assert_eq!(counts.n, 8);
    assert_eq!(counts.greatest_so_far, 4);
}

#[test]
fn count_stream_keeps_what_it_found_when_it_ends() {
    let reaching = PrimeSieveVec {
        primes: vec![2, 3, 5, 7],
        end_segment: 1,
        extend_at_most_n_segments_target: 5,
    };
    let mut counts = PrimesLessThan { n: 7, sieve: reaching, greatest_so_far: 4 };
    assert_eq!(counts.next(), None);
    assert_eq!(counts.n, 8);
    assert_eq!(counts.greatest_so_far, 4);
}
