use rustflow::kernels::{count_primes_in, graph_pipeline_work, is_prime, nqueens_sequential, skynet_sequential};

#[test]
fn primality_of_small_numbers() {
    let primes = [2usize, 3, 5, 7, 11, 13, 17, 19, 23, 29, 31, 37, 41, 43, 47, 97, 7919];
    for p in primes {
        assert!(is_prime(p), "{p} is prime");
    }
    let composites = [0usize, 1, 4, 6, 8, 9, 15, 25, 35, 49, 77, 91, 121, 143, 169, 7917];
    for c in composites {
        assert!(!is_prime(c), "{c} is not prime");
    }
}

#[test]
fn primality_of_a_large_prime_and_its_square() {
    assert!(is_prime(1_000_000_007));
    assert!(!is_prime(1_000_000_007usize * 3));
    assert!(!is_prime(65_537usize * 65_537));
}

#[test]
fn prime_counts_below_powers_of_ten() {
    assert_eq!(count_primes_in(1, 10), 4);
    assert_eq!(count_primes_in(1, 100), 25);
    assert_eq!(count_primes_in(1, 100_000), 9592);
    assert_eq!(count_primes_in(50, 10), 0);
}

#[test]
fn prime_counts_of_adjacent_chunks_add_up() {
    let whole = count_primes_in(1, 10_000);
    let mut chunked = 0;
    let mut start = 1;
    while start < 10_000 {
        let end = (start + 100).min(10_000);
        chunked += count_primes_in(start, end);
        start = end;
    }
    assert_eq!(chunked, whole);
}

#[test]
fn skynet_runtime_matches_closed_form() {
    let depth = 4usize;
    let value = skynet_sequential(0, 0, depth);
    let leaves = 10usize.pow(depth as u32);
    assert_eq!(value, leaves * (leaves - 1) / 2);
}

#[test]
fn skynet_sum_with_a_base() {
    assert_eq!(skynet_sequential(7, 3, 3), 7);
    assert_eq!(skynet_sequential(5, 1, 2), 10 * 5 + 45);
    assert_eq!(skynet_sequential(100, 0, 3), 1000 * 100 + 1000 * 999 / 2);
}

#[test]
fn nqueens_runtime_matches_known_answer() {
    let value = nqueens_sequential(0, &mut vec![0i8; 10]);
    assert_eq!(value, 724);
}

#[test]
fn nqueens_counts_known_answers() {
    assert_eq!(nqueens_sequential(0, &mut [0i8; 10]), 724);
    assert_eq!(nqueens_sequential(0, &mut [0i8; 8]), 92);
    assert_eq!(nqueens_sequential(0, &mut [0i8; 1]), 1);
    assert_eq!(nqueens_sequential(0, &mut [0i8; 2]), 0);
    assert_eq!(nqueens_sequential(0, &mut [0i8; 3]), 0);
    assert_eq!(nqueens_sequential(0, &mut [0i8; 0]), 1);
}

#[test]
fn nqueens_keeps_the_placed_prefix() {
    let mut buffer = [1i8, 3, 0, 0, 0, 0];
    let count = nqueens_sequential(2, &mut buffer);
    assert_eq!(&buffer[..2], &[1, 3]);
    assert_eq!(count, 1);
}

#[test]
fn graph_pipeline_work_values() {
    assert_eq!(graph_pipeline_work(0), 127);
    assert_eq!(graph_pipeline_work(7), 732);
    assert_eq!(graph_pipeline_work(-3), 721);
    assert_eq!(graph_pipeline_work(12345), 132);
    assert_eq!(graph_pipeline_work(i32::MIN), 708);
}
