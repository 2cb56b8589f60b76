use lru_cache::compute::{
    compute_sum, constant_folding, dead_code_elimination, fibonacci_iterative, fibonacci_recursive,
};

#[test]
fn fibonacci_recursive_small_values() {
    let expected = [0u64, 1, 1, 2, 3, 5, 8, 13, 21, 34, 55];
    for (n, want) in expected.iter().enumerate() {
        assert_eq!(fibonacci_recursive(n as u64), *want);
    }
}

#[test]
fn fibonacci_recursive_twenty() {
    assert_eq!(fibonacci_recursive(20), 6765);
}

#[test]
fn fibonacci_iterative_matches_recursive() {
    for n in 0..20u64 {
        assert_eq!(fibonacci_iterative(n), fibonacci_recursive(n));
    }
}

#[test]
fn fibonacci_iterative_large_values() {
    assert_eq!(fibonacci_iterative(35), 9_227_465);
    assert_eq!(fibonacci_iterative(50), 12_586_269_025);
    // The largest Fibonacci number that fits in a u64.
    assert_eq!(fibonacci_iterative(93), 12_200_160_415_121_876_738);
}

#[test]
fn compute_sum_small_values() {
    assert_eq!(compute_sum(0), 0);
    assert_eq!(compute_sum(1), 0);
    assert_eq!(compute_sum(2), 1);
    assert_eq!(compute_sum(3), 5);
    assert_eq!(compute_sum(5), 30);
    // 0^2 + 1^2 + ... + 99^2
    assert_eq!(compute_sum(100), 328_350);
}

#[test]
fn compute_sum_wraps_around() {
    // The sum of the squares below ten million exceeds u64::MAX, so this
    // exercises the wrap-around: the result must equal the closed form
    // n(n-1)(2n-1)/6 reduced modulo 2^64, and the call must not panic.
    let n: u64 = 10_000_000;
    let expected = {
        let n = n as u128;
        let closed_form = n * (n - 1) * (2 * n - 1) / 6;
        (closed_form % (1u128 << 64)) as u64
    };
    assert_eq!(compute_sum(n), expected);
}

#[test]
fn constant_folding_value() {
    assert_eq!(constant_folding(), 30);
}

#[test]
fn dead_code_elimination_value() {
    assert_eq!(dead_code_elimination(), 5);
}
