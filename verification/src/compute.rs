//! Small verified numeric routines: Fibonacci numbers (recursive and
//! iterative), wrapped sums of squares, and two constant computations.

use vstd::prelude::*;

verus! {

/// The mathematical Fibonacci sequence: 0, 1, 1, 2, 3, 5, ...
pub open spec fn spec_fib(n: nat) -> nat
    decreases n,
{
    if n == 0 {
        0
    } else if n == 1 {
        1
    } else {
        spec_fib((n - 1) as nat) + spec_fib((n - 2) as nat)
    }
}

/// Fibonacci never decreases as its argument grows.
pub proof fn lemma_fib_monotonic(i: nat, j: nat)
    requires
        i <= j,
    ensures
        spec_fib(i) <= spec_fib(j),
    decreases j,
{
    if i < j {
        lemma_fib_monotonic(i, (j - 1) as nat);
    }
}

/// Computes the `n`-th Fibonacci number by direct recursion.
pub fn fibonacci_recursive(n: u64) -> (r: u64)
    requires
        spec_fib(n as nat) <= u64::MAX,
    ensures
        r == spec_fib(n as nat),
    decreases n,
{
    if n <= 1 {
        n
    } else {
        proof {
            lemma_fib_monotonic((n - 1) as nat, n as nat);
            lemma_fib_monotonic((n - 2) as nat, n as nat);
        }
        fibonacci_recursive(n - 1) + fibonacci_recursive(n - 2)
    }
}

/// Computes the `n`-th Fibonacci number with a loop over a pair of
/// accumulators.
pub fn fibonacci_iterative(n: u64) -> (r: u64)
    requires
        spec_fib(n as nat) <= u64::MAX,
    ensures
        r == spec_fib(n as nat),
{
    if n <= 1 {
        return n;
    }
    let mut a: u64 = 0;
    let mut b: u64 = 1;
    let mut i: u64 = 1;
    while i < n
        invariant
            1 <= i <= n,
            spec_fib(n as nat) <= u64::MAX,
            a == spec_fib((i - 1) as nat),
            b == spec_fib(i as nat),
        decreases n - i,
    {
        proof {
            lemma_fib_monotonic((i + 1) as nat, n as nat);
        }
        let temp = a + b;
        a = b;
        b = temp;
        i = i + 1;
    }
    b
}

/// The running sum of squares `0*0 + 1*1 + ... + (n-1)*(n-1)`, with every
/// multiplication and addition wrapping around at `u64::MAX + 1`.
pub open spec fn spec_sum_of_squares_wrapped(n: u64) -> u64
    decreases n,
{
    if n == 0 {
        0u64
    } else {
        vstd::wrapping::u64_specs::wrapping_add(
            spec_sum_of_squares_wrapped((n - 1) as u64),
            vstd::wrapping::u64_specs::wrapping_mul((n - 1) as u64, (n - 1) as u64),
        )
    }
}

/// Sums the squares of `0..n` with wrapping arithmetic.
pub fn compute_sum(n: u64) -> (r: u64)
    ensures
        r == spec_sum_of_squares_wrapped(n),
{
    let mut sum = 0u64;
    let mut i = 0u64;
    while i < n
        invariant
            i <= n,
            sum == spec_sum_of_squares_wrapped(i),
        decreases n - i,
    {
        sum = sum.wrapping_add(i.wrapping_mul(i));
        i = i + 1;
    }
    sum
}

/// Evaluates `(5 + 10) * 2` through intermediate bindings.
pub fn constant_folding() -> (r: i32)
    ensures
        r == 30,
{
    let x: i32 = 5 + 10;
    let y: i32 = x * 2;
    y
}

/// Returns the only binding that the result depends on; the other two
/// bindings are never read.
#[allow(unused_variables)]
pub fn dead_code_elimination() -> (r: i32)
    ensures
        r == 5,
{
    let x: i32 = 5;
    let y: i32 = 10;
    let z: i32 = 20;
    x
}

} // verus!
