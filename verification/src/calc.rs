//! Temperature conversion and Fibonacci numbers.

use vstd::prelude::*;

verus! {

/// Division truncating toward zero, as the machine division of signed
/// integers behaves.
pub open spec fn div_trunc(a: int, b: int) -> int
    recommends
        0 < b,
{
    if a >= 0 {
        a / b
    } else {
        -((-a) / b)
    }
}

/// The Fibonacci sequence.
pub open spec fn spec_fib(n: nat) -> nat
    decreases n,
{
    if n == 0 {
        0
    } else if n == 1 {
        1
    } else {
        spec_fib((n - 1) as nat) + spec_fib((n - 2) as nat)
    }
}

/// Fibonacci numbers never decrease along the sequence.
pub proof fn lemma_fib_monotonic(i: nat, j: nat)
    requires
        i <= j,
    ensures
        spec_fib(i) <= spec_fib(j),
    decreases j - i,
{
    if i < j {
        lemma_fib_monotonic(i, (j - 1) as nat);
        if j >= 2 {
            assert(spec_fib(j) == spec_fib((j - 1) as nat) + spec_fib((j - 2) as nat));
        } else {
            assert(j == 1 && i == 0);
        }
    }
}

/// Celsius to Fahrenheit.
pub fn celsius2farenheit(celsius: i32) -> (r: i32)
    requires
        -238609294 <= celsius <= 238609294,
    ensures
        r == div_trunc(celsius * 9, 5) + 32,
{
    (celsius * 9 / 5) + 32
}

/// Fahrenheit to Celsius.
pub fn farenheit2celsius(farenheit: i32) -> (r: i32)
    requires
        -429496697 <= farenheit <= 429496761,
    ensures
        r == div_trunc((farenheit - 32) * 5, 9),
{
    (farenheit - 32) * 5 / 9
}

/// The `n`-th Fibonacci number, by iteration.
pub fn fibonacci_loop(n: u32) -> (r: u64)
    requires
        spec_fib(n as nat + 1) <= u64::MAX,
    ensures
        r == spec_fib(n as nat),
{
    let mut a: u64 = 0;
    let mut b: u64 = 1;
    let mut i: u32 = 0;
    while i < n
        invariant
            i <= n,
            spec_fib(n as nat + 1) <= u64::MAX,
            a == spec_fib(i as nat),
            b == spec_fib(i as nat + 1),
        decreases n - i,
    {
        proof {
            lemma_fib_monotonic(i as nat + 2, n as nat + 1);
        }
        b = b + a;
        a = b - a;
        i = i + 1;
    }
    a
}

/// The `n`-th Fibonacci number, by recursion.
pub fn fibonacci_rec(n: u32) -> (r: u64)
    requires
        spec_fib(n as nat + 1) <= u64::MAX,
    ensures
        r == spec_fib(n as nat),
    decreases n,
{
    match n {
        0 => 0,
        1 => 1,
        _ => {
            proof {
                lemma_fib_monotonic((n - 1) as nat, n as nat + 1);
                lemma_fib_monotonic(n as nat, n as nat + 1);
            }
            fibonacci_rec(n - 1) + fibonacci_rec(n - 2)
        },
    }
}

} // verus!
