//! Arithmetic modulo a fixed power of two, as it appears in the
//! contracts of the wrapping operations.

use vstd::prelude::*;
use vstd::arithmetic::div_mod::*;
use vstd::arithmetic::mul::*;

verus! {

/// Addition modulo `m`.
pub open spec fn add_mod(a: nat, b: nat, m: nat) -> nat
    recommends
        0 < m,
{
    (a + b) % m
}

/// Subtraction modulo `m` (wrapping around when `b > a`).
pub open spec fn sub_mod(a: nat, b: nat, m: nat) -> nat
    recommends
        0 < m,
{
    (((a - b) % (m as int)) as nat)
}

/// Multiplication modulo `m`.
pub open spec fn mul_mod(a: nat, b: nat, m: nat) -> nat
    recommends
        0 < m,
{
    (a * b) % m
}

/// Subtraction undoes addition: taking one addend away from a wrapped
/// sum gives the other addend back.
pub proof fn lemma_sub_mod_undoes_add_mod(a: nat, b: nat, m: nat)
    requires
        0 < m,
        a < m,
        b < m,
    ensures
        sub_mod(add_mod(a, b, m), a, m) == b,
{
    let mi = m as int;
    lemma_small_mod(a, m);
    lemma_small_mod(b, m);
    assert(((((a + b) as int % mi)) - (a as int % mi)) % mi == ((a + b) - a) % mi) by {
        lemma_sub_mod_noop((a + b) as int, a as int, mi);
    }
}

/// Addition undoes subtraction: adding the subtracted value back to a
/// wrapped difference gives the original value back.
pub proof fn lemma_add_mod_undoes_sub_mod(a: nat, s: nat, m: nat)
    requires
        0 < m,
        a < m,
        s < m,
    ensures
        add_mod(a, sub_mod(s, a, m), m) == s,
{
    let mi = m as int;
    lemma_small_mod(s, m);
    assert((a + ((s - a) % mi)) % mi == (a + (s - a)) % mi) by {
        lemma_add_mod_noop_right(a as int, s - a, mi);
    }
}

/// Addition modulo `m` is commutative.
pub proof fn lemma_add_mod_commutative(a: nat, b: nat, m: nat)
    requires
        0 < m,
    ensures
        add_mod(a, b, m) == add_mod(b, a, m),
{
}

/// Addition modulo `m` is associative.
pub proof fn lemma_add_mod_associative(a: nat, b: nat, c: nat, m: nat)
    requires
        0 < m,
        a < m,
        c < m,
    ensures
        add_mod(add_mod(a, b, m), c, m) == add_mod(a, add_mod(b, c, m), m),
{
    let mi = m as int;
    lemma_small_mod(a, m);
    lemma_small_mod(c, m);
    assert(((((a + b) as int % mi)) + (c as int % mi)) % mi == ((a + b + c) as int) % mi) by {
        lemma_add_mod_noop((a + b) as int, c as int, mi);
    }
    assert(((a as int % mi) + ((b + c) as int % mi)) % mi == ((a + b + c) as int) % mi) by {
        lemma_add_mod_noop(a as int, (b + c) as int, mi);
    }
}

/// Multiplication modulo `m` is commutative.
pub proof fn lemma_mul_mod_commutative(a: nat, b: nat, m: nat)
    requires
        0 < m,
    ensures
        mul_mod(a, b, m) == mul_mod(b, a, m),
{
    lemma_mul_is_commutative(a as int, b as int);
}

/// Multiplication modulo `m` is associative.
pub proof fn lemma_mul_mod_associative(a: nat, b: nat, c: nat, m: nat)
    requires
        0 < m,
    ensures
        mul_mod(mul_mod(a, b, m), c, m) == mul_mod(a, mul_mod(b, c, m), m),
{
    let mi = m as int;
    assert(((((a * b) as int % mi)) * c) % mi == (((a * b) * c) as int) % mi) by {
        lemma_mul_mod_noop_general((a * b) as int, c as int, mi);
    }
    assert((a * b) * c == a * (b * c)) by {
        lemma_mul_is_associative(a as int, b as int, c as int);
    }
    assert((a * ((b * c) as int % mi)) % mi == ((a * (b * c)) as int) % mi) by {
        lemma_mul_mod_noop_general(a as int, (b * c) as int, mi);
    }
}

} // verus!
