//! Single-limb primitives: 64-bit addition, subtraction and
//! multiplication that widen into a carry or borrow.

use vstd::prelude::*;
use vstd::arithmetic::power2::*;
use vstd::arithmetic::div_mod::*;
use vstd::arithmetic::mul::*;
use vstd::bits::*;

verus! {

/// 2^64, the weight of one limb position.
pub const LIMB_BASE: u128 = 0x1_0000_0000_0000_0000;

pub open spec fn bool_to_nat(b: bool) -> nat {
    if b {
        1
    } else {
        0
    }
}

/// `pow2(64)` is the limb base.
pub proof fn lemma_limb_base()
    ensures
        pow2(64) == LIMB_BASE,
{
    lemma2_to64();
}

/// Three-operand limb sum: `a + b + carry`, split into a limb and a carry bit.
pub fn limb_carrying_add(a: u64, b: u64, carry: bool) -> (r: (u64, bool))
    ensures
        r.0 as nat + bool_to_nat(r.1) * pow2(64) == a as nat + b as nat + bool_to_nat(carry),
{
    let s: u128 = a as u128 + b as u128 + (if carry {
        1
    } else {
        0
    });
    let lo: u64 = (s % LIMB_BASE) as u64;
    let hi: bool = s >= LIMB_BASE;
    proof {
        lemma_limb_base();
        lemma_fundamental_div_mod(s as int, LIMB_BASE as int);
        let q = s as int / LIMB_BASE as int;
        assert(0 <= q < 2) by {
            lemma_div_pos_is_pos(s as int, LIMB_BASE as int);
            if q >= 2 {
                assert(q * LIMB_BASE >= 2 * LIMB_BASE) by {
                    lemma_mul_inequality(2, q, LIMB_BASE as int);
                }
            }
        }
        assert(hi <==> q == 1) by {
            if s >= LIMB_BASE && q == 0 {
                assert(s as int == s as int % LIMB_BASE as int);
            }
        }
    }
    (lo, hi)
}

/// Three-operand limb difference: `a - b - borrow`, wrapped into the limb
/// base, together with the borrow bit taken from the next position.
pub fn limb_borrowing_sub(a: u64, b: u64, borrow: bool) -> (r: (u64, bool))
    ensures
        r.0 as int == a - b - bool_to_nat(borrow) + bool_to_nat(r.1) * pow2(64),
        r.1 <==> (a as int) < b + bool_to_nat(borrow),
{
    let t: u128 = LIMB_BASE + a as u128 - b as u128 - (if borrow {
        1
    } else {
        0
    });
    let lo: u64 = (t % LIMB_BASE) as u64;
    let bo: bool = t < LIMB_BASE;
    proof {
        lemma_limb_base();
        if t < LIMB_BASE {
            lemma_small_mod(t as nat, LIMB_BASE as nat);
        } else {
            assert(t as int % LIMB_BASE as int == t - LIMB_BASE) by {
                lemma_fundamental_div_mod_converse(
                    t as int,
                    LIMB_BASE as int,
                    1,
                    t - LIMB_BASE as int,
                );
            }
        }
    }
    (lo, bo)
}

/// Full widening limb multiplication: `a * m + carry`, split into a low
/// limb and a carry limb (the carry can be up to a full limb).
pub fn limb_carrying_mul(a: u64, m: u64, carry: u64) -> (r: (u64, u64))
    ensures
        r.0 as nat + r.1 as nat * pow2(64) == a as nat * m as nat + carry as nat,
{
    proof {
        lemma_limb_base();
        assert(a as int * m as int <= (LIMB_BASE - 1) * (LIMB_BASE - 1)) by {
            lemma_mul_upper_bound(a as int, LIMB_BASE - 1, m as int, LIMB_BASE - 1);
        }
    }
    let p: u128 = a as u128 * m as u128 + carry as u128;
    let lo: u64 = (p % LIMB_BASE) as u64;
    let hi: u64 = (p / LIMB_BASE) as u64;
    proof {
        lemma_fundamental_div_mod(p as int, LIMB_BASE as int);
        let q = p as int / LIMB_BASE as int;
        assert(0 <= q < LIMB_BASE) by {
            lemma_div_pos_is_pos(p as int, LIMB_BASE as int);
            if q >= LIMB_BASE {
                assert(q * LIMB_BASE >= LIMB_BASE * LIMB_BASE) by {
                    lemma_mul_inequality(LIMB_BASE as int, q, LIMB_BASE as int);
                }
            }
        }
    }
    (lo, hi)
}

/// One limb of an intra-limb left shift: `x * 2^s + carry`, split at the
/// limb base. The carry never reaches `2^s`, so the next position can
/// absorb it.
pub fn limb_shl_carry(x: u64, s: usize, carry: u64) -> (r: (u64, u64))
    requires
        0 < s < 64,
        carry < pow2(s as nat),
    ensures
        r.0 as nat + r.1 as nat * pow2(64) == x as nat * pow2(s as nat) + carry,
        r.1 < pow2(s as nat),
{
    let p2: u64 = 1u64 << (s as u64);
    proof {
        lemma_limb_base();
        lemma_u64_pow2_no_overflow(s as nat);
        lemma_u64_shl_is_mul(1u64, s as u64);
        assert(1 * pow2(s as nat) == pow2(s as nat));
        assert(x as int * p2 as int <= (LIMB_BASE - 1) * (LIMB_BASE - 1)) by {
            lemma_mul_upper_bound(x as int, LIMB_BASE - 1, p2 as int, LIMB_BASE - 1);
        }
    }
    let t: u128 = x as u128 * p2 as u128 + carry as u128;
    let lo: u64 = (t % LIMB_BASE) as u64;
    let hi: u64 = (t / LIMB_BASE) as u64;
    proof {
        lemma_fundamental_div_mod(t as int, LIMB_BASE as int);
        let q = t as int / LIMB_BASE as int;
        // t < 2^64 * 2^s, so the high part stays below 2^s.
        assert(t < LIMB_BASE * p2) by {
            assert(x as int * p2 as int <= (LIMB_BASE - 1) * p2) by {
                lemma_mul_inequality(x as int, LIMB_BASE - 1, p2 as int);
            }
            assert((LIMB_BASE - 1) * p2 == LIMB_BASE * p2 - p2) by {
                lemma_mul_is_distributive_sub_other_way(p2 as int, LIMB_BASE as int, 1);
            }
        }
        assert(0 <= q < p2) by {
            lemma_div_pos_is_pos(t as int, LIMB_BASE as int);
            if q >= p2 {
                assert(q * LIMB_BASE >= p2 * LIMB_BASE) by {
                    lemma_mul_inequality(p2 as int, q, LIMB_BASE as int);
                }
                assert(p2 * LIMB_BASE == LIMB_BASE * p2) by {
                    lemma_mul_is_commutative(p2 as int, LIMB_BASE as int);
                }
            }
        }
    }
    (lo, hi)
}

} // verus!
