//! Widening multiplication: schoolbook multiply built from the scalar
//! multiply, the block shift and the carry-propagating addition. The
//! full product is kept as an `N`-limb low part and an `N`-limb high
//! part.

use vstd::prelude::*;
use vstd::arithmetic::power2::*;
use vstd::arithmetic::mul::*;
use vstd::arithmetic::div_mod::*;
use crate::biguint::BigUInt;
use crate::limb::{limb_carrying_mul, bool_to_nat};
use crate::radix::{
    nat_of_limbs, lemma_nat_of_limbs_bound, lemma_nat_of_limbs_take_succ,
    lemma_nat_of_limbs_take_full, lemma_nat_of_limbs_zero_iff, lemma_limb_step, lemma_distribute3,
};
use crate::modular::mul_mod;

verus! {

broadcast use vstd::array::group_array_axioms;

/// From `x * m <= v < m * m` it follows that `x < m`.
proof fn lemma_high_bound(x: nat, v: nat, m: nat)
    requires
        x * m <= v,
        v < m * m,
    ensures
        x < m,
{
    if x >= m {
        assert(m * m <= x * m) by {
            lemma_mul_inequality(m as int, x as int, m as int);
        }
    }
}

/// A product of two values below `m` stays below `(m-1) * m`.
proof fn lemma_product_bound(a: nat, b: nat, m: nat)
    requires
        a < m,
        b < m,
        1 < m,
    ensures
        a * b <= (m - 1) * (m - 1),
        (m - 1) * (m - 1) + m < m * m,
        a * b < m * m,
{
    lemma_mul_upper_bound(a as int, m - 1, b as int, m - 1);
    assert((m - 1) * (m - 1) == (m - 1) * m - (m - 1)) by {
        lemma_mul_is_distributive_sub((m - 1) as int, m as int, 1);
    }
    assert((m - 1) * m == m * m - m) by {
        lemma_mul_is_distributive_sub_other_way(m as int, m as int, 1);
    }
}

impl<const N: usize> BigUInt<N> {
    /// Whether every limb is zero, which is exactly whether the value
    /// is zero.
    fn is_zero(&self) -> (r: bool)
        ensures
            r <==> self.as_nat() == 0,
    {
        proof {
            lemma_nat_of_limbs_zero_iff(self.data@);
        }
        let mut i: usize = 0;
        while i < N
            invariant
                i <= N,
                forall|j: int| 0 <= j < i ==> self.data@[j] == 0,
            decreases N - i,
        {
            if self.data[i] != 0 {
                proof {
                    lemma_nat_of_limbs_zero_iff(self.data@);
                }
                return false;
            }
            i = i + 1;
        }
        proof {
            lemma_nat_of_limbs_zero_iff(self.data@);
        }
        true
    }

    /// Scalar multiply: limb-by-limb product of `self` and a single
    /// word, propagating a word-sized carry. The final carry is a full
    /// word, not a bit.
    pub fn carrying_mul_by_u64(&self, other: u64, carry: u64) -> (r: (Self, u64))
        ensures
            r.0.as_nat() + r.1 as nat * Self::modulus() == self.as_nat() * other as nat
                + carry as nat,
    {
        let mut result = BigUInt::<N>::new();
        let mut c = carry;
        let mut i: usize = 0;
        proof {
            assert(nat_of_limbs(Seq::<u64>::empty()) == 0);
            assert(result.data@.take(0) =~= Seq::<u64>::empty());
            assert(self.data@.take(0) =~= Seq::<u64>::empty());
            assert(nat_of_limbs(self.data@.take(0)) * other as nat == 0) by {
                lemma_mul_basics(other as int);
            }
            lemma2_to64();
            assert(pow2(64 * 0) == 1);
            assert(nat_of_limbs(result.data@.take(0)) == 0);
            assert(nat_of_limbs(self.data@.take(0)) * other as nat == 0);
            assert(nat_of_limbs(result.data@.take(0)) + c as nat * pow2(64 * 0) == nat_of_limbs(
                self.data@.take(0),
            ) * other as nat + carry as nat);
        }
        while i < N
            invariant
                i <= N,
                nat_of_limbs(result.data@.take(i as int)) + c as nat * pow2(64 * i as nat)
                    == nat_of_limbs(self.data@.take(i as int)) * other as nat + carry as nat,
            decreases N - i,
        {
            let ghost prev = result.data@;
            let ghost c_in = c;
            let (lo, hi) = limb_carrying_mul(self.data[i], other, c);
            result.data[i] = lo;
            proof {
                let ii = i as int;
                assert(result.data@.take(ii) =~= prev.take(ii));
                assert(result.data@.take(ii + 1) =~= prev.take(ii).push(lo));
                assert(result.data@[ii] == lo);
                lemma_nat_of_limbs_take_succ(result.data@, ii);
                lemma_nat_of_limbs_take_succ(self.data@, ii);
                lemma_limb_step(
                    self.data@[ii] as nat,
                    other as nat,
                    c_in as nat,
                    lo as nat,
                    hi as nat,
                    i as nat,
                );
                lemma_distribute3(
                    nat_of_limbs(self.data@.take(ii)),
                    (self.data@[ii] as nat * pow2(64 * i as nat)) as nat,
                    0,
                    other as nat,
                );
            }
            c = hi;
            i = i + 1;
        }
        proof {
            lemma_nat_of_limbs_take_full(result.data@);
            lemma_nat_of_limbs_take_full(self.data@);
        }
        (result, c)
    }

    /// Scalar multiply with no incoming carry.
    pub(crate) fn overflowing_mul_by_u64(&self, other: u64) -> (r: (Self, u64))
        ensures
            r.0.as_nat() + r.1 as nat * Self::modulus() == self.as_nat() * other as nat,
    {
        self.carrying_mul_by_u64(other, 0)
    }

    /// Scalar multiply modulo 2^(64*N): the carry word is discarded.
    pub fn wrapping_mul_by_u64(&self, other: u64) -> (r: Self)
        ensures
            r.as_nat() == mul_mod(self.as_nat(), other as nat, Self::modulus()),
    {
        let (result, c) = self.overflowing_mul_by_u64(other);
        proof {
            result.lemma_as_nat_bound();
            lemma_fundamental_div_mod_converse(
                (self.as_nat() * other as nat) as int,
                Self::modulus() as int,
                c as int,
                result.as_nat() as int,
            );
        }
        result
    }

    /// Schoolbook widening multiply with an additive carry operand: the
    /// returned pair `(low, high)` satisfies
    /// `low + high * 2^(64*N) == self * other + carry`, the exact
    /// `2N`-limb product.
    pub fn carrying_mul(&self, other: &Self, carry: &mut Self) -> (r: (Self, Self))
        requires
            N >= 1,
        ensures
            r.0.as_nat() + r.1.as_nat() * Self::modulus() == self.as_nat() * other.as_nat() + old(
                carry,
            ).as_nat(),
            *final(carry) == *old(carry),
    {
        let mut result = BigUInt::<N>::new();
        let mut temp_carry = BigUInt::<N>::new();
        let mut i: usize = 0;
        proof {
            assert(nat_of_limbs(Seq::<u64>::empty()) == 0);
            assert(other.data@.take(0) =~= Seq::<u64>::empty());
            assert(self.as_nat() * nat_of_limbs(other.data@.take(0)) == 0) by {
                lemma_mul_basics(self.as_nat() as int);
            }
            self.lemma_as_nat_bound();
            assert(1 < Self::modulus()) by {
                lemma_pow2_strictly_increases(0, 64 * N as nat);
                lemma2_to64();
            }
        }
        while i < N
            invariant
                i <= N,
                N >= 1,
                1 < Self::modulus(),
                result.as_nat() + temp_carry.as_nat() * Self::modulus() == self.as_nat()
                    * nat_of_limbs(other.data@.take(i as int)),
            decreases N - i,
        {
            let ghost m = Self::modulus();
            let ghost a = self.as_nat();
            let ghost oi = other.data@[i as int] as nat;
            let ghost p = pow2(64 * i as nat);
            let ghost pn = pow2(64 * (i + 1) as nat);
            let ghost t_lo = nat_of_limbs(other.data@.take(i as int));

            let (temp_r, overflow) = self.overflowing_mul_by_u64(other.data[i]);
            let (temp_r2, temp_o) = temp_r.overflowing_shift_left(i);
            let shifted_ovf = BigUInt::<N>::from_u64_shifted(overflow, i);
            proof {
                self.lemma_as_nat_bound();
                lemma2_to64();
                // temp_r2 + (temp_o + overflow * 2^(64i)) * m == (a * oi) * 2^(64i)
                lemma_distribute3(temp_r.as_nat(), overflow as nat * m, 0, p);
                assert((overflow as nat * m) * p == (overflow as nat * p) * m) by {
                    lemma_mul_is_associative(overflow as int, m as int, p as int);
                    lemma_mul_is_associative(overflow as int, p as int, m as int);
                    lemma_mul_is_commutative(m as int, p as int);
                }
                lemma_distribute3(temp_o.as_nat(), (overflow as nat * p) as nat, 0, m);
                assert(temp_r2.as_nat() + (temp_o.as_nat() + overflow as nat * p) * m == (a * oi)
                    * p);
                // (a * oi) * 2^(64i) == a * (oi * 2^(64i)) < m * m
                assert((a * oi) * p == a * (oi * p)) by {
                    lemma_mul_is_associative(a as int, oi as int, p as int);
                }
                assert(oi * p < m) by {
                    lemma2_to64();
                    lemma_mul_inequality(oi as int, pow2(64) - 1, p as int);
                    assert((pow2(64) - 1) * p == pow2(64) * p - p) by {
                        lemma_mul_is_distributive_sub_other_way(p as int, pow2(64) as int, 1);
                    }
                    assert(pow2(64) * p == pn) by {
                        lemma_pow2_adds(64, 64 * i as nat);
                    }
                    if (64 * (i + 1) as nat) < (64 * N as nat) {
                        lemma_pow2_strictly_increases(64 * (i + 1) as nat, 64 * N as nat);
                    }
                }
                lemma_product_bound(a, (oi * p) as nat, m);
                lemma_high_bound((temp_o.as_nat() + overflow as nat * p) as nat, (a * (oi * p)) as nat, m);
            }
            let temp_o2 = temp_o.strict_add(&shifted_ovf);
            let (result2, temp_bool) = result.overflowing_add(&temp_r2);
            let bit = BigUInt::<N>::from_u64_shifted(
                if temp_bool {
                    1
                } else {
                    0
                },
                0,
            );
            proof {
                // bit reads as the carry bit of the addition
                lemma2_to64();
                assert(pow2(64 * 0) == 1);
                assert(bit.as_nat() == bool_to_nat(temp_bool)) by {
                    lemma_mul_basics(bool_to_nat(temp_bool) as int);
                }
                // temp_o2 stays below m - 1, so the bit still fits
                assert(temp_o2.as_nat() * m <= (m - 1) * (m - 1)) by {
                    lemma_product_bound(a, (oi * p) as nat, m);
                }
                assert((m - 1) * (m - 1) < (m - 1) * m) by {
                    lemma_mul_is_distributive_sub((m - 1) as int, m as int, 1);
                    lemma_mul_is_distributive_sub_other_way(m as int, m as int, 1);
                }
                assert(temp_o2.as_nat() < m - 1) by {
                    lemma_mul_strict_inequality_converse(
                        temp_o2.as_nat() as int,
                        m - 1,
                        m as int,
                    );
                }
            }
            let temp_o3 = temp_o2.strict_add(&bit);
            proof {
                // temp_carry + temp_o3 still fits in N limbs
                lemma_nat_of_limbs_take_succ(other.data@, i as int);
                lemma_nat_of_limbs_bound(other.data@.take(i as int + 1));
                let t_hi = nat_of_limbs(other.data@.take(i as int + 1));
                assert(t_hi == t_lo + oi * p);
                assert(pow2(64 * (i + 1) as nat) <= m) by {
                    if (64 * (i + 1) as nat) < (64 * N as nat) {
                        lemma_pow2_strictly_increases(64 * (i + 1) as nat, 64 * N as nat);
                    }
                }
                assert(a * t_lo + a * (oi * p) == a * t_hi) by {
                    lemma_mul_is_distributive_add(a as int, t_lo as int, (oi * p) as int);
                }
                assert(a * t_hi <= (m - 1) * (m - 1)) by {
                    lemma_mul_upper_bound(a as int, m - 1, t_hi as int, m - 1);
                }
                lemma_product_bound(a, (oi * p) as nat, m);
                lemma_distribute3(temp_o2.as_nat(), bit.as_nat(), 0, m);
                assert(bit.as_nat() * m <= m) by {
                    lemma_mul_basics(m as int);
                }
                lemma_distribute3(temp_carry.as_nat(), temp_o3.as_nat(), 0, m);
                assert((temp_carry.as_nat() + temp_o3.as_nat()) * m < m * m);
                lemma_high_bound(
                    (temp_carry.as_nat() + temp_o3.as_nat()) as nat,
                    (temp_carry.as_nat() + temp_o3.as_nat()) * m,
                    m,
                );
            }
            result = result2;
            temp_carry = temp_carry.strict_add(&temp_o3);
            i = i + 1;
        }
        proof {
            lemma_nat_of_limbs_take_full(other.data@);
        }
        let (result3, temp_bool2) = result.overflowing_add(carry);
        proof {
            // the last carry bit still fits in the high accumulator
            let m = Self::modulus();
            let a = self.as_nat();
            let b = other.as_nat();
            self.lemma_as_nat_bound();
            other.lemma_as_nat_bound();
            lemma_product_bound(a, b, m);
            assert(temp_carry.as_nat() * m <= (m - 1) * (m - 1));
            assert((m - 1) * (m - 1) < (m - 1) * m) by {
                lemma_mul_is_distributive_sub((m - 1) as int, m as int, 1);
                lemma_mul_is_distributive_sub_other_way(m as int, m as int, 1);
            }
            assert(temp_carry.as_nat() < m - 1) by {
                lemma_mul_strict_inequality_converse(temp_carry.as_nat() as int, m - 1, m as int);
            }
            lemma2_to64();
            assert(pow2(64 * 0) == 1);
        }
        let bit2 = BigUInt::<N>::from_u64_shifted(
            if temp_bool2 {
                1
            } else {
                0
            },
            0,
        );
        proof {
            assert(bit2.as_nat() == bool_to_nat(temp_bool2)) by {
                lemma_mul_basics(bool_to_nat(temp_bool2) as int);
            }
        }
        let temp_carry2 = temp_carry.strict_add(&bit2);
        proof {
            lemma_distribute3(
                temp_carry.as_nat(),
                bit2.as_nat(),
                0,
                Self::modulus(),
            );
        }
        (result3, temp_carry2)
    }

    /// Widening multiply with no additive carry: the exact product,
    /// split into a low and a high `N`-limb part.
    pub fn overflowing_mul(&self, other: &Self) -> (r: (Self, Self))
        requires
            N >= 1,
        ensures
            r.0.as_nat() + r.1.as_nat() * Self::modulus() == self.as_nat() * other.as_nat(),
    {
        let mut carry = BigUInt::<N>::new();
        self.carrying_mul(other, &mut carry)
    }

    /// Multiplication modulo 2^(64*N): only the low product is kept.
    pub fn wrapping_mul(&self, other: &Self) -> (r: Self)
        requires
            N >= 1,
        ensures
            r.as_nat() == mul_mod(self.as_nat(), other.as_nat(), Self::modulus()),
    {
        let (result, overflow) = self.overflowing_mul(other);
        proof {
            result.lemma_as_nat_bound();
            lemma_fundamental_div_mod_converse(
                (self.as_nat() * other.as_nat()) as int,
                Self::modulus() as int,
                overflow.as_nat() as int,
                result.as_nat() as int,
            );
        }
        result
    }

    /// Multiplication that signals overflow by absence: the result is
    /// absent exactly when the true product does not fit, and is
    /// otherwise the product.
    pub fn checked_mul(&self, other: &Self) -> (r: Option<Self>)
        requires
            N >= 1,
        ensures
            r is Some <==> self.as_nat() * other.as_nat() < Self::modulus(),
            r matches Some(v) ==> v.as_nat() == self.as_nat() * other.as_nat(),
    {
        let (result, overflow) = self.overflowing_mul(other);
        if overflow.is_zero() {
            proof {
                result.lemma_as_nat_bound();
                assert(result.as_nat() + 0 * Self::modulus() == self.as_nat() * other.as_nat());
            }
            Some(result)
        } else {
            proof {
                assert(Self::modulus() <= overflow.as_nat() * Self::modulus()) by {
                    lemma_mul_inequality(1, overflow.as_nat() as int, Self::modulus() as int);
                }
            }
            None
        }
    }

    /// Multiplication whose caller has ruled overflow out.
    pub fn strict_mul(&self, other: &Self) -> (r: Self)
        requires
            N >= 1,
            self.as_nat() * other.as_nat() < Self::modulus(),
        ensures
            r.as_nat() == self.as_nat() * other.as_nat(),
    {
        let (result, overflow) = self.overflowing_mul(other);
        proof {
            if overflow.as_nat() >= 1 {
                assert(Self::modulus() <= overflow.as_nat() * Self::modulus()) by {
                    lemma_mul_inequality(1, overflow.as_nat() as int, Self::modulus() as int);
                }
            }
            assert(result.as_nat() + 0 * Self::modulus() == self.as_nat() * other.as_nat());
        }
        result
    }
}

} // verus!
