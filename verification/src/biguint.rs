//! The fixed-width unsigned integer type and its carry-propagating
//! addition and subtraction.

use vstd::prelude::*;
use vstd::arithmetic::power2::*;
use vstd::arithmetic::mul::*;
use vstd::arithmetic::div_mod::*;
use crate::limb::{limb_carrying_add, limb_borrowing_sub, bool_to_nat};
use crate::radix::{
    nat_of_limbs, lemma_nat_of_limbs_bound, lemma_nat_of_limbs_zero, lemma_nat_of_limbs_take_succ,
    lemma_nat_of_limbs_take_full, lemma_nat_of_limbs_injective, lemma_weighted_step,
    lemma_distribute3,
};
use crate::modular::{add_mod, sub_mod};

verus! {

broadcast use vstd::array::group_array_axioms;

/// An unsigned integer of exactly `N` 64-bit limbs, least significant
/// limb first; it stands for `sum data[i] * 2^(64*i)`.
#[derive(Clone, Copy, Debug, PartialEq, Eq)]
pub struct BigUInt<const N: usize> {
    pub data: [u64; N],
}

/// A 1024-bit unsigned integer.
pub type BigUInt1024 = BigUInt<16>;

/// A 2048-bit unsigned integer.
pub type BigUInt2048 = BigUInt<32>;

/// An 8192-bit unsigned integer.
pub type BigUInt8192 = BigUInt<128>;

impl<const N: usize> BigUInt<N> {
    /// The number this value stands for.
    pub open spec fn as_nat(self) -> nat {
        nat_of_limbs(self.data@)
    }

    /// The modulus of the width: 2^(64*N).
    pub open spec fn modulus() -> nat {
        pow2(64 * (N as nat))
    }

    /// Every `N`-limb value lies below the modulus.
    pub proof fn lemma_as_nat_bound(self)
        ensures
            self.as_nat() < Self::modulus(),
            0 < Self::modulus(),
    {
        lemma_nat_of_limbs_bound(self.data@);
        lemma_pow2_pos(64 * (N as nat));
    }

    /// An empty prefix of any of the three limb sequences reads as zero.
    proof fn lemma_loop_start(self, other: Self, r: Self)
        ensures
            nat_of_limbs(self.data@.take(0)) == 0,
            nat_of_limbs(other.data@.take(0)) == 0,
            nat_of_limbs(r.data@.take(0)) == 0,
            pow2(0) == 1,
    {
        assert(self.data@.take(0) =~= Seq::<u64>::empty());
        assert(other.data@.take(0) =~= Seq::<u64>::empty());
        assert(r.data@.take(0) =~= Seq::<u64>::empty());
        lemma2_to64();
    }

    /// Equal values have equal limbs: the representation is canonical.
    pub proof fn lemma_canonical(self, other: Self)
        requires
            self.as_nat() == other.as_nat(),
        ensures
            self.data@ == other.data@,
    {
        lemma_nat_of_limbs_injective(self.data@, other.data@);
    }

    /// The zero value: all limbs zero.
    pub fn new() -> (r: Self)
        ensures
            r.as_nat() == 0,
            forall|i: int| 0 <= i < N ==> r.data@[i] == 0,
    {
        let r = BigUInt::<N> { data: [0u64; N] };
        proof {
            lemma_nat_of_limbs_zero(r.data@);
        }
        r
    }

    /// Limb-by-limb sum of `self`, `other` and an incoming carry bit; the
    /// returned bit is the carry out of the most significant limb.
    pub fn carrying_add(&self, other: &Self, carry: bool) -> (r: (Self, bool))
        ensures
            r.0.as_nat() + bool_to_nat(r.1) * Self::modulus() == self.as_nat() + other.as_nat()
                + bool_to_nat(carry),
    {
        let mut result = BigUInt::<N>::new();
        let mut c = carry;
        let mut i: usize = 0;
        proof {
            self.lemma_loop_start(*other, result);
        }
        while i < N
            invariant
                i <= N,
                forall|j: int| i <= j < N ==> result.data@[j] == 0,
                nat_of_limbs(result.data@.take(i as int)) + bool_to_nat(c) * pow2(64 * i as nat)
                    == nat_of_limbs(self.data@.take(i as int)) + nat_of_limbs(
                    other.data@.take(i as int),
                ) + bool_to_nat(carry),
            decreases N - i,
        {
            let ghost prev = result.data@;
            let ghost c_in = c;
            let (lo, c2) = limb_carrying_add(self.data[i], other.data[i], c);
            result.data[i] = lo;
            proof {
                let ii = i as int;
                assert(result.data@.take(ii) =~= prev.take(ii));
                assert(result.data@.take(ii + 1) =~= prev.take(ii).push(lo));
                assert(result.data@[ii] == lo);
                lemma_nat_of_limbs_take_succ(result.data@, ii);
                lemma_nat_of_limbs_take_succ(self.data@, ii);
                lemma_nat_of_limbs_take_succ(other.data@, ii);
                lemma_weighted_step(
                    lo as nat,
                    bool_to_nat(c2),
                    self.data@[ii] as nat + other.data@[ii] as nat + bool_to_nat(c_in),
                    i as nat,
                );
                lemma_distribute3(
                    self.data@[ii] as nat,
                    other.data@[ii] as nat,
                    bool_to_nat(c_in),
                    pow2(64 * i as nat),
                );
            }
            c = c2;
            i = i + 1;
        }
        proof {
            lemma_nat_of_limbs_take_full(result.data@);
            lemma_nat_of_limbs_take_full(self.data@);
            lemma_nat_of_limbs_take_full(other.data@);
        }
        (result, c)
    }

    /// Addition with an overflow flag: the flag is set exactly when the
    /// true sum does not fit in `N` limbs.
    pub fn overflowing_add(&self, other: &Self) -> (r: (Self, bool))
        ensures
            r.0.as_nat() + bool_to_nat(r.1) * Self::modulus() == self.as_nat() + other.as_nat(),
            r.1 <==> self.as_nat() + other.as_nat() >= Self::modulus(),
    {
        let r = self.carrying_add(other, false);
        proof {
            r.0.lemma_as_nat_bound();
            if r.1 {
                assert(r.0.as_nat() + 1 * Self::modulus() == self.as_nat() + other.as_nat());
            } else {
                assert(r.0.as_nat() + 0 * Self::modulus() == self.as_nat() + other.as_nat());
            }
        }
        r
    }

    /// Addition modulo 2^(64*N): the final carry is discarded.
    pub fn wrapping_add(&self, other: &Self) -> (r: Self)
        ensures
            r.as_nat() == add_mod(self.as_nat(), other.as_nat(), Self::modulus()),
    {
        let (result, overflow) = self.overflowing_add(other);
        proof {
            let m = Self::modulus() as int;
            let s = self.as_nat() + other.as_nat();
            result.lemma_as_nat_bound();
            assert(result.as_nat() + bool_to_nat(overflow) * Self::modulus() == s);
            assert((result.as_nat() as int) < m);
            if overflow {
                assert(bool_to_nat(overflow) == 1);
                assert(s as int == 1 * m + result.as_nat() as int);
                lemma_fundamental_div_mod_converse(s as int, m, 1, result.as_nat() as int);
                assert(result.as_nat() as int == s as int % m);
            } else {
                assert(result.as_nat() == s);
                lemma_small_mod(s as nat, m as nat);
                assert(result.as_nat() as int == s as int % m);
            }
            assert(result.as_nat() == add_mod(self.as_nat(), other.as_nat(), Self::modulus()));
        }
        result
    }

    /// Addition that signals overflow by absence: the result is absent
    /// exactly when the true sum does not fit, and is otherwise the sum.
    pub fn checked_add(&self, other: &Self) -> (r: Option<Self>)
        ensures
            r is Some <==> self.as_nat() + other.as_nat() < Self::modulus(),
            r matches Some(v) ==> v.as_nat() == self.as_nat() + other.as_nat(),
    {
        let (result, overflow) = self.overflowing_add(other);
        if overflow {
            None
        } else {
            proof {
                assert(result.as_nat() + 0 * Self::modulus() == self.as_nat() + other.as_nat());
            }
            Some(result)
        }
    }

    /// Addition whose caller has ruled overflow out.
    pub fn strict_add(&self, other: &Self) -> (r: Self)
        requires
            self.as_nat() + other.as_nat() < Self::modulus(),
        ensures
            r.as_nat() == self.as_nat() + other.as_nat(),
    {
        let (result, overflow) = self.overflowing_add(other);
        proof {
            assert(!overflow);
            assert(result.as_nat() + 0 * Self::modulus() == self.as_nat() + other.as_nat());
        }
        result
    }

    /// Limb-by-limb difference of `self`, `other` and an incoming borrow
    /// bit; the returned bit is the borrow out of the most significant
    /// limb.
    pub fn borrowing_sub(&self, other: &Self, borrow: bool) -> (r: (Self, bool))
        ensures
            r.0.as_nat() + other.as_nat() + bool_to_nat(borrow) == self.as_nat() + bool_to_nat(r.1)
                * Self::modulus(),
            r.1 <==> self.as_nat() < other.as_nat() + bool_to_nat(borrow),
    {
        let mut result = BigUInt::<N>::new();
        let mut b = borrow;
        let mut i: usize = 0;
        proof {
            self.lemma_loop_start(*other, result);
        }
        while i < N
            invariant
                i <= N,
                forall|j: int| i <= j < N ==> result.data@[j] == 0,
                nat_of_limbs(result.data@.take(i as int)) + nat_of_limbs(
                    other.data@.take(i as int),
                ) + bool_to_nat(borrow) == nat_of_limbs(self.data@.take(i as int)) + bool_to_nat(b)
                    * pow2(64 * i as nat),
            decreases N - i,
        {
            let ghost prev = result.data@;
            let ghost b_in = b;
            let (lo, b2) = limb_borrowing_sub(self.data[i], other.data[i], b);
            result.data[i] = lo;
            proof {
                let ii = i as int;
                assert(result.data@.take(ii) =~= prev.take(ii));
                assert(result.data@.take(ii + 1) =~= prev.take(ii).push(lo));
                assert(result.data@[ii] == lo);
                lemma_nat_of_limbs_take_succ(result.data@, ii);
                lemma_nat_of_limbs_take_succ(self.data@, ii);
                lemma_nat_of_limbs_take_succ(other.data@, ii);
                // a_i + b2*2^64 == lo + b_i + b_in, scaled by this limb's weight
                lemma_weighted_step(
                    self.data@[ii] as nat,
                    bool_to_nat(b2),
                    (lo as nat + other.data@[ii] as nat + bool_to_nat(b_in)) as nat,
                    i as nat,
                );
                lemma_distribute3(
                    lo as nat,
                    other.data@[ii] as nat,
                    bool_to_nat(b_in),
                    pow2(64 * i as nat),
                );
            }
            b = b2;
            i = i + 1;
        }
        proof {
            lemma_nat_of_limbs_take_full(result.data@);
            lemma_nat_of_limbs_take_full(self.data@);
            lemma_nat_of_limbs_take_full(other.data@);
            result.lemma_as_nat_bound();
            self.lemma_as_nat_bound();
            if b {
                assert(bool_to_nat(b) == 1);
                assert(result.as_nat() + other.as_nat() + bool_to_nat(borrow) == self.as_nat()
                    + Self::modulus());
                assert(self.as_nat() < other.as_nat() + bool_to_nat(borrow));
            } else {
                assert(bool_to_nat(b) == 0);
                assert(result.as_nat() + other.as_nat() + bool_to_nat(borrow) == self.as_nat());
                assert(self.as_nat() >= other.as_nat() + bool_to_nat(borrow));
            }
        }
        (result, b)
    }

    /// Subtraction with an underflow flag: the flag is set exactly when
    /// `other` exceeds `self`.
    pub fn overflowing_sub(&self, other: &Self) -> (r: (Self, bool))
        ensures
            r.0.as_nat() + other.as_nat() == self.as_nat() + bool_to_nat(r.1) * Self::modulus(),
            r.1 <==> self.as_nat() < other.as_nat(),
    {
        self.borrowing_sub(other, false)
    }

    /// Subtraction modulo 2^(64*N): wraps around when `other` exceeds
    /// `self`.
    pub fn wrapping_sub(&self, other: &Self) -> (r: Self)
        ensures
            r.as_nat() == sub_mod(self.as_nat(), other.as_nat(), Self::modulus()),
    {
        let (result, underflow) = self.overflowing_sub(other);
        proof {
            let m = Self::modulus() as int;
            let d = self.as_nat() - other.as_nat();
            result.lemma_as_nat_bound();
            assert(result.as_nat() + other.as_nat() == self.as_nat() + bool_to_nat(underflow)
                * Self::modulus());
            if underflow {
                assert(bool_to_nat(underflow) == 1);
                assert(result.as_nat() + other.as_nat() == self.as_nat() + Self::modulus());
                assert(d == (-1) * m + result.as_nat() as int);
                lemma_fundamental_div_mod_converse(d, m, -1, result.as_nat() as int);
            } else {
                assert(d == 0 * m + result.as_nat() as int);
                lemma_fundamental_div_mod_converse(d, m, 0, result.as_nat() as int);
            }
            assert(result.as_nat() as int == d % m);
            assert(result.as_nat() == sub_mod(self.as_nat(), other.as_nat(), Self::modulus()));
        }
        result
    }

    /// Subtraction that signals underflow by absence: the result is
    /// absent exactly when `other` exceeds `self`.
    pub fn checked_sub(&self, other: &Self) -> (r: Option<Self>)
        ensures
            r is Some <==> other.as_nat() <= self.as_nat(),
            r matches Some(v) ==> v.as_nat() + other.as_nat() == self.as_nat(),
    {
        let (result, underflow) = self.overflowing_sub(other);
        if underflow {
            None
        } else {
            proof {
                assert(result.as_nat() + other.as_nat() == self.as_nat() + 0 * Self::modulus());
            }
            Some(result)
        }
    }

    /// Subtraction whose caller has ruled underflow out.
    pub fn strict_sub(&self, other: &Self) -> (r: Self)
        requires
            other.as_nat() <= self.as_nat(),
        ensures
            r.as_nat() + other.as_nat() == self.as_nat(),
    {
        let (result, underflow) = self.overflowing_sub(other);
        proof {
            assert(!underflow);
            assert(result.as_nat() + other.as_nat() == self.as_nat() + 0 * Self::modulus());
        }
        result
    }
}

impl<const N: usize> Default for BigUInt<N> {
    /// The default value is zero.
    fn default() -> (r: Self)
        ensures
            r.as_nat() == 0,
    {
        BigUInt::new()
    }
}

} // verus!
