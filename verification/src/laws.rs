//! The algebraic laws of the wrapping operations, stated over the
//! values of the fixed-width type.

use vstd::prelude::*;
use crate::biguint::BigUInt;
use crate::modular::{
    add_mod, sub_mod, mul_mod, lemma_sub_mod_undoes_add_mod, lemma_add_mod_undoes_sub_mod,
    lemma_add_mod_commutative, lemma_add_mod_associative, lemma_mul_mod_commutative,
    lemma_mul_mod_associative,
};

verus! {

impl<const N: usize> BigUInt<N> {
    /// Subtraction undoes addition modulo 2^(64*N): taking `a` away
    /// from the wrapped sum of `a` and `b` gives `b` back, and adding
    /// `a` back to that difference gives the sum again.
    pub proof fn lemma_wrapping_sub_undoes_wrapping_add(a: Self, b: Self)
        ensures
            sub_mod(add_mod(a.as_nat(), b.as_nat(), Self::modulus()), a.as_nat(), Self::modulus())
                == b.as_nat(),
            add_mod(
                a.as_nat(),
                sub_mod(
                    add_mod(a.as_nat(), b.as_nat(), Self::modulus()),
                    a.as_nat(),
                    Self::modulus(),
                ),
                Self::modulus(),
            ) == add_mod(a.as_nat(), b.as_nat(), Self::modulus()),
    {
        a.lemma_as_nat_bound();
        b.lemma_as_nat_bound();
        lemma_sub_mod_undoes_add_mod(a.as_nat(), b.as_nat(), Self::modulus());
        lemma_add_mod_undoes_sub_mod(
            a.as_nat(),
            add_mod(a.as_nat(), b.as_nat(), Self::modulus()),
            Self::modulus(),
        );
    }

    /// Addition modulo 2^(64*N) is commutative and associative.
    pub proof fn lemma_wrapping_add_commutative_associative(a: Self, b: Self, c: Self)
        ensures
            add_mod(a.as_nat(), b.as_nat(), Self::modulus()) == add_mod(
                b.as_nat(),
                a.as_nat(),
                Self::modulus(),
            ),
            add_mod(
                add_mod(a.as_nat(), b.as_nat(), Self::modulus()),
                c.as_nat(),
                Self::modulus(),
            ) == add_mod(
                a.as_nat(),
                add_mod(b.as_nat(), c.as_nat(), Self::modulus()),
                Self::modulus(),
            ),
    {
        a.lemma_as_nat_bound();
        c.lemma_as_nat_bound();
        lemma_add_mod_commutative(a.as_nat(), b.as_nat(), Self::modulus());
        lemma_add_mod_associative(a.as_nat(), b.as_nat(), c.as_nat(), Self::modulus());
    }

    /// Multiplication modulo 2^(64*N) is commutative and associative.
    pub proof fn lemma_wrapping_mul_commutative_associative(a: Self, b: Self, c: Self)
        ensures
            mul_mod(a.as_nat(), b.as_nat(), Self::modulus()) == mul_mod(
                b.as_nat(),
                a.as_nat(),
                Self::modulus(),
            ),
            mul_mod(
                mul_mod(a.as_nat(), b.as_nat(), Self::modulus()),
                c.as_nat(),
                Self::modulus(),
            ) == mul_mod(
                a.as_nat(),
                mul_mod(b.as_nat(), c.as_nat(), Self::modulus()),
                Self::modulus(),
            ),
    {
        a.lemma_as_nat_bound();
        lemma_mul_mod_commutative(a.as_nat(), b.as_nat(), Self::modulus());
        lemma_mul_mod_associative(a.as_nat(), b.as_nat(), c.as_nat(), Self::modulus());
    }
}

} // verus!
