//! A fixed 4096-bit unsigned integer: the 64-limb instantiation of the
//! engine behind a concrete type.

use vstd::prelude::*;
use vstd::arithmetic::power2::*;
use crate::biguint::BigUInt;
use crate::hex::{hex_string_of, hex_value, strip_hex_prefix, all_hex_digits, ParseError};
use crate::modular::mul_mod;
use vstd::string::StringSliceAdditionalSpecFns;

verus! {

broadcast use vstd::array::group_array_axioms;

/// An unsigned integer of exactly 64 limbs (4096 bits).
#[derive(Clone, Copy, Debug, PartialEq, Eq)]
pub struct BigUInt4096 {
    pub limbs: BigUInt<64>,
}

impl BigUInt4096 {
    /// The number this value stands for.
    pub open spec fn as_nat(self) -> nat {
        self.limbs.as_nat()
    }

    /// The modulus of the width: 2^4096.
    pub open spec fn modulus() -> nat {
        pow2(4096)
    }

    /// The width's modulus is the 64-limb modulus.
    proof fn lemma_modulus(self)
        ensures
            Self::modulus() == BigUInt::<64>::modulus(),
            self.as_nat() < Self::modulus(),
            0 < Self::modulus(),
    {
        self.limbs.lemma_as_nat_bound();
    }

    /// The zero value.
    pub fn new() -> (r: Self)
        ensures
            r.as_nat() == 0,
    {
        BigUInt4096 { limbs: BigUInt::new() }
    }

    /// Addition that signals overflow by absence.
    pub fn checked_add(&self, other: &Self) -> (r: Option<Self>)
        ensures
            r is Some <==> self.as_nat() + other.as_nat() < Self::modulus(),
            r matches Some(v) ==> v.as_nat() == self.as_nat() + other.as_nat(),
    {
        proof {
            self.lemma_modulus();
        }
        match self.limbs.checked_add(&other.limbs) {
            Some(limbs) => Some(BigUInt4096 { limbs }),
            None => None,
        }
    }

    /// Subtraction that signals underflow by absence.
    pub fn checked_sub(&self, other: &Self) -> (r: Option<Self>)
        ensures
            r is Some <==> other.as_nat() <= self.as_nat(),
            r matches Some(v) ==> v.as_nat() + other.as_nat() == self.as_nat(),
    {
        match self.limbs.checked_sub(&other.limbs) {
            Some(limbs) => Some(BigUInt4096 { limbs }),
            None => None,
        }
    }

    /// Subtraction whose caller has ruled underflow out.
    pub fn strict_sub(&self, other: &Self) -> (r: Self)
        requires
            other.as_nat() <= self.as_nat(),
        ensures
            r.as_nat() + other.as_nat() == self.as_nat(),
    {
        BigUInt4096 { limbs: self.limbs.strict_sub(&other.limbs) }
    }

    /// Scalar multiply modulo 2^4096: the carry word is discarded.
    pub fn wrapping_mul_by_u64(&self, other: u64) -> (r: Self)
        ensures
            r.as_nat() == mul_mod(self.as_nat(), other as nat, Self::modulus()),
    {
        proof {
            self.lemma_modulus();
        }
        BigUInt4096 { limbs: self.limbs.wrapping_mul_by_u64(other) }
    }

    /// Shift left by a bit count up to 4096, keeping the whole shifted
    /// quantity split at the 4096-bit boundary.
    pub fn widening_shl(&self, shift_in_bits: usize) -> (r: (Self, Self))
        requires
            shift_in_bits <= 4096,
        ensures
            r.0.as_nat() + r.1.as_nat() * Self::modulus() == self.as_nat() * pow2(
                shift_in_bits as nat,
            ),
            shift_in_bits == 0 ==> r.0 == *self && r.1.as_nat() == 0,
            shift_in_bits == 4096 ==> r.0.as_nat() == 0 && r.1 == *self,
    {
        proof {
            self.lemma_modulus();
        }
        let (low, high) = self.limbs.widening_shl(shift_in_bits);
        proof {
            if shift_in_bits == 0 {
                assert(low.data =~= self.limbs.data);
                assert(low == self.limbs);
            }
            if shift_in_bits == 4096 {
                assert(high.data =~= self.limbs.data);
                assert(high == self.limbs);
            }
        }
        (BigUInt4096 { limbs: low }, BigUInt4096 { limbs: high })
    }

    /// Multiplication that signals overflow by absence.
    pub fn checked_mul(&self, other: &Self) -> (r: Option<Self>)
        ensures
            r is Some <==> self.as_nat() * other.as_nat() < Self::modulus(),
            r matches Some(v) ==> v.as_nat() == self.as_nat() * other.as_nat(),
    {
        proof {
            self.lemma_modulus();
        }
        match self.limbs.checked_mul(&other.limbs) {
            Some(limbs) => Some(BigUInt4096 { limbs }),
            None => None,
        }
    }

    /// Multiplication whose caller has ruled overflow out.
    pub fn strict_mul(&self, other: &Self) -> (r: Self)
        requires
            self.as_nat() * other.as_nat() < Self::modulus(),
        ensures
            r.as_nat() == self.as_nat() * other.as_nat(),
    {
        proof {
            self.lemma_modulus();
        }
        BigUInt4096 { limbs: self.limbs.strict_mul(&other.limbs) }
    }

    /// Parses hexadecimal text: an optional `0x`/`0X` prefix, then up
    /// to 1024 hexadecimal digits.
    pub fn from_hex_str(s: &str) -> (r: Result<Self, ParseError>)
        ensures
            r is Ok <==> (all_hex_digits(strip_hex_prefix(s.spec_bytes()))
                && strip_hex_prefix(s.spec_bytes()).len() <= 1024),
            r matches Ok(v) ==> v.as_nat() == hex_value(strip_hex_prefix(s.spec_bytes())),
    {
        match BigUInt::<64>::from_hex_str(s) {
            Ok(limbs) => Ok(BigUInt4096 { limbs }),
            Err(e) => Err(e),
        }
    }

    /// Renders the value as `0x` followed by exactly 1024 lowercase
    /// hexadecimal digits.
    pub fn to_hex_string(&self) -> (r: String)
        ensures
            r@ == hex_string_of(self.limbs.data@),
            r@.len() == 1026,
    {
        self.limbs.to_hex_string()
    }
}

impl Default for BigUInt4096 {
    /// The default value is zero.
    fn default() -> (r: Self)
        ensures
            r.as_nat() == 0,
    {
        BigUInt4096::new()
    }
}

} // verus!
