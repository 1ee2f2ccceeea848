//! Left shift: a block shift by whole limb positions composed with an
//! intra-limb bit shift, both widening into an `N`-limb overflow value.

use vstd::prelude::*;
use vstd::arithmetic::power2::*;
use vstd::arithmetic::mul::*;
use vstd::arithmetic::div_mod::*;
use crate::biguint::BigUInt;
use crate::limb::limb_shl_carry;
use crate::radix::{
    nat_of_limbs, lemma_nat_of_limbs_zero, lemma_nat_of_limbs_take_succ,
    lemma_nat_of_limbs_take_full, lemma_nat_of_limbs_append, lemma_limb_step, lemma_distribute3,
};

verus! {

broadcast use vstd::array::group_array_axioms;

impl<const N: usize> BigUInt<N> {
    /// Shift left by whole limb positions. Limb `i` of the result takes
    /// limb `i - k` of the source; the limbs pushed out of the window
    /// land in the low limbs of the returned overflow value.
    pub(crate) fn overflowing_shift_left(&self, shift_in_blocks: usize) -> (r: (Self, Self))
        requires
            shift_in_blocks <= N,
        ensures
            r.0.as_nat() + r.1.as_nat() * Self::modulus() == self.as_nat() * pow2(
                64 * shift_in_blocks as nat,
            ),
    {
        let k = shift_in_blocks;
        let mut result = BigUInt::<N>::new();
        let mut overflow = BigUInt::<N>::new();
        let mut i: usize = k;
        while i < N
            invariant
                k <= i <= N,
                k <= N,
                forall|j: int| 0 <= j < k ==> result.data@[j] == 0,
                forall|j: int| k <= j < i ==> result.data@[j] == self.data@[j - k],
                forall|j: int| i <= j < N ==> result.data@[j] == 0,
            decreases N - i,
        {
            result.data[i] = self.data[i - k];
            i = i + 1;
        }
        let mut j: usize = 0;
        while j < k
            invariant
                0 <= j <= k,
                k <= N,
                forall|l: int| 0 <= l < j ==> overflow.data@[l] == self.data@[l + N - k],
                forall|l: int| j <= l < N ==> overflow.data@[l] == 0,
            decreases k - j,
        {
            overflow.data[j] = self.data[N - k + j];
            j = j + 1;
        }
        proof {
            let kk = k as int;
            let nn = N as int;
            let low = self.data@.take(nn - kk);
            let high = self.data@.skip(nn - kk);
            let front_zeros = Seq::new(k as nat, |x: int| 0u64);
            let back_zeros = Seq::new((N - k) as nat, |x: int| 0u64);
            assert(result.data@ =~= front_zeros + low);
            assert(overflow.data@ =~= high + back_zeros);
            assert(self.data@ =~= low + high);
            lemma_nat_of_limbs_zero(front_zeros);
            lemma_nat_of_limbs_zero(back_zeros);
            lemma_nat_of_limbs_append(front_zeros, low);
            lemma_nat_of_limbs_append(high, back_zeros);
            lemma_nat_of_limbs_append(low, high);
            // result == low * 2^(64k), overflow == high,
            // self == low + high * 2^(64(N-k))
            let a = nat_of_limbs(low) as int;
            let b = nat_of_limbs(high) as int;
            let pk = pow2(64 * k as nat) as int;
            let pnk = pow2(64 * (N - k) as nat) as int;
            let pn = pow2(64 * N as nat) as int;
            assert(b * pnk * pk == b * pn) by {
                lemma_mul_is_associative(b, pnk, pk);
                lemma_pow2_adds(64 * (N - k) as nat, 64 * k as nat);
            }
            assert((a + b * pnk) * pk == a * pk + (b * pnk) * pk) by {
                lemma_mul_is_distributive_add_other_way(pk, a, b * pnk);
            }
            assert(nat_of_limbs(back_zeros) * pow2(64 * high.len()) == 0) by {
                lemma_mul_basics(pow2(64 * high.len()) as int);
            }
        }
        (result, overflow)
    }

    /// A single limb placed at limb position `shift_in_blocks`, all
    /// other limbs zero.
    pub(crate) fn from_u64_shifted(block: u64, shift_in_blocks: usize) -> (r: Self)
        requires
            shift_in_blocks < N,
        ensures
            r.as_nat() == block * pow2(64 * shift_in_blocks as nat),
    {
        let k = shift_in_blocks;
        let mut result = BigUInt::<N>::new();
        result.data[k] = block;
        proof {
            let kk = k as int;
            let front_zeros = Seq::new(k as nat, |x: int| 0u64);
            let back_zeros = Seq::new((N - k - 1) as nat, |x: int| 0u64);
            let rest = seq![block] + back_zeros;
            assert(result.data@ =~= front_zeros + rest);
            lemma_nat_of_limbs_zero(front_zeros);
            lemma_nat_of_limbs_zero(back_zeros);
            let single = seq![block];
            assert(single.len() == 1 && single[0] == block);
            assert(nat_of_limbs(single) == single[0] as nat + nat_of_limbs(single.drop_first())
                * pow2(64));
            assert(single.drop_first() =~= Seq::<u64>::empty());
            assert(nat_of_limbs(single) == block as nat + 0 * pow2(64));
            lemma_nat_of_limbs_append(seq![block], back_zeros);
            assert(rest[0] == block);
            assert(rest.drop_first() =~= back_zeros);
            lemma_nat_of_limbs_append(front_zeros, rest);
            assert(nat_of_limbs(back_zeros) * pow2(64 * 1) == 0) by {
                lemma_mul_basics(pow2(64) as int);
            }
        }
        result
    }

    /// Shift left by an arbitrary bit count up to the full width,
    /// keeping the whole `2N`-limb shifted quantity, split at the
    /// `N`-limb boundary. A shift by zero returns the value unchanged
    /// with a zero overflow; a shift by the full width moves the whole
    /// value into the overflow part.
    pub fn widening_shl(&self, shift_in_bits: usize) -> (r: (Self, Self))
        requires
            shift_in_bits as int <= 64 * (N as int),
        ensures
            r.0.as_nat() + r.1.as_nat() * Self::modulus() == self.as_nat() * pow2(
                shift_in_bits as nat,
            ),
            shift_in_bits == 0 ==> r.0.data@ == self.data@ && r.1.as_nat() == 0,
            shift_in_bits == 64 * (N as int) ==> r.0.as_nat() == 0 && r.1.data@ == self.data@,
    {
        let k: usize = shift_in_bits / 64;
        let s: usize = shift_in_bits % 64;
        proof {
            assert(64 * (k as int) + s == shift_in_bits && 0 <= s < 64) by {
                lemma_fundamental_div_mod(shift_in_bits as int, 64);
            }
            assert(k <= N);
        }
        let (mut result, mut overflow) = self.overflowing_shift_left(k);
        if s > 0 {
            let ghost orig_r = result.data@;
            let ghost orig_o = overflow.data@;
            proof {
                lemma_pow2_pos(s as nat);
            }
            let mut carry: u64 = 0;
            let mut i: usize = 0;
            proof {
                assert(nat_of_limbs(Seq::<u64>::empty()) == 0);
                assert(result.data@.take(0) =~= Seq::<u64>::empty());
                assert(orig_r.take(0) =~= Seq::<u64>::empty());
                assert(nat_of_limbs(orig_r.take(0)) * pow2(s as nat) == 0) by {
                    lemma_mul_basics(pow2(s as nat) as int);
                }
                lemma2_to64();
            }
            while i < N
                invariant
                    i <= N,
                    0 < s < 64,
                    orig_r.len() == N,
                    carry < pow2(s as nat),
                    forall|j: int| i <= j < N ==> result.data@[j] == orig_r[j],
                    nat_of_limbs(result.data@.take(i as int)) + carry * pow2(64 * i as nat)
                        == nat_of_limbs(orig_r.take(i as int)) * pow2(s as nat),
                decreases N - i,
            {
                let ghost prev = result.data@;
                let ghost c_in = carry;
                let (lo, c2) = limb_shl_carry(result.data[i], s, carry);
                result.data[i] = lo;
                proof {
                    let ii = i as int;
                    assert(prev[ii] == orig_r[ii]);
                    assert(result.data@.take(ii) =~= prev.take(ii));
                    assert(result.data@.take(ii + 1) =~= prev.take(ii).push(lo));
                    assert(result.data@[ii] == lo);
                    lemma_nat_of_limbs_take_succ(result.data@, ii);
                    lemma_nat_of_limbs_take_succ(orig_r, ii);
                    lemma_limb_step(
                        orig_r[ii] as nat,
                        pow2(s as nat),
                        c_in as nat,
                        lo as nat,
                        c2 as nat,
                        i as nat,
                    );
                    lemma_distribute3(
                        nat_of_limbs(orig_r.take(ii)),
                        (orig_r[ii] as nat * pow2(64 * i as nat)) as nat,
                        0,
                        pow2(s as nat),
                    );
                }
                carry = c2;
                i = i + 1;
            }
            let ghost mid_carry = carry;
            let mut j: usize = 0;
            proof {
                assert(nat_of_limbs(Seq::<u64>::empty()) == 0);
                assert(overflow.data@.take(0) =~= Seq::<u64>::empty());
                assert(orig_o.take(0) =~= Seq::<u64>::empty());
                assert(nat_of_limbs(orig_o.take(0)) * pow2(s as nat) == 0) by {
                    lemma_mul_basics(pow2(s as nat) as int);
                }
            }
            while j < N
                invariant
                    j <= N,
                    0 < s < 64,
                    orig_o.len() == N,
                    carry < pow2(s as nat),
                    forall|l: int| j <= l < N ==> overflow.data@[l] == orig_o[l],
                    nat_of_limbs(overflow.data@.take(j as int)) + carry * pow2(64 * j as nat)
                        == nat_of_limbs(orig_o.take(j as int)) * pow2(s as nat) + mid_carry,
                decreases N - j,
            {
                let ghost prev = overflow.data@;
                let ghost c_in = carry;
                let (lo, c2) = limb_shl_carry(overflow.data[j], s, carry);
                overflow.data[j] = lo;
                proof {
                    let jj = j as int;
                    assert(prev[jj] == orig_o[jj]);
                    assert(overflow.data@.take(jj) =~= prev.take(jj));
                    assert(overflow.data@.take(jj + 1) =~= prev.take(jj).push(lo));
                    assert(overflow.data@[jj] == lo);
                    lemma_nat_of_limbs_take_succ(overflow.data@, jj);
                    lemma_nat_of_limbs_take_succ(orig_o, jj);
                    lemma_limb_step(
                        orig_o[jj] as nat,
                        pow2(s as nat),
                        c_in as nat,
                        lo as nat,
                        c2 as nat,
                        j as nat,
                    );
                    lemma_distribute3(
                        nat_of_limbs(orig_o.take(jj)),
                        (orig_o[jj] as nat * pow2(64 * j as nat)) as nat,
                        0,
                        pow2(s as nat),
                    );
                }
                carry = c2;
                j = j + 1;
            }
            proof {
                lemma_nat_of_limbs_take_full(result.data@);
                lemma_nat_of_limbs_take_full(overflow.data@);
                lemma_nat_of_limbs_take_full(orig_r);
                lemma_nat_of_limbs_take_full(orig_o);
                let m = Self::modulus() as int;
                let a = self.as_nat() as int;
                let oldr = nat_of_limbs(orig_r) as int;
                let oldo = nat_of_limbs(orig_o) as int;
                let newr = nat_of_limbs(result.data@) as int;
                let newo = nat_of_limbs(overflow.data@) as int;
                let pss = pow2(s as nat) as int;
                let pk = pow2(64 * k as nat) as int;
                // block-shift equation, scaled by 2^s
                assert((oldr + oldo * m) * pss == (a * pk) * pss) by {
                    assert(oldr + oldo * m == a * pk);
                }
                assert((oldr + oldo * m) * pss == oldr * pss + (oldo * m) * pss) by {
                    lemma_mul_is_distributive_add_other_way(pss, oldr, oldo * m);
                }
                assert((oldo * m) * pss == (oldo * pss) * m) by {
                    lemma_mul_is_associative(oldo, m, pss);
                    lemma_mul_is_associative(oldo, pss, m);
                    lemma_mul_is_commutative(m, pss);
                }
                // the two sweeps, chained through the middle carry
                assert(newr + mid_carry * m == oldr * pss);
                assert(newo + carry * pow2(64 * N as nat) == oldo * pss + mid_carry);
                assert((newo + carry * pow2(64 * N as nat)) * m == newo * m + (carry * m) * m) by {
                    lemma_mul_is_distributive_add_other_way(
                        m,
                        newo,
                        (carry * pow2(64 * N as nat)) as int,
                    );
                    lemma_mul_is_associative(carry as int, m, m);
                }
                assert((oldo * pss + mid_carry) * m == (oldo * pss) * m + mid_carry * m) by {
                    lemma_mul_is_distributive_add_other_way(m, oldo * pss, mid_carry as int);
                }
                // so: newr + newo*m + carry*m*m == (a*pk)*pss
                assert(newr + newo * m + (carry * m) * m == (a * pk) * pss);
                // (a*pk)*pss == a * 2^shift < m*m, hence carry == 0
                assert((a * pk) * pss == a * pow2(shift_in_bits as nat)) by {
                    lemma_mul_is_associative(a, pk, pss);
                    lemma_pow2_adds(64 * k as nat, s as nat);
                }
                self.lemma_as_nat_bound();
                assert(pow2(shift_in_bits as nat) <= m) by {
                    if (shift_in_bits as int) < 64 * (N as int) {
                        lemma_pow2_strictly_increases(shift_in_bits as nat, 64 * N as nat);
                    }
                }
                assert(a * pow2(shift_in_bits as nat) < m * m) by {
                    lemma_mul_upper_bound(a, m - 1, pow2(shift_in_bits as nat) as int, m);
                    lemma_mul_is_distributive_sub_other_way(m, m, 1);
                }
                if carry >= 1 {
                    assert((carry * m) * m >= 1 * m * m) by {
                        lemma_mul_inequality(1, carry as int, m);
                        lemma_mul_inequality(1 * m, carry * m, m);
                    }
                    assert(m * m <= newr + newo * m + (carry * m) * m);
                    assert(newr + newo * m >= 0) by {
                        lemma_mul_nonnegative(newo, m);
                    }
                    assert(false);
                }
                assert(newr + newo * m == a * pow2(shift_in_bits as nat));
            }
        } else {
            proof {
                assert(shift_in_bits == 64 * (k as int));
                assert(pow2(shift_in_bits as nat) == pow2(64 * k as nat));
            }
        }
        proof {
            let m = Self::modulus() as int;
            let a = self.as_nat() as int;
            let r0 = result.as_nat() as int;
            let r1 = overflow.as_nat() as int;
            result.lemma_as_nat_bound();
            overflow.lemma_as_nat_bound();
            self.lemma_as_nat_bound();
            if shift_in_bits == 0 {
                lemma2_to64();
                assert(pow2(0) == 1);
                assert(r0 + r1 * m == a * 1);
                assert(a * 1 == a) by {
                    lemma_mul_basics(a);
                }
                if r1 >= 1 {
                    assert(r1 * m >= 1 * m) by {
                        lemma_mul_inequality(1, r1, m);
                    }
                    assert(false);
                }
                assert(r1 == 0 && r0 == a);
                result.lemma_canonical(*self);
            }
            if shift_in_bits as int == 64 * (N as int) {
                assert(pow2(shift_in_bits as nat) == Self::modulus());
                assert(r0 + r1 * m == a * m);
                assert(r0 == (a - r1) * m) by {
                    lemma_mul_is_distributive_sub_other_way(m, a, r1);
                }
                if a - r1 >= 1 {
                    assert((a - r1) * m >= 1 * m) by {
                        lemma_mul_inequality(1, a - r1, m);
                    }
                    assert(false);
                }
                if a - r1 <= -1 {
                    assert((a - r1) * m <= (-1) * m) by {
                        lemma_mul_inequality(a - r1, -1, m);
                    }
                    assert(false);
                }
                assert(r1 == a && r0 == 0);
                overflow.lemma_canonical(*self);
            }
        }
        (result, overflow)
    }
}

} // verus!
