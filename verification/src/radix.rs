//! The mathematical reading of a limb sequence: base 2^64, least
//! significant limb first.

use vstd::prelude::*;
use vstd::arithmetic::power2::*;
use vstd::arithmetic::mul::*;
use vstd::arithmetic::div_mod::*;

verus! {

/// The natural number that a limb sequence stands for:
/// `s[0] + s[1]*2^64 + s[2]*2^128 + ...`.
pub open spec fn nat_of_limbs(s: Seq<u64>) -> nat
    decreases s.len(),
{
    if s.len() == 0 {
        0
    } else {
        s[0] as nat + nat_of_limbs(s.drop_first()) * pow2(64)
    }
}

/// A sequence of `n` limbs stands for a number below `2^(64*n)`.
pub proof fn lemma_nat_of_limbs_bound(s: Seq<u64>)
    ensures
        nat_of_limbs(s) < pow2(64 * s.len()),
    decreases s.len(),
{
    if s.len() == 0 {
        lemma2_to64();
        assert(pow2(0) == 1);
    } else {
        lemma_nat_of_limbs_bound(s.drop_first());
        lemma2_to64();
        let rest = nat_of_limbs(s.drop_first());
        let m = (64 * (s.len() - 1)) as nat;
        assert(rest * pow2(64) <= (pow2(m) - 1) * pow2(64)) by {
            lemma_mul_inequality(rest as int, pow2(m) - 1, pow2(64) as int);
        }
        assert(pow2(m) * pow2(64) == pow2(64 * s.len())) by {
            lemma_pow2_adds(m, 64);
        }
    }
}

/// An all-zero limb sequence stands for zero.
pub proof fn lemma_nat_of_limbs_zero(s: Seq<u64>)
    requires
        forall|i: int| 0 <= i < s.len() ==> s[i] == 0,
    ensures
        nat_of_limbs(s) == 0,
    decreases s.len(),
{
    if s.len() > 0 {
        assert forall|i: int| 0 <= i < s.drop_first().len() implies s.drop_first()[i] == 0 by {
            assert(s.drop_first()[i] == s[i + 1]);
        }
        lemma_nat_of_limbs_zero(s.drop_first());
        assert(s[0] == 0);
        assert(nat_of_limbs(s) == s[0] as nat + 0 * pow2(64));
    }
}

/// Reading one more limb adds `s[i] * 2^(64*i)` to the prefix reading.
pub proof fn lemma_nat_of_limbs_take_succ(s: Seq<u64>, i: int)
    requires
        0 <= i < s.len(),
    ensures
        nat_of_limbs(s.take(i + 1)) == nat_of_limbs(s.take(i)) + s[i] * pow2((64 * i) as nat),
    decreases i,
{
    if i == 0 {
        lemma2_to64();
        assert(pow2(0) == 1);
        let u = s.take(1);
        assert(u.len() == 1);
        assert(nat_of_limbs(u) == u[0] as nat + nat_of_limbs(u.drop_first()) * pow2(64));
        assert(u.drop_first() =~= Seq::<u64>::empty());
        assert(nat_of_limbs(Seq::<u64>::empty()) == 0);
        assert(nat_of_limbs(u) == s[0] as nat);
        assert(s.take(0) =~= Seq::<u64>::empty());
        assert(nat_of_limbs(s.take(0)) == 0);
        assert(s[0] * pow2(0) == s[0]) by {
            lemma_mul_basics(s[0] as int);
        }
    } else {
        let t = s.drop_first();
        let u = s.take(i + 1);
        let v = s.take(i);
        assert(u.len() == i + 1 && v.len() == i);
        assert(nat_of_limbs(u) == u[0] as nat + nat_of_limbs(u.drop_first()) * pow2(64));
        assert(nat_of_limbs(v) == v[0] as nat + nat_of_limbs(v.drop_first()) * pow2(64));
        assert(u.drop_first() =~= t.take(i));
        assert(v.drop_first() =~= t.take(i - 1));
        assert(u[0] == s[0] && v[0] == s[0]);
        lemma_nat_of_limbs_take_succ(t, i - 1);
        // nat_of(t.take(i)) == nat_of(t.take(i-1)) + t[i-1] * pow2(64*(i-1))
        let a = nat_of_limbs(t.take(i - 1)) as int;
        let b = t[i - 1] as int;
        let p = pow2((64 * (i - 1)) as nat) as int;
        let base = pow2(64) as int;
        assert(nat_of_limbs(t.take(i)) == a + b * p);
        assert((a + b * p) * base == a * base + (b * p) * base) by {
            lemma_mul_is_distributive_add_other_way(base, a, b * p);
        }
        assert((b * p) * base == b * (p * base)) by {
            lemma_mul_is_associative(b, p, base);
        }
        assert(p * base == pow2((64 * i) as nat)) by {
            lemma_pow2_adds((64 * (i - 1)) as nat, 64);
        }
        assert(t[i - 1] == s[i]);
    }
}

/// Reading the whole sequence is reading its full-length prefix.
pub proof fn lemma_nat_of_limbs_take_full(s: Seq<u64>)
    ensures
        nat_of_limbs(s.take(s.len() as int)) == nat_of_limbs(s),
{
    assert(s.take(s.len() as int) =~= s);
}

/// `lo + cout*2^64 == rhs` scaled by the weight of limb position `i`.
pub proof fn lemma_weighted_step(lo: nat, cout: nat, rhs: nat, i: nat)
    requires
        lo + cout * pow2(64) == rhs,
    ensures
        lo * pow2(64 * i) + cout * pow2(64 * (i + 1)) == rhs * pow2(64 * i),
{
    let p = pow2(64 * i);
    assert(pow2(64 * (i + 1)) == p * pow2(64)) by {
        lemma_pow2_adds(64 * i, 64);
    }
    assert(cout * (p * pow2(64)) == (cout * pow2(64)) * p) by {
        lemma_mul_is_associative(cout as int, p as int, pow2(64) as int);
        lemma_mul_is_associative(cout as int, pow2(64) as int, p as int);
        lemma_mul_is_commutative(p as int, pow2(64) as int);
    }
    assert((lo + cout * pow2(64)) * p == lo * p + (cout * pow2(64)) * p) by {
        lemma_mul_is_distributive_add_other_way(p as int, lo as int, (cout * pow2(64)) as int);
    }
}

/// Distributes `(x + y) * p` and `(x + y + z) * p`.
pub proof fn lemma_distribute3(x: nat, y: nat, z: nat, p: nat)
    ensures
        (x + y) * p == x * p + y * p,
        (x + y + z) * p == x * p + y * p + z * p,
{
    lemma_mul_is_distributive_add_other_way(p as int, x as int, y as int);
    lemma_mul_is_distributive_add_other_way(p as int, (x + y) as int, z as int);
}

/// One limb of a multiply-accumulate sweep, scaled by the weight of
/// limb position `i`: `lo + cout*2^64 == ai*m + cin` spread over the
/// weights.
pub proof fn lemma_limb_step(ai: nat, m: nat, cin: nat, lo: nat, cout: nat, i: nat)
    requires
        lo + cout * pow2(64) == ai * m + cin,
    ensures
        lo * pow2(64 * i) + cout * pow2(64 * (i + 1)) == (ai * pow2(64 * i)) * m + cin * pow2(
            64 * i,
        ),
{
    let p = pow2(64 * i);
    lemma_weighted_step(lo, cout, (ai * m + cin) as nat, i);
    lemma_distribute3(ai * m, cin, 0, p);
    assert((ai * m) * p == (ai * p) * m) by {
        lemma_mul_is_associative(ai as int, m as int, p as int);
        lemma_mul_is_associative(ai as int, p as int, m as int);
        lemma_mul_is_commutative(m as int, p as int);
    }
}

/// Concatenation reads as the low part plus the high part shifted by
/// the low part's width.
pub proof fn lemma_nat_of_limbs_append(s: Seq<u64>, t: Seq<u64>)
    ensures
        nat_of_limbs(s + t) == nat_of_limbs(s) + nat_of_limbs(t) * pow2(64 * s.len()),
    decreases s.len(),
{
    if s.len() == 0 {
        assert(s + t =~= t);
        lemma2_to64();
        assert(pow2(0) == 1);
        assert(nat_of_limbs(t) * 1 == nat_of_limbs(t)) by {
            lemma_mul_basics(nat_of_limbs(t) as int);
        }
    } else {
        let u = s + t;
        assert(u.len() > 0);
        assert(u[0] == s[0]);
        assert(u.drop_first() =~= s.drop_first() + t);
        lemma_nat_of_limbs_append(s.drop_first(), t);
        let a = nat_of_limbs(s.drop_first()) as int;
        let b = nat_of_limbs(t) as int;
        let p = pow2(64 * (s.len() - 1) as nat) as int;
        let base = pow2(64) as int;
        assert((a + b * p) * base == a * base + (b * p) * base) by {
            lemma_mul_is_distributive_add_other_way(base, a, b * p);
        }
        assert((b * p) * base == b * (p * base)) by {
            lemma_mul_is_associative(b, p, base);
        }
        assert(p * base == pow2(64 * s.len())) by {
            lemma_pow2_adds(64 * (s.len() - 1) as nat, 64);
        }
    }
}

/// A value is zero exactly when every limb is zero.
pub proof fn lemma_nat_of_limbs_zero_iff(s: Seq<u64>)
    ensures
        nat_of_limbs(s) == 0 <==> (forall|i: int| 0 <= i < s.len() ==> s[i] == 0),
    decreases s.len(),
{
    if s.len() == 0 {
    } else {
        lemma_nat_of_limbs_zero_iff(s.drop_first());
        let rest = nat_of_limbs(s.drop_first());
        lemma2_to64();
        if rest > 0 {
            assert(rest * pow2(64) >= 1 * pow2(64)) by {
                lemma_mul_inequality(1, rest as int, pow2(64) as int);
            }
        }
        if nat_of_limbs(s) == 0 {
            assert forall|i: int| 0 <= i < s.len() implies s[i] == 0 by {
                if i > 0 {
                    assert(s[i] == s.drop_first()[i - 1]);
                }
            }
        } else {
            if forall|i: int| 0 <= i < s.len() ==> s[i] == 0 {
                assert forall|i: int| 0 <= i < s.drop_first().len() implies s.drop_first()[i]
                    == 0 by {
                    assert(s.drop_first()[i] == s[i + 1]);
                }
                assert(s[0] == 0);
                assert(rest == 0);
            }
        }
    }
}

/// Fixed-width representation is canonical: equal values have equal limbs.
pub proof fn lemma_nat_of_limbs_injective(a: Seq<u64>, b: Seq<u64>)
    requires
        a.len() == b.len(),
        nat_of_limbs(a) == nat_of_limbs(b),
    ensures
        a =~= b,
    decreases a.len(),
{
    if a.len() > 0 {
        lemma2_to64();
        let ra = nat_of_limbs(a.drop_first());
        let rb = nat_of_limbs(b.drop_first());
        assert(a[0] as int == nat_of_limbs(a) as int % pow2(64) as int && ra as int == nat_of_limbs(
            a,
        ) as int / pow2(64) as int) by {
            lemma_mul_is_commutative(ra as int, pow2(64) as int);
            lemma_fundamental_div_mod_converse(
                nat_of_limbs(a) as int,
                pow2(64) as int,
                ra as int,
                a[0] as int,
            );
        }
        assert(b[0] as int == nat_of_limbs(b) as int % pow2(64) as int && rb as int == nat_of_limbs(
            b,
        ) as int / pow2(64) as int) by {
            lemma_mul_is_commutative(rb as int, pow2(64) as int);
            lemma_fundamental_div_mod_converse(
                nat_of_limbs(b) as int,
                pow2(64) as int,
                rb as int,
                b[0] as int,
            );
        }
        lemma_nat_of_limbs_injective(a.drop_first(), b.drop_first());
        assert forall|i: int| 0 <= i < a.len() implies a[i] == b[i] by {
            if i > 0 {
                assert(a[i] == a.drop_first()[i - 1]);
                assert(b[i] == b.drop_first()[i - 1]);
                assert(a.drop_first() =~= b.drop_first());
            }
        }
    }
}

} // verus!
