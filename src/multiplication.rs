//! Schoolbook multiplication.
use vstd::prelude::*;

use crate::hex::{hex_of, hex_value, limb_count};
use crate::limb::{
    adc,
    lemma_limbs_of_value,
    lemma_limbs_unique,
    lemma_limbs_value_bound,
    lemma_limbs_value_update,
    lemma_limbs_value_zeros,
    lemma_prefix_value_beyond,
    lemma_prefix_value_bound,
    lemma_radix_pow_add,
    lemma_radix_pow_positive,
    limb_radix,
    limbs_of,
    limbs_value,
    muladd,
    prefix_value,
    radix_pow,
};
use crate::number::Number;

verus! {

/// One inner step of the schoolbook loop: the limb written at position
/// `i + j` and the two carries account for `d1 * d2` there.
proof fn lemma_product_step(
    v: int,
    p: int,
    m: int,
    c0: int,
    o: int,
    lo: int,
    hi: int,
    s: int,
    c: int,
    d1: int,
    d2: int,
)
    by (nonlinear_arith)
    requires
        lo + hi * limb_radix() == d1 * d2 + m,
        s + c * limb_radix() == lo + o + c0,
    ensures
        v + s * p - o * p + (hi + c) * (limb_radix() * p) == v + (m + c0) * p + d1 * d2 * p,
{
}

/// Carries that sit above a value below `radix * q` fit in one limb.
proof fn lemma_top_limb_fits(v: int, x: int, q: int, total: int)
    by (nonlinear_arith)
    requires
        v >= 0,
        x >= 0,
        q > 0,
        v + x * q == total,
        total < limb_radix() * q,
    ensures
        x < limb_radix(),
{
}

/// The limbs of the product of `a` and `b`, as [`Number::mul`] lays them
/// out: as many as both operands have together.
pub open spec fn product_limbs(a: Seq<u64>, b: Seq<u64>) -> Seq<u64> {
    limbs_of(limbs_value(a) * limbs_value(b), a.len() + b.len())
}

/// The product always fits in the limbs that [`product_limbs`] gives it.
pub proof fn lemma_product_limbs_value(a: Seq<u64>, b: Seq<u64>)
    ensures
        product_limbs(a, b).len() == a.len() + b.len(),
        limbs_value(product_limbs(a, b)) == limbs_value(a) * limbs_value(b),
{
    let va = limbs_value(a);
    let vb = limbs_value(b);
    lemma_limbs_value_bound(a);
    lemma_limbs_value_bound(b);
    lemma_radix_pow_add(a.len(), b.len());
    assert(va * vb < radix_pow(a.len()) * radix_pow(b.len())) by (nonlinear_arith)
        requires
            va < radix_pow(a.len()),
            vb < radix_pow(b.len()),
    ;
    lemma_limbs_of_value(va * vb, a.len() + b.len());
}

/// Multiplying in either order gives the same limbs.
pub proof fn lemma_mul_commutative(a: Number, b: Number)
    ensures
        product_limbs(a@, b@) == product_limbs(b@, a@),
{
    assert(a.value() * b.value() == b.value() * a.value()) by (nonlinear_arith);
}

/// Grouping does not change a product of three numbers, limbs included.
pub proof fn lemma_mul_associative(a: Number, b: Number, c: Number)
    ensures
        product_limbs(product_limbs(a@, b@), c@) == product_limbs(a@, product_limbs(b@, c@)),
{
    lemma_product_limbs_value(a@, b@);
    lemma_product_limbs_value(b@, c@);
    let (x, y, z) = (a.value(), b.value(), c.value());
    assert((x * y) * z == x * (y * z)) by (nonlinear_arith);
}

/// Multiplying by the number read from "1" keeps the value, and so the
/// text. (The product may have more limbs.)
pub proof fn lemma_mul_one(a: Number, one: Number)
    requires
        one.value() == hex_value(seq!['1']),
        one@.len() == limb_count(1),
    ensures
        limbs_value(product_limbs(a@, one@)) == a.value(),
        hex_of(limbs_value(product_limbs(a@, one@))) == hex_of(a.value()),
{
    assert(seq!['1'].drop_last() =~= Seq::<char>::empty());
    assert(hex_value(Seq::<char>::empty()) == 0);
    assert(hex_value(seq!['1']) == 1);
    lemma_product_limbs_value(a@, one@);
}

impl Number {
    /// The exact product, with as many limbs as both operands together
    /// (high limbs may be zero).
    pub fn mul(&self, rhs: &Number) -> (r: Number)
        requires
            self@.len() + rhs@.len() <= usize::MAX,
        ensures
            r@ == product_limbs(self@, rhs@),
            r@.len() == self@.len() + rhs@.len(),
            r.value() == self.value() * rhs.value(),
    {
        let a = self.limbs();
        let b = rhs.limbs();
        let la = a.len();
        let lb = b.len();
        let total: usize = la + lb;
        let mut out: Vec<u64> = vec![0u64; total];
        proof {
            assert forall|k: int| 0 <= k < out@.len() implies out@[k] == 0 by {
                assert(out@[k] == 0u64);
            }
            lemma_limbs_value_zeros(out@);
        }
        let ghost vb = rhs.value();
        assert(prefix_value(a@, 0) == 0);
        let mut i: usize = 0;
        while i < la
            invariant
                a@ == self@,
                b@ == rhs@,
                la == self@.len(),
                lb == rhs@.len(),
                total == la + lb,
                vb == limbs_value(b@),
                i <= la,
                out@.len() == total,
                limbs_value(out@) == prefix_value(a@, i as nat) * vb,
                forall|k: int| i + lb <= k < total ==> out@[k] == 0,
            decreases la - i,
        {
            let d1 = a[i];
            let mut mul_carry: u64 = 0;
            let mut sum_carry: u64 = 0;
            let mut j: usize = 0;
            let ghost ri = radix_pow(i as nat);
            proof {
                let z = prefix_value(b@, 0);
                assert(z == 0);
                assert(d1 * z * ri == 0) by (nonlinear_arith)
                    requires
                        z == 0,
                ;
            }
            while j < lb
                invariant
                    a@ == self@,
                    b@ == rhs@,
                    la == self@.len(),
                    lb == rhs@.len(),
                    total == la + lb,
                    i < la,
                    j <= lb,
                    ri == radix_pow(i as nat),
                    out@.len() == total,
                    sum_carry <= 1,
                    limbs_value(out@) + (mul_carry + sum_carry) * radix_pow((i + j) as nat)
                        == prefix_value(a@, i as nat) * vb + d1 * prefix_value(b@, j as nat) * ri,
                    forall|k: int| i + lb <= k < total ==> out@[k] == 0,
                decreases lb - j,
            {
                let d2 = b[j];
                let (lo, hi) = muladd(d1, d2, mul_carry);
                let o = out[i + j];
                let (s, c) = adc(lo, o, sum_carry);
                proof {
                    let p = radix_pow((i + j) as nat);
                    let rj = radix_pow(j as nat);
                    let pvj = prefix_value(b@, j as nat);
                    lemma_limbs_value_update(out@, (i + j) as int, s);
                    lemma_product_step(
                        limbs_value(out@) as int,
                        p as int,
                        mul_carry as int,
                        sum_carry as int,
                        o as int,
                        lo as int,
                        hi as int,
                        s as int,
                        c as int,
                        d1 as int,
                        d2 as int,
                    );
                    assert(radix_pow((i + j + 1) as nat) == limb_radix() * p);
                    lemma_radix_pow_add(i as nat, j as nat);
                    assert(prefix_value(b@, (j + 1) as nat) == pvj + d2 * rj);
                    assert(d1 * (pvj + d2 * rj) * ri == d1 * pvj * ri + d1 * d2 * (ri * rj))
                        by (nonlinear_arith);
                }
                out.set(i + j, s);
                mul_carry = hi;
                sum_carry = c;
                j = j + 1;
            }
            proof {
                let q = radix_pow((i + lb) as nat);
                let pva = prefix_value(a@, i as nat);
                lemma_prefix_value_beyond(b@, lb as nat);
                assert(prefix_value(a@, (i + 1) as nat) == pva + d1 * ri);
                assert(pva * vb + d1 * vb * ri == (pva + d1 * ri) * vb) by (nonlinear_arith);
                lemma_prefix_value_bound(a@, (i + 1) as nat);
                lemma_limbs_value_bound(b@);
                lemma_radix_pow_add((i + 1) as nat, lb as nat);
                assert(radix_pow((i + 1 + lb) as nat) == limb_radix() * q);
                let x = prefix_value(a@, (i + 1) as nat);
                assert(x * vb < radix_pow((i + 1) as nat) * radix_pow(lb as nat)) by (
                nonlinear_arith)
                    requires
                        x < radix_pow((i + 1) as nat),
                        vb < radix_pow(lb as nat),
                ;
                lemma_radix_pow_positive((i + lb) as nat);
                lemma_top_limb_fits(
                    limbs_value(out@) as int,
                    (mul_carry + sum_carry) as int,
                    q as int,
                    (x * vb) as int,
                );
                lemma_limbs_value_update(out@, (i + lb) as int, (mul_carry + sum_carry) as u64);
            }
            out.set(i + lb, mul_carry + sum_carry);
            i = i + 1;
        }
        proof {
            lemma_prefix_value_beyond(a@, la as nat);
            lemma_limbs_unique(out@);
        }
        Number::from_limbs(out)
    }
}

} // verus!
