//! Addition with carry propagation and growth.
use vstd::prelude::*;

use crate::limb::{
    adc,
    lemma_limbs_of_value,
    lemma_limbs_unique,
    lemma_limbs_value_bound,
    lemma_limbs_value_push,
    lemma_prefix_value_beyond,
    lemma_radix_pow_add,
    lemma_radix_pow_monotone,
    limb_at,
    limb_radix,
    limbs_of,
    limbs_value,
    prefix_value,
    radix_pow,
};
use crate::number::Number;

verus! {

/// The larger of two lengths.
pub open spec fn max_len(a: nat, b: nat) -> nat {
    if a >= b {
        a
    } else {
        b
    }
}

/// The length of a sum: that of the longer operand, one more when the sum
/// does not fit in it.
pub open spec fn sum_len(a: Seq<u64>, b: Seq<u64>) -> nat {
    let n = max_len(a.len(), b.len());
    if limbs_value(a) + limbs_value(b) < radix_pow(n) {
        n
    } else {
        n + 1
    }
}

/// The limbs of the sum of `a` and `b`, as [`Number::add`] lays them out.
pub open spec fn sum_limbs(a: Seq<u64>, b: Seq<u64>) -> Seq<u64> {
    limbs_of(limbs_value(a) + limbs_value(b), sum_len(a, b))
}

/// The sum always fits in the limbs that [`sum_limbs`] gives it.
pub proof fn lemma_sum_limbs_value(a: Seq<u64>, b: Seq<u64>)
    ensures
        sum_limbs(a, b).len() == sum_len(a, b),
        limbs_value(sum_limbs(a, b)) == limbs_value(a) + limbs_value(b),
{
    let n = max_len(a.len(), b.len());
    lemma_limbs_value_bound(a);
    lemma_limbs_value_bound(b);
    lemma_radix_pow_monotone(a.len(), n);
    lemma_radix_pow_monotone(b.len(), n);
    lemma_radix_pow_add(n, 1);
    assert(radix_pow(1) == limb_radix() * radix_pow(0));
    lemma_limbs_of_value(limbs_value(a) + limbs_value(b), sum_len(a, b));
}

/// Adding in either order gives the same limbs.
pub proof fn lemma_add_commutative(a: Number, b: Number)
    ensures
        sum_limbs(a@, b@) == sum_limbs(b@, a@),
{
}

/// Grouping does not change the value of a sum of three numbers. (The limb
/// counts are compared by value only, as numbers are.)
pub proof fn lemma_add_associative(a: Number, b: Number, c: Number)
    ensures
        limbs_value(sum_limbs(sum_limbs(a@, b@), c@)) == limbs_value(
            sum_limbs(a@, sum_limbs(b@, c@)),
        ),
        limbs_value(sum_limbs(sum_limbs(a@, b@), c@)) == a.value() + b.value() + c.value(),
{
    lemma_sum_limbs_value(a@, b@);
    lemma_sum_limbs_value(sum_limbs(a@, b@), c@);
    lemma_sum_limbs_value(b@, c@);
    lemma_sum_limbs_value(a@, sum_limbs(b@, c@));
}

/// The limb at `i`, or 0 past the end.
pub(crate) fn limb_or_zero(v: &Vec<u64>, i: usize) -> (r: u64)
    ensures
        r == limb_at(v@, i as int),
{
    if i < v.len() {
        v[i]
    } else {
        0
    }
}

/// One step of a carry chain: appending `s` with outgoing carry `c` to `out`
/// accounts for `d1 + d2` plus the incoming carry at position `i`.
pub(crate) proof fn lemma_chain_step(
    out: Seq<u64>,
    s: u64,
    c: u64,
    carry: u64,
    d1: int,
    d2: int,
    i: nat,
)
    requires
        out.len() == i,
        s + c * limb_radix() == d1 + d2 + carry,
    ensures
        limbs_value(out.push(s)) + c * radix_pow(i + 1) == limbs_value(out) + carry * radix_pow(i)
            + d1 * radix_pow(i) + d2 * radix_pow(i),
{
    lemma_limbs_value_push(out, s);
    let p = radix_pow(i);
    assert(radix_pow(i + 1) == limb_radix() * p);
    assert(s * p + c * (limb_radix() * p) == (s + c * limb_radix()) * p) by (nonlinear_arith);
    assert((d1 + d2 + carry) * p == d1 * p + d2 * p + carry * p) by (nonlinear_arith);
}

impl Number {
    /// The exact sum. The result is as long as the longer operand, or one
    /// limb longer when the sum needs it.
    pub fn add(&self, rhs: &Number) -> (r: Number)
        ensures
            r@ == sum_limbs(self@, rhs@),
            r.value() == self.value() + rhs.value(),
    {
        let a = self.limbs();
        let b = rhs.limbs();
        let la = a.len();
        let lb = b.len();
        let n: usize = if la >= lb {
            la
        } else {
            lb
        };
        let mut out: Vec<u64> = Vec::with_capacity(n);
        let mut carry: u64 = 0;
        let mut i: usize = 0;
        while i < n
            invariant
                a@ == self@,
                b@ == rhs@,
                la == self@.len(),
                lb == rhs@.len(),
                n == max_len(la as nat, lb as nat),
                i <= n,
                out@.len() == i,
                carry <= 1,
                limbs_value(out@) + carry * radix_pow(i as nat) == prefix_value(self@, i as nat)
                    + prefix_value(rhs@, i as nat),
            decreases n - i,
        {
            let d1 = limb_or_zero(a, i);
            let d2 = limb_or_zero(b, i);
            let (s, c) = adc(d1, d2, carry);
            proof {
                lemma_chain_step(out@, s, c, carry, d1 as int, d2 as int, i as nat);
                assert(prefix_value(self@, (i + 1) as nat) == prefix_value(self@, i as nat) + d1
                    * radix_pow(i as nat));
                assert(prefix_value(rhs@, (i + 1) as nat) == prefix_value(rhs@, i as nat) + d2
                    * radix_pow(i as nat));
            }
            out.push(s);
            carry = c;
            i = i + 1;
        }
        proof {
            lemma_prefix_value_beyond(self@, n as nat);
            lemma_prefix_value_beyond(rhs@, n as nat);
            lemma_limbs_value_bound(out@);
        }
        if carry != 0 {
            proof {
                lemma_limbs_value_push(out@, carry);
            }
            out.push(carry);
        }
        proof {
            lemma_limbs_unique(out@);
        }
        Number::from_limbs(out)
    }
}

} // verus!
