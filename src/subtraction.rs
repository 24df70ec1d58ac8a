//! Subtraction modulo a power of the radix, by adding the complement.
use vstd::arithmetic::div_mod::lemma_fundamental_div_mod_converse;
use vstd::prelude::*;

use crate::addition::{lemma_chain_step, limb_or_zero, max_len};
use crate::hex::hex_of;
use crate::limb::{
    adc,
    lemma_limbs_of_value,
    lemma_limbs_unique,
    lemma_limbs_value_bound,
    lemma_radix_pow_monotone,
    lemma_radix_pow_positive,
    limbs_of,
    lemma_prefix_value_beyond,
    limb_radix,
    limbs_value,
    prefix_value,
    radix_pow,
};
use crate::number::Number;

verus! {

proof fn lemma_complement(x: u64)
    by (bit_vector)
    ensures
        !x == 0xFFFF_FFFF_FFFF_FFFFu64 - x,
{
}

/// The limbs of `a - b` modulo `2^(64 * n)`, `n` being the length of the
/// longer operand, as [`Number::sub`] lays them out.
pub open spec fn difference_limbs(a: Seq<u64>, b: Seq<u64>) -> Seq<u64> {
    let n = max_len(a.len(), b.len());
    limbs_of(((limbs_value(a) - limbs_value(b)) % (radix_pow(n) as int)) as nat, n)
}

proof fn lemma_difference_limbs_value(a: Seq<u64>, b: Seq<u64>)
    ensures
        limbs_value(difference_limbs(a, b)) == (limbs_value(a) - limbs_value(b)) % (radix_pow(
            max_len(a.len(), b.len()),
        ) as int),
{
    let n = max_len(a.len(), b.len());
    lemma_radix_pow_positive(n);
    lemma_limbs_of_value(
        ((limbs_value(a) - limbs_value(b)) % (radix_pow(n) as int)) as nat,
        n,
    );
}

/// A number minus itself is zero, which is written as the empty text.
pub proof fn lemma_sub_self(a: Number)
    ensures
        limbs_value(difference_limbs(a@, a@)) == 0,
        hex_of(limbs_value(difference_limbs(a@, a@))) == Seq::<char>::empty(),
{
    let n = max_len(a@.len(), a@.len());
    lemma_radix_pow_positive(n);
    lemma_fundamental_div_mod_converse(0, radix_pow(n) as int, 0, 0);
    lemma_difference_limbs_value(a@, a@);
}

/// Taking a larger number from a smaller one wraps around: the result is
/// `2^(64 * n) - (b - a)`, `n` being the length of the longer operand.
pub proof fn lemma_sub_wraps(a: Number, b: Number)
    requires
        b.value() > a.value(),
    ensures
        limbs_value(difference_limbs(a@, b@)) == radix_pow(max_len(a@.len(), b@.len())) - (
        b.value() - a.value()),
        hex_of(limbs_value(difference_limbs(a@, b@))) == hex_of(
            (radix_pow(max_len(a@.len(), b@.len())) - (b.value() - a.value())) as nat,
        ),
{
    let n = max_len(a@.len(), b@.len());
    lemma_limbs_value_bound(b@);
    lemma_radix_pow_monotone(b@.len(), n);
    let p = radix_pow(n) as int;
    lemma_fundamental_div_mod_converse(
        a.value() - b.value(),
        p,
        -1,
        p - (b.value() - a.value()),
    );
    lemma_difference_limbs_value(a@, b@);
}

impl Number {
    /// The difference modulo `2^(64 * n)`, where `n` is the length of the
    /// longer operand; the result has exactly `n` limbs. When `rhs` is the
    /// larger value the result wraps around instead of failing.
    pub fn sub(&self, rhs: &Number) -> (r: Number)
        ensures
            r@ == difference_limbs(self@, rhs@),
            r.value() == (self.value() - rhs.value()) % (radix_pow(
                max_len(self@.len(), rhs@.len()),
            ) as int),
    {
        let a = self.limbs();
        let b = rhs.limbs();
        let la = a.len();
        let lb = b.len();
        let n: usize = if la >= lb {
            la
        } else {
            lb
        };
        let mut out: Vec<u64> = Vec::with_capacity(n);
        let mut carry: u64 = 1;
        let mut i: usize = 0;
        while i < n
            invariant
                a@ == self@,
                b@ == rhs@,
                la == self@.len(),
                lb == rhs@.len(),
                n == max_len(la as nat, lb as nat),
                i <= n,
                out@.len() == i,
                carry <= 1,
                limbs_value(out@) + carry * radix_pow(i as nat) == prefix_value(self@, i as nat)
                    + radix_pow(i as nat) - prefix_value(rhs@, i as nat),
            decreases n - i,
        {
            let d1 = limb_or_zero(a, i);
            let d2 = limb_or_zero(b, i);
            let (s, c) = adc(d1, !d2, carry);
            proof {
                lemma_complement(d2);
                lemma_chain_step(out@, s, c, carry, d1 as int, !d2 as int, i as nat);
                let p = radix_pow(i as nat);
                assert(radix_pow((i + 1) as nat) == limb_radix() * p);
                assert((!d2) * p == limb_radix() * p - p - d2 * p) by (nonlinear_arith)
                    requires
                        !d2 == limb_radix() - 1 - d2,
                ;
                assert(prefix_value(self@, (i + 1) as nat) == prefix_value(self@, i as nat) + d1
                    * p);
                assert(prefix_value(rhs@, (i + 1) as nat) == prefix_value(rhs@, i as nat) + d2
                    * p);
            }
            out.push(s);
            carry = c;
            i = i + 1;
        }
        proof {
            lemma_prefix_value_beyond(self@, n as nat);
            lemma_prefix_value_beyond(rhs@, n as nat);
            lemma_limbs_value_bound(out@);
            let p = radix_pow(n as nat);
            assert((carry - 1) * p == carry * p - p) by (nonlinear_arith);
            lemma_fundamental_div_mod_converse(
                self.value() - rhs.value(),
                radix_pow(n as nat) as int,
                carry - 1,
                limbs_value(out@) as int,
            );
            lemma_limbs_unique(out@);
        }
        Number::from_limbs(out)
    }
}

} // verus!
