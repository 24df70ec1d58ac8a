//! Exponentiation by square-and-multiply, lowest exponent bit first.
use vstd::arithmetic::power::{
    lemma_pow0,
    lemma_pow1,
    lemma_pow_adds,
    lemma_pow_multiplies,
    lemma_square_is_pow2,
    pow,
};
use vstd::prelude::*;

use crate::hex::{hex_value, limb_count};
use crate::limb::{lemma_limbs_value_push, limbs_value};
use crate::multiplication::{lemma_product_limbs_value, product_limbs};
use crate::number::Number;

verus! {

proof fn lemma_low_bit(e: u64)
    by (bit_vector)
    ensures
        (e & 1 == 1) == (e % 2 == 1),
        e >> 1u32 == e / 2,
{
}

/// `pow(b, 2h + bit) == pow(b * b, h) * pow(b, bit)`.
proof fn lemma_pow_halve(b: int, h: nat, bit: nat)
    requires
        bit <= 1,
    ensures
        pow(b, 2 * h + bit) == pow(b * b, h) * pow(b, bit),
{
    lemma_pow_adds(b, 2 * h, bit);
    lemma_square_is_pow2(b);
    lemma_pow_multiplies(b, 2, h);
}

/// The zeroth power is the number read from "1".
pub proof fn lemma_pow_zero(b: Number, one: Number)
    requires
        one.value() == hex_value(seq!['1']),
        one@.len() == limb_count(1),
    ensures
        pow(b.value() as int, 0) == one.value(),
{
    assert(seq!['1'].drop_last() =~= Seq::<char>::empty());
    assert(hex_value(Seq::<char>::empty()) == 0);
    lemma_pow0(b.value() as int);
}

/// The first power is the base itself.
pub proof fn lemma_pow_one(b: Number)
    ensures
        pow(b.value() as int, 1) == b.value(),
{
    lemma_pow1(b.value() as int);
}

/// Each power is the one before it times the base: given `prev`, a result
/// for exponent `n - 1`, multiplying it by `b` gives the value for `n`.
pub proof fn lemma_pow_succ(b: Number, n: nat, prev: Number)
    requires
        n > 0,
        prev.value() == pow(b.value() as int, (n - 1) as nat),
    ensures
        limbs_value(product_limbs(prev@, b@)) == pow(b.value() as int, n),
{
    lemma_product_limbs_value(prev@, b@);
    lemma_pow_adds(b.value() as int, (n - 1) as nat, 1);
    lemma_pow1(b.value() as int);
}

impl Number {
    /// `self` raised to the power `exp`. The result and every intermediate
    /// number have at most `1 + len * exp` limbs, which must fit in a `usize`.
    pub fn pow(self, exp: u64) -> (r: Number)
        requires
            self@.len() * exp < usize::MAX,
        ensures
            r.value() == pow(self.value() as int, exp as nat),
            r@.len() <= 1 + self@.len() * exp,
    {
        let ghost x = self.value() as int;
        let ghost len = self@.len();
        let mut one: Vec<u64> = Vec::new();
        proof {
            lemma_limbs_value_push(one@, 1u64);
            assert(limbs_value(one@) == 0);
        }
        one.push(1u64);
        let mut result = Number::from_limbs(one);
        let mut base = self;
        let mut e = exp;
        let ghost mut scale: nat = 1;
        let ghost mut done: nat = 0;
        proof {
            assert(result.value() == 1);
            assert(pow(x, exp as nat) == result.value() * pow(base.value() as int, e as nat));
        }
        loop
            invariant_except_break
                e > 0 || exp == 0,
            invariant
                result.value() * pow(base.value() as int, e as nat) == pow(x, exp as nat),
                len * exp < usize::MAX,
                base@.len() == len * scale,
                scale >= 1,
                exp == e * scale + done,
                result@.len() <= 1 + len * done,
            ensures
                result.value() == pow(x, exp as nat),
                result@.len() <= 1 + len * exp,
            decreases e,
        {
            proof {
                lemma_low_bit(e);
            }
            let ghost h = (e / 2) as nat;
            let ghost bit = (e % 2) as nat;
            let ghost b = base.value() as int;
            proof {
                lemma_pow_halve(b, h, bit);
                lemma_pow0(b);
                lemma_pow1(b);
            }
            if e & 1 == 1 {
                proof {
                    assert(len * done + len * scale <= len * exp) by (nonlinear_arith)
                        requires
                            e >= 1,
                            exp == e * scale + done,
                    ;
                }
                let ghost prev = result.value() as int;
                result = result.mul(&base);
                proof {
                    assert(prev * b * pow(b * b, h) == prev * (pow(b * b, h) * b))
                        by (nonlinear_arith);
                    assert(len * done + len * scale == len * (done + scale)) by (nonlinear_arith);
                    done = done + scale;
                }
            } else {
                proof {
                    assert(pow(b, bit) == 1);
                }
            }
            e = e >> 1u32;
            proof {
                assert((2 * h + bit) * scale == h * (2 * scale) + bit * scale) by (nonlinear_arith);
            }
            if e == 0 {
                proof {
                    lemma_pow0(b * b);
                }
                break;
            }
            proof {
                scale = 2 * scale;
                assert(len * scale <= len * exp) by (nonlinear_arith)
                    requires
                        e >= 1,
                        exp == e * scale + done,
                ;
                assert(len * (scale / 2) + len * (scale / 2) == len * scale) by (nonlinear_arith)
                    requires
                        scale % 2 == 0,
                ;
            }
            base = base.mul(&base);
        }
        result
    }
}

} // verus!
