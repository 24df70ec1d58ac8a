//! Single-limb primitives and the positional value of a limb sequence.
use vstd::prelude::*;

verus! {

/// The base of the positional representation: 2^64.
pub open spec fn limb_radix() -> nat {
    0x1_0000_0000_0000_0000nat
}

/// `limb_radix()` raised to the power `n`.
pub open spec fn radix_pow(n: nat) -> nat
    decreases n,
{
    if n == 0 {
        1
    } else {
        limb_radix() * radix_pow((n - 1) as nat)
    }
}

/// Adds two limbs and an incoming carry of 0 or 1; returns the low limb of
/// the sum and the outgoing carry.
pub fn adc(a: u64, b: u64, carry: u64) -> (r: (u64, u64))
    requires
        carry <= 1,
    ensures
        r.1 <= 1,
        r.0 + r.1 * limb_radix() == a + b + carry,
{
    let sum: u64 = a.wrapping_add(b).wrapping_add(carry);
    let carry_out: u64 = ((a & b) | ((a | b) & !sum)) >> 63u32;
    proof {
        lemma_carry_out(a, b, carry, sum);
    }
    (sum, carry_out)
}

proof fn lemma_carry_out(a: u64, b: u64, c: u64, s: u64)
    by (bit_vector)
    requires
        c <= 1,
        s == (a + b + c) % 0x1_0000_0000_0000_0000,
    ensures
        ((a & b) | ((a | b) & !s)) >> 63u32 == (if a + b + c > 0xFFFF_FFFF_FFFF_FFFFu64 { 1u64 } else { 0u64 }),
{
}

/// Computes `a * b + acc` exactly and splits it into its low and high limbs.
pub fn muladd(a: u64, b: u64, acc: u64) -> (r: (u64, u64))
    ensures
        r.0 + r.1 * limb_radix() == a * b + acc,
{
    assert((a as int) * (b as int) + acc <= 0xFFFF_FFFF_FFFF_FFFE_0000_0000_0000_0001int + 0xFFFF_FFFF_FFFF_FFFFint) by (nonlinear_arith);
    let wide: u128 = (a as u128) * (b as u128) + (acc as u128);
    let low: u64 = (wide % 0x1_0000_0000_0000_0000u128) as u64;
    let high: u64 = (wide / 0x1_0000_0000_0000_0000u128) as u64;
    (low, high)
}

/// The limb at index `i`, or 0 past either end of the sequence.
pub open spec fn limb_at(s: Seq<u64>, i: int) -> nat {
    if 0 <= i < s.len() {
        s[i] as nat
    } else {
        0
    }
}

/// The value of the lowest `k` limbs of `s`, a missing limb counting as 0.
pub open spec fn prefix_value(s: Seq<u64>, k: nat) -> nat
    decreases k,
{
    if k == 0 {
        0
    } else {
        prefix_value(s, (k - 1) as nat) + limb_at(s, k - 1) * radix_pow((k - 1) as nat)
    }
}

/// The value that a little-endian limb sequence stands for:
/// the sum of `s[i] * 2^(64 * i)`.
pub open spec fn limbs_value(s: Seq<u64>) -> nat {
    prefix_value(s, s.len())
}

pub proof fn lemma_radix_pow_positive(n: nat)
    ensures
        radix_pow(n) > 0,
    decreases n,
{
    if n > 0 {
        lemma_radix_pow_positive((n - 1) as nat);
        let p = radix_pow((n - 1) as nat);
        assert(limb_radix() * p > 0) by (nonlinear_arith)
            requires
                p > 0,
        ;
    }
}

pub proof fn lemma_radix_pow_add(a: nat, b: nat)
    ensures
        radix_pow(a + b) == radix_pow(a) * radix_pow(b),
    decreases a,
{
    if a > 0 {
        lemma_radix_pow_add((a - 1) as nat, b);
        let p = radix_pow((a - 1) as nat);
        let q = radix_pow(b);
        assert(radix_pow(a + b) == limb_radix() * radix_pow(((a - 1) as nat + b) as nat));
        assert(radix_pow(a) == limb_radix() * p);
        assert(limb_radix() * (p * q) == (limb_radix() * p) * q) by (nonlinear_arith);
    } else {
        assert(radix_pow(a) == 1);
        assert(radix_pow(a + b) == radix_pow(b));
    }
}

pub proof fn lemma_radix_pow_monotone(a: nat, b: nat)
    requires
        a <= b,
    ensures
        radix_pow(a) <= radix_pow(b),
    decreases b - a,
{
    if a < b {
        lemma_radix_pow_monotone(a, (b - 1) as nat);
        lemma_radix_pow_positive((b - 1) as nat);
        assert(radix_pow(b) == limb_radix() * radix_pow((b - 1) as nat));
    }
}

/// Each limb is below the radix, so `k` limbs stay below `radix_pow(k)`.
pub proof fn lemma_prefix_value_bound(s: Seq<u64>, k: nat)
    ensures
        prefix_value(s, k) < radix_pow(k),
    decreases k,
{
    if k > 0 {
        let j = (k - 1) as nat;
        lemma_prefix_value_bound(s, j);
        let v = prefix_value(s, j);
        let l = limb_at(s, k - 1);
        let p = radix_pow(j);
        assert(v + l * p < limb_radix() * p) by (nonlinear_arith)
            requires
                v < p,
                l < limb_radix(),
        ;
    }
}

pub proof fn lemma_limbs_value_bound(s: Seq<u64>)
    ensures
        limbs_value(s) < radix_pow(s.len()),
{
    lemma_prefix_value_bound(s, s.len());
}

/// Limbs past the end count as 0.
pub proof fn lemma_prefix_value_beyond(s: Seq<u64>, k: nat)
    requires
        k >= s.len(),
    ensures
        prefix_value(s, k) == limbs_value(s),
    decreases k,
{
    if k > s.len() {
        let j = (k - 1) as nat;
        lemma_prefix_value_beyond(s, j);
        let p = radix_pow(j);
        let l = limb_at(s, j as int);
        assert(l == 0);
        assert(l * p == 0) by (nonlinear_arith)
            requires
                l == 0,
        ;
        assert(prefix_value(s, k) == prefix_value(s, j) + l * p);
    }
}

proof fn lemma_prefix_value_push(s: Seq<u64>, x: u64, k: nat)
    requires
        k <= s.len(),
    ensures
        prefix_value(s.push(x), k) == prefix_value(s, k),
    decreases k,
{
    if k > 0 {
        lemma_prefix_value_push(s, x, (k - 1) as nat);
    }
}

/// Appending a limb adds it at the next power of the radix.
pub proof fn lemma_limbs_value_push(s: Seq<u64>, x: u64)
    ensures
        limbs_value(s.push(x)) == limbs_value(s) + x * radix_pow(s.len()),
{
    lemma_prefix_value_push(s, x, s.len());
}

proof fn lemma_prefix_value_update(s: Seq<u64>, p: int, x: u64, k: nat)
    requires
        0 <= p < s.len(),
    ensures
        prefix_value(s.update(p, x), k) == prefix_value(s, k) + (if p < k {
            x * radix_pow(p as nat) - s[p] * radix_pow(p as nat)
        } else {
            0
        }),
    decreases k,
{
    if k > 0 {
        lemma_prefix_value_update(s, p, x, (k - 1) as nat);
    }
}

/// Replacing one limb changes the value by the difference at its position.
pub proof fn lemma_limbs_value_update(s: Seq<u64>, p: int, x: u64)
    requires
        0 <= p < s.len(),
    ensures
        limbs_value(s.update(p, x)) == limbs_value(s) + x * radix_pow(p as nat) - s[p] * radix_pow(
            p as nat,
        ),
{
    lemma_prefix_value_update(s, p, x, s.len());
}

proof fn lemma_prefix_value_cons(x: u64, t: Seq<u64>, k: nat)
    requires
        k <= t.len(),
    ensures
        prefix_value(seq![x] + t, k + 1) == x + limb_radix() * prefix_value(t, k),
    decreases k,
{
    if k > 0 {
        let j = (k - 1) as nat;
        lemma_prefix_value_cons(x, t, j);
        assert(limb_at(seq![x] + t, k as int) == limb_at(t, j as int));
        let v = prefix_value(t, j);
        let l = limb_at(t, j as int);
        let p = radix_pow(j);
        assert(radix_pow(k) == limb_radix() * p);
        assert(prefix_value(t, k) == v + l * p);
        assert(prefix_value(seq![x] + t, k + 1) == prefix_value(seq![x] + t, k) + limb_at(
            seq![x] + t,
            k as int,
        ) * radix_pow(k));
        assert(limb_radix() * (v + l * p) == limb_radix() * v + l * (limb_radix() * p))
            by (nonlinear_arith);
        assert(prefix_value(seq![x] + t, k) == x + limb_radix() * v);
        assert(prefix_value(seq![x] + t, k + 1) == x + limb_radix() * prefix_value(t, k));
    } else {
        assert(limb_at(seq![x] + t, 0) == x);
        assert(prefix_value(seq![x] + t, 0) == 0);
        let one = radix_pow(0);
        assert(one == 1);
        assert(x * one == x) by (nonlinear_arith)
            requires
                one == 1,
        ;
        assert(prefix_value(seq![x] + t, 1) == x);
        assert(prefix_value(seq![x] + t, (k + 1) as nat) == x + limb_radix() * prefix_value(t, k));
    }
}

/// The value seen from the lowest limb: `x + 2^64 * value(t)`.
pub proof fn lemma_limbs_value_cons(x: u64, t: Seq<u64>)
    ensures
        limbs_value(seq![x] + t) == x + limb_radix() * limbs_value(t),
{
    lemma_prefix_value_cons(x, t, t.len());
}

proof fn lemma_prefix_value_zeros(s: Seq<u64>, k: nat)
    requires
        forall|i: int| 0 <= i < s.len() ==> s[i] == 0,
    ensures
        prefix_value(s, k) == 0,
    decreases k,
{
    if k > 0 {
        lemma_prefix_value_zeros(s, (k - 1) as nat);
        assert(limb_at(s, k - 1) == 0);
    }
}

/// A sequence of zero limbs has value 0.
pub proof fn lemma_limbs_value_zeros(s: Seq<u64>)
    requires
        forall|i: int| 0 <= i < s.len() ==> s[i] == 0,
    ensures
        limbs_value(s) == 0,
{
    lemma_prefix_value_zeros(s, s.len());
}

/// The `n` lowest limbs of `v`, least significant first.
pub open spec fn limbs_of(v: nat, n: nat) -> Seq<u64>
    decreases n,
{
    if n == 0 {
        Seq::empty()
    } else {
        seq![(v % limb_radix()) as u64] + limbs_of(v / limb_radix(), (n - 1) as nat)
    }
}

/// A value below `radix_pow(n)` is what its `n` lowest limbs stand for.
pub proof fn lemma_limbs_of_value(v: nat, n: nat)
    requires
        v < radix_pow(n),
    ensures
        limbs_of(v, n).len() == n,
        limbs_value(limbs_of(v, n)) == v,
    decreases n,
{
    if n == 0 {
        assert(limbs_value(Seq::<u64>::empty()) == 0);
    } else {
        let q = v / limb_radix();
        let p = radix_pow((n - 1) as nat);
        assert(q < p) by (nonlinear_arith)
            requires
                v < limb_radix() * p,
                q == v / limb_radix(),
        ;
        lemma_limbs_of_value(q, (n - 1) as nat);
        lemma_limbs_value_cons((v % limb_radix()) as u64, limbs_of(q, (n - 1) as nat));
    }
}

/// A limb sequence is determined by its length and its value.
pub proof fn lemma_limbs_unique(s: Seq<u64>)
    ensures
        s == limbs_of(limbs_value(s), s.len()),
    decreases s.len(),
{
    if s.len() > 0 {
        let rest = s.drop_first();
        assert(s =~= seq![s[0]] + rest);
        lemma_limbs_value_cons(s[0], rest);
        lemma_limbs_unique(rest);
        let v = limbs_value(s);
        assert(v / limb_radix() == limbs_value(rest));
        assert(v % limb_radix() == s[0]);
    }
}

} // verus!
