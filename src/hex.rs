//! Conversion between numbers and big-endian hexadecimal text.
use vstd::arithmetic::div_mod::lemma_div_denominator;
use vstd::arithmetic::power::{
    lemma_pow0,
    lemma_pow1,
    lemma_pow_adds,
    lemma_pow_increases,
    lemma_pow_positive,
    pow,
};
use vstd::prelude::*;
use vstd::string::{
    is_ascii_spec_bytes,
    StrSliceExecFns,
    StringExecFns,
    StringSliceAdditionalSpecFns,
};

use crate::limb::{
    lemma_limbs_value_cons,
    lemma_limbs_value_push,
    limb_radix,
    limbs_value,
    radix_pow,
};
use crate::number::Number;

verus! {

/// The failure of [`Number::new`]: the text holds a character that is not
/// a hexadecimal digit.
#[derive(Debug, Clone, Copy, PartialEq, Eq)]
pub enum ParseError {
    InvalidDigit,
}

/// `0-9`, `A-F` or `a-f`.
pub open spec fn is_hex_digit(c: char) -> bool {
    ('0' <= c <= '9') || ('A' <= c <= 'F') || ('a' <= c <= 'f')
}

/// Every character of `s` is a hexadecimal digit.
pub open spec fn all_hex_digits(s: Seq<char>) -> bool {
    forall|i: int| 0 <= i < s.len() ==> is_hex_digit(#[trigger] s[i])
}

/// The value of one hexadecimal digit, in either case.
pub open spec fn hex_digit_value(c: char) -> nat {
    if '0' <= c <= '9' {
        (c as u32 - '0' as u32) as nat
    } else if 'A' <= c <= 'F' {
        (c as u32 - 'A' as u32 + 10) as nat
    } else if 'a' <= c <= 'f' {
        (c as u32 - 'a' as u32 + 10) as nat
    } else {
        0
    }
}

/// The value of a big-endian digit string (most significant digit first).
pub open spec fn hex_value(s: Seq<char>) -> nat
    decreases s.len(),
{
    if s.len() == 0 {
        0
    } else {
        hex_value(s.drop_last()) * 16 + hex_digit_value(s.last())
    }
}

/// The uppercase digits, indexed by value.
pub open spec fn upper_digits() -> Seq<char> {
    seq!['0', '1', '2', '3', '4', '5', '6', '7', '8', '9', 'A', 'B', 'C', 'D', 'E', 'F']
}

/// The shortest uppercase hexadecimal text of `v`: no leading zeros, and
/// the empty text for zero.
pub open spec fn hex_of(v: nat) -> Seq<char>
    decreases v,
{
    if v == 0 {
        Seq::empty()
    } else {
        hex_of(v / 16).push(upper_digits()[(v % 16) as int])
    }
}

/// `0-9` or `A-F`.
pub open spec fn is_upper_hex_digit(c: char) -> bool {
    ('0' <= c <= '9') || ('A' <= c <= 'F')
}

/// A hexadecimal literal uses each group of 16 digits, counted from the
/// right, for one limb; a shorter leading group makes one more.
pub open spec fn limb_count(digits: nat) -> nat {
    (digits + 15) / 16
}

/// Digits written after `x` shift it by one power of 16 each.
proof fn lemma_hex_value_concat(x: Seq<char>, y: Seq<char>)
    ensures
        hex_value(x + y) == hex_value(x) * pow(16, y.len()) + hex_value(y),
    decreases y.len(),
{
    if y.len() == 0 {
        assert(x + y =~= x);
        lemma_pow0(16);
    } else {
        let y0 = y.drop_last();
        lemma_hex_value_concat(x, y0);
        assert((x + y).drop_last() =~= x + y0);
        lemma_pow_adds(16, y0.len(), 1);
        lemma_pow1(16);
        let p = pow(16, y0.len());
        assert((hex_value(x) * p + hex_value(y0)) * 16 == hex_value(x) * (p * 16) + hex_value(y0)
            * 16) by (nonlinear_arith);
    }
}

proof fn lemma_sixteen_digits()
    ensures
        pow(16, 16) == limb_radix(),
{
    reveal_with_fuel(pow, 17);
}

/// Sixteen hexadecimal digits span exactly one limb.
proof fn lemma_hex_radix(k: nat)
    ensures
        pow(16, 16 * k) == radix_pow(k),
    decreases k,
{
    if k == 0 {
        lemma_pow0(16);
    } else {
        lemma_hex_radix((k - 1) as nat);
        lemma_pow_adds(16, 16 * (k - 1) as nat, 16);
        lemma_sixteen_digits();
        assert(16 * k == 16 * (k - 1) as nat + 16);
        assert(radix_pow(k) == limb_radix() * radix_pow((k - 1) as nat));
    }
}

proof fn lemma_upper_digit_round_trip(c: char)
    requires
        is_upper_hex_digit(c),
    ensures
        hex_digit_value(c) < 16,
        upper_digits()[hex_digit_value(c) as int] == c,
{
    let v = c as u32;
    assert(48 <= v <= 57 || 65 <= v <= 70);
    assert(upper_digits()[0] == '0' && upper_digits()[1] == '1' && upper_digits()[2] == '2'
        && upper_digits()[3] == '3' && upper_digits()[4] == '4' && upper_digits()[5] == '5'
        && upper_digits()[6] == '6' && upper_digits()[7] == '7' && upper_digits()[8] == '8'
        && upper_digits()[9] == '9' && upper_digits()[10] == 'A' && upper_digits()[11] == 'B'
        && upper_digits()[12] == 'C' && upper_digits()[13] == 'D' && upper_digits()[14] == 'E'
        && upper_digits()[15] == 'F');
}

proof fn lemma_hex_value_positive(h: Seq<char>)
    requires
        h.len() > 0,
        h[0] != '0',
        forall|i: int| 0 <= i < h.len() ==> is_upper_hex_digit(#[trigger] h[i]),
    ensures
        hex_value(h) > 0,
    decreases h.len(),
{
    let t = h.drop_last();
    if t.len() > 0 {
        lemma_hex_value_positive(t);
    } else {
        assert(hex_value(t) == 0);
        assert(is_upper_hex_digit(h[0]));
    }
}

/// Writing back the value of an uppercase hexadecimal text without leading
/// zeros gives that text again; so [`Number::to_upper_hex`] undoes
/// [`Number::new`] on such text.
pub proof fn lemma_round_trip(h: Seq<char>)
    requires
        h.len() > 0,
        h[0] != '0',
        forall|i: int| 0 <= i < h.len() ==> is_upper_hex_digit(#[trigger] h[i]),
    ensures
        all_hex_digits(h),
        hex_of(hex_value(h)) == h,
    decreases h.len(),
{
    let t = h.drop_last();
    let c = h.last();
    assert(is_upper_hex_digit(h[h.len() - 1]));
    lemma_upper_digit_round_trip(c);
    if t.len() > 0 {
        lemma_round_trip(t);
        lemma_hex_value_positive(t);
        lemma_hex_of_step(hex_value(t), hex_digit_value(c));
    } else {
        assert(hex_value(t) == 0);
        assert(c == h[0]);
        assert(hex_digit_value(c) > 0);
        lemma_hex_of_step(0, hex_digit_value(c));
        assert(hex_of(0) =~= Seq::<char>::empty());
    }
    assert(h =~= t.push(c));
}

/// The value of an ASCII byte read as a hexadecimal digit of `c`.
fn digit_of_byte(b: u8, Ghost(c): Ghost<char>) -> (r: Option<u64>)
    requires
        b as int == c as int,
    ensures
        r is Some <==> is_hex_digit(c),
        r matches Some(d) ==> d == hex_digit_value(c),
{
    if 48 <= b && b <= 57 {
        Some((b - 48) as u64)
    } else if 65 <= b && b <= 70 {
        Some((b - 55) as u64)
    } else if 97 <= b && b <= 102 {
        Some((b - 87) as u64)
    } else {
        None
    }
}

/// The uppercase digit of value `d`, as text.
fn upper_digit_str(d: u64) -> (r: &'static str)
    requires
        d < 16,
    ensures
        r@ == seq![upper_digits()[d as int]],
{
    let digits = "0123456789ABCDEF";
    proof {
        reveal_strlit("0123456789ABCDEF");
        assert(digits@ =~= upper_digits());
    }
    digits.substring_ascii(d as usize, d as usize + 1)
}

/// Appending digit `d` to the shortest text of `t`.
proof fn lemma_hex_of_step(t: nat, d: nat)
    requires
        d < 16,
        t > 0 || d > 0,
    ensures
        hex_of(t * 16 + d) == hex_of(t).push(upper_digits()[d as int]),
{
    assert((t * 16 + d) / 16 == t);
    assert((t * 16 + d) % 16 == d);
}

impl Number {
    /// Reads a big-endian hexadecimal literal (no prefix, sign or
    /// separators; either case). Every group of 16 digits counted from the
    /// right becomes one limb. The empty text reads as zero with no limbs.
    /// Fails exactly when some character is not a hexadecimal digit.
    pub fn new(input: &str) -> (r: Result<Number, ParseError>)
        ensures
            r is Ok <==> all_hex_digits(input@),
            r matches Ok(n) ==> n.value() == hex_value(input@) && n@.len() == limb_count(
                input@.len(),
            ),
    {
        if !input.is_ascii() {
            proof {
                let i = choose|i: int| 0 <= i < input@.len() && !('\0' <= #[trigger] input@[i] <= '\u{7f}');
                assert(!is_hex_digit(input@[i]));
            }
            return Err(ParseError::InvalidDigit);
        }
        proof {
            broadcast use is_ascii_spec_bytes;

        }
        let bytes = input.as_bytes();
        let ghost text = input@;
        assert(bytes@.len() == text.len());
        let n = bytes.len();
        let mut limbs: Vec<u64> = Vec::with_capacity(n / 16 + 1);
        let mut hi: usize = n;
        proof {
            assert(text.subrange(n as int, n as int) =~= Seq::<char>::empty());
        }
        while hi > 0
            invariant
                text == input@,
                n == text.len(),
                bytes@.len() == n,
                forall|i: int| 0 <= i < n ==> bytes@[i] as int == #[trigger] text[i] as int,
                hi <= n,
                hi > 0 ==> n - hi == 16 * limbs@.len(),
                hi == 0 ==> limbs@.len() == limb_count(n as nat),
                limbs_value(limbs@) == hex_value(text.subrange(hi as int, n as int)),
                all_hex_digits(text.subrange(hi as int, n as int)),
            decreases hi,
        {
            let lo: usize = if hi >= 16 {
                hi - 16
            } else {
                0
            };
            let mut acc: u64 = 0;
            let mut k: usize = lo;
            proof {
                assert(text.subrange(lo as int, lo as int) =~= Seq::<char>::empty());
                lemma_pow0(16);
            }
            while k < hi
                invariant
                    text == input@,
                    n == text.len(),
                    bytes@.len() == n,
                    forall|i: int| 0 <= i < n ==> bytes@[i] as int == #[trigger] text[i] as int,
                    lo <= k <= hi <= n,
                    hi - lo <= 16,
                    acc == hex_value(text.subrange(lo as int, k as int)),
                    acc < pow(16, (k - lo) as nat),
                    all_hex_digits(text.subrange(lo as int, k as int)),
                decreases hi - k,
            {
                let d = match digit_of_byte(bytes[k], Ghost(text[k as int])) {
                    Some(d) => d,
                    None => {
                        proof {
                            assert(!is_hex_digit(text[k as int]));
                        }
                        return Err(ParseError::InvalidDigit);
                    },
                };
                let ghost prev = text.subrange(lo as int, k as int);
                let ghost next = text.subrange(lo as int, k + 1);
                proof {
                    assert(next.drop_last() =~= prev);
                    lemma_pow_adds(16, (k - lo) as nat, 1);
                    lemma_pow1(16);
                    assert(pow(16, (k + 1 - lo) as nat) <= pow(16, 16)) by {
                        lemma_pow_increases(16, (k + 1 - lo) as nat, 16);
                    }
                    lemma_sixteen_digits();
                    assert forall|i: int| 0 <= i < next.len() implies is_hex_digit(
                        #[trigger] next[i],
                    ) by {
                        if i < prev.len() {
                            assert(next[i] == prev[i]);
                        }
                    }
                }
                acc = acc * 16 + d;
                k = k + 1;
            }
            let ghost group = text.subrange(lo as int, hi as int);
            let ghost upper = text.subrange(hi as int, n as int);
            proof {
                assert(group + upper =~= text.subrange(lo as int, n as int));
                lemma_hex_value_concat(group, upper);
                lemma_hex_radix(limbs@.len());
                lemma_limbs_value_push(limbs@, acc);
                assert forall|i: int| 0 <= i < group.len() + upper.len() implies is_hex_digit(
                    #[trigger] (group + upper)[i],
                ) by {
                    if i >= group.len() {
                        assert((group + upper)[i] == upper[i - group.len()]);
                    }
                }
            }
            limbs.push(acc);
            hi = lo;
        }
        proof {
            assert(text.subrange(0, n as int) =~= text);
        }
        Ok(Number::from_limbs(limbs))
    }
}

impl Number {
    /// The value as uppercase hexadecimal text without leading zeros: each
    /// limb from the most significant down as 16 digits, with the leading
    /// zeros of the whole taken off. Zero gives the empty text.
    pub fn to_upper_hex(&self) -> (r: String)
        ensures
            r@ == hex_of(self.value()),
    {
        let limbs = self.limbs();
        let len = limbs.len();
        let mut out = String::new();
        let mut started = false;
        let mut i: usize = len;
        proof {
            assert(self@.subrange(len as int, len as int) =~= Seq::<u64>::empty());
            assert(limbs_value(Seq::<u64>::empty()) == 0);
        }
        while i > 0
            invariant
                limbs@ == self@,
                len == self@.len(),
                i <= len,
                out@ == hex_of(limbs_value(self@.subrange(i as int, len as int))),
                started == (limbs_value(self@.subrange(i as int, len as int)) > 0),
            decreases i,
        {
            i = i - 1;
            let x = limbs[i];
            let ghost top = limbs_value(self@.subrange(i + 1, len as int));
            let ghost mut t: nat = top;
            let mut div: u64 = 0x1000_0000_0000_0000;
            let mut k: usize = 0;
            proof {
                lemma_sixteen_digits();
                lemma_pow0(16);
                assert(x as int / 0x1_0000_0000_0000_0000int == 0);
                assert(x as int / pow(16, 16) == 0);
                assert(top * pow(16, 0) == top);
                assert(pow(16, 15) == 0x1000_0000_0000_0000) by {
                    reveal_with_fuel(pow, 16);
                }
            }
            while k < 16
                invariant
                    k <= 16,
                    k < 16 ==> div == pow(16, (15 - k) as nat),
                    t == top * pow(16, k as nat) + x as int / pow(16, (16 - k) as nat),
                    out@ == hex_of(t),
                    started == (t > 0),
                decreases 16 - k,
            {
                proof {
                    lemma_pow_positive(16, (15 - k) as nat);
                }
                let d = (x / div) % 16;
                let ghost q = pow(16, (15 - k) as nat);
                let ghost y = x as int / q;
                proof {
                    lemma_pow_adds(16, (15 - k) as nat, 1);
                    lemma_pow_adds(16, k as nat, 1);
                    lemma_pow1(16);
                    assert((16 - k) as nat == (15 - k) as nat + 1);
                    lemma_div_denominator(x as int, q, 16);
                    assert(y == (y / 16) * 16 + d);
                    let pk = pow(16, k as nat);
                    assert(top * (pk * 16) == (top * pk) * 16) by (nonlinear_arith);
                    if t > 0 || d > 0 {
                        lemma_hex_of_step(t, d as nat);
                    }
                    t = t * 16 + d as nat;
                    if k < 15 {
                        lemma_pow_adds(16, (14 - k) as nat, 1);
                        assert((15 - k) as nat == (14 - k) as nat + 1);
                    }
                }
                if started || d != 0 {
                    out.append(upper_digit_str(d));
                    started = true;
                }
                div = div / 16;
                k = k + 1;
            }
            proof {
                lemma_pow0(16);
                assert(t == top * limb_radix() + x);
                lemma_limbs_value_cons(x, self@.subrange(i + 1, len as int));
                assert(seq![x] + self@.subrange(i + 1, len as int) =~= self@.subrange(
                    i as int,
                    len as int,
                ));
                lemma_sixteen_digits();
            }
        }
        proof {
            assert(self@.subrange(0, len as int) =~= self@);
        }
        out
    }
}

} // verus!
