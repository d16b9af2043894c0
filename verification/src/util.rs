//! Conversions between unsigned integers and sequences of bits, most
//! significant bit first.

use vstd::arithmetic::div_mod::*;
use vstd::arithmetic::power2::*;
use vstd::prelude::*;

verus! {

/// The number that a sequence of bits spells, most significant bit first.
pub open spec fn bits_value(bits: Seq<bool>) -> nat
    decreases bits.len(),
{
    if bits.len() == 0 {
        0
    } else {
        2 * bits_value(bits.drop_last()) + (if bits.last() {
            1nat
        } else {
            0nat
        })
    }
}

/// Bit `i` of `value` written with `len` binary digits, where digit 0 is the
/// most significant one. Digits beyond the width of `value` are `false`.
pub open spec fn bit_at(value: nat, len: nat, i: int) -> bool {
    (value / pow2((len - 1 - i) as nat)) % 2 == 1
}

/// `value` written with `len` binary digits, most significant first.
pub open spec fn bits_of(value: nat, len: nat) -> Seq<bool> {
    Seq::new(len, |i: int| bit_at(value, len, i))
}

/// One more than the largest `usize`.
pub open spec fn word_modulus() -> nat {
    (usize::MAX as nat) + 1
}

/// A sequence of `n` bits spells a number below `2^n`.
pub proof fn lemma_bits_value_bound(bits: Seq<bool>)
    ensures
        bits_value(bits) < pow2(bits.len()),
    decreases bits.len(),
{
    if bits.len() == 0 {
        lemma2_to64();
    } else {
        lemma_bits_value_bound(bits.drop_last());
        lemma_pow2_unfold(bits.len());
    }
}

/// Reading the digits of the number that `bits` spells gives `bits` back.
pub proof fn lemma_bits_of_value(bits: Seq<bool>)
    ensures
        bits_of(bits_value(bits), bits.len()) == bits,
    decreases bits.len(),
{
    let n = bits.len();
    let v = bits_value(bits);
    if n > 0 {
        let front = bits.drop_last();
        let low: nat = if bits.last() {
            1
        } else {
            0
        };
        lemma_bits_of_value(front);
        lemma_fundamental_div_mod_converse(v as int, 2, bits_value(front) as int, low as int);
        assert forall|i: int| 0 <= i < n implies bit_at(v, n, i) == bits[i] by {
            if i == n - 1 {
                lemma2_to64();
                assert(pow2((n - 1 - i) as nat) == 1);
                assert(v / 1 == v);
                assert(bits[i] == bits.last());
            } else {
                let k = (n - 2 - i) as nat;
                lemma_pow2_pos(k);
                lemma_pow2_unfold(k + 1);
                lemma_div_denominator(v as int, 2, pow2(k) as int);
                assert(pow2((n - 1 - i) as nat) == 2 * pow2(k));
                assert(v / pow2((n - 1 - i) as nat) == bits_value(front) / pow2(k));
                assert(bits_of(bits_value(front), front.len())[i] == front[i]);
                assert(bit_at(bits_value(front), front.len(), i) == front[i]);
                assert(front[i] == bits[i]);
            }
        }
    }
    assert(bits_of(v, n) =~= bits);
}

/// The digits of `value` spell `value` again, up to the `len` digits kept.
pub proof fn lemma_value_of_bits(value: nat, len: nat)
    ensures
        bits_value(bits_of(value, len)) == value % pow2(len),
    decreases len,
{
    if len == 0 {
        lemma2_to64();
        assert(bits_of(value, len).len() == 0);
    } else {
        let bits = bits_of(value, len);
        let shorter = (len - 1) as nat;
        let half = value / 2;
        lemma_value_of_bits(half, shorter);
        assert(bits.drop_last() =~= bits_of(half, shorter)) by {
            assert forall|i: int| 0 <= i < shorter implies bit_at(value, len, i) == bit_at(
                half,
                shorter,
                i,
            ) by {
                let k = (len - 2 - i) as nat;
                lemma_pow2_pos(k);
                lemma_pow2_unfold(k + 1);
                lemma_div_denominator(value as int, 2, pow2(k) as int);
            }
        }
        assert(bits.last() == (value % 2 == 1)) by {
            lemma2_to64();
            assert(pow2((len - 1 - (len - 1)) as nat) == 1);
            assert(value / 1 == value);
            assert(bits.last() == bit_at(value, len, len - 1));
        }
        lemma_pow2_pos(shorter);
        lemma_pow2_unfold(len);
        lemma_breakdown(value as int, 2, pow2(shorter) as int);
    }
}

/// Dropping the last digit halves the number, and the last digit is its
/// remainder modulo two.
proof fn lemma_bits_value_step(bits: Seq<bool>, i: int)
    requires
        0 <= i < bits.len(),
    ensures
        bits_value(bits.take(i + 1)) == 2 * bits_value(bits.take(i)) + (if bits[i] {
            1nat
        } else {
            0nat
        }),
{
    assert(bits.take(i + 1).drop_last() =~= bits.take(i));
}

/// Packs bits into an integer, most significant bit first. Bits that do not
/// fit in a `usize` are shifted out at the top.
pub fn bits_to_int(bits: &[bool]) -> (packed: usize)
    ensures
        packed as nat == bits_value(bits@) % word_modulus(),
{
    let half: usize = usize::MAX / 2 + 1;
    let mut packed: usize = 0;
    let mut i: usize = 0;
    proof {
        lemma_small_mod(0, word_modulus());
    }
    while i < bits.len()
        invariant
            i <= bits.len(),
            half as nat * 2 == word_modulus(),
            packed as nat == bits_value(bits@.take(i as int)) % word_modulus(),
        decreases bits.len() - i,
    {
        let low: usize = if packed >= half {
            packed - half
        } else {
            packed
        };
        let bit: usize = if bits[i] {
            1
        } else {
            0
        };
        proof {
            let m = word_modulus() as int;
            let before = bits_value(bits@.take(i as int)) as int;
            let carry: int = if packed >= half {
                1
            } else {
                0
            };
            lemma_bits_value_step(bits@, i as int);
            lemma_fundamental_div_mod(before, m);
            assert(2 * before + bit == (2 * (before / m) + carry) * m + (2 * low + bit))
                by (nonlinear_arith)
                requires
                    before == m * (before / m) + packed,
                    packed == low + carry * (m / 2),
                    m == 2 * (m / 2),
            ;
            lemma_fundamental_div_mod_converse(
                2 * before + bit,
                m,
                2 * (before / m) + carry,
                2 * low + bit,
            );
        }
        packed = low * 2 + bit;
        i = i + 1;
    }
    proof {
        assert(bits@.take(i as int) =~= bits@);
    }
    packed
}

/// Writes `value` with `len` binary digits, most significant first.
pub fn int_to_bits(value: usize, len: u8) -> (bits: Vec<bool>)
    ensures
        bits@ == bits_of(value as nat, len as nat),
{
    digits(value, len as usize)
}

/// Writes `value` with `len` binary digits, most significant first, for
/// any number of digits.
pub fn digits(value: usize, len: usize) -> (bits: Vec<bool>)
    ensures
        bits@ == bits_of(value as nat, len as nat),
{
    let mut bits: Vec<bool> = Vec::new();
    let mut filled: usize = 0;
    while filled < len
        invariant
            filled <= len,
            bits@.len() == filled,
        decreases len - filled,
    {
        bits.push(false);
        filled = filled + 1;
    }
    let mut rest: usize = value;
    let mut done: usize = 0;
    proof {
        lemma2_to64();
    }
    while done < len
        invariant
            done <= len,
            bits@.len() == len,
            rest as nat == (value as nat) / pow2(done as nat),
            forall|j: int| len - done <= j < len ==> bits@[j] == bit_at(value as nat, len as nat, j),
        decreases len - done,
    {
        let place: usize = len - 1 - done;
        proof {
            lemma_pow2_pos(done as nat);
            lemma_pow2_unfold(done as nat + 1);
            lemma_div_denominator(value as int, pow2(done as nat) as int, 2);
            assert(pow2(done as nat) * 2 == pow2(done as nat + 1)) by (nonlinear_arith)
                requires
                    pow2(done as nat + 1) == 2 * pow2(done as nat),
            ;
        }
        bits.set(place, rest % 2 == 1);
        rest = rest / 2;
        done = done + 1;
    }
    proof {
        assert(bits@ =~= bits_of(value as nat, len as nat));
    }
    bits
}

/// A power of two that fits in a machine word has an exponent below 64.
pub proof fn lemma_exponent_fits(exponent: nat)
    requires
        pow2(exponent) <= usize::MAX,
    ensures
        exponent < 64,
{
    lemma2_to64();
    if exponent > 64 {
        lemma_pow2_strictly_increases(64, exponent);
    }
}

/// Computes a power of two.
pub fn power_of_two(exponent: usize) -> (power: usize)
    requires
        pow2(exponent as nat) <= usize::MAX,
    ensures
        power == pow2(exponent as nat),
{
    let mut power: usize = 1;
    let mut k: usize = 0;
    proof {
        lemma2_to64();
    }
    while k < exponent
        invariant
            k <= exponent,
            power == pow2(k as nat),
            pow2(exponent as nat) <= usize::MAX,
        decreases exponent - k,
    {
        proof {
            lemma_pow2_unfold(k as nat + 1);
            if k + 1 < exponent {
                lemma_pow2_strictly_increases(k as nat + 1, exponent as nat);
            }
        }
        power = power * 2;
        k = k + 1;
    }
    power
}

} // verus!
