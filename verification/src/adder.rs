//! Adders: half and full one-bit adders, 16-bit ripple-carry addition and
//! increment, each proved against the numeric value of its word.

use vstd::prelude::*;
use vstd::arithmetic::power2::{pow2, lemma_pow2_unfold, lemma_pow2_pos, lemma2_to64};
use crate::given::{
    Word, bit_val, bits_val, bits_int, as_signed16, nat_to_bits, lemma_bits_val_bound,
    lemma_bits_val_take_succ, lemma_nat_to_bits_len,
    lemma_nat_to_bits_val, lemma_as_signed16_identity, lemma_as_signed16_add_multiple,
};
use crate::gate::{xor, and, or};

verus! {

/// The 16-bit word holding `n` modulo 2^16, as a bit sequence.
pub open spec fn sum_bits(n: nat) -> Seq<bool> {
    nat_to_bits(16, n)
}

/// A sum of two bits: `r[0]` is the sum bit, `r[1]` the carry.
pub fn half_adder(a: bool, b: bool) -> (r: [bool; 2])
    ensures
        r[0] == (a != b),
        r[1] == (a && b),
        bit_val(r[0]) + 2 * bit_val(r[1]) == bit_val(a) + bit_val(b),
{
    [xor(a, b), and(a, b)]
}

/// A sum of three bits: `r[0]` is the sum bit, `r[1]` the carry.
pub fn full_adder(a: bool, b: bool, carry: bool) -> (r: [bool; 2])
    ensures
        bit_val(r[0]) + 2 * bit_val(r[1]) == bit_val(a) + bit_val(b) + bit_val(carry),
{
    let first = half_adder(a, b);
    let second = half_adder(first[0], carry);
    [second[0], or(first[1], second[1])]
}

/// Adder correctness under the signed reading of words: 16-bit addition is
/// integer addition reduced into the signed 16-bit range, so it agrees with
/// plain integer addition whenever the sum fits in that range.
pub proof fn lemma_sum_bits_signed(x: Seq<bool>, y: Seq<bool>)
    requires
        x.len() == 16,
        y.len() == 16,
    ensures
        bits_int(sum_bits(bits_val(x) + bits_val(y))) == as_signed16(bits_int(x) + bits_int(y)),
        -0x8000 <= bits_int(x) + bits_int(y) < 0x8000 ==> bits_int(
            sum_bits(bits_val(x) + bits_val(y)),
        ) == bits_int(x) + bits_int(y),
{
    let ux = bits_val(x) as int;
    let uy = bits_val(y) as int;
    let total = bits_val(x) + bits_val(y);
    lemma_bits_val_bound(x);
    lemma_bits_val_bound(y);
    lemma2_to64();
    vstd::arithmetic::div_mod::lemma_small_mod(bits_val(x), 0x10000);
    vstd::arithmetic::div_mod::lemma_small_mod(bits_val(y), 0x10000);
    lemma_nat_to_bits_val(16, total);
    vstd::arithmetic::div_mod::lemma_mod_bound(total as int, 0x10000);
    vstd::arithmetic::div_mod::lemma_small_mod((total as int % 0x10000) as nat, 0x10000);
    let kx: int = if ux >= 0x8000 {
        1
    } else {
        0
    };
    let ky: int = if uy >= 0x8000 {
        1
    } else {
        0
    };
    assert(bits_int(x) == ux - 0x10000 * kx);
    assert(bits_int(y) == uy - 0x10000 * ky);
    lemma_as_signed16_add_multiple(bits_int(x) + bits_int(y), kx + ky);
    lemma_as_signed16_identity(bits_int(sum_bits(total)));
    if -0x8000 <= bits_int(x) + bits_int(y) < 0x8000 {
        lemma_as_signed16_identity(bits_int(x) + bits_int(y));
    }
}

/// Increment correctness under the signed reading: adding one wraps modulo
/// 2^16 and is read back as a signed 16-bit integer.
pub proof fn lemma_inc_bits_signed(x: Seq<bool>)
    requires
        x.len() == 16,
    ensures
        bits_int(sum_bits(bits_val(x) + 1)) == as_signed16(bits_int(x) + 1),
{
    let ux = bits_val(x) as int;
    let total = bits_val(x) + 1;
    lemma_bits_val_bound(x);
    lemma2_to64();
    vstd::arithmetic::div_mod::lemma_small_mod(bits_val(x), 0x10000);
    lemma_nat_to_bits_val(16, total);
    vstd::arithmetic::div_mod::lemma_mod_bound(total as int, 0x10000);
    vstd::arithmetic::div_mod::lemma_small_mod((total as int % 0x10000) as nat, 0x10000);
    let kx: int = if ux >= 0x8000 {
        1
    } else {
        0
    };
    assert(bits_int(x) == ux - 0x10000 * kx);
    lemma_as_signed16_add_multiple(bits_int(x) + 1, kx);
    lemma_as_signed16_identity(bits_int(sum_bits(total)));
}

/// 16-bit addition; the result is the sum of the operands modulo 2^16.
pub fn add16(a: Word, b: Word) -> (sum: Word)
    ensures
        sum@ == sum_bits(bits_val(a@) + bits_val(b@)),
        bits_val(sum@) == (bits_val(a@) + bits_val(b@)) % 0x10000,
{
    let mut sum: Word = [false; 16];
    let mut carry = false;
    proof {
        assert(sum@.take(0) =~= Seq::<bool>::empty());
        assert(a@.take(0) =~= Seq::<bool>::empty());
        assert(b@.take(0) =~= Seq::<bool>::empty());
        lemma2_to64();
        crate::given::lemma_bit_weight(carry, 0);
    }
    for i in 0..16
        invariant
            sum@.len() == 16,
            bits_val(sum@.take(i as int)) + bit_val(carry) * pow2(i as nat) == bits_val(
                a@.take(i as int),
            ) + bits_val(b@.take(i as int)),
    {
        let ghost sum0 = sum@;
        let ghost carry0 = carry;
        let r = full_adder(a[i], b[i], carry);
        sum[i] = r[0];
        carry = r[1];
        proof {
            assert(sum@.take(i as int) =~= sum0.take(i as int));
            lemma_bits_val_take_succ(sum@, i as int);
            lemma_bits_val_take_succ(a@, i as int);
            lemma_bits_val_take_succ(b@, i as int);
            lemma_pow2_pos(i as nat);
            lemma_pow2_unfold((i + 1) as nat);
            let p = pow2(i as nat) as int;
            let sv = bit_val(r[0]) as int;
            let cv = bit_val(r[1]) as int;
            let av = bit_val(a@[i as int]) as int;
            let bv = bit_val(b@[i as int]) as int;
            let ov = bit_val(carry0) as int;
            assert(sv * p + cv * (2 * p) == av * p + bv * p + ov * p) by (nonlinear_arith)
                requires
                    sv + 2 * cv == av + bv + ov,
                    p > 0,
            ;
        }
    }
    proof {
        assert(sum@.take(16) =~= sum@);
        assert(a@.take(16) =~= a@);
        assert(b@.take(16) =~= b@);
        lemma2_to64();
        crate::given::lemma_bit_weight(carry, 16);
        lemma_bits_val_bound(sum@);
        let total = bits_val(a@) + bits_val(b@);
        vstd::arithmetic::div_mod::lemma_fundamental_div_mod_converse(
            total as int,
            0x10000,
            bit_val(carry) as int,
            bits_val(sum@) as int,
        );
        lemma_nat_to_bits_val(16, total);
        lemma_nat_to_bits_len(16, total);
        crate::given::lemma_bits_val_injective(sum@, nat_to_bits(16, total));
    }
    sum
}

/// 16-bit increment; the result is the operand plus one, modulo 2^16.
pub fn inc16(a: Word) -> (sum: Word)
    ensures
        sum@ == sum_bits(bits_val(a@) + 1),
        bits_val(sum@) == (bits_val(a@) + 1) % 0x10000,
{
    let mut sum: Word = [false; 16];
    let mut carry = true;
    proof {
        assert(sum@.take(0) =~= Seq::<bool>::empty());
        assert(a@.take(0) =~= Seq::<bool>::empty());
        lemma2_to64();
        crate::given::lemma_bit_weight(carry, 0);
    }
    for i in 0..16
        invariant
            sum@.len() == 16,
            bits_val(sum@.take(i as int)) + bit_val(carry) * pow2(i as nat) == bits_val(
                a@.take(i as int),
            ) + 1,
    {
        let ghost sum0 = sum@;
        let ghost carry0 = carry;
        let r = half_adder(a[i], carry);
        sum[i] = r[0];
        carry = r[1];
        proof {
            assert(sum@.take(i as int) =~= sum0.take(i as int));
            lemma_bits_val_take_succ(sum@, i as int);
            lemma_bits_val_take_succ(a@, i as int);
            lemma_pow2_pos(i as nat);
            lemma_pow2_unfold((i + 1) as nat);
            let p = pow2(i as nat) as int;
            let sv = bit_val(r[0]) as int;
            let cv = bit_val(r[1]) as int;
            let av = bit_val(a@[i as int]) as int;
            let ov = bit_val(carry0) as int;
            assert(sv * p + cv * (2 * p) == av * p + ov * p) by (nonlinear_arith)
                requires
                    sv + 2 * cv == av + ov,
                    p > 0,
            ;
        }
    }
    proof {
        assert(sum@.take(16) =~= sum@);
        assert(a@.take(16) =~= a@);
        lemma2_to64();
        crate::given::lemma_bit_weight(carry, 16);
        lemma_bits_val_bound(sum@);
        let total = bits_val(a@) + 1;
        vstd::arithmetic::div_mod::lemma_fundamental_div_mod_converse(
            total as int,
            0x10000,
            bit_val(carry) as int,
            bits_val(sum@) as int,
        );
        lemma_nat_to_bits_val(16, total);
        lemma_nat_to_bits_len(16, total);
        crate::given::lemma_bits_val_injective(sum@, nat_to_bits(16, total));
    }
    sum
}

} // verus!
