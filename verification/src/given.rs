//! The primitive layer: the 16-bit word type, the NAND gate, the flipflop,
//! and the mathematical reading of bit sequences as numbers.

use vstd::prelude::*;
use vstd::arithmetic::power2::{pow2, lemma_pow2_unfold, lemma_pow2_pos, lemma2_to64};

verus! {

/// A 16-bit machine word.  Bit 0 is the least significant bit and bit 15 is
/// the most significant (sign) bit.
pub type Word = [bool; 16];

/// The numeric weight of a single bit.
pub open spec fn bit_val(b: bool) -> nat {
    if b {
        1
    } else {
        0
    }
}

/// Unsigned value of a bit sequence, least-significant bit first:
/// the sum of `bit_val(s[i]) * 2^i`.
pub open spec fn bits_val(s: Seq<bool>) -> nat
    decreases s.len(),
{
    if s.len() == 0 {
        0
    } else {
        bits_val(s.drop_last()) + bit_val(s.last()) * pow2((s.len() - 1) as nat)
    }
}

/// The `len` low bits of `n`, least-significant bit first.
pub open spec fn nat_to_bits(len: nat, n: nat) -> Seq<bool>
    decreases len,
{
    if len == 0 {
        Seq::empty()
    } else {
        seq![n % 2 == 1] + nat_to_bits((len - 1) as nat, n / 2)
    }
}

/// Reduction of an integer into the signed 16-bit range by wrapping
/// modulo 2^16.
pub open spec fn as_signed16(n: int) -> int {
    let m = n % 0x10000;
    if m >= 0x8000 {
        m - 0x10000
    } else {
        m
    }
}

/// The unsigned 16-bit number with the same two's-complement bit pattern
/// as `n`.
pub open spec fn to_unsigned16(n: i16) -> nat {
    if n >= 0 {
        n as nat
    } else {
        (n + 0x10000) as nat
    }
}

/// The two's-complement bit pattern of a signed 16-bit integer.
pub open spec fn i16_bits(n: i16) -> Seq<bool> {
    nat_to_bits(16, to_unsigned16(n))
}

/// Signed (two's-complement) value of a 16-bit sequence.
pub open spec fn bits_int(s: Seq<bool>) -> int {
    as_signed16(bits_val(s) as int)
}

/// Unsigned value of a whole word.
pub open spec fn word_val(w: Word) -> nat {
    bits_val(w@)
}

/// Signed (two's-complement) value of a whole word.
pub open spec fn word_int(w: Word) -> int {
    as_signed16(word_val(w) as int)
}

/// The weight a bit contributes at position `e`.
pub proof fn lemma_bit_weight(b: bool, e: nat)
    ensures
        bit_val(b) * pow2(e) == if b {
            pow2(e)
        } else {
            0
        },
{
    if b {
        assert(bit_val(b) == 1);
        assert(1 * pow2(e) == pow2(e));
    } else {
        assert(bit_val(b) == 0);
        assert(0 * pow2(e) == 0);
    }
}

/// A bit sequence is worth less than 2^len.
pub proof fn lemma_bits_val_bound(s: Seq<bool>)
    ensures
        bits_val(s) < pow2(s.len()),
    decreases s.len(),
{
    if s.len() == 0 {
        assert(pow2(0) == 1) by {
            lemma2_to64();
        }
    } else {
        lemma_bits_val_bound(s.drop_last());
        lemma_pow2_unfold(s.len());
        assert(bit_val(s.last()) * pow2((s.len() - 1) as nat) <= pow2((s.len() - 1) as nat));
    }
}

/// Prepending a bit multiplies the value of the rest by two.
pub proof fn lemma_bits_val_cons(b: bool, s: Seq<bool>)
    ensures
        bits_val(seq![b] + s) == bit_val(b) + 2 * bits_val(s),
    decreases s.len(),
{
    let t = seq![b] + s;
    if s.len() == 0 {
        assert(t.drop_last() =~= Seq::<bool>::empty());
        assert(pow2(0) == 1) by {
            lemma2_to64();
        }
        assert(t.last() == b);
        lemma_bit_weight(b, 0);
        assert(bits_val(Seq::<bool>::empty()) == 0);
        assert(bits_val(t) == bits_val(t.drop_last()) + bit_val(t.last()) * pow2(
            (t.len() - 1) as nat,
        ));
        assert(bits_val(t) == bit_val(b) + 2 * bits_val(s));
    } else {
        assert(t.drop_last() =~= seq![b] + s.drop_last());
        lemma_bits_val_cons(b, s.drop_last());
        lemma_pow2_unfold(s.len());
        assert(t.last() == s.last());
        lemma_bit_weight(s.last(), s.len());
        lemma_bit_weight(s.last(), (s.len() - 1) as nat);
        assert(t.len() - 1 == s.len());
        assert(bits_val(t) == bits_val(t.drop_last()) + bit_val(t.last()) * pow2(
            (t.len() - 1) as nat,
        ));
        assert(bits_val(t) == bit_val(b) + 2 * bits_val(s.drop_last()) + bit_val(s.last()) * pow2(
            s.len(),
        ));
        assert(bits_val(s) == bits_val(s.drop_last()) + bit_val(s.last()) * pow2(
            (s.len() - 1) as nat,
        ));
        assert(bits_val(t) == bit_val(b) + 2 * bits_val(s));
    }
}

/// Taking one more bit of a sequence adds that bit's weight.
pub proof fn lemma_bits_val_take_succ(s: Seq<bool>, i: int)
    requires
        0 <= i < s.len(),
    ensures
        bits_val(s.take(i + 1)) == bits_val(s.take(i)) + bit_val(s[i]) * pow2(i as nat),
{
    assert(s.take(i + 1).drop_last() =~= s.take(i));
    assert(s.take(i + 1).last() == s[i]);
}

pub proof fn lemma_nat_to_bits_len(len: nat, n: nat)
    ensures
        nat_to_bits(len, n).len() == len,
    decreases len,
{
    if len > 0 {
        lemma_nat_to_bits_len((len - 1) as nat, n / 2);
    }
}

/// `nat_to_bits` keeps exactly the value of `n` modulo 2^len.
pub proof fn lemma_nat_to_bits_val(len: nat, n: nat)
    ensures
        bits_val(nat_to_bits(len, n)) == n % pow2(len),
    decreases len,
{
    if len == 0 {
        assert(pow2(0) == 1) by {
            lemma2_to64();
        }
    } else {
        lemma_nat_to_bits_val((len - 1) as nat, n / 2);
        lemma_nat_to_bits_len((len - 1) as nat, n / 2);
        lemma_bits_val_cons(n % 2 == 1, nat_to_bits((len - 1) as nat, n / 2));
        lemma_pow2_unfold(len);
        lemma_pow2_pos((len - 1) as nat);
        lemma_mod_breakdown(n as int, pow2((len - 1) as nat) as int);
        assert(bit_val(n % 2 == 1) == n % 2);
    }
}

/// Splitting a remainder modulo `2 * p` into the low bit and a remainder
/// modulo `p`.
proof fn lemma_mod_breakdown(n: int, p: int)
    requires
        n >= 0,
        p > 0,
    ensures
        n % (2 * p) == n % 2 + 2 * ((n / 2) % p),
{
    vstd::arithmetic::div_mod::lemma_fundamental_div_mod(n, 2);
    vstd::arithmetic::div_mod::lemma_fundamental_div_mod(n / 2, p);
    vstd::arithmetic::div_mod::lemma_mod_bound(n / 2, p);
    let q = (n / 2) / p;
    let r = n % 2 + 2 * ((n / 2) % p);
    assert(n == 2 * (p * q + (n / 2) % p) + n % 2);
    assert(2 * (p * q) == (2 * p) * q) by (nonlinear_arith);
    assert(n == q * (2 * p) + r) by {
        assert((2 * p) * q == q * (2 * p)) by (nonlinear_arith);
    }
    vstd::arithmetic::div_mod::lemma_fundamental_div_mod_converse(n, 2 * p, q, r);
}

/// Round trip: rebuilding a sequence from its value gives the sequence back.
pub proof fn lemma_bits_val_round_trip(s: Seq<bool>)
    ensures
        nat_to_bits(s.len(), bits_val(s)) == s,
    decreases s.len(),
{
    if s.len() > 0 {
        let t = s.drop_first();
        assert(s =~= seq![s[0]] + t);
        lemma_bits_val_cons(s[0], t);
        lemma_bits_val_round_trip(t);
        let v = bits_val(s);
        assert(v == bit_val(s[0]) + 2 * bits_val(t));
        assert(v % 2 == bit_val(s[0]) && v / 2 == bits_val(t)) by (nonlinear_arith)
            requires
                v == bit_val(s[0]) + 2 * bits_val(t),
                bit_val(s[0]) == 0 || bit_val(s[0]) == 1,
        ;
        assert((v % 2 == 1) == s[0]);
        assert(nat_to_bits(s.len(), v) =~= seq![s[0]] + nat_to_bits((s.len() - 1) as nat, bits_val(t)));
    }
}

/// Two equally long bit sequences with the same value are equal.
pub proof fn lemma_bits_val_injective(s: Seq<bool>, t: Seq<bool>)
    requires
        s.len() == t.len(),
        bits_val(s) == bits_val(t),
    ensures
        s == t,
{
    lemma_bits_val_round_trip(s);
    lemma_bits_val_round_trip(t);
}

/// The top bit of a 16-bit sequence decides whether the value reaches 2^15.
pub proof fn lemma_sign_bit(s: Seq<bool>)
    requires
        s.len() == 16,
    ensures
        s[15] <==> bits_val(s) >= 0x8000,
{
    lemma_bits_val_bound(s.drop_last());
    lemma2_to64();
    assert(s.last() == s[15]);
    lemma_bit_weight(s.last(), 15);
}

/// Wrapping the unsigned reading of a signed integer's bit pattern gives
/// the integer back.
pub proof fn lemma_to_unsigned16_inverse(n: i16)
    ensures
        as_signed16(to_unsigned16(n) as int) == n as int,
        bits_val(i16_bits(n)) == to_unsigned16(n),
        i16_bits(n).len() == 16,
{
    lemma_nat_to_bits_val(16, to_unsigned16(n));
    lemma_nat_to_bits_len(16, to_unsigned16(n));
    lemma2_to64();
}

/// A bit sequence's value splits at any position `k`: the low `k` bits,
/// plus the remaining bits scaled by 2^k.
pub proof fn lemma_bits_val_split(s: Seq<bool>, k: int)
    requires
        0 <= k <= s.len(),
    ensures
        bits_val(s) == bits_val(s.take(k)) + pow2(k as nat) * bits_val(s.skip(k)),
    decreases s.len() - k,
{
    if k == s.len() {
        assert(s.take(k) =~= s);
        assert(s.skip(k) =~= Seq::<bool>::empty());
        assert(bits_val(s.skip(k)) == 0);
        assert(pow2(k as nat) * 0 == 0);
    } else {
        lemma_bits_val_split(s, k + 1);
        lemma_bits_val_take_succ(s, k);
        assert(s.skip(k) =~= seq![s[k]] + s.skip(k + 1));
        lemma_bits_val_cons(s[k], s.skip(k + 1));
        lemma_pow2_unfold((k + 1) as nat);
        lemma_pow2_pos(k as nat);
        let p = pow2(k as nat) as int;
        let b = bit_val(s[k]) as int;
        let rest = bits_val(s.skip(k + 1)) as int;
        let low = bits_val(s.take(k)) as int;
        assert(bits_val(s.skip(k)) == b + 2 * rest);
        assert(bits_val(s) == low + b * p + (2 * p) * rest);
        assert(p * (b + 2 * rest) == b * p + (2 * p) * rest) by (nonlinear_arith);
        assert(bits_val(s) == low + p * (b + 2 * rest));
    }
}

/// Reduction into the signed 16-bit range leaves numbers already in that
/// range unchanged.
pub proof fn lemma_as_signed16_identity(n: int)
    requires
        -0x8000 <= n < 0x8000,
    ensures
        as_signed16(n) == n,
{
    if n >= 0 {
        vstd::arithmetic::div_mod::lemma_small_mod(n as nat, 0x10000);
    } else {
        vstd::arithmetic::div_mod::lemma_mod_add_multiples_vanish(n, 0x10000);
        vstd::arithmetic::div_mod::lemma_small_mod((n + 0x10000) as nat, 0x10000);
    }
}

/// Adding a multiple of 2^16 does not change the signed reduction.
pub proof fn lemma_as_signed16_add_multiple(n: int, k: int)
    ensures
        as_signed16(n + 0x10000 * k) == as_signed16(n),
{
    vstd::arithmetic::div_mod::lemma_mod_multiples_vanish(k, n, 0x10000);
}

/// The NAND gate, the one primitive every other gate is built from.
pub fn nand(a: bool, b: bool) -> (r: bool)
    ensures
        r == !(a && b),
{
    !(a && b)
}

/// A one-bit memory cell: remembers the last value it was clocked with.
pub struct Flipflop {
    bit: bool,
}

impl View for Flipflop {
    type V = bool;

    closed spec fn view(&self) -> bool {
        self.bit
    }
}

impl Flipflop {
    pub fn new() -> (r: Self)
        ensures
            r@ == false,
    {
        Flipflop { bit: false }
    }

    pub fn out(&self) -> (r: bool)
        ensures
            r == self@,
    {
        self.bit
    }

    pub fn clock(&mut self, a: bool)
        ensures
            final(self)@ == a,
    {
        self.bit = a;
    }
}

/// Reads an address prefix of at most 16 bits as an unsigned index.
pub fn bits_index<const N: usize>(bits: &[bool; N]) -> (r: usize)
    requires
        N <= 16,
    ensures
        r == bits_val(bits@),
        r < pow2(N as nat),
{
    let mut r: usize = 0;
    proof {
        assert(bits@.subrange(N as int, N as int) =~= Seq::<bool>::empty());
    }
    for i in 0..N
        invariant
            N <= 16,
            r as nat == bits_val(bits@.subrange(N - i as int, N as int)),
            r < 0x10000,
    {
        let idx = N - 1 - i;
        proof {
            let s = bits@.subrange(N - i - 1, N as int);
            assert(s =~= seq![bits@[N - i - 1]] + bits@.subrange(N - i as int, N as int));
            lemma_bits_val_cons(bits@[N - i - 1], bits@.subrange(N - i as int, N as int));
            lemma_bits_val_bound(s);
            lemma2_to64();
            if s.len() < 16 {
                vstd::arithmetic::power2::lemma_pow2_strictly_increases(s.len(), 16);
            }
        }
        r = 2 * r + (if bits[idx] {
            1
        } else {
            0
        });
    }
    proof {
        assert(bits@.subrange(0, N as int) =~= bits@);
        lemma_bits_val_bound(bits@);
    }
    r
}

/// Builds the word whose two's-complement value is `a`.
pub fn int2word(a: i16) -> (w: Word)
    ensures
        w@ == i16_bits(a),
        word_int(w) == a as int,
        word_val(w) == to_unsigned16(a),
{
    let u: u16 = if a >= 0 {
        a as u16
    } else {
        ((a as i32) + 0x10000) as u16
    };
    let mut w: Word = [false; 16];
    let mut v: u16 = u;
    assert(w@.take(0) =~= Seq::<bool>::empty());
    assert(pow2(0) == 1) by {
        lemma2_to64();
    }
    assert(bits_val(w@.take(0)) == 0);
    assert((v as nat) * pow2(0) == v as nat);
    for i in 0..16
        invariant
            u == to_unsigned16(a),
            w@.len() == 16,
            bits_val(w@.take(i as int)) + (v as nat) * pow2(i as nat) == u as nat,
    {
        let ghost w0 = w@;
        let b = v % 2 == 1;
        w[i] = b;
        proof {
            assert(w@.take(i as int) =~= w0.take(i as int));
            lemma_bits_val_take_succ(w@, i as int);
            lemma_pow2_pos(i as nat);
            lemma_pow2_unfold((i + 1) as nat);
            let p = pow2(i as nat) as int;
            let vi = v as int;
            let bv = bit_val(b) as int;
            assert(bv == vi % 2);
            assert(bv * p + (vi / 2) * (2 * p) == vi * p) by (nonlinear_arith)
                requires
                    p > 0,
                    vi >= 0,
                    bv == vi % 2,
            ;
        }
        v = v / 2;
    }
    proof {
        assert(w@.take(16) =~= w@);
        lemma2_to64();
        if v > 0 {
            assert((v as int) * (pow2(16) as int) >= pow2(16) as int) by (nonlinear_arith)
                requires
                    v as int >= 1,
                    pow2(16) as int > 0,
            ;
            assert(false);
        }
        assert(bits_val(w@) == u as nat);
        lemma_bits_val_round_trip(w@);
        lemma_to_unsigned16_inverse(a);
    }
    w
}

/// Reads a word back as the signed integer it encodes.
pub fn word2int(w: Word) -> (n: i16)
    ensures
        n as int == word_int(w),
        i16_bits(n) == w@,
        to_unsigned16(n) == word_val(w),
{
    let mut u: u32 = 0;
    proof {
        assert(w@.subrange(16, 16) =~= Seq::<bool>::empty());
    }
    for i in 0..16
        invariant
            u as nat == bits_val(w@.subrange(16 - i as int, 16)),
            u < 0x10000,
    {
        let idx = 15 - i;
        proof {
            let s = w@.subrange(15 - i as int, 16);
            assert(s =~= seq![w@[15 - i as int]] + w@.subrange(16 - i as int, 16));
            lemma_bits_val_cons(w@[15 - i as int], w@.subrange(16 - i as int, 16));
            lemma_bits_val_bound(s);
            lemma2_to64();
            if s.len() < 16 {
                vstd::arithmetic::power2::lemma_pow2_strictly_increases(s.len(), 16);
            }
        }
        u = 2 * u + (if w[idx] {
            1
        } else {
            0
        });
    }
    proof {
        assert(w@.subrange(0, 16) =~= w@);
        lemma_sign_bit(w@);
    }
    let n: i16 = if u < 0x8000 {
        u as i16
    } else {
        (((u - 0x8000) as i32) - 0x8000) as i16
    };
    proof {
        assert(to_unsigned16(n) == u as nat);
        lemma_bits_val_round_trip(w@);
    }
    n
}

} // verus!
