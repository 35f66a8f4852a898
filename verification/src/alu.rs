//! The arithmetic-logic unit: zero/negate preconditioning of both operands,
//! add or and, optional output negation, and the zero/negative flags.

use vstd::prelude::*;
use vstd::arithmetic::power2::pow2;
use crate::given::{
    Word, bits_val, bits_int, as_signed16, lemma_bit_weight, lemma_bits_val_bound,
    lemma_nat_to_bits_val, lemma_as_signed16_add_multiple, lemma_as_signed16_identity,
};
use crate::gate::{seq_not, seq_and, seq_or, mux16, not16, and16, not, or, or8way};
use crate::adder::{sum_bits, add16};

verus! {

/// An operand after the ALU's two preconditioning steps: zeroed when `z`
/// is set, then complemented when `n` is set.
pub open spec fn zero_negate(s: Seq<bool>, z: bool, n: bool) -> Seq<bool> {
    Seq::new(
        s.len(),
        |i: int|
            if z {
                n
            } else {
                s[i] != n
            },
    )
}

/// The ALU output word for data inputs `x`, `y` and the six control bits.
pub open spec fn alu_bits(
    x: Seq<bool>,
    y: Seq<bool>,
    zx: bool,
    nx: bool,
    zy: bool,
    ny: bool,
    f: bool,
    no: bool,
) -> Seq<bool> {
    let x2 = zero_negate(x, zx, nx);
    let y2 = zero_negate(y, zy, ny);
    let t = if f {
        sum_bits(bits_val(x2) + bits_val(y2))
    } else {
        seq_and(x2, y2)
    };
    if no {
        seq_not(t)
    } else {
        t
    }
}

/// A bit sequence is worth zero exactly when every bit is clear.
pub proof fn lemma_bits_val_zero(s: Seq<bool>)
    ensures
        (bits_val(s) == 0) <==> (forall|i: int| 0 <= i < s.len() ==> !s[i]),
    decreases s.len(),
{
    if s.len() > 0 {
        lemma_bits_val_zero(s.drop_last());
        lemma_bit_weight(s.last(), (s.len() - 1) as nat);
        vstd::arithmetic::power2::lemma_pow2_pos((s.len() - 1) as nat);
        if bits_val(s) == 0 {
            assert(forall|i: int|
                0 <= i < s.len() - 1 ==> s[i] == s.drop_last()[i] && !s.drop_last()[i]);
            assert(!s.last());
            assert(forall|i: int| 0 <= i < s.len() ==> !s[i]) by {
                assert(!s[s.len() - 1]);
            }
        } else {
            if forall|i: int| 0 <= i < s.len() ==> !s[i] {
                assert(forall|i: int| 0 <= i < s.drop_last().len() ==> !s.drop_last()[i]);
                assert(!s.last());
                assert(false);
            }
        }
    }
}

/// Complementing every bit replaces the value by its distance from 2^len - 1.
pub proof fn lemma_seq_not_val(s: Seq<bool>)
    ensures
        bits_val(seq_not(s)) == pow2(s.len()) - 1 - bits_val(s),
    decreases s.len(),
{
    vstd::arithmetic::power2::lemma_pow2_pos(s.len());
    if s.len() == 0 {
        assert(seq_not(s) =~= Seq::<bool>::empty());
        vstd::arithmetic::power2::lemma2_to64();
    } else {
        assert(seq_not(s).drop_last() =~= seq_not(s.drop_last()));
        lemma_seq_not_val(s.drop_last());
        vstd::arithmetic::power2::lemma_pow2_unfold(s.len());
        lemma_bits_val_bound(s.drop_last());
        assert(seq_not(s).last() == !s.last());
        lemma_bit_weight(s.last(), (s.len() - 1) as nat);
        lemma_bit_weight(!s.last(), (s.len() - 1) as nat);
    }
}

/// The signed reading of the word holding `n` modulo 2^16.
pub proof fn lemma_sum_bits_as_signed(n: nat)
    ensures
        bits_int(sum_bits(n)) == as_signed16(n as int),
{
    lemma_nat_to_bits_val(16, n);
    vstd::arithmetic::power2::lemma2_to64();
    vstd::arithmetic::div_mod::lemma_mod_bound(n as int, 0x10000);
    vstd::arithmetic::div_mod::lemma_small_mod((n as int % 0x10000) as nat, 0x10000);
}

/// The signed reading of the complement of the word holding `n` modulo 2^16.
pub proof fn lemma_not_sum_bits_as_signed(n: nat)
    ensures
        bits_int(seq_not(sum_bits(n))) == as_signed16(-1 - n),
{
    lemma_nat_to_bits_val(16, n);
    crate::given::lemma_nat_to_bits_len(16, n);
    lemma_seq_not_val(sum_bits(n));
    vstd::arithmetic::power2::lemma2_to64();
    vstd::arithmetic::div_mod::lemma_fundamental_div_mod(n as int, 0x10000);
    let q = n as int / 0x10000;
    assert(bits_val(seq_not(sum_bits(n))) == 0xFFFF - (n as int) + 0x10000 * q);
    lemma_as_signed16_add_multiple(0xFFFF - (n as int), q);
    lemma_as_signed16_add_multiple(-1 - (n as int), 1);
}

/// The ALU truth table: each of the eighteen documented control settings
/// computes the named function of the signed operand values (arithmetic
/// rows wrap modulo 2^16), or the named bitwise function of the operand
/// bits.  `x` plays the role of the D operand and `y` the A-or-M operand.
#[verifier::rlimit(60)]
pub proof fn lemma_alu_table(x: Seq<bool>, y: Seq<bool>)
    requires
        x.len() == 16,
        y.len() == 16,
    ensures
        bits_int(alu_bits(x, y, true, false, true, false, true, false)) == 0,
        bits_int(alu_bits(x, y, true, true, true, true, true, true)) == 1,
        bits_int(alu_bits(x, y, true, true, true, false, true, false)) == -1,
        alu_bits(x, y, false, false, true, true, false, false) == x,
        alu_bits(x, y, false, false, true, true, false, true) == seq_not(x),
        alu_bits(x, y, true, true, false, false, false, false) == y,
        alu_bits(x, y, true, true, false, false, false, true) == seq_not(y),
        bits_int(alu_bits(x, y, false, false, true, true, true, true)) == as_signed16(
            -bits_int(x),
        ),
        bits_int(alu_bits(x, y, true, true, false, false, true, true)) == as_signed16(
            -bits_int(y),
        ),
        bits_int(alu_bits(x, y, false, true, true, true, true, true)) == as_signed16(
            bits_int(x) + 1,
        ),
        bits_int(alu_bits(x, y, true, true, false, true, true, true)) == as_signed16(
            bits_int(y) + 1,
        ),
        bits_int(alu_bits(x, y, false, false, true, true, true, false)) == as_signed16(
            bits_int(x) - 1,
        ),
        bits_int(alu_bits(x, y, true, true, false, false, true, false)) == as_signed16(
            bits_int(y) - 1,
        ),
        bits_int(alu_bits(x, y, false, false, false, false, true, false)) == as_signed16(
            bits_int(x) + bits_int(y),
        ),
        bits_int(alu_bits(x, y, false, true, false, false, true, true)) == as_signed16(
            bits_int(x) - bits_int(y),
        ),
        bits_int(alu_bits(x, y, false, false, false, true, true, true)) == as_signed16(
            bits_int(y) - bits_int(x),
        ),
        alu_bits(x, y, false, false, false, false, false, false) == seq_and(x, y),
        alu_bits(x, y, false, true, false, true, false, true) == seq_or(x, y),
{
    let zeros = Seq::new(16nat, |i: int| false);
    let ones = Seq::new(16nat, |i: int| true);
    let ux = bits_val(x) as int;
    let uy = bits_val(y) as int;
    let sx = bits_int(x);
    let sy = bits_int(y);
    lemma_bits_val_bound(x);
    lemma_bits_val_bound(y);
    vstd::arithmetic::power2::lemma2_to64();
    vstd::arithmetic::div_mod::lemma_small_mod(bits_val(x), 0x10000);
    vstd::arithmetic::div_mod::lemma_small_mod(bits_val(y), 0x10000);
    let kx: int = if ux >= 0x8000 {
        1
    } else {
        0
    };
    let ky: int = if uy >= 0x8000 {
        1
    } else {
        0
    };
    assert(sx == ux - 0x10000 * kx);
    assert(sy == uy - 0x10000 * ky);
    assert(bits_val(zeros) == 0) by {
        lemma_bits_val_zero(zeros);
    }
    assert(zeros.len() == 16 && ones.len() == 16);
    assert(ones =~= seq_not(zeros));
    assert(bits_val(ones) == 0xFFFF) by {
        lemma_seq_not_val(zeros);
    }
    assert(bits_val(seq_not(x)) == 0xFFFF - ux) by {
        lemma_seq_not_val(x);
    }
    assert(bits_val(seq_not(y)) == 0xFFFF - uy) by {
        lemma_seq_not_val(y);
    }
    // the four preconditioned operand shapes
    assert(zero_negate(x, false, false) =~= x);
    assert(zero_negate(x, false, true) =~= seq_not(x));
    assert(zero_negate(x, true, false) =~= zeros);
    assert(zero_negate(x, true, true) =~= ones);
    assert(zero_negate(y, false, false) =~= y);
    assert(zero_negate(y, false, true) =~= seq_not(y));
    assert(zero_negate(y, true, false) =~= zeros);
    assert(zero_negate(y, true, true) =~= ones);
    // constants
    assert(bits_int(alu_bits(x, y, true, false, true, false, true, false)) == 0) by {
        lemma_sum_bits_as_signed(0);
        lemma_as_signed16_identity(0);
    }
    assert(bits_int(alu_bits(x, y, true, true, true, true, true, true)) == 1) by {
        lemma_not_sum_bits_as_signed((0xFFFF + 0xFFFF) as nat);
        lemma_as_signed16_add_multiple(1, 2);
        lemma_as_signed16_identity(1);
    }
    assert(bits_int(alu_bits(x, y, true, true, true, false, true, false)) == -1) by {
        lemma_sum_bits_as_signed(0xFFFF);
        lemma_as_signed16_add_multiple(-1, 1);
        lemma_as_signed16_identity(-1);
    }
    // pass-through and bitwise rows
    assert(alu_bits(x, y, false, false, true, true, false, false) =~= x);
    assert(alu_bits(x, y, false, false, true, true, false, true) =~= seq_not(x));
    assert(alu_bits(x, y, true, true, false, false, false, false) =~= y);
    assert(alu_bits(x, y, true, true, false, false, false, true) =~= seq_not(y));
    assert(alu_bits(x, y, false, false, false, false, false, false) =~= seq_and(x, y));
    assert(alu_bits(x, y, false, true, false, true, false, true) =~= seq_or(x, y));
    // negation rows: ~(v + 2^16 - 1) == -v modulo 2^16
    assert(bits_int(alu_bits(x, y, false, false, true, true, true, true)) == as_signed16(-sx))
        by {
        lemma_not_sum_bits_as_signed((ux + 0xFFFF) as nat);
        lemma_as_signed16_add_multiple(-sx, -kx - 1);
        assert(-1 - (ux + 0xFFFF) == -sx + 0x10000 * (-kx - 1));
    }
    assert(bits_int(alu_bits(x, y, true, true, false, false, true, true)) == as_signed16(-sy))
        by {
        lemma_not_sum_bits_as_signed((0xFFFF + uy) as nat);
        lemma_as_signed16_add_multiple(-sy, -ky - 1);
    }
    // increment rows: ~(~v + 2^16 - 1) == v + 1 modulo 2^16
    assert(bits_int(alu_bits(x, y, false, true, true, true, true, true)) == as_signed16(sx + 1))
        by {
        lemma_not_sum_bits_as_signed((0xFFFF - ux + 0xFFFF) as nat);
        lemma_as_signed16_add_multiple(sx + 1, kx - 2);
    }
    assert(bits_int(alu_bits(x, y, true, true, false, true, true, true)) == as_signed16(sy + 1))
        by {
        lemma_not_sum_bits_as_signed((0xFFFF + (0xFFFF - uy)) as nat);
        lemma_as_signed16_add_multiple(sy + 1, ky - 2);
    }
    // decrement rows: v + 2^16 - 1 == v - 1 modulo 2^16
    assert(bits_int(alu_bits(x, y, false, false, true, true, true, false)) == as_signed16(sx - 1))
        by {
        lemma_sum_bits_as_signed((ux + 0xFFFF) as nat);
        lemma_as_signed16_add_multiple(sx - 1, kx + 1);
    }
    assert(bits_int(alu_bits(x, y, true, true, false, false, true, false)) == as_signed16(sy - 1))
        by {
        lemma_sum_bits_as_signed((0xFFFF + uy) as nat);
        lemma_as_signed16_add_multiple(sy - 1, ky + 1);
    }
    // sum and difference rows
    assert(bits_int(alu_bits(x, y, false, false, false, false, true, false)) == as_signed16(
        sx + sy,
    )) by {
        lemma_sum_bits_as_signed((ux + uy) as nat);
        lemma_as_signed16_add_multiple(sx + sy, kx + ky);
    }
    assert(bits_int(alu_bits(x, y, false, true, false, false, true, true)) == as_signed16(
        sx - sy,
    )) by {
        lemma_not_sum_bits_as_signed((0xFFFF - ux + uy) as nat);
        lemma_as_signed16_add_multiple(sx - sy, -kx + ky - 1);
    }
    assert(bits_int(alu_bits(x, y, false, false, false, true, true, true)) == as_signed16(
        sy - sx,
    )) by {
        lemma_not_sum_bits_as_signed((ux + (0xFFFF - uy)) as nat);
        lemma_as_signed16_add_multiple(sy - sx, ky - kx - 1);
    }
}

pub struct AluOutput {
    /// The 16-bit result.
    pub out: Word,
    /// Set exactly when the result is zero.
    pub zr: bool,
    /// Set exactly when the result is negative, that is, its sign bit is set.
    pub ng: bool,
}

/// The ALU.  `zx`/`nx` zero and complement `x`, `zy`/`ny` do the same for
/// `y`; `f` picks addition over conjunction; `no` complements the output.
pub fn alu(x: Word, y: Word, zx: bool, nx: bool, zy: bool, ny: bool, f: bool, no: bool) -> (r:
    AluOutput)
    ensures
        r.out@ == alu_bits(x@, y@, zx, nx, zy, ny, f, no),
        r.zr == (bits_val(r.out@) == 0),
        r.ng == r.out@[15],
{
    let zeros: Word = [false; 16];
    proof {
        assert forall|i: int| 0 <= i < 16 implies !zeros@[i] by {}
    }
    let x1 = mux16(x, zeros, zx);
    let x2 = mux16(x1, not16(x1), nx);
    let y1 = mux16(y, zeros, zy);
    let y2 = mux16(y1, not16(y1), ny);
    proof {
        assert(x2@ =~= zero_negate(x@, zx, nx));
        assert(y2@ =~= zero_negate(y@, zy, ny));
    }
    let t = mux16(and16(x2, y2), add16(x2, y2), f);
    let out = mux16(t, not16(t), no);
    proof {
        assert(out@ =~= alu_bits(x@, y@, zx, nx, zy, ny, f, no));
    }
    let zr = not(
        or(
            or8way([out[0], out[1], out[2], out[3], out[4], out[5], out[6], out[7]]),
            or8way([out[8], out[9], out[10], out[11], out[12], out[13], out[14], out[15]]),
        ),
    );
    let ng = out[15];
    proof {
        lemma_bits_val_zero(out@);
        if zr {
            assert forall|i: int| 0 <= i < 16 implies !out@[i] by {
                if i < 8 {
                    assert(!out@[i]);
                } else {
                    assert(!out@[i]);
                }
            }
        }
    }
    AluOutput { out, zr, ng }
}

} // verus!
