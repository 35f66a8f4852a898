//! Combinational gates, all built from NAND, together with their 16-bit and
//! n-way variants.

use vstd::prelude::*;
use crate::given::{Word, nand, bit_val};

verus! {

/// Bitwise complement of a bit sequence.
pub open spec fn seq_not(s: Seq<bool>) -> Seq<bool> {
    Seq::new(s.len(), |i: int| !s[i])
}

/// Bitwise conjunction of two equally long bit sequences.
pub open spec fn seq_and(a: Seq<bool>, b: Seq<bool>) -> Seq<bool> {
    Seq::new(a.len(), |i: int| a[i] && b[i])
}

/// Bitwise disjunction of two equally long bit sequences.
pub open spec fn seq_or(a: Seq<bool>, b: Seq<bool>) -> Seq<bool> {
    Seq::new(a.len(), |i: int| a[i] || b[i])
}

/// Bitwise choice: `b` where `sel` is set, `a` otherwise.
pub open spec fn seq_mux(a: Seq<bool>, b: Seq<bool>, sel: bool) -> Seq<bool> {
    if sel {
        b
    } else {
        a
    }
}

/// The number selected by a 2-bit selector, least-significant bit first.
pub open spec fn sel2_val(sel: [bool; 2]) -> nat {
    bit_val(sel[0]) + 2 * bit_val(sel[1])
}

/// The number selected by a 3-bit selector, least-significant bit first.
pub open spec fn sel3_val(sel: [bool; 3]) -> nat {
    bit_val(sel[0]) + 2 * bit_val(sel[1]) + 4 * bit_val(sel[2])
}

pub fn not(a: bool) -> (r: bool)
    ensures
        r == !a,
{
    nand(a, a)
}

pub fn and(a: bool, b: bool) -> (r: bool)
    ensures
        r == (a && b),
{
    not(nand(a, b))
}

pub fn or(a: bool, b: bool) -> (r: bool)
    ensures
        r == (a || b),
{
    nand(not(a), not(b))
}

pub fn xor(a: bool, b: bool) -> (r: bool)
    ensures
        r == (a != b),
{
    or(and(a, not(b)), and(not(a), b))
}

/// Multiplexor: passes `a` when `sel` is clear, `b` when it is set.
pub fn mux(a: bool, b: bool, sel: bool) -> (r: bool)
    ensures
        r == if sel {
            b
        } else {
            a
        },
{
    or(and(a, not(sel)), and(b, sel))
}

/// Demultiplexor: routes `input` to one of two outputs picked by `sel`.
pub fn dmux(input: bool, sel: bool) -> (r: [bool; 2])
    ensures
        r[0] == (input && !sel),
        r[1] == (input && sel),
{
    [and(input, not(sel)), and(input, sel)]
}

pub fn not16(a: Word) -> (out: Word)
    ensures
        out@ == seq_not(a@),
{
    let mut out: Word = [false; 16];
    for i in 0..16
        invariant
            forall|j: int| 0 <= j < i ==> out@[j] == !a@[j],
    {
        out[i] = not(a[i]);
    }
    proof {
        assert(out@ =~= seq_not(a@));
    }
    out
}

pub fn and16(a: Word, b: Word) -> (out: Word)
    ensures
        out@ == seq_and(a@, b@),
{
    let mut out: Word = [false; 16];
    for i in 0..16
        invariant
            forall|j: int| 0 <= j < i ==> out@[j] == (a@[j] && b@[j]),
    {
        out[i] = and(a[i], b[i]);
    }
    proof {
        assert(out@ =~= seq_and(a@, b@));
    }
    out
}

pub fn or16(a: Word, b: Word) -> (out: Word)
    ensures
        out@ == seq_or(a@, b@),
{
    let mut out: Word = [false; 16];
    for i in 0..16
        invariant
            forall|j: int| 0 <= j < i ==> out@[j] == (a@[j] || b@[j]),
    {
        out[i] = or(a[i], b[i]);
    }
    proof {
        assert(out@ =~= seq_or(a@, b@));
    }
    out
}

pub fn mux16(a: Word, b: Word, sel: bool) -> (out: Word)
    ensures
        out@ == seq_mux(a@, b@, sel),
{
    let mut out: Word = [false; 16];
    for i in 0..16
        invariant
            forall|j: int|
                0 <= j < i ==> out@[j] == if sel {
                    b@[j]
                } else {
                    a@[j]
                },
    {
        out[i] = mux(a[i], b[i], sel);
    }
    proof {
        assert(out@ =~= seq_mux(a@, b@, sel));
    }
    out
}

pub fn or8way(a: [bool; 8]) -> (r: bool)
    ensures
        r == (a[0] || a[1] || a[2] || a[3] || a[4] || a[5] || a[6] || a[7]),
{
    or(or(or(a[0], a[1]), or(a[2], a[3])), or(or(a[4], a[5]), or(a[6], a[7])))
}

/// Selects one of four words by the 2-bit selector.
pub fn mux4way16(a: Word, b: Word, c: Word, d: Word, sel: [bool; 2]) -> (out: Word)
    ensures
        out@ == if sel[1] {
            seq_mux(c@, d@, sel[0])
        } else {
            seq_mux(a@, b@, sel[0])
        },
{
    mux16(mux16(a, b, sel[0]), mux16(c, d, sel[0]), sel[1])
}

/// Selects one of eight words by the 3-bit selector.
pub fn mux8way16(
    a: Word,
    b: Word,
    c: Word,
    d: Word,
    e: Word,
    f: Word,
    g: Word,
    h: Word,
    sel: [bool; 3],
) -> (out: Word)
    ensures
        out@ == if sel[2] {
            if sel[1] {
                seq_mux(g@, h@, sel[0])
            } else {
                seq_mux(e@, f@, sel[0])
            }
        } else {
            if sel[1] {
                seq_mux(c@, d@, sel[0])
            } else {
                seq_mux(a@, b@, sel[0])
            }
        },
{
    mux16(
        mux4way16(a, b, c, d, [sel[0], sel[1]]),
        mux4way16(e, f, g, h, [sel[0], sel[1]]),
        sel[2],
    )
}

/// Routes `input` to one of four outputs; the selected output carries
/// `input`, the others are clear.
pub fn dmux4way(input: bool, sel: [bool; 2]) -> (r: [bool; 4])
    ensures
        forall|k: int| 0 <= k < 4 ==> r[k] == (input && sel2_val(sel) == k),
{
    let pair = dmux(input, sel[1]);
    let lo = dmux(pair[0], sel[0]);
    let hi = dmux(pair[1], sel[0]);
    [lo[0], lo[1], hi[0], hi[1]]
}

/// Routes `input` to one of eight outputs; the selected output carries
/// `input`, the others are clear.
pub fn dmux8way(input: bool, sel: [bool; 3]) -> (r: [bool; 8])
    ensures
        forall|k: int| 0 <= k < 8 ==> r[k] == (input && sel3_val(sel) == k),
{
    let pair = dmux(input, sel[2]);
    let lo = dmux4way(pair[0], [sel[0], sel[1]]);
    let hi = dmux4way(pair[1], [sel[0], sel[1]]);
    [lo[0], lo[1], lo[2], lo[3], hi[0], hi[1], hi[2], hi[3]]
}

} // verus!
