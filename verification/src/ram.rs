//! Sequential storage: the one-bit register, the 16-bit register, the
//! cascaded RAM tiers, and the program counter.

use vstd::prelude::*;
use vstd::arithmetic::power2::{pow2, lemma2_to64};
use crate::given::{
    Word, bit_val, bits_val, lemma_bit_weight, lemma_bits_val_split,
};
use crate::gate::{mux, mux16, or, dmux4way, dmux8way, mux4way16, mux8way16};
use crate::adder::{inc16, sum_bits};

verus! {

/// The all-clear 16-bit pattern every register starts from.
pub open spec fn zeros16() -> Seq<bool> {
    Seq::new(16, |i: int| false)
}

/// The value of a 2-bit sequence.
pub proof fn lemma_bits_val2(s: Seq<bool>)
    requires
        s.len() == 2,
    ensures
        bits_val(s) == bit_val(s[0]) + 2 * bit_val(s[1]),
{
    lemma2_to64();
    assert(s.drop_last().drop_last() =~= Seq::<bool>::empty());
    lemma_bit_weight(s[1], 1);
    lemma_bit_weight(s[0], 0);
    assert(s.last() == s[1]);
    assert(s.drop_last().last() == s[0]);
    assert(bits_val(Seq::<bool>::empty()) == 0);
    assert(bits_val(s.drop_last()) == bit_val(s[0]));
    assert(bits_val(s) == bits_val(s.drop_last()) + bit_val(s[1]) * pow2(1));
}

/// The value of a 3-bit sequence.
pub proof fn lemma_bits_val3(s: Seq<bool>)
    requires
        s.len() == 3,
    ensures
        bits_val(s) == bit_val(s[0]) + 2 * bit_val(s[1]) + 4 * bit_val(s[2]),
{
    lemma2_to64();
    assert(s.drop_last().drop_last().drop_last() =~= Seq::<bool>::empty());
    lemma_bit_weight(s[2], 2);
    lemma_bit_weight(s[1], 1);
    lemma_bit_weight(s[0], 0);
    assert(s.last() == s[2]);
    assert(s.drop_last().last() == s[1]);
    assert(s.drop_last().drop_last().last() == s[0]);
    assert(bits_val(Seq::<bool>::empty()) == 0);
    assert(bits_val(s.drop_last().drop_last()) == bit_val(s[0]));
    assert(bits_val(s.drop_last()) == bits_val(s.drop_last().drop_last()) + bit_val(s[1]) * pow2(
        1,
    ));
    assert(bits_val(s) == bits_val(s.drop_last()) + bit_val(s[2]) * pow2(2));
}

/// A register cell holding a single bit behind a flipflop.
pub struct BitRegister {
    flipflop: crate::given::Flipflop,
}

impl View for BitRegister {
    type V = bool;

    closed spec fn view(&self) -> bool {
        self.flipflop@
    }
}

impl BitRegister {
    pub fn new() -> (r: Self)
        ensures
            r@ == false,
    {
        BitRegister { flipflop: crate::given::Flipflop::new() }
    }

    pub fn out(&self) -> (r: bool)
        ensures
            r == self@,
    {
        self.flipflop.out()
    }

    /// Latches `input` when `load` is set, keeps the stored bit otherwise.
    pub fn clock(&mut self, input: bool, load: bool)
        ensures
            final(self)@ == if load {
                input
            } else {
                old(self)@
            },
    {
        let prev = self.out();
        self.flipflop.clock(mux(prev, input, load));
    }
}

/// A 16-bit register: sixteen bit registers clocked in parallel.
pub struct Register {
    bits: [BitRegister; 16],
}

impl View for Register {
    type V = Seq<bool>;

    closed spec fn view(&self) -> Seq<bool> {
        Seq::new(16, |i: int| self.bits[i]@)
    }
}

impl Register {
    pub fn new() -> (r: Self)
        ensures
            r@ == zeros16(),
    {
        let r = Register {
            bits: [
                BitRegister::new(),
                BitRegister::new(),
                BitRegister::new(),
                BitRegister::new(),
                BitRegister::new(),
                BitRegister::new(),
                BitRegister::new(),
                BitRegister::new(),
                BitRegister::new(),
                BitRegister::new(),
                BitRegister::new(),
                BitRegister::new(),
                BitRegister::new(),
                BitRegister::new(),
                BitRegister::new(),
                BitRegister::new(),
            ],
        };
        proof {
            assert(r@ =~= zeros16());
        }
        r
    }

    pub fn out(&self) -> (r: Word)
        ensures
            r@ == self@,
    {
        let mut r: Word = [false; 16];
        for i in 0..16
            invariant
                forall|j: int| 0 <= j < i ==> r@[j] == self@[j],
        {
            r[i] = self.bits[i].out();
        }
        proof {
            assert(r@ =~= self@);
        }
        r
    }

    /// Latches `input` when `load` is set, keeps the stored word otherwise.
    pub fn clock(&mut self, input: Word, load: bool)
        ensures
            final(self)@ == if load {
                input@
            } else {
                old(self)@
            },
    {
        let ghost orig = *self;
        for i in 0..16
            invariant
                forall|j: int|
                    0 <= j < i ==> #[trigger] self.bits[j]@ == if load {
                        input@[j]
                    } else {
                        orig.bits[j]@
                    },
                forall|j: int| i <= j < 16 ==> #[trigger] self.bits[j] == orig.bits[j],
        {
            let ghost before = *self;
            self.bits[i].clock(input[i], load);
            proof {
                assert(self.bits[i as int]@ == if load {
                    input@[i as int]
                } else {
                    before.bits[i as int]@
                });
                assert(forall|j: int|
                    0 <= j < 16 && j != i ==> #[trigger] self.bits[j] == before.bits[j]);
            }
        }
        proof {
            if load {
                assert(self@ =~= input@);
            } else {
                assert(self@ =~= orig@);
            }
        }
    }
}

/// Eight words addressed by three bits.
pub struct RAM8 {
    registers: [Register; 8],
}

impl View for RAM8 {
    type V = Seq<Seq<bool>>;

    closed spec fn view(&self) -> Seq<Seq<bool>> {
        Seq::new(8, |i: int| self.registers[i]@)
    }
}

impl RAM8 {
    pub fn new() -> (r: Self)
        ensures
            r@ == Seq::new(8, |i: int| zeros16()),
    {
        let r = RAM8 {
            registers: [
                Register::new(),
                Register::new(),
                Register::new(),
                Register::new(),
                Register::new(),
                Register::new(),
                Register::new(),
                Register::new(),
            ],
        };
        proof {
            assert(r@ =~= Seq::new(8, |i: int| zeros16()));
        }
        r
    }

    /// Reads the word stored at `address`.
    pub fn out(&self, address: [bool; 3]) -> (r: Word)
        ensures
            r@ == self@[bits_val(address@) as int],
    {
        proof {
            lemma_bits_val3(address@);
        }
        mux8way16(
            self.registers[0].out(),
            self.registers[1].out(),
            self.registers[2].out(),
            self.registers[3].out(),
            self.registers[4].out(),
            self.registers[5].out(),
            self.registers[6].out(),
            self.registers[7].out(),
            address,
        )
    }

    /// Stores `input` at `address` when `load` is set; otherwise keeps
    /// every word.
    pub fn clock(&mut self, address: [bool; 3], input: Word, load: bool)
        ensures
            final(self)@ == if load {
                old(self)@.update(bits_val(address@) as int, input@)
            } else {
                old(self)@
            },
    {
        let loadbits = dmux8way(load, address);
        self.registers[0].clock(input, loadbits[0]);
        self.registers[1].clock(input, loadbits[1]);
        self.registers[2].clock(input, loadbits[2]);
        self.registers[3].clock(input, loadbits[3]);
        self.registers[4].clock(input, loadbits[4]);
        self.registers[5].clock(input, loadbits[5]);
        self.registers[6].clock(input, loadbits[6]);
        self.registers[7].clock(input, loadbits[7]);
        proof {
            lemma_bits_val3(address@);
            if load {
                assert(self@ =~= old(self)@.update(bits_val(address@) as int, input@));
            } else {
                assert(self@ =~= old(self)@);
            }
        }
    }
}

/// Sixty-four words addressed by six bits: eight banks of eight.
pub struct RAM64 {
    rams: [RAM8; 8],
}

impl View for RAM64 {
    type V = Seq<Seq<bool>>;

    closed spec fn view(&self) -> Seq<Seq<bool>> {
        Seq::new(64, |i: int| self.rams[i / 8]@[i % 8])
    }
}

impl RAM64 {
    pub fn new() -> (r: Self)
        ensures
            r@ == Seq::new(64, |i: int| zeros16()),
    {
        let r = RAM64 {
            rams: [
                RAM8::new(),
                RAM8::new(),
                RAM8::new(),
                RAM8::new(),
                RAM8::new(),
                RAM8::new(),
                RAM8::new(),
                RAM8::new(),
            ],
        };
        proof {
            assert(r@ =~= Seq::new(64, |i: int| zeros16()));
        }
        r
    }

    /// Reads the word stored at `address`.
    pub fn out(&self, address: [bool; 6]) -> (r: Word)
        ensures
            r@ == self@[bits_val(address@) as int],
    {
        let lo = [address[0], address[1], address[2]];
        let hi = [address[3], address[4], address[5]];
        let r = mux8way16(
            self.rams[0].out(lo),
            self.rams[1].out(lo),
            self.rams[2].out(lo),
            self.rams[3].out(lo),
            self.rams[4].out(lo),
            self.rams[5].out(lo),
            self.rams[6].out(lo),
            self.rams[7].out(lo),
            hi,
        );
        proof {
            lemma_bits_val3(hi@);
            lemma_split_address(address@, lo@, hi@);
            lemma2_to64();
        }
        r
    }

    /// Stores `input` at `address` when `load` is set; otherwise keeps
    /// every word.
    pub fn clock(&mut self, address: [bool; 6], input: Word, load: bool)
        ensures
            final(self)@ == if load {
                old(self)@.update(bits_val(address@) as int, input@)
            } else {
                old(self)@
            },
    {
        let lo = [address[0], address[1], address[2]];
        let hi = [address[3], address[4], address[5]];
        let loadbits = dmux8way(load, hi);
        self.rams[0].clock(lo, input, loadbits[0]);
        self.rams[1].clock(lo, input, loadbits[1]);
        self.rams[2].clock(lo, input, loadbits[2]);
        self.rams[3].clock(lo, input, loadbits[3]);
        self.rams[4].clock(lo, input, loadbits[4]);
        self.rams[5].clock(lo, input, loadbits[5]);
        self.rams[6].clock(lo, input, loadbits[6]);
        self.rams[7].clock(lo, input, loadbits[7]);
        proof {
            lemma_bits_val3(hi@);
            lemma_split_address(address@, lo@, hi@);
            crate::given::lemma_bits_val_bound(address@);
            lemma2_to64();
            let addr = bits_val(address@) as int;
            if load {
                assert forall|i: int| 0 <= i < 64 implies self@[i] == old(self)@.update(
                    addr,
                    input@,
                )[i] by {
                    vstd::arithmetic::div_mod::lemma_fundamental_div_mod(i, 8);
                    vstd::arithmetic::div_mod::lemma_mod_bound(i, 8);
                }
                assert(self@ =~= old(self)@.update(addr, input@));
            } else {
                assert(self@ =~= old(self)@);
            }
        }
    }
}

/// 512 words addressed by 9 bits: 8 banks of 64.
pub struct RAM512 {
    rams: [RAM64; 8],
}

impl View for RAM512 {
    type V = Seq<Seq<bool>>;

    closed spec fn view(&self) -> Seq<Seq<bool>> {
        Seq::new(512, |i: int| self.rams[i / 64]@[i % 64])
    }
}

impl RAM512 {
    pub fn new() -> (r: Self)
        ensures
            r@ == Seq::new(512, |i: int| zeros16()),
    {
        let r = RAM512 {
            rams: [
                RAM64::new(),
                RAM64::new(),
                RAM64::new(),
                RAM64::new(),
                RAM64::new(),
                RAM64::new(),
                RAM64::new(),
                RAM64::new(),
            ],
        };
        proof {
            assert(r@ =~= Seq::new(512, |i: int| zeros16()));
        }
        r
    }

    /// Reads the word stored at `address`.
    pub fn out(&self, address: [bool; 9]) -> (r: Word)
        ensures
            r@ == self@[bits_val(address@) as int],
    {
        let lo = [address[0], address[1], address[2], address[3], address[4], address[5]];
        let hi = [address[6], address[7], address[8]];
        let r = mux8way16(
            self.rams[0].out(lo),
            self.rams[1].out(lo),
            self.rams[2].out(lo),
            self.rams[3].out(lo),
            self.rams[4].out(lo),
            self.rams[5].out(lo),
            self.rams[6].out(lo),
            self.rams[7].out(lo),
            hi,
        );
        proof {
            lemma_bits_val3(hi@);
            lemma_split_address(address@, lo@, hi@);
            lemma2_to64();
        }
        r
    }

    /// Stores `input` at `address` when `load` is set; otherwise keeps
    /// every word.
    pub fn clock(&mut self, address: [bool; 9], input: Word, load: bool)
        ensures
            final(self)@ == if load {
                old(self)@.update(bits_val(address@) as int, input@)
            } else {
                old(self)@
            },
    {
        let lo = [address[0], address[1], address[2], address[3], address[4], address[5]];
        let hi = [address[6], address[7], address[8]];
        let loadbits = dmux8way(load, hi);
        self.rams[0].clock(lo, input, loadbits[0]);
        self.rams[1].clock(lo, input, loadbits[1]);
        self.rams[2].clock(lo, input, loadbits[2]);
        self.rams[3].clock(lo, input, loadbits[3]);
        self.rams[4].clock(lo, input, loadbits[4]);
        self.rams[5].clock(lo, input, loadbits[5]);
        self.rams[6].clock(lo, input, loadbits[6]);
        self.rams[7].clock(lo, input, loadbits[7]);
        proof {
            lemma_bits_val3(hi@);
            lemma_split_address(address@, lo@, hi@);
            crate::given::lemma_bits_val_bound(address@);
            lemma2_to64();
            let addr = bits_val(address@) as int;
            if load {
                assert forall|i: int| 0 <= i < 512 implies self@[i] == old(self)@.update(
                    addr,
                    input@,
                )[i] by {
                    vstd::arithmetic::div_mod::lemma_fundamental_div_mod(i, 64);
                    vstd::arithmetic::div_mod::lemma_mod_bound(i, 64);
                }
                assert(self@ =~= old(self)@.update(addr, input@));
            } else {
                assert(self@ =~= old(self)@);
            }
        }
    }
}

/// 4096 words addressed by 12 bits: 8 banks of 512.
pub struct RAM4K {
    rams: [RAM512; 8],
}

impl View for RAM4K {
    type V = Seq<Seq<bool>>;

    closed spec fn view(&self) -> Seq<Seq<bool>> {
        Seq::new(4096, |i: int| self.rams[i / 512]@[i % 512])
    }
}

impl RAM4K {
    pub fn new() -> (r: Self)
        ensures
            r@ == Seq::new(4096, |i: int| zeros16()),
    {
        let r = RAM4K {
            rams: [
                RAM512::new(),
                RAM512::new(),
                RAM512::new(),
                RAM512::new(),
                RAM512::new(),
                RAM512::new(),
                RAM512::new(),
                RAM512::new(),
            ],
        };
        proof {
            assert(r@ =~= Seq::new(4096, |i: int| zeros16()));
        }
        r
    }

    /// Reads the word stored at `address`.
    pub fn out(&self, address: [bool; 12]) -> (r: Word)
        ensures
            r@ == self@[bits_val(address@) as int],
    {
        let lo = [address[0], address[1], address[2], address[3], address[4], address[5], address[6], address[7], address[8]];
        let hi = [address[9], address[10], address[11]];
        let r = mux8way16(
            self.rams[0].out(lo),
            self.rams[1].out(lo),
            self.rams[2].out(lo),
            self.rams[3].out(lo),
            self.rams[4].out(lo),
            self.rams[5].out(lo),
            self.rams[6].out(lo),
            self.rams[7].out(lo),
            hi,
        );
        proof {
            lemma_bits_val3(hi@);
            lemma_split_address(address@, lo@, hi@);
            lemma2_to64();
        }
        r
    }

    /// Stores `input` at `address` when `load` is set; otherwise keeps
    /// every word.
    pub fn clock(&mut self, address: [bool; 12], input: Word, load: bool)
        ensures
            final(self)@ == if load {
                old(self)@.update(bits_val(address@) as int, input@)
            } else {
                old(self)@
            },
    {
        let lo = [address[0], address[1], address[2], address[3], address[4], address[5], address[6], address[7], address[8]];
        let hi = [address[9], address[10], address[11]];
        let loadbits = dmux8way(load, hi);
        self.rams[0].clock(lo, input, loadbits[0]);
        self.rams[1].clock(lo, input, loadbits[1]);
        self.rams[2].clock(lo, input, loadbits[2]);
        self.rams[3].clock(lo, input, loadbits[3]);
        self.rams[4].clock(lo, input, loadbits[4]);
        self.rams[5].clock(lo, input, loadbits[5]);
        self.rams[6].clock(lo, input, loadbits[6]);
        self.rams[7].clock(lo, input, loadbits[7]);
        proof {
            lemma_bits_val3(hi@);
            lemma_split_address(address@, lo@, hi@);
            crate::given::lemma_bits_val_bound(address@);
            lemma2_to64();
            let addr = bits_val(address@) as int;
            if load {
                assert forall|i: int| 0 <= i < 4096 implies self@[i] == old(self)@.update(
                    addr,
                    input@,
                )[i] by {
                    vstd::arithmetic::div_mod::lemma_fundamental_div_mod(i, 512);
                    vstd::arithmetic::div_mod::lemma_mod_bound(i, 512);
                }
                assert(self@ =~= old(self)@.update(addr, input@));
            } else {
                assert(self@ =~= old(self)@);
            }
        }
    }
}

/// 16384 words addressed by 14 bits: 4 banks of 4096.
pub struct RAM16K {
    rams: [RAM4K; 4],
}

impl View for RAM16K {
    type V = Seq<Seq<bool>>;

    closed spec fn view(&self) -> Seq<Seq<bool>> {
        Seq::new(16384, |i: int| self.rams[i / 4096]@[i % 4096])
    }
}

impl RAM16K {
    pub fn new() -> (r: Self)
        ensures
            r@ == Seq::new(16384, |i: int| zeros16()),
    {
        let r = RAM16K {
            rams: [
                RAM4K::new(),
                RAM4K::new(),
                RAM4K::new(),
                RAM4K::new(),
            ],
        };
        proof {
            assert(r@ =~= Seq::new(16384, |i: int| zeros16()));
        }
        r
    }

    /// Reads the word stored at `address`.
    pub fn out(&self, address: [bool; 14]) -> (r: Word)
        ensures
            r@ == self@[bits_val(address@) as int],
    {
        let lo = [address[0], address[1], address[2], address[3], address[4], address[5], address[6], address[7], address[8], address[9], address[10], address[11]];
        let hi = [address[12], address[13]];
        let r = mux4way16(
            self.rams[0].out(lo),
            self.rams[1].out(lo),
            self.rams[2].out(lo),
            self.rams[3].out(lo),
            hi,
        );
        proof {
            lemma_bits_val2(hi@);
            lemma_split_address(address@, lo@, hi@);
            lemma2_to64();
        }
        r
    }

    /// Stores `input` at `address` when `load` is set; otherwise keeps
    /// every word.
    pub fn clock(&mut self, address: [bool; 14], input: Word, load: bool)
        ensures
            final(self)@ == if load {
                old(self)@.update(bits_val(address@) as int, input@)
            } else {
                old(self)@
            },
    {
        let lo = [address[0], address[1], address[2], address[3], address[4], address[5], address[6], address[7], address[8], address[9], address[10], address[11]];
        let hi = [address[12], address[13]];
        let loadbits = dmux4way(load, hi);
        self.rams[0].clock(lo, input, loadbits[0]);
        self.rams[1].clock(lo, input, loadbits[1]);
        self.rams[2].clock(lo, input, loadbits[2]);
        self.rams[3].clock(lo, input, loadbits[3]);
        proof {
            lemma_bits_val2(hi@);
            lemma_split_address(address@, lo@, hi@);
            crate::given::lemma_bits_val_bound(address@);
            lemma2_to64();
            let addr = bits_val(address@) as int;
            if load {
                assert forall|i: int| 0 <= i < 16384 implies self@[i] == old(self)@.update(
                    addr,
                    input@,
                )[i] by {
                    vstd::arithmetic::div_mod::lemma_fundamental_div_mod(i, 4096);
                    vstd::arithmetic::div_mod::lemma_mod_bound(i, 4096);
                }
                assert(self@ =~= old(self)@.update(addr, input@));
            } else {
                assert(self@ =~= old(self)@);
            }
        }
    }
}

/// Relates a split address to its value: the low part holds the offset in
/// a bank, the high part picks the bank.
proof fn lemma_split_address(address: Seq<bool>, lo: Seq<bool>, hi: Seq<bool>)
    requires
        3 <= address.len() <= 14,
        hi.len() == address.len() - lo.len(),
        1 <= hi.len() <= 3,
        lo =~= address.take(lo.len() as int),
        hi =~= address.skip(lo.len() as int),
    ensures
        bits_val(address) == bits_val(lo) + pow2(lo.len()) * bits_val(hi),
        bits_val(address) as int / pow2(lo.len()) as int == bits_val(hi),
        bits_val(address) as int % pow2(lo.len()) as int == bits_val(lo),
        bits_val(lo) < pow2(lo.len()),
        bits_val(hi) < pow2(hi.len()),
{
    lemma_bits_val_split(address, lo.len() as int);
    crate::given::lemma_bits_val_bound(lo);
    crate::given::lemma_bits_val_bound(hi);
    crate::given::lemma_bits_val_bound(address);
    vstd::arithmetic::power2::lemma_pow2_pos(lo.len());
    let p = pow2(lo.len()) as int;
    let h = bits_val(hi) as int;
    assert(p * h == h * p) by (nonlinear_arith);
    vstd::arithmetic::div_mod::lemma_fundamental_div_mod_converse(
        bits_val(address) as int,
        p,
        h,
        bits_val(lo) as int,
    );
}

/// The program counter register: on each clock it resets to zero, loads
/// its input, increments, or holds, with that order of priority.
pub struct Counter {
    register: Register,
}

impl View for Counter {
    type V = Seq<bool>;

    closed spec fn view(&self) -> Seq<bool> {
        self.register@
    }
}

impl Counter {
    pub fn new() -> (r: Self)
        ensures
            r@ == zeros16(),
    {
        Counter { register: Register::new() }
    }

    pub fn out(&self) -> (r: Word)
        ensures
            r@ == self@,
    {
        self.register.out()
    }

    /// One step: `reset` clears the counter, else `load` stores `input`,
    /// else `inc` adds one modulo 2^16, else the count is kept.
    pub fn clock(&mut self, input: Word, inc: bool, load: bool, reset: bool)
        ensures
            final(self)@ == if reset {
                zeros16()
            } else if load {
                input@
            } else if inc {
                sum_bits(bits_val(old(self)@) + 1)
            } else {
                old(self)@
            },
    {
        let zeros: Word = [false; 16];
        proof {
            assert(zeros@ =~= zeros16());
        }
        let prev = self.register.out();
        let next = mux16(mux16(inc16(prev), input, load), zeros, reset);
        self.register.clock(next, or(inc, or(load, reset)));
    }
}

/// The RAM round trip: after storing `v` at one address, that address
/// reads back `v` and every other address is unchanged.  Together with
/// the contracts of `out` and `clock` this holds of every RAM tier.
pub proof fn lemma_ram_round_trip(
    contents: Seq<Seq<bool>>,
    addr: int,
    v: Seq<bool>,
    other: int,
)
    requires
        0 <= addr < contents.len(),
        0 <= other < contents.len(),
        other != addr,
    ensures
        contents.update(addr, v)[addr] == v,
        contents.update(addr, v)[other] == contents[other],
{
}

} // verus!
