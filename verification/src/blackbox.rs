//! The memory-mapped peripherals the simulator treats as sealed units: the
//! instruction ROM, the screen framebuffer, and the keyboard register.

use vstd::prelude::*;
use crate::given::{
    Word, bits_val, bits_int, i16_bits, int2word, word2int, bits_index,
    lemma_to_unsigned16_inverse,
};

verus! {

/// The signed 16-bit integer whose two's-complement pattern is `s`.
pub open spec fn bits_to_i16(s: Seq<bool>) -> i16 {
    bits_int(s) as i16
}

/// Instruction memory: 32768 words fixed at construction.  Reads ignore
/// bit 15 of the address, so every address maps into the ROM.
pub struct ROM32K {
    data: Vec<i16>,
    len: usize,
}

impl View for ROM32K {
    type V = Seq<i16>;

    closed spec fn view(&self) -> Seq<i16> {
        self.data@
    }
}

impl ROM32K {
    /// How many words the loaded program holds; every word past them
    /// is zero.
    pub closed spec fn loaded(&self) -> nat {
        self.len as nat
    }

    /// Loads a program: the given words first, zero words after them.
    pub fn new(data: &[i16]) -> (r: Self)
        requires
            data@.len() <= 32768,
        ensures
            r@.len() == 32768,
            r.loaded() == data@.len(),
            forall|i: int| 0 <= i < data@.len() ==> r@[i] == data@[i],
            forall|i: int| data@.len() <= i < 32768 ==> r@[i] == 0,
    {
        let mut v: Vec<i16> = Vec::new();
        let n = data.len();
        for i in 0..n
            invariant
                n == data@.len(),
                v@.len() == i,
                forall|j: int| 0 <= j < i ==> v@[j] == data@[j],
        {
            v.push(data[i]);
        }
        while v.len() < 32768
            invariant
                v@.len() >= n,
                v@.len() <= 32768,
                forall|j: int| 0 <= j < n ==> v@[j] == data@[j],
                forall|j: int| n <= j < v@.len() ==> v@[j] == 0,
            decreases 32768 - v@.len(),
        {
            v.push(0);
        }
        ROM32K { data: v, len: n }
    }

    /// The word stored at the 15-bit address `address` holds.
    pub fn out(&self, address: Word) -> (r: Word)
        ensures
            r@ == i16_bits(self@[bits_val(address@.take(15)) as int]),
    {
        proof {
            use_type_invariant(&*self);
        }
        let lo15 = [
            address[0],
            address[1],
            address[2],
            address[3],
            address[4],
            address[5],
            address[6],
            address[7],
            address[8],
            address[9],
            address[10],
            address[11],
            address[12],
            address[13],
            address[14],
        ];
        let idx = bits_index(&lo15);
        proof {
            assert(lo15@ =~= address@.take(15));
            vstd::arithmetic::power2::lemma2_to64();
        }
        int2word(self.data[idx])
    }

    /// Whether `address` lies past the loaded program.  Every word there
    /// is zero, so a program counter that runs off the end sits on the
    /// zero sentinel; this is the halt condition the driver polls.  A
    /// zero word inside the program is an ordinary `@0` and, by design,
    /// does not read as a halt: the translated stack code is full of
    /// them, one for every address of the stack pointer.
    pub fn is_terminated(&self, address: Word) -> (r: bool)
        ensures
            r == (bits_val(address@.take(15)) >= self.loaded()),
    {
        let lo15 = [
            address[0],
            address[1],
            address[2],
            address[3],
            address[4],
            address[5],
            address[6],
            address[7],
            address[8],
            address[9],
            address[10],
            address[11],
            address[12],
            address[13],
            address[14],
        ];
        let idx = bits_index(&lo15);
        proof {
            assert(lo15@ =~= address@.take(15));
        }
        idx >= self.len
    }
}

impl ROM32K {
    #[verifier::type_invariant]
    closed spec fn wf(&self) -> bool {
        self.data@.len() == 32768
    }
}

/// The 512 by 256 monochrome framebuffer: 8192 words, one bit per pixel.
pub struct Screen {
    data: Vec<i16>,
}

impl View for Screen {
    type V = Seq<i16>;

    closed spec fn view(&self) -> Seq<i16> {
        self.data@
    }
}

impl Screen {
    /// A fresh screen showing the test pattern `0x0f0f` in every word.
    pub fn new() -> (r: Self)
        ensures
            r@.len() == 8192,
            forall|i: int| 0 <= i < 8192 ==> r@[i] == 0x0f0f,
    {
        let mut v: Vec<i16> = Vec::new();
        while v.len() < 8192
            invariant
                v@.len() <= 8192,
                forall|j: int| 0 <= j < v@.len() ==> v@[j] == 0x0f0f,
            decreases 8192 - v@.len(),
        {
            v.push(0x0f0f);
        }
        Screen { data: v }
    }

    /// The framebuffer word at a 13-bit address.
    pub fn out(&self, address: [bool; 13]) -> (r: Word)
        ensures
            r@ == i16_bits(self@[bits_val(address@) as int]),
    {
        proof {
            use_type_invariant(&*self);
        }
        let idx = bits_index(&address);
        proof {
            vstd::arithmetic::power2::lemma2_to64();
        }
        int2word(self.data[idx])
    }

    /// Stores `input` at the addressed word when `load` is set.
    pub fn clock(&mut self, address: [bool; 13], input: Word, load: bool)
        ensures
            final(self)@ == if load {
                old(self)@.update(bits_val(address@) as int, bits_to_i16(input@))
            } else {
                old(self)@
            },
    {
        proof {
            use_type_invariant(&*self);
        }
        if load {
            let idx = bits_index(&address);
            proof {
                vstd::arithmetic::power2::lemma2_to64();
            }
            let v = word2int(input);
            self.data[idx] = v;
            proof {
                lemma_to_unsigned16_inverse(v);
                assert(v == bits_to_i16(input@));
            }
        }
    }

    /// The raw framebuffer, one bit per pixel, row by row.
    pub fn raw_image(&self) -> (r: &Vec<i16>)
        ensures
            r@ == self@,
            r@.len() == 8192,
    {
        proof {
            use_type_invariant(&*self);
        }
        &self.data
    }
}

impl Screen {
    #[verifier::type_invariant]
    closed spec fn wf(&self) -> bool {
        self.data@.len() == 8192
    }
}

/// The keyboard register: a single scancode published by the host.
pub struct Keyboard {
    key: i16,
}

impl View for Keyboard {
    type V = i16;

    closed spec fn view(&self) -> i16 {
        self.key
    }
}

impl Keyboard {
    pub fn new() -> (r: Self)
        ensures
            r@ == 0,
    {
        Keyboard { key: 0 }
    }

    /// The word the memory map shows at the keyboard address.
    pub fn out(&self) -> (r: Word)
        ensures
            r@ == i16_bits(self@),
    {
        int2word(self.key)
    }

    /// Publishes a scancode; the next read sees it.
    pub fn input(&mut self, key: i16)
        ensures
            final(self)@ == key,
    {
        self.key = key;
    }
}

} // verus!
