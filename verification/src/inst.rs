//! The machine-language model: A- and C-instructions, and the codec
//! between instructions and 16-bit words.

use vstd::prelude::*;
use vstd::string::StringSliceAdditionalSpecFns;
use crate::given::{Word, i16_bits, to_unsigned16, int2word};
use crate::text::{dec_repr, push_bytes, push_decimal_i16};

verus! {

/// A computation mnemonic of the ALU.  The `bool` payload is the a-bit:
/// `false` reads the A register, `true` reads the memory word M.
#[derive(Clone, Copy, PartialEq, Eq, Structural, Debug)]
pub enum Computation {
    Zero,
    One,
    MinusOne,
    D,
    X(bool),
    NotD,
    NotX(bool),
    MinusD,
    MinusX(bool),
    DPlusOne,
    XPlusOne(bool),
    DMinusOne,
    XMinusOne(bool),
    DPlusX(bool),
    DMinusX(bool),
    XMinusD(bool),
    DAndX(bool),
    DOrX(bool),
}

/// A jump condition, tested against the ALU output.
#[derive(Clone, Copy, PartialEq, Eq, Structural, Debug)]
pub enum Jump {
    Null,
    JGT,
    JEQ,
    JGE,
    JLT,
    JNE,
    JLE,
    JMP,
}

/// One Hack instruction: an address load or a computation.
#[derive(Clone, Copy, PartialEq, Eq, Structural, Debug)]
pub enum Instruction {
    AInstruction(i16),
    CInstruction(Computation, u8, Jump),
}

/// The six comp bits (bits 11..6 of the word) of a mnemonic.
pub open spec fn comp_code(c: Computation) -> int {
    match c {
        Computation::Zero => 0b101010,
        Computation::One => 0b111111,
        Computation::MinusOne => 0b111010,
        Computation::D => 0b001100,
        Computation::X(_) => 0b110000,
        Computation::NotD => 0b001101,
        Computation::NotX(_) => 0b110001,
        Computation::MinusD => 0b001111,
        Computation::MinusX(_) => 0b110011,
        Computation::DPlusOne => 0b011111,
        Computation::XPlusOne(_) => 0b110111,
        Computation::DMinusOne => 0b001110,
        Computation::XMinusOne(_) => 0b110010,
        Computation::DPlusX(_) => 0b000010,
        Computation::DMinusX(_) => 0b010011,
        Computation::XMinusD(_) => 0b000111,
        Computation::DAndX(_) => 0b000000,
        Computation::DOrX(_) => 0b010101,
    }
}

/// The a-bit (bit 12 of the word) of a mnemonic.
pub open spec fn comp_a(c: Computation) -> bool {
    match c {
        Computation::X(a) => a,
        Computation::NotX(a) => a,
        Computation::MinusX(a) => a,
        Computation::XPlusOne(a) => a,
        Computation::XMinusOne(a) => a,
        Computation::DPlusX(a) => a,
        Computation::DMinusX(a) => a,
        Computation::XMinusD(a) => a,
        Computation::DAndX(a) => a,
        Computation::DOrX(a) => a,
        _ => false,
    }
}

/// The three jump bits (bits 2..0 of the word).
pub open spec fn jump_code(j: Jump) -> int {
    match j {
        Jump::Null => 0b000,
        Jump::JGT => 0b001,
        Jump::JEQ => 0b010,
        Jump::JGE => 0b011,
        Jump::JLT => 0b100,
        Jump::JNE => 0b101,
        Jump::JLE => 0b110,
        Jump::JMP => 0b111,
    }
}

impl Instruction {
    /// A well-formed instruction: an A-instruction holds a non-negative
    /// 15-bit address, a C-instruction a 3-bit destination mask.
    pub open spec fn wf(self) -> bool {
        match self {
            Instruction::AInstruction(addr) => addr >= 0,
            Instruction::CInstruction(_, dest, _) => dest < 8,
        }
    }
}

/// The unsigned bit pattern of a C-instruction: the C tag at bit 15, the
/// a-bit at bit 12, comp at bits 11..6, dest at 5..3, jump at 2..0.
/// Bits 14 and 13 are unused; the convention sets them, and the machine
/// never reads them.
pub open spec fn c_code(c: Computation, dest: u8, j: Jump) -> int {
    0xE000 + (if comp_a(c) {
        0x1000int
    } else {
        0
    }) + comp_code(c) * 0x40 + (dest as int) * 8 + jump_code(j)
}

/// The signed 16-bit word an instruction encodes to.
pub open spec fn encode_spec(i: Instruction) -> int {
    match i {
        Instruction::AInstruction(addr) => addr as int,
        Instruction::CInstruction(c, dest, j) => c_code(c, dest, j) - 0x10000,
    }
}

/// Whether a six-bit comp field holds one of the eighteen mnemonics.
pub open spec fn valid_comp_code(code: int) -> bool {
    code == 0b101010 || code == 0b111111 || code == 0b111010 || code == 0b001100 || code
        == 0b110000 || code == 0b001101 || code == 0b110001 || code == 0b001111 || code == 0b110011
        || code == 0b011111 || code == 0b110111 || code == 0b001110 || code == 0b110010 || code
        == 0b000010 || code == 0b010011 || code == 0b000111 || code == 0b000000 || code == 0b010101
}

/// The mnemonic a six-bit comp field and an a-bit decode to.
pub open spec fn comp_of_code(code: int, a: bool) -> Computation {
    if code == 0b101010 {
        Computation::Zero
    } else if code == 0b111111 {
        Computation::One
    } else if code == 0b111010 {
        Computation::MinusOne
    } else if code == 0b001100 {
        Computation::D
    } else if code == 0b110000 {
        Computation::X(a)
    } else if code == 0b001101 {
        Computation::NotD
    } else if code == 0b110001 {
        Computation::NotX(a)
    } else if code == 0b001111 {
        Computation::MinusD
    } else if code == 0b110011 {
        Computation::MinusX(a)
    } else if code == 0b011111 {
        Computation::DPlusOne
    } else if code == 0b110111 {
        Computation::XPlusOne(a)
    } else if code == 0b001110 {
        Computation::DMinusOne
    } else if code == 0b110010 {
        Computation::XMinusOne(a)
    } else if code == 0b000010 {
        Computation::DPlusX(a)
    } else if code == 0b010011 {
        Computation::DMinusX(a)
    } else if code == 0b000111 {
        Computation::XMinusD(a)
    } else if code == 0b000000 {
        Computation::DAndX(a)
    } else if code == 0b010101 {
        Computation::DOrX(a)
    } else {
        Computation::Zero
    }
}

/// The jump tag a three-bit field decodes to.
pub open spec fn jump_of_code(code: int) -> Jump {
    if code == 0b000 {
        Jump::Null
    } else if code == 0b001 {
        Jump::JGT
    } else if code == 0b010 {
        Jump::JEQ
    } else if code == 0b011 {
        Jump::JGE
    } else if code == 0b100 {
        Jump::JLT
    } else if code == 0b101 {
        Jump::JNE
    } else if code == 0b110 {
        Jump::JLE
    } else {
        Jump::JMP
    }
}

/// The instruction a word decodes to: non-negative words are address
/// loads; negative words split into a-bit, comp, dest and jump fields.
pub open spec fn decode_spec(n: i16) -> Instruction {
    if n >= 0 {
        Instruction::AInstruction(n)
    } else {
        let u = to_unsigned16(n) as int;
        Instruction::CInstruction(
            comp_of_code((u / 0x40) % 0x40, (u / 0x1000) % 2 == 1),
            (((u / 8) % 8) as u8),
            jump_of_code(u % 8),
        )
    }
}

/// Whether a word decodes to an instruction at all: every non-negative
/// word does; a negative word needs a recognised comp field.
pub open spec fn valid_instruction_word(n: i16) -> bool {
    n >= 0 || valid_comp_code((to_unsigned16(n) as int / 0x40) % 0x40)
}

/// The codec round trip: decoding an encoded well-formed instruction
/// gives the instruction back, under structural equality.
pub proof fn lemma_decode_encode(i: Instruction)
    requires
        i.wf(),
    ensures
        -0x8000 <= encode_spec(i) < 0x8000,
        valid_instruction_word(encode_spec(i) as i16),
        decode_spec(encode_spec(i) as i16) == i,
{
    match i {
        Instruction::AInstruction(addr) => {},
        Instruction::CInstruction(c, dest, j) => {
            let u = c_code(c, dest, j);
            let n = encode_spec(i) as i16;
            assert(0x8000 <= u < 0x10000);
            assert(n < 0 && to_unsigned16(n) == u);
            assert((u / 0x40) % 0x40 == comp_code(c));
            assert((u / 0x1000) % 2 == if comp_a(c) {
                1int
            } else {
                0int
            });
            assert((u / 8) % 8 == dest as int);
            assert(u % 8 == jump_code(j));
        },
    }
}

impl Instruction {
    /// The 16-bit word this instruction encodes to.
    pub fn encode(&self) -> (r: i16)
        requires
            self.wf(),
        ensures
            r as int == encode_spec(*self),
            valid_instruction_word(r),
            decode_spec(r) == *self,
    {
        proof {
            lemma_decode_encode(*self);
        }
        match self {
            Instruction::AInstruction(addr) => *addr,
            Instruction::CInstruction(c, dest, j) => {
                let comp: i32 = match c {
                    Computation::Zero => 0b101010,
                    Computation::One => 0b111111,
                    Computation::MinusOne => 0b111010,
                    Computation::D => 0b001100,
                    Computation::X(_) => 0b110000,
                    Computation::NotD => 0b001101,
                    Computation::NotX(_) => 0b110001,
                    Computation::MinusD => 0b001111,
                    Computation::MinusX(_) => 0b110011,
                    Computation::DPlusOne => 0b011111,
                    Computation::XPlusOne(_) => 0b110111,
                    Computation::DMinusOne => 0b001110,
                    Computation::XMinusOne(_) => 0b110010,
                    Computation::DPlusX(_) => 0b000010,
                    Computation::DMinusX(_) => 0b010011,
                    Computation::XMinusD(_) => 0b000111,
                    Computation::DAndX(_) => 0b000000,
                    Computation::DOrX(_) => 0b010101,
                };
                let a: i32 = match c {
                    Computation::X(a) | Computation::NotX(a) | Computation::MinusX(a)
                    | Computation::XPlusOne(a) | Computation::XMinusOne(a) | Computation::DPlusX(a)
                    | Computation::DMinusX(a) | Computation::XMinusD(a) | Computation::DAndX(a)
                    | Computation::DOrX(a) => if *a {
                        1
                    } else {
                        0
                    },
                    _ => 0,
                };
                let jump: i32 = match j {
                    Jump::Null => 0b000,
                    Jump::JGT => 0b001,
                    Jump::JEQ => 0b010,
                    Jump::JGE => 0b011,
                    Jump::JLT => 0b100,
                    Jump::JNE => 0b101,
                    Jump::JLE => 0b110,
                    Jump::JMP => 0b111,
                };
                let bits: i32 = 0xE000 + a * 0x1000 + comp * 0x40 + (*dest as i32) * 8 + jump;
                (bits - 0x10000) as i16
            },
        }
    }

    /// The instruction word as its 16 bits.
    pub fn to_word(&self) -> (r: Word)
        requires
            self.wf(),
        ensures
            r@ == i16_bits((encode_spec(*self)) as i16),
    {
        int2word(self.encode())
    }

    /// Decodes a 16-bit word back into an instruction.
    pub fn decode(instruction: i16) -> (r: Self)
        requires
            valid_instruction_word(instruction),
        ensures
            r == decode_spec(instruction),
            r.wf(),
    {
        if instruction >= 0 {
            Instruction::AInstruction(instruction)
        } else {
            let u: u16 = (((instruction as i32) + 0x10000) as u16);
            let a = (u / 0x1000) % 2 == 1;
            let code = (u / 0x40) % 0x40;
            let dest = ((u / 8) % 8) as u8;
            let jcode = u % 8;
            let comp = if code == 0b101010 {
                Computation::Zero
            } else if code == 0b111111 {
                Computation::One
            } else if code == 0b111010 {
                Computation::MinusOne
            } else if code == 0b001100 {
                Computation::D
            } else if code == 0b110000 {
                Computation::X(a)
            } else if code == 0b001101 {
                Computation::NotD
            } else if code == 0b110001 {
                Computation::NotX(a)
            } else if code == 0b001111 {
                Computation::MinusD
            } else if code == 0b110011 {
                Computation::MinusX(a)
            } else if code == 0b011111 {
                Computation::DPlusOne
            } else if code == 0b110111 {
                Computation::XPlusOne(a)
            } else if code == 0b001110 {
                Computation::DMinusOne
            } else if code == 0b110010 {
                Computation::XMinusOne(a)
            } else if code == 0b000010 {
                Computation::DPlusX(a)
            } else if code == 0b010011 {
                Computation::DMinusX(a)
            } else if code == 0b000111 {
                Computation::XMinusD(a)
            } else if code == 0b000000 {
                Computation::DAndX(a)
            } else {
                Computation::DOrX(a)
            };
            let jump = if jcode == 0b000 {
                Jump::Null
            } else if jcode == 0b001 {
                Jump::JGT
            } else if jcode == 0b010 {
                Jump::JEQ
            } else if jcode == 0b011 {
                Jump::JGE
            } else if jcode == 0b100 {
                Jump::JLT
            } else if jcode == 0b101 {
                Jump::JNE
            } else if jcode == 0b110 {
                Jump::JLE
            } else {
                Jump::JMP
            };
            Instruction::CInstruction(comp, dest, jump)
        }
    }
}

/// The mnemonic spelling of a computation.
pub open spec fn comp_name(c: Computation) -> Seq<u8> {
    match c {
        Computation::Zero => "0".spec_bytes(),
        Computation::One => "1".spec_bytes(),
        Computation::MinusOne => "-1".spec_bytes(),
        Computation::D => "D".spec_bytes(),
        Computation::X(a) => if a {
            "M".spec_bytes()
        } else {
            "A".spec_bytes()
        },
        Computation::NotD => "!D".spec_bytes(),
        Computation::NotX(a) => if a {
            "!M".spec_bytes()
        } else {
            "!A".spec_bytes()
        },
        Computation::MinusD => "-D".spec_bytes(),
        Computation::MinusX(a) => if a {
            "-M".spec_bytes()
        } else {
            "-A".spec_bytes()
        },
        Computation::DPlusOne => "D+1".spec_bytes(),
        Computation::XPlusOne(a) => if a {
            "M+1".spec_bytes()
        } else {
            "A+1".spec_bytes()
        },
        Computation::DMinusOne => "D-1".spec_bytes(),
        Computation::XMinusOne(a) => if a {
            "M-1".spec_bytes()
        } else {
            "A-1".spec_bytes()
        },
        Computation::DPlusX(a) => if a {
            "D+M".spec_bytes()
        } else {
            "D+A".spec_bytes()
        },
        Computation::DMinusX(a) => if a {
            "D-M".spec_bytes()
        } else {
            "D-A".spec_bytes()
        },
        Computation::XMinusD(a) => if a {
            "M-D".spec_bytes()
        } else {
            "A-D".spec_bytes()
        },
        Computation::DAndX(a) => if a {
            "D&M".spec_bytes()
        } else {
            "D&A".spec_bytes()
        },
        Computation::DOrX(a) => if a {
            "D|M".spec_bytes()
        } else {
            "D|A".spec_bytes()
        },
    }
}

/// The spelling of a destination mask; no destination prints as `null`.
pub open spec fn dest_name(d: u8) -> Seq<u8> {
    if d == 1 {
        "M".spec_bytes()
    } else if d == 2 {
        "D".spec_bytes()
    } else if d == 3 {
        "MD".spec_bytes()
    } else if d == 4 {
        "A".spec_bytes()
    } else if d == 5 {
        "AM".spec_bytes()
    } else if d == 6 {
        "AD".spec_bytes()
    } else if d == 7 {
        "AMD".spec_bytes()
    } else {
        "null".spec_bytes()
    }
}

/// The spelling of a jump tag; no jump prints as `null`.
pub open spec fn jump_name(j: Jump) -> Seq<u8> {
    match j {
        Jump::Null => "null".spec_bytes(),
        Jump::JGT => "JGT".spec_bytes(),
        Jump::JEQ => "JEQ".spec_bytes(),
        Jump::JGE => "JGE".spec_bytes(),
        Jump::JLT => "JLT".spec_bytes(),
        Jump::JNE => "JNE".spec_bytes(),
        Jump::JMP => "JMP".spec_bytes(),
        Jump::JLE => "JLE".spec_bytes(),
    }
}

/// The symbolic text of an instruction: `@address`, or
/// `dest=comp;jump` with `null` for absent fields.
pub open spec fn instruction_text(i: Instruction) -> Seq<u8> {
    match i {
        Instruction::AInstruction(a) => "@".spec_bytes() + dec_repr(a as int),
        Instruction::CInstruction(c, d, j) => dest_name(d) + "=".spec_bytes() + comp_name(c)
            + ";".spec_bytes() + jump_name(j),
    }
}

impl Instruction {
    /// Prints the instruction in assembly spelling.
    pub fn to_text(&self) -> (r: Vec<u8>)
        requires
            self.wf(),
        ensures
            r@ == instruction_text(*self),
    {
        let mut r: Vec<u8> = Vec::new();
        match self {
            Instruction::AInstruction(a) => {
                push_bytes(&mut r, "@".as_bytes());
                push_decimal_i16(&mut r, *a);
                proof {
                    assert(r@ =~= instruction_text(*self));
                }
            },
            Instruction::CInstruction(c, d, j) => {
                let dv = *d;
                if dv == 1 {
                    push_bytes(&mut r, "M".as_bytes());
                } else if dv == 2 {
                    push_bytes(&mut r, "D".as_bytes());
                } else if dv == 3 {
                    push_bytes(&mut r, "MD".as_bytes());
                } else if dv == 4 {
                    push_bytes(&mut r, "A".as_bytes());
                } else if dv == 5 {
                    push_bytes(&mut r, "AM".as_bytes());
                } else if dv == 6 {
                    push_bytes(&mut r, "AD".as_bytes());
                } else if dv == 7 {
                    push_bytes(&mut r, "AMD".as_bytes());
                } else {
                    push_bytes(&mut r, "null".as_bytes());
                }
                push_bytes(&mut r, "=".as_bytes());
                match c {
                    Computation::Zero => push_bytes(&mut r, "0".as_bytes()),
                    Computation::One => push_bytes(&mut r, "1".as_bytes()),
                    Computation::MinusOne => push_bytes(&mut r, "-1".as_bytes()),
                    Computation::D => push_bytes(&mut r, "D".as_bytes()),
                    Computation::X(a) => if *a {
                        push_bytes(&mut r, "M".as_bytes())
                    } else {
                        push_bytes(&mut r, "A".as_bytes())
                    },
                    Computation::NotD => push_bytes(&mut r, "!D".as_bytes()),
                    Computation::NotX(a) => if *a {
                        push_bytes(&mut r, "!M".as_bytes())
                    } else {
                        push_bytes(&mut r, "!A".as_bytes())
                    },
                    Computation::MinusD => push_bytes(&mut r, "-D".as_bytes()),
                    Computation::MinusX(a) => if *a {
                        push_bytes(&mut r, "-M".as_bytes())
                    } else {
                        push_bytes(&mut r, "-A".as_bytes())
                    },
                    Computation::DPlusOne => push_bytes(&mut r, "D+1".as_bytes()),
                    Computation::XPlusOne(a) => if *a {
                        push_bytes(&mut r, "M+1".as_bytes())
                    } else {
                        push_bytes(&mut r, "A+1".as_bytes())
                    },
                    Computation::DMinusOne => push_bytes(&mut r, "D-1".as_bytes()),
                    Computation::XMinusOne(a) => if *a {
                        push_bytes(&mut r, "M-1".as_bytes())
                    } else {
                        push_bytes(&mut r, "A-1".as_bytes())
                    },
                    Computation::DPlusX(a) => if *a {
                        push_bytes(&mut r, "D+M".as_bytes())
                    } else {
                        push_bytes(&mut r, "D+A".as_bytes())
                    },
                    Computation::DMinusX(a) => if *a {
                        push_bytes(&mut r, "D-M".as_bytes())
                    } else {
                        push_bytes(&mut r, "D-A".as_bytes())
                    },
                    Computation::XMinusD(a) => if *a {
                        push_bytes(&mut r, "M-D".as_bytes())
                    } else {
                        push_bytes(&mut r, "A-D".as_bytes())
                    },
                    Computation::DAndX(a) => if *a {
                        push_bytes(&mut r, "D&M".as_bytes())
                    } else {
                        push_bytes(&mut r, "D&A".as_bytes())
                    },
                    Computation::DOrX(a) => if *a {
                        push_bytes(&mut r, "D|M".as_bytes())
                    } else {
                        push_bytes(&mut r, "D|A".as_bytes())
                    },
                }
                push_bytes(&mut r, ";".as_bytes());
                match j {
                    Jump::Null => push_bytes(&mut r, "null".as_bytes()),
                    Jump::JGT => push_bytes(&mut r, "JGT".as_bytes()),
                    Jump::JEQ => push_bytes(&mut r, "JEQ".as_bytes()),
                    Jump::JGE => push_bytes(&mut r, "JGE".as_bytes()),
                    Jump::JLT => push_bytes(&mut r, "JLT".as_bytes()),
                    Jump::JNE => push_bytes(&mut r, "JNE".as_bytes()),
                    Jump::JLE => push_bytes(&mut r, "JLE".as_bytes()),
                    Jump::JMP => push_bytes(&mut r, "JMP".as_bytes()),
                }
                proof {
                    assert(r@ =~= instruction_text(*self));
                }
            },
        }
        r
    }
}

} // verus!
