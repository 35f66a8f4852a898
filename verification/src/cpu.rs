//! The Hack CPU: the A and D registers, the program counter, and the
//! combinational decode of one instruction per clock.
#![allow(non_snake_case)]

use vstd::prelude::*;
use crate::given::{Word, bits_val};
use crate::gate::{mux16, not, or, and};
use crate::ram::{Register, Counter, zeros16};
use crate::alu::{alu, alu_bits, AluOutput};
use crate::adder::sum_bits;

verus! {

/// The architectural state of the CPU, as plain bit sequences.
pub struct CpuState {
    pub a: Seq<bool>,
    pub d: Seq<bool>,
    pub pc: Seq<bool>,
}

/// Whether an instruction word is a C-instruction (bit 15 set).
pub open spec fn is_c_instruction(inst: Seq<bool>) -> bool {
    inst[15]
}

/// The ALU output for one instruction: `x` is D, `y` is A or M as the
/// a-bit picks, and the six control bits come from bits 11 down to 6.
pub open spec fn cpu_alu_out(d: Seq<bool>, a: Seq<bool>, in_m: Seq<bool>, inst: Seq<bool>) -> Seq<
    bool,
> {
    alu_bits(
        d,
        if inst[12] {
            in_m
        } else {
            a
        },
        inst[11],
        inst[10],
        inst[9],
        inst[8],
        inst[7],
        inst[6],
    )
}

/// Whether the jump condition of a C-instruction holds: bits 2..0 against
/// the ALU's negative and zero flags.  A-instructions never jump.
pub open spec fn cpu_jump(d: Seq<bool>, a: Seq<bool>, in_m: Seq<bool>, inst: Seq<bool>) -> bool {
    let out = cpu_alu_out(d, a, in_m, inst);
    let zr = bits_val(out) == 0;
    let ng = out[15];
    is_c_instruction(inst) && ((inst[0] && !zr && !ng) || (inst[1] && zr) || (inst[2] && ng))
}

/// The A register after one clock: an A-instruction always loads it with
/// the instruction word; a C-instruction loads the ALU output when the
/// A destination bit (bit 5) is set.
pub open spec fn cpu_next_a(d: Seq<bool>, a: Seq<bool>, in_m: Seq<bool>, inst: Seq<bool>) -> Seq<
    bool,
> {
    if !is_c_instruction(inst) {
        inst
    } else if inst[5] {
        cpu_alu_out(d, a, in_m, inst)
    } else {
        a
    }
}

/// The D register after one clock: loaded with the ALU output exactly when
/// a C-instruction's D destination bit (bit 4) is set.
pub open spec fn cpu_next_d(d: Seq<bool>, a: Seq<bool>, in_m: Seq<bool>, inst: Seq<bool>) -> Seq<
    bool,
> {
    if is_c_instruction(inst) && inst[4] {
        cpu_alu_out(d, a, in_m, inst)
    } else {
        d
    }
}

/// The program counter after one clock: reset forces zero, a taken jump
/// loads the old A register, otherwise the counter advances by one.
pub open spec fn cpu_next_pc(
    d: Seq<bool>,
    a: Seq<bool>,
    pc: Seq<bool>,
    in_m: Seq<bool>,
    inst: Seq<bool>,
    reset: bool,
) -> Seq<bool> {
    if reset {
        zeros16()
    } else if cpu_jump(d, a, in_m, inst) {
        a
    } else {
        sum_bits(bits_val(pc) + 1)
    }
}

/// Whether the instruction writes memory: a C-instruction with the M
/// destination bit (bit 3) set.
pub open spec fn cpu_write_m(inst: Seq<bool>) -> bool {
    is_c_instruction(inst) && inst[3]
}

pub struct Cpu {
    a: Register,
    d: Register,
    pc: Counter,
}

#[derive(Clone, Copy)]
pub struct CpuInput {
    pub inM: Word,
    pub instruction: Word,
    pub reset: bool,
}

pub struct CpuOutput {
    pub outM: Word,
    pub writeM: bool,
}

struct ControlBits {
    in_a: Word,
    in_d: Word,
    in_pc: Word,
    load_a: bool,
    load_d: bool,
    jump: bool,
}

impl View for Cpu {
    type V = CpuState;

    closed spec fn view(&self) -> CpuState {
        CpuState { a: self.a@, d: self.d@, pc: self.pc@ }
    }
}

impl Cpu {
    pub fn new() -> (r: Self)
        ensures
            r@.a == zeros16(),
            r@.d == zeros16(),
            r@.pc == zeros16(),
    {
        Cpu { a: Register::new(), d: Register::new(), pc: Counter::new() }
    }

    /// The address the instruction's M operand refers to: the A register.
    pub fn addressM(&self) -> (r: Word)
        ensures
            r@ == self@.a,
    {
        self.a.out()
    }

    /// The current program counter.
    pub fn pc(&self) -> (r: Word)
        ensures
            r@ == self@.pc,
    {
        self.pc.out()
    }

    fn alu_step(&self, inM: Word, instruction: Word) -> (r: AluOutput)
        ensures
            r.out@ == cpu_alu_out(self@.d, self@.a, inM@, instruction@),
            r.zr == (bits_val(r.out@) == 0),
            r.ng == r.out@[15],
    {
        let x = self.d.out();
        let y = mux16(self.a.out(), inM, instruction[12]);
        alu(
            x,
            y,
            instruction[11],
            instruction[10],
            instruction[9],
            instruction[8],
            instruction[7],
            instruction[6],
        )
    }

    fn decode(&self, inM: Word, instruction: Word) -> (c: ControlBits)
        ensures
            c.in_a@ == if is_c_instruction(instruction@) {
                cpu_alu_out(self@.d, self@.a, inM@, instruction@)
            } else {
                instruction@
            },
            c.in_d@ == cpu_alu_out(self@.d, self@.a, inM@, instruction@),
            c.in_pc@ == self@.a,
            c.load_a == (instruction@[5] || !is_c_instruction(instruction@)),
            c.load_d == (is_c_instruction(instruction@) && instruction@[4]),
            c.jump == cpu_jump(self@.d, self@.a, inM@, instruction@),
    {
        let is_c = instruction[15];
        let alu_out = self.alu_step(inM, instruction);
        ControlBits {
            in_a: mux16(instruction, alu_out.out, is_c),
            in_d: alu_out.out,
            in_pc: self.a.out(),
            load_a: or(instruction[5], not(is_c)),
            load_d: and(instruction[4], is_c),
            jump: and(
                is_c,
                or(
                    or(
                        and(instruction[0], not(or(alu_out.zr, alu_out.ng))),
                        and(instruction[1], alu_out.zr),
                    ),
                    and(instruction[2], alu_out.ng),
                ),
            ),
        }
    }

    /// The combinational outputs for the current state and input: the word
    /// that would be written to memory, and whether it is written.
    pub fn out(&self, input: CpuInput) -> (r: CpuOutput)
        ensures
            r.outM@ == cpu_alu_out(self@.d, self@.a, input.inM@, input.instruction@),
            r.writeM == cpu_write_m(input.instruction@),
    {
        let is_c = input.instruction[15];
        CpuOutput {
            outM: self.alu_step(input.inM, input.instruction).out,
            writeM: and(is_c, input.instruction[3]),
        }
    }

    /// One clock edge: commits A, D and PC as the instruction directs.
    pub fn clock(&mut self, input: CpuInput)
        ensures
            final(self)@.a == cpu_next_a(
                old(self)@.d,
                old(self)@.a,
                input.inM@,
                input.instruction@,
            ),
            final(self)@.d == cpu_next_d(
                old(self)@.d,
                old(self)@.a,
                input.inM@,
                input.instruction@,
            ),
            final(self)@.pc == cpu_next_pc(
                old(self)@.d,
                old(self)@.a,
                old(self)@.pc,
                input.inM@,
                input.instruction@,
                input.reset,
            ),
    {
        let c = self.decode(input.inM, input.instruction);
        self.a.clock(c.in_a, c.load_a);
        self.d.clock(c.in_d, c.load_d);
        self.pc.clock(c.in_pc, not(c.jump), c.jump, input.reset);
    }
}

} // verus!
