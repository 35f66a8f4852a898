//! The whole computer: instruction ROM, the address-triaged data memory
//! (RAM, screen, keyboard), and the CPU, advanced one clock at a time.

use vstd::prelude::*;
use crate::given::{Word, bits_val, i16_bits, int2word, word2int};
use crate::gate::{mux16, dmux};
use crate::ram::RAM16K;
use crate::blackbox::{ROM32K, Screen, Keyboard, bits_to_i16};
use crate::cpu::{
    Cpu, CpuInput, CpuState, cpu_alu_out, cpu_write_m, cpu_next_a, cpu_next_d,
    cpu_next_pc,
};

verus! {

/// The data memory's contents: 16K RAM words, the screen, the keyboard.
pub struct MemoryState {
    pub ram: Seq<Seq<bool>>,
    pub screen: Seq<i16>,
    pub keyboard: i16,
}

/// The memory map's read: bit 14 clear selects RAM, bit 13 then splits
/// the rest between the screen and the keyboard register.
pub open spec fn memory_out(m: MemoryState, address: Seq<bool>) -> Seq<bool> {
    if !address[14] {
        m.ram[bits_val(address.take(14)) as int]
    } else if !address[13] {
        i16_bits(m.screen[bits_val(address.take(13)) as int])
    } else {
        i16_bits(m.keyboard)
    }
}

/// The memory map's write: the load is routed the same way reads are; the
/// keyboard region ignores writes.
pub open spec fn memory_clock(m: MemoryState, address: Seq<bool>, input: Seq<bool>, load: bool) -> MemoryState {
    if load && !address[14] {
        MemoryState { ram: m.ram.update(bits_val(address.take(14)) as int, input), ..m }
    } else if load && address[14] && !address[13] {
        MemoryState {
            screen: m.screen.update(bits_val(address.take(13)) as int, bits_to_i16(input)),
            ..m
        }
    } else {
        m
    }
}

struct Memory {
    ram: RAM16K,
    screen: Screen,
    keyboard: Keyboard,
}

impl View for Memory {
    type V = MemoryState;

    closed spec fn view(&self) -> MemoryState {
        MemoryState { ram: self.ram@, screen: self.screen@, keyboard: self.keyboard@ }
    }
}

impl Memory {
    fn new() -> (r: Self)
        ensures
            r@.ram == Seq::new(16384, |i: int| crate::ram::zeros16()),
            r@.screen.len() == 8192,
            r@.keyboard == 0,
    {
        Memory { ram: RAM16K::new(), screen: Screen::new(), keyboard: Keyboard::new() }
    }

    fn screen(&self) -> (r: &Screen)
        ensures
            r@ == self@.screen,
    {
        &self.screen
    }

    fn keyboard(&self) -> (r: &Keyboard)
        ensures
            r@ == self@.keyboard,
    {
        &self.keyboard
    }

    fn out(&self, address: Word) -> (r: Word)
        ensures
            r@ == memory_out(self@, address@),
    {
        let ram_addr = [
            address[0],
            address[1],
            address[2],
            address[3],
            address[4],
            address[5],
            address[6],
            address[7],
            address[8],
            address[9],
            address[10],
            address[11],
            address[12],
            address[13],
        ];
        let screen_addr = [
            address[0],
            address[1],
            address[2],
            address[3],
            address[4],
            address[5],
            address[6],
            address[7],
            address[8],
            address[9],
            address[10],
            address[11],
            address[12],
        ];
        proof {
            assert(ram_addr@ =~= address@.take(14));
            assert(screen_addr@ =~= address@.take(13));
            crate::given::lemma_bits_val_bound(ram_addr@);
            vstd::arithmetic::power2::lemma2_to64();
        }
        mux16(
            self.ram.out(ram_addr),
            mux16(self.screen.out(screen_addr), self.keyboard.out(), address[13]),
            address[14],
        )
    }

    fn clock(&mut self, address: Word, input: Word, load: bool)
        ensures
            final(self)@ == memory_clock(old(self)@, address@, input@, load),
    {
        let ram_addr = [
            address[0],
            address[1],
            address[2],
            address[3],
            address[4],
            address[5],
            address[6],
            address[7],
            address[8],
            address[9],
            address[10],
            address[11],
            address[12],
            address[13],
        ];
        let screen_addr = [
            address[0],
            address[1],
            address[2],
            address[3],
            address[4],
            address[5],
            address[6],
            address[7],
            address[8],
            address[9],
            address[10],
            address[11],
            address[12],
        ];
        proof {
            assert(ram_addr@ =~= address@.take(14));
            assert(screen_addr@ =~= address@.take(13));
            crate::given::lemma_bits_val_bound(ram_addr@);
            vstd::arithmetic::power2::lemma2_to64();
        }
        let first = dmux(load, address[14]);
        let second = dmux(first[1], address[13]);
        self.ram.clock(ram_addr, input, first[0]);
        self.screen.clock(screen_addr, input, second[0]);
    }
}

/// The machine's whole state: program, its length in words, data memory,
/// and CPU registers.
pub struct MachineState {
    pub rom: Seq<i16>,
    pub loaded: nat,
    pub mem: MemoryState,
    pub cpu: CpuState,
}

/// The instruction word the machine is about to execute.
pub open spec fn fetched(s: MachineState) -> Seq<bool> {
    i16_bits(s.rom[bits_val(s.cpu.pc.take(15)) as int])
}

/// One tick of the machine: fetch at PC, read the M operand, compute the
/// ALU output, commit the memory write, then commit the CPU registers.
pub open spec fn machine_step(s: MachineState, reset: bool) -> MachineState {
    let inst = fetched(s);
    let in_m = memory_out(s.mem, s.cpu.a);
    let out_m = cpu_alu_out(s.cpu.d, s.cpu.a, in_m, inst);
    MachineState {
        rom: s.rom,
        loaded: s.loaded,
        mem: memory_clock(s.mem, s.cpu.a, out_m, cpu_write_m(inst)),
        cpu: CpuState {
            a: cpu_next_a(s.cpu.d, s.cpu.a, in_m, inst),
            d: cpu_next_d(s.cpu.d, s.cpu.a, in_m, inst),
            pc: cpu_next_pc(s.cpu.d, s.cpu.a, s.cpu.pc, in_m, inst, reset),
        },
    }
}

pub struct Machine {
    instruction_memory: ROM32K,
    data_memory: Memory,
    cpu: Cpu,
}

impl View for Machine {
    type V = MachineState;

    closed spec fn view(&self) -> MachineState {
        MachineState {
            rom: self.instruction_memory@,
            loaded: self.instruction_memory.loaded(),
            mem: self.data_memory@,
            cpu: self.cpu@,
        }
    }
}

impl Machine {
    /// A machine loaded with the given program; ROM words past the program
    /// are zero, RAM starts cleared, and the CPU registers start at zero.
    pub fn new(instructions: &[i16]) -> (r: Self)
        requires
            instructions@.len() <= 32768,
        ensures
            r@.rom.len() == 32768,
            r@.loaded == instructions@.len(),
            forall|i: int| 0 <= i < instructions@.len() ==> r@.rom[i] == instructions@[i],
            forall|i: int| instructions@.len() <= i < 32768 ==> r@.rom[i] == 0,
            r@.mem.ram == Seq::new(16384, |i: int| crate::ram::zeros16()),
            r@.mem.keyboard == 0,
            r@.cpu.a == crate::ram::zeros16(),
            r@.cpu.d == crate::ram::zeros16(),
            r@.cpu.pc == crate::ram::zeros16(),
    {
        Machine {
            instruction_memory: ROM32K::new(instructions),
            data_memory: Memory::new(),
            cpu: Cpu::new(),
        }
    }

    /// One tick, as `machine_step` describes.
    pub fn clock(&mut self, reset: bool)
        ensures
            final(self)@ == machine_step(old(self)@, reset),
    {
        let cpu_input = CpuInput {
            instruction: self.instruction_memory.out(self.cpu.pc()),
            inM: self.data_memory.out(self.cpu.addressM()),
            reset,
        };
        let cpu_out = self.cpu.out(cpu_input);
        let address_m = self.cpu.addressM();
        self.data_memory.clock(address_m, cpu_out.outM, cpu_out.writeM);
        self.cpu.clock(cpu_input);
    }

    /// The instruction word at the current program counter.
    pub fn next_instruction(&self) -> (r: i16)
        ensures
            r == self@.rom[bits_val(self@.cpu.pc.take(15)) as int],
    {
        let w = self.instruction_memory.out(self.cpu.pc());
        let n = word2int(w);
        proof {
            let v = self@.rom[bits_val(self@.cpu.pc.take(15)) as int];
            crate::given::lemma_to_unsigned16_inverse(n);
            crate::given::lemma_to_unsigned16_inverse(v);
            crate::given::lemma_bits_val_injective(i16_bits(n), i16_bits(v));
        }
        n
    }

    /// Whether the program counter lies past the loaded program, on the
    /// all-zero sentinel region of the ROM.  An explicit `@0` inside the
    /// program does not halt the run; only falling (or jumping) past the
    /// last loaded word does.  Programs that want to stop early jump to a
    /// label placed after their final instruction.
    pub fn is_terminated(&self) -> (r: bool)
        ensures
            r == (bits_val(self@.cpu.pc.take(15)) >= self@.loaded),
    {
        self.instruction_memory.is_terminated(self.cpu.pc())
    }

    /// Reads the data memory at a signed 16-bit address, through the
    /// memory map.
    pub fn read_memory(&self, address: i16) -> (r: i16)
        ensures
            r == bits_to_i16(memory_out(self@.mem, i16_bits(address))),
    {
        word2int(self.data_memory.out(int2word(address)))
    }

    /// The raw screen framebuffer, one bit per pixel.
    pub fn screen_image(&self) -> (r: &Vec<i16>)
        ensures
            r@ == self@.mem.screen,
    {
        self.data_memory.screen.raw_image()
    }

    /// Publishes a keyboard scancode for the following ticks to read.
    pub fn keyboard_input(&mut self, key: i16)
        ensures
            final(self)@.mem.keyboard == key,
            final(self)@.mem.ram == old(self)@.mem.ram,
            final(self)@.mem.screen == old(self)@.mem.screen,
            final(self)@.rom == old(self)@.rom,
            final(self)@.cpu == old(self)@.cpu,
    {
        self.data_memory.keyboard.input(key);
    }

    /// The screen unit.
    pub fn screen(&self) -> (r: &Screen)
        ensures
            r@ == self@.mem.screen,
    {
        self.data_memory.screen()
    }

    /// The keyboard unit.
    pub fn keyboard(&self) -> (r: &Keyboard)
        ensures
            r@ == self@.mem.keyboard,
    {
        self.data_memory.keyboard()
    }
}

} // verus!
