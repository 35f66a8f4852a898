#![allow(non_snake_case)]

use hack::given::{int2word, word2int};
use hack::cpu::{Cpu, CpuInput};
use hack::machine::Machine;
use hack::inst::{Instruction, Computation, Jump};
use hack::inst::Computation::{Zero, One, MinusOne, D, X, DPlusX, DMinusX, XPlusOne};
use hack::dest;
use hack::inst::Instruction::{AInstruction, CInstruction};

fn make_input(inM: i16, inst: Instruction) -> CpuInput {
    CpuInput { inM: int2word(inM), instruction: int2word(inst.encode()), reset: false }
}

fn reset_input() -> CpuInput {
    CpuInput { inM: [false; 16], instruction: [false; 16], reset: true }
}

fn null_input() -> CpuInput {
    make_input(0, AInstruction(0))
}

fn set_D_input(inM: i16) -> CpuInput {
    make_input(inM, CInstruction(Computation::X(true), dest::D, Jump::Null))
}

fn set_A_input(inM: i16) -> CpuInput {
    make_input(inM, CInstruction(Computation::X(true), dest::A, Jump::Null))
}

#[test]
fn cpu_test_pc() {
    let mut cpu = Cpu::new();
    assert_eq!(word2int(cpu.pc()), 0);

    cpu.clock(null_input());
    assert_eq!(word2int(cpu.pc()), 1);

    cpu.clock(null_input());
    assert_eq!(word2int(cpu.pc()), 2);

    cpu.clock(null_input());
    assert_eq!(word2int(cpu.pc()), 3);

    cpu.clock(reset_input());
    assert_eq!(word2int(cpu.pc()), 0);
}

#[test]
fn cpu_test_A_instruction() {
    let mut cpu = Cpu::new();
    let addrs = [0, 1, 4, 24, 726, 395];
    for &a in &addrs {
        cpu.clock(make_input(0, AInstruction(a)));
        assert_eq!(word2int(cpu.addressM()), a);
    }
}

#[test]
fn cpu_test_writeM() {
    let cpu = Cpu::new();

    let out = cpu.out(make_input(0, CInstruction(Computation::Zero, 0, Jump::Null)));
    assert_eq!(out.writeM, false);

    let out = cpu.out(make_input(0, CInstruction(Computation::Zero, dest::M, Jump::Null)));
    assert_eq!(out.writeM, true);
}

#[test]
fn cpu_test_inM_to_outM() {
    let cpu = Cpu::new();
    let values = [123, 456, 789];
    for &x in &values {
        let out = cpu.out(make_input(x, CInstruction(Computation::X(true), 0, Jump::Null)));
        assert_eq!(word2int(out.outM), x);
    }
}

#[test]
fn cpu_test_D_register() {
    let mut cpu = Cpu::new();

    let get_D = make_input(0, CInstruction(Computation::D, 0, Jump::Null));

    assert_eq!(word2int(cpu.out(get_D).outM), 0);

    cpu.clock(make_input(0, CInstruction(Computation::One, dest::D, Jump::Null)));
    assert_eq!(word2int(cpu.out(get_D).outM), 1);

    cpu.clock(make_input(0, CInstruction(Computation::MinusOne, dest::D, Jump::Null)));
    assert_eq!(word2int(cpu.out(get_D).outM), -1);

    cpu.clock(make_input(0, CInstruction(Computation::One, 0, Jump::Null)));
    assert_eq!(word2int(cpu.out(get_D).outM), -1);

    let values = [27, 430, 736, 285];
    for &inM in &values {
        cpu.clock(set_D_input(inM));
        assert_eq!(word2int(cpu.out(get_D).outM), inM);
    }
}

#[test]
fn cpu_test_A_register() {
    let mut cpu = Cpu::new();

    let get_A = make_input(0, CInstruction(Computation::X(false), 0, Jump::Null));

    assert_eq!(word2int(cpu.out(get_A).outM), 0);

    cpu.clock(make_input(0, CInstruction(Computation::One, dest::A, Jump::Null)));
    assert_eq!(word2int(cpu.out(get_A).outM), 1);

    cpu.clock(make_input(0, CInstruction(Computation::MinusOne, dest::A, Jump::Null)));
    assert_eq!(word2int(cpu.out(get_A).outM), -1);

    cpu.clock(make_input(0, CInstruction(Computation::One, 0, Jump::Null)));
    assert_eq!(word2int(cpu.out(get_A).outM), -1);

    let values = [27, 430, 736, 285];
    for &inM in &values {
        cpu.clock(set_A_input(inM));
        assert_eq!(word2int(cpu.out(get_A).outM), inM);
    }
}

#[test]
fn cpu_test_add() {
    let mut cpu = Cpu::new();

    let D_plus_A = make_input(0, CInstruction(Computation::DPlusX(false), 0, Jump::Null));

    fn D_plus_M(inM: i16) -> CpuInput {
        CpuInput {
            inM: int2word(inM),
            instruction: int2word(
                CInstruction(Computation::DPlusX(true), 0, Jump::Null).encode(),
            ),
            reset: false,
        }
    }

    let values = [2, 5, 34, 27, 731];
    for &d in &values {
        for &a in &values {
            cpu.clock(set_D_input(d));
            cpu.clock(set_A_input(a));
            assert_eq!(word2int(cpu.out(D_plus_A).outM), d + a);
        }
    }
    for &d in &values {
        for &m in &values {
            cpu.clock(set_D_input(d));
            assert_eq!(word2int(cpu.out(D_plus_M(m)).outM), d + m);
        }
    }
}

#[test]
fn cpu_test_not() {
    let mut cpu = Cpu::new();
    let not_D = make_input(0, CInstruction(Computation::NotD, 0, Jump::Null));
    let values = [0, 1, 5, -4];
    for &d in &values {
        cpu.clock(set_D_input(d));
        assert_eq!(word2int(cpu.out(not_D).outM), !d);
    }
}

fn get_pc_address(address: i16, comp: Computation, jump: Jump) -> i16 {
    let mut cpu = Cpu::new();
    cpu.clock(make_input(0, AInstruction(address)));
    cpu.clock(make_input(0, CInstruction(comp, 0, jump)));
    word2int(cpu.pc())
}

#[test]
fn cpu_test_jump() {
    let address = 123;

    assert_eq!(get_pc_address(address, Computation::Zero, Jump::JMP), address);

    let jump = Jump::JGT;
    assert_eq!(get_pc_address(address, Computation::Zero, jump), 2);
    assert_eq!(get_pc_address(address, Computation::One, jump), address);
    assert_eq!(get_pc_address(address, Computation::MinusOne, jump), 2);

    let jump = Jump::JEQ;
    assert_eq!(get_pc_address(address, Computation::Zero, jump), address);
    assert_eq!(get_pc_address(address, Computation::One, jump), 2);
    assert_eq!(get_pc_address(address, Computation::MinusOne, jump), 2);

    let jump = Jump::JGE;
    assert_eq!(get_pc_address(address, Computation::Zero, jump), address);
    assert_eq!(get_pc_address(address, Computation::One, jump), address);
    assert_eq!(get_pc_address(address, Computation::MinusOne, jump), 2);

    let jump = Jump::JLT;
    assert_eq!(get_pc_address(address, Computation::Zero, jump), 2);
    assert_eq!(get_pc_address(address, Computation::One, jump), 2);
    assert_eq!(get_pc_address(address, Computation::MinusOne, jump), address);

    let jump = Jump::JNE;
    assert_eq!(get_pc_address(address, Computation::Zero, jump), 2);
    assert_eq!(get_pc_address(address, Computation::One, jump), address);
    assert_eq!(get_pc_address(address, Computation::MinusOne, jump), address);

    let jump = Jump::JLE;
    assert_eq!(get_pc_address(address, Computation::Zero, jump), address);
    assert_eq!(get_pc_address(address, Computation::One, jump), 2);
    assert_eq!(get_pc_address(address, Computation::MinusOne, jump), address);
}

fn assert_instruction(inst: Instruction) {
    let a = inst.encode();
    let b = Instruction::decode(a).encode();
    assert_eq!(a, b);
}

#[test]
fn test_instructions() {
    assert_instruction(AInstruction(10));
    assert_instruction(CInstruction(Computation::Zero, 0, Jump::Null));
    assert_instruction(CInstruction(Computation::One, dest::A, Jump::Null));
    assert_instruction(CInstruction(Computation::DPlusX(true), dest::M, Jump::JGT));
}

fn run_machine_insts(program: &[Instruction], nclock: usize, address: i16) -> i16 {
    let bin = program.iter().map(|inst| inst.encode()).collect::<Vec<_>>();
    let mut machine = Machine::new(&bin);
    for _ in 0..nclock {
        machine.clock(false);
    }
    machine.read_memory(address)
}

#[test]
fn lib_test_set_value_to_memory() {
    let address = 0b0000000000010000;
    let program = [AInstruction(address), CInstruction(Computation::One, dest::M, Jump::Null)];
    assert_eq!(run_machine_insts(&program, program.len(), address), 1);
}

#[test]
fn lib_test_123_plus_456() {
    let sum = 0b10000;
    let program = [
        /* @123     */ AInstruction(123),
        /* D=A      */ CInstruction(X(false), dest::D, Jump::Null),
        /* @sum     */ AInstruction(sum),
        /* M=D      */ CInstruction(D, dest::M, Jump::Null),
        /* @456     */ AInstruction(456),
        /* D=A      */ CInstruction(X(false), dest::D, Jump::Null),
        /* @sum     */ AInstruction(sum),
        /* M=D+M    */ CInstruction(DPlusX(true), dest::M, Jump::Null),
    ];
    assert_eq!(run_machine_insts(&program, program.len(), sum), 123 + 456);
}

#[test]
fn lib_test_sum_1_to_10() {
    let i = 0b10000;
    let sum = 0b10001;
    let program = [
        /* @i       */ AInstruction(i),
        /* M=1      */ CInstruction(One, dest::M, Jump::Null),
        /* @sum     */ AInstruction(sum),
        /* M=0      */ CInstruction(Zero, dest::M, Jump::Null),
        /* (LOOP)   */
        /* @i       */ AInstruction(i),
        /* D=M      */ CInstruction(X(true), dest::D, Jump::Null),
        /* @10      */ AInstruction(10),
        /* D=D-A    */ CInstruction(DMinusX(false), dest::D, Jump::Null),
        /* @END     */ AInstruction(18),
        /* D;JGT    */ CInstruction(D, 0, Jump::JGT),
        /* @i       */ AInstruction(i),
        /* D=M      */ CInstruction(X(true), dest::D, Jump::Null),
        /* @sum     */ AInstruction(sum),
        /* M=D+M    */ CInstruction(DPlusX(true), dest::M, Jump::Null),
        /* @i       */ AInstruction(i),
        /* M=M+1    */ CInstruction(XPlusOne(true), dest::M, Jump::Null),
        /* @LOOP    */ AInstruction(4),
        /* 0;JMP    */ CInstruction(Zero, 0, Jump::JMP),
        /* (END)    */
        /* @END     */ AInstruction(18),
        /* 0;JMP    */ CInstruction(Zero, 0, Jump::JMP),
    ];
    assert_eq!(run_machine_insts(&program, program.len() * 10, sum), 10 * (10 + 1) / 2);
}

#[test]
fn machine_test_set_value_to_memory() {
    let address = 0b0000000000010000;
    let program = [AInstruction(address), CInstruction(Computation::One, dest::M, Jump::Null)];
    assert_eq!(run_machine_insts(&program, program.len(), address), 1);
}

#[test]
fn machine_test_123_plus_456() {
    let sum = 0b10000;
    let program = [
        AInstruction(123),
        CInstruction(X(false), dest::D, Jump::Null),
        AInstruction(sum),
        CInstruction(D, dest::M, Jump::Null),
        AInstruction(456),
        CInstruction(X(false), dest::D, Jump::Null),
        AInstruction(sum),
        CInstruction(DPlusX(true), dest::M, Jump::Null),
    ];
    assert_eq!(run_machine_insts(&program, program.len(), sum), 123 + 456);
}

#[test]
fn machine_test_sum_1_to_10() {
    let i = 0b10000;
    let sum = 0b10001;
    let program = [
        AInstruction(i),
        CInstruction(One, dest::M, Jump::Null),
        AInstruction(sum),
        CInstruction(Zero, dest::M, Jump::Null),
        AInstruction(i),
        CInstruction(X(true), dest::D, Jump::Null),
        AInstruction(10),
        CInstruction(DMinusX(false), dest::D, Jump::Null),
        AInstruction(18),
        CInstruction(D, 0, Jump::JGT),
        AInstruction(i),
        CInstruction(X(true), dest::D, Jump::Null),
        AInstruction(sum),
        CInstruction(DPlusX(true), dest::M, Jump::Null),
        AInstruction(i),
        CInstruction(XPlusOne(true), dest::M, Jump::Null),
        AInstruction(4),
        CInstruction(Zero, 0, Jump::JMP),
        AInstruction(18),
        CInstruction(Zero, 0, Jump::JMP),
    ];
    assert_eq!(run_machine_insts(&program, program.len() * 10, sum), 10 * (10 + 1) / 2);
}

#[test]
fn test_pc() {
    let mut cpu = Cpu::new();
    assert_eq!(word2int(cpu.pc()), 0);

    cpu.clock(null_input());
    assert_eq!(word2int(cpu.pc()), 1);

    cpu.clock(null_input());
    assert_eq!(word2int(cpu.pc()), 2);

    cpu.clock(null_input());
    assert_eq!(word2int(cpu.pc()), 3);

    cpu.clock(reset_input());
    assert_eq!(word2int(cpu.pc()), 0);
}

#[test]
fn test_A_instruction() {
    let mut cpu = Cpu::new();
    let addrs = [0, 1, 4, 24, 726, 395];
    for &a in &addrs {
        cpu.clock(make_input(0, AInstruction(a)));
        assert_eq!(word2int(cpu.addressM()), a);
    }
}

#[test]
fn test_writeM() {
    let cpu = Cpu::new();

    let out = cpu.out(make_input(0, CInstruction(Computation::Zero, 0, Jump::Null)));
    assert_eq!(out.writeM, false);

    let out = cpu.out(make_input(0, CInstruction(Computation::Zero, dest::M, Jump::Null)));
    assert_eq!(out.writeM, true);
}

#[test]
fn test_inM_to_outM() {
    let cpu = Cpu::new();
    let values = [123, 456, 789];
    for &x in &values {
        let out = cpu.out(make_input(x, CInstruction(Computation::X(true), 0, Jump::Null)));
        assert_eq!(word2int(out.outM), x);
    }
}

#[test]
fn test_D_register() {
    let mut cpu = Cpu::new();

    let get_D = make_input(0, CInstruction(Computation::D, 0, Jump::Null));

    assert_eq!(word2int(cpu.out(get_D).outM), 0);

    cpu.clock(make_input(0, CInstruction(Computation::One, dest::D, Jump::Null)));
    assert_eq!(word2int(cpu.out(get_D).outM), 1);

    cpu.clock(make_input(0, CInstruction(Computation::MinusOne, dest::D, Jump::Null)));
    assert_eq!(word2int(cpu.out(get_D).outM), -1);

    cpu.clock(make_input(0, CInstruction(Computation::One, 0, Jump::Null)));
    assert_eq!(word2int(cpu.out(get_D).outM), -1);

    let values = [27, 430, 736, 285];
    for &inM in &values {
        cpu.clock(set_D_input(inM));
        assert_eq!(word2int(cpu.out(get_D).outM), inM);
    }
}

#[test]
fn test_A_register() {
    let mut cpu = Cpu::new();

    let get_A = make_input(0, CInstruction(Computation::X(false), 0, Jump::Null));

    assert_eq!(word2int(cpu.out(get_A).outM), 0);

    cpu.clock(make_input(0, CInstruction(Computation::One, dest::A, Jump::Null)));
    assert_eq!(word2int(cpu.out(get_A).outM), 1);

    cpu.clock(make_input(0, CInstruction(Computation::MinusOne, dest::A, Jump::Null)));
    assert_eq!(word2int(cpu.out(get_A).outM), -1);

    cpu.clock(make_input(0, CInstruction(Computation::One, 0, Jump::Null)));
    assert_eq!(word2int(cpu.out(get_A).outM), -1);

    let values = [27, 430, 736, 285];
    for &inM in &values {
        cpu.clock(set_A_input(inM));
        assert_eq!(word2int(cpu.out(get_A).outM), inM);
    }
}

#[test]
fn test_add() {
    let mut cpu = Cpu::new();

    let D_plus_A = make_input(0, CInstruction(Computation::DPlusX(false), 0, Jump::Null));

    fn D_plus_M(inM: i16) -> CpuInput {
        CpuInput {
            inM: int2word(inM),
            instruction: int2word(
                CInstruction(Computation::DPlusX(true), 0, Jump::Null).encode(),
            ),
            reset: false,
        }
    }

    let values = [2, 5, 34, 27, 731];
    for &d in &values {
        for &a in &values {
            cpu.clock(set_D_input(d));
            cpu.clock(set_A_input(a));
            assert_eq!(word2int(cpu.out(D_plus_A).outM), d + a);
        }
    }
    for &d in &values {
        for &m in &values {
            cpu.clock(set_D_input(d));
            assert_eq!(word2int(cpu.out(D_plus_M(m)).outM), d + m);
        }
    }
}

#[test]
fn test_jump() {
    let address = 123;

    assert_eq!(get_pc_address(address, Computation::Zero, Jump::JMP), address);

    let jump = Jump::JGT;
    assert_eq!(get_pc_address(address, Computation::Zero, jump), 2);
    assert_eq!(get_pc_address(address, Computation::One, jump), address);
    assert_eq!(get_pc_address(address, Computation::MinusOne, jump), 2);

    let jump = Jump::JEQ;
    assert_eq!(get_pc_address(address, Computation::Zero, jump), address);
    assert_eq!(get_pc_address(address, Computation::One, jump), 2);
    assert_eq!(get_pc_address(address, Computation::MinusOne, jump), 2);

    let jump = Jump::JGE;
    assert_eq!(get_pc_address(address, Computation::Zero, jump), address);
    assert_eq!(get_pc_address(address, Computation::One, jump), address);
    assert_eq!(get_pc_address(address, Computation::MinusOne, jump), 2);

    let jump = Jump::JLT;
    assert_eq!(get_pc_address(address, Computation::Zero, jump), 2);
    assert_eq!(get_pc_address(address, Computation::One, jump), 2);
    assert_eq!(get_pc_address(address, Computation::MinusOne, jump), address);

    let jump = Jump::JNE;
    assert_eq!(get_pc_address(address, Computation::Zero, jump), 2);
    assert_eq!(get_pc_address(address, Computation::One, jump), address);
    assert_eq!(get_pc_address(address, Computation::MinusOne, jump), address);

    let jump = Jump::JLE;
    assert_eq!(get_pc_address(address, Computation::Zero, jump), address);
    assert_eq!(get_pc_address(address, Computation::One, jump), 2);
    assert_eq!(get_pc_address(address, Computation::MinusOne, jump), address);
}
