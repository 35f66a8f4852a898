use hack::given::{int2word, word2int};
use hack::adder::{add16, inc16};
use hack::ram::RAM8;
use hack::inst::{Instruction, Computation, Jump};
use hack::inst::Instruction::{AInstruction, CInstruction};
use hack::dest;
use hack::assembler::{assemble, AsmError};
use hack::machine::Machine;
use hack::vm::compile;

#[test]
fn word_codec_round_trip() {
    for &n in &[0i16, 1, -1, 123, -123, 32767, -32768, 0x0f0f, -21846] {
        assert_eq!(word2int(int2word(n)), n);
    }
}

#[test]
fn adder_wraps_modulo_two_to_sixteen() {
    assert_eq!(word2int(inc16(int2word(32767))), -32768);
    assert_eq!(word2int(inc16(int2word(-1))), 0);
    assert_eq!(word2int(add16(int2word(-5), int2word(3))), -2);
    assert_eq!(word2int(add16(int2word(30000), int2word(30000))), -5536);
}

#[test]
fn ram_round_trip_leaves_other_addresses() {
    let mut ram = RAM8::new();
    let a = [true, false, true];
    let b = [false, true, false];
    ram.clock(b, int2word(77), true);
    ram.clock(a, int2word(42), true);
    assert_eq!(word2int(ram.out(a)), 42);
    assert_eq!(word2int(ram.out(b)), 77);
    ram.clock(a, int2word(43), false);
    assert_eq!(word2int(ram.out(a)), 42);
}

#[test]
fn instruction_codec_structural_round_trip() {
    let comps = [
        Computation::Zero,
        Computation::One,
        Computation::MinusOne,
        Computation::D,
        Computation::X(false),
        Computation::X(true),
        Computation::NotD,
        Computation::NotX(true),
        Computation::MinusD,
        Computation::MinusX(false),
        Computation::DPlusOne,
        Computation::XPlusOne(true),
        Computation::DMinusOne,
        Computation::XMinusOne(false),
        Computation::DPlusX(true),
        Computation::DMinusX(false),
        Computation::XMinusD(true),
        Computation::DAndX(false),
        Computation::DOrX(true),
    ];
    let jumps = [
        Jump::Null,
        Jump::JGT,
        Jump::JEQ,
        Jump::JGE,
        Jump::JLT,
        Jump::JNE,
        Jump::JLE,
        Jump::JMP,
    ];
    for &comp in &comps {
        for &jump in &jumps {
            for d in 0u8..8u8 {
                let inst = CInstruction(comp, d, jump);
                assert_eq!(Instruction::decode(inst.encode()), inst);
            }
        }
    }
    for &a in &[0i16, 1, 42, 16383, 32767] {
        let inst = AInstruction(a);
        assert_eq!(Instruction::decode(inst.encode()), inst);
    }
}

#[test]
fn assembler_emits_literals_verbatim() {
    assert_eq!(assemble("@5\n@100\n@0").unwrap(), vec![5, 100, 0]);
    assert_eq!(assemble("@+12").unwrap(), vec![12]);
}

#[test]
fn assembler_resolves_labels_to_rom_addresses() {
    let words = assemble("@END\n0;JMP\n(END)\n@7").unwrap();
    assert_eq!(words.len(), 3);
    assert_eq!(words[0], 2);
    assert_eq!(words[2], 7);
}

#[test]
fn assembler_allocates_variables_in_first_encounter_order() {
    assert_eq!(assemble("@x\n@y\n@x\n@z").unwrap(), vec![16, 17, 16, 18]);
}

#[test]
fn assembler_treats_out_of_range_number_as_symbol() {
    assert_eq!(assemble("@32768").unwrap(), vec![16]);
    assert_eq!(assemble("@32767").unwrap(), vec![32767]);
}

#[test]
fn assembler_reports_each_error() {
    assert!(matches!(assemble("@").unwrap_err(), AsmError::InvalidAInstruction(_)));
    assert!(matches!(assemble("@-1").unwrap_err(), AsmError::InvalidAInstruction(_)));
    assert_eq!(assemble("D=Q;JGT").unwrap_err(), AsmError::InvalidComputation(b"Q".to_vec()));
    assert_eq!(assemble("Q=D").unwrap_err(), AsmError::InvalidDestination(b"Q".to_vec()));
    assert_eq!(assemble("D;JXX").unwrap_err(), AsmError::InvalidJump(b"JXX".to_vec()));
    assert!(matches!(assemble("(L").unwrap_err(), AsmError::InvalidLine(_)));
    assert!(matches!(assemble("x@y").unwrap_err(), AsmError::InvalidLine(_)));
    assert_eq!(assemble("( )").unwrap_err(), AsmError::EmptyLabel);
    assert_eq!(assemble("D=").unwrap_err(), AsmError::EmptyComputation);
}

#[test]
fn predefined_symbols_resolve() {
    assert_eq!(
        assemble("@SP\n@LCL\n@ARG\n@THIS\n@THAT\n@R13\n@SCREEN\n@KBD").unwrap(),
        vec![0, 1, 2, 3, 4, 13, 16384, 24576]
    );
}

#[test]
fn keyboard_register_is_memory_mapped() {
    let mut machine = Machine::new(&[]);
    assert_eq!(machine.read_memory(24576), 0);
    machine.keyboard_input(65);
    assert_eq!(machine.read_memory(24576), 65);
}

#[test]
fn screen_is_memory_mapped() {
    let program = assemble("@99\nD=A\n@16384\nM=D").unwrap();
    let mut machine = Machine::new(&program);
    assert_eq!(machine.read_memory(16385), 0x0f0f);
    for _ in 0..4 {
        machine.clock(false);
    }
    assert_eq!(machine.read_memory(16384), 99);
    assert_eq!(machine.screen_image()[0], 99);
    assert_eq!(machine.screen_image()[1], 0x0f0f);
}

#[test]
fn machine_reset_restarts_the_program() {
    let program = assemble("@5\nD=A\n@0\nM=D").unwrap();
    let mut machine = Machine::new(&program);
    for _ in 0..4 {
        machine.clock(false);
    }
    assert_eq!(machine.read_memory(0), 5);
    assert!(machine.is_terminated());
    machine.clock(true);
    assert!(!machine.is_terminated());
    assert_eq!(machine.next_instruction(), 5);
}

#[test]
fn translator_rejects_malformed_sources() {
    assert!(compile("f", "push wrong 0").is_none());
    assert!(compile("f", "pop constant 1").is_none());
    assert!(compile("f", "bogus").is_none());
    assert!(compile("f", "push constant -1").is_none());
    assert!(compile("f", "push constant").is_none());
    assert!(compile("f", "push constant 7").is_some());
}

#[test]
fn translated_temp_segment_uses_r5() {
    let asm_bytes = compile(
        "f",
        "
        function Sys.init 0
        push constant 9
        pop temp 2
        push temp 2
        ",
    )
    .unwrap();
    let asm_source = String::from_utf8(asm_bytes).unwrap();
    let bin = assemble(&asm_source).unwrap();
    let mut machine = Machine::new(&bin);
    let mut nclock = 0;
    while !machine.is_terminated() {
        machine.clock(false);
        nclock += 1;
        assert!(nclock < 1000);
    }
    assert_eq!(machine.read_memory(7), 9);
    assert_eq!(machine.read_memory(machine.read_memory(0) - 1), 9);
}

#[test]
fn instruction_pretty_print() {
    assert_eq!(AInstruction(123).to_text(), b"@123".to_vec());
    assert_eq!(
        CInstruction(Computation::DPlusX(true), dest::M, Jump::JGT).to_text(),
        b"M=D+M;JGT".to_vec()
    );
    assert_eq!(
        CInstruction(Computation::Zero, 0, Jump::Null).to_text(),
        b"null=0;null".to_vec()
    );
    assert_eq!(
        CInstruction(Computation::XMinusOne(false), dest::A | dest::D, Jump::JMP).to_text(),
        b"AD=A-1;JMP".to_vec()
    );
}
