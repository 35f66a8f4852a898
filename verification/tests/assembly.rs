use hack::assembler::{assemble, line_to_command, Command};
use hack::machine::Machine;

#[test]
fn lib_test_to_lines() {
    let lines = "abc\ndef\nghi".split("\n").collect::<Vec<_>>();
    assert_eq!(lines.len(), 3);
    assert_eq!(lines[0], "abc");
    assert_eq!(lines[1], "def");
    assert_eq!(lines[2], "ghi");
}

#[test]
fn lib_test_remove_comment() {
    let line = "hoge/piyo//comment";
    let comment_removed = if let Some(i) = line.find("//") { &line[..i] } else { line };
    assert_eq!(comment_removed, "hoge/piyo");
}

#[test]
fn lib_test_trim_whitespace() {
    let line = "  hoge  piyo      ";
    assert_eq!(line.trim(), "hoge  piyo");
}

#[test]
fn lib_test_line_to_command() {
    assert_eq!(line_to_command(b"@123"), Ok(Command::AValue(123)));
    assert_eq!(line_to_command(b"@foo"), Ok(Command::ASymbol(b"foo".to_vec())));
    assert!(line_to_command(b"@").is_err());
    assert_eq!(
        line_to_command(b"D"),
        Ok(Command::Computation { comp: b"D".to_vec(), dest: None, jump: None })
    );
    assert_eq!(
        line_to_command(b"D=A"),
        Ok(Command::Computation { comp: b"A".to_vec(), dest: Some(b"D".to_vec()), jump: None })
    );
    assert_eq!(
        line_to_command(b"M;JGT"),
        Ok(Command::Computation { comp: b"M".to_vec(), dest: None, jump: Some(b"JGT".to_vec()) })
    );
    assert_eq!(line_to_command(b"(BUZZ)"), Ok(Command::Label(b"BUZZ".to_vec())));
}

#[test]
fn asm_test_to_lines() {
    let program = "abc\ndef\nghi";
    let lines = program.split("\n").collect::<Vec<_>>();
    assert_eq!(lines.len(), 3);
    assert_eq!(lines[0], "abc");
    assert_eq!(lines[1], "def");
    assert_eq!(lines[2], "ghi");
}

#[test]
fn asm_test_remove_comment() {
    let line = "hoge/piyo//comment";
    let stripped = hack::text::strip_comment_of(line.as_bytes());
    assert_eq!(stripped, b"hoge/piyo".to_vec());
}

#[test]
fn asm_test_trim_whitespace() {
    let line = "  hoge  piyo      ";
    let trimmed = hack::text::trim_of(line.as_bytes());
    assert_eq!(trimmed, b"hoge  piyo".to_vec());
    assert_eq!(line.trim(), "hoge  piyo");
}

#[test]
fn asm_test_line_to_command() {
    assert_eq!(line_to_command(b"@123"), Ok(Command::AValue(123)));
    assert_eq!(line_to_command(b"@foo"), Ok(Command::ASymbol(b"foo".to_vec())));
    assert!(line_to_command(b"@").is_err());
    assert_eq!(
        line_to_command(b"D"),
        Ok(Command::Computation { comp: b"D".to_vec(), dest: None, jump: None })
    );
    assert_eq!(
        line_to_command(b"D=A"),
        Ok(Command::Computation { comp: b"A".to_vec(), dest: Some(b"D".to_vec()), jump: None })
    );
    assert_eq!(
        line_to_command(b"M;JGT"),
        Ok(Command::Computation { comp: b"M".to_vec(), dest: None, jump: Some(b"JGT".to_vec()) })
    );
}

fn run_machine_text(program: &str, nclock: usize, address: i16) -> i16 {
    let bin = assemble(program).unwrap();
    let mut machine = Machine::new(&bin);
    for _ in 0..nclock {
        machine.clock(false);
    }
    machine.read_memory(address)
}

#[test]
fn asm_test_add() {
    let program = "
// This file is part of www.nand2tetris.org
// and the book \"The Elements of Computing Systems\"
// by Nisan and Schocken, MIT Press.
// File name: projects/06/add/Add.asm

// Computes R0 = 2 + 3  (R0 refers to RAM[0])

@2
D=A
@3
D=D+A
@0
M=D
";
    assert_eq!(run_machine_text(program, 6, 0), 2 + 3);
}

#[test]
fn test_2_plus_3() {
    let program = "
// This file is part of www.nand2tetris.org
// and the book \"The Elements of Computing Systems\"
// by Nisan and Schocken, MIT Press.
// File name: projects/06/add/Add.asm

// Computes R0 = 2 + 3  (R0 refers to RAM[0])

@2
D=A
@3
D=D+A
@0
M=D
";
    assert_eq!(run_machine_text(program, 6, 0), 2 + 3);
}

#[test]
fn test_max() {
    let program = "
// This file is part of www.nand2tetris.org
// and the book \"The Elements of Computing Systems\"
// by Nisan and Schocken, MIT Press.
// File name: projects/06/max/Max.asm

// Computes R2 = max(R0, R1)  (R0,R1,R2 refer to RAM[0],RAM[1],RAM[2])

   @R0
   D=M              // D = first number
   @R1
   D=D-M            // D = first number - second number
   @OUTPUT_FIRST
   D;JGT            // if D>0 (first is greater) goto output_first
   @R1
   D=M              // D = second number
   @OUTPUT_D
   0;JMP            // goto output_d
(OUTPUT_FIRST)
   @R0
   D=M              // D = first number
(OUTPUT_D)
   @R2
   M=D              // M[2] = D (greatest number)
(INFINITE_LOOP)
   @INFINITE_LOOP
   0;JMP            // infinite loop
";
    fn set_value(i: usize, value: i16) -> String {
        format!("@{}\nD=A\n@R{}\nM=D\n", value, i)
    }
    let program = set_value(0, 123) + &set_value(1, 456) + program;
    assert_eq!(run_machine_text(&program, 20, 2), 456);
}
