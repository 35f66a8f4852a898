use hack::vm::{AsmWriter, translate_vm_source, compile};
use hack::machine::Machine;

fn run_machine_vm(asm_source: &str, max_clock: usize) -> i16 {
    let bin = hack::assembler::assemble(asm_source).unwrap();
    let mut machine = Machine::new(&bin);
    let mut nclock = 0;
    while !machine.is_terminated() {
        machine.clock(false);
        nclock += 1;
        assert!(nclock < max_clock);
    }
    machine.read_memory(machine.read_memory(0) - 1)
}

fn check_vm(expected: i16, vm_source: &str) {
    let mut out = AsmWriter::new("test_file");
    out.set_ram("SP", 256);
    out.set_ram("LCL", 300);
    out.set_ram("ARG", 400);
    out.set_ram("THIS", 3000);
    out.set_ram("THAT", 3010);
    let ok = translate_vm_source(&mut out, vm_source);
    assert!(ok);
    let asm_source = String::from_utf8(out.finish()).unwrap();
    let max_clock = 1000;
    assert_eq!(expected, run_machine_vm(&asm_source, max_clock));
}

fn check_vm2(expected: i16, vm_source: &str) {
    let asm_bytes = compile("test_file", vm_source).unwrap();
    let asm_source = String::from_utf8(asm_bytes).unwrap();
    let max_clock = 1000;
    assert_eq!(expected, run_machine_vm(&asm_source, max_clock));
}

#[test]
fn add() {
    check_vm(
        15,
        "
        push constant 7
        push constant 8
        add
        ",
    );
}

#[test]
fn sub() {
    check_vm(
        327 - 193,
        "
        push constant 327
        push constant 193
        sub
        ",
    );
}

#[test]
fn and() {
    check_vm(
        826 & 294,
        "
        push constant 826
        push constant 294
        and
        ",
    );
}

#[test]
fn or() {
    check_vm(
        826 | 294,
        "
        push constant 826
        push constant 294
        or
        ",
    );
}

#[test]
fn eq() {
    check_vm(
        -1,
        "
        push constant 123
        push constant 123
        eq
        ",
    );
    check_vm(
        0,
        "
        push constant 100
        push constant 200
        eq
        ",
    );
}

#[test]
fn gt() {
    check_vm(
        -1,
        "
        push constant 826
        push constant 294
        gt
        ",
    );
    check_vm(
        0,
        "
        push constant 1
        push constant 2
        gt
        ",
    );
    check_vm(
        0,
        "
        push constant 3
        push constant 3
        gt
        ",
    );
}

#[test]
fn lt() {
    check_vm(
        0,
        "
        push constant 826
        push constant 294
        lt
        ",
    );
    check_vm(
        -1,
        "
        push constant 1
        push constant 2
        lt
        ",
    );
    check_vm(
        0,
        "
        push constant 3
        push constant 3
        lt
        ",
    );
}

#[test]
fn neg() {
    check_vm(
        -123,
        "
        push constant 123
        neg
        ",
    );
    check_vm(
        321,
        "
        push constant 321
        neg
        neg
        ",
    );
}

#[test]
fn not() {
    check_vm(
        !0,
        "
        push constant 0
        not
        ",
    );
    check_vm(
        !123,
        "
        push constant 123
        not
        ",
    );
}

#[test]
fn arithmetic() {
    check_vm(
        1 - (2 + 3),
        "
        push constant 1
        push constant 2
        push constant 3
        add
        sub
        ",
    );
    check_vm(
        (1 + 2) - 3,
        "
        push constant 1
        push constant 2
        add
        push constant 3
        sub
        ",
    );
    check_vm(
        (1 + 3) - (5 + 7),
        "
        push constant 1
        push constant 3
        add
        push constant 5
        push constant 7
        add
        sub
        ",
    );
}

#[test]
fn pointer_segment() {
    check_vm(
        123,
        "
        push constant 123
        pop pointer 0
        push pointer 0
        ",
    );
    check_vm(
        456,
        "
        push constant 456
        pop pointer 1
        push pointer 1
        ",
    );
}

#[test]
fn this_segment() {
    check_vm(
        789,
        "
        push constant 789
        pop this 0
        push this 0
        ",
    );
    check_vm(
        111,
        "
        push constant 111
        pop this 1
        push this 1
        ",
    );
    check_vm(
        789,
        "
        push constant 789
        pop this 1
        push pointer 0
        push constant 1
        add
        pop pointer 0
        push pointer 0
        push this 0
        ",
    );
}

#[test]
fn static_segment() {
    check_vm(
        123,
        "
        push constant 123
        pop static 3
        push static 3
        ",
    );
}

#[test]
fn conditional() {
    let vm = "
        if-goto L1
        push constant 123
        goto L2
        label L1
        push constant 456
        label L2
        push constant 1
        add
        ";
    check_vm(
        124,
        &format!(
            "
        push constant 0
        {}
        ",
            vm
        ),
    );
    check_vm(
        457,
        &format!(
            "
        push constant 0
        not
        {}
        ",
            vm
        ),
    );
}

#[test]
fn sum() {
    check_vm(
        1 + 2 + 3 + 4 + 5,
        "
        // argument[0] = 5
        push constant 5
        pop argument 0

        // Computes the sum 1 + 2 + ... + argument[0] and pushes the
        // result onto the stack.
        push constant 0
        pop local 0         // initializes sum = 0
        label LOOP_START
        push argument 0
        push local 0
        add
        pop local 0	        // sum = sum + counter
        push argument 0
        push constant 1
        sub
        pop argument 0      // counter--
        push argument 0
        if-goto LOOP_START  // If counter > 0, goto LOOP_START
        push local 0
        ",
    );
}

#[test]
fn sys_init() {
    check_vm2(
        1234 + 5678,
        "
        function Sys.init 0
            push constant 1234
            push constant 5678
            add
            return
        ",
    );
}

#[test]
fn simple_function() {
    check_vm2(
        3,
        "
        function test_add 0
            push argument 0
            push argument 1
            add
            return
        function Sys.init 0
            push constant 1
            push constant 2
            call test_add 2
        ",
    );
}

#[test]
fn caller_continues_after_return() {
    check_vm2(
        17,
        "
        function double 0
            push argument 0
            push argument 0
            add
            return
        function Sys.init 0
            push constant 5
            call double 1
            push constant 7
            add
        ",
    );
}

#[test]
fn two_calls_in_sequence() {
    check_vm2(
        5,
        "
        function increment 0
            push argument 0
            push constant 1
            add
            return
        function Sys.init 0
            push constant 3
            call increment 1
            call increment 1
        ",
    );
}
