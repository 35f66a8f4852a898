//! The stack-VM translator: parsing of VM commands and emission of Hack
//! assembly implementing the stack machine and its calling convention.

use vstd::prelude::*;
use vstd::string::StringSliceAdditionalSpecFns;
use crate::text::{push_bytes, push_decimal_i16, push_decimal_u64, dec_repr, dec_digits};

verus! {

/// A unary stack operation.
#[derive(Debug, PartialEq, Eq, Clone, Copy)]
pub enum UnaryOp {
    Neg,
    Not,
}

/// A binary stack operation.
#[derive(Debug, PartialEq, Eq, Clone, Copy)]
pub enum BinaryOp {
    Add,
    Sub,
    And,
    Or,
}

/// A comparison, leaving -1 for true and 0 for false.
#[derive(Debug, PartialEq, Eq, Clone, Copy)]
pub enum Condition {
    Eq,
    Gt,
    Lt,
}

/// The text pushing the D register onto the stack.
pub open spec fn push_text() -> Seq<u8> {
    "\n@SP\nA=M\nM=D   // **SP = D\n@SP\nM=M+1      // *SP = *SP + 1\n".spec_bytes()
}

/// The text popping the top of the stack into the D register.
pub open spec fn pop_text() -> Seq<u8> {
    "\n@SP\nM=M-1      // *SP = *SP - 1\n@SP\nA=M\nD=M   // D = **SP\n".spec_bytes()
}

/// The tail of a function return: writes the result over argument 0,
/// rewinds SP, restores the four saved pointers from the frame, and
/// jumps to the saved return address.
pub open spec fn return_text() -> Seq<u8> {
    "\n@ARG\nA=M\nM=D          // *RAM[ARG] = D\n@ARG\nD=M+1\n@SP\nM=D   // RAM[SP] = RAM[ARG] + 1\n@LCL\nD=M\n@R13\nM=D    // RAM[R13] = RAM[LCL]\n@R13\nM=M-1\nA=M\nD=M\n@THAT\nM=D   // --RAM[R13]; *THAT = *RAM[R13];\n@R13\nM=M-1\nA=M\nD=M\n@THIS\nM=D   // --RAM[R13]; *THIS = *RAM[R13];\n@R13\nM=M-1\nA=M\nD=M\n@ARG\nM=D    // --RAM[R13]; *ARG  = *RAM[R13];\n@R13\nM=M-1\nA=M\nD=M\n@LCL\nM=D    // --RAM[R13]; *LCL  = *RAM[R13];\n@R14\nA=M\n0;JMP    // goto RAM[R14]\n".spec_bytes()
}

/// The text of a label line.
pub open spec fn label_text(l: Seq<u8>) -> Seq<u8> {
    "(".spec_bytes() + l + ")\n".spec_bytes()
}

/// The text storing a constant into a named memory word.
pub open spec fn set_ram_text(symbol: Seq<u8>, value: i16) -> Seq<u8> {
    "@".spec_bytes() + dec_repr(value as int) + "\nD=A\n@".spec_bytes() + symbol
        + "\nM=D\n".spec_bytes()
}

/// The text of an unconditional jump to a label.
pub open spec fn goto_text(l: Seq<u8>) -> Seq<u8> {
    "@".spec_bytes() + l + "\n0;JMP\n".spec_bytes()
}

/// The text jumping to a label when D is not zero.
pub open spec fn if_goto_text(l: Seq<u8>) -> Seq<u8> {
    "@".spec_bytes() + l + "\nD;JNE\n".spec_bytes()
}

/// The one-character spelling of a unary operation.
pub open spec fn unary_char(op: UnaryOp) -> Seq<u8> {
    match op {
        UnaryOp::Neg => "-".spec_bytes(),
        UnaryOp::Not => "!".spec_bytes(),
    }
}

/// The one-character spelling of a binary operation.
pub open spec fn binary_char(op: BinaryOp) -> Seq<u8> {
    match op {
        BinaryOp::Add => "+".spec_bytes(),
        BinaryOp::Sub => "-".spec_bytes(),
        BinaryOp::Or => "|".spec_bytes(),
        BinaryOp::And => "&".spec_bytes(),
    }
}

/// The jump mnemonic a comparison uses.
pub open spec fn cond_jump_text(cond: Condition) -> Seq<u8> {
    match cond {
        Condition::Eq => "JEQ".spec_bytes(),
        Condition::Gt => "JGT".spec_bytes(),
        Condition::Lt => "JLT".spec_bytes(),
    }
}

/// The text applying a unary operation to the popped top of stack.
pub open spec fn unary_op_text(op: UnaryOp) -> Seq<u8> {
    pop_text() + "D=".spec_bytes() + unary_char(op) + "D\n".spec_bytes()
}

/// The text applying a binary operation to the two popped top words.
pub open spec fn binary_op_text(op: BinaryOp) -> Seq<u8> {
    pop_text() + "@R13\nM=D\n".spec_bytes() + pop_text() + "@R13\nD=D".spec_bytes() + binary_char(
        op,
    ) + "M\n".spec_bytes()
}

/// The next value of the unique-label counter.
pub open spec fn next_id(n: u64) -> u64 {
    if n < 0xFFFF_FFFF_FFFF_FFFF {
        (n + 1) as u64
    } else {
        n
    }
}

/// The name of the `k`-th generated label with the given stem.
pub open spec fn fresh_label_text(base: Seq<u8>, id: u64) -> Seq<u8> {
    base + "_".spec_bytes() + dec_digits(id as nat)
}

/// The text comparing the two top stack words: subtract, then branch to
/// leave -1 (true) or 0 (false) in D.  Two fresh labels keep distinct
/// comparison sites from aliasing.
pub open spec fn logical_op_text(cond: Condition, id: u64) -> Seq<u8> {
    let if_true = fresh_label_text("IF_TRUE".spec_bytes(), next_id(id));
    let if_end = fresh_label_text("IF_END".spec_bytes(), next_id(next_id(id)));
    binary_op_text(BinaryOp::Sub) + "@".spec_bytes() + if_true + "\nD;".spec_bytes()
        + cond_jump_text(cond) + "\n".spec_bytes() + "D=0\n".spec_bytes() + goto_text(if_end)
        + label_text(if_true) + "D=-1\n".spec_bytes() + label_text(if_end)
}

/// A writer accumulating assembly text, with the source file name used to
/// qualify static variables and a counter for unique labels.
pub struct AsmWriter {
    out: Vec<u8>,
    filename: Vec<u8>,
    label_id: u64,
}

/// The writer's state: the text so far, the file name, the label counter.
pub struct WriterView {
    pub out: Seq<u8>,
    pub filename: Seq<u8>,
    pub label_id: u64,
}

impl View for AsmWriter {
    type V = WriterView;

    closed spec fn view(&self) -> WriterView {
        WriterView { out: self.out@, filename: self.filename@, label_id: self.label_id }
    }
}

impl AsmWriter {
    /// A fresh writer for one source file.
    pub fn new(filename: &str) -> (r: Self)
        ensures
            r@.out == Seq::<u8>::empty(),
            r@.filename == filename.spec_bytes(),
            r@.label_id == 0,
    {
        let mut name: Vec<u8> = Vec::new();
        push_bytes(&mut name, filename.as_bytes());
        let r = AsmWriter { out: Vec::new(), filename: name, label_id: 0 };
        proof {
            assert(r@.out =~= Seq::<u8>::empty());
            assert(r@.filename =~= filename.spec_bytes());
        }
        r
    }

    /// Appends the terminal label and hands the finished text out.
    pub fn finish(self) -> (r: Vec<u8>)
        ensures
            r@ == self@.out + label_text("TERMINAL".spec_bytes()),
    {
        let mut out = self.out;
        push_bytes(&mut out, "(".as_bytes());
        push_bytes(&mut out, "TERMINAL".as_bytes());
        push_bytes(&mut out, ")\n".as_bytes());
        proof {
            assert(out@ =~= self@.out + label_text("TERMINAL".spec_bytes()));
        }
        out
    }

    /// Places a label line.
    pub fn label(&mut self, label: &[u8])
        ensures
            final(self)@.out == old(self)@.out + label_text(label@),
            final(self)@.filename == old(self)@.filename,
            final(self)@.label_id == old(self)@.label_id,
    {
        push_bytes(&mut self.out, "(".as_bytes());
        push_bytes(&mut self.out, label);
        push_bytes(&mut self.out, ")\n".as_bytes());
        proof {
            assert(self.out@ =~= old(self)@.out + label_text(label@));
        }
    }

    /// Stores a constant into a named memory word.
    pub fn set_ram(&mut self, symbol: &str, value: i16)
        ensures
            final(self)@.out == old(self)@.out + set_ram_text(symbol.spec_bytes(), value),
            final(self)@.filename == old(self)@.filename,
            final(self)@.label_id == old(self)@.label_id,
    {
        push_bytes(&mut self.out, "@".as_bytes());
        push_decimal_i16(&mut self.out, value);
        push_bytes(&mut self.out, "\nD=A\n@".as_bytes());
        push_bytes(&mut self.out, symbol.as_bytes());
        push_bytes(&mut self.out, "\nM=D\n".as_bytes());
        proof {
            assert(self.out@ =~= old(self)@.out + set_ram_text(symbol.spec_bytes(), value));
        }
    }

    /// Pushes the D register onto the stack.
    pub fn push(&mut self)
        ensures
            final(self)@.out == old(self)@.out + push_text(),
            final(self)@.filename == old(self)@.filename,
            final(self)@.label_id == old(self)@.label_id,
    {
        push_bytes(
            &mut self.out,
            "\n@SP\nA=M\nM=D   // **SP = D\n@SP\nM=M+1      // *SP = *SP + 1\n".as_bytes(),
        );
    }

    /// Pops the top of the stack into the D register.
    pub fn pop(&mut self)
        ensures
            final(self)@.out == old(self)@.out + pop_text(),
            final(self)@.filename == old(self)@.filename,
            final(self)@.label_id == old(self)@.label_id,
    {
        push_bytes(
            &mut self.out,
            "\n@SP\nM=M-1      // *SP = *SP - 1\n@SP\nA=M\nD=M   // D = **SP\n".as_bytes(),
        );
    }

    /// Jumps to a label unconditionally.
    pub fn goto(&mut self, label: &[u8])
        ensures
            final(self)@.out == old(self)@.out + goto_text(label@),
            final(self)@.filename == old(self)@.filename,
            final(self)@.label_id == old(self)@.label_id,
    {
        push_bytes(&mut self.out, "@".as_bytes());
        push_bytes(&mut self.out, label);
        push_bytes(&mut self.out, "\n0;JMP\n".as_bytes());
        proof {
            assert(self.out@ =~= old(self)@.out + goto_text(label@));
        }
    }

    /// Jumps to a label when D is not zero.
    pub fn if_goto(&mut self, label: &[u8])
        ensures
            final(self)@.out == old(self)@.out + if_goto_text(label@),
            final(self)@.filename == old(self)@.filename,
            final(self)@.label_id == old(self)@.label_id,
    {
        push_bytes(&mut self.out, "@".as_bytes());
        push_bytes(&mut self.out, label);
        push_bytes(&mut self.out, "\nD;JNE\n".as_bytes());
        proof {
            assert(self.out@ =~= old(self)@.out + if_goto_text(label@));
        }
    }

    /// Pops the top of the stack and applies a unary operation to it.
    pub fn unary_op(&mut self, op: UnaryOp)
        ensures
            final(self)@.out == old(self)@.out + unary_op_text(op),
            final(self)@.filename == old(self)@.filename,
            final(self)@.label_id == old(self)@.label_id,
    {
        self.pop();
        push_bytes(&mut self.out, "D=".as_bytes());
        match op {
            UnaryOp::Neg => push_bytes(&mut self.out, "-".as_bytes()),
            UnaryOp::Not => push_bytes(&mut self.out, "!".as_bytes()),
        }
        push_bytes(&mut self.out, "D\n".as_bytes());
        proof {
            assert(self.out@ =~= old(self)@.out + unary_op_text(op));
        }
    }

    /// Pops the two top stack words and applies a binary operation,
    /// leaving the result in D.
    pub fn binary_op(&mut self, op: BinaryOp)
        ensures
            final(self)@.out == old(self)@.out + binary_op_text(op),
            final(self)@.filename == old(self)@.filename,
            final(self)@.label_id == old(self)@.label_id,
    {
        self.pop();
        push_bytes(&mut self.out, "@R13\nM=D\n".as_bytes());
        self.pop();
        push_bytes(&mut self.out, "@R13\nD=D".as_bytes());
        match op {
            BinaryOp::Add => push_bytes(&mut self.out, "+".as_bytes()),
            BinaryOp::Sub => push_bytes(&mut self.out, "-".as_bytes()),
            BinaryOp::Or => push_bytes(&mut self.out, "|".as_bytes()),
            BinaryOp::And => push_bytes(&mut self.out, "&".as_bytes()),
        }
        push_bytes(&mut self.out, "M\n".as_bytes());
        proof {
            assert(self.out@ =~= old(self)@.out + binary_op_text(op));
        }
    }

    /// A label name no other call site shares: the stem, an underscore,
    /// and the bumped counter.
    fn new_unique_label(&mut self, base: &[u8]) -> (r: Vec<u8>)
        ensures
            final(self)@.out == old(self)@.out,
            final(self)@.filename == old(self)@.filename,
            final(self)@.label_id == next_id(old(self)@.label_id),
            r@ == fresh_label_text(base@, next_id(old(self)@.label_id)),
    {
        if self.label_id < 0xFFFF_FFFF_FFFF_FFFF {
            self.label_id = self.label_id + 1;
        }
        let mut r: Vec<u8> = Vec::new();
        push_bytes(&mut r, base);
        push_bytes(&mut r, "_".as_bytes());
        push_decimal_u64(&mut r, self.label_id);
        proof {
            assert(r@ =~= fresh_label_text(base@, next_id(old(self)@.label_id)));
        }
        r
    }

    /// Compares the two top stack words, leaving -1 or 0 in D.
    pub fn logical_op(&mut self, cond: Condition)
        ensures
            final(self)@.out == old(self)@.out + logical_op_text(cond, old(self)@.label_id),
            final(self)@.filename == old(self)@.filename,
            final(self)@.label_id == next_id(next_id(old(self)@.label_id)),
    {
        let if_true = self.new_unique_label("IF_TRUE".as_bytes());
        let if_end = self.new_unique_label("IF_END".as_bytes());
        self.binary_op(BinaryOp::Sub);
        push_bytes(&mut self.out, "@".as_bytes());
        push_bytes(&mut self.out, if_true.as_slice());
        push_bytes(&mut self.out, "\nD;".as_bytes());
        match cond {
            Condition::Eq => push_bytes(&mut self.out, "JEQ".as_bytes()),
            Condition::Gt => push_bytes(&mut self.out, "JGT".as_bytes()),
            Condition::Lt => push_bytes(&mut self.out, "JLT".as_bytes()),
        }
        push_bytes(&mut self.out, "\n".as_bytes());
        push_bytes(&mut self.out, "D=0\n".as_bytes());
        self.goto(if_end.as_slice());
        self.label(if_true.as_slice());
        push_bytes(&mut self.out, "D=-1\n".as_bytes());
        self.label(if_end.as_slice());
        proof {
            assert(self.out@ =~= old(self)@.out + logical_op_text(cond, old(self)@.label_id));
        }
    }
}

/// The named segments whose base pointer is dereferenced.
pub open spec fn is_indirect_seg(s: Seq<u8>) -> bool {
    s == "argument".spec_bytes() || s == "local".spec_bytes() || s == "this".spec_bytes() || s
        == "that".spec_bytes()
}

/// The named segments addressed from a fixed register.
pub open spec fn is_direct_seg(s: Seq<u8>) -> bool {
    s == "pointer".spec_bytes() || s == "temp".spec_bytes()
}

/// Whether a token names a memory segment.
pub open spec fn valid_segment(s: Seq<u8>) -> bool {
    is_indirect_seg(s) || is_direct_seg(s) || s == "static".spec_bytes() || s
        == "constant".spec_bytes()
}

/// The assembly symbol a segment's base lives at.
pub open spec fn seg_symbol(s: Seq<u8>) -> Seq<u8> {
    if s == "argument".spec_bytes() {
        "ARG".spec_bytes()
    } else if s == "local".spec_bytes() {
        "LCL".spec_bytes()
    } else if s == "this".spec_bytes() {
        "THIS".spec_bytes()
    } else if s == "that".spec_bytes() {
        "THAT".spec_bytes()
    } else if s == "pointer".spec_bytes() {
        "R3".spec_bytes()
    } else if s == "temp".spec_bytes() {
        "R5".spec_bytes()
    } else {
        Seq::empty()
    }
}

/// The text loading the index into D before segment addressing.
pub open spec fn seg_prefix_text(index: i16) -> Seq<u8> {
    "@".spec_bytes() + dec_repr(index as int) + "\nD=A\n".spec_bytes()
}

/// The segment-specific part of addressing: static variables address a
/// per-file symbol, indirect segments add the index to the base pointer's
/// value, direct segments add it to the base register's address.
pub open spec fn seg_tail_text(filename: Seq<u8>, segment: Seq<u8>, index: i16, dst: u8) -> Seq<
    u8,
> {
    if segment == "static".spec_bytes() {
        "@".spec_bytes() + filename + ".".spec_bytes() + dec_repr(index as int)
            + "\n".spec_bytes() + seq![dst] + "=A\n".spec_bytes()
    } else if is_indirect_seg(segment) {
        "@".spec_bytes() + seg_symbol(segment) + "\n".spec_bytes() + seq![dst]
            + "=D+M\n".spec_bytes()
    } else {
        "@".spec_bytes() + seg_symbol(segment) + "\n".spec_bytes() + seq![dst]
            + "=D+A\n".spec_bytes()
    }
}

/// The text leaving the address of `segment[index]` in the register
/// `dst` names.
pub open spec fn seg_addr_text(
    filename: Seq<u8>,
    segment: Seq<u8>,
    index: i16,
    dst: u8,
) -> Seq<u8> {
    seg_prefix_text(index) + seg_tail_text(filename, segment, index, dst)
}

/// The text pushing `segment[index]` onto the stack; a constant pushes
/// the literal itself.
pub open spec fn push_segment_text(filename: Seq<u8>, segment: Seq<u8>, index: i16) -> Seq<u8> {
    (if segment == "constant".spec_bytes() {
        "@".spec_bytes() + dec_repr(index as int) + "
D=A
".spec_bytes()
    } else {
        seg_addr_text(filename, segment, index, 65) + "D=M
".spec_bytes()
    }) + push_text()
}

/// The text popping the top of the stack into `segment[index]`, going
/// through the scratch word R13.
pub open spec fn pop_segment_text(filename: Seq<u8>, segment: Seq<u8>, index: i16) -> Seq<u8> {
    seg_addr_text(filename, segment, index, 68) + "@R13
M=D
".spec_bytes() + pop_text()
        + "@R13
A=M
M=D
".spec_bytes()
}

/// `n` copies of a text, in sequence.
pub open spec fn repeat_text(s: Seq<u8>, n: int) -> Seq<u8>
    decreases n,
{
    if n <= 0 {
        Seq::empty()
    } else {
        s + repeat_text(s, n - 1)
    }
}

/// The text opening a function body: its entry label and one pushed zero
/// word per local variable.
pub open spec fn func_begin_text(funcname: Seq<u8>, nlocals: i16) -> Seq<u8> {
    label_text(funcname) + "D=0
".spec_bytes() + repeat_text(push_text(), nlocals as int)
}

/// The text of a call site: push the return address and the four frame
/// pointers, point ARG below the arguments, set LCL to SP, jump to the
/// callee, and place the return label.
pub open spec fn func_call_text(funcname: Seq<u8>, nargs: i16, id: u64) -> Seq<u8> {
    let rl = fresh_label_text("RETURN".spec_bytes(), next_id(id));
    "@".spec_bytes() + rl + "
D=A
".spec_bytes() + push_text() + "@LCL
D=M
".spec_bytes()
        + push_text() + "@ARG
D=M
".spec_bytes() + push_text() + "@THIS
D=M
".spec_bytes()
        + push_text() + "@THAT
D=M
".spec_bytes() + push_text() + "@".spec_bytes() + dec_repr(
        nargs + 5,
    ) + "
D=-A
@SP
D=D+M
@ARG
M=D
".spec_bytes() + "@SP
D=M
@LCL
M=D
".spec_bytes()
        + "@".spec_bytes() + funcname + "
0;JMP
".spec_bytes() + label_text(rl)
}

/// The text of a return: fetch the saved return address out of the frame
/// slot LCL-5 into R14, pop the result, and run the frame-unwinding tail.
pub open spec fn func_return_text() -> Seq<u8> {
    "@LCL\nD=M\n@5\nA=D-A\nD=M\n@R14\nM=D\n".spec_bytes() + pop_text() + return_text()
}

/// The bootstrap: set SP to 256, call Sys.init, and fall through to the
/// terminal label when it ever returns.
pub open spec fn call_sys_init_text(id: u64) -> Seq<u8> {
    set_ram_text("SP".spec_bytes(), 256) + func_call_text("Sys.init".spec_bytes(), 0, id)
        + goto_text("TERMINAL".spec_bytes())
}

impl AsmWriter {
    fn seg_tail_into(out: &mut Vec<u8>, filename: &[u8], segment: &[u8], index: i16, dst: u8)
        requires
            valid_segment(segment@),
            segment@ != "constant".spec_bytes(),
        ensures
            final(out)@ == old(out)@ + seg_tail_text(filename@, segment@, index, dst),
    {
        if crate::text::bytes_eq(segment, "static".as_bytes()) {
            push_bytes(out, "@".as_bytes());
            push_bytes(out, filename);
            push_bytes(out, ".".as_bytes());
            push_decimal_i16(out, index);
            push_bytes(out, "\n".as_bytes());
            out.push(dst);
            push_bytes(out, "=A\n".as_bytes());
            proof {
                assert(out@ =~= old(out)@ + seg_tail_text(filename@, segment@, index, dst));
            }
        } else {
            push_bytes(out, "@".as_bytes());
            if crate::text::bytes_eq(segment, "argument".as_bytes()) {
                push_bytes(out, "ARG".as_bytes());
                push_bytes(out, "\n".as_bytes());
                out.push(dst);
                push_bytes(out, "=D+M\n".as_bytes());
                proof {
                    assert(out@ =~= old(out)@ + seg_tail_text(filename@, segment@, index, dst));
                }
            } else if crate::text::bytes_eq(segment, "local".as_bytes()) {
                push_bytes(out, "LCL".as_bytes());
                push_bytes(out, "\n".as_bytes());
                out.push(dst);
                push_bytes(out, "=D+M\n".as_bytes());
                proof {
                    assert(out@ =~= old(out)@ + seg_tail_text(filename@, segment@, index, dst));
                }
            } else if crate::text::bytes_eq(segment, "this".as_bytes()) {
                push_bytes(out, "THIS".as_bytes());
                push_bytes(out, "\n".as_bytes());
                out.push(dst);
                push_bytes(out, "=D+M\n".as_bytes());
                proof {
                    assert(out@ =~= old(out)@ + seg_tail_text(filename@, segment@, index, dst));
                }
            } else if crate::text::bytes_eq(segment, "that".as_bytes()) {
                push_bytes(out, "THAT".as_bytes());
                push_bytes(out, "\n".as_bytes());
                out.push(dst);
                push_bytes(out, "=D+M\n".as_bytes());
                proof {
                    assert(out@ =~= old(out)@ + seg_tail_text(filename@, segment@, index, dst));
                }
            } else if crate::text::bytes_eq(segment, "pointer".as_bytes()) {
                push_bytes(out, "R3".as_bytes());
                push_bytes(out, "\n".as_bytes());
                out.push(dst);
                push_bytes(out, "=D+A\n".as_bytes());
                proof {
                    assert(out@ =~= old(out)@ + seg_tail_text(filename@, segment@, index, dst));
                }
            } else {
                push_bytes(out, "R5".as_bytes());
                push_bytes(out, "\n".as_bytes());
                out.push(dst);
                push_bytes(out, "=D+A\n".as_bytes());
                proof {
                    assert(segment@ == "temp".spec_bytes());
                    assert(out@ =~= old(out)@ + seg_tail_text(filename@, segment@, index, dst));
                }
            }
        }
    }

    fn set_segment_index_address_to(&mut self, segment: &[u8], index: i16, dst: u8)
        requires
            valid_segment(segment@),
            segment@ != "constant".spec_bytes(),
        ensures
            final(self)@.out == old(self)@.out + seg_addr_text(
                old(self)@.filename,
                segment@,
                index,
                dst,
            ),
            final(self)@.filename == old(self)@.filename,
            final(self)@.label_id == old(self)@.label_id,
    {
        push_bytes(&mut self.out, "@".as_bytes());
        push_decimal_i16(&mut self.out, index);
        push_bytes(&mut self.out, "\nD=A\n".as_bytes());
        proof {
            assert(self.out@ =~= old(self)@.out + seg_prefix_text(index));
        }
        let mut tailv: Vec<u8> = Vec::new();
        let name = crate::text::copy_range(self.filename.as_slice(), 0, self.filename.len());
        proof {
            assert(name@ =~= old(self)@.filename);
        }
        Self::seg_tail_into(&mut tailv, name.as_slice(), segment, index, dst);
        proof {
            assert(tailv@ =~= seg_tail_text(old(self)@.filename, segment@, index, dst));
        }
        push_bytes(&mut self.out, tailv.as_slice());
        proof {
            assert(self.out@ =~= old(self)@.out + (seg_prefix_text(index) + seg_tail_text(
                old(self)@.filename,
                segment@,
                index,
                dst,
            )));
        }
    }

    /// Pushes `segment[index]` onto the stack.
    pub fn push_segment(&mut self, segment: &[u8], index: i16)
        requires
            valid_segment(segment@),
            index >= 0,
        ensures
            final(self)@.out == old(self)@.out + push_segment_text(
                old(self)@.filename,
                segment@,
                index,
            ),
            final(self)@.filename == old(self)@.filename,
            final(self)@.label_id == old(self)@.label_id,
    {
        if crate::text::bytes_eq(segment, "constant".as_bytes()) {
            push_bytes(&mut self.out, "@".as_bytes());
            push_decimal_i16(&mut self.out, index);
            push_bytes(&mut self.out, "
D=A
".as_bytes());
        } else {
            self.set_segment_index_address_to(segment, index, 65);
            push_bytes(&mut self.out, "D=M
".as_bytes());
        }
        self.push();
        proof {
            assert(self.out@ =~= old(self)@.out + push_segment_text(
                old(self)@.filename,
                segment@,
                index,
            ));
        }
    }

    /// Pops the top of the stack into `segment[index]`.
    pub fn pop_segment(&mut self, segment: &[u8], index: i16)
        requires
            valid_segment(segment@),
            segment@ != "constant".spec_bytes(),
            index >= 0,
        ensures
            final(self)@.out == old(self)@.out + pop_segment_text(
                old(self)@.filename,
                segment@,
                index,
            ),
            final(self)@.filename == old(self)@.filename,
            final(self)@.label_id == old(self)@.label_id,
    {
        self.set_segment_index_address_to(segment, index, 68);
        push_bytes(&mut self.out, "@R13
M=D
".as_bytes());
        self.pop();
        push_bytes(&mut self.out, "@R13
A=M
M=D
".as_bytes());
        proof {
            assert(self.out@ =~= old(self)@.out + pop_segment_text(
                old(self)@.filename,
                segment@,
                index,
            ));
        }
    }

    /// Opens a function body: entry label, then one zero local per count.
    #[verifier::rlimit(100)]
    pub fn func_begin(&mut self, funcname: &[u8], nlocals: i16)
        ensures
            final(self)@.out == old(self)@.out + func_begin_text(funcname@, nlocals),
            final(self)@.filename == old(self)@.filename,
            final(self)@.label_id == old(self)@.label_id,
    {
        self.label(funcname);
        push_bytes(&mut self.out, "D=0
".as_bytes());
        let ghost base = self.out@;
        let mut k: i16 = 0;
        proof {
            assert(base + repeat_text(push_text(), 0) =~= base);
        }
        while k < nlocals
            invariant
                0 <= k,
                nlocals >= 0 ==> k <= nlocals,
                nlocals < 0 ==> k == 0,
                self.out@ == base + repeat_text(push_text(), k as int),
                self.filename@ == old(self)@.filename,
                self.label_id == old(self)@.label_id,
            decreases nlocals - k,
        {
            self.push();
            proof {
                lemma_repeat_snoc(push_text(), k as int + 1);
                assert(self.out@ =~= base + repeat_text(push_text(), k as int + 1));
            }
            k = k + 1;
        }
        proof {
            if nlocals >= 0 {
                assert(k == nlocals);
            } else {
                assert(k == 0);
                assert(repeat_text(push_text(), nlocals as int) == Seq::<u8>::empty());
                assert(repeat_text(push_text(), 0) == Seq::<u8>::empty());
            }
            assert(base == old(self)@.out + label_text(funcname@) + "D=0\n".spec_bytes());
            assert(self.out@ =~= old(self)@.out + func_begin_text(funcname@, nlocals));
        }
    }

    /// Emits a call site following the calling convention.
    #[verifier::rlimit(100)]
    pub fn func_call(&mut self, funcname: &[u8], nargs: i16)
        requires
            0 <= nargs <= 0x7FFA,
        ensures
            final(self)@.out == old(self)@.out + func_call_text(
                funcname@,
                nargs,
                old(self)@.label_id,
            ),
            final(self)@.filename == old(self)@.filename,
            final(self)@.label_id == next_id(old(self)@.label_id),
    {
        let return_label = self.new_unique_label("RETURN".as_bytes());
        push_bytes(&mut self.out, "@".as_bytes());
        push_bytes(&mut self.out, return_label.as_slice());
        push_bytes(&mut self.out, "
D=A
".as_bytes());
        self.push();
        push_bytes(&mut self.out, "@LCL
D=M
".as_bytes());
        self.push();
        push_bytes(&mut self.out, "@ARG
D=M
".as_bytes());
        self.push();
        push_bytes(&mut self.out, "@THIS
D=M
".as_bytes());
        self.push();
        push_bytes(&mut self.out, "@THAT
D=M
".as_bytes());
        self.push();
        push_bytes(&mut self.out, "@".as_bytes());
        push_decimal_i16(&mut self.out, nargs + 5);
        push_bytes(&mut self.out, "
D=-A
@SP
D=D+M
@ARG
M=D
".as_bytes());
        push_bytes(&mut self.out, "@SP
D=M
@LCL
M=D
".as_bytes());
        push_bytes(&mut self.out, "@".as_bytes());
        push_bytes(&mut self.out, funcname);
        push_bytes(&mut self.out, "
0;JMP
".as_bytes());
        self.label(return_label.as_slice());
        proof {
            assert(self.out@ =~= old(self)@.out + func_call_text(
                funcname@,
                nargs,
                old(self)@.label_id,
            ));
        }
    }

    /// Emits a return following the calling convention.
    pub fn func_return(&mut self)
        ensures
            final(self)@.out == old(self)@.out + func_return_text(),
            final(self)@.filename == old(self)@.filename,
            final(self)@.label_id == old(self)@.label_id,
    {
        push_bytes(&mut self.out, "@LCL\nD=M\n@5\nA=D-A\nD=M\n@R14\nM=D\n".as_bytes());
        self.pop();
        push_bytes(
            &mut self.out,
            "
@ARG
A=M
M=D          // *RAM[ARG] = D
@ARG
D=M+1
@SP
M=D   // RAM[SP] = RAM[ARG] + 1
@LCL
D=M
@R13
M=D    // RAM[R13] = RAM[LCL]
@R13
M=M-1
A=M
D=M
@THAT
M=D   // --RAM[R13]; *THAT = *RAM[R13];
@R13
M=M-1
A=M
D=M
@THIS
M=D   // --RAM[R13]; *THIS = *RAM[R13];
@R13
M=M-1
A=M
D=M
@ARG
M=D    // --RAM[R13]; *ARG  = *RAM[R13];
@R13
M=M-1
A=M
D=M
@LCL
M=D    // --RAM[R13]; *LCL  = *RAM[R13];
@R14
A=M
0;JMP    // goto RAM[R14]
".as_bytes(),
        );
        proof {
            assert(self.out@ =~= old(self)@.out + func_return_text());
        }
    }

    /// Emits the bootstrap that calls Sys.init.
    pub fn call_sys_init(&mut self)
        ensures
            final(self)@.out == old(self)@.out + call_sys_init_text(old(self)@.label_id),
            final(self)@.filename == old(self)@.filename,
            final(self)@.label_id == next_id(old(self)@.label_id),
    {
        self.set_ram("SP", 256);
        self.func_call("Sys.init".as_bytes(), 0);
        self.goto("TERMINAL".as_bytes());
        proof {
            assert(self.out@ =~= old(self)@.out + call_sys_init_text(old(self)@.label_id));
        }
    }
}

/// Repetition grows at the back as well as at the front.
proof fn lemma_repeat_snoc(s: Seq<u8>, n: int)
    requires
        n >= 1,
    ensures
        repeat_text(s, n) == repeat_text(s, n - 1) + s,
    decreases n,
{
    if n == 1 {
        assert(repeat_text(s, 1) =~= repeat_text(s, 0) + s);
    } else {
        lemma_repeat_snoc(s, n - 1);
        assert(repeat_text(s, n) =~= repeat_text(s, n - 1) + s);
    }
}

/// The index of the first whitespace byte, or `s.len()` when none occurs.
pub open spec fn space_index(s: Seq<u8>) -> int
    decreases s.len(),
{
    if s.len() == 0 {
        0
    } else if crate::text::is_space(s[0]) {
        0
    } else {
        1 + space_index(s.drop_first())
    }
}

pub proof fn lemma_space_index(s: Seq<u8>)
    ensures
        0 <= space_index(s) <= s.len(),
        space_index(s) < s.len() ==> crate::text::is_space(s[space_index(s)]),
        forall|i: int| 0 <= i < space_index(s) ==> !crate::text::is_space(#[trigger] s[i]),
    decreases s.len(),
{
    if s.len() > 0 && !crate::text::is_space(s[0]) {
        lemma_space_index(s.drop_first());
        let t = s.drop_first();
        assert(forall|i: int| 1 <= i < space_index(t) + 1 ==> s[i] == t[i - 1]);
    }
}

/// The whitespace-separated tokens of a line.
pub open spec fn split_ws(s: Seq<u8>) -> Seq<Seq<u8>>
    decreases s.len(),
    via split_ws_decreases
{
    if s.len() == 0 {
        Seq::empty()
    } else if crate::text::is_space(s[0]) {
        split_ws(s.drop_first())
    } else {
        let j = space_index(s);
        seq![s.take(j)] + split_ws(s.skip(j))
    }
}

#[via_fn]
proof fn split_ws_decreases(s: Seq<u8>) {
    lemma_space_index(s);
}

/// Splits a line into whitespace-separated tokens.
pub fn tokens_of(s: &[u8]) -> (r: Vec<Vec<u8>>)
    ensures
        r.deep_view() == split_ws(s@),
{
    let mut r: Vec<Vec<u8>> = Vec::new();
    let mut pos: usize = 0;
    proof {
        assert(r.deep_view() =~~= Seq::<Seq<u8>>::empty());
        assert(s@.skip(0) =~= s@);
        assert(split_ws(s@) =~= r.deep_view() + split_ws(s@.skip(0)));
    }
    loop
        invariant
            0 <= pos <= s@.len(),
            split_ws(s@) == r.deep_view() + split_ws(s@.skip(pos as int)),
        decreases s@.len() - pos,
    {
        let mut i = pos;
        while i < s.len() && (s[i] == 32 || (9 <= s[i] && s[i] <= 13))
            invariant
                pos <= i <= s@.len(),
                split_ws(s@.skip(pos as int)) == split_ws(s@.skip(i as int)),
            decreases s@.len() - i,
        {
            proof {
                let rest = s@.skip(i as int);
                assert(rest[0] == s@[i as int]);
                assert(rest.drop_first() =~= s@.skip(i + 1));
            }
            i = i + 1;
        }
        if i == s.len() {
            proof {
                assert(s@.skip(i as int) =~= Seq::<u8>::empty());
                assert(r.deep_view() + Seq::<Seq<u8>>::empty() =~~= r.deep_view());
            }
            return r;
        }
        let ghost rest = s@.skip(i as int);
        proof {
            assert(rest[0] == s@[i as int]);
            assert(!crate::text::is_space(rest[0]));
        }
        let mut j = i;
        while j < s.len() && !(s[j] == 32 || (9 <= s[j] && s[j] <= 13))
            invariant
                i <= j <= s@.len(),
                forall|k: int| i <= k < j ==> !crate::text::is_space(#[trigger] s@[k]),
            decreases s@.len() - j,
        {
            j = j + 1;
        }
        proof {
            lemma_space_index(rest);
            assert forall|k: int| 0 <= k < j - i implies !crate::text::is_space(rest[k]) by {
                assert(rest[k] == s@[i + k]);
            }
            if space_index(rest) < j - i {
                assert(crate::text::is_space(rest[space_index(rest)]));
                assert(false);
            }
            if j < s@.len() {
                assert(rest[j - i] == s@[j as int]);
                if space_index(rest) > j - i {
                    assert(!crate::text::is_space(rest[j - i]));
                    assert(false);
                }
            }
            assert(space_index(rest) == j - i);
        }
        let tok = crate::text::copy_range(s, i, j);
        let ghost rdv = r.deep_view();
        let ghost tokv = tok@;
        r.push(tok);
        proof {
            assert(tokv =~= rest.take(j - i));
            assert(r.deep_view() =~~= rdv + seq![tokv]);
            assert(split_ws(rest) == seq![rest.take(j - i)] + split_ws(rest.skip(j - i)));
            assert(rest.skip(j - i) =~= s@.skip(j as int));
            assert(split_ws(s@) =~= r.deep_view() + split_ws(s@.skip(j as int)));
        }
        pos = j;
    }
}

/// One VM command.
#[derive(Debug, PartialEq, Eq)]
pub enum Command {
    BinaryOp(BinaryOp),
    UnaryOp(UnaryOp),
    LogicalOp(Condition),
    Push { segment: Vec<u8>, index: i16 },
    Pop { segment: Vec<u8>, index: i16 },
    Label(Vec<u8>),
    Goto(Vec<u8>),
    IfGoto(Vec<u8>),
    Function { funcname: Vec<u8>, nlocals: i16 },
    Call { funcname: Vec<u8>, nargs: i16 },
    Return,
}

/// The specification-level shape of a VM command.
pub enum CommandSpec {
    BinaryOp(BinaryOp),
    UnaryOp(UnaryOp),
    LogicalOp(Condition),
    Push { segment: Seq<u8>, index: i16 },
    Pop { segment: Seq<u8>, index: i16 },
    Label(Seq<u8>),
    Goto(Seq<u8>),
    IfGoto(Seq<u8>),
    Function { funcname: Seq<u8>, nlocals: i16 },
    Call { funcname: Seq<u8>, nargs: i16 },
    Return,
}

impl View for Command {
    type V = CommandSpec;

    closed spec fn view(&self) -> CommandSpec {
        match self {
            Command::BinaryOp(op) => CommandSpec::BinaryOp(*op),
            Command::UnaryOp(op) => CommandSpec::UnaryOp(*op),
            Command::LogicalOp(c) => CommandSpec::LogicalOp(*c),
            Command::Push { segment, index } => CommandSpec::Push {
                segment: segment@,
                index: *index,
            },
            Command::Pop { segment, index } => CommandSpec::Pop {
                segment: segment@,
                index: *index,
            },
            Command::Label(l) => CommandSpec::Label(l@),
            Command::Goto(l) => CommandSpec::Goto(l@),
            Command::IfGoto(l) => CommandSpec::IfGoto(l@),
            Command::Function { funcname, nlocals } => CommandSpec::Function {
                funcname: funcname@,
                nlocals: *nlocals,
            },
            Command::Call { funcname, nargs } => CommandSpec::Call {
                funcname: funcname@,
                nargs: *nargs,
            },
            Command::Return => CommandSpec::Return,
        }
    }
}

/// What one surviving VM line parses to, if anything: the opcode selects
/// the shape, numeric arguments parse as decimal, extra tokens are
/// ignored as the reference splitter does.
pub open spec fn vm_line_spec(line: Seq<u8>) -> Option<CommandSpec> {
    let toks = split_ws(line);
    if toks.len() == 0 {
        Option::None
    } else if toks[0] == "neg".spec_bytes() {
        Option::Some(CommandSpec::UnaryOp(UnaryOp::Neg))
    } else if toks[0] == "not".spec_bytes() {
        Option::Some(CommandSpec::UnaryOp(UnaryOp::Not))
    } else if toks[0] == "add".spec_bytes() {
        Option::Some(CommandSpec::BinaryOp(BinaryOp::Add))
    } else if toks[0] == "sub".spec_bytes() {
        Option::Some(CommandSpec::BinaryOp(BinaryOp::Sub))
    } else if toks[0] == "and".spec_bytes() {
        Option::Some(CommandSpec::BinaryOp(BinaryOp::And))
    } else if toks[0] == "or".spec_bytes() {
        Option::Some(CommandSpec::BinaryOp(BinaryOp::Or))
    } else if toks[0] == "eq".spec_bytes() {
        Option::Some(CommandSpec::LogicalOp(Condition::Eq))
    } else if toks[0] == "gt".spec_bytes() {
        Option::Some(CommandSpec::LogicalOp(Condition::Gt))
    } else if toks[0] == "lt".spec_bytes() {
        Option::Some(CommandSpec::LogicalOp(Condition::Lt))
    } else if toks[0] == "push".spec_bytes() {
        if toks.len() < 3 {
            Option::None
        } else {
            match crate::text::parse_i16_spec(toks[2]) {
                Option::Some(n) => Option::Some(
                    CommandSpec::Push { segment: toks[1], index: n },
                ),
                Option::None => Option::None,
            }
        }
    } else if toks[0] == "pop".spec_bytes() {
        if toks.len() < 3 {
            Option::None
        } else {
            match crate::text::parse_i16_spec(toks[2]) {
                Option::Some(n) => Option::Some(CommandSpec::Pop { segment: toks[1], index: n }),
                Option::None => Option::None,
            }
        }
    } else if toks[0] == "label".spec_bytes() {
        if toks.len() < 2 {
            Option::None
        } else {
            Option::Some(CommandSpec::Label(toks[1]))
        }
    } else if toks[0] == "goto".spec_bytes() {
        if toks.len() < 2 {
            Option::None
        } else {
            Option::Some(CommandSpec::Goto(toks[1]))
        }
    } else if toks[0] == "if-goto".spec_bytes() {
        if toks.len() < 2 {
            Option::None
        } else {
            Option::Some(CommandSpec::IfGoto(toks[1]))
        }
    } else if toks[0] == "function".spec_bytes() {
        if toks.len() < 3 {
            Option::None
        } else {
            match crate::text::parse_i16_spec(toks[2]) {
                Option::Some(n) => Option::Some(
                    CommandSpec::Function { funcname: toks[1], nlocals: n },
                ),
                Option::None => Option::None,
            }
        }
    } else if toks[0] == "call".spec_bytes() {
        if toks.len() < 3 {
            Option::None
        } else {
            match crate::text::parse_i16_spec(toks[2]) {
                Option::Some(n) => Option::Some(
                    CommandSpec::Call { funcname: toks[1], nargs: n },
                ),
                Option::None => Option::None,
            }
        }
    } else if toks[0] == "return".spec_bytes() {
        Option::Some(CommandSpec::Return)
    } else {
        Option::None
    }
}

/// The view of a parse result.
pub open spec fn vm_cmd_view(r: Option<Command>) -> Option<CommandSpec> {
    match r {
        Option::Some(c) => Option::Some(c@),
        Option::None => Option::None,
    }
}

/// Parses one surviving VM line.
pub fn line_to_command(line: &[u8]) -> (r: Option<Command>)
    ensures
        vm_cmd_view(r) == vm_line_spec(line@),
{
    let toks = tokens_of(line);
    let ghost tv = toks.deep_view();
    proof {
        assert(toks@.len() == tv.len());
        assert(forall|k: int| 0 <= k < tv.len() ==> #[trigger] toks@[k]@ == tv[k]);
    }
    if toks.len() == 0 {
        return Option::None;
    }
    let t0 = toks[0].as_slice();
    if crate::text::bytes_eq(t0, "neg".as_bytes()) {
        Option::Some(Command::UnaryOp(UnaryOp::Neg))
    } else if crate::text::bytes_eq(t0, "not".as_bytes()) {
        Option::Some(Command::UnaryOp(UnaryOp::Not))
    } else if crate::text::bytes_eq(t0, "add".as_bytes()) {
        Option::Some(Command::BinaryOp(BinaryOp::Add))
    } else if crate::text::bytes_eq(t0, "sub".as_bytes()) {
        Option::Some(Command::BinaryOp(BinaryOp::Sub))
    } else if crate::text::bytes_eq(t0, "and".as_bytes()) {
        Option::Some(Command::BinaryOp(BinaryOp::And))
    } else if crate::text::bytes_eq(t0, "or".as_bytes()) {
        Option::Some(Command::BinaryOp(BinaryOp::Or))
    } else if crate::text::bytes_eq(t0, "eq".as_bytes()) {
        Option::Some(Command::LogicalOp(Condition::Eq))
    } else if crate::text::bytes_eq(t0, "gt".as_bytes()) {
        Option::Some(Command::LogicalOp(Condition::Gt))
    } else if crate::text::bytes_eq(t0, "lt".as_bytes()) {
        Option::Some(Command::LogicalOp(Condition::Lt))
    } else if crate::text::bytes_eq(t0, "push".as_bytes()) {
        if toks.len() < 3 {
            Option::None
        } else {
            match crate::text::parse_i16(toks[2].as_slice()) {
                Option::Some(n) => {
                    let seg = crate::text::copy_range(toks[1].as_slice(), 0, toks[1].len());
                    proof {
                        assert(seg@ =~= tv[1]);
                    }
                    Option::Some(Command::Push { segment: seg, index: n })
                },
                Option::None => Option::None,
            }
        }
    } else if crate::text::bytes_eq(t0, "pop".as_bytes()) {
        if toks.len() < 3 {
            Option::None
        } else {
            match crate::text::parse_i16(toks[2].as_slice()) {
                Option::Some(n) => {
                    let seg = crate::text::copy_range(toks[1].as_slice(), 0, toks[1].len());
                    proof {
                        assert(seg@ =~= tv[1]);
                    }
                    Option::Some(Command::Pop { segment: seg, index: n })
                },
                Option::None => Option::None,
            }
        }
    } else if crate::text::bytes_eq(t0, "label".as_bytes()) {
        if toks.len() < 2 {
            Option::None
        } else {
            let l = crate::text::copy_range(toks[1].as_slice(), 0, toks[1].len());
            proof {
                assert(l@ =~= tv[1]);
            }
            Option::Some(Command::Label(l))
        }
    } else if crate::text::bytes_eq(t0, "goto".as_bytes()) {
        if toks.len() < 2 {
            Option::None
        } else {
            let l = crate::text::copy_range(toks[1].as_slice(), 0, toks[1].len());
            proof {
                assert(l@ =~= tv[1]);
            }
            Option::Some(Command::Goto(l))
        }
    } else if crate::text::bytes_eq(t0, "if-goto".as_bytes()) {
        if toks.len() < 2 {
            Option::None
        } else {
            let l = crate::text::copy_range(toks[1].as_slice(), 0, toks[1].len());
            proof {
                assert(l@ =~= tv[1]);
            }
            Option::Some(Command::IfGoto(l))
        }
    } else if crate::text::bytes_eq(t0, "function".as_bytes()) {
        if toks.len() < 3 {
            Option::None
        } else {
            match crate::text::parse_i16(toks[2].as_slice()) {
                Option::Some(n) => {
                    let f = crate::text::copy_range(toks[1].as_slice(), 0, toks[1].len());
                    proof {
                        assert(f@ =~= tv[1]);
                    }
                    Option::Some(Command::Function { funcname: f, nlocals: n })
                },
                Option::None => Option::None,
            }
        }
    } else if crate::text::bytes_eq(t0, "call".as_bytes()) {
        if toks.len() < 3 {
            Option::None
        } else {
            match crate::text::parse_i16(toks[2].as_slice()) {
                Option::Some(n) => {
                    let f = crate::text::copy_range(toks[1].as_slice(), 0, toks[1].len());
                    proof {
                        assert(f@ =~= tv[1]);
                    }
                    Option::Some(Command::Call { funcname: f, nargs: n })
                },
                Option::None => Option::None,
            }
        }
    } else if crate::text::bytes_eq(t0, "return".as_bytes()) {
        Option::Some(Command::Return)
    } else {
        Option::None
    }
}

/// Whether a parsed command can be translated: its segment must be known,
/// indexes must be non-negative, a pop cannot name the constant segment,
/// and a call's argument count must leave the frame offset in range.
pub open spec fn cmd_ok(c: CommandSpec) -> bool {
    match c {
        CommandSpec::Push { segment, index } => valid_segment(segment) && index >= 0,
        CommandSpec::Pop { segment, index } => valid_segment(segment) && segment
            != "constant".spec_bytes() && index >= 0,
        CommandSpec::Call { funcname, nargs } => 0 <= nargs <= 0x7FFA,
        _ => true,
    }
}

/// The label ids left after translating one command: a comparison takes
/// two fresh labels, a call takes one.
pub open spec fn cmd_next_id(c: CommandSpec, id: u64) -> u64 {
    match c {
        CommandSpec::LogicalOp(_) => next_id(next_id(id)),
        CommandSpec::Call { .. } => next_id(id),
        _ => id,
    }
}

/// The assembly text one command translates to.
pub open spec fn cmd_text(c: CommandSpec, filename: Seq<u8>, id: u64) -> Seq<u8> {
    match c {
        CommandSpec::UnaryOp(op) => unary_op_text(op) + push_text(),
        CommandSpec::BinaryOp(op) => binary_op_text(op) + push_text(),
        CommandSpec::LogicalOp(cond) => logical_op_text(cond, id) + push_text(),
        CommandSpec::Push { segment, index } => push_segment_text(filename, segment, index),
        CommandSpec::Pop { segment, index } => pop_segment_text(filename, segment, index),
        CommandSpec::Label(l) => label_text(l),
        CommandSpec::Goto(l) => goto_text(l),
        CommandSpec::IfGoto(l) => pop_text() + if_goto_text(l),
        CommandSpec::Function { funcname, nlocals } => func_begin_text(funcname, nlocals),
        CommandSpec::Call { funcname, nargs } => func_call_text(funcname, nargs, id),
        CommandSpec::Return => func_return_text(),
    }
}

/// The assembly text a command sequence translates to.
pub open spec fn translate_text(cmds: Seq<CommandSpec>, filename: Seq<u8>, id: u64) -> Seq<u8>
    decreases cmds.len(),
{
    if cmds.len() == 0 {
        Seq::empty()
    } else {
        cmd_text(cmds[0], filename, id) + translate_text(
            cmds.drop_first(),
            filename,
            cmd_next_id(cmds[0], id),
        )
    }
}

/// The label counter after translating a command sequence.
pub open spec fn translate_end_id(cmds: Seq<CommandSpec>, id: u64) -> u64
    decreases cmds.len(),
{
    if cmds.len() == 0 {
        id
    } else {
        translate_end_id(cmds.drop_first(), cmd_next_id(cmds[0], id))
    }
}

/// Translates one command into the writer.
pub fn translate_command(out: &mut AsmWriter, command: &Command)
    requires
        cmd_ok(command@),
    ensures
        final(out)@.out == old(out)@.out + cmd_text(command@, old(out)@.filename, old(out)@.label_id),
        final(out)@.filename == old(out)@.filename,
        final(out)@.label_id == cmd_next_id(command@, old(out)@.label_id),
{
    match command {
        Command::UnaryOp(op) => {
            out.unary_op(*op);
            out.push();
            proof {
                assert(out@.out =~= old(out)@.out + (unary_op_text(command@->UnaryOp_0)
                    + push_text()));
            }
        },
        Command::BinaryOp(op) => {
            out.binary_op(*op);
            out.push();
            proof {
                assert(out@.out =~= old(out)@.out + (binary_op_text(command@->BinaryOp_0)
                    + push_text()));
            }
        },
        Command::LogicalOp(cond) => {
            out.logical_op(*cond);
            out.push();
            proof {
                assert(out@.out =~= old(out)@.out + (logical_op_text(
                    command@->LogicalOp_0,
                    old(out)@.label_id,
                ) + push_text()));
            }
        },
        Command::Push { segment, index } => {
            out.push_segment(segment.as_slice(), *index);
        },
        Command::Pop { segment, index } => {
            out.pop_segment(segment.as_slice(), *index);
        },
        Command::Label(l) => {
            out.label(l.as_slice());
        },
        Command::Goto(l) => {
            out.goto(l.as_slice());
        },
        Command::IfGoto(l) => {
            out.pop();
            out.if_goto(l.as_slice());
            proof {
                assert(out@.out =~= old(out)@.out + (pop_text() + if_goto_text(
                    command@->IfGoto_0,
                )));
            }
        },
        Command::Function { funcname, nlocals } => {
            out.func_begin(funcname.as_slice(), *nlocals);
        },
        Command::Call { funcname, nargs } => {
            out.func_call(funcname.as_slice(), *nargs);
        },
        Command::Return => {
            out.func_return();
        },
    }
}

/// The commands a VM source parses to, line by line, or nothing when any
/// surviving line is malformed.
pub open spec fn vm_commands_rec(lines: Seq<Seq<u8>>) -> Option<Seq<CommandSpec>>
    decreases lines.len(),
{
    if lines.len() == 0 {
        Option::Some(Seq::empty())
    } else {
        match vm_line_spec(lines[0]) {
            Option::None => Option::None,
            Option::Some(c) => match vm_commands_rec(lines.drop_first()) {
                Option::None => Option::None,
                Option::Some(cs) => Option::Some(seq![c] + cs),
            },
        }
    }
}

/// The commands of a whole VM source.
pub open spec fn vm_commands(src: Seq<u8>) -> Option<Seq<CommandSpec>> {
    vm_commands_rec(crate::assembler::clean_lines_rec(crate::text::split_lines(src)))
}

/// Whether a VM source is well formed: every surviving line parses and
/// every command can be translated.
pub open spec fn vm_source_ok(src: Seq<u8>) -> bool {
    match vm_commands(src) {
        Option::None => false,
        Option::Some(cmds) => forall|k: int| 0 <= k < cmds.len() ==> cmd_ok(#[trigger] cmds[k]),
    }
}

/// Translates a VM source into the writer.  A malformed source is
/// reported without touching the writer.
#[verifier::rlimit(100)]
pub fn translate_vm_source(out: &mut AsmWriter, source: &str) -> (ok: bool)
    ensures
        ok == vm_source_ok(source.spec_bytes()),
        final(out)@.filename == old(out)@.filename,
        ok ==> final(out)@.out == old(out)@.out + translate_text(
            vm_commands(source.spec_bytes()).unwrap(),
            old(out)@.filename,
            old(out)@.label_id,
        ) && final(out)@.label_id == translate_end_id(
            vm_commands(source.spec_bytes()).unwrap(),
            old(out)@.label_id,
        ),
        !ok ==> final(out)@ == old(out)@,
{
    let bytes = source.as_bytes();
    let raw = crate::text::lines_of(bytes);
    let ghost rawv = raw.deep_view();
    let mut cleaned: Vec<Vec<u8>> = Vec::new();
    let n_raw = raw.len();
    proof {
        assert(rawv.skip(0) =~= rawv);
        assert(cleaned.deep_view() =~~= Seq::<Seq<u8>>::empty());
        assert(crate::assembler::clean_lines_rec(rawv) == cleaned.deep_view()
            + crate::assembler::clean_lines_rec(rawv.skip(0)));
    }
    for li in 0..n_raw
        invariant
            n_raw == raw@.len(),
            rawv == raw.deep_view(),
            crate::assembler::clean_lines_rec(rawv) == cleaned.deep_view()
                + crate::assembler::clean_lines_rec(rawv.skip(li as int)),
        decreases n_raw - li,
    {
        let stripped = crate::text::strip_comment_of(raw[li].as_slice());
        let c = crate::text::trim_of(stripped.as_slice());
        let ghost cdv = cleaned.deep_view();
        let ghost cv = c@;
        proof {
            assert(rawv.skip(li as int)[0] == rawv[li as int]);
            assert(rawv[li as int] == raw@[li as int]@);
            assert(rawv.skip(li as int).drop_first() =~= rawv.skip(li + 1));
        }
        if c.len() > 0 {
            cleaned.push(c);
            proof {
                assert(cleaned.deep_view() =~~= cdv + seq![cv]);
                assert(cdv + seq![cv] + crate::assembler::clean_lines_rec(rawv.skip(li + 1))
                    =~= cdv + (seq![cv] + crate::assembler::clean_lines_rec(rawv.skip(li + 1))));
            }
        } else {
            proof {
                assert(cdv + crate::assembler::clean_lines_rec(rawv.skip(li + 1)) =~= cdv + (Seq::<
                    Seq<u8>,
                >::empty() + crate::assembler::clean_lines_rec(rawv.skip(li + 1))));
            }
        }
    }
    proof {
        assert(rawv.skip(rawv.len() as int) =~= Seq::<Seq<u8>>::empty());
        assert(cleaned.deep_view() + crate::assembler::clean_lines_rec(Seq::<Seq<u8>>::empty())
            =~= cleaned.deep_view());
    }
    let ghost cl = cleaned.deep_view();

    // parse and check every surviving line
    let mut cmds: Vec<Command> = Vec::new();
    let ghost mut gcmds: Seq<CommandSpec> = Seq::empty();
    let n_clean = cleaned.len();
    proof {
        assert(cl.skip(0) =~= cl);
    }
    for i in 0..n_clean
        invariant
            n_clean == cleaned@.len(),
            cl == cleaned.deep_view(),
            cl == crate::assembler::clean_lines_rec(crate::text::split_lines(source.spec_bytes())),
            cmds@.len() == gcmds.len(),
            forall|k: int| 0 <= k < gcmds.len() ==> #[trigger] cmds@[k]@ == gcmds[k],
            forall|k: int| 0 <= k < gcmds.len() ==> cmd_ok(#[trigger] gcmds[k]),
            vm_commands_rec(cl) == match vm_commands_rec(cl.skip(i as int)) {
                Option::Some(rest) => Option::<Seq<CommandSpec>>::Some(gcmds + rest),
                Option::None => Option::<Seq<CommandSpec>>::None,
            },
        decreases n_clean - i,
    {
        proof {
            assert(cl.skip(i as int)[0] == cl[i as int]);
            assert(cl[i as int] == cleaned@[i as int]@);
            assert(cl.skip(i as int).drop_first() =~= cl.skip(i + 1));
        }
        match line_to_command(cleaned[i].as_slice()) {
            Option::None => {
                proof {
                    lemma_vm_line_bad(cl, i as int, source.spec_bytes(), gcmds);
                }
                return false;
            },
            Option::Some(c) => {
                let ghost cv = c@;
                let keep: bool = match &c {
                    Command::Push { segment, index } => is_valid_segment(segment.as_slice())
                        && *index >= 0,
                    Command::Pop { segment, index } => is_valid_segment(segment.as_slice())
                        && !crate::text::bytes_eq(segment.as_slice(), "constant".as_bytes())
                        && *index >= 0,
                    Command::Call { funcname: _, nargs } => 0 <= *nargs && *nargs <= 0x7FFA,
                    _ => true,
                };
                if !keep {
                    proof {
                        assert(!cmd_ok(cv));
                        lemma_vm_cmd_bad(cl, i as int, source.spec_bytes(), gcmds, cv);
                    }
                    return false;
                }
                cmds.push(c);
                proof {
                    let gold = gcmds;
                    gcmds = gcmds.push(cv);
                    assert(forall|k: int|
                        0 <= k < gcmds.len() ==> #[trigger] cmds@[k]@ == gcmds[k]);
                    match vm_commands_rec(cl.skip(i + 1)) {
                        Option::Some(rest) => {
                            assert(gcmds + rest =~= gold + (seq![cv] + rest));
                        },
                        Option::None => {},
                    }
                }
            },
        }
    }
    proof {
        assert(cl.skip(cl.len() as int) =~= Seq::<Seq<u8>>::empty());
        assert(gcmds + Seq::<CommandSpec>::empty() =~= gcmds);
        assert(vm_commands_rec(cl) == Option::<Seq<CommandSpec>>::Some(gcmds));
    }

    // emit
    let n_cmds = cmds.len();
    let ghost id0 = out@.label_id;
    let ghost out0 = out@.out;
    proof {
        assert(gcmds.skip(0) =~= gcmds);
        assert(out0 + Seq::<u8>::empty() =~= out0);
    }
    for i in 0..n_cmds
        invariant
            n_cmds == cmds@.len(),
            cmds@.len() == gcmds.len(),
            forall|k: int| 0 <= k < gcmds.len() ==> #[trigger] cmds@[k]@ == gcmds[k],
            forall|k: int| 0 <= k < gcmds.len() ==> cmd_ok(#[trigger] gcmds[k]),
            out@.filename == old(out)@.filename,
            out0 == old(out)@.out,
            id0 == old(out)@.label_id,
            out0 + translate_text(gcmds, old(out)@.filename, id0) == out@.out + translate_text(
                gcmds.skip(i as int),
                old(out)@.filename,
                out@.label_id,
            ),
            translate_end_id(gcmds, id0) == translate_end_id(
                gcmds.skip(i as int),
                out@.label_id,
            ),
        decreases n_cmds - i,
    {
        proof {
            assert(gcmds.skip(i as int)[0] == gcmds[i as int]);
            assert(gcmds[i as int] == cmds@[i as int]@);
            assert(gcmds.skip(i as int).drop_first() =~= gcmds.skip(i + 1));
        }
        let ghost outbefore = out@.out;
        let ghost idbefore = out@.label_id;
        translate_command(out, &cmds[i]);
        proof {
            assert(outbefore + (cmd_text(gcmds[i as int], old(out)@.filename, idbefore)
                + translate_text(gcmds.skip(i + 1), old(out)@.filename, out@.label_id))
                =~= out@.out + translate_text(gcmds.skip(i + 1), old(out)@.filename,
                out@.label_id));
        }
    }
    proof {
        assert(gcmds.skip(gcmds.len() as int) =~= Seq::<CommandSpec>::empty());
        assert(out@.out + Seq::<u8>::empty() =~= out@.out);
    }
    true
}

/// Whether a token names a memory segment.
pub fn is_valid_segment(s: &[u8]) -> (r: bool)
    ensures
        r == valid_segment(s@),
{
    crate::text::bytes_eq(s, "argument".as_bytes()) || crate::text::bytes_eq(
        s,
        "local".as_bytes(),
    ) || crate::text::bytes_eq(s, "this".as_bytes()) || crate::text::bytes_eq(
        s,
        "that".as_bytes(),
    ) || crate::text::bytes_eq(s, "pointer".as_bytes()) || crate::text::bytes_eq(
        s,
        "temp".as_bytes(),
    ) || crate::text::bytes_eq(s, "static".as_bytes()) || crate::text::bytes_eq(
        s,
        "constant".as_bytes(),
    )
}

/// The text a whole compilation produces: the bootstrap, the translated
/// program, and the terminal label.
pub open spec fn compile_text(filename: Seq<u8>, src: Seq<u8>) -> Seq<u8> {
    call_sys_init_text(0) + translate_text(vm_commands(src).unwrap(), filename, next_id(0))
        + label_text("TERMINAL".spec_bytes())
}

/// Compiles a VM source to assembly text, or reports a malformed source.
pub fn compile(source_filename: &str, source: &str) -> (r: Option<Vec<u8>>)
    ensures
        r is Some <==> vm_source_ok(source.spec_bytes()),
        r is Some ==> r.unwrap()@ == compile_text(
            source_filename.spec_bytes(),
            source.spec_bytes(),
        ),
{
    let mut out = AsmWriter::new(source_filename);
    out.call_sys_init();
    let ok = translate_vm_source(&mut out, source);
    if !ok {
        return Option::None;
    }
    let r = out.finish();
    proof {
        assert(r@ =~= compile_text(source_filename.spec_bytes(), source.spec_bytes()));
    }
    Option::Some(r)
}

/// A surviving line that does not parse makes the whole source malformed.
proof fn lemma_vm_line_bad(cl: Seq<Seq<u8>>, i: int, src: Seq<u8>, gcmds: Seq<CommandSpec>)
    requires
        cl == crate::assembler::clean_lines_rec(crate::text::split_lines(src)),
        0 <= i < cl.len(),
        vm_line_spec(cl[i]) is None,
        vm_commands_rec(cl) == (match vm_commands_rec(cl.skip(i)) {
            Option::Some(rest) => Option::<Seq<CommandSpec>>::Some(gcmds + rest),
            Option::None => Option::<Seq<CommandSpec>>::None,
        }),
    ensures
        !vm_source_ok(src),
{
    assert(cl.skip(i)[0] == cl[i]);
    assert(vm_commands_rec(cl.skip(i)) is None);
}

/// A command that cannot be translated makes the whole source malformed.
proof fn lemma_vm_cmd_bad(cl: Seq<Seq<u8>>, i: int, src: Seq<u8>, gcmds: Seq<CommandSpec>, cv: CommandSpec)
    requires
        cl == crate::assembler::clean_lines_rec(crate::text::split_lines(src)),
        0 <= i < cl.len(),
        vm_line_spec(cl[i]) == Option::Some(cv),
        !cmd_ok(cv),
        vm_commands_rec(cl) == (match vm_commands_rec(cl.skip(i)) {
            Option::Some(rest) => Option::<Seq<CommandSpec>>::Some(gcmds + rest),
            Option::None => Option::<Seq<CommandSpec>>::None,
        }),
    ensures
        !vm_source_ok(src),
{
    assert(cl.skip(i)[0] == cl[i]);
    match vm_commands_rec(cl.skip(i)) {
        Option::Some(rest) => {
            assert(vm_commands_rec(cl) == Option::<Seq<CommandSpec>>::Some(gcmds + rest));
            match vm_commands_rec(cl.skip(i).drop_first()) {
                Option::Some(cs) => {
                    assert(rest == seq![cv] + cs);
                    assert(rest.len() >= 1);
                },
                Option::None => {
                    assert(false);
                },
            }
            assert(rest[0] == cv);
            assert((gcmds + rest)[gcmds.len() as int] == cv);
            assert(!cmd_ok((gcmds + rest)[gcmds.len() as int]));
            assert(vm_commands(src) == Option::<Seq<CommandSpec>>::Some(gcmds + rest));
            let all = vm_commands(src).unwrap();
            assert(all == gcmds + rest);
            assert(0 <= gcmds.len() < all.len());
            assert(!cmd_ok(all[gcmds.len() as int]));
            if forall|k: int| 0 <= k < all.len() ==> cmd_ok(#[trigger] all[k]) {
                assert(cmd_ok(all[gcmds.len() as int]));
                assert(false);
            }
            assert(!vm_source_ok(src));
        },
        Option::None => {
            assert(vm_commands(src) is None);
            assert(!vm_source_ok(src));
        },
    }
}

} // verus!
