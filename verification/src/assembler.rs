//! The two-pass assembler: lines to commands, label resolution, variable
//! allocation, and emission of 16-bit instruction words.

use vstd::prelude::*;
use crate::text::{
    byte_index, trim, strip_comment, split_lines, parse_i16_spec, find_byte, copy_range, bytes_eq,
    lines_of, strip_comment_of, trim_of, parse_i16,
};
use crate::inst::{Instruction, Computation, Jump, encode_spec};
use vstd::string::StringSliceAdditionalSpecFns;

verus! {

/// An assembly error, carrying the offending line or token.
#[derive(PartialEq, Eq, Debug)]
pub enum AsmError {
    InvalidAInstruction(Vec<u8>),
    EmptyComputation,
    EmptyLabel,
    InvalidLine(Vec<u8>),
    InvalidComputation(Vec<u8>),
    InvalidDestination(Vec<u8>),
    InvalidJump(Vec<u8>),
}

/// The specification-level shape of an assembly error.
pub enum AsmErrorSpec {
    InvalidAInstruction(Seq<u8>),
    EmptyComputation,
    EmptyLabel,
    InvalidLine(Seq<u8>),
    InvalidComputation(Seq<u8>),
    InvalidDestination(Seq<u8>),
    InvalidJump(Seq<u8>),
}

impl View for AsmError {
    type V = AsmErrorSpec;

    closed spec fn view(&self) -> AsmErrorSpec {
        match self {
            AsmError::InvalidAInstruction(l) => AsmErrorSpec::InvalidAInstruction(l@),
            AsmError::EmptyComputation => AsmErrorSpec::EmptyComputation,
            AsmError::EmptyLabel => AsmErrorSpec::EmptyLabel,
            AsmError::InvalidLine(l) => AsmErrorSpec::InvalidLine(l@),
            AsmError::InvalidComputation(t) => AsmErrorSpec::InvalidComputation(t@),
            AsmError::InvalidDestination(t) => AsmErrorSpec::InvalidDestination(t@),
            AsmError::InvalidJump(t) => AsmErrorSpec::InvalidJump(t@),
        }
    }
}

/// One parsed line of assembly.
#[derive(PartialEq, Eq, Debug)]
pub enum Command {
    AValue(i16),
    ASymbol(Vec<u8>),
    Label(Vec<u8>),
    Computation { comp: Vec<u8>, dest: Option<Vec<u8>>, jump: Option<Vec<u8>> },
}

/// The specification-level shape of a parsed line.
pub enum CommandSpec {
    AValue(i16),
    ASymbol(Seq<u8>),
    Label(Seq<u8>),
    Computation { comp: Seq<u8>, dest: Option<Seq<u8>>, jump: Option<Seq<u8>> },
}

impl View for Command {
    type V = CommandSpec;

    closed spec fn view(&self) -> CommandSpec {
        match self {
            Command::AValue(a) => CommandSpec::AValue(*a),
            Command::ASymbol(s) => CommandSpec::ASymbol(s@),
            Command::Label(s) => CommandSpec::Label(s@),
            Command::Computation { comp, dest, jump } => CommandSpec::Computation {
                comp: comp@,
                dest: match dest {
                    Option::Some(d) => Option::Some(d@),
                    Option::None => Option::None,
                },
                jump: match jump {
                    Option::Some(j) => Option::Some(j@),
                    Option::None => Option::None,
                },
            },
        }
    }
}

/// The computation mnemonic a token names, if any.
pub open spec fn comp_of_text(s: Seq<u8>) -> Option<Computation> {
    if s.len() == 1 && s[0] == 48 {
        Option::Some(Computation::Zero)
    } else if s.len() == 1 && s[0] == 49 {
        Option::Some(Computation::One)
    } else if s.len() == 2 && s[0] == 45 && s[1] == 49 {
        Option::Some(Computation::MinusOne)
    } else if s.len() == 1 && s[0] == 68 {
        Option::Some(Computation::D)
    } else if s.len() == 1 && s[0] == 65 {
        Option::Some(Computation::X(false))
    } else if s.len() == 1 && s[0] == 77 {
        Option::Some(Computation::X(true))
    } else if s.len() == 2 && s[0] == 33 && s[1] == 68 {
        Option::Some(Computation::NotD)
    } else if s.len() == 2 && s[0] == 33 && s[1] == 65 {
        Option::Some(Computation::NotX(false))
    } else if s.len() == 2 && s[0] == 33 && s[1] == 77 {
        Option::Some(Computation::NotX(true))
    } else if s.len() == 2 && s[0] == 45 && s[1] == 68 {
        Option::Some(Computation::MinusD)
    } else if s.len() == 2 && s[0] == 45 && s[1] == 65 {
        Option::Some(Computation::MinusX(false))
    } else if s.len() == 2 && s[0] == 45 && s[1] == 77 {
        Option::Some(Computation::MinusX(true))
    } else if s.len() == 3 && s[0] == 68 && s[1] == 43 && s[2] == 49 {
        Option::Some(Computation::DPlusOne)
    } else if s.len() == 3 && s[0] == 65 && s[1] == 43 && s[2] == 49 {
        Option::Some(Computation::XPlusOne(false))
    } else if s.len() == 3 && s[0] == 77 && s[1] == 43 && s[2] == 49 {
        Option::Some(Computation::XPlusOne(true))
    } else if s.len() == 3 && s[0] == 68 && s[1] == 45 && s[2] == 49 {
        Option::Some(Computation::DMinusOne)
    } else if s.len() == 3 && s[0] == 65 && s[1] == 45 && s[2] == 49 {
        Option::Some(Computation::XMinusOne(false))
    } else if s.len() == 3 && s[0] == 77 && s[1] == 45 && s[2] == 49 {
        Option::Some(Computation::XMinusOne(true))
    } else if s.len() == 3 && s[0] == 68 && s[1] == 43 && s[2] == 65 {
        Option::Some(Computation::DPlusX(false))
    } else if s.len() == 3 && s[0] == 68 && s[1] == 43 && s[2] == 77 {
        Option::Some(Computation::DPlusX(true))
    } else if s.len() == 3 && s[0] == 68 && s[1] == 45 && s[2] == 65 {
        Option::Some(Computation::DMinusX(false))
    } else if s.len() == 3 && s[0] == 68 && s[1] == 45 && s[2] == 77 {
        Option::Some(Computation::DMinusX(true))
    } else if s.len() == 3 && s[0] == 65 && s[1] == 45 && s[2] == 68 {
        Option::Some(Computation::XMinusD(false))
    } else if s.len() == 3 && s[0] == 77 && s[1] == 45 && s[2] == 68 {
        Option::Some(Computation::XMinusD(true))
    } else if s.len() == 3 && s[0] == 68 && s[1] == 38 && s[2] == 65 {
        Option::Some(Computation::DAndX(false))
    } else if s.len() == 3 && s[0] == 68 && s[1] == 38 && s[2] == 77 {
        Option::Some(Computation::DAndX(true))
    } else if s.len() == 3 && s[0] == 68 && s[1] == 124 && s[2] == 65 {
        Option::Some(Computation::DOrX(false))
    } else if s.len() == 3 && s[0] == 68 && s[1] == 124 && s[2] == 77 {
        Option::Some(Computation::DOrX(true))
    } else {
        Option::None
    }
}

/// The computation mnemonic a token names.
fn comp_of_bytes(s: &[u8]) -> (r: Option<Computation>)
    ensures
        r == comp_of_text(s@),
{
    if s.len() == 1 && s[0] == 48 {
        Option::Some(Computation::Zero)
    } else if s.len() == 1 && s[0] == 49 {
        Option::Some(Computation::One)
    } else if s.len() == 2 && s[0] == 45 && s[1] == 49 {
        Option::Some(Computation::MinusOne)
    } else if s.len() == 1 && s[0] == 68 {
        Option::Some(Computation::D)
    } else if s.len() == 1 && s[0] == 65 {
        Option::Some(Computation::X(false))
    } else if s.len() == 1 && s[0] == 77 {
        Option::Some(Computation::X(true))
    } else if s.len() == 2 && s[0] == 33 && s[1] == 68 {
        Option::Some(Computation::NotD)
    } else if s.len() == 2 && s[0] == 33 && s[1] == 65 {
        Option::Some(Computation::NotX(false))
    } else if s.len() == 2 && s[0] == 33 && s[1] == 77 {
        Option::Some(Computation::NotX(true))
    } else if s.len() == 2 && s[0] == 45 && s[1] == 68 {
        Option::Some(Computation::MinusD)
    } else if s.len() == 2 && s[0] == 45 && s[1] == 65 {
        Option::Some(Computation::MinusX(false))
    } else if s.len() == 2 && s[0] == 45 && s[1] == 77 {
        Option::Some(Computation::MinusX(true))
    } else if s.len() == 3 && s[0] == 68 && s[1] == 43 && s[2] == 49 {
        Option::Some(Computation::DPlusOne)
    } else if s.len() == 3 && s[0] == 65 && s[1] == 43 && s[2] == 49 {
        Option::Some(Computation::XPlusOne(false))
    } else if s.len() == 3 && s[0] == 77 && s[1] == 43 && s[2] == 49 {
        Option::Some(Computation::XPlusOne(true))
    } else if s.len() == 3 && s[0] == 68 && s[1] == 45 && s[2] == 49 {
        Option::Some(Computation::DMinusOne)
    } else if s.len() == 3 && s[0] == 65 && s[1] == 45 && s[2] == 49 {
        Option::Some(Computation::XMinusOne(false))
    } else if s.len() == 3 && s[0] == 77 && s[1] == 45 && s[2] == 49 {
        Option::Some(Computation::XMinusOne(true))
    } else if s.len() == 3 && s[0] == 68 && s[1] == 43 && s[2] == 65 {
        Option::Some(Computation::DPlusX(false))
    } else if s.len() == 3 && s[0] == 68 && s[1] == 43 && s[2] == 77 {
        Option::Some(Computation::DPlusX(true))
    } else if s.len() == 3 && s[0] == 68 && s[1] == 45 && s[2] == 65 {
        Option::Some(Computation::DMinusX(false))
    } else if s.len() == 3 && s[0] == 68 && s[1] == 45 && s[2] == 77 {
        Option::Some(Computation::DMinusX(true))
    } else if s.len() == 3 && s[0] == 65 && s[1] == 45 && s[2] == 68 {
        Option::Some(Computation::XMinusD(false))
    } else if s.len() == 3 && s[0] == 77 && s[1] == 45 && s[2] == 68 {
        Option::Some(Computation::XMinusD(true))
    } else if s.len() == 3 && s[0] == 68 && s[1] == 38 && s[2] == 65 {
        Option::Some(Computation::DAndX(false))
    } else if s.len() == 3 && s[0] == 68 && s[1] == 38 && s[2] == 77 {
        Option::Some(Computation::DAndX(true))
    } else if s.len() == 3 && s[0] == 68 && s[1] == 124 && s[2] == 65 {
        Option::Some(Computation::DOrX(false))
    } else if s.len() == 3 && s[0] == 68 && s[1] == 124 && s[2] == 77 {
        Option::Some(Computation::DOrX(true))
    } else {
        Option::None
    }
}

/// The destination mask a token names, if any; an absent token means
/// no destination.
pub open spec fn dest_of_text(t: Option<Seq<u8>>) -> Option<u8> {
    match t {
        Option::None => Option::Some(0u8),
        Option::Some(s) => {
            if s.len() == 1 && s[0] == 65 {
                Option::Some(crate::dest::A)
            } else if s.len() == 1 && s[0] == 68 {
                Option::Some(crate::dest::D)
            } else if s.len() == 1 && s[0] == 77 {
                Option::Some(crate::dest::M)
            } else if s.len() == 2 && s[0] == 77 && s[1] == 68 {
                Option::Some(crate::dest::M | crate::dest::D)
            } else if s.len() == 2 && s[0] == 65 && s[1] == 77 {
                Option::Some(crate::dest::A | crate::dest::M)
            } else if s.len() == 2 && s[0] == 65 && s[1] == 68 {
                Option::Some(crate::dest::A | crate::dest::D)
            } else if s.len() == 3 && s[0] == 65 && s[1] == 77 && s[2] == 68 {
                Option::Some(crate::dest::A | crate::dest::M | crate::dest::D)
            } else {
                Option::None
            }
        },
    }
}

/// The destination mask a token names.
fn dest_of_bytes(t: &Option<Vec<u8>>) -> (r: Option<u8>)
    ensures
        r == dest_of_text(match t {
            Option::Some(s) => Option::Some(s@),
            Option::None => Option::None,
        }),
{
    match t {
        Option::None => Option::Some(0u8),
        Option::Some(v) => {
            let s = v.as_slice();
            if s.len() == 1 && s[0] == 65 {
                Option::Some(crate::dest::A)
            } else if s.len() == 1 && s[0] == 68 {
                Option::Some(crate::dest::D)
            } else if s.len() == 1 && s[0] == 77 {
                Option::Some(crate::dest::M)
            } else if s.len() == 2 && s[0] == 77 && s[1] == 68 {
                Option::Some(crate::dest::M | crate::dest::D)
            } else if s.len() == 2 && s[0] == 65 && s[1] == 77 {
                Option::Some(crate::dest::A | crate::dest::M)
            } else if s.len() == 2 && s[0] == 65 && s[1] == 68 {
                Option::Some(crate::dest::A | crate::dest::D)
            } else if s.len() == 3 && s[0] == 65 && s[1] == 77 && s[2] == 68 {
                Option::Some(crate::dest::A | crate::dest::M | crate::dest::D)
            } else {
                Option::None
            }
        },
    }
}

/// The jump tag a token names, if any; an absent token means no jump.
pub open spec fn jump_of_text(t: Option<Seq<u8>>) -> Option<Jump> {
    match t {
        Option::None => Option::Some(Jump::Null),
        Option::Some(s) => {
            if s.len() == 3 && s[0] == 74 && s[1] == 71 && s[2] == 84 {
                Option::Some(Jump::JGT)
            } else if s.len() == 3 && s[0] == 74 && s[1] == 69 && s[2] == 81 {
                Option::Some(Jump::JEQ)
            } else if s.len() == 3 && s[0] == 74 && s[1] == 71 && s[2] == 69 {
                Option::Some(Jump::JGE)
            } else if s.len() == 3 && s[0] == 74 && s[1] == 76 && s[2] == 84 {
                Option::Some(Jump::JLT)
            } else if s.len() == 3 && s[0] == 74 && s[1] == 78 && s[2] == 69 {
                Option::Some(Jump::JNE)
            } else if s.len() == 3 && s[0] == 74 && s[1] == 76 && s[2] == 69 {
                Option::Some(Jump::JLE)
            } else if s.len() == 3 && s[0] == 74 && s[1] == 77 && s[2] == 80 {
                Option::Some(Jump::JMP)
            } else {
                Option::None
            }
        },
    }
}

/// The jump tag a token names.
fn jump_of_bytes(t: &Option<Vec<u8>>) -> (r: Option<Jump>)
    ensures
        r == jump_of_text(match t {
            Option::Some(s) => Option::Some(s@),
            Option::None => Option::None,
        }),
{
    match t {
        Option::None => Option::Some(Jump::Null),
        Option::Some(v) => {
            let s = v.as_slice();
            if s.len() == 3 && s[0] == 74 && s[1] == 71 && s[2] == 84 {
                Option::Some(Jump::JGT)
            } else if s.len() == 3 && s[0] == 74 && s[1] == 69 && s[2] == 81 {
                Option::Some(Jump::JEQ)
            } else if s.len() == 3 && s[0] == 74 && s[1] == 71 && s[2] == 69 {
                Option::Some(Jump::JGE)
            } else if s.len() == 3 && s[0] == 74 && s[1] == 76 && s[2] == 84 {
                Option::Some(Jump::JLT)
            } else if s.len() == 3 && s[0] == 74 && s[1] == 78 && s[2] == 69 {
                Option::Some(Jump::JNE)
            } else if s.len() == 3 && s[0] == 74 && s[1] == 76 && s[2] == 69 {
                Option::Some(Jump::JLE)
            } else if s.len() == 3 && s[0] == 74 && s[1] == 77 && s[2] == 80 {
                Option::Some(Jump::JMP)
            } else {
                Option::None
            }
        },
    }
}

/// Copies a byte string into an owned vector.
fn to_owned_bytes(s: &[u8]) -> (r: Vec<u8>)
    ensures
        r@ == s@,
{
    let r = copy_range(s, 0, s.len());
    proof {
        assert(r@ =~= s@);
    }
    r
}

/// The specification-level view of a parse result.
pub open spec fn cmd_result_view(r: Result<Command, AsmError>) -> Result<CommandSpec, AsmErrorSpec> {
    match r {
        Result::Ok(c) => Result::Ok(c@),
        Result::Err(e) => Result::Err(e@),
    }
}

/// What one surviving line parses to.  A line starting with `@` is an
/// A-command, numeric or symbolic; a line with parentheses binds a label;
/// everything else is a computation split at the first `=` and `;`.
/// A numeric A-command must name a non-negative address, and a `;` before
/// the `=` leaves the line without a reading: both are rejected.
pub open spec fn line_to_command_spec(line: Seq<u8>) -> Result<CommandSpec, AsmErrorSpec> {
    if byte_index(line, 64) < line.len() {
        let i = byte_index(line, 64);
        if i != 0 {
            Result::Err(AsmErrorSpec::InvalidLine(line))
        } else {
            let a = line.skip(1);
            if a.len() == 0 {
                Result::Err(AsmErrorSpec::InvalidAInstruction(line))
            } else {
                match parse_i16_spec(a) {
                    Option::Some(n) => if n >= 0 {
                        Result::Ok(CommandSpec::AValue(n))
                    } else {
                        Result::Err(AsmErrorSpec::InvalidAInstruction(line))
                    },
                    Option::None => Result::Ok(CommandSpec::ASymbol(a)),
                }
            }
        }
    } else if byte_index(line, 40) < line.len() {
        let i = byte_index(line, 40);
        let j = byte_index(line, 41);
        if j == line.len() || i > j {
            Result::Err(AsmErrorSpec::InvalidLine(line))
        } else {
            let label = trim(line.subrange(i + 1, j));
            if label.len() == 0 {
                Result::Err(AsmErrorSpec::EmptyLabel)
            } else {
                Result::Ok(CommandSpec::Label(label))
            }
        }
    } else {
        let e = byte_index(line, 61);
        let sc = byte_index(line, 59);
        if e < line.len() && sc < e {
            Result::Err(AsmErrorSpec::InvalidLine(line))
        } else {
            let dest = if e < line.len() {
                Option::Some(trim(line.take(e)))
            } else {
                Option::None
            };
            let jump = if sc < line.len() {
                Option::Some(trim(line.skip(sc + 1)))
            } else {
                Option::None
            };
            let lo = if e < line.len() {
                e + 1
            } else {
                0
            };
            let hi = if sc < line.len() {
                sc
            } else {
                line.len() as int
            };
            let comp = trim(line.subrange(lo, hi));
            if comp.len() == 0 {
                Result::Err(AsmErrorSpec::EmptyComputation)
            } else {
                Result::Ok(CommandSpec::Computation { comp, dest, jump })
            }
        }
    }
}

/// Parses one surviving line.
pub fn line_to_command(line: &[u8]) -> (r: Result<Command, AsmError>)
    ensures
        cmd_result_view(r) == line_to_command_spec(line@),
{
    let n = line.len();
    let at = find_byte(line, 64);
    if at < n {
        if at != 0 {
            return Result::Err(AsmError::InvalidLine(to_owned_bytes(line)));
        }
        let a = copy_range(line, 1, n);
        proof {
            assert(a@ =~= line@.skip(1));
        }
        if a.len() == 0 {
            return Result::Err(AsmError::InvalidAInstruction(to_owned_bytes(line)));
        }
        match parse_i16(a.as_slice()) {
            Option::Some(v) => {
                if v >= 0 {
                    Result::Ok(Command::AValue(v))
                } else {
                    Result::Err(AsmError::InvalidAInstruction(to_owned_bytes(line)))
                }
            },
            Option::None => Result::Ok(Command::ASymbol(a)),
        }
    } else {
        let op = find_byte(line, 40);
        if op < n {
            let cl = find_byte(line, 41);
            proof {
                crate::text::lemma_byte_index(line@, 40);
                crate::text::lemma_byte_index(line@, 41);
            }
            if cl == n || op > cl {
                return Result::Err(AsmError::InvalidLine(to_owned_bytes(line)));
            }
            let inner = copy_range(line, op + 1, cl);
            let label = trim_of(inner.as_slice());
            if label.len() == 0 {
                Result::Err(AsmError::EmptyLabel)
            } else {
                Result::Ok(Command::Label(label))
            }
        } else {
            let e = find_byte(line, 61);
            let sc = find_byte(line, 59);
            proof {
                crate::text::lemma_byte_index(line@, 61);
                crate::text::lemma_byte_index(line@, 59);
            }
            if e < n && sc < e {
                return Result::Err(AsmError::InvalidLine(to_owned_bytes(line)));
            }
            let dest: Option<Vec<u8>> = if e < n {
                let d = copy_range(line, 0, e);
                proof {
                    assert(d@ =~= line@.take(e as int));
                }
                Option::Some(trim_of(d.as_slice()))
            } else {
                Option::None
            };
            let jump: Option<Vec<u8>> = if sc < n {
                let j = copy_range(line, sc + 1, n);
                proof {
                    assert(j@ =~= line@.skip(sc + 1));
                }
                Option::Some(trim_of(j.as_slice()))
            } else {
                Option::None
            };
            let lo = if e < n {
                e + 1
            } else {
                0
            };
            let hi = if sc < n {
                sc
            } else {
                n
            };
            let comp = trim_of(copy_range(line, lo, hi).as_slice());
            if comp.len() == 0 {
                Result::Err(AsmError::EmptyComputation)
            } else {
                Result::Ok(Command::Computation { comp, dest, jump })
            }
        }
    }
}

/// A symbol table binding names to addresses; insertion overwrites.
pub struct SymbolTable {
    entries: Vec<(Vec<u8>, i16)>,
}

/// The first binding of `name`, scanning from the front.
pub open spec fn assoc_get(entries: Seq<(Seq<u8>, i16)>, name: Seq<u8>) -> Option<i16>
    decreases entries.len(),
{
    if entries.len() == 0 {
        Option::None
    } else if entries[0].0 == name {
        Option::Some(entries[0].1)
    } else {
        assoc_get(entries.drop_first(), name)
    }
}

/// Rebinds `name` in place, or appends a new binding at the end.
pub open spec fn assoc_insert(entries: Seq<(Seq<u8>, i16)>, name: Seq<u8>, value: i16) -> Seq<
    (Seq<u8>, i16),
>
    decreases entries.len(),
{
    if entries.len() == 0 {
        seq![(name, value)]
    } else if entries[0].0 == name {
        seq![(name, value)] + entries.drop_first()
    } else {
        seq![entries[0]] + assoc_insert(entries.drop_first(), name, value)
    }
}

/// Lookup after insertion: the inserted name maps to the new value, all
/// other names are untouched.
pub proof fn lemma_assoc_insert_get(
    entries: Seq<(Seq<u8>, i16)>,
    name: Seq<u8>,
    value: i16,
    q: Seq<u8>,
)
    ensures
        assoc_get(assoc_insert(entries, name, value), q) == if q == name {
            Option::Some(value)
        } else {
            assoc_get(entries, q)
        },
    decreases entries.len(),
{
    let r = assoc_insert(entries, name, value);
    if entries.len() == 0 {
        assert(r[0] == (name, value));
        assert(r.drop_first() =~= Seq::<(Seq<u8>, i16)>::empty());
        assert(assoc_get(r.drop_first(), q) == Option::<i16>::None);
        assert(assoc_get(entries, q) == Option::<i16>::None);
        if q == name {
            assert(assoc_get(r, q) == Option::Some(value));
        } else {
            assert(r[0].0 != q);
            assert(assoc_get(r, q) == assoc_get(r.drop_first(), q));
        }
    } else if entries[0].0 == name {
        assert(r[0] == (name, value));
        assert(r.drop_first() =~= entries.drop_first());
    } else {
        lemma_assoc_insert_get(entries.drop_first(), name, value, q);
        assert(r[0] == entries[0]);
        assert(r.drop_first() =~= assoc_insert(entries.drop_first(), name, value));
    }
}

impl View for SymbolTable {
    type V = Seq<(Seq<u8>, i16)>;

    closed spec fn view(&self) -> Seq<(Seq<u8>, i16)> {
        Seq::new(self.entries@.len(), |i: int| (self.entries@[i].0@, self.entries@[i].1))
    }
}

impl SymbolTable {
    pub fn new() -> (r: Self)
        ensures
            r@ == Seq::<(Seq<u8>, i16)>::empty(),
    {
        let r = SymbolTable { entries: Vec::new() };
        proof {
            assert(r@ =~= Seq::<(Seq<u8>, i16)>::empty());
        }
        r
    }

    /// The address bound to `name`, if any.
    pub fn get(&self, name: &[u8]) -> (r: Option<i16>)
        ensures
            r == assoc_get(self@, name@),
    {
        let mut i: usize = 0;
        proof {
            assert(self@.skip(0) =~= self@);
        }
        while i < self.entries.len()
            invariant
                0 <= i <= self.entries@.len(),
                self@.len() == self.entries@.len(),
                forall|k: int|
                    0 <= k < self@.len() ==> #[trigger] self@[k] == (self.entries@[k].0@,
                    self.entries@[k].1),
                assoc_get(self@, name@) == assoc_get(self@.skip(i as int), name@),
            decreases self.entries@.len() - i,
        {
            proof {
                assert(self@.skip(i as int)[0] == self@[i as int]);
                assert(self@.skip(i as int).drop_first() =~= self@.skip(i + 1));
            }
            if bytes_eq(self.entries[i].0.as_slice(), name) {
                return Option::Some(self.entries[i].1);
            }
            i = i + 1;
        }
        proof {
            assert(self@.skip(self.entries@.len() as int) =~= Seq::<(Seq<u8>, i16)>::empty());
        }
        Option::None
    }

    /// Binds `name` to `value`, replacing any earlier binding.
    pub fn insert(&mut self, name: &[u8], value: i16)
        ensures
            final(self)@ == assoc_insert(old(self)@, name@, value),
    {
        let ghost orig = self@;
        let mut i: usize = 0;
        proof {
            assert(orig.skip(0) =~= orig);
        }
        while i < self.entries.len()
            invariant
                0 <= i <= self.entries@.len(),
                orig.len() == self.entries@.len(),
                orig == self@,
                orig == old(self)@,
                forall|k: int|
                    0 <= k < orig.len() ==> #[trigger] orig[k] == (self.entries@[k].0@,
                    self.entries@[k].1),
                forall|k: int| 0 <= k < i ==> orig[k].0 != name@,
            decreases self.entries@.len() - i,
        {
            if bytes_eq(self.entries[i].0.as_slice(), name) {
                let mut owned: Vec<u8> = copy_range(name, 0, name.len());
                proof {
                    assert(owned@ =~= name@);
                }
                let ghost entsbefore = self.entries@;
                let ghost ownedview = owned@;
                self.entries[i] = (owned, value);
                proof {
                    assert(self.entries@ == entsbefore.update(i as int, (self.entries@[i as int].0, value)));
                    assert(self.entries@[i as int].0@ == ownedview);
                    lemma_assoc_insert_at(orig, name@, value, i as int);
                    assert(self@ =~= orig.update(i as int, (name@, value)));
                }
                return ;
            }
            i = i + 1;
        }
        let mut owned: Vec<u8> = copy_range(name, 0, name.len());
        proof {
            assert(owned@ =~= name@);
        }
        self.entries.push((owned, value));
        proof {
            lemma_assoc_insert_missing(orig, name@, value);
            assert(self@ =~= orig.push((name@, value)));
        }
    }
}

/// When the first match is at `i`, insertion is an in-place update.
proof fn lemma_assoc_insert_at(entries: Seq<(Seq<u8>, i16)>, name: Seq<u8>, value: i16, i: int)
    requires
        0 <= i < entries.len(),
        entries[i].0 == name,
        forall|k: int| 0 <= k < i ==> entries[k].0 != name,
    ensures
        assoc_insert(entries, name, value) == entries.update(i, (name, value)),
    decreases entries.len(),
{
    if i == 0 {
        assert(assoc_insert(entries, name, value) =~= entries.update(0, (name, value)));
    } else {
        lemma_assoc_insert_at(entries.drop_first(), name, value, i - 1);
        assert(entries.drop_first()[i - 1] == entries[i]);
        assert(forall|k: int| 0 <= k < i - 1 ==> entries.drop_first()[k] == entries[k + 1]);
        assert(assoc_insert(entries, name, value) =~= entries.update(i, (name, value)));
    }
}

/// When no binding matches, insertion appends at the end.
proof fn lemma_assoc_insert_missing(entries: Seq<(Seq<u8>, i16)>, name: Seq<u8>, value: i16)
    requires
        forall|k: int| 0 <= k < entries.len() ==> entries[k].0 != name,
    ensures
        assoc_insert(entries, name, value) == entries.push((name, value)),
    decreases entries.len(),
{
    if entries.len() == 0 {
        assert(assoc_insert(entries, name, value) =~= entries.push((name, value)));
    } else {
        lemma_assoc_insert_missing(entries.drop_first(), name, value);
        assert(forall|k: int|
            0 <= k < entries.len() - 1 ==> entries.drop_first()[k] == entries[k + 1]);
        assert(assoc_insert(entries, name, value) =~= entries.push((name, value)));
    }
}

/// Copies a fixed byte pattern into an owned vector.
fn arr_vec<const N: usize>(pat: &[u8; N]) -> (r: Vec<u8>)
    ensures
        r@ == pat@,
{
    let mut r: Vec<u8> = Vec::new();
    let mut k: usize = 0;
    while k < N
        invariant
            0 <= k <= N,
            r@ == pat@.subrange(0, k as int),
        decreases N - k,
    {
        r.push(pat[k]);
        k = k + 1;
    }
    proof {
        assert(r@ =~= pat@);
    }
    r
}

/// The predefined symbols every assembly starts with: the five pointer
/// names, the two device bases, and the sixteen register aliases.
pub open spec fn init_table() -> Seq<(Seq<u8>, i16)> {
    seq![
        (seq![83u8, 80u8], 0),
        (seq![76u8, 67u8, 76u8], 1),
        (seq![65u8, 82u8, 71u8], 2),
        (seq![84u8, 72u8, 73u8, 83u8], 3),
        (seq![84u8, 72u8, 65u8, 84u8], 4),
        (seq![83u8, 67u8, 82u8, 69u8, 69u8, 78u8], 16384),
        (seq![75u8, 66u8, 68u8], 24576),
        (seq![82u8, 48u8], 0),
        (seq![82u8, 49u8], 1),
        (seq![82u8, 50u8], 2),
        (seq![82u8, 51u8], 3),
        (seq![82u8, 52u8], 4),
        (seq![82u8, 53u8], 5),
        (seq![82u8, 54u8], 6),
        (seq![82u8, 55u8], 7),
        (seq![82u8, 56u8], 8),
        (seq![82u8, 57u8], 9),
        (seq![82u8, 49u8, 48u8], 10),
        (seq![82u8, 49u8, 49u8], 11),
        (seq![82u8, 49u8, 50u8], 12),
        (seq![82u8, 49u8, 51u8], 13),
        (seq![82u8, 49u8, 52u8], 14),
        (seq![82u8, 49u8, 53u8], 15),
    ]
}

/// Builds the table of predefined symbols.
fn predefined_table() -> (t: SymbolTable)
    ensures
        t@ == init_table(),
{
    let mut entries: Vec<(Vec<u8>, i16)> = Vec::new();
    let e = arr_vec(&[83, 80]);
    proof {
        assert(e@ =~= seq![83u8, 80u8]);
    }
    entries.push((e, 0));
    let e = arr_vec(&[76, 67, 76]);
    proof {
        assert(e@ =~= seq![76u8, 67u8, 76u8]);
    }
    entries.push((e, 1));
    let e = arr_vec(&[65, 82, 71]);
    proof {
        assert(e@ =~= seq![65u8, 82u8, 71u8]);
    }
    entries.push((e, 2));
    let e = arr_vec(&[84, 72, 73, 83]);
    proof {
        assert(e@ =~= seq![84u8, 72u8, 73u8, 83u8]);
    }
    entries.push((e, 3));
    let e = arr_vec(&[84, 72, 65, 84]);
    proof {
        assert(e@ =~= seq![84u8, 72u8, 65u8, 84u8]);
    }
    entries.push((e, 4));
    let e = arr_vec(&[83, 67, 82, 69, 69, 78]);
    proof {
        assert(e@ =~= seq![83u8, 67u8, 82u8, 69u8, 69u8, 78u8]);
    }
    entries.push((e, 16384));
    let e = arr_vec(&[75, 66, 68]);
    proof {
        assert(e@ =~= seq![75u8, 66u8, 68u8]);
    }
    entries.push((e, 24576));
    let e = arr_vec(&[82, 48]);
    proof {
        assert(e@ =~= seq![82u8, 48u8]);
    }
    entries.push((e, 0));
    let e = arr_vec(&[82, 49]);
    proof {
        assert(e@ =~= seq![82u8, 49u8]);
    }
    entries.push((e, 1));
    let e = arr_vec(&[82, 50]);
    proof {
        assert(e@ =~= seq![82u8, 50u8]);
    }
    entries.push((e, 2));
    let e = arr_vec(&[82, 51]);
    proof {
        assert(e@ =~= seq![82u8, 51u8]);
    }
    entries.push((e, 3));
    let e = arr_vec(&[82, 52]);
    proof {
        assert(e@ =~= seq![82u8, 52u8]);
    }
    entries.push((e, 4));
    let e = arr_vec(&[82, 53]);
    proof {
        assert(e@ =~= seq![82u8, 53u8]);
    }
    entries.push((e, 5));
    let e = arr_vec(&[82, 54]);
    proof {
        assert(e@ =~= seq![82u8, 54u8]);
    }
    entries.push((e, 6));
    let e = arr_vec(&[82, 55]);
    proof {
        assert(e@ =~= seq![82u8, 55u8]);
    }
    entries.push((e, 7));
    let e = arr_vec(&[82, 56]);
    proof {
        assert(e@ =~= seq![82u8, 56u8]);
    }
    entries.push((e, 8));
    let e = arr_vec(&[82, 57]);
    proof {
        assert(e@ =~= seq![82u8, 57u8]);
    }
    entries.push((e, 9));
    let e = arr_vec(&[82, 49, 48]);
    proof {
        assert(e@ =~= seq![82u8, 49u8, 48u8]);
    }
    entries.push((e, 10));
    let e = arr_vec(&[82, 49, 49]);
    proof {
        assert(e@ =~= seq![82u8, 49u8, 49u8]);
    }
    entries.push((e, 11));
    let e = arr_vec(&[82, 49, 50]);
    proof {
        assert(e@ =~= seq![82u8, 49u8, 50u8]);
    }
    entries.push((e, 12));
    let e = arr_vec(&[82, 49, 51]);
    proof {
        assert(e@ =~= seq![82u8, 49u8, 51u8]);
    }
    entries.push((e, 13));
    let e = arr_vec(&[82, 49, 52]);
    proof {
        assert(e@ =~= seq![82u8, 49u8, 52u8]);
    }
    entries.push((e, 14));
    let e = arr_vec(&[82, 49, 53]);
    proof {
        assert(e@ =~= seq![82u8, 49u8, 53u8]);
    }
    entries.push((e, 15));
    let t = SymbolTable { entries };
    proof {
        assert(t@ =~= init_table());
    }
    t
}

/// The address counter after one command: it advances by one, wrapping
/// modulo 2^16 like the 16-bit registers it feeds.
pub open spec fn next_addr(n: i16) -> i16 {
    crate::given::as_signed16(n as int + 1) as i16
}

fn bump_addr(n: i16) -> (r: i16)
    ensures
        r == next_addr(n),
{
    proof {
        if n < 0x7FFF {
            crate::given::lemma_as_signed16_identity(n as int + 1);
        } else {
            vstd::arithmetic::div_mod::lemma_small_mod(0x8000, 0x10000);
        }
    }
    if n == 0x7FFF {
        -0x8000
    } else {
        n + 1
    }
}

/// The surviving lines: comments stripped, whitespace trimmed, empty
/// lines dropped.
pub open spec fn clean_lines_rec(lines: Seq<Seq<u8>>) -> Seq<Seq<u8>>
    decreases lines.len(),
{
    if lines.len() == 0 {
        Seq::empty()
    } else {
        let c = trim(strip_comment(lines[0]));
        (if c.len() > 0 {
            seq![c]
        } else {
            Seq::empty()
        }) + clean_lines_rec(lines.drop_first())
    }
}

/// All surviving lines parsed in order; the first failing line decides
/// the error.
pub open spec fn parse_commands(lines: Seq<Seq<u8>>) -> Result<Seq<CommandSpec>, AsmErrorSpec>
    decreases lines.len(),
{
    if lines.len() == 0 {
        Result::Ok(Seq::empty())
    } else {
        match line_to_command_spec(lines[0]) {
            Result::Err(e) => Result::Err(e),
            Result::Ok(c) => match parse_commands(lines.drop_first()) {
                Result::Err(e) => Result::Err(e),
                Result::Ok(cs) => Result::Ok(seq![c] + cs),
            },
        }
    }
}

/// The first pass: labels bind to the ROM address of the next real
/// command; every non-label command advances the ROM counter.
pub open spec fn pass1(cmds: Seq<CommandSpec>, table: Seq<(Seq<u8>, i16)>, rom: i16) -> Seq<
    (Seq<u8>, i16),
>
    decreases cmds.len(),
{
    if cmds.len() == 0 {
        table
    } else {
        match cmds[0] {
            CommandSpec::Label(l) => pass1(cmds.drop_first(), assoc_insert(table, l, rom), rom),
            _ => pass1(cmds.drop_first(), table, next_addr(rom)),
        }
    }
}

/// The second pass: numeric A-commands emit their address, symbolic ones
/// look the symbol up or allocate it at the next free RAM address, and
/// computations emit their encoded word.  Labels emit nothing.
pub open spec fn pass2(cmds: Seq<CommandSpec>, table: Seq<(Seq<u8>, i16)>, ram: i16) -> Result<
    Seq<i16>,
    AsmErrorSpec,
>
    decreases cmds.len(),
{
    if cmds.len() == 0 {
        Result::Ok(Seq::empty())
    } else {
        match cmds[0] {
            CommandSpec::Label(_) => pass2(cmds.drop_first(), table, ram),
            CommandSpec::AValue(a) => match pass2(cmds.drop_first(), table, ram) {
                Result::Ok(t) => Result::Ok(seq![a] + t),
                Result::Err(e) => Result::Err(e),
            },
            CommandSpec::ASymbol(sym) => match assoc_get(table, sym) {
                Option::Some(addr) => match pass2(cmds.drop_first(), table, ram) {
                    Result::Ok(t) => Result::Ok(seq![addr] + t),
                    Result::Err(e) => Result::Err(e),
                },
                Option::None => match pass2(
                    cmds.drop_first(),
                    assoc_insert(table, sym, ram),
                    next_addr(ram),
                ) {
                    Result::Ok(t) => Result::Ok(seq![ram] + t),
                    Result::Err(e) => Result::Err(e),
                },
            },
            CommandSpec::Computation { comp, dest, jump } => match comp_of_text(comp) {
                Option::None => Result::Err(AsmErrorSpec::InvalidComputation(comp)),
                Option::Some(c) => match dest_of_text(dest) {
                    Option::None => Result::Err(
                        AsmErrorSpec::InvalidDestination(
                            match dest {
                                Option::Some(t) => t,
                                Option::None => Seq::empty(),
                            },
                        ),
                    ),
                    Option::Some(d) => match jump_of_text(jump) {
                        Option::None => Result::Err(
                            AsmErrorSpec::InvalidJump(
                                match jump {
                                    Option::Some(t) => t,
                                    Option::None => Seq::empty(),
                                },
                            ),
                        ),
                        Option::Some(jm) => match pass2(cmds.drop_first(), table, ram) {
                            Result::Ok(t) => Result::Ok(
                                seq![
                                    (encode_spec(Instruction::CInstruction(c, d, jm)) as i16)
                                ] + t,
                            ),
                            Result::Err(e) => Result::Err(e),
                        },
                    },
                },
            },
        }
    }
}

/// What the assembler produces for a whole source text.
pub open spec fn assemble_spec(src: Seq<u8>) -> Result<Seq<i16>, AsmErrorSpec> {
    match parse_commands(clean_lines_rec(split_lines(src))) {
        Result::Err(e) => Result::Err(e),
        Result::Ok(cmds) => pass2(cmds, pass1(cmds, init_table(), 0), 16),
    }
}

/// The values of the combined destination masks.
proof fn lemma_dest_or_values()
    ensures
        crate::dest::M | crate::dest::D == 3,
        crate::dest::A | crate::dest::M == 5,
        crate::dest::A | crate::dest::D == 6,
        crate::dest::A | crate::dest::M | crate::dest::D == 7,
{
    assert(1u8 | 2u8 == 3u8) by (bit_vector);
    assert(4u8 | 1u8 == 5u8) by (bit_vector);
    assert(4u8 | 2u8 == 6u8) by (bit_vector);
    assert(5u8 | 2u8 == 7u8) by (bit_vector);
}

/// The specification-level view of the assembler's result.
pub open spec fn words_result_view(r: Result<Vec<i16>, AsmError>) -> Result<Seq<i16>, AsmErrorSpec> {
    match r {
        Result::Ok(v) => Result::Ok(v@),
        Result::Err(e) => Result::Err(e@),
    }
}

/// Translates an assembly program into machine words, or reports the
/// first error.
pub fn assemble(program: &str) -> (r: Result<Vec<i16>, AsmError>)
    ensures
        words_result_view(r) == assemble_spec(program.spec_bytes()),
{
    let bytes = program.as_bytes();
    let raw = lines_of(bytes);
    let ghost rawv = raw.deep_view();

    // strip comments, trim, and drop empty lines
    let mut cleaned: Vec<Vec<u8>> = Vec::new();
    let n_raw = raw.len();
    proof {
        assert(rawv.skip(0) =~= rawv);
        assert(cleaned.deep_view() =~~= Seq::<Seq<u8>>::empty());
        assert(clean_lines_rec(rawv) == cleaned.deep_view() + clean_lines_rec(rawv.skip(0)));
    }
    for li in 0..n_raw
        invariant
            n_raw == raw@.len(),
            rawv == raw.deep_view(),
            clean_lines_rec(rawv) == cleaned.deep_view() + clean_lines_rec(rawv.skip(li as int)),
        decreases n_raw - li,
    {
        let stripped = strip_comment_of(raw[li].as_slice());
        let c = trim_of(stripped.as_slice());
        let ghost cdv = cleaned.deep_view();
        let ghost cv = c@;
        proof {
            assert(rawv.skip(li as int)[0] == rawv[li as int]);
            assert(rawv[li as int] == raw@[li as int]@);
            assert(rawv.skip(li as int).drop_first() =~= rawv.skip(li + 1));
        }
        if c.len() > 0 {
            cleaned.push(c);
            proof {
                assert(cleaned.deep_view() =~~= cdv + seq![cv]);
                assert(cdv + seq![cv] + clean_lines_rec(rawv.skip(li + 1)) =~= cdv + (seq![cv]
                    + clean_lines_rec(rawv.skip(li + 1))));
            }
        } else {
            proof {
                assert(cdv + clean_lines_rec(rawv.skip(li + 1)) =~= cdv + (Seq::<Seq<u8>>::empty()
                    + clean_lines_rec(rawv.skip(li + 1))));
            }
        }
    }
    proof {
        assert(rawv.skip(rawv.len() as int) =~= Seq::<Seq<u8>>::empty());
        assert(cleaned.deep_view() + clean_lines_rec(Seq::<Seq<u8>>::empty())
            =~= cleaned.deep_view());
    }
    let ghost cl = cleaned.deep_view();

    // parse every surviving line
    let mut cmds: Vec<Command> = Vec::new();
    let ghost mut gcmds: Seq<CommandSpec> = Seq::empty();
    let n_clean = cleaned.len();
    proof {
        assert(cl.skip(0) =~= cl);
    }
    for i in 0..n_clean
        invariant
            n_clean == cleaned@.len(),
            cl == cleaned.deep_view(),
            cl == clean_lines_rec(split_lines(program.spec_bytes())),
            cmds@.len() == gcmds.len(),
            forall|k: int| 0 <= k < gcmds.len() ==> #[trigger] cmds@[k]@ == gcmds[k],
            parse_commands(cl) == match parse_commands(cl.skip(i as int)) {
                Result::Ok(rest) => Result::<Seq<CommandSpec>, AsmErrorSpec>::Ok(gcmds + rest),
                Result::Err(e) => Result::<Seq<CommandSpec>, AsmErrorSpec>::Err(e),
            },
        decreases n_clean - i,
    {
        proof {
            assert(cl.skip(i as int)[0] == cl[i as int]);
            assert(cl[i as int] == cleaned@[i as int]@);
            assert(cl.skip(i as int).drop_first() =~= cl.skip(i + 1));
        }
        match line_to_command(cleaned[i].as_slice()) {
            Result::Err(e) => {
                proof {
                    assert(parse_commands(cl) == Result::<Seq<CommandSpec>, AsmErrorSpec>::Err(
                        e@,
                    ));
                    assert(assemble_spec(program.spec_bytes())
                        == Result::<Seq<i16>, AsmErrorSpec>::Err(e@));
                }
                return Result::Err(e);
            },
            Result::Ok(c) => {
                let ghost cv = c@;
                cmds.push(c);
                proof {
                    let gold = gcmds;
                    gcmds = gcmds.push(cv);
                    assert(forall|k: int|
                        0 <= k < gcmds.len() ==> #[trigger] cmds@[k]@ == gcmds[k]);
                    match parse_commands(cl.skip(i + 1)) {
                        Result::Ok(rest) => {
                            assert(gcmds + rest =~= gold + (seq![cv] + rest));
                        },
                        Result::Err(e) => {},
                    }
                }
            },
        }
    }
    proof {
        assert(cl.skip(cl.len() as int) =~= Seq::<Seq<u8>>::empty());
        assert(gcmds + Seq::<CommandSpec>::empty() =~= gcmds);
        assert(parse_commands(cl) == Result::<Seq<CommandSpec>, AsmErrorSpec>::Ok(gcmds));
    }

    // first pass: bind labels
    let mut table = predefined_table();
    let mut rom: i16 = 0;
    let n_cmds = cmds.len();
    proof {
        assert(gcmds.skip(0) =~= gcmds);
    }
    for i in 0..n_cmds
        invariant
            n_cmds == cmds@.len(),
            cmds@.len() == gcmds.len(),
            forall|k: int| 0 <= k < gcmds.len() ==> #[trigger] cmds@[k]@ == gcmds[k],
            pass1(gcmds, init_table(), 0) == pass1(gcmds.skip(i as int), table@, rom),
        decreases n_cmds - i,
    {
        proof {
            assert(gcmds.skip(i as int)[0] == gcmds[i as int]);
            assert(gcmds[i as int] == cmds@[i as int]@);
            assert(gcmds.skip(i as int).drop_first() =~= gcmds.skip(i + 1));
        }
        match &cmds[i] {
            Command::Label(l) => {
                table.insert(l.as_slice(), rom);
            },
            _ => {
                rom = bump_addr(rom);
            },
        }
    }
    proof {
        assert(gcmds.skip(gcmds.len() as int) =~= Seq::<CommandSpec>::empty());
    }
    let ghost t1 = table@;

    // second pass: emit
    let mut out: Vec<i16> = Vec::new();
    let mut ram: i16 = 16;
    proof {
        assert(gcmds.skip(0) =~= gcmds);
        assert(out@ + Seq::<i16>::empty() =~= out@);
    }
    for i in 0..n_cmds
        invariant
            n_cmds == cmds@.len(),
            cmds@.len() == gcmds.len(),
            forall|k: int| 0 <= k < gcmds.len() ==> #[trigger] cmds@[k]@ == gcmds[k],
            parse_commands(clean_lines_rec(split_lines(program.spec_bytes())))
                == Result::<Seq<CommandSpec>, AsmErrorSpec>::Ok(gcmds),
            t1 == pass1(gcmds, init_table(), 0),
            pass2(gcmds, t1, 16) == match pass2(gcmds.skip(i as int), table@, ram) {
                Result::Ok(rest) => Result::<Seq<i16>, AsmErrorSpec>::Ok(out@ + rest),
                Result::Err(e) => Result::<Seq<i16>, AsmErrorSpec>::Err(e),
            },
        decreases n_cmds - i,
    {
        proof {
            assert(gcmds.skip(i as int)[0] == gcmds[i as int]);
            assert(gcmds[i as int] == cmds@[i as int]@);
            assert(gcmds.skip(i as int).drop_first() =~= gcmds.skip(i + 1));
        }
        let ghost outbefore = out@;
        match &cmds[i] {
            Command::Label(_) => {},
            Command::AValue(a) => {
                let v = *a;
                out.push(v);
                proof {
                    match pass2(gcmds.skip(i + 1), table@, ram) {
                        Result::Ok(rest) => {
                            assert(out@ + rest =~= outbefore + (seq![v] + rest));
                        },
                        Result::Err(e) => {},
                    }
                }
            },
            Command::ASymbol(sym) => {
                match table.get(sym.as_slice()) {
                    Option::Some(addr) => {
                        out.push(addr);
                        proof {
                            match pass2(gcmds.skip(i + 1), table@, ram) {
                                Result::Ok(rest) => {
                                    assert(out@ + rest =~= outbefore + (seq![addr] + rest));
                                },
                                Result::Err(e) => {},
                            }
                        }
                    },
                    Option::None => {
                        out.push(ram);
                        table.insert(sym.as_slice(), ram);
                        let emitted = ram;
                        ram = bump_addr(ram);
                        proof {
                            match pass2(gcmds.skip(i + 1), table@, ram) {
                                Result::Ok(rest) => {
                                    assert(out@ + rest =~= outbefore + (seq![emitted] + rest));
                                },
                                Result::Err(e) => {},
                            }
                        }
                    },
                }
            },
            Command::Computation { comp, dest, jump } => {
                match comp_of_bytes(comp.as_slice()) {
                    Option::None => {
                        let tok = to_owned_bytes(comp.as_slice());
                        proof {
                            assert(pass2(gcmds, t1, 16)
                                == Result::<Seq<i16>, AsmErrorSpec>::Err(
                                AsmErrorSpec::InvalidComputation(tok@),
                            ));
                            assert(assemble_spec(program.spec_bytes())
                                == Result::<Seq<i16>, AsmErrorSpec>::Err(
                                AsmErrorSpec::InvalidComputation(tok@),
                            ));
                        }
                        return Result::Err(AsmError::InvalidComputation(tok));
                    },
                    Option::Some(c) => {
                        match dest_of_bytes(dest) {
                            Option::None => {
                                let tok = match dest {
                                    Option::Some(t) => to_owned_bytes(t.as_slice()),
                                    Option::None => Vec::new(),
                                };
                                proof {
                                    assert(tok@ =~= match cmds@[i as int]@ {
                                        CommandSpec::Computation { dest: dd, .. } => match dd {
                                            Option::Some(t) => t,
                                            Option::None => Seq::empty(),
                                        },
                                        _ => Seq::empty(),
                                    });
                                    assert(assemble_spec(program.spec_bytes())
                                        == Result::<Seq<i16>, AsmErrorSpec>::Err(
                                        AsmErrorSpec::InvalidDestination(tok@),
                                    ));
                                }
                                return Result::Err(AsmError::InvalidDestination(tok));
                            },
                            Option::Some(d) => {
                                match jump_of_bytes(jump) {
                                    Option::None => {
                                        let tok = match jump {
                                            Option::Some(t) => to_owned_bytes(t.as_slice()),
                                            Option::None => Vec::new(),
                                        };
                                        proof {
                                            assert(tok@ =~= match cmds@[i as int]@ {
                                                CommandSpec::Computation { jump: jj, .. } => match jj {
                                                    Option::Some(t) => t,
                                                    Option::None => Seq::empty(),
                                                },
                                                _ => Seq::empty(),
                                            });
                                            assert(assemble_spec(program.spec_bytes())
                                                == Result::<Seq<i16>, AsmErrorSpec>::Err(
                                                AsmErrorSpec::InvalidJump(tok@),
                                            ));
                                        }
                                        return Result::Err(AsmError::InvalidJump(tok));
                                    },
                                    Option::Some(jm) => {
                                        proof {
                                            lemma_dest_or_values();
                                            assert(d < 8);
                                        }
                                        let inst = Instruction::CInstruction(c, d, jm);
                                        let w = inst.encode();
                                        out.push(w);
                                        proof {
                                            match pass2(gcmds.skip(i + 1), table@, ram) {
                                                Result::Ok(rest) => {
                                                    assert(out@ + rest =~= outbefore + (seq![w]
                                                        + rest));
                                                },
                                                Result::Err(e) => {},
                                            }
                                        }
                                    },
                                }
                            },
                        }
                    },
                }
            },
        }
    }
    proof {
        assert(gcmds.skip(gcmds.len() as int) =~= Seq::<CommandSpec>::empty());
        assert(out@ + Seq::<i16>::empty() =~= out@);
        assert(pass2(gcmds, t1, 16) == Result::<Seq<i16>, AsmErrorSpec>::Ok(out@));
    }
    Result::Ok(out)
}

/// The address literal of a numeric A-command.
pub open spec fn a_value(c: CommandSpec) -> i16 {
    match c {
        CommandSpec::AValue(a) => a,
        _ => 0,
    }
}

/// Assembler idempotence on literals: a program holding only numeric
/// A-commands emits exactly those numbers, in order.
pub proof fn lemma_literal_program(cmds: Seq<CommandSpec>, table: Seq<(Seq<u8>, i16)>, ram: i16)
    requires
        forall|k: int| 0 <= k < cmds.len() ==> #[trigger] cmds[k] matches CommandSpec::AValue(_),
    ensures
        pass2(cmds, table, ram) == Result::<Seq<i16>, AsmErrorSpec>::Ok(
            Seq::new(cmds.len(), |k: int| a_value(cmds[k])),
        ),
    decreases cmds.len(),
{
    let target = Seq::new(cmds.len(), |k: int| a_value(cmds[k]));
    if cmds.len() == 0 {
        assert(target =~= Seq::<i16>::empty());
    } else {
        let rest = cmds.drop_first();
        assert(forall|k: int|
            0 <= k < rest.len() ==> #[trigger] rest[k] matches CommandSpec::AValue(_)) by {
            assert(forall|k: int| 0 <= k < rest.len() ==> rest[k] == cmds[k + 1]);
        }
        lemma_literal_program(rest, table, ram);
        assert(cmds[0] matches CommandSpec::AValue(_));
        match cmds[0] {
            CommandSpec::AValue(a) => {
                assert(target =~= seq![a] + Seq::new(rest.len(), |k: int| a_value(rest[k])));
            },
            _ => {},
        }
    }
}

/// How many commands of a program occupy a ROM slot: all but the labels.
pub open spec fn count_instructions(cmds: Seq<CommandSpec>) -> int
    decreases cmds.len(),
{
    if cmds.len() == 0 {
        0
    } else {
        (if cmds[0] matches CommandSpec::Label(_) {
            0int
        } else {
            1int
        }) + count_instructions(cmds.drop_first())
    }
}

/// The first pass never touches names that are not labels of the program.
proof fn lemma_pass1_untouched(
    cmds: Seq<CommandSpec>,
    table: Seq<(Seq<u8>, i16)>,
    rom: i16,
    l: Seq<u8>,
)
    requires
        forall|j: int| 0 <= j < cmds.len() ==> cmds[j] != CommandSpec::Label(l),
    ensures
        assoc_get(pass1(cmds, table, rom), l) == assoc_get(table, l),
    decreases cmds.len(),
{
    if cmds.len() > 0 {
        let rest = cmds.drop_first();
        assert(forall|j: int| 0 <= j < rest.len() ==> rest[j] == cmds[j + 1]);
        match cmds[0] {
            CommandSpec::Label(l2) => {
                assert(cmds[0] != CommandSpec::Label(l));
                assert(l2 != l);
                lemma_pass1_untouched(rest, assoc_insert(table, l2, rom), rom, l);
                lemma_assoc_insert_get(table, l2, rom, l);
            },
            _ => {
                lemma_pass1_untouched(rest, table, next_addr(rom), l);
            },
        }
    }
}

/// Label resolution: a label whose name is not bound again later resolves
/// to the ROM address counting the instructions before it.
pub proof fn lemma_label_resolution(
    cmds: Seq<CommandSpec>,
    table: Seq<(Seq<u8>, i16)>,
    rom: i16,
    k: int,
    l: Seq<u8>,
)
    requires
        0 <= k < cmds.len(),
        cmds[k] == CommandSpec::Label(l),
        forall|j: int| k < j < cmds.len() ==> cmds[j] != CommandSpec::Label(l),
        0 <= rom,
        rom + count_instructions(cmds) <= 0x7FFF,
    ensures
        assoc_get(pass1(cmds, table, rom), l) == Option::Some(
            (rom + count_instructions(cmds.take(k))) as i16,
        ),
    decreases cmds.len(),
{
    let rest = cmds.drop_first();
    assert(forall|j: int| 0 <= j < rest.len() ==> rest[j] == cmds[j + 1]);
    assert(count_instructions(cmds) >= 0) by {
        lemma_count_instructions_nonneg(cmds);
    }
    assert(count_instructions(rest) >= 0) by {
        lemma_count_instructions_nonneg(rest);
    }
    if k == 0 {
        assert(cmds.take(0) =~= Seq::<CommandSpec>::empty());
        match cmds[0] {
            CommandSpec::Label(l0) => {
                assert(l0 == l);
                lemma_pass1_untouched(rest, assoc_insert(table, l, rom), rom, l);
                lemma_assoc_insert_get(table, l, rom, l);
            },
            _ => {},
        }
    } else {
        assert(rest[k - 1] == cmds[k]);
        assert(cmds.take(k).drop_first() =~= rest.take(k - 1));
        match cmds[0] {
            CommandSpec::Label(l2) => {
                lemma_label_resolution(rest, assoc_insert(table, l2, rom), rom, k - 1, l);
            },
            _ => {
                crate::given::lemma_as_signed16_identity(rom as int + 1);
                lemma_label_resolution(rest, table, next_addr(rom), k - 1, l);
            },
        }
    }
}

/// Instruction counts are never negative.
proof fn lemma_count_instructions_nonneg(cmds: Seq<CommandSpec>)
    ensures
        count_instructions(cmds) >= 0,
    decreases cmds.len(),
{
    if cmds.len() > 0 {
        lemma_count_instructions_nonneg(cmds.drop_first());
    }
}

/// The symbols the second pass allocates: the A-symbols not yet bound,
/// in first-encounter order.
pub open spec fn fresh_symbols(cmds: Seq<CommandSpec>, table: Seq<(Seq<u8>, i16)>) -> Seq<Seq<u8>>
    decreases cmds.len(),
{
    if cmds.len() == 0 {
        Seq::empty()
    } else {
        match cmds[0] {
            CommandSpec::ASymbol(sym) => {
                if assoc_get(table, sym) is None {
                    seq![sym] + fresh_symbols(cmds.drop_first(), assoc_insert(table, sym, 0))
                } else {
                    fresh_symbols(cmds.drop_first(), table)
                }
            },
            _ => fresh_symbols(cmds.drop_first(), table),
        }
    }
}

/// The table as the second pass leaves it (emission and errors ignored).
pub open spec fn pass2_table(cmds: Seq<CommandSpec>, table: Seq<(Seq<u8>, i16)>, ram: i16) -> Seq<
    (Seq<u8>, i16),
>
    decreases cmds.len(),
{
    if cmds.len() == 0 {
        table
    } else {
        match cmds[0] {
            CommandSpec::ASymbol(sym) => {
                if assoc_get(table, sym) is None {
                    pass2_table(cmds.drop_first(), assoc_insert(table, sym, ram), next_addr(ram))
                } else {
                    pass2_table(cmds.drop_first(), table, ram)
                }
            },
            _ => pass2_table(cmds.drop_first(), table, ram),
        }
    }
}

/// A binding already present survives the second pass.
proof fn lemma_pass2_table_stable(
    cmds: Seq<CommandSpec>,
    table: Seq<(Seq<u8>, i16)>,
    ram: i16,
    q: Seq<u8>,
    v: i16,
)
    requires
        assoc_get(table, q) == Option::Some(v),
    ensures
        assoc_get(pass2_table(cmds, table, ram), q) == Option::Some(v),
    decreases cmds.len(),
{
    if cmds.len() > 0 {
        match cmds[0] {
            CommandSpec::ASymbol(sym) => {
                if assoc_get(table, sym) is None {
                    assert(sym != q);
                    lemma_assoc_insert_get(table, sym, ram, q);
                    lemma_pass2_table_stable(
                        cmds.drop_first(),
                        assoc_insert(table, sym, ram),
                        next_addr(ram),
                        q,
                        v,
                    );
                } else {
                    lemma_pass2_table_stable(cmds.drop_first(), table, ram, q, v);
                }
            },
            _ => {
                lemma_pass2_table_stable(cmds.drop_first(), table, ram, q, v);
            },
        }
    }
}

/// The freshness list does not depend on the addresses bound, only on
/// which names are bound.
proof fn lemma_fresh_symbols_same_names(
    cmds: Seq<CommandSpec>,
    t1: Seq<(Seq<u8>, i16)>,
    t2: Seq<(Seq<u8>, i16)>,
)
    requires
        forall|q: Seq<u8>| (assoc_get(t1, q) is None) == (#[trigger] (assoc_get(t2, q)) is None),
    ensures
        fresh_symbols(cmds, t1) == fresh_symbols(cmds, t2),
    decreases cmds.len(),
{
    if cmds.len() > 0 {
        match cmds[0] {
            CommandSpec::ASymbol(sym) => {
                if assoc_get(t1, sym) is None {
                    assert forall|q: Seq<u8>|
                        (assoc_get(assoc_insert(t1, sym, 0), q) is None) == (#[trigger] (assoc_get(
                        assoc_insert(t2, sym, 0), q)) is None) by {
                        lemma_assoc_insert_get(t1, sym, 0, q);
                        lemma_assoc_insert_get(t2, sym, 0, q);
                    }
                    lemma_fresh_symbols_same_names(
                        cmds.drop_first(),
                        assoc_insert(t1, sym, 0),
                        assoc_insert(t2, sym, 0),
                    );
                } else {
                    lemma_fresh_symbols_same_names(cmds.drop_first(), t1, t2);
                }
            },
            _ => {
                lemma_fresh_symbols_same_names(cmds.drop_first(), t1, t2);
            },
        }
    }
}

/// Variable allocation: the m-th symbol the second pass meets unbound is
/// allocated the m-th free RAM address, counting up from where the
/// allocator starts.
pub proof fn lemma_variable_allocation(
    cmds: Seq<CommandSpec>,
    table: Seq<(Seq<u8>, i16)>,
    ram: i16,
    m: int,
)
    requires
        0 <= m < fresh_symbols(cmds, table).len(),
        0 <= ram,
        ram + fresh_symbols(cmds, table).len() <= 0x7FFF,
    ensures
        assoc_get(pass2_table(cmds, table, ram), fresh_symbols(cmds, table)[m]) == Option::Some(
            (ram + m) as i16,
        ),
    decreases cmds.len(),
{
    if cmds.len() > 0 {
        let rest = cmds.drop_first();
        match cmds[0] {
            CommandSpec::ASymbol(sym) => {
                if assoc_get(table, sym) is None {
                    let t = assoc_insert(table, sym, ram);
                    assert forall|q: Seq<u8>|
                        (assoc_get(t, q) is None) == (#[trigger] (assoc_get(
                        assoc_insert(table, sym, 0), q)) is None) by {
                        lemma_assoc_insert_get(table, sym, ram, q);
                        lemma_assoc_insert_get(table, sym, 0, q);
                    }
                    lemma_fresh_symbols_same_names(rest, t, assoc_insert(table, sym, 0));
                    crate::given::lemma_as_signed16_identity(ram as int + 1);
                    if m == 0 {
                        lemma_assoc_insert_get(table, sym, ram, sym);
                        lemma_pass2_table_stable(rest, t, next_addr(ram), sym, ram);
                    } else {
                        lemma_variable_allocation(rest, t, next_addr(ram), m - 1);
                    }
                } else {
                    lemma_variable_allocation(rest, table, ram, m);
                }
            },
            _ => {
                lemma_variable_allocation(rest, table, ram, m);
            },
        }
    }
}

/// A prefix and its remainder hold the whole program's instructions
/// between them.
pub proof fn lemma_count_split(cmds: Seq<CommandSpec>, k: int)
    requires
        0 <= k <= cmds.len(),
    ensures
        count_instructions(cmds) == count_instructions(cmds.take(k)) + count_instructions(
            cmds.skip(k),
        ),
    decreases k,
{
    if k == 0 {
        assert(cmds.take(0) =~= Seq::<CommandSpec>::empty());
        assert(cmds.skip(0) =~= cmds);
    } else {
        let rest = cmds.drop_first();
        lemma_count_split(rest, k - 1);
        assert(cmds.take(k).drop_first() =~= rest.take(k - 1));
        assert(cmds.take(k)[0] == cmds[0]);
        assert(cmds.skip(k) =~= rest.skip(k - 1));
    }
}

/// A successful second pass emits exactly one word per non-label command.
pub proof fn lemma_pass2_len(
    cmds: Seq<CommandSpec>,
    table: Seq<(Seq<u8>, i16)>,
    ram: i16,
    out: Seq<i16>,
)
    requires
        pass2(cmds, table, ram) == Result::<Seq<i16>, AsmErrorSpec>::Ok(out),
    ensures
        out.len() == count_instructions(cmds),
    decreases cmds.len(),
{
    if cmds.len() > 0 {
        let rest = cmds.drop_first();
        match cmds[0] {
            CommandSpec::Label(_) => {
                lemma_pass2_len(rest, table, ram, out);
            },
            CommandSpec::AValue(a) => {
                match pass2(rest, table, ram) {
                    Result::Ok(t) => {
                        lemma_pass2_len(rest, table, ram, t);
                    },
                    Result::Err(_) => {},
                }
            },
            CommandSpec::ASymbol(sym) => {
                match assoc_get(table, sym) {
                    Option::Some(_) => {
                        match pass2(rest, table, ram) {
                            Result::Ok(t) => {
                                lemma_pass2_len(rest, table, ram, t);
                            },
                            Result::Err(_) => {},
                        }
                    },
                    Option::None => {
                        match pass2(rest, assoc_insert(table, sym, ram), next_addr(ram)) {
                            Result::Ok(t) => {
                                lemma_pass2_len(rest, assoc_insert(table, sym, ram), next_addr(ram), t);
                            },
                            Result::Err(_) => {},
                        }
                    },
                }
            },
            CommandSpec::Computation { comp, dest, jump } => {
                match pass2(rest, table, ram) {
                    Result::Ok(t) => {
                        lemma_pass2_len(rest, table, ram, t);
                    },
                    Result::Err(_) => {},
                }
            },
        }
    }
}

/// A symbol already bound in the table keeps its binding through the
/// second pass: every `@sym` command emits the bound address, at the
/// output position counting the instructions before it.
pub proof fn lemma_bound_symbol_emission(
    cmds: Seq<CommandSpec>,
    table: Seq<(Seq<u8>, i16)>,
    ram: i16,
    out: Seq<i16>,
    k: int,
    sym: Seq<u8>,
    addr: i16,
)
    requires
        assoc_get(table, sym) == Option::Some(addr),
        pass2(cmds, table, ram) == Result::<Seq<i16>, AsmErrorSpec>::Ok(out),
        0 <= k < cmds.len(),
        cmds[k] == CommandSpec::ASymbol(sym),
    ensures
        0 <= count_instructions(cmds.take(k)) < out.len(),
        out[count_instructions(cmds.take(k))] == addr,
    decreases cmds.len(),
{
    lemma_pass2_len(cmds, table, ram, out);
    lemma_count_instructions_nonneg(cmds.take(k));
    lemma_count_split(cmds, k);
    assert(cmds.skip(k)[0] == cmds[k]);
    lemma_count_instructions_nonneg(cmds.skip(k).drop_first());
    let rest = cmds.drop_first();
    if k == 0 {
        assert(cmds.take(0) =~= Seq::<CommandSpec>::empty());
        match pass2(rest, table, ram) {
            Result::Ok(t) => {
                assert(out == seq![addr] + t);
                assert(out[0] == addr);
            },
            Result::Err(_) => {},
        }
    } else {
        assert(rest[k - 1] == cmds[k]);
        assert(cmds.take(k).drop_first() =~= rest.take(k - 1));
        assert(cmds.take(k)[0] == cmds[0]);
        match cmds[0] {
            CommandSpec::Label(_) => {
                lemma_bound_symbol_emission(rest, table, ram, out, k - 1, sym, addr);
            },
            CommandSpec::AValue(a) => {
                match pass2(rest, table, ram) {
                    Result::Ok(t) => {
                        lemma_bound_symbol_emission(rest, table, ram, t, k - 1, sym, addr);
                        assert(out == seq![a] + t);
                    },
                    Result::Err(_) => {},
                }
            },
            CommandSpec::ASymbol(s2) => {
                match assoc_get(table, s2) {
                    Option::Some(a2) => {
                        match pass2(rest, table, ram) {
                            Result::Ok(t) => {
                                lemma_bound_symbol_emission(rest, table, ram, t, k - 1, sym, addr);
                                assert(out == seq![a2] + t);
                            },
                            Result::Err(_) => {},
                        }
                    },
                    Option::None => {
                        assert(s2 != sym);
                        lemma_assoc_insert_get(table, s2, ram, sym);
                        match pass2(rest, assoc_insert(table, s2, ram), next_addr(ram)) {
                            Result::Ok(t) => {
                                lemma_bound_symbol_emission(
                                    rest,
                                    assoc_insert(table, s2, ram),
                                    next_addr(ram),
                                    t,
                                    k - 1,
                                    sym,
                                    addr,
                                );
                                assert(out == seq![ram] + t);
                            },
                            Result::Err(_) => {},
                        }
                    },
                }
            },
            CommandSpec::Computation { comp, dest, jump } => {
                match (comp_of_text(comp), dest_of_text(dest), jump_of_text(jump)) {
                    (Option::Some(c), Option::Some(d), Option::Some(jm)) => {
                        match pass2(rest, table, ram) {
                            Result::Ok(t) => {
                                lemma_bound_symbol_emission(rest, table, ram, t, k - 1, sym, addr);
                                assert(out == seq![
                                    (encode_spec(Instruction::CInstruction(c, d, jm)) as i16)
                                ] + t);
                            },
                            Result::Err(_) => {},
                        }
                    },
                    _ => {},
                }
            },
        }
    }
}

/// Label resolution down to the emitted words: when a label is placed at
/// one command and used by an `@` command elsewhere, the word emitted for
/// the use is the ROM address of the instruction after the label, that
/// is, the count of non-label commands before it.
pub proof fn lemma_label_words(
    cmds: Seq<CommandSpec>,
    out: Seq<i16>,
    kl: int,
    ku: int,
    l: Seq<u8>,
)
    requires
        0 <= kl < cmds.len(),
        cmds[kl] == CommandSpec::Label(l),
        forall|j: int| kl < j < cmds.len() ==> cmds[j] != CommandSpec::Label(l),
        0 <= ku < cmds.len(),
        cmds[ku] == CommandSpec::ASymbol(l),
        count_instructions(cmds) <= 0x7FFF,
        pass2(cmds, pass1(cmds, init_table(), 0), 16) == Result::<Seq<i16>, AsmErrorSpec>::Ok(out),
    ensures
        0 <= count_instructions(cmds.take(ku)) < out.len(),
        out[count_instructions(cmds.take(ku))] == count_instructions(cmds.take(kl)) as i16,
{
    lemma_count_instructions_nonneg(cmds);
    lemma_count_instructions_nonneg(cmds.take(kl));
    lemma_count_instructions_nonneg(cmds.skip(kl));
    lemma_count_split(cmds, kl);
    lemma_label_resolution(cmds, init_table(), 0, kl, l);
    lemma_bound_symbol_emission(
        cmds,
        pass1(cmds, init_table(), 0),
        16,
        out,
        ku,
        l,
        count_instructions(cmds.take(kl)) as i16,
    );
}

/// A symbol the table already binds never appears in the freshness list.
proof fn lemma_fresh_unbound(cmds: Seq<CommandSpec>, table: Seq<(Seq<u8>, i16)>, sym: Seq<u8>)
    requires
        assoc_get(table, sym) is Some,
    ensures
        forall|m: int|
            0 <= m < fresh_symbols(cmds, table).len() ==> #[trigger] fresh_symbols(cmds, table)[m]
                != sym,
    decreases cmds.len(),
{
    if cmds.len() > 0 {
        let rest = cmds.drop_first();
        match cmds[0] {
            CommandSpec::ASymbol(s2) => {
                if assoc_get(table, s2) is None {
                    assert(s2 != sym);
                    lemma_assoc_insert_get(table, s2, 0, sym);
                    lemma_fresh_unbound(rest, assoc_insert(table, s2, 0), sym);
                    let tail = fresh_symbols(rest, assoc_insert(table, s2, 0));
                    assert(fresh_symbols(cmds, table) == seq![s2] + tail);
                    assert forall|m: int|
                        0 <= m < fresh_symbols(cmds, table).len() implies #[trigger] fresh_symbols(
                        cmds,
                        table,
                    )[m] != sym by {
                        if m == 0 {
                            assert(fresh_symbols(cmds, table)[0] == s2);
                        } else {
                            assert(fresh_symbols(cmds, table)[m] == tail[m - 1]);
                        }
                    }
                } else {
                    lemma_fresh_unbound(rest, table, sym);
                    assert(fresh_symbols(cmds, table) == fresh_symbols(rest, table));
                }
            },
            _ => {
                lemma_fresh_unbound(rest, table, sym);
                assert(fresh_symbols(cmds, table) == fresh_symbols(rest, table));
            },
        }
    }
}

/// Variable allocation down to the emitted words: every `@` command that
/// uses the m-th symbol the second pass meets unbound emits the m-th free
/// RAM address, counting up from where the allocator starts.  In
/// particular all occurrences of one such symbol emit the same address.
pub proof fn lemma_fresh_symbol_emission(
    cmds: Seq<CommandSpec>,
    table: Seq<(Seq<u8>, i16)>,
    ram: i16,
    out: Seq<i16>,
    k: int,
    sym: Seq<u8>,
    m: int,
)
    requires
        0 <= m < fresh_symbols(cmds, table).len(),
        fresh_symbols(cmds, table)[m] == sym,
        0 <= ram,
        ram + fresh_symbols(cmds, table).len() <= 0x7FFF,
        pass2(cmds, table, ram) == Result::<Seq<i16>, AsmErrorSpec>::Ok(out),
        0 <= k < cmds.len(),
        cmds[k] == CommandSpec::ASymbol(sym),
    ensures
        0 <= count_instructions(cmds.take(k)) < out.len(),
        out[count_instructions(cmds.take(k))] == (ram + m) as i16,
    decreases cmds.len(),
{
    lemma_pass2_len(cmds, table, ram, out);
    lemma_count_instructions_nonneg(cmds.take(k));
    lemma_count_split(cmds, k);
    assert(cmds.skip(k)[0] == cmds[k]);
    lemma_count_instructions_nonneg(cmds.skip(k).drop_first());
    let rest = cmds.drop_first();
    let fresh = fresh_symbols(cmds, table);
    if k > 0 {
        assert(rest[k - 1] == cmds[k]);
        assert(cmds.take(k).drop_first() =~= rest.take(k - 1));
        assert(cmds.take(k)[0] == cmds[0]);
    }
    match cmds[0] {
        CommandSpec::Label(_) => {
            assert(k > 0);
            lemma_fresh_symbol_emission(rest, table, ram, out, k - 1, sym, m);
        },
        CommandSpec::AValue(a) => {
            assert(k > 0);
            match pass2(rest, table, ram) {
                Result::Ok(t) => {
                    lemma_fresh_symbol_emission(rest, table, ram, t, k - 1, sym, m);
                    assert(out == seq![a] + t);
                },
                Result::Err(_) => {},
            }
        },
        CommandSpec::Computation { comp, dest, jump } => {
            assert(k > 0);
            match (comp_of_text(comp), dest_of_text(dest), jump_of_text(jump)) {
                (Option::Some(c), Option::Some(d), Option::Some(jm)) => {
                    match pass2(rest, table, ram) {
                        Result::Ok(t) => {
                            lemma_fresh_symbol_emission(rest, table, ram, t, k - 1, sym, m);
                            assert(out == seq![
                                (encode_spec(Instruction::CInstruction(c, d, jm)) as i16)
                            ] + t);
                        },
                        Result::Err(_) => {},
                    }
                },
                _ => {},
            }
        },
        CommandSpec::ASymbol(s2) => {
            match assoc_get(table, s2) {
                Option::Some(a2) => {
                    if s2 == sym {
                        lemma_fresh_unbound(cmds, table, sym);
                        assert(false);
                    }
                    assert(k > 0);
                    match pass2(rest, table, ram) {
                        Result::Ok(t) => {
                            lemma_fresh_symbol_emission(rest, table, ram, t, k - 1, sym, m);
                            assert(out == seq![a2] + t);
                        },
                        Result::Err(_) => {},
                    }
                },
                Option::None => {
                    let tail0 = fresh_symbols(rest, assoc_insert(table, s2, 0));
                    assert(fresh == seq![s2] + tail0);
                    assert(forall|i: int|
                        1 <= i < tail0.len() + 1 ==> (seq![s2] + tail0)[i] == tail0[i - 1]);
                    assert forall|q: Seq<u8>|
                        (assoc_get(assoc_insert(table, s2, ram), q) is None) == (#[trigger] (
                        assoc_get(assoc_insert(table, s2, 0), q)) is None) by {
                        lemma_assoc_insert_get(table, s2, ram, q);
                        lemma_assoc_insert_get(table, s2, 0, q);
                    }
                    lemma_fresh_symbols_same_names(
                        rest,
                        assoc_insert(table, s2, ram),
                        assoc_insert(table, s2, 0),
                    );
                    crate::given::lemma_as_signed16_identity(ram as int + 1);
                    if s2 == sym {
                        if m >= 1 {
                            lemma_assoc_insert_get(table, sym, 0, sym);
                            lemma_fresh_unbound(rest, assoc_insert(table, sym, 0), sym);
                            assert(tail0[m - 1] == sym);
                            assert(false);
                        }
                        assert(m == 0);
                        match pass2(rest, assoc_insert(table, sym, ram), next_addr(ram)) {
                            Result::Ok(t) => {
                                assert(out == seq![ram] + t);
                                if k == 0 {
                                    assert(cmds.take(0) =~= Seq::<CommandSpec>::empty());
                                    assert(out[0] == ram);
                                } else {
                                    lemma_assoc_insert_get(table, sym, ram, sym);
                                    lemma_bound_symbol_emission(
                                        rest,
                                        assoc_insert(table, sym, ram),
                                        next_addr(ram),
                                        t,
                                        k - 1,
                                        sym,
                                        ram,
                                    );
                                }
                            },
                            Result::Err(_) => {},
                        }
                    } else {
                        assert(k > 0);
                        assert(fresh[0] == s2);
                        assert(m >= 1);
                        assert(tail0[m - 1] == sym);
                        match pass2(rest, assoc_insert(table, s2, ram), next_addr(ram)) {
                            Result::Ok(t) => {
                                lemma_fresh_symbol_emission(
                                    rest,
                                    assoc_insert(table, s2, ram),
                                    next_addr(ram),
                                    t,
                                    k - 1,
                                    sym,
                                    m - 1,
                                );
                                assert(out == seq![ram] + t);
                                assert(next_addr(ram) == ram + 1);
                            },
                            Result::Err(_) => {},
                        }
                    }
                },
            }
        },
    }
}

/// Variable allocation for a whole assembly: with the label pass done and
/// the allocator starting at 16, the m-th symbol met unbound emits the
/// address 16 + m at every one of its `@` commands.
pub proof fn lemma_variable_words(
    cmds: Seq<CommandSpec>,
    out: Seq<i16>,
    k: int,
    sym: Seq<u8>,
    m: int,
)
    requires
        ({
            let t1 = pass1(cmds, init_table(), 0);
            &&& 0 <= m < fresh_symbols(cmds, t1).len()
            &&& fresh_symbols(cmds, t1)[m] == sym
            &&& 16 + fresh_symbols(cmds, t1).len() <= 0x7FFF
            &&& pass2(cmds, t1, 16) == Result::<Seq<i16>, AsmErrorSpec>::Ok(out)
        }),
        0 <= k < cmds.len(),
        cmds[k] == CommandSpec::ASymbol(sym),
    ensures
        0 <= count_instructions(cmds.take(k)) < out.len(),
        out[count_instructions(cmds.take(k))] == (16 + m) as i16,
{
    lemma_fresh_symbol_emission(cmds, pass1(cmds, init_table(), 0), 16, out, k, sym, m);
}

} // verus!
