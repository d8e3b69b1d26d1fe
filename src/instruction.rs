use crate::fault::Fault;
use vstd::prelude::*;

verus! {

/// The operation selected by the two low decimal digits of an instruction word.
#[derive(Clone, Copy, Debug, PartialEq, Eq, Structural)]
pub enum Opcode {
    Add,
    Multiply,
    Input,
    Output,
    JumpIfTrue,
    JumpIfFalse,
    LessThan,
    Equals,
    Halt,
}

/// How a parameter is resolved: as an address to dereference, or as the value itself.
#[derive(Clone, Copy, Debug, PartialEq, Eq, Structural)]
pub enum Mode {
    Position,
    Immediate,
}

/// A decoded instruction word. Destination operands are always positional,
/// so only the first two parameters carry a mode.
#[derive(Clone, Copy, Debug, PartialEq, Eq, Structural)]
pub struct Instruction {
    pub opcode: Opcode,
    pub mode1: Mode,
    pub mode2: Mode,
}

/// The largest word that still decodes: two opcode digits and two mode digits.
pub const MAX_WORD: i64 = 9999;

pub open spec fn opcode_number(op: Opcode) -> int {
    match op {
        Opcode::Add => 1,
        Opcode::Multiply => 2,
        Opcode::Input => 3,
        Opcode::Output => 4,
        Opcode::JumpIfTrue => 5,
        Opcode::JumpIfFalse => 6,
        Opcode::LessThan => 7,
        Opcode::Equals => 8,
        Opcode::Halt => 99,
    }
}

pub open spec fn opcode_of_number(n: int) -> Option<Opcode> {
    if n == 1 {
        Some(Opcode::Add)
    } else if n == 2 {
        Some(Opcode::Multiply)
    } else if n == 3 {
        Some(Opcode::Input)
    } else if n == 4 {
        Some(Opcode::Output)
    } else if n == 5 {
        Some(Opcode::JumpIfTrue)
    } else if n == 6 {
        Some(Opcode::JumpIfFalse)
    } else if n == 7 {
        Some(Opcode::LessThan)
    } else if n == 8 {
        Some(Opcode::Equals)
    } else if n == 99 {
        Some(Opcode::Halt)
    } else {
        None
    }
}

pub open spec fn mode_digit(m: Mode) -> int {
    match m {
        Mode::Position => 0,
        Mode::Immediate => 1,
    }
}

pub open spec fn mode_of_digit(d: int) -> Option<Mode> {
    if d == 0 {
        Some(Mode::Position)
    } else if d == 1 {
        Some(Mode::Immediate)
    } else {
        None
    }
}

/// The instruction a word stands for: opcode in the two low digits, the mode of
/// parameter 1 in the hundreds digit, that of parameter 2 in the thousands digit.
/// Negative words and words of more than four digits are invalid.
pub open spec fn decode_spec(word: int) -> Result<Instruction, Fault> {
    if 0 <= word <= MAX_WORD {
        match (opcode_of_number(word % 100), mode_of_digit((word / 100) % 10), mode_of_digit(
            word / 1000,
        )) {
            (Some(op), Some(m1), Some(m2)) => Ok(Instruction { opcode: op, mode1: m1, mode2: m2 }),
            _ => Err(Fault::InvalidOpcode),
        }
    } else {
        Err(Fault::InvalidOpcode)
    }
}

pub open spec fn encode_spec(instr: Instruction) -> int {
    opcode_number(instr.opcode) + 100 * mode_digit(instr.mode1) + 1000 * mode_digit(instr.mode2)
}

/// Number of words an instruction occupies: the word itself and its parameters.
pub open spec fn length_spec(op: Opcode) -> int {
    match op {
        Opcode::Add | Opcode::Multiply | Opcode::LessThan | Opcode::Equals => 4,
        Opcode::Input | Opcode::Output => 2,
        Opcode::JumpIfTrue | Opcode::JumpIfFalse => 3,
        Opcode::Halt => 1,
    }
}

fn opcode_from(n: i64) -> (r: Option<Opcode>)
    ensures
        r == opcode_of_number(n as int),
{
    match n {
        1 => Some(Opcode::Add),
        2 => Some(Opcode::Multiply),
        3 => Some(Opcode::Input),
        4 => Some(Opcode::Output),
        5 => Some(Opcode::JumpIfTrue),
        6 => Some(Opcode::JumpIfFalse),
        7 => Some(Opcode::LessThan),
        8 => Some(Opcode::Equals),
        99 => Some(Opcode::Halt),
        _ => None,
    }
}

fn mode_from(d: i64) -> (r: Option<Mode>)
    ensures
        r == mode_of_digit(d as int),
{
    match d {
        0 => Some(Mode::Position),
        1 => Some(Mode::Immediate),
        _ => None,
    }
}

impl Opcode {
    /// The opcode's number in an instruction word.
    pub fn number(&self) -> (r: i64)
        ensures
            r == opcode_number(*self),
    {
        match self {
            Opcode::Add => 1,
            Opcode::Multiply => 2,
            Opcode::Input => 3,
            Opcode::Output => 4,
            Opcode::JumpIfTrue => 5,
            Opcode::JumpIfFalse => 6,
            Opcode::LessThan => 7,
            Opcode::Equals => 8,
            Opcode::Halt => 99,
        }
    }

    /// How far the program counter moves past an instruction that does not jump.
    pub fn length(&self) -> (r: i64)
        ensures
            r == length_spec(*self),
    {
        match self {
            Opcode::Add | Opcode::Multiply | Opcode::LessThan | Opcode::Equals => 4,
            Opcode::Input | Opcode::Output => 2,
            Opcode::JumpIfTrue | Opcode::JumpIfFalse => 3,
            Opcode::Halt => 1,
        }
    }
}

impl Mode {
    /// The mode's digit in an instruction word.
    pub fn digit(&self) -> (r: i64)
        ensures
            r == mode_digit(*self),
    {
        match self {
            Mode::Position => 0,
            Mode::Immediate => 1,
        }
    }
}

impl Instruction {
    /// Splits a word into opcode and parameter modes by division by powers of ten.
    pub fn decode(word: i64) -> (r: Result<Instruction, Fault>)
        ensures
            r == decode_spec(word as int),
    {
        if word < 0 || word > MAX_WORD {
            return Err(Fault::InvalidOpcode);
        }
        let op = opcode_from(word % 100);
        let m1 = mode_from((word / 100) % 10);
        let m2 = mode_from(word / 1000);
        match (op, m1, m2) {
            (Some(opcode), Some(mode1), Some(mode2)) => Ok(Instruction { opcode, mode1, mode2 }),
            _ => Err(Fault::InvalidOpcode),
        }
    }

    /// The word that decodes to this instruction.
    pub fn encode(&self) -> (r: i64)
        ensures
            r == encode_spec(*self),
    {
        self.opcode.number() + 100 * self.mode1.digit() + 1000 * self.mode2.digit()
    }
}

/// Decoding a word and encoding the result gives back the word, for every word that decodes.
pub proof fn lemma_decode_then_encode(word: int)
    requires
        decode_spec(word) is Ok,
    ensures
        encode_spec(decode_spec(word)->Ok_0) == word,
{
    let i = decode_spec(word)->Ok_0;
    assert(word == word % 100 + 100 * ((word / 100) % 10) + 1000 * (word / 1000)) by (nonlinear_arith)
        requires 0 <= word <= 9999;
}

/// Encoding an instruction and decoding the word gives back the instruction.
pub proof fn lemma_encode_then_decode(instr: Instruction)
    ensures
        0 <= encode_spec(instr) <= MAX_WORD,
        decode_spec(encode_spec(instr)) == Ok::<Instruction, Fault>(instr),
{
    let w = encode_spec(instr);
    let o = opcode_number(instr.opcode);
    let a = mode_digit(instr.mode1);
    let b = mode_digit(instr.mode2);
    assert(w % 100 == o && (w / 100) % 10 == a && w / 1000 == b) by (nonlinear_arith)
        requires w == o + 100 * a + 1000 * b, 1 <= o <= 99, 0 <= a <= 1, 0 <= b <= 1;
}

} // verus!
