use intcode::fault::Fault;
use intcode::instruction::{Instruction, Mode, Opcode};

#[test]
fn decodes_opcode_and_modes() {
    let i = Instruction::decode(1002).unwrap();
    assert_eq!(i.opcode, Opcode::Multiply);
    assert_eq!(i.mode1, Mode::Position);
    assert_eq!(i.mode2, Mode::Immediate);
    let i = Instruction::decode(99).unwrap();
    assert_eq!(i.opcode, Opcode::Halt);
    let i = Instruction::decode(104).unwrap();
    assert_eq!(i.opcode, Opcode::Output);
    assert_eq!(i.mode1, Mode::Immediate);
    assert_eq!(i.mode2, Mode::Position);
}

#[test]
fn rejects_invalid_words() {
    assert_eq!(Instruction::decode(0), Err(Fault::InvalidOpcode));
    assert_eq!(Instruction::decode(9), Err(Fault::InvalidOpcode));
    assert_eq!(Instruction::decode(202), Err(Fault::InvalidOpcode));
    assert_eq!(Instruction::decode(10001), Err(Fault::InvalidOpcode));
    assert_eq!(Instruction::decode(-2), Err(Fault::InvalidOpcode));
}

#[test]
fn decode_then_encode_round_trips() {
    for word in 0..10000i64 {
        if let Ok(i) = Instruction::decode(word) {
            assert_eq!(i.encode(), word);
        }
    }
    assert_eq!(Instruction::decode(1107).unwrap().encode(), 1107);
}

#[test]
fn encode_then_decode_round_trips() {
    let i = Instruction { opcode: Opcode::JumpIfFalse, mode1: Mode::Immediate, mode2: Mode::Immediate };
    assert_eq!(i.encode(), 1106);
    assert_eq!(Instruction::decode(i.encode()), Ok(i));
}

#[test]
fn instruction_lengths() {
    assert_eq!(Opcode::Add.length(), 4);
    assert_eq!(Opcode::Input.length(), 2);
    assert_eq!(Opcode::JumpIfTrue.length(), 3);
    assert_eq!(Opcode::Halt.length(), 1);
}
