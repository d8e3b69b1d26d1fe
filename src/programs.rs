use crate::instruction::{decode_spec, Instruction, Mode, Opcode};
use crate::pipeline::initial;
use crate::semantics::{one_step, run_spec, Status};
use vstd::prelude::*;

verus! {

/// Reads a value, stores whether it equals 8 (position mode), and outputs that.
pub open spec fn equals_eight_program() -> Seq<i64> {
    seq![3i64, 9, 8, 9, 10, 9, 4, 9, 99, -1i64, 8]
}

/// Reads a value, stores whether it is less than 8 (immediate mode), and outputs that.
pub open spec fn less_than_eight_program() -> Seq<i64> {
    seq![3i64, 3, 1107, -1i64, 8, 3, 4, 3, 99]
}

/// Reads a value and outputs 0 if it is zero, else 1, by jump-if-true (immediate mode).
pub open spec fn jump_if_true_program() -> Seq<i64> {
    seq![3i64, 3, 1105, -1i64, 9, 1101, 0, 0, 12, 4, 12, 99, 1]
}

/// Reads a value and outputs 0 if it is zero, else 1, by jump-if-false (position mode).
pub open spec fn jump_if_false_program() -> Seq<i64> {
    seq![3i64, 12, 6, 12, 15, 1, 13, 14, 13, 4, 13, 99, -1i64, 0, 1, 9]
}

/// The comparison program classifies every input: it outputs 1 exactly when the
/// input equals 8, and 0 for every other value, then halts.
pub proof fn lemma_equals_eight_classifies(x: i64)
    ensures
        run_spec(initial(equals_eight_program()), seq![x], 4).2 == Status::Halted,
        run_spec(initial(equals_eight_program()), seq![x], 4).0.output == seq![
            if x == 8 {
                1i64
            } else {
                0i64
            },
        ],
{
    let p = equals_eight_program();
    assert(decode_spec(3) == Ok::<Instruction, crate::fault::Fault>(Instruction { opcode: Opcode::Input, mode1: Mode::Position, mode2: Mode::Position }));
    assert(decode_spec(8) == Ok::<Instruction, crate::fault::Fault>(Instruction { opcode: Opcode::Equals, mode1: Mode::Position, mode2: Mode::Position }));
    assert(decode_spec(4) == Ok::<Instruction, crate::fault::Fault>(Instruction { opcode: Opcode::Output, mode1: Mode::Position, mode2: Mode::Position }));
    assert(decode_spec(99) == Ok::<Instruction, crate::fault::Fault>(Instruction { opcode: Opcode::Halt, mode1: Mode::Position, mode2: Mode::Position }));
    reveal_with_fuel(run_spec, 5);
    let s0 = initial(p);
    let (s1, i1, t1) = one_step(s0, seq![x]);
    assert(s1.memory == p.update(9, x));
    assert(s1.pc == 2);
    assert(i1 =~= Seq::<i64>::empty());
    let (s2, i2, t2) = one_step(s1, i1);
    assert(s2.memory == p.update(9, x).update(9, if x == 8 { 1i64 } else { 0i64 }));
    assert(s2.pc == 6);
    let (s3, i3, t3) = one_step(s2, i2);
    assert(s3.output =~= seq![if x == 8 { 1i64 } else { 0i64 }]);
    assert(s3.pc == 8);
    let (s4, i4, t4) = one_step(s3, i3);
    assert(t4 == Status::Halted);
}

/// The less-than program outputs 1 exactly when the input is below 8, and 0
/// otherwise, then halts.
pub proof fn lemma_less_than_eight_classifies(x: i64)
    ensures
        run_spec(initial(less_than_eight_program()), seq![x], 4).2 == Status::Halted,
        run_spec(initial(less_than_eight_program()), seq![x], 4).0.output == seq![
            if x < 8 {
                1i64
            } else {
                0i64
            },
        ],
{
    let p = less_than_eight_program();
    assert(decode_spec(3) == Ok::<Instruction, crate::fault::Fault>(Instruction { opcode: Opcode::Input, mode1: Mode::Position, mode2: Mode::Position }));
    assert(decode_spec(1107) == Ok::<Instruction, crate::fault::Fault>(Instruction { opcode: Opcode::LessThan, mode1: Mode::Immediate, mode2: Mode::Immediate }));
    assert(decode_spec(4) == Ok::<Instruction, crate::fault::Fault>(Instruction { opcode: Opcode::Output, mode1: Mode::Position, mode2: Mode::Position }));
    assert(decode_spec(99) == Ok::<Instruction, crate::fault::Fault>(Instruction { opcode: Opcode::Halt, mode1: Mode::Position, mode2: Mode::Position }));
    reveal_with_fuel(run_spec, 5);
    let s0 = initial(p);
    let (s1, i1, t1) = one_step(s0, seq![x]);
    assert(s1.memory == p.update(3, x));
    assert(i1 =~= Seq::<i64>::empty());
    let (s2, i2, t2) = one_step(s1, i1);
    assert(s2.memory == p.update(3, x).update(3, if x < 8 { 1i64 } else { 0i64 }));
    assert(s2.pc == 6);
    let (s3, i3, t3) = one_step(s2, i2);
    assert(s3.output =~= seq![if x < 8 { 1i64 } else { 0i64 }]);
    let (s4, i4, t4) = one_step(s3, i3);
    assert(t4 == Status::Halted);
}

/// The jump-if-true program outputs 0 exactly when the input is zero, else 1.
pub proof fn lemma_jump_if_true_tests_zero(x: i64)
    ensures
        run_spec(initial(jump_if_true_program()), seq![x], 5).2 == Status::Halted,
        run_spec(initial(jump_if_true_program()), seq![x], 5).0.output == seq![
            if x == 0 {
                0i64
            } else {
                1i64
            },
        ],
{
    let p = jump_if_true_program();
    assert(decode_spec(3) == Ok::<Instruction, crate::fault::Fault>(Instruction { opcode: Opcode::Input, mode1: Mode::Position, mode2: Mode::Position }));
    assert(decode_spec(1105) == Ok::<Instruction, crate::fault::Fault>(Instruction { opcode: Opcode::JumpIfTrue, mode1: Mode::Immediate, mode2: Mode::Immediate }));
    assert(decode_spec(1101) == Ok::<Instruction, crate::fault::Fault>(Instruction { opcode: Opcode::Add, mode1: Mode::Immediate, mode2: Mode::Immediate }));
    assert(decode_spec(4) == Ok::<Instruction, crate::fault::Fault>(Instruction { opcode: Opcode::Output, mode1: Mode::Position, mode2: Mode::Position }));
    assert(decode_spec(99) == Ok::<Instruction, crate::fault::Fault>(Instruction { opcode: Opcode::Halt, mode1: Mode::Position, mode2: Mode::Position }));
    reveal_with_fuel(run_spec, 6);
    let s0 = initial(p);
    let (s1, i1, t1) = one_step(s0, seq![x]);
    assert(s1.memory == p.update(3, x));
    assert(i1 =~= Seq::<i64>::empty());
    let (s2, i2, t2) = one_step(s1, i1);
    if x == 0 {
        assert(s2.pc == 5);
        let (s3, i3, t3) = one_step(s2, i2);
        assert(s3.memory == p.update(3, x).update(12, 0i64));
        assert(s3.pc == 9);
        let (s4, i4, t4) = one_step(s3, i3);
        assert(s4.output =~= seq![0i64]);
        let (s5, i5, t5) = one_step(s4, i4);
        assert(t5 == Status::Halted);
    } else {
        assert(s2.pc == 9);
        let (s3, i3, t3) = one_step(s2, i2);
        assert(s3.output =~= seq![1i64]);
        let (s4, i4, t4) = one_step(s3, i3);
        assert(t4 == Status::Halted);
    }
}

/// The jump-if-false program outputs 0 exactly when the input is zero, else 1.
pub proof fn lemma_jump_if_false_tests_zero(x: i64)
    ensures
        run_spec(initial(jump_if_false_program()), seq![x], 5).2 == Status::Halted,
        run_spec(initial(jump_if_false_program()), seq![x], 5).0.output == seq![
            if x == 0 {
                0i64
            } else {
                1i64
            },
        ],
{
    let p = jump_if_false_program();
    assert(decode_spec(3) == Ok::<Instruction, crate::fault::Fault>(Instruction { opcode: Opcode::Input, mode1: Mode::Position, mode2: Mode::Position }));
    assert(decode_spec(6) == Ok::<Instruction, crate::fault::Fault>(Instruction { opcode: Opcode::JumpIfFalse, mode1: Mode::Position, mode2: Mode::Position }));
    assert(decode_spec(1) == Ok::<Instruction, crate::fault::Fault>(Instruction { opcode: Opcode::Add, mode1: Mode::Position, mode2: Mode::Position }));
    assert(decode_spec(4) == Ok::<Instruction, crate::fault::Fault>(Instruction { opcode: Opcode::Output, mode1: Mode::Position, mode2: Mode::Position }));
    assert(decode_spec(99) == Ok::<Instruction, crate::fault::Fault>(Instruction { opcode: Opcode::Halt, mode1: Mode::Position, mode2: Mode::Position }));
    reveal_with_fuel(run_spec, 6);
    let s0 = initial(p);
    let (s1, i1, t1) = one_step(s0, seq![x]);
    assert(s1.memory == p.update(12, x));
    assert(i1 =~= Seq::<i64>::empty());
    let (s2, i2, t2) = one_step(s1, i1);
    if x == 0 {
        assert(s2.pc == 9);
        let (s3, i3, t3) = one_step(s2, i2);
        assert(s3.output =~= seq![0i64]);
        let (s4, i4, t4) = one_step(s3, i3);
        assert(t4 == Status::Halted);
    } else {
        assert(s2.pc == 5);
        let (s3, i3, t3) = one_step(s2, i2);
        assert(s3.memory == p.update(12, x).update(13, 1i64));
        assert(s3.pc == 9);
        let (s4, i4, t4) = one_step(s3, i3);
        assert(s4.output =~= seq![1i64]);
        let (s5, i5, t5) = one_step(s4, i4);
        assert(t5 == Status::Halted);
    }
}

} // verus!
