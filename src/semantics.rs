use crate::fault::Fault;
use crate::instruction::{decode_spec, Instruction, Mode, Opcode};
use vstd::prelude::*;

verus! {

/// What one executed instruction asks of the machine beyond its memory and counter.
#[derive(Clone, Copy, Debug, PartialEq, Eq, Structural)]
pub enum Effect {
    /// Nothing: go on with the next instruction.
    Continue,
    /// Append this value to the output.
    Emit(i64),
    /// Stop: the program has ended.
    Halt,
}

/// The state of a machine that execution changes.
pub struct Snapshot {
    pub memory: Seq<i64>,
    pub pc: int,
    pub output: Seq<i64>,
}

/// How a run of a bounded number of instructions ended.
pub enum Status {
    /// The budget of instructions was spent with the program still going.
    Running,
    Halted,
    /// An input instruction found no input value left.
    AwaitingInput,
    Faulted(Fault),
}

pub open spec fn read_cell(mem: Seq<i64>, addr: int) -> Result<i64, Fault> {
    if 0 <= addr < mem.len() {
        Ok(mem[addr])
    } else {
        Err(Fault::MemoryFault)
    }
}

pub open spec fn write_cell(mem: Seq<i64>, addr: int, v: i64) -> Result<Seq<i64>, Fault> {
    if 0 <= addr < mem.len() {
        Ok(mem.update(addr, v))
    } else {
        Err(Fault::MemoryFault)
    }
}

/// The instruction at `pc`.
pub open spec fn fetch(mem: Seq<i64>, pc: int) -> Result<Instruction, Fault> {
    match read_cell(mem, pc) {
        Ok(w) => decode_spec(w as int),
        Err(f) => Err(f),
    }
}

/// The value of parameter `k` of the instruction at `pc`, resolved through `mode`.
pub open spec fn operand(mem: Seq<i64>, pc: int, k: int, mode: Mode) -> Result<i64, Fault> {
    match read_cell(mem, pc + k) {
        Ok(x) => match mode {
            Mode::Immediate => Ok(x),
            Mode::Position => read_cell(mem, x as int),
        },
        Err(f) => Err(f),
    }
}

/// The value an arithmetic or comparison opcode computes, `None` when it overflows.
pub open spec fn combine(op: Opcode, x: i64, y: i64) -> Option<i64> {
    let v: int = match op {
        Opcode::Add => x + y,
        Opcode::Multiply => x * y,
        Opcode::LessThan => if x < y {
            1
        } else {
            0
        },
        _ => if x == y {
            1
        } else {
            0
        },
    };
    if i64::MIN <= v <= i64::MAX {
        Some(v as i64)
    } else {
        None
    }
}

/// Whether the instruction at `pc` is an input whose destination can be read,
/// that is, whether executing it takes a value from the input.
pub open spec fn needs_input(mem: Seq<i64>, pc: int) -> bool {
    &&& fetch(mem, pc) is Ok
    &&& fetch(mem, pc)->Ok_0.opcode == Opcode::Input
    &&& read_cell(mem, pc + 1) is Ok
}

/// One instruction: the new memory and counter and the effect, or the fault.
/// `input` is the value an input instruction stores.
pub open spec fn step_spec(mem: Seq<i64>, pc: int, input: i64) -> Result<
    (Seq<i64>, int, Effect),
    Fault,
> {
    match fetch(mem, pc) {
        Err(f) => Err(f),
        Ok(ins) => {
            let a = operand(mem, pc, 1, ins.mode1);
            let b = operand(mem, pc, 2, ins.mode2);
            match ins.opcode {
                Opcode::Halt => Ok((mem, pc, Effect::Halt)),
                Opcode::Input => match read_cell(mem, pc + 1) {
                    Ok(d) => match write_cell(mem, d as int, input) {
                        Ok(m) => Ok((m, pc + 2, Effect::Continue)),
                        Err(f) => Err(f),
                    },
                    Err(f) => Err(f),
                },
                Opcode::Output => match a {
                    Ok(x) => Ok((mem, pc + 2, Effect::Emit(x))),
                    Err(f) => Err(f),
                },
                Opcode::JumpIfTrue | Opcode::JumpIfFalse => match (a, b) {
                    (Ok(x), Ok(t)) => if (x != 0) == (ins.opcode == Opcode::JumpIfTrue) {
                        Ok((mem, t as int, Effect::Continue))
                    } else {
                        Ok((mem, pc + 3, Effect::Continue))
                    },
                    _ => Err(Fault::MemoryFault),
                },
                _ => match (a, b, read_cell(mem, pc + 3)) {
                    (Ok(x), Ok(y), Ok(d)) => match combine(ins.opcode, x, y) {
                        Some(v) => match write_cell(mem, d as int, v) {
                            Ok(m) => Ok((m, pc + 4, Effect::Continue)),
                            Err(f) => Err(f),
                        },
                        None => Err(Fault::Overflow),
                    },
                    _ => Err(Fault::MemoryFault),
                },
            }
        },
    }
}

/// One instruction on a snapshot, taking its input, if any, from the front of `inputs`.
/// Returns the new snapshot, the inputs left, and `Running` unless execution stopped.
/// A halt or a fault leaves the snapshot as it was.
pub open spec fn one_step(s: Snapshot, inputs: Seq<i64>) -> (Snapshot, Seq<i64>, Status) {
    let takes = needs_input(s.memory, s.pc);
    if takes && inputs.len() == 0 {
        (s, inputs, Status::AwaitingInput)
    } else {
        let v = if takes {
            inputs[0]
        } else {
            0
        };
        let rest = if takes {
            inputs.drop_first()
        } else {
            inputs
        };
        match step_spec(s.memory, s.pc, v) {
            Err(f) => (s, rest, Status::Faulted(f)),
            Ok((m, p, e)) => match e {
                Effect::Halt => (s, rest, Status::Halted),
                Effect::Emit(x) => (
                    Snapshot { memory: m, pc: p, output: s.output.push(x) },
                    rest,
                    Status::Running,
                ),
                Effect::Continue => (
                    Snapshot { memory: m, pc: p, output: s.output },
                    rest,
                    Status::Running,
                ),
            },
        }
    }
}

/// At most `n` instructions from `s`, fed from `inputs`: the snapshot reached,
/// the inputs not consumed, and how the run ended.
pub open spec fn run_spec(s: Snapshot, inputs: Seq<i64>, n: nat) -> (Snapshot, Seq<i64>, Status)
    decreases n,
{
    if n == 0 {
        (s, inputs, Status::Running)
    } else {
        let (s1, i1, st) = one_step(s, inputs);
        if st is Running {
            run_spec(s1, i1, (n - 1) as nat)
        } else {
            (s1, i1, st)
        }
    }
}

/// Running one more instruction is one step from where `n` instructions led.
pub proof fn lemma_run_one_more(s: Snapshot, inputs: Seq<i64>, n: nat)
    requires
        run_spec(s, inputs, n).2 is Running,
    ensures
        run_spec(s, inputs, n + 1) == one_step(run_spec(s, inputs, n).0, run_spec(s, inputs, n).1),
    decreases n,
{
    if n > 0 {
        let (s1, i1, st) = one_step(s, inputs);
        lemma_run_one_more(s1, i1, (n - 1) as nat);
    } else {
        reveal_with_fuel(run_spec, 2);
    }
}

/// Once a run has stopped, a larger budget changes nothing.
pub proof fn lemma_run_stopped(s: Snapshot, inputs: Seq<i64>, n: nat, m: nat)
    requires
        !(run_spec(s, inputs, n).2 is Running),
        n <= m,
    ensures
        run_spec(s, inputs, m) == run_spec(s, inputs, n),
    decreases n,
{
    if n > 0 {
        let (s1, i1, st) = one_step(s, inputs);
        if st is Running {
            lemma_run_stopped(s1, i1, (n - 1) as nat, (m - 1) as nat);
        }
    }
}

proof fn lemma_one_step_extra_inputs(s: Snapshot, inputs: Seq<i64>, extra: Seq<i64>)
    requires
        !(one_step(s, inputs).2 is AwaitingInput),
    ensures
        one_step(s, inputs + extra) == (
            one_step(s, inputs).0,
            one_step(s, inputs).1 + extra,
            one_step(s, inputs).2,
        ),
{
    if needs_input(s.memory, s.pc) {
        assert((inputs + extra)[0] == inputs[0]);
        assert((inputs + extra).drop_first() =~= inputs.drop_first() + extra);
    }
}

/// Inputs that a run did not wait for are left over, untouched, at its end.
pub proof fn lemma_run_extra_inputs(s: Snapshot, inputs: Seq<i64>, extra: Seq<i64>, n: nat)
    requires
        !(run_spec(s, inputs, n).2 is AwaitingInput),
    ensures
        run_spec(s, inputs + extra, n) == (
            run_spec(s, inputs, n).0,
            run_spec(s, inputs, n).1 + extra,
            run_spec(s, inputs, n).2,
        ),
    decreases n,
{
    if n == 0 {
    } else {
        let (s1, i1, st) = one_step(s, inputs);
        lemma_one_step_extra_inputs(s, inputs, extra);
        if st is Running {
            lemma_run_extra_inputs(s1, i1, extra, (n - 1) as nat);
        }
    }
}

} // verus!
