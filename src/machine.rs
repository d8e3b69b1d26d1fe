use crate::channel::{bounded_channel, receive_value, send_value};
use crate::fault::Fault;
use crate::instruction::{Instruction, Mode, Opcode};
use crate::semantics::{
    fetch, lemma_run_extra_inputs, lemma_run_one_more, lemma_run_stopped, needs_input, one_step,
    operand, read_cell, run_spec, write_cell, Effect, Snapshot, Status,
};
use crate::text::{next_token_spec, token_value, TextCursor};
use std::collections::VecDeque;
use std::sync::mpsc::{Receiver, SyncSender};
use vstd::prelude::*;

verus! {

/// The largest memory a machine can have, in cells.
pub const MAX_CAPACITY: usize = 1073741824;

/// The factor by which an extended memory exceeds the program image.
pub const GROWTH_FACTOR: usize = 1024;

/// How many values a machine's output channel holds before a send waits.
pub const CHANNEL_CAPACITY: usize = 1024;

/// What an input source looks like to the contracts.
pub enum Source {
    /// A text buffer and the position of the next read.
    Text(Seq<char>, int),
    /// A channel fed by another machine.
    Receiver,
    /// A single value.
    Value(i64),
}

/// A source of input values for a machine.
#[derive(Debug)]
pub enum InputType {
    /// Whitespace-delimited integers in a text buffer.
    StringCursor(TextCursor),
    /// Values sent by another machine; a read blocks until one arrives.
    IntReceiver(Receiver<i64>),
    /// One value, read once.
    Value(i64),
}

impl InputType {
    pub open spec fn source(&self) -> Source {
        match self {
            InputType::StringCursor(c) => Source::Text(c.text(), c.position()),
            InputType::IntReceiver(_) => Source::Receiver,
            InputType::Value(v) => Source::Value(*v),
        }
    }

    pub open spec fn wf(&self) -> bool {
        match self {
            InputType::StringCursor(c) => c.wf(),
            _ => true,
        }
    }
}

/// A text source with no token left.
pub open spec fn text_exhausted(src: Source) -> bool {
    match src {
        Source::Text(t, p) => next_token_spec(t, p) is None,
        _ => false,
    }
}

/// The queue once the exhausted text sources at its front are dropped.
pub open spec fn live_sources(q: Seq<Source>) -> Seq<Source>
    decreases q.len(),
{
    if q.len() > 0 && text_exhausted(q[0]) {
        live_sources(q.drop_first())
    } else {
        q
    }
}

/// One read from the queue `q` gives `r` and leaves `q2`. The front source is
/// read; exhausted text sources are dropped first; a closed channel is dropped
/// with a fault; a channel that gives a value stays for later reads.
pub open spec fn read_input(q: Seq<Source>, r: Result<i64, Fault>, q2: Seq<Source>) -> bool {
    let live = live_sources(q);
    if live.len() == 0 {
        r == Err::<i64, Fault>(Fault::InputExhausted) && q2 == live
    } else {
        match live[0] {
            Source::Text(t, p) => {
                let b = next_token_spec(t, p)->Some_0.1;
                let a = next_token_spec(t, p)->Some_0.0;
                r == token_value(t.subrange(a, b)) && q2 == live.update(0, Source::Text(t, b))
            },
            Source::Value(v) => r == Ok::<i64, Fault>(v) && q2 == live.drop_first(),
            Source::Receiver => (r is Ok && q2 == live) || (r == Err::<i64, Fault>(
                Fault::ChannelClosed,
            ) && q2 == live.drop_first()),
        }
    }
}

/// Whether `after` is `before` with values appended.
pub open spec fn extends(before: Seq<i64>, after: Seq<i64>) -> bool {
    before.len() <= after.len() && after.subrange(0, before.len() as int) == before
}

/// The values appended to `before` to give `after`.
pub open spec fn inputs_since(before: Seq<i64>, after: Seq<i64>) -> Seq<i64> {
    after.subrange(before.len() as int, after.len() as int)
}

/// Whether every queued source is a single value.
pub open spec fn all_values(q: Seq<Source>) -> bool {
    forall|i: int| 0 <= i < q.len() ==> #[trigger] q[i] is Value
}

/// The values of a queue of single values, front first.
pub open spec fn queued_values(q: Seq<Source>) -> Seq<i64>
    decreases q.len(),
{
    if q.len() == 0 {
        Seq::empty()
    } else {
        seq![q[0]->Value_0] + queued_values(q.drop_first())
    }
}

/// A queue of single values stays one, and a read moves its front value to the
/// values received: nothing is lost, added or reordered.
pub open spec fn keeps_value_queue(
    received1: Seq<i64>,
    q1: Seq<Source>,
    received2: Seq<i64>,
    q2: Seq<Source>,
) -> bool {
    all_values(q1) ==> all_values(q2) && received1 + queued_values(q1) == received2
        + queued_values(q2)
}

proof fn lemma_read_values(q: Seq<Source>, r: Result<i64, Fault>, q2: Seq<Source>, rec: Seq<i64>)
    requires
        all_values(q),
        read_input(q, r, q2),
    ensures
        keeps_value_queue(
            rec,
            q,
            match r {
                Ok(v) => rec.push(v),
                Err(_) => rec,
            },
            q2,
        ),
{
    if q.len() > 0 {
        assert(q[0] is Value);
        let v = q[0]->Value_0;
        assert(rec.push(v) + queued_values(q.drop_first()) =~= rec + queued_values(q));
        assert(all_values(q2)) by {
            assert forall|i: int| 0 <= i < q2.len() implies #[trigger] q2[i] is Value by {
                assert(q2[i] == q[i + 1]);
            }
        }
    }
}

/// Why a bounded run stopped without a fault.
#[derive(Clone, Copy, Debug, PartialEq, Eq, Structural)]
pub enum Stop {
    /// The program executed its halt instruction.
    Halted,
    /// An input instruction found every source exhausted; the machine can go on
    /// once more input is queued.
    NeedsInput,
    /// The budget of instructions was spent.
    OutOfSteps,
}

/// One interpreter instance: memory, program counter, input queue and output.
pub struct Machine {
    memory: Vec<i64>,
    program_counter: i64,
    input: VecDeque<InputType>,
    output_tx: Option<SyncSender<i64>>,
    output: Vec<i64>,
    received: Ghost<Seq<i64>>,
}

impl Machine {
    /// Memory, program counter and recorded output.
    pub closed spec fn snapshot(&self) -> Snapshot {
        Snapshot {
            memory: self.memory@,
            pc: self.program_counter as int,
            output: self.output@,
        }
    }

    /// The input queue, front first.
    pub closed spec fn sources(&self) -> Seq<Source> {
        self.input@.map_values(|s: InputType| s.source())
    }

    /// Every value input instructions have read so far, in order.
    pub closed spec fn received(&self) -> Seq<i64> {
        self.received@
    }

    /// Whether produced values are still forwarded to the output channel.
    pub closed spec fn is_connected(&self) -> bool {
        self.output_tx is Some
    }

    pub closed spec fn wf(&self) -> bool {
        &&& self.memory.len() <= MAX_CAPACITY
        &&& forall|i: int| 0 <= i < self.input@.len() ==> (#[trigger] self.input@[i]).wf()
    }

    /// A machine whose memory is the program image, with an empty input queue,
    /// and the receiving end of its output channel.
    pub fn new(memory: Vec<i64>) -> (r: (Receiver<i64>, Self))
        requires
            memory.len() <= MAX_CAPACITY,
        ensures
            r.1.wf(),
            r.1.snapshot() == (Snapshot { memory: memory@, pc: 0, output: Seq::empty() }),
            r.1.sources() == Seq::<Source>::empty(),
            r.1.received() == Seq::<i64>::empty(),
            r.1.is_connected(),
    {
        let (tx, rx) = bounded_channel(CHANNEL_CAPACITY);
        let m = Machine {
            memory,
            program_counter: 0,
            input: VecDeque::new(),
            output_tx: Some(tx),
            output: Vec::new(),
            received: Ghost(Seq::empty()),
        };
        assert(m.sources() =~= Seq::<Source>::empty());
        (rx, m)
    }

    /// Like `new`, with memory pre-allocated to `GROWTH_FACTOR` times the image,
    /// at most `MAX_CAPACITY` cells; the cells past the image hold zero.
    pub fn new_extended(memory: Vec<i64>) -> (r: (Receiver<i64>, Self))
        requires
            memory.len() <= MAX_CAPACITY,
        ensures
            r.1.wf(),
            r.1.snapshot().memory == memory@ + Seq::new(
                (extended_capacity(memory.len() as int) - memory.len()) as nat,
                |i: int| 0i64,
            ),
            r.1.snapshot().pc == 0,
            r.1.snapshot().output == Seq::<i64>::empty(),
            r.1.sources() == Seq::<Source>::empty(),
            r.1.received() == Seq::<i64>::empty(),
            r.1.is_connected(),
    {
        let n = memory.len();
        let capacity = if n >= MAX_CAPACITY / GROWTH_FACTOR {
            MAX_CAPACITY
        } else {
            n * GROWTH_FACTOR
        };
        let mut extended = memory;
        while extended.len() < capacity
            invariant
                n <= extended.len() <= capacity,
                capacity == extended_capacity(n as int),
                extended@ == memory@ + Seq::new((extended.len() - n) as nat, |i: int| 0i64),
            decreases capacity - extended.len(),
        {
            extended.push(0);
            assert(extended@ =~= memory@ + Seq::new((extended.len() - n) as nat, |i: int| 0i64));
        }
        Self::new(extended)
    }

    fn load(&self, addr: i64) -> (r: Result<i64, Fault>)
        requires
            self.memory.len() <= MAX_CAPACITY,
        ensures
            r == read_cell(self.memory@, addr as int),
    {
        if 0 <= addr && addr < self.memory.len() as i64 {
            Ok(self.memory[addr as usize])
        } else {
            Err(Fault::MemoryFault)
        }
    }

    fn load_with_mode(&self, addr: i64, mode: Mode) -> (r: Result<i64, Fault>)
        requires
            self.memory.len() <= MAX_CAPACITY,
        ensures
            r == operand(self.memory@, addr as int, 0, mode),
    {
        match self.load(addr) {
            Ok(x) => match mode {
                Mode::Immediate => Ok(x),
                Mode::Position => self.load(x),
            },
            Err(f) => Err(f),
        }
    }

    fn store(&mut self, addr: i64, val: i64) -> (r: Result<(), Fault>)
        requires
            old(self).memory.len() <= MAX_CAPACITY,
        ensures
            match write_cell(old(self).memory@, addr as int, val) {
                Ok(m) => r is Ok && final(self).memory@ == m,
                Err(f) => r == Err::<(), Fault>(f) && final(self).memory@ == old(self).memory@,
            },
            final(self).program_counter == old(self).program_counter,
            final(self).input == old(self).input,
            final(self).output == old(self).output,
            final(self).output_tx == old(self).output_tx,
            final(self).received == old(self).received,
    {
        if 0 <= addr && addr < self.memory.len() as i64 {
            self.memory.set(addr as usize, val);
            Ok(())
        } else {
            Err(Fault::MemoryFault)
        }
    }

    /// Takes the next input value from the queue, front source first.
    fn get_input(&mut self) -> (r: Result<i64, Fault>)
        requires
            old(self).wf(),
        ensures
            final(self).wf(),
            read_input(old(self).sources(), r, final(self).sources()),
            final(self).memory == old(self).memory,
            final(self).program_counter == old(self).program_counter,
            final(self).output == old(self).output,
            final(self).output_tx == old(self).output_tx,
            final(self).received@ == (match r {
                Ok(v) => old(self).received@.push(v),
                Err(_) => old(self).received@,
            }),
    {
        loop
            invariant
                self.wf(),
                live_sources(self.sources()) == live_sources(old(self).sources()),
                self.memory == old(self).memory,
                self.program_counter == old(self).program_counter,
                self.output == old(self).output,
                self.output_tx == old(self).output_tx,
                self.received == old(self).received,
            decreases self.input.len(),
        {
            let ghost q = self.sources();
            let ghost queue = self.input@;
            match self.input.pop_front() {
                None => {
                    assert(q.len() == 0);
                    return Err(Fault::InputExhausted);
                },
                Some(InputType::StringCursor(mut c)) => {
                    assert(queue[0].wf());
                    assert(self.sources() =~= q.drop_first());
                    let t = c.next_token();
                    match t {
                        None => {
                            assert(text_exhausted(q[0]));
                        },
                        Some(v) => {
                            self.input.push_front(InputType::StringCursor(c));
                            assert(self.sources() =~= q.update(0, self.input@[0].source()));
                            if let Ok(x) = v {
                                self.received = Ghost(self.received@.push(x));
                            }
                            return v;
                        },
                    }
                },
                Some(InputType::Value(v)) => {
                    assert(self.sources() =~= q.drop_first());
                    self.received = Ghost(self.received@.push(v));
                    return Ok(v);
                },
                Some(InputType::IntReceiver(rx)) => {
                    assert(self.sources() =~= q.drop_first());
                    match receive_value(&rx) {
                        Some(v) => {
                            self.input.push_front(InputType::IntReceiver(rx));
                            assert(self.sources() =~= q);
                            self.received = Ghost(self.received@.push(v));
                            return Ok(v);
                        },
                        None => {
                            return Err(Fault::ChannelClosed);
                        },
                    }
                },
            }
        }
    }

    /// Executes the instruction at the program counter.
    fn step(&mut self) -> (r: Result<Effect, Fault>)
        requires
            old(self).wf(),
        ensures
            final(self).wf(),
            extends(old(self).received(), final(self).received()),
            ({
                let took = inputs_since(old(self).received(), final(self).received());
                let next = one_step(old(self).snapshot(), took);
                &&& next.1.len() == 0
                &&& match r {
                    Ok(Effect::Halt) => next.2 == Status::Halted && final(self).snapshot()
                        == old(self).snapshot(),
                    Ok(_) => next.2 == Status::Running && final(self).snapshot() == next.0,
                    Err(f) => final(self).snapshot() == old(self).snapshot() && (next.2
                        == Status::Faulted(f) || (next.2 == Status::AwaitingInput && (f
                        == Fault::InputExhausted || f == Fault::ChannelClosed || f
                        == Fault::MalformedInput))),
                }
                &&& r == Err::<Effect, Fault>(Fault::InputExhausted) ==> live_sources(
                    final(self).sources(),
                ).len() == 0
            }),
            !needs_input(old(self).snapshot().memory, old(self).snapshot().pc)
                ==> final(self).sources() == old(self).sources(),
            keeps_value_queue(
                old(self).received(),
                old(self).sources(),
                final(self).received(),
                final(self).sources(),
            ),
            all_values(old(self).sources()) ==> r != Err::<Effect, Fault>(Fault::ChannelClosed)
                && r != Err::<Effect, Fault>(Fault::MalformedInput),
            final(self).output_tx == old(self).output_tx,
    {
        let pc = self.program_counter;
        assert(self.received@.subrange(0, self.received@.len() as int) =~= self.received@);
        assert(inputs_since(self.received@, self.received@) =~= Seq::<i64>::empty());
        let instr = match self.get_instr_and_modes() {
            Ok(i) => i,
            Err(f) => return Err(f),
        };
        match instr.opcode {
            Opcode::Halt => Ok(Effect::Halt),
            Opcode::Input => {
                let dest = match self.load(pc + 1) {
                    Ok(d) => d,
                    Err(f) => return Err(f),
                };
                let ghost before = self.received@;
                let ghost q0 = self.sources();
                let got = self.get_input();
                proof {
                    if all_values(q0) {
                        lemma_read_values(q0, got, self.sources(), before);
                    }
                }
                let v = match got {
                    Ok(v) => v,
                    Err(f) => {
                        proof {
                            if f == Fault::InputExhausted {
                                assert(live_sources(old(self).sources()).len() == 0);
                            }
                        }
                        return Err(f);
                    },
                };
                assert(inputs_since(before, self.received@) =~= seq![v]);
                assert(self.received@.subrange(0, before.len() as int) =~= before);
                match self.store(dest, v) {
                    Ok(()) => {},
                    Err(f) => return Err(f),
                }
                self.program_counter = pc + instr.opcode.length();
                Ok(Effect::Continue)
            },
            Opcode::Output => {
                let x = match self.load_with_mode(pc + 1, instr.mode1) {
                    Ok(x) => x,
                    Err(f) => return Err(f),
                };
                self.output.push(x);
                match &self.output_tx {
                    Some(tx) => {
                        let _ = send_value(tx, x);
                    },
                    None => {},
                }
                self.program_counter = pc + instr.opcode.length();
                Ok(Effect::Emit(x))
            },
            Opcode::JumpIfTrue | Opcode::JumpIfFalse => {
                let a = self.load_with_mode(pc + 1, instr.mode1);
                let b = self.load_with_mode(pc + 2, instr.mode2);
                match (a, b) {
                    (Ok(x), Ok(target)) => {
                        let jump = match instr.opcode {
                            Opcode::JumpIfTrue => x != 0,
                            _ => x == 0,
                        };
                        if jump {
                            self.program_counter = target;
                        } else {
                            self.program_counter = pc + instr.opcode.length();
                        }
                        Ok(Effect::Continue)
                    },
                    _ => Err(Fault::MemoryFault),
                }
            },
            _ => {
                let a = self.load_with_mode(pc + 1, instr.mode1);
                let b = self.load_with_mode(pc + 2, instr.mode2);
                let d = self.load(pc + 3);
                match (a, b, d) {
                    (Ok(x), Ok(y), Ok(dest)) => {
                        let v = match instr.opcode {
                            Opcode::Add => x.checked_add(y),
                            Opcode::Multiply => x.checked_mul(y),
                            Opcode::LessThan => Some(
                                if x < y {
                                    1i64
                                } else {
                                    0i64
                                },
                            ),
                            _ => Some(
                                if x == y {
                                    1i64
                                } else {
                                    0i64
                                },
                            ),
                        };
                        match v {
                            Some(v) => {
                                match self.store(dest, v) {
                                    Ok(()) => {},
                                    Err(f) => return Err(f),
                                }
                                self.program_counter = pc + instr.opcode.length();
                                Ok(Effect::Continue)
                            },
                            None => Err(Fault::Overflow),
                        }
                    },
                    _ => Err(Fault::MemoryFault),
                }
            },
        }
    }

    /// Executes at most `max_steps` instructions. A halt or a fault closes the
    /// output channel; running out of input or of steps leaves the machine able
    /// to go on.
    pub fn run(&mut self, max_steps: u64) -> (r: Result<Stop, Fault>)
        requires
            old(self).wf(),
        ensures
            final(self).wf(),
            keeps_value_queue(
                old(self).received(),
                old(self).sources(),
                final(self).received(),
                final(self).sources(),
            ),
            all_values(old(self).sources()) ==> r != Err::<Stop, Fault>(Fault::ChannelClosed) && r
                != Err::<Stop, Fault>(Fault::MalformedInput),
            extends(old(self).received(), final(self).received()),
            ({
                let res = run_spec(
                    old(self).snapshot(),
                    inputs_since(old(self).received(), final(self).received()),
                    max_steps as nat,
                );
                &&& final(self).snapshot() == res.0
                &&& res.1.len() == 0
                &&& match r {
                    Ok(Stop::Halted) => res.2 == Status::Halted && !final(self).is_connected(),
                    Ok(Stop::OutOfSteps) => res.2 == Status::Running && final(self).is_connected()
                        == old(self).is_connected(),
                    Ok(Stop::NeedsInput) => res.2 == Status::AwaitingInput && live_sources(
                        final(self).sources(),
                    ).len() == 0 && final(self).is_connected() == old(self).is_connected(),
                    Err(f) => !final(self).is_connected() && f != Fault::InputExhausted && f
                        != Fault::StepLimit && (res.2 == Status::Faulted(f) || (
                    res.2 == Status::AwaitingInput && (f == Fault::ChannelClosed || f
                        == Fault::MalformedInput))),
                }
            }),
    {
        let ghost start = self.snapshot();
        let ghost start_received = self.received@;
        let ghost start_sources = self.sources();
        assert(self.received@.subrange(0, self.received@.len() as int) =~= self.received@);
        assert(inputs_since(start_received, self.received@) =~= Seq::<i64>::empty());
        let mut k: u64 = 0;
        while k < max_steps
            invariant
                self.wf(),
                k <= max_steps,
                start == old(self).snapshot(),
                start_received == old(self).received@,
                start_sources == old(self).sources(),
                keeps_value_queue(start_received, start_sources, self.received@, self.sources()),
                all_values(start_sources) ==> all_values(self.sources()),
                extends(start_received, self.received@),
                run_spec(start, inputs_since(start_received, self.received@), k as nat) == (
                self.snapshot(),
                Seq::<i64>::empty(),
                Status::Running,
                ),
                self.output_tx == old(self).output_tx,
            decreases max_steps - k,
        {
            let ghost before = self.received@;
            let ghost done = inputs_since(start_received, before);
            let result = self.step();
            let ghost took = inputs_since(before, self.received@);
            let ghost all = inputs_since(start_received, self.received@);
            proof {
                assert(all =~= done + took);
                assert(self.received@.subrange(0, start_received.len() as int) =~= start_received)
                    by {
                    assert(self.received@.subrange(0, before.len() as int) == before);
                    assert(before.subrange(0, start_received.len() as int) == start_received);
                }
                lemma_run_extra_inputs(start, done, took, k as nat);
                assert(Seq::<i64>::empty() + took =~= took);
                lemma_run_one_more(start, all, k as nat);
                if !(run_spec(start, all, (k + 1) as nat).2 is Running) {
                    lemma_run_stopped(start, all, (k + 1) as nat, max_steps as nat);
                }
            }
            match result {
                Ok(Effect::Halt) => {
                    self.output_tx = None;
                    return Ok(Stop::Halted);
                },
                Ok(_) => {},
                Err(Fault::InputExhausted) => {
                    return Ok(Stop::NeedsInput);
                },
                Err(f) => {
                    self.output_tx = None;
                    return Err(f);
                },
            }
            k = k + 1;
        }
        Ok(Stop::OutOfSteps)
    }

    /// Runs until the program halts or faults, on the calling thread; reads
    /// from a channel source block. Closes the output channel when it returns.
    /// An input instruction with every source exhausted is the fault
    /// `InputExhausted`; a run of `u64::MAX` instructions without a halt is `StepLimit`.
    pub fn execute(&mut self) -> (r: Result<(), Fault>)
        requires
            old(self).wf(),
        ensures
            final(self).wf(),
            keeps_value_queue(
                old(self).received(),
                old(self).sources(),
                final(self).received(),
                final(self).sources(),
            ),
            all_values(old(self).sources()) ==> r != Err::<(), Fault>(Fault::ChannelClosed) && r
                != Err::<(), Fault>(Fault::MalformedInput),
            !final(self).is_connected(),
            extends(old(self).received(), final(self).received()),
            ({
                let res = run_spec(
                    old(self).snapshot(),
                    inputs_since(old(self).received(), final(self).received()),
                    u64::MAX as nat,
                );
                &&& final(self).snapshot() == res.0
                &&& res.1.len() == 0
                &&& match r {
                    Ok(()) => res.2 == Status::Halted,
                    Err(Fault::StepLimit) => res.2 == Status::Running,
                    Err(Fault::InputExhausted) => res.2 == Status::AwaitingInput && live_sources(
                        final(self).sources(),
                    ).len() == 0,
                    Err(f) => res.2 == Status::Faulted(f) || (res.2 == Status::AwaitingInput && (f
                        == Fault::ChannelClosed || f == Fault::MalformedInput)),
                }
            }),
    {
        let r = self.run(u64::MAX);
        self.output_tx = None;
        match r {
            Ok(Stop::Halted) => Ok(()),
            Ok(Stop::NeedsInput) => Err(Fault::InputExhausted),
            Ok(Stop::OutOfSteps) => Err(Fault::StepLimit),
            Err(f) => Err(f),
        }
    }

    /// The value in memory cell 0, where some programs leave their result.
    pub fn output(&self) -> (r: i64)
        requires
            self.snapshot().memory.len() > 0,
        ensures
            r == self.snapshot().memory[0],
    {
        self.memory[0]
    }

    /// The value at `address`, or a memory fault outside the memory.
    pub fn peek(&self, address: i64) -> (r: Result<i64, Fault>)
        requires
            self.wf(),
        ensures
            r == read_cell(self.snapshot().memory, address as int),
    {
        self.load(address)
    }

    /// Every value the machine has produced, in order.
    pub fn get_output(&self) -> (r: &Vec<i64>)
        ensures
            r@ == self.snapshot().output,
    {
        &self.output
    }

    /// The whole memory.
    pub fn memory(&self) -> (r: &Vec<i64>)
        ensures
            r@ == self.snapshot().memory,
    {
        &self.memory
    }

    /// The program counter.
    pub fn program_counter(&self) -> (r: i64)
        ensures
            r == self.snapshot().pc,
    {
        self.program_counter
    }

    /// Queues a source behind those already queued.
    pub fn set_input(&mut self, input: InputType)
        requires
            old(self).wf(),
            input.wf(),
        ensures
            final(self).wf(),
            final(self).sources() == old(self).sources().push(input.source()),
            final(self).snapshot() == old(self).snapshot(),
            final(self).received() == old(self).received(),
            final(self).is_connected() == old(self).is_connected(),
    {
        let ghost src = input.source();
        self.input.push_back(input);
        assert(self.sources() =~= old(self).sources().push(src));
    }

    /// Queues a text source holding `input`.
    pub fn set_input_string(&mut self, input: String)
        requires
            old(self).wf(),
        ensures
            final(self).wf(),
            final(self).sources() == old(self).sources().push(Source::Text(input@, 0)),
            final(self).snapshot() == old(self).snapshot(),
            final(self).received() == old(self).received(),
            final(self).is_connected() == old(self).is_connected(),
    {
        let cursor = TextCursor::new(input.as_str());
        self.set_input(InputType::StringCursor(cursor));
    }

    /// Overwrites memory cell 1.
    pub fn set_noun(&mut self, noun: i64)
        requires
            old(self).wf(),
            old(self).snapshot().memory.len() > 1,
        ensures
            final(self).snapshot() == (Snapshot {
                memory: old(self).snapshot().memory.update(1, noun),
                ..old(self).snapshot()
            }),
            final(self).wf(),
            final(self).sources() == old(self).sources(),
            final(self).received() == old(self).received(),
            final(self).is_connected() == old(self).is_connected(),
    {
        self.memory.set(1, noun);
    }

    /// Overwrites memory cell 2.
    pub fn set_verb(&mut self, verb: i64)
        requires
            old(self).wf(),
            old(self).snapshot().memory.len() > 2,
        ensures
            final(self).snapshot() == (Snapshot {
                memory: old(self).snapshot().memory.update(2, verb),
                ..old(self).snapshot()
            }),
            final(self).wf(),
            final(self).sources() == old(self).sources(),
            final(self).received() == old(self).received(),
            final(self).is_connected() == old(self).is_connected(),
    {
        self.memory.set(2, verb);
    }

    fn get_instr_and_modes(&self) -> (r: Result<Instruction, Fault>)
        requires
            self.memory.len() <= MAX_CAPACITY,
        ensures
            r == fetch(self.memory@, self.program_counter as int),
    {
        match self.load(self.program_counter) {
            Ok(word) => Instruction::decode(word),
            Err(f) => Err(f),
        }
    }
}

pub open spec fn extended_capacity(n: int) -> int {
    if n >= MAX_CAPACITY / GROWTH_FACTOR {
        MAX_CAPACITY as int
    } else {
        n * GROWTH_FACTOR
    }
}

} // verus!
