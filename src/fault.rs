use vstd::prelude::*;

verus! {

/// The ways in which one machine's execution can stop short of a halt.
#[derive(Clone, Copy, Debug, PartialEq, Eq, Structural)]
pub enum Fault {
    /// An address outside `[0, capacity)` was read or written.
    MemoryFault,
    /// The word at the program counter is not a supported instruction.
    InvalidOpcode,
    /// An input instruction ran with no source able to supply a value.
    InputExhausted,
    /// A channel source was read after its sender had gone, with nothing pending.
    ChannelClosed,
    /// A text source held a token that is not a base-10 signed 64-bit integer.
    MalformedInput,
    /// An addition or multiplication left the signed 64-bit range.
    Overflow,
    /// The number of instructions a run was allowed to execute ran out.
    StepLimit,
}

} // verus!
