//! An interpreter for programs written as flat sequences of signed integers,
//! with positional and immediate addressing, text, value and channel input,
//! recorded output, and pipelines of machines wired output to input, in a line
//! or in a ring.
//!
//! The interpreter: `instruction` decodes words, `semantics` states what one
//! instruction and a bounded run do, `machine` executes, `text` reads input
//! tokens and program images, `channel` holds the channel calls, `pipeline`
//! wires machines together and `search` tries every order of phase settings.
//! `programs` proves what a few small programs compute.
//!
//! Puzzle helpers that share the crate: `fuel`, `password`, `image`, `orbits`
//! and `wires`.

pub mod channel;
pub mod fault;
pub mod instruction;
pub mod machine;
pub mod pipeline;
pub mod programs;
pub mod search;
pub mod semantics;
pub mod text;

pub mod fuel;
pub mod image;
pub mod orbits;
pub mod password;
pub mod wires;
