//! Deterministic assignment of one-byte opcodes to instruction definitions,
//! with a forward table (instruction variant to opcode) and a reverse table
//! (opcode to label).

pub mod hasher;
pub mod resolver;
pub mod expander;
pub mod engine;
pub mod laws;

pub use engine::{
    InstructionInfo, InstructionInfoFile, assign_all, create_instruction_info, get_instruction_info,
};
pub use expander::{InstructionSize, RawInstructionInfo};
pub use resolver::AssignError;
