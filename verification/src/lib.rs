//! Assembler, executor and key-sequence planner for a small 16-bit virtual CPU.
pub mod assembler;
pub mod encoding;
pub mod isa;
pub mod keys;
pub mod line_shape;
pub mod machine;
pub mod names;
pub mod resolution;
pub mod text;
