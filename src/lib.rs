//! A bytecode interpreter for the Tea scripting language: the binary value
//! codec, the scope chain with its root-write variable model, and the
//! instruction dispatch as a step machine that hands its outside work
//! (printing, reading, floating-point arithmetic) to the host.
pub mod errors;
pub mod machine;
pub mod opcodes;
pub mod scope;
pub mod values;
