//! Builds a control-flow graph of basic blocks and data-dependence nodes
//! from a stream of committed-instruction trace messages, and decodes the
//! bit fields of RISC-V instruction words.

pub mod errors;
pub mod instruction;
pub mod streamer;
pub mod graph;
pub mod il;
pub mod loader;
