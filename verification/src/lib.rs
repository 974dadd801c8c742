//! A bidirectional codec between capacity-bounded cell trees and a linear
//! stack-machine bytecode: a decoder that turns cells into an instruction
//! tree, an extractor that recovers embedded jump-table dictionaries, and an
//! assembler that packs command streams back into cells.

pub mod bits;
pub mod codedict;
pub mod disasm;
pub mod insn;
pub mod laws;
pub mod loader;
pub mod cell;
pub mod error;
pub mod fmt;
pub mod writer;
