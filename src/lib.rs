//! Dead-block elimination and duplicate-block merging for whitespace
//! assembly programs.
//!
//! `instruction` models one mnemonic line, `method` splits instructions into
//! labelled blocks and joins them back, `refactor` holds the two passes,
//! `program` reads and writes mnemonic text and goes through the whitespacers
//! assembler, and `laws` proves what the passes guarantee.

pub mod instruction;
pub mod method;
pub mod refactor;
pub mod program;
pub mod laws;
