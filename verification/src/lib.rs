//! Quirl: a verified Brainfuck virtual machine.
//!
//! The loader filters a source string down to the eight instruction bytes and
//! builds a bidirectional jump table for the loop brackets; the execution
//! engine walks the filtered program against a fixed tape of 30,000 byte
//! cells, collecting the output bytes.  Both passes are specified against the
//! mathematical model in `semantics` and verified.

pub mod bfvm;
pub mod prog_state;
pub mod semantics;
pub mod vm_state;
