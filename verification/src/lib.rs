//! An LR(1) parser-generator core: grammar representation, lookahead
//! computation, canonical LR(1) state construction with conflict detection,
//! and a deterministic textual report of the resulting automaton.

pub mod collections;
pub mod construct;
pub mod first;
pub mod grammar;
pub mod lookahead;
pub mod parse_error;
pub mod report;
pub mod state;
pub mod text;
pub mod token;
