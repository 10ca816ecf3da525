//! Interactive perft debugging: compare the per-move node counts of a
//! move generator under test against a trusted reference engine.
//!
//! The library holds the verified core: the report and diff value types,
//! the merge algorithm, the navigation state machine, and the framing and
//! parsing of the two backend protocols. Process handling, terminal I/O
//! and colorized rendering live outside the library.
pub mod diff;
pub mod engine;
pub mod num;
pub mod order;
pub mod report;
pub mod script;
pub mod state;
pub mod text;
pub mod uci;
