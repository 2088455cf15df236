//! Symbolication core of a native-code profiler.
//!
//! Given a binary's build identifier and a set of code addresses, the library
//! decides which debug-information source answers for each address and, for
//! PDB data, builds the inline call stack at each address. A third part frames
//! the messages that a freshly launched child process sends to the profiler.
//!
//! Every function states its behaviour as a contract over mathematical models
//! (`Seq`, `Map`, `int`), and the contracts are machine-checked.

pub mod address_order;
pub mod error;
pub mod mac;
pub mod macho;
pub mod pdb;
