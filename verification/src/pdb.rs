//! Symbolication from PDB debug information.

pub mod addr2line;
pub mod frame_laws;
