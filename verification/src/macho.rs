//! Symbolication of Mach-O binaries, whose debug information may live in the
//! object files that the binary was linked from.

pub mod build_id;
pub mod functions;
pub mod keyed;
pub mod matching;
pub mod matching_laws;
pub mod object_file;
pub mod object_names;
pub mod references;
pub mod sorting;
pub mod split;
pub mod split_laws;

pub mod symbolication;
