//! The macOS side of profiling: getting hold of a child process's task port.

pub mod process_launcher;
