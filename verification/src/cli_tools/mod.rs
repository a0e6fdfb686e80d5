//! The command-line tools that do the profiling.

pub mod dtrace;
pub mod profiler;
pub mod stacks;
