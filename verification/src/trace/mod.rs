//! Traces of a target's run.

use vstd::prelude::*;
use crate::cargo::{BinFile, CargoTarget};
use crate::trace::xctrace::{run_xctrace, xctrace_command_line};
use crate::util::CommandLine;

pub mod xctrace;

verus! {

/// Invokes a tracing tool.
#[derive(Debug, Clone)]
pub struct TraceCommand {
    /// Run the tool as root.
    pub root: bool,
    pub tool: TraceTool,
}

/// The tool used to generate a trace.
#[derive(Debug, Clone)]
pub enum TraceTool {
    Dtrace { target: CargoTarget },
    Perf { target: CargoTarget },
    /// Invokes xctrace to create a `.trace` file.
    Xctrace { target: CargoTarget },
}

/// The build yielded this many binaries, and not one.
#[derive(Clone, Copy, Debug, PartialEq, Eq)]
pub struct BinaryCount(pub usize);

impl TraceTool {
    /// The target to trace.
    pub open spec fn target_spec(&self) -> CargoTarget {
        match *self {
            TraceTool::Dtrace { target } => target,
            TraceTool::Perf { target } => target,
            TraceTool::Xctrace { target } => target,
        }
    }

    /// The target to trace.
    pub fn target(&self) -> (r: &CargoTarget)
        ensures
            *r == self.target_spec(),
    {
        match self {
            TraceTool::Dtrace { target } => target,
            TraceTool::Perf { target } => target,
            TraceTool::Xctrace { target } => target,
        }
    }
}

impl TraceCommand {
    /// The command that traces the one binary of the build: for xctrace
    /// its recording; none for the other tools, which do not trace yet.
    ///
    /// `BinaryCount` unless there is one binary.
    pub fn run(&self, binaries: &Vec<BinFile>) -> (r: Result<Option<CommandLine>, BinaryCount>)
        ensures
            binaries.len() != 1 ==> r == Err::<Option<CommandLine>, BinaryCount>(
                BinaryCount(binaries.len()),
            ),
            binaries.len() == 1 ==> r is Ok,
            binaries.len() == 1 && !(self.tool is Xctrace) ==> r->Ok_0 is None,
            binaries.len() == 1 && self.tool is Xctrace ==> r->Ok_0 is Some && r->Ok_0->Some_0@
                == xctrace_command_line(self.root, binaries[0].path@),
    {
        if binaries.len() != 1 {
            return Err(BinaryCount(binaries.len()));
        }
        match &self.tool {
            TraceTool::Dtrace { .. } => Ok(None),
            TraceTool::Perf { .. } => Ok(None),
            TraceTool::Xctrace { .. } => Ok(Some(run_xctrace(self.root, &binaries[0]))),
        }
    }
}

} // verus!
