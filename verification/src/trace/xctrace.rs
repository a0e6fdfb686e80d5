//! Recording with xctrace.

use vstd::prelude::*;
use crate::cargo::BinFile;
use crate::util::{command, command_line, CommandLine, CommandLineView};

verus! {

/// The command line that records a time profile of the program at `path`.
pub open spec fn xctrace_command_line(root: bool, path: Seq<char>) -> CommandLineView {
    let base = command_line(root, "xcrun"@);
    CommandLineView {
        program: base.program,
        args: base.args + seq![
            "xctrace"@,
            "record"@,
            "--template"@,
            "Time Profiler"@,
            "--launch"@,
            "--"@,
            path,
        ],
    }
}

/// The command that launches `file` under xctrace and records a time
/// profile of it.
pub fn run_xctrace(root: bool, file: &BinFile) -> (c: CommandLine)
    ensures
        c@ == xctrace_command_line(root, file.path@),
{
    let mut c = command(root, "xcrun");
    c.arg("xctrace");
    c.arg("record");
    c.arg("--template");
    c.arg("Time Profiler");
    c.arg("--launch");
    c.arg("--");
    c.arg(file.path.as_str());
    assert(c@.args =~= xctrace_command_line(root, file.path@).args);
    c
}

} // verus!
