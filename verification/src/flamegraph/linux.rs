//! Sampling with perf.

use vstd::prelude::*;
use crate::cargo::BinFile;
use crate::cli_tools::dtrace::DEFAULT_FREQUENCY;
use crate::util::{command, command_line, decimal, decimal_text, strings, CommandLine, CommandLineView};

verus! {

/// The perf command line: record at the frequency, with call graphs from
/// DWARF, the program with its arguments.
pub open spec fn perf_command_line(
    root: bool,
    perf: Seq<char>,
    path: Seq<char>,
    freq: Option<u32>,
    args: Seq<Seq<char>>,
) -> CommandLineView {
    let base = command_line(root, perf);
    CommandLineView {
        program: base.program,
        args: base.args + seq![
            "record"@,
            "-F"@,
            decimal_text(
                match freq {
                    Some(f) => f as nat,
                    None => DEFAULT_FREQUENCY as nat,
                },
            ),
            "--call-graph"@,
            "dwarf"@,
            "-g"@,
            path,
        ] + args,
    }
}

/// The command of the perf at `program` that records the cpu usage of `file`
/// run with `args`.
pub fn perf(root: bool, program: &str, file: &BinFile, freq: Option<u32>, args: &[String]) -> (c: CommandLine)
    ensures
        c@ == perf_command_line(root, program@, file.path@, freq, strings(args@)),
{
    let mut c = command(root, program);
    let number = decimal(
        match freq {
            Some(f) => f as u64,
            None => DEFAULT_FREQUENCY as u64,
        },
    );
    c.arg("record");
    c.arg("-F");
    c.arg(number.as_str());
    c.arg("--call-graph");
    c.arg("dwarf");
    c.arg("-g");
    c.arg(file.path.as_str());
    c.args(args);
    assert(c@.args =~= perf_command_line(root, program@, file.path@, freq, strings(args@)).args);
    c
}

} // verus!
