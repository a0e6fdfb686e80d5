//! Sampling with dtrace.

use vstd::prelude::*;
use crate::cargo::BinFile;
use crate::cli_tools::dtrace::{
    collapsed,
    dtrace_command_line,
    make_dtrace_command,
    CollapseFailure,
};
use crate::util::CommandLine;

verus! {

/// The name of the file that dtrace writes the stacks to.
pub const DTRACE_OUTPUT_FILENAME: &'static str = "cargo-profile-flamegraph.stacks";

/// The dtrace command that runs `file` without arguments and writes the
/// sampled stacks to `output`.
pub fn dtrace(root: bool, file: &BinFile, output: &str, freq: Option<u32>, custom_cmd: Option<String>) -> (c:
    CommandLine)
    ensures
        c@ == dtrace_command_line(root, file.path@, output@, freq, custom_cmd, Seq::empty()),
{
    let none: Vec<String> = Vec::new();
    assert(crate::util::strings(none@) =~= Seq::<Seq<char>>::empty());
    make_dtrace_command(root, file, output, freq, custom_cmd, none.as_slice())
}

/// Folds the stacks that dtrace wrote into collapsed stack text.
pub fn to_collapsed(stacks: &[u8]) -> (r: Result<Vec<u8>, CollapseFailure>)
    ensures
        r is Ok <==> collapsed(stacks@) is Some,
        r matches Ok(folded) ==> collapsed(stacks@) == Some(folded@),
{
    crate::cli_tools::dtrace::to_collapsed(stacks)
}

} // verus!
