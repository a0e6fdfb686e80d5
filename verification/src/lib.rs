//! Drives a build and a sampling profiler, and turns collapsed stack samples
//! into a per-function breakdown of inclusive and exclusive time.

use vstd::prelude::*;
use crate::cargo::CargoTarget;
use crate::cpu::CpuCommand;
use crate::flamegraph::FlameGraphCommand;
use crate::instrument::InstrumentsCommand;
use crate::trace::TraceCommand;
use crate::util::strings;

pub mod cargo;
pub mod cli_tools;
pub mod cpu;
pub mod flamegraph;
pub mod instrument;
pub mod paths;
pub mod trace;
pub mod util;

verus! {

/// The performance profiler for cargo.
#[derive(Debug, Clone)]
pub enum SubCommand {
    /// Run all benchmarks.
    All,
    Flamegraph(FlameGraphCommand),
    Trace(TraceCommand),
    Cpu(CpuCommand),
    Instruments(InstrumentsCommand),
    /// Compile a binary using cargo and print the absolute path to the file.
    BinPath { target: CargoTarget },
}

/// Whether the second argument is the name under which cargo runs this
/// program as a subcommand: the first argument is `cargo`, or the second is
/// `profile`.
pub open spec fn names_subcommand(args: Seq<Seq<char>>) -> bool {
    args[0] == "cargo"@ || (args.len() >= 2 && args[1] == "profile"@)
}

/// The arguments of the program as they are parsed. Run by cargo, the
/// program is handed the subcommand's name as its second argument, which is
/// taken out.
pub open spec fn own_args(args: Seq<Seq<char>>, by_cargo: bool) -> Seq<Seq<char>> {
    if by_cargo && names_subcommand(args) {
        args.remove(1)
    } else {
        args
    }
}

/// Takes the subcommand's name out of the arguments, where cargo runs the
/// program and the name is there.
pub fn strip_subcommand(args: Vec<String>, by_cargo: bool) -> (r: Vec<String>)
    requires
        by_cargo ==> args.len() >= 1,
        by_cargo && args[0]@ == "cargo"@ ==> args.len() >= 2,
    ensures
        strings(r@) == own_args(strings(args@), by_cargo),
{
    let mut args = args;
    let ghost before = strings(args@);
    if by_cargo {
        let cargo = "cargo".to_owned();
        let profile = "profile".to_owned();
        if args[0] == cargo || (args.len() >= 2 && args[1] == profile) {
            args.remove(1);
            assert(strings(args@) =~= before.remove(1));
        }
    }
    args
}

} // verus!
