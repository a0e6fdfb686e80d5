//! The dtrace command that samples a program's stacks, and the folding of
//! what it writes.

use vstd::prelude::*;
use vstd::string::*;
use crate::cargo::BinFile;
use crate::cli_tools::stacks::{can_fold, foldable};
use crate::util::{command, command_line, decimal, decimal_text, strings, CommandLine, CommandLineView};

verus! {

/// How many times a second stacks are sampled, unless told otherwise.
pub const DEFAULT_FREQUENCY: u32 = 997;

/// The script that samples the user stacks of the program under dtrace.
pub open spec fn script_text(freq: Option<u32>, custom_cmd: Option<String>) -> Seq<char> {
    match custom_cmd {
        Some(script) => script@,
        None => "profile-"@ + decimal_text(
            match freq {
                Some(f) => f as nat,
                None => DEFAULT_FREQUENCY as nat,
            },
        ) + " /pid == $target/ { @[ustack(100)] = count(); }"@,
    }
}

/// A program with its arguments as one text, a space before each argument.
pub open spec fn command_text(program: Seq<char>, args: Seq<Seq<char>>) -> Seq<char>
    decreases args.len(),
{
    if args.len() == 0 {
        program
    } else {
        command_text(program, args.drop_last()) + " "@ + args.last()
    }
}

/// The dtrace command line: stacks of up to 100 frames, the script, the
/// file that the stacks are written to, and the program to run with its
/// arguments.
pub open spec fn dtrace_command_line(
    root: bool,
    path: Seq<char>,
    output: Seq<char>,
    freq: Option<u32>,
    custom_cmd: Option<String>,
    args: Seq<Seq<char>>,
) -> CommandLineView {
    let base = command_line(root, "dtrace"@);
    CommandLineView {
        program: base.program,
        args: base.args + seq![
            "-x"@,
            "ustackframes=100"@,
            "-n"@,
            script_text(freq, custom_cmd),
            "-o"@,
            output,
            "-c"@,
            command_text(path, args),
        ],
    }
}

/// The dtrace command that runs `file` with `args` and writes the sampled
/// stacks to `output`.
pub fn make_dtrace_command(
    root: bool,
    file: &BinFile,
    output: &str,
    freq: Option<u32>,
    custom_cmd: Option<String>,
    args: &[String],
) -> (c: CommandLine)
    ensures
        c@ == dtrace_command_line(root, file.path@, output@, freq, custom_cmd, strings(args@)),
{
    let mut c = command(root, "dtrace");
    let ghost base = c@;
    let script = match custom_cmd {
        Some(script) => script,
        None => {
            let mut script = "profile-".to_owned();
            let number = decimal(
                match freq {
                    Some(f) => f as u64,
                    None => DEFAULT_FREQUENCY as u64,
                },
            );
            script.append(number.as_str());
            script.append(" /pid == $target/ { @[ustack(100)] = count(); }");
            script
        },
    };
    let mut run = file.path.clone();
    let mut i: usize = 0;
    let ghost all = strings(args@);
    assert(all.take(0) =~= Seq::<Seq<char>>::empty());
    while i < args.len()
        invariant
            i <= args.len(),
            all == strings(args@),
            run@ == command_text(file.path@, all.take(i as int)),
        decreases args.len() - i,
    {
        proof {
            assert(all.take(i + 1).drop_last() =~= all.take(i as int));
            assert(all.take(i + 1).last() == args@[i as int]@);
        }
        run.append(" ");
        run.append(args[i].as_str());
        i += 1;
    }
    assert(all.take(i as int) =~= all);
    c.arg("-x");
    c.arg("ustackframes=100");
    c.arg("-n");
    c.arg(script.as_str());
    c.arg("-o");
    c.arg(output);
    c.arg("-c");
    c.arg(run.as_str());
    assert(c@.args =~= dtrace_command_line(
        root,
        file.path@,
        output@,
        freq,
        custom_cmd,
        strings(args@),
    ).args);
    c
}

/// The folded stacks that `inferno`'s collapser for dtrace, with its default
/// options, makes of what dtrace wrote; `None` where it reports an error.
pub uninterp spec fn dtrace_collapsed(stacks: Seq<u8>) -> Option<Seq<u8>>;

/// `inferno::collapse::Collapse::collapse` on a
/// `inferno::collapse::dtrace::Folder` with default options: reads the bytes
/// that dtrace wrote and writes the folded stacks, one a line with its count,
/// in sorted order.
///
/// The collapser stops with a panic on a frame whose function it cuts
/// within a character, 17 bytes before its end, and, where overflow is
/// checked, on a count that no frame came before and on counts that add up
/// beyond `usize`; the text must be foldable, which leaves these out. Of a
/// frame it cuts only what follows the first backtick, so other characters
/// than those of ASCII do no harm before it, nor do bytes that are no
/// character, which it replaces. It takes a line for a count if the line is
/// a number that `usize` holds, so a number beyond that is a frame to it on
/// one machine and a count on another; in a foldable text `usize` holds
/// every such number, and what comes out depends on the bytes alone.
#[verifier::external_body]
fn fold(stacks: &[u8]) -> (folded: Option<Vec<u8>>)
    requires
        foldable(stacks@),
    ensures
        folded is Some <==> dtrace_collapsed(stacks@) is Some,
        folded matches Some(bytes) ==> dtrace_collapsed(stacks@) == Some(bytes@),
{
    let mut folded = Vec::new();
    let options = inferno::collapse::dtrace::Options::default();
    let mut folder = inferno::collapse::dtrace::Folder::from(options);
    match inferno::collapse::Collapse::collapse(&mut folder, stacks, &mut folded) {
        Ok(()) => Some(folded),
        Err(_) => None,
    }
}

/// The stacks that dtrace wrote could not be folded.
#[derive(Clone, Copy, Debug, PartialEq, Eq)]
pub struct CollapseFailure;

/// What folding makes of the stacks that dtrace wrote: nothing where the
/// text is not foldable, or the collapser reports an error.
pub open spec fn collapsed(stacks: Seq<u8>) -> Option<Seq<u8>> {
    if foldable(stacks) {
        dtrace_collapsed(stacks)
    } else {
        None
    }
}

/// Folds the stacks that dtrace wrote into collapsed stack text.
///
/// Fails where the text is not foldable: it holds a byte that is no ASCII
/// character elsewhere than in the name of a frame's module, a count
/// without a frame before it, or counts that add up beyond `usize`. Fails
/// also where the collapser reports an error.
pub fn to_collapsed(stacks: &[u8]) -> (r: Result<Vec<u8>, CollapseFailure>)
    ensures
        r is Ok <==> collapsed(stacks@) is Some,
        r matches Ok(folded) ==> collapsed(stacks@) == Some(folded@),
{
    if !can_fold(stacks) {
        return Err(CollapseFailure);
    }
    match fold(stacks) {
        Some(folded) => Ok(folded),
        None => Err(CollapseFailure),
    }
}

} // verus!
