//! Profiles with Xcode Instruments.

use vstd::prelude::*;
use vstd::string::*;
use crate::cargo::{BinFile, CargoTarget};
use crate::paths::{joined_path, parent, parent_of};
use crate::util::{decimal, decimal_text, strings, CommandLine, CommandLineView};

verus! {

/// Profile a crate using Xcode Instruments.
#[derive(Debug, Clone)]
pub struct InstrumentsCommand {
    pub target: CargoTarget,
    /// List available templates.
    pub list_templates: bool,
    /// The Instruments template to run.
    pub template_name: Option<String>,
    /// Limit recording time to the specified value, in milliseconds.
    pub time_limit: Option<usize>,
    /// Do not open the generated trace file in Instruments.
    pub no_open: bool,
}

/// What a run of the command does, besides finding Instruments first.
#[derive(Clone, Copy, Debug, PartialEq, Eq)]
pub struct InstrumentsPlan {
    /// Print the available templates and do nothing else.
    pub list_templates: bool,
    /// Sign the built binary before it is profiled.
    pub codesign: bool,
    /// Open the trace in Instruments when it is recorded.
    pub open: bool,
}

impl InstrumentsCommand {
    /// What a run does. Asked for the templates, it lists them and does
    /// nothing else. Otherwise it builds and profiles: on `aarch64` the
    /// binary is signed first, and the trace is opened unless that was
    /// declined.
    pub fn run(&self, aarch64: bool) -> (plan: InstrumentsPlan)
        ensures
            plan.list_templates == self.list_templates,
            plan.codesign == (!self.list_templates && aarch64),
            plan.open == (!self.list_templates && !self.no_open),
    {
        InstrumentsPlan {
            list_templates: self.list_templates,
            codesign: !self.list_templates && aarch64,
            open: !self.list_templates && !self.no_open,
        }
    }
}

/// The limit on the recording time as xctrace takes it, if there is one.
pub open spec fn time_limit_args(time_limit: Option<usize>) -> Seq<Seq<char>> {
    match time_limit {
        Some(millis) => seq!["--time-limit"@, decimal_text(millis as nat) + "ms"@],
        None => Seq::empty(),
    }
}

/// The command line that records the program at `path`, run with `args`,
/// with a template of Instruments, and writes the trace to `output`.
pub open spec fn record_command_line(
    template: Seq<char>,
    time_limit: Option<usize>,
    output: Seq<char>,
    path: Seq<char>,
    args: Seq<Seq<char>>,
) -> CommandLineView {
    CommandLineView {
        program: "xcrun"@,
        args: seq!["xctrace"@, "record"@, "--template"@, template] + time_limit_args(time_limit)
            + seq!["--output"@, output, "--launch"@, "--"@, path] + args,
    }
}

/// The command that profiles `binary`, run with the target's arguments,
/// with the template that `command` names, and writes the trace to
/// `output`. None where `command` names no template.
pub fn profile_target(command: &InstrumentsCommand, binary: &BinFile, output: &str) -> (r: Option<
    CommandLine,
>)
    ensures
        r is Some <==> command.template_name is Some,
        r matches Some(c) ==> c@ == record_command_line(
            command.template_name->Some_0@,
            command.time_limit,
            output@,
            binary.path@,
            strings(command.target.target_args@),
        ),
{
    match &command.template_name {
        None => None,
        Some(template) => {
            let mut c = CommandLine { program: "xcrun".to_owned(), args: Vec::new() };
            assert(c@.args =~= Seq::<Seq<char>>::empty());
            c.arg("xctrace");
            c.arg("record");
            c.arg("--template");
            c.arg(template.as_str());
            match command.time_limit {
                Some(millis) => {
                    let mut limit = decimal(millis as u64);
                    limit.append("ms");
                    c.arg("--time-limit");
                    c.arg(limit.as_str());
                },
                None => {},
            }
            c.arg("--output");
            c.arg(output);
            c.arg("--launch");
            c.arg("--");
            c.arg(binary.path.as_str());
            c.args(command.target.args());
            assert(c@.args =~= record_command_line(
                template@,
                command.time_limit,
                output@,
                binary.path@,
                strings(command.target.target_args@),
            ).args);
            Some(c)
        },
    }
}

/// The name of the file that holds the entitlements to sign with.
pub const ENTITLEMENTS_FILENAME: &'static str = "entitlements.plist";

/// The entitlements to sign with: the task may be inspected.
pub const ENTITLEMENTS_PLIST_DATA: &'static str = r#"<?xml version="1.0" encoding="UTF-8"?>
<!DOCTYPE plist PUBLIC "-//Apple//DTD PLIST 1.0//EN" "http://www.apple.com/DTDs/PropertyList-1.0.dtd">
<plist version="1.0">
    <dict>
        <key>com.apple.security.get-task-allow</key>
        <true/>
    </dict>
</plist>"#;

/// Where the entitlements to sign a binary with are written: the file of
/// that name in the directory of the binary.
pub open spec fn entitlements_path_of(path: Seq<char>) -> Option<Seq<char>> {
    match parent_of(path) {
        Some(directory) => Some(joined_path(directory, ENTITLEMENTS_FILENAME@)),
        None => None,
    }
}

/// Where the entitlements to sign the binary at `path` with are written;
/// none where the path has no parent.
pub fn entitlements_path(path: &str) -> (r: Option<String>)
    ensures
        r is Some <==> entitlements_path_of(path@) is Some,
        r matches Some(file) ==> entitlements_path_of(path@) == Some(file@),
{
    match parent(path) {
        None => None,
        Some(directory) => {
            let mut file = directory;
            let ghost before = file@;
            let chars: usize = file.as_str().unicode_len();
            if chars > 0 && file.as_str().get_char(chars - 1) != '/' {
                file.append("/");
                proof {
                    reveal_strlit("/");
                }
                assert(file@ =~= before.push('/'));
            }
            file.append(ENTITLEMENTS_FILENAME);
            Some(file)
        },
    }
}

/// The command that opens a trace file in Instruments.
pub fn launch_instruments(trace: &str) -> (c: CommandLine)
    ensures
        c@ == (CommandLineView { program: "open"@, args: seq![trace@] }),
{
    let mut c = CommandLine { program: "open".to_owned(), args: Vec::new() };
    assert(c@.args =~= Seq::<Seq<char>>::empty());
    c.arg(trace);
    assert(c@.args =~= seq![trace@]);
    c
}

/// The command that signs the binary at `path` ad hoc, anew, with the
/// entitlements in the file at `entitlements`.
pub fn codesign(entitlements: &str, path: &str) -> (c: CommandLine)
    ensures
        c@ == (CommandLineView {
            program: "codesign"@,
            args: seq!["-s"@, "-"@, "-f"@, "--entitlements"@, entitlements@, path@],
        }),
{
    let mut c = CommandLine { program: "codesign".to_owned(), args: Vec::new() };
    assert(c@.args =~= Seq::<Seq<char>>::empty());
    c.arg("-s");
    c.arg("-");
    c.arg("-f");
    c.arg("--entitlements");
    c.arg(entitlements);
    c.arg(path);
    assert(c@.args =~= seq!["-s"@, "-"@, "-f"@, "--entitlements"@, entitlements@, path@]);
    c
}

/// An output stream under its name, in quotes.
pub open spec fn quoted(name: Seq<char>, output: Seq<char>) -> Seq<char> {
    name + ": \""@ + output + "\""@
}

/// What is said when signing fails: what the signer wrote to its output and
/// to its error output, each left out if empty, on a line of its own.
pub open spec fn codesign_failure_text(stdout: Seq<char>, stderr: Seq<char>) -> Seq<char> {
    let out = if stdout.len() > 0 {
        quoted("stdout"@, stdout)
    } else {
        Seq::empty()
    };
    let between = if stdout.len() > 0 && stderr.len() > 0 {
        "\n"@
    } else {
        Seq::empty()
    };
    let err = if stderr.len() > 0 {
        quoted("stderr"@, stderr)
    } else {
        Seq::empty()
    };
    "Code signing failed: "@ + out + between + err
}

/// What is said when signing fails.
pub fn codesign_failure(stdout: &str, stderr: &str) -> (message: String)
    ensures
        message@ == codesign_failure_text(stdout@, stderr@),
{
    let mut message = "Code signing failed: ".to_owned();
    if !stdout.is_empty() {
        message.append("stdout");
        message.append(": \"");
        message.append(stdout);
        message.append("\"");
    }
    if !stdout.is_empty() && !stderr.is_empty() {
        message.append("\n");
    }
    if !stderr.is_empty() {
        message.append("stderr");
        message.append(": \"");
        message.append(stderr);
        message.append("\"");
    }
    assert(message@ =~= codesign_failure_text(stdout@, stderr@));
    message
}

} // verus!
