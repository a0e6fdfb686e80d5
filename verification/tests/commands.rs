use cargo_profile::cargo::{BinFile, CargoTarget};
use cargo_profile::cli_tools::dtrace::{make_dtrace_command, to_collapsed, CollapseFailure};
use cargo_profile::cli_tools::stacks::{can_fold, line_kind, plain, Line};
use cargo_profile::cli_tools::profiler::{
    run_profiler, terminated_by_error, Exit, ProfilerProcessFailure, SIGINT, SIGTERM,
};
use cargo_profile::cpu::{CpuCommand, CpuError};
use cargo_profile::flamegraph::linux::perf;
use cargo_profile::flamegraph::macos::{dtrace, DTRACE_OUTPUT_FILENAME};
use cargo_profile::flamegraph::{
    can_draw, draw_folded, render, rendered, FlameGraphCommand, FlameGraphError,
};
use cargo_profile::instrument::{
    codesign, codesign_failure, launch_instruments, profile_target, InstrumentsCommand,
    InstrumentsPlan, ENTITLEMENTS_FILENAME, ENTITLEMENTS_PLIST_DATA,
};
use cargo_profile::strip_subcommand;
use cargo_profile::trace::xctrace::run_xctrace;
use cargo_profile::trace::{BinaryCount, TraceCommand, TraceTool};
use cargo_profile::util::{command, decimal, join, CommandLine};

fn target() -> CargoTarget {
    CargoTarget {
        lib: false,
        release: false,
        bin: None,
        bench: None,
        benches: false,
        test: None,
        tests: false,
        example: None,
        examples: false,
        features: None,
        target_args: Vec::new(),
    }
}

fn words(words: &[&str]) -> Vec<String> {
    words.iter().map(|w| w.to_string()).collect()
}

fn line(program: &str, args: &[&str]) -> CommandLine {
    CommandLine { program: program.to_string(), args: words(args) }
}

fn bin(path: &str) -> BinFile {
    let json = "{\"reason\":\"compiler-artifact\",\"package_id\":\"foo 0.1.0 (path+file:///tmp/foo)\",\
\"target\":{\"kind\":[\"bin\"],\"name\":\"foo\",\"src_path\":\"/tmp/foo/src/main.rs\"},\
\"profile\":{\"opt_level\":\"0\",\"debuginfo\":2,\"debug_assertions\":true,\
\"overflow_checks\":true,\"test\":false},\"features\":[],\"filenames\":[],\"executable\":null,\
\"fresh\":false}\n";
    for message in cargo_metadata::Message::parse_stream(json.as_bytes()) {
        if let cargo_metadata::Message::CompilerArtifact(artifact) = message.unwrap() {
            return BinFile {
                path: path.to_string(),
                is_bench: false,
                extra_files: Vec::new(),
                profile: artifact.profile,
            };
        }
    }
    panic!("no artifact in the message");
}

const SCRIPT: &str = "profile-997 /pid == $target/ { @[ustack(100)] = count(); }";

#[test]
fn command_runs_directly_or_under_sudo() {
    assert_eq!(command(false, "dtrace"), line("dtrace", &[]));
    assert_eq!(command(true, "dtrace"), line("sudo", &["dtrace"]));
}

#[test]
fn command_line_takes_arguments_in_order() {
    let mut c = command(true, "perf");
    c.arg("record");
    c.args(&words(&["-g", "--", "x y"]));
    c.args(&[]);
    assert_eq!(c, line("sudo", &["perf", "record", "-g", "--", "x y"]));
}

#[test]
fn decimal_writes_digits() {
    for n in [0u64, 1, 9, 10, 11, 99, 100, 997, 1000, 12345, 4294967295, u64::MAX] {
        assert_eq!(decimal(n), format!("{}", n));
    }
}

#[test]
fn join_puts_the_separator_between() {
    assert_eq!(join(&[], ","), "");
    assert_eq!(join(&words(&["a"]), ","), "a");
    assert_eq!(join(&words(&["a", "b", "c"]), ","), "a,b,c");
    assert_eq!(join(&words(&["", "", ""]), ", "), ", , ");
}

#[test]
fn dtrace_samples_user_stacks() {
    assert_eq!(
        dtrace(false, &bin("/t/debug/foo"), "/tmp/x/out.stacks", None, None),
        line(
            "dtrace",
            &["-x", "ustackframes=100", "-n", SCRIPT, "-o", "/tmp/x/out.stacks", "-c", "/t/debug/foo"]
        )
    );
    assert_eq!(
        dtrace(true, &bin("/t/debug/foo"), "out", Some(99), None),
        line(
            "sudo",
            &[
                "dtrace",
                "-x",
                "ustackframes=100",
                "-n",
                "profile-99 /pid == $target/ { @[ustack(100)] = count(); }",
                "-o",
                "out",
                "-c",
                "/t/debug/foo"
            ]
        )
    );
    assert_eq!(
        dtrace(false, &bin("foo"), "out", Some(99), Some("syscall:::entry".to_string())),
        line("dtrace", &["-x", "ustackframes=100", "-n", "syscall:::entry", "-o", "out", "-c", "foo"])
    );
    assert_eq!(DTRACE_OUTPUT_FILENAME, "cargo-profile-flamegraph.stacks");
}

#[test]
fn make_dtrace_command_runs_the_binary_with_its_arguments() {
    assert_eq!(
        make_dtrace_command(false, &bin("/t/foo"), "out", None, None, &words(&["-t", "a.txt"])),
        line("dtrace", &["-x", "ustackframes=100", "-n", SCRIPT, "-o", "out", "-c", "/t/foo -t a.txt"])
    );
}

#[test]
fn perf_records_call_graphs() {
    assert_eq!(
        perf(false, "perf", &bin("/t/foo"), None, &words(&["--fast", "1"])),
        line("perf", &["record", "-F", "997", "--call-graph", "dwarf", "-g", "/t/foo", "--fast", "1"])
    );
    assert_eq!(
        perf(true, "/opt/perf", &bin("/t/foo"), Some(4000), &[]),
        line("sudo", &["/opt/perf", "record", "-F", "4000", "--call-graph", "dwarf", "-g", "/t/foo"])
    );
}

#[test]
fn run_xctrace_records_a_time_profile() {
    assert_eq!(
        run_xctrace(false, &bin("/t/foo")),
        line("xcrun", &["xctrace", "record", "--template", "Time Profiler", "--launch", "--", "/t/foo"])
    );
    assert_eq!(
        run_xctrace(true, &bin("/t/foo")),
        line(
            "sudo",
            &["xcrun", "xctrace", "record", "--template", "Time Profiler", "--launch", "--", "/t/foo"]
        )
    );
}

#[test]
fn terminated_by_error_spares_interrupts() {
    assert_eq!(SIGINT, 2);
    assert_eq!(SIGTERM, 15);
    assert!(!terminated_by_error(Exit { signal: None, success: true }));
    assert!(terminated_by_error(Exit { signal: None, success: false }));
    assert!(!terminated_by_error(Exit { signal: Some(2), success: false }));
    assert!(!terminated_by_error(Exit { signal: Some(15), success: false }));
    assert!(terminated_by_error(Exit { signal: Some(9), success: false }));
    assert!(terminated_by_error(Exit { signal: Some(11), success: false }));
    assert!(!terminated_by_error(Exit { signal: Some(9), success: true }));
}

#[test]
fn run_profiler_fails_where_the_profiler_did() {
    assert_eq!(run_profiler(Exit { signal: None, success: true }), Ok(()));
    assert_eq!(run_profiler(Exit { signal: Some(2), success: false }), Ok(()));
    assert_eq!(run_profiler(Exit { signal: None, success: false }), Err(ProfilerProcessFailure));
    assert_eq!(run_profiler(Exit { signal: Some(6), success: false }), Err(ProfilerProcessFailure));
}

#[test]
fn trace_tool_target() {
    let a = CargoTarget { lib: true, ..target() };
    assert!(TraceTool::Dtrace { target: a.clone() }.target().lib);
    assert!(TraceTool::Perf { target: a.clone() }.target().lib);
    assert!(TraceTool::Xctrace { target: a }.target().lib);
    assert!(!TraceTool::Xctrace { target: target() }.target().lib);
}

#[test]
fn trace_command_runs_xctrace_on_one_binary() {
    let xctrace = TraceCommand { root: true, tool: TraceTool::Xctrace { target: target() } };
    assert_eq!(xctrace.run(&vec![bin("/t/foo")]), Ok(Some(run_xctrace(true, &bin("/t/foo")))));
    assert_eq!(xctrace.run(&Vec::new()), Err(BinaryCount(0)));
    assert_eq!(xctrace.run(&vec![bin("/t/a"), bin("/t/b")]), Err(BinaryCount(2)));
    let dtrace = TraceCommand { root: false, tool: TraceTool::Dtrace { target: target() } };
    assert_eq!(dtrace.run(&vec![bin("/t/foo")]), Ok(None));
    assert_eq!(dtrace.run(&Vec::new()), Err(BinaryCount(0)));
    let perf = TraceCommand { root: false, tool: TraceTool::Perf { target: target() } };
    assert_eq!(perf.run(&vec![bin("/t/foo")]), Ok(None));
}

#[test]
fn flamegraph_command_profiles_one_binary_on_macos() {
    let command = FlameGraphCommand { root: false, target: target(), release: false };
    assert_eq!(
        command.run(&vec![bin("/t/foo")], true, "/tmp/d/out"),
        Ok(dtrace(false, &bin("/t/foo"), "/tmp/d/out", None, None))
    );
    assert_eq!(
        command.run(&vec![bin("/t/foo")], false, "/tmp/d/out"),
        Err(FlameGraphError::UnsupportedPlatform)
    );
    assert_eq!(command.run(&Vec::new(), true, "out"), Err(FlameGraphError::BinaryCount(0)));
    assert_eq!(
        command.run(&vec![bin("/t/a"), bin("/t/b"), bin("/t/c")], false, "out"),
        Err(FlameGraphError::BinaryCount(3))
    );
}

#[test]
fn cpu_command_profiles_with_the_target_arguments() {
    let command = CpuCommand::PerFn {
        root: true,
        target: CargoTarget { target_args: words(&["--n", "3"]), ..target() },
        release: false,
    };
    assert_eq!(
        command.run(&bin("/t/foo"), true, "out"),
        Ok(line(
            "sudo",
            &["dtrace", "-x", "ustackframes=100", "-n", SCRIPT, "-o", "out", "-c", "/t/foo --n 3"]
        ))
    );
    assert_eq!(command.run(&bin("/t/foo"), false, "out"), Err(CpuError::UnsupportedPlatform));
}

#[test]
fn instruments_command_plans() {
    let command = InstrumentsCommand {
        target: target(),
        list_templates: false,
        template_name: Some("time".to_string()),
        time_limit: None,
        no_open: false,
    };
    assert_eq!(
        command.run(false),
        InstrumentsPlan { list_templates: false, codesign: false, open: true }
    );
    assert_eq!(command.run(true), InstrumentsPlan { list_templates: false, codesign: true, open: true });
    let quiet = InstrumentsCommand { no_open: true, ..command.clone() };
    assert_eq!(quiet.run(true), InstrumentsPlan { list_templates: false, codesign: true, open: false });
    let list = InstrumentsCommand { list_templates: true, template_name: None, ..command };
    assert_eq!(list.run(true), InstrumentsPlan { list_templates: true, codesign: false, open: false });
}

#[test]
fn profile_target_records_with_the_template() {
    let command = InstrumentsCommand {
        target: CargoTarget { target_args: words(&["--n", "3"]), ..target() },
        list_templates: false,
        template_name: Some("Time Profiler".to_string()),
        time_limit: Some(2500),
        no_open: false,
    };
    assert_eq!(
        profile_target(&command, &bin("/t/foo"), "/w/target/instruments/foo.trace"),
        Some(line(
            "xcrun",
            &[
                "xctrace",
                "record",
                "--template",
                "Time Profiler",
                "--time-limit",
                "2500ms",
                "--output",
                "/w/target/instruments/foo.trace",
                "--launch",
                "--",
                "/t/foo",
                "--n",
                "3"
            ]
        ))
    );
    let unlimited = InstrumentsCommand { time_limit: None, target: target(), ..command.clone() };
    assert_eq!(
        profile_target(&unlimited, &bin("/t/foo"), "out.trace"),
        Some(line(
            "xcrun",
            &["xctrace", "record", "--template", "Time Profiler", "--output", "out.trace", "--launch", "--", "/t/foo"]
        ))
    );
    let none = InstrumentsCommand { template_name: None, ..command };
    assert_eq!(profile_target(&none, &bin("/t/foo"), "out.trace"), None);
}

#[test]
fn codesign_signs_with_the_entitlements() {
    assert_eq!(
        codesign("/t/debug/entitlements.plist", "/t/debug/foo"),
        line(
            "codesign",
            &["-s", "-", "-f", "--entitlements", "/t/debug/entitlements.plist", "/t/debug/foo"]
        )
    );
    assert_eq!(ENTITLEMENTS_FILENAME, "entitlements.plist");
    assert!(ENTITLEMENTS_PLIST_DATA.starts_with("<?xml version=\"1.0\" encoding=\"UTF-8\"?>\n<!DOCTYPE plist"));
    assert!(ENTITLEMENTS_PLIST_DATA.contains("<key>com.apple.security.get-task-allow</key>\n        <true/>"));
    assert!(ENTITLEMENTS_PLIST_DATA.ends_with("</plist>"));
}

#[test]
fn codesign_failure_quotes_the_outputs() {
    assert_eq!(codesign_failure("", ""), "Code signing failed: ");
    assert_eq!(codesign_failure("done", ""), "Code signing failed: stdout: \"done\"");
    assert_eq!(codesign_failure("", "no identity"), "Code signing failed: stderr: \"no identity\"");
    assert_eq!(
        codesign_failure("a\n", "b"),
        "Code signing failed: stdout: \"a\n\"\nstderr: \"b\""
    );
}

#[test]
fn launch_instruments_opens_the_trace() {
    assert_eq!(launch_instruments("target/x.trace"), line("open", &["target/x.trace"]));
}

#[test]
fn strip_subcommand_takes_the_name_out() {
    assert_eq!(
        strip_subcommand(words(&["cargo-profile", "profile", "cpu", "per-fn"]), true),
        words(&["cargo-profile", "cpu", "per-fn"])
    );
    assert_eq!(
        strip_subcommand(words(&["cargo", "profile", "cpu"]), true),
        words(&["cargo", "cpu"])
    );
    assert_eq!(strip_subcommand(words(&["cargo", "flamegraph"]), true), words(&["cargo"]));
    assert_eq!(
        strip_subcommand(words(&["cargo-profile", "cpu", "profile"]), true),
        words(&["cargo-profile", "cpu", "profile"])
    );
    assert_eq!(strip_subcommand(words(&["cargo-profile"]), true), words(&["cargo-profile"]));
    assert_eq!(
        strip_subcommand(words(&["cargo-profile", "profile", "cpu"]), false),
        words(&["cargo-profile", "profile", "cpu"])
    );
    assert_eq!(strip_subcommand(Vec::new(), false), Vec::<String>::new());
}

const STACKS: &[u8] = b"CPU     ID                    FUNCTION:NAME\n\n              libc.so`write+0xa\n              app`main+0x10\n                3\n\n              app`main+0x14\n                2\n\n";

#[test]
fn to_collapsed_folds_stacks() {
    assert_eq!(to_collapsed(STACKS), Ok(b"app`main 2\napp`main;libc.so`write 3\n".to_vec()));
    assert_eq!(cargo_profile::flamegraph::macos::to_collapsed(STACKS), to_collapsed(STACKS));
    assert_eq!(to_collapsed(b""), Ok(Vec::new()));
    assert_eq!(to_collapsed(b"header\n\napp`main+0x10\n"), Err(CollapseFailure));
}

#[test]
fn render_draws_an_svg() {
    let svg = String::from_utf8(render(STACKS).unwrap()).unwrap();
    assert!(svg.starts_with("<?xml"));
    assert!(svg.contains("<svg"));
    assert!(svg.contains("main"));
    assert!(svg.contains("write"));
}

#[test]
fn render_fails_on_stacks_that_do_not_fold() {
    assert_eq!(render(b"header\n\napp`main+0x10\n"), Err(FlameGraphError::Collapse));
}

#[test]
fn render_fails_without_stacks() {
    assert_eq!(render(b""), Err(FlameGraphError::Render));
}

#[test]
fn rendered_passes_the_drawing_on() {
    assert_eq!(rendered(Some(b"<svg/>".to_vec())), Ok(b"<svg/>".to_vec()));
    assert_eq!(rendered(None), Err(FlameGraphError::Render));
}

#[test]
fn line_kind_tells_counts_from_frames() {
    assert_eq!(line_kind(b""), Line::Blank);
    assert_eq!(line_kind(b" \t\r\n\x0b\x0c"), Line::Blank);
    assert_eq!(line_kind(b"3"), Line::Count(3));
    assert_eq!(line_kind(b"        12\n"), Line::Count(12));
    assert_eq!(line_kind(b"\x0b+007\x0c"), Line::Count(7));
    assert_eq!(line_kind(b"0"), Line::Count(0));
    assert_eq!(line_kind(format!(" {}", usize::MAX).as_bytes()), Line::Count(usize::MAX));
    assert_eq!(line_kind(b" 340282366920938463463374607431768211456"), Line::Beyond);
    assert_eq!(line_kind(b"+"), Line::Frame);
    assert_eq!(line_kind(b"-3"), Line::Frame);
    assert_eq!(line_kind(b"+ 3"), Line::Frame);
    assert_eq!(line_kind(b"3 4"), Line::Frame);
    assert_eq!(line_kind(b"3x"), Line::Frame);
    assert_eq!(line_kind(b"\x1c3"), Line::Frame);
    assert_eq!(line_kind(b"  app`main+0x10"), Line::Frame);
    for text in ["3", " 12 ", "+5", "x", "", "+", "1 2", "\u{b}9\u{c}", "00018446744073709551615"] {
        let expected = match text.trim().parse::<usize>() {
            Ok(count) => Line::Count(count),
            Err(_) if text.trim().is_empty() => Line::Blank,
            Err(_) => Line::Frame,
        };
        assert_eq!(line_kind(text.as_bytes()), expected, "{:?}", text);
    }
}

#[test]
fn can_fold_wants_frames_before_counts() {
    assert!(can_fold(b""));
    assert!(can_fold(STACKS));
    assert!(can_fold(b"3\n7\n\nlibc.so`write+0xa\n 3\n"));
    assert!(can_fold(b"header\n\napp`main+0x10\n"));
    assert!(can_fold(b"\n\n\n a`b \n\n\n 1 \n\n"));
    assert!(can_fold(b"header only, and a count\n3"));
    assert!(!can_fold(b"\n3\n"));
    assert!(!can_fold(b"header\n \t\n\n+3\n"));
    assert!(!can_fold(b"\na`b\n1\n2\n"));
    assert!(!can_fold(b"\na`b\n1\n\n2\n"));
    assert!(!can_fold(b"\na`\xc3\xa9\n1\n"));
    assert!(!can_fold(b"caf\xc3\xa9\n\na`b\n1\n"));
    assert!(!can_fold(b"\na`b\xff\n1\n"));
    assert!(can_fold(format!("\na`b\n{}\n", usize::MAX).as_bytes()));
    assert!(!can_fold(format!("\na`b\n{}\na`c\n1\n", usize::MAX).as_bytes()));
    assert!(!can_fold(b"\na`b\n340282366920938463463374607431768211456\n"));
}

#[test]
fn to_collapsed_fails_where_the_text_is_not_foldable() {
    assert_eq!(
        to_collapsed(b"\na`\xc3\xa9\xc3\xa9\xc3\xa9\xc3\xa9\xc3\xa9\xc3\xa9\xc3\xa9\xc3\xa9\xc3\xa9\n1\n"),
        Err(CollapseFailure)
    );
    assert_eq!(to_collapsed(b"\n1\n"), Err(CollapseFailure));
    assert_eq!(to_collapsed(b"\na`b\n1\n1\n"), Err(CollapseFailure));
    assert_eq!(
        to_collapsed(format!("\na`b\n{}\na`b\n1\n", usize::MAX).as_bytes()),
        Err(CollapseFailure)
    );
    assert_eq!(render(b"\n1\n"), Err(FlameGraphError::Collapse));
}

#[test]
fn to_collapsed_takes_counts_as_the_collapser_does() {
    assert_eq!(to_collapsed(b"5\n\na`b\n+3\n"), Ok(b"a`b 3\n".to_vec()));
    assert_eq!(to_collapsed(b"\na`b\n\x0b3\x0c\na`b\n 4\n"), Ok(b"a`b 7\n".to_vec()));
    assert_eq!(
        to_collapsed(format!("\na`b\n{}\n", usize::MAX).as_bytes()),
        Ok(format!("a`b {}\n", usize::MAX).into_bytes())
    );
    assert_eq!(
        to_collapsed(b"\nlib`func_with_a_long_name::h0123456789abcdef\n2\n"),
        Ok(b"lib`func_with_a_long_name 2\n".to_vec())
    );
}

#[test]
fn can_draw_wants_room_for_the_counts() {
    let limit = usize::MAX / 400;
    assert!(can_draw(b""));
    assert!(can_draw(b"a;b 10\na;c 5\n"));
    assert!(can_draw(format!("a;b {}", limit).as_bytes()));
    assert!(can_draw(format!("a;b {}\n", limit).as_bytes()));
    assert!(!can_draw(format!("a;b {}", limit + 1).as_bytes()));
    assert!(!can_draw(format!("a;b {}\n", limit + 1).as_bytes()));
    assert!(!can_draw(format!("a;b {}\na;c 1\n", limit).as_bytes()));
    assert!(!can_draw(format!("a;b 1 {}\n", limit).as_bytes()));
    assert!(!can_draw(format!("a;b{} 1\n", limit).as_bytes()));
    assert!(can_draw(format!("a{};b {}\n", usize::MAX, limit).as_bytes()));
    assert!(can_draw(format!("a{}0000;b 1\n", usize::MAX).as_bytes()));
    assert!(can_draw(format!("a;b {}.{}\n", limit - 7, 7).as_bytes()));
    assert!(!can_draw(b"a;b 340282366920938463463374607431768211456\n"));
    assert!(!can_draw(format!("a 1\nb {}\nc 2\n", limit - 2).as_bytes()));
    assert!(can_draw(format!("a 1\nb {}\nc 2\n", limit - 3).as_bytes()));
}

#[test]
fn draw_folded_draws_what_is_drawable() {
    let svg = String::from_utf8(draw_folded(b"app`main 2\napp`main;libc.so`write 3\n").unwrap()).unwrap();
    assert!(svg.contains("<svg"));
    assert!(svg.contains("write"));
    assert_eq!(
        draw_folded(format!("app`main {}\n", usize::MAX / 100).as_bytes()),
        Err(FlameGraphError::Render)
    );
    assert_eq!(draw_folded(b""), Err(FlameGraphError::Render));
    assert_eq!(draw_folded(b"no count\n"), Err(FlameGraphError::Render));
    let most = draw_folded(format!("app`main {}\n", usize::MAX / 400).as_bytes()).unwrap();
    assert!(String::from_utf8(most).unwrap().contains("<svg"));
}

#[test]
fn render_fails_on_counts_too_large_to_draw() {
    let stacks = format!("\napp`main+0x10\n{}\n", usize::MAX / 100);
    assert_eq!(
        to_collapsed(stacks.as_bytes()),
        Ok(format!("app`main {}\n", usize::MAX / 100).into_bytes())
    );
    assert_eq!(render(stacks.as_bytes()), Err(FlameGraphError::Render));
}

#[test]
fn plain_lines_keep_other_characters_to_the_module() {
    assert!(plain(b""));
    assert!(plain(b"  app`main+0x10"));
    assert!(plain(b"no backtick"));
    assert!(plain(b"Caf\xc3\xa9`main"));
    assert!(plain(b"\xff\xfe`main`more"));
    assert!(plain(b"\xc3\xa9`"));
    assert!(!plain(b"Caf\xc3\xa9"));
    assert!(!plain(b"app`m\xc3\xa9in"));
    assert!(!plain(b"\xc3\xa9`a`\xc3\xa9"));
    assert!(!plain(b"`\xc3\xa9"));
    assert!(!plain(b"\xa0"));
}

#[test]
fn to_collapsed_folds_modules_of_any_name() {
    assert!(can_fold(b"\nCaf\xc3\xa9`main\n1\n"));
    assert_eq!(
        to_collapsed(b"\nCaf\xc3\xa9`main+0x10\n2\n"),
        Ok("Caf\u{e9}`main 2\n".as_bytes().to_vec())
    );
    assert_eq!(
        to_collapsed(b"\nCaf\xff`main\n1\n"),
        Ok("Caf\u{fffd}`main 1\n".as_bytes().to_vec())
    );
    assert_eq!(
        to_collapsed(b"\n\xc3\xa9\xc3\xa9`func_with_a_long_name::h0123456789abcdef\n2\n"),
        Ok("\u{e9}\u{e9}`func_with_a_long_name 2\n".as_bytes().to_vec())
    );
    assert_eq!(
        to_collapsed("\n\u{e9}\u{e9}\u{e9}\u{e9}\u{e9}\u{e9}\u{e9}\u{e9}\u{e9}`f\n1\n".as_bytes()),
        Ok("\u{e9}\u{e9}\u{e9}\u{e9}\u{e9}\u{e9}\u{e9}\u{e9}\u{e9}`f 1\n".as_bytes().to_vec())
    );
    for stacks in [
        &b"\n\xc3\xa9+x`f\n1\n"[..],
        b"\n\xc3\xa9::x(`f\n1\n",
        b"\n\xc3\xa9->y`f->g\n1\n",
        b"\n\xc3\xa9;`f;g\n1\n",
        b"\n\xc2\xa0\xc3\xa9`aaaaaaaaaaaaaaaaaaaaaaaaaaaaaaaaaa  \n1\n",
        b"\xc3\xa9`header\n\n\xe2\x80\x83x`f\n3\n",
        b"\n\xc3\xa9`f`\n1\n\xf0\x9f\x98\x80`h0123456789abcdef\n2\n",
    ] {
        assert!(can_fold(stacks));
        assert!(to_collapsed(stacks).is_ok());
    }
    assert_eq!(to_collapsed(b"\napp`m\xc3\xa9in\n1\n"), Err(CollapseFailure));
    assert_eq!(to_collapsed(b"\nCaf\xc3\xa9\n1\n"), Err(CollapseFailure));
    assert_eq!(to_collapsed(b"Caf\xc3\xa9\n\napp`main\n1\n"), Err(CollapseFailure));
    assert_eq!(to_collapsed(b"\napp`main\n\xc2\xa01\n"), Err(CollapseFailure));
}

#[test]
fn draw_folded_fails_where_the_renderer_does() {
    assert_eq!(draw_folded(b"  b 1\n a 1\n"), Err(FlameGraphError::Render));
    assert!(draw_folded(b"b 1\n a 1\n").is_ok());
    assert_eq!(draw_folded(b"a 0\n"), Err(FlameGraphError::Render));
    assert_eq!(draw_folded(b"a\xff 1\n"), Err(FlameGraphError::Render));
    assert!(draw_folded(b"a 1\nb 1\n").is_ok());
}
