use cargo_profile::cargo::{BenchSpecifier, CargoTarget, TestSpecifier};
use cargo_profile::cpu::merge::{frames, CollapsedSample};
use cargo_profile::cpu::parse::parse_collapsed;
use cargo_profile::cpu::{aggregate, process_collapsed, CpuCommand};
use cargo_profile::flamegraph::FlameGraphCommand;
use cargo_profile::instrument::InstrumentsCommand;
use cargo_profile::trace::{TraceCommand, TraceTool};
use cargo_profile::SubCommand;

fn target() -> CargoTarget {
    CargoTarget {
        lib: true,
        release: false,
        bin: Some("main".to_string()),
        bench: None,
        benches: false,
        test: None,
        tests: false,
        example: None,
        examples: false,
        features: Some(vec!["fast".to_string()]),
        target_args: vec!["--n".to_string(), "3".to_string()],
    }
}

#[test]
fn subcommands_hold_their_commands() {
    let commands = vec![
        SubCommand::All,
        SubCommand::Flamegraph(FlameGraphCommand { root: true, target: target(), release: true }),
        SubCommand::Trace(TraceCommand { root: false, tool: TraceTool::Perf { target: target() } }),
        SubCommand::Cpu(CpuCommand::PerFn { root: false, target: target(), release: false }),
        SubCommand::Instruments(InstrumentsCommand {
            target: target(),
            list_templates: true,
            template_name: None,
            time_limit: Some(1000),
            no_open: true,
        }),
        SubCommand::BinPath { target: target() },
    ];
    let copies = commands.clone();
    assert_eq!(copies.len(), 6);
    match &copies[1] {
        SubCommand::Flamegraph(command) => {
            assert!(command.root);
            assert!(command.release);
            assert_eq!(command.target.args(), &["--n".to_string(), "3".to_string()][..]);
        }
        other => panic!("{:?}", other),
    }
    match &copies[5] {
        SubCommand::BinPath { target } => assert_eq!(target.bin, Some("main".to_string())),
        other => panic!("{:?}", other),
    }
}

#[test]
fn specifiers_hold_their_options() {
    let tests = TestSpecifier {
        lib: true,
        test: Some("it".to_string()),
        tests: false,
        args: vec!["--nocapture".to_string()],
    };
    let copy = tests.clone();
    assert!(copy.lib);
    assert_eq!(copy.test, Some("it".to_string()));
    assert!(!copy.tests);
    assert_eq!(copy.args, vec!["--nocapture".to_string()]);
    let benches = BenchSpecifier { lib: false, bench: None, benches: true, args: Vec::new() };
    let copy = benches.clone();
    assert!(!copy.lib);
    assert_eq!(copy.bench, None);
    assert!(copy.benches);
    assert!(copy.args.is_empty());
}

#[test]
fn aggregating_twice_gives_the_same_table() {
    let parsed = parse_collapsed(b"m`main;m`parse 3\nm`main;m`run;m`step 4\nm`main 2\nm`idle 1\n");
    let (all, total_time) = frames(&parsed.samples).unwrap();
    let first = aggregate(&parsed.names, &all, total_time);
    let second = aggregate(&parsed.names, &all, total_time);
    assert!(first.is_ok());
    assert_eq!(first, second);
}

#[test]
fn the_order_of_the_samples_does_not_change_the_table() {
    let forward = parse_collapsed(b"m`a;m`b 3\nm`a;m`c 4\nm`a;m`b 2\nm`d 1\n");
    let mut backward: Vec<CollapsedSample> = forward.samples.clone();
    backward.reverse();
    let (first, first_time) = frames(&forward.samples).unwrap();
    let (second, second_time) = frames(&backward).unwrap();
    assert_eq!(first_time, 10);
    assert_eq!(second_time, 10);
    assert_eq!(
        aggregate(&forward.names, &first, first_time),
        aggregate(&forward.names, &second, second_time)
    );
    assert_eq!(
        process_collapsed(b"m`a;m`b 3\nm`a;m`c 4\nm`a;m`b 2\nm`d 1\n").unwrap().functions,
        aggregate(&forward.names, &first, first_time).unwrap()
    );
}
