use cargo_profile::cargo::{
    build_command, compile, only_binary, BinFile, BuildMessage, BuiltFile, CargoTarget,
    CompileError,
};
use cargo_profile::instrument::entitlements_path;
use cargo_profile::paths::{parent, paths_in_order};
use cargo_profile::util::CommandLine;
use std::path::Path;

fn target() -> CargoTarget {
    CargoTarget {
        lib: false,
        release: false,
        bin: None,
        bench: None,
        benches: false,
        test: None,
        tests: false,
        example: None,
        examples: false,
        features: None,
        target_args: Vec::new(),
    }
}

fn words(words: &[&str]) -> Vec<String> {
    words.iter().map(|w| w.to_string()).collect()
}

fn artifact_profile(opt_level: &str) -> cargo_metadata::ArtifactProfile {
    let json = format!(
        "{{\"reason\":\"compiler-artifact\",\"package_id\":\"foo 0.1.0 (path+file:///tmp/foo)\",\
\"target\":{{\"kind\":[\"bin\"],\"crate_types\":[\"bin\"],\"name\":\"foo\",\
\"src_path\":\"/tmp/foo/src/main.rs\",\"edition\":\"2018\"}},\
\"profile\":{{\"opt_level\":\"{}\",\"debuginfo\":2,\"debug_assertions\":true,\
\"overflow_checks\":true,\"test\":false}},\"features\":[],\
\"filenames\":[\"/tmp/foo/target/debug/foo\"],\"executable\":\"/tmp/foo/target/debug/foo\",\
\"fresh\":false}}\n",
        opt_level
    );
    for message in cargo_metadata::Message::parse_stream(json.as_bytes()) {
        if let cargo_metadata::Message::CompilerArtifact(artifact) = message.unwrap() {
            return artifact.profile;
        }
    }
    panic!("no artifact in the message");
}

fn artifact(kinds: &[&str], files: &[(&str, bool)], opt_level: &str) -> BuildMessage {
    BuildMessage::Artifact {
        kinds: words(kinds),
        files: files
            .iter()
            .map(|(path, executable)| BuiltFile { path: path.to_string(), executable: *executable })
            .collect(),
        profile: artifact_profile(opt_level),
    }
}

fn bin(path: &str, is_bench: bool, extra_files: &[&str], opt_level: &str) -> BinFile {
    BinFile {
        path: path.to_string(),
        is_bench,
        extra_files: words(extra_files),
        profile: artifact_profile(opt_level),
    }
}

#[test]
fn supports_release_flag_for_tests_and_examples() {
    assert!(!target().supports_release_flag());
    assert!(CargoTarget { tests: true, ..target() }.supports_release_flag());
    assert!(CargoTarget { test: Some("t".to_string()), ..target() }.supports_release_flag());
    assert!(CargoTarget { examples: true, ..target() }.supports_release_flag());
    assert!(CargoTarget { example: Some("e".to_string()), ..target() }.supports_release_flag());
    assert!(!CargoTarget {
        lib: true,
        release: true,
        bin: Some("b".to_string()),
        bench: Some("b".to_string()),
        benches: true,
        ..target()
    }
    .supports_release_flag());
}

#[test]
fn args_are_the_target_arguments() {
    let target = CargoTarget { target_args: words(&["-t", "test1.txt", "--slow-mode"]), ..target() };
    assert_eq!(target.args(), &words(&["-t", "test1.txt", "--slow-mode"])[..]);
    assert!(self::target().args().is_empty());
}

#[test]
fn build_command_of_a_plain_build() {
    assert_eq!(
        build_command("cargo", &target()),
        CommandLine { program: "cargo".to_string(), args: words(&["build", "--message-format=json"]) }
    );
    let all = CargoTarget {
        release: true,
        lib: true,
        examples: true,
        example: Some("demo".to_string()),
        bin: Some("ignored".to_string()),
        ..target()
    };
    assert_eq!(
        build_command("/usr/bin/cargo", &all),
        CommandLine {
            program: "/usr/bin/cargo".to_string(),
            args: words(&[
                "build",
                "--release",
                "--lib",
                "--examples",
                "--example",
                "demo",
                "--message-format=json"
            ])
        }
    );
}

#[test]
fn build_command_of_benchmarks() {
    let benches = CargoTarget { benches: true, tests: true, lib: true, ..target() };
    assert_eq!(
        build_command("cargo", &benches).args,
        words(&["bench", "--no-run", "--debug", "--benches", "--message-format=json"])
    );
    let bench = CargoTarget { bench: Some("fixture".to_string()), release: true, ..target() };
    assert_eq!(
        build_command("cargo", &bench).args,
        words(&["bench", "--no-run", "--bench", "fixture", "--message-format=json"])
    );
}

#[test]
fn build_command_of_tests() {
    let tests = CargoTarget { tests: true, release: true, examples: true, ..target() };
    assert_eq!(
        build_command("cargo", &tests).args,
        words(&["test", "--no-run", "--release", "--tests", "--message-format=json"])
    );
    let test = CargoTarget { test: Some("it".to_string()), ..target() };
    assert_eq!(
        build_command("cargo", &test).args,
        words(&["test", "--no-run", "--test", "it", "--message-format=json"])
    );
}

#[test]
fn build_command_joins_features() {
    let one = CargoTarget { features: Some(words(&["a"])), ..target() };
    assert_eq!(
        build_command("cargo", &one).args,
        words(&["build", "--features", "a", "--message-format=json"])
    );
    let more = CargoTarget { features: Some(words(&["a", "b/c", "d"])), ..target() };
    assert_eq!(
        build_command("cargo", &more).args,
        words(&["build", "--features", "a,b/c,d", "--message-format=json"])
    );
    let none = CargoTarget { features: Some(Vec::new()), ..target() };
    assert_eq!(
        build_command("cargo", &none).args,
        words(&["build", "--features", "", "--message-format=json"])
    );
}

#[test]
fn compile_takes_the_first_executable_of_each_binary() {
    let messages = vec![
        BuildMessage::Other,
        artifact(&["lib"], &[("/t/debug/libfoo.rlib", true)], "0"),
        artifact(
            &["bin"],
            &[("/t/debug/foo.d", false), ("/t/debug/foo", true), ("/t/debug/foo.dSYM", true)],
            "3",
        ),
        artifact(&["custom-build"], &[("/t/debug/build/script", true)], "0"),
        BuildMessage::Finished { success: true },
    ];
    assert_eq!(
        compile(&target(), messages),
        Ok(vec![bin("/t/debug/foo", false, &["/t/debug/foo.d", "/t/debug/foo.dSYM"], "3")])
    );
}

#[test]
fn compile_sorts_by_path_and_marks_benchmarks() {
    let messages = vec![
        artifact(&["bench"], &[("/t/release/deps/zeta-1", true)], "3"),
        artifact(&["test"], &[("/t/release/deps/alpha-2", true)], "2"),
        artifact(&["example"], &[("/t/release/examples/demo", true)], "1"),
        artifact(&["lib", "bin"], &[("/t/release/deps/alpha", true)], "0"),
        artifact(&["bin"], &[("/t/release/deps/none", false)], "0"),
        artifact(&["bin"], &[], "0"),
    ];
    let benches = CargoTarget { bench: Some("zeta".to_string()), ..target() };
    assert_eq!(
        compile(&benches, messages),
        Ok(vec![
            bin("/t/release/deps/alpha", true, &[], "0"),
            bin("/t/release/deps/alpha-2", true, &[], "2"),
            bin("/t/release/deps/zeta-1", true, &[], "3"),
            bin("/t/release/examples/demo", true, &[], "1"),
        ])
    );
}

#[test]
fn compile_keeps_the_order_of_equal_paths() {
    let messages = vec![
        artifact(&["bin"], &[("/t/b", true)], "1"),
        artifact(&["bin"], &[("/t/a", true)], "2"),
        artifact(&["bin"], &[("/t/b", true)], "3"),
        artifact(&["bin"], &[("/t/a", true)], "0"),
    ];
    assert_eq!(
        compile(&target(), messages),
        Ok(vec![
            bin("/t/a", false, &[], "2"),
            bin("/t/a", false, &[], "0"),
            bin("/t/b", false, &[], "1"),
            bin("/t/b", false, &[], "3"),
        ])
    );
}

#[test]
fn compile_fails_where_the_build_failed() {
    let messages = vec![
        artifact(&["bin"], &[("/t/debug/foo", true)], "0"),
        BuildMessage::Finished { success: false },
        artifact(&["bin"], &[("/t/debug/bar", true)], "0"),
    ];
    assert_eq!(compile(&target(), messages), Err(CompileError::BuildFailed));
    assert_eq!(
        compile(&target(), vec![BuildMessage::Finished { success: false }]),
        Err(CompileError::BuildFailed)
    );
}

#[test]
fn compile_fails_without_a_binary() {
    assert_eq!(compile(&target(), Vec::new()), Err(CompileError::NoBinary));
    let messages = vec![
        artifact(&["lib"], &[("/t/debug/libfoo.rlib", true)], "0"),
        artifact(&["bin"], &[("/t/debug/foo.d", false)], "0"),
        BuildMessage::Finished { success: true },
    ];
    assert_eq!(compile(&target(), messages), Err(CompileError::NoBinary));
}

#[test]
fn paths_in_order_goes_by_components() {
    let paths = [
        "",
        ".",
        "..",
        "...",
        "/",
        "//",
        "/.",
        "/..",
        "./",
        "./.",
        "./..",
        "../.",
        "a",
        "a/",
        "a//",
        "a/.",
        "a/./",
        "a/..",
        "./a",
        ".//a",
        "././a",
        "../a",
        "-a",
        "./-a",
        "../-a",
        "!",
        "/a",
        "//a",
        "/./a",
        "/../a",
        "/a/b",
        "/a//b",
        "/a/b/",
        "/a/./b",
        "/a/./z",
        "/a/../z",
        "/a/-",
        "/a/-/z",
        "/a/.b",
        "/a/..b",
        "/a/b.",
        "/a/b..",
        "/a b",
        "a/b",
        "a.b",
        "a-b",
        "a/b/c",
        "a/bc",
        "ab/c",
        "/t/debug/foo-abc",
        "/t/debug/foo/bar",
        "/t/debug/foo",
        "/t/debug/deps/x-1",
        "/t/debug/deps/x",
        "/t/debug.d/x",
        "/t/debug/f\u{e9}",
        "/t/debug/fz",
        "/t/debug/f\u{10000}",
        "/t/debug/f\u{ffff}",
    ];
    for a in paths {
        for b in paths {
            assert_eq!(paths_in_order(a, b), Path::new(a) <= Path::new(b), "{:?} {:?}", a, b);
        }
    }
    assert!(paths_in_order("/a/b", "/a/./z"));
    assert!(!paths_in_order("/a/./z", "/a/b"));
    assert!(paths_in_order("/a/b", "/a//b"));
    assert!(paths_in_order("/a//b", "/a/b"));
    assert!(paths_in_order("a/b", "a.b"));
    assert!(!paths_in_order("a.b", "a/b"));
}

#[test]
fn compile_orders_paths_as_the_standard_library_does() {
    let messages = vec![
        artifact(&["bin"], &[("/a/./z", true)], "1"),
        artifact(&["bin"], &[("/a//b", true)], "2"),
        artifact(&["bin"], &[("/a/../-", true)], "3"),
        artifact(&["bin"], &[("/a/b", true)], "0"),
        artifact(&["bin"], &[("/a/b/", true)], "s"),
    ];
    let sorted = compile(&target(), messages).unwrap();
    let mut expected = vec![
        bin("/a/./z", false, &[], "1"),
        bin("/a//b", false, &[], "2"),
        bin("/a/../-", false, &[], "3"),
        bin("/a/b", false, &[], "0"),
        bin("/a/b/", false, &[], "s"),
    ];
    expected.sort_by_key(|b| std::path::PathBuf::from(b.path.clone()));
    assert_eq!(sorted, expected);
    assert_eq!(
        sorted.iter().map(|b| b.path.as_str()).collect::<Vec<&str>>(),
        vec!["/a/../-", "/a//b", "/a/b", "/a/b/", "/a/./z"]
    );
}

#[test]
fn binaries_and_messages_can_be_copied() {
    let binary = bin("/t/a", true, &["x"], "3");
    assert_eq!(binary.clone(), binary);
    let message = artifact(&["bin"], &[("/t/a", true)], "3");
    assert_eq!(message.clone(), message);
}

#[test]
fn only_binary_wants_one() {
    assert_eq!(only_binary(Vec::new()), Err(0));
    assert_eq!(only_binary(vec![bin("/t/a", false, &["x"], "0")]), Ok(bin("/t/a", false, &["x"], "0")));
    assert_eq!(only_binary(vec![bin("/t/a", false, &[], "0"), bin("/t/b", false, &[], "0")]), Err(2));
}

#[test]
fn parent_is_the_path_without_its_last_component() {
    assert_eq!(parent("/t/debug/foo"), Some("/t/debug".to_string()));
    assert_eq!(parent("/foo"), Some("/".to_string()));
    assert_eq!(parent("foo"), Some("".to_string()));
    assert_eq!(parent("/"), None);
    assert_eq!(parent(""), None);
    assert_eq!(parent("."), Some("".to_string()));
    assert_eq!(parent("./foo"), Some(".".to_string()));
    assert_eq!(parent("a//b/./"), Some("a".to_string()));
    let paths = [
        "", ".", "..", "...", "/", "//", "///", "/.", "/./", "/./.", "/..", "./", ".//", "./.",
        "././", "./..", "../.", "../..", "a", "a/", "a//", "a/.", "a/./", "a/./.", "a/..", "a/../",
        "./a", ".//a", "././a", "./a/.", "../a", "/a", "//a", "/./a", "/a/.", "/a//", "/../a",
        "/a/b", "/a//b", "/a/.//b", "/a/b/", "/a/./b", "/a/b/.", "/a/b/./", "/a/b//.//", "/a/../z",
        "a/b", "a//b", "a/./b", "a/.b", "a/b.", "a./b", ".a/b", "a/b/c", "/t/debug/f\u{e9}/x\u{10000}",
        "\u{e9}", "\u{e9}/", "/.\u{e9}", "./.", ".a", "..a", "/.a", "a/..b", "a/b..", "a/.../b",
    ];
    for path in paths {
        let expected = Path::new(path).parent().map(|p| p.to_str().unwrap().to_string());
        assert_eq!(parent(path), expected, "{:?}", path);
        let file = Path::new(path)
            .parent()
            .map(|p| p.join("entitlements.plist").to_str().unwrap().to_string());
        assert_eq!(entitlements_path(path), file, "{:?}", path);
    }
}

#[test]
fn entitlements_are_written_beside_the_binary() {
    assert_eq!(
        entitlements_path("/t/debug/foo"),
        Some("/t/debug/entitlements.plist".to_string())
    );
    assert_eq!(entitlements_path("/foo"), Some("/entitlements.plist".to_string()));
    assert_eq!(entitlements_path("foo"), Some("entitlements.plist".to_string()));
    assert_eq!(entitlements_path("./foo"), Some("./entitlements.plist".to_string()));
    assert_eq!(entitlements_path("/"), None);
    assert_eq!(entitlements_path(""), None);
}
