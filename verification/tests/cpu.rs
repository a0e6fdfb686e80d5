use cargo_profile::cpu::merge::{frames, CollapsedSample, Frame, TimedFrame};
use cargo_profile::cpu::names::{text_order, NameTable, Order};
use cargo_profile::cpu::parse::{
    lines, parse_collapsed, parse_line, parse_weight, split, strip_weight, StackLine,
};
use cargo_profile::cpu::{
    aggregate, process_collapsed, profile, rank, CpuError, FnTimingInfo, Profile, ProfileError,
    REPORT_HEADER,
};

fn timing<'a>(profile: &'a Profile, name: &[u8]) -> &'a FnTimingInfo {
    let found: Vec<&FnTimingInfo> =
        profile.functions.iter().filter(|f| f.name == name).collect();
    assert_eq!(found.len(), 1);
    found[0]
}

fn row(name: &[u8], total_used: usize, self_used: usize) -> FnTimingInfo {
    FnTimingInfo { name: name.to_vec(), total_used, self_used }
}

fn timed(function: usize, depth: usize, start_time: usize, end_time: usize) -> TimedFrame {
    TimedFrame { location: Frame { function, depth }, start_time, end_time }
}

#[test]
fn two_samples_sharing_a_root() {
    let profile = process_collapsed(b"lib`a;lib`b 10\nlib`a;lib`c 5\n").unwrap();
    assert_eq!(profile.total_time, 15);
    assert_eq!(profile.ignored, 0);
    assert_eq!(profile.functions.len(), 3);
    assert_eq!(timing(&profile, b"b").total_used, 10);
    assert_eq!(timing(&profile, b"b").self_used, 10);
    assert_eq!(timing(&profile, b"c").total_used, 5);
    assert_eq!(timing(&profile, b"c").self_used, 5);
    assert_eq!(timing(&profile, b"a").total_used, 15);
    assert_eq!(timing(&profile, b"a").self_used, 0);
}

#[test]
fn empty_input_is_an_empty_profile() {
    assert_eq!(process_collapsed(b""), Err(ProfileError::EmptyProfile));
}

#[test]
fn single_self_only_sample() {
    let profile = process_collapsed(b"lib`a 7").unwrap();
    assert_eq!(profile.total_time, 7);
    assert_eq!(profile.functions, vec![row(b"a", 7, 7)]);
    assert_eq!(profile.ignored, 0);
}

#[test]
fn functions_come_in_the_order_the_text_names_them() {
    let profile = process_collapsed(b"lib`a;lib`b 10\nlib`a;lib`c 5\n").unwrap();
    assert_eq!(profile.functions, vec![row(b"a", 15, 0), row(b"b", 10, 10), row(b"c", 5, 5)]);
}

#[test]
fn only_weightless_samples_are_an_empty_profile() {
    assert_eq!(process_collapsed(b"lib`a 0\nlib`b 0\n"), Err(ProfileError::EmptyProfile));
}

#[test]
fn only_malformed_lines_are_an_empty_profile() {
    assert_eq!(process_collapsed(b"no separator 3\n\n"), Err(ProfileError::EmptyProfile));
}

#[test]
fn a_malformed_line_is_counted_and_changes_nothing_else() {
    let clean = process_collapsed(b"lib`a;lib`b 10\nlib`a;lib`c 5\n").unwrap();
    for text in [
        &b"a;b 3\nlib`a;lib`b 10\nlib`a;lib`c 5\n"[..],
        &b"lib`a;lib`b 10\na;b 3\nlib`a;lib`c 5\n"[..],
        &b"lib`a;lib`b 10\nlib`a;lib`c 5\na;b 3\n"[..],
    ] {
        let with = process_collapsed(text).unwrap();
        assert_eq!(with.ignored, 1);
        assert_eq!(with.total_time, clean.total_time);
        assert_eq!(with.functions, clean.functions);
    }
}

#[test]
fn self_times_add_up_to_the_total_time() {
    let text = b"m`main;m`parse;m`read 4\nm`main;m`parse 3\nm`main;m`run;m`step;m`read 6\n\
m`main;m`run;m`step 2\nm`main 1\nm`other;m`read 5\nm`main;m`run 0\n";
    let profile = process_collapsed(text).unwrap();
    assert_eq!(profile.total_time, 21);
    let own: usize = profile.functions.iter().map(|f| f.self_used).sum();
    assert_eq!(own, 21);
    for f in &profile.functions {
        assert!(f.self_used <= f.total_used);
    }
    assert_eq!(
        profile.functions,
        vec![
            row(b"main", 16, 1),
            row(b"parse", 7, 3),
            row(b"read", 15, 15),
            row(b"run", 8, 0),
            row(b"step", 8, 2),
            row(b"other", 5, 0),
        ]
    );
}

#[test]
fn a_function_below_itself_counts_at_every_depth() {
    let profile = process_collapsed(b"m`f;m`f;m`g 4\nm`f 2\n").unwrap();
    assert_eq!(profile.total_time, 6);
    assert_eq!(profile.functions, vec![row(b"f", 10, 2), row(b"g", 4, 4)]);
}

#[test]
fn the_same_path_apart_gives_the_same_table() {
    let profile = process_collapsed(b"m`a;m`b 1\nm`c 2\nm`a;m`b 3\n").unwrap();
    assert_eq!(profile.total_time, 6);
    assert_eq!(profile.functions, vec![row(b"a", 4, 0), row(b"b", 4, 4), row(b"c", 2, 2)]);
}

#[test]
fn processing_twice_gives_the_same() {
    let text = b"m`main;m`parse 3\nm`main;m`run 4\nbad\nm`main 2\n";
    assert_eq!(process_collapsed(text), process_collapsed(text));
}

#[test]
fn weights_beyond_usize_in_all_overflow() {
    let text = format!("lib`a {}\nlib`b 1\n", usize::MAX);
    assert_eq!(process_collapsed(text.as_bytes()), Err(ProfileError::Overflow));
}

#[test]
fn a_total_beyond_usize_overflows() {
    let text = format!("lib`a;lib`a {}\n", usize::MAX);
    assert_eq!(process_collapsed(text.as_bytes()), Err(ProfileError::Overflow));
}

#[test]
fn the_greatest_weight_is_read() {
    let text = format!("lib`a {}\n", usize::MAX);
    let profile = process_collapsed(text.as_bytes()).unwrap();
    assert_eq!(profile.total_time, usize::MAX);
    assert_eq!(profile.functions, vec![row(b"a", usize::MAX, usize::MAX)]);
}

#[test]
fn a_weight_beyond_usize_makes_the_line_malformed() {
    let text = b"lib`a 99999999999999999999999999\nlib`b 1\n";
    let profile = process_collapsed(text).unwrap();
    assert_eq!(profile.ignored, 1);
    assert_eq!(profile.functions, vec![row(b"b", 1, 1)]);
}

#[test]
fn split_gives_the_pieces_between_separators() {
    assert_eq!(split(b"a;b;c", b';'), vec![b"a".to_vec(), b"b".to_vec(), b"c".to_vec()]);
    assert_eq!(split(b"", b';'), vec![Vec::<u8>::new()]);
    assert_eq!(split(b";a;;", b';'), vec![vec![], b"a".to_vec(), vec![], vec![]]);
    assert_eq!(split(b"abc", b';'), vec![b"abc".to_vec()]);
}

#[test]
fn lines_end_with_newline_or_carriage_return_and_newline() {
    assert_eq!(lines(b""), Vec::<Vec<u8>>::new());
    assert_eq!(lines(b"a\nb"), vec![b"a".to_vec(), b"b".to_vec()]);
    assert_eq!(lines(b"a\nb\n"), vec![b"a".to_vec(), b"b".to_vec()]);
    assert_eq!(lines(b"a\r\nb\r\n"), vec![b"a".to_vec(), b"b".to_vec()]);
    assert_eq!(lines(b"a\n\nb"), vec![b"a".to_vec(), vec![], b"b".to_vec()]);
    assert_eq!(lines(b"a\r"), vec![b"a\r".to_vec()]);
    assert_eq!(lines(b"\n"), vec![Vec::<u8>::new()]);
    assert_eq!(lines(b"a\r\r\n"), vec![b"a\r".to_vec()]);
}

#[test]
fn carriage_returns_before_newlines_are_no_part_of_the_sample() {
    let profile = process_collapsed(b"lib`a;lib`b 10\r\nlib`a;lib`c 5\r\n").unwrap();
    assert_eq!(profile.ignored, 0);
    assert_eq!(profile.functions, vec![row(b"a", 15, 0), row(b"b", 10, 10), row(b"c", 5, 5)]);
}

#[test]
fn parse_weight_reads_the_last_run_of_digits() {
    assert_eq!(parse_weight(b"a 7"), Some(7));
    assert_eq!(parse_weight(b"a 7  "), Some(7));
    assert_eq!(parse_weight(b"a7"), Some(7));
    assert_eq!(parse_weight(b"a2 10"), Some(10));
    assert_eq!(parse_weight(b"a 007"), Some(7));
    assert_eq!(parse_weight(b"a 0"), Some(0));
    assert_eq!(parse_weight(b"1234"), Some(1234));
    assert_eq!(parse_weight(b"a"), None);
    assert_eq!(parse_weight(b"a "), None);
    assert_eq!(parse_weight(b""), None);
    assert_eq!(parse_weight(b"a 7x"), None);
    assert_eq!(parse_weight(format!("f {}", usize::MAX).as_bytes()), Some(usize::MAX));
    assert_eq!(parse_weight(b"f 340282366920938463463374607431768211456"), None);
}

#[test]
fn strip_weight_cuts_digits_and_spaces_off_the_end() {
    for (text, name) in [
        (&b"a 7"[..], &b"a"[..]),
        (b"a2 10", b"a"),
        (b"a 1 x 2 ", b"a 1 x"),
        (b"12 3", b""),
        (b"abc", b"abc"),
        (b"", b""),
    ] {
        let mut text = text.to_vec();
        strip_weight(&mut text);
        assert_eq!(text, name.to_vec());
    }
}

#[test]
fn parse_line_reads_path_and_weight() {
    assert_eq!(
        parse_line(b"lib`a;lib`b 10"),
        Some(StackLine { path: vec![b"a".to_vec(), b"b".to_vec()], weight: 10 })
    );
    assert_eq!(parse_line(b"lib`a 7"), Some(StackLine { path: vec![b"a".to_vec()], weight: 7 }));
    assert_eq!(parse_line(b"`a 7"), Some(StackLine { path: vec![b"a".to_vec()], weight: 7 }));
    assert_eq!(parse_line(b"lib` 7"), Some(StackLine { path: vec![vec![]], weight: 7 }));
    assert_eq!(
        parse_line(b"x`f 1;y`g2 30 "),
        Some(StackLine { path: vec![b"f 1".to_vec(), b"g".to_vec()], weight: 30 })
    );
}

#[test]
fn parse_line_rejects_malformed_lines() {
    assert_eq!(parse_line(b""), None);
    assert_eq!(parse_line(b"a 7"), None);
    assert_eq!(parse_line(b"lib`a;b 7"), None);
    assert_eq!(parse_line(b"a;lib`b 7"), None);
    assert_eq!(parse_line(b"lib`a`b 7"), None);
    assert_eq!(parse_line(b"lib`a"), None);
    assert_eq!(parse_line(b"lib`a;lib`b 7;"), None);
    assert_eq!(parse_line(b"lib`a 7;lib`b"), None);
    assert_eq!(parse_line(b"lib 7`"), None);
}

#[test]
fn intern_finds_or_adds() {
    let mut table = NameTable::new();
    assert_eq!(table.intern(b"b".to_vec()), 0);
    assert_eq!(table.intern(b"a".to_vec()), 1);
    assert_eq!(table.intern(b"b".to_vec()), 0);
    assert_eq!(table.intern(b"".to_vec()), 2);
    assert_eq!(table.intern(b"a".to_vec()), 1);
    assert_eq!(table.names, vec![b"b".to_vec(), b"a".to_vec(), vec![]]);
    assert_eq!(table.by_text, vec![2, 1, 0]);
    assert_eq!(
        table.intern_path(vec![b"b".to_vec(), b"ab".to_vec(), b"b".to_vec(), b"c".to_vec()]),
        vec![0, 3, 0, 4]
    );
    assert_eq!(
        table.names,
        vec![b"b".to_vec(), b"a".to_vec(), vec![], b"ab".to_vec(), b"c".to_vec()]
    );
    assert_eq!(table.by_text, vec![2, 1, 3, 0, 4]);
}

#[test]
fn intern_keeps_many_names_apart() {
    let mut table = NameTable::new();
    let mut seed: u64 = 7;
    let mut names: Vec<Vec<u8>> = Vec::new();
    for _ in 0..2000 {
        seed = seed.wrapping_mul(6364136223846793005).wrapping_add(1442695040888963407);
        let name = format!("f{}", (seed >> 33) % 300).into_bytes();
        let id = table.intern(name.clone());
        match names.iter().position(|known| *known == name) {
            Some(at) => assert_eq!(id, at),
            None => {
                assert_eq!(id, names.len());
                names.push(name);
            }
        }
    }
    assert_eq!(table.names, names);
    let mut sorted: Vec<usize> = (0..names.len()).collect();
    sorted.sort_by(|a, b| names[*a].cmp(&names[*b]));
    assert_eq!(table.by_text, sorted);
}

#[test]
fn text_order_goes_byte_by_byte() {
    assert_eq!(text_order(b"", b""), Order::Same);
    assert_eq!(text_order(b"abc", b"abc"), Order::Same);
    assert_eq!(text_order(b"", b"a"), Order::Before);
    assert_eq!(text_order(b"a", b""), Order::After);
    assert_eq!(text_order(b"ab", b"abc"), Order::Before);
    assert_eq!(text_order(b"abd", b"abc"), Order::After);
    assert_eq!(text_order(b"b", b"abc"), Order::After);
    assert_eq!(text_order(b"a\xff", b"b"), Order::Before);
    for a in [&b"x"[..], b"xy", b"", b"y", b"\x00"] {
        for b in [&b"x"[..], b"xy", b"", b"y", b"\x00"] {
            let expected = match a.cmp(b) {
                std::cmp::Ordering::Less => Order::Before,
                std::cmp::Ordering::Equal => Order::Same,
                std::cmp::Ordering::Greater => Order::After,
            };
            assert_eq!(text_order(a, b), expected);
        }
    }
}

#[test]
fn parse_collapsed_interns_names_and_counts_malformed_lines() {
    let parsed = parse_collapsed(b"lib`a;lib`b 10\noops\nlib`c;lib`a 5\n\nother`b 1");
    assert_eq!(parsed.names, vec![b"a".to_vec(), b"b".to_vec(), b"c".to_vec()]);
    assert_eq!(
        parsed.samples,
        vec![
            CollapsedSample { path: vec![0, 1], weight: 10 },
            CollapsedSample { path: vec![2, 0], weight: 5 },
            CollapsedSample { path: vec![1], weight: 1 },
        ]
    );
    assert_eq!(parsed.ignored, 2);
}

#[test]
fn names_of_malformed_lines_are_not_kept() {
    let parsed = parse_collapsed(b"lib`a;lib`b;c 10\nlib`d 1\n");
    assert_eq!(parsed.names, vec![b"d".to_vec()]);
    assert_eq!(parsed.ignored, 1);
}

#[test]
fn frames_merge_what_consecutive_samples_share() {
    let samples = vec![
        CollapsedSample { path: vec![0, 2], weight: 5 },
        CollapsedSample { path: vec![0, 1], weight: 10 },
    ];
    assert_eq!(
        frames(&samples),
        Some((vec![timed(2, 1, 0, 5), timed(1, 1, 5, 15), timed(0, 0, 0, 15)], 15))
    );
}

#[test]
fn frames_end_deepest_first_and_begin_anew_after_a_gap() {
    let samples = vec![
        CollapsedSample { path: vec![0, 1, 2], weight: 1 },
        CollapsedSample { path: vec![3], weight: 2 },
        CollapsedSample { path: vec![0, 1], weight: 3 },
        CollapsedSample { path: vec![0, 1, 2], weight: 4 },
    ];
    assert_eq!(
        frames(&samples),
        Some((
            vec![
                timed(2, 2, 0, 1),
                timed(1, 1, 0, 1),
                timed(0, 0, 0, 1),
                timed(3, 0, 1, 3),
                timed(2, 2, 6, 10),
                timed(1, 1, 3, 10),
                timed(0, 0, 3, 10),
            ],
            10
        ))
    );
}

#[test]
fn frames_of_the_same_path_in_a_row_are_one() {
    let apart = vec![
        CollapsedSample { path: vec![3], weight: 2 },
        CollapsedSample { path: vec![0, 1], weight: 3 },
        CollapsedSample { path: vec![0, 1], weight: 4 },
    ];
    let together = vec![
        CollapsedSample { path: vec![3], weight: 2 },
        CollapsedSample { path: vec![0, 1], weight: 7 },
    ];
    assert_eq!(frames(&apart), frames(&together));
    assert_eq!(
        frames(&apart),
        Some((vec![timed(3, 0, 0, 2), timed(1, 1, 2, 9), timed(0, 0, 2, 9)], 9))
    );
}

#[test]
fn frames_of_no_samples() {
    assert_eq!(frames(&Vec::new()), Some((Vec::new(), 0)));
}

#[test]
fn frames_overflow() {
    let samples = vec![
        CollapsedSample { path: vec![0], weight: usize::MAX },
        CollapsedSample { path: vec![0], weight: 1 },
    ];
    assert_eq!(frames(&samples), None);
}

#[test]
fn aggregate_takes_children_from_their_parent() {
    let names = vec![b"a".to_vec(), b"b".to_vec(), b"c".to_vec()];
    let all = vec![timed(2, 1, 0, 5), timed(1, 1, 5, 15), timed(0, 0, 0, 20)];
    assert_eq!(
        aggregate(&names, &all, 20),
        Ok(vec![row(b"a", 20, 5), row(b"b", 10, 10), row(b"c", 5, 5)])
    );
}

#[test]
fn aggregate_of_no_time_is_an_empty_profile() {
    let names = vec![b"a".to_vec()];
    assert_eq!(aggregate(&names, &vec![timed(0, 0, 0, 0)], 0), Err(ProfileError::EmptyProfile));
    assert_eq!(aggregate(&Vec::new(), &Vec::new(), 0), Err(ProfileError::EmptyProfile));
}

#[test]
fn aggregate_overflows() {
    let names = vec![b"a".to_vec()];
    let all = vec![timed(0, 1, 0, usize::MAX), timed(0, 0, 0, usize::MAX)];
    assert_eq!(aggregate(&names, &all, usize::MAX), Err(ProfileError::Overflow));
}

#[test]
fn rank_puts_the_highest_total_first() {
    let table = vec![row(b"a", 15, 0), row(b"b", 10, 10), row(b"c", 5, 5), row(b"d", 20, 1)];
    assert_eq!(rank(&table), vec![3, 0, 1, 2]);
}

#[test]
fn rank_puts_later_rows_first_among_equals() {
    let table = vec![row(b"a", 5, 0), row(b"b", 7, 1), row(b"c", 5, 5), row(b"d", 7, 1), row(b"e", 5, 2)];
    let order = rank(&table);
    assert_eq!(order, vec![3, 1, 4, 2, 0]);
    let mut sorted: Vec<&FnTimingInfo> = table.iter().collect();
    sorted.sort_by_key(|info| info.total_used);
    let expected: Vec<&FnTimingInfo> = sorted.into_iter().rev().collect();
    let ranked: Vec<&FnTimingInfo> = order.iter().map(|&k| &table[k]).collect();
    assert_eq!(ranked, expected);
}

#[test]
fn rank_of_nothing() {
    assert_eq!(rank(&Vec::new()), Vec::<usize>::new());
}

#[test]
fn report_header_names_the_columns() {
    assert_eq!(REPORT_HEADER, format!("{: <10}  | {: <10}  | {}", "Total time", "Own time", "File name"));
}

const STACKS: &[u8] = b"CPU     ID                    FUNCTION:NAME\n  0  64091                        :tick-60s\n\n\n              libsystem_kernel.dylib`__psynch_cvwait+0xa\n              app`worker+0x2c\n              app`main+0x10\n                3\n\n              app`worker+0x40\n              app`main+0x10\n                2\n\n";

#[test]
fn profile_folds_the_stacks_and_adds_up() {
    let report = profile(STACKS).unwrap();
    assert_eq!(report.total_time, 5);
    assert_eq!(report.ignored, 0);
    assert_eq!(report.functions, vec![row(b"main", 5, 0), row(b"worker", 5, 2), row(b"__psynch_cvwait", 3, 3)]);
}

#[test]
fn profile_of_stacks_that_do_not_fold() {
    assert_eq!(profile(b"header\n\napp`main+0x10\n"), Err(CpuError::Collapse));
}

#[test]
fn profile_of_no_stacks_is_empty() {
    assert_eq!(profile(b""), Err(CpuError::Profile(ProfileError::EmptyProfile)));
}

#[test]
fn a_profile_is_owed_where_the_weights_fit() {
    for text in [
        &b"lib`a 1"[..],
        b"lib`a 0\nlib`b 1\n",
        b"bad\nlib`a;lib`a;lib`a 5\n\nlib`b;lib`a 2\n",
        b"x`f;x`g 3\r\nx`g;x`f 4\r\nx`f 0\r\n",
    ] {
        let profile = process_collapsed(text).unwrap();
        let weight: usize = parse_collapsed(text).samples.iter().map(|s| s.weight).sum();
        assert!(weight > 0);
        assert_eq!(profile.total_time, weight);
        assert_eq!(profile.functions.iter().map(|f| f.self_used).sum::<usize>(), weight);
    }
    let half = usize::MAX / 2 + 1;
    let twice = format!("lib`a;lib`a {}\n", half);
    assert_eq!(process_collapsed(twice.as_bytes()), Err(ProfileError::Overflow));
    let once = format!("lib`a;lib`b {}\n", half);
    assert_eq!(process_collapsed(once.as_bytes()).unwrap().total_time, half);
}
