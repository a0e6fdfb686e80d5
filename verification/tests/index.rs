use cargo_profile::cpu::index::{own_times, parent_of, sorted_places};
use cargo_profile::cpu::merge::{frames, CollapsedSample, Frame, TimedFrame};
use cargo_profile::cpu::{aggregate, process_collapsed, FnTimingInfo};

fn timed(function: usize, depth: usize, start_time: usize, end_time: usize) -> TimedFrame {
    TimedFrame { location: Frame { function, depth }, start_time, end_time }
}

fn scanned(all: &[TimedFrame]) -> Vec<usize> {
    all.iter()
        .map(|frame| {
            let below: usize = all
                .iter()
                .filter(|child| {
                    frame.location.depth + 1 == child.location.depth
                        && frame.start_time <= child.start_time
                        && child.end_time <= frame.end_time
                })
                .map(|child| child.end_time - child.start_time)
                .sum();
            frame.end_time - frame.start_time - below
        })
        .collect()
}

fn forest() -> Vec<TimedFrame> {
    vec![
        timed(2, 2, 0, 1),
        timed(1, 1, 0, 1),
        timed(0, 0, 0, 1),
        timed(3, 0, 1, 3),
        timed(4, 1, 3, 3),
        timed(2, 2, 6, 10),
        timed(1, 1, 3, 10),
        timed(5, 2, 3, 3),
        timed(0, 0, 3, 10),
        timed(6, 0, 10, 10),
    ]
}

#[test]
fn sorted_places_go_by_depth_start_and_end() {
    assert_eq!(sorted_places(&forest()), vec![2, 3, 8, 9, 1, 4, 6, 0, 7, 5]);
    assert_eq!(sorted_places(&Vec::new()), Vec::<usize>::new());
    assert_eq!(sorted_places(&vec![timed(0, 0, 0, 1)]), vec![0]);
    assert_eq!(
        sorted_places(&vec![timed(0, 1, 5, 5), timed(0, 1, 5, 9), timed(0, 1, 5, 5), timed(0, 0, 9, 9)]),
        vec![3, 0, 2, 1]
    );
}

#[test]
fn parent_of_finds_the_interval_around() {
    let all = forest();
    let order = sorted_places(&all);
    assert_eq!(parent_of(&all, &order, &all[0]), Some(1));
    assert_eq!(parent_of(&all, &order, &all[1]), Some(2));
    assert_eq!(parent_of(&all, &order, &all[5]), Some(6));
    assert_eq!(parent_of(&all, &order, &all[6]), Some(8));
    assert_eq!(parent_of(&all, &order, &timed(9, 1, 1, 3)), Some(3));
    assert_eq!(parent_of(&all, &order, &timed(9, 1, 2, 3)), Some(3));
    assert_eq!(parent_of(&all, &order, &timed(9, 1, 2, 4)), None);
    assert_eq!(parent_of(&all, &order, &timed(9, 3, 6, 10)), Some(5));
    assert_eq!(parent_of(&all, &order, &timed(9, 3, 1, 2)), None);
    assert_eq!(parent_of(&all, &order, &timed(9, 4, 0, 1)), None);
    assert_eq!(parent_of(&all, &order, &timed(9, 2, 1, 2)), None);
}

#[test]
fn own_times_leave_out_the_children() {
    let all = forest();
    assert_eq!(own_times(&all), vec![1, 0, 0, 2, 0, 4, 3, 0, 0, 0]);
    assert_eq!(own_times(&all), scanned(&all));
    assert_eq!(own_times(&Vec::new()), Vec::<usize>::new());
}

#[test]
fn own_times_agree_with_a_scan_of_all_intervals() {
    let mut seed: u64 = 12345;
    let mut next = move |bound: u64| {
        seed = seed.wrapping_mul(6364136223846793005).wrapping_add(1442695040888963407);
        (seed >> 33) % bound
    };
    for _ in 0..40 {
        let mut samples = Vec::new();
        for _ in 0..next(30) {
            let depth = 1 + next(5) as usize;
            let path: Vec<usize> = (0..depth).map(|_| next(3) as usize).collect();
            samples.push(CollapsedSample { path, weight: next(4) as usize });
        }
        let (all, _) = frames(&samples).unwrap();
        assert_eq!(own_times(&all), scanned(&all));
    }
}

#[test]
fn a_large_profile_adds_up() {
    let mut seed: u64 = 99;
    let mut next = move |bound: u64| {
        seed = seed.wrapping_mul(6364136223846793005).wrapping_add(1442695040888963407);
        (seed >> 33) % bound
    };
    let mut text = String::new();
    let mut totals = vec![0usize; 50];
    let mut owns = vec![0usize; 50];
    let mut seen = Vec::new();
    let mut time = 0;
    for _ in 0..3000 {
        let depth = 1 + next(12) as usize;
        let weight = next(100) as usize;
        let path: Vec<usize> = (0..depth).map(|_| next(50) as usize).collect();
        for (at, function) in path.iter().enumerate() {
            if at > 0 {
                text.push(';');
            }
            text.push_str(&format!("lib{}`f{}_", next(3), function));
            totals[*function] += weight;
            if !seen.contains(function) {
                seen.push(*function);
            }
        }
        owns[path[depth - 1]] += weight;
        time += weight;
        text.push_str(&format!(" {}\n", weight));
    }
    let profile = process_collapsed(text.as_bytes()).unwrap();
    assert_eq!(profile.total_time, time);
    assert_eq!(profile.ignored, 0);
    let expected: Vec<FnTimingInfo> = seen
        .iter()
        .map(|function| FnTimingInfo {
            name: format!("f{}_", function).into_bytes(),
            total_used: totals[*function],
            self_used: owns[*function],
        })
        .collect();
    assert_eq!(profile.functions, expected);
}

#[test]
fn aggregate_with_names_that_no_interval_has() {
    let names = vec![b"a".to_vec(), b"unused".to_vec(), b"b".to_vec()];
    let all = vec![timed(2, 1, 2, 5), timed(0, 0, 0, 7)];
    assert_eq!(
        aggregate(&names, &all, 7),
        Ok(vec![
            FnTimingInfo { name: b"a".to_vec(), total_used: 7, self_used: 4 },
            FnTimingInfo { name: b"unused".to_vec(), total_used: 0, self_used: 0 },
            FnTimingInfo { name: b"b".to_vec(), total_used: 3, self_used: 3 },
        ])
    );
}
