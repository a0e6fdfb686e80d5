//! What frame intervals add up to: the time of each function, with and
//! without the frames below it, and why the parts make up the whole.

use vstd::prelude::*;
use crate::cpu::merge::FrameInterval;

verus! {

/// The length of an interval's window.
pub open spec fn duration(frame: FrameInterval) -> int {
    frame.end - frame.start
}

/// Whether `frame` is at `depth` and its window lies within `[start, end]`.
pub open spec fn within(frame: FrameInterval, depth: nat, start: int, end: int) -> bool {
    frame.depth == depth && start <= frame.start && frame.end <= end
}

/// Whether `child` is one level below `parent` and within its window.
pub open spec fn is_child(parent: FrameInterval, child: FrameInterval) -> bool {
    within(child, parent.depth + 1, parent.start as int, parent.end as int)
}

/// Whether two windows share no time.
pub open spec fn apart(a: FrameInterval, b: FrameInterval) -> bool {
    a.end <= b.start || b.end <= a.start
}

/// No window ends before it starts.
pub open spec fn ordered(frames: Seq<FrameInterval>) -> bool {
    forall|i: int| 0 <= i < frames.len() ==> (#[trigger] frames[i]).start <= frames[i].end
}

/// At one depth no two intervals share time.
pub open spec fn disjoint(frames: Seq<FrameInterval>) -> bool {
    forall|i: int, j: int|
        0 <= i < frames.len() && 0 <= j < frames.len() && i != j && (#[trigger] frames[i]).depth
            == (#[trigger] frames[j]).depth ==> apart(frames[i], frames[j])
}

/// Every interval below the root lies within one that is one level up.
pub open spec fn nested(frames: Seq<FrameInterval>) -> bool {
    forall|i: int|
        0 <= i < frames.len() && (#[trigger] frames[i]).depth > 0 ==> exists|j: int|
            0 <= j < frames.len() && is_child(#[trigger] frames[j], frames[i])
}

/// The intervals of one timeline: windows are ordered, those of one depth are
/// apart, and each below the root has a parent around it.
pub open spec fn well_formed(frames: Seq<FrameInterval>) -> bool {
    ordered(frames) && disjoint(frames) && nested(frames)
}

/// The time of the first `n` intervals that are at `depth` and within
/// `[start, end]`.
pub open spec fn window_time(frames: Seq<FrameInterval>, depth: nat, start: int, end: int, n: nat) -> int
    decreases n,
{
    if n == 0 {
        0
    } else {
        window_time(frames, depth, start, end, (n - 1) as nat) + if within(
            frames[n - 1],
            depth,
            start,
            end,
        ) {
            duration(frames[n - 1])
        } else {
            0
        }
    }
}

/// The time of the children of `parent` among `frames`.
pub open spec fn children_time(frames: Seq<FrameInterval>, parent: FrameInterval) -> int {
    window_time(frames, parent.depth + 1, parent.start as int, parent.end as int, frames.len())
}

/// The time of interval `i` that none of its children takes.
pub open spec fn own_time(frames: Seq<FrameInterval>, i: int) -> int {
    duration(frames[i]) - children_time(frames, frames[i])
}

/// The summed duration of the intervals of `function` among the first `n`.
pub open spec fn total_used(frames: Seq<FrameInterval>, function: usize, n: nat) -> int
    decreases n,
{
    if n == 0 {
        0
    } else {
        total_used(frames, function, (n - 1) as nat) + if frames[n - 1].function == function {
            duration(frames[n - 1])
        } else {
            0
        }
    }
}

/// The summed own time of the intervals of `function` among the first `n`.
pub open spec fn self_used(frames: Seq<FrameInterval>, function: usize, n: nat) -> int
    decreases n,
{
    if n == 0 {
        0
    } else {
        self_used(frames, function, (n - 1) as nat) + if frames[n - 1].function == function {
            own_time(frames, n - 1)
        } else {
            0
        }
    }
}

/// The summed duration of the intervals at depth 0 among the first `n`.
pub open spec fn root_time(frames: Seq<FrameInterval>, n: nat) -> int
    decreases n,
{
    if n == 0 {
        0
    } else {
        root_time(frames, (n - 1) as nat) + if frames[n - 1].depth == 0 {
            duration(frames[n - 1])
        } else {
            0
        }
    }
}

/// The self time of the functions `0..functions`, summed.
pub open spec fn self_used_sum(frames: Seq<FrameInterval>, functions: nat) -> int
    decreases functions,
{
    if functions == 0 {
        0
    } else {
        self_used_sum(frames, (functions - 1) as nat) + self_used(
            frames,
            (functions - 1) as usize,
            frames.len(),
        )
    }
}

/// Whether every interval names one of the functions `0..functions`.
pub open spec fn names_known(frames: Seq<FrameInterval>, functions: nat) -> bool {
    forall|i: int| 0 <= i < frames.len() ==> (#[trigger] frames[i]).function < functions
}

proof fn lemma_window_nonnegative(frames: Seq<FrameInterval>, depth: nat, start: int, end: int, n: nat)
    requires
        ordered(frames),
        n <= frames.len(),
    ensures
        0 <= window_time(frames, depth, start, end, n),
    decreases n,
{
    if n > 0 {
        lemma_window_nonnegative(frames, depth, start, end, (n - 1) as nat);
    }
}

proof fn lemma_window_split(
    frames: Seq<FrameInterval>,
    depth: nat,
    start: int,
    left: int,
    right: int,
    end: int,
    n: nat,
)
    requires
        ordered(frames),
        n <= frames.len(),
        start <= left < right <= end,
        forall|j: int|
            0 <= j < n && within(#[trigger] frames[j], depth, start, end) ==> frames[j].end <= left
                || right <= frames[j].start,
    ensures
        window_time(frames, depth, start, end, n) == window_time(frames, depth, start, left, n)
            + window_time(frames, depth, right, end, n),
    decreases n,
{
    if n > 0 {
        lemma_window_split(frames, depth, start, left, right, end, (n - 1) as nat);
        let last = frames[n - 1];
        assert(last.start <= last.end);
    }
}

/// Intervals of one depth that are apart and within a window take no more
/// time than the window has.
proof fn lemma_window_bound(frames: Seq<FrameInterval>, depth: nat, start: int, end: int, n: nat)
    requires
        ordered(frames),
        disjoint(frames),
        n <= frames.len(),
        start <= end,
    ensures
        window_time(frames, depth, start, end, n) <= end - start,
    decreases n,
{
    if n > 0 {
        let last = frames[n - 1];
        let m = (n - 1) as nat;
        assert(last.start <= last.end);
        if within(last, depth, start, end) && last.start < last.end {
            assert forall|j: int| 0 <= j < m && within(#[trigger] frames[j], depth, start, end) implies frames[j].end
                <= last.start || last.end <= frames[j].start by {
                assert(apart(frames[j], frames[n - 1]));
            }
            lemma_window_split(frames, depth, start, last.start as int, last.end as int, end, m);
            lemma_window_bound(frames, depth, start, last.start as int, m);
            lemma_window_bound(frames, depth, last.end as int, end, m);
        } else {
            lemma_window_bound(frames, depth, start, end, m);
        }
    }
}

/// The children of an interval, taken from the first `n`, take no more time
/// than it has, and no less than none.
pub proof fn lemma_children_fit(frames: Seq<FrameInterval>, i: int, n: nat)
    requires
        ordered(frames),
        disjoint(frames),
        0 <= i < frames.len(),
        n <= frames.len(),
    ensures
        0 <= window_time(frames, frames[i].depth + 1, frames[i].start as int, frames[i].end as int, n)
            <= duration(frames[i]),
{
    let parent = frames[i];
    assert(parent.start <= parent.end);
    lemma_window_nonnegative(frames, parent.depth + 1, parent.start as int, parent.end as int, n);
    lemma_window_bound(frames, parent.depth + 1, parent.start as int, parent.end as int, n);
}

/// Durations add up to no less than none, and a longer run to no less than a
/// shorter one.
pub proof fn lemma_total_used_grows(frames: Seq<FrameInterval>, function: usize, m: nat, n: nat)
    requires
        ordered(frames),
        m <= n <= frames.len(),
    ensures
        0 <= total_used(frames, function, m) <= total_used(frames, function, n),
    decreases n,
{
    if m < n {
        lemma_total_used_grows(frames, function, m, (n - 1) as nat);
        assert(frames[n - 1].start <= frames[n - 1].end);
    } else if n > 0 {
        lemma_total_used_grows(frames, function, (m - 1) as nat, (n - 1) as nat);
        assert(frames[n - 1].start <= frames[n - 1].end);
    }
}

/// A function's own time is no less than none and no more than its total.
pub proof fn lemma_self_within_total(frames: Seq<FrameInterval>, function: usize, n: nat)
    requires
        ordered(frames),
        disjoint(frames),
        n <= frames.len(),
    ensures
        0 <= self_used(frames, function, n) <= total_used(frames, function, n),
    decreases n,
{
    if n > 0 {
        lemma_self_within_total(frames, function, (n - 1) as nat);
        lemma_children_fit(frames, n - 1, frames.len());
    }
}

spec fn own_sum(frames: Seq<FrameInterval>, n: nat) -> int
    decreases n,
{
    if n == 0 {
        0
    } else {
        own_sum(frames, (n - 1) as nat) + own_time(frames, n - 1)
    }
}

spec fn duration_sum(frames: Seq<FrameInterval>, n: nat) -> int
    decreases n,
{
    if n == 0 {
        0
    } else {
        duration_sum(frames, (n - 1) as nat) + duration(frames[n - 1])
    }
}

spec fn nested_time(frames: Seq<FrameInterval>, n: nat) -> int
    decreases n,
{
    if n == 0 {
        0
    } else {
        nested_time(frames, (n - 1) as nat) + if frames[n - 1].depth > 0 {
            duration(frames[n - 1])
        } else {
            0
        }
    }
}

/// The time of interval `j` counted once for each of the first `n` intervals
/// that it is a child of.
spec fn parent_time(frames: Seq<FrameInterval>, j: int, n: nat) -> int
    decreases n,
{
    if n == 0 {
        0
    } else {
        parent_time(frames, j, (n - 1) as nat) + if is_child(frames[n - 1], frames[j]) {
            duration(frames[j])
        } else {
            0
        }
    }
}

/// The children's time of the first `n` intervals, the children taken from
/// the first `m`.
spec fn by_parent(frames: Seq<FrameInterval>, n: nat, m: nat) -> int
    decreases n,
{
    if n == 0 {
        0
    } else {
        by_parent(frames, (n - 1) as nat, m) + window_time(
            frames,
            frames[n - 1].depth + 1,
            frames[n - 1].start as int,
            frames[n - 1].end as int,
            m,
        )
    }
}

/// The same time as `by_parent`, summed child by child.
spec fn by_child(frames: Seq<FrameInterval>, n: nat, m: nat) -> int
    decreases m,
{
    if m == 0 {
        0
    } else {
        by_child(frames, n, (m - 1) as nat) + parent_time(frames, m - 1, n)
    }
}

proof fn lemma_by_child_step(frames: Seq<FrameInterval>, n: nat, m: nat)
    requires
        n < frames.len(),
        m <= frames.len(),
    ensures
        by_child(frames, n + 1, m) == by_child(frames, n, m) + window_time(
            frames,
            frames[n as int].depth + 1,
            frames[n as int].start as int,
            frames[n as int].end as int,
            m,
        ),
    decreases m,
{
    if m > 0 {
        lemma_by_child_step(frames, n, (m - 1) as nat);
    }
}

proof fn lemma_by_child_none(frames: Seq<FrameInterval>, m: nat)
    ensures
        by_child(frames, 0, m) == 0,
    decreases m,
{
    if m > 0 {
        lemma_by_child_none(frames, (m - 1) as nat);
    }
}

proof fn lemma_sum_either_way(frames: Seq<FrameInterval>, n: nat, m: nat)
    requires
        n <= frames.len(),
        m <= frames.len(),
    ensures
        by_parent(frames, n, m) == by_child(frames, n, m),
    decreases n,
{
    if n == 0 {
        lemma_by_child_none(frames, m);
    } else {
        lemma_sum_either_way(frames, (n - 1) as nat, m);
        lemma_by_child_step(frames, (n - 1) as nat, m);
    }
}

proof fn lemma_no_parent_time(frames: Seq<FrameInterval>, j: int, n: nat)
    requires
        0 <= j < frames.len(),
        n <= frames.len(),
        frames[j].depth == 0 || duration(frames[j]) == 0,
    ensures
        parent_time(frames, j, n) == 0,
    decreases n,
{
    if n > 0 {
        lemma_no_parent_time(frames, j, (n - 1) as nat);
    }
}

proof fn lemma_one_parent_time(frames: Seq<FrameInterval>, j: int, p: int, n: nat)
    requires
        ordered(frames),
        disjoint(frames),
        0 <= j < frames.len(),
        0 <= p < frames.len(),
        n <= frames.len(),
        is_child(frames[p], frames[j]),
        duration(frames[j]) > 0,
    ensures
        parent_time(frames, j, n) == if p < n {
            duration(frames[j])
        } else {
            0
        },
    decreases n,
{
    if n > 0 {
        lemma_one_parent_time(frames, j, p, (n - 1) as nat);
        if n - 1 != p && is_child(frames[n - 1], frames[j]) {
            assert(apart(frames[n - 1], frames[p]));
        }
    }
}

proof fn lemma_parent_time(frames: Seq<FrameInterval>, j: int)
    requires
        well_formed(frames),
        0 <= j < frames.len(),
    ensures
        parent_time(frames, j, frames.len()) == if frames[j].depth > 0 {
            duration(frames[j])
        } else {
            0
        },
{
    assert(frames[j].start <= frames[j].end);
    if frames[j].depth == 0 || duration(frames[j]) == 0 {
        lemma_no_parent_time(frames, j, frames.len());
    } else {
        let p = choose|p: int| 0 <= p < frames.len() && is_child(#[trigger] frames[p], frames[j]);
        lemma_one_parent_time(frames, j, p, frames.len());
    }
}

proof fn lemma_by_child_is_nested(frames: Seq<FrameInterval>, m: nat)
    requires
        well_formed(frames),
        m <= frames.len(),
    ensures
        by_child(frames, frames.len(), m) == nested_time(frames, m),
    decreases m,
{
    if m > 0 {
        lemma_by_child_is_nested(frames, (m - 1) as nat);
        lemma_parent_time(frames, m - 1);
    }
}

proof fn lemma_own_sum(frames: Seq<FrameInterval>, n: nat)
    requires
        n <= frames.len(),
    ensures
        own_sum(frames, n) == duration_sum(frames, n) - by_parent(frames, n, frames.len()),
        duration_sum(frames, n) == root_time(frames, n) + nested_time(frames, n),
    decreases n,
{
    if n > 0 {
        lemma_own_sum(frames, (n - 1) as nat);
    }
}

proof fn lemma_self_used_sum_step(frames: Seq<FrameInterval>, functions: nat, n: nat)
    requires
        0 < n <= frames.len(),
        functions <= usize::MAX + 1,
    ensures
        self_sum_upto(frames, functions, n) == self_sum_upto(frames, functions, (n - 1) as nat) + if frames[n
            - 1].function < functions {
            own_time(frames, n - 1)
        } else {
            0
        },
    decreases functions,
{
    if functions > 0 {
        lemma_self_used_sum_step(frames, (functions - 1) as nat, n);
    }
}

/// The self time of the functions `0..functions` over the first `n`
/// intervals.
spec fn self_sum_upto(frames: Seq<FrameInterval>, functions: nat, n: nat) -> int
    decreases functions,
{
    if functions == 0 {
        0
    } else {
        self_sum_upto(frames, (functions - 1) as nat, n) + self_used(frames, (functions - 1) as usize, n)
    }
}

proof fn lemma_self_sum_upto(frames: Seq<FrameInterval>, functions: nat, n: nat)
    requires
        names_known(frames, functions),
        functions <= usize::MAX + 1,
        n <= frames.len(),
    ensures
        self_sum_upto(frames, functions, n) == own_sum(frames, n),
    decreases n,
{
    if n == 0 {
        lemma_self_sum_none(frames, functions);
    } else {
        lemma_self_sum_upto(frames, functions, (n - 1) as nat);
        lemma_self_used_sum_step(frames, functions, n);
        assert(frames[n - 1].function < functions);
    }
}

proof fn lemma_self_sum_none(frames: Seq<FrameInterval>, functions: nat)
    ensures
        self_sum_upto(frames, functions, 0) == 0,
    decreases functions,
{
    if functions > 0 {
        lemma_self_sum_none(frames, (functions - 1) as nat);
    }
}

proof fn lemma_self_sum_all(frames: Seq<FrameInterval>, functions: nat)
    ensures
        self_sum_upto(frames, functions, frames.len()) == self_used_sum(frames, functions),
    decreases functions,
{
    if functions > 0 {
        lemma_self_sum_all(frames, (functions - 1) as nat);
    }
}

/// Partition: on well-formed intervals the functions' self times add up to
/// the time of the roots. Each interval below the root is the child of one
/// interval, so its time is taken from exactly one parent.
pub proof fn lemma_self_times_partition_root_time(frames: Seq<FrameInterval>, functions: nat)
    requires
        well_formed(frames),
        names_known(frames, functions),
        functions <= usize::MAX + 1,
    ensures
        self_used_sum(frames, functions) == root_time(frames, frames.len()),
{
    lemma_self_sum_all(frames, functions);
    lemma_self_sum_upto(frames, functions, frames.len());
    lemma_own_sum(frames, frames.len());
    lemma_sum_either_way(frames, frames.len(), frames.len());
    lemma_by_child_is_nested(frames, frames.len());
}

} // verus!
