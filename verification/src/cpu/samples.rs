//! What the intervals of a timeline add up to, sample by sample: a function's
//! total is the weight of each sample once for every frame of the function in
//! its path, and its own time is the weight of the samples that end in it.
//! So the table does not depend on how the samples were laid out in time.

use vstd::prelude::*;
use crate::cpu::intervals::{own_time, self_used, total_used, window_time, within};
use crate::cpu::merge::{
    close_to,
    close_top,
    consistent,
    lemma_close_to_consistent,
    lemma_close_top_consistent,
    lemma_open_next_consistent,
    lemma_open_to_consistent,
    lemma_placed_consistent,
    open_next,
    open_to,
    place,
    placed,
    shared_depth,
    timeline,
    total_weight,
    FrameInterval,
    OpenFrame,
    SampleView,
    Timeline,
};

verus! {

/// How many frames of `path` are frames of `function`.
pub open spec fn occurrences(path: Seq<usize>, function: int) -> nat
    decreases path.len(),
{
    if path.len() == 0 {
        0
    } else {
        occurrences(path.drop_last(), function) + if path.last() == function {
            1nat
        } else {
            0nat
        }
    }
}

/// The weight of each sample, once for every frame of `function` in its
/// path, summed.
pub open spec fn weighted_total(samples: Seq<SampleView>, function: int) -> nat
    decreases samples.len(),
{
    if samples.len() == 0 {
        0
    } else {
        weighted_total(samples.drop_last(), function) + samples.last().weight * occurrences(
            samples.last().path,
            function,
        )
    }
}

/// Whether the path of `sample` ends in `function`.
pub open spec fn ends_in(sample: SampleView, function: int) -> bool {
    sample.path.len() > 0 && sample.path.last() == function
}

/// The weight of the samples whose paths end in `function`, summed.
pub open spec fn weighted_self(samples: Seq<SampleView>, function: int) -> nat
    decreases samples.len(),
{
    if samples.len() == 0 {
        0
    } else {
        weighted_self(samples.drop_last(), function) + if ends_in(samples.last(), function) {
            samples.last().weight
        } else {
            0
        }
    }
}

spec fn follows(open: Seq<OpenFrame>, path: Seq<usize>) -> bool {
    open.len() == path.len() && forall|d: int|
        0 <= d < open.len() ==> (#[trigger] open[d]).function == path[d]
}

proof fn lemma_shared_depth(open: Seq<OpenFrame>, path: Seq<usize>, from: nat)
    requires
        from <= open.len(),
        from <= path.len(),
        forall|d: int| 0 <= d < from ==> (#[trigger] open[d]).function == path[d],
    ensures
        from <= shared_depth(open, path, from) <= open.len(),
        shared_depth(open, path, from) <= path.len(),
        forall|d: int|
            0 <= d < shared_depth(open, path, from) ==> (#[trigger] open[d]).function == path[d],
    decreases open.len() - from,
{
    if from < open.len() && from < path.len() && open[from as int].function == path[from as int] {
        lemma_shared_depth(open, path, from + 1);
    }
}

proof fn lemma_close_to_open(t: Timeline, keep: nat)
    requires
        keep <= t.open.len(),
    ensures
        close_to(t, keep).open == t.open.take(keep as int),
        close_to(t, keep).time == t.time,
    decreases t.open.len(),
{
    if t.open.len() > keep {
        lemma_close_to_open(close_top(t), keep);
        assert(close_top(t).open.take(keep as int) =~= t.open.take(keep as int));
    } else {
        assert(t.open.take(keep as int) =~= t.open);
    }
}

proof fn lemma_open_to_follows(t: Timeline, path: Seq<usize>)
    requires
        t.open.len() <= path.len(),
        forall|d: int| 0 <= d < t.open.len() ==> (#[trigger] t.open[d]).function == path[d],
    ensures
        follows(open_to(t, path).open, path),
        open_to(t, path).time == t.time,
    decreases path.len() - t.open.len(),
{
    if t.open.len() < path.len() {
        let next = open_next(t, path);
        assert forall|d: int| 0 <= d < next.open.len() implies (#[trigger] next.open[d]).function
            == path[d] by {
            if d < t.open.len() {
                assert(next.open[d] == t.open[d]);
            }
        }
        lemma_open_to_follows(next, path);
    }
}

proof fn lemma_place_follows(t: Timeline, sample: SampleView)
    ensures
        follows(place(t, sample).open, sample.path),
{
    let keep = shared_depth(t.open, sample.path, 0);
    lemma_shared_depth(t.open, sample.path, 0);
    lemma_close_to_open(t, keep);
    let kept = close_to(t, keep);
    assert forall|d: int| 0 <= d < kept.open.len() implies (#[trigger] kept.open[d]).function
        == sample.path[d] by {
        assert(kept.open[d] == t.open[d]);
    }
    lemma_open_to_follows(kept, sample.path);
}

/// The time that the first `n` open frames of `function` have had so far.
spec fn open_time(t: Timeline, function: usize, n: nat) -> int
    decreases n,
{
    if n == 0 {
        0
    } else {
        open_time(t, function, (n - 1) as nat) + if t.open[n - 1].function == function {
            t.time - t.open[n - 1].start
        } else {
            0
        }
    }
}

spec fn open_count(open: Seq<OpenFrame>, function: usize, n: nat) -> nat
    decreases n,
{
    if n == 0 {
        0
    } else {
        open_count(open, function, (n - 1) as nat) + if open[n - 1].function == function {
            1nat
        } else {
            0nat
        }
    }
}

/// The time of `function` in closed intervals and in open frames.
spec fn carried_total(t: Timeline, function: usize) -> int {
    total_used(t.closed, function, t.closed.len()) + open_time(t, function, t.open.len())
}

proof fn lemma_total_used_of_front(a: Seq<FrameInterval>, b: Seq<FrameInterval>, function: usize, n: nat)
    requires
        n <= a.len(),
        n <= b.len(),
        forall|i: int| 0 <= i < n ==> a[i] == b[i],
    ensures
        total_used(a, function, n) == total_used(b, function, n),
    decreases n,
{
    if n > 0 {
        lemma_total_used_of_front(a, b, function, (n - 1) as nat);
    }
}

proof fn lemma_open_time_same(a: Timeline, b: Timeline, function: usize, n: nat)
    requires
        a.time == b.time,
        n <= a.open.len(),
        n <= b.open.len(),
        forall|d: int| 0 <= d < n ==> a.open[d] == b.open[d],
    ensures
        open_time(a, function, n) == open_time(b, function, n),
    decreases n,
{
    if n > 0 {
        lemma_open_time_same(a, b, function, (n - 1) as nat);
    }
}

spec fn later(t: Timeline, weight: nat) -> Timeline {
    Timeline { closed: t.closed, open: t.open, time: t.time + weight }
}

proof fn lemma_open_time_later(t: Timeline, weight: nat, function: usize, n: nat)
    requires
        n <= t.open.len(),
    ensures
        open_time(later(t, weight), function, n) == open_time(t, function, n) + weight * open_count(
            t.open,
            function,
            n,
        ),
    decreases n,
{
    if n > 0 {
        lemma_open_time_later(t, weight, function, (n - 1) as nat);
        let before = open_count(t.open, function, (n - 1) as nat);
        let count = open_count(t.open, function, n);
        let after = later(t, weight);
        assert(after.open[n - 1] == t.open[n - 1]);
        if t.open[n - 1].function == function {
            assert(count == before + 1);
            assert(weight * count == weight * before + weight) by (nonlinear_arith)
                requires
                    count == before + 1,
            ;
        } else {
            assert(count == before);
        }
    } else {
        assert(weight * open_count(t.open, function, n) == 0) by (nonlinear_arith)
            requires
                open_count(t.open, function, n) == 0,
        ;
    }
}

proof fn lemma_open_count(open: Seq<OpenFrame>, path: Seq<usize>, function: usize, n: nat)
    requires
        follows(open, path),
        n <= path.len(),
    ensures
        open_count(open, function, n) == occurrences(path.take(n as int), function as int),
    decreases n,
{
    if n > 0 {
        lemma_open_count(open, path, function, (n - 1) as nat);
        assert(path.take(n as int).drop_last() =~= path.take(n - 1));
        assert(path.take(n as int).last() == open[n - 1].function);
    }
}

proof fn lemma_close_to_total(t: Timeline, keep: nat, function: usize)
    ensures
        carried_total(close_to(t, keep), function) == carried_total(t, function),
    decreases t.open.len(),
{
    if t.open.len() > keep {
        let next = close_top(t);
        lemma_total_used_of_front(next.closed, t.closed, function, t.closed.len());
        lemma_open_time_same(next, t, function, next.open.len());
        lemma_close_to_total(next, keep, function);
    }
}

proof fn lemma_open_to_total(t: Timeline, path: Seq<usize>, function: usize)
    ensures
        carried_total(open_to(t, path), function) == carried_total(t, function),
    decreases path.len() - t.open.len(),
{
    if t.open.len() < path.len() {
        let next = open_next(t, path);
        lemma_open_time_same(next, t, function, t.open.len());
        lemma_open_to_total(next, path, function);
    }
}

proof fn lemma_place_total(t: Timeline, sample: SampleView, function: usize)
    ensures
        carried_total(place(t, sample), function) == carried_total(t, function) + sample.weight * occurrences(
            sample.path,
            function as int,
        ),
{
    let kept = close_to(t, shared_depth(t.open, sample.path, 0));
    let opened = open_to(kept, sample.path);
    lemma_close_to_total(t, shared_depth(t.open, sample.path, 0), function);
    lemma_open_to_total(kept, sample.path, function);
    lemma_place_follows(t, sample);
    assert(place(t, sample) == later(opened, sample.weight));
    lemma_open_time_later(opened, sample.weight, function, opened.open.len());
    lemma_open_count(opened.open, sample.path, function, sample.path.len());
    assert(sample.path.take(sample.path.len() as int) =~= sample.path);
}

proof fn lemma_placed_total(samples: Seq<SampleView>, function: usize)
    ensures
        carried_total(placed(samples), function) == weighted_total(samples, function as int),
    decreases samples.len(),
{
    if samples.len() > 0 {
        lemma_placed_total(samples.drop_last(), function);
        lemma_place_total(placed(samples.drop_last()), samples.last(), function);
    }
}

/// A function's total is the weight of each sample, once for every frame
/// of the function in its path.
pub proof fn lemma_total_by_samples(samples: Seq<SampleView>, function: usize)
    ensures
        total_used(timeline(samples), function, timeline(samples).len()) == weighted_total(
            samples,
            function as int,
        ),
{
    lemma_placed_total(samples, function);
    lemma_close_to_total(placed(samples), 0, function);
    lemma_close_to_open(placed(samples), 0);
}

proof fn lemma_window_of_front(
    a: Seq<FrameInterval>,
    b: Seq<FrameInterval>,
    depth: nat,
    start: int,
    end: int,
    n: nat,
)
    requires
        n <= a.len(),
        n <= b.len(),
        forall|i: int| 0 <= i < n ==> a[i] == b[i],
    ensures
        window_time(a, depth, start, end, n) == window_time(b, depth, start, end, n),
    decreases n,
{
    if n > 0 {
        lemma_window_of_front(a, b, depth, start, end, (n - 1) as nat);
    }
}

proof fn lemma_window_same(
    frames: Seq<FrameInterval>,
    depth: nat,
    start: int,
    end: int,
    other_end: int,
    n: nat,
)
    requires
        n <= frames.len(),
        forall|j: int|
            0 <= j < n ==> within(#[trigger] frames[j], depth, start, end) == within(
                frames[j],
                depth,
                start,
                other_end,
            ),
    ensures
        window_time(frames, depth, start, end, n) == window_time(frames, depth, start, other_end, n),
    decreases n,
{
    if n > 0 {
        lemma_window_same(frames, depth, start, end, other_end, (n - 1) as nat);
    }
}

proof fn lemma_window_of_no_time(frames: Seq<FrameInterval>, depth: nat, at: int, n: nat)
    requires
        n <= frames.len(),
        forall|j: int| 0 <= j < n ==> (#[trigger] frames[j]).start <= frames[j].end,
    ensures
        window_time(frames, depth, at, at, n) == 0,
    decreases n,
{
    if n > 0 {
        lemma_window_of_no_time(frames, depth, at, (n - 1) as nat);
        assert(frames[n - 1].start <= frames[n - 1].end);
    }
}

/// The time of the open frame at depth `d` that is not yet the time of a
/// frame below it, closed or open.
spec fn pending(t: Timeline, d: int) -> int {
    (t.time - t.open[d].start) - window_time(
        t.closed,
        (d + 1) as nat,
        t.open[d].start as int,
        t.time as int,
        t.closed.len(),
    ) - if d + 1 < t.open.len() {
        t.time - t.open[d + 1].start
    } else {
        0
    }
}

spec fn open_pending(t: Timeline, function: usize, n: nat) -> int
    decreases n,
{
    if n == 0 {
        0
    } else {
        open_pending(t, function, (n - 1) as nat) + if t.open[n - 1].function == function {
            pending(t, n - 1)
        } else {
            0
        }
    }
}

/// The own time of `function` in closed intervals and in open frames.
spec fn carried_self(t: Timeline, function: usize) -> int {
    self_used(t.closed, function, t.closed.len()) + open_pending(t, function, t.open.len())
}

proof fn lemma_open_pending_same(a: Timeline, b: Timeline, function: usize, n: nat)
    requires
        n <= a.open.len(),
        n <= b.open.len(),
        forall|d: int| 0 <= d < n ==> (#[trigger] a.open[d]).function == b.open[d].function,
        forall|d: int| 0 <= d < n ==> #[trigger] pending(a, d) == pending(b, d),
    ensures
        open_pending(a, function, n) == open_pending(b, function, n),
    decreases n,
{
    if n > 0 {
        lemma_open_pending_same(a, b, function, (n - 1) as nat);
        assert(a.open[n - 1].function == b.open[n - 1].function);
        assert(pending(a, n - 1) == pending(b, n - 1));
    }
}

proof fn lemma_self_used_same(a: Seq<FrameInterval>, b: Seq<FrameInterval>, function: usize, n: nat)
    requires
        n <= a.len(),
        n <= b.len(),
        forall|i: int| 0 <= i < n ==> (#[trigger] a[i]).function == b[i].function,
        forall|i: int| 0 <= i < n ==> #[trigger] own_time(a, i) == own_time(b, i),
    ensures
        self_used(a, function, n) == self_used(b, function, n),
    decreases n,
{
    if n > 0 {
        lemma_self_used_same(a, b, function, (n - 1) as nat);
        assert(a[n - 1].function == b[n - 1].function);
        assert(own_time(a, n - 1) == own_time(b, n - 1));
    }
}

proof fn lemma_close_top_self(t: Timeline, function: usize)
    requires
        consistent(t),
        t.open.len() > 0,
    ensures
        carried_self(close_top(t), function) == carried_self(t, function),
{
    let next = close_top(t);
    let n = t.closed.len();
    let depth = t.open.len() - 1;
    let top = t.open[depth];
    let frame = next.closed[n as int];
    assert(frame.start == top.start && frame.end == t.time && frame.depth == depth);
    assert(top.start <= t.time);
    assert forall|i: int| 0 <= i < n implies #[trigger] own_time(next.closed, i) == own_time(
        t.closed,
        i,
    ) by {
        let parent = t.closed[i];
        assert(next.closed[i] == parent);
        lemma_window_of_front(
            next.closed,
            t.closed,
            parent.depth + 1,
            parent.start as int,
            parent.end as int,
            n,
        );
        if within(frame, parent.depth + 1, parent.start as int, parent.end as int) {
            assert(t.closed[i].depth < t.open.len());
            assert(t.closed[i].end <= t.open[t.closed[i].depth as int].start);
            assert(t.open[t.closed[i].depth as int].start <= t.open[depth].start);
        }
    }
    assert(forall|i: int| 0 <= i < n ==> (#[trigger] next.closed[i]) == t.closed[i]);
    lemma_self_used_same(next.closed, t.closed, function, n);
    lemma_window_of_front(
        next.closed,
        t.closed,
        frame.depth + 1,
        frame.start as int,
        frame.end as int,
        n,
    );
    assert(own_time(next.closed, n as int) == pending(t, depth));
    assert forall|d: int| 0 <= d < depth implies #[trigger] pending(next, d) == pending(t, d) by {
        assert(next.open[d] == t.open[d]);
        lemma_window_of_front(
            next.closed,
            t.closed,
            (d + 1) as nat,
            t.open[d].start as int,
            t.time as int,
            n,
        );
        if d + 1 == depth {
            assert(t.open[d].start <= t.open[depth].start);
        } else {
            assert(next.open[d + 1] == t.open[d + 1]);
        }
    }
    assert(forall|d: int| 0 <= d < depth ==> (#[trigger] next.open[d]).function == t.open[d].function);
    lemma_open_pending_same(next, t, function, depth as nat);
}

proof fn lemma_open_next_self(t: Timeline, path: Seq<usize>, function: usize)
    requires
        consistent(t),
        t.open.len() < path.len(),
    ensures
        carried_self(open_next(t, path), function) == carried_self(t, function),
{
    let next = open_next(t, path);
    let depth = t.open.len() as int;
    lemma_window_of_no_time(t.closed, (depth + 1) as nat, t.time as int, t.closed.len());
    assert(pending(next, depth) == 0);
    assert forall|d: int| 0 <= d < depth implies #[trigger] pending(next, d) == pending(t, d) by {
        assert(next.open[d] == t.open[d]);
        if d + 1 < depth {
            assert(next.open[d + 1] == t.open[d + 1]);
        }
    }
    assert(forall|d: int| 0 <= d < depth ==> (#[trigger] next.open[d]).function == t.open[d].function);
    lemma_open_pending_same(next, t, function, depth as nat);
}

proof fn lemma_later_pending(t: Timeline, weight: nat, function: usize, n: nat)
    requires
        consistent(t),
        n <= t.open.len(),
    ensures
        open_pending(later(t, weight), function, n) == open_pending(t, function, n) + if n
            == t.open.len() && n > 0 && t.open[n - 1].function == function {
            weight as int
        } else {
            0
        },
    decreases n,
{
    if n > 0 {
        lemma_later_pending(t, weight, function, (n - 1) as nat);
        let d = n - 1;
        let after = later(t, weight);
        assert forall|j: int| 0 <= j < t.closed.len() implies within(
            #[trigger] t.closed[j],
            (d + 1) as nat,
            t.open[d].start as int,
            t.time as int,
        ) == within(t.closed[j], (d + 1) as nat, t.open[d].start as int, after.time as int) by {
            assert(t.closed[j].end <= t.time);
        }
        lemma_window_same(
            t.closed,
            (d + 1) as nat,
            t.open[d].start as int,
            t.time as int,
            after.time as int,
            t.closed.len(),
        );
        assert(pending(after, d) == pending(t, d) + if d + 1 < t.open.len() {
            0
        } else {
            weight as int
        });
    }
}

proof fn lemma_close_to_self(t: Timeline, keep: nat, function: usize)
    requires
        consistent(t),
    ensures
        carried_self(close_to(t, keep), function) == carried_self(t, function),
    decreases t.open.len(),
{
    if t.open.len() > keep {
        lemma_close_top_self(t, function);
        lemma_close_top_consistent(t);
        lemma_close_to_self(close_top(t), keep, function);
    }
}

proof fn lemma_open_to_self(t: Timeline, path: Seq<usize>, function: usize)
    requires
        consistent(t),
    ensures
        carried_self(open_to(t, path), function) == carried_self(t, function),
    decreases path.len() - t.open.len(),
{
    if t.open.len() < path.len() {
        lemma_open_next_self(t, path, function);
        lemma_open_next_consistent(t, path);
        lemma_open_to_self(open_next(t, path), path, function);
    }
}

proof fn lemma_place_self(t: Timeline, sample: SampleView, function: usize)
    requires
        consistent(t),
        sample.path.len() > 0,
    ensures
        carried_self(place(t, sample), function) == carried_self(t, function) + if ends_in(
            sample,
            function as int,
        ) {
            sample.weight as int
        } else {
            0
        },
{
    let keep = shared_depth(t.open, sample.path, 0);
    let kept = close_to(t, keep);
    let opened = open_to(kept, sample.path);
    lemma_close_to_self(t, keep, function);
    lemma_close_to_consistent(t, keep);
    lemma_open_to_self(kept, sample.path, function);
    lemma_open_to_consistent(kept, sample.path);
    lemma_place_follows(t, sample);
    assert(place(t, sample) == later(opened, sample.weight));
    lemma_later_pending(opened, sample.weight, function, opened.open.len());
    assert(opened.open[opened.open.len() - 1].function == sample.path[sample.path.len() - 1]);
}

proof fn lemma_placed_self(samples: Seq<SampleView>, function: usize)
    requires
        forall|k: int| 0 <= k < samples.len() ==> (#[trigger] samples[k]).path.len() > 0,
    ensures
        carried_self(placed(samples), function) == weighted_self(samples, function as int),
    decreases samples.len(),
{
    if samples.len() > 0 {
        let front = samples.drop_last();
        assert forall|k: int| 0 <= k < front.len() implies (#[trigger] front[k]).path.len() > 0 by {
            assert(front[k] == samples[k]);
        }
        lemma_placed_self(front, function);
        lemma_placed_consistent(front);
        lemma_place_self(placed(front), samples.last(), function);
    }
}

/// A function's own time is the weight of the samples whose paths end in
/// it.
pub proof fn lemma_self_by_samples(samples: Seq<SampleView>, function: usize)
    requires
        forall|k: int| 0 <= k < samples.len() ==> (#[trigger] samples[k]).path.len() > 0,
    ensures
        self_used(timeline(samples), function, timeline(samples).len()) == weighted_self(
            samples,
            function as int,
        ),
{
    lemma_placed_self(samples, function);
    lemma_placed_consistent(samples);
    lemma_close_to_self(placed(samples), 0, function);
    lemma_close_to_open(placed(samples), 0);
}

proof fn lemma_weighted_total_after(first: SampleView, rest: Seq<SampleView>, function: int)
    ensures
        weighted_total(seq![first] + rest, function) == first.weight * occurrences(first.path, function)
            + weighted_total(rest, function),
    decreases rest.len(),
{
    let all = seq![first] + rest;
    if rest.len() == 0 {
        assert(all.drop_last() =~= Seq::<SampleView>::empty());
        assert(all.last() == first);
        assert(weighted_total(all.drop_last(), function) == 0);
    } else {
        lemma_weighted_total_after(first, rest.drop_last(), function);
        assert(all.drop_last() =~= seq![first] + rest.drop_last());
        assert(all.last() == rest.last());
    }
}

proof fn lemma_weighted_self_after(first: SampleView, rest: Seq<SampleView>, function: int)
    ensures
        weighted_self(seq![first] + rest, function) == weighted_self(rest, function) + if ends_in(
            first,
            function,
        ) {
            first.weight
        } else {
            0
        },
    decreases rest.len(),
{
    let all = seq![first] + rest;
    if rest.len() == 0 {
        assert(all.drop_last() =~= Seq::<SampleView>::empty());
        assert(all.last() == first);
        assert(weighted_self(all.drop_last(), function) == 0);
    } else {
        lemma_weighted_self_after(first, rest.drop_last(), function);
        assert(all.drop_last() =~= seq![first] + rest.drop_last());
        assert(all.last() == rest.last());
    }
}

proof fn lemma_total_weight_after(first: SampleView, rest: Seq<SampleView>)
    ensures
        total_weight(seq![first] + rest) == first.weight + total_weight(rest),
    decreases rest.len(),
{
    let all = seq![first] + rest;
    if rest.len() == 0 {
        assert(all.drop_last() =~= Seq::<SampleView>::empty());
        assert(all.last() == first);
        assert(total_weight(all.drop_last()) == 0);
    } else {
        lemma_total_weight_after(first, rest.drop_last());
        assert(all.drop_last() =~= seq![first] + rest.drop_last());
        assert(all.last() == rest.last());
    }
}

/// The sums over samples do not depend on the order of the samples: the
/// samples taken last to first give the same.
pub proof fn lemma_order_of_samples(samples: Seq<SampleView>, function: int)
    ensures
        weighted_total(samples.reverse(), function) == weighted_total(samples, function),
        weighted_self(samples.reverse(), function) == weighted_self(samples, function),
        total_weight(samples.reverse()) == total_weight(samples),
    decreases samples.len(),
{
    if samples.len() > 0 {
        let front = samples.drop_last();
        lemma_order_of_samples(front, function);
        assert(samples.reverse() =~= seq![samples.last()] + front.reverse());
        lemma_weighted_total_after(samples.last(), front.reverse(), function);
        lemma_weighted_self_after(samples.last(), front.reverse(), function);
        lemma_total_weight_after(samples.last(), front.reverse());
    } else {
        assert(samples.reverse() =~= samples);
    }
}

/// Partition: each sample ends in one function, so the own times of the
/// functions `0..functions` add up to the weight of the samples.
pub proof fn lemma_weighted_self_sum(samples: Seq<SampleView>, functions: nat)
    requires
        forall|k: int| 0 <= k < samples.len() ==> (#[trigger] samples[k]).path.len() > 0,
        forall|k: int, d: int|
            0 <= k < samples.len() && 0 <= d < samples[k].path.len() ==> (#[trigger] samples[k].path[d])
                < functions,
    ensures
        weighted_self_sum(samples, functions) == total_weight(samples),
    decreases samples.len(),
{
    if samples.len() == 0 {
        lemma_weighted_self_sum_of_none(samples, functions);
    } else {
        let front = samples.drop_last();
        assert forall|k: int| 0 <= k < front.len() implies (#[trigger] front[k]).path.len() > 0 by {
            assert(front[k] == samples[k]);
        }
        assert forall|k: int, d: int| 0 <= k < front.len() && 0 <= d < front[k].path.len() implies (
        #[trigger] front[k].path[d]) < functions by {
            assert(front[k] == samples[k]);
            assert(samples[k].path[d] < functions);
        }
        lemma_weighted_self_sum(front, functions);
        let last = samples.last();
        assert(samples[samples.len() - 1].path[last.path.len() - 1] < functions);
        lemma_weighted_self_sum_step(samples, functions);
    }
}

/// The own times of the functions `0..functions`, summed.
pub open spec fn weighted_self_sum(samples: Seq<SampleView>, functions: nat) -> nat
    decreases functions,
{
    if functions == 0 {
        0
    } else {
        weighted_self_sum(samples, (functions - 1) as nat) + weighted_self(samples, functions - 1)
    }
}

proof fn lemma_weighted_self_sum_of_none(samples: Seq<SampleView>, functions: nat)
    requires
        samples.len() == 0,
    ensures
        weighted_self_sum(samples, functions) == 0,
    decreases functions,
{
    if functions > 0 {
        lemma_weighted_self_sum_of_none(samples, (functions - 1) as nat);
    }
}

proof fn lemma_weighted_self_sum_step(samples: Seq<SampleView>, functions: nat)
    requires
        samples.len() > 0,
        samples.last().path.len() > 0,
    ensures
        weighted_self_sum(samples, functions) == weighted_self_sum(samples.drop_last(), functions)
            + if samples.last().path.last() < functions {
            samples.last().weight
        } else {
            0
        },
    decreases functions,
{
    if functions > 0 {
        lemma_weighted_self_sum_step(samples, (functions - 1) as nat);
    }
}

proof fn lemma_occurrences_of_last(path: Seq<usize>, function: int)
    requires
        path.len() > 0,
        path.last() == function,
    ensures
        occurrences(path, function) >= 1,
{
}

/// A function's own time is no more than its total.
pub proof fn lemma_weighted_self_within(samples: Seq<SampleView>, function: int)
    ensures
        weighted_self(samples, function) <= weighted_total(samples, function),
    decreases samples.len(),
{
    if samples.len() > 0 {
        lemma_weighted_self_within(samples.drop_last(), function);
        let last = samples.last();
        let count = occurrences(last.path, function);
        if ends_in(last, function) {
            lemma_occurrences_of_last(last.path, function);
            assert(last.weight * count >= last.weight) by (nonlinear_arith)
                requires
                    count >= 1,
            ;
        } else {
            assert(last.weight * count >= 0) by (nonlinear_arith);
        }
    }
}

proof fn lemma_shared_depth_of_own_path(open: Seq<OpenFrame>, path: Seq<usize>, from: nat)
    requires
        follows(open, path),
        from <= path.len(),
    ensures
        shared_depth(open, path, from) == path.len(),
    decreases open.len() - from,
{
    if from < path.len() {
        assert(open[from as int].function == path[from as int]);
        lemma_shared_depth_of_own_path(open, path, from + 1);
    }
}

/// Merging: two samples in a row with the same path make one interval at
/// every depth, as one sample of their path and their weights together does.
pub proof fn lemma_same_path_merges(samples: Seq<SampleView>, first: SampleView, second: SampleView)
    requires
        first.path == second.path,
    ensures
        timeline(samples.push(first).push(second)) == timeline(
            samples.push(SampleView { path: first.path, weight: first.weight + second.weight }),
        ),
{
    let both = SampleView { path: first.path, weight: first.weight + second.weight };
    let before = placed(samples);
    assert(samples.push(first).drop_last() =~= samples);
    assert(samples.push(both).drop_last() =~= samples);
    assert(samples.push(first).push(second).drop_last() =~= samples.push(first));
    let after = place(before, first);
    assert(placed(samples.push(first)) == after);
    lemma_place_follows(before, first);
    lemma_shared_depth_of_own_path(after.open, second.path, 0);
    assert(place(after, second) == later(after, second.weight));
    assert(place(before, both) == later(after, second.weight));
}

/// The weight of each sample, once for every frame of its path, summed.
pub open spec fn weighted_depth(samples: Seq<SampleView>) -> nat
    decreases samples.len(),
{
    if samples.len() == 0 {
        0
    } else {
        weighted_depth(samples.drop_last()) + samples.last().weight * samples.last().path.len()
    }
}

proof fn lemma_occurrences_within(path: Seq<usize>, function: int)
    ensures
        occurrences(path, function) <= path.len(),
    decreases path.len(),
{
    if path.len() > 0 {
        lemma_occurrences_within(path.drop_last(), function);
    }
}

/// No function's total is more than the weight of every sample taken once
/// for every frame of its path, and where every sample has a path neither
/// is the weight of the samples.
pub proof fn lemma_weighted_depth(samples: Seq<SampleView>, function: int)
    ensures
        weighted_total(samples, function) <= weighted_depth(samples),
        (forall|k: int| 0 <= k < samples.len() ==> (#[trigger] samples[k]).path.len() > 0)
            ==> total_weight(samples) <= weighted_depth(samples),
    decreases samples.len(),
{
    if samples.len() > 0 {
        let front = samples.drop_last();
        let last = samples.last();
        lemma_weighted_depth(front, function);
        lemma_occurrences_within(last.path, function);
        let count = occurrences(last.path, function);
        let depth = last.path.len();
        assert(last.weight * count <= last.weight * depth) by (nonlinear_arith)
            requires
                count <= depth,
        ;
        if forall|k: int| 0 <= k < samples.len() ==> (#[trigger] samples[k]).path.len() > 0 {
            assert forall|k: int| 0 <= k < front.len() implies (#[trigger] front[k]).path.len() > 0 by {
                assert(front[k] == samples[k]);
            }
            assert(samples[samples.len() - 1].path.len() > 0);
            assert(last.weight <= last.weight * depth) by (nonlinear_arith)
                requires
                    depth >= 1,
            ;
        }
    }
}

} // verus!
