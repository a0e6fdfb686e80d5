//! Places collapsed samples on one synthetic timeline, as frame intervals.
//!
//! Samples are taken in the order of the sequence handed in. A cursor starts
//! at 0; a sample of weight `w` occupies `[cursor, cursor + w)` at every depth
//! of its call path, and then the cursor moves on by `w`. A frame that the
//! next sample shares, the same functions from the root down to it, stays open
//! and so becomes one interval over both samples.

use vstd::prelude::*;
use crate::cpu::intervals::{disjoint, is_child, names_known, nested, ordered, root_time, well_formed};

verus! {

/// A function at a depth of a call path. The root of a path is at depth 0.
#[derive(Clone, Copy, Debug, PartialEq, Eq, Hash)]
pub struct Frame {
    /// Index of the function's name in the table of names.
    pub function: usize,
    pub depth: usize,
}

/// A frame over the half-open window `[start_time, end_time)` of the timeline.
#[derive(Clone, Copy, Debug, PartialEq, Eq, Hash)]
pub struct TimedFrame {
    pub location: Frame,
    pub start_time: usize,
    pub end_time: usize,
}

/// One sample: the functions of its call path from the root down, and how
/// much time it stands for.
#[derive(Clone, Debug, PartialEq, Eq)]
pub struct CollapsedSample {
    pub path: Vec<usize>,
    pub weight: usize,
}

/// The mathematical value of a [`TimedFrame`].
pub struct FrameInterval {
    pub function: usize,
    pub depth: nat,
    pub start: nat,
    pub end: nat,
}

/// The mathematical value of a [`CollapsedSample`].
pub struct SampleView {
    pub path: Seq<usize>,
    pub weight: nat,
}

impl View for TimedFrame {
    type V = FrameInterval;

    open spec fn view(&self) -> FrameInterval {
        FrameInterval {
            function: self.location.function,
            depth: self.location.depth as nat,
            start: self.start_time as nat,
            end: self.end_time as nat,
        }
    }
}

impl View for CollapsedSample {
    type V = SampleView;

    open spec fn view(&self) -> SampleView {
        SampleView { path: self.path@, weight: self.weight as nat }
    }
}

/// The intervals that a sequence of frames stands for.
pub open spec fn intervals(frames: Seq<TimedFrame>) -> Seq<FrameInterval> {
    Seq::new(frames.len(), |i: int| frames[i]@)
}

/// The samples that a sequence of samples stands for.
pub open spec fn sample_views(samples: Seq<CollapsedSample>) -> Seq<SampleView> {
    Seq::new(samples.len(), |i: int| samples[i]@)
}

/// A frame that has begun and not yet ended.
pub struct OpenFrame {
    pub function: usize,
    pub start: nat,
}

/// The timeline while samples are being placed: the intervals that have
/// ended, the frames of the latest sample, which are still open (the one at
/// depth `d` at index `d`), and the cursor.
pub struct Timeline {
    pub closed: Seq<FrameInterval>,
    pub open: Seq<OpenFrame>,
    pub time: nat,
}

/// How many frames from the root down the open frames and `path` share,
/// counted on from `from`.
pub open spec fn shared_depth(open: Seq<OpenFrame>, path: Seq<usize>, from: nat) -> nat
    decreases open.len() - from,
{
    if from < open.len() && from < path.len() && open[from as int].function == path[from as int] {
        shared_depth(open, path, from + 1)
    } else {
        from
    }
}

/// Ends the deepest open frame at the cursor.
pub open spec fn close_top(t: Timeline) -> Timeline
    recommends
        t.open.len() > 0,
{
    Timeline {
        closed: t.closed.push(
            FrameInterval {
                function: t.open.last().function,
                depth: (t.open.len() - 1) as nat,
                start: t.open.last().start,
                end: t.time,
            },
        ),
        open: t.open.drop_last(),
        time: t.time,
    }
}

/// Ends open frames, deepest first, until only `keep` are left.
pub open spec fn close_to(t: Timeline, keep: nat) -> Timeline
    decreases t.open.len(),
{
    if t.open.len() > keep {
        close_to(close_top(t), keep)
    } else {
        t
    }
}

/// Begins, at the cursor, the frame of `path` below the open ones.
pub open spec fn open_next(t: Timeline, path: Seq<usize>) -> Timeline
    recommends
        t.open.len() < path.len(),
{
    Timeline {
        closed: t.closed,
        open: t.open.push(OpenFrame { function: path[t.open.len() as int], start: t.time }),
        time: t.time,
    }
}

/// Begins the frames of `path` that are not open yet.
pub open spec fn open_to(t: Timeline, path: Seq<usize>) -> Timeline
    decreases path.len() - t.open.len(),
{
    if t.open.len() < path.len() {
        open_to(open_next(t, path), path)
    } else {
        t
    }
}

/// Places one sample: the frames it does not share with the one before end,
/// its own begin, and the cursor moves on by its weight.
pub open spec fn place(t: Timeline, sample: SampleView) -> Timeline {
    let opened = open_to(close_to(t, shared_depth(t.open, sample.path, 0)), sample.path);
    Timeline { closed: opened.closed, open: opened.open, time: opened.time + sample.weight }
}

/// The timeline after all of `samples` were placed, first to last.
pub open spec fn placed(samples: Seq<SampleView>) -> Timeline
    decreases samples.len(),
{
    if samples.len() == 0 {
        Timeline { closed: Seq::empty(), open: Seq::empty(), time: 0 }
    } else {
        place(placed(samples.drop_last()), samples.last())
    }
}

/// The intervals of `samples`: all were placed and every frame has ended.
pub open spec fn timeline(samples: Seq<SampleView>) -> Seq<FrameInterval> {
    close_to(placed(samples), 0).closed
}

/// The sum of the samples' weights.
pub open spec fn total_weight(samples: Seq<SampleView>) -> nat
    decreases samples.len(),
{
    if samples.len() == 0 {
        0
    } else {
        total_weight(samples.drop_last()) + samples.last().weight
    }
}

/// Whether the closed interval `i` has its parent: among the closed ones, or
/// still open and begun no later than it.
pub open spec fn has_parent(t: Timeline, i: int) -> bool {
    ||| exists|j: int| 0 <= j < t.closed.len() && is_child(#[trigger] t.closed[j], t.closed[i])
    ||| (t.closed[i].depth - 1 < t.open.len() && t.open[t.closed[i].depth - 1].start
        <= t.closed[i].start)
}

/// What holds of a timeline whatever was placed on it: no frame reaches past
/// the cursor, a deeper open frame began no earlier than a shallower one, the
/// closed intervals of one depth follow each other in time and end before the
/// open frame of that depth begins, every closed interval below the root has
/// its parent, and the roots have taken all time up to the open root.
pub open spec fn consistent(t: Timeline) -> bool {
    &&& forall|i: int|
        0 <= i < t.closed.len() ==> (#[trigger] t.closed[i]).start <= t.closed[i].end <= t.time
    &&& forall|d: int| 0 <= d < t.open.len() ==> (#[trigger] t.open[d]).start <= t.time
    &&& forall|d: int, e: int|
        0 <= d < e < t.open.len() ==> (#[trigger] t.open[d]).start <= (#[trigger] t.open[e]).start
    &&& forall|i: int, j: int|
        0 <= i < j < t.closed.len() && (#[trigger] t.closed[i]).depth == (#[trigger] t.closed[j]).depth
            ==> t.closed[i].end <= t.closed[j].start
    &&& forall|i: int|
        0 <= i < t.closed.len() && (#[trigger] t.closed[i]).depth < t.open.len() ==> t.closed[i].end
            <= t.open[t.closed[i].depth as int].start
    &&& forall|i: int|
        0 <= i < t.closed.len() && (#[trigger] t.closed[i]).depth > 0 ==> has_parent(t, i)
    &&& root_time(t.closed, t.closed.len()) == if t.open.len() > 0 {
        t.open[0].start
    } else {
        t.time
    }
}

proof fn lemma_root_time_of_front(a: Seq<FrameInterval>, b: Seq<FrameInterval>, n: nat)
    requires
        n <= a.len(),
        n <= b.len(),
        forall|i: int| 0 <= i < n ==> a[i] == b[i],
    ensures
        root_time(a, n) == root_time(b, n),
    decreases n,
{
    if n > 0 {
        lemma_root_time_of_front(a, b, (n - 1) as nat);
    }
}

/// Ending the deepest open frame keeps a timeline consistent.
pub proof fn lemma_close_top_consistent(t: Timeline)
    requires
        consistent(t),
        t.open.len() > 0,
    ensures
        consistent(close_top(t)),
{
    let next = close_top(t);
    let n = t.closed.len() as int;
    let depth = t.open.len() - 1;
    let top = t.open[depth];
    assert(next.closed[n].start == top.start);
    assert(forall|i: int| 0 <= i < n ==> next.closed[i] == t.closed[i]);
    assert(forall|d: int| 0 <= d < depth ==> next.open[d] == t.open[d]);
    assert forall|i: int| 0 <= i < next.closed.len() && (#[trigger] next.closed[i]).depth
        > 0 implies has_parent(next, i) by {
        if i < n {
            assert(t.closed[i].depth > 0);
            assert(has_parent(t, i));
            if exists|j: int| 0 <= j < t.closed.len() && is_child(#[trigger] t.closed[j], t.closed[i]) {
                let j = choose|j: int| 0 <= j < t.closed.len() && is_child(#[trigger] t.closed[j], t.closed[i]);
                assert(is_child(next.closed[j], next.closed[i]));
            } else if t.closed[i].depth - 1 == depth {
                assert(is_child(next.closed[n], next.closed[i]));
            }
        } else {
            assert(t.open[depth - 1].start <= t.open[depth].start);
        }
    }
    assert forall|i: int, j: int|
        0 <= i < j < next.closed.len() && (#[trigger] next.closed[i]).depth == (
        #[trigger] next.closed[j]).depth implies next.closed[i].end <= next.closed[j].start by {
        if j == n {
            assert(t.closed[i].depth < t.open.len());
        }
    }
    lemma_root_time_of_front(next.closed, t.closed, t.closed.len());
}

/// Beginning a frame below the open ones keeps a timeline consistent.
pub proof fn lemma_open_next_consistent(t: Timeline, path: Seq<usize>)
    requires
        consistent(t),
        t.open.len() < path.len(),
    ensures
        consistent(open_next(t, path)),
{
    let next = open_next(t, path);
    let depth = t.open.len() as int;
    assert(forall|d: int| 0 <= d < depth ==> next.open[d] == t.open[d]);
    assert forall|i: int| 0 <= i < next.closed.len() && (#[trigger] next.closed[i]).depth
        > 0 implies has_parent(next, i) by {
        assert(has_parent(t, i));
        if exists|j: int| 0 <= j < t.closed.len() && is_child(#[trigger] t.closed[j], t.closed[i]) {
            let j = choose|j: int| 0 <= j < t.closed.len() && is_child(#[trigger] t.closed[j], t.closed[i]);
            assert(is_child(next.closed[j], next.closed[i]));
        }
    }
}

/// Ending open frames keeps a timeline consistent.
pub proof fn lemma_close_to_consistent(t: Timeline, keep: nat)
    requires
        consistent(t),
    ensures
        consistent(close_to(t, keep)),
    decreases t.open.len(),
{
    if t.open.len() > keep {
        lemma_close_top_consistent(t);
        lemma_close_to_consistent(close_top(t), keep);
    }
}

/// Beginning the frames of a path keeps a timeline consistent, and leaves
/// as many frames open as the path has, or more.
pub proof fn lemma_open_to_consistent(t: Timeline, path: Seq<usize>)
    requires
        consistent(t),
    ensures
        consistent(open_to(t, path)),
        open_to(t, path).open.len() >= path.len(),
    decreases path.len() - t.open.len(),
{
    if t.open.len() < path.len() {
        lemma_open_next_consistent(t, path);
        lemma_open_to_consistent(open_next(t, path), path);
    }
}

/// Placing a sample with a path keeps a timeline consistent.
pub proof fn lemma_place_consistent(t: Timeline, sample: SampleView)
    requires
        consistent(t),
        sample.path.len() > 0,
    ensures
        consistent(place(t, sample)),
{
    let kept = close_to(t, shared_depth(t.open, sample.path, 0));
    lemma_close_to_consistent(t, shared_depth(t.open, sample.path, 0));
    lemma_open_to_consistent(kept, sample.path);
    let opened = open_to(kept, sample.path);
    let next = place(t, sample);
    assert forall|i: int| 0 <= i < next.closed.len() && (#[trigger] next.closed[i]).depth
        > 0 implies has_parent(next, i) by {
        assert(has_parent(opened, i));
        if exists|j: int| 0 <= j < opened.closed.len() && is_child(#[trigger] opened.closed[j], opened.closed[i]) {
            let j = choose|j: int| 0 <= j < opened.closed.len() && is_child(#[trigger] opened.closed[j], opened.closed[i]);
            assert(is_child(next.closed[j], next.closed[i]));
        }
    }
}

/// The timeline of samples with paths is consistent.
pub proof fn lemma_placed_consistent(samples: Seq<SampleView>)
    requires
        forall|k: int| 0 <= k < samples.len() ==> (#[trigger] samples[k]).path.len() > 0,
    ensures
        consistent(placed(samples)),
    decreases samples.len(),
{
    if samples.len() > 0 {
        lemma_placed_consistent(samples.drop_last());
        lemma_place_consistent(placed(samples.drop_last()), samples.last());
    }
}

/// The intervals of samples whose paths are not empty are well formed, and
/// their roots last as long as the samples weigh.
pub proof fn lemma_timeline_well_formed(samples: Seq<SampleView>)
    requires
        forall|k: int| 0 <= k < samples.len() ==> (#[trigger] samples[k]).path.len() > 0,
    ensures
        well_formed(timeline(samples)),
        root_time(timeline(samples), timeline(samples).len()) == total_weight(samples),
{
    let end = close_to(placed(samples), 0);
    lemma_placed_consistent(samples);
    lemma_close_to_consistent(placed(samples), 0);
    lemma_close_to_keeps_time(placed(samples), 0);
    lemma_placed_time(samples);
    let frames = timeline(samples);
    assert(ordered(frames));
    assert forall|i: int, j: int|
        0 <= i < frames.len() && 0 <= j < frames.len() && i != j && (#[trigger] frames[i]).depth == (
        #[trigger] frames[j]).depth implies crate::cpu::intervals::apart(frames[i], frames[j]) by {
        if i < j {
            assert(frames[i].end <= frames[j].start);
        } else {
            assert(frames[j].end <= frames[i].start);
        }
    }
    assert forall|i: int| 0 <= i < frames.len() && (#[trigger] frames[i]).depth > 0 implies exists|j: int|
        0 <= j < frames.len() && is_child(#[trigger] frames[j], frames[i]) by {
        assert(has_parent(end, i));
    }
    assert(disjoint(frames));
    assert(nested(frames));
}

spec fn names_below(t: Timeline, functions: nat) -> bool {
    &&& forall|i: int| 0 <= i < t.closed.len() ==> (#[trigger] t.closed[i]).function < functions
    &&& forall|d: int| 0 <= d < t.open.len() ==> (#[trigger] t.open[d]).function < functions
}

spec fn paths_below(samples: Seq<SampleView>, functions: nat) -> bool {
    forall|k: int, d: int|
        0 <= k < samples.len() && 0 <= d < samples[k].path.len() ==> (#[trigger] samples[k].path[d])
            < functions
}

proof fn lemma_close_to_names(t: Timeline, keep: nat, functions: nat)
    requires
        names_below(t, functions),
    ensures
        names_below(close_to(t, keep), functions),
    decreases t.open.len(),
{
    if t.open.len() > keep {
        let next = close_top(t);
        assert(forall|d: int| 0 <= d < next.open.len() ==> next.open[d] == t.open[d]);
        assert forall|i: int| 0 <= i < next.closed.len() implies (#[trigger] next.closed[i]).function
            < functions by {
            if i < t.closed.len() {
                assert(next.closed[i] == t.closed[i]);
            } else {
                assert(next.closed[i].function == t.open[t.open.len() - 1].function);
            }
        }
        lemma_close_to_names(next, keep, functions);
    }
}

proof fn lemma_open_to_names(t: Timeline, path: Seq<usize>, functions: nat)
    requires
        names_below(t, functions),
        forall|d: int| 0 <= d < path.len() ==> (#[trigger] path[d]) < functions,
    ensures
        names_below(open_to(t, path), functions),
    decreases path.len() - t.open.len(),
{
    if t.open.len() < path.len() {
        let next = open_next(t, path);
        assert forall|d: int| 0 <= d < next.open.len() implies (#[trigger] next.open[d]).function
            < functions by {
            if d < t.open.len() {
                assert(next.open[d] == t.open[d]);
            } else {
                assert(next.open[d].function == path[d]);
            }
        }
        lemma_open_to_names(next, path, functions);
    }
}

proof fn lemma_placed_names(samples: Seq<SampleView>, functions: nat)
    requires
        paths_below(samples, functions),
    ensures
        names_below(placed(samples), functions),
    decreases samples.len(),
{
    if samples.len() > 0 {
        let front = samples.drop_last();
        let sample = samples.last();
        assert forall|k: int, d: int| 0 <= k < front.len() && 0 <= d < front[k].path.len() implies (
        #[trigger] front[k].path[d]) < functions by {
            assert(front[k] == samples[k]);
            assert(samples[k].path[d] < functions);
        }
        lemma_placed_names(front, functions);
        let before = placed(front);
        let kept = close_to(before, shared_depth(before.open, sample.path, 0));
        lemma_close_to_names(before, shared_depth(before.open, sample.path, 0), functions);
        assert forall|d: int| 0 <= d < sample.path.len() implies (#[trigger] sample.path[d]) < functions by {
            assert(samples[samples.len() - 1].path[d] < functions);
        }
        lemma_open_to_names(kept, sample.path, functions);
    }
}

/// The intervals name only functions that the samples name.
pub proof fn lemma_timeline_names_known(samples: Seq<SampleView>, functions: nat)
    requires
        forall|k: int, d: int|
            0 <= k < samples.len() && 0 <= d < samples[k].path.len() ==> (#[trigger] samples[k].path[d])
                < functions,
    ensures
        names_known(timeline(samples), functions),
{
    lemma_placed_names(samples, functions);
    lemma_close_to_names(placed(samples), 0, functions);
}

struct Pending {
    function: usize,
    start_time: usize,
}

spec fn open_frames(open: Seq<Pending>) -> Seq<OpenFrame> {
    Seq::new(open.len(), |i: int| OpenFrame { function: open[i].function, start: open[i].start_time as nat })
}

spec fn state(closed: Seq<TimedFrame>, open: Seq<Pending>, time: usize) -> Timeline {
    Timeline { closed: intervals(closed), open: open_frames(open), time: time as nat }
}

/// Ending open frames leaves the cursor where it is, and as many frames
/// open as are to be kept.
pub proof fn lemma_close_to_keeps_time(t: Timeline, keep: nat)
    ensures
        close_to(t, keep).time == t.time,
        close_to(t, keep).open.len() <= keep || close_to(t, keep).open.len() == t.open.len(),
        t.open.len() >= keep ==> close_to(t, keep).open.len() == keep,
    decreases t.open.len(),
{
    if t.open.len() > keep {
        lemma_close_to_keeps_time(close_top(t), keep);
    }
}

/// Beginning frames leaves the cursor where it is.
pub proof fn lemma_open_to_keeps_time(t: Timeline, path: Seq<usize>)
    ensures
        open_to(t, path).time == t.time,
    decreases path.len() - t.open.len(),
{
    if t.open.len() < path.len() {
        lemma_open_to_keeps_time(open_next(t, path), path);
    }
}

/// The cursor ends at the sum of the weights.
pub proof fn lemma_placed_time(samples: Seq<SampleView>)
    ensures
        placed(samples).time == total_weight(samples),
    decreases samples.len(),
{
    if samples.len() > 0 {
        let before = placed(samples.drop_last());
        let sample = samples.last();
        lemma_placed_time(samples.drop_last());
        let kept = close_to(before, shared_depth(before.open, sample.path, 0));
        lemma_close_to_keeps_time(before, shared_depth(before.open, sample.path, 0));
        lemma_open_to_keeps_time(kept, sample.path);
    }
}

/// A part of the samples, taken from the front, weighs no more than all.
pub proof fn lemma_total_weight_grows(samples: Seq<SampleView>, n: int)
    requires
        0 <= n <= samples.len(),
    ensures
        total_weight(samples.take(n)) <= total_weight(samples),
    decreases samples.len() - n,
{
    if n < samples.len() {
        lemma_total_weight_grows(samples, n + 1);
        assert(samples.take(n + 1).drop_last() =~= samples.take(n));
    } else {
        assert(samples.take(n) =~= samples);
    }
}

fn close_frames(closed: &mut Vec<TimedFrame>, open: &mut Vec<Pending>, time: usize, keep: usize)
    requires
        forall|i: int| 0 <= i < old(open).len() ==> old(open)[i].start_time <= time,
    ensures
        state(final(closed)@, final(open)@, time) == close_to(state(old(closed)@, old(open)@, time), keep as nat),
        forall|i: int| 0 <= i < final(open).len() ==> final(open)[i].start_time <= time,
{
    let ghost before = state(closed@, open@, time);
    while open.len() > keep
        invariant
            close_to(state(closed@, open@, time), keep as nat) == close_to(before, keep as nat),
            forall|i: int| 0 <= i < open.len() ==> open[i].start_time <= time,
        decreases open.len(),
    {
        let ghost current = state(closed@, open@, time);
        let top = open.pop().unwrap();
        closed.push(
            TimedFrame {
                location: Frame { function: top.function, depth: open.len() },
                start_time: top.start_time,
                end_time: time,
            },
        );
        proof {
            let next = state(closed@, open@, time);
            assert(next.closed =~= close_top(current).closed);
            assert(next.open =~= close_top(current).open);
        }
    }
}

/// Places the samples on the timeline, in the order of `samples`, and returns
/// the intervals with the time they span in all; `None` where the sum of the
/// weights is beyond `usize`.
pub fn frames(samples: &Vec<CollapsedSample>) -> (r: Option<(Vec<TimedFrame>, usize)>)
    ensures
        r is Some <==> total_weight(sample_views(samples@)) <= usize::MAX,
        r matches Some((frames, total_time)) ==> {
            &&& intervals(frames@) == timeline(sample_views(samples@))
            &&& total_time == total_weight(sample_views(samples@))
        },
        r is Some && (forall|k: int| 0 <= k < samples.len() ==> (#[trigger] samples[k]).path.len() > 0)
            ==> well_formed(timeline(sample_views(samples@))) && root_time(
            timeline(sample_views(samples@)),
            timeline(sample_views(samples@)).len(),
        ) == total_weight(sample_views(samples@)),
{
    let ghost all = sample_views(samples@);
    let mut closed: Vec<TimedFrame> = Vec::new();
    let mut open: Vec<Pending> = Vec::new();
    let mut time: usize = 0;
    let mut k: usize = 0;
    assert(all.take(0) =~= Seq::<SampleView>::empty());
    assert(state(closed@, open@, time).closed =~= Seq::<FrameInterval>::empty());
    assert(state(closed@, open@, time).open =~= Seq::<OpenFrame>::empty());
    while k < samples.len()
        invariant
            k <= samples.len(),
            all == sample_views(samples@),
            state(closed@, open@, time) == placed(all.take(k as int)),
            forall|i: int| 0 <= i < open.len() ==> open[i].start_time <= time,
        decreases samples.len() - k,
    {
        let sample = &samples[k];
        let ghost before = state(closed@, open@, time);
        proof {
            assert(all.take(k + 1).drop_last() =~= all.take(k as int));
            assert(all.take(k + 1).last() == sample@);
            lemma_placed_time(all.take(k + 1));
            lemma_placed_time(all.take(k as int));
            lemma_total_weight_grows(all, k + 1);
        }
        let mut keep: usize = 0;
        while keep < open.len() && keep < sample.path.len() && open[keep].function
            == sample.path[keep]
            invariant
                keep <= open.len(),
                keep <= sample.path.len(),
                shared_depth(open_frames(open@), sample.path@, keep as nat) == shared_depth(
                    open_frames(open@),
                    sample.path@,
                    0,
                ),
            decreases open.len() - keep,
        {
            keep += 1;
        }
        close_frames(&mut closed, &mut open, time, keep);
        let ghost kept = state(closed@, open@, time);
        while open.len() < sample.path.len()
            invariant
                open_to(state(closed@, open@, time), sample.path@) == open_to(kept, sample.path@),
                forall|i: int| 0 <= i < open.len() ==> open[i].start_time <= time,
            decreases sample.path.len() - open.len(),
        {
            let ghost current = state(closed@, open@, time);
            open.push(Pending { function: sample.path[open.len()], start_time: time });
            proof {
                let next = state(closed@, open@, time);
                assert(next.open =~= open_next(current, sample.path@).open);
            }
        }
        if sample.weight > usize::MAX - time {
            return None;
        }
        time += sample.weight;
        k += 1;
    }
    proof {
        assert(all.take(k as int) =~= all);
        lemma_placed_time(all);
    }
    close_frames(&mut closed, &mut open, time, 0);
    proof {
        if forall|k: int| 0 <= k < samples.len() ==> (#[trigger] samples[k]).path.len() > 0 {
            assert forall|k: int| 0 <= k < all.len() implies (#[trigger] all[k]).path.len() > 0 by {
                assert(samples[k].path.len() > 0);
            }
            lemma_timeline_well_formed(all);
        }
    }
    Some((closed, time))
}

} // verus!
