//! Frame intervals in the order of depth, start and end, so that the
//! interval around another is found by bisection, and with it the own time
//! of every interval in one pass over the children.

use vstd::prelude::*;
use crate::cpu::intervals::{
    apart,
    disjoint,
    duration,
    is_child,
    lemma_children_fit,
    ordered,
    own_time,
    window_time,
    within,
};
use crate::cpu::merge::{intervals, FrameInterval, TimedFrame};

verus! {

/// Whether `a` stands before `b`, or the two agree, going by depth, then
/// start, then end.
pub open spec fn key_le(a: FrameInterval, b: FrameInterval) -> bool {
    a.depth < b.depth || (a.depth == b.depth && (a.start < b.start || (a.start == b.start && a.end
        <= b.end)))
}

/// Whether the frame at place `a` stands before the frame at place `b`, or
/// is it: going by depth, then start, then end, and among frames that agree
/// in all three by place.
pub open spec fn place_le(frames: Seq<FrameInterval>, a: int, b: int) -> bool {
    key_le(frames[a], frames[b]) && (key_le(frames[b], frames[a]) ==> a <= b)
}

/// Whether `order` holds places of `frames` in the order of the frames.
pub open spec fn sorted_by_key(frames: Seq<FrameInterval>, order: Seq<usize>) -> bool {
    &&& forall|a: int| 0 <= a < order.len() ==> (#[trigger] order[a]) < frames.len()
    &&& forall|a: int, b: int|
        0 <= a < b < order.len() ==> place_le(
            frames,
            (#[trigger] order[a]) as int,
            (#[trigger] order[b]) as int,
        )
}

/// Whether a frame is above `depth`, or at `depth` and starts no later than
/// `start`.
pub open spec fn at_or_before(frame: FrameInterval, depth: nat, start: nat) -> bool {
    frame.depth < depth || (frame.depth == depth && frame.start <= start)
}

fn key_before(a: &TimedFrame, b: &TimedFrame) -> (r: bool)
    ensures
        r == key_le(a@, b@),
{
    a.location.depth < b.location.depth || (a.location.depth == b.location.depth && (a.start_time
        < b.start_time || (a.start_time == b.start_time && a.end_time <= b.end_time)))
}

fn place_before(frames: &Vec<TimedFrame>, a: usize, b: usize) -> (r: bool)
    requires
        a < frames.len(),
        b < frames.len(),
    ensures
        r == place_le(intervals(frames@), a as int, b as int),
{
    key_before(&frames[a], &frames[b]) && (!key_before(&frames[b], &frames[a]) || a <= b)
}

fn merge(frames: &Vec<TimedFrame>, left: &Vec<usize>, right: &Vec<usize>) -> (out: Vec<usize>)
    requires
        sorted_by_key(intervals(frames@), left@),
        sorted_by_key(intervals(frames@), right@),
    ensures
        sorted_by_key(intervals(frames@), out@),
        out.len() == left.len() + right.len(),
        forall|a: int| 0 <= a < left.len() ==> out@.contains(#[trigger] left[a]),
        forall|b: int| 0 <= b < right.len() ==> out@.contains(#[trigger] right[b]),
{
    let ghost all = intervals(frames@);
    let mut out: Vec<usize> = Vec::new();
    let mut i: usize = 0;
    let mut j: usize = 0;
    while i < left.len() || j < right.len()
        invariant
            i <= left.len(),
            j <= right.len(),
            out.len() == i + j,
            all == intervals(frames@),
            sorted_by_key(all, left@),
            sorted_by_key(all, right@),
            sorted_by_key(all, out@),
            forall|a: int| 0 <= a < i ==> out@.contains(#[trigger] left[a]),
            forall|b: int| 0 <= b < j ==> out@.contains(#[trigger] right[b]),
            forall|k: int, a: int|
                0 <= k < out.len() && i <= a < left.len() ==> place_le(all, (#[trigger] out[k]) as int, (#[trigger] left[a]) as int),
            forall|k: int, b: int|
                0 <= k < out.len() && j <= b < right.len() ==> place_le(all, (#[trigger] out[k]) as int, (#[trigger] right[b]) as int),
        decreases left.len() - i + right.len() - j,
    {
        let ghost before = out@;
        let from_left = if j >= right.len() {
            true
        } else if i >= left.len() {
            false
        } else {
            place_before(frames, left[i], right[j])
        };
        let next = if from_left {
            left[i]
        } else {
            right[j]
        };
        out.push(next);
        proof {
            assert forall|a: int| 0 <= a < i implies out@.contains(#[trigger] left[a]) by {
                let at = choose|at: int| 0 <= at < before.len() && before[at] == left[a];
                assert(out[at] == left[a]);
            }
            assert forall|b: int| 0 <= b < j implies out@.contains(#[trigger] right[b]) by {
                let at = choose|at: int| 0 <= at < before.len() && before[at] == right[b];
                assert(out[at] == right[b]);
            }
            assert(out[before.len() as int] == next);
            assert forall|a: int, b: int| 0 <= a < b < out.len() implies place_le(all, (#[trigger] out[a]) as int, (#[trigger] out[b]) as int) by {
                if b < before.len() {
                    assert(out[a] == before[a] && out[b] == before[b]);
                } else {
                    assert(out[a] == before[a]);
                    if from_left {
                        assert(place_le(all, before[a] as int, left[i as int] as int));
                    } else {
                        assert(place_le(all, before[a] as int, right[j as int] as int));
                    }
                }
            }
            if from_left {
                assert forall|k: int, a: int| 0 <= k < out.len() && i + 1 <= a < left.len() implies place_le(all, (#[trigger] out[k]) as int, (#[trigger] left[a]) as int) by {
                    if k < before.len() {
                        assert(out[k] == before[k]);
                    } else {
                        assert(place_le(all, left[i as int] as int, left[a] as int));
                    }
                }
                assert forall|k: int, b: int| 0 <= k < out.len() && j <= b < right.len() implies place_le(all, (#[trigger] out[k]) as int, (#[trigger] right[b]) as int) by {
                    if k < before.len() {
                        assert(out[k] == before[k]);
                    } else {
                        assert(place_le(all, left[i as int] as int, right[j as int] as int));
                        if j < b {
                            assert(place_le(all, right[j as int] as int, right[b] as int));
                        }
                    }
                }
            } else {
                assert forall|k: int, b: int| 0 <= k < out.len() && j + 1 <= b < right.len() implies place_le(all, (#[trigger] out[k]) as int, (#[trigger] right[b]) as int) by {
                    if k < before.len() {
                        assert(out[k] == before[k]);
                    } else {
                        assert(place_le(all, right[j as int] as int, right[b] as int));
                    }
                }
                assert forall|k: int, a: int| 0 <= k < out.len() && i <= a < left.len() implies place_le(all, (#[trigger] out[k]) as int, (#[trigger] left[a]) as int) by {
                    if k < before.len() {
                        assert(out[k] == before[k]);
                    } else {
                        assert(place_le(all, right[j as int] as int, left[i as int] as int));
                        if i < a {
                            assert(place_le(all, left[i as int] as int, left[a] as int));
                        }
                    }
                }
            }
        }
        if from_left {
            i += 1;
        } else {
            j += 1;
        }
    }
    out
}

fn sort(frames: &Vec<TimedFrame>, order: Vec<usize>) -> (out: Vec<usize>)
    requires
        forall|a: int| 0 <= a < order.len() ==> (#[trigger] order[a]) < frames.len(),
    ensures
        sorted_by_key(intervals(frames@), out@),
        out.len() == order.len(),
        forall|a: int| 0 <= a < order.len() ==> out@.contains(#[trigger] order[a]),
    decreases order.len(),
{
    if order.len() <= 1 {
        proof {
            assert forall|a: int| 0 <= a < order.len() implies order@.contains(#[trigger] order[a]) by {
                assert(order@[a] == order[a]);
            }
        }
        return order;
    }
    let mut left = order;
    let ghost all = left@;
    let mid = left.len() / 2;
    let right = left.split_off(mid);
    let left = sort(frames, left);
    let right = sort(frames, right);
    let out = merge(frames, &left, &right);
    proof {
        assert forall|a: int| 0 <= a < all.len() implies out@.contains(#[trigger] all[a]) by {
            if a < mid {
                assert(all.subrange(0, mid as int)[a] == all[a]);
                assert(left@.contains(all[a]));
                let at = choose|at: int| 0 <= at < left.len() && left[at] == all[a];
                assert(out@.contains(left[at]));
            } else {
                assert(all.subrange(mid as int, all.len() as int)[a - mid] == all[a]);
                assert(right@.contains(all[a]));
                let at = choose|at: int| 0 <= at < right.len() && right[at] == all[a];
                assert(out@.contains(right[at]));
            }
        }
    }
    out
}

/// The places of the frames, each once, in the order of the frames' depth,
/// then start, then end; the places of frames that agree in all three come
/// in their own order.
pub fn sorted_places(frames: &Vec<TimedFrame>) -> (order: Vec<usize>)
    ensures
        sorted_by_key(intervals(frames@), order@),
        order.len() == frames.len(),
        forall|i: usize| i < frames.len() ==> #[trigger] order@.contains(i),
{
    let mut places: Vec<usize> = Vec::new();
    while places.len() < frames.len()
        invariant
            places.len() <= frames.len(),
            forall|a: int| 0 <= a < places.len() ==> (#[trigger] places[a]) == a,
        decreases frames.len() - places.len(),
    {
        places.push(places.len());
    }
    let order = sort(frames, places);
    proof {
        assert forall|i: usize| i < frames.len() implies #[trigger] order@.contains(i) by {
            assert(places[i as int] == i);
        }
    }
    order
}

/// The last position in `order` of a frame that is above `depth`, or at
/// `depth` and starts no later than `start`.
fn last_at_or_before(frames: &Vec<TimedFrame>, order: &Vec<usize>, depth: usize, start: usize) -> (r:
    Option<usize>)
    requires
        sorted_by_key(intervals(frames@), order@),
    ensures
        r matches Some(at) ==> at < order.len() && at_or_before(
            intervals(frames@)[order[at as int] as int],
            depth as nat,
            start as nat,
        ),
        forall|b: int|
            (match r {
                Some(at) => at < b,
                None => 0 <= b,
            }) && b < order.len() ==> !at_or_before(
                intervals(frames@)[(#[trigger] order[b]) as int],
                depth as nat,
                start as nat,
            ),
{
    let ghost all = intervals(frames@);
    let mut lo: usize = 0;
    let mut hi: usize = order.len();
    while lo < hi
        invariant
            lo <= hi <= order.len(),
            all == intervals(frames@),
            sorted_by_key(all, order@),
            forall|a: int|
                0 <= a < lo ==> at_or_before(
                    all[(#[trigger] order[a]) as int],
                    depth as nat,
                    start as nat,
                ),
            forall|b: int|
                hi <= b < order.len() ==> !at_or_before(
                    all[(#[trigger] order[b]) as int],
                    depth as nat,
                    start as nat,
                ),
        decreases hi - lo,
    {
        let mid = lo + (hi - lo) / 2;
        let frame = &frames[order[mid]];
        assert(all[order[mid as int] as int] == frame@);
        if frame.location.depth < depth || (frame.location.depth == depth && frame.start_time <= start) {
            proof {
                assert forall|a: int| 0 <= a < mid + 1 implies at_or_before(
                    all[(#[trigger] order[a]) as int],
                    depth as nat,
                    start as nat,
                ) by {
                    if a < mid {
                        assert(place_le(all, order[a] as int, order[mid as int] as int));
                    }
                }
            }
            lo = mid + 1;
        } else {
            proof {
                assert forall|b: int| mid <= b < order.len() implies !at_or_before(
                    all[(#[trigger] order[b]) as int],
                    depth as nat,
                    start as nat,
                ) by {
                    if mid < b {
                        assert(place_le(all, order[mid as int] as int, order[b] as int));
                    }
                }
            }
            hi = mid;
        }
    }
    if lo == 0 {
        None
    } else {
        Some(lo - 1)
    }
}

/// The place of the interval around `child`, one level up: there is at most
/// one, since `child` takes time and the intervals of one depth are apart.
pub fn parent_of(frames: &Vec<TimedFrame>, order: &Vec<usize>, child: &TimedFrame) -> (r: Option<usize>)
    requires
        ordered(intervals(frames@)),
        disjoint(intervals(frames@)),
        sorted_by_key(intervals(frames@), order@),
        forall|i: usize| i < frames.len() ==> #[trigger] order@.contains(i),
        child.location.depth > 0,
        child.start_time < child.end_time,
    ensures
        r matches Some(p) ==> p < frames.len() && is_child(intervals(frames@)[p as int], child@),
        forall|q: int|
            0 <= q < frames.len() && is_child(#[trigger] intervals(frames@)[q], child@) ==> r == Some(
                q as usize,
            ),
{
    let ghost all = intervals(frames@);
    let depth = child.location.depth - 1;
    let found = last_at_or_before(frames, order, depth, child.start_time);
    let r = match found {
        None => None,
        Some(at) => {
            let p = order[at];
            let frame = &frames[p];
            assert(all[p as int] == frame@);
            if frame.location.depth == depth && frame.start_time <= child.start_time && child.end_time
                <= frame.end_time {
                Some(p)
            } else {
                None
            }
        },
    };
    proof {
        assert forall|q: int| 0 <= q < frames.len() && is_child(#[trigger] all[q], child@) implies r
            == Some(q as usize) by {
            assert(order@.contains(q as usize));
            let a = choose|a: int| 0 <= a < order.len() && order[a] == q as usize;
            assert(at_or_before(all[order[a] as int], depth as nat, child.start_time as nat));
            let at = found->Some_0;
            let p = order[at as int];
            if a < at {
                assert(place_le(all, order[a] as int, order[at as int] as int));
                if p != q {
                    assert(apart(all[p as int], all[q]));
                    assert(all[p as int].start <= all[p as int].end);
                }
            }
        }
    }
    r
}

/// The own time of every interval: its duration without that of the
/// intervals one level down that lie within it.
pub fn own_times(frames: &Vec<TimedFrame>) -> (own: Vec<usize>)
    requires
        ordered(intervals(frames@)),
        disjoint(intervals(frames@)),
    ensures
        own.len() == frames.len(),
        forall|i: int| 0 <= i < own.len() ==> (#[trigger] own[i]) == own_time(intervals(frames@), i),
{
    let ghost all = intervals(frames@);
    let n = frames.len();
    let order = sorted_places(frames);
    let mut own: Vec<usize> = Vec::new();
    while own.len() < n
        invariant
            n == frames.len(),
            own.len() <= n,
            all == intervals(frames@),
            ordered(all),
            forall|p: int| 0 <= p < own.len() ==> (#[trigger] own[p]) == duration(all[p]),
        decreases n - own.len(),
    {
        let frame = &frames[own.len()];
        assert(all[own.len() as int] == frame@);
        assert(all[own.len() as int].start <= all[own.len() as int].end);
        own.push(frame.end_time - frame.start_time);
    }
    let mut j: usize = 0;
    while j < n
        invariant
            j <= n,
            n == frames.len(),
            own.len() == n,
            all == intervals(frames@),
            ordered(all),
            disjoint(all),
            sorted_by_key(all, order@),
            forall|i: usize| i < frames.len() ==> #[trigger] order@.contains(i),
            forall|p: int|
                0 <= p < n ==> (#[trigger] own[p]) == duration(all[p]) - window_time(
                    all,
                    all[p].depth + 1,
                    all[p].start as int,
                    all[p].end as int,
                    j as nat,
                ),
        decreases n - j,
    {
        let child = &frames[j];
        let ghost before = own@;
        assert(all[j as int] == child@);
        assert(all[j as int].start <= all[j as int].end);
        let mut around: Option<usize> = None;
        if child.location.depth > 0 && child.start_time < child.end_time {
            around = parent_of(frames, &order, child);
            match around {
                Some(p) => {
                    proof {
                        lemma_children_fit(all, p as int, (j + 1) as nat);
                    }
                    let rest = own[p] - (child.end_time - child.start_time);
                    own.set(p, rest);
                },
                None => {},
            }
        }
        proof {
            assert forall|p: int| 0 <= p < n implies (#[trigger] own[p]) == duration(all[p]) - window_time(
                all,
                all[p].depth + 1,
                all[p].start as int,
                all[p].end as int,
                (j + 1) as nat,
            ) by {
                assert(before[p] == duration(all[p]) - window_time(
                    all,
                    all[p].depth + 1,
                    all[p].start as int,
                    all[p].end as int,
                    j as nat,
                ));
                if is_child(all[p], all[j as int]) && duration(all[j as int]) > 0 {
                    assert(around == Some(p as usize));
                } else if around == Some(p as usize) {
                    assert(is_child(all[p], all[j as int]));
                }
            }
        }
        j += 1;
    }
    own
}

} // verus!
