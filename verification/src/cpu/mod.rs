//! Per-function time from collapsed stack samples: for each function the
//! time of its frames, and the part of it that no frame below took.

use vstd::prelude::*;
use vstd::slice::slice_to_vec;
use crate::cargo::{BinFile, CargoTarget};
use crate::cli_tools::dtrace::{collapsed, dtrace_command_line, make_dtrace_command, to_collapsed};
use crate::util::{strings, CommandLine};
use crate::cpu::intervals::{
    disjoint,
    lemma_self_times_partition_root_time,
    lemma_self_within_total,
    lemma_total_used_grows,
    names_known,
    ordered,
    own_time,
    root_time,
    self_used,
    self_used_sum,
    total_used,
    well_formed,
};
use crate::cpu::index::own_times;
use crate::cpu::merge::{
    frames,
    intervals,
    lemma_timeline_names_known,
    sample_views,
    timeline,
    total_weight,
    CollapsedSample,
    FrameInterval,
    SampleView,
    TimedFrame,
};
use crate::cpu::samples::{
    lemma_order_of_samples,
    lemma_self_by_samples,
    lemma_total_by_samples,
    lemma_weighted_depth,
    lemma_weighted_self_sum,
    lemma_weighted_self_within,
    weighted_depth,
    weighted_self,
    weighted_self_sum,
    weighted_total,
};
use crate::cpu::parse::{
    lemma_malformed_line_isolated,
    lemma_parse_lines_sound,
    ParsedView,
    lines_of,
    parse_collapsed,
    parse_line_spec,
    parse_lines,
    sound,
    texts,
    Parsed,
};

pub mod index;
pub mod intervals;
pub mod merge;
pub mod names;
pub mod parse;
pub mod samples;

verus! {

/// What to profile for a breakdown of time by function.
#[derive(Debug, Clone)]
pub enum CpuCommand {
    /// Profiles the program and reports, for each function, the total time
    /// and the time of its own.
    PerFn {
        /// Run the profiler as root.
        root: bool,
        target: CargoTarget,
        release: bool,
    },
}

/// Why there is no report.
#[derive(Clone, Copy, Debug, PartialEq, Eq)]
pub enum CpuError {
    /// There is no profiler for the platform.
    UnsupportedPlatform,
    /// The sampled stacks could not be folded.
    Collapse,
    /// The folded stacks give no breakdown.
    Profile(ProfileError),
}

impl CpuCommand {
    /// The profiler's command for one binary of the build: dtrace on the
    /// binary with the target's arguments, writing its stacks to `output`.
    ///
    /// `UnsupportedPlatform` unless the platform is macOS.
    pub fn run(&self, binary: &BinFile, macos: bool, output: &str) -> (r: Result<CommandLine, CpuError>)
        ensures
            !macos ==> r == Err::<CommandLine, CpuError>(CpuError::UnsupportedPlatform),
            macos ==> r is Ok && r->Ok_0@ == dtrace_command_line(
                self->root,
                binary.path@,
                output@,
                None,
                None,
                strings(self->target.target_args@),
            ),
    {
        if !macos {
            return Err(CpuError::UnsupportedPlatform);
        }
        match self {
            CpuCommand::PerFn { root, target, release: _ } => Ok(
                make_dtrace_command(*root, binary, output, None, None, target.args()),
            ),
        }
    }
}

/// The first line of the report.
pub const REPORT_HEADER: &'static str = "Total time  | Own time    | File name";

/// The time of one function.
#[derive(Clone, Debug, PartialEq, Eq)]
pub struct FnTimingInfo {
    pub name: Vec<u8>,
    /// The summed duration of the function's frames.
    pub total_used: usize,
    /// The part of `total_used` that no frame below the function's took.
    pub self_used: usize,
}

/// The mathematical value of a [`FnTimingInfo`].
pub struct TimingView {
    pub name: Seq<u8>,
    pub total_used: nat,
    pub self_used: nat,
}

impl View for FnTimingInfo {
    type V = TimingView;

    open spec fn view(&self) -> TimingView {
        TimingView {
            name: self.name@,
            total_used: self.total_used as nat,
            self_used: self.self_used as nat,
        }
    }
}

/// The values of a table of timings.
pub open spec fn timings(table: Seq<FnTimingInfo>) -> Seq<TimingView> {
    Seq::new(table.len(), |i: int| table[i]@)
}

/// Why there is no breakdown.
#[derive(Clone, Copy, Debug, PartialEq, Eq)]
pub enum ProfileError {
    /// The samples weigh nothing in all.
    EmptyProfile,
    /// A sum of times is beyond `usize`.
    Overflow,
}

/// The time of function `k`: the durations of its intervals, and their own
/// times, summed.
pub open spec fn timing_of(names: Seq<Seq<u8>>, frames: Seq<FrameInterval>, k: int) -> TimingView {
    TimingView {
        name: names[k],
        total_used: total_used(frames, k as usize, frames.len()) as nat,
        self_used: self_used(frames, k as usize, frames.len()) as nat,
    }
}

/// Whether the total of some function is beyond `usize`.
pub open spec fn overflows(names: Seq<Seq<u8>>, frames: Seq<FrameInterval>) -> bool {
    exists|k: int| 0 <= k < names.len() && (#[trigger] timing_of(names, frames, k)).total_used > usize::MAX
}

/// The table for intervals that span `total_time`: one row for each name, in
/// the order of the names.
pub open spec fn aggregation(names: Seq<Seq<u8>>, frames: Seq<FrameInterval>, total_time: nat) -> Result<
    Seq<TimingView>,
    ProfileError,
> {
    if total_time == 0 {
        Err(ProfileError::EmptyProfile)
    } else if overflows(names, frames) {
        Err(ProfileError::Overflow)
    } else {
        Ok(Seq::new(names.len(), |k: int| timing_of(names, frames, k)))
    }
}

/// What a run of [`aggregate`] returned, as a value.
pub open spec fn outcome(r: Result<Vec<FnTimingInfo>, ProfileError>) -> Result<Seq<TimingView>, ProfileError> {
    match r {
        Ok(table) => Ok(timings(table@)),
        Err(e) => Err(e),
    }
}

/// Idempotence: the table depends on the intervals, the names and the total
/// time alone, so two runs of [`aggregate`] on the same of these return the
/// same, row for row.
pub proof fn lemma_aggregate_twice(
    names: Seq<Seq<u8>>,
    frames: Seq<FrameInterval>,
    total_time: nat,
    first: Result<Vec<FnTimingInfo>, ProfileError>,
    second: Result<Vec<FnTimingInfo>, ProfileError>,
)
    requires
        aggregation(names, frames, total_time) == outcome(first),
        aggregation(names, frames, total_time) == outcome(second),
    ensures
        outcome(first) == outcome(second),
        first is Ok ==> second is Ok && first->Ok_0.len() == second->Ok_0.len() && forall|k: int|
            0 <= k < first->Ok_0.len() ==> (#[trigger] first->Ok_0[k])@ == second->Ok_0[k]@,
        first matches Err(e) ==> second == Err::<Vec<FnTimingInfo>, ProfileError>(e),
{
    if first is Ok {
        let a = first->Ok_0;
        let b = second->Ok_0;
        assert(timings(a@) == timings(b@));
        assert(timings(a@).len() == a.len());
        assert forall|k: int| 0 <= k < a.len() implies (#[trigger] a[k])@ == b[k]@ by {
            assert(timings(a@)[k] == a[k]@);
            assert(timings(b@)[k] == b[k]@);
        }
    }
}

/// Malformed-line isolation: a malformed line among others, wherever it
/// stands, adds one to the lines left out and changes nothing else of what
/// the lines amount to.
pub proof fn lemma_malformed_line_leaves_profile(lines: Seq<Seq<u8>>, at: int, line: Seq<u8>)
    requires
        0 <= at <= lines.len(),
        parse_line_spec(line) is None,
    ensures
        profile_of_lines(lines.insert(at, line)) == match profile_of_lines(lines) {
            Ok(profile) => Ok::<ProfileView, ProfileError>(
                ProfileView {
                    total_time: profile.total_time,
                    functions: profile.functions,
                    ignored: profile.ignored + 1,
                },
            ),
            Err(e) => Err::<ProfileView, ProfileError>(e),
        },
{
    lemma_malformed_line_isolated(lines, at, line);
}

/// The self times of a table, summed.
pub open spec fn self_time_sum(table: Seq<TimingView>) -> nat
    decreases table.len(),
{
    if table.len() == 0 {
        0
    } else {
        self_time_sum(table.drop_last()) + table.last().self_used
    }
}

proof fn lemma_self_time_sum(names: Seq<Seq<u8>>, frames: Seq<FrameInterval>, table: Seq<TimingView>)
    requires
        ordered(frames),
        disjoint(frames),
        table.len() <= names.len(),
        names.len() <= usize::MAX + 1,
        forall|k: int| 0 <= k < table.len() ==> table[k] == timing_of(names, frames, k),
    ensures
        self_time_sum(table) == self_used_sum(frames, table.len()),
    decreases table.len(),
{
    if table.len() > 0 {
        let front = table.drop_last();
        assert forall|k: int| 0 <= k < front.len() implies front[k] == timing_of(names, frames, k) by {
            assert(front[k] == table[k]);
        }
        lemma_self_time_sum(names, frames, front);
        lemma_self_within_total(frames, (table.len() - 1) as usize, frames.len());
        assert(table.last() == timing_of(names, frames, table.len() - 1));
    }
}

/// Adds up the time of each function, and the part of it that is the
/// function's own: what is left of each of its intervals without the
/// intervals one level down that lie within it. There is one row for each
/// name, in the order of `names`. The interval around another is looked up
/// in an index by depth and start, so the work grows with the number of
/// intervals by little more than in proportion.
///
/// `EmptyProfile` where `total_time` is 0, before anything is added up;
/// `Overflow` where the total of some function is beyond `usize`.
pub fn aggregate(names: &Vec<Vec<u8>>, frames: &Vec<TimedFrame>, total_time: usize) -> (r: Result<
    Vec<FnTimingInfo>,
    ProfileError,
>)
    requires
        well_formed(intervals(frames@)),
        names_known(intervals(frames@), names.len() as nat),
        root_time(intervals(frames@), frames.len() as nat) == total_time,
    ensures
        aggregation(texts(names@), intervals(frames@), total_time as nat) == outcome(r),
        r matches Ok(table) ==> {
            &&& table.len() == names.len()
            &&& forall|k: int|
                0 <= k < table.len() ==> (#[trigger] table[k]).total_used == total_used(
                    intervals(frames@),
                    k as usize,
                    frames.len() as nat,
                )
            &&& forall|k: int| 0 <= k < table.len() ==> (#[trigger] table[k]).self_used <= table[k].total_used
            &&& self_time_sum(timings(table@)) == total_time
        },
{
    if total_time == 0 {
        return Err(ProfileError::EmptyProfile);
    }
    let ghost all = intervals(frames@);
    let ghost known = texts(names@);
    let n = frames.len();
    let count = names.len();
    let mut totals: Vec<usize> = Vec::new();
    let mut selfs: Vec<usize> = Vec::new();
    while totals.len() < count
        invariant
            totals.len() == selfs.len(),
            totals.len() <= count,
            forall|f: int| 0 <= f < totals.len() ==> totals[f] == 0 && selfs[f] == 0,
        decreases count - totals.len(),
    {
        totals.push(0);
        selfs.push(0);
    }
    let own_times = own_times(frames);
    let mut i: usize = 0;
    while i < n
        invariant
            i <= n,
            n == frames.len(),
            count == names.len(),
            total_time > 0,
            own_times.len() == n,
            forall|p: int| 0 <= p < n ==> (#[trigger] own_times[p]) == own_time(all, p),
            known == texts(names@),
            all == intervals(frames@),
            well_formed(all),
            names_known(all, count as nat),
            totals.len() == count,
            selfs.len() == count,
            forall|f: usize| f < count ==> (#[trigger] totals[f as int]) == total_used(all, f, i as nat),
            forall|f: usize| f < count ==> (#[trigger] selfs[f as int]) == self_used(all, f, i as nat),
        decreases n - i,
    {
        let frame = frames[i];
        assert(all[i as int] == frame@);
        assert(all[i as int].function < count);
        assert(all[i as int].start <= all[i as int].end);
        let function = frame.location.function;
        let length = frame.end_time - frame.start_time;
        let own = own_times[i];
        let total = totals[function];
        if length > usize::MAX - total {
            proof {
                lemma_total_used_grows(all, function, (i + 1) as nat, n as nat);
                assert(total_used(all, function, (i + 1) as nat) == total + length);
                assert(all.len() == n);
                assert(timing_of(known, all, function as int).total_used > usize::MAX);
                assert(overflows(known, all));
            }
            return Err(ProfileError::Overflow);
        }
        proof {
            lemma_self_within_total(all, function, (i + 1) as nat);
        }
        let own_before = selfs[function];
        totals.set(function, total + length);
        selfs.set(function, own_before + own);
        i += 1;
    }
    let mut table: Vec<FnTimingInfo> = Vec::new();
    let mut k: usize = 0;
    while k < count
        invariant
            k <= count,
            count == names.len(),
            known == texts(names@),
            totals.len() == count,
            selfs.len() == count,
            table.len() == k,
            well_formed(all),
            forall|f: usize| f < count ==> (#[trigger] totals[f as int]) == total_used(all, f, all.len()),
            forall|f: usize| f < count ==> (#[trigger] selfs[f as int]) == self_used(all, f, all.len()),
            forall|f: int| 0 <= f < k ==> (#[trigger] table[f])@ == timing_of(known, all, f),
            forall|f: int| 0 <= f < k ==> (#[trigger] table[f]).self_used <= table[f].total_used,
        decreases count - k,
    {
        proof {
            lemma_self_within_total(all, k, all.len());
            assert(totals[k as int] == total_used(all, k, all.len()));
            assert(selfs[k as int] == self_used(all, k, all.len()));
        }
        table.push(
            FnTimingInfo {
                name: slice_to_vec(names[k].as_slice()),
                total_used: totals[k],
                self_used: selfs[k],
            },
        );
        k += 1;
    }
    proof {
        assert forall|f: int| 0 <= f < known.len() implies (#[trigger] timing_of(
            known,
            all,
            f,
        )).total_used <= usize::MAX by {
            assert(totals[f] == total_used(all, f as usize, all.len()));
        }
        assert(timings(table@) =~= Seq::new(known.len(), |f: int| timing_of(known, all, f)));
        assert forall|f: int| 0 <= f < table.len() implies (#[trigger] table[f]).total_used == total_used(
            all,
            f as usize,
            frames.len() as nat,
        ) by {
            assert(table[f]@ == timing_of(known, all, f));
            lemma_total_used_grows(all, f as usize, 0, all.len());
        }
        lemma_self_time_sum(known, all, timings(table@));
        lemma_self_times_partition_root_time(all, count as nat);
    }
    Ok(table)
}

/// What a text of collapsed stacks amounts to.
#[derive(Clone, Debug, PartialEq, Eq)]
pub struct Profile {
    /// The time that the samples stand for in all.
    pub total_time: usize,
    /// One row for each function, in the order in which the text first names
    /// them.
    pub functions: Vec<FnTimingInfo>,
    /// How many lines were malformed and left out.
    pub ignored: usize,
}

/// The mathematical value of a [`Profile`].
pub struct ProfileView {
    pub total_time: nat,
    pub functions: Seq<TimingView>,
    pub ignored: nat,
}

impl View for Profile {
    type V = ProfileView;

    open spec fn view(&self) -> ProfileView {
        ProfileView {
            total_time: self.total_time as nat,
            functions: timings(self.functions@),
            ignored: self.ignored as nat,
        }
    }
}

/// What a text amounts to.
pub open spec fn profile_of(text: Seq<u8>) -> Result<ProfileView, ProfileError> {
    profile_of_lines(lines_of(text))
}

/// The row of function `k`: over all samples, the weight of each once for
/// every frame of the function in its path, and the weight of those that end
/// in the function.
pub open spec fn timing_by_samples(names: Seq<Seq<u8>>, samples: Seq<SampleView>, k: int) -> TimingView {
    TimingView {
        name: names[k],
        total_used: weighted_total(samples, k),
        self_used: weighted_self(samples, k),
    }
}

/// Whether the total of some function is beyond `usize`.
pub open spec fn total_beyond(names: Seq<Seq<u8>>, samples: Seq<SampleView>) -> bool {
    exists|k: int|
        0 <= k < names.len() && (#[trigger] timing_by_samples(names, samples, k)).total_used
            > usize::MAX
}

/// What lines amount to: the weight of the well-formed ones in all, a row
/// for each function that they name, in the order in which they first name
/// them, and the number of malformed ones.
pub open spec fn profile_of_lines(lines: Seq<Seq<u8>>) -> Result<ProfileView, ProfileError> {
    let parsed = parse_lines(lines);
    let total_time = total_weight(parsed.samples);
    if total_time > usize::MAX {
        Err(ProfileError::Overflow)
    } else if total_time == 0 {
        Err(ProfileError::EmptyProfile)
    } else if total_beyond(parsed.names, parsed.samples) {
        Err(ProfileError::Overflow)
    } else {
        Ok(
            ProfileView {
                total_time,
                functions: Seq::new(
                    parsed.names.len(),
                    |k: int| timing_by_samples(parsed.names, parsed.samples, k),
                ),
                ignored: parsed.ignored,
            },
        )
    }
}

/// The table of the intervals that samples are laid out in, last sample
/// first, is the table of the samples.
pub proof fn lemma_table_by_samples(parsed: ParsedView, k: int)
    requires
        sound(parsed),
        0 <= k < parsed.names.len(),
        k <= usize::MAX,
    ensures
        timing_of(parsed.names, timeline(parsed.samples.reverse()), k) == timing_by_samples(
            parsed.names,
            parsed.samples,
            k,
        ),
{
    let placed = parsed.samples.reverse();
    assert forall|j: int| 0 <= j < placed.len() implies (#[trigger] placed[j]).path.len() > 0 by {
        assert(placed[j] == parsed.samples[parsed.samples.len() - 1 - j]);
    }
    lemma_total_by_samples(placed, k as usize);
    lemma_self_by_samples(placed, k as usize);
    lemma_order_of_samples(parsed.samples, k);
}

proof fn lemma_self_time_sum_by_samples(parsed: ParsedView, table: Seq<TimingView>)
    requires
        table.len() <= parsed.names.len(),
        forall|k: int| 0 <= k < table.len() ==> table[k] == timing_by_samples(parsed.names, parsed.samples, k),
    ensures
        self_time_sum(table) == weighted_self_sum(parsed.samples, table.len()),
    decreases table.len(),
{
    if table.len() > 0 {
        let front = table.drop_last();
        assert forall|k: int| 0 <= k < front.len() implies front[k] == timing_by_samples(
            parsed.names,
            parsed.samples,
            k,
        ) by {
            assert(front[k] == table[k]);
        }
        lemma_self_time_sum_by_samples(parsed, front);
        assert(table.last() == timing_by_samples(parsed.names, parsed.samples, table.len() - 1));
    }
}

/// Partition and ordering: where lines amount to a profile, the own times of
/// its functions add up to its total time, which is the weight of the
/// well-formed lines; no function's own time is more than its total, and no
/// function has two rows.
pub proof fn lemma_profile_laws(lines: Seq<Seq<u8>>)
    ensures
        profile_of_lines(lines) matches Ok(profile) ==> {
            &&& profile.total_time > 0
            &&& profile.total_time == total_weight(parse_lines(lines).samples)
            &&& self_time_sum(profile.functions) == profile.total_time
            &&& forall|k: int|
                0 <= k < profile.functions.len() ==> (#[trigger] profile.functions[k]).self_used
                    <= profile.functions[k].total_used
            &&& texts_of(profile.functions).no_duplicates()
        },
{
    let parsed = parse_lines(lines);
    lemma_parse_lines_sound(lines);
    if profile_of_lines(lines) is Ok {
        let profile = profile_of_lines(lines)->Ok_0;
        lemma_self_time_sum_by_samples(parsed, profile.functions);
        lemma_weighted_self_sum(parsed.samples, parsed.names.len());
        assert forall|k: int| 0 <= k < profile.functions.len() implies (
        #[trigger] profile.functions[k]).self_used <= profile.functions[k].total_used by {
            lemma_weighted_self_within(parsed.samples, k);
        }
        assert(texts_of(profile.functions) =~= parsed.names);
    }
}

/// Partition, with the profile owed: lines whose well-formed ones weigh
/// something amount to a profile, unless a sum is beyond `usize`; and none
/// is where even the weight of every sample, taken once for every frame of
/// its path, is within `usize`. The own times of the profile's functions add
/// up to the weight of the well-formed lines.
pub proof fn lemma_profile_comes_out(lines: Seq<Seq<u8>>)
    ensures
        profile_of_lines(lines) is Ok <==> 0 < total_weight(parse_lines(lines).samples) <= usize::MAX
            && !total_beyond(parse_lines(lines).names, parse_lines(lines).samples),
        0 < total_weight(parse_lines(lines).samples) && weighted_depth(parse_lines(lines).samples)
            <= usize::MAX ==> profile_of_lines(lines) is Ok,
        profile_of_lines(lines) matches Ok(profile) ==> self_time_sum(profile.functions)
            == total_weight(parse_lines(lines).samples),
{
    let parsed = parse_lines(lines);
    lemma_parse_lines_sound(lines);
    lemma_profile_laws(lines);
    lemma_weighted_depth(parsed.samples, 0);
    if weighted_depth(parsed.samples) <= usize::MAX {
        assert forall|k: int| 0 <= k < parsed.names.len() implies (#[trigger] timing_by_samples(
            parsed.names,
            parsed.samples,
            k,
        )).total_used <= usize::MAX by {
            lemma_weighted_depth(parsed.samples, k);
        }
    }
}

fn reversed(samples: Vec<CollapsedSample>) -> (r: Vec<CollapsedSample>)
    ensures
        sample_views(r@) == sample_views(samples@).reverse(),
{
    let mut rest = samples;
    let mut r: Vec<CollapsedSample> = Vec::new();
    while rest.len() > 0
        invariant
            rest.len() + r.len() == samples.len(),
            forall|i: int| 0 <= i < rest.len() ==> rest[i] == samples[i],
            forall|i: int| 0 <= i < r.len() ==> r[i] == samples[samples.len() - 1 - i],
        decreases rest.len(),
    {
        let sample = rest.pop().unwrap();
        r.push(sample);
    }
    assert(sample_views(r@) =~= sample_views(samples@).reverse());
    r
}

/// Reads collapsed stack text and adds up the time of each function: the
/// samples are laid out on the timeline, last line first, and the intervals
/// are added up. The order in which they are laid out does not show in the
/// table.
///
/// Malformed lines are left out and counted. `EmptyProfile` where the lines
/// that are left weigh nothing in all, so also for a text without lines;
/// `Overflow` where their weights, or the total of one function, add up to
/// more than `usize` holds.
pub fn process_collapsed(data: &[u8]) -> (r: Result<Profile, ProfileError>)
    ensures
        match r {
            Ok(profile) => profile_of(data@) == Ok::<ProfileView, ProfileError>(profile@),
            Err(e) => profile_of(data@) == Err::<ProfileView, ProfileError>(e),
        },
        r matches Ok(profile) ==> {
            &&& profile.total_time > 0
            &&& texts_of(profile@.functions).no_duplicates()
            &&& forall|k: int|
                0 <= k < profile.functions.len() ==> (#[trigger] profile.functions[k]).self_used
                    <= profile.functions[k].total_used
            &&& self_time_sum(profile@.functions) == profile.total_time
        },
{
    let parsed = parse_collapsed(data);
    let ghost read = parsed@;
    let Parsed { names, samples, ignored } = parsed;
    let samples = reversed(samples);
    let ghost placed = sample_views(samples@);
    proof {
        assert(placed == read.samples.reverse());
        assert forall|k: int| 0 <= k < samples.len() implies (#[trigger] samples[k]).path.len() > 0 by {
            assert(placed[k] == samples[k]@);
            assert(placed[k] == read.samples[read.samples.len() - 1 - k]);
        }
        assert forall|k: int, d: int| 0 <= k < placed.len() && 0 <= d < placed[k].path.len() implies (
        #[trigger] placed[k].path[d]) < read.names.len() by {
            assert(placed[k] == read.samples[read.samples.len() - 1 - k]);
        }
        lemma_timeline_names_known(placed, read.names.len());
    }
    proof {
        assert(read.names.len() == names.len());
        lemma_order_of_samples(read.samples, 0);
        assert forall|k: int| 0 <= k < read.names.len() implies #[trigger] timing_of(
            read.names,
            timeline(placed),
            k,
        ) == timing_by_samples(read.names, read.samples, k) by {
            lemma_table_by_samples(read, k);
        }
        if overflows(read.names, timeline(placed)) {
            let k = choose|k: int|
                0 <= k < read.names.len() && (#[trigger] timing_of(
                    read.names,
                    timeline(placed),
                    k,
                )).total_used > usize::MAX;
            assert(timing_by_samples(read.names, read.samples, k).total_used > usize::MAX);
        }
        if total_beyond(read.names, read.samples) {
            let k = choose|k: int|
                0 <= k < read.names.len() && (#[trigger] timing_by_samples(
                    read.names,
                    read.samples,
                    k,
                )).total_used > usize::MAX;
            assert(timing_of(read.names, timeline(placed), k).total_used > usize::MAX);
        }
    }
    match frames(&samples) {
        None => Err(ProfileError::Overflow),
        Some((all, total_time)) => {
            match aggregate(&names, &all, total_time) {
                Err(e) => Err(e),
                Ok(functions) => {
                    let profile = Profile { total_time, functions, ignored };
                    proof {
                        assert(texts_of(profile@.functions) =~= read.names);
                        assert(profile@.functions =~= Seq::new(
                            read.names.len(),
                            |k: int| timing_by_samples(read.names, read.samples, k),
                        ));
                    }
                    Ok(profile)
                },
            }
        },
    }
}

/// The names of a table, in its order.
pub open spec fn texts_of(table: Seq<TimingView>) -> Seq<Seq<u8>> {
    Seq::new(table.len(), |k: int| table[k].name)
}

/// Whether row `a` stands above row `b` in the report: it has the greater
/// total, or the same total and the later place in the table.
pub open spec fn ranks_before(table: Seq<TimingView>, a: int, b: int) -> bool {
    table[a].total_used > table[b].total_used || (table[a].total_used == table[b].total_used && a > b)
}

/// Whether `order` lists the rows of `table`, each once, from the top of the
/// report down.
pub open spec fn is_ranking(table: Seq<TimingView>, order: Seq<usize>) -> bool {
    &&& order.len() == table.len()
    &&& forall|k: int| 0 <= k < order.len() ==> (#[trigger] order[k]) < table.len()
    &&& forall|a: int, b: int|
        0 <= a < b < order.len() ==> ranks_before(table, #[trigger] order[a] as int, #[trigger] order[b] as int)
}

/// The order of the report: the rows of `table` by their place in it, the
/// highest total first. Rows of one total come last first, as they do when
/// the table is sorted by total, equal rows left in place, and then read
/// backwards.
pub fn rank(table: &Vec<FnTimingInfo>) -> (order: Vec<usize>)
    ensures
        is_ranking(timings(table@), order@),
{
    let ghost rows = timings(table@);
    let mut order: Vec<usize> = Vec::new();
    let mut i: usize = 0;
    while i < table.len()
        invariant
            i <= table.len(),
            rows == timings(table@),
            order.len() == i,
            forall|k: int| 0 <= k < order.len() ==> (#[trigger] order[k]) < i,
            forall|a: int, b: int|
                0 <= a < b < order.len() ==> ranks_before(
                    rows,
                    #[trigger] order[a] as int,
                    #[trigger] order[b] as int,
                ),
        decreases table.len() - i,
    {
        let total = table[i].total_used;
        let mut at: usize = 0;
        while at < order.len() && table[order[at]].total_used > total
            invariant
                at <= order.len(),
                order.len() == i,
                i < table.len(),
                rows == timings(table@),
                total == table[i as int].total_used,
                forall|k: int| 0 <= k < order.len() ==> (#[trigger] order[k]) < i,
                forall|k: int| 0 <= k < at ==> rows[(#[trigger] order[k]) as int].total_used > total,
            decreases order.len() - at,
        {
            at += 1;
        }
        let ghost before = order@;
        order.insert(at, i);
        proof {
            assert forall|a: int, b: int| 0 <= a < b < order.len() implies ranks_before(
                rows,
                #[trigger] order[a] as int,
                #[trigger] order[b] as int,
            ) by {
                if b < at {
                    assert(order[a] == before[a] && order[b] == before[b]);
                } else if b == at {
                    assert(order[a] == before[a]);
                } else if a < at {
                    assert(order[a] == before[a] && order[b] == before[b - 1]);
                } else if a == at {
                    assert(order[b] == before[b - 1]);
                    if at < b - 1 {
                        assert(ranks_before(rows, before[at as int] as int, before[b - 1] as int));
                    }
                } else {
                    assert(order[a] == before[a - 1] && order[b] == before[b - 1]);
                }
            }
        }
        i += 1;
    }
    order
}

/// What is reported of a breakdown that came out, or did not.
pub open spec fn reported(profile: Result<ProfileView, ProfileError>) -> Result<ProfileView, CpuError> {
    match profile {
        Ok(p) => Ok(p),
        Err(e) => Err(CpuError::Profile(e)),
    }
}

/// Folds the stacks that dtrace wrote and adds up the time of each function.
///
/// `Collapse` where the stacks cannot be folded: the text is not foldable,
/// or the collapser reports an error. Otherwise what [`process_collapsed`]
/// makes of the folded stacks.
pub fn profile(stacks: &[u8]) -> (r: Result<Profile, CpuError>)
    ensures
        match collapsed(stacks@) {
            None => r == Err::<Profile, CpuError>(CpuError::Collapse),
            Some(folded) => match r {
                Ok(p) => reported(profile_of(folded)) == Ok::<ProfileView, CpuError>(p@),
                Err(e) => reported(profile_of(folded)) == Err::<ProfileView, CpuError>(e),
            },
        },
{
    match to_collapsed(stacks) {
        Err(_) => Err(CpuError::Collapse),
        Ok(folded) => match process_collapsed(folded.as_slice()) {
            Ok(p) => Ok(p),
            Err(e) => Err(CpuError::Profile(e)),
        },
    }
}

} // verus!
