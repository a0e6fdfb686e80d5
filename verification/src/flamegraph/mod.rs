//! Flame graphs of a target's stacks.

use vstd::prelude::*;
use crate::cargo::{BinFile, CargoTarget};
use crate::cli_tools::dtrace::{collapsed, dtrace_command_line};
use crate::cpu::parse::{is_digit, NEWLINE, PATH_SEPARATOR};
use crate::util::CommandLine;

pub mod linux;
pub mod macos;

verus! {

/// Creates a flame graph for the given target.
#[derive(Debug, Clone)]
pub struct FlameGraphCommand {
    /// Run the profiler as root.
    pub root: bool,
    pub target: CargoTarget,
    pub release: bool,
}

/// Why there is no flame graph.
#[derive(Clone, Copy, Debug, PartialEq, Eq)]
pub enum FlameGraphError {
    /// The build yielded this many binaries, and not one.
    BinaryCount(usize),
    /// There is no profiler for the platform.
    UnsupportedPlatform,
    /// The sampled stacks could not be folded.
    Collapse,
    /// The folded stacks could not be drawn.
    Render,
}

impl FlameGraphCommand {
    /// The profiler's command for what the build yielded: dtrace on the one
    /// binary, writing its stacks to `output`.
    ///
    /// `BinaryCount` unless there is one binary; else `UnsupportedPlatform`
    /// unless the platform is macOS.
    pub fn run(&self, binaries: &Vec<BinFile>, macos: bool, output: &str) -> (r: Result<
        CommandLine,
        FlameGraphError,
    >)
        ensures
            binaries.len() != 1 ==> r == Err::<CommandLine, FlameGraphError>(
                FlameGraphError::BinaryCount(binaries.len()),
            ),
            binaries.len() == 1 && !macos ==> r == Err::<CommandLine, FlameGraphError>(
                FlameGraphError::UnsupportedPlatform,
            ),
            binaries.len() == 1 && macos ==> r is Ok && r->Ok_0@ == dtrace_command_line(
                self.root,
                binaries[0].path@,
                output@,
                None,
                None,
                Seq::empty(),
            ),
    {
        if binaries.len() != 1 {
            return Err(FlameGraphError::BinaryCount(binaries.len()));
        }
        if !macos {
            return Err(FlameGraphError::UnsupportedPlatform);
        }
        Ok(macos::dtrace(self.root, &binaries[0], output, None, None))
    }
}

/// The number that the digits at the end of `text` stand for: 0 where it
/// ends with none.
pub open spec fn run_value(text: Seq<u8>) -> nat
    decreases text.len(),
{
    if text.len() > 0 && is_digit(text.last()) {
        run_value(text.drop_last()) * 10 + (text.last() - 48) as nat
    } else {
        0
    }
}

/// The numbers, added up, that stand in the last line of `text` after the
/// last separator of its path and have ended.
pub open spec fn ended_numbers(text: Seq<u8>) -> nat
    decreases text.len(),
{
    if text.len() == 0 || text.last() == PATH_SEPARATOR || text.last() == NEWLINE {
        0
    } else if is_digit(text.last()) {
        ended_numbers(text.drop_last())
    } else {
        ended_numbers(text.drop_last()) + run_value(text.drop_last())
    }
}

/// The numbers, added up, that stand in the lines of `text` that have ended,
/// in each after the last separator of its path.
pub open spec fn line_numbers(text: Seq<u8>) -> nat
    decreases text.len(),
{
    if text.len() == 0 {
        0
    } else if text.last() == NEWLINE {
        line_numbers(text.drop_last()) + ended_numbers(text.drop_last()) + run_value(
            text.drop_last(),
        )
    } else {
        line_numbers(text.drop_last())
    }
}

/// A bound on the counts of folded stacks, added up: every run of digits
/// that stands after the last frame of its line counts, so the count of a
/// line does, and a second count before it, and whatever number the last
/// frame's name holds.
pub open spec fn counts_bound(folded: Seq<u8>) -> nat {
    line_numbers(folded) + ended_numbers(folded) + run_value(folded)
}

/// How many times over the counts must fit in `usize`, so that the shares
/// and shades of the drawing do.
pub const HEADROOM: usize = 400;

/// How many times over the length of the folded stacks must fit in `usize`,
/// so that the height of the drawing does.
pub const ROOM: usize = 32;

/// Whether folded stacks can be drawn: the sizes and shares of the drawing
/// are computed within `usize`, for which the text is short enough and the
/// counts, many times over, fit.
pub open spec fn drawable(folded: Seq<u8>) -> bool {
    folded.len() <= usize::MAX / ROOM && counts_bound(folded) <= usize::MAX / HEADROOM
}

/// Decides whether folded stacks can be drawn.
pub fn can_draw(folded: &[u8]) -> (r: bool)
    ensures
        r == drawable(folded@),
{
    if folded.len() > usize::MAX / ROOM {
        return false;
    }
    let limit = usize::MAX / HEADROOM;
    // Each sum is kept up to the limit, and at one more where it is beyond.
    let mut run: usize = 0;
    let mut ended: usize = 0;
    let mut lines: usize = 0;
    let mut i: usize = 0;
    assert(folded@.take(0) =~= Seq::<u8>::empty());
    while i < folded.len()
        invariant
            i <= folded.len(),
            limit == usize::MAX / HEADROOM,
            run == capped(run_value(folded@.take(i as int)), limit),
            ended == capped(ended_numbers(folded@.take(i as int)), limit),
            lines == capped(line_numbers(folded@.take(i as int)), limit),
        decreases folded.len() - i,
    {
        proof {
            assert(folded@.take(i + 1).drop_last() =~= folded@.take(i as int));
        }
        let c = folded[i];
        if 48 <= c && c <= 57 {
            if run <= limit {
                run = cap(run * 10 + (c - 48) as usize, limit);
            }
        } else {
            if c == NEWLINE {
                lines = cap(lines + ended + run, limit);
            }
            if c == PATH_SEPARATOR || c == NEWLINE {
                ended = 0;
            } else {
                ended = cap(ended + run, limit);
            }
            run = 0;
        }
        i += 1;
    }
    assert(folded@.take(i as int) =~= folded@);
    lines + ended + run <= limit
}

/// `n`, or one more than the limit where `n` is beyond it.
pub open spec fn capped(n: nat, limit: usize) -> nat {
    if n > limit {
        (limit + 1) as nat
    } else {
        n
    }
}

fn cap(n: usize, limit: usize) -> (r: usize)
    requires
        limit < usize::MAX,
    ensures
        r == capped(n as nat, limit),
{
    if n > limit {
        limit + 1
    } else {
        n
    }
}

/// Whether `inferno`'s renderer, with its default options, makes a drawing
/// of folded stacks rather than report an error. That depends on the stacks
/// alone, though the colours of the drawing do not.
pub uninterp spec fn flamegraph_drawn(folded: Seq<u8>) -> bool;

/// `inferno::flamegraph::from_reader` with default options: draws folded
/// stacks as a flame graph, in SVG; `None` where it reports an error, which
/// it does for text that is not UTF-8, that has no counts, or whose stacks
/// are out of order once the counts are cut off. The colours come from a
/// generator that the thread keeps, so the same stacks need not give the
/// same bytes twice; whether a drawing comes out is settled by the stacks.
///
/// The renderer adds the counts up, and multiplies a count or the
/// difference of two by up to 150, without a check of its own; where
/// overflow is checked it stops with a panic if that does not fit. The
/// stacks must be drawable, which keeps all of it within `usize`.
#[verifier::external_body]
fn draw(folded: &[u8]) -> (svg: Option<Vec<u8>>)
    requires
        drawable(folded@),
    ensures
        svg is Some <==> flamegraph_drawn(folded@),
{
    let mut svg = Vec::new();
    let mut options = inferno::flamegraph::Options::default();
    match inferno::flamegraph::from_reader(&mut options, folded, &mut svg) {
        Ok(()) => Some(svg),
        Err(_) => None,
    }
}

/// Whether a drawing of folded stacks comes out: they are drawable, and the
/// renderer draws them.
pub open spec fn drawn(folded: Seq<u8>) -> bool {
    drawable(folded) && flamegraph_drawn(folded)
}

/// Draws the flame graph, in SVG, of folded stacks.
///
/// `Render` where the stacks are not drawable, or the renderer reports an
/// error.
pub fn draw_folded(folded: &[u8]) -> (r: Result<Vec<u8>, FlameGraphError>)
    ensures
        r is Ok <==> drawn(folded@),
        r matches Err(e) ==> e == FlameGraphError::Render,
{
    if can_draw(folded) {
        rendered(draw(folded))
    } else {
        Err(FlameGraphError::Render)
    }
}

/// Draws the flame graph, in SVG, of the stacks that dtrace wrote.
///
/// `Collapse` where the stacks cannot be folded; `Render` where the folded
/// stacks are not drawable, or the renderer reports an error.
pub fn render(stacks: &[u8]) -> (r: Result<Vec<u8>, FlameGraphError>)
    ensures
        r is Ok <==> collapsed(stacks@) is Some && drawn(collapsed(stacks@)->Some_0),
        r matches Err(e) ==> e == if collapsed(stacks@) is None {
            FlameGraphError::Collapse
        } else {
            FlameGraphError::Render
        },
{
    match macos::to_collapsed(stacks) {
        Err(_) => Err(FlameGraphError::Collapse),
        Ok(folded) => draw_folded(folded.as_slice()),
    }
}

/// What is made of a drawing that came out, or did not.
pub fn rendered(svg: Option<Vec<u8>>) -> (r: Result<Vec<u8>, FlameGraphError>)
    ensures
        r == match svg {
            Some(bytes) => Ok::<Vec<u8>, FlameGraphError>(bytes),
            None => Err::<Vec<u8>, FlameGraphError>(FlameGraphError::Render),
        },
{
    match svg {
        Some(bytes) => Ok(bytes),
        None => Err(FlameGraphError::Render),
    }
}

} // verus!
