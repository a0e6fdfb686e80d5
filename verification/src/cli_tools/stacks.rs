//! The text that dtrace writes, as far as folding depends on it: a header
//! up to the first blank line, then stacks, each a run of lines with a frame
//! a line and a line with the stack's count after them. A frame is a module
//! and a function with a backtick between them.

use vstd::prelude::*;
use crate::cpu::parse::{decimal, is_digit, pieces, split, texts, LABEL_SEPARATOR, NEWLINE};

verus! {

/// Stands before the digits of a count, if anything does.
pub const PLUS: u8 = 43;

/// Whether a byte is white space: a space, or one of the bytes from the
/// tabulator to the carriage return.
pub open spec fn is_space(c: u8) -> bool {
    (9 <= c <= 13) || c == 32
}

/// Whether every byte is an ASCII character.
pub open spec fn is_ascii(text: Seq<u8>) -> bool {
    forall|i: int| 0 <= i < text.len() ==> (#[trigger] text[i]) < 128
}

/// Where, at `from` or after it, the first byte stands that is not white
/// space: the length, if there is none.
pub open spec fn content_start(line: Seq<u8>, from: int) -> int
    decreases line.len() - from,
{
    if 0 <= from < line.len() && is_space(line[from]) {
        content_start(line, from + 1)
    } else {
        from
    }
}

/// How long the line is without the white space at its end.
pub open spec fn content_end(line: Seq<u8>) -> int
    decreases line.len(),
{
    if line.len() > 0 && is_space(line.last()) {
        content_end(line.drop_last())
    } else {
        line.len() as int
    }
}

/// The line without the white space at its start and at its end.
pub open spec fn content(line: Seq<u8>) -> Seq<u8> {
    if content_start(line, 0) < content_end(line) {
        line.subrange(content_start(line, 0), content_end(line))
    } else {
        Seq::empty()
    }
}

/// Whether a line holds white space only.
pub open spec fn is_blank(line: Seq<u8>) -> bool {
    content(line).len() == 0
}

/// The digits of a count: all of it but a plus sign at its start.
pub open spec fn count_digits(text: Seq<u8>) -> Seq<u8> {
    if text.len() > 0 && text[0] == PLUS {
        text.skip(1)
    } else {
        text
    }
}

/// Whether a line is a count: digits, at least one, with or without a plus
/// sign before them and white space around them.
pub open spec fn is_count(line: Seq<u8>) -> bool {
    count_digits(content(line)).len() > 0 && forall|i: int|
        0 <= i < count_digits(content(line)).len() ==> is_digit(
            #[trigger] count_digits(content(line))[i],
        )
}

/// The number that a count stands for.
pub open spec fn count_value(line: Seq<u8>) -> nat {
    decimal(count_digits(content(line)))
}

/// What has been seen of the lines so far.
pub struct Scan {
    /// The header has not ended yet.
    pub header: bool,
    /// A frame was read since the last count.
    pub open: bool,
    /// The counts, added up.
    pub counted: nat,
    /// Every count came after a frame, and the counts add up within `usize`.
    pub sound: bool,
}

/// What has been seen after one more line. The header ends with its first
/// blank line. After it a blank line changes nothing, a count ends a stack,
/// and any other line is a frame.
pub open spec fn scan_line(seen: Scan, line: Seq<u8>) -> Scan {
    if seen.header {
        Scan { header: !is_blank(line), open: seen.open, counted: seen.counted, sound: seen.sound }
    } else if is_blank(line) {
        seen
    } else if is_count(line) {
        let fits = seen.counted + count_value(line) <= usize::MAX;
        Scan {
            header: false,
            open: false,
            counted: if fits {
                seen.counted + count_value(line)
            } else {
                seen.counted
            },
            sound: seen.sound && seen.open && fits,
        }
    } else {
        Scan { header: false, open: true, counted: seen.counted, sound: seen.sound }
    }
}

/// What has been seen after all of the lines.
pub open spec fn scanned(lines: Seq<Seq<u8>>) -> Scan
    decreases lines.len(),
{
    if lines.len() == 0 {
        Scan { header: true, open: false, counted: 0, sound: true }
    } else {
        scan_line(scanned(lines.drop_last()), lines.last())
    }
}

/// Whether a line holds ASCII characters only, but for what stands before
/// its first backtick where it has one: the name of a frame's module.
pub open spec fn is_plain(line: Seq<u8>) -> bool {
    forall|k: int|
        0 <= k < pieces(line, LABEL_SEPARATOR).len() && (k > 0 || pieces(line, LABEL_SEPARATOR).len()
            == 1) ==> is_ascii(#[trigger] pieces(line, LABEL_SEPARATOR)[k])
}

/// Whether every line is plain.
pub open spec fn all_plain(lines: Seq<Seq<u8>>) -> bool {
    forall|k: int| 0 <= k < lines.len() ==> is_plain(#[trigger] lines[k])
}

/// Whether the text can be folded: every line is plain, after the header
/// every count comes after a frame of its stack, and the counts add up
/// within `usize`.
pub open spec fn foldable(stacks: Seq<u8>) -> bool {
    all_plain(pieces(stacks, NEWLINE)) && scanned(pieces(stacks, NEWLINE)).sound
}

fn space(c: u8) -> (r: bool)
    ensures
        r == is_space(c),
{
    (9 <= c && c <= 13) || c == 32
}

/// What a line is, a count with its number where `usize` holds it.
#[derive(Clone, Copy, Debug, PartialEq, Eq)]
pub enum Line {
    Blank,
    Frame,
    Count(usize),
    /// A count beyond `usize`.
    Beyond,
}

proof fn lemma_decimal_step(digits: Seq<u8>, n: int)
    requires
        0 <= n < digits.len(),
    ensures
        decimal(digits.take(n + 1)) == decimal(digits.take(n)) * 10 + (digits[n] - 48) as nat,
{
    assert(digits.take(n + 1).drop_last() =~= digits.take(n));
}

/// Tells what a line is.
pub fn line_kind(line: &[u8]) -> (r: Line)
    ensures
        r is Blank <==> is_blank(line@),
        (r is Count || r is Beyond) <==> is_count(line@),
        r matches Line::Count(n) ==> n == count_value(line@),
        r is Beyond ==> count_value(line@) > usize::MAX,
{
    let mut start: usize = 0;
    while start < line.len() && space(line[start])
        invariant
            start <= line.len(),
            content_start(line@, 0) == content_start(line@, start as int),
        decreases line.len() - start,
    {
        start += 1;
    }
    assert(content_start(line@, 0) == start);
    let mut end: usize = line.len();
    assert(line@.take(end as int) =~= line@);
    while end > 0 && space(line[end - 1])
        invariant
            end <= line.len(),
            content_end(line@) == content_end(line@.take(end as int)),
        decreases end,
    {
        assert(line@.take(end as int).drop_last() =~= line@.take(end - 1));
        end -= 1;
    }
    assert(content_end(line@) == end);
    if start >= end {
        return Line::Blank;
    }
    let ghost text = content(line@);
    assert(text == line@.subrange(start as int, end as int));
    let begin = if line[start] == PLUS {
        start + 1
    } else {
        start
    };
    let ghost digits = count_digits(text);
    assert(text[0] == line@[start as int]);
    assert(digits =~= line@.subrange(begin as int, end as int));
    if begin == end {
        return Line::Frame;
    }
    let mut value: usize = 0;
    let mut beyond = false;
    let mut i: usize = begin;
    assert(digits.take(0) =~= Seq::<u8>::empty());
    while i < end
        invariant
            begin <= i <= end <= line.len(),
            digits == line@.subrange(begin as int, end as int),
            digits == count_digits(content(line@)),
            content(line@).len() > 0,
            forall|k: int| 0 <= k < i - begin ==> is_digit(#[trigger] digits[k]),
            !beyond ==> value == decimal(digits.take(i - begin)),
            beyond ==> decimal(digits.take(i - begin)) > usize::MAX,
        decreases end - i,
    {
        let c = line[i];
        assert(digits[i - begin] == c);
        if !(48 <= c && c <= 57) {
            return Line::Frame;
        }
        proof {
            lemma_decimal_step(digits, i - begin);
        }
        let digit = (c - 48) as usize;
        if !beyond {
            if value > (usize::MAX - digit) / 10 {
                beyond = true;
            } else {
                value = value * 10 + digit;
            }
        }
        i += 1;
    }
    assert(digits.take(i - begin) =~= digits);
    if beyond {
        Line::Beyond
    } else {
        Line::Count(value)
    }
}

fn ascii(text: &[u8]) -> (r: bool)
    ensures
        r == is_ascii(text@),
{
    let mut i: usize = 0;
    while i < text.len()
        invariant
            i <= text.len(),
            forall|k: int| 0 <= k < i ==> (#[trigger] text@[k]) < 128,
        decreases text.len() - i,
    {
        if text[i] >= 128 {
            return false;
        }
        i += 1;
    }
    true
}

/// Decides whether a line is plain.
pub fn plain(line: &[u8]) -> (r: bool)
    ensures
        r == is_plain(line@),
{
    let parts = split(line, LABEL_SEPARATOR);
    proof {
        crate::cpu::parse::lemma_pieces(line@, LABEL_SEPARATOR);
        assert(texts(parts@).len() == parts.len());
    }
    let mut k: usize = if parts.len() == 1 {
        0
    } else {
        1
    };
    let ghost first = k;
    while k < parts.len()
        invariant
            first <= k <= parts.len(),
            first == if parts.len() == 1 {
                0usize
            } else {
                1usize
            },
            texts(parts@) == pieces(line@, LABEL_SEPARATOR),
            forall|j: int| first <= j < k ==> is_ascii(#[trigger] texts(parts@)[j]),
        decreases parts.len() - k,
    {
        assert(texts(parts@)[k as int] == parts[k as int]@);
        if !ascii(parts[k].as_slice()) {
            return false;
        }
        k += 1;
    }
    true
}

/// Decides whether the text can be folded.
pub fn can_fold(stacks: &[u8]) -> (r: bool)
    ensures
        r == foldable(stacks@),
{
    let lines = split(stacks, NEWLINE);
    let ghost all = texts(lines@);
    let mut header = true;
    let mut open = false;
    let mut counted: usize = 0;
    let mut sound = true;
    let mut at: usize = 0;
    assert(all.take(0) =~= Seq::<Seq<u8>>::empty());
    while at < lines.len()
        invariant
            at <= lines.len(),
            all == texts(lines@),
            all == pieces(stacks@, NEWLINE),
            forall|k: int| 0 <= k < at ==> is_plain(#[trigger] all[k]),
            scanned(all.take(at as int)) == (Scan { header, open, counted: counted as nat, sound }),
        decreases lines.len() - at,
    {
        proof {
            assert(all.take(at + 1).drop_last() =~= all.take(at as int));
            assert(all.take(at + 1).last() == lines[at as int]@);
            assert(all[at as int] == lines[at as int]@);
        }
        if !plain(lines[at].as_slice()) {
            return false;
        }
        let kind = line_kind(lines[at].as_slice());
        if header {
            header = !matches!(kind, Line::Blank);
        } else {
            match kind {
                Line::Blank => {},
                Line::Frame => {
                    open = true;
                },
                Line::Count(count) => {
                    if count > usize::MAX - counted {
                        sound = false;
                    } else {
                        counted = counted + count;
                        sound = sound && open;
                    }
                    open = false;
                },
                Line::Beyond => {
                    sound = false;
                    open = false;
                },
            }
        }
        at += 1;
    }
    assert(all.take(at as int) =~= all);
    sound
}

} // verus!
