//! Reads collapsed stack text: one sample a line, `label;label;...;label weight`,
//! each label an origin and a function with one backtick between them.

use vstd::prelude::*;
use crate::cpu::merge::{CollapsedSample, SampleView};
use crate::cpu::names::NameTable;

verus! {

/// Stands between the labels of a call path.
pub const PATH_SEPARATOR: u8 = 59;

/// Stands between the origin and the function of a label.
pub const LABEL_SEPARATOR: u8 = 96;

/// Ends a line.
pub const NEWLINE: u8 = 10;

/// Before a newline, belongs to the line's end.
pub const CARRIAGE_RETURN: u8 = 13;

/// Stands before the weight, and may stand after it.
pub const SPACE: u8 = 32;

/// The texts that a sequence of byte vectors holds.
pub open spec fn texts(v: Seq<Vec<u8>>) -> Seq<Seq<u8>> {
    Seq::new(v.len(), |i: int| v[i]@)
}

/// The pieces of `text` between the occurrences of `separator`: one more
/// than there are separators, an empty one where two separators meet or one
/// stands at either end.
pub open spec fn pieces(text: Seq<u8>, separator: u8) -> Seq<Seq<u8>>
    decreases text.len(),
{
    if text.len() == 0 {
        seq![Seq::empty()]
    } else {
        let before = pieces(text.drop_last(), separator);
        if text.last() == separator {
            before.push(Seq::empty())
        } else {
            before.drop_last().push(before.last().push(text.last()))
        }
    }
}

/// A line without the carriage return that ended it, if one did.
pub open spec fn without_carriage_return(line: Seq<u8>) -> Seq<u8> {
    if line.len() > 0 && line.last() == CARRIAGE_RETURN {
        line.drop_last()
    } else {
        line
    }
}

/// The lines of `text`. A line ends with a newline, or with a carriage return
/// and a newline, neither of which is part of it. What follows the last
/// newline is a line if it is not empty.
pub open spec fn lines_of(text: Seq<u8>) -> Seq<Seq<u8>> {
    let parts = pieces(text, NEWLINE);
    let ended = Seq::new((parts.len() - 1) as nat, |i: int| without_carriage_return(parts[i]));
    if parts.last().len() == 0 {
        ended
    } else {
        ended.push(parts.last())
    }
}

/// Whether a byte is a decimal digit.
pub open spec fn is_digit(c: u8) -> bool {
    48 <= c <= 57
}

/// `text` without the spaces at its end.
pub open spec fn without_trailing_spaces(text: Seq<u8>) -> Seq<u8>
    decreases text.len(),
{
    if text.len() > 0 && text.last() == SPACE {
        without_trailing_spaces(text.drop_last())
    } else {
        text
    }
}

/// How many digits `text` ends with.
pub open spec fn trailing_digits(text: Seq<u8>) -> nat
    decreases text.len(),
{
    if text.len() > 0 && is_digit(text.last()) {
        trailing_digits(text.drop_last()) + 1
    } else {
        0
    }
}

/// The number that decimal digits stand for.
pub open spec fn decimal(digits: Seq<u8>) -> nat
    decreases digits.len(),
{
    if digits.len() == 0 {
        0
    } else {
        decimal(digits.drop_last()) * 10 + (digits.last() - 48) as nat
    }
}

/// The digits of the weight at the end of `text`: its last run of digits,
/// spaces after it left aside.
pub open spec fn weight_digits(text: Seq<u8>) -> Seq<u8> {
    let trimmed = without_trailing_spaces(text);
    trimmed.skip(trimmed.len() - trailing_digits(trimmed))
}

/// The weight at the end of `text`, if there is one and `usize` can hold it.
pub open spec fn weight_of(text: Seq<u8>) -> Option<nat> {
    let digits = weight_digits(text);
    if digits.len() == 0 || decimal(digits) > usize::MAX {
        None
    } else {
        Some(decimal(digits))
    }
}

/// `text` without the digits and spaces at its end.
pub open spec fn without_weight(text: Seq<u8>) -> Seq<u8>
    decreases text.len(),
{
    if text.len() > 0 && (is_digit(text.last()) || text.last() == SPACE) {
        without_weight(text.drop_last())
    } else {
        text
    }
}

/// Whether a label is an origin and a function with one separator between.
pub open spec fn two_parts(label: Seq<u8>) -> bool {
    pieces(label, LABEL_SEPARATOR).len() == 2
}

/// The function of a label of two parts, with all that follows the separator.
pub open spec fn function_of(label: Seq<u8>) -> Seq<u8> {
    pieces(label, LABEL_SEPARATOR)[1]
}

/// One line as read: the function names from the root down, and the weight.
pub struct StackLineView {
    pub path: Seq<Seq<u8>>,
    pub weight: nat,
}

/// One line as read: the function names from the root down, and the weight.
#[derive(Clone, Debug, PartialEq, Eq)]
pub struct StackLine {
    pub path: Vec<Vec<u8>>,
    pub weight: usize,
}

impl View for StackLine {
    type V = StackLineView;

    open spec fn view(&self) -> StackLineView {
        StackLineView { path: texts(self.path@), weight: self.weight as nat }
    }
}

/// What a line holds, or `None` for a malformed line: one with a label that
/// is not of two parts, or with no weight at the end of its last label. The
/// last function's name is what stands before the digits and spaces at the
/// label's end.
pub open spec fn parse_line_spec(line: Seq<u8>) -> Option<StackLineView> {
    let labels = pieces(line, PATH_SEPARATOR);
    let last = function_of(labels.last());
    if (forall|i: int| 0 <= i < labels.len() ==> two_parts(#[trigger] labels[i])) && weight_of(last) is Some {
        Some(
            StackLineView {
                path: Seq::new(
                    labels.len(),
                    |i: int|
                        if i == labels.len() - 1 {
                            without_weight(last)
                        } else {
                            function_of(labels[i])
                        },
                ),
                weight: weight_of(last)->0,
            },
        )
    } else {
        None
    }
}

/// The table of names with `name` in it: at the end, if it was not there.
pub open spec fn interned(names: Seq<Seq<u8>>, name: Seq<u8>) -> Seq<Seq<u8>> {
    if names.contains(name) {
        names
    } else {
        names.push(name)
    }
}

/// The table of names with those of `path` in it, root first.
pub open spec fn interned_path(names: Seq<Seq<u8>>, path: Seq<Seq<u8>>) -> Seq<Seq<u8>>
    decreases path.len(),
{
    if path.len() == 0 {
        names
    } else {
        interned(interned_path(names, path.drop_last()), path.last())
    }
}

/// Where in the table each name of `path` stands.
pub open spec fn identifiers(names: Seq<Seq<u8>>, path: Seq<Seq<u8>>) -> Seq<usize> {
    Seq::new(path.len(), |i: int| names.index_of(path[i]) as usize)
}

/// What a text holds: the function names in the order they first occur,
/// the samples of the well-formed lines in the order of the lines, each
/// function given by its place among the names, and the number of malformed
/// lines.
pub struct ParsedView {
    pub names: Seq<Seq<u8>>,
    pub samples: Seq<SampleView>,
    pub ignored: nat,
}

/// What a text holds.
#[derive(Clone, Debug, PartialEq, Eq)]
pub struct Parsed {
    pub names: Vec<Vec<u8>>,
    pub samples: Vec<CollapsedSample>,
    pub ignored: usize,
}

impl View for Parsed {
    type V = ParsedView;

    open spec fn view(&self) -> ParsedView {
        ParsedView {
            names: texts(self.names@),
            samples: crate::cpu::merge::sample_views(self.samples@),
            ignored: self.ignored as nat,
        }
    }
}

/// What lines hold: a malformed line is counted and adds nothing else.
pub open spec fn parse_lines(lines: Seq<Seq<u8>>) -> ParsedView
    decreases lines.len(),
{
    if lines.len() == 0 {
        ParsedView { names: Seq::empty(), samples: Seq::empty(), ignored: 0 }
    } else {
        let before = parse_lines(lines.drop_last());
        match parse_line_spec(lines.last()) {
            None => ParsedView {
                names: before.names,
                samples: before.samples,
                ignored: before.ignored + 1,
            },
            Some(line) => {
                let names = interned_path(before.names, line.path);
                ParsedView {
                    names,
                    samples: before.samples.push(
                        SampleView { path: identifiers(names, line.path), weight: line.weight },
                    ),
                    ignored: before.ignored,
                }
            },
        }
    }
}

/// There is always a piece, and every piece is made of bytes of the text.
pub proof fn lemma_pieces(text: Seq<u8>, separator: u8)
    ensures
        pieces(text, separator).len() >= 1,
        forall|i: int, k: int|
            0 <= i < pieces(text, separator).len() && 0 <= k < pieces(text, separator)[i].len()
                ==> text.contains(#[trigger] pieces(text, separator)[i][k]),
        !text.contains(separator) ==> pieces(text, separator) == seq![text],
    decreases text.len(),
{
    if text.len() > 0 {
        let front = text.drop_last();
        lemma_pieces(front, separator);
        let before = pieces(front, separator);
        let all = pieces(text, separator);
        assert forall|i: int, k: int| 0 <= i < all.len() && 0 <= k < all[i].len() implies text.contains(
            #[trigger] all[i][k],
        ) by {
            if i < before.len() && k < before[i].len() {
                assert(all[i][k] == before[i][k]);
                assert(front.contains(before[i][k]));
                let at = choose|at: int| 0 <= at < front.len() && front[at] == before[i][k];
                assert(text[at] == all[i][k]);
            } else {
                assert(all[i][k] == text[text.len() - 1]);
            }
        }
        if !text.contains(separator) {
            assert(text[text.len() - 1] != separator);
            assert forall|at: int| 0 <= at < front.len() implies front[at] != separator by {
                assert(text[at] == front[at]);
            }
            assert(front.push(text.last()) =~= text);
            assert(all =~= seq![text]);
        }
    } else {
        assert(text =~= Seq::<u8>::empty());
    }
}

/// Splits `text` at each `separator`.
pub fn split(text: &[u8], separator: u8) -> (parts: Vec<Vec<u8>>)
    ensures
        texts(parts@) == pieces(text@, separator),
{
    let mut done: Vec<Vec<u8>> = Vec::new();
    let mut current: Vec<u8> = Vec::new();
    let mut i: usize = 0;
    assert(text@.take(0) =~= Seq::<u8>::empty());
    assert(texts(done@).push(current@) =~= pieces(text@.take(0), separator));
    while i < text.len()
        invariant
            i <= text.len(),
            texts(done@).push(current@) == pieces(text@.take(i as int), separator),
        decreases text.len() - i,
    {
        let ghost before = texts(done@).push(current@);
        proof {
            assert(text@.take(i + 1).drop_last() =~= text@.take(i as int));
            assert(before.drop_last() =~= texts(done@));
        }
        if text[i] == separator {
            done.push(current);
            current = Vec::new();
            assert(texts(done@).push(current@) =~= before.push(Seq::empty()));
        } else {
            current.push(text[i]);
            assert(texts(done@).push(current@) =~= before.drop_last().push(
                before.last().push(text[i as int]),
            ));
        }
        i += 1;
    }
    assert(text@.take(i as int) =~= text@);
    done.push(current);
    assert(texts(done@) =~= pieces(text@, separator));
    done
}

/// Splits `text` into its lines.
pub fn lines(text: &[u8]) -> (all: Vec<Vec<u8>>)
    ensures
        texts(all@) == lines_of(text@),
{
    let mut done: Vec<Vec<u8>> = Vec::new();
    let mut current: Vec<u8> = Vec::new();
    let mut i: usize = 0;
    assert(text@.take(0) =~= Seq::<u8>::empty());
    assert(pieces(text@.take(0), NEWLINE) =~= seq![Seq::<u8>::empty()]);
    while i < text.len()
        invariant
            i <= text.len(),
            pieces(text@.take(i as int), NEWLINE).len() == done.len() + 1,
            current@ == pieces(text@.take(i as int), NEWLINE).last(),
            forall|k: int|
                0 <= k < done.len() ==> (#[trigger] done[k])@ == without_carriage_return(
                    pieces(text@.take(i as int), NEWLINE)[k],
                ),
        decreases text.len() - i,
    {
        proof {
            assert(text@.take(i + 1).drop_last() =~= text@.take(i as int));
        }
        if text[i] == NEWLINE {
            let n = current.len();
            if n > 0 && current[n - 1] == CARRIAGE_RETURN {
                current.pop();
            }
            done.push(current);
            current = Vec::new();
        } else {
            current.push(text[i]);
        }
        i += 1;
    }
    assert(text@.take(i as int) =~= text@);
    if current.len() > 0 {
        done.push(current);
    }
    assert(texts(done@) =~= lines_of(text@));
    done
}

fn is_digit_byte(c: u8) -> (r: bool)
    ensures
        r == is_digit(c),
{
    48 <= c && c <= 57
}

proof fn lemma_decimal_grows(digits: Seq<u8>, n: int)
    requires
        0 <= n <= digits.len(),
    ensures
        decimal(digits.take(n)) <= decimal(digits),
    decreases digits.len() - n,
{
    if n < digits.len() {
        lemma_decimal_grows(digits, n + 1);
        assert(digits.take(n + 1).drop_last() =~= digits.take(n));
    } else {
        assert(digits.take(n) =~= digits);
    }
}

/// Reads the weight at the end of `text`.
pub fn parse_weight(text: &[u8]) -> (r: Option<usize>)
    ensures
        r is Some <==> weight_of(text@) is Some,
        r matches Some(w) ==> weight_of(text@) == Some(w as nat),
{
    let mut end: usize = text.len();
    assert(text@.take(end as int) =~= text@);
    while end > 0 && text[end - 1] == SPACE
        invariant
            end <= text.len(),
            without_trailing_spaces(text@) == without_trailing_spaces(text@.take(end as int)),
        decreases end,
    {
        assert(text@.take(end as int).drop_last() =~= text@.take(end - 1));
        end -= 1;
    }
    let ghost trimmed = text@.take(end as int);
    assert(without_trailing_spaces(text@) == trimmed);
    let mut begin: usize = end;
    while begin > 0 && is_digit_byte(text[begin - 1])
        invariant
            begin <= end <= text.len(),
            trimmed == text@.take(end as int),
            trailing_digits(trimmed) == trailing_digits(text@.take(begin as int)) + (end - begin),
            forall|k: int| begin <= k < end ==> is_digit(#[trigger] text@[k]),
        decreases begin,
    {
        assert(text@.take(begin as int).drop_last() =~= text@.take(begin - 1));
        begin -= 1;
    }
    assert(trailing_digits(trimmed) == end - begin);
    let ghost digits = trimmed.skip(begin as int);
    assert(digits == weight_digits(text@));
    if begin == end {
        return None;
    }
    let mut value: usize = 0;
    let mut i: usize = begin;
    assert(digits.take(0) =~= Seq::<u8>::empty());
    while i < end
        invariant
            begin <= i <= end <= text.len(),
            digits == text@.take(end as int).skip(begin as int),
            digits == weight_digits(text@),
            digits.len() == end - begin,
            value == decimal(digits.take(i - begin)),
            forall|k: int| begin <= k < end ==> is_digit(#[trigger] text@[k]),
        decreases end - i,
    {
        let digit = (text[i] - 48) as usize;
        proof {
            assert(digits.take(i - begin + 1).drop_last() =~= digits.take(i - begin));
            assert(digits.take(i - begin + 1).last() == text@[i as int]);
            lemma_decimal_grows(digits, i - begin + 1);
        }
        if value > (usize::MAX - digit) / 10 {
            proof {
                assert(is_digit(text@[i as int]));
                assert(decimal(digits.take(i - begin + 1)) == value * 10 + digit);
                assert(value * 10 + digit > usize::MAX);
                assert(digits == weight_digits(text@));
            }
            return None;
        }
        value = value * 10 + digit;
        i += 1;
    }
    assert(digits.take(i - begin) =~= digits);
    Some(value)
}

/// Cuts the digits and spaces off the end of `text`.
pub fn strip_weight(text: &mut Vec<u8>)
    ensures
        final(text)@ == without_weight(old(text)@),
{
    let mut end: usize = text.len();
    assert(text@.take(end as int) =~= text@);
    while end > 0 && (is_digit_byte(text[end - 1]) || text[end - 1] == SPACE)
        invariant
            end <= text.len(),
            text@ == old(text)@,
            without_weight(text@) == without_weight(text@.take(end as int)),
        decreases end,
    {
        assert(text@.take(end as int).drop_last() =~= text@.take(end - 1));
        end -= 1;
    }
    text.truncate(end);
    assert(text@ =~= old(text)@.take(end as int));
}

/// Reads one line; `None` for a malformed one.
pub fn parse_line(line: &[u8]) -> (r: Option<StackLine>)
    ensures
        r is Some <==> parse_line_spec(line@) is Some,
        r matches Some(read) ==> parse_line_spec(line@) == Some(read@),
{
    let labels = split(line, PATH_SEPARATOR);
    proof {
        lemma_pieces(line@, PATH_SEPARATOR);
    }
    let mut path: Vec<Vec<u8>> = Vec::new();
    let mut i: usize = 0;
    while i < labels.len()
        invariant
            i <= labels.len(),
            path.len() == i,
            texts(labels@) == pieces(line@, PATH_SEPARATOR),
            forall|k: int| 0 <= k < i ==> two_parts(#[trigger] texts(labels@)[k]),
            forall|k: int| 0 <= k < i ==> (#[trigger] path[k])@ == function_of(texts(labels@)[k]),
        decreases labels.len() - i,
    {
        let mut parts = split(labels[i].as_slice(), LABEL_SEPARATOR);
        assert(texts(labels@)[i as int] == labels[i as int]@);
        if parts.len() != 2 {
            return None;
        }
        assert(texts(parts@)[1] == parts[1]@);
        let function = parts.pop().unwrap();
        path.push(function);
        i += 1;
    }
    let mut last = path.pop().unwrap();
    assert(last@ == function_of(pieces(line@, PATH_SEPARATOR).last()));
    match parse_weight(last.as_slice()) {
        None => None,
        Some(weight) => {
            strip_weight(&mut last);
            path.push(last);
            let read = StackLine { path, weight };
            assert(read@.path =~= parse_line_spec(line@)->0.path);
            Some(read)
        },
    }
}

/// Whether every sample has a path, and names in it only functions of the
/// table.
pub open spec fn sound(parsed: ParsedView) -> bool {
    &&& parsed.names.no_duplicates()
    &&& forall|k: int| 0 <= k < parsed.samples.len() ==> (#[trigger] parsed.samples[k]).path.len() > 0
    &&& forall|k: int, d: int|
        0 <= k < parsed.samples.len() && 0 <= d < parsed.samples[k].path.len() ==> (
        #[trigger] parsed.samples[k].path[d]) < parsed.names.len()
}

/// Reads collapsed stack text.
pub fn parse_collapsed(text: &[u8]) -> (parsed: Parsed)
    ensures
        parsed@ == parse_lines(lines_of(text@)),
        sound(parsed@),
{
    let all = lines(text);
    let mut table = NameTable::new();
    let mut samples: Vec<CollapsedSample> = Vec::new();
    let mut ignored: usize = 0;
    let mut i: usize = 0;
    let ghost read = texts(all@);
    assert(read.take(0) =~= Seq::<Seq<u8>>::empty());
    assert(crate::cpu::merge::sample_views(samples@) =~= Seq::<SampleView>::empty());
    proof {
        table.lemma_no_duplicates();
    }
    while i < all.len()
        invariant
            i <= all.len(),
            ignored <= i,
            read == texts(all@),
            table.well_formed(),
            (Parsed { names: table.names, samples, ignored })@ == parse_lines(read.take(i as int)),
            sound((Parsed { names: table.names, samples, ignored })@),
        decreases all.len() - i,
    {
        let ghost before = (Parsed { names: table.names, samples, ignored })@;
        proof {
            assert(read.take(i + 1).drop_last() =~= read.take(i as int));
            assert(read.take(i + 1).last() == all[i as int]@);
        }
        match parse_line(all[i].as_slice()) {
            None => {
                ignored += 1;
            },
            Some(line) => {
                let weight = line.weight;
                proof {
                    lemma_pieces(all[i as int]@, PATH_SEPARATOR);
                }
                let path = table.intern_path(line.path);
                samples.push(CollapsedSample { path, weight });
                proof {
                    table.lemma_no_duplicates();
                    let after = (Parsed { names: table.names, samples, ignored })@;
                    assert(after.samples =~= before.samples.push(
                        SampleView { path: path@, weight: weight as nat },
                    ));
                    assert forall|k: int, d: int|
                        0 <= k < after.samples.len() && 0 <= d < after.samples[k].path.len() implies (
                    #[trigger] after.samples[k].path[d]) < after.names.len() by {
                        if k < before.samples.len() {
                            assert(after.samples[k] == before.samples[k]);
                            assert(before.samples[k].path[d] < before.names.len());
                        } else {
                            assert(after.samples[k].path[d] == path[d]);
                        }
                    }
                }
            },
        }
        i += 1;
    }
    assert(read.take(i as int) =~= read);
    Parsed { names: table.names, samples, ignored }
}

proof fn lemma_interned_path(names: Seq<Seq<u8>>, path: Seq<Seq<u8>>)
    requires
        names.no_duplicates(),
    ensures
        interned_path(names, path).no_duplicates(),
        interned_path(names, path).len() >= names.len(),
        forall|d: int| 0 <= d < path.len() ==> interned_path(names, path).contains(#[trigger] path[d]),
        forall|k: int| 0 <= k < names.len() ==> (#[trigger] interned_path(names, path)[k]) == names[k],
    decreases path.len(),
{
    if path.len() > 0 {
        let front = path.drop_last();
        lemma_interned_path(names, front);
        let before = interned_path(names, front);
        let after = interned_path(names, path);
        assert forall|d: int| 0 <= d < path.len() implies after.contains(#[trigger] path[d]) by {
            if d < front.len() {
                assert(front[d] == path[d]);
                assert(before.contains(front[d]));
                let at = choose|at: int| 0 <= at < before.len() && before[at] == path[d];
                assert(after[at] == path[d]);
            } else if before.contains(path.last()) {
            } else {
                assert(after[before.len() as int] == path[d]);
            }
        }
    }
}

/// What lines hold is sound: no name stands twice in the table, every
/// sample has a path, and a path names only functions of the table.
pub proof fn lemma_parse_lines_sound(lines: Seq<Seq<u8>>)
    ensures
        sound(parse_lines(lines)),
    decreases lines.len(),
{
    if lines.len() > 0 {
        lemma_parse_lines_sound(lines.drop_last());
        let before = parse_lines(lines.drop_last());
        let after = parse_lines(lines);
        match parse_line_spec(lines.last()) {
            None => {},
            Some(line) => {
                lemma_pieces(lines.last(), PATH_SEPARATOR);
                lemma_interned_path(before.names, line.path);
                assert forall|k: int, d: int|
                    0 <= k < after.samples.len() && 0 <= d < after.samples[k].path.len() implies (
                #[trigger] after.samples[k].path[d]) < after.names.len() by {
                    if k < before.samples.len() {
                        assert(after.samples[k] == before.samples[k]);
                        assert(before.samples[k].path[d] < before.names.len());
                    } else {
                        assert(after.names.contains(line.path[d]));
                        let at = after.names.index_of(line.path[d]);
                        assert(0 <= at < after.names.len());
                    }
                }
                assert forall|k: int| 0 <= k < after.samples.len() implies (
                #[trigger] after.samples[k]).path.len() > 0 by {
                    if k < before.samples.len() {
                        assert(after.samples[k] == before.samples[k]);
                    }
                }
            },
        }
    }
}

/// A line without a separator between origin and function is malformed.
pub proof fn lemma_line_without_separator(line: Seq<u8>)
    requires
        !line.contains(LABEL_SEPARATOR),
    ensures
        parse_line_spec(line) is None,
{
    lemma_pieces(line, PATH_SEPARATOR);
    let labels = pieces(line, PATH_SEPARATOR);
    let label = labels[0];
    assert forall|k: int| 0 <= k < label.len() implies label[k] != LABEL_SEPARATOR by {
        assert(line.contains(labels[0][k]));
    }
    lemma_pieces(label, LABEL_SEPARATOR);
    assert(!two_parts(labels[0]));
}

/// Malformed-line isolation: a malformed line among others, wherever it
/// stands, is counted once and changes nothing else of what is read.
pub proof fn lemma_malformed_line_isolated(lines: Seq<Seq<u8>>, at: int, line: Seq<u8>)
    requires
        0 <= at <= lines.len(),
        parse_line_spec(line) is None,
    ensures
        parse_lines(lines.insert(at, line)).names == parse_lines(lines).names,
        parse_lines(lines.insert(at, line)).samples == parse_lines(lines).samples,
        parse_lines(lines.insert(at, line)).ignored == parse_lines(lines).ignored + 1,
    decreases lines.len() - at,
{
    let with = lines.insert(at, line);
    if at == lines.len() {
        assert(with.drop_last() =~= lines);
        assert(with.last() == line);
    } else {
        lemma_malformed_line_isolated(lines.drop_last(), at, line);
        assert(with.drop_last() =~= lines.drop_last().insert(at, line));
        assert(with.last() == lines.last());
    }
}

} // verus!
