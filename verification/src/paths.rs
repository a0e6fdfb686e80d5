//! The order of paths: component by component, as the standard library
//! orders the paths of Unix.

use vstd::prelude::*;
use vstd::string::*;
use crate::cpu::names::Order;

verus! {

/// Stands between the components of a path.
pub const SEPARATOR: char = '/';

/// A component of a path.
pub enum Part {
    /// The root, which a path begins with if it begins with a separator.
    Root,
    /// The directory itself, `.`, at the start of a path without a root.
    Current,
    /// The directory above, `..`.
    Parent,
    /// Any other name.
    Name(Seq<char>),
}

/// The place of a component's kind in the order: the root first, then the
/// directory itself, then the directory above, then the names.
pub open spec fn rank(part: Part) -> int {
    match part {
        Part::Root => 0,
        Part::Current => 1,
        Part::Parent => 2,
        Part::Name(_) => 3,
    }
}

/// The name of a component that is a name.
pub open spec fn name(part: Part) -> Seq<char> {
    match part {
        Part::Name(name) => name,
        _ => Seq::empty(),
    }
}

/// The components that the text between two separators stands for: none if
/// it is empty or `.`, the directory above if it is `..`, else a name.
pub open spec fn part_of(segment: Seq<char>) -> Seq<Part> {
    if segment.len() == 0 || segment == seq!['.'] {
        Seq::empty()
    } else if segment == seq!['.', '.'] {
        seq![Part::Parent]
    } else {
        seq![Part::Name(segment)]
    }
}

/// What stands after the last separator of a path.
pub open spec fn last_segment(path: Seq<char>) -> Seq<char>
    decreases path.len(),
{
    if path.len() == 0 || path.last() == SEPARATOR {
        Seq::empty()
    } else {
        last_segment(path.drop_last()).push(path.last())
    }
}

/// The components of a path that a separator follows.
pub open spec fn ended_parts(path: Seq<char>) -> Seq<Part>
    decreases path.len(),
{
    if path.len() == 0 {
        Seq::empty()
    } else if path.last() == SEPARATOR {
        ended_parts(path.drop_last()) + part_of(last_segment(path.drop_last()))
    } else {
        ended_parts(path.drop_last())
    }
}

/// What a path begins with: the root, if its first character is a
/// separator; the directory itself, if it is `.` or begins with `.` and a
/// separator.
pub open spec fn head(path: Seq<char>) -> Seq<Part> {
    if path.len() > 0 && path[0] == SEPARATOR {
        seq![Part::Root]
    } else if path.len() > 0 && path[0] == '.' && (path.len() == 1 || path[1] == SEPARATOR) {
        seq![Part::Current]
    } else {
        Seq::empty()
    }
}

/// The components of a path. Separators in a row count as one, one at the
/// end as none, and a `.` after the start as nothing.
pub open spec fn parts(path: Seq<char>) -> Seq<Part> {
    head(path) + ended_parts(path) + part_of(last_segment(path))
}

/// Whether name `a` stands before `b` or is `b`, from index `i` on:
/// character by character, a name before those that it begins.
pub open spec fn name_le_from(a: Seq<char>, b: Seq<char>, i: int) -> bool
    decreases a.len() - i,
{
    if i >= a.len() {
        true
    } else if i >= b.len() {
        false
    } else if a[i] == b[i] {
        name_le_from(a, b, i + 1)
    } else {
        (a[i] as u32) < (b[i] as u32)
    }
}

/// Whether component `a` stands before `b` or is `b`: by kind, and names by
/// their text.
pub open spec fn part_le(a: Part, b: Part) -> bool {
    rank(a) < rank(b) || (rank(a) == rank(b) && name_le_from(name(a), name(b), 0))
}

/// Whether the components `a` stand before `b` or are `b`, from index `i`
/// on: component by component, a path before those that it begins.
pub open spec fn parts_le_from(a: Seq<Part>, b: Seq<Part>, i: int) -> bool
    decreases a.len() - i,
{
    if i >= a.len() {
        true
    } else if i >= b.len() {
        false
    } else if a[i] == b[i] {
        parts_le_from(a, b, i + 1)
    } else {
        part_le(a[i], b[i])
    }
}

/// Whether path `a` stands before `b` or has the components of `b`. This is
/// the order of `std::path::Path` on Unix.
pub open spec fn path_le(a: Seq<char>, b: Seq<char>) -> bool {
    parts_le_from(parts(a), parts(b), 0)
}

proof fn lemma_name_le_either(a: Seq<char>, b: Seq<char>, i: int)
    requires
        0 <= i,
    ensures
        name_le_from(a, b, i) || name_le_from(b, a, i),
    decreases a.len() - i,
{
    if i < a.len() && i < b.len() {
        if a[i] == b[i] {
            lemma_name_le_either(a, b, i + 1);
        } else {
            vstd::utf8::char_u32_cast(a[i], a[i] as u32);
            vstd::utf8::char_u32_cast(b[i], b[i] as u32);
        }
    }
}

proof fn lemma_name_le_chain(a: Seq<char>, b: Seq<char>, c: Seq<char>, i: int)
    requires
        0 <= i,
        name_le_from(a, b, i),
        name_le_from(b, c, i),
    ensures
        name_le_from(a, c, i),
    decreases a.len() - i,
{
    if i < a.len() && i < b.len() && i < c.len() && a[i] == b[i] && b[i] == c[i] {
        lemma_name_le_chain(a, b, c, i + 1);
    }
}

proof fn lemma_name_le_same(a: Seq<char>, b: Seq<char>, i: int)
    requires
        0 <= i <= a.len(),
        i <= b.len(),
        forall|k: int| 0 <= k < i ==> a[k] == b[k],
        name_le_from(a, b, i),
        name_le_from(b, a, i),
    ensures
        a == b,
    decreases a.len() - i,
{
    if i < a.len() {
        lemma_name_le_same(a, b, i + 1);
    } else {
        assert(a =~= b);
    }
}

proof fn lemma_part_le_same(a: Part, b: Part)
    requires
        part_le(a, b),
        part_le(b, a),
    ensures
        a == b,
{
    lemma_name_le_same(name(a), name(b), 0);
}

proof fn lemma_part_le_chain(a: Part, b: Part, c: Part)
    requires
        part_le(a, b),
        part_le(b, c),
    ensures
        part_le(a, c),
{
    if rank(a) == rank(b) && rank(b) == rank(c) {
        lemma_name_le_chain(name(a), name(b), name(c), 0);
    }
}

proof fn lemma_parts_le_either(a: Seq<Part>, b: Seq<Part>, i: int)
    requires
        0 <= i,
    ensures
        parts_le_from(a, b, i) || parts_le_from(b, a, i),
    decreases a.len() - i,
{
    if i < a.len() && i < b.len() {
        if a[i] == b[i] {
            lemma_parts_le_either(a, b, i + 1);
        } else {
            lemma_name_le_either(name(a[i]), name(b[i]), 0);
        }
    }
}

proof fn lemma_parts_le_chain(a: Seq<Part>, b: Seq<Part>, c: Seq<Part>, i: int)
    requires
        0 <= i,
        parts_le_from(a, b, i),
        parts_le_from(b, c, i),
    ensures
        parts_le_from(a, c, i),
    decreases a.len() - i,
{
    if i < a.len() {
        if a[i] == b[i] && b[i] == c[i] {
            lemma_parts_le_chain(a, b, c, i + 1);
        } else if a[i] != b[i] && b[i] != c[i] {
            lemma_part_le_chain(a[i], b[i], c[i]);
            if a[i] == c[i] {
                lemma_part_le_same(a[i], b[i]);
            }
        }
    }
}

/// Of two paths one stands before the other, or they have the same
/// components.
pub proof fn lemma_path_le_either(a: Seq<char>, b: Seq<char>)
    ensures
        path_le(a, b) || path_le(b, a),
{
    lemma_parts_le_either(parts(a), parts(b), 0);
}

/// A path that stands before another stands before all that the other
/// stands before.
pub proof fn lemma_path_le_chain(a: Seq<char>, b: Seq<char>, c: Seq<char>)
    requires
        path_le(a, b),
        path_le(b, c),
    ensures
        path_le(a, c),
{
    lemma_parts_le_chain(parts(a), parts(b), parts(c), 0);
}

enum PathPart {
    Root,
    Current,
    Parent,
    Name(Vec<char>),
}

spec fn part_view(part: PathPart) -> Part {
    match part {
        PathPart::Root => Part::Root,
        PathPart::Current => Part::Current,
        PathPart::Parent => Part::Parent,
        PathPart::Name(name) => Part::Name(name@),
    }
}

spec fn part_views(v: Seq<PathPart>) -> Seq<Part> {
    Seq::new(v.len(), |i: int| part_view(v[i]))
}

fn chars_of(text: &str) -> (chars: Vec<char>)
    ensures
        chars@ == text@,
{
    let mut chars: Vec<char> = Vec::new();
    for c in it: text.chars()
        invariant
            it.seq() == text@,
            chars@ == it.seq().take(it.index() as int),
    {
        chars.push(c);
    }
    chars
}

fn end_segment(done: &mut Vec<PathPart>, segment: Vec<char>)
    ensures
        part_views(final(done)@) == part_views(old(done)@) + part_of(segment@),
{
    let ghost before = part_views(done@);
    let n = segment.len();
    if n == 0 || (n == 1 && segment[0] == '.') {
        assert(n == 1 ==> segment@ =~= seq!['.']);
        assert(part_views(done@) =~= before + part_of(segment@));
    } else if n == 2 && segment[0] == '.' && segment[1] == '.' {
        assert(segment@ =~= seq!['.', '.']);
        done.push(PathPart::Parent);
        assert(part_views(done@) =~= before + part_of(segment@));
    } else {
        assert(segment@ != seq!['.']) by {
            if segment@ == seq!['.'] {
                assert(seq!['.'].len() == 1);
                assert(seq!['.'][0] == '.');
            }
        }
        assert(segment@ != seq!['.', '.']) by {
            if segment@ == seq!['.', '.'] {
                assert(seq!['.', '.'].len() == 2);
                assert(seq!['.', '.'][0] == '.');
                assert(seq!['.', '.'][1] == '.');
            }
        }
        let ghost name = segment@;
        done.push(PathPart::Name(segment));
        assert(part_views(done@) =~= before + seq![Part::Name(name)]);
    }
}

fn parts_of(path: &str) -> (r: Vec<PathPart>)
    ensures
        part_views(r@) == parts(path@),
{
    let chars = chars_of(path);
    let mut done: Vec<PathPart> = Vec::new();
    if chars.len() > 0 && chars[0] == SEPARATOR {
        done.push(PathPart::Root);
    } else if chars.len() > 0 && chars[0] == '.' && (chars.len() == 1 || chars[1] == SEPARATOR) {
        done.push(PathPart::Current);
    }
    assert(part_views(done@) =~= head(path@));
    let mut segment: Vec<char> = Vec::new();
    let mut i: usize = 0;
    assert(chars@.take(0) =~= Seq::<char>::empty());
    assert(part_views(done@) =~= head(path@) + ended_parts(chars@.take(0)));
    while i < chars.len()
        invariant
            i <= chars.len(),
            chars@ == path@,
            part_views(done@) == head(path@) + ended_parts(chars@.take(i as int)),
            segment@ == last_segment(chars@.take(i as int)),
        decreases chars.len() - i,
    {
        proof {
            assert(chars@.take(i + 1).drop_last() =~= chars@.take(i as int));
        }
        if chars[i] == SEPARATOR {
            let ghost before = part_views(done@);
            end_segment(&mut done, segment);
            segment = Vec::new();
            assert(part_views(done@) =~= head(path@) + ended_parts(chars@.take(i + 1)));
        } else {
            segment.push(chars[i]);
        }
        i += 1;
    }
    assert(chars@.take(i as int) =~= chars@);
    end_segment(&mut done, segment);
    assert(part_views(done@) =~= parts(path@));
    done
}

fn name_order(a: &Vec<char>, b: &Vec<char>) -> (r: Order)
    ensures
        r is Same <==> a@ == b@,
        r is After <==> !name_le_from(a@, b@, 0),
{
    let mut i: usize = 0;
    while i < a.len() && i < b.len()
        invariant
            i <= a.len(),
            i <= b.len(),
            forall|k: int| 0 <= k < i ==> a@[k] == b@[k],
            name_le_from(a@, b@, 0) == name_le_from(a@, b@, i as int),
        decreases a.len() - i,
    {
        if a[i] != b[i] {
            proof {
                vstd::utf8::char_u32_cast(a@[i as int], a@[i as int] as u32);
                vstd::utf8::char_u32_cast(b@[i as int], b@[i as int] as u32);
            }
            if (a[i] as u32) < (b[i] as u32) {
                return Order::Before;
            } else {
                return Order::After;
            }
        }
        i += 1;
    }
    if i < b.len() {
        Order::Before
    } else if i < a.len() {
        Order::After
    } else {
        assert(a@ =~= b@);
        Order::Same
    }
}

fn rank_of(part: &PathPart) -> (r: u8)
    ensures
        r == rank(part_view(*part)),
{
    match part {
        PathPart::Root => 0,
        PathPart::Current => 1,
        PathPart::Parent => 2,
        PathPart::Name(_) => 3,
    }
}

fn part_order(a: &PathPart, b: &PathPart) -> (r: Order)
    ensures
        r is Same <==> part_view(*a) == part_view(*b),
        r is After <==> !part_le(part_view(*a), part_view(*b)),
{
    let left = rank_of(a);
    let right = rank_of(b);
    if left < right {
        Order::Before
    } else if left > right {
        Order::After
    } else {
        match (a, b) {
            (PathPart::Name(x), PathPart::Name(y)) => name_order(x, y),
            _ => Order::Same,
        }
    }
}

/// Whether path `a` stands before `b` or has the components of `b`, as
/// `std::path::Path` has it on Unix.
pub fn paths_in_order(a: &str, b: &str) -> (r: bool)
    ensures
        r == path_le(a@, b@),
{
    let left = parts_of(a);
    let right = parts_of(b);
    let mut i: usize = 0;
    while i < left.len()
        invariant
            i <= left.len(),
            part_views(left@) == parts(a@),
            part_views(right@) == parts(b@),
            path_le(a@, b@) == parts_le_from(parts(a@), parts(b@), i as int),
        decreases left.len() - i,
    {
        if i >= right.len() {
            return false;
        }
        assert(part_views(left@)[i as int] == part_view(left[i as int]));
        assert(part_views(right@)[i as int] == part_view(right[i as int]));
        match part_order(&left[i], &right[i]) {
            Order::Same => {},
            Order::Before => {
                return true;
            },
            Order::After => {
                return false;
            },
        }
        i += 1;
    }
    true
}

/// How many characters the head of a path takes: one where there is a
/// head, the root or the directory itself.
pub open spec fn head_len(path: Seq<char>) -> int {
    head(path).len() as int
}

/// Whether the segment that ends at `k` is `.`: a dot that stands at the
/// start of what follows the head, or after a separator.
pub open spec fn ends_with_dot_segment(path: Seq<char>, h: int, k: int) -> bool {
    k > h && path[k - 1] == '.' && (k - 1 == h || (k - 2 >= h && path[k - 2] == SEPARATOR))
}

/// Where the first `k` characters of a path end once the segments at their
/// end that name nothing are cut off, each with the separator before it:
/// the empty ones and those that are `.`. The head, the first `h`
/// characters, stays.
pub open spec fn trimmed(path: Seq<char>, h: int, k: int) -> int
    decreases k - h,
{
    if k > h && path[k - 1] == SEPARATOR {
        trimmed(path, h, k - 1)
    } else if ends_with_dot_segment(path, h, k) {
        if k - 1 == h {
            h
        } else {
            trimmed(path, h, k - 2)
        }
    } else {
        k
    }
}

/// Where the segment starts that ends at `k`: after the last separator
/// before `k`, or where the head ends.
pub open spec fn segment_start(path: Seq<char>, h: int, k: int) -> int
    decreases k - h,
{
    if k <= h {
        h
    } else if path[k - 1] == SEPARATOR {
        k
    } else {
        segment_start(path, h, k - 1)
    }
}

/// Where the first `k` characters of a path end without their last segment
/// and the separator before it.
pub open spec fn before_segment(path: Seq<char>, h: int, k: int) -> int {
    if segment_start(path, h, k) > h {
        segment_start(path, h, k) - 1
    } else {
        h
    }
}

/// How many characters of a path are its parent: the path without its last
/// component, and without what names nothing before and after that. A path
/// without components has no parent, but for the parent of the directory
/// itself, which is empty.
pub open spec fn parent_len(path: Seq<char>) -> Option<int> {
    let h = head_len(path);
    let end = trimmed(path, h, path.len() as int);
    if end > h {
        Some(trimmed(path, h, before_segment(path, h, end)))
    } else if head(path) == seq![Part::Current] {
        Some(0)
    } else {
        None
    }
}

/// The parent of a path, as `std::path::Path` has it on Unix.
pub open spec fn parent_of(path: Seq<char>) -> Option<Seq<char>> {
    match parent_len(path) {
        Some(end) => Some(path.subrange(0, end)),
        None => None,
    }
}

/// A directory with a name in it: the two with a separator between them,
/// unless the directory is empty or ends with one.
pub open spec fn joined_path(directory: Seq<char>, name: Seq<char>) -> Seq<char> {
    if directory.len() == 0 || directory.last() == SEPARATOR {
        directory + name
    } else {
        directory.push(SEPARATOR) + name
    }
}

fn trim(chars: &Vec<char>, h: usize, k: usize) -> (r: usize)
    requires
        h <= k <= chars.len(),
    ensures
        r == trimmed(chars@, h as int, k as int),
        h <= r <= k,
{
    let mut end = k;
    loop
        invariant
            h <= end <= k,
            k <= chars.len(),
            trimmed(chars@, h as int, k as int) == trimmed(chars@, h as int, end as int),
        decreases end,
    {
        if end > h && chars[end - 1] == SEPARATOR {
            end -= 1;
        } else if end > h && chars[end - 1] == '.' && (end - 1 == h || (end - 2 >= h && chars[end - 2]
            == SEPARATOR)) {
            if end - 1 == h {
                return h;
            }
            end -= 2;
        } else {
            return end;
        }
    }
}

fn start_of_segment(chars: &Vec<char>, h: usize, k: usize) -> (r: usize)
    requires
        h <= k <= chars.len(),
    ensures
        r == segment_start(chars@, h as int, k as int),
        h <= r <= k,
{
    let mut start = k;
    while start > h && chars[start - 1] != SEPARATOR
        invariant
            h <= start <= k,
            k <= chars.len(),
            segment_start(chars@, h as int, k as int) == segment_start(chars@, h as int, start as int),
        decreases start,
    {
        start -= 1;
    }
    start
}

/// The parent of a path, as `std::path::Path` has it on Unix.
pub fn parent(path: &str) -> (r: Option<String>)
    ensures
        r is Some <==> parent_of(path@) is Some,
        r matches Some(directory) ==> parent_of(path@) == Some(directory@),
{
    let chars = chars_of(path);
    let rooted = chars.len() > 0 && chars[0] == SEPARATOR;
    let current = !rooted && chars.len() > 0 && chars[0] == '.' && (chars.len() == 1 || chars[1]
        == SEPARATOR);
    let h: usize = if rooted || current {
        1
    } else {
        0
    };
    assert(h == head_len(path@));
    assert(current <==> head(path@) == seq![Part::Current]) by {
        if head(path@) == seq![Part::Current] {
            assert(seq![Part::Current][0] == Part::Current);
            assert(head(path@).len() == 1);
        }
    }
    let end = trim(&chars, h, chars.len());
    let length = if end > h {
        let start = start_of_segment(&chars, h, end);
        let before = if start > h {
            start - 1
        } else {
            h
        };
        trim(&chars, h, before)
    } else if current {
        0
    } else {
        return None;
    };
    Some(path.substring_char(0, length).to_owned())
}

} // verus!
