//! Which paths may be removed, and under which canonical form.
//!
//! A path is read as a sequence of characters in which `/` separates
//! segments. An empty segment (a doubled or trailing separator) names
//! nothing, and neither does a segment `.` unless the path begins with it.
//! The segments that are left are the path's components. A path is a valid
//! target when it has a last component and that component is neither `.`
//! nor `..`; its canonical form is the path up to the end of the component
//! before, joined with the last component. What stands before the last
//! component is kept as written, but for separators and skipped segments
//! right in front of it: `..` in the middle of a path is not resolved, and
//! no link is followed.

use crate::error::Error;
use crate::error::ErrorView;
use vstd::prelude::*;
use vstd::string::*;

verus! {

/// Where the segment that ends at `end` begins: just behind the nearest
/// separator before `end`, or at 0.
pub open spec fn segment_start(path: Seq<char>, end: int) -> int
    decreases end,
{
    if end <= 0 {
        0
    } else if path[end - 1] == '/' {
        end
    } else {
        segment_start(path, end - 1)
    }
}

/// The segment from `start` to `end` is `.`.
pub open spec fn is_dot(path: Seq<char>, start: int, end: int) -> bool {
    end - start == 1 && path[start] == '.'
}

/// The segment from `start` to `end` is no component: it is empty, or it is
/// `.` somewhere behind the start of the path.
pub open spec fn is_skipped(path: Seq<char>, start: int, end: int) -> bool {
    start == end || (start > 0 && is_dot(path, start, end))
}

/// Where the last component within the first `end` characters ends, or 0
/// where those characters hold no component.
pub open spec fn last_component_end(path: Seq<char>, end: int) -> int
    decreases end,
{
    if end <= 0 {
        0
    } else {
        let start = segment_start(path, end);
        if start < 0 || start > end {
            0
        } else if is_skipped(path, start, end) {
            last_component_end(path, start - 1)
        } else {
            end
        }
    }
}

/// What stands before the component that begins at `start`: nothing where
/// the component opens the path, the root alone where only separators and
/// skipped segments come before it, and otherwise the path up to the end of
/// the component before.
pub open spec fn prefix_before(path: Seq<char>, start: int) -> Seq<char> {
    if start <= 0 {
        Seq::empty()
    } else {
        let end = last_component_end(path, start - 1);
        if end == 0 {
            path.subrange(0, 1)
        } else {
            path.subrange(0, end)
        }
    }
}

/// The path without its last component, where it has one. A path has none
/// when it is empty or ends in the root.
pub open spec fn parent(path: Seq<char>) -> Option<Seq<char>> {
    let end = last_component_end(path, path.len() as int);
    if end == 0 {
        None
    } else {
        Some(prefix_before(path, segment_start(path, end)))
    }
}

/// The last component of a path that has one.
pub open spec fn last_segment(path: Seq<char>) -> Seq<char> {
    let end = last_component_end(path, path.len() as int);
    path.subrange(segment_start(path, end), end)
}

/// `name` appended to `base` as one more segment: with a separator between
/// them unless `base` is empty or already ends in one.
pub open spec fn join(base: Seq<char>, name: Seq<char>) -> Seq<char> {
    if base.len() == 0 || base.last() == '/' {
        base + name
    } else {
        base + seq!['/'] + name
    }
}

/// Why a path is refused as a target.
pub enum Refusal {
    /// The path has no last component, and so no parent: it is empty or
    /// ends in the root.
    NoParent,
    /// The last component is `.` or `..`.
    DotSegment,
}

impl Refusal {
    /// The reason given to the caller.
    pub open spec fn reason(self) -> Seq<char> {
        match self {
            Refusal::NoParent => "Invalid path, cannot get parent"@,
            Refusal::DotSegment => "Invalid path, last path segment cannot be \".\" or \"..\""@,
        }
    }
}

/// The canonical form of a target path, or why the path is refused.
pub open spec fn resolution(path: Seq<char>) -> Result<Seq<char>, Refusal> {
    match parent(path) {
        None => Err(Refusal::NoParent),
        Some(base) => {
            let name = last_segment(path);
            if name == seq!['.'] || name == seq!['.', '.'] {
                Err(Refusal::DotSegment)
            } else {
                Ok(join(base, name))
            }
        },
    }
}

/// What `resolve` returns for a path: the canonical form, or
/// `InvalidTarget` with the reason of the refusal.
pub open spec fn resolved(path: Seq<char>) -> Result<Seq<char>, ErrorView> {
    match resolution(path) {
        Ok(target) => Ok(target),
        Err(refusal) => Err(ErrorView::InvalidTarget(refusal.reason())),
    }
}

/// The views of a result of `resolve`.
pub open spec fn resolved_view(outcome: Result<String, Error>) -> Result<Seq<char>, ErrorView> {
    match outcome {
        Ok(target) => Ok(target@),
        Err(error) => Err(error@),
    }
}

fn find_segment_start(path: &str, end: usize) -> (start: usize)
    requires
        end <= path@.len(),
    ensures
        start == segment_start(path@, end as int),
        start <= end,
        start > 0 ==> path@[start - 1] == '/',
{
    let mut start: usize = end;
    while start > 0 && path.get_char(start - 1) != '/'
        invariant
            start <= end <= path@.len(),
            segment_start(path@, end as int) == segment_start(path@, start as int),
        decreases start,
    {
        start = start - 1;
    }
    start
}

fn find_last_component_end(path: &str, limit: usize) -> (end: usize)
    requires
        limit <= path@.len(),
    ensures
        end == last_component_end(path@, limit as int),
        end <= limit,
{
    let mut end: usize = limit;
    while end > 0
        invariant
            end <= limit <= path@.len(),
            last_component_end(path@, limit as int) == last_component_end(path@, end as int),
        decreases end,
    {
        let start: usize = find_segment_start(path, end);
        let skipped = start == end || (start > 0 && end - start == 1 && path.get_char(start)
            == '.');
        if !skipped {
            return end;
        }
        end = start - 1;
    }
    end
}

/// Validates a target path and gives its canonical form.
///
/// The path is refused when it has no last component (it is empty, or ends
/// in the root) and when its last component is `.` or `..`. Otherwise the
/// result is the path's parent joined with its last component, so trailing
/// separators and trailing `.` segments are gone, and everything before the
/// last component stands as it was written.
pub fn resolve(path: &str) -> (outcome: Result<String, Error>)
    ensures
        resolved_view(outcome) == resolved(path@),
{
    let len: usize = path.unicode_len();
    let end: usize = find_last_component_end(path, len);
    if end == 0 {
        return Err(Error::InvalidTarget(String::from_str("Invalid path, cannot get parent")));
    }
    let start: usize = find_segment_start(path, end);
    let name = path.substring_char(start, end);
    let one_dot = end - start == 1 && path.get_char(start) == '.';
    let two_dots = end - start == 2 && path.get_char(start) == '.' && path.get_char(start + 1)
        == '.';
    proof {
        assert(name@.len() == end - start);
        if end - start >= 1 {
            assert(name@[0] == path@[start as int]);
            assert(seq!['.'][0] == '.');
            assert(seq!['.', '.'][0] == '.');
        }
        if end - start >= 2 {
            assert(name@[1] == path@[start + 1]);
            assert(seq!['.', '.'][1] == '.');
        }
        assert(one_dot <==> (name@ =~= seq!['.']));
        assert(two_dots <==> (name@ =~= seq!['.', '.']));
    }
    if one_dot || two_dots {
        return Err(
            Error::InvalidTarget(
                String::from_str("Invalid path, last path segment cannot be \".\" or \"..\""),
            ),
        );
    }
    if start == 0 {
        let target = String::from_str(name);
        proof {
            assert(join(Seq::empty(), name@) =~= name@);
        }
        return Ok(target);
    }
    let before: usize = find_last_component_end(path, start - 1);
    let base_end: usize = if before == 0 {
        1
    } else {
        before
    };
    let base = path.substring_char(0, base_end);
    let mut target = String::from_str(base);
    if path.get_char(base_end - 1) != '/' {
        proof {
            reveal_strlit("/");
            assert("/"@ =~= seq!['/']);
        }
        target.append("/");
    }
    target.append(name);
    proof {
        assert(base@.last() == path@[base_end - 1]);
    }
    Ok(target)
}

/// A segment begins within the path, just behind a separator or at the
/// start, and holds no separator.
proof fn lemma_segment_start_bounds(path: Seq<char>, end: int)
    requires
        0 <= end <= path.len(),
    ensures
        0 <= segment_start(path, end) <= end,
        segment_start(path, end) > 0 ==> path[segment_start(path, end) - 1] == '/',
        forall|i: int| segment_start(path, end) <= i < end ==> path[i] != '/',
    decreases end,
{
    if end > 0 && path[end - 1] != '/' {
        lemma_segment_start_bounds(path, end - 1);
    }
}

/// Where a stretch without separators begins just behind a separator or at
/// the start, the segment that ends with it begins there.
proof fn lemma_segment_start_is(path: Seq<char>, start: int, end: int)
    requires
        0 <= start <= end <= path.len(),
        start == 0 || path[start - 1] == '/',
        forall|i: int| start <= i < end ==> path[i] != '/',
    ensures
        segment_start(path, end) == start,
    decreases end - start,
{
    if start < end {
        lemma_segment_start_is(path, start, end - 1);
    }
}

/// Where the last component ends depends on nothing behind `end`.
proof fn lemma_last_component_end_agrees(path: Seq<char>, other: Seq<char>, end: int)
    requires
        0 <= end <= path.len(),
        end <= other.len(),
        forall|i: int| 0 <= i < end ==> path[i] == other[i],
    ensures
        last_component_end(path, end) == last_component_end(other, end),
    decreases end,
{
    if end > 0 {
        lemma_segment_start_bounds(path, end);
        let start = segment_start(path, end);
        lemma_segment_start_is(other, start, end);
        if is_skipped(path, start, end) {
            lemma_last_component_end_agrees(path, other, start - 1);
        }
    }
}

/// The last component ends within the path, on a character that is no
/// separator, and is itself a component.
proof fn lemma_last_component_is_component(path: Seq<char>, end: int)
    requires
        0 <= end <= path.len(),
    ensures
        0 <= last_component_end(path, end) <= end,
        last_component_end(path, end) > 0 ==> {
            let found = last_component_end(path, end);
            &&& !is_skipped(path, segment_start(path, found), found)
            &&& last_component_end(path, found) == found
            &&& path[found - 1] != '/'
        },
    decreases end,
{
    if end > 0 {
        lemma_segment_start_bounds(path, end);
        let start = segment_start(path, end);
        if is_skipped(path, start, end) {
            lemma_last_component_is_component(path, start - 1);
        }
    }
}

/// Where a stretch that is not empty holds no component, the path begins
/// with a separator: only the root stands there.
proof fn lemma_no_component_means_root(path: Seq<char>, end: int)
    requires
        0 < end <= path.len(),
        last_component_end(path, end) == 0,
    ensures
        path[0] == '/',
    decreases end,
{
    lemma_segment_start_bounds(path, end);
    let start = segment_start(path, end);
    if start - 1 > 0 {
        lemma_no_component_means_root(path, start - 1);
    }
}

/// The canonical form is canonical: resolving it again changes nothing.
/// So a removal of a path and a removal of its canonical form have the
/// same target.
pub proof fn law_canonical_form_is_stable(path: Seq<char>)
    requires
        resolution(path) is Ok,
    ensures
        resolution(resolution(path)->Ok_0) == resolution(path),
{
    let len = path.len() as int;
    let end = last_component_end(path, len);
    lemma_last_component_is_component(path, len);
    let start = segment_start(path, end);
    lemma_segment_start_bounds(path, end);
    let name = path.subrange(start, end);
    let base = prefix_before(path, start);
    let canonical = join(base, name);
    assert(resolution(path) == Ok::<Seq<char>, Refusal>(canonical));
    assert(name.len() > 0);
    assert(!(name =~= seq!['.']));
    assert(!(name =~= seq!['.', '.']));
    let total = canonical.len() as int;
    let begin = total - name.len();
    if start > 0 {
        let before = last_component_end(path, start - 1);
        lemma_last_component_is_component(path, start - 1);
        if before == 0 {
            if start - 1 > 0 {
                lemma_no_component_means_root(path, start - 1);
            }
            assert(base =~= seq!['/']);
            assert(base.last() == '/');
            assert(canonical =~= base + name);
            assert(last_component_end(canonical, 0) == 0);
        } else {
            assert(base.last() == path[before - 1]);
            assert(canonical =~= base + seq!['/'] + name);
            lemma_last_component_end_agrees(path, canonical, before);
            assert(last_component_end(canonical, before) == before);
        }
    } else {
        assert(canonical =~= name);
    }
    assert(forall|i: int| begin <= i < total ==> canonical[i] == name[i - begin]);
    lemma_segment_start_is(canonical, begin, total);
    assert(canonical.subrange(begin, total) =~= name);
    if name.len() == 1 && canonical[begin] == '.' {
        assert(name =~= seq!['.']);
    }
    assert(!is_skipped(canonical, begin, total));
    assert(last_component_end(canonical, total) == total);
    assert(prefix_before(canonical, begin) =~= base);
}

} // verus!
