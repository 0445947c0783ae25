//! A removal under a host that does its part.
//!
//! A host does its part when it performs each operation that the
//! filesystem allows: it finds what is there, unlinks what is no directory,
//! removes a directory that is empty, and lists a directory's entries, all
//! of them and each once. Under such a host a removal of a target that
//! exists never fails. The proof follows the work list: what waits on it
//! is always still there, each directory on it waits below all that is
//! left of its entries, and so a directory is empty when its turn comes.

use crate::error::ErrorView;
use crate::host::effect;
use crate::host::entries_after;
use crate::host::Entries;
use crate::laws::awaits;
use crate::laws::fits;
use crate::laws::has_in_hand;
use crate::laws::law_fitting_answer_makes_progress;
use crate::laws::load;
use crate::laws::remaining;
use crate::laws::run;
use crate::laws::task_path;
use crate::removal::lenient_start;
use crate::removal::resume;
use crate::removal::strict_start;
use crate::removal::visits;
use crate::removal::Operation;
use crate::removal::RemovalView;
use crate::removal::ReplyView;
use crate::removal::RequestView;
use crate::removal::StageView;
use crate::removal::Step;
use crate::removal::TaskView;
use crate::target::resolved;
use vstd::prelude::*;
use vstd::seq_lib::seq_to_set_is_finite;
use vstd::set_lib::lemma_len_subset;
use vstd::set_lib::lemma_set_difference_len;

verus! {

/// `child` names an entry of the directory at `dir`: it is `dir`, a
/// separator, and one more segment.
pub open spec fn is_child(child: Seq<char>, dir: Seq<char>) -> bool {
    &&& child.len() > dir.len() + 1
    &&& child.subrange(0, dir.len() as int) == dir
    &&& child[dir.len() as int] == '/'
    &&& forall|i: int| dir.len() < i < child.len() ==> child[i] != '/'
}

/// The directory at `dir` is not empty.
pub open spec fn has_children(entries: Entries, dir: Seq<char>) -> bool {
    exists|child: Seq<char>| entries.contains_key(child) && #[trigger] is_child(child, dir)
}

/// The listing names the entries of the directory at `dir`, all of them
/// and each once.
pub open spec fn lists_all(entries: Entries, dir: Seq<char>, children: Seq<Seq<char>>) -> bool {
    &&& children.no_duplicates()
    &&& forall|child: Seq<char>| #[trigger]
        children.contains(child) <==> entries.contains_key(child) && is_child(child, dir)
}

/// The host does its part in answering the request, the filesystem
/// holding `entries`: asked about an entry that is there, it finds it,
/// clears its attributes, unlinks it where it is no directory, removes it
/// where it is an empty directory and refuses where it is one with entries,
/// and lists all its entries where it is a directory.
pub open spec fn cooperative(entries: Entries, request: RequestView, reply: ReplyView) -> bool {
    entries.contains_key(request.path) ==> match request.operation {
        Operation::Stat => reply == (ReplyView::Entry { is_dir: entries[request.path] }),
        Operation::FixPermissions => reply is Done,
        Operation::RemoveFile => !entries[request.path] ==> reply is Done,
        Operation::RemoveDir => entries[request.path] ==> if has_children(entries, request.path) {
            reply is Failed
        } else {
            reply is Done
        },
        Operation::ReadDir => entries[request.path] ==> (reply matches ReplyView::Children(
            children,
        ) && lists_all(entries, request.path, children)),
    }
}

/// The host does its part in every answer of the run.
pub open spec fn cooperative_run(
    start: RemovalView,
    entries: Entries,
    replies: Seq<ReplyView>,
) -> bool
    decreases replies.len(),
{
    replies.len() > 0 ==> {
        &&& cooperative_run(start, entries, replies.drop_last())
        &&& run(start, replies.drop_last()).request() matches Some(asked) ==> cooperative(
            entries_after(start, entries, replies.drop_last()),
            asked,
            replies.last(),
        )
    }
}

/// The work list with the entry in hand on top of it, as the work it
/// stands for: the last removal of a directory, or a visit.
pub open spec fn stack(pending: Seq<TaskView>, path: Seq<char>, step: Step) -> Seq<TaskView> {
    pending.push(
        if step == Step::CloseDir {
            TaskView::Close(path)
        } else {
            TaskView::Visit(path)
        },
    )
}

/// The path stands on the stack above position `below`.
pub open spec fn stands_above(stack: Seq<TaskView>, below: int, path: Seq<char>) -> bool {
    exists|j: int| below < j < stack.len() && task_path(#[trigger] stack[j]) == path
}

/// The directory of the visit at position `at` waits below it.
pub open spec fn waits_below(stack: Seq<TaskView>, at: int) -> bool {
    exists|i: int|
        0 <= i < at && (#[trigger] stack[i]) is Close && is_child(
            task_path(stack[at]),
            task_path(stack[i]),
        )
}

/// The stack is in order with the filesystem. What stands on it is there,
/// each path once, and what waits to be removed as a directory is one.
/// Every entry that is left of such a directory stands above it; a visit
/// stands above the directory of its entry, unless it is the target alone;
/// and a directory's path is shorter than every path above it.
#[verifier::opaque]
pub open spec fn orderly(entries: Entries, stack: Seq<TaskView>) -> bool {
    &&& forall|i: int|
        0 <= i < stack.len() ==> entries.contains_key(task_path(#[trigger] stack[i])) && (stack[i]
            is Close ==> entries[task_path(stack[i])])
    &&& forall|i: int, j: int|
        0 <= i < j < stack.len() ==> task_path(#[trigger] stack[i]) != task_path(
            #[trigger] stack[j],
        )
    &&& forall|i: int, child: Seq<char>|
        0 <= i < stack.len() && (#[trigger] stack[i]) is Close && entries.contains_key(child)
            && #[trigger] is_child(child, task_path(stack[i])) ==> stands_above(stack, i, child)
    &&& forall|k: int|
        0 <= k < stack.len() && (#[trigger] stack[k]) is Visit ==> (k == 0 && stack.len() == 1)
            || waits_below(stack, k)
    &&& forall|i: int, k: int|
        0 <= i < k < stack.len() && (#[trigger] stack[i]) is Close ==> task_path(stack[i]).len()
            < task_path(#[trigger] stack[k]).len()
}

/// The removal is in order with the filesystem: before it has found its
/// target, the target is there; while it removes, its stack is in order
/// and the entry in hand is of the kind it is treated as; and when it is
/// over, it has succeeded.
pub open spec fn in_order(removal: RemovalView, entries: Entries) -> bool {
    match removal.stage {
        StageView::Precheck { .. } => false,
        StageView::Probe(target) => removal.pending.len() == 0 && entries.contains_key(target),
        StageView::Entry { path, step } => {
            &&& orderly(entries, stack(removal.pending, path, step))
            &&& step == Step::Unlink ==> !entries[path]
            &&& step == Step::TryRemoveDir || step == Step::List ==> entries[path]
        },
        StageView::Finished(outcome) => outcome == Ok::<(), ErrorView>(()),
    }
}

/// An entry lies in one directory only.
proof fn lemma_one_parent(child: Seq<char>, dir: Seq<char>, other: Seq<char>)
    requires
        is_child(child, dir),
        is_child(child, other),
    ensures
        dir == other,
{
    if dir.len() < other.len() {
        assert(child[other.len() as int] == '/');
    } else if other.len() < dir.len() {
        assert(child[dir.len() as int] == '/');
    } else {
        assert(dir =~= other);
    }
}

/// With its top removed from the filesystem and taken off, an orderly
/// stack is orderly.
proof fn lemma_pop(entries: Entries, stack: Seq<TaskView>)
    requires
        orderly(entries, stack),
        stack.len() > 0,
    ensures
        orderly(entries.remove(task_path(stack.last())), stack.drop_last()),
{
    reveal(orderly);
    let top = stack.len() - 1;
    let left = entries.remove(task_path(stack.last()));
    let rest = stack.drop_last();
    assert forall|i: int| 0 <= i < rest.len() implies left.contains_key(
        task_path(#[trigger] rest[i]),
    ) && (rest[i] is Close ==> left[task_path(rest[i])]) by {
        assert(rest[i] == stack[i]);
        assert(task_path(stack[i]) != task_path(stack[top]));
    }
    assert forall|i: int, j: int| 0 <= i < j < rest.len() implies task_path(#[trigger] rest[i])
        != task_path(#[trigger] rest[j]) by {
        assert(rest[i] == stack[i] && rest[j] == stack[j]);
    }
    assert forall|i: int, child: Seq<char>|
        0 <= i < rest.len() && (#[trigger] rest[i]) is Close && left.contains_key(child)
            && #[trigger] is_child(child, task_path(rest[i])) implies stands_above(
        rest,
        i,
        child,
    ) by {
        assert(rest[i] == stack[i]);
        assert(stands_above(stack, i, child));
        let j = choose|j: int| i < j < stack.len() && task_path(#[trigger] stack[j]) == child;
        assert(j != top);
        assert(rest[j] == stack[j]);
    }
    assert forall|k: int| 0 <= k < rest.len() && (#[trigger] rest[k]) is Visit implies (k == 0
        && rest.len() == 1) || waits_below(rest, k) by {
        assert(rest[k] == stack[k]);
        assert(waits_below(stack, k));
        let i = choose|i: int|
            0 <= i < k && (#[trigger] stack[i]) is Close && is_child(
                task_path(stack[k]),
                task_path(stack[i]),
            );
        assert(rest[i] == stack[i]);
    }
    assert forall|i: int, k: int|
        0 <= i < k < rest.len() && (#[trigger] rest[i]) is Close implies task_path(rest[i]).len()
            < task_path(#[trigger] rest[k]).len() by {
        assert(rest[i] == stack[i] && rest[k] == stack[k]);
    }
}

/// A directory on top of an orderly stack is empty.
proof fn lemma_top_is_empty(entries: Entries, stack: Seq<TaskView>)
    requires
        orderly(entries, stack),
        stack.len() > 0,
        stack.last() is Close,
    ensures
        !has_children(entries, task_path(stack.last())),
{
    reveal(orderly);
    let top = stack.len() - 1;
    if has_children(entries, task_path(stack.last())) {
        let child = choose|child: Seq<char>|
            entries.contains_key(child) && #[trigger] is_child(child, task_path(stack.last()));
        assert(stack[top] is Close);
        assert(stands_above(stack, top, child));
    }
}

/// With the directory in hand turned into one that waits, and its
/// listed entries put above it, an orderly stack is orderly.
proof fn lemma_expand(
    entries: Entries,
    pending: Seq<TaskView>,
    dir: Seq<char>,
    children: Seq<Seq<char>>,
)
    requires
        orderly(entries, pending.push(TaskView::Visit(dir))),
        entries[dir],
        lists_all(entries, dir, children),
    ensures
        orderly(entries, pending.push(TaskView::Close(dir)) + visits(children)),
{
    reveal(orderly);
    let old_stack = pending.push(TaskView::Visit(dir));
    let new_stack = pending.push(TaskView::Close(dir)) + visits(children);
    let n = pending.len() as int;
    let m = children.len() as int;
    assert(old_stack[n] == TaskView::Visit(dir));
    assert(new_stack[n] == TaskView::Close(dir));
    assert forall|i: int| 0 <= i < n implies #[trigger] new_stack[i] == old_stack[i] by {}
    assert forall|i: int| n < i < n + 1 + m implies #[trigger] new_stack[i] == TaskView::Visit(
        children[m - 1 - (i - n - 1)],
    ) && children.contains(children[m - 1 - (i - n - 1)]) && is_child(
        task_path(new_stack[i]),
        dir,
    ) && entries.contains_key(task_path(new_stack[i])) by {
        let at = m - 1 - (i - n - 1);
        assert(new_stack[i] == visits(children)[i - n - 1]);
        assert(visits(children)[i - n - 1] == TaskView::Visit(children[at]));
        assert(children[at] == children[at] && children.contains(children[at]));
    }
    assert forall|i: int|
        0 <= i < n implies !is_child(task_path(#[trigger] old_stack[i]), dir) by {
        if old_stack[i] is Close {
            assert(task_path(old_stack[i]).len() < task_path(old_stack[n]).len());
        } else {
            assert(waits_below(old_stack, i));
            let p = choose|p: int|
                0 <= p < i && (#[trigger] old_stack[p]) is Close && is_child(
                    task_path(old_stack[i]),
                    task_path(old_stack[p]),
                );
            assert(task_path(old_stack[p]) != task_path(old_stack[n]));
            if is_child(task_path(old_stack[i]), dir) {
                lemma_one_parent(task_path(old_stack[i]), dir, task_path(old_stack[p]));
            }
        }
    }
    assert forall|i: int| 0 <= i < new_stack.len() implies entries.contains_key(
        task_path(#[trigger] new_stack[i]),
    ) && (new_stack[i] is Close ==> entries[task_path(new_stack[i])]) by {
        if i < n {
            assert(new_stack[i] == old_stack[i]);
        } else if i == n {
            assert(entries.contains_key(task_path(old_stack[n])));
        }
    }
    assert forall|i: int, j: int| 0 <= i < j < new_stack.len() implies task_path(
        #[trigger] new_stack[i],
    ) != task_path(#[trigger] new_stack[j]) by {
        if j < n {
            assert(new_stack[i] == old_stack[i] && new_stack[j] == old_stack[j]);
        } else if j == n {
            assert(new_stack[i] == old_stack[i]);
            assert(task_path(old_stack[i]) != task_path(old_stack[n]));
        } else if i < n {
            assert(new_stack[i] == old_stack[i]);
            assert(!is_child(task_path(old_stack[i]), dir));
        } else if i == n {
        } else {
            assert(children[m - 1 - (i - n - 1)] != children[m - 1 - (j - n - 1)]);
        }
    }
    assert forall|i: int, child: Seq<char>|
        0 <= i < new_stack.len() && (#[trigger] new_stack[i]) is Close && entries.contains_key(
            child,
        ) && #[trigger] is_child(child, task_path(new_stack[i])) implies stands_above(
        new_stack,
        i,
        child,
    ) by {
        if i < n {
            assert(new_stack[i] == old_stack[i]);
            assert(stands_above(old_stack, i, child));
            let j = choose|j: int|
                i < j < old_stack.len() && task_path(#[trigger] old_stack[j]) == child;
            if j < n {
                assert(new_stack[j] == old_stack[j]);
            } else {
                assert(task_path(new_stack[n]) == child);
            }
        } else {
            assert(i == n);
            assert(children.contains(child));
            let at = choose|at: int| 0 <= at < m && children[at] == child;
            let j = n + 1 + (m - 1 - at);
            assert(task_path(new_stack[j]) == child);
        }
    }
    assert forall|k: int| 0 <= k < new_stack.len() && (#[trigger] new_stack[k]) is Visit implies (
    k == 0 && new_stack.len() == 1) || waits_below(new_stack, k) by {
        if k < n {
            assert(new_stack[k] == old_stack[k]);
            assert(waits_below(old_stack, k));
            let i = choose|i: int|
                0 <= i < k && (#[trigger] old_stack[i]) is Close && is_child(
                    task_path(old_stack[k]),
                    task_path(old_stack[i]),
                );
            assert(new_stack[i] == old_stack[i]);
        } else {
            assert(new_stack[n] is Close);
            assert(is_child(task_path(new_stack[k]), task_path(new_stack[n])));
        }
    }
    assert forall|i: int, k: int|
        0 <= i < k < new_stack.len() && (#[trigger] new_stack[i]) is Close implies task_path(
        new_stack[i],
    ).len() < task_path(#[trigger] new_stack[k]).len() by {
        if i < n {
            assert(new_stack[i] == old_stack[i]);
            assert(task_path(old_stack[i]).len() < task_path(old_stack[n]).len());
            if k < n {
                assert(new_stack[k] == old_stack[k]);
            }
        }
    }
}

/// What stands on top of an orderly stack is there, and is a directory
/// where it waits to be removed as one.
proof fn lemma_top_is_there(entries: Entries, stack: Seq<TaskView>)
    requires
        orderly(entries, stack),
        stack.len() > 0,
    ensures
        entries.contains_key(task_path(stack.last())),
        stack.last() is Close ==> entries[task_path(stack.last())],
{
    reveal(orderly);
    assert(entries.contains_key(task_path(stack[stack.len() - 1])));
}

/// A target that is there, alone on the stack, makes an orderly stack.
proof fn lemma_target_alone_is_orderly(entries: Entries, target: Seq<char>)
    requires
        entries.contains_key(target),
    ensures
        orderly(entries, seq![TaskView::Visit(target)]),
{
    reveal(orderly);
}

/// The removal that takes up the top of an orderly stack is in order.
proof fn lemma_resume_in_order(entries: Entries, stack: Seq<TaskView>, lenient: bool)
    requires
        orderly(entries, stack),
    ensures
        in_order(resume(stack, lenient), entries),
{
    if stack.len() > 0 {
        let next = resume(stack, lenient);
        match stack.last() {
            TaskView::Visit(path) => {
                assert(self::stack(next.pending, path, Step::Normalize) =~= stack);
            },
            TaskView::Close(path) => {
                assert(self::stack(next.pending, path, Step::CloseDir) =~= stack);
            },
        }
    }
}

/// An answer of a host that does its part leaves the removal in order
/// with what the filesystem then holds.
pub proof fn law_cooperative_answer_keeps_order(
    removal: RemovalView,
    entries: Entries,
    reply: ReplyView,
)
    requires
        in_order(removal, entries),
        removal.request() matches Some(asked) ==> cooperative(entries, asked, reply),
    ensures
        in_order(removal.advance(reply), effect(entries, removal.request(), reply)),
{
    match removal.stage {
        StageView::Probe(target) => {
            let next = removal.advance(reply);
            lemma_target_alone_is_orderly(entries, target);
            assert(self::stack(next.pending, target, Step::Normalize) =~= seq![
                TaskView::Visit(target),
            ]);
        },
        StageView::Entry { path, step } => {
            let full = stack(removal.pending, path, step);
            lemma_top_is_there(entries, full);
            assert(full.drop_last() =~= removal.pending);
            assert(stack(removal.pending, path, Step::Normalize) == stack(
                removal.pending,
                path,
                Step::Inspect,
            ));
            if step == Step::CloseDir {
                lemma_top_is_empty(entries, full);
            }
            if reply is Done && (step == Step::Unlink || step == Step::TryRemoveDir || step
                == Step::CloseDir) {
                lemma_pop(entries, full);
                lemma_resume_in_order(entries.remove(path), removal.pending, removal.lenient);
            }
            if step == Step::List {
                let children = reply->Children_0;
                lemma_expand(entries, removal.pending, path, children);
                lemma_resume_in_order(
                    entries,
                    removal.pending.push(TaskView::Close(path)) + visits(children),
                    removal.lenient,
                );
            }
        },
        _ => {},
    }
}

/// To a removal that is in order, a host that does its part gives
/// answers that fit, so each of them brings the removal nearer to its end.
pub proof fn law_cooperative_answer_fits(
    removal: RemovalView,
    entries: Entries,
    reply: ReplyView,
)
    requires
        in_order(removal, entries),
        removal.request() matches Some(asked) && cooperative(entries, asked, reply),
    ensures
        fits(removal.request(), reply),
{
    match removal.stage {
        StageView::Entry { path, step } => {
            let full = stack(removal.pending, path, step);
            lemma_top_is_there(entries, full);
        },
        _ => {},
    }
}

/// Under a host that does its part, a removal that is in order never
/// fails: at every point of every run it is still in order, so it is at
/// work or has ended in success.
pub proof fn law_cooperative_host_never_fails(
    start: RemovalView,
    entries: Entries,
    replies: Seq<ReplyView>,
)
    requires
        in_order(start, entries),
        cooperative_run(start, entries, replies),
    ensures
        in_order(run(start, replies), entries_after(start, entries, replies)),
        run(start, replies).outcome() matches Some(outcome) ==> outcome == Ok::<(), ErrorView>(
            (),
        ),
    decreases replies.len(),
{
    if replies.len() > 0 {
        let earlier = replies.drop_last();
        law_cooperative_host_never_fails(start, entries, earlier);
        law_cooperative_answer_keeps_order(
            run(start, earlier),
            entries_after(start, entries, earlier),
            replies.last(),
        );
    }
}

/// `path` names the entry at `target` or one beneath it: it is `target`,
/// or `target` and a separator with more behind them.
pub open spec fn reaches(path: Seq<char>, target: Seq<char>) -> bool {
    path == target || (path.len() > target.len() && path.subrange(0, target.len() as int)
        == target && path[target.len() as int] == '/')
}

/// Beneath the target the filesystem hangs together: every entry there
/// lies in a directory that is there too, at the target or beneath it.
pub open spec fn hangs_together(entries: Entries, target: Seq<char>) -> bool {
    forall|path: Seq<char>|
        #![trigger entries.contains_key(path)]
        entries.contains_key(path) && reaches(path, target) && path != target ==> exists|
            dir: Seq<char>,
        |
            #[trigger] is_child(path, dir) && reaches(dir, target) && entries.contains_key(dir)
                && entries[dir]
}

/// The stack belongs to the target: the target is at its bottom, and all
/// that stands on it is at the target or beneath it.
pub open spec fn rooted(stack: Seq<TaskView>, target: Seq<char>) -> bool {
    &&& stack.len() > 0 ==> task_path(stack[0]) == target
    &&& forall|i: int| 0 <= i < stack.len() ==> reaches(task_path(#[trigger] stack[i]), target)
}

/// The removal is at work on the target and on nothing else: all it has
/// in hand is at the target or beneath it, the target is what it removes
/// last, and once it is over the target is gone.
pub open spec fn at_work_on(removal: RemovalView, entries: Entries, target: Seq<char>) -> bool {
    &&& in_order(removal, entries)
    &&& hangs_together(entries, target)
    &&& match removal.stage {
        StageView::Precheck { .. } => false,
        StageView::Probe(canonical) => canonical == target,
        StageView::Entry { path, step } => rooted(stack(removal.pending, path, step), target),
        StageView::Finished(_) => !entries.contains_key(target),
    }
}

/// An entry of a directory at the target or beneath it is beneath the
/// target.
proof fn lemma_child_reaches(child: Seq<char>, dir: Seq<char>, target: Seq<char>)
    requires
        is_child(child, dir),
        reaches(dir, target),
    ensures
        reaches(child, target),
        child != target,
{
    assert(child.subrange(0, dir.len() as int) == dir);
    assert(child.subrange(0, target.len() as int) =~= dir.subrange(0, target.len() as int));
    if dir != target {
        let at = target.len() as int;
        assert(child[at] == child.subrange(0, dir.len() as int)[at]);
    }
}

/// Where the filesystem hangs together beneath a target that is gone,
/// nothing is left beneath it.
proof fn lemma_nothing_hangs_in_the_air(entries: Entries, target: Seq<char>, path: Seq<char>)
    requires
        hangs_together(entries, target),
        !entries.contains_key(target),
        reaches(path, target),
    ensures
        !entries.contains_key(path),
    decreases path.len(),
{
    if entries.contains_key(path) {
        let dir = choose|dir: Seq<char>|
            #[trigger] is_child(path, dir) && reaches(dir, target) && entries.contains_key(dir)
                && entries[dir];
        lemma_nothing_hangs_in_the_air(entries, target, dir);
    }
}

/// The filesystem still hangs together when an entry without entries of
/// its own is removed.
proof fn lemma_removal_keeps_together(entries: Entries, target: Seq<char>, gone: Seq<char>)
    requires
        hangs_together(entries, target),
        entries.contains_key(gone),
        !entries[gone] || !has_children(entries, gone),
    ensures
        hangs_together(entries.remove(gone), target),
{
    let left = entries.remove(gone);
    assert forall|path: Seq<char>|
        #![trigger left.contains_key(path)]
        left.contains_key(path) && reaches(path, target) && path != target implies exists|
        dir: Seq<char>,
    |
        #[trigger] is_child(path, dir) && reaches(dir, target) && left.contains_key(dir)
            && left[dir] by {
        assert(entries.contains_key(path));
        let dir = choose|dir: Seq<char>|
            #[trigger] is_child(path, dir) && reaches(dir, target) && entries.contains_key(dir)
                && entries[dir];
        assert(dir != gone);
        assert(is_child(path, dir) && left.contains_key(dir) && left[dir]);
    }
}

/// With the directory in hand turned into one that waits, and its
/// listed entries put above it, a stack that belongs to the target still
/// belongs to it.
proof fn lemma_expand_rooted(
    entries: Entries,
    pending: Seq<TaskView>,
    dir: Seq<char>,
    children: Seq<Seq<char>>,
    target: Seq<char>,
)
    requires
        rooted(pending.push(TaskView::Visit(dir)), target),
        lists_all(entries, dir, children),
    ensures
        rooted(pending.push(TaskView::Close(dir)) + visits(children), target),
{
    let old_stack = pending.push(TaskView::Visit(dir));
    let new_stack = pending.push(TaskView::Close(dir)) + visits(children);
    let n = pending.len() as int;
    let m = children.len() as int;
    assert(task_path(old_stack[n]) == dir);
    assert(reaches(dir, target));
    assert forall|i: int| 0 <= i < new_stack.len() implies reaches(
        task_path(#[trigger] new_stack[i]),
        target,
    ) by {
        if i < n {
            assert(new_stack[i] == old_stack[i]);
        } else if i > n {
            let at = m - 1 - (i - n - 1);
            assert(new_stack[i] == visits(children)[i - n - 1]);
            assert(children[at] == children[at] && children.contains(children[at]));
            lemma_child_reaches(children[at], dir, target);
        }
    }
    if n > 0 {
        assert(new_stack[0] == old_stack[0]);
    } else {
        assert(old_stack[0] == TaskView::Visit(dir));
    }
}

/// The removal that takes up the top of a stack that belongs to the
/// target has a stack that belongs to it.
proof fn lemma_resume_rooted(stack: Seq<TaskView>, target: Seq<char>, lenient: bool)
    requires
        rooted(stack, target),
        stack.len() > 0,
    ensures
        resume(stack, lenient).stage matches StageView::Entry { path, step } && rooted(
            self::stack(resume(stack, lenient).pending, path, step),
            target,
        ),
{
    let next = resume(stack, lenient);
    match stack.last() {
        TaskView::Visit(path) => {
            assert(self::stack(next.pending, path, Step::Normalize) =~= stack);
        },
        TaskView::Close(path) => {
            assert(self::stack(next.pending, path, Step::CloseDir) =~= stack);
        },
    }
}

/// With its top taken off, a stack that belongs to the target belongs to
/// it, and a stack of one item holds the target.
proof fn lemma_pop_rooted(stack: Seq<TaskView>, target: Seq<char>)
    requires
        rooted(stack, target),
        stack.len() > 0,
    ensures
        rooted(stack.drop_last(), target),
        stack.len() == 1 ==> task_path(stack.last()) == target,
        reaches(task_path(stack.last()), target),
{
    let rest = stack.drop_last();
    assert forall|i: int| 0 <= i < rest.len() implies reaches(
        task_path(#[trigger] rest[i]),
        target,
    ) by {
        assert(rest[i] == stack[i]);
    }
    if rest.len() > 0 {
        assert(rest[0] == stack[0]);
    }
    assert(reaches(task_path(stack[stack.len() - 1]), target));
}

/// An answer of a host that does its part leaves the removal at work on
/// its target, and removes nothing but what is at the target or beneath
/// it.
pub proof fn law_cooperative_answer_keeps_at_work(
    removal: RemovalView,
    entries: Entries,
    target: Seq<char>,
    reply: ReplyView,
)
    requires
        at_work_on(removal, entries, target),
        removal.request() matches Some(asked) ==> cooperative(entries, asked, reply),
    ensures
        at_work_on(removal.advance(reply), effect(entries, removal.request(), reply), target),
        effect(entries, removal.request(), reply) != entries ==> (removal.request() matches Some(
            asked,
        ) && reaches(asked.path, target) && effect(entries, removal.request(), reply)
            == entries.remove(asked.path)),
{
    law_cooperative_answer_keeps_order(removal, entries, reply);
    let next = removal.advance(reply);
    match removal.stage {
        StageView::Probe(canonical) => {
            assert(stack(next.pending, target, Step::Normalize) =~= seq![TaskView::Visit(target)]);
        },
        StageView::Entry { path, step } => {
            let full = stack(removal.pending, path, step);
            lemma_top_is_there(entries, full);
            lemma_pop_rooted(full, target);
            assert(full.drop_last() =~= removal.pending);
            assert(stack(removal.pending, path, Step::Normalize) == stack(
                removal.pending,
                path,
                Step::Inspect,
            ));
            if step == Step::CloseDir {
                lemma_top_is_empty(entries, full);
            }
            if reply is Done && (step == Step::Unlink || step == Step::TryRemoveDir || step
                == Step::CloseDir) {
                lemma_removal_keeps_together(entries, target, path);
                if removal.pending.len() > 0 {
                    lemma_resume_rooted(removal.pending, target, removal.lenient);
                }
            }
            if step == Step::List {
                let children = reply->Children_0;
                lemma_expand_rooted(entries, removal.pending, path, children, target);
                lemma_resume_rooted(
                    removal.pending.push(TaskView::Close(path)) + visits(children),
                    target,
                    removal.lenient,
                );
            }
        },
        _ => {},
    }
}

/// Both removals of a valid path are at work on the canonical target
/// where it exists in a filesystem that hangs together beneath it: the
/// strict one from its start, the lenient one as soon as its first look
/// has found something.
pub proof fn law_removals_start_at_work(path: Seq<char>, entries: Entries, found: ReplyView)
    requires
        resolved(path) is Ok,
        entries.contains_key(resolved(path)->Ok_0),
        hangs_together(entries, resolved(path)->Ok_0),
        found is Entry,
    ensures
        at_work_on(strict_start(path), entries, resolved(path)->Ok_0),
        at_work_on(lenient_start(path).advance(found), entries, resolved(path)->Ok_0),
{
}

/// Under a host that does its part, a removal removes its target and all
/// beneath it, and nothing else. Let the removal be at work on a target
/// that exists in a filesystem that hangs together beneath it. Then at
/// every point of every run the removal is at work on the target; what is
/// not at the target or beneath it is left as it was; and once the removal
/// is over, it has succeeded, and nothing is left at the target or beneath
/// it.
pub proof fn law_cooperative_removal_clears_the_target(
    start: RemovalView,
    entries: Entries,
    target: Seq<char>,
    replies: Seq<ReplyView>,
    other: Seq<char>,
)
    requires
        at_work_on(start, entries, target),
        cooperative_run(start, entries, replies),
    ensures
        at_work_on(run(start, replies), entries_after(start, entries, replies), target),
        !reaches(other, target) ==> (entries_after(start, entries, replies).contains_key(other)
            <==> entries.contains_key(other)),
        run(start, replies).outcome() is Some ==> {
            &&& run(start, replies).outcome() == Some(Ok::<(), ErrorView>(()))
            &&& reaches(other, target) ==> !entries_after(start, entries, replies).contains_key(
                other,
            )
        },
    decreases replies.len(),
{
    if replies.len() > 0 {
        let earlier = replies.drop_last();
        law_cooperative_removal_clears_the_target(start, entries, target, earlier, other);
        law_cooperative_answer_keeps_at_work(
            run(start, earlier),
            entries_after(start, entries, earlier),
            target,
            replies.last(),
        );
    }
    let after = entries_after(start, entries, replies);
    if run(start, replies).outcome() is Some && reaches(other, target) {
        lemma_nothing_hangs_in_the_air(after, target, other);
    }
}

/// The entries at the target or beneath it that the removal has not come
/// to yet: they are there, and the removal does not have them in hand.
pub open spec fn unseen(removal: RemovalView, entries: Entries, target: Seq<char>) -> Set<
    Seq<char>,
> {
    Set::new(
        |path: Seq<char>|
            entries.contains_key(path) && reaches(path, target) && !has_in_hand(removal, path),
    )
}

/// How many answers the removal can take at most before it is over: those
/// that its work in hand allows, and five for each entry that it has not
/// come to yet.
pub open spec fn work_left(removal: RemovalView, entries: Entries, target: Seq<char>) -> nat {
    remaining(removal) + 5 * unseen(removal, entries, target).len()
}

/// The removal that takes up the top of a stack has in hand what stood on
/// the stack.
proof fn lemma_in_hand_of_resume(stack: Seq<TaskView>, lenient: bool, path: Seq<char>)
    ensures
        has_in_hand(resume(stack, lenient), path) <==> awaits(stack, path),
{
    let next = resume(stack, lenient);
    if stack.len() > 0 {
        let top = stack.len() - 1;
        if awaits(stack, path) {
            let i = choose|i: int| 0 <= i < stack.len() && task_path(#[trigger] stack[i]) == path;
            if i < top {
                assert(next.pending[i] == stack[i]);
            }
        }
        if awaits(next.pending, path) {
            let i = choose|i: int|
                0 <= i < next.pending.len() && task_path(#[trigger] next.pending[i]) == path;
            assert(stack[i] == next.pending[i]);
        }
        if next.request() matches Some(asked) && asked.path == path {
            assert(task_path(stack[top]) == path);
        }
    }
}

/// On the stack grown by a listing stands what stood there before, the
/// directory that was listed, and what the listing names.
proof fn lemma_awaits_grown(
    pending: Seq<TaskView>,
    dir: Seq<char>,
    children: Seq<Seq<char>>,
    path: Seq<char>,
)
    ensures
        awaits(pending.push(TaskView::Close(dir)) + visits(children), path) <==> awaits(
            pending,
            path,
        ) || path == dir || children.contains(path),
{
    let grown = pending.push(TaskView::Close(dir)) + visits(children);
    let n = pending.len() as int;
    let m = children.len() as int;
    if awaits(grown, path) {
        let i = choose|i: int| 0 <= i < grown.len() && task_path(#[trigger] grown[i]) == path;
        if i < n {
            assert(pending[i] == grown[i]);
        } else if i > n {
            let at = m - 1 - (i - n - 1);
            assert(grown[i] == visits(children)[i - n - 1]);
            assert(children[at] == path);
        }
    }
    if awaits(pending, path) {
        let i = choose|i: int| 0 <= i < pending.len() && task_path(#[trigger] pending[i]) == path;
        assert(grown[i] == pending[i]);
    }
    if path == dir {
        assert(task_path(grown[n]) == path);
    }
    if children.contains(path) {
        let at = choose|at: int| 0 <= at < m && children[at] == path;
        let i = n + 1 + (m - 1 - at);
        assert(grown[i] == visits(children)[m - 1 - at]);
        assert(task_path(grown[i]) == path);
    }
}

/// What a listing names did not stand on the stack before.
proof fn lemma_listed_are_new(
    entries: Entries,
    pending: Seq<TaskView>,
    dir: Seq<char>,
    children: Seq<Seq<char>>,
    path: Seq<char>,
)
    requires
        orderly(entries, pending.push(TaskView::Close(dir)) + visits(children)),
        children.contains(path),
    ensures
        !awaits(pending, path),
        path != dir,
{
    reveal(orderly);
    let grown = pending.push(TaskView::Close(dir)) + visits(children);
    let n = pending.len() as int;
    let m = children.len() as int;
    let at = choose|at: int| 0 <= at < m && children[at] == path;
    let j = n + 1 + (m - 1 - at);
    assert(grown[j] == visits(children)[m - 1 - at]);
    assert(task_path(grown[j]) == path);
    assert(task_path(grown[n]) == dir);
    if awaits(pending, path) {
        let i = choose|i: int| 0 <= i < pending.len() && task_path(#[trigger] pending[i]) == path;
        assert(grown[i] == pending[i]);
        assert(task_path(grown[i]) != task_path(grown[j]));
    }
}

/// Each answer of a host that does its part uses up work: after it, the
/// removal can take fewer answers than before.
pub proof fn law_cooperative_answer_uses_up_work(
    removal: RemovalView,
    entries: Entries,
    target: Seq<char>,
    reply: ReplyView,
)
    requires
        at_work_on(removal, entries, target),
        entries.dom().finite(),
        removal.request() matches Some(asked) && cooperative(entries, asked, reply),
    ensures
        work_left(removal.advance(reply), effect(entries, removal.request(), reply), target)
            < work_left(removal, entries, target),
{
    law_cooperative_answer_fits(removal, entries, reply);
    law_fitting_answer_makes_progress(removal, reply);
    law_cooperative_answer_keeps_order(removal, entries, reply);
    let next = removal.advance(reply);
    let left = effect(entries, removal.request(), reply);
    let before = unseen(removal, entries, target);
    let after = unseen(next, left, target);
    assert(before.subset_of(entries.dom()));
    lemma_len_subset(before, entries.dom());
    match removal.stage {
        StageView::Probe(canonical) => {
            assert(after =~= before);
        },
        StageView::Entry { path, step } => {
            let full = stack(removal.pending, path, step);
            lemma_top_is_there(entries, full);
            lemma_pop_rooted(full, target);
            if step == Step::CloseDir {
                lemma_top_is_empty(entries, full);
            }
            if step == Step::List {
                let children = reply->Children_0;
                let grown = removal.pending.push(TaskView::Close(path)) + visits(children);
                let listed = children.to_set();
                lemma_expand(entries, removal.pending, path, children);
                assert forall|other: Seq<char>| #[trigger]
                    after.contains(other) == (before.contains(other) && !listed.contains(
                        other,
                    )) by {
                    lemma_in_hand_of_resume(grown, removal.lenient, other);
                    lemma_awaits_grown(removal.pending, path, children, other);
                }
                assert(after =~= before.difference(listed));
                assert forall|other: Seq<char>| listed.contains(other) implies before.contains(
                    other,
                ) by {
                    lemma_listed_are_new(entries, removal.pending, path, children, other);
                    lemma_child_reaches(other, path, target);
                }
                assert(before.intersect(listed) =~= listed);
                seq_to_set_is_finite(children);
                children.unique_seq_to_set();
                lemma_set_difference_len(before, listed);
            } else if left != entries {
                assert forall|other: Seq<char>| #[trigger]
                    after.contains(other) == before.contains(other) by {
                    lemma_in_hand_of_resume(removal.pending, removal.lenient, other);
                }
                assert(after =~= before);
            } else {
                assert(after =~= before);
            }
        },
        _ => {},
    }
}

/// Under a host that does its part, a removal ends. Let the removal be
/// at work on a target in a filesystem of finitely many entries. Then a
/// run in which every answer went to a removal still at work has no more
/// answers than the work that was left at the start: for a strict
/// removal at most six, and five for each entry beneath the target.
pub proof fn law_cooperative_removal_ends(
    start: RemovalView,
    entries: Entries,
    target: Seq<char>,
    replies: Seq<ReplyView>,
)
    requires
        at_work_on(start, entries, target),
        entries.dom().finite(),
        cooperative_run(start, entries, replies),
        replies.len() > 0 ==> run(start, replies.drop_last()).outcome() is None,
    ensures
        entries_after(start, entries, replies).dom().finite(),
        replies.len() + work_left(
            run(start, replies),
            entries_after(start, entries, replies),
            target,
        ) <= work_left(start, entries, target),
    decreases replies.len(),
{
    if replies.len() > 0 {
        let earlier = replies.drop_last();
        if earlier.len() > 0 && run(start, earlier.drop_last()).outcome() is Some {
            assert(run(start, earlier) == run(start, earlier.drop_last()));
        }
        law_cooperative_removal_ends(start, entries, target, earlier);
        law_cooperative_removal_clears_the_target(start, entries, target, earlier, target);
        law_cooperative_answer_uses_up_work(
            run(start, earlier),
            entries_after(start, entries, earlier),
            target,
            replies.last(),
        );
    }
}

/// The work that is left at the start of a strict removal: six answers,
/// and five for each entry beneath the target.
pub proof fn law_work_left_at_the_start(path: Seq<char>, entries: Entries, other: Seq<char>)
    requires
        resolved(path) is Ok,
    ensures
        work_left(strict_start(path), entries, resolved(path)->Ok_0) == 6 + 5 * unseen(
            strict_start(path),
            entries,
            resolved(path)->Ok_0,
        ).len(),
        unseen(strict_start(path), entries, resolved(path)->Ok_0).contains(other) <==> {
            &&& entries.contains_key(other)
            &&& reaches(other, resolved(path)->Ok_0)
            &&& other != resolved(path)->Ok_0
        },
{
    assert(load(Seq::<TaskView>::empty()) == 0);
}

} // verus!
