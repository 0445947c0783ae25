//! What holds of every removal, whatever the host answers.
//!
//! A host is anything that answers requests; nothing here assumes that it
//! answers truthfully. The laws speak of single answers and of whole runs,
//! a run being a removal fed a sequence of answers from its start.

use crate::error::ErrorView;
use crate::error::FailureKind;
use crate::removal::lenient_start;
use crate::removal::resume;
use crate::removal::strict_start;
use crate::removal::visits;
use crate::removal::Operation;
use crate::removal::RemovalView;
use crate::removal::ReplyView;
use crate::removal::RequestView;
use crate::removal::StageView;
use crate::removal::Step;
use crate::removal::TaskView;
use crate::target::resolved;
use vstd::prelude::*;

verus! {

/// The removal after the host has given `replies`, one after another.
pub open spec fn run(start: RemovalView, replies: Seq<ReplyView>) -> RemovalView
    decreases replies.len(),
{
    if replies.len() == 0 {
        start
    } else {
        run(start, replies.drop_last()).advance(replies.last())
    }
}

/// The answer reports that the entry does not exist.
pub open spec fn reports_absence(reply: ReplyView) -> bool {
    reply matches ReplyView::Failed(failure) && failure.kind == FailureKind::NotFound
}

/// The request asks for the removal of the entry at `path`, as a file or
/// as a directory.
pub open spec fn asks_to_remove(request: Option<RequestView>, path: Seq<char>) -> bool {
    request matches Some(asked) && asked.path == path && (asked.operation == Operation::RemoveFile
        || asked.operation == Operation::RemoveDir)
}

/// The request asks for a look at the entry at `path`.
pub open spec fn asks_to_stat(request: Option<RequestView>, path: Seq<char>) -> bool {
    request == Some(RequestView { operation: Operation::Stat, path })
}

/// A strict removal of a valid path first looks the canonical target up,
/// and where the host reports it absent, the removal fails with `NotFound`.
pub proof fn law_strict_removal_of_absent_target(path: Seq<char>, reply: ReplyView)
    requires
        resolved(path) is Ok,
        reports_absence(reply),
    ensures
        asks_to_stat(strict_start(path).request(), resolved(path)->Ok_0),
        strict_start(path).advance(reply).outcome() == Some(
            Err::<(), ErrorView>(ErrorView::NotFound),
        ),
{
}

/// A strict removal of a path that is refused is over before any request,
/// with `InvalidTarget` and the reason of the refusal.
pub proof fn law_strict_removal_of_invalid_target(path: Seq<char>)
    requires
        resolved(path) is Err,
    ensures
        strict_start(path).request() is None,
        strict_start(path).outcome() == Some(Err::<(), ErrorView>(resolved(path)->Err_0)),
        resolved(path)->Err_0 is InvalidTarget,
{
}

/// A lenient removal of any path first looks up the path as written, and
/// where the host reports it absent, the removal succeeds.
pub proof fn law_lenient_removal_of_absent_target(path: Seq<char>, reply: ReplyView)
    requires
        reports_absence(reply),
    ensures
        asks_to_stat(lenient_start(path).request(), path),
        lenient_start(path).advance(reply).outcome() == Some(Ok::<(), ErrorView>(())),
{
}

/// Every run keeps a well-formed removal well-formed, and keeps its mode.
pub proof fn law_run_keeps_wf(start: RemovalView, replies: Seq<ReplyView>)
    requires
        start.wf(),
    ensures
        run(start, replies).wf(),
        run(start, replies).lenient == start.lenient,
    decreases replies.len(),
{
    if replies.len() > 0 {
        law_run_keeps_wf(start, replies.drop_last());
    }
}

/// A removal that is over stays over, with the same outcome.
pub proof fn law_outcome_is_final(start: RemovalView, replies: Seq<ReplyView>)
    requires
        start.outcome() is Some,
    ensures
        run(start, replies) == start,
    decreases replies.len(),
{
    if replies.len() > 0 {
        law_outcome_is_final(start, replies.drop_last());
    }
}

/// A lenient removal never fails with `NotFound`: however the host answers
/// and at whatever point it reports the target absent, absence is success.
pub proof fn law_lenient_removal_never_not_found(path: Seq<char>, replies: Seq<ReplyView>)
    ensures
        run(lenient_start(path), replies).outcome() != Some(
            Err::<(), ErrorView>(ErrorView::NotFound),
        ),
    decreases replies.len(),
{
    if replies.len() > 0 {
        law_lenient_removal_never_not_found(path, replies.drop_last());
        law_run_keeps_wf(lenient_start(path), replies.drop_last());
    }
}

/// An entry that the host reports as no directory is unlinked: the next
/// request removes it as a file, and the work list stays as it was. This
/// holds of a symbolic link whatever it points to, since the host looks at
/// the entry itself.
pub proof fn law_non_directory_is_unlinked(removal: RemovalView, path: Seq<char>)
    requires
        removal.stage == (StageView::Entry { path, step: Step::Inspect }),
    ensures
        removal.advance(ReplyView::Entry { is_dir: false }).request() == Some(
            RequestView { operation: Operation::RemoveFile, path },
        ),
        removal.advance(ReplyView::Entry { is_dir: false }).pending == removal.pending,
{
}

/// A directory that the host removes at the first attempt is never
/// listed: the removal goes on with what waits on the work list, or ends
/// in success. So an empty directory is removed even where it cannot be
/// read.
pub proof fn law_empty_directory_is_not_listed(removal: RemovalView, path: Seq<char>)
    requires
        removal.stage == (StageView::Entry { path, step: Step::Inspect }),
    ensures
        removal.advance(ReplyView::Entry { is_dir: true }).request() == Some(
            RequestView { operation: Operation::RemoveDir, path },
        ),
        removal.advance(ReplyView::Entry { is_dir: true }).advance(ReplyView::Done) == resume(
            removal.pending,
            removal.lenient,
        ),
{
}

/// A listing is asked for only of an entry that the host reported as a
/// directory and then failed to remove as an empty one: the request before
/// a new `ReadDir` is a `RemoveDir` of the same path that failed, and the
/// request before a new `RemoveDir` of an entry not yet listed is a `Stat`
/// of the same path that found a directory.
pub proof fn law_listing_follows_a_directory(removal: RemovalView, reply: ReplyView)
    requires
        removal.advance(reply) != removal,
    ensures
        removal.advance(reply).stage matches StageView::Entry { path, step: Step::List } ==> {
            &&& removal.stage == (StageView::Entry { path, step: Step::TryRemoveDir })
            &&& reply is Failed
        },
        removal.advance(reply).stage matches StageView::Entry { path, step: Step::TryRemoveDir }
            ==> {
            &&& removal.stage == (StageView::Entry { path, step: Step::Inspect })
            &&& reply == (ReplyView::Entry { is_dir: true })
        },
{
}

/// The target `path` is what the removal will remove last: it is the entry
/// in hand while nothing waits, and else the directory at the bottom of
/// the work list.
pub open spec fn removes_last(removal: RemovalView, path: Seq<char>) -> bool {
    match removal.stage {
        StageView::Precheck { resolved, .. } => resolved matches Ok(canonical) ==> canonical
            == path,
        StageView::Probe(canonical) => canonical == path,
        StageView::Entry { path: current, .. } => if removal.pending.len() == 0 {
            current == path
        } else {
            removal.pending[0] == TaskView::Close(path)
        },
        StageView::Finished(_) => true,
    }
}

/// Whatever the host answers, the target stays what the removal removes
/// last.
pub proof fn law_target_stays_last(removal: RemovalView, path: Seq<char>, reply: ReplyView)
    requires
        removal.wf(),
        removes_last(removal, path),
    ensures
        removes_last(removal.advance(reply), path),
{
    match (removal.stage, reply) {
        (
            StageView::Entry { path: current, step: Step::List },
            ReplyView::Children(children),
        ) => {
            let grown = removal.pending.push(TaskView::Close(current)) + visits(children);
            assert(grown[0] == TaskView::Close(path));
            if grown.len() > 1 {
                assert(grown.drop_last()[0] == grown[0]);
            }
        },
        (StageView::Entry { .. }, ReplyView::Done) => {
            if removal.pending.len() > 1 {
                assert(removal.pending.drop_last()[0] == removal.pending[0]);
            }
        },
        _ => {},
    }
}

/// The request asks for a look at some entry.
pub open spec fn asks_to_look(request: Option<RequestView>) -> bool {
    request matches Some(asked) && asked.operation == Operation::Stat
}

/// The answer that ends a removal in success, given the request it answers:
/// `Done` to a request to remove the target itself, or, in a lenient
/// removal, the report that what was looked up does not exist.
pub open spec fn confirms_removal(
    request: Option<RequestView>,
    reply: ReplyView,
    path: Seq<char>,
    lenient: bool,
) -> bool {
    ||| asks_to_remove(request, path) && reply is Done
    ||| lenient && asks_to_look(request) && reports_absence(reply)
}

/// A removal succeeds only on the host's word that the target is gone: the
/// answer that ends it in success confirms the removal of the target
/// itself, which comes after everything beneath it, or reports absence to
/// a lenient removal.
pub proof fn law_success_ends_at_the_target(
    removal: RemovalView,
    path: Seq<char>,
    reply: ReplyView,
)
    requires
        removal.wf(),
        removes_last(removal, path),
        removal.outcome() is None,
        removal.advance(reply).outcome() == Some(Ok::<(), ErrorView>(())),
    ensures
        confirms_removal(removal.request(), reply, path, removal.lenient),
{
}

/// Both removals of a valid path start out with the canonical target as
/// what they remove last.
pub proof fn law_target_is_last_at_the_start(path: Seq<char>)
    requires
        resolved(path) is Ok,
    ensures
        strict_start(path).wf(),
        lenient_start(path).wf(),
        removes_last(strict_start(path), resolved(path)->Ok_0),
        removes_last(lenient_start(path), resolved(path)->Ok_0),
{
}

/// Throughout every run, the target stays what is removed last.
pub proof fn law_run_keeps_target_last(
    start: RemovalView,
    path: Seq<char>,
    replies: Seq<ReplyView>,
)
    requires
        start.wf(),
        removes_last(start, path),
    ensures
        run(start, replies).wf(),
        removes_last(run(start, replies), path),
    decreases replies.len(),
{
    if replies.len() > 0 {
        law_run_keeps_target_last(start, path, replies.drop_last());
        law_target_stays_last(run(start, replies.drop_last()), path, replies.last());
    }
}

/// In every run, the answer that ends the removal in success confirms the
/// removal of the target itself, or reports absence to a lenient removal.
pub proof fn law_run_succeeds_at_the_target(
    start: RemovalView,
    path: Seq<char>,
    replies: Seq<ReplyView>,
)
    requires
        start.wf(),
        removes_last(start, path),
        replies.len() > 0,
        run(start, replies.drop_last()).outcome() is None,
        run(start, replies).outcome() == Some(Ok::<(), ErrorView>(())),
    ensures
        confirms_removal(
            run(start, replies.drop_last()).request(),
            replies.last(),
            path,
            start.lenient,
        ),
{
    let before = run(start, replies.drop_last());
    law_run_keeps_target_last(start, path, replies.drop_last());
    law_run_keeps_wf(start, replies.drop_last());
    law_success_ends_at_the_target(before, path, replies.last());
}

/// The path that a piece of waiting work is about.
pub open spec fn task_path(task: TaskView) -> Seq<char> {
    match task {
        TaskView::Visit(path) => path,
        TaskView::Close(path) => path,
    }
}

/// The path waits on the work list.
pub open spec fn awaits(pending: Seq<TaskView>, path: Seq<char>) -> bool {
    exists|i: int| 0 <= i < pending.len() && task_path(#[trigger] pending[i]) == path
}

/// The removal has `path` in hand: it is about to ask for it, or keeps it
/// for later as the canonical target or on its work list.
pub open spec fn has_in_hand(removal: RemovalView, path: Seq<char>) -> bool {
    ||| (removal.request() matches Some(asked) && asked.path == path)
    ||| (removal.stage matches StageView::Precheck { resolved: Ok(canonical), .. } && canonical
        == path)
    ||| awaits(removal.pending, path)
}

/// The answer is a listing that names `path`, given to a request for one.
pub open spec fn lists(request: Option<RequestView>, reply: ReplyView, path: Seq<char>) -> bool {
    &&& request matches Some(asked)
    &&& asked.operation == Operation::ReadDir
    &&& reply matches ReplyView::Children(children)
    &&& children.contains(path)
}

/// A removal takes a path in hand only when the host lists it: whatever it
/// has in hand after an answer, it had in hand before, or the answer was a
/// listing, asked for, that names it.
pub proof fn law_paths_come_from_listings(
    removal: RemovalView,
    reply: ReplyView,
    path: Seq<char>,
)
    requires
        has_in_hand(removal.advance(reply), path),
    ensures
        has_in_hand(removal, path) || lists(removal.request(), reply, path),
{
    let next = removal.advance(reply);
    if next != removal {
        match removal.stage {
            StageView::Entry { path: current, step } => {
                let grown = if step == Step::List && reply is Children {
                    removal.pending.push(TaskView::Close(current)) + visits(reply->Children_0)
                } else {
                    removal.pending
                };
                if next.stage is Entry && next.pending != removal.pending {
                    // work was taken from the list, grown by a listing or not
                    assert(next.pending == grown.drop_last());
                    let from: int = if awaits(next.pending, path) {
                        choose|i: int|
                            0 <= i < next.pending.len() && task_path(#[trigger] next.pending[i])
                                == path
                    } else {
                        grown.len() - 1
                    };
                    assert(task_path(grown[from]) == path);
                    if from < removal.pending.len() {
                        assert(removal.pending[from] == grown[from]);
                    } else if from > removal.pending.len() {
                        let children = reply->Children_0;
                        let at = children.len() - 1 - (from - removal.pending.len() - 1);
                        assert(grown[from] == TaskView::Visit(children[at]));
                        assert(children.contains(children[at]));
                    }
                }
            },
            _ => {},
        }
    }
}

/// One of the answers is a listing that names `path`.
pub open spec fn was_listed(replies: Seq<ReplyView>, path: Seq<char>) -> bool {
    exists|i: int|
        0 <= i < replies.len() && (#[trigger] replies[i] matches ReplyView::Children(children)
            && children.contains(path))
}

/// Throughout every run, a removal has in hand only what it started with
/// and what the host listed. So every request of a strict removal names
/// the canonical target or a path out of a listing, and no other entry of
/// the filesystem is ever touched.
pub proof fn law_run_touches_only_target_and_listings(
    start: RemovalView,
    replies: Seq<ReplyView>,
    path: Seq<char>,
)
    requires
        has_in_hand(run(start, replies), path),
    ensures
        has_in_hand(start, path) || was_listed(replies, path),
    decreases replies.len(),
{
    if replies.len() > 0 {
        let earlier = replies.drop_last();
        let before = run(start, earlier);
        law_paths_come_from_listings(before, replies.last(), path);
        if has_in_hand(before, path) {
            law_run_touches_only_target_and_listings(start, earlier, path);
            if was_listed(earlier, path) {
                let i = choose|i: int|
                    0 <= i < earlier.len() && (#[trigger] earlier[i] matches ReplyView::Children(
                        children,
                    ) && children.contains(path));
                assert(replies[i] == earlier[i]);
            }
        } else {
            assert(replies[replies.len() - 1] == replies.last());
        }
    }
}

/// At its start, a strict removal has nothing in hand but the canonical
/// target, and a lenient one nothing but the path as written and the
/// canonical target.
pub proof fn law_start_has_only_the_target_in_hand(path: Seq<char>, other: Seq<char>)
    ensures
        has_in_hand(strict_start(path), other) ==> resolved(path) == Ok::<
            Seq<char>,
            ErrorView,
        >(other),
        has_in_hand(lenient_start(path), other) ==> other == path || resolved(path) == Ok::<
            Seq<char>,
            ErrorView,
        >(other),
{
}

/// The answer has a form that the request calls for: an entry to a look,
/// a listing to a request for one, `Done` to the other operations, or a
/// failure to any of them.
pub open spec fn fits(request: Option<RequestView>, reply: ReplyView) -> bool {
    match request {
        None => false,
        Some(asked) => reply is Failed || match asked.operation {
            Operation::Stat => reply is Entry,
            Operation::ReadDir => reply is Children,
            _ => reply is Done,
        },
    }
}

/// An answer that does not fit the request changes nothing.
pub proof fn law_unfitting_answer_is_ignored(removal: RemovalView, reply: ReplyView)
    requires
        !fits(removal.request(), reply),
    ensures
        removal.advance(reply) == removal,
{
}

/// How many answers a piece of waiting work can take up at most, not
/// counting what a listing may add: five for an entry, one for a directory
/// whose children are gone.
pub open spec fn task_cost(task: TaskView) -> nat {
    match task {
        TaskView::Visit(_) => 5,
        TaskView::Close(_) => 1,
    }
}

/// The cost of everything on the work list.
pub open spec fn load(pending: Seq<TaskView>) -> nat
    decreases pending.len(),
{
    if pending.len() == 0 {
        0
    } else {
        load(pending.drop_last()) + task_cost(pending.last())
    }
}

/// How many fitting answers the removal can take at most before it is
/// over, unless a listing adds to its work.
pub open spec fn remaining(removal: RemovalView) -> nat {
    load(removal.pending) + match removal.stage {
        StageView::Precheck { .. } => 7nat,
        StageView::Probe(_) => 6,
        StageView::Entry { step, .. } => match step {
            Step::Normalize => 5,
            Step::Inspect => 4,
            Step::TryRemoveDir => 3,
            Step::List => 2,
            Step::Unlink => 1,
            Step::CloseDir => 1,
        },
        StageView::Finished(_) => 0,
    }
}

/// How many entries the answer lists.
pub open spec fn listed_count(reply: ReplyView) -> nat {
    match reply {
        ReplyView::Children(children) => children.len(),
        _ => 0,
    }
}

/// The visits to the first `count` entries of the work that a listing
/// adds cost five each.
proof fn lemma_load_of_visits(pending: Seq<TaskView>, children: Seq<Seq<char>>, count: int)
    requires
        0 <= count <= children.len(),
    ensures
        load(pending + visits(children).subrange(0, count)) == load(pending) + 5 * count,
    decreases count,
{
    let added = visits(children).subrange(0, count);
    if count == 0 {
        assert(pending + added =~= pending);
    } else {
        lemma_load_of_visits(pending, children, count - 1);
        assert((pending + added).drop_last() =~= pending + visits(children).subrange(
            0,
            count - 1,
        ));
        assert((pending + added).last() == visits(children)[count - 1]);
    }
}

/// Every fitting answer brings the removal nearer to its end, but for the
/// work that a listing adds, which is five answers for each entry listed.
pub proof fn law_fitting_answer_makes_progress(removal: RemovalView, reply: ReplyView)
    requires
        fits(removal.request(), reply),
    ensures
        remaining(removal.advance(reply)) < remaining(removal) + 5 * listed_count(reply),
{
    assert(load(Seq::<TaskView>::empty()) == 0);
    match (removal.stage, reply) {
        (StageView::Entry { path, step: Step::List }, ReplyView::Children(children)) => {
            let closing = removal.pending.push(TaskView::Close(path));
            assert(closing.drop_last() =~= removal.pending);
            lemma_load_of_visits(closing, children, children.len() as int);
            assert(visits(children).subrange(0, children.len() as int) =~= visits(children));
        },
        _ => {},
    }
}

/// How many of the answers of a run fitted the request they were given to.
pub open spec fn fitting_answers(start: RemovalView, replies: Seq<ReplyView>) -> nat
    decreases replies.len(),
{
    if replies.len() == 0 {
        0
    } else {
        fitting_answers(start, replies.drop_last()) + if fits(
            run(start, replies.drop_last()).request(),
            replies.last(),
        ) {
            1nat
        } else {
            0
        }
    }
}

/// How many entries the answers of a run list, all listings together.
pub open spec fn entries_listed(replies: Seq<ReplyView>) -> nat
    decreases replies.len(),
{
    if replies.len() == 0 {
        0
    } else {
        entries_listed(replies.drop_last()) + listed_count(replies.last())
    }
}

/// A removal runs to its end: the fitting answers that a run has taken,
/// and those that it can still take, are together no more than the start
/// allowed, with five more for each entry that the host has listed. A
/// strict or lenient removal is therefore over after at most seven fitting
/// answers and five for each listed entry.
pub proof fn law_run_is_bounded(start: RemovalView, replies: Seq<ReplyView>)
    ensures
        fitting_answers(start, replies) + remaining(run(start, replies)) <= remaining(start) + 5
            * entries_listed(replies),
    decreases replies.len(),
{
    if replies.len() > 0 {
        let before = run(start, replies.drop_last());
        law_run_is_bounded(start, replies.drop_last());
        if fits(before.request(), replies.last()) {
            law_fitting_answer_makes_progress(before, replies.last());
        } else {
            law_unfitting_answer_is_ignored(before, replies.last());
        }
    }
}

/// A removal at its start can take at most seven fitting answers, unless
/// a listing adds to its work.
pub proof fn law_start_is_bounded(path: Seq<char>)
    ensures
        remaining(strict_start(path)) <= 6,
        remaining(lenient_start(path)) == 7,
{
    assert(load(Seq::<TaskView>::empty()) == 0);
}

} // verus!
