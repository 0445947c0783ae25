//! What a removal does to a filesystem whose host answers truthfully.
//!
//! The library never touches a filesystem, so what it guarantees of one
//! is stated over a model: the entries that a filesystem holds, what a
//! truthful answer says of them, and what a performed operation does to
//! them. A host may fail any request; to be truthful, it only has to mean
//! what it says when it reports an entry, its absence, or a removal.

use crate::error::ErrorView;
use crate::laws::asks_to_remove;
use crate::laws::fits;
use crate::laws::has_in_hand;
use crate::laws::law_run_keeps_wf;
use crate::laws::law_run_succeeds_at_the_target;
use crate::laws::law_run_touches_only_target_and_listings;
use crate::laws::reports_absence;
use crate::laws::run;
use crate::laws::was_listed;
use crate::removal::lenient_start;
use crate::removal::strict_start;
use crate::removal::Operation;
use crate::removal::RemovalView;
use crate::removal::ReplyView;
use crate::removal::RequestView;
use crate::removal::StageView;
use crate::removal::Step;
use crate::target::resolved;
use vstd::prelude::*;

verus! {

/// The entries of a filesystem, as far as a removal can tell them apart:
/// each path that names an entry, with whether the entry is a directory by
/// its own metadata. A symbolic link is none, whatever it points to.
pub type Entries = Map<Seq<char>, bool>;

/// The answer is one that a truthful host may give to the request, the
/// filesystem holding `entries`. Such an answer fits the request. An entry
/// that it reports exists and is of the reported kind; an entry that it
/// reports absent does not exist; and what it reports removed was there to
/// be removed, as a file or as a directory.
pub open spec fn truthful(entries: Entries, request: RequestView, reply: ReplyView) -> bool {
    &&& fits(Some(request), reply)
    &&& reply matches ReplyView::Entry { is_dir } ==> entries.contains_key(request.path)
        && entries[request.path] == is_dir
    &&& reports_absence(reply) ==> !entries.contains_key(request.path)
    &&& reply is Done && request.operation == Operation::RemoveFile ==> entries.contains_key(
        request.path,
    ) && !entries[request.path]
    &&& reply is Done && request.operation == Operation::RemoveDir ==> entries.contains_key(
        request.path,
    ) && entries[request.path]
}

/// The entries after the host has answered the request: without the entry
/// that was removed, and otherwise as before.
pub open spec fn effect(
    entries: Entries,
    request: Option<RequestView>,
    reply: ReplyView,
) -> Entries {
    match request {
        Some(asked) => if reply is Done && (asked.operation == Operation::RemoveFile
            || asked.operation == Operation::RemoveDir) {
            entries.remove(asked.path)
        } else {
            entries
        },
        None => entries,
    }
}

/// The entries after a run that began with `entries`.
pub open spec fn entries_after(
    start: RemovalView,
    entries: Entries,
    replies: Seq<ReplyView>,
) -> Entries
    decreases replies.len(),
{
    if replies.len() == 0 {
        entries
    } else {
        effect(
            entries_after(start, entries, replies.drop_last()),
            run(start, replies.drop_last()).request(),
            replies.last(),
        )
    }
}

/// Every answer of the run is truthful of the entries at its time. What
/// is said to a removal that is over does not count.
pub open spec fn truthful_run(start: RemovalView, entries: Entries, replies: Seq<ReplyView>) -> bool
    decreases replies.len(),
{
    replies.len() > 0 ==> {
        &&& truthful_run(start, entries, replies.drop_last())
        &&& run(start, replies.drop_last()).request() matches Some(asked) ==> truthful(
            entries_after(start, entries, replies.drop_last()),
            asked,
            replies.last(),
        )
    }
}

/// A removal only removes: whatever the filesystem holds after a run, it
/// held before, unchanged.
pub proof fn law_nothing_is_added_or_changed(
    start: RemovalView,
    entries: Entries,
    replies: Seq<ReplyView>,
    path: Seq<char>,
)
    requires
        entries_after(start, entries, replies).contains_key(path),
    ensures
        entries.contains_key(path),
        entries_after(start, entries, replies)[path] == entries[path],
    decreases replies.len(),
{
    if replies.len() > 0 {
        law_nothing_is_added_or_changed(start, entries, replies.drop_last(), path);
    }
}

/// A removal removes nothing but its target and what the host listed:
/// an entry that is gone after a run is one that the removal had in hand
/// at its start, or one that a listing named.
pub proof fn law_only_target_and_listed_entries_are_removed(
    start: RemovalView,
    entries: Entries,
    replies: Seq<ReplyView>,
    path: Seq<char>,
)
    requires
        entries.contains_key(path),
        !entries_after(start, entries, replies).contains_key(path),
    ensures
        has_in_hand(start, path) || was_listed(replies, path),
    decreases replies.len(),
{
    if replies.len() > 0 {
        let earlier = replies.drop_last();
        if entries_after(start, entries, earlier).contains_key(path) {
            // this answer removed it, so the request before it named it
            assert(has_in_hand(run(start, earlier), path));
            law_run_touches_only_target_and_listings(start, earlier, path);
        } else {
            law_only_target_and_listed_entries_are_removed(start, entries, earlier, path);
        }
        if was_listed(earlier, path) {
            let i = choose|i: int|
                0 <= i < earlier.len() && (#[trigger] earlier[i] matches ReplyView::Children(
                    children,
                ) && children.contains(path));
            assert(replies[i] == earlier[i]);
        }
    }
}

/// After a strict removal that ended in success, the target is gone: the
/// answer that ended the run removed the canonical target.
pub proof fn law_success_leaves_no_target(
    path: Seq<char>,
    entries: Entries,
    replies: Seq<ReplyView>,
)
    requires
        resolved(path) is Ok,
        replies.len() > 0,
        run(strict_start(path), replies.drop_last()).outcome() is None,
        run(strict_start(path), replies).outcome() == Some(Ok::<(), ErrorView>(())),
    ensures
        !entries_after(strict_start(path), entries, replies).contains_key(resolved(path)->Ok_0),
{
    law_run_succeeds_at_the_target(strict_start(path), resolved(path)->Ok_0, replies);
}

/// After a lenient removal that ended in success under a truthful host,
/// what the host looked up last is gone: the canonical target, or the path
/// as written where the first look found nothing.
pub proof fn law_lenient_success_leaves_no_target(
    path: Seq<char>,
    entries: Entries,
    replies: Seq<ReplyView>,
)
    requires
        resolved(path) is Ok,
        truthful_run(lenient_start(path), entries, replies),
        replies.len() > 0,
        run(lenient_start(path), replies.drop_last()).outcome() is None,
        run(lenient_start(path), replies).outcome() == Some(Ok::<(), ErrorView>(())),
    ensures
        !entries_after(lenient_start(path), entries, replies).contains_key(resolved(path)->Ok_0)
            || !entries_after(lenient_start(path), entries, replies).contains_key(path),
{
    let start = lenient_start(path);
    let target = resolved(path)->Ok_0;
    let earlier = replies.drop_last();
    law_run_succeeds_at_the_target(start, target, replies);
    law_run_keeps_wf(start, earlier);
    let before = run(start, earlier);
    if !(asks_to_remove(before.request(), target) && replies.last() is Done) {
        // absence was reported, at the first look or at the canonical target
        lemma_lenient_looks(path, earlier);
    }
}

/// While a lenient removal looks an entry up before it removes anything,
/// it looks up the path as written or the canonical target.
proof fn lemma_lenient_looks(path: Seq<char>, replies: Seq<ReplyView>)
    requires
        resolved(path) is Ok,
    ensures
        match run(lenient_start(path), replies).stage {
            StageView::Precheck { raw, resolved: kept } => raw == path && kept == resolved(path),
            StageView::Probe(canonical) => canonical == resolved(path)->Ok_0,
            _ => true,
        },
    decreases replies.len(),
{
    if replies.len() > 0 {
        lemma_lenient_looks(path, replies.drop_last());
    }
}

/// The removal deals with the entry at `path` and nothing else: it looks
/// it up, makes it removable or unlinks it, and has no work waiting.
pub open spec fn handles_alone(removal: RemovalView, path: Seq<char>) -> bool {
    &&& removal.pending.len() == 0
    &&& match removal.stage {
        StageView::Precheck { .. } => false,
        StageView::Probe(canonical) => canonical == path,
        StageView::Entry { path: current, step } => current == path && (step == Step::Normalize
            || step == Step::Inspect || step == Step::Unlink),
        StageView::Finished(_) => true,
    }
}

/// A target that is no directory is removed alone, and as a file. Under
/// a truthful host a strict removal of such a target never asks for a
/// listing nor for the removal of a directory; every request names the
/// target itself. After a run the filesystem holds what it held before,
/// but for the target once it is unlinked; and a run that ended in success
/// has unlinked it. In particular a symbolic link is removed as a link:
/// what it points to, and all beneath that, stays.
pub proof fn law_non_directory_is_removed_alone(
    path: Seq<char>,
    entries: Entries,
    replies: Seq<ReplyView>,
)
    requires
        resolved(path) is Ok,
        entries.contains_key(resolved(path)->Ok_0),
        !entries[resolved(path)->Ok_0],
        truthful_run(strict_start(path), entries, replies),
    ensures
        handles_alone(run(strict_start(path), replies), resolved(path)->Ok_0),
        run(strict_start(path), replies).outcome() is None ==> entries_after(
            strict_start(path),
            entries,
            replies,
        ) == entries,
        run(strict_start(path), replies).outcome() == Some(Ok::<(), ErrorView>(()))
            ==> entries_after(strict_start(path), entries, replies) == entries.remove(
            resolved(path)->Ok_0,
        ),
        entries_after(strict_start(path), entries, replies) == entries || entries_after(
            strict_start(path),
            entries,
            replies,
        ) == entries.remove(resolved(path)->Ok_0),
    decreases replies.len(),
{
    if replies.len() > 0 {
        law_non_directory_is_removed_alone(path, entries, replies.drop_last());
    }
}

/// The answer to a look says either that the entry is there or that it is
/// not: the host was able to look.
pub open spec fn definite(reply: ReplyView) -> bool {
    reply is Entry || reports_absence(reply)
}

/// The removal after its first two answers.
proof fn lemma_run_of_two(start: RemovalView, first: ReplyView, second: ReplyView)
    ensures
        run(start, seq![first]) == start.advance(first),
        run(start, seq![first, second]) == start.advance(first).advance(second),
        seq![first, second].drop_last() == seq![first],
        seq![first].drop_last() == Seq::<ReplyView>::empty(),
{
    assert(seq![first, second].drop_last() =~= seq![first]);
    assert(seq![first].drop_last() =~= Seq::<ReplyView>::empty());
    reveal_with_fuel(run, 3);
}

/// Lenient removal is idempotent. Let a lenient removal have ended in
/// success under a truthful host, whether it found anything or not, and
/// let a second lenient removal of the same path follow on what the first
/// left. If the host, as truthful as before, is able to look, the second
/// removal ends in success, after the look at the path as written or
/// after the look at the canonical target.
pub proof fn law_lenient_removal_is_idempotent(
    path: Seq<char>,
    entries: Entries,
    first_run: Seq<ReplyView>,
    look: ReplyView,
    probe: ReplyView,
)
    requires
        resolved(path) is Ok,
        truthful_run(lenient_start(path), entries, first_run),
        first_run.len() > 0,
        run(lenient_start(path), first_run.drop_last()).outcome() is None,
        run(lenient_start(path), first_run).outcome() == Some(Ok::<(), ErrorView>(())),
        truthful_run(
            lenient_start(path),
            entries_after(lenient_start(path), entries, first_run),
            seq![look, probe],
        ),
        definite(look),
        definite(probe),
    ensures
        run(lenient_start(path), seq![look, probe]).outcome() == Some(Ok::<(), ErrorView>(())),
{
    let start = lenient_start(path);
    let left = entries_after(start, entries, first_run);
    law_lenient_success_leaves_no_target(path, entries, first_run);
    lemma_run_of_two(start, look, probe);
    assert(entries_after(start, left, seq![look]) == left) by {
        reveal_with_fuel(entries_after, 2);
    }
    assert(truthful_run(start, left, seq![look]));
    assert(truthful(left, start.request()->Some_0, look)) by {
        assert(run(start, Seq::<ReplyView>::empty()) == start);
    }
}

} // verus!
