//! The removal itself, as a state machine over the host's answers.
//!
//! A removal asks the host for one filesystem operation at a time and
//! decides from the answer what comes next. An entry is first made
//! removable, then inspected without following links. Whatever is not a
//! directory is unlinked; a symbolic link is therefore removed as a link,
//! whatever it points to. A directory is first removed as if it were empty;
//! only when that fails are its children listed, removed one after another
//! in the same way, and the directory removed again. The first failure ends
//! the removal.
//!
//! Directories that wait for their children stand on a work list on the
//! heap, so a tree of any depth is removed without nested calls.

use crate::error::Error;
use crate::error::ErrorView;
use crate::error::FailureKind;
use crate::error::IoFailure;
use crate::error::IoFailureView;
use crate::target;
use vstd::prelude::*;

verus! {

/// An operation on the filesystem that a removal asks its host to perform.
/// None of them follows a symbolic link.
#[derive(Clone, Copy, Debug, PartialEq, Eq, Structural)]
pub enum Operation {
    /// Look the entry up and say whether it is a directory, by the entry's
    /// own metadata: a symbolic link is never a directory.
    Stat,
    /// Clear whatever attribute of the entry would keep it from being
    /// removed. Where the platform has no such attribute, nothing is done.
    FixPermissions,
    /// Unlink an entry that is not a directory.
    RemoveFile,
    /// Remove a directory, which succeeds only if it is empty.
    RemoveDir,
    /// List the paths of the directory's direct children.
    ReadDir,
}

/// What a removal asks of its host: one operation on one path.
#[derive(Clone, Debug, PartialEq, Eq)]
pub struct Request {
    pub operation: Operation,
    pub path: String,
}

/// The mathematical value of a [`Request`].
pub struct RequestView {
    pub operation: Operation,
    pub path: Seq<char>,
}

impl View for Request {
    type V = RequestView;

    open spec fn view(&self) -> RequestView {
        RequestView { operation: self.operation, path: self.path@ }
    }
}

/// What the host answers to a request.
#[derive(Clone, Debug, PartialEq, Eq)]
pub enum Reply {
    /// To `Stat`: the entry exists, and is or is not a directory.
    Entry { is_dir: bool },
    /// To `FixPermissions`, `RemoveFile` and `RemoveDir`: it is done.
    Done,
    /// To `ReadDir`: the paths of the children, in the order of the listing.
    Children(Vec<String>),
    /// To any request: the operation failed.
    Failed(IoFailure),
}

/// The mathematical value of a [`Reply`].
pub enum ReplyView {
    Entry { is_dir: bool },
    Done,
    Children(Seq<Seq<char>>),
    Failed(IoFailureView),
}

/// The paths in a listing.
pub open spec fn paths_view(paths: Seq<String>) -> Seq<Seq<char>> {
    paths.map_values(|path: String| path@)
}

impl View for Reply {
    type V = ReplyView;

    open spec fn view(&self) -> ReplyView {
        match self {
            Reply::Entry { is_dir } => ReplyView::Entry { is_dir: *is_dir },
            Reply::Done => ReplyView::Done,
            Reply::Children(children) => ReplyView::Children(paths_view(children@)),
            Reply::Failed(failure) => ReplyView::Failed(failure@),
        }
    }
}

/// How far the removal of one entry has come: the operation whose answer
/// is awaited.
#[derive(Clone, Copy, Debug, PartialEq, Eq, Structural)]
pub enum Step {
    /// The entry is being made removable.
    Normalize,
    /// The entry is being looked up.
    Inspect,
    /// The entry, not a directory, is being unlinked.
    Unlink,
    /// The directory is being removed as if it were empty.
    TryRemoveDir,
    /// The directory's children are being listed.
    List,
    /// The directory, its children gone, is being removed.
    CloseDir,
}

/// Work that waits on the work list.
enum Task {
    /// Remove this entry and all beneath it.
    Visit(String),
    /// Remove this directory, whose children have been dealt with.
    Close(String),
}

/// The mathematical value of a waiting piece of work.
pub enum TaskView {
    /// Remove this entry and all beneath it.
    Visit(Seq<char>),
    /// Remove this directory, whose children have been dealt with.
    Close(Seq<char>),
}

impl View for Task {
    type V = TaskView;

    closed spec fn view(&self) -> TaskView {
        match self {
            Task::Visit(path) => TaskView::Visit(path@),
            Task::Close(path) => TaskView::Close(path@),
        }
    }
}

/// Where a removal stands.
enum Stage {
    Precheck { raw: String, resolved: Result<String, Error> },
    Probe(String),
    Entry { path: String, step: Step },
    Finished(Result<(), Error>),
}

/// Where a removal stands, as a mathematical value.
pub enum StageView {
    /// The path as the caller wrote it is being looked up, before anything
    /// else; `resolved` is what validating the path gave.
    Precheck { raw: Seq<char>, resolved: Result<Seq<char>, ErrorView> },
    /// The canonical target is being looked up.
    Probe(Seq<char>),
    /// The entry at `path` is being removed, and `step` is awaited.
    Entry { path: Seq<char>, step: Step },
    /// The removal is over, with this outcome.
    Finished(Result<(), ErrorView>),
}

/// The outcome of a removal as a mathematical value.
pub open spec fn outcome_view(outcome: Result<(), Error>) -> Result<(), ErrorView> {
    match outcome {
        Ok(_) => Ok(()),
        Err(error) => Err(error@),
    }
}

impl View for Stage {
    type V = StageView;

    closed spec fn view(&self) -> StageView {
        match self {
            Stage::Precheck { raw, resolved } => StageView::Precheck {
                raw: raw@,
                resolved: target::resolved_view(*resolved),
            },
            Stage::Probe(path) => StageView::Probe(path@),
            Stage::Entry { path, step } => StageView::Entry { path: path@, step: *step },
            Stage::Finished(outcome) => StageView::Finished(outcome_view(*outcome)),
        }
    }
}

/// A removal in progress.
pub struct Removal {
    stage: Stage,
    pending: Vec<Task>,
    lenient: bool,
}

/// The mathematical value of a [`Removal`].
pub struct RemovalView {
    /// Where the removal stands.
    pub stage: StageView,
    /// The work list; its last item is taken up next.
    pub pending: Seq<TaskView>,
    /// Whether an absent target counts as success.
    pub lenient: bool,
}

/// The work that a listing adds to the work list: one visit for each child,
/// the first child of the listing last, so that it is taken up first.
pub open spec fn visits(children: Seq<Seq<char>>) -> Seq<TaskView> {
    Seq::new(children.len(), |i: int| TaskView::Visit(children[children.len() - 1 - i]))
}

/// The removal that goes on with the last item of the work list, or ends
/// in success where the list is empty.
pub open spec fn resume(pending: Seq<TaskView>, lenient: bool) -> RemovalView {
    if pending.len() == 0 {
        RemovalView { stage: StageView::Finished(Ok(())), pending: Seq::empty(), lenient }
    } else {
        RemovalView {
            stage: match pending.last() {
                TaskView::Visit(path) => StageView::Entry { path, step: Step::Normalize },
                TaskView::Close(path) => StageView::Entry { path, step: Step::CloseDir },
            },
            pending: pending.drop_last(),
            lenient,
        }
    }
}

/// The removal that has ended with `outcome`, its work list dropped.
pub open spec fn finished(outcome: Result<(), ErrorView>, lenient: bool) -> RemovalView {
    RemovalView { stage: StageView::Finished(outcome), pending: Seq::empty(), lenient }
}

/// The removal that has ended on a failed operation.
pub open spec fn aborted(failure: IoFailureView, lenient: bool) -> RemovalView {
    finished(Err(ErrorView::IoError(failure)), lenient)
}

/// A strict removal of `path`, before its first request: it looks the
/// canonical target up, or has ended already where the path is refused.
pub open spec fn strict_start(path: Seq<char>) -> RemovalView {
    match target::resolved(path) {
        Ok(canonical) => RemovalView {
            stage: StageView::Probe(canonical),
            pending: Seq::empty(),
            lenient: false,
        },
        Err(error) => finished(Err(error), false),
    }
}

/// A lenient removal of `path`, before its first request: it looks up
/// the path as written.
pub open spec fn lenient_start(path: Seq<char>) -> RemovalView {
    RemovalView {
        stage: StageView::Precheck { raw: path, resolved: target::resolved(path) },
        pending: Seq::empty(),
        lenient: true,
    }
}

impl RemovalView {
    /// What the work list and the stage have to do with each other in every
    /// removal that the library hands out: work waits only while an entry is
    /// being removed, and only a lenient removal looks the raw path up
    /// first, holding what validating that path gives.
    pub open spec fn wf(self) -> bool {
        match self.stage {
            StageView::Precheck { raw, resolved } => {
                &&& self.pending.len() == 0
                &&& self.lenient
                &&& resolved == target::resolved(raw)
            },
            StageView::Probe(_) => self.pending.len() == 0,
            StageView::Entry { .. } => true,
            StageView::Finished(_) => self.pending.len() == 0,
        }
    }

    /// The operation whose answer the removal awaits; none once it is over.
    pub open spec fn request(self) -> Option<RequestView> {
        match self.stage {
            StageView::Precheck { raw, .. } => Some(
                RequestView { operation: Operation::Stat, path: raw },
            ),
            StageView::Probe(path) => Some(RequestView { operation: Operation::Stat, path }),
            StageView::Entry { path, step } => Some(
                RequestView {
                    operation: match step {
                        Step::Normalize => Operation::FixPermissions,
                        Step::Inspect => Operation::Stat,
                        Step::Unlink => Operation::RemoveFile,
                        Step::TryRemoveDir => Operation::RemoveDir,
                        Step::List => Operation::ReadDir,
                        Step::CloseDir => Operation::RemoveDir,
                    },
                    path,
                },
            ),
            StageView::Finished(_) => None,
        }
    }

    /// The outcome of the removal, once it is over.
    pub open spec fn outcome(self) -> Option<Result<(), ErrorView>> {
        match self.stage {
            StageView::Finished(outcome) => Some(outcome),
            _ => None,
        }
    }

    /// The removal after the host's first look at the path as written.
    /// An absent entry is success. Anything else, a failure to look
    /// included, leads to the strict course: the refusal of an invalid
    /// path, or a look at the canonical target.
    pub open spec fn after_precheck(
        self,
        resolved: Result<Seq<char>, ErrorView>,
        reply: ReplyView,
    ) -> RemovalView {
        let strict = match resolved {
            Ok(canonical) => RemovalView {
                stage: StageView::Probe(canonical),
                pending: Seq::empty(),
                lenient: self.lenient,
            },
            Err(error) => finished(Err(error), self.lenient),
        };
        match reply {
            ReplyView::Failed(failure) => if failure.kind == FailureKind::NotFound {
                finished(Ok(()), self.lenient)
            } else {
                strict
            },
            ReplyView::Entry { .. } => strict,
            _ => self,
        }
    }

    /// The removal after the host's look at the canonical target. An
    /// absent target ends a strict removal with `NotFound` and a lenient
    /// one with success; another failure to look ends either. A target
    /// that exists is removed.
    pub open spec fn after_probe(self, path: Seq<char>, reply: ReplyView) -> RemovalView {
        match reply {
            ReplyView::Entry { .. } => RemovalView {
                stage: StageView::Entry { path, step: Step::Normalize },
                pending: Seq::empty(),
                lenient: self.lenient,
            },
            ReplyView::Failed(failure) => if failure.kind == FailureKind::NotFound {
                if self.lenient {
                    finished(Ok(()), self.lenient)
                } else {
                    finished(Err(ErrorView::NotFound), self.lenient)
                }
            } else {
                aborted(failure, self.lenient)
            },
            _ => self,
        }
    }

    /// The removal with the entry at `path` taken one step further.
    pub open spec fn at(self, path: Seq<char>, step: Step) -> RemovalView {
        RemovalView { stage: StageView::Entry { path, step }, ..self }
    }

    /// The removal after the host's answer to `step` on the entry at `path`.
    pub open spec fn after_step(
        self,
        path: Seq<char>,
        step: Step,
        reply: ReplyView,
    ) -> RemovalView {
        match step {
            Step::Normalize => match reply {
                ReplyView::Done => self.at(path, Step::Inspect),
                ReplyView::Failed(failure) => aborted(failure, self.lenient),
                _ => self,
            },
            Step::Inspect => match reply {
                ReplyView::Entry { is_dir } => if is_dir {
                    self.at(path, Step::TryRemoveDir)
                } else {
                    self.at(path, Step::Unlink)
                },
                ReplyView::Failed(failure) => aborted(failure, self.lenient),
                _ => self,
            },
            Step::Unlink => match reply {
                ReplyView::Done => resume(self.pending, self.lenient),
                ReplyView::Failed(failure) => aborted(failure, self.lenient),
                _ => self,
            },
            Step::TryRemoveDir => match reply {
                ReplyView::Done => resume(self.pending, self.lenient),
                ReplyView::Failed(_) => self.at(path, Step::List),
                _ => self,
            },
            Step::List => match reply {
                ReplyView::Children(children) => resume(
                    self.pending.push(TaskView::Close(path)) + visits(children),
                    self.lenient,
                ),
                ReplyView::Failed(failure) => aborted(failure, self.lenient),
                _ => self,
            },
            Step::CloseDir => match reply {
                ReplyView::Done => resume(self.pending, self.lenient),
                ReplyView::Failed(failure) => aborted(failure, self.lenient),
                _ => self,
            },
        }
    }

    /// The removal after the host's answer to its request. An answer of a
    /// form that the request does not call for changes nothing, and neither
    /// does any answer once the removal is over.
    pub open spec fn advance(self, reply: ReplyView) -> RemovalView {
        match self.stage {
            StageView::Precheck { raw, resolved } => self.after_precheck(resolved, reply),
            StageView::Probe(path) => self.after_probe(path, reply),
            StageView::Entry { path, step } => self.after_step(path, step, reply),
            StageView::Finished(_) => self,
        }
    }
}

/// The work list as a mathematical value.
spec fn tasks_view(tasks: Seq<Task>) -> Seq<TaskView> {
    tasks.map_values(|task: Task| task@)
}

impl View for Removal {
    type V = RemovalView;

    closed spec fn view(&self) -> RemovalView {
        RemovalView {
            stage: self.stage@,
            pending: tasks_view(self.pending@),
            lenient: self.lenient,
        }
    }
}

impl Removal {
    /// A removal at `stage` with nothing on its work list.
    fn at_stage(stage: Stage, lenient: bool) -> (removal: Removal)
        ensures
            removal@ == (RemovalView { stage: stage@, pending: Seq::empty(), lenient }),
    {
        let removal = Removal { stage, pending: Vec::new(), lenient };
        proof {
            assert(tasks_view(removal.pending@) =~= Seq::empty());
        }
        removal
    }

    /// The strict course for a path that validation answered with
    /// `resolved`: a look at the canonical target, or the refusal.
    fn strict_course(resolved: Result<String, Error>, lenient: bool) -> (removal: Removal)
        ensures
            removal@ == (match target::resolved_view(resolved) {
                Ok(canonical) => RemovalView {
                    stage: StageView::Probe(canonical),
                    pending: Seq::empty(),
                    lenient,
                },
                Err(error) => finished(Err(error), lenient),
            }),
    {
        match resolved {
            Ok(canonical) => Removal::at_stage(Stage::Probe(canonical), lenient),
            Err(error) => Removal::at_stage(Stage::Finished(Err(error)), lenient),
        }
    }

    /// Whether the removal is over.
    pub fn is_finished(&self) -> (over: bool)
        ensures
            over == self@.outcome().is_some(),
            over == self@.request().is_none(),
    {
        match &self.stage {
            Stage::Finished(_) => true,
            _ => false,
        }
    }

    /// The operation that the host is to perform next, or `None` once the
    /// removal is over.
    pub fn request(&self) -> (request: Option<Request>)
        ensures
            request.is_some() == self@.request().is_some(),
            request matches Some(asked) ==> self@.request() == Some(asked@),
    {
        match &self.stage {
            Stage::Precheck { raw, .. } => Some(
                Request { operation: Operation::Stat, path: raw.clone() },
            ),
            Stage::Probe(path) => Some(Request { operation: Operation::Stat, path: path.clone() }),
            Stage::Entry { path, step } => {
                let operation = match step {
                    Step::Normalize => Operation::FixPermissions,
                    Step::Inspect => Operation::Stat,
                    Step::Unlink => Operation::RemoveFile,
                    Step::TryRemoveDir => Operation::RemoveDir,
                    Step::List => Operation::ReadDir,
                    Step::CloseDir => Operation::RemoveDir,
                };
                Some(Request { operation, path: path.clone() })
            },
            Stage::Finished(_) => None,
        }
    }

    /// The outcome of the removal, or `None` while it is not over.
    pub fn into_outcome(self) -> (outcome: Option<Result<(), Error>>)
        ensures
            outcome.is_some() == self@.outcome().is_some(),
            outcome matches Some(result) ==> self@.outcome() == Some(outcome_view(result)),
    {
        match self.stage {
            Stage::Finished(result) => Some(result),
            _ => None,
        }
    }

    /// Ends the removal with `outcome` and drops the work list.
    fn finish(&mut self, outcome: Result<(), Error>)
        ensures
            final(self)@ == finished(outcome_view(outcome), old(self)@.lenient),
    {
        self.stage = Stage::Finished(outcome);
        self.pending = Vec::new();
        proof {
            assert(tasks_view(self.pending@) =~= Seq::empty());
        }
    }

    /// Goes on with the entry at `path`, at `step`.
    fn proceed(&mut self, path: String, step: Step)
        ensures
            final(self)@ == old(self)@.at(path@, step),
    {
        self.stage = Stage::Entry { path, step };
    }

    /// Takes up the last item of the work list, or ends in success.
    fn take_next(&mut self)
        ensures
            final(self)@ == resume(old(self)@.pending, old(self)@.lenient),
    {
        let ghost before = self.pending@;
        match self.pending.pop() {
            None => {
                self.stage = Stage::Finished(Ok(()));
                proof {
                    assert(tasks_view(self.pending@) =~= Seq::empty());
                }
            },
            Some(task) => {
                proof {
                    assert(tasks_view(before).last() == task@);
                    assert(tasks_view(self.pending@) =~= tasks_view(before).drop_last());
                }
                match task {
                    Task::Visit(path) => {
                        self.stage = Stage::Entry { path, step: Step::Normalize };
                    },
                    Task::Close(path) => {
                        self.stage = Stage::Entry { path, step: Step::CloseDir };
                    },
                }
            },
        }
    }

    /// Puts a directory and its listed children on the work list.
    fn schedule(&mut self, path: String, children: Vec<String>)
        ensures
            final(self)@.pending == old(self)@.pending.push(TaskView::Close(path@)) + visits(
                paths_view(children@),
            ),
            final(self)@.stage == old(self)@.stage,
            final(self)@.lenient == old(self)@.lenient,
    {
        let ghost listed = paths_view(children@);
        let ghost base = self@.pending.push(TaskView::Close(path@));
        let mut rest = children;
        self.pending.push(Task::Close(path));
        proof {
            assert(tasks_view(self.pending@) =~= base + visits(listed).subrange(0, 0));
        }
        while rest.len() > 0
            invariant
                rest@.len() <= listed.len(),
                paths_view(rest@) =~= listed.subrange(0, rest@.len() as int),
                tasks_view(self.pending@) =~= base + visits(listed).subrange(
                    0,
                    listed.len() - rest@.len(),
                ),
                self.stage == old(self).stage,
                self.lenient == old(self).lenient,
            decreases rest@.len(),
        {
            let ghost before = self.pending@;
            let ghost remaining = rest@;
            match rest.pop() {
                None => {},
                Some(child) => {
                    proof {
                        assert(child@ == paths_view(remaining)[remaining.len() - 1]);
                        assert(paths_view(rest@) =~= paths_view(remaining).drop_last());
                    }
                    self.pending.push(Task::Visit(child));
                    proof {
                        assert(tasks_view(self.pending@) =~= tasks_view(before).push(
                            TaskView::Visit(child@),
                        ));
                    }
                },
            }
        }
        proof {
            assert(visits(listed).subrange(0, listed.len() as int) =~= visits(listed));
        }
    }

    /// Takes the host's answer to the request and moves on: to the next
    /// operation, or to the end of the removal. An answer of a form that the
    /// request does not call for is ignored.
    pub fn step(&mut self, reply: Reply)
        ensures
            final(self)@ == old(self)@.advance(reply@),
            old(self)@.wf() ==> final(self)@.wf(),
    {
        let mut stage = Stage::Finished(Ok(()));
        core::mem::swap(&mut self.stage, &mut stage);
        let lenient = self.lenient;
        match stage {
            Stage::Precheck { raw, resolved } => match reply {
                Reply::Failed(failure) => {
                    if failure.is_not_found() {
                        self.finish(Ok(()));
                    } else {
                        *self = Removal::strict_course(resolved, lenient);
                    }
                },
                Reply::Entry { .. } => {
                    *self = Removal::strict_course(resolved, lenient);
                },
                _ => {
                    self.stage = Stage::Precheck { raw, resolved };
                },
            },
            Stage::Probe(path) => match reply {
                Reply::Entry { .. } => {
                    let first = Stage::Entry { path, step: Step::Normalize };
                    *self = Removal::at_stage(first, lenient);
                },
                Reply::Failed(failure) => {
                    if !failure.is_not_found() {
                        self.finish(Err(Error::IoError(failure)));
                    } else if lenient {
                        self.finish(Ok(()));
                    } else {
                        self.finish(Err(Error::NotFound));
                    }
                },
                _ => {
                    self.stage = Stage::Probe(path);
                },
            },
            Stage::Entry { path, step } => match (step, reply) {
                (Step::Normalize, Reply::Done) => self.proceed(path, Step::Inspect),
                (Step::Inspect, Reply::Entry { is_dir: true }) => self.proceed(
                    path,
                    Step::TryRemoveDir,
                ),
                (Step::Inspect, Reply::Entry { is_dir: false }) => self.proceed(path, Step::Unlink),
                (Step::Unlink, Reply::Done) => self.take_next(),
                (Step::TryRemoveDir, Reply::Done) => self.take_next(),
                (Step::TryRemoveDir, Reply::Failed(_)) => self.proceed(path, Step::List),
                (Step::List, Reply::Children(children)) => {
                    self.schedule(path, children);
                    self.take_next();
                },
                (Step::CloseDir, Reply::Done) => self.take_next(),
                (_, Reply::Failed(failure)) => self.finish(Err(Error::IoError(failure))),
                (step, _) => self.proceed(path, step),
            },
            Stage::Finished(outcome) => {
                self.stage = Stage::Finished(outcome);
            },
        }
        proof {
            if old(self)@.wf() {
                lemma_advance_keeps_wf(old(self)@, reply@);
            }
        }
    }
}

/// Starts a strict removal of `path`: one that fails with `NotFound` where
/// the target does not exist.
///
/// The path is validated first. A path that is refused gives a removal that
/// is over already, with `InvalidTarget`; any other gives a removal whose
/// first request looks the canonical target up.
pub fn remove(path: &str) -> (removal: Removal)
    ensures
        removal@ == strict_start(path@),
        removal@.wf(),
{
    Removal::strict_course(target::resolve(path), false)
}

/// Starts a lenient removal of `path`: one that succeeds where the target
/// does not exist.
///
/// Its first request looks up the path as written, and an absent entry ends
/// the removal in success at once. Otherwise it takes the strict course,
/// with the one difference that a target found absent there is success too.
pub fn ensure_removed(path: &str) -> (removal: Removal)
    ensures
        removal@ == lenient_start(path@),
        removal@.wf(),
{
    let raw = path.to_owned();
    Removal::at_stage(Stage::Precheck { raw, resolved: target::resolve(path) }, true)
}

/// Every answer leaves a well-formed removal well-formed.
pub proof fn lemma_advance_keeps_wf(removal: RemovalView, reply: ReplyView)
    requires
        removal.wf(),
    ensures
        removal.advance(reply).wf(),
{
}

} // verus!
