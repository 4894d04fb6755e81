//! What passes between the engine and the caller that performs its accesses.

use vstd::prelude::*;

use crate::entry::EntryKind;
use crate::error::{outcome_view, Error, ErrorView, IoFailure};

verus! {

/// One filesystem access.
#[derive(Debug, Clone, Copy, PartialEq, Eq)]
pub enum Action {
    /// Read the entry's metadata without following a final symlink.
    Probe,
    /// Enumerate the directory's immediate children.
    List,
    /// Read the entry's current mode word.
    ReadMode,
    /// Write these permission bits to the entry.
    WriteMode(u32),
}

/// An access for the caller to perform, on behalf of an entry of the run.
#[derive(Debug, Clone, PartialEq, Eq)]
pub struct Job {
    /// The entry the access is made for; the answer names it again.
    pub node: usize,
    pub path: Vec<u8>,
    pub action: Action,
}

/// A child found in a directory.
#[derive(Debug, Clone, PartialEq, Eq)]
pub struct Child {
    pub path: Vec<u8>,
    pub kind: EntryKind,
}

/// The answer to an access.
#[derive(Debug, Clone, PartialEq, Eq)]
pub enum Reply {
    /// To `Probe`: what the entry is.
    Kind(EntryKind),
    /// To `List`: the directory's children.
    Children(Vec<Child>),
    /// To `ReadMode`: the entry's mode word, file type included.
    Mode(u32),
    /// To `WriteMode`: the bits were written.
    Written,
    /// To any access: it was refused.
    Failed(IoFailure),
    /// To an access that was not performed because it was no longer wanted.
    Skipped,
}

/// The answer to the access last issued for `node`.
#[derive(Debug, Clone, PartialEq, Eq)]
pub struct Event {
    pub node: usize,
    pub reply: Reply,
}

/// What the caller does next.
#[derive(Debug, PartialEq, Eq)]
pub enum Progress {
    /// Perform these accesses, in any order, and answer each. An empty list
    /// means that accesses issued earlier are still outstanding.
    Continue(Vec<Job>),
    /// The run is over.
    Finished(Result<(), Error>),
}

/// Mathematical value of a [`Job`].
pub struct JobView {
    pub node: usize,
    pub path: Seq<u8>,
    pub action: Action,
}

/// Mathematical value of a [`Child`].
pub struct ChildView {
    pub path: Seq<u8>,
    pub kind: EntryKind,
}

/// Mathematical value of a [`Reply`].
pub enum ReplyView {
    Kind(EntryKind),
    Children(Seq<ChildView>),
    Mode(u32),
    Written,
    Failed(IoFailure),
    Skipped,
}

/// Mathematical value of an [`Event`].
pub struct EventView {
    pub node: usize,
    pub reply: ReplyView,
}

/// Mathematical value of a [`Progress`].
pub enum ProgressView {
    Continue(Seq<JobView>),
    Finished(Result<(), ErrorView>),
}

impl View for Job {
    type V = JobView;

    open spec fn view(&self) -> JobView {
        JobView { node: self.node, path: self.path@, action: self.action }
    }
}

impl View for Child {
    type V = ChildView;

    open spec fn view(&self) -> ChildView {
        ChildView { path: self.path@, kind: self.kind }
    }
}

/// The children held by `children`, each as its value.
pub open spec fn children_view(children: Seq<Child>) -> Seq<ChildView> {
    Seq::new(children.len(), |i: int| children[i]@)
}

/// The jobs held by `jobs`, each as its value.
pub open spec fn jobs_view(jobs: Seq<Job>) -> Seq<JobView> {
    Seq::new(jobs.len(), |i: int| jobs[i]@)
}

impl View for Reply {
    type V = ReplyView;

    open spec fn view(&self) -> ReplyView {
        match *self {
            Reply::Kind(kind) => ReplyView::Kind(kind),
            Reply::Children(children) => ReplyView::Children(children_view(children@)),
            Reply::Mode(word) => ReplyView::Mode(word),
            Reply::Written => ReplyView::Written,
            Reply::Failed(failure) => ReplyView::Failed(failure),
            Reply::Skipped => ReplyView::Skipped,
        }
    }
}

impl View for Event {
    type V = EventView;

    open spec fn view(&self) -> EventView {
        EventView { node: self.node, reply: self.reply@ }
    }
}

impl View for Progress {
    type V = ProgressView;

    open spec fn view(&self) -> ProgressView {
        match *self {
            Progress::Continue(jobs) => ProgressView::Continue(jobs_view(jobs@)),
            Progress::Finished(outcome) => ProgressView::Finished(outcome_view(outcome)),
        }
    }
}

} // verus!
