//! Classification of the entries a run meets.

use vstd::prelude::*;

use crate::error::{Context, ContextView, Error, ErrorView, IoFailure, IoKind, Operation};

verus! {

/// What an entry is, as its own metadata says: a symlink is a symlink,
/// whatever it points to.
#[derive(Debug, Clone, Copy, PartialEq, Eq)]
pub enum EntryKind {
    File,
    Directory,
    Symlink,
    Other,
}

/// Whether the traversal descends into an entry of this kind. Only a
/// directory is entered; a symlink never is.
pub open spec fn is_entered(kind: EntryKind) -> bool {
    kind is Directory
}

/// Decides whether the traversal descends into an entry of this kind.
pub fn enters(kind: EntryKind) -> (r: bool)
    ensures
        r == is_entered(kind),
        kind is Symlink ==> !r,
{
    match kind {
        EntryKind::Directory => true,
        _ => false,
    }
}

/// What is done with a root once its metadata has been asked for.
#[derive(Debug, Clone, PartialEq, Eq)]
pub enum Verdict {
    /// The root is absent and absence is tolerated: nothing is done.
    Skip,
    /// The root is a directory: it is traversed.
    Enter,
    /// The root is anything else: the mode is applied to it directly.
    Apply,
    /// The run fails.
    Fail(Error),
}

/// Mathematical value of a [`Verdict`].
pub enum VerdictView {
    Skip,
    Enter,
    Apply,
    Fail(ErrorView),
}

impl View for Verdict {
    type V = VerdictView;

    open spec fn view(&self) -> VerdictView {
        match *self {
            Verdict::Skip => VerdictView::Skip,
            Verdict::Enter => VerdictView::Enter,
            Verdict::Apply => VerdictView::Apply,
            Verdict::Fail(e) => VerdictView::Fail(e@),
        }
    }
}

/// The failure reported when the access `operation` on `path` was refused.
pub open spec fn io_error(failure: IoFailure, operation: Operation, path: Seq<u8>) -> ErrorView {
    ErrorView::Io { error: failure, context: ContextView { operation, path } }
}

/// The verdict on the root `path`, given the answer to the metadata read.
///
/// An absent root is skipped under `force` and is fatal otherwise; any other
/// refusal is fatal; a directory is entered; everything else, symlinks
/// included, has the mode applied to it.
pub open spec fn verdict_of(path: Seq<u8>, probe: Result<EntryKind, IoFailure>, force: bool)
    -> VerdictView {
    match probe {
        Ok(kind) => if is_entered(kind) {
            VerdictView::Enter
        } else {
            VerdictView::Apply
        },
        Err(failure) => if failure.kind is NotFound {
            if force {
                VerdictView::Skip
            } else {
                VerdictView::Fail(ErrorView::NotFound { file: path })
            }
        } else {
            VerdictView::Fail(io_error(failure, Operation::ReadMetadata, path))
        },
    }
}

/// Builds the failure for a refused access.
pub fn io_failure(failure: IoFailure, operation: Operation, path: &Vec<u8>) -> (e: Error)
    ensures
        e@ == io_error(failure, operation, path@),
{
    Error::Io { error: failure, context: Context { operation, path: path.clone() } }
}

/// Classifies a root.
pub fn classify(path: &Vec<u8>, probe: Result<EntryKind, IoFailure>, force: bool) -> (v: Verdict)
    ensures
        v@ == verdict_of(path@, probe, force),
{
    match probe {
        Ok(kind) => if enters(kind) {
            Verdict::Enter
        } else {
            Verdict::Apply
        },
        Err(failure) => match failure.kind {
            IoKind::NotFound => if force {
                Verdict::Skip
            } else {
                Verdict::Fail(Error::NotFound { file: path.clone() })
            },
            IoKind::Other => Verdict::Fail(io_failure(failure, Operation::ReadMetadata, path)),
        },
    }
}

/// An absent root fails the run with `NotFound` naming it, unless absence is
/// tolerated, in which case it is skipped.
pub proof fn lemma_missing_root(path: Seq<u8>, failure: IoFailure, force: bool)
    requires
        failure.kind is NotFound,
    ensures
        !force ==> verdict_of(path, Err(failure), force) == VerdictView::Fail(
            ErrorView::NotFound { file: path },
        ),
        force ==> verdict_of(path, Err(failure), force) == VerdictView::Skip,
{
}

/// A root that is a symlink is never entered: the mode is applied to it.
pub proof fn lemma_symlink_root(path: Seq<u8>, force: bool)
    ensures
        verdict_of(path, Ok(EntryKind::Symlink), force) == VerdictView::Apply,
{
}

} // verus!
