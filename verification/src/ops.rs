//! The request for a mode change and the ways to start one.

use vstd::prelude::*;

use crate::mode::{mode_of, ChmodMode};
use crate::model::{initial, schedule, Config};
use crate::path::paths_view;
use crate::protocol::Progress;
use crate::traversal::Traversal;

verus! {

/// A mode change to carry out: where, what, and how missing roots are taken.
#[derive(Debug)]
pub struct ChmodOp<'a> {
    /// The roots, in the order they are processed.
    pub files: Vec<Vec<u8>>,
    pub mode: ChmodMode<'a>,
    /// Whether a root that does not exist is skipped rather than fatal.
    pub force: bool,
    /// The file-creation mask of the process; a symbolic mode that names no
    /// class of users leaves the bits of the mask alone.
    pub umask: u32,
}

/// The engine that carries out a mode change, before it is given its roots.
pub fn chmod_impl<'a>(mode: ChmodMode<'a>, umask: u32, force: bool) -> (r: Traversal<'a>)
    ensures
        r.wf(),
        r@ == initial(Config { mode: mode@, umask, force }),
{
    Traversal::new(mode, umask, force)
}

impl<'a> ChmodOp<'a> {
    /// A request to apply `mode` to `files`, in a process whose file-creation
    /// mask is `umask`. Missing roots are fatal until `force` says otherwise.
    pub fn new(files: Vec<Vec<u8>>, mode: ChmodMode<'a>, umask: u32) -> (r: Self)
        ensures
            r.files == files,
            r.mode == mode,
            r.umask == umask,
            !r.force,
    {
        ChmodOp { files, mode, force: false, umask }
    }

    /// The same request, with missing roots skipped or fatal as `force` says.
    pub fn force(self, force: bool) -> (r: Self)
        ensures
            r.files == self.files,
            r.mode == self.mode,
            r.umask == self.umask,
            r.force == force,
    {
        ChmodOp { files: self.files, mode: self.mode, force, umask: self.umask }
    }

    /// Starts the run: hands back the engine and the first accesses to
    /// perform. A run without roots is over at once, in success.
    pub fn run(self) -> (r: (Traversal<'a>, Progress))
        ensures
            r.0.wf(),
            r.0@ == schedule(
                initial(Config { mode: self.mode@, umask: self.umask, force: self.force }),
                paths_view(self.files@),
            ).0,
            r.1@ == schedule(
                initial(Config { mode: self.mode@, umask: self.umask, force: self.force }),
                paths_view(self.files@),
            ).1,
    {
        let mut engine = chmod_impl(self.mode, self.umask, self.force);
        let progress = engine.schedule(self.files);
        (engine, progress)
    }
}

/// Starts a mode change on a single entry; a missing entry is fatal.
pub fn chmod_file<'a>(path: Vec<u8>, mode: ChmodMode<'a>, umask: u32) -> (r: (
    Traversal<'a>,
    Progress,
))
    ensures
        r.0.wf(),
        r.0@ == schedule(initial(Config { mode: mode@, umask, force: false }), seq![path@]).0,
        r.1@ == schedule(initial(Config { mode: mode@, umask, force: false }), seq![path@]).1,
{
    let mut files: Vec<Vec<u8>> = Vec::new();
    files.push(path);
    assert(paths_view(files@) =~= seq![path@]);
    (ChmodOp { files, mode, force: false, umask }).run()
}

/// Starts a mode change from the textual form of the mode.
pub fn chmod<'a>(files: Vec<Vec<u8>>, mode: &'a str, force: bool, umask: u32) -> (r: (
    Traversal<'a>,
    Progress,
))
    ensures
        r.0.wf(),
        r.0@ == schedule(
            initial(Config { mode: mode_of(mode@), umask, force }),
            paths_view(files@),
        ).0,
        r.1@ == schedule(
            initial(Config { mode: mode_of(mode@), umask, force }),
            paths_view(files@),
        ).1,
{
    (ChmodOp { files, mode: ChmodMode::new(mode), force, umask }).run()
}

} // verus!
