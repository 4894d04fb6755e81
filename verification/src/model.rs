//! The traversal as a transition system over mathematical values.
//!
//! A run works through its roots one at a time. The entries met under the
//! current root are kept in an arena: a child always stands after its parent.
//! Every answer of the caller moves one entry to its next phase, and the
//! entries that become ready are handed out as jobs.

use vstd::prelude::*;

use crate::aggregate::keep_first;
use crate::entry::{io_error, is_entered, verdict_of, EntryKind, VerdictView};
use crate::error::{ErrorView, IoFailure, Operation};
use crate::mode::{new_bits, ModeView, PERMISSION_MASK};
use crate::path::stripped_all;
use crate::protocol::{Action, ChildView, EventView, JobView, ProgressView, ReplyView};

verus! {

/// Where an entry stands.
#[derive(Debug, Clone, Copy, PartialEq, Eq)]
pub enum Phase {
    /// Its metadata has been asked for (roots only).
    Probing,
    /// Its children have been asked for.
    Listing,
    /// Its children are being processed.
    Waiting,
    /// Its current mode word has been asked for.
    Reading,
    /// Its new bits are being written.
    Writing,
    /// Its new bits have been written.
    Done,
    /// It was given up: an access to it was refused, or a child failed.
    Failed,
}

/// An entry of the arena.
#[derive(Debug, Clone, Copy)]
pub struct Node {
    /// The directory the entry was found in; `None` for the root.
    pub parent: Option<usize>,
    /// How many of its children are neither done nor failed.
    pub pending: usize,
    /// Whether one of its children failed.
    pub spoiled: bool,
    pub phase: Phase,
}

/// What a run is given and never changes.
pub struct Config {
    pub mode: ModeView,
    pub umask: u32,
    pub force: bool,
}

/// The state of a run.
pub struct State {
    pub config: Config,
    /// The roots, normalised, in the order they are processed.
    pub roots: Seq<Seq<u8>>,
    /// How many roots have been started.
    pub next: int,
    /// The entries met under the current root; the root is entry 0.
    pub nodes: Seq<Node>,
    /// The path of each entry.
    pub paths: Seq<Seq<u8>>,
    /// The first failure met under the current root.
    pub failure: Option<ErrorView>,
    /// Whether the run is over.
    pub finished: bool,
}

/// Whether an entry in this phase will see no further access.
pub open spec fn settled(phase: Phase) -> bool {
    phase is Done || phase is Failed
}

/// Whether the entry's own bits are being written or have been written.
pub open spec fn applying(phase: Phase) -> bool {
    phase is Reading || phase is Writing || phase is Done
}

/// An entry that was just found.
pub open spec fn fresh(parent: Option<usize>, phase: Phase) -> Node {
    Node { parent, pending: 0, spoiled: false, phase }
}

/// The entry `node`, moved to `phase`.
pub open spec fn moved(node: Node, phase: Phase) -> Node {
    Node { phase, ..node }
}

/// The first access made to apply `mode` to an entry: an absolute mode is
/// written at once, a symbolic one needs the entry's current word first.
pub open spec fn apply_action(mode: ModeView) -> Action {
    match mode {
        ModeView::Octal(bits) => Action::WriteMode(bits & PERMISSION_MASK),
        ModeView::Symbolic(_) => Action::ReadMode,
    }
}

/// The phase an entry is in while `apply_action` is outstanding.
pub open spec fn apply_phase(mode: ModeView) -> Phase {
    match mode {
        ModeView::Octal(_) => Phase::Writing,
        ModeView::Symbolic(_) => Phase::Reading,
    }
}

/// The first access made for a child of kind `kind`: a directory is listed,
/// anything else has the mode applied.
pub open spec fn entry_action(mode: ModeView, kind: EntryKind) -> Action {
    if is_entered(kind) {
        Action::List
    } else {
        apply_action(mode)
    }
}

/// The phase a child of kind `kind` starts in.
pub open spec fn entry_phase(mode: ModeView, kind: EntryKind) -> Phase {
    if is_entered(kind) {
        Phase::Listing
    } else {
        apply_phase(mode)
    }
}

/// The state of an engine that has been given no roots yet.
pub open spec fn initial(config: Config) -> State {
    State {
        config,
        roots: Seq::empty(),
        next: 0,
        nodes: Seq::empty(),
        paths: Seq::empty(),
        failure: None,
        finished: false,
    }
}

/// Whether the engine is still waiting for its roots.
pub open spec fn idle(s: State) -> bool {
    !s.finished && s.nodes.len() == 0
}

/// Starts the next root, or ends the run in success where none is left.
pub open spec fn start_next(s: State) -> (State, ProgressView) {
    if 0 <= s.next < s.roots.len() {
        let root = s.roots[s.next];
        (
            State {
                next: s.next + 1,
                nodes: seq![fresh(None, Phase::Probing)],
                paths: seq![root],
                failure: None,
                ..s
            },
            ProgressView::Continue(seq![JobView { node: 0, path: root, action: Action::Probe }]),
        )
    } else {
        (
            State { nodes: Seq::empty(), paths: Seq::empty(), failure: None, finished: true, ..s },
            ProgressView::Finished(Ok(())),
        )
    }
}

/// Moves entry `n` to `phase` and issues `action` for it.
pub open spec fn issue(s: State, n: int, phase: Phase, action: Action) -> (State, ProgressView) {
    (
        State { nodes: s.nodes.update(n, moved(s.nodes[n], phase)), ..s },
        ProgressView::Continue(seq![JobView { node: n as usize, path: s.paths[n], action }]),
    )
}

/// Starts applying the mode to entry `n`.
pub open spec fn begin_apply(s: State, n: int) -> (State, ProgressView) {
    issue(s, n, apply_phase(s.config.mode), apply_action(s.config.mode))
}

/// Entry `n` is marked failed and its parent, if it has one, is told: one
/// child fewer is outstanding, and one has failed.
pub open spec fn tell_failed(nodes: Seq<Node>, n: int) -> Seq<Node> {
    let marked = nodes.update(n, moved(nodes[n], Phase::Failed));
    match nodes[n].parent {
        Some(p) => {
            let parent = nodes[p as int];
            marked.update(
                p as int,
                Node { pending: (parent.pending - 1) as usize, spoiled: true, ..parent },
            )
        },
        None => marked,
    }
}

/// Entry `n` is marked done and its parent, if it has one, is told.
pub open spec fn tell_done(nodes: Seq<Node>, n: int) -> Seq<Node> {
    let marked = nodes.update(n, moved(nodes[n], Phase::Done));
    match nodes[n].parent {
        Some(p) => {
            let parent = nodes[p as int];
            marked.update(p as int, Node { pending: (parent.pending - 1) as usize, ..parent })
        },
        None => marked,
    }
}

/// Entry `n` is given up, and with it every ancestor that was only waiting
/// for `n`: a directory with a failed child is never written, so once its
/// last child has settled it fails too.
pub open spec fn fail_up(nodes: Seq<Node>, n: int) -> Seq<Node>
    decreases n,
{
    if 0 <= n < nodes.len() {
        match nodes[n].parent {
            Some(p) => if p < n && nodes[p as int].pending == 1 {
                fail_up(tell_failed(nodes, n), p as int)
            } else {
                tell_failed(nodes, n)
            },
            None => tell_failed(nodes, n),
        }
    } else {
        nodes
    }
}

/// The outcome of a run whose root failed: the failure that was recorded.
pub open spec fn reported(failure: Option<ErrorView>) -> Result<(), ErrorView> {
    match failure {
        Some(first) => Err(first),
        None => Err(ErrorView::Internal),
    }
}

/// Entry `n` fails without a failure of its own. The run ends when the
/// failure reaches the root.
pub open spec fn give_up(s: State, n: int) -> (State, ProgressView) {
    let nodes = fail_up(s.nodes, n);
    if nodes.len() > 0 && nodes[0].phase is Failed {
        (
            State { nodes, failure: None, finished: true, ..s },
            ProgressView::Finished(reported(s.failure)),
        )
    } else {
        (State { nodes, ..s }, ProgressView::Continue(Seq::empty()))
    }
}

/// Entry `n` fails with `failure`, which is kept if it is the first.
pub open spec fn fail(s: State, n: int, failure: ErrorView) -> (State, ProgressView) {
    give_up(State { failure: keep_first(s.failure, failure), ..s }, n)
}

/// The bits of entry `n` were written. Its parent is told; a parent whose
/// last child this was is written next if no child failed, and fails
/// otherwise. When the root is done the next root is started.
pub open spec fn succeed(s: State, n: int) -> (State, ProgressView) {
    let told = State { nodes: tell_done(s.nodes, n), ..s };
    match s.nodes[n].parent {
        None => start_next(told),
        Some(p) => {
            let parent = s.nodes[p as int];
            if parent.pending != 1 {
                (told, ProgressView::Continue(Seq::empty()))
            } else if parent.spoiled {
                give_up(told, p as int)
            } else {
                begin_apply(told, p as int)
            }
        },
    }
}

/// The children of directory `n` are known. Each becomes an entry of the
/// arena and gets its first access at once; an empty directory is written.
pub open spec fn list(s: State, n: int, children: Seq<ChildView>) -> (State, ProgressView) {
    if children.len() == 0 {
        begin_apply(s, n)
    } else {
        let mode = s.config.mode;
        let base = s.nodes.len();
        (
            State {
                nodes: s.nodes.update(
                    n,
                    Node { pending: children.len() as usize, phase: Phase::Waiting, ..s.nodes[n] },
                ) + Seq::new(
                    children.len(),
                    |i: int| fresh(Some(n as usize), entry_phase(mode, children[i].kind)),
                ),
                paths: s.paths + Seq::new(children.len(), |i: int| children[i].path),
                ..s
            },
            ProgressView::Continue(
                Seq::new(
                    children.len(),
                    |i: int|
                        JobView {
                            node: (base + i) as usize,
                            path: children[i].path,
                            action: entry_action(mode, children[i].kind),
                        },
                ),
            ),
        )
    }
}

/// The metadata read of root `n` was answered.
pub open spec fn probed(s: State, n: int, probe: Result<EntryKind, IoFailure>) -> (
    State,
    ProgressView,
) {
    match verdict_of(s.paths[n], probe, s.config.force) {
        VerdictView::Skip => start_next(s),
        VerdictView::Enter => issue(s, n, Phase::Listing, Action::List),
        VerdictView::Apply => begin_apply(s, n),
        VerdictView::Fail(e) => fail(s, n, e),
    }
}

/// The current mode word of entry `n` is known.
pub open spec fn read(s: State, n: int, word: u32) -> (State, ProgressView) {
    match new_bits(s.config.mode, word, s.config.umask) {
        Ok(bits) => issue(s, n, Phase::Writing, Action::WriteMode(bits)),
        Err(e) => fail(s, n, e),
    }
}

/// The roots of the run are handed in. Each is normalised, and the first is
/// started; a run without roots is over at once. Handing in roots a second
/// time ends the run.
pub open spec fn schedule(s: State, roots: Seq<Seq<u8>>) -> (State, ProgressView) {
    if idle(s) {
        start_next(State { roots: stripped_all(roots), next: 0, ..s })
    } else {
        refuse(s)
    }
}

/// Whether the access outstanding for entry `n` is still worth performing:
/// it is not once a sibling has failed, because the directory they share
/// will then never be written.
pub open spec fn wanted(s: State, n: int) -> bool {
    !s.finished && 0 <= n < s.nodes.len() && !(s.nodes[n].parent matches Some(p) && p < n
        && s.nodes[p as int].spoiled)
}

/// The access outstanding for entry `n` was not performed. This is accepted
/// of an access that is no longer wanted, and the entry is given up.
pub open spec fn skipped(s: State, n: int) -> (State, ProgressView) {
    if wanted(s, n) {
        refuse(s)
    } else {
        give_up(s, n)
    }
}

/// An answer that fits no outstanding access ends the run.
pub open spec fn refuse(s: State) -> (State, ProgressView) {
    (State { finished: true, ..s }, ProgressView::Finished(Err(ErrorView::Internal)))
}

/// The transition of the run on one answer of the caller.
pub open spec fn step(s: State, event: EventView) -> (State, ProgressView) {
    let n = event.node as int;
    if s.finished || n >= s.nodes.len() || s.paths.len() != s.nodes.len() {
        refuse(s)
    } else {
        let path = s.paths[n];
        match (s.nodes[n].phase, event.reply) {
            (Phase::Probing, ReplyView::Kind(kind)) => probed(s, n, Ok(kind)),
            (Phase::Probing, ReplyView::Failed(failure)) => probed(s, n, Err(failure)),
            (Phase::Listing, ReplyView::Children(children)) => list(s, n, children),
            (Phase::Listing, ReplyView::Failed(failure)) => fail(
                s,
                n,
                io_error(failure, Operation::ReadDirectory, path),
            ),
            (Phase::Reading, ReplyView::Mode(word)) => read(s, n, word),
            (Phase::Reading, ReplyView::Failed(failure)) => fail(
                s,
                n,
                io_error(failure, Operation::ReadMode, path),
            ),
            (Phase::Writing, ReplyView::Written) => succeed(s, n),
            (Phase::Writing, ReplyView::Failed(failure)) => fail(
                s,
                n,
                io_error(failure, Operation::WriteMode, path),
            ),
            (Phase::Listing, ReplyView::Skipped) => skipped(s, n),
            (Phase::Reading, ReplyView::Skipped) => skipped(s, n),
            (Phase::Writing, ReplyView::Skipped) => skipped(s, n),
            _ => refuse(s),
        }
    }
}

} // verus!
