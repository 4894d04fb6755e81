//! The traversal engine: the transition system of the model, executed.

use vstd::prelude::*;

use crate::aggregate::FirstError;
use crate::consistency::{
    can_fail, fits, lemma_schedule_wf, lemma_step_wf, lemma_tell_done, lemma_tell_failed,
    node_ok, wf,
};
use crate::entry::{classify, enters, io_error, io_failure, EntryKind, Verdict};
use crate::error::{Error, IoFailure, Operation};
use crate::mode::{ChmodMode, PERMISSION_MASK};
use crate::model::{
    begin_apply, entry_action, entry_phase, fail, fail_up, fresh, give_up, initial, issue, list,
    probed, refuse, schedule, skipped, start_next, step, succeed, tell_done, tell_failed, wanted,
    Config, Node, Phase, State,
};
use crate::path::{paths_view, strip_all};
use crate::protocol::{children_view, jobs_view, Action, Child, Event, Job, JobView, Progress, Reply};

verus! {

/// A run in progress.
pub struct Traversal<'a> {
    mode: ChmodMode<'a>,
    umask: u32,
    force: bool,
    roots: Vec<Vec<u8>>,
    next: usize,
    nodes: Vec<Node>,
    paths: Vec<Vec<u8>>,
    failure: FirstError,
    finished: bool,
}

impl<'a> View for Traversal<'a> {
    type V = State;

    closed spec fn view(&self) -> State {
        State {
            config: Config { mode: self.mode@, umask: self.umask, force: self.force },
            roots: paths_view(self.roots@),
            next: self.next as int,
            nodes: self.nodes@,
            paths: paths_view(self.paths@),
            failure: self.failure@,
            finished: self.finished,
        }
    }
}

impl<'a> Traversal<'a> {
    /// Whether the run is consistent. Every run handed out by this crate is,
    /// and stays so.
    pub open spec fn wf(&self) -> bool {
        wf(self@)
    }

    /// Whether the run is over.
    pub fn is_finished(&self) -> (r: bool)
        ensures
            r == self@.finished,
    {
        self.finished
    }

    /// An engine that has been given no roots yet.
    pub fn new(mode: ChmodMode<'a>, umask: u32, force: bool) -> (r: Self)
        ensures
            r.wf(),
            r@ == initial(Config { mode: mode@, umask, force }),
    {
        let run = Traversal {
            mode,
            umask,
            force,
            roots: Vec::new(),
            next: 0,
            nodes: Vec::new(),
            paths: Vec::new(),
            failure: FirstError::new(),
            finished: false,
        };
        proof {
            assert(run@.paths =~= Seq::<Seq<u8>>::empty());
            assert(run@.roots =~= Seq::<Seq<u8>>::empty());
        }
        run
    }

    /// Hands the roots of the run to the engine and starts the first.
    ///
    /// Each root is normalised first: its trailing separators are removed. The
    /// roots are processed one after the other, in the order given, and the
    /// first that fails ends the run. An engine takes roots once.
    pub fn schedule(&mut self, roots: Vec<Vec<u8>>) -> (p: Progress)
        requires
            old(self).wf(),
        ensures
            final(self).wf(),
            final(self)@ == schedule(old(self)@, paths_view(roots@)).0,
            p@ == schedule(old(self)@, paths_view(roots@)).1,
    {
        proof {
            lemma_schedule_wf(self@, paths_view(roots@));
        }
        if self.finished || self.nodes.len() > 0 {
            return self.refuse();
        }
        self.roots = strip_all(roots);
        self.next = 0;
        self.start_next()
    }

    fn job(&self, n: usize, action: Action) -> (j: Job)
        requires
            n < self.paths.len(),
        ensures
            j@ == (JobView { node: n, path: self@.paths[n as int], action }),
    {
        Job { node: n, path: self.paths[n].clone(), action }
    }

    fn start_next(&mut self) -> (p: Progress)
        requires
            old(self).next <= old(self).roots.len(),
        ensures
            final(self)@ == start_next(old(self)@).0,
            p@ == start_next(old(self)@).1,
    {
        self.failure = FirstError::new();
        self.nodes = Vec::new();
        self.paths = Vec::new();
        if self.next < self.roots.len() {
            let root = self.roots[self.next].clone();
            let job = Job { node: 0, path: self.roots[self.next].clone(), action: Action::Probe };
            self.nodes.push(Node { parent: None, pending: 0, spoiled: false, phase: Phase::Probing });
            self.paths.push(root);
            self.next = self.next + 1;
            let mut jobs: Vec<Job> = Vec::new();
            jobs.push(job);
            proof {
                let model = start_next(old(self)@);
                assert(self@.nodes =~= model.0.nodes);
                assert(self@.paths =~= model.0.paths);
                assert(jobs_view(jobs@) =~= model.1->Continue_0);
            }
            Progress::Continue(jobs)
        } else {
            self.finished = true;
            proof {
                let model = start_next(old(self)@);
                assert(self@.paths =~= model.0.paths);
            }
            Progress::Finished(Ok(()))
        }
    }

    fn issue(&mut self, n: usize, phase: Phase, action: Action) -> (p: Progress)
        requires
            n < old(self).nodes.len(),
            old(self).nodes.len() == old(self).paths.len(),
        ensures
            final(self)@ == issue(old(self)@, n as int, phase, action).0,
            p@ == issue(old(self)@, n as int, phase, action).1,
    {
        let node = self.nodes[n];
        self.nodes.set(n, Node { phase, ..node });
        let job = self.job(n, action);
        let mut jobs: Vec<Job> = Vec::new();
        jobs.push(job);
        proof {
            let model = issue(old(self)@, n as int, phase, action);
            assert(self@.nodes =~= model.0.nodes);
            assert(jobs_view(jobs@) =~= model.1->Continue_0);
        }
        Progress::Continue(jobs)
    }

    fn begin_apply(&mut self, n: usize) -> (p: Progress)
        requires
            n < old(self).nodes.len(),
            old(self).nodes.len() == old(self).paths.len(),
        ensures
            final(self)@ == begin_apply(old(self)@, n as int).0,
            p@ == begin_apply(old(self)@, n as int).1,
    {
        match self.mode {
            ChmodMode::Octal(bits) => self.issue(
                n,
                Phase::Writing,
                Action::WriteMode(bits & PERMISSION_MASK),
            ),
            ChmodMode::Symbolic(_) => self.issue(n, Phase::Reading, Action::ReadMode),
        }
    }

    fn give_up(&mut self, n: usize) -> (p: Progress)
        requires
            can_fail(old(self).nodes@, n as int),
        ensures
            final(self)@ == give_up(old(self)@, n as int).0,
            p@ == give_up(old(self)@, n as int).1,
    {
        let mut cur: usize = n;
        loop
            invariant_except_break
                can_fail(self.nodes@, cur as int),
                fail_up(old(self).nodes@, n as int) == fail_up(self.nodes@, cur as int),
            invariant
                self.mode == old(self).mode,
                self.umask == old(self).umask,
                self.force == old(self).force,
                self.roots == old(self).roots,
                self.next == old(self).next,
                self.paths == old(self).paths,
                self.failure == old(self).failure,
                self.finished == old(self).finished,
                self.nodes.len() == old(self).nodes.len(),
            ensures
                self.nodes@ == fail_up(old(self).nodes@, n as int),
            decreases cur,
        {
            proof {
                lemma_tell_failed(self.nodes@, cur as int);
            }
            let ghost before = self.nodes@;
            let node = self.nodes[cur];
            self.nodes.set(cur, Node { phase: Phase::Failed, ..node });
            match node.parent {
                None => {
                    assert(self.nodes@ =~= tell_failed(before, cur as int));
                    break ;
                },
                Some(p) => {
                    let parent = self.nodes[p];
                    self.nodes.set(
                        p,
                        Node { pending: parent.pending - 1, spoiled: true, ..parent },
                    );
                    assert(self.nodes@ =~= tell_failed(before, cur as int));
                    if parent.pending != 1 {
                        break ;
                    }
                    cur = p;
                },
            }
        }
        if self.nodes.len() > 0 && matches!(self.nodes[0].phase, Phase::Failed) {
            self.finished = true;
            let outcome = match self.failure.take() {
                Some(first) => Err(first),
                None => Err(Error::Internal),
            };
            Progress::Finished(outcome)
        } else {
            let jobs: Vec<Job> = Vec::new();
            assert(jobs_view(jobs@) =~= Seq::<JobView>::empty());
            Progress::Continue(jobs)
        }
    }

    fn fail(&mut self, n: usize, failure: Error) -> (p: Progress)
        requires
            can_fail(old(self).nodes@, n as int),
        ensures
            final(self)@ == fail(old(self)@, n as int, failure@).0,
            p@ == fail(old(self)@, n as int, failure@).1,
    {
        self.failure.record(failure);
        self.give_up(n)
    }

    fn succeed(&mut self, n: usize) -> (p: Progress)
        requires
            old(self).wf(),
            !old(self).finished,
            n < old(self).nodes.len(),
            old(self).nodes[n as int].phase is Writing,
        ensures
            final(self)@ == succeed(old(self)@, n as int).0,
            p@ == succeed(old(self)@, n as int).1,
    {
        proof {
            lemma_tell_done(self.nodes@, n as int);
        }
        let node = self.nodes[n];
        self.nodes.set(n, Node { phase: Phase::Done, ..node });
        match node.parent {
            None => {
                assert(self.nodes@ =~= tell_done(old(self).nodes@, n as int));
                self.start_next()
            },
            Some(p) => {
                let parent = self.nodes[p];
                self.nodes.set(p, Node { pending: parent.pending - 1, ..parent });
                assert(self.nodes@ =~= tell_done(old(self).nodes@, n as int));
                if parent.pending != 1 {
                    let jobs: Vec<Job> = Vec::new();
                    assert(jobs_view(jobs@) =~= Seq::<JobView>::empty());
                    Progress::Continue(jobs)
                } else if parent.spoiled {
                    self.give_up(p)
                } else {
                    self.begin_apply(p)
                }
            },
        }
    }

    fn list(&mut self, n: usize, children: Vec<Child>) -> (p: Progress)
        requires
            n < old(self).nodes.len(),
            old(self).nodes.len() == old(self).paths.len(),
        ensures
            final(self)@ == list(old(self)@, n as int, children_view(children@)).0,
            p@ == list(old(self)@, n as int, children_view(children@)).1,
    {
        let count: usize = children.len();
        if count == 0 {
            return self.begin_apply(n);
        }
        let ghost kids = children_view(children@);
        let ghost mode = self.mode@;
        let ghost base = self.nodes.len() as int;
        let node = self.nodes[n];
        self.nodes.set(n, Node { pending: count, phase: Phase::Waiting, ..node });
        let ghost head = self.nodes@;
        let mut jobs: Vec<Job> = Vec::new();
        for child in iter: children
            invariant
                self.mode == old(self).mode,
                self.umask == old(self).umask,
                self.force == old(self).force,
                self.roots == old(self).roots,
                self.next == old(self).next,
                self.failure == old(self).failure,
                self.finished == old(self).finished,
                mode == self.mode@,
                head.len() == base,
                iter.seq().len() == kids.len(),
                kids == children_view(iter.seq()),
                self.nodes@ == head + Seq::new(
                    iter.index() as nat,
                    |i: int| fresh(Some(n), entry_phase(mode, kids[i].kind)),
                ),
                paths_view(self.paths@) == paths_view(old(self).paths@) + Seq::new(
                    iter.index() as nat,
                    |i: int| kids[i].path,
                ),
                jobs_view(jobs@) == Seq::new(
                    iter.index() as nat,
                    |i: int|
                        JobView {
                            node: (base + i) as usize,
                            path: kids[i].path,
                            action: entry_action(mode, kids[i].kind),
                        },
                ),
        {
            let ghost at = iter.index() as int;
            let ghost nodes_before = self.nodes@;
            let ghost paths_before = paths_view(self.paths@);
            let ghost jobs_before = jobs_view(jobs@);
            assert(kids[at] == child@);
            let index: usize = self.nodes.len();
            let (phase, action) = if enters(child.kind) {
                (Phase::Listing, Action::List)
            } else {
                match self.mode {
                    ChmodMode::Octal(bits) => (
                        Phase::Writing,
                        Action::WriteMode(bits & PERMISSION_MASK),
                    ),
                    ChmodMode::Symbolic(_) => (Phase::Reading, Action::ReadMode),
                }
            };
            self.nodes.push(Node { parent: Some(n), pending: 0, spoiled: false, phase });
            jobs.push(Job { node: index, path: child.path.clone(), action });
            self.paths.push(child.path);
            proof {
                assert(self.nodes@ =~= head + Seq::new(
                    (at + 1) as nat,
                    |i: int| fresh(Some(n), entry_phase(mode, kids[i].kind)),
                ));
                assert(paths_view(self.paths@) =~= paths_before.push(kids[at].path));
                assert(paths_view(self.paths@) =~= paths_view(old(self).paths@) + Seq::new(
                    (at + 1) as nat,
                    |i: int| kids[i].path,
                ));
                assert(index == base + at);
                assert(jobs_view(jobs@) =~= jobs_before.push(
                    JobView {
                        node: index,
                        path: kids[at].path,
                        action: entry_action(mode, kids[at].kind),
                    },
                ));
                assert(jobs_view(jobs@) =~= Seq::new(
                    (at + 1) as nat,
                    |i: int|
                        JobView {
                            node: (base + i) as usize,
                            path: kids[i].path,
                            action: entry_action(mode, kids[i].kind),
                        },
                ));
            }
        }
        Progress::Continue(jobs)
    }

    fn refuse(&mut self) -> (p: Progress)
        ensures
            final(self)@ == refuse(old(self)@).0,
            p@ == refuse(old(self)@).1,
    {
        self.finished = true;
        Progress::Finished(Err(Error::Internal))
    }

    fn probed(&mut self, n: usize, probe: Result<EntryKind, IoFailure>) -> (p: Progress)
        requires
            old(self).wf(),
            !old(self).finished,
            n < old(self).nodes.len(),
            old(self).nodes[n as int].phase is Probing,
        ensures
            final(self)@ == probed(old(self)@, n as int, probe).0,
            p@ == probed(old(self)@, n as int, probe).1,
    {
        assert(node_ok(self.nodes@, n as int));
        match classify(&self.paths[n], probe, self.force) {
            Verdict::Skip => self.start_next(),
            Verdict::Enter => self.issue(n, Phase::Listing, Action::List),
            Verdict::Apply => self.begin_apply(n),
            Verdict::Fail(e) => self.fail(n, e),
        }
    }

    fn refused(&mut self, n: usize, failure: IoFailure, operation: Operation) -> (p: Progress)
        requires
            can_fail(old(self).nodes@, n as int),
            old(self).nodes.len() == old(self).paths.len(),
        ensures
            final(self)@ == fail(
                old(self)@,
                n as int,
                io_error(failure, operation, old(self)@.paths[n as int]),
            ).0,
            p@ == fail(
                old(self)@,
                n as int,
                io_error(failure, operation, old(self)@.paths[n as int]),
            ).1,
    {
        let e = io_failure(failure, operation, &self.paths[n]);
        self.fail(n, e)
    }

    /// Whether the access outstanding for `node` is still worth performing.
    ///
    /// It is not once a sibling of the entry has failed. The caller may then
    /// leave the access out and answer `Reply::Skipped`; it may as well
    /// perform it.
    pub fn is_wanted(&self, node: usize) -> (r: bool)
        requires
            self.wf(),
        ensures
            r == wanted(self@, node as int),
    {
        if self.finished || node >= self.nodes.len() {
            return false;
        }
        assert(node_ok(self.nodes@, node as int));
        match self.nodes[node].parent {
            Some(p) => !self.nodes[p].spoiled,
            None => true,
        }
    }

    fn skipped(&mut self, n: usize) -> (p: Progress)
        requires
            old(self).wf(),
            !old(self).finished,
            n < old(self).nodes.len(),
            can_fail(old(self).nodes@, n as int),
        ensures
            final(self)@ == skipped(old(self)@, n as int).0,
            p@ == skipped(old(self)@, n as int).1,
    {
        if self.is_wanted(n) {
            self.refuse()
        } else {
            self.give_up(n)
        }
    }

    /// Takes the answer to an access and says what to do next.
    ///
    /// An answer that fits no outstanding access ends the run with
    /// `Error::Internal`, and so does `Reply::Skipped` for an access that was
    /// still wanted.
    pub fn step(&mut self, event: Event) -> (p: Progress)
        requires
            old(self).wf(),
        ensures
            final(self).wf(),
            final(self)@ == step(old(self)@, event@).0,
            p@ == step(old(self)@, event@).1,
    {
        let n: usize = event.node;
        if self.finished || n >= self.nodes.len() {
            return self.refuse();
        }
        assert(node_ok(self.nodes@, n as int));
        let phase = self.nodes[n].phase;
        let progress = match event.reply {
            Reply::Kind(kind) => match phase {
                Phase::Probing => self.probed(n, Ok(kind)),
                _ => self.refuse(),
            },
            Reply::Children(children) => match phase {
                Phase::Listing => self.list(n, children),
                _ => self.refuse(),
            },
            Reply::Mode(word) => match phase {
                Phase::Reading => match self.mode.resolve(word, self.umask) {
                    Ok(bits) => self.issue(n, Phase::Writing, Action::WriteMode(bits)),
                    Err(e) => self.fail(n, e),
                },
                _ => self.refuse(),
            },
            Reply::Written => match phase {
                Phase::Writing => self.succeed(n),
                _ => self.refuse(),
            },
            Reply::Failed(failure) => match phase {
                Phase::Probing => self.probed(n, Err(failure)),
                Phase::Listing => self.refused(n, failure, Operation::ReadDirectory),
                Phase::Reading => self.refused(n, failure, Operation::ReadMode),
                Phase::Writing => self.refused(n, failure, Operation::WriteMode),
                _ => self.refuse(),
            },
            Reply::Skipped => match phase {
                Phase::Listing | Phase::Reading | Phase::Writing => self.skipped(n),
                _ => self.refuse(),
            },
        };
        let total: usize = self.nodes.len();
        proof {
            assert(fits(old(self)@, event@));
            lemma_step_wf(old(self)@, event@);
        }
        progress
    }
}

} // verus!
