//! What a caller may rely on, whatever the filesystem answers.

use vstd::prelude::*;

use crate::consistency::{
    fits, lemma_children_first, lemma_fail_up_ok, lemma_open_children_witness,
    lemma_schedule_wf, lemma_step_wf,
    lemma_tell_done, live, node_ok, under, wf,
};
use crate::aggregate::keep_first;
use crate::entry::{io_error, verdict_of, EntryKind, VerdictView};
use crate::error::{ErrorView, IoFailure, Operation};
use crate::mode::new_bits;
use crate::model::{
    apply_action, applying, fail_up, idle, initial, refuse, schedule, settled, start_next, step,
    tell_done, Config, Phase, State,
};
use crate::path::{
    ends_with_separator, lemma_stripped_is_a_prefix, lemma_stripped_is_stable, stripped,
    stripped_all,
};
use crate::protocol::{Action, ChildView, EventView, JobView, ProgressView, ReplyView};

verus! {

/// The phase an entry is in while `action` is outstanding for it.
pub open spec fn phase_of(action: Action) -> Phase {
    match action {
        Action::Probe => Phase::Probing,
        Action::List => Phase::Listing,
        Action::ReadMode => Phase::Reading,
        Action::WriteMode(_) => Phase::Writing,
    }
}

/// Whether `job` is the access outstanding for its entry in state `s`.
pub open spec fn job_fits(s: State, job: JobView) -> bool {
    &&& job.node < s.nodes.len()
    &&& s.nodes[job.node as int].phase == phase_of(job.action)
    &&& s.paths[job.node as int] == job.path
}

/// How far an entry has come. No transition takes an entry back.
pub open spec fn rank(phase: Phase) -> int {
    match phase {
        Phase::Probing => 0,
        Phase::Listing => 1,
        Phase::Waiting => 2,
        Phase::Reading => 3,
        Phase::Writing => 4,
        Phase::Done => 5,
        Phase::Failed => 5,
    }
}

/// Whether `after` continues the traversal of the root that `before` was
/// working on.
pub open spec fn same_root(before: State, after: State) -> bool {
    !before.finished && !after.finished && !idle(before) && after.next == before.next
}

/// A run that goes on is not over.
proof fn lemma_continue_is_live(s: State, event: EventView)
    requires
        wf(s),
        fits(s, event),
        step(s, event).1 is Continue,
    ensures
        !s.finished,
        !idle(s),
        !step(s, event).0.finished,
        live(s),
        live(step(s, event).0),
{
    lemma_step_wf(s, event);
    let n = event.node as int;
    assert(node_ok(s.nodes, n));
    assert(node_ok(s.nodes, 0));
    if s.nodes[n].phase is Writing && event.reply is Written {
        lemma_tell_done(s.nodes, n);
    }
}

/// Every access handed out is the one outstanding for its entry: the entry
/// is in the phase of the access, under the path the access names.
pub proof fn lemma_jobs_fit(s: State, event: EventView, k: int)
    requires
        wf(s),
        fits(s, event),
        step(s, event).1 matches ProgressView::Continue(jobs) && 0 <= k < jobs.len(),
    ensures
        job_fits(step(s, event).0, step(s, event).1->Continue_0[k]),
{
    lemma_continue_is_live(s, event);
    let n = event.node as int;
    assert(node_ok(s.nodes, n));
    if s.nodes[n].phase is Writing && event.reply is Written {
        lemma_tell_done(s.nodes, n);
    }
}

/// Children before parents: when an access to a directory's own bits is
/// handed out, the bits of every entry under that directory, at any depth,
/// have been written.
pub proof fn lemma_written_after_children(s: State, event: EventView, k: int, x: int)
    requires
        wf(s),
        fits(s, event),
        step(s, event).1 matches ProgressView::Continue(jobs) && 0 <= k < jobs.len() && (
        jobs[k].action is ReadMode || jobs[k].action is WriteMode) && under(
            step(s, event).0.nodes,
            x,
            jobs[k].node as int,
        ),
    ensures
        step(s, event).0.nodes[x].phase is Done,
{
    let after = step(s, event).0;
    let job = step(s, event).1->Continue_0[k];
    lemma_step_wf(s, event);
    lemma_continue_is_live(s, event);
    lemma_jobs_fit(s, event, k);
    lemma_children_first(after, job.node as int, x);
}

/// Within the traversal of one root no entry is taken back: it keeps its
/// place, its parent and its path, and its phase only advances.
pub proof fn lemma_phases_advance(s: State, event: EventView, n: int)
    requires
        wf(s),
        fits(s, event),
        same_root(s, step(s, event).0),
        0 <= n < s.nodes.len(),
    ensures
        n < step(s, event).0.nodes.len(),
        step(s, event).0.nodes[n].parent == s.nodes[n].parent,
        step(s, event).0.paths[n] == s.paths[n],
        rank(step(s, event).0.nodes[n].phase) >= rank(s.nodes[n].phase),
{
    let m = event.node as int;
    assert(node_ok(s.nodes, m));
    assert(node_ok(s.nodes, 0));
    assert(node_ok(s.nodes, n));
    match (s.nodes[m].phase, event.reply) {
        (Phase::Writing, ReplyView::Written) => {
            lemma_tell_done(s.nodes, m);
            match s.nodes[m].parent {
                Some(p) => {
                    if s.nodes[p as int].pending == 1 && s.nodes[p as int].spoiled {
                        lemma_fail_up_ok(tell_done(s.nodes, m), p as int);
                    }
                },
                None => {},
            }
        },
        (Phase::Listing, ReplyView::Children(children)) => {},
        (Phase::Reading, ReplyView::Mode(word)) => {
            lemma_fail_up_ok(s.nodes, m);
        },
        (Phase::Probing, ReplyView::Kind(kind)) => {},
        (Phase::Waiting, _) => {},
        (Phase::Done, _) => {},
        (Phase::Failed, _) => {},
        _ => {
            lemma_fail_up_ok(s.nodes, m);
        },
    }
}

/// No access is made twice: an access handed out for an entry that was
/// already known takes the entry to a phase it had not reached before.
pub proof fn lemma_no_access_twice(s: State, event: EventView, k: int)
    requires
        wf(s),
        fits(s, event),
        same_root(s, step(s, event).0),
        step(s, event).1 matches ProgressView::Continue(jobs) && 0 <= k < jobs.len()
            && jobs[k].node < s.nodes.len(),
    ensures
        rank(s.nodes[step(s, event).1->Continue_0[k].node as int].phase) < rank(
            phase_of(step(s, event).1->Continue_0[k].action),
        ),
{
    let m = event.node as int;
    assert(node_ok(s.nodes, m));
    assert(node_ok(s.nodes, 0));
    if s.nodes[m].phase is Writing && event.reply is Written {
        lemma_tell_done(s.nodes, m);
    }
}

/// Whether an access is outstanding for an entry in this phase.
pub open spec fn outstanding(phase: Phase) -> bool {
    phase is Probing || phase is Listing || phase is Reading || phase is Writing
}

/// Below an entry that has not settled there is always an access
/// outstanding: for the entry itself, or under a child it is waiting for.
proof fn lemma_outstanding_below(s: State, n: int) -> (m: int)
    requires
        wf(s),
        !s.finished,
        0 <= n < s.nodes.len(),
        !settled(s.nodes[n].phase),
    ensures
        n <= m < s.nodes.len(),
        outstanding(s.nodes[m].phase),
    decreases s.nodes.len() - n,
{
    assert(node_ok(s.nodes, n));
    if s.nodes[n].phase is Waiting {
        let c = lemma_open_children_witness(s.nodes, n, s.nodes.len() as int);
        assert(node_ok(s.nodes, c));
        lemma_outstanding_below(s, c)
    } else {
        n
    }
}

/// A run is never stuck: as long as it is not over, some access is
/// outstanding, so an empty list of new accesses never means that the
/// caller waits for nothing.
pub proof fn lemma_never_stuck(s: State)
    requires
        wf(s),
        !s.finished,
        !idle(s),
    ensures
        exists|m: int| 0 <= m < s.nodes.len() && outstanding(#[trigger] s.nodes[m].phase),
{
    let m = lemma_outstanding_below(s, 0);
    assert(outstanding(s.nodes[m].phase));
}

/// A failure stays where it belongs: giving up an entry changes the phase
/// of that entry and of directories it lies under, and of nothing else.
/// Subtrees beside it go on undisturbed.
pub proof fn lemma_failure_stays_on_its_path(s: State, event: EventView, m: int)
    requires
        wf(s),
        fits(s, event),
        same_root(s, step(s, event).0),
        event.reply is Failed || event.reply is Skipped,
        0 <= m < s.nodes.len(),
        m != event.node,
        !under(s.nodes, event.node as int, m),
    ensures
        step(s, event).0.nodes[m].phase == s.nodes[m].phase,
{
    let n = event.node as int;
    assert(node_ok(s.nodes, n));
    assert(node_ok(s.nodes, 0));
    if outstanding(s.nodes[n].phase) {
        lemma_fail_up_ok(s.nodes, n);
    }
}

/// The failure that an answer amounts to, if it does: a refused access, or
/// a mode that cannot be computed.
pub open spec fn failure_of(s: State, event: EventView) -> Option<ErrorView> {
    let n = event.node as int;
    let path = s.paths[n];
    match (s.nodes[n].phase, event.reply) {
        (Phase::Probing, ReplyView::Failed(failure)) => match verdict_of(
            path,
            Err(failure),
            s.config.force,
        ) {
            VerdictView::Fail(e) => Some(e),
            _ => None,
        },
        (Phase::Listing, ReplyView::Failed(failure)) => Some(
            io_error(failure, Operation::ReadDirectory, path),
        ),
        (Phase::Reading, ReplyView::Failed(failure)) => Some(
            io_error(failure, Operation::ReadMode, path),
        ),
        (Phase::Writing, ReplyView::Failed(failure)) => Some(
            io_error(failure, Operation::WriteMode, path),
        ),
        (Phase::Reading, ReplyView::Mode(word)) => match new_bits(
            s.config.mode,
            word,
            s.config.umask,
        ) {
            Err(e) => Some(e),
            Ok(_) => None,
        },
        _ => None,
    }
}

/// The first failure wins: while a root is being traversed the failure
/// kept is the first that an answer amounted to, and later ones change
/// nothing.
pub proof fn lemma_first_failure_is_kept(s: State, event: EventView)
    requires
        wf(s),
        fits(s, event),
        same_root(s, step(s, event).0),
    ensures
        step(s, event).0.failure == (match failure_of(s, event) {
            Some(e) => keep_first(s.failure, e),
            None => s.failure,
        }),
{
    let n = event.node as int;
    assert(node_ok(s.nodes, n));
    if s.nodes[n].phase is Writing && event.reply is Written {
        lemma_tell_done(s.nodes, n);
    }
}

/// A run that ends in failure reports the first failure met under the root
/// it was working on. Only an answer outside the protocol is reported as
/// `Internal`.
pub proof fn lemma_reported_failure_is_first(s: State, event: EventView)
    requires
        wf(s),
        fits(s, event),
        !s.finished,
        event.node < s.nodes.len(),
        step(s, event).1 matches ProgressView::Finished(Err(e)),
        step(s, event) != refuse(s),
    ensures
        Some(step(s, event).1->Finished_0->Err_0) == (match failure_of(s, event) {
            Some(e) => keep_first(s.failure, e),
            None => s.failure,
        }),
{
    let n = event.node as int;
    assert(node_ok(s.nodes, n));
    assert(node_ok(s.nodes, 0));
    if outstanding(s.nodes[n].phase) {
        lemma_fail_up_ok(s.nodes, n);
    }
    if s.nodes[n].phase is Writing && event.reply is Written {
        lemma_tell_done(s.nodes, n);
        match s.nodes[n].parent {
            Some(p) => {
                assert(node_ok(s.nodes, p as int));
                if s.nodes[p as int].pending == 1 && s.nodes[p as int].spoiled {
                    lemma_fail_up_ok(tell_done(s.nodes, n), p as int);
                }
            },
            None => {},
        }
    }
}

/// Every entry met lies under the root being traversed.
pub proof fn lemma_all_under_the_root(s: State, x: int)
    requires
        wf(s),
        !s.finished,
        0 < x < s.nodes.len(),
    ensures
        under(s.nodes, x, 0),
    decreases x,
{
    assert(node_ok(s.nodes, x));
    let p = s.nodes[x].parent->0 as int;
    if p != 0 {
        lemma_all_under_the_root(s, p);
    }
}

/// The root comes last: once its own bits are being written, the bits of
/// every other entry met under it have been written.
pub proof fn lemma_root_is_written_last(s: State, x: int)
    requires
        wf(s),
        !s.finished,
        0 < x < s.nodes.len(),
        applying(s.nodes[0].phase),
    ensures
        s.nodes[x].phase is Done,
{
    lemma_all_under_the_root(s, x);
    lemma_children_first(s, 0, x);
}

/// The state of a run after the answers `events`, taken in order.
pub open spec fn after(s: State, events: Seq<EventView>) -> State
    decreases events.len(),
{
    if events.len() == 0 {
        s
    } else {
        step(after(s, events.drop_last()), events.last()).0
    }
}

/// Whether there was room in the arena for each of the answers `events`.
pub open spec fn all_fit(s: State, events: Seq<EventView>) -> bool
    decreases events.len(),
{
    events.len() > 0 ==> all_fit(s, events.drop_last()) && fits(
        after(s, events.drop_last()),
        events.last(),
    )
}

/// A run stays consistent whatever it is answered, and however the answers
/// of concurrent accesses are interleaved.
pub proof fn lemma_run_stays_consistent(s: State, events: Seq<EventView>)
    requires
        wf(s),
        all_fit(s, events),
    ensures
        wf(after(s, events)),
    decreases events.len(),
{
    if events.len() > 0 {
        lemma_run_stays_consistent(s, events.drop_last());
        lemma_step_wf(after(s, events.drop_last()), events.last());
    }
}

/// Children before parents, throughout a run: from the moment the roots are
/// handed in, after any answers in any order, a directory whose own bits are
/// being written or have been written has nothing under it, at any depth,
/// whose bits have not been written.
pub proof fn lemma_run_writes_children_first(
    config: Config,
    roots: Seq<Seq<u8>>,
    events: Seq<EventView>,
    d: int,
    x: int,
)
    requires
        all_fit(schedule(initial(config), roots).0, events),
        !after(schedule(initial(config), roots).0, events).finished,
        0 <= d < after(schedule(initial(config), roots).0, events).nodes.len(),
        applying(after(schedule(initial(config), roots).0, events).nodes[d].phase),
        under(after(schedule(initial(config), roots).0, events).nodes, x, d),
    ensures
        after(schedule(initial(config), roots).0, events).nodes[x].phase is Done,
{
    let started = schedule(initial(config), roots).0;
    lemma_schedule_wf(initial(config), roots);
    lemma_run_stays_consistent(started, events);
    lemma_children_first(after(started, events), d, x);
}

/// The same, told by the accesses: whenever in a run an access to an
/// entry's own bits is handed out (the read before a symbolic change, or the
/// write), the bits of every entry under it have been written. A directory
/// is therefore written after everything under it, and the root last.
pub proof fn lemma_run_hands_out_children_first(
    config: Config,
    roots: Seq<Seq<u8>>,
    events: Seq<EventView>,
    k: int,
    x: int,
)
    requires
        events.len() > 0,
        all_fit(schedule(initial(config), roots).0, events),
        step(
            after(schedule(initial(config), roots).0, events.drop_last()),
            events.last(),
        ).1 matches ProgressView::Continue(jobs) && 0 <= k < jobs.len() && (jobs[k].action
            is ReadMode || jobs[k].action is WriteMode) && under(
            after(schedule(initial(config), roots).0, events).nodes,
            x,
            jobs[k].node as int,
        ),
    ensures
        after(schedule(initial(config), roots).0, events).nodes[x].phase is Done,
{
    let started = schedule(initial(config), roots).0;
    lemma_schedule_wf(initial(config), roots);
    lemma_run_stays_consistent(started, events.drop_last());
    lemma_written_after_children(after(started, events.drop_last()), events.last(), k, x);
}

/// A root that does not exist fails the run with `NotFound` naming it.
pub proof fn lemma_missing_root_is_fatal(s: State, failure: IoFailure)
    requires
        wf(s),
        !s.finished,
        s.nodes.len() > 0,
        s.nodes[0].phase is Probing,
        failure.kind is NotFound,
        !s.config.force,
    ensures
        step(s, EventView { node: 0, reply: ReplyView::Failed(failure) }).1
            == ProgressView::Finished(Err(ErrorView::NotFound { file: s.paths[0] })),
{
    assert(node_ok(s.nodes, 0));
    assert(s.failure is None);
    assert(fail_up(s.nodes, 0)[0].phase is Failed);
}

/// Under `force` a root that does not exist is passed over: the run goes on
/// with the next root as if the missing one had not been named, and ends in
/// success where it was the last. No access but the metadata read is ever
/// made for it.
pub proof fn lemma_missing_root_is_skipped(s: State, failure: IoFailure)
    requires
        wf(s),
        !s.finished,
        s.nodes.len() > 0,
        s.nodes[0].phase is Probing,
        failure.kind is NotFound,
        s.config.force,
    ensures
        step(s, EventView { node: 0, reply: ReplyView::Failed(failure) }) == start_next(s),
        s.next >= s.roots.len() ==> start_next(s).1 == ProgressView::Finished(Ok(())),
        s.next < s.roots.len() ==> start_next(s).1 == ProgressView::Continue(
            seq![JobView { node: 0, path: s.roots[s.next], action: Action::Probe }],
        ),
{
}

/// A root that is a symlink is not entered: the first access after the
/// metadata read applies the mode to the link itself.
pub proof fn lemma_symlink_root_is_not_entered(s: State)
    requires
        wf(s),
        !s.finished,
        s.nodes.len() > 0,
        s.nodes[0].phase is Probing,
    ensures
        step(s, EventView { node: 0, reply: ReplyView::Kind(EntryKind::Symlink) }).1
            == ProgressView::Continue(
            seq![JobView { node: 0, path: s.paths[0], action: apply_action(s.config.mode) }],
        ),
        !(apply_action(s.config.mode) is List),
{
}

/// Of the children found in a directory, exactly the directories are
/// listed. A symlink among them is not: the mode is applied to it.
pub proof fn lemma_only_directories_are_listed(
    s: State,
    node: usize,
    children: Seq<ChildView>,
    k: int,
)
    requires
        wf(s),
        !s.finished,
        node < s.nodes.len(),
        s.nodes[node as int].phase is Listing,
        0 <= k < children.len(),
    ensures
        step(s, EventView { node, reply: ReplyView::Children(children) }).1 matches ProgressView::Continue(
            jobs,
        ) && jobs.len() == children.len() && jobs[k].path == children[k].path && (jobs[k].action
            is List <==> children[k].kind is Directory) && (children[k].kind is Symlink
            ==> jobs[k].action == apply_action(s.config.mode)),
{
}

/// Roots that are normalised to the same paths start the same run. As every
/// later transition depends on the state and the answer alone, the runs stay
/// the same.
pub proof fn lemma_normalised_roots_decide(s: State, first: Seq<Seq<u8>>, second: Seq<Seq<u8>>)
    requires
        stripped_all(first) == stripped_all(second),
    ensures
        schedule(s, first) == schedule(s, second),
{
}

/// A root written with a trailing separator is processed exactly as the
/// same root written without it, and as the same root written with none of
/// its trailing separators.
pub proof fn lemma_trailing_separator_is_ignored(s: State, roots: Seq<Seq<u8>>, i: int)
    requires
        0 <= i < roots.len(),
        ends_with_separator(roots[i]),
    ensures
        schedule(s, roots) == schedule(s, roots.update(i, roots[i].drop_last())),
        schedule(s, roots) == schedule(s, roots.update(i, stripped(roots[i]))),
{
    lemma_stripped_is_stable(roots[i]);
    assert(stripped_all(roots) =~= stripped_all(roots.update(i, roots[i].drop_last())));
    assert(stripped_all(roots) =~= stripped_all(roots.update(i, stripped(roots[i]))));
}

/// No root is probed, listed or written under a path that ends in a
/// separator: the first access of every root names its normalised path.
pub proof fn lemma_roots_are_normalised(s: State, roots: Seq<Seq<u8>>, i: int)
    requires
        0 <= i < roots.len(),
    ensures
        stripped_all(roots)[i] == stripped(roots[i]),
        !ends_with_separator(stripped_all(roots)[i]),
        idle(s) ==> schedule(s, roots).1 == ProgressView::Continue(
            seq![JobView { node: 0, path: stripped(roots[0]), action: Action::Probe }],
        ),
{
    lemma_stripped_is_a_prefix(roots[i]);
}

} // verus!
