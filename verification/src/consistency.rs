//! What holds of every state of a run, and why every transition keeps it.

use vstd::prelude::*;

use crate::aggregate::keep_first;
use crate::entry::{io_error, verdict_of, EntryKind, VerdictView};
use crate::error::{ErrorView, IoFailure, Operation};
use crate::mode::new_bits;
use crate::model::{
    applying, apply_phase, fail, fail_up, give_up, idle, list, moved, probed, schedule, settled,
    skipped, start_next, step, succeed, tell_done, tell_failed, wanted, Node, Phase, State,
};
use crate::path::stripped_all;
use crate::protocol::{ChildView, EventView, ReplyView};

verus! {

/// Whether entry `c` is a child of `d` that is neither done nor failed.
pub open spec fn open_child(nodes: Seq<Node>, c: int, d: int) -> bool {
    nodes[c].parent matches Some(p) && p == d && !settled(nodes[c].phase)
}

/// How many of the first `k` entries are children of `d` that are neither
/// done nor failed.
pub open spec fn open_children(nodes: Seq<Node>, d: int, k: int) -> nat
    decreases k,
{
    if k <= 0 {
        0
    } else {
        open_children(nodes, d, k - 1) + if open_child(nodes, k - 1, d) {
            1nat
        } else {
            0nat
        }
    }
}

/// What the counters of an entry say, whatever its phase: the root alone has
/// no parent, a child stands after its parent, `pending` counts the children
/// that have not settled, and a failed child has spoiled its parent.
pub open spec fn linked(nodes: Seq<Node>, n: int) -> bool {
    let node = nodes[n];
    &&& node.parent is None <==> n == 0
    &&& node.parent matches Some(p) ==> p < n && (node.phase is Failed ==> nodes[p as int].spoiled)
    &&& node.pending == open_children(nodes, n, nodes.len() as int)
    &&& node.phase is Probing ==> n == 0
}

/// What the phase of an entry says of its counters: only a waiting directory
/// has children that have not settled, and an entry whose own bits are being
/// written has none and no failed child either.
pub open spec fn phased(node: Node) -> bool {
    match node.phase {
        Phase::Waiting => node.pending > 0,
        Phase::Failed => node.pending == 0,
        _ => node.pending == 0 && !node.spoiled,
    }
}

/// Whether entry `n` is consistent.
pub open spec fn node_ok(nodes: Seq<Node>, n: int) -> bool {
    linked(nodes, n) && phased(nodes[n])
}

/// Whether a run that is not over is consistent.
pub open spec fn live(s: State) -> bool {
    &&& s.nodes.len() > 0
    &&& forall|n: int| 0 <= n < s.nodes.len() ==> node_ok(s.nodes, n)
    &&& forall|n: int|
        0 <= n < s.nodes.len() && (s.nodes[n].spoiled || s.nodes[n].phase is Failed)
            ==> s.failure is Some
    &&& s.nodes[0].phase is Probing ==> s.nodes.len() == 1 && s.failure is None
    &&& !settled(s.nodes[0].phase)
}

/// Whether a state is consistent.
pub open spec fn wf(s: State) -> bool {
    &&& s.paths.len() == s.nodes.len()
    &&& s.nodes.len() <= usize::MAX
    &&& 0 <= s.next <= s.roots.len()
    &&& !s.finished && !idle(s) ==> live(s)
}

/// Whether there is room in the arena for what `event` brings: the children
/// of a directory whose listing was outstanding.
pub open spec fn fits(s: State, event: EventView) -> bool {
    event.reply matches ReplyView::Children(children) ==> !s.finished && event.node
        < s.nodes.len() && s.nodes[event.node as int].phase is Listing ==> s.nodes.len()
        + children.len() <= usize::MAX
}

/// Whether entry `x` lies under directory `d`, at any depth.
pub open spec fn under(nodes: Seq<Node>, x: int, d: int) -> bool
    decreases x,
{
    0 <= x < nodes.len() && (nodes[x].parent matches Some(p) && p < x && (p == d || under(
        nodes,
        p as int,
        d,
    )))
}

/// Changing one entry changes the count of open children by what that entry
/// contributed.
pub proof fn lemma_open_children_delta(a: Seq<Node>, b: Seq<Node>, d: int, k: int, c: int)
    requires
        0 <= k <= a.len(),
        k <= b.len(),
        forall|i: int| 0 <= i < k && i != c ==> open_child(a, i, d) == open_child(b, i, d),
    ensures
        open_children(b, d, k) - open_children(a, d, k) == (if 0 <= c < k {
            (if open_child(b, c, d) { 1int } else { 0int }) - (if open_child(a, c, d) { 1int } else { 0int })
        } else {
            0int
        }),
    decreases k,
{
    if k > 0 {
        lemma_open_children_delta(a, b, d, k - 1, c);
    }
}

/// Entries that all are, or all are not, open children of `d` add their
/// number, or nothing, to the count.
pub proof fn lemma_open_children_tail(nodes: Seq<Node>, d: int, lo: int, hi: int, open: bool)
    requires
        0 <= lo <= hi <= nodes.len(),
        forall|i: int| lo <= i < hi ==> open_child(nodes, i, d) == open,
    ensures
        open_children(nodes, d, hi) == open_children(nodes, d, lo) + (if open { hi - lo } else { 0 }),
    decreases hi - lo,
{
    if lo < hi {
        lemma_open_children_tail(nodes, d, lo, hi - 1, open);
    }
}

/// A directory with an open child counts at least one.
pub proof fn lemma_open_children_positive(nodes: Seq<Node>, d: int, k: int, c: int)
    requires
        0 <= c < k <= nodes.len(),
        open_child(nodes, c, d),
    ensures
        open_children(nodes, d, k) >= 1,
    decreases k,
{
    if c < k - 1 {
        lemma_open_children_positive(nodes, d, k - 1, c);
    }
}

/// A directory that counts no open child has none.
pub proof fn lemma_open_children_none(nodes: Seq<Node>, d: int, k: int, c: int)
    requires
        0 <= c < k <= nodes.len(),
        open_children(nodes, d, k) == 0,
    ensures
        !open_child(nodes, c, d),
{
    if open_child(nodes, c, d) {
        lemma_open_children_positive(nodes, d, k, c);
    }
}

/// A directory that counts an open child has one.
pub proof fn lemma_open_children_witness(nodes: Seq<Node>, d: int, k: int) -> (c: int)
    requires
        0 <= k <= nodes.len(),
        open_children(nodes, d, k) > 0,
    ensures
        0 <= c < k,
        open_child(nodes, c, d),
    decreases k,
{
    if open_child(nodes, k - 1, d) {
        k - 1
    } else {
        lemma_open_children_witness(nodes, d, k - 1)
    }
}

/// What giving up an entry leaves untouched, and what it changes.
pub open spec fn failed_from(before: Seq<Node>, after: Seq<Node>) -> bool {
    &&& after.len() == before.len()
    &&& forall|n: int|
        0 <= n < before.len() ==> {
            &&& (#[trigger] after[n]).parent == before[n].parent
            &&& (after[n].phase == before[n].phase || (after[n].phase is Failed && !settled(
                before[n].phase,
            )))
        }
}

/// Whether entry `x` may be given up: none of its children is outstanding,
/// it has not settled, and but for its phase everything is consistent.
pub open spec fn can_fail(nodes: Seq<Node>, x: int) -> bool {
    &&& 0 <= x < nodes.len()
    &&& forall|n: int| 0 <= n < nodes.len() && n != x ==> node_ok(nodes, n)
    &&& linked(nodes, x)
    &&& nodes[x].pending == 0
    &&& !settled(nodes[x].phase)
}

/// Marking an entry failed and telling its parent leaves every entry
/// consistent, except that the parent may now have to be given up in turn.
pub proof fn lemma_tell_failed(nodes: Seq<Node>, x: int)
    requires
        can_fail(nodes, x),
    ensures
        tell_failed(nodes, x).len() == nodes.len(),
        match nodes[x].parent {
            None => forall|n: int| 0 <= n < nodes.len() ==> node_ok(tell_failed(nodes, x), n),
            Some(p) => {
                &&& p < x
                &&& nodes[p as int].pending >= 1
                &&& nodes[p as int].phase is Waiting
                &&& nodes[p as int].pending == 1 ==> can_fail(tell_failed(nodes, x), p as int)
                &&& nodes[p as int].pending != 1 ==> forall|n: int|
                    0 <= n < nodes.len() ==> node_ok(tell_failed(nodes, x), n)
            },
        },
{
    let len = nodes.len() as int;
    let told = tell_failed(nodes, x);
    match nodes[x].parent {
        None => {
            assert forall|n: int| 0 <= n < len implies node_ok(told, n) by {
                lemma_open_children_delta(nodes, told, n, len, x);
                if n != x {
                    assert(node_ok(nodes, n));
                }
            }
        },
        Some(p) => {
            let pi = p as int;
            assert(node_ok(nodes, pi));
            lemma_open_children_positive(nodes, pi, len, x);
            assert forall|n: int| 0 <= n < len && n != pi implies node_ok(told, n) by {
                lemma_open_children_delta(nodes, told, n, len, x);
                if n != x {
                    assert(node_ok(nodes, n));
                }
            }
            lemma_open_children_delta(nodes, told, pi, len, x);
            assert(linked(told, pi));
            if nodes[pi].pending != 1 {
                assert(node_ok(told, pi));
            }
        },
    }
}

/// Marking an entry done and telling its parent leaves every entry
/// consistent, except that the parent may now have to be written or given up.
pub proof fn lemma_tell_done(nodes: Seq<Node>, x: int)
    requires
        0 <= x < nodes.len(),
        forall|n: int| 0 <= n < nodes.len() ==> node_ok(nodes, n),
        nodes[x].phase is Writing,
    ensures
        tell_done(nodes, x).len() == nodes.len(),
        match nodes[x].parent {
            None => x == 0,
            Some(p) => {
                &&& p < x
                &&& nodes[p as int].pending >= 1
                &&& nodes[p as int].phase is Waiting
                &&& forall|n: int|
                    0 <= n < nodes.len() && n != p ==> node_ok(tell_done(nodes, x), n)
                &&& linked(tell_done(nodes, x), p as int)
                &&& nodes[p as int].pending == 1 ==> can_fail(tell_done(nodes, x), p as int)
                &&& nodes[p as int].pending != 1 ==> node_ok(tell_done(nodes, x), p as int)
            },
        },
{
    let len = nodes.len() as int;
    let told = tell_done(nodes, x);
    assert(node_ok(nodes, x));
    match nodes[x].parent {
        None => {},
        Some(p) => {
            let pi = p as int;
            assert(node_ok(nodes, pi));
            lemma_open_children_positive(nodes, pi, len, x);
            assert forall|n: int| 0 <= n < len && n != pi implies node_ok(told, n) by {
                assert(node_ok(nodes, n));
                lemma_open_children_delta(nodes, told, n, len, x);
            }
            lemma_open_children_delta(nodes, told, pi, len, x);
            assert(linked(told, pi));
        },
    }
}

/// Giving up an entry whose children have all settled leaves every entry
/// consistent, whatever had to be given up with it.
pub proof fn lemma_fail_up_ok(nodes: Seq<Node>, x: int)
    requires
        can_fail(nodes, x),
    ensures
        forall|n: int| 0 <= n < nodes.len() ==> node_ok(fail_up(nodes, x), n),
        failed_from(nodes, fail_up(nodes, x)),
        fail_up(nodes, x)[x].phase is Failed,
        forall|n: int|
            0 <= n < nodes.len() && n != x && !under(nodes, x, n) ==> (#[trigger] fail_up(
                nodes,
                x,
            )[n]).phase == nodes[n].phase,
    decreases x,
{
    let len = nodes.len() as int;
    let told = tell_failed(nodes, x);
    lemma_tell_failed(nodes, x);
    match nodes[x].parent {
        None => {},
        Some(p) => {
            let pi = p as int;
            if nodes[pi].pending == 1 {
                lemma_fail_up_ok(told, pi);
                let last = fail_up(told, pi);
                assert forall|n: int| 0 <= n < len implies {
                    &&& (#[trigger] last[n]).parent == nodes[n].parent
                    &&& (last[n].phase == nodes[n].phase || (last[n].phase is Failed && !settled(
                        nodes[n].phase,
                    )))
                } by {
                    assert(told[n].parent == nodes[n].parent);
                }
                assert forall|n: int| 0 <= n < len && n != x && !under(nodes, x, n) implies (
                #[trigger] last[n]).phase == nodes[n].phase by {
                    assert(n != pi);
                    if under(told, pi, n) {
                        lemma_under_same_parents(told, nodes, pi, n);
                    }
                }
            }
        },
    }
}

/// Lying under a directory depends on the parents alone.
pub proof fn lemma_under_same_parents(a: Seq<Node>, b: Seq<Node>, x: int, d: int)
    requires
        a.len() == b.len(),
        forall|n: int| 0 <= n < a.len() ==> (#[trigger] a[n]).parent == b[n].parent,
        under(a, x, d),
    ensures
        under(b, x, d),
    decreases x,
{
    let p = a[x].parent->0 as int;
    assert(a[x].parent == b[x].parent);
    if p != d {
        lemma_under_same_parents(a, b, p, d);
    }
}

/// Starting a root gives a consistent state.
pub proof fn lemma_start_next_wf(s: State)
    requires
        0 <= s.next <= s.roots.len(),
    ensures
        wf(start_next(s).0),
{
    let t = start_next(s).0;
    if !t.finished {
        assert(open_children(t.nodes, 0, 1) == 0) by {
            assert(open_children(t.nodes, 0, 0) == 0);
        }
        assert(node_ok(t.nodes, 0));
    }
}

/// Handing in the roots gives a consistent state.
pub proof fn lemma_schedule_wf(s: State, roots: Seq<Seq<u8>>)
    requires
        wf(s),
    ensures
        wf(schedule(s, roots).0),
{
    if idle(s) {
        lemma_start_next_wf(State { roots: stripped_all(roots), next: 0, ..s });
    }
}

/// Moving an entry without children from one open phase to another keeps
/// the state consistent.
proof fn lemma_issue_wf(s: State, n: int, phase: Phase)
    requires
        s.paths.len() == s.nodes.len(),
        s.nodes.len() <= usize::MAX,
        0 <= s.next <= s.roots.len(),
        !s.finished,
        0 <= n < s.nodes.len(),
        s.nodes[n].pending == 0,
        !s.nodes[n].spoiled,
        linked(s.nodes, n),
        forall|m: int| 0 <= m < s.nodes.len() && m != n ==> node_ok(s.nodes, m),
        forall|m: int|
            0 <= m < s.nodes.len() && (s.nodes[m].spoiled || s.nodes[m].phase is Failed)
                ==> s.failure is Some,
        s.nodes[0].phase is Probing ==> n == 0,
        !settled(s.nodes[0].phase),
        !settled(s.nodes[n].phase),
        phase is Listing || phase is Reading || phase is Writing,
    ensures
        wf(State { nodes: s.nodes.update(n, moved(s.nodes[n], phase)), ..s }),
{
    let after = s.nodes.update(n, moved(s.nodes[n], phase));
    let len = s.nodes.len() as int;
    assert forall|m: int| 0 <= m < len implies node_ok(after, m) by {
        lemma_open_children_delta(s.nodes, after, m, len, n);
        if m != n {
            assert(node_ok(s.nodes, m));
        }
    }
}

/// Giving up an entry whose children have all settled keeps the state
/// consistent.
proof fn lemma_give_up_wf(s: State, n: int)
    requires
        s.paths.len() == s.nodes.len(),
        s.nodes.len() <= usize::MAX,
        0 <= s.next <= s.roots.len(),
        !s.finished,
        can_fail(s.nodes, n),
        s.failure is Some,
        s.nodes[0].phase is Probing ==> n == 0,
        !settled(s.nodes[0].phase),
    ensures
        wf(give_up(s, n).0),
{
    lemma_fail_up_ok(s.nodes, n);
}

/// Listing a directory keeps the state consistent.
proof fn lemma_list_wf(s: State, n: int, children: Seq<ChildView>)
    requires
        wf(s),
        !s.finished,
        0 <= n < s.nodes.len(),
        s.nodes[n].phase is Listing,
        s.nodes.len() + children.len() <= usize::MAX,
    ensures
        wf(list(s, n, children).0),
{
    assert(node_ok(s.nodes, n));
    if children.len() == 0 {
        lemma_issue_wf(s, n, apply_phase(s.config.mode));
    } else {
        let a = s.nodes;
        let b = list(s, n, children).0.nodes;
        let la = a.len() as int;
        let lb = b.len() as int;
        assert(lb == la + children.len());
        assert forall|m: int| 0 <= m < lb implies node_ok(b, m) by {
            if m < la {
                assert(node_ok(a, m));
                lemma_open_children_delta(a, b, m, la, n);
                lemma_open_children_tail(b, m, la, lb, m == n);
            } else {
                assert forall|i: int| 0 <= i < lb implies open_child(b, i, m) == false by {
                    if i < la {
                        assert(node_ok(a, i));
                    }
                }
                lemma_open_children_tail(b, m, 0, lb, false);
                assert(open_children(b, m, 0) == 0);
            }
        }
        assert(b[0].phase is Probing ==> false) by {
            assert(node_ok(a, 0));
        }
    }
}

/// Writing the bits of an entry keeps the state consistent.
proof fn lemma_succeed_wf(s: State, n: int)
    requires
        wf(s),
        !s.finished,
        0 <= n < s.nodes.len(),
        s.nodes[n].phase is Writing,
    ensures
        wf(succeed(s, n).0),
{
    let told = State { nodes: tell_done(s.nodes, n), ..s };
    lemma_tell_done(s.nodes, n);
    assert(node_ok(s.nodes, 0));
    match s.nodes[n].parent {
        None => {
            lemma_start_next_wf(told);
        },
        Some(p) => {
            let pi = p as int;
            let parent = s.nodes[pi];
            if parent.pending != 1 {
            } else if parent.spoiled {
                lemma_give_up_wf(told, pi);
            } else {
                lemma_issue_wf(told, pi, apply_phase(s.config.mode));
            }
        },
    }
}

/// An entry with an access outstanding fails: the state stays consistent.
proof fn lemma_fail_wf(s: State, n: int, failure: ErrorView)
    requires
        wf(s),
        !s.finished,
        0 <= n < s.nodes.len(),
        s.nodes[n].phase is Probing || s.nodes[n].phase is Listing || s.nodes[n].phase is Reading
            || s.nodes[n].phase is Writing,
    ensures
        wf(fail(s, n, failure).0),
{
    assert(node_ok(s.nodes, n));
    assert(node_ok(s.nodes, 0));
    lemma_give_up_wf(State { failure: keep_first(s.failure, failure), ..s }, n);
}

/// Skipping an access that is no longer wanted keeps the state consistent.
proof fn lemma_skipped_wf(s: State, n: int)
    requires
        wf(s),
        !s.finished,
        0 <= n < s.nodes.len(),
        s.nodes[n].phase is Listing || s.nodes[n].phase is Reading || s.nodes[n].phase is Writing,
    ensures
        wf(skipped(s, n).0),
{
    assert(node_ok(s.nodes, n));
    assert(node_ok(s.nodes, 0));
    if !wanted(s, n) {
        lemma_give_up_wf(s, n);
    }
}

/// Every transition keeps the state consistent.
pub proof fn lemma_step_wf(s: State, event: EventView)
    requires
        wf(s),
        fits(s, event),
    ensures
        wf(step(s, event).0),
{
    let n = event.node as int;
    if s.finished || n >= s.nodes.len() || s.paths.len() != s.nodes.len() {
    } else {
        assert(node_ok(s.nodes, n));
        assert(node_ok(s.nodes, 0));
        match (s.nodes[n].phase, event.reply) {
            (Phase::Probing, ReplyView::Kind(kind)) => {
                lemma_probed_wf(s, n, Ok(kind));
            },
            (Phase::Probing, ReplyView::Failed(failure)) => {
                lemma_probed_wf(s, n, Err(failure));
            },
            (Phase::Listing, ReplyView::Children(children)) => {
                lemma_list_wf(s, n, children);
            },
            (Phase::Listing, ReplyView::Failed(failure)) => {
                lemma_fail_wf(
                    s,
                    n,
                    io_error(
                        failure,
                        Operation::ReadDirectory,
                        s.paths[n],
                    ),
                );
            },
            (Phase::Reading, ReplyView::Mode(word)) => {
                match new_bits(s.config.mode, word, s.config.umask) {
                    Ok(bits) => {
                        lemma_issue_wf(s, n, Phase::Writing);
                    },
                    Err(e) => {
                        lemma_fail_wf(s, n, e);
                    },
                }
            },
            (Phase::Reading, ReplyView::Failed(failure)) => {
                lemma_fail_wf(
                    s,
                    n,
                    io_error(failure, Operation::ReadMode, s.paths[n]),
                );
            },
            (Phase::Writing, ReplyView::Written) => {
                lemma_succeed_wf(s, n);
            },
            (Phase::Writing, ReplyView::Failed(failure)) => {
                lemma_fail_wf(
                    s,
                    n,
                    io_error(failure, Operation::WriteMode, s.paths[n]),
                );
            },
            (Phase::Listing, ReplyView::Skipped) => {
                lemma_skipped_wf(s, n);
            },
            (Phase::Reading, ReplyView::Skipped) => {
                lemma_skipped_wf(s, n);
            },
            (Phase::Writing, ReplyView::Skipped) => {
                lemma_skipped_wf(s, n);
            },
            _ => {},
        }
    }
}

/// Answering the metadata read of a root keeps the state consistent.
proof fn lemma_probed_wf(s: State, n: int, probe: Result<EntryKind, IoFailure>)
    requires
        wf(s),
        !s.finished,
        0 <= n < s.nodes.len(),
        s.nodes[n].phase is Probing,
    ensures
        wf(probed(s, n, probe).0),
{
    assert(node_ok(s.nodes, n));
    match verdict_of(s.paths[n], probe, s.config.force) {
        VerdictView::Skip => {
            lemma_start_next_wf(s);
        },
        VerdictView::Enter => {
            lemma_issue_wf(s, n, Phase::Listing);
        },
        VerdictView::Apply => {
            lemma_issue_wf(s, n, apply_phase(s.config.mode));
        },
        VerdictView::Fail(e) => {
            lemma_fail_wf(s, n, e);
        },
    }
}

/// Children before parents: in a run that is not over, once the bits of a
/// directory are being written or have been written, the bits of every
/// entry under it, at any depth, have been written.
pub proof fn lemma_children_first(s: State, d: int, x: int)
    requires
        wf(s),
        !s.finished,
        0 <= d < s.nodes.len(),
        applying(s.nodes[d].phase),
        under(s.nodes, x, d),
    ensures
        s.nodes[x].phase is Done,
    decreases x,
{
    let len = s.nodes.len() as int;
    let p = s.nodes[x].parent->0 as int;
    assert(node_ok(s.nodes, x));
    assert(node_ok(s.nodes, p));
    if p != d {
        lemma_children_first(s, d, p);
    }
    lemma_open_children_none(s.nodes, p, len, x);
}

} // verus!
