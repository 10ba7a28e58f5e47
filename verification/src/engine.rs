//! The reactive engine: value cells, the tracking stack, computation
//! records, and the propagation scheduler.
//!
//! All state lives in one [`Runtime`]. Cells and computations are addressed
//! by index; the subscription relation (which computation reads which cell)
//! is a flat, duplicate-free edge list, so "subscriber set of a cell" and
//! "dependency set of a computation" are the two projections of one
//! relation and can never disagree.

use vstd::prelude::*;
use vstd::pervasive::VecAdditionalExecFns;

use crate::ops::Op;
use crate::ops::Signal;
use crate::ops::op_calm;
use crate::ops::op_must_fail;
use crate::ops::op_flat;
use crate::ops::op_quiet;
use crate::ops::lemma_flat_is_calm;
use crate::ops::op_valid;
use crate::ops::copy_op;
use crate::ops::lemma_op_valid_mono;

verus! {

broadcast use vstd::seq_lib::lemma_seq_contains_after_push;

/// A subscription edge: computation `comp` read cell `cell` during its
/// latest run, so a write to `cell` must re-run `comp`.
#[derive(Clone, Copy, PartialEq, Eq, Structural, Debug)]
pub struct Edge {
    pub cell: usize,
    pub comp: usize,
}

/// An ownership link: computation `child` was created during the latest run
/// of computation `parent`, and is disposed when that run is discarded.
#[derive(Clone, Copy, PartialEq, Eq, Structural, Debug)]
pub struct Link {
    pub parent: usize,
    pub child: usize,
}

/// One tracked read: computation `comp` read value `value` from cell `cell`.
/// The log is the engine's observable record of effect activity.
#[derive(Clone, Copy, PartialEq, Eq, Structural, Debug)]
pub struct LogEntry {
    pub comp: usize,
    pub cell: usize,
    pub value: u64,
}

/// A handle to a computation, as returned by [`with_reactive_context`].
#[derive(Clone, Copy, PartialEq, Eq, Structural, Debug)]
pub struct EffectHandle {
    pub id: usize,
}

/// Errors reported by propagation.
#[derive(Clone, Copy, PartialEq, Eq, Structural, Debug)]
pub enum RuntimeError {
    /// A propagation round kept making computations pending without
    /// converging and was stopped at [`ROUND_CAP`] re-runs.
    ReentrancyOverflow,
    /// Some computation's body failed during the round. The round still
    /// drained completely; the failure is reported once it has.
    ComputationFailure,
}

/// Upper bound on re-runs within one propagation round; a round that would
/// exceed it is cut off and reported as [`RuntimeError::ReentrancyOverflow`].
pub const ROUND_CAP: usize = 10000;

/// The whole engine state.
pub struct Runtime {
    /// Current value of each cell.
    pub values: Vec<u64>,
    /// The subscription relation, in chronological order of registration.
    pub edges: Vec<Edge>,
    /// Parent/child links between computations.
    pub links: Vec<Link>,
    /// Each computation's re-run procedure.
    pub bodies: Vec<Op>,
    /// Whether each computation has been disposed.
    pub disposed: Vec<bool>,
    /// How many times each computation has run (ghost: unbounded).
    pub runs: Ghost<Seq<nat>>,
    /// How many times each computation has been made pending (ghost):
    /// together with `runs` it bounds re-runs to once per enqueue.
    pub queued: Ghost<Seq<nat>>,
    /// For each computation, the log length at the start of its latest run:
    /// everything it read during that run sits at this index or later.
    pub marks: Ghost<Seq<int>>,
    /// The tracking context: ids of computations currently running,
    /// innermost last. Reads are attributed to the top entry.
    pub stack: Vec<usize>,
    /// Computations made stale by writes in the current round, in
    /// first-enqueued-first-run order, without duplicates.
    pub pending: Vec<usize>,
    /// Whether a propagation round is currently draining; writes that happen
    /// while it is only enqueue, and the outer drain picks them up.
    pub draining: bool,
    /// All tracked reads ever performed, in order.
    pub log: Vec<LogEntry>,
}

impl Runtime {
    /// Number of cells created so far.
    pub open spec fn n_cells(self) -> int {
        self.values@.len() as int
    }

    /// Number of computations created so far.
    pub open spec fn n_comps(self) -> int {
        self.bodies@.len() as int
    }

    /// The subscription relation: `comp` currently depends on `cell`.
    pub open spec fn has_edge(self, cell: usize, comp: usize) -> bool {
        exists|i: int| 0 <= i < self.edges@.len() && self.edges@[i] == (Edge { cell, comp })
    }

    /// `child` is currently owned by `parent`.
    pub open spec fn has_link(self, parent: usize, child: usize) -> bool {
        exists|i: int| 0 <= i < self.links@.len() && self.links@[i] == (Link { parent, child })
    }

    /// `child` is currently owned by some parent. A computation without a
    /// parent (one created at top level) can only be disposed explicitly.
    pub open spec fn has_parent(self, child: usize) -> bool {
        exists|i: int| 0 <= i < self.links@.len() && (#[trigger] self.links@[i]).child == child
    }

    /// Computation `comp` read cell `cell` at some point during its latest
    /// run (at or after its mark).
    pub open spec fn read_logged(self, comp: usize, cell: usize) -> bool {
        exists|i: int|
            self.marks@[comp as int] <= i < self.log@.len() && (#[trigger] self.log@[i]).comp
                == comp && self.log@[i].cell == cell
    }

    /// The per-computation records line up.
    pub open spec fn comps_aligned(self) -> bool {
        &&& self.disposed@.len() == self.bodies@.len()
        &&& self.runs@.len() == self.bodies@.len()
        &&& self.queued@.len() == self.bodies@.len()
        &&& self.marks@.len() == self.bodies@.len()
    }

    /// Subscription edges point at real, live endpoints and never repeat:
    /// duplicate subscriptions must not occur.
    pub open spec fn edges_ok(self) -> bool {
        &&& forall|i: int|
            0 <= i < self.edges@.len() ==> (#[trigger] self.edges@[i]).cell < self.n_cells()
                && self.edges@[i].comp < self.n_comps() && !self.disposed@[self.edges@[
                i
            ].comp as int]
        &&& forall|i: int, j: int|
            0 <= i < j < self.edges@.len() ==> self.edges@[i] != self.edges@[j]
    }

    /// Ownership links point at real, live computations, run from a parent
    /// to a later-created child, and never repeat.
    pub open spec fn links_ok(self) -> bool {
        &&& forall|i: int|
            0 <= i < self.links@.len() ==> (#[trigger] self.links@[i]).parent < self.links@[
                i
            ].child && self.links@[i].child < self.n_comps() && !self.disposed@[self.links@[
                i
            ].parent as int] && !self.disposed@[self.links@[i].child as int]
        &&& forall|i: int, j: int|
            0 <= i < j < self.links@.len() ==> self.links@[i] != self.links@[j]
    }

    /// The tracking stack only holds live computations.
    pub open spec fn stack_ok(self) -> bool {
        forall|i: int|
            0 <= i < self.stack@.len() ==> (#[trigger] self.stack@[i]) < self.n_comps()
                && !self.disposed@[self.stack@[i] as int]
    }

    /// The pending set holds real computations, each at most once.
    pub open spec fn pending_ok(self) -> bool {
        &&& forall|i: int|
            0 <= i < self.pending@.len() ==> (#[trigger] self.pending@[i]) < self.n_comps()
        &&& forall|i: int, j: int|
            0 <= i < j < self.pending@.len() ==> self.pending@[i] != self.pending@[j]
    }

    /// Every mark points into the log.
    pub open spec fn marks_ok(self) -> bool {
        forall|k: int| 0 <= k < self.n_comps() ==> 0 <= #[trigger] self.marks@[k] <= self.log@.len()
    }

    /// Every stored body only mentions cells that exist.
    pub open spec fn bodies_ok(self) -> bool {
        forall|k: int| 0 <= k < self.n_comps() ==> op_valid(#[trigger] self.bodies@[k], self.n_cells())
    }

    /// The central bookkeeping law: a live computation's dependency set is
    /// exactly the set of cells it read during its latest run — neither a
    /// stale subscription from an earlier run nor a missing one.
    pub open spec fn deps_exact(self) -> bool {
        forall|cell: usize, comp: usize|
            0 <= comp < self.n_comps() && !self.disposed@[comp as int] ==> ((#[trigger] self.has_edge(
                cell,
                comp,
            )) <==> self.read_logged(comp, cell))
    }

    /// Whether `k` is currently pending, as a count (the pending list holds
    /// each computation at most once).
    pub open spec fn pend01(self, k: usize) -> int {
        if self.pending@.contains(k) {
            1
        } else {
            0
        }
    }

    /// The engine's internal invariant. It holds in every state the engine
    /// ever exposes or passes to its own helpers, including mid-run.
    pub open spec fn wf(self) -> bool {
        &&& self.comps_aligned()
        &&& self.edges_ok()
        &&& self.links_ok()
        &&& self.stack_ok()
        &&& self.pending_ok()
        &&& self.marks_ok()
        &&& self.bodies_ok()
        &&& self.deps_exact()
    }

    /// No round in progress: nothing on the tracking stack, nothing pending.
    /// Every public entry point both expects and restores this.
    pub open spec fn idle(self) -> bool {
        &&& self.stack@.len() == 0
        &&& self.pending@.len() == 0
        &&& !self.draining
    }

    /// No stored body writes a cell or fails, so no run can make further
    /// work pending: propagation reduces to one deduplicated round.
    pub open spec fn calm(self) -> bool {
        forall|k: int| 0 <= k < self.n_comps() ==> op_calm(#[trigger] self.bodies@[k])
    }

    /// Every pending computation is live and has a body that only reads:
    /// the coming round is one deduplicated FIFO pass whose exact log is
    /// `round_reads` of the queue.
    pub open spec fn flat_queue(self) -> bool {
        forall|j: int|
            0 <= j < self.pending@.len() ==> op_flat(
                #[trigger] self.bodies@[self.pending@[j] as int],
            ) && !self.disposed@[self.pending@[j] as int]
    }

    /// Every pending computation's body never writes: the coming round is a
    /// single deduplicated pass that cannot overflow, and each pending
    /// computation that stays live runs exactly once.
    pub open spec fn quiet_queue(self) -> bool {
        forall|j: int|
            0 <= j < self.pending@.len() ==> op_quiet(
                #[trigger] self.bodies@[self.pending@[j] as int],
            )
    }

    /// A fresh runtime: no cells, no computations, nothing pending.
    pub fn new() -> (rt: Runtime)
        ensures
            rt.wf(),
            rt.idle(),
            rt.calm(),
            rt.n_cells() == 0,
            rt.n_comps() == 0,
            rt.log@.len() == 0,
            rt.edges@.len() == 0,
    {
        Runtime {
            values: Vec::new(),
            edges: Vec::new(),
            links: Vec::new(),
            bodies: Vec::new(),
            disposed: Vec::new(),
            runs: Ghost(Seq::empty()),
            queued: Ghost(Seq::empty()),
            marks: Ghost(Seq::empty()),
            stack: Vec::new(),
            pending: Vec::new(),
            draining: false,
            log: Vec::new(),
        }
    }
}

/// Constructs a log entry.
pub open spec fn log_entry(comp: usize, cell: usize, value: u64) -> LogEntry {
    LogEntry { comp, cell, value }
}

/// The exact log record of one run of a read-only program by computation
/// `me` against the given cell values: every read, in execution order,
/// branches resolved by the scrutinee's value.
pub open spec fn reads_of(op: Op, values: Seq<u64>, me: usize) -> Seq<LogEntry>
    decreases op,
{
    match op {
        Op::Skip => Seq::empty(),
        Op::Read(s) => seq![log_entry(me, s.id, values[s.id as int])],
        Op::Write(_, _) => Seq::empty(),
        Op::Then(a, b) => reads_of(*a, values, me) + reads_of(*b, values, me),
        Op::Branch(s, a, b) => seq![log_entry(me, s.id, values[s.id as int])] + (if values[
            s.id as int
        ] != 0 {
            reads_of(*a, values, me)
        } else {
            reads_of(*b, values, me)
        }),
        Op::Child(_) => Seq::empty(),
        Op::Fail => Seq::empty(),
    }
}

/// One tracked read's effect on the subscription relation: the edge is
/// appended unless it is already present.
pub open spec fn add_edge(edges: Seq<Edge>, e: LogEntry) -> Seq<Edge> {
    if edges.contains((Edge { cell: e.cell, comp: e.comp })) {
        edges
    } else {
        edges.push((Edge { cell: e.cell, comp: e.comp }))
    }
}

/// The subscription relation after a sequence of tracked reads, in order.
pub open spec fn edges_after(edges: Seq<Edge>, entries: Seq<LogEntry>) -> Seq<Edge>
    decreases entries.len(),
{
    if entries.len() == 0 {
        edges
    } else {
        edges_after(add_edge(edges, entries[0]), entries.skip(1))
    }
}

/// Reads performed one after the other fold one after the other.
proof fn lemma_edges_after_concat(edges: Seq<Edge>, a: Seq<LogEntry>, b: Seq<LogEntry>)
    ensures
        edges_after(edges, a + b) == edges_after(edges_after(edges, a), b),
    decreases a.len(),
{
    if a.len() == 0 {
        assert(a + b =~= b);
        assert(edges_after(edges, a) == edges);
    } else {
        assert((a + b)[0] == a[0]);
        assert((a + b).skip(1) =~= a.skip(1) + b);
        lemma_edges_after_concat(add_edge(edges, a[0]), a.skip(1), b);
    }
}

/// The computations subscribed to `cell`, in subscription order: exactly the
/// order in which a write to `cell` enqueues them.
pub open spec fn subs_in_order(edges: Seq<Edge>, cell: usize) -> Seq<usize>
    decreases edges.len(),
{
    if edges.len() == 0 {
        Seq::empty()
    } else {
        (if edges[0].cell == cell {
            seq![edges[0].comp]
        } else {
            Seq::empty()
        }) + subs_in_order(edges.skip(1), cell)
    }
}

/// Appending one edge appends (at most) one subscriber at the back.
proof fn lemma_subs_in_order_push(q: Seq<Edge>, e: Edge, cell: usize)
    ensures
        subs_in_order(q.push(e), cell) == subs_in_order(q, cell) + (if e.cell == cell {
            seq![e.comp]
        } else {
            Seq::<usize>::empty()
        }),
    decreases q.len(),
{
    let tail: Seq<usize> = if e.cell == cell {
        seq![e.comp]
    } else {
        Seq::empty()
    };
    if q.len() == 0 {
        assert(q.push(e)[0] == e);
        assert(q.push(e).skip(1) =~= Seq::<Edge>::empty());
        assert(subs_in_order(q.push(e).skip(1), cell) == Seq::<usize>::empty());
        assert(subs_in_order(q.push(e), cell) == tail + Seq::<usize>::empty());
        assert(tail + Seq::<usize>::empty() =~= tail);
        assert(subs_in_order(q, cell) + tail =~= tail);
    } else {
        assert(q.push(e)[0] == q[0]);
        assert(q.push(e).skip(1) =~= q.skip(1).push(e));
        lemma_subs_in_order_push(q.skip(1), e, cell);
        let head: Seq<usize> = if q[0].cell == cell {
            seq![q[0].comp]
        } else {
            Seq::empty()
        };
        assert(subs_in_order(q.push(e), cell) == head + (subs_in_order(q.skip(1), cell) + tail));
        assert(subs_in_order(q, cell) == head + subs_in_order(q.skip(1), cell));
        assert(head + (subs_in_order(q.skip(1), cell) + tail) =~= (head + subs_in_order(
            q.skip(1),
            cell,
        )) + tail);
    }
}

/// The exact log record of one propagation round that re-runs the queued
/// computations in order, each against the same cell values (sound when
/// every queued body only reads).
pub open spec fn round_reads(bodies: Seq<Op>, values: Seq<u64>, queue: Seq<usize>) -> Seq<
    LogEntry,
>
    decreases queue.len(),
{
    if queue.len() == 0 {
        Seq::empty()
    } else {
        reads_of(bodies[queue[0] as int], values, queue[0]) + round_reads(
            bodies,
            values,
            queue.skip(1),
        )
    }
}

/// Queueing one more computation appends exactly its run's reads.
proof fn lemma_round_reads_push(bodies: Seq<Op>, values: Seq<u64>, queue: Seq<usize>, k: usize)
    ensures
        round_reads(bodies, values, queue.push(k)) == round_reads(bodies, values, queue)
            + reads_of(bodies[k as int], values, k),
    decreases queue.len(),
{
    let tail = reads_of(bodies[k as int], values, k);
    if queue.len() == 0 {
        assert(queue.push(k)[0] == k);
        assert(queue.push(k).skip(1) =~= Seq::<usize>::empty());
        assert(round_reads(bodies, values, queue.push(k).skip(1)) == Seq::<LogEntry>::empty());
        assert(round_reads(bodies, values, queue.push(k)) == tail + Seq::<LogEntry>::empty());
        assert(tail + Seq::<LogEntry>::empty() =~= tail);
        assert(round_reads(bodies, values, queue) + tail =~= tail);
    } else {
        assert(queue.push(k)[0] == queue[0]);
        assert(queue.push(k).skip(1) =~= queue.skip(1).push(k));
        lemma_round_reads_push(bodies, values, queue.skip(1), k);
        let head = reads_of(bodies[queue[0] as int], values, queue[0]);
        assert(round_reads(bodies, values, queue.push(k)) == head + (round_reads(
            bodies,
            values,
            queue.skip(1),
        ) + tail));
        assert(round_reads(bodies, values, queue) == head + round_reads(
            bodies,
            values,
            queue.skip(1),
        ));
        assert(head + (round_reads(bodies, values, queue.skip(1)) + tail) =~= (head + round_reads(
            bodies,
            values,
            queue.skip(1),
        )) + tail);
    }
}

/// Two states with the same subscription edges agree on `has_edge`.
proof fn lemma_same_edges(a: Runtime, b: Runtime, cell: usize, comp: usize)
    requires
        a.edges@ == b.edges@,
    ensures
        a.has_edge(cell, comp) == b.has_edge(cell, comp),
{
    if a.has_edge(cell, comp) {
        let i = choose|i: int|
            0 <= i < a.edges@.len() && a.edges@[i] == (Edge { cell, comp });
        assert(b.edges@[i] == (Edge { cell, comp }));
    }
    if b.has_edge(cell, comp) {
        let i = choose|i: int|
            0 <= i < b.edges@.len() && b.edges@[i] == (Edge { cell, comp });
        assert(a.edges@[i] == (Edge { cell, comp }));
    }
}

/// Two states with the same ownership links agree on `has_link`.
proof fn lemma_same_links(a: Runtime, b: Runtime, p: usize, k: usize)
    requires
        a.links@ == b.links@,
    ensures
        a.has_link(p, k) == b.has_link(p, k),
{
    if a.has_link(p, k) {
        let i = choose|i: int|
            0 <= i < a.links@.len() && a.links@[i] == (Link { parent: p, child: k });
        assert(b.links@[i] == (Link { parent: p, child: k }));
    }
    if b.has_link(p, k) {
        let i = choose|i: int|
            0 <= i < b.links@.len() && b.links@[i] == (Link { parent: p, child: k });
        assert(a.links@[i] == (Link { parent: p, child: k }));
    }
}

/// Two states with the same ownership links agree on `has_link` and
/// `has_parent`, at every argument.
proof fn lemma_links_id(a: Runtime, b: Runtime)
    requires
        a.links@ == b.links@,
    ensures
        forall|p: usize, k: usize| #[trigger] a.has_link(p, k) ==> b.has_link(p, k),
        forall|p: usize, k: usize| #[trigger] b.has_link(p, k) ==> a.has_link(p, k),
        forall|k: usize| #[trigger] a.has_parent(k) ==> b.has_parent(k),
        forall|k: usize| #[trigger] b.has_parent(k) ==> a.has_parent(k),
{
    assert forall|p: usize, k: usize| #[trigger] a.has_link(p, k) implies b.has_link(p, k) by {
        lemma_same_links(a, b, p, k);
    }
    assert forall|p: usize, k: usize| #[trigger] b.has_link(p, k) implies a.has_link(p, k) by {
        lemma_same_links(a, b, p, k);
    }
    assert forall|k: usize| #[trigger] a.has_parent(k) implies b.has_parent(k) by {
        let i = choose|i: int| 0 <= i < a.links@.len() && (#[trigger] a.links@[i]).child == k;
        assert((#[trigger] b.links@[i]).child == k);
    }
    assert forall|k: usize| #[trigger] b.has_parent(k) implies a.has_parent(k) by {
        let i = choose|i: int| 0 <= i < b.links@.len() && (#[trigger] b.links@[i]).child == k;
        assert((#[trigger] a.links@[i]).child == k);
    }
}

/// Two states with the same log and the same marks agree on `read_logged`.
proof fn lemma_same_reads(a: Runtime, b: Runtime, comp: usize, cell: usize)
    requires
        a.log@ == b.log@,
        a.marks@[comp as int] == b.marks@[comp as int],
    ensures
        a.read_logged(comp, cell) == b.read_logged(comp, cell),
{
    if a.read_logged(comp, cell) {
        let i = choose|i: int|
            a.marks@[comp as int] <= i < a.log@.len() && (#[trigger] a.log@[i]).comp == comp
                && a.log@[i].cell == cell;
        assert(b.marks@[comp as int] <= i < b.log@.len() && b.log@[i].comp == comp && b.log@[
            i
        ].cell == cell);
    }
    if b.read_logged(comp, cell) {
        let i = choose|i: int|
            b.marks@[comp as int] <= i < b.log@.len() && (#[trigger] b.log@[i]).comp == comp
                && b.log@[i].cell == cell;
        assert(a.marks@[comp as int] <= i < a.log@.len() && a.log@[i].comp == comp && a.log@[
            i
        ].cell == cell);
    }
}

/// Linear membership test on an id list.
fn vec_contains_usize(v: &Vec<usize>, x: usize) -> (r: bool)
    ensures
        r == v@.contains(x),
{
    let mut i: usize = 0;
    while i < v.len()
        invariant
            i <= v@.len(),
            forall|j: int| 0 <= j < i ==> v@[j] != x,
        decreases v@.len() - i,
    {
        if v[i] == x {
            assert(v@[i as int] == x);
            return true;
        }
        i += 1;
    }
    false
}

/// Linear membership test on the subscription relation.
fn edge_present(edges: &Vec<Edge>, cell: usize, comp: usize) -> (r: bool)
    ensures
        r == edges@.contains((Edge { cell, comp })),
{
    let mut i: usize = 0;
    while i < edges.len()
        invariant
            i <= edges@.len(),
            forall|j: int| 0 <= j < i ==> edges@[j] != (Edge { cell, comp }),
        decreases edges@.len() - i,
    {
        let e = edges[i];
        if e.cell == cell && e.comp == comp {
            assert(edges@[i as int] == (Edge { cell, comp }));
            return true;
        }
        i += 1;
    }
    false
}

/// Registers `comp` as a subscriber of `cell` (idempotent) and records the
/// read in the log. This is the one way a dependency is ever added.
fn subscribe(rt: &mut Runtime, cell: usize, comp: usize) -> (v: u64)
    requires
        old(rt).wf(),
        cell < old(rt).n_cells(),
        comp < old(rt).n_comps(),
        !old(rt).disposed@[comp as int],
    ensures
        final(rt).wf(),
        v == old(rt).values@[cell as int],
        final(rt).values@ == old(rt).values@,
        final(rt).links@ == old(rt).links@,
        final(rt).bodies@ == old(rt).bodies@,
        final(rt).disposed@ == old(rt).disposed@,
        final(rt).runs@ == old(rt).runs@,
        final(rt).queued@ == old(rt).queued@,
        final(rt).marks@ == old(rt).marks@,
        final(rt).stack@ == old(rt).stack@,
        final(rt).pending@ == old(rt).pending@,
        final(rt).draining == old(rt).draining,
        final(rt).log@ == old(rt).log@.push(log_entry(comp, cell, old(rt).values@[cell as int])),
        final(rt).edges@ == add_edge(
            old(rt).edges@,
            log_entry(comp, cell, old(rt).values@[cell as int]),
        ),
        forall|x: usize, k: usize| #![trigger final(rt).has_edge(x, k)]
            final(rt).has_edge(x, k) <==> (old(rt).has_edge(x, k) || (x == cell && k == comp)),
{
    let v = rt.values[cell];
    if !edge_present(&rt.edges, cell, comp) {
        rt.edges.push(Edge { cell, comp });
    }
    rt.log.push(LogEntry { comp, cell, value: v });
    proof {
        let rt0 = *old(rt);
        assert forall|x: usize, k: usize| #![trigger rt.has_edge(x, k)]
            rt.has_edge(x, k) <==> (rt0.has_edge(x, k) || (x == cell && k == comp)) by {
            if rt0.has_edge(x, k) {
                let i = choose|i: int|
                    0 <= i < rt0.edges@.len() && rt0.edges@[i] == (Edge { cell: x, comp: k });
                assert(rt.edges@[i] == (Edge { cell: x, comp: k }));
            }
            if x == cell && k == comp {
                if rt0.edges@.contains((Edge { cell, comp })) {
                    assert(rt0.has_edge(cell, comp));
                    assert(rt.has_edge(x, k));
                } else {
                    assert(rt.edges@.last() == (Edge { cell, comp }));
                    assert(rt.has_edge(x, k));
                }
            }
            if rt.has_edge(x, k) {
                let i = choose|i: int|
                    0 <= i < rt.edges@.len() && rt.edges@[i] == (Edge { cell: x, comp: k });
                if i < rt0.edges@.len() {
                    assert(rt0.has_edge(x, k));
                }
            }
        }
        assert forall|x: usize, k: usize|
            0 <= k < rt.n_comps() && !rt.disposed@[k as int] implies ((#[trigger] rt.has_edge(
            x,
            k,
        )) <==> rt.read_logged(k, x)) by {
            let n0 = rt0.log@.len() as int;
            assert(rt0.has_edge(x, k) <==> rt0.read_logged(k, x));
            assert(rt.has_edge(x, k) <==> (rt0.has_edge(x, k) || (x == cell && k == comp)));
            if rt0.read_logged(k, x) {
                let i = choose|i: int|
                    rt0.marks@[k as int] <= i < rt0.log@.len() && (#[trigger] rt0.log@[i]).comp == k
                        && rt0.log@[i].cell == x;
                assert(rt.log@[i] == rt0.log@[i]);
                assert(rt.read_logged(k, x));
            }
            if k == comp && x == cell {
                assert(rt.log@[n0].comp == comp && rt.log@[n0].cell == cell);
                assert(rt.marks@[comp as int] <= n0);
                assert(rt.read_logged(k, x));
            }
            if rt.read_logged(k, x) {
                let i = choose|i: int|
                    rt.marks@[k as int] <= i < rt.log@.len() && (#[trigger] rt.log@[i]).comp == k
                        && rt.log@[i].cell == x;
                if i < n0 {
                    assert(rt0.log@[i] == rt.log@[i]);
                    assert(rt0.read_logged(k, x));
                } else {
                    assert(rt.log@[i] == log_entry(comp, cell, rt0.values@[cell as int]));
                    assert(k == comp && x == cell);
                }
            }
        }
    }
    v
}

/// Reads a cell. If a computation is running (the tracking stack is
/// non-empty), the read is attributed to the innermost one, which becomes a
/// subscriber of the cell; a bare read changes nothing at all.
fn read_cell(rt: &mut Runtime, cell: usize) -> (v: u64)
    requires
        old(rt).wf(),
        cell < old(rt).n_cells(),
    ensures
        final(rt).wf(),
        v == old(rt).values@[cell as int],
        final(rt).values@ == old(rt).values@,
        final(rt).links@ == old(rt).links@,
        final(rt).bodies@ == old(rt).bodies@,
        final(rt).disposed@ == old(rt).disposed@,
        final(rt).runs@ == old(rt).runs@,
        final(rt).queued@ == old(rt).queued@,
        final(rt).marks@ == old(rt).marks@,
        final(rt).stack@ == old(rt).stack@,
        final(rt).pending@ == old(rt).pending@,
        final(rt).draining == old(rt).draining,
        old(rt).stack@.len() == 0 ==> final(rt).log@ == old(rt).log@ && final(rt).edges@ == old(
            rt,
        ).edges@,
        old(rt).stack@.len() > 0 ==> final(rt).log@ == old(rt).log@.push(
            log_entry(old(rt).stack@.last(), cell, old(rt).values@[cell as int]),
        ) && final(rt).edges@ == add_edge(
            old(rt).edges@,
            log_entry(old(rt).stack@.last(), cell, old(rt).values@[cell as int]),
        ) && (forall|x: usize, k: usize|
            final(rt).has_edge(x, k) <==> (old(rt).has_edge(x, k) || (x == cell && k == old(
                rt,
            ).stack@.last()))),
{
    if rt.stack.len() > 0 {
        let me = rt.stack[rt.stack.len() - 1];
        assert(me == rt.stack@.last());
        subscribe(rt, cell, me)
    } else {
        rt.values[cell]
    }
}

/// Stores a new value in a cell and makes each of its subscribers pending
/// (deduplicated, in subscription order). It never runs anything: the drain
/// loop of the enclosing round does, so a write from inside a running
/// computation only enqueues.
fn write_cell(rt: &mut Runtime, cell: usize, v: u64)
    requires
        old(rt).wf(),
        cell < old(rt).n_cells(),
    ensures
        final(rt).wf(),
        final(rt).values@ == old(rt).values@.update(cell as int, v),
        final(rt).edges@ == old(rt).edges@,
        final(rt).links@ == old(rt).links@,
        final(rt).bodies@ == old(rt).bodies@,
        final(rt).disposed@ == old(rt).disposed@,
        final(rt).runs@ == old(rt).runs@,
        final(rt).marks@ == old(rt).marks@,
        final(rt).stack@ == old(rt).stack@,
        final(rt).draining == old(rt).draining,
        final(rt).log@ == old(rt).log@,
        final(rt).pending@.len() <= old(rt).pending@.len() + old(rt).edges@.len(),
        final(rt).queued@.len() == old(rt).queued@.len(),
        forall|k: usize|
            k < old(rt).n_comps() ==> #[trigger] final(rt).queued@[k as int] >= old(
                rt,
            ).queued@[k as int],
        forall|k: usize|
            k < old(rt).n_comps() ==> final(rt).pend01(k) - old(rt).pend01(k)
                <= #[trigger] final(rt).queued@[k as int] - old(rt).queued@[k as int],
        forall|k: usize| #![trigger final(rt).pending@.contains(k)]
            final(rt).pending@.contains(k) <==> (old(rt).pending@.contains(k) || old(rt).has_edge(
                cell,
                k,
            )),
        old(rt).pending@.len() == 0 ==> final(rt).pending@ == subs_in_order(
            old(rt).edges@,
            cell,
        ),
{
    rt.values.set(cell, v);
    let mut i: usize = 0;
    while i < rt.edges.len()
        invariant
            old(rt).wf(),
            cell < old(rt).n_cells(),
            rt.values@ == old(rt).values@.update(cell as int, v),
            rt.edges@ == old(rt).edges@,
            rt.links@ == old(rt).links@,
            rt.bodies@ == old(rt).bodies@,
            rt.disposed@ == old(rt).disposed@,
            rt.runs@ == old(rt).runs@,
            rt.marks@ == old(rt).marks@,
            rt.stack@ == old(rt).stack@,
            rt.draining == old(rt).draining,
            rt.log@ == old(rt).log@,
            i <= rt.edges@.len(),
            rt.pending@.len() <= old(rt).pending@.len() + i,
            rt.queued@.len() == old(rt).queued@.len(),
            forall|k: usize|
                k < old(rt).n_comps() ==> #[trigger] rt.queued@[k as int] >= old(rt).queued@[
                    k as int
                ],
            forall|k: usize|
                k < old(rt).n_comps() ==> rt.pend01(k) - old(rt).pend01(k)
                    <= #[trigger] rt.queued@[k as int] - old(rt).queued@[k as int],
            forall|a: int|
                0 <= a < rt.pending@.len() ==> (#[trigger] rt.pending@[a]) < rt.n_comps(),
            forall|a: int, b: int|
                0 <= a < b < rt.pending@.len() ==> rt.pending@[a] != rt.pending@[b],
            forall|k: usize|
                rt.pending@.contains(k) <==> (old(rt).pending@.contains(k) || exists|j: int|
                    0 <= j < i && old(rt).edges@[j] == (Edge { cell, comp: k })),
            old(rt).pending@.len() == 0 ==> rt.pending@ == subs_in_order(
                old(rt).edges@.take(i as int),
                cell,
            ),
        decreases rt.edges@.len() - i,
    {
        let ghost pre = *rt;
        let e = rt.edges[i];
        if e.cell == cell {
            if !vec_contains_usize(&rt.pending, e.comp) {
                rt.pending.push(e.comp);
                rt.queued = Ghost(
                    rt.queued@.update(e.comp as int, rt.queued@[e.comp as int] + 1),
                );
                assert(rt.pending@.contains(e.comp));
                proof {
                    assert forall|k: usize|
                        k < old(rt).n_comps() implies rt.pend01(k) - old(rt).pend01(k)
                        <= #[trigger] rt.queued@[k as int] - old(rt).queued@[k as int] by {
                        if k == e.comp {
                            assert(rt.queued@[k as int] == pre.queued@[k as int] + 1);
                        } else {
                            assert(rt.pending@.contains(k) == pre.pending@.contains(k));
                            assert(rt.queued@[k as int] == pre.queued@[k as int]);
                        }
                    }
                }
            } else {
                proof {
                    if old(rt).pending@.len() == 0 {
                        let j = choose|j: int|
                            0 <= j < i && old(rt).edges@[j] == (Edge { cell, comp: e.comp });
                        assert(old(rt).edges@[j] == old(rt).edges@[i as int]);
                        assert(false);
                    }
                }
            }
        }
        proof {
            if old(rt).pending@.len() == 0 {
                assert(old(rt).edges@.take(i + 1) =~= old(rt).edges@.take(i as int).push(
                    old(rt).edges@[i as int],
                ));
                lemma_subs_in_order_push(old(rt).edges@.take(i as int), old(rt).edges@[i as int], cell);
                assert(rt.pending@ =~= subs_in_order(old(rt).edges@.take(i + 1), cell));
            }
            assert forall|k: usize|
                rt.pending@.contains(k) <==> (old(rt).pending@.contains(k) || exists|j: int|
                    0 <= j < i + 1 && old(rt).edges@[j] == (Edge { cell, comp: k })) by {
                if old(rt).edges@[i as int] == (Edge { cell, comp: k }) {
                    assert(rt.pending@.contains(k));
                } else {
                    assert((exists|j: int|
                        0 <= j < i + 1 && old(rt).edges@[j] == (Edge { cell, comp: k })) ==> exists|
                        j: int,
                    | 0 <= j < i && old(rt).edges@[j] == (Edge { cell, comp: k }));
                    assert(rt.pending@.contains(k) ==> (pre.pending@.contains(k) || k == e.comp));
                }
            }
        }
        i += 1;
    }
    proof {
        if old(rt).pending@.len() == 0 {
            assert(old(rt).edges@.take(rt.edges@.len() as int) =~= old(rt).edges@);
        }
        assert forall|k: usize|
            rt.pending@.contains(k) <==> (old(rt).pending@.contains(k) || old(rt).has_edge(
                cell,
                k,
            )) by {
            if old(rt).has_edge(cell, k) {
                let j = choose|j: int|
                    0 <= j < old(rt).edges@.len() && old(rt).edges@[j] == (Edge { cell, comp: k });
                assert(exists|j: int|
                    0 <= j < rt.edges@.len() && old(rt).edges@[j] == (Edge { cell, comp: k }));
            }
            if exists|j: int|
                0 <= j < rt.edges@.len() && old(rt).edges@[j] == (Edge { cell, comp: k }) {
                let j = choose|j: int|
                    0 <= j < rt.edges@.len() && old(rt).edges@[j] == (Edge { cell, comp: k });
                assert(old(rt).has_edge(cell, k));
            }
        }
        assert forall|x: usize, k: usize|
            0 <= k < rt.n_comps() && !rt.disposed@[k as int] implies ((#[trigger] rt.has_edge(
            x,
            k,
        )) <==> rt.read_logged(k, x)) by {
            lemma_same_edges(*old(rt), *rt, x, k);
            lemma_same_reads(*old(rt), *rt, k, x);
            assert(old(rt).has_edge(x, k) <==> old(rt).read_logged(k, x));
        }
    }
}

/// Removes every subscription edge of computation `c`, keeping all others.
fn retain_edges_without_comp(edges: &mut Vec<Edge>, c: usize)
    requires
        forall|i: int, j: int|
            0 <= i < j < old(edges)@.len() ==> old(edges)@[i] != old(edges)@[j],
    ensures
        forall|i: int, j: int|
            0 <= i < j < final(edges)@.len() ==> final(edges)@[i] != final(edges)@[j],
        final(edges)@.len() <= old(edges)@.len(),
        forall|e: Edge|
            final(edges)@.contains(e) <==> (old(edges)@.contains(e) && e.comp != c),
        (forall|i: int| 0 <= i < old(edges)@.len() ==> (#[trigger] old(edges)@[i]).comp != c)
            ==> final(edges)@ == old(edges)@,
{
    let mut out: Vec<Edge> = Vec::new();
    let mut i: usize = 0;
    while i < edges.len()
        invariant
            forall|a: int, b: int|
                0 <= a < b < edges@.len() ==> edges@[a] != edges@[b],
            i <= edges@.len(),
            out@.len() <= i,
            forall|a: int, b: int| 0 <= a < b < out@.len() ==> out@[a] != out@[b],
            forall|e: Edge|
                out@.contains(e) <==> ((exists|j: int| 0 <= j < i && edges@[j] == e) && e.comp
                    != c),
            (forall|a: int| 0 <= a < edges@.len() ==> (#[trigger] edges@[a]).comp != c)
                ==> out@ == edges@.take(i as int),
        decreases edges@.len() - i,
    {
        let ghost pre = out@;
        let e = edges[i];
        proof {
            if forall|a: int| 0 <= a < edges@.len() ==> (#[trigger] edges@[a]).comp != c {
                assert(edges@.take(i + 1) =~= edges@.take(i as int).push(e));
            }
        }
        if e.comp != c {
            out.push(e);
            proof {
                if pre.contains(e) {
                    let a = choose|a: int| 0 <= a < pre.len() && pre[a] == e;
                    let j = choose|j: int| 0 <= j < i && edges@[j] == e;
                    assert(edges@[j] == edges@[i as int]);
                    assert(false);
                }
            }
        }
        proof {
            assert forall|x: Edge|
                out@.contains(x) <==> ((exists|j: int| 0 <= j < i + 1 && edges@[j] == x) && x.comp
                    != c) by {
                if edges@[i as int] == x && x.comp != c {
                    assert(out@.contains(x));
                }
                if out@.contains(x) && !pre.contains(x) {
                    assert(x == e);
                    assert(edges@[i as int] == x);
                }
            }
        }
        i += 1;
    }
    *edges = out;
    proof {
        if forall|a: int| 0 <= a < old(edges)@.len() ==> (#[trigger] old(edges)@[a]).comp != c {
            assert(old(edges)@.take(old(edges)@.len() as int) =~= old(edges)@);
        }
        assert forall|e: Edge|
            final(edges)@.contains(e) <==> (old(edges)@.contains(e) && e.comp != c) by {
            if old(edges)@.contains(e) {
                let j = choose|j: int| 0 <= j < old(edges)@.len() && old(edges)@[j] == e;
                assert(exists|j: int| 0 <= j < old(edges)@.len() && old(edges)@[j] == e);
            }
        }
    }
}

/// Removes every ownership link that touches computation `c` (as parent or
/// as child), keeping all others.
fn retain_links_avoiding(links: &mut Vec<Link>, c: usize)
    requires
        forall|i: int, j: int|
            0 <= i < j < old(links)@.len() ==> old(links)@[i] != old(links)@[j],
    ensures
        forall|i: int, j: int|
            0 <= i < j < final(links)@.len() ==> final(links)@[i] != final(links)@[j],
        final(links)@.len() <= old(links)@.len(),
        forall|l: Link|
            final(links)@.contains(l) <==> (old(links)@.contains(l) && l.parent != c && l.child
                != c),
{
    let mut out: Vec<Link> = Vec::new();
    let mut i: usize = 0;
    while i < links.len()
        invariant
            forall|a: int, b: int|
                0 <= a < b < links@.len() ==> links@[a] != links@[b],
            i <= links@.len(),
            out@.len() <= i,
            forall|a: int, b: int| 0 <= a < b < out@.len() ==> out@[a] != out@[b],
            forall|l: Link|
                out@.contains(l) <==> ((exists|j: int| 0 <= j < i && links@[j] == l) && l.parent
                    != c && l.child != c),
        decreases links@.len() - i,
    {
        let ghost pre = out@;
        let l = links[i];
        if l.parent != c && l.child != c {
            out.push(l);
            proof {
                if pre.contains(l) {
                    let a = choose|a: int| 0 <= a < pre.len() && pre[a] == l;
                    let j = choose|j: int| 0 <= j < i && links@[j] == l;
                    assert(links@[j] == links@[i as int]);
                    assert(false);
                }
            }
        }
        proof {
            assert forall|x: Link|
                out@.contains(x) <==> ((exists|j: int| 0 <= j < i + 1 && links@[j] == x) && x.parent
                    != c && x.child != c) by {
                if links@[i as int] == x && x.parent != c && x.child != c {
                    assert(out@.contains(x));
                }
                if out@.contains(x) && !pre.contains(x) {
                    assert(x == l);
                    assert(links@[i as int] == x);
                }
            }
        }
        i += 1;
    }
    *links = out;
    proof {
        assert forall|l: Link|
            final(links)@.contains(l) <==> (old(links)@.contains(l) && l.parent != c && l.child
                != c) by {
            if old(links)@.contains(l) {
                let j = choose|j: int| 0 <= j < old(links)@.len() && old(links)@[j] == l;
                assert(exists|j: int| 0 <= j < old(links)@.len() && old(links)@[j] == l);
            }
        }
    }
}

/// Collects the current children of computation `c`.
fn children_of(rt: &Runtime, c: usize) -> (kids: Vec<usize>)
    requires
        rt.wf(),
    ensures
        forall|j: int|
            0 <= j < kids@.len() ==> c < (#[trigger] kids@[j]) && kids@[j] < rt.n_comps()
                && !rt.disposed@[kids@[j] as int] && rt.has_link(c, kids@[j]),
        forall|k: usize| kids@.contains(k) <==> rt.has_link(c, k),
{
    let mut kids: Vec<usize> = Vec::new();
    let mut i: usize = 0;
    while i < rt.links.len()
        invariant
            rt.wf(),
            i <= rt.links@.len(),
            forall|j: int|
                0 <= j < kids@.len() ==> c < (#[trigger] kids@[j]) && kids@[j] < rt.n_comps()
                    && !rt.disposed@[kids@[j] as int],
            forall|k: usize|
                kids@.contains(k) <==> exists|j: int|
                    0 <= j < i && rt.links@[j] == (Link { parent: c, child: k }),
        decreases rt.links@.len() - i,
    {
        let l = rt.links[i];
        if l.parent == c {
            kids.push(l.child);
        }
        proof {
            assert forall|k: usize|
                kids@.contains(k) <==> exists|j: int|
                    0 <= j < i + 1 && rt.links@[j] == (Link { parent: c, child: k }) by {
                if rt.links@[i as int] == (Link { parent: c, child: k }) {
                    assert(kids@.contains(k));
                }
            }
            assert(rt.links@[i as int].parent < rt.links@[i as int].child && rt.links@[
                i as int
            ].child < rt.n_comps() && !rt.disposed@[rt.links@[i as int].child as int]);
        }
        i += 1;
    }
    proof {
        assert forall|k: usize| kids@.contains(k) <==> rt.has_link(c, k) by {
            if rt.has_link(c, k) {
                let j = choose|j: int|
                    0 <= j < rt.links@.len() && rt.links@[j] == (Link { parent: c, child: k });
                assert(exists|j: int|
                    0 <= j < rt.links@.len() && rt.links@[j] == (Link { parent: c, child: k }));
            }
            if exists|j: int|
                0 <= j < rt.links@.len() && rt.links@[j] == (Link { parent: c, child: k }) {
                assert(rt.has_link(c, k));
            }
        }
        assert forall|j: int|
            0 <= j < kids@.len() implies rt.has_link(c, #[trigger] kids@[j]) by {
            assert(kids@.contains(kids@[j]));
        }
    }
    kids
}

/// Appends a fresh computation record: body stored, not disposed, never run,
/// mark at the current end of the log. If `linked`, the new computation is
/// recorded as a child of `parent`.
fn new_comp(rt: &mut Runtime, body: Op, parent: usize, linked: bool) -> (c: usize)
    requires
        old(rt).wf(),
        op_valid(body, old(rt).n_cells()),
        linked ==> parent < old(rt).n_comps() && !old(rt).disposed@[parent as int],
    ensures
        final(rt).wf(),
        c == old(rt).n_comps(),
        final(rt).n_comps() == old(rt).n_comps() + 1,
        final(rt).bodies@ == old(rt).bodies@.push(body),
        final(rt).disposed@ == old(rt).disposed@.push(false),
        final(rt).runs@ == old(rt).runs@.push(0nat),
        final(rt).queued@ == old(rt).queued@.push(0nat),
        final(rt).marks@ == old(rt).marks@.push(old(rt).log@.len() as int),
        final(rt).values@ == old(rt).values@,
        final(rt).edges@ == old(rt).edges@,
        final(rt).stack@ == old(rt).stack@,
        final(rt).pending@ == old(rt).pending@,
        final(rt).draining == old(rt).draining,
        final(rt).log@ == old(rt).log@,
        linked ==> final(rt).links@ == old(rt).links@.push((Link { parent, child: c })),
        !linked ==> final(rt).links@ == old(rt).links@,
{
    let c = rt.bodies.len();
    rt.bodies.push(body);
    rt.disposed.push(false);
    rt.runs = Ghost(rt.runs@.push(0nat));
    rt.queued = Ghost(rt.queued@.push(0nat));
    rt.marks = Ghost(rt.marks@.push(rt.log.len() as int));
    if linked {
        rt.links.push(Link { parent, child: c });
    }
    proof {
        assert forall|i: int, j: int|
            0 <= i < j < rt.links@.len() implies rt.links@[i] != rt.links@[j] by {
            if linked && j == rt.links@.len() - 1 {
                assert(old(rt).links@[i].child < old(rt).n_comps());
            }
        }
        assert forall|i: int|
            0 <= i < rt.links@.len() implies (#[trigger] rt.links@[i]).parent < rt.links@[i].child
                && rt.links@[i].child < rt.n_comps() && !rt.disposed@[rt.links@[
            i
            ].parent as int] && !rt.disposed@[rt.links@[i].child as int] by {
            if !(linked && i == rt.links@.len() - 1) {
                assert(rt.links@[i] == old(rt).links@[i]);
                assert(old(rt).links@[i].parent < old(rt).links@[i].child && old(rt).links@[
                    i
                ].child < old(rt).n_comps());
            }
        }
        assert forall|x: usize, k: usize|
            0 <= k < rt.n_comps() && !rt.disposed@[k as int] implies ((#[trigger] rt.has_edge(
            x,
            k,
        )) <==> rt.read_logged(k, x)) by {
            lemma_same_edges(*old(rt), *rt, x, k);
            if k < old(rt).n_comps() {
                lemma_same_reads(*old(rt), *rt, k, x);
                assert(old(rt).has_edge(x, k) <==> old(rt).read_logged(k, x));
            } else {
                assert(!old(rt).has_edge(x, k)) by {
                    if old(rt).has_edge(x, k) {
                        let i = choose|i: int|
                            0 <= i < old(rt).edges@.len() && old(rt).edges@[i] == (Edge {
                                cell: x,
                                comp: k,
                            });
                        assert(old(rt).edges@[i].comp < old(rt).n_comps());
                    }
                }
                assert(!rt.read_logged(k, x)) by {
                    assert(rt.marks@[k as int] == rt.log@.len() as int);
                }
            }
        }
    }
    c
}

/// Disposes computation `c` and, recursively, everything it owns: `c` is
/// unsubscribed from every cell, unlinked from its parent and children, and
/// marked so that it can never run again.
fn dispose_rec(rt: &mut Runtime, c: usize)
    requires
        old(rt).wf(),
        c < old(rt).n_comps(),
        old(rt).stack@.len() == 0,
    ensures
        final(rt).wf(),
        final(rt).disposed@[c as int],
        final(rt).n_comps() == old(rt).n_comps(),
        final(rt).values@ == old(rt).values@,
        final(rt).bodies@ == old(rt).bodies@,
        final(rt).runs@ == old(rt).runs@,
        final(rt).queued@ == old(rt).queued@,
        final(rt).marks@ == old(rt).marks@,
        final(rt).stack@ == old(rt).stack@,
        final(rt).pending@ == old(rt).pending@,
        final(rt).draining == old(rt).draining,
        final(rt).log@ == old(rt).log@,
        forall|k: int|
            0 <= k < old(rt).n_comps() && old(rt).disposed@[k] ==> final(rt).disposed@[k],
        forall|k: int|
            0 <= k < old(rt).n_comps() && final(rt).disposed@[k] && !old(rt).disposed@[k] ==> k
                >= c,
        forall|x: usize, k: usize| final(rt).has_edge(x, k) ==> old(rt).has_edge(x, k),
        forall|x: usize, k: usize|
            k < old(rt).n_comps() && !final(rt).disposed@[k as int] ==> (final(rt).has_edge(x, k)
                <==> old(rt).has_edge(x, k)),
        forall|p: usize, k: usize| final(rt).has_link(p, k) ==> old(rt).has_link(p, k),
        // the cascade: a link whose parent ends up disposed has its child
        // disposed too, and a link only ever disappears because one of its
        // endpoints was disposed.
        forall|p: usize, k: usize|
            old(rt).has_link(p, k) && final(rt).disposed@[p as int] ==> final(rt).disposed@[
                k as int
            ],
        forall|p: usize, k: usize|
            old(rt).has_link(p, k) && !final(rt).has_link(p, k) ==> final(rt).disposed@[p as int]
                || final(rt).disposed@[k as int],
        forall|k: int|
            #![trigger final(rt).disposed@[k]]
            0 <= k < old(rt).n_comps() && final(rt).disposed@[k] && !old(rt).disposed@[k] && k
                != c ==> old(rt).has_parent(k as usize),
    decreases old(rt).n_comps() - c,
{
    if rt.disposed[c] {
        proof {
            assert forall|p: usize, k: usize|
                rt.has_link(p, k) && rt.disposed@[p as int] implies rt.disposed@[k as int] by {
                let i = choose|i: int|
                    0 <= i < rt.links@.len() && rt.links@[i] == (Link { parent: p, child: k });
                assert(!rt.disposed@[rt.links@[i].parent as int]);
            }
        }
        return ;
    }
    let kids = children_of(rt, c);
    retain_edges_without_comp(&mut rt.edges, c);
    retain_links_avoiding(&mut rt.links, c);
    rt.disposed.set(c, true);
    proof {
        lemma_retain_wf(*old(rt), *rt, c);
    }
    let ghost o = *old(rt);
    proof {
        assert forall|p: usize, k: usize|
            o.has_link(p, k) && !rt.has_link(p, k) implies rt.disposed@[p as int] || rt.disposed@[
            k as int
        ] by {
            let j = choose|j: int|
                0 <= j < o.links@.len() && o.links@[j] == (Link { parent: p, child: k });
            assert(o.links@.contains((Link { parent: p, child: k })));
            if p != c && k != c {
                assert(rt.links@.contains((Link { parent: p, child: k })));
                let a = choose|a: int|
                    0 <= a < rt.links@.len() && rt.links@[a] == (Link { parent: p, child: k });
                assert(rt.has_link(p, k));
            }
        }
        assert forall|p: usize, k: usize|
            o.has_link(p, k) && rt.disposed@[p as int] implies rt.disposed@[k as int] || exists|
                j: int,
            | 0 <= j < kids@.len() && kids@[j] == k by {
            let a = choose|a: int|
                0 <= a < o.links@.len() && o.links@[a] == (Link { parent: p, child: k });
            if p == c {
                assert(kids@.contains(k));
                let j = choose|j: int| 0 <= j < kids@.len() && kids@[j] == k;
            } else {
                assert(!o.disposed@[o.links@[a].parent as int]);
            }
        }
    }
    let mut i: usize = 0;
    while i < kids.len()
        invariant
            rt.wf(),
            o.wf(),
            i <= kids@.len(),
            c < o.n_comps(),
            rt.n_comps() == o.n_comps(),
            rt.disposed@[c as int],
            rt.values@ == o.values@,
            rt.bodies@ == o.bodies@,
            rt.runs@ == o.runs@,
            rt.queued@ == o.queued@,
            rt.marks@ == o.marks@,
            rt.stack@ == o.stack@,
            rt.stack@.len() == 0,
            rt.pending@ == o.pending@,
            rt.draining == o.draining,
            rt.log@ == o.log@,
            o == *old(rt),
            forall|j: int|
                0 <= j < kids@.len() ==> c < (#[trigger] kids@[j]) && kids@[j] < o.n_comps(),
            forall|k: int| 0 <= k < o.n_comps() && o.disposed@[k] ==> rt.disposed@[k],
            forall|k: int|
                0 <= k < o.n_comps() && rt.disposed@[k] && !o.disposed@[k] ==> k >= c,
            forall|x: usize, k: usize| rt.has_edge(x, k) ==> o.has_edge(x, k),
            forall|x: usize, k: usize|
                k < o.n_comps() && !rt.disposed@[k as int] ==> (rt.has_edge(x, k) <==> o.has_edge(
                    x,
                    k,
                )),
            forall|p: usize, k: usize| rt.has_link(p, k) ==> o.has_link(p, k),
            forall|k: usize| kids@.contains(k) <==> o.has_link(c, k),
            forall|p: usize, k: usize|
                o.has_link(p, k) && !rt.has_link(p, k) ==> rt.disposed@[p as int] || rt.disposed@[
                    k as int
                ],
            forall|p: usize, k: usize|
                o.has_link(p, k) && rt.disposed@[p as int] ==> rt.disposed@[k as int] || exists|
                    j: int,
                | i <= j < kids@.len() && kids@[j] == k,
            forall|k: int|
                #![trigger rt.disposed@[k]]
                0 <= k < o.n_comps() && rt.disposed@[k] && !o.disposed@[k] && k != c ==> o.has_parent(
                    k as usize,
                ),
        decreases kids@.len() - i,
    {
        let ghost pre = *rt;
        let kid = kids[i];
        dispose_rec(rt, kid);
        proof {
            assert forall|x: usize, k: usize|
                k < o.n_comps() && !rt.disposed@[k as int] implies (rt.has_edge(x, k)
                <==> o.has_edge(x, k)) by {
                assert(!pre.disposed@[k as int]);
            }
            assert forall|k: int|
                #![trigger rt.disposed@[k]]
                0 <= k < o.n_comps() && rt.disposed@[k] && !o.disposed@[k] && k != c implies o.has_parent(
                    k as usize,
                ) by {
                if !pre.disposed@[k] {
                    if k == kid {
                        assert(kids@.contains(kid));
                        assert(o.has_link(c, kid));
                        let a = choose|a: int|
                            0 <= a < o.links@.len() && o.links@[a] == (Link {
                                parent: c,
                                child: kid,
                            });
                        assert(o.links@[a].child == kid);
                    } else {
                        assert(k < pre.n_comps());
                        assert(pre.has_parent(k as usize));
                        let a = choose|a: int|
                            0 <= a < pre.links@.len() && (#[trigger] pre.links@[a]).child == (
                            k as usize);
                        let l = pre.links@[a];
                        assert(pre.links@[a] == (Link { parent: l.parent, child: l.child }));
                        assert(pre.has_link(l.parent, l.child));
                        assert(o.has_link(l.parent, l.child));
                        let b = choose|b: int|
                            0 <= b < o.links@.len() && o.links@[b] == (Link {
                                parent: l.parent,
                                child: l.child,
                            });
                        assert(o.links@[b].child == k as usize);
                    }
                }
            }
            assert forall|p: usize, k: usize|
                o.has_link(p, k) && rt.disposed@[p as int] implies rt.disposed@[k as int] || exists|
                    j: int,
                | i + 1 <= j < kids@.len() && kids@[j] == k by {
                if pre.disposed@[p as int] {
                    if !pre.disposed@[k as int] && !rt.disposed@[k as int] {
                        let j = choose|j: int| i <= j < kids@.len() && kids@[j] == k;
                        assert(k != kid);
                        assert(j != i);
                        assert(i + 1 <= j < kids@.len() && kids@[j] == k);
                    }
                } else {
                    if pre.has_link(p, k) {
                        assert(rt.disposed@[k as int]);
                    } else {
                        assert(pre.disposed@[k as int]);
                    }
                }
            }
        }
        i += 1;
    }
    proof {
        assert forall|p: usize, k: usize|
            o.has_link(p, k) && rt.disposed@[p as int] implies rt.disposed@[k as int] by {
            if !rt.disposed@[k as int] {
                let j = choose|j: int| i <= j < kids@.len() && kids@[j] == k;
            }
        }
    }
}

/// The surgery at the heart of disposal and of the re-run preamble: with
/// `c`'s subscription edges and ownership links removed and `c` marked
/// disposed, the runtime is well-formed again.
proof fn lemma_retain_wf(o: Runtime, m: Runtime, c: usize)
    requires
        o.wf(),
        c < o.n_comps(),
        o.stack@.len() == 0,
        m.values@ == o.values@,
        m.bodies@ == o.bodies@,
        m.runs@ == o.runs@,
        m.queued@ == o.queued@,
        m.marks@ == o.marks@,
        m.stack@ == o.stack@,
        m.pending@ == o.pending@,
        m.log@ == o.log@,
        m.disposed@ == o.disposed@.update(c as int, true),
        forall|i: int, j: int| 0 <= i < j < m.edges@.len() ==> m.edges@[i] != m.edges@[j],
        forall|e: Edge| m.edges@.contains(e) <==> (o.edges@.contains(e) && e.comp != c),
        forall|i: int, j: int| 0 <= i < j < m.links@.len() ==> m.links@[i] != m.links@[j],
        forall|l: Link|
            m.links@.contains(l) <==> (o.links@.contains(l) && l.parent != c && l.child != c),
    ensures
        m.wf(),
        forall|x: usize, k: usize| m.has_edge(x, k) ==> o.has_edge(x, k),
        forall|x: usize, k: usize|
            k < o.n_comps() && !m.disposed@[k as int] ==> (m.has_edge(x, k) <==> o.has_edge(x, k)),
        forall|p: usize, k: usize| m.has_link(p, k) ==> o.has_link(p, k),
{
    assert forall|x: usize, k: usize| m.has_edge(x, k) implies (o.has_edge(x, k) && k != c) by {
        let i = choose|i: int|
            0 <= i < m.edges@.len() && m.edges@[i] == (Edge { cell: x, comp: k });
        assert(m.edges@.contains((Edge { cell: x, comp: k })));
        let j = choose|j: int|
            0 <= j < o.edges@.len() && o.edges@[j] == (Edge { cell: x, comp: k });
        assert(o.has_edge(x, k));
    }
    assert forall|x: usize, k: usize| k != c && o.has_edge(x, k) implies m.has_edge(x, k) by {
        let i = choose|i: int|
            0 <= i < o.edges@.len() && o.edges@[i] == (Edge { cell: x, comp: k });
        assert(o.edges@.contains((Edge { cell: x, comp: k })));
        assert(m.edges@.contains((Edge { cell: x, comp: k })));
        let j = choose|j: int|
            0 <= j < m.edges@.len() && m.edges@[j] == (Edge { cell: x, comp: k });
    }
    assert forall|p: usize, k: usize| m.has_link(p, k) implies o.has_link(p, k) by {
        let i = choose|i: int|
            0 <= i < m.links@.len() && m.links@[i] == (Link { parent: p, child: k });
        assert(m.links@.contains((Link { parent: p, child: k })));
        let j = choose|j: int|
            0 <= j < o.links@.len() && o.links@[j] == (Link { parent: p, child: k });
        assert(o.has_link(p, k));
    }
    assert forall|i: int|
        0 <= i < m.edges@.len() implies (#[trigger] m.edges@[i]).cell < m.n_cells() && m.edges@[
        i
    ].comp < m.n_comps() && !m.disposed@[m.edges@[i].comp as int] by {
        let e = m.edges@[i];
        assert(m.edges@.contains(e));
        assert(o.edges@.contains(e) && e.comp != c);
        let j = choose|j: int| 0 <= j < o.edges@.len() && o.edges@[j] == e;
    }
    assert forall|i: int|
        0 <= i < m.links@.len() implies (#[trigger] m.links@[i]).parent < m.links@[i].child
        && m.links@[i].child < m.n_comps() && !m.disposed@[m.links@[i].parent as int]
        && !m.disposed@[m.links@[i].child as int] by {
        let l = m.links@[i];
        assert(m.links@.contains(l));
        assert(o.links@.contains(l) && l.parent != c && l.child != c);
        let j = choose|j: int| 0 <= j < o.links@.len() && o.links@[j] == l;
    }
    assert forall|x: usize, k: usize|
        0 <= k < m.n_comps() && !m.disposed@[k as int] implies ((#[trigger] m.has_edge(x, k))
        <==> m.read_logged(k, x)) by {
        lemma_same_reads(o, m, k, x);
        assert(o.has_edge(x, k) <==> o.read_logged(k, x));
        assert(k != c);
    }
}

/// Well-formedness only looks at the stack and pending lists through
/// `stack_ok` and `pending_ok`: a state that differs from a well-formed one
/// only there (or in cell values or run counts, which `wf` never reads) is
/// well-formed again once those two conjuncts are re-checked.
proof fn lemma_wf_frame(a: Runtime, b: Runtime)
    requires
        a.wf(),
        b.values@.len() == a.values@.len(),
        b.edges@ == a.edges@,
        b.links@ == a.links@,
        b.bodies@ == a.bodies@,
        b.disposed@ == a.disposed@,
        b.marks@ == a.marks@,
        b.runs@.len() == a.runs@.len(),
        b.queued@.len() == a.queued@.len(),
        b.log@ == a.log@,
        b.stack_ok(),
        b.pending_ok(),
    ensures
        b.wf(),
{
    assert(b.n_cells() == a.n_cells() && b.n_comps() == a.n_comps());
    assert forall|i: int|
        0 <= i < b.edges@.len() implies (#[trigger] b.edges@[i]).cell < b.n_cells() && b.edges@[
        i
    ].comp < b.n_comps() && !b.disposed@[b.edges@[i].comp as int] by {
        assert(b.edges@[i] == a.edges@[i]);
    }
    assert forall|i: int|
        0 <= i < b.links@.len() implies (#[trigger] b.links@[i]).parent < b.links@[i].child
        && b.links@[i].child < b.n_comps() && !b.disposed@[b.links@[i].parent as int]
        && !b.disposed@[b.links@[i].child as int] by {
        assert(b.links@[i] == a.links@[i]);
    }
    assert forall|k: int|
        0 <= k < b.n_comps() implies op_valid(#[trigger] b.bodies@[k], b.n_cells()) by {
        assert(b.bodies@[k] == a.bodies@[k]);
    }
    assert forall|x: usize, k: usize|
        0 <= k < b.n_comps() && !b.disposed@[k as int] implies ((#[trigger] b.has_edge(x, k))
        <==> b.read_logged(k, x)) by {
        lemma_same_edges(a, b, x, k);
        lemma_same_reads(a, b, k, x);
        assert(a.has_edge(x, k) <==> a.read_logged(k, x));
    }
}

/// Calmness only looks at the stored bodies.
proof fn lemma_calm_frame(a: Runtime, b: Runtime)
    requires
        a.calm(),
        b.bodies@ == a.bodies@,
    ensures
        b.calm(),
{
    assert forall|k: int| 0 <= k < b.n_comps() implies op_calm(#[trigger] b.bodies@[k]) by {
        assert(b.bodies@[k] == a.bodies@[k]);
    }
}

/// Interprets one step of `me`'s body, with `me` innermost on the tracking
/// stack and a propagation round in progress. Returns whether the step
/// succeeded (a [`Op::Fail`] anywhere in it makes the whole step fail).
///
/// During a step, the only computations whose records change are `me`'s
/// descendants created by the step itself; every previously existing record
/// keeps its run count, its mark, its body and its disposal state.
fn run_op(rt: &mut Runtime, me: usize, op: &Op) -> (ok: bool)
    requires
        old(rt).wf(),
        old(rt).draining,
        old(rt).stack@.len() > 0,
        old(rt).stack@.last() == me,
        op_valid(*op, old(rt).n_cells()),
    ensures
        final(rt).wf(),
        final(rt).draining,
        final(rt).stack@ == old(rt).stack@,
        final(rt).n_cells() == old(rt).n_cells(),
        final(rt).n_comps() >= old(rt).n_comps(),
        old(rt).log@.len() <= final(rt).log@.len(),
        forall|i: int|
            0 <= i < old(rt).log@.len() ==> #[trigger] final(rt).log@[i] == old(rt).log@[i],
        forall|k: int|
            0 <= k < old(rt).n_comps() ==> #[trigger] final(rt).disposed@[k] == old(
                rt,
            ).disposed@[k],
        forall|k: int|
            0 <= k < old(rt).n_comps() ==> #[trigger] final(rt).runs@[k] == old(rt).runs@[k],
        forall|k: int|
            0 <= k < old(rt).n_comps() ==> #[trigger] final(rt).marks@[k] == old(rt).marks@[k],
        forall|k: int|
            0 <= k < old(rt).n_comps() ==> #[trigger] final(rt).bodies@[k] == old(rt).bodies@[k],
        forall|k: usize|
            old(rt).pending@.contains(k) ==> #[trigger] final(rt).pending@.contains(k),
        forall|x: usize, k: usize|
            #![trigger final(rt).has_edge(x, k)]
            #![trigger old(rt).has_edge(x, k)]
            k < old(rt).n_comps() && k != me ==> (final(rt).has_edge(x, k) <==> old(rt).has_edge(
                x,
                k,
            )),
        forall|p: usize, k: usize|
            #![trigger old(rt).has_link(p, k)]
            old(rt).has_link(p, k) ==> final(rt).has_link(p, k),
        forall|k: usize|
            #![trigger final(rt).has_parent(k)]
            final(rt).has_parent(k) ==> old(rt).has_parent(k) || k >= old(rt).n_comps(),
        forall|k: usize|
            k < old(rt).n_comps() ==> #[trigger] final(rt).queued@[k as int] >= old(
                rt,
            ).queued@[k as int],
        forall|k: usize|
            k < old(rt).n_comps() ==> final(rt).pend01(k) - old(rt).pend01(k)
                <= #[trigger] final(rt).queued@[k as int] - old(rt).queued@[k as int],
        op_calm(*op) ==> (ok && final(rt).pending@ == old(rt).pending@ && final(rt).values@
            == old(rt).values@),
        op_quiet(*op) ==> (final(rt).pending@ == old(rt).pending@ && final(rt).values@
            == old(rt).values@),
        op_flat(*op) ==> (final(rt).log@ == old(rt).log@ + reads_of(*op, old(rt).values@, me)
            && final(rt).edges@ == edges_after(
            old(rt).edges@,
            reads_of(*op, old(rt).values@, me),
        ) && final(rt).n_comps() == old(rt).n_comps() && final(rt).links@ == old(rt).links@
            && final(rt).disposed@ == old(rt).disposed@),
        op_must_fail(*op) ==> (!ok && final(rt).pending@ == old(rt).pending@ && final(rt).values@
            == old(rt).values@),
        (old(rt).calm() && op_calm(*op)) ==> final(rt).calm(),
    decreases *op,
{
    proof {
        assert(old(rt).stack@[old(rt).stack@.len() - 1] == me);
        assert(me < old(rt).n_comps() && !old(rt).disposed@[me as int]);
    }
    match op {
        Op::Skip => {
            proof {
                assert(rt.log@ =~= old(rt).log@ + reads_of(*op, old(rt).values@, me));
                assert(rt.edges@ == edges_after(old(rt).edges@, reads_of(*op, old(rt).values@, me)));
            }
            true
        },
        Op::Fail => {
            proof {
                lemma_links_id(*old(rt), *rt);
            }
            false
        },
        Op::Read(s) => {
            read_cell(rt, s.id);
            proof {
                lemma_calm_frame_if(*old(rt), *rt);
                assert(rt.log@ =~= old(rt).log@ + reads_of(*op, old(rt).values@, me));
                let ghost r0 = reads_of(*op, old(rt).values@, me);
                assert(r0.len() == 1);
                assert(r0[0] == log_entry(me, s.id, old(rt).values@[s.id as int]));
                assert(r0.skip(1) =~= Seq::<LogEntry>::empty());
                assert(edges_after(old(rt).edges@, r0) == edges_after(
                    add_edge(old(rt).edges@, r0[0]),
                    r0.skip(1),
                ));
                assert(edges_after(add_edge(old(rt).edges@, r0[0]), Seq::<LogEntry>::empty())
                    == add_edge(old(rt).edges@, r0[0]));
                assert(rt.edges@ == add_edge(old(rt).edges@, r0[0]));
                assert(rt.edges@ == edges_after(old(rt).edges@, r0));
                lemma_links_id(*old(rt), *rt);
            }
            true
        },
        Op::Write(s, v) => {
            write_cell(rt, s.id, *v);
            proof {
                assert forall|x: usize, k: usize|
                    #![trigger rt.has_edge(x, k)]
                    k < old(rt).n_comps() && k != me implies (rt.has_edge(x, k) <==> old(
                    rt,
                ).has_edge(x, k)) by {
                    lemma_same_edges(*old(rt), *rt, x, k);
                }
                lemma_links_id(*old(rt), *rt);
            }
            true
        },
        Op::Then(a, b) => {
            let ok1 = run_op(rt, me, a);
            let ghost mid = *rt;
            let ok = if ok1 {
                run_op(rt, me, b)
            } else {
                false
            };
            proof {
                assert forall|x: usize, k: usize|
                    #![trigger rt.has_edge(x, k)]
                    k < old(rt).n_comps() && k != me implies (rt.has_edge(x, k) <==> old(
                    rt,
                ).has_edge(x, k)) by {
                    assert(mid.has_edge(x, k) == old(rt).has_edge(x, k));
                    assert(rt.has_edge(x, k) == mid.has_edge(x, k));
                }
                if op_flat(*op) {
                    lemma_flat_is_calm(**a);
                    lemma_flat_is_calm(**b);
                    assert(mid.log@ == old(rt).log@ + reads_of(**a, old(rt).values@, me));
                    assert(mid.values@ == old(rt).values@);
                    assert(rt.log@ == mid.log@ + reads_of(**b, mid.values@, me));
                    assert(rt.log@ =~= old(rt).log@ + reads_of(*op, old(rt).values@, me));
                    lemma_edges_after_concat(
                        old(rt).edges@,
                        reads_of(**a, old(rt).values@, me),
                        reads_of(**b, old(rt).values@, me),
                    );
                    assert(rt.edges@ == edges_after(old(rt).edges@, reads_of(*op, old(rt).values@, me)));
                }
                assert forall|p: usize, k: usize| #[trigger]
                    old(rt).has_link(p, k) implies rt.has_link(p, k) by {
                    assert(mid.has_link(p, k));
                }
                assert forall|k: usize| #[trigger]
                    rt.has_parent(k) implies old(rt).has_parent(k) || k >= old(rt).n_comps() by {
                    assert(mid.has_parent(k) || k >= mid.n_comps());
                }
            }
            ok
        },
        Op::Branch(s, a, b) => {
            let v = read_cell(rt, s.id);
            proof {
                lemma_calm_frame_if(*old(rt), *rt);
            }
            let ghost mid = *rt;
            let ok = if v != 0 {
                run_op(rt, me, a)
            } else {
                run_op(rt, me, b)
            };
            proof {
                assert forall|x: usize, k: usize|
                    #![trigger rt.has_edge(x, k)]
                    k < old(rt).n_comps() && k != me implies (rt.has_edge(x, k) <==> old(
                    rt,
                ).has_edge(x, k)) by {
                    assert(mid.has_edge(x, k) == old(rt).has_edge(x, k));
                    assert(rt.has_edge(x, k) == mid.has_edge(x, k));
                }
                if op_flat(*op) {
                    lemma_flat_is_calm(**a);
                    lemma_flat_is_calm(**b);
                    assert(mid.log@ == old(rt).log@.push(
                        log_entry(me, s.id, old(rt).values@[s.id as int]),
                    ));
                    assert(mid.values@ == old(rt).values@);
                    if old(rt).values@[s.id as int] != 0 {
                        assert(rt.log@ == mid.log@ + reads_of(**a, mid.values@, me));
                    } else {
                        assert(rt.log@ == mid.log@ + reads_of(**b, mid.values@, me));
                    }
                    assert(rt.log@ =~= old(rt).log@ + reads_of(*op, old(rt).values@, me));
                    let ghost ce = log_entry(me, s.id, old(rt).values@[s.id as int]);
                    let ghost rest = if old(rt).values@[s.id as int] != 0 {
                        reads_of(**a, old(rt).values@, me)
                    } else {
                        reads_of(**b, old(rt).values@, me)
                    };
                    let ghost whole = reads_of(*op, old(rt).values@, me);
                    assert(whole[0] == ce);
                    assert(whole.skip(1) =~= rest);
                    assert(mid.edges@ == add_edge(old(rt).edges@, ce));
                    assert(rt.edges@ == edges_after(mid.edges@, rest));
                    assert(rt.edges@ == edges_after(old(rt).edges@, whole));
                }
                lemma_links_id(*old(rt), mid);
                assert forall|p: usize, k: usize| #[trigger]
                    old(rt).has_link(p, k) implies rt.has_link(p, k) by {
                    assert(mid.has_link(p, k));
                }
                assert forall|k: usize| #[trigger]
                    rt.has_parent(k) implies old(rt).has_parent(k) || k >= old(rt).n_comps() by {
                    assert(mid.has_parent(k) || k >= mid.n_comps());
                }
            }
            ok
        },
        Op::Child(b) => {
            let body = copy_op(b);
            let c = new_comp(rt, body, me, true);
            let ghost mid1 = *rt;
            rt.stack.push(c);
            proof {
                assert(rt.stack@.last() == c);
                assert forall|i: int|
                    0 <= i < rt.stack@.len() implies (#[trigger] rt.stack@[i]) < rt.n_comps()
                    && !rt.disposed@[rt.stack@[i] as int] by {
                    if i < rt.stack@.len() - 1 {
                        assert(rt.stack@[i] == old(rt).stack@[i]);
                    }
                }
                lemma_wf_frame(mid1, *rt);
                if old(rt).calm() && op_calm(*op) {
                    assert forall|k: int|
                        0 <= k < rt.n_comps() implies op_calm(#[trigger] rt.bodies@[k]) by {
                        if k < old(rt).n_comps() {
                            assert(rt.bodies@[k] == old(rt).bodies@[k]);
                        } else {
                            assert(rt.bodies@[k] == body);
                        }
                    }
                }
            }
            let ghost pushed = *rt;
            let ok = run_op(rt, c, b);
            let ghost mid2 = *rt;
            let _ = rt.stack.pop();
            rt.runs = Ghost(rt.runs@.update(c as int, rt.runs@[c as int] + 1));
            proof {
                assert(rt.stack@ =~= old(rt).stack@);
                assert forall|i: int|
                    0 <= i < rt.stack@.len() implies (#[trigger] rt.stack@[i]) < rt.n_comps()
                    && !rt.disposed@[rt.stack@[i] as int] by {
                    assert(rt.stack@[i] == mid2.stack@[i]);
                }
                lemma_wf_frame(mid2, *rt);
                if old(rt).calm() && op_calm(*op) {
                    lemma_calm_frame(mid2, *rt);
                }
                assert forall|k: int|
                    0 <= k < old(rt).n_comps() implies rt.disposed@[k] == old(rt).disposed@[k]
                    && rt.runs@[k] == old(rt).runs@[k] && rt.marks@[k] == old(rt).marks@[k]
                    && rt.bodies@[k] == old(rt).bodies@[k] by {
                    assert(k < pushed.n_comps());
                    assert(mid2.disposed@[k] == pushed.disposed@[k]);
                    assert(mid2.runs@[k] == pushed.runs@[k]);
                    assert(mid2.marks@[k] == pushed.marks@[k]);
                    assert(mid2.bodies@[k] == pushed.bodies@[k]);
                    assert(pushed.disposed@[k] == old(rt).disposed@[k]);
                    assert(rt.runs@[k] == mid2.runs@[k]);
                }
                assert forall|k: usize| #![trigger rt.pending@.contains(k)]
                    old(rt).pending@.contains(k) implies rt.pending@.contains(k) by {
                    assert(pushed.pending@.contains(k));
                    assert(mid2.pending@.contains(k));
                    assert(rt.pending@ == mid2.pending@);
                }
                assert forall|x: usize, k: usize|
                    #![trigger rt.has_edge(x, k)]
                    k < old(rt).n_comps() && k != me implies (rt.has_edge(x, k) <==> old(
                    rt,
                ).has_edge(x, k)) by {
                    lemma_same_edges(*old(rt), mid1, x, k);
                    lemma_same_edges(mid1, pushed, x, k);
                    assert(k != c);
                    assert(mid2.has_edge(x, k) == pushed.has_edge(x, k));
                    lemma_same_edges(mid2, *rt, x, k);
                }
                lemma_links_id(mid1, pushed);
                lemma_links_id(mid2, *rt);
                assert forall|p: usize, k: usize| #[trigger]
                    old(rt).has_link(p, k) implies rt.has_link(p, k) by {
                    let i = choose|i: int|
                        0 <= i < old(rt).links@.len() && old(rt).links@[i] == (Link {
                            parent: p,
                            child: k,
                        });
                    assert(mid1.links@[i] == (Link { parent: p, child: k }));
                    assert(mid1.has_link(p, k));
                    assert(pushed.has_link(p, k));
                    assert(mid2.has_link(p, k));
                }
                assert forall|k: usize| #[trigger]
                    rt.has_parent(k) implies old(rt).has_parent(k) || k >= old(rt).n_comps() by {
                    assert(mid2.has_parent(k));
                    assert(pushed.has_parent(k) || k >= pushed.n_comps());
                    if pushed.has_parent(k) {
                        assert(mid1.has_parent(k));
                        let i = choose|i: int|
                            0 <= i < mid1.links@.len() && (#[trigger] mid1.links@[i]).child == k;
                        if i < old(rt).links@.len() {
                            assert(old(rt).links@[i].child == k);
                            assert(old(rt).has_parent(k));
                        } else {
                            assert(mid1.links@[i] == (Link { parent: me, child: c }));
                        }
                    }
                }
            }
            ok
        },
    }
}

/// Calmness frame usable after an operation that kept the bodies.
proof fn lemma_calm_frame_if(a: Runtime, b: Runtime)
    requires
        b.bodies@ == a.bodies@,
    ensures
        a.calm() ==> b.calm(),
{
    if a.calm() {
        lemma_calm_frame(a, b);
    }
}

/// Runs computation `c` from scratch: the previous run's children are
/// disposed, `c`'s stale subscriptions are cleared, and its body executes
/// under tracking, rebuilding the dependency set from what it actually
/// reads. The run count of `c` goes up by one; no other existing
/// computation runs.
fn run_comp(rt: &mut Runtime, c: usize) -> (ok: bool)
    requires
        old(rt).wf(),
        old(rt).draining,
        old(rt).stack@.len() == 0,
        c < old(rt).n_comps(),
        !old(rt).disposed@[c as int],
    ensures
        final(rt).wf(),
        final(rt).draining,
        final(rt).stack@.len() == 0,
        final(rt).n_cells() == old(rt).n_cells(),
        final(rt).n_comps() >= old(rt).n_comps(),
        old(rt).log@.len() <= final(rt).log@.len(),
        forall|i: int|
            0 <= i < old(rt).log@.len() ==> #[trigger] final(rt).log@[i] == old(rt).log@[i],
        final(rt).runs@[c as int] == old(rt).runs@[c as int] + 1,
        final(rt).marks@[c as int] == old(rt).log@.len() as int,
        !final(rt).disposed@[c as int],
        forall|k: int|
            0 <= k < old(rt).n_comps() && k != c ==> final(rt).runs@[k] == old(rt).runs@[k],
        forall|k: int| 0 <= k < old(rt).n_comps() ==> final(rt).bodies@[k] == old(rt).bodies@[k],
        forall|k: int|
            0 <= k < old(rt).n_comps() && old(rt).disposed@[k] ==> final(rt).disposed@[k],
        forall|k: usize| old(rt).pending@.contains(k) ==> final(rt).pending@.contains(k),
        forall|x: usize, k: usize|
            #![trigger final(rt).has_edge(x, k)]
            #![trigger old(rt).has_edge(x, k)]
            k < old(rt).n_comps() && k != c && !final(rt).disposed@[k as int]
                ==> (final(rt).has_edge(x, k) <==> old(rt).has_edge(x, k)),
        // the re-run supersedes the previous one: its children are disposed,
        forall|k: usize| #[trigger] old(rt).has_link(c, k) ==> final(rt).disposed@[k as int],
        // a link only disappears because an endpoint was disposed,
        forall|p: usize, k: usize|
            #![trigger old(rt).has_link(p, k)]
            old(rt).has_link(p, k) && !final(rt).has_link(p, k) ==> final(rt).disposed@[p as int]
                || final(rt).disposed@[k as int],
        // only owned computations can be disposed by a run,
        forall|k: int|
            #![trigger final(rt).disposed@[k]]
            0 <= k < old(rt).n_comps() && final(rt).disposed@[k] && !old(rt).disposed@[k]
                ==> old(rt).has_parent(k as usize),
        // parents are only recorded for computations created by this run,
        forall|k: usize|
            #![trigger final(rt).has_parent(k)]
            final(rt).has_parent(k) ==> old(rt).has_parent(k) || k >= old(rt).n_comps(),
        forall|k: usize|
            k < old(rt).n_comps() ==> #[trigger] final(rt).queued@[k as int] >= old(
                rt,
            ).queued@[k as int],
        forall|k: usize|
            k < old(rt).n_comps() ==> final(rt).pend01(k) - old(rt).pend01(k)
                <= #[trigger] final(rt).queued@[k as int] - old(rt).queued@[k as int],
        op_calm(old(rt).bodies@[c as int]) ==> (ok && final(rt).pending@ == old(rt).pending@
            && final(rt).values@ == old(rt).values@),
        op_quiet(old(rt).bodies@[c as int]) ==> (final(rt).pending@ == old(rt).pending@
            && final(rt).values@ == old(rt).values@),
        op_flat(old(rt).bodies@[c as int]) ==> final(rt).log@ == old(rt).log@ + reads_of(
            old(rt).bodies@[c as int],
            old(rt).values@,
            c,
        ),
        (op_flat(old(rt).bodies@[c as int]) && old(rt).links@.len() == 0) ==> (final(rt).n_comps()
            == old(rt).n_comps() && final(rt).links@.len() == 0 && final(rt).disposed@ == old(
            rt,
        ).disposed@),
        (op_flat(old(rt).bodies@[c as int]) && old(rt).links@.len() == 0 && (forall|x: usize|
            !old(rt).has_edge(x, c))) ==> final(rt).edges@ == edges_after(
            old(rt).edges@,
            reads_of(old(rt).bodies@[c as int], old(rt).values@, c),
        ),
        op_must_fail(old(rt).bodies@[c as int]) ==> (!ok && final(rt).pending@ == old(rt).pending@
            && final(rt).values@ == old(rt).values@),
        old(rt).calm() ==> (ok && final(rt).pending@ == old(rt).pending@
            && final(rt).values@ == old(rt).values@ && final(rt).calm()),
{
    let ghost o = *old(rt);
    // Step one: this run supersedes the previous one, so the children that
    // run created are disposed before the body executes again.
    let kids = children_of(rt, c);
    let mut i: usize = 0;
    while i < kids.len()
        invariant
            rt.wf(),
            o.wf(),
            o == *old(rt),
            i <= kids@.len(),
            c < o.n_comps(),
            rt.n_comps() == o.n_comps(),
            !rt.disposed@[c as int],
            rt.draining == o.draining,
            rt.values@ == o.values@,
            rt.bodies@ == o.bodies@,
            rt.runs@ == o.runs@,
            rt.queued@ == o.queued@,
            rt.marks@ == o.marks@,
            rt.stack@ == o.stack@,
            rt.stack@.len() == 0,
            rt.pending@ == o.pending@,
            rt.log@ == o.log@,
            forall|j: int|
                0 <= j < kids@.len() ==> c < (#[trigger] kids@[j]) && kids@[j] < o.n_comps(),
            kids@.len() == 0 ==> rt.disposed@ == o.disposed@ && rt.links@ == o.links@
                && rt.edges@ == o.edges@,
            forall|k: usize| kids@.contains(k) <==> o.has_link(c, k),
            forall|j: int| 0 <= j < i ==> rt.disposed@[kids@[j] as int],
            forall|p: usize, k: usize| #[trigger] rt.has_link(p, k) ==> o.has_link(p, k),
            forall|p: usize, k: usize|
                #![trigger o.has_link(p, k)]
                o.has_link(p, k) && !rt.has_link(p, k) ==> rt.disposed@[p as int] || rt.disposed@[
                    k as int
                ],
            forall|k: int|
                #![trigger rt.disposed@[k]]
                0 <= k < o.n_comps() && rt.disposed@[k] && !o.disposed@[k] ==> o.has_parent(
                    k as usize,
                ),
            forall|k: int| 0 <= k < o.n_comps() && o.disposed@[k] ==> rt.disposed@[k],
            forall|k: int|
                0 <= k < o.n_comps() && rt.disposed@[k] && !o.disposed@[k] ==> k > c,
            forall|x: usize, k: usize| rt.has_edge(x, k) ==> o.has_edge(x, k),
            forall|x: usize, k: usize|
                k < o.n_comps() && !rt.disposed@[k as int] ==> (rt.has_edge(x, k) <==> o.has_edge(
                    x,
                    k,
                )),
        decreases kids@.len() - i,
    {
        let ghost pre = *rt;
        let kid = kids[i];
        dispose_rec(rt, kid);
        proof {
            assert forall|x: usize, k: usize|
                k < o.n_comps() && !rt.disposed@[k as int] implies (rt.has_edge(x, k)
                <==> o.has_edge(x, k)) by {
                assert(!pre.disposed@[k as int]);
            }
            assert forall|k: int|
                #![trigger rt.disposed@[k]]
                0 <= k < o.n_comps() && rt.disposed@[k] && !o.disposed@[k] implies o.has_parent(
                    k as usize,
                ) by {
                if !pre.disposed@[k] {
                    if k == kid {
                        assert(kids@.contains(kid));
                        assert(o.has_link(c, kid));
                        let a = choose|a: int|
                            0 <= a < o.links@.len() && o.links@[a] == (Link {
                                parent: c,
                                child: kid,
                            });
                        assert(o.links@[a].child == kid);
                    } else {
                        assert(k < pre.n_comps());
                        assert(pre.has_parent(k as usize));
                        let a = choose|a: int|
                            0 <= a < pre.links@.len() && (#[trigger] pre.links@[a]).child == (
                            k as usize);
                        let l = pre.links@[a];
                        assert(pre.links@[a] == (Link { parent: l.parent, child: l.child }));
                        assert(pre.has_link(l.parent, l.child));
                        assert(o.has_link(l.parent, l.child));
                        let b = choose|b: int|
                            0 <= b < o.links@.len() && o.links@[b] == (Link {
                                parent: l.parent,
                                child: l.child,
                            });
                        assert(o.links@[b].child == k as usize);
                    }
                }
            }
        }
        i += 1;
    }
    // Step two: clear the stale subscriptions of the previous run and start
    // a fresh read record.
    let ghost before_clear = *rt;
    retain_edges_without_comp(&mut rt.edges, c);
    rt.marks = Ghost(rt.marks@.update(c as int, rt.log@.len() as int));
    proof {
        lemma_clear_wf(before_clear, *rt, c);
    }
    // Step three: execute the body under tracking.
    let ghost mid1 = *rt;
    rt.stack.push(c);
    proof {
        assert(rt.stack@.len() == 1 && rt.stack@[0] == c);
        lemma_wf_frame(mid1, *rt);
    }
    let ghost entered = *rt;
    let body = copy_op(&rt.bodies[c]);
    let ok = run_op(rt, c, &body);
    let ghost mid2 = *rt;
    let _ = rt.stack.pop();
    rt.runs = Ghost(rt.runs@.update(c as int, rt.runs@[c as int] + 1));
    proof {
        assert(rt.stack@ == mid2.stack@.drop_last());
        assert(rt.stack@.len() == 0);
        lemma_wf_frame(mid2, *rt);
        if o.calm() {
            lemma_calm_frame(mid2, *rt);
            assert(op_calm(body)) by {
                assert(body == o.bodies@[c as int]);
            }
        }
        assert(rt.links@ == mid2.links@ && rt.disposed@ == mid2.disposed@);
        assert(entered.links@ == mid1.links@ && mid1.links@ == before_clear.links@);
        assert(entered.disposed@ == before_clear.disposed@);
        lemma_links_id(mid2, *rt);
        lemma_links_id(before_clear, entered);
        assert forall|k: usize| #[trigger]
            o.has_link(c, k) implies rt.disposed@[k as int] by {
            assert(kids@.contains(k));
            let j = choose|j: int| 0 <= j < kids@.len() && kids@[j] == k;
            assert(before_clear.disposed@[k as int]);
            assert(k < o.n_comps());
            assert(mid2.disposed@[k as int] == entered.disposed@[k as int]);
        }
        assert forall|p: usize, k: usize|
            #![trigger o.has_link(p, k)]
            o.has_link(p, k) && !rt.has_link(p, k) implies rt.disposed@[p as int] || rt.disposed@[
            k as int
        ] by {
            assert(!mid2.has_link(p, k));
            assert(!entered.has_link(p, k));
            assert(!before_clear.has_link(p, k));
            assert(p < o.n_comps() && k < o.n_comps());
            assert(mid2.disposed@[p as int] == entered.disposed@[p as int]);
            assert(mid2.disposed@[k as int] == entered.disposed@[k as int]);
        }
        assert forall|k: int|
            #![trigger rt.disposed@[k]]
            0 <= k < o.n_comps() && rt.disposed@[k] && !o.disposed@[k] implies o.has_parent(
            k as usize,
        ) by {
            assert(mid2.disposed@[k] == entered.disposed@[k]);
            assert(before_clear.disposed@[k]);
        }
        assert forall|k: usize| #[trigger]
            rt.has_parent(k) implies o.has_parent(k) || k >= o.n_comps() by {
            assert(mid2.has_parent(k));
            assert(entered.has_parent(k) || k >= entered.n_comps());
            if entered.has_parent(k) {
                assert(before_clear.has_parent(k));
                let a = choose|a: int|
                    0 <= a < before_clear.links@.len() && (#[trigger] before_clear.links@[
                        a
                    ]).child == k;
                let l = before_clear.links@[a];
                assert(before_clear.links@[a] == (Link { parent: l.parent, child: l.child }));
                assert(before_clear.has_link(l.parent, l.child));
                assert(o.has_link(l.parent, l.child));
                let b = choose|b: int|
                    0 <= b < o.links@.len() && o.links@[b] == (Link {
                        parent: l.parent,
                        child: l.child,
                    });
                assert(o.links@[b].child == k);
            }
        }
        assert forall|x: usize, k: usize|
            #![trigger rt.has_edge(x, k)]
            #![trigger o.has_edge(x, k)]
            k < o.n_comps() && k != c && !rt.disposed@[k as int] implies (rt.has_edge(x, k)
            <==> o.has_edge(x, k)) by {
            lemma_same_edges(mid2, *rt, x, k);
            assert(mid2.has_edge(x, k) == entered.has_edge(x, k));
            lemma_same_edges(mid1, entered, x, k);
            assert(mid1.has_edge(x, k) == before_clear.has_edge(x, k));
            assert(!before_clear.disposed@[k as int]);
            assert(before_clear.has_edge(x, k) == o.has_edge(x, k));
        }
        if op_flat(o.bodies@[c as int]) {
            assert(body == o.bodies@[c as int]);
            assert(entered.log@ == o.log@ && entered.values@ == o.values@);
            assert(mid2.log@ == entered.log@ + reads_of(body, entered.values@, c));
            assert(rt.log@ == o.log@ + reads_of(o.bodies@[c as int], o.values@, c));
            if o.links@.len() == 0 {
                assert(kids@.len() == 0) by {
                    if kids@.len() > 0 {
                        assert(kids@.contains(kids@[0]));
                        assert(o.has_link(c, kids@[0]));
                        let j = choose|j: int|
                            0 <= j < o.links@.len() && o.links@[j] == (Link {
                                parent: c,
                                child: kids@[0],
                            });
                    }
                }
                assert(before_clear.disposed@ == o.disposed@ && before_clear.links@ == o.links@);
                assert(mid2.disposed@ == entered.disposed@ && mid2.links@ == entered.links@
                    && mid2.n_comps() == entered.n_comps());
                assert(rt.disposed@ == o.disposed@ && rt.links@.len() == 0 && rt.n_comps()
                    == o.n_comps());
                if forall|x: usize| !o.has_edge(x, c) {
                    assert(before_clear.edges@ == o.edges@);
                    assert forall|a: int|
                        0 <= a < before_clear.edges@.len() implies (
                        #[trigger] before_clear.edges@[a]).comp != c by {
                        if before_clear.edges@[a].comp == c {
                            assert(o.has_edge(o.edges@[a].cell, c));
                        }
                    }
                    assert(mid1.edges@ == before_clear.edges@);
                    assert(entered.edges@ == mid1.edges@);
                    assert(mid2.edges@ == edges_after(
                        entered.edges@,
                        reads_of(body, entered.values@, c),
                    ));
                    assert(rt.edges@ == edges_after(
                        o.edges@,
                        reads_of(o.bodies@[c as int], o.values@, c),
                    ));
                }
            }
        }
    }
    ok
}

/// As [`lemma_retain_wf`], for the re-run preamble: `c` stays live, but its
/// subscription edges are gone and its mark has moved to the end of the log,
/// so its (now empty) dependency set again matches its (now empty) latest
/// read record.
proof fn lemma_clear_wf(o: Runtime, m: Runtime, c: usize)
    requires
        o.wf(),
        c < o.n_comps(),
        m.values@ == o.values@,
        m.links@ == o.links@,
        m.bodies@ == o.bodies@,
        m.runs@ == o.runs@,
        m.queued@ == o.queued@,
        m.disposed@ == o.disposed@,
        m.stack@ == o.stack@,
        m.pending@ == o.pending@,
        m.draining == o.draining,
        m.log@ == o.log@,
        m.marks@ == o.marks@.update(c as int, o.log@.len() as int),
        forall|i: int, j: int| 0 <= i < j < m.edges@.len() ==> m.edges@[i] != m.edges@[j],
        forall|e: Edge| m.edges@.contains(e) <==> (o.edges@.contains(e) && e.comp != c),
    ensures
        m.wf(),
        forall|x: usize, k: usize|
            k != c ==> (m.has_edge(x, k) <==> o.has_edge(x, k)),
{
    assert forall|x: usize, k: usize|
        k != c implies (m.has_edge(x, k) <==> o.has_edge(x, k)) by {
        if m.has_edge(x, k) {
            let i = choose|i: int|
                0 <= i < m.edges@.len() && m.edges@[i] == (Edge { cell: x, comp: k });
            assert(m.edges@.contains((Edge { cell: x, comp: k })));
            let j = choose|j: int|
                0 <= j < o.edges@.len() && o.edges@[j] == (Edge { cell: x, comp: k });
        }
        if o.has_edge(x, k) {
            let j = choose|j: int|
                0 <= j < o.edges@.len() && o.edges@[j] == (Edge { cell: x, comp: k });
            assert(o.edges@.contains((Edge { cell: x, comp: k })));
            assert(m.edges@.contains((Edge { cell: x, comp: k })));
            let i = choose|i: int|
                0 <= i < m.edges@.len() && m.edges@[i] == (Edge { cell: x, comp: k });
        }
    }
    assert forall|i: int|
        0 <= i < m.edges@.len() implies (#[trigger] m.edges@[i]).cell < m.n_cells() && m.edges@[
        i
    ].comp < m.n_comps() && !m.disposed@[m.edges@[i].comp as int] by {
        let e = m.edges@[i];
        assert(m.edges@.contains(e));
        assert(o.edges@.contains(e));
        let j = choose|j: int| 0 <= j < o.edges@.len() && o.edges@[j] == e;
    }
    assert forall|x: usize, k: usize|
        0 <= k < m.n_comps() && !m.disposed@[k as int] implies ((#[trigger] m.has_edge(x, k))
        <==> m.read_logged(k, x)) by {
        if k == c {
            assert(!m.has_edge(x, k)) by {
                if m.has_edge(x, k) {
                    let i = choose|i: int|
                        0 <= i < m.edges@.len() && m.edges@[i] == (Edge { cell: x, comp: k });
                    assert(m.edges@.contains((Edge { cell: x, comp: k })));
                }
            }
            assert(!m.read_logged(k, x)) by {
                assert(m.marks@[k as int] == m.log@.len() as int);
            }
        } else {
            assert(m.has_edge(x, k) <==> o.has_edge(x, k)) by {
                if m.has_edge(x, k) {
                    let i = choose|i: int|
                        0 <= i < m.edges@.len() && m.edges@[i] == (Edge { cell: x, comp: k });
                    assert(m.edges@.contains((Edge { cell: x, comp: k })));
                    let j = choose|j: int|
                        0 <= j < o.edges@.len() && o.edges@[j] == (Edge { cell: x, comp: k });
                }
                if o.has_edge(x, k) {
                    let j = choose|j: int|
                        0 <= j < o.edges@.len() && o.edges@[j] == (Edge { cell: x, comp: k });
                    assert(o.edges@.contains((Edge { cell: x, comp: k })));
                    assert(m.edges@.contains((Edge { cell: x, comp: k })));
                    let i = choose|i: int|
                        0 <= i < m.edges@.len() && m.edges@[i] == (Edge { cell: x, comp: k });
                }
            }
            lemma_same_reads(o, m, k, x);
            assert(o.has_edge(x, k) <==> o.read_logged(k, x));
        }
    }
}

/// Drains the pending set of the current round: repeatedly removes the
/// first-enqueued computation and re-runs it (unless it was disposed in the
/// meantime), until nothing is pending. Re-runs may enqueue more work; a
/// round that has not converged after [`ROUND_CAP`] steps is abandoned with
/// [`RuntimeError::ReentrancyOverflow`]. A failing computation does not stop
/// the round: the failure is reported once everything pending has run.
#[verifier::rlimit(30)]
fn drain(rt: &mut Runtime) -> (r: Result<(), RuntimeError>)
    requires
        old(rt).wf(),
        old(rt).draining,
        old(rt).stack@.len() == 0,
    ensures
        final(rt).wf(),
        final(rt).draining,
        final(rt).stack@.len() == 0,
        final(rt).pending@.len() == 0,
        final(rt).n_cells() == old(rt).n_cells(),
        final(rt).n_comps() >= old(rt).n_comps(),
        old(rt).log@.len() <= final(rt).log@.len(),
        forall|i: int|
            0 <= i < old(rt).log@.len() ==> #[trigger] final(rt).log@[i] == old(rt).log@[i],
        forall|k: int|
            0 <= k < old(rt).n_comps() && old(rt).disposed@[k] ==> #[trigger] final(rt).disposed@[k],
        forall|k: int|
            0 <= k < old(rt).n_comps() && old(rt).disposed@[k] ==> #[trigger] final(rt).runs@[k]
                == old(rt).runs@[k],
        forall|k: int|
            0 <= k < old(rt).n_comps() ==> #[trigger] final(rt).runs@[k] >= old(rt).runs@[k],
        forall|k: int|
            0 <= k < old(rt).n_comps() ==> #[trigger] final(rt).bodies@[k] == old(rt).bodies@[k],
        r != Result::<(), RuntimeError>::Err(RuntimeError::ReentrancyOverflow) ==> (forall|
            k: usize,
        |
            old(rt).pending@.contains(k) && !final(rt).disposed@[k as int]
                ==> final(rt).runs@[k as int] > old(rt).runs@[k as int]),
        r is Ok ==> (forall|k: usize|
            old(rt).pending@.contains(k) && !final(rt).disposed@[k as int] ==> !op_must_fail(
                old(rt).bodies@[k as int],
            )),
        forall|x: usize, k: usize|
            #![trigger final(rt).has_edge(x, k)]
            #![trigger old(rt).has_edge(x, k)]
            k < old(rt).n_comps() && !final(rt).disposed@[k as int] && final(rt).runs@[k as int]
                == old(rt).runs@[k as int]
                ==> (final(rt).has_edge(x, k) <==> old(rt).has_edge(x, k)),
        old(rt).calm() ==> (final(rt).calm() && final(rt).values@ == old(rt).values@),
        (old(rt).calm() && old(rt).pending@.len() <= ROUND_CAP) ==> r is Ok,
        // no computation runs more often than it was made pending,
        forall|k: usize|
            k < old(rt).n_comps() ==> #[trigger] final(rt).runs@[k as int] <= old(rt).runs@[
                k as int
            ] + old(rt).pend01(k) + (final(rt).queued@[k as int] - old(rt).queued@[k as int]),
        forall|k: usize|
            k < old(rt).n_comps() ==> #[trigger] final(rt).queued@[k as int] >= old(
                rt,
            ).queued@[k as int],
        // a computation that re-ran has had its previous children disposed,
        forall|p: usize, k: usize|
            #![trigger old(rt).has_link(p, k)]
            p < old(rt).n_comps() && old(rt).has_link(p, k) && final(rt).runs@[p as int] > old(
                rt,
            ).runs@[p as int] ==> final(rt).disposed@[k as int],
        // only owned computations can be disposed by a round,
        forall|k: int|
            #![trigger final(rt).disposed@[k]]
            0 <= k < old(rt).n_comps() && final(rt).disposed@[k] && !old(rt).disposed@[k]
                ==> old(rt).has_parent(k as usize),
        old(rt).quiet_queue() ==> final(rt).values@ == old(rt).values@,
        (old(rt).quiet_queue() && old(rt).pending@.len() <= ROUND_CAP) ==> r != Result::<
            (),
            RuntimeError,
        >::Err(RuntimeError::ReentrancyOverflow),
        (old(rt).quiet_queue() && r != Result::<(), RuntimeError>::Err(
            RuntimeError::ReentrancyOverflow,
        )) ==> (forall|k: usize|
            k < old(rt).n_comps() && !final(rt).disposed@[k as int]
                ==> #[trigger] final(rt).runs@[k as int] == old(rt).runs@[k as int] + (if old(
                rt,
            ).pending@.contains(k) {
                1int
            } else {
                0int
            })),
        (old(rt).links@.len() == 0 && old(rt).flat_queue() && old(rt).pending@.len() <= ROUND_CAP)
            ==> (r is Ok && final(rt).log@ == old(rt).log@ + round_reads(
            old(rt).bodies@,
            old(rt).values@,
            old(rt).pending@,
        ) && final(rt).values@ == old(rt).values@ && final(rt).disposed@ == old(rt).disposed@),
        (old(rt).calm() && r is Ok) ==> (forall|k: usize|
            k < old(rt).n_comps() && !final(rt).disposed@[k as int]
                ==> #[trigger] final(rt).runs@[k as int] == old(rt).runs@[k as int] + (if old(rt).pending@.contains(k) {
                1int
            } else {
                0int
            })),
        old(rt).pending@.len() == 0 ==> (*final(rt) == *old(rt) && r is Ok),
{
    let mut steps: usize = 0;
    let mut failed: bool = false;
    while rt.pending.len() > 0
        invariant
            old(rt).wf(),
            old(rt).draining,
            rt.wf(),
            rt.draining,
            rt.stack@.len() == 0,
            rt.n_cells() == old(rt).n_cells(),
            rt.n_comps() >= old(rt).n_comps(),
            old(rt).log@.len() <= rt.log@.len(),
            forall|i: int|
                0 <= i < old(rt).log@.len() ==> #[trigger] rt.log@[i] == old(rt).log@[i],
            steps <= ROUND_CAP,
            steps == 0 ==> *rt == *old(rt) && !failed,
            old(rt).pending@.len() == 0 ==> steps == 0,
            forall|k: int|
                0 <= k < old(rt).n_comps() && old(rt).disposed@[k]
                    ==> #[trigger] rt.disposed@[k],
            forall|k: int|
                0 <= k < old(rt).n_comps() && old(rt).disposed@[k] ==> #[trigger] rt.runs@[k]
                    == old(rt).runs@[k],
            forall|k: int|
                0 <= k < old(rt).n_comps() ==> #[trigger] rt.runs@[k] >= old(rt).runs@[k],
            forall|k: int|
                0 <= k < old(rt).n_comps() ==> #[trigger] rt.bodies@[k] == old(rt).bodies@[k],
            forall|k: usize|
                old(rt).pending@.contains(k) ==> (rt.pending@.contains(k) || rt.runs@[k as int]
                    > old(rt).runs@[k as int] || rt.disposed@[k as int]),
            forall|k: usize|
                k < old(rt).n_comps() ==> #[trigger] rt.runs@[k as int] + rt.pend01(k) <= old(
                    rt,
                ).runs@[k as int] + old(rt).pend01(k) + (rt.queued@[k as int] - old(rt).queued@[
                    k as int
                ]),
            forall|k: usize|
                k < old(rt).n_comps() ==> #[trigger] rt.queued@[k as int] >= old(rt).queued@[
                    k as int
                ],
            forall|p: usize, k: usize|
                #![trigger old(rt).has_link(p, k)]
                p < old(rt).n_comps() && old(rt).has_link(p, k) && rt.runs@[p as int] > old(
                    rt,
                ).runs@[p as int] ==> rt.disposed@[k as int],
            forall|p: usize, k: usize|
                #![trigger old(rt).has_link(p, k)]
                old(rt).has_link(p, k) && !rt.has_link(p, k) ==> rt.disposed@[p as int]
                    || rt.disposed@[k as int],
            forall|k: usize|
                #![trigger rt.has_parent(k)]
                rt.has_parent(k) ==> old(rt).has_parent(k) || k >= old(rt).n_comps(),
            forall|k: int|
                #![trigger rt.disposed@[k]]
                0 <= k < old(rt).n_comps() && rt.disposed@[k] && !old(rt).disposed@[k]
                    ==> old(rt).has_parent(k as usize),
            !failed ==> (forall|k: usize|
                old(rt).pending@.contains(k) ==> (rt.pending@.contains(k) || rt.disposed@[
                    k as int
                ] || !op_must_fail(old(rt).bodies@[k as int]))),
            forall|x: usize, k: usize|
                #![trigger rt.has_edge(x, k)]
                #![trigger old(rt).has_edge(x, k)]
                k < old(rt).n_comps() && !rt.disposed@[k as int] && rt.runs@[k as int] == old(
                    rt,
                ).runs@[k as int] ==> (rt.has_edge(x, k) <==> old(rt).has_edge(x, k)),
            old(rt).quiet_queue() ==> (rt.values@ == old(rt).values@ && steps <= old(
                rt,
            ).pending@.len() && rt.pending@ == old(rt).pending@.skip(steps as int) && (forall|
                k: usize,
            |
                k < old(rt).n_comps() && !rt.disposed@[k as int]
                    ==> #[trigger] rt.runs@[k as int] == old(rt).runs@[k as int] + (if old(
                    rt,
                ).pending@.take(steps as int).contains(k) {
                    1int
                } else {
                    0int
                }))),
            (old(rt).links@.len() == 0 && old(rt).flat_queue()) ==> (!failed && rt.values@
                == old(rt).values@ && rt.disposed@ == old(rt).disposed@ && rt.links@.len() == 0
                && rt.n_comps() == old(rt).n_comps() && steps <= old(rt).pending@.len()
                && rt.pending@ == old(rt).pending@.skip(steps as int) && rt.log@ == old(rt).log@
                + round_reads(
                old(rt).bodies@,
                old(rt).values@,
                old(rt).pending@.take(steps as int),
            )),
            old(rt).calm() ==> (!failed && rt.calm() && rt.values@ == old(rt).values@ && steps
                <= old(rt).pending@.len() && rt.pending@ == old(rt).pending@.skip(steps as int) && (
            forall|k: usize|
                k < old(rt).n_comps() && !rt.disposed@[k as int]
                    ==> #[trigger] rt.runs@[k as int] == old(rt).runs@[k as int] + (if old(rt).pending@.take(steps as int).contains(k) {
                    1int
                } else {
                    0int
                }))),
        decreases ROUND_CAP - steps,
    {
        if steps >= ROUND_CAP {
            proof {
                if old(rt).calm() {
                    assert(rt.pending@.len() == old(rt).pending@.len() - steps);
                    assert(old(rt).pending@.len() > ROUND_CAP);
                }
                if old(rt).links@.len() == 0 && old(rt).flat_queue() {
                    assert(rt.pending@.len() == old(rt).pending@.len() - steps);
                    assert(old(rt).pending@.len() > ROUND_CAP);
                }
                if old(rt).quiet_queue() {
                    assert(rt.pending@.len() == old(rt).pending@.len() - steps);
                    assert(old(rt).pending@.len() > ROUND_CAP);
                }
            }
            let ghost before = *rt;
            rt.pending.clear();
            proof {
                lemma_wf_frame(before, *rt);
                if old(rt).calm() {
                    lemma_calm_frame(before, *rt);
                }
                assert forall|x: usize, k: usize|
                    #![trigger rt.has_edge(x, k)]
                    #![trigger old(rt).has_edge(x, k)]
                    k < old(rt).n_comps() && !rt.disposed@[k as int] && rt.runs@[k as int] == old(
                        rt,
                    ).runs@[k as int] implies (rt.has_edge(x, k) <==> old(rt).has_edge(x, k)) by {
                    lemma_same_edges(before, *rt, x, k);
                }
            }
            return Err(RuntimeError::ReentrancyOverflow);
        }
        let ghost prev = *rt;
        let c = rt.pending.remove(0);
        proof {
            assert(rt.pending@ =~= prev.pending@.skip(1));
            assert(c == prev.pending@[0]);
            assert(c < prev.n_comps());
            assert forall|a: int, b: int|
                0 <= a < b < rt.pending@.len() implies rt.pending@[a] != rt.pending@[b] by {
                assert(rt.pending@[a] == prev.pending@[a + 1]);
                assert(rt.pending@[b] == prev.pending@[b + 1]);
            }
            assert forall|a: int|
                0 <= a < rt.pending@.len() implies (#[trigger] rt.pending@[a]) < rt.n_comps() by {
                assert(rt.pending@[a] == prev.pending@[a + 1]);
            }
            lemma_wf_frame(prev, *rt);
            if old(rt).calm() {
                lemma_calm_frame(prev, *rt);
                assert(rt.pending@ =~= old(rt).pending@.skip(steps as int + 1));
            }
            assert(!prev.pending@.skip(1).contains(c)) by {
                if prev.pending@.skip(1).contains(c) {
                    let a = choose|a: int|
                        0 <= a < prev.pending@.skip(1).len() && prev.pending@.skip(1)[a] == c;
                    assert(prev.pending@[a + 1] == c && prev.pending@[0] == c);
                }
            }
        }
        let ghost popped = *rt;
        if !rt.disposed[c] {
            let ok = run_comp(rt, c);
            if !ok {
                failed = true;
            }
        }
        proof {
            lemma_drain_step(*old(rt), prev, popped, *rt, c, steps as int);
            assert forall|k: usize|
                !failed && old(rt).pending@.contains(k) implies (rt.pending@.contains(k)
                || rt.disposed@[k as int] || !op_must_fail(old(rt).bodies@[k as int])) by {
                if k == c {
                    if !popped.disposed@[c as int] {
                        assert(popped.bodies@[c as int] == old(rt).bodies@[c as int]);
                        assert(!op_must_fail(old(rt).bodies@[c as int]));
                    }
                } else {
                    if prev.pending@.contains(k) {
                        let a = choose|a: int|
                            0 <= a < prev.pending@.len() && prev.pending@[a] == k;
                        assert(a != 0);
                        assert(popped.pending@[a - 1] == k);
                        assert(popped.pending@.contains(k));
                        assert(rt.pending@.contains(k));
                    } else {
                        assert(prev.disposed@[k as int] || !op_must_fail(
                            old(rt).bodies@[k as int],
                        ));
                    }
                }
            }
            assert forall|x: usize, k: usize|
                #![trigger rt.has_edge(x, k)]
                #![trigger old(rt).has_edge(x, k)]
                k < old(rt).n_comps() && !rt.disposed@[k as int] && rt.runs@[k as int] == old(
                    rt,
                ).runs@[k as int] implies (rt.has_edge(x, k) <==> old(rt).has_edge(x, k)) by {
                lemma_same_edges(prev, popped, x, k);
                assert(!prev.disposed@[k as int]) by {
                    if prev.disposed@[k as int] {
                        assert(popped.disposed@[k as int]);
                        assert(rt.disposed@[k as int]);
                    }
                }
                if !popped.disposed@[c as int] {
                    assert(k != c) by {
                        if k == c {
                            assert(rt.runs@[c as int] == popped.runs@[c as int] + 1);
                            assert(popped.runs@[c as int] >= old(rt).runs@[c as int]);
                        }
                    }
                    assert(popped.runs@[k as int] == prev.runs@[k as int]);
                    assert(rt.runs@[k as int] == popped.runs@[k as int]);
                    assert(rt.has_edge(x, k) == popped.has_edge(x, k));
                    assert(prev.has_edge(x, k) == old(rt).has_edge(x, k));
                } else {
                    assert(rt.has_edge(x, k) == popped.has_edge(x, k));
                    assert(prev.has_edge(x, k) == old(rt).has_edge(x, k));
                }
            }
            if old(rt).links@.len() == 0 && old(rt).flat_queue() {
                assert(c == old(rt).pending@[steps as int]) by {
                    assert(prev.pending@[0] == old(rt).pending@.skip(steps as int)[0]);
                }
                assert(op_flat(old(rt).bodies@[old(rt).pending@[steps as int] as int])
                    && !old(rt).disposed@[old(rt).pending@[steps as int] as int]);
                assert(!popped.disposed@[c as int]);
                assert(popped.bodies@[c as int] == old(rt).bodies@[c as int]);
                lemma_flat_is_calm(old(rt).bodies@[c as int]);
                assert(popped.links@.len() == 0) by {
                    assert(popped.links@ == prev.links@);
                }
                assert(rt.values@ == popped.values@ && rt.pending@ == popped.pending@);
                assert(rt.disposed@ == popped.disposed@ && rt.links@.len() == 0 && rt.n_comps()
                    == popped.n_comps());
                assert(steps < old(rt).pending@.len()) by {
                    assert(prev.pending@.len() == old(rt).pending@.len() - steps);
                }
                assert(rt.log@ == popped.log@ + reads_of(
                    old(rt).bodies@[c as int],
                    old(rt).values@,
                    c,
                ));
                assert(old(rt).pending@.take(steps as int + 1) =~= old(rt).pending@.take(
                    steps as int,
                ).push(c));
                lemma_round_reads_push(
                    old(rt).bodies@,
                    old(rt).values@,
                    old(rt).pending@.take(steps as int),
                    c,
                );
                assert(rt.log@ =~= old(rt).log@ + round_reads(
                    old(rt).bodies@,
                    old(rt).values@,
                    old(rt).pending@.take(steps as int + 1),
                ));
                assert(popped.pending@ =~= old(rt).pending@.skip(steps as int + 1)) by {
                    assert(prev.pending@.skip(1) =~= old(rt).pending@.skip(steps as int).skip(1));
                    assert(old(rt).pending@.skip(steps as int).skip(1) =~= old(rt).pending@.skip(
                        steps as int + 1,
                    ));
                }
            }
            lemma_links_id(prev, popped);
            assert forall|k: usize|
                k < old(rt).n_comps() implies #[trigger] rt.runs@[k as int] + rt.pend01(k) <= old(
                    rt,
                ).runs@[k as int] + old(rt).pend01(k) + (rt.queued@[k as int] - old(rt).queued@[
                    k as int
                ]) by {
                assert(popped.queued@ == prev.queued@ && popped.runs@ == prev.runs@);
                if k == c {
                    assert(popped.pend01(c) == 0);
                    assert(prev.pend01(c) == 1) by {
                        assert(prev.pending@[0] == c);
                    }
                } else {
                    assert(popped.pending@.contains(k) == prev.pending@.contains(k)) by {
                        if popped.pending@.contains(k) {
                            let a = choose|a: int|
                                0 <= a < popped.pending@.len() && popped.pending@[a] == k;
                            assert(prev.pending@[a + 1] == k);
                        }
                        if prev.pending@.contains(k) {
                            let a = choose|a: int|
                                0 <= a < prev.pending@.len() && prev.pending@[a] == k;
                            assert(a != 0);
                            assert(popped.pending@[a - 1] == k);
                        }
                    }
                }
                if !popped.disposed@[c as int] {
                    assert(rt.pend01(k) - popped.pend01(k) <= rt.queued@[k as int]
                        - popped.queued@[k as int]);
                    assert(rt.queued@[k as int] >= popped.queued@[k as int]);
                    if k == c {
                        assert(rt.runs@[c as int] == popped.runs@[c as int] + 1);
                    } else {
                        assert(rt.runs@[k as int] == popped.runs@[k as int]);
                    }
                }
            }
            assert forall|k: usize|
                k < old(rt).n_comps() implies #[trigger] rt.queued@[k as int] >= old(rt).queued@[
                    k as int
                ] by {
                assert(popped.queued@ == prev.queued@);
                if !popped.disposed@[c as int] {
                    assert(rt.queued@[k as int] >= popped.queued@[k as int]);
                }
            }
            assert forall|p: usize, k: usize|
                #![trigger old(rt).has_link(p, k)]
                p < old(rt).n_comps() && old(rt).has_link(p, k) && rt.runs@[p as int] > old(
                    rt,
                ).runs@[p as int] implies rt.disposed@[k as int] by {
                assert(k < old(rt).n_comps()) by {
                    let a = choose|a: int|
                        0 <= a < old(rt).links@.len() && old(rt).links@[a] == (Link {
                            parent: p,
                            child: k,
                        });
                }
                if !popped.disposed@[c as int] && p == c {
                    if prev.runs@[p as int] > old(rt).runs@[p as int] {
                        assert(prev.disposed@[k as int]);
                        assert(popped.disposed@[k as int]);
                    } else {
                        if popped.has_link(c, k) {
                            assert(rt.disposed@[k as int]);
                        } else {
                            assert(prev.has_link(c, k) == popped.has_link(c, k));
                            assert(prev.disposed@[c as int] || prev.disposed@[k as int]);
                            assert(popped.disposed@[k as int]);
                        }
                    }
                } else {
                    assert(rt.runs@[p as int] == popped.runs@[p as int]);
                    assert(prev.disposed@[k as int]);
                    assert(popped.disposed@[k as int]);
                }
            }
            assert forall|p: usize, k: usize|
                #![trigger old(rt).has_link(p, k)]
                old(rt).has_link(p, k) && !rt.has_link(p, k) implies rt.disposed@[p as int]
                || rt.disposed@[k as int] by {
                assert(p < old(rt).n_comps() && k < old(rt).n_comps()) by {
                    let a = choose|a: int|
                        0 <= a < old(rt).links@.len() && old(rt).links@[a] == (Link {
                            parent: p,
                            child: k,
                        });
                }
                if popped.has_link(p, k) {
                    assert(rt.disposed@[p as int] || rt.disposed@[k as int]);
                } else {
                    assert(prev.has_link(p, k) == popped.has_link(p, k));
                    assert(prev.disposed@[p as int] || prev.disposed@[k as int]);
                    assert(popped.disposed@[p as int] || popped.disposed@[k as int]);
                }
            }
            assert forall|k: usize|
                #![trigger rt.has_parent(k)]
                rt.has_parent(k) implies old(rt).has_parent(k) || k >= old(rt).n_comps() by {
                assert(popped.has_parent(k) || k >= popped.n_comps());
                if popped.has_parent(k) {
                    assert(prev.has_parent(k));
                }
            }
            assert forall|k: int|
                #![trigger rt.disposed@[k]]
                0 <= k < old(rt).n_comps() && rt.disposed@[k] && !old(rt).disposed@[k]
                implies old(rt).has_parent(k as usize) by {
                if !popped.disposed@[k] {
                    assert(k < popped.n_comps());
                    assert(popped.has_parent(k as usize));
                    assert(prev.has_parent(k as usize));
                    assert(old(rt).has_parent(k as usize) || k >= old(rt).n_comps());
                } else {
                    assert(prev.disposed@[k]);
                }
            }
            if old(rt).quiet_queue() {
                assert(c == old(rt).pending@[steps as int]) by {
                    assert(prev.pending@[0] == old(rt).pending@.skip(steps as int)[0]);
                }
                assert(op_quiet(old(rt).bodies@[old(rt).pending@[steps as int] as int]));
                assert(popped.bodies@[c as int] == old(rt).bodies@[c as int]);
                assert(rt.pending@ == popped.pending@ && rt.values@ == popped.values@);
                assert(rt.pending@ =~= old(rt).pending@.skip(steps as int + 1)) by {
                    assert(prev.pending@.skip(1) =~= old(rt).pending@.skip(steps as int).skip(1));
                    assert(old(rt).pending@.skip(steps as int).skip(1) =~= old(rt).pending@.skip(
                        steps as int + 1,
                    ));
                }
                assert(steps < old(rt).pending@.len()) by {
                    assert(prev.pending@.len() == old(rt).pending@.len() - steps);
                }
                assert(old(rt).pending@.take(steps as int + 1) =~= old(rt).pending@.take(
                    steps as int,
                ).push(c));
                assert(!old(rt).pending@.take(steps as int).contains(c)) by {
                    if old(rt).pending@.take(steps as int).contains(c) {
                        let a = choose|a: int|
                            0 <= a < old(rt).pending@.take(steps as int).len() && old(
                                rt,
                            ).pending@.take(steps as int)[a] == c;
                        assert(old(rt).pending@[a] == c && old(rt).pending@[steps as int] == c);
                        assert(old(rt).wf());
                    }
                }
                assert forall|k: usize|
                    k < old(rt).n_comps() && !rt.disposed@[k as int]
                        implies #[trigger] rt.runs@[k as int] == old(rt).runs@[k as int] + (if old(
                        rt,
                    ).pending@.take(steps as int + 1).contains(k) {
                        1int
                    } else {
                        0int
                    }) by {
                    assert(!prev.disposed@[k as int]) by {
                        if prev.disposed@[k as int] {
                            assert(popped.disposed@[k as int]);
                            assert(rt.disposed@[k as int]);
                        }
                    }
                    if k == c {
                        assert(!popped.disposed@[c as int]);
                        assert(rt.runs@[c as int] == popped.runs@[c as int] + 1);
                    } else {
                        assert(old(rt).pending@.take(steps as int + 1).contains(k) == old(
                            rt,
                        ).pending@.take(steps as int).contains(k));
                        if !popped.disposed@[c as int] {
                            assert(rt.runs@[k as int] == popped.runs@[k as int]);
                        }
                    }
                }
            }
        }
        steps += 1;
    }
    proof {
        if old(rt).calm() && rt.pending@.len() == 0 {
            assert(steps == old(rt).pending@.len());
            assert(old(rt).pending@.take(steps as int) =~= old(rt).pending@);
        }
        if old(rt).links@.len() == 0 && old(rt).flat_queue() && rt.pending@.len() == 0 {
            assert(steps == old(rt).pending@.len());
            assert(old(rt).pending@.take(steps as int) =~= old(rt).pending@);
        }
        if old(rt).quiet_queue() && rt.pending@.len() == 0 {
            assert(steps == old(rt).pending@.len());
            assert(old(rt).pending@.take(steps as int) =~= old(rt).pending@);
        }
    }
    if failed {
        Err(RuntimeError::ComputationFailure)
    } else {
        Ok(())
    }
}

/// One drain step keeps the round's bookkeeping: `prev` is the state at the
/// start of the step, `popped` the state after the head of the pending list
/// was removed, `now` the state after the head ran (or was skipped because
/// it was disposed).
proof fn lemma_drain_step(e: Runtime, prev: Runtime, popped: Runtime, now: Runtime, c: usize, steps: int)
    requires
        e.wf(),
        prev.pending@.len() > 0,
        c == prev.pending@[0],
        c < prev.n_comps(),
        popped.pending@ == prev.pending@.skip(1),
        !popped.pending@.contains(c),
        popped.values@ == prev.values@,
        popped.bodies@ == prev.bodies@,
        popped.runs@ == prev.runs@,
        popped.disposed@ == prev.disposed@,
        popped.n_comps() == prev.n_comps(),
        e.n_comps() <= prev.n_comps(),
        // what the step did: either the head was disposed and nothing moved,
        // or it ran.
        (popped.disposed@[c as int] ==> now == popped),
        (!popped.disposed@[c as int] ==> now.n_comps() >= popped.n_comps() && now.runs@[c as int]
            == popped.runs@[c as int] + 1 && !now.disposed@[c as int] && (forall|k: int|
            0 <= k < popped.n_comps() && k != c ==> now.runs@[k] == popped.runs@[k]) && (forall|
            k: int,
        |
            0 <= k < popped.n_comps() ==> now.bodies@[k] == popped.bodies@[k]) && (forall|k: int|
            0 <= k < popped.n_comps() && popped.disposed@[k] ==> now.disposed@[k]) && (forall|
            k: usize,
        |
            popped.pending@.contains(k) ==> now.pending@.contains(k)) && (popped.calm() ==> (
        now.pending@ == popped.pending@ && now.values@ == popped.values@ && now.calm()))),
        // the invariant so far, relative to the round entry state e:
        forall|k: int|
            0 <= k < e.n_comps() && e.disposed@[k] ==> #[trigger] prev.disposed@[k],
        forall|k: int|
            0 <= k < e.n_comps() && e.disposed@[k] ==> #[trigger] prev.runs@[k] == e.runs@[k],
        forall|k: int| 0 <= k < e.n_comps() ==> #[trigger] prev.runs@[k] >= e.runs@[k],
        forall|k: int| 0 <= k < e.n_comps() ==> #[trigger] prev.bodies@[k] == e.bodies@[k],
        forall|k: usize|
            e.pending@.contains(k) ==> (prev.pending@.contains(k) || prev.runs@[k as int]
                > e.runs@[k as int] || prev.disposed@[k as int]),
        e.calm() ==> (prev.calm() && prev.values@ == e.values@ && 0 <= steps <= e.pending@.len()
            && prev.pending@ == e.pending@.skip(steps) && (forall|k: usize|
            k < e.n_comps() && !prev.disposed@[k as int] ==> #[trigger] prev.runs@[k as int]
                == e.runs@[k as int] + (if e.pending@.take(steps).contains(k) {
                1int
            } else {
                0int
            }))),
    ensures
        forall|k: int|
            0 <= k < e.n_comps() && e.disposed@[k] ==> #[trigger] now.disposed@[k],
        forall|k: int|
            0 <= k < e.n_comps() && e.disposed@[k] ==> #[trigger] now.runs@[k] == e.runs@[k],
        forall|k: int| 0 <= k < e.n_comps() ==> #[trigger] now.runs@[k] >= e.runs@[k],
        forall|k: int| 0 <= k < e.n_comps() ==> #[trigger] now.bodies@[k] == e.bodies@[k],
        forall|k: usize|
            e.pending@.contains(k) ==> (now.pending@.contains(k) || now.runs@[k as int]
                > e.runs@[k as int] || now.disposed@[k as int]),
        e.calm() ==> (now.calm() && now.values@ == e.values@ && steps + 1 <= e.pending@.len()
            && now.pending@ == e.pending@.skip(steps + 1) && (forall|k: usize|
            k < e.n_comps() && !now.disposed@[k as int] ==> #[trigger] now.runs@[k as int]
                == e.runs@[k as int] + (if e.pending@.take(steps + 1).contains(k) {
                1int
            } else {
                0int
            }))),
{
    let ran = !popped.disposed@[c as int];
    if e.calm() {
        assert(steps < e.pending@.len()) by {
            assert(prev.pending@.len() == e.pending@.len() - steps);
        }
        assert(c == e.pending@[steps]) by {
            assert(prev.pending@[0] == e.pending@.skip(steps)[0]);
        }
        assert(e.pending@.take(steps + 1) =~= e.pending@.take(steps).push(c));
        assert(now.pending@ =~= e.pending@.skip(steps + 1)) by {
            assert(popped.pending@ =~= e.pending@.skip(steps + 1)) by {
                assert(prev.pending@.skip(1) =~= e.pending@.skip(steps).skip(1));
                assert(e.pending@.skip(steps).skip(1) =~= e.pending@.skip(steps + 1));
            }
        }
        assert(!e.pending@.take(steps).contains(c)) by {
            if e.pending@.take(steps).contains(c) {
                let a = choose|a: int|
                    0 <= a < e.pending@.take(steps).len() && e.pending@.take(steps)[a] == c;
                assert(e.pending@[a] == c && e.pending@[steps] == c);
                assert(e.wf());
            }
        }
        assert forall|k: usize|
            k < e.n_comps() && !now.disposed@[k as int] implies #[trigger] now.runs@[k as int]
            == e.runs@[k as int] + (if e.pending@.take(steps + 1).contains(k) {
            1int
        } else {
            0int
        }) by {
            assert(!prev.disposed@[k as int]);
            if k == c {
                assert(ran);
            } else {
                assert(e.pending@.take(steps + 1).contains(k) == e.pending@.take(steps).contains(
                    k,
                ));
            }
        }
    }
    assert forall|k: usize|
        e.pending@.contains(k) implies (now.pending@.contains(k) || now.runs@[k as int]
        > e.runs@[k as int] || now.disposed@[k as int]) by {
        if prev.pending@.contains(k) {
            if k == c {
                if ran {
                    assert(now.runs@[c as int] > e.runs@[c as int]);
                } else {
                    assert(now.disposed@[c as int]);
                }
            } else {
                assert(popped.pending@.contains(k)) by {
                    let a = choose|a: int|
                        0 <= a < prev.pending@.len() && prev.pending@[a] == k;
                    assert(a != 0);
                    assert(popped.pending@[a - 1] == k);
                }
                if ran {
                    assert(now.pending@.contains(k));
                } else {
                    assert(now.pending@.contains(k));
                }
            }
        } else if prev.runs@[k as int] > e.runs@[k as int] {
            assert(k < e.n_comps());
            if ran && k != c {
                assert(now.runs@[k as int] == prev.runs@[k as int]);
            }
        } else {
            assert(prev.disposed@[k as int]);
            if ran {
                assert(now.disposed@[k as int]);
            }
        }
    }
}

/// Detaches the computation behind `h` from every cell it subscribes to and
/// from its parent, disposes its children with it, and prevents it from ever
/// re-running.
pub fn dispose(rt: &mut Runtime, h: EffectHandle)
    requires
        old(rt).wf(),
        old(rt).idle(),
        h.id < old(rt).n_comps(),
    ensures
        final(rt).wf(),
        final(rt).idle(),
        final(rt).disposed@[h.id as int],
        final(rt).n_comps() == old(rt).n_comps(),
        final(rt).n_cells() == old(rt).n_cells(),
        final(rt).values@ == old(rt).values@,
        final(rt).runs@ == old(rt).runs@,
        final(rt).log@ == old(rt).log@,
        forall|x: usize| !final(rt).has_edge(x, h.id),
        // the cascade: every computation the handle owned, transitively, is
        // disposed with it (chain this clause through the old link relation,
        // or apply `laws::lemma_dispose_cascades`).
        forall|p: usize, k: usize|
            old(rt).has_link(p, k) && final(rt).disposed@[p as int] ==> final(rt).disposed@[
                k as int
            ],
        forall|k: int|
            0 <= k < old(rt).n_comps() && old(rt).disposed@[k] ==> final(rt).disposed@[k],
        // everything else that is live and owned by nobody stays live,
        forall|k: int|
            #![trigger final(rt).disposed@[k]]
            0 <= k < old(rt).n_comps() && k != h.id && !old(rt).disposed@[k] && !old(
                rt,
            ).has_parent(k as usize) ==> !final(rt).disposed@[k],
        forall|x: usize, k: usize|
            k < old(rt).n_comps() && !final(rt).disposed@[k as int] ==> (final(rt).has_edge(x, k)
                <==> old(rt).has_edge(x, k)),
{
    dispose_rec(rt, h.id);
    proof {
        assert forall|x: usize| !rt.has_edge(x, h.id) by {
            if rt.has_edge(x, h.id) {
                let i = choose|i: int|
                    0 <= i < rt.edges@.len() && rt.edges@[i] == (Edge { cell: x, comp: h.id });
                assert(!rt.disposed@[rt.edges@[i].comp as int]);
            }
        }
    }
}

impl Signal {
    /// Allocates a cell holding `initial`, with no subscribers yet.
    pub fn new(rt: &mut Runtime, initial: u64) -> (s: Signal)
        requires
            old(rt).wf(),
        ensures
            final(rt).wf(),
            s.id == old(rt).n_cells(),
            final(rt).values@ == old(rt).values@.push(initial),
            final(rt).edges@ == old(rt).edges@,
            final(rt).links@ == old(rt).links@,
            final(rt).bodies@ == old(rt).bodies@,
            final(rt).disposed@ == old(rt).disposed@,
            final(rt).runs@ == old(rt).runs@,
            final(rt).queued@ == old(rt).queued@,
            final(rt).marks@ == old(rt).marks@,
            final(rt).stack@ == old(rt).stack@,
            final(rt).pending@ == old(rt).pending@,
            final(rt).draining == old(rt).draining,
            final(rt).log@ == old(rt).log@,
    {
        let id = rt.values.len();
        rt.values.push(initial);
        proof {
            assert forall|k: int| 0 <= k < rt.n_comps() implies op_valid(
                #[trigger] rt.bodies@[k],
                rt.n_cells(),
            ) by {
                lemma_op_valid_mono(rt.bodies@[k], old(rt).n_cells(), rt.n_cells());
            }
            assert forall|cell: usize, comp: usize|
                0 <= comp < rt.n_comps() && !rt.disposed@[comp as int] implies ((
            #[trigger] rt.has_edge(cell, comp)) <==> rt.read_logged(comp, cell)) by {
                lemma_same_edges(*old(rt), *rt, cell, comp);
                lemma_same_reads(*old(rt), *rt, comp, cell);
            }
        }
        Signal { id }
    }

    /// Reads the cell's current value. If a computation is running, it
    /// becomes a subscriber of this cell (idempotently) and the read is
    /// logged; a bare read outside any computation changes nothing: it never
    /// creates a subscription.
    pub fn get(&self, rt: &mut Runtime) -> (v: u64)
        requires
            old(rt).wf(),
            self.id < old(rt).n_cells(),
        ensures
            final(rt).wf(),
            v == old(rt).values@[self.id as int],
            final(rt).values@ == old(rt).values@,
            final(rt).runs@ == old(rt).runs@,
            final(rt).disposed@ == old(rt).disposed@,
            final(rt).pending@ == old(rt).pending@,
            final(rt).stack@ == old(rt).stack@,
            final(rt).draining == old(rt).draining,
            final(rt).bodies@ == old(rt).bodies@,
            final(rt).marks@ == old(rt).marks@,
            final(rt).links@ == old(rt).links@,
            final(rt).n_comps() == old(rt).n_comps(),
            final(rt).n_cells() == old(rt).n_cells(),
            old(rt).stack@.len() == 0 ==> final(rt).log@ == old(rt).log@ && final(rt).edges@
                == old(rt).edges@,
            old(rt).stack@.len() > 0 ==> final(rt).log@ == old(rt).log@.push(
                log_entry(old(rt).stack@.last(), self.id, old(rt).values@[self.id as int]),
            ) && final(rt).edges@ == add_edge(
                old(rt).edges@,
                log_entry(old(rt).stack@.last(), self.id, old(rt).values@[self.id as int]),
            ) && (forall|x: usize, k: usize|
                final(rt).has_edge(x, k) <==> (old(rt).has_edge(x, k) || (x == self.id && k == old(rt).stack@.last()))),
    {
        read_cell(rt, self.id)
    }

    /// Explicitly subscribes the computation behind `h` to this cell, as if
    /// it had read it: the subscription is added (idempotently) and the read
    /// is logged under `h`. Subscribing a disposed computation is a no-op.
    pub fn track(&self, rt: &mut Runtime, h: EffectHandle)
        requires
            old(rt).wf(),
            self.id < old(rt).n_cells(),
            h.id < old(rt).n_comps(),
        ensures
            final(rt).wf(),
            final(rt).values@ == old(rt).values@,
            final(rt).runs@ == old(rt).runs@,
            final(rt).disposed@ == old(rt).disposed@,
            final(rt).pending@ == old(rt).pending@,
            final(rt).stack@ == old(rt).stack@,
            final(rt).draining == old(rt).draining,
            final(rt).bodies@ == old(rt).bodies@,
            final(rt).marks@ == old(rt).marks@,
            final(rt).links@ == old(rt).links@,
            final(rt).n_comps() == old(rt).n_comps(),
            final(rt).n_cells() == old(rt).n_cells(),
            old(rt).disposed@[h.id as int] ==> final(rt).log@ == old(rt).log@ && final(rt).edges@
                == old(rt).edges@,
            !old(rt).disposed@[h.id as int] ==> final(rt).log@ == old(rt).log@.push(
                log_entry(h.id, self.id, old(rt).values@[self.id as int]),
            ) && final(rt).edges@ == add_edge(
                old(rt).edges@,
                log_entry(h.id, self.id, old(rt).values@[self.id as int]),
            ) && (forall|x: usize, k: usize|
                final(rt).has_edge(x, k) <==> (old(rt).has_edge(x, k) || (x == self.id && k
                    == h.id))),
    {
        if !rt.disposed[h.id] {
            subscribe(rt, self.id, h.id);
        }
    }

    /// Writes a new value into the cell and propagates: every subscriber is
    /// made pending and the round is drained before this returns, so all
    /// transitively affected computations have re-run (each at most once per
    /// time it was made pending) by the time the caller continues.
    pub fn set(&self, rt: &mut Runtime, v: u64) -> (r: Result<(), RuntimeError>)
        requires
            old(rt).wf(),
            old(rt).idle(),
            self.id < old(rt).n_cells(),
        ensures
            final(rt).wf(),
            final(rt).idle(),
            final(rt).n_cells() == old(rt).n_cells(),
            final(rt).n_comps() >= old(rt).n_comps(),
            // bodies are immutable: a round never changes what re-runs do,
            forall|k: int|
                0 <= k < old(rt).n_comps() ==> #[trigger] final(rt).bodies@[k] == old(
                    rt,
                ).bodies@[k],
            // the log is append-only: a round only adds read records,
            old(rt).log@.len() <= final(rt).log@.len(),
            forall|i: int|
                0 <= i < old(rt).log@.len() ==> #[trigger] final(rt).log@[i] == old(rt).log@[i],
            // a computation that did not re-run (and was not disposed)
            // keeps its subscriptions exactly,
            forall|x: usize, k: usize|
                #![trigger final(rt).has_edge(x, k)]
                #![trigger old(rt).has_edge(x, k)]
                k < old(rt).n_comps() && !final(rt).disposed@[k as int] && final(rt).runs@[
                    k as int
                ] == old(rt).runs@[k as int]
                    ==> (final(rt).has_edge(x, k) <==> old(rt).has_edge(x, k)),
            // each computation re-runs at most once per time it was made
            // pending (the pending set deduplicates),
            forall|k: usize|
                k < old(rt).n_comps() ==> #[trigger] final(rt).runs@[k as int] <= old(rt).runs@[
                    k as int
                ] + (final(rt).queued@[k as int] - old(rt).queued@[k as int]),
            // a subscriber that re-ran has had its previous run's children
            // disposed with it: no stale nested effect survives,
            forall|p: usize, k: usize|
                #![trigger old(rt).has_link(p, k)]
                p < old(rt).n_comps() && old(rt).has_link(p, k) && final(rt).runs@[p as int]
                    > old(rt).runs@[p as int] ==> final(rt).disposed@[k as int],
            // a live computation that nobody owns (a top-level effect) stays
            // live: a round only ever disposes superseded children,
            forall|k: int|
                #![trigger final(rt).disposed@[k]]
                0 <= k < old(rt).n_comps() && !old(rt).disposed@[k] && !old(rt).has_parent(
                    k as usize,
                ) ==> !final(rt).disposed@[k],
            // a disposed computation is never re-run by a write,
            forall|k: int|
                0 <= k < old(rt).n_comps() && old(rt).disposed@[k] ==> #[trigger] final(rt).disposed@[k],
            forall|k: int|
                0 <= k < old(rt).n_comps() && old(rt).disposed@[k] ==> #[trigger] final(rt).runs@[k] == old(rt).runs@[k],
            // run counts never go down,
            forall|k: int|
                0 <= k < old(rt).n_comps() ==> #[trigger] final(rt).runs@[k] >= old(rt).runs@[k],
            // unless the round overflowed, every live subscriber of this
            // cell has re-run,
            r != Result::<(), RuntimeError>::Err(RuntimeError::ReentrancyOverflow) ==> (forall|
                k: usize,
            |
                old(rt).has_edge(self.id, k) && !final(rt).disposed@[k as int]
                    ==> final(rt).runs@[k as int] > old(rt).runs@[k as int]),
            // a cell without subscribers is written in place, and nothing
            // else moves,
            (forall|k: usize| !old(rt).has_edge(self.id, k)) ==> (r is Ok && final(rt).values@
                == old(rt).values@.update(self.id as int, v) && final(rt).runs@ == old(rt).runs@
                && final(rt).log@ == old(rt).log@ && final(rt).edges@ == old(rt).edges@),
            // and when no body writes or fails, one round settles everything:
            // the write lands, the round succeeds, and every live computation
            // re-runs exactly once if it subscribed to this cell, else not at
            // all.
            // a live subscriber whose body fails on every path forces a
            // failure result: a successful round means none was run,
            r is Ok ==> (forall|k: usize|
                old(rt).has_edge(self.id, k) && !final(rt).disposed@[k as int] ==> !op_must_fail(
                    old(rt).bodies@[k as int],
                )),
            old(rt).calm() ==> final(rt).calm(),
            old(rt).calm() ==> final(rt).values@ == old(rt).values@.update(self.id as int, v),
            // when no subscriber of this cell writes, the round cannot
            // overflow, and each live computation re-runs exactly once if it
            // subscribed (whether or not some of them fail), else not at all;
            // an error is then a computation failure, never an overflow,
            (forall|k: usize|
                old(rt).has_edge(self.id, k) ==> op_quiet(old(rt).bodies@[k as int])) ==> (
            old(rt).edges@.len() <= ROUND_CAP ==> r != Result::<(), RuntimeError>::Err(
                RuntimeError::ReentrancyOverflow,
            )),
            ((forall|k: usize|
                old(rt).has_edge(self.id, k) ==> op_quiet(old(rt).bodies@[k as int])) && r
                != Result::<(), RuntimeError>::Err(RuntimeError::ReentrancyOverflow))
                ==> (final(rt).values@ == old(rt).values@.update(self.id as int, v) && (forall|
                k: usize,
            |
                k < old(rt).n_comps() && !final(rt).disposed@[k as int]
                    ==> #[trigger] final(rt).runs@[k as int] == old(rt).runs@[k as int] + (if old(
                    rt,
                ).has_edge(self.id, k) {
                    1int
                } else {
                    0int
                }))),
            // when every subscriber of this cell has a read-only body and no
            // nested effects exist, the round is a single FIFO pass over the
            // subscribers in subscription order, and its exact log record —
            // each subscriber once, reading the written value — is pinned:
            (old(rt).links@.len() == 0 && old(rt).edges@.len() <= ROUND_CAP && (forall|k: usize|
                old(rt).has_edge(self.id, k) ==> op_flat(old(rt).bodies@[k as int]))) ==> (
            r is Ok && final(rt).log@ == old(rt).log@ + round_reads(
                old(rt).bodies@,
                old(rt).values@.update(self.id as int, v),
                subs_in_order(old(rt).edges@, self.id),
            ) && final(rt).values@ == old(rt).values@.update(self.id as int, v)
                && final(rt).disposed@ == old(rt).disposed@),
            (old(rt).calm() && old(rt).edges@.len() <= ROUND_CAP) ==> r is Ok,
            (old(rt).calm() && r is Ok) ==> (forall|k: usize|
                k < old(rt).n_comps() && !final(rt).disposed@[k as int]
                    ==> #[trigger] final(rt).runs@[k as int] == old(rt).runs@[k as int] + (if old(rt).has_edge(self.id, k) {
                    1int
                } else {
                    0int
                })),
    {
        write_cell(rt, self.id, v);
        let ghost written = *rt;
        proof {
            assert(rt.pending@.len() <= old(rt).edges@.len());
            if old(rt).calm() {
                lemma_calm_frame(*old(rt), *rt);
            }
            if forall|k: usize| !old(rt).has_edge(self.id, k) {
                assert(rt.pending@.len() == 0) by {
                    if rt.pending@.len() > 0 {
                        assert(rt.pending@.contains(rt.pending@[0]));
                    }
                }
            }
        }
        rt.draining = true;
        proof {
            lemma_wf_frame(written, *rt);
            if old(rt).calm() {
                lemma_calm_frame(written, *rt);
            }
            if forall|k: usize|
                old(rt).has_edge(self.id, k) ==> op_quiet(old(rt).bodies@[k as int]) {
                assert forall|j: int|
                    0 <= j < rt.pending@.len() implies op_quiet(
                    #[trigger] rt.bodies@[rt.pending@[j] as int],
                ) by {
                    let k = rt.pending@[j];
                    assert(rt.pending@.contains(k));
                    assert(old(rt).has_edge(self.id, k));
                }
                assert(rt.quiet_queue());
                assert(rt.pending@.len() <= ROUND_CAP || old(rt).edges@.len() > ROUND_CAP);
            }
            if old(rt).links@.len() == 0 && old(rt).edges@.len() <= ROUND_CAP && (forall|k: usize|
                old(rt).has_edge(self.id, k) ==> op_flat(old(rt).bodies@[k as int])) {
                assert(rt.pending@ == subs_in_order(old(rt).edges@, self.id));
                assert forall|j: int|
                    0 <= j < rt.pending@.len() implies op_flat(
                    #[trigger] rt.bodies@[rt.pending@[j] as int],
                ) && !rt.disposed@[rt.pending@[j] as int] by {
                    let k = rt.pending@[j];
                    assert(rt.pending@.contains(k));
                    assert(old(rt).has_edge(self.id, k));
                    assert(op_flat(old(rt).bodies@[k as int]));
                    let i = choose|i: int|
                        0 <= i < old(rt).edges@.len() && old(rt).edges@[i] == (Edge {
                            cell: self.id,
                            comp: k,
                        });
                    assert(!old(rt).disposed@[old(rt).edges@[i].comp as int]);
                }
                assert(rt.flat_queue());
                assert(rt.pending@.len() <= ROUND_CAP);
            }
        }
        let ghost entry = *rt;
        let r = drain(rt);
        let ghost drained = *rt;
        rt.draining = false;
        proof {
            lemma_wf_frame(drained, *rt);
            if old(rt).calm() {
                lemma_calm_frame(drained, *rt);
            }
            assert forall|k: usize|
                r != Result::<(), RuntimeError>::Err(RuntimeError::ReentrancyOverflow)
                && old(rt).has_edge(self.id, k) && !rt.disposed@[k as int]
                implies rt.runs@[k as int] > old(rt).runs@[k as int] by {
                assert(entry.pending@.contains(k));
            }
            assert forall|x: usize, k: usize|
                #![trigger rt.has_edge(x, k)]
                #![trigger old(rt).has_edge(x, k)]
                k < old(rt).n_comps() && !rt.disposed@[k as int] && rt.runs@[k as int] == old(
                    rt,
                ).runs@[k as int] implies (rt.has_edge(x, k) <==> old(rt).has_edge(x, k)) by {
                lemma_same_edges(*old(rt), written, x, k);
                lemma_same_edges(written, entry, x, k);
                assert(!drained.disposed@[k as int]);
                assert(drained.runs@[k as int] == entry.runs@[k as int]);
                assert(drained.has_edge(x, k) == entry.has_edge(x, k));
                lemma_same_edges(drained, *rt, x, k);
            }
            if (forall|k: usize|
                old(rt).has_edge(self.id, k) ==> op_quiet(old(rt).bodies@[k as int])) && r
                != Result::<(), RuntimeError>::Err(RuntimeError::ReentrancyOverflow) {
                assert(entry.quiet_queue());
                assert forall|k: usize|
                    k < old(rt).n_comps() && !rt.disposed@[k as int]
                        implies #[trigger] rt.runs@[k as int] == old(rt).runs@[k as int] + (if old(
                        rt,
                    ).has_edge(self.id, k) {
                        1int
                    } else {
                        0int
                    }) by {
                    assert(!drained.disposed@[k as int]);
                    assert(entry.pending@.contains(k) == old(rt).has_edge(self.id, k));
                }
                assert(rt.values@ == old(rt).values@.update(self.id as int, v));
            }
            lemma_links_id(*old(rt), written);
            lemma_links_id(written, entry);
            lemma_links_id(drained, *rt);
            assert forall|k: usize|
                k < old(rt).n_comps() implies #[trigger] rt.runs@[k as int] <= old(rt).runs@[
                    k as int
                ] + (rt.queued@[k as int] - old(rt).queued@[k as int]) by {
                assert(old(rt).pend01(k) == 0);
                assert(entry.pend01(k) - old(rt).pend01(k) <= entry.queued@[k as int] - old(
                    rt,
                ).queued@[k as int]);
                assert(drained.runs@[k as int] <= entry.runs@[k as int] + entry.pend01(k) + (
                drained.queued@[k as int] - entry.queued@[k as int]));
                assert(entry.runs@ == old(rt).runs@);
                assert(rt.runs@ == drained.runs@ && rt.queued@ == drained.queued@);
            }
            assert forall|p: usize, k: usize|
                #![trigger old(rt).has_link(p, k)]
                p < old(rt).n_comps() && old(rt).has_link(p, k) && rt.runs@[p as int] > old(
                    rt,
                ).runs@[p as int] implies rt.disposed@[k as int] by {
                assert(entry.has_link(p, k));
                assert(entry.runs@ == old(rt).runs@ && rt.runs@ == drained.runs@);
                assert(drained.disposed@[k as int]);
            }
            assert forall|k: int|
                #![trigger rt.disposed@[k]]
                0 <= k < old(rt).n_comps() && !old(rt).disposed@[k] && !old(rt).has_parent(
                    k as usize,
                ) implies !rt.disposed@[k] by {
                if rt.disposed@[k] {
                    assert(drained.disposed@[k] && !entry.disposed@[k]);
                    assert(entry.has_parent(k as usize));
                    assert(old(rt).has_parent(k as usize));
                }
            }
            if old(rt).links@.len() == 0 && old(rt).edges@.len() <= ROUND_CAP && (forall|k: usize|
                old(rt).has_edge(self.id, k) ==> op_flat(old(rt).bodies@[k as int])) {
                assert(entry.links@.len() == 0 && entry.flat_queue() && entry.pending@.len()
                    <= ROUND_CAP);
                assert(drained.log@ == entry.log@ + round_reads(
                    entry.bodies@,
                    entry.values@,
                    entry.pending@,
                ));
                assert(entry.bodies@ == old(rt).bodies@ && entry.log@ == old(rt).log@
                    && entry.values@ == old(rt).values@.update(self.id as int, v));
                assert(entry.pending@ == subs_in_order(old(rt).edges@, self.id));
                assert(rt.log@ == old(rt).log@ + round_reads(
                    old(rt).bodies@,
                    old(rt).values@.update(self.id as int, v),
                    subs_in_order(old(rt).edges@, self.id),
                ));
                assert(rt.values@ == old(rt).values@.update(self.id as int, v) && rt.disposed@
                    == old(rt).disposed@);
            }
        }
        r
    }
}

/// Getters for observing the runtime from outside: values, the read log, and
/// per-computation state. None of them changes anything.
impl Runtime {
    /// Number of cells created so far.
    pub fn cell_count(&self) -> (n: usize)
        ensures
            n == self.n_cells(),
    {
        self.values.len()
    }

    /// Number of computations created so far.
    pub fn comp_count(&self) -> (n: usize)
        ensures
            n == self.n_comps(),
    {
        self.bodies.len()
    }

    /// Length of the read log.
    pub fn log_len(&self) -> (n: usize)
        ensures
            n == self.log@.len(),
    {
        self.log.len()
    }

    /// One entry of the read log.
    pub fn log_get(&self, i: usize) -> (e: LogEntry)
        requires
            i < self.log@.len(),
        ensures
            e == self.log@[i as int],
    {
        self.log[i]
    }

    /// Number of subscription edges currently registered. A write is
    /// guaranteed to succeed when no body writes or fails and this does not
    /// exceed [`ROUND_CAP`].
    pub fn edge_count(&self) -> (n: usize)
        ensures
            n == self.edges@.len(),
    {
        self.edges.len()
    }

    /// Whether the computation behind `h` has been disposed.
    pub fn is_disposed(&self, h: EffectHandle) -> (b: bool)
        requires
            self.wf(),
            h.id < self.n_comps(),
        ensures
            b == self.disposed@[h.id as int],
    {
        self.disposed[h.id]
    }

    /// Whether the computation behind `h` currently subscribes to cell `s`.
    pub fn is_subscribed(&self, s: Signal, h: EffectHandle) -> (b: bool)
        ensures
            b == self.has_edge(s.id, h.id),
    {
        let r = edge_present(&self.edges, s.id, h.id);
        proof {
            if self.edges@.contains((Edge { cell: s.id, comp: h.id })) {
                let i = choose|i: int|
                    0 <= i < self.edges@.len() && self.edges@[i] == (Edge {
                        cell: s.id,
                        comp: h.id,
                    });
                assert(self.has_edge(s.id, h.id));
            }
            if self.has_edge(s.id, h.id) {
                let i = choose|i: int|
                    0 <= i < self.edges@.len() && self.edges@[i] == (Edge {
                        cell: s.id,
                        comp: h.id,
                    });
                assert(self.edges@.contains((Edge { cell: s.id, comp: h.id })));
            }
        }
        r
    }
}

/// Creates a computation with the given body and runs it immediately under
/// tracking; anything it writes is propagated before this returns. The body
/// of the new effect (and of any nested effect it creates) re-runs whenever
/// a cell it read during its latest run is written.
///
/// Returns the handle of the new effect and the outcome of its first round:
/// an error if the body (or a computation it triggered) failed, or if the
/// round did not converge.
pub fn with_reactive_context(rt: &mut Runtime, body: Op) -> (r: (
    EffectHandle,
    Result<(), RuntimeError>,
))
    requires
        old(rt).wf(),
        old(rt).idle(),
        op_valid(body, old(rt).n_cells()),
    ensures
        final(rt).wf(),
        final(rt).idle(),
        final(rt).n_cells() == old(rt).n_cells(),
        final(rt).n_comps() > old(rt).n_comps(),
        old(rt).log@.len() <= final(rt).log@.len(),
        forall|i: int|
            0 <= i < old(rt).log@.len() ==> #[trigger] final(rt).log@[i] == old(rt).log@[i],
        forall|k: int|
            0 <= k < old(rt).n_comps() ==> #[trigger] final(rt).bodies@[k] == old(rt).bodies@[k],
        r.0.id == old(rt).n_comps(),
        final(rt).bodies@[r.0.id as int] == body,
        final(rt).runs@[r.0.id as int] >= 1,
        // pre-existing computations re-run at most once per time the round
        // made them pending,
        forall|k: usize|
            k < old(rt).n_comps() ==> #[trigger] final(rt).runs@[k as int] <= old(rt).runs@[
                k as int
            ] + (final(rt).queued@[k as int] - old(rt).queued@[k as int]),
        // the new effect is a top-level computation: nothing owns it, and it
        // is live when this returns, whatever its body did,
        !final(rt).disposed@[r.0.id as int],
        forall|k: int|
            #![trigger final(rt).disposed@[k]]
            0 <= k < old(rt).n_comps() && !old(rt).disposed@[k] && !old(rt).has_parent(k as usize)
                ==> !final(rt).disposed@[k],
        forall|k: int|
            0 <= k < old(rt).n_comps() && old(rt).disposed@[k] ==> #[trigger] final(rt).disposed@[k],
        forall|k: int|
            0 <= k < old(rt).n_comps() && old(rt).disposed@[k] ==> #[trigger] final(rt).runs@[k]
                == old(rt).runs@[k],
        forall|k: int|
            0 <= k < old(rt).n_comps() ==> #[trigger] final(rt).runs@[k] >= old(rt).runs@[k],
        op_calm(body) ==> (r.1 is Ok && final(rt).values@ == old(rt).values@ && final(rt).runs@[
            r.0.id as int
        ] == 1 && final(rt).marks@[r.0.id as int] == old(rt).log@.len() as int && !final(rt).disposed@[r.0.id as int] && (forall|k: int|
            0 <= k < old(rt).n_comps() ==> #[trigger] final(rt).runs@[k] == old(rt).runs@[k])),
        op_flat(body) ==> final(rt).log@ == old(rt).log@ + reads_of(
            body,
            old(rt).values@,
            r.0.id as usize,
        ),
        (op_flat(body) && old(rt).links@.len() == 0) ==> (final(rt).links@.len() == 0
            && final(rt).edges@ == edges_after(
            old(rt).edges@,
            reads_of(body, old(rt).values@, r.0.id as usize),
        ) && final(rt).disposed@ == old(rt).disposed@.push(false)),
        op_must_fail(body) ==> r.1 == Result::<(), RuntimeError>::Err(
            RuntimeError::ComputationFailure,
        ),
        op_quiet(body) ==> r.1 != Result::<(), RuntimeError>::Err(
            RuntimeError::ReentrancyOverflow,
        ),
        (old(rt).calm() && op_calm(body)) ==> final(rt).calm(),
{
    let c = new_comp(rt, body, 0, false);
    let ghost created = *rt;
    rt.draining = true;
    proof {
        lemma_wf_frame(created, *rt);
        if old(rt).calm() && op_calm(body) {
            assert forall|k: int|
                0 <= k < rt.n_comps() implies op_calm(#[trigger] rt.bodies@[k]) by {
                if k < old(rt).n_comps() {
                    assert(rt.bodies@[k] == old(rt).bodies@[k]);
                } else {
                    assert(rt.bodies@[k] == body);
                }
            }
        }
    }
    let ok = run_comp(rt, c);
    let ghost ran = *rt;
    let r2 = drain(rt);
    let ghost drained = *rt;
    rt.draining = false;
    proof {
        lemma_wf_frame(drained, *rt);
        if old(rt).calm() && op_calm(body) {
            lemma_calm_frame(drained, *rt);
        }
        if op_flat(body) {
            lemma_flat_is_calm(body);
            assert(ran.log@ == old(rt).log@ + reads_of(body, old(rt).values@, c));
            assert(drained == ran);
            assert(rt.log@ == old(rt).log@ + reads_of(body, old(rt).values@, c));
            if old(rt).links@.len() == 0 {
                assert(created.links@.len() == 0);
                assert forall|x: usize| !created.has_edge(x, c) by {
                    if created.has_edge(x, c) {
                        let i = choose|i: int|
                            0 <= i < created.edges@.len() && created.edges@[i] == (Edge {
                                cell: x,
                                comp: c,
                            });
                        assert(old(rt).edges@[i].comp < old(rt).n_comps());
                    }
                }
                assert(ran.edges@ == edges_after(
                    created.edges@,
                    reads_of(created.bodies@[c as int], created.values@, c),
                ));
                assert(rt.edges@ == edges_after(
                    old(rt).edges@,
                    reads_of(body, old(rt).values@, c),
                ));
                assert(rt.links@.len() == 0 && rt.disposed@ == old(rt).disposed@.push(false));
            }
        }
    }
    proof {
        lemma_links_id(*old(rt), created);
        lemma_links_id(drained, *rt);
        assert forall|k: usize|
            k < old(rt).n_comps() implies #[trigger] rt.runs@[k as int] <= old(rt).runs@[
                k as int
            ] + (rt.queued@[k as int] - old(rt).queued@[k as int]) by {
            assert(created.pend01(k) == 0 && created.queued@[k as int] == old(rt).queued@[
                k as int
            ] && created.runs@[k as int] == old(rt).runs@[k as int]);
            assert(ran.pend01(k) - created.pend01(k) <= ran.queued@[k as int] - created.queued@[
                k as int
            ]);
            assert(ran.runs@[k as int] == created.runs@[k as int]);
            assert(drained.runs@[k as int] <= ran.runs@[k as int] + ran.pend01(k) + (
            drained.queued@[k as int] - ran.queued@[k as int]));
            assert(rt.runs@ == drained.runs@ && rt.queued@ == drained.queued@);
        }
        assert(!rt.disposed@[c as int]) by {
            if rt.disposed@[c as int] {
                assert(drained.disposed@[c as int] && !ran.disposed@[c as int]);
                assert(ran.has_parent(c));
                assert(created.has_parent(c) || c >= created.n_comps());
                assert(created.has_parent(c));
                assert(old(rt).has_parent(c));
                let i = choose|i: int|
                    0 <= i < old(rt).links@.len() && (#[trigger] old(rt).links@[i]).child == c;
                assert(old(rt).links@[i].child < old(rt).n_comps());
            }
        }
        assert forall|k: int|
            #![trigger rt.disposed@[k]]
            0 <= k < old(rt).n_comps() && !old(rt).disposed@[k] && !old(rt).has_parent(k as usize)
            implies !rt.disposed@[k] by {
            if rt.disposed@[k] {
                assert(drained.disposed@[k]);
                if !ran.disposed@[k] {
                    assert(k < ran.n_comps());
                    assert(ran.has_parent(k as usize));
                    assert(created.has_parent(k as usize) || k >= created.n_comps());
                    assert(created.has_parent(k as usize));
                    assert(old(rt).has_parent(k as usize));
                } else {
                    assert(!created.disposed@[k]);
                    assert(created.has_parent(k as usize));
                    assert(old(rt).has_parent(k as usize));
                }
            }
        }
    }
    let res: Result<(), RuntimeError> = match r2 {
        Err(e) => Err(e),
        Ok(()) => if ok {
            Ok(())
        } else {
            Err(RuntimeError::ComputationFailure)
        },
    };
    (EffectHandle { id: c }, res)
}

} // verus!
