use vstd::prelude::*;
use crate::task_graph::TaskGraph;

verus! {

/// The execution status of one node during a run.
#[derive(Clone, Copy, Debug, PartialEq, Eq, Structural)]
pub enum Status {
    Pending,
    Running,
    CacheHit,
    Success,
    Failed,
    Skipped,
}

/// How a failure propagates through the rest of the run.
#[derive(Clone, Copy, Debug, PartialEq, Eq, Structural)]
pub enum FailurePolicy {
    /// Any failure stops every node that has not started.
    FailFast,
    /// A failure stops only the nodes that depend on the failed one.
    BailSubtree,
}

/// How a running node ended.
#[derive(Clone, Copy, Debug, PartialEq, Eq, Structural)]
pub enum Outcome {
    CacheHit,
    Success,
    Failed,
}

pub open spec fn succeeded(s: Status) -> bool {
    s == Status::CacheHit || s == Status::Success
}

pub open spec fn started(s: Status) -> bool {
    s == Status::Running || s == Status::CacheHit || s == Status::Success || s == Status::Failed
}

pub open spec fn terminal(s: Status) -> bool {
    s != Status::Pending && s != Status::Running
}

pub open spec fn blocked(s: Status) -> bool {
    s == Status::Failed || s == Status::Skipped
}

/// The process exit code of a run in which every task succeeded or hit
/// the cache.
pub const EXIT_SUCCESS: i32 = 0;

/// The process exit code of a run in which a task failed or was skipped.
pub const EXIT_TASKS_FAILED: i32 = 1;

/// The process exit code of a run whose task graph could not be built.
pub const EXIT_GRAPH_ERROR: i32 = 2;

/// The process exit code of a run stopped by an internal fault. Daemon
/// errors never lead here: the run goes on without the daemon.
pub const EXIT_INTERNAL_ERROR: i32 = 3;

/// The number of running nodes.
pub open spec fn running_count(s: Seq<Status>) -> nat
    decreases s.len(),
{
    if s.len() == 0 {
        0
    } else {
        running_count(s.drop_last()) + if s.last() == Status::Running { 1nat } else { 0nat }
    }
}

/// The per-node status of one run over a task graph.
pub struct RunState {
    pub status: Vec<Status>,
}

impl RunState {
    /// The statuses fit the graph, and a node has started only after each of
    /// its predecessors succeeded.
    pub open spec fn inv(&self, g: &TaskGraph) -> bool {
        &&& g.wf()
        &&& self.status@.len() == g.nodes@.len()
        &&& forall|u: int, v: int|
            #![trigger g.has_edge(u, v), self.status@[v]]
            g.has_edge(u, v) && started(self.status@[v]) ==> succeeded(self.status@[u])
    }

    /// `v` may start: it is pending and all its predecessors succeeded.
    pub open spec fn eligible(&self, g: &TaskGraph, v: int) -> bool {
        &&& 0 <= v < self.status@.len()
        &&& self.status@[v] == Status::Pending
        &&& forall|u: int| #[trigger] g.has_edge(u, v) ==> succeeded(self.status@[u])
    }

    /// A run in which no node has started.
    pub fn new(g: &TaskGraph) -> (r: RunState)
        requires
            g.wf(),
        ensures
            r.inv(g),
            forall|v: int| 0 <= v < r.status@.len() ==> r.status@[v] == Status::Pending,
    {
        let mut status: Vec<Status> = Vec::new();
        let mut i: usize = 0;
        while i < g.nodes.len()
            invariant
                i <= g.nodes@.len(),
                status@.len() == i,
                forall|v: int| 0 <= v < i ==> status@[v] == Status::Pending,
            decreases g.nodes@.len() - i,
        {
            status.push(Status::Pending);
            i = i + 1;
        }
        RunState { status }
    }

    /// Whether `v` may start now.
    pub fn is_eligible(&self, g: &TaskGraph, v: usize) -> (r: bool)
        requires
            self.inv(g),
        ensures
            r == self.eligible(g, v as int),
    {
        if v >= self.status.len() || self.status[v] != Status::Pending {
            return false;
        }
        let ps = &g.preds[v];
        let mut j: usize = 0;
        while j < ps.len()
            invariant
                self.inv(g),
                v < self.status@.len(),
                ps == g.preds@[v as int],
                j <= ps@.len(),
                forall|k: int| 0 <= k < j ==> succeeded(self.status@[ps@[k] as int]),
            decreases ps@.len() - j,
        {
            let u = ps[j];
            if !(self.status[u] == Status::CacheHit || self.status[u] == Status::Success) {
                assert(g.has_edge(u as int, v as int));
                return false;
            }
            j = j + 1;
        }
        true
    }

    /// The number of running nodes.
    pub fn count_running(&self) -> (r: usize)
        ensures
            r == running_count(self.status@),
    {
        let mut n: usize = 0;
        let mut i: usize = 0;
        while i < self.status.len()
            invariant
                i <= self.status@.len(),
                n == running_count(self.status@.subrange(0, i as int)),
                n <= i,
            decreases self.status@.len() - i,
        {
            assert(self.status@.subrange(0, i + 1).drop_last() =~= self.status@.subrange(0, i as int));
            if self.status[i] == Status::Running {
                n = n + 1;
            }
            i = i + 1;
        }
        assert(self.status@.subrange(0, i as int) =~= self.status@);
        n
    }

    /// Whether the run is done: every node that is not persistent has
    /// reached a terminal status. Persistent nodes may still be running.
    pub fn run_complete(&self, g: &TaskGraph) -> (r: bool)
        requires
            self.inv(g),
        ensures
            r == forall|v: int| 0 <= v < self.status@.len() && !g.persistent@[v]
                ==> terminal(#[trigger] self.status@[v]),
    {
        let mut v: usize = 0;
        while v < self.status.len()
            invariant
                self.inv(g),
                v <= self.status@.len(),
                forall|w: int| 0 <= w < v && !g.persistent@[w] ==> terminal(#[trigger] self.status@[w]),
            decreases self.status@.len() - v,
        {
            if !g.persistent[v] && (self.status[v] == Status::Pending || self.status[v] == Status::Running) {
                return false;
            }
            v = v + 1;
        }
        true
    }

    /// The run's exit code: success only when no node failed or was
    /// skipped.
    pub fn exit_code(&self) -> (r: i32)
        ensures
            r == EXIT_SUCCESS <==> forall|v: int| 0 <= v < self.status@.len() ==> !blocked(#[trigger] self.status@[v]),
            r == EXIT_SUCCESS || r == EXIT_TASKS_FAILED,
    {
        let mut v: usize = 0;
        while v < self.status.len()
            invariant
                v <= self.status@.len(),
                forall|w: int| 0 <= w < v ==> !blocked(#[trigger] self.status@[w]),
            decreases self.status@.len() - v,
        {
            if self.status[v] == Status::Failed || self.status[v] == Status::Skipped {
                return EXIT_TASKS_FAILED;
            }
            v = v + 1;
        }
        EXIT_SUCCESS
    }

    /// The next node to dispatch: the eligible node of lowest index, if fewer
    /// than `limit` nodes are running. Ties between eligible nodes thus go by
    /// their position in the graph's order.
    pub fn next_ready(&self, g: &TaskGraph, limit: usize) -> (r: Option<usize>)
        requires
            self.inv(g),
        ensures
            match r {
                Some(v) => running_count(self.status@) < limit && self.eligible(g, v as int)
                    && forall|w: int| 0 <= w < v ==> !self.eligible(g, w),
                None => running_count(self.status@) >= limit || forall|w: int|
                    0 <= w < self.status@.len() ==> !self.eligible(g, w),
            },
    {
        if self.count_running() >= limit {
            return None;
        }
        let mut v: usize = 0;
        while v < self.status.len()
            invariant
                self.inv(g),
                running_count(self.status@) < limit,
                v <= self.status@.len(),
                forall|w: int| 0 <= w < v ==> !self.eligible(g, w),
            decreases self.status@.len() - v,
        {
            if self.is_eligible(g, v) {
                return Some(v);
            }
            v = v + 1;
        }
        None
    }

    /// Starts `v` if it is eligible; reports whether it did.
    pub fn start(&mut self, g: &TaskGraph, v: usize) -> (r: bool)
        requires
            old(self).inv(g),
        ensures
            final(self).inv(g),
            r == old(self).eligible(g, v as int),
            r ==> final(self).status@ == old(self).status@.update(v as int, Status::Running),
            !r ==> final(self).status@ == old(self).status@,
    {
        if !self.is_eligible(g, v) {
            return false;
        }
        self.status.set(v, Status::Running);
        true
    }

    /// Records how the running node `v` ended; does nothing if `v` is not
    /// running.
    pub fn finish(&mut self, g: &TaskGraph, v: usize, outcome: Outcome)
        requires
            old(self).inv(g),
        ensures
            final(self).inv(g),
            v < old(self).status@.len() && old(self).status@[v as int] == Status::Running
                ==> final(self).status@ == old(self).status@.update(
                v as int,
                match outcome {
                    Outcome::CacheHit => Status::CacheHit,
                    Outcome::Success => Status::Success,
                    Outcome::Failed => Status::Failed,
                },
            ),
            !(v < old(self).status@.len() && old(self).status@[v as int] == Status::Running)
                ==> final(self).status@ == old(self).status@,
    {
        if v >= self.status.len() || self.status[v] != Status::Running {
            return;
        }
        let s = match outcome {
            Outcome::CacheHit => Status::CacheHit,
            Outcome::Success => Status::Success,
            Outcome::Failed => Status::Failed,
        };
        let ghost before = self.status@;
        self.status.set(v, s);
        assert forall|u: int, w: int|
            #![trigger g.has_edge(u, w), self.status@[w]]
            g.has_edge(u, w) && started(self.status@[w]) implies succeeded(self.status@[u]) by {
            assert(started(before[w]));
            if u == v {
                assert(succeeded(before[u]));
            }
        }
    }

    /// Marks as skipped each pending node that has a failed or skipped
    /// predecessor, or, under fail-fast, every pending node once any node
    /// has failed. Nodes are visited in the graph's order, so a skip reaches
    /// every node below a failure in one pass.
    #[verifier::rlimit(50)]
    pub fn skip_blocked(&mut self, g: &TaskGraph, policy: FailurePolicy)
        requires
            old(self).inv(g),
        ensures
            final(self).inv(g),
            forall|v: int| 0 <= v < old(self).status@.len() && old(self).status@[v] != Status::Pending
                ==> final(self).status@[v] == old(self).status@[v],
            forall|v: int| 0 <= v < old(self).status@.len() && old(self).status@[v] == Status::Pending
                ==> final(self).status@[v] == Status::Pending || final(self).status@[v] == Status::Skipped,
            forall|u: int, v: int| g.has_edge(u, v) && blocked(#[trigger] final(self).status@[u])
                && old(self).status@[v] == Status::Pending ==> #[trigger] final(self).status@[v] == Status::Skipped,
            policy == FailurePolicy::FailFast && (exists|k: int| 0 <= k < old(self).status@.len()
                && old(self).status@[k] == Status::Failed) ==> forall|v: int|
                0 <= v < old(self).status@.len() && old(self).status@[v] == Status::Pending
                ==> #[trigger] final(self).status@[v] == Status::Skipped,
            !(policy == FailurePolicy::FailFast && (exists|k: int| 0 <= k < old(self).status@.len()
                && old(self).status@[k] == Status::Failed)) ==> forall|v: int|
                0 <= v < old(self).status@.len() && old(self).status@[v] == Status::Pending
                && #[trigger] final(self).status@[v] == Status::Skipped ==> exists|u: int|
                g.has_edge(u, v) && blocked(final(self).status@[u]),
    {
        let mut any_failed = false;
        let mut i: usize = 0;
        while i < self.status.len()
            invariant
                i <= self.status@.len(),
                any_failed == exists|k: int| 0 <= k < i && self.status@[k] == Status::Failed,
            decreases self.status@.len() - i,
        {
            if self.status[i] == Status::Failed {
                any_failed = true;
            }
            i = i + 1;
        }
        let ghost start = self.status@;
        let ff = any_failed && policy == FailurePolicy::FailFast;
        let mut v: usize = 0;
        while v < self.status.len()
            invariant
                self.inv(g),
                v <= self.status@.len(),
                self.status@.len() == start.len(),
                start == old(self).status@,
                forall|w: int| v <= w < start.len() ==> self.status@[w] == start[w],
                forall|w: int| 0 <= w < start.len() && start[w] != Status::Pending
                    ==> self.status@[w] == start[w],
                forall|w: int| 0 <= w < start.len() && start[w] == Status::Pending
                    ==> self.status@[w] == Status::Pending || self.status@[w] == Status::Skipped,
                forall|u: int, w: int| g.has_edge(u, w) && w < v && blocked(#[trigger] self.status@[u])
                    && start[w] == Status::Pending ==> #[trigger] self.status@[w] == Status::Skipped,
                ff == (any_failed && policy == FailurePolicy::FailFast),
                any_failed == exists|k: int| 0 <= k < start.len() && start[k] == Status::Failed,
                ff ==> forall|w: int| 0 <= w < v && start[w] == Status::Pending
                    ==> #[trigger] self.status@[w] == Status::Skipped,
                !ff ==> forall|w: int| 0 <= w < v && start[w] == Status::Pending
                    && #[trigger] self.status@[w] == Status::Skipped ==> exists|u: int|
                    g.has_edge(u, w) && blocked(self.status@[u]),
            decreases self.status@.len() - v,
        {
            if self.status[v] == Status::Pending {
                let stop = ff || self.has_blocked_pred(g, v);
                if stop {
                    let ghost before = self.status@;
                    self.status.set(v, Status::Skipped);
                    proof { self.lemma_skip_step(g, before, start, v as int, ff); }
                }
            }
            v = v + 1;
        }
    }

    /// Whether a predecessor of `v` failed or was skipped.
    fn has_blocked_pred(&self, g: &TaskGraph, v: usize) -> (r: bool)
        requires
            self.inv(g),
            v < self.status@.len(),
        ensures
            r == exists|u: int| g.has_edge(u, v as int) && blocked(self.status@[u]),
    {
        let ps = &g.preds[v];
        let mut j: usize = 0;
        while j < ps.len()
            invariant
                self.inv(g),
                v < self.status@.len(),
                ps == g.preds@[v as int],
                j <= ps@.len(),
                forall|k: int| 0 <= k < j ==> !blocked(self.status@[#[trigger] ps@[k] as int]),
            decreases ps@.len() - j,
        {
            let u = ps[j];
            if self.status[u] == Status::Failed || self.status[u] == Status::Skipped {
                assert(g.has_edge(u as int, v as int));
                return true;
            }
            j = j + 1;
        }
        assert forall|u: int| g.has_edge(u, v as int) implies !blocked(self.status@[u]) by {
            let k = choose|k: int| 0 <= k < ps@.len() && ps@[k] == u;
            assert(!blocked(self.status@[ps@[k] as int]));
        }
        false
    }

    proof fn lemma_skip_step(&self, g: &TaskGraph, before: Seq<Status>, start: Seq<Status>, v: int, ff: bool)
        requires
            g.wf(),
            before.len() == g.nodes@.len(),
            0 <= v < before.len(),
            self.status@ == before.update(v, Status::Skipped),
            before[v] == Status::Pending,
            start.len() == before.len(),
            start[v] == Status::Pending,
            forall|u: int, w: int|
                #![trigger g.has_edge(u, w), before[w]]
                g.has_edge(u, w) && started(before[w]) ==> succeeded(before[u]),
            forall|w: int| v <= w < start.len() ==> before[w] == start[w],
            forall|w: int| 0 <= w < start.len() && start[w] != Status::Pending
                ==> before[w] == start[w],
            forall|w: int| 0 <= w < start.len() && start[w] == Status::Pending
                ==> before[w] == Status::Pending || before[w] == Status::Skipped,
            forall|u: int, w: int| g.has_edge(u, w) && w < v && blocked(#[trigger] before[u])
                && start[w] == Status::Pending ==> #[trigger] before[w] == Status::Skipped,
            ff ==> forall|w: int| 0 <= w < v && start[w] == Status::Pending
                ==> #[trigger] before[w] == Status::Skipped,
            !ff ==> forall|w: int| 0 <= w < v && start[w] == Status::Pending
                && #[trigger] before[w] == Status::Skipped ==> exists|u: int|
                g.has_edge(u, w) && blocked(before[u]),
            !ff ==> exists|u: int| g.has_edge(u, v) && blocked(before[u]),
        ensures
            self.inv(g),
            forall|w: int| v + 1 <= w < start.len() ==> self.status@[w] == start[w],
            forall|w: int| 0 <= w < start.len() && start[w] != Status::Pending
                ==> self.status@[w] == start[w],
            forall|w: int| 0 <= w < start.len() && start[w] == Status::Pending
                ==> self.status@[w] == Status::Pending || self.status@[w] == Status::Skipped,
            forall|u: int, w: int| g.has_edge(u, w) && w < v + 1 && blocked(#[trigger] self.status@[u])
                && start[w] == Status::Pending ==> #[trigger] self.status@[w] == Status::Skipped,
            ff ==> forall|w: int| 0 <= w < v + 1 && start[w] == Status::Pending
                ==> #[trigger] self.status@[w] == Status::Skipped,
            !ff ==> forall|w: int| 0 <= w < v + 1 && start[w] == Status::Pending
                && #[trigger] self.status@[w] == Status::Skipped ==> exists|u: int|
                g.has_edge(u, w) && blocked(self.status@[u]),
    {
        assert forall|u: int, w: int|
            #![trigger g.has_edge(u, w), self.status@[w]]
            g.has_edge(u, w) && started(self.status@[w]) implies succeeded(self.status@[u]) by {
            assert(started(before[w]));
            if u == v {
                let j = choose|j: int| 0 <= j < g.preds@[w]@.len() && g.preds@[w]@[j] == u;
                assert(g.preds@[w]@[j] < w);
            }
        }
        assert forall|u: int, w: int| g.has_edge(u, w) && w < v + 1 && blocked(#[trigger] self.status@[u])
            && start[w] == Status::Pending implies #[trigger] self.status@[w] == Status::Skipped by {
            if w < v {
                let j = choose|j: int| 0 <= j < g.preds@[w]@.len() && g.preds@[w]@[j] == u;
                assert(g.preds@[w]@[j] < w);
                assert(self.status@[u] == before[u]);
            }
        }
        if !ff {
            assert forall|w: int| 0 <= w < v + 1 && start[w] == Status::Pending
                && #[trigger] self.status@[w] == Status::Skipped implies exists|u: int|
                g.has_edge(u, w) && blocked(self.status@[u]) by {
                let u = if w < v {
                    choose|u: int| g.has_edge(u, w) && blocked(before[u])
                } else {
                    choose|u: int| g.has_edge(u, v) && blocked(before[u])
                };
                let j = choose|j: int| 0 <= j < g.preds@[w]@.len() && g.preds@[w]@[j] == u;
                assert(g.preds@[w]@[j] < w);
                assert(self.status@[u] == before[u]);
            }
        }
    }
}

/// Where `t` depends on `u`: once `t` has started, `u` has succeeded, so
/// `u` is never running after `t` starts and a failed `u` leaves `t`
/// unstarted.
pub proof fn lemma_predecessor_first(st: RunState, g: TaskGraph, u: int, t: int)
    requires
        st.inv(&g),
        g.has_edge(u, t),
    ensures
        started(st.status@[t]) ==> succeeded(st.status@[u]),
        st.status@[u] == Status::Failed ==> !started(st.status@[t]),
        st.status@[u] == Status::Running ==> !started(st.status@[t]),
{
}

} // verus!
