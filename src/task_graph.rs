use vstd::prelude::*;

verus! {

/// One schedulable unit: a task of a package. Packages and task names are
/// identified by number.
#[derive(Clone, Copy, Debug, PartialEq, Eq, Structural)]
pub struct TaskId {
    pub package: usize,
    pub task: u64,
}

/// A task graph whose nodes stand in a topological order: every
/// predecessor of a node comes before it. Each node carries whether it is
/// persistent and whether its results may be cached.
#[derive(Debug)]
pub struct TaskGraph {
    pub nodes: Vec<TaskId>,
    pub persistent: Vec<bool>,
    pub cached: Vec<bool>,
    pub preds: Vec<Vec<usize>>,
}

impl TaskGraph {
    /// The node `v` depends on `u`.
    pub open spec fn has_edge(&self, u: int, v: int) -> bool {
        0 <= v < self.preds@.len() && exists|j: int|
            0 <= j < self.preds@[v]@.len() && self.preds@[v]@[j] == u
    }

    /// Nodes are distinct and every edge points forward, so the graph has no
    /// cycle.
    pub open spec fn wf(&self) -> bool {
        &&& self.nodes@.len() == self.preds@.len()
        &&& self.nodes@.len() == self.persistent@.len()
        &&& self.nodes@.len() == self.cached@.len()
        &&& forall|v: int, j: int|
            0 <= v < self.preds@.len() && 0 <= j < self.preds@[v]@.len()
                ==> #[trigger] self.preds@[v]@[j] < v
        &&& forall|a: int, b: int|
            0 <= a < b < self.nodes@.len() ==> self.nodes@[a] != self.nodes@[b]
    }
}


/// A dependency specifier of a task definition.
#[derive(Clone, Copy, Debug, PartialEq, Eq, Structural)]
pub enum DepSpec {
    /// `^task`: the task in every package this package directly depends on.
    SameTaskInDependencies(u64),
    /// `task`: another task of the same package.
    SameTaskSamePackage(u64),
    /// `pkg#task`: one task of one package.
    ExplicitPackageTask(usize, u64),
}

/// The configuration of one task of one package.
pub struct TaskDefinition {
    pub id: TaskId,
    pub depends_on: Vec<DepSpec>,
    pub persistent: bool,
    /// Whether results of the task may be cached.
    pub cache: bool,
}

/// A workspace: each package's direct dependencies (by package number) and
/// the task definitions.
pub struct Workspace {
    pub package_deps: Vec<Vec<usize>>,
    pub definitions: Vec<TaskDefinition>,
}

impl Workspace {
    /// Each (package, task) pair has at most one definition.
    pub open spec fn wf(&self) -> bool {
        forall|i: int, j: int|
            0 <= i < j < self.definitions@.len() ==> self.definitions@[i].id != self.definitions@[j].id
    }

    pub open spec fn defined(&self, t: TaskId) -> bool {
        exists|i: int| 0 <= i < self.definitions@.len() && self.definitions@[i].id == t
    }

    /// Package `p` directly depends on package `q`.
    pub open spec fn package_depends(&self, p: usize, q: usize) -> bool {
        p < self.package_deps@.len() && self.package_deps@[p as int]@.contains(q)
    }

    /// The specifier `d`, written in a task of package `p`, names task `b`.
    pub open spec fn names(&self, p: usize, d: DepSpec, b: TaskId) -> bool {
        match d {
            DepSpec::SameTaskInDependencies(x) => b.task == x && self.package_depends(p, b.package),
            DepSpec::SameTaskSamePackage(x) => b == (TaskId { package: p, task: x }),
            DepSpec::ExplicitPackageTask(q, x) => b == (TaskId { package: q, task: x }),
        }
    }

    /// Task `a` depends on task `b`: both are defined and a specifier of
    /// `a` names `b`. Specifiers that name an undefined task are no-ops.
    pub open spec fn dep_edge(&self, a: TaskId, b: TaskId) -> bool {
        exists|i: int, k: int|
            0 <= i < self.definitions@.len() && self.definitions@[i].id == a
                && 0 <= k < self.definitions@[i].depends_on@.len()
                && self.names(a.package, self.definitions@[i].depends_on@[k], b)
                && self.defined(b)
    }

    /// The definition of `t` allows caching.
    pub open spec fn is_cached(&self, t: TaskId) -> bool {
        exists|i: int|
            0 <= i < self.definitions@.len() && self.definitions@[i].id == t
                && self.definitions@[i].cache
    }

    /// The definition of `t` is persistent.
    pub open spec fn is_persistent(&self, t: TaskId) -> bool {
        exists|i: int|
            0 <= i < self.definitions@.len() && self.definitions@[i].id == t
                && self.definitions@[i].persistent
    }

    /// Whether each (package, task) pair has at most one definition.
    pub fn definitions_unique(&self) -> (r: bool)
        ensures
            r == self.wf(),
    {
        let n = self.definitions.len();
        let mut i: usize = 0;
        while i < n
            invariant
                n == self.definitions@.len(),
                i <= n,
                forall|a: int, b: int| 0 <= a < i && a < b < n ==> self.definitions@[a].id != self.definitions@[b].id,
            decreases n - i,
        {
            let mut j: usize = i + 1;
            while j < n
                invariant
                    n == self.definitions@.len(),
                    i < n,
                    i + 1 <= j <= n,
                    forall|a: int, b: int| 0 <= a < i && a < b < n ==> self.definitions@[a].id != self.definitions@[b].id,
                    forall|b: int| i < b < j ==> self.definitions@[i as int].id != self.definitions@[b].id,
                decreases n - j,
            {
                if self.definitions[i].id == self.definitions[j].id {
                    return false;
                }
                j = j + 1;
            }
            i = i + 1;
        }
        true
    }

    /// The index of the definition of `t`.
    pub fn find_definition(&self, t: TaskId) -> (r: Option<usize>)
        requires
            self.wf(),
        ensures
            match r {
                Some(i) => i < self.definitions@.len() && self.definitions@[i as int].id == t,
                None => !self.defined(t),
            },
    {
        let mut i: usize = 0;
        while i < self.definitions.len()
            invariant
                i <= self.definitions@.len(),
                forall|k: int| 0 <= k < i ==> self.definitions@[k].id != t,
            decreases self.definitions@.len() - i,
        {
            if self.definitions[i].id == t {
                return Some(i);
            }
            i = i + 1;
        }
        None
    }

    /// The tasks that the defined task `a` depends on, each once.
    pub fn resolve(&self, a: TaskId) -> (r: Vec<TaskId>)
        requires
            self.wf(),
            self.defined(a),
        ensures
            forall|b: TaskId| r@.contains(b) <==> self.dep_edge(a, b),
            r@.no_duplicates(),
    {
        let di = match self.find_definition(a) {
            Some(i) => i,
            None => { return Vec::new(); },
        };
        let specs = &self.definitions[di].depends_on;
        let mut r: Vec<TaskId> = Vec::new();
        let mut k: usize = 0;
        while k < specs.len()
            invariant
                self.wf(),
                di < self.definitions@.len(),
                self.definitions@[di as int].id == a,
                specs == self.definitions@[di as int].depends_on,
                k <= specs@.len(),
                r@.no_duplicates(),
                forall|b: TaskId| r@.contains(b) ==> self.dep_edge(a, b),
                forall|b: TaskId, kk: int| 0 <= kk < k && self.names(a.package, specs@[kk], b)
                    && self.defined(b) ==> r@.contains(b),
            decreases specs@.len() - k,
        {
            let d = specs[k];
            let ghost r0 = r@;
            match d {
                DepSpec::SameTaskInDependencies(x) => {
                    if a.package < self.package_deps.len() {
                        let pd = &self.package_deps[a.package];
                        let mut j: usize = 0;
                        while j < pd.len()
                            invariant
                                self.wf(),
                                di < self.definitions@.len(),
                                self.definitions@[di as int].id == a,
                                specs == self.definitions@[di as int].depends_on,
                                k < specs@.len(),
                                specs@[k as int] == d,
                                d == DepSpec::SameTaskInDependencies(x),
                                a.package < self.package_deps@.len(),
                                pd == self.package_deps@[a.package as int],
                                j <= pd@.len(),
                                r@.no_duplicates(),
                                forall|b: TaskId| r0.contains(b) ==> r@.contains(b),
                                forall|b: TaskId| r@.contains(b) ==> self.dep_edge(a, b),
                                forall|jj: int| 0 <= jj < j && self.defined(TaskId { package: pd@[jj], task: x })
                                    ==> r@.contains(TaskId { package: pd@[jj], task: x }),
                            decreases pd@.len() - j,
                        {
                            let b = TaskId { package: pd[j], task: x };
                            if self.find_definition(b).is_some() {
                                assert(self.names(a.package, specs@[k as int], b));
                                push_new(&mut r, b);
                            }
                            j = j + 1;
                        }
                        assert forall|b: TaskId| self.names(a.package, d, b) && self.defined(b)
                            implies r@.contains(b) by {
                            let jj = choose|jj: int| 0 <= jj < pd@.len() && pd@[jj] == b.package;
                            assert(b == TaskId { package: pd@[jj], task: x });
                        }
                    }
                },
                DepSpec::SameTaskSamePackage(x) => {
                    let b = TaskId { package: a.package, task: x };
                    if self.find_definition(b).is_some() {
                        assert(self.names(a.package, specs@[k as int], b));
                        push_new(&mut r, b);
                    }
                },
                DepSpec::ExplicitPackageTask(q, x) => {
                    let b = TaskId { package: q, task: x };
                    if self.find_definition(b).is_some() {
                        assert(self.names(a.package, specs@[k as int], b));
                        push_new(&mut r, b);
                    }
                },
            }
            k = k + 1;
        }
        r
    }
}

/// Appends `b` to `r` unless it is there already.
fn push_new(r: &mut Vec<TaskId>, b: TaskId)
    requires
        old(r)@.no_duplicates(),
    ensures
        final(r)@.no_duplicates(),
        forall|c: TaskId| final(r)@.contains(c) <==> old(r)@.contains(c) || c == b,
{
    let mut i: usize = 0;
    while i < r.len()
        invariant
            i <= r@.len(),
            r@ == old(r)@,
            r@.no_duplicates(),
            forall|k: int| 0 <= k < i ==> r@[k] != b,
        decreases r@.len() - i,
    {
        if r[i] == b {
            return;
        }
        i = i + 1;
    }
    let ghost r0 = r@;
    r.push(b);
    assert forall|c: TaskId| r@.contains(c) implies r0.contains(c) || c == b by {
        let k = choose|k: int| 0 <= k < r@.len() && r@[k] == c;
        if k < r0.len() {
            assert(r0[k] == c);
        }
    }
    assert forall|c: TaskId| r0.contains(c) implies r@.contains(c) by {
        let k = choose|k: int| 0 <= k < r0.len() && r0[k] == c;
        assert(r@[k] == c);
    }
    assert(r@[r0.len() as int] == b);
}


/// A sequence of distinct integers in `[0, n)` has at most `n` items.
proof fn lemma_distinct_bound(s: Seq<int>, n: int)
    requires
        0 <= n,
        s.no_duplicates(),
        forall|i: int| 0 <= i < s.len() ==> 0 <= #[trigger] s[i] < n,
    ensures
        s.len() <= n,
{
    s.unique_seq_to_set();
    vstd::set_lib::lemma_int_range(0, n);
    assert(s.to_set().subset_of(vstd::set_lib::set_int_range(0, n)));
    vstd::set_lib::lemma_len_subset(s.to_set(), vstd::set_lib::set_int_range(0, n));
}

/// The position of `t` in `v`.
fn index_of(v: &Vec<TaskId>, t: TaskId) -> (r: Option<usize>)
    ensures
        match r {
            Some(i) => i < v@.len() && v@[i as int] == t,
            None => !v@.contains(t),
        },
{
    let mut i: usize = 0;
    while i < v.len()
        invariant
            i <= v@.len(),
            forall|k: int| 0 <= k < i ==> v@[k] != t,
        decreases v@.len() - i,
    {
        if v[i] == t {
            return Some(i);
        }
        i = i + 1;
    }
    None
}

/// The requested tasks that are defined, and every task they transitively
/// depend on, each once, with the positions of each task's dependencies.
fn expand(ws: &Workspace, requested: &Vec<TaskId>) -> (r: (Vec<TaskId>, Vec<Vec<usize>>))
    requires
        ws.wf(),
    ensures
        r.0@.no_duplicates(),
        forall|j: int| 0 <= j < r.0@.len() ==> ws.defined(#[trigger] r.0@[j]),
        forall|t: TaskId| requested@.contains(t) && ws.defined(t) ==> r.0@.contains(t),
        forall|j: int| 0 <= j < r.0@.len() ==> in_closure(ws, requested@, #[trigger] r.0@[j]),
        r.1@.len() == r.0@.len(),
        forall|a: int, jj: int| 0 <= a < r.1@.len() && 0 <= jj < r.1@[a]@.len()
            ==> #[trigger] r.1@[a]@[jj] < r.0@.len(),
        forall|a: int, b: TaskId| 0 <= a < r.0@.len() ==>
            (#[trigger] ws.dep_edge(r.0@[a], b) <==> exists|jj: int|
                0 <= jj < r.1@[a]@.len() && r.0@[r.1@[a]@[jj] as int] == b),
{
    let ghost dn: int = ws.definitions@.len() as int;
    let mut disc: Vec<TaskId> = Vec::new();
    let ghost mut didx: Seq<int> = Seq::empty();
    let mut q: usize = 0;
    while q < requested.len()
        invariant
            ws.wf(),
            dn == ws.definitions@.len(),
            q <= requested@.len(),
            disc@.no_duplicates(),
            didx.len() == disc@.len(),
            forall|j: int| 0 <= j < didx.len() ==> 0 <= #[trigger] didx[j] < dn
                && ws.definitions@[didx[j]].id == disc@[j],
            forall|j: int| 0 <= j < disc@.len() ==> in_closure(ws, requested@, #[trigger] disc@[j]),
            forall|k: int| 0 <= k < q && ws.defined(requested@[k]) ==> disc@.contains(requested@[k]),
        decreases requested@.len() - q,
    {
        let t = requested[q];
        let ghost disc0 = disc@;
        match ws.find_definition(t) {
            Some(d) => {
                match index_of(&disc, t) {
                    Some(j) => {},
                    None => {
                        proof {
                            assert(requested@[q as int] == t);
                            assert forall|st: Set<TaskId>| closed_over(ws, requested@, st)
                                implies #[trigger] st.contains(t) by {}
                        }
                        disc.push(t);
                        proof { didx = didx.push(d as int); }
                        assert(disc@[disc@.len() - 1] == t);
                    },
                }
                assert(disc@.contains(t));
            },
            None => {},
        }
        assert forall|k: int| 0 <= k < q + 1 && ws.defined(requested@[k])
            implies disc@.contains(requested@[k]) by {
            if k < q {
                let m = choose|m: int| 0 <= m < disc0.len() && disc0[m] == requested@[k];
                assert(disc@[m] == requested@[k]);
            }
        }
        q = q + 1;
    }
    assert forall|t: TaskId| requested@.contains(t) && ws.defined(t) implies disc@.contains(t) by {
        let k = choose|k: int| 0 <= k < requested@.len() && requested@[k] == t;
    }
    proof {
        assert(didx.no_duplicates());
        lemma_distinct_bound(didx, dn);
    }
    let mut deps: Vec<Vec<usize>> = Vec::new();
    let mut i: usize = 0;
    while i < disc.len()
        invariant
            ws.wf(),
            dn == ws.definitions@.len(),
            i <= disc@.len() <= dn,
            disc@.no_duplicates(),
            didx.len() == disc@.len(),
            forall|j: int| 0 <= j < didx.len() ==> 0 <= #[trigger] didx[j] < dn
                && ws.definitions@[didx[j]].id == disc@[j],
            forall|j: int| 0 <= j < disc@.len() ==> in_closure(ws, requested@, #[trigger] disc@[j]),
            forall|t: TaskId| requested@.contains(t) && ws.defined(t) ==> disc@.contains(t),
            deps@.len() == i,
            forall|a: int, jj: int| 0 <= a < deps@.len() && 0 <= jj < deps@[a]@.len()
                ==> #[trigger] deps@[a]@[jj] < disc@.len(),
            forall|a: int, b: TaskId| 0 <= a < i ==>
                (#[trigger] ws.dep_edge(disc@[a], b) <==> exists|jj: int|
                    0 <= jj < deps@[a]@.len() && disc@[deps@[a]@[jj] as int] == b),
        decreases dn - i,
    {
        assert(ws.definitions@[didx[i as int]].id == disc@[i as int]);
        let ds = ws.resolve(disc[i]);
        let mut row: Vec<usize> = Vec::new();
        let mut t: usize = 0;
        while t < ds.len()
            invariant
                ws.wf(),
                dn == ws.definitions@.len(),
                i < disc@.len() <= dn,
                disc@.no_duplicates(),
                didx.len() == disc@.len(),
                forall|j: int| 0 <= j < didx.len() ==> 0 <= #[trigger] didx[j] < dn
                    && ws.definitions@[didx[j]].id == disc@[j],
                forall|j: int| 0 <= j < disc@.len() ==> in_closure(ws, requested@, #[trigger] disc@[j]),
                forall|t: TaskId| requested@.contains(t) && ws.defined(t) ==> disc@.contains(t),
                deps@.len() == i,
                forall|a: int, jj: int| 0 <= a < deps@.len() && 0 <= jj < deps@[a]@.len()
                    ==> #[trigger] deps@[a]@[jj] < disc@.len(),
                forall|a: int, b: TaskId| 0 <= a < i ==>
                    (#[trigger] ws.dep_edge(disc@[a], b) <==> exists|jj: int|
                        0 <= jj < deps@[a]@.len() && disc@[deps@[a]@[jj] as int] == b),
                forall|b: TaskId| ds@.contains(b) <==> ws.dep_edge(disc@[i as int], b),
                t <= ds@.len(),
                row@.len() == t,
                forall|k: int| 0 <= k < t ==> #[trigger] row@[k] < disc@.len()
                    && disc@[row@[k] as int] == ds@[k],
            decreases ds@.len() - t,
        {
            let b = ds[t];
            assert(ds@.contains(b));
            let j = match index_of(&disc, b) {
                Some(j) => j,
                None => {
                    let d = match ws.find_definition(b) {
                        Some(d) => d,
                        None => { return (disc, deps); },
                    };
                    let ghost disc0 = disc@;
                    proof {
                        let a = disc@[i as int];
                        assert(ws.dep_edge(a, b));
                        assert(in_closure(ws, requested@, a));
                        assert forall|st: Set<TaskId>| closed_over(ws, requested@, st)
                            implies #[trigger] st.contains(b) by {
                            assert(st.contains(a));
                        }
                    }
                    disc.push(b);
                    proof {
                        didx = didx.push(d as int);
                        assert forall|x: int, y: int| 0 <= x < y < didx.len() implies didx[x] != didx[y] by {
                            assert(disc@[x] != disc@[y]);
                        }
                        lemma_distinct_bound(didx, dn);
                        assert forall|a: int, bb: TaskId| 0 <= a < i implies
                            (#[trigger] ws.dep_edge(disc@[a], bb) <==> exists|jj: int|
                                0 <= jj < deps@[a]@.len() && disc@[deps@[a]@[jj] as int] == bb) by {
                            assert(disc@[a] == disc0[a]);
                            if ws.dep_edge(disc@[a], bb) {
                                let jj = choose|jj: int| 0 <= jj < deps@[a]@.len() && disc0[deps@[a]@[jj] as int] == bb;
                                assert(disc@[deps@[a]@[jj] as int] == bb);
                            }
                            if exists|jj: int| 0 <= jj < deps@[a]@.len() && disc@[deps@[a]@[jj] as int] == bb {
                                let jj = choose|jj: int| 0 <= jj < deps@[a]@.len() && disc@[deps@[a]@[jj] as int] == bb;
                                assert(disc0[deps@[a]@[jj] as int] == bb);
                            }
                        }
                        assert forall|t: TaskId| requested@.contains(t) && ws.defined(t) implies disc@.contains(t) by {
                            let k = choose|k: int| 0 <= k < disc0.len() && disc0[k] == t;
                            assert(disc@[k] == t);
                        }
                    }
                    disc.len() - 1
                },
            };
            row.push(j);
            t = t + 1;
        }
        assert forall|b: TaskId| #[trigger] ws.dep_edge(disc@[i as int], b) <==> exists|jj: int|
            0 <= jj < row@.len() && disc@[row@[jj] as int] == b by {
            if ws.dep_edge(disc@[i as int], b) {
                assert(ds@.contains(b));
                let k = choose|k: int| 0 <= k < ds@.len() && ds@[k] == b;
                assert(disc@[row@[k] as int] == b);
            }
            if exists|jj: int| 0 <= jj < row@.len() && disc@[row@[jj] as int] == b {
                let jj = choose|jj: int| 0 <= jj < row@.len() && disc@[row@[jj] as int] == b;
                assert(ds@[jj] == b);
                assert(ds@.contains(b));
            }
        }
        let ghost deps0 = deps@;
        deps.push(row);
        assert forall|a: int, b: TaskId| 0 <= a < i + 1 implies
            (#[trigger] ws.dep_edge(disc@[a], b) <==> exists|jj: int|
                0 <= jj < deps@[a]@.len() && disc@[deps@[a]@[jj] as int] == b) by {
            if a < i {
                assert(deps@[a] == deps0[a]);
            } else {
                assert(deps@[a]@ == row@);
            }
        }
        i = i + 1;
    }
    assert forall|j: int| 0 <= j < disc@.len() implies ws.defined(#[trigger] disc@[j]) by {
        assert(ws.definitions@[didx[j]].id == disc@[j]);
    }
    (disc, deps)
}


/// Why no task graph could be built.
#[derive(Debug)]
pub enum GraphError {
    /// A dependency cycle: each task depends on the next, and the last on
    /// the first.
    CycleDetected(Vec<TaskId>),
    /// The first task depends on the second, which is persistent.
    InvalidDependency(TaskId, TaskId),
}

impl GraphError {
    /// The process exit code of a run whose graph failed to build.
    pub fn exit_code(&self) -> (r: i32)
        ensures
            r == crate::scheduler::EXIT_GRAPH_ERROR,
    {
        crate::scheduler::EXIT_GRAPH_ERROR
    }
}

/// `g` is the task graph of the request: its nodes are defined tasks,
/// include each defined requested task, and have exactly the workspace's
/// dependencies as edges; persistence comes from the definitions.
pub open spec fn describes(ws: &Workspace, requested: Seq<TaskId>, g: &TaskGraph) -> bool {
    &&& g.wf()
    &&& forall|v: int| 0 <= v < g.nodes@.len() ==> ws.defined(#[trigger] g.nodes@[v])
    &&& forall|v: int| 0 <= v < g.nodes@.len() ==> in_closure(ws, requested, #[trigger] g.nodes@[v])
    &&& forall|t: TaskId| requested.contains(t) && ws.defined(t) ==> g.nodes@.contains(t)
    &&& forall|v: int, b: TaskId| 0 <= v < g.nodes@.len() ==>
        (#[trigger] ws.dep_edge(g.nodes@[v], b) <==> exists|u: int|
            g.has_edge(u, v) && g.nodes@[u] == b)
    &&& forall|v: int| 0 <= v < g.nodes@.len() ==>
        g.persistent@[v] == ws.is_persistent(#[trigger] g.nodes@[v])
    &&& forall|v: int| 0 <= v < g.nodes@.len() ==>
        g.cached@[v] == ws.is_cached(#[trigger] g.nodes@[v])
}

/// Whether the defined task `t` allows caching.
fn definition_cached(ws: &Workspace, t: TaskId) -> (r: bool)
    requires
        ws.wf(),
        ws.defined(t),
    ensures
        r == ws.is_cached(t),
{
    match ws.find_definition(t) {
        Some(i) => ws.definitions[i].cache,
        None => false,
    }
}

/// Whether the defined task `t` is persistent.
fn definition_persistent(ws: &Workspace, t: TaskId) -> (r: bool)
    requires
        ws.wf(),
        ws.defined(t),
    ensures
        r == ws.is_persistent(t),
{
    match ws.find_definition(t) {
        Some(i) => ws.definitions[i].persistent,
        None => false,
    }
}

/// An unplaced node whose dependencies are all placed, if there is one, and
/// whether any node is unplaced.
fn find_ready(placed: &Vec<bool>, deps: &Vec<Vec<usize>>) -> (r: (Option<usize>, bool))
    requires
        deps@.len() == placed@.len(),
        forall|a: int, jj: int| 0 <= a < deps@.len() && 0 <= jj < deps@[a]@.len()
            ==> #[trigger] deps@[a]@[jj] < placed@.len(),
    ensures
        match r.0 {
            Some(i) => i < placed@.len() && !placed@[i as int] && forall|jj: int|
                0 <= jj < deps@[i as int]@.len() ==> placed@[#[trigger] deps@[i as int]@[jj] as int],
            None => forall|i: int| 0 <= i < placed@.len() && !placed@[i] ==> exists|jj: int|
                0 <= jj < deps@[i]@.len() && !placed@[#[trigger] deps@[i]@[jj] as int],
        },
        r.1 == exists|i: int| 0 <= i < placed@.len() && !placed@[i],
{
    let mut any = false;
    let mut i: usize = 0;
    while i < placed.len()
        invariant
            deps@.len() == placed@.len(),
            forall|a: int, jj: int| 0 <= a < deps@.len() && 0 <= jj < deps@[a]@.len()
                ==> #[trigger] deps@[a]@[jj] < placed@.len(),
            i <= placed@.len(),
            any == exists|k: int| 0 <= k < i && !placed@[k],
            forall|k: int| 0 <= k < i && !placed@[k] ==> exists|jj: int|
                0 <= jj < deps@[k]@.len() && !placed@[#[trigger] deps@[k]@[jj] as int],
        decreases placed@.len() - i,
    {
        if !placed[i] {
            any = true;
            let row = &deps[i];
            let mut j: usize = 0;
            let mut ready = true;
            while j < row.len()
                invariant
                    i < placed@.len(),
                    deps@.len() == placed@.len(),
                    forall|a: int, jj: int| 0 <= a < deps@.len() && 0 <= jj < deps@[a]@.len()
                        ==> #[trigger] deps@[a]@[jj] < placed@.len(),
                    row == deps@[i as int],
                    j <= row@.len(),
                    ready ==> forall|jj: int| 0 <= jj < j ==> placed@[#[trigger] row@[jj] as int],
                    !ready ==> exists|jj: int| 0 <= jj < row@.len() && !placed@[#[trigger] row@[jj] as int],
                decreases row@.len() - j,
            {
                if !placed[row[j]] {
                    ready = false;
                }
                j = j + 1;
            }
            if ready {
                return (Some(i), true);
            }
        }
        i = i + 1;
    }
    (None, any)
}


/// The tasks of `disc` that are not placed.
fn unplaced_tasks(disc: &Vec<TaskId>, placed: &Vec<bool>) -> (r: Vec<TaskId>)
    requires
        disc@.len() == placed@.len(),
    ensures
        forall|x: TaskId| r@.contains(x) <==> exists|i: int|
            0 <= i < disc@.len() && !placed@[i] && disc@[i] == x,
{
    let mut r: Vec<TaskId> = Vec::new();
    let mut t: usize = 0;
    while t < disc.len()
        invariant
            disc@.len() == placed@.len(),
            t <= disc@.len(),
            forall|x: TaskId| r@.contains(x) <==> exists|i: int|
                0 <= i < t && !placed@[i] && disc@[i] == x,
        decreases disc@.len() - t,
    {
        let ghost r0 = r@;
        if !placed[t] {
            r.push(disc[t]);
            assert forall|x: TaskId| r@.contains(x) <==> exists|i: int|
                0 <= i < t + 1 && !placed@[i] && disc@[i] == x by {
                if r@.contains(x) {
                    let k = choose|k: int| 0 <= k < r@.len() && r@[k] == x;
                    if k < r0.len() {
                        assert(r0[k] == x);
                        assert(r0.contains(x));
                    } else {
                        assert(disc@[t as int] == x);
                    }
                }
                if exists|i: int| 0 <= i < t + 1 && !placed@[i] && disc@[i] == x {
                    let i = choose|i: int| 0 <= i < t + 1 && !placed@[i] && disc@[i] == x;
                    if i < t {
                        assert(r0.contains(x));
                        let k = choose|k: int| 0 <= k < r0.len() && r0[k] == x;
                        assert(r@[k] == x);
                    } else {
                        assert(r@[r0.len() as int] == x);
                    }
                }
            }
        }
        t = t + 1;
    }
    r
}

/// Places the expanded tasks one at a time, each after its dependencies,
/// giving a task graph in topological order; or, when some tasks can never
/// be placed, returns them.
fn arrange(ws: &Workspace, requested: &Vec<TaskId>, disc: &Vec<TaskId>, deps: &Vec<Vec<usize>>)
    -> (r: Result<TaskGraph, Vec<TaskId>>)
    requires
        ws.wf(),
        disc@.no_duplicates(),
        forall|j: int| 0 <= j < disc@.len() ==> ws.defined(#[trigger] disc@[j]),
        forall|j: int| 0 <= j < disc@.len() ==> in_closure(ws, requested@, #[trigger] disc@[j]),
        forall|t: TaskId| requested@.contains(t) && ws.defined(t) ==> disc@.contains(t),
        deps@.len() == disc@.len(),
        forall|a: int, jj: int| 0 <= a < deps@.len() && 0 <= jj < deps@[a]@.len()
            ==> #[trigger] deps@[a]@[jj] < disc@.len(),
        forall|a: int, b: TaskId| 0 <= a < disc@.len() ==>
            (#[trigger] ws.dep_edge(disc@[a], b) <==> exists|jj: int|
                0 <= jj < deps@[a]@.len() && disc@[deps@[a]@[jj] as int] == b),
    ensures
        match r {
            Ok(g) => describes(ws, requested@, &g),
            Err(c) => c@.len() > 0 && forall|x: TaskId| #[trigger] c@.contains(x) ==>
                ws.defined(x) && in_closure(ws, requested@, x)
                && exists|y: TaskId| c@.contains(y) && ws.dep_edge(x, y),
        },
{
    let m = disc.len();
    let mut placed: Vec<bool> = Vec::new();
    let mut pos: Vec<usize> = Vec::new();
    let mut t: usize = 0;
    while t < m
        invariant
            t <= m,
            placed@.len() == t,
            pos@.len() == t,
            forall|i: int| 0 <= i < t ==> !placed@[i],
        decreases m - t,
    {
        placed.push(false);
        pos.push(0);
        t = t + 1;
    }
    let mut g = TaskGraph { nodes: Vec::new(), persistent: Vec::new(), cached: Vec::new(), preds: Vec::new() };
    let ghost mut src: Seq<int> = Seq::empty();
    loop
        invariant
            ws.wf(),
            m == disc@.len(),
            disc@.no_duplicates(),
            forall|j: int| 0 <= j < disc@.len() ==> ws.defined(#[trigger] disc@[j]),
            forall|j: int| 0 <= j < disc@.len() ==> in_closure(ws, requested@, #[trigger] disc@[j]),
            forall|t: TaskId| requested@.contains(t) && ws.defined(t) ==> disc@.contains(t),
            forall|a: int, b: TaskId| 0 <= a < disc@.len() ==>
                (#[trigger] ws.dep_edge(disc@[a], b) <==> exists|jj: int|
                    0 <= jj < deps@[a]@.len() && disc@[deps@[a]@[jj] as int] == b),
            deps@.len() == m,
            forall|a: int, jj: int| 0 <= a < deps@.len() && 0 <= jj < deps@[a]@.len()
                ==> #[trigger] deps@[a]@[jj] < disc@.len(),
            placed@.len() == m,
            pos@.len() == m,
            g.nodes@.len() == src.len(),
            g.preds@.len() == src.len(),
            g.persistent@.len() == src.len(),
            g.cached@.len() == src.len(),
            src.len() <= m,
            forall|i: int| 0 <= i < m && #[trigger] placed@[i] ==> pos@[i] < src.len()
                && src[pos@[i] as int] == i,
            forall|v: int| 0 <= v < src.len() ==> 0 <= #[trigger] src[v] < m && placed@[src[v]]
                && pos@[src[v]] == v && g.nodes@[v] == disc@[src[v]],
            forall|v: int| 0 <= v < src.len() ==> g.preds@[v]@.len() == deps@[#[trigger] src[v]]@.len(),
            forall|v: int, j: int| 0 <= v < src.len() && 0 <= j < g.preds@[v]@.len()
                ==> #[trigger] g.preds@[v]@[j] == pos@[deps@[src[v]]@[j] as int]
                && placed@[deps@[src[v]]@[j] as int] && g.preds@[v]@[j] < v,
            forall|a: int, b: int| 0 <= a < b < g.nodes@.len() ==> g.nodes@[a] != g.nodes@[b],
            forall|v: int| 0 <= v < g.nodes@.len() ==>
                g.persistent@[v] == ws.is_persistent(#[trigger] g.nodes@[v]),
            forall|v: int| 0 <= v < g.nodes@.len() ==>
                g.cached@[v] == ws.is_cached(#[trigger] g.nodes@[v]),
        decreases m - src.len(),
    {
        let (ready, any) = find_ready(&placed, deps);
        match ready {
            Some(i) => {
                let k = g.nodes.len();
                let drow = &deps[i];
                let mut row: Vec<usize> = Vec::new();
                let mut jj: usize = 0;
                while jj < drow.len()
                    invariant
                        drow == deps@[i as int],
                        i < m,
                        placed@.len() == m,
                        pos@.len() == m,
                        k == src.len(),
                        forall|a: int, jj: int| 0 <= a < deps@.len() && 0 <= jj < deps@[a]@.len()
                            ==> #[trigger] deps@[a]@[jj] < disc@.len(),
                        deps@.len() == m,
                        m == disc@.len(),
                        forall|i: int| 0 <= i < m && #[trigger] placed@[i] ==> pos@[i] < src.len()
                            && src[pos@[i] as int] == i,
                        forall|x: int| 0 <= x < drow@.len() ==> placed@[#[trigger] drow@[x] as int],
                        jj <= drow@.len(),
                        row@.len() == jj,
                        forall|x: int| 0 <= x < jj ==> #[trigger] row@[x] == pos@[drow@[x] as int]
                            && row@[x] < k,
                    decreases drow@.len() - jj,
                {
                    assert(placed@[drow@[jj as int] as int]);
                    row.push(pos[drow[jj]]);
                    jj = jj + 1;
                }
                let p = definition_persistent(ws, disc[i]);
                let cf = definition_cached(ws, disc[i]);
                let ghost pos0 = pos@;
                let ghost placed0 = placed@;
                let ghost g0 = g.nodes@;
                let ghost preds0 = g.preds@;
                let ghost src0 = src;
                pos.set(i, k);
                placed.set(i, true);
                g.nodes.push(disc[i]);
                g.persistent.push(p);
                g.cached.push(cf);
                g.preds.push(row);
                proof {
                    src = src.push(i as int);
                    assert forall|v: int| 0 <= v < src.len() implies 0 <= #[trigger] src[v] < m && placed@[src[v]]
                        && pos@[src[v]] == v && g.nodes@[v] == disc@[src[v]] by {
                        if v < k {
                            assert(placed0[src0[v]]);
                            assert(src0[v] != i);
                        }
                    }
                    assert forall|v: int, j: int| 0 <= v < src.len() && 0 <= j < g.preds@[v]@.len()
                        implies #[trigger] g.preds@[v]@[j] == pos@[deps@[src[v]]@[j] as int]
                        && placed@[deps@[src[v]]@[j] as int] && g.preds@[v]@[j] < v by {
                        if v < k {
                            assert(g.preds@[v] == preds0[v]);
                            assert(preds0[v]@[j] == pos0[deps@[src0[v]]@[j] as int]);
                            assert(placed0[deps@[src0[v]]@[j] as int]);
                        } else {
                            assert(g.preds@[v]@ == row@);
                            assert(row@[j] == pos0[drow@[j] as int]);
                            assert(placed0[drow@[j] as int]);
                        }
                    }
                    assert forall|a: int, b: int| 0 <= a < b < g.nodes@.len() implies g.nodes@[a] != g.nodes@[b] by {
                        if b == k {
                            assert(placed0[src0[a]]);
                            assert(src0[a] != i);
                            assert(disc@[src0[a]] != disc@[i as int]);
                        }
                    }
                    assert forall|ii: int| 0 <= ii < m && #[trigger] placed@[ii] implies pos@[ii] < src.len()
                        && src[pos@[ii] as int] == ii by {
                        if ii != i {
                            assert(placed0[ii]);
                        }
                    }
                    assert forall|v: int| 0 <= v < src.len() implies g.preds@[v]@.len() == deps@[#[trigger] src[v]]@.len() by {
                        if v < k {
                            assert(g.preds@[v] == preds0[v]);
                        }
                    }
                    assert(src.no_duplicates()) by {
                        assert forall|a: int, b: int| 0 <= a < b < src.len() implies src[a] != src[b] by {
                            assert(pos@[src[a]] == a);
                            assert(pos@[src[b]] == b);
                        }
                    }
                    lemma_distinct_bound(src, m as int);
                }
            },
            None => {
                if any {
                    let c = unplaced_tasks(disc, &placed);
                    let ghost i0 = choose|i: int| 0 <= i < placed@.len() && !placed@[i];
                    assert(c@.contains(disc@[i0]));
                    assert forall|x: TaskId| #[trigger] c@.contains(x) implies
                        ws.defined(x) && in_closure(ws, requested@, x)
                        && exists|y: TaskId| c@.contains(y) && ws.dep_edge(x, y) by {
                        let i = choose|i: int| 0 <= i < disc@.len() && !placed@[i] && disc@[i] == x;
                        assert(in_closure(ws, requested@, disc@[i]));
                        let jj = choose|jj: int| 0 <= jj < deps@[i]@.len() && !placed@[#[trigger] deps@[i]@[jj] as int];
                        let y = disc@[deps@[i]@[jj] as int];
                        assert(ws.dep_edge(disc@[i], y));
                        assert(c@.contains(y));
                    }
                    return Err(c);
                }
                proof {
                    assert forall|v: int, b: TaskId| 0 <= v < g.nodes@.len() implies
                        (#[trigger] ws.dep_edge(g.nodes@[v], b) <==> exists|u: int|
                            g.has_edge(u, v) && g.nodes@[u] == b) by {
                        let s = src[v];
                        if ws.dep_edge(g.nodes@[v], b) {
                            assert(ws.dep_edge(disc@[s], b));
                            let jj = choose|jj: int| 0 <= jj < deps@[s]@.len() && disc@[deps@[s]@[jj] as int] == b;
                            let d = deps@[s]@[jj] as int;
                            let u = g.preds@[v]@[jj] as int;
                            assert(u == pos@[d]);
                            assert(placed@[d]);
                            assert(src[u] == d);
                            assert(g.has_edge(u, v));
                        }
                        if exists|u: int| g.has_edge(u, v) && g.nodes@[u] == b {
                            let u = choose|u: int| g.has_edge(u, v) && g.nodes@[u] == b;
                            let j = choose|j: int| 0 <= j < g.preds@[v]@.len() && g.preds@[v]@[j] == u;
                            let d = deps@[s]@[j] as int;
                            assert(g.preds@[v]@[j] == pos@[d]);
                            assert(placed@[d]);
                            assert(src[u] == d);
                            assert(disc@[d] == b);
                            assert(ws.dep_edge(disc@[s], b));
                        }
                    }
                    assert forall|t: TaskId| requested@.contains(t) && ws.defined(t) implies g.nodes@.contains(t) by {
                        let i = choose|i: int| 0 <= i < disc@.len() && disc@[i] == t;
                        assert(placed@[i]);
                        assert(g.nodes@[pos@[i] as int] == t);
                    }
                    assert forall|v: int| 0 <= v < g.nodes@.len() implies ws.defined(#[trigger] g.nodes@[v]) by {
                        assert(ws.defined(disc@[src[v]]));
                    }
                    assert forall|v: int| 0 <= v < g.nodes@.len() implies in_closure(ws, requested@, #[trigger] g.nodes@[v]) by {
                        assert(in_closure(ws, requested@, disc@[src[v]]));
                    }
                }
                return Ok(g);
            },
        }
    }
}


/// `c` is a dependency cycle: each task depends on the next, and the last
/// on the first.
pub open spec fn is_cycle(ws: &Workspace, c: Seq<TaskId>) -> bool {
    &&& c.len() > 0
    &&& forall|i: int| 0 <= i < c.len() - 1 ==> #[trigger] ws.dep_edge(c[i], c[i + 1])
    &&& ws.dep_edge(c.last(), c[0])
}

/// `s` holds the defined requested tasks and each dependency of its tasks.
pub open spec fn closed_over(ws: &Workspace, requested: Seq<TaskId>, s: Set<TaskId>) -> bool {
    &&& forall|t: TaskId| requested.contains(t) && ws.defined(t) ==> s.contains(t)
    &&& forall|a: TaskId, b: TaskId| s.contains(a) && #[trigger] ws.dep_edge(a, b) ==> s.contains(b)
}

/// `x` is a requested task or one that a requested task transitively
/// depends on: every set closed under the request and its dependencies
/// holds it.
pub open spec fn in_closure(ws: &Workspace, requested: Seq<TaskId>, x: TaskId) -> bool {
    forall|s: Set<TaskId>| closed_over(ws, requested, s) ==> #[trigger] s.contains(x)
}

/// A graph built for a request holds exactly the requested tasks and the
/// tasks they transitively depend on, each once, and its edges all point
/// from a task to one placed earlier, so it has no cycle.
pub proof fn lemma_graph_complete(ws: &Workspace, requested: Seq<TaskId>, g: &TaskGraph)
    requires
        describes(ws, requested, g),
    ensures
        forall|x: TaskId| in_closure(ws, requested, x) <==> g.nodes@.contains(x),
        g.nodes@.no_duplicates(),
        forall|u: int, v: int| g.has_edge(u, v) ==> 0 <= u < v < g.nodes@.len(),
{
    let s = g.nodes@.to_set();
    assert forall|a: TaskId, b: TaskId| s.contains(a) && #[trigger] ws.dep_edge(a, b)
        implies s.contains(b) by {
        let v = choose|v: int| 0 <= v < g.nodes@.len() && g.nodes@[v] == a;
        let u = choose|u: int| g.has_edge(u, v) && g.nodes@[u] == b;
        let j = choose|j: int| 0 <= j < g.preds@[v]@.len() && g.preds@[v]@[j] == u;
        assert(g.preds@[v]@[j] < v);
        assert(g.nodes@.contains(b));
    }
    assert(closed_over(ws, requested, s));
    assert forall|x: TaskId| in_closure(ws, requested, x) <==> g.nodes@.contains(x) by {
        if in_closure(ws, requested, x) {
            assert(s.contains(x));
        }
        if g.nodes@.contains(x) {
            let v = choose|v: int| 0 <= v < g.nodes@.len() && g.nodes@[v] == x;
            assert(in_closure(ws, requested, g.nodes@[v]));
        }
    }
    assert forall|u: int, v: int| g.has_edge(u, v) implies 0 <= u < v < g.nodes@.len() by {
        let j = choose|j: int| 0 <= j < g.preds@[v]@.len() && g.preds@[v]@[j] == u;
        assert(g.preds@[v]@[j] < v);
    }
}

proof fn lemma_cycle_descends(ws: &Workspace, requested: Seq<TaskId>, g: &TaskGraph, c: Seq<TaskId>, v0: int, i: int)
    requires
        describes(ws, requested, g),
        is_cycle(ws, c),
        0 <= v0 < g.nodes@.len(),
        g.nodes@[v0] == c[0],
        0 <= i < c.len(),
    ensures
        exists|v: int| 0 <= v < g.nodes@.len() && g.nodes@[v] == c[i] && v + i <= v0,
    decreases i,
{
    if i > 0 {
        lemma_cycle_descends(ws, requested, g, c, v0, i - 1);
        let w = choose|v: int| 0 <= v < g.nodes@.len() && g.nodes@[v] == c[i - 1] && v + i - 1 <= v0;
        let k = i - 1;
        assert(ws.dep_edge(c[k], c[k + 1]));
        assert(ws.dep_edge(g.nodes@[w], c[i]));
        let u = choose|u: int| g.has_edge(u, w) && g.nodes@[u] == c[i];
        let j = choose|j: int| 0 <= j < g.preds@[w]@.len() && g.preds@[w]@[j] == u;
        assert(g.preds@[w]@[j] < w);
    }
}

/// No graph built for a request holds a task of a dependency cycle.
pub proof fn lemma_cycle_excludes_graph(ws: &Workspace, requested: Seq<TaskId>, g: &TaskGraph, c: Seq<TaskId>)
    requires
        describes(ws, requested, g),
        is_cycle(ws, c),
    ensures
        !g.nodes@.contains(c[0]),
{
    if g.nodes@.contains(c[0]) {
        let v0 = choose|v: int| 0 <= v < g.nodes@.len() && g.nodes@[v] == c[0];
        let n = c.len() - 1;
        lemma_cycle_descends(ws, requested, g, c, v0, n);
        let w = choose|v: int| 0 <= v < g.nodes@.len() && g.nodes@[v] == c[n] && v + n <= v0;
        assert(ws.dep_edge(g.nodes@[w], c[0]));
        let u = choose|u: int| g.has_edge(u, w) && g.nodes@[u] == c[0];
        let j = choose|j: int| 0 <= j < g.preds@[w]@.len() && g.preds@[w]@[j] == u;
        assert(g.preds@[w]@[j] < w);
        assert(u == v0);
    }
}

/// A dependency cycle reachable from the request leaves no graph that
/// describes the request.
pub proof fn lemma_cycle_detected(ws: &Workspace, requested: Seq<TaskId>, g: &TaskGraph, c: Seq<TaskId>)
    requires
        is_cycle(ws, c),
        in_closure(ws, requested, c[0]),
    ensures
        !describes(ws, requested, g),
{
    if describes(ws, requested, g) {
        lemma_graph_complete(ws, requested, g);
        lemma_cycle_excludes_graph(ws, requested, g, c);
    }
}

/// Expands the requested tasks into the task graph of everything they
/// need. Fails with the tasks of a cycle when the dependencies cannot be
/// ordered, and with the offending pair when a task depends on a
/// persistent one.
pub fn build(ws: &Workspace, requested: &Vec<TaskId>) -> (r: Result<TaskGraph, GraphError>)
    requires
        ws.wf(),
    ensures
        match r {
            Ok(g) => describes(ws, requested@, &g) && forall|u: int, v: int|
                g.has_edge(u, v) ==> !g.persistent@[u],
            Err(GraphError::CycleDetected(c)) => is_cycle(ws, c@)
                && forall|x: TaskId| #[trigger] c@.contains(x) ==> in_closure(ws, requested@, x),
            Err(GraphError::InvalidDependency(a, b)) => ws.dep_edge(a, b) && ws.is_persistent(b)
                && exists|g: TaskGraph| describes(ws, requested@, &g) && g.nodes@.contains(a),
        },
        forall|c: Seq<TaskId>| is_cycle(ws, c) && in_closure(ws, requested@, c[0])
            ==> (r matches Err(GraphError::CycleDetected(_))),
{
    let (disc, deps) = expand(ws, requested);
    let g = match arrange(ws, requested, &disc, &deps) {
        Ok(g) => g,
        Err(stuck) => {
            let c = cycle_in(ws, &stuck);
            return Err(GraphError::CycleDetected(c));
        },
    };
    proof {
        assert forall|c: Seq<TaskId>| is_cycle(ws, c) && in_closure(ws, requested@, c[0]) implies false by {
            lemma_cycle_detected(ws, requested@, &g, c);
        }
    }
    let mut v: usize = 0;
    while v < g.nodes.len()
        invariant
            describes(ws, requested@, &g),
            forall|c: Seq<TaskId>| is_cycle(ws, c) && in_closure(ws, requested@, c[0]) ==> false,
            v <= g.nodes@.len(),
            forall|u: int, w: int| 0 <= w < v && g.has_edge(u, w) ==> !g.persistent@[u],
        decreases g.nodes@.len() - v,
    {
        let ps = &g.preds[v];
        let mut j: usize = 0;
        while j < ps.len()
            invariant
                describes(ws, requested@, &g),
                forall|c: Seq<TaskId>| is_cycle(ws, c) && in_closure(ws, requested@, c[0]) ==> false,
                v < g.nodes@.len(),
                ps == g.preds@[v as int],
                j <= ps@.len(),
                forall|k: int| 0 <= k < j ==> !g.persistent@[#[trigger] ps@[k] as int],
            decreases ps@.len() - j,
        {
            let u = ps[j];
            assert(u < v);
            if g.persistent[u] {
                assert(g.has_edge(u as int, v as int));
                assert(ws.dep_edge(g.nodes@[v as int], g.nodes@[u as int]));
                assert(g.nodes@.contains(g.nodes@[v as int]));
                return Err(GraphError::InvalidDependency(g.nodes[v], g.nodes[u]));
            }
            j = j + 1;
        }
        v = v + 1;
    }
    Ok(g)
}


/// A dependency of the defined task `x` that lies in `c`, where one exists.
fn dependency_in(ws: &Workspace, x: TaskId, c: &Vec<TaskId>) -> (r: TaskId)
    requires
        ws.wf(),
        ws.defined(x),
        exists|y: TaskId| c@.contains(y) && ws.dep_edge(x, y),
    ensures
        c@.contains(r),
        ws.dep_edge(x, r),
{
    let ds = ws.resolve(x);
    let mut j: usize = 0;
    while j < ds.len()
        invariant
            j <= ds@.len(),
            forall|y: TaskId| ds@.contains(y) <==> ws.dep_edge(x, y),
            forall|k: int| 0 <= k < j ==> !c@.contains(#[trigger] ds@[k]),
        decreases ds@.len() - j,
    {
        let d = ds[j];
        assert(ds@.contains(d));
        if index_of(c, d).is_some() {
            return d;
        }
        j = j + 1;
    }
    proof {
        let y = choose|y: TaskId| c@.contains(y) && ws.dep_edge(x, y);
        assert(ds@.contains(y));
        let k = choose|k: int| 0 <= k < ds@.len() && ds@[k] == y;
        assert(!c@.contains(ds@[k]));
    }
    x
}

proof fn lemma_chain_extend(ws: &Workspace, c: Seq<TaskId>, chain: Seq<TaskId>, y: TaskId)
    requires
        chain.len() > 0,
        chain.no_duplicates(),
        !chain.contains(y),
        c.contains(y),
        ws.dep_edge(chain.last(), y),
        forall|k: int| 0 <= k < chain.len() ==> c.contains(#[trigger] chain[k]),
        forall|k: int| 0 <= k < chain.len() - 1 ==> #[trigger] ws.dep_edge(chain[k], chain[k + 1]),
    ensures
        chain.push(y).no_duplicates(),
        forall|k: int| 0 <= k < chain.push(y).len() ==> c.contains(#[trigger] chain.push(y)[k]),
        forall|k: int| 0 <= k < chain.push(y).len() - 1
            ==> #[trigger] ws.dep_edge(chain.push(y)[k], chain.push(y)[k + 1]),
        chain.push(y).len() <= c.len(),
{
    let ext = chain.push(y);
    assert forall|a: int, b: int| 0 <= a < b < ext.len() implies ext[a] != ext[b] by {
        if b == chain.len() {
            assert(chain.contains(chain[a]));
        } else {
            assert(chain[a] != chain[b]);
        }
    }
    assert forall|k: int| 0 <= k < ext.len() implies c.contains(#[trigger] ext[k]) by {
        if k < chain.len() {
            assert(c.contains(chain[k]));
        }
    }
    assert forall|k: int| 0 <= k < ext.len() - 1 implies #[trigger] ws.dep_edge(ext[k], ext[k + 1]) by {
        if k < chain.len() - 1 {
            assert(ws.dep_edge(chain[k], chain[k + 1]));
        }
    }
    ext.unique_seq_to_set();
    c.lemma_cardinality_of_set();
    assert forall|x: TaskId| ext.to_set().contains(x) implies c.to_set().contains(x) by {
        let m = choose|m: int| 0 <= m < ext.len() && ext[m] == x;
        assert(c.contains(ext[m]));
    }
    vstd::set_lib::lemma_len_subset(ext.to_set(), c.to_set());
}

/// The tail of `chain` from position `k`, closed into a cycle by the edge
/// from the last task back to `chain[k]`.
fn cycle_from(ws: &Workspace, c: &Vec<TaskId>, chain: &Vec<TaskId>, k: usize, y: TaskId) -> (r: Vec<TaskId>)
    requires
        k < chain@.len(),
        chain@[k as int] == y,
        ws.dep_edge(chain@.last(), y),
        forall|i: int| 0 <= i < chain@.len() ==> c@.contains(#[trigger] chain@[i]),
        forall|i: int| 0 <= i < chain@.len() - 1 ==> #[trigger] ws.dep_edge(chain@[i], chain@[i + 1]),
    ensures
        is_cycle(ws, r@),
        forall|x: TaskId| r@.contains(x) ==> c@.contains(x),
{
    let n = chain.len();
    let mut r: Vec<TaskId> = Vec::new();
    let mut i: usize = k;
    while i < n
        invariant
            k <= i <= n,
            n == chain@.len(),
            r@ =~= chain@.subrange(k as int, i as int),
        decreases n - i,
    {
        r.push(chain[i]);
        i = i + 1;
    }
    assert forall|x: TaskId| r@.contains(x) implies c@.contains(x) by {
        let m = choose|m: int| 0 <= m < r@.len() && r@[m] == x;
        assert(x == chain@[k + m]);
    }
    assert forall|m: int| 0 <= m < r@.len() - 1 implies #[trigger] ws.dep_edge(r@[m], r@[m + 1]) by {
        assert(r@[m] == chain@[k + m]);
        assert(r@[m + 1] == chain@[k + m + 1]);
    }
    assert(r@.last() == chain@.last());
    assert(r@[0] == y);
    r
}

/// A dependency cycle among the tasks `c`, each of which depends on another
/// of them: follows dependencies inside `c` from its first task until a
/// task repeats.
#[verifier::rlimit(100)]
fn cycle_in(ws: &Workspace, c: &Vec<TaskId>) -> (r: Vec<TaskId>)
    requires
        ws.wf(),
        c@.len() > 0,
        forall|x: TaskId| #[trigger] c@.contains(x) ==>
            ws.defined(x) && exists|y: TaskId| c@.contains(y) && ws.dep_edge(x, y),
    ensures
        is_cycle(ws, r@),
        forall|x: TaskId| r@.contains(x) ==> c@.contains(x),
{
    let mut chain: Vec<TaskId> = Vec::new();
    chain.push(c[0]);
    assert(c@.contains(c@[0]));
    loop
        invariant
            ws.wf(),
            c@.len() > 0,
            forall|x: TaskId| #[trigger] c@.contains(x) ==>
                ws.defined(x) && exists|y: TaskId| c@.contains(y) && ws.dep_edge(x, y),
            chain@.len() > 0,
            chain@.len() <= c@.len(),
            chain@.no_duplicates(),
            forall|k: int| 0 <= k < chain@.len() ==> c@.contains(#[trigger] chain@[k]),
            forall|k: int| 0 <= k < chain@.len() - 1 ==> #[trigger] ws.dep_edge(chain@[k], chain@[k + 1]),
        decreases c@.len() - chain@.len(),
    {
        let last = chain[chain.len() - 1];
        assert(c@.contains(last));
        let y = dependency_in(ws, last, c);
        match index_of(&chain, y) {
            Some(k) => {
                return cycle_from(ws, c, &chain, k, y);
            },
            None => {
                let ghost old_chain = chain@;
                chain.push(y);
                proof { lemma_chain_extend(ws, c@, old_chain, y); }
            },
        }
    }
}

} // verus!
