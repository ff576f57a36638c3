use vstd::prelude::*;

verus! {

/// How many failed spawns make the client give up on the daemon.
pub const MAX_SPAWN_FAILURES: u64 = 2;

/// How many connection retries follow a successful spawn.
pub const MAX_CONNECT_RETRIES: u64 = 5;

/// The step of the backoff between connection retries, in milliseconds.
pub const BACKOFF_STEP_MS: u64 = 50;

/// What happened since the last action.
#[derive(Clone, Copy, Debug, PartialEq, Eq, Structural)]
pub enum ConnectEvent {
    /// The daemon answered at its local address.
    Reached,
    /// Nothing answered at the daemon's local address.
    Unreachable,
    /// A new daemon process was started.
    SpawnSucceeded,
    /// Starting a daemon process failed.
    SpawnFailed,
}

/// What the client does next.
#[derive(Clone, Copy, Debug, PartialEq, Eq, Structural)]
pub enum ConnectAction {
    /// Try the daemon's address after waiting this many milliseconds.
    Connect { delay_ms: u64 },
    /// Start a daemon process.
    Spawn,
    /// Use the connected daemon.
    UseDaemon,
    /// Run without a daemon.
    RunCold,
}

/// What the connector remembers between steps.
#[derive(Clone, Copy, Debug, PartialEq, Eq, Structural)]
pub struct ConnectState {
    pub spawned: bool,
    pub spawn_failures: u64,
    pub retries: u64,
}

pub open spec fn valid_state(s: ConnectState) -> bool {
    s.spawn_failures < MAX_SPAWN_FAILURES && s.retries <= MAX_CONNECT_RETRIES
}

/// The connector's transition: the next state and action for an event.
pub open spec fn spec_step(s: ConnectState, e: ConnectEvent) -> (ConnectState, ConnectAction) {
    match e {
        ConnectEvent::Reached => (s, ConnectAction::UseDaemon),
        ConnectEvent::Unreachable => if !s.spawned {
            (s, ConnectAction::Spawn)
        } else if s.retries < MAX_CONNECT_RETRIES {
            (
                ConnectState { retries: (s.retries + 1) as u64, ..s },
                ConnectAction::Connect { delay_ms: (BACKOFF_STEP_MS * (s.retries + 1)) as u64 },
            )
        } else {
            (s, ConnectAction::RunCold)
        },
        ConnectEvent::SpawnSucceeded => (
            ConnectState { spawned: true, ..s },
            ConnectAction::Connect { delay_ms: BACKOFF_STEP_MS },
        ),
        ConnectEvent::SpawnFailed => if s.spawn_failures + 1 >= MAX_SPAWN_FAILURES {
            (s, ConnectAction::RunCold)
        } else {
            (ConnectState { spawn_failures: (s.spawn_failures + 1) as u64, ..s }, ConnectAction::Spawn)
        },
    }
}

/// The state of a client that has not yet tried the daemon.
pub fn initial_state() -> (r: ConnectState)
    ensures
        valid_state(r),
        r == (ConnectState { spawned: false, spawn_failures: 0, retries: 0 }),
{
    ConnectState { spawned: false, spawn_failures: 0, retries: 0 }
}

/// Decides what the client does after `event`: spawn a daemon when none
/// answers, retry with a growing delay after a spawn, and run without a
/// daemon after repeated spawn failures or once the retries run out.
pub fn step(s: ConnectState, event: ConnectEvent) -> (r: (ConnectState, ConnectAction))
    requires
        valid_state(s),
    ensures
        r == spec_step(s, event),
        valid_state(r.0),
{
    match event {
        ConnectEvent::Reached => (s, ConnectAction::UseDaemon),
        ConnectEvent::Unreachable => {
            if !s.spawned {
                (s, ConnectAction::Spawn)
            } else if s.retries < MAX_CONNECT_RETRIES {
                (
                    ConnectState { retries: s.retries + 1, ..s },
                    ConnectAction::Connect { delay_ms: BACKOFF_STEP_MS * (s.retries + 1) },
                )
            } else {
                (s, ConnectAction::RunCold)
            }
        },
        ConnectEvent::SpawnSucceeded => (
            ConnectState { spawned: true, ..s },
            ConnectAction::Connect { delay_ms: BACKOFF_STEP_MS },
        ),
        ConnectEvent::SpawnFailed => {
            if s.spawn_failures + 1 >= MAX_SPAWN_FAILURES {
                (s, ConnectAction::RunCold)
            } else {
                (ConnectState { spawn_failures: s.spawn_failures + 1, ..s }, ConnectAction::Spawn)
            }
        },
    }
}

/// Spawning is bounded: the count of failed spawns never decreases and
/// stays below its limit, and each failed spawn either leads to one more
/// spawn, counted, or to running without a daemon.
pub proof fn lemma_spawns_bounded(s: ConnectState, e: ConnectEvent)
    requires
        valid_state(s),
    ensures
        valid_state(spec_step(s, e).0),
        spec_step(s, e).0.spawn_failures >= s.spawn_failures,
        e == ConnectEvent::SpawnFailed ==> (spec_step(s, e).1 == ConnectAction::Spawn
            && spec_step(s, e).0.spawn_failures == s.spawn_failures + 1)
            || spec_step(s, e).1 == ConnectAction::RunCold,
{
}

/// The daemon's warm file-hash state: a digest for each repository-relative
/// path it has hashed, kept until a watch event or a client invalidates it.
pub struct FileHashes {
    entries: Vec<(u64, u64)>,
}

impl FileHashes {
    /// Each path has at most one entry.
    pub closed spec fn wf(&self) -> bool {
        forall|i: int, j: int|
            0 <= i < j < self.entries@.len() ==> self.entries@[i].0 != self.entries@[j].0
    }

    /// The known digests by path.
    pub closed spec fn known(&self) -> Map<u64, u64> {
        Map::new(
            |p: u64| exists|i: int| 0 <= i < self.entries@.len() && self.entries@[i].0 == p,
            |p: u64| self.entries@[choose|i: int| 0 <= i < self.entries@.len() && self.entries@[i].0 == p].1,
        )
    }

    /// No digest is known.
    pub fn new() -> (r: FileHashes)
        ensures
            r.wf(),
            r.known() == Map::<u64, u64>::empty(),
    {
        let r = FileHashes { entries: Vec::new() };
        assert(r.known() =~= Map::<u64, u64>::empty());
        r
    }

    fn position(&self, path: u64) -> (r: Option<usize>)
        ensures
            match r {
                Some(i) => i < self.entries@.len() && self.entries@[i as int].0 == path,
                None => forall|i: int| 0 <= i < self.entries@.len() ==> self.entries@[i].0 != path,
            },
    {
        let mut i: usize = 0;
        while i < self.entries.len()
            invariant
                i <= self.entries@.len(),
                forall|k: int| 0 <= k < i ==> self.entries@[k].0 != path,
            decreases self.entries@.len() - i,
        {
            if self.entries[i].0 == path {
                return Some(i);
            }
            i = i + 1;
        }
        None
    }

    /// The known digest of `path`, if any.
    pub fn get(&self, path: u64) -> (r: Option<u64>)
        requires
            self.wf(),
        ensures
            match r {
                Some(d) => self.known().contains_key(path) && self.known()[path] == d,
                None => !self.known().contains_key(path),
            },
    {
        match self.position(path) {
            Some(i) => {
                let ghost j = choose|j: int| 0 <= j < self.entries@.len() && self.entries@[j].0 == path;
                assert(j == i);
                Some(self.entries[i].1)
            },
            None => None,
        }
    }

    /// Records the digest of `path`.
    pub fn record(&mut self, path: u64, digest: u64)
        requires
            old(self).wf(),
        ensures
            final(self).wf(),
            final(self).known() == old(self).known().insert(path, digest),
    {
        let ghost before = self.known();
        match self.position(path) {
            Some(i) => {
                self.entries.set(i, (path, digest));
                assert forall|p: u64| #[trigger] self.known().contains_key(p)
                    implies self.known()[p] == before.insert(path, digest)[p] by {
                    let j = choose|j: int| 0 <= j < self.entries@.len() && self.entries@[j].0 == p;
                    if p != path {
                        let j0 = choose|j: int| 0 <= j < old(self).entries@.len() && old(self).entries@[j].0 == p;
                        assert(j == j0);
                    }
                }
                assert forall|p: u64| before.contains_key(p) implies #[trigger] self.known().contains_key(p) by {
                    let j0 = choose|j: int| 0 <= j < old(self).entries@.len() && old(self).entries@[j].0 == p;
                    assert(self.entries@[j0].0 == p);
                }
                assert(self.entries@[i as int].0 == path);
                assert(self.known() =~= before.insert(path, digest));
            },
            None => {
                self.entries.push((path, digest));
                let ghost n: int = self.entries@.len() - 1;
                assert(self.entries@[n].0 == path);
                assert forall|p: u64| before.contains_key(p) implies #[trigger] self.known().contains_key(p) by {
                    let j0 = choose|j: int| 0 <= j < old(self).entries@.len() && old(self).entries@[j].0 == p;
                    assert(self.entries@[j0].0 == p);
                }
                assert forall|p: u64| #[trigger] self.known().contains_key(p)
                    implies self.known()[p] == before.insert(path, digest)[p] by {
                    let j = choose|j: int| 0 <= j < self.entries@.len() && self.entries@[j].0 == p;
                    if p != path {
                        let j0 = choose|j: int| 0 <= j < old(self).entries@.len() && old(self).entries@[j].0 == p;
                        assert(self.entries@[j0].0 == p);
                        assert(j == j0);
                    } else {
                        assert(j == n);
                    }
                }
                assert(self.known() =~= before.insert(path, digest));
            },
        }
    }

    /// Forgets the digests of the changed `paths`; every other digest stays.
    pub fn invalidate(&mut self, paths: &Vec<u64>)
        requires
            old(self).wf(),
        ensures
            final(self).wf(),
            final(self).known() == old(self).known().remove_keys(paths@.to_set()),
    {
        let ghost before = self.known();
        let mut kept: Vec<(u64, u64)> = Vec::new();
        let mut i: usize = 0;
        while i < self.entries.len()
            invariant
                self.wf(),
                before == self.known(),
                i <= self.entries@.len(),
                forall|a: int, b: int| 0 <= a < b < kept@.len() ==> kept@[a].0 != kept@[b].0,
                forall|k: int| 0 <= k < kept@.len() ==> exists|e: int|
                    0 <= e < i && self.entries@[e] == #[trigger] kept@[k] && !paths@.contains(kept@[k].0),
                forall|e: int| 0 <= e < i && !paths@.contains(self.entries@[e].0) ==> exists|k: int|
                    0 <= k < kept@.len() && kept@[k] == #[trigger] self.entries@[e],
            decreases self.entries@.len() - i,
        {
            let x = self.entries[i];
            let mut hit = false;
            let mut j: usize = 0;
            while j < paths.len()
                invariant
                    j <= paths@.len(),
                    hit == exists|k: int| 0 <= k < j && paths@[k] == x.0,
                decreases paths@.len() - j,
            {
                if paths[j] == x.0 {
                    hit = true;
                }
                j = j + 1;
            }
            if !hit {
                let ghost k0 = kept@;
                kept.push(x);
                assert forall|a: int, b: int| 0 <= a < b < kept@.len() implies kept@[a].0 != kept@[b].0 by {
                    if b == k0.len() {
                        let e = choose|e: int| 0 <= e < i && self.entries@[e] == #[trigger] k0[a] && !paths@.contains(k0[a].0);
                        assert(self.entries@[e].0 != self.entries@[i as int].0);
                    }
                }
                assert forall|e: int| 0 <= e < i + 1 && !paths@.contains(self.entries@[e].0) implies exists|k: int|
                    0 <= k < kept@.len() && kept@[k] == #[trigger] self.entries@[e] by {
                    if e < i {
                        let k = choose|k: int| 0 <= k < k0.len() && k0[k] == self.entries@[e];
                        assert(kept@[k] == self.entries@[e]);
                    } else {
                        assert(kept@[k0.len() as int] == self.entries@[e]);
                    }
                }
                assert forall|k: int| 0 <= k < kept@.len() implies exists|e: int|
                    0 <= e < i + 1 && self.entries@[e] == #[trigger] kept@[k] && !paths@.contains(kept@[k].0) by {
                    if k < k0.len() {
                        assert(kept@[k] == k0[k]);
                    } else {
                        assert(self.entries@[i as int] == kept@[k]);
                    }
                }
            }
            i = i + 1;
        }
        let ghost old_entries = self.entries@;
        self.entries = kept;
        assert forall|p: u64| #[trigger] self.known().contains_key(p)
            <==> before.remove_keys(paths@.to_set()).contains_key(p) by {
            if self.known().contains_key(p) {
                let k = choose|k: int| 0 <= k < self.entries@.len() && self.entries@[k].0 == p;
                let e = choose|e: int| 0 <= e < old_entries.len() && old_entries[e] == #[trigger] self.entries@[k]
                    && !paths@.contains(self.entries@[k].0);
                assert(old_entries[e].0 == p);
            }
            if before.remove_keys(paths@.to_set()).contains_key(p) {
                let e = choose|e: int| 0 <= e < old_entries.len() && old_entries[e].0 == p;
                let k = choose|k: int| 0 <= k < self.entries@.len() && self.entries@[k] == #[trigger] old_entries[e];
                assert(self.entries@[k].0 == p);
            }
        }
        assert forall|p: u64| #[trigger] self.known().contains_key(p)
            implies self.known()[p] == before[p] by {
            let k = choose|k: int| 0 <= k < self.entries@.len() && self.entries@[k].0 == p;
            let e = choose|e: int| 0 <= e < old_entries.len() && old_entries[e] == #[trigger] self.entries@[k]
                && !paths@.contains(self.entries@[k].0);
            let e0 = choose|e: int| 0 <= e < old_entries.len() && old_entries[e].0 == p;
            assert(e == e0);
        }
        assert(self.known() =~= before.remove_keys(paths@.to_set()));
    }
}

} // verus!
