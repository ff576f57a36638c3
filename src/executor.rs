use vstd::prelude::*;
use crate::cache::{EntryView, LocalCache};
use crate::scheduler::{Outcome, RunState, Status};
use crate::task_graph::TaskGraph;

verus! {

/// Node `v` is never cached: it is persistent or its caching is off.
pub open spec fn never_cached(g: &TaskGraph, v: int) -> bool {
    g.persistent@[v] || !g.cached@[v]
}

/// What the worker does with a node it has just dispatched.
#[derive(Clone, Copy, Debug, PartialEq, Eq, Structural)]
pub enum NodeAction {
    /// The cache held the node's key: restore its outputs; the node is done.
    UseCached,
    /// The cache missed: run the node's command.
    RunCommand,
}

/// Dispatches node `v` under cache key `key`: starts it if it is eligible,
/// then consults the cache before anything runs. A hit ends the node as a
/// cache hit; a miss leaves it running for its command. A node that is
/// persistent or has caching switched off always runs its command.
pub fn dispatch(st: &mut RunState, g: &TaskGraph, cache: &LocalCache, v: usize, key: &Vec<u8>)
    -> (r: Option<NodeAction>)
    requires
        old(st).inv(g),
        cache.wf(),
    ensures
        final(st).inv(g),
        r is None <==> !old(st).eligible(g, v as int),
        r is None ==> final(st).status@ == old(st).status@,
        r == Some(NodeAction::UseCached) ==> !never_cached(g, v as int) && cache.contents().contains_key(key@)
            && final(st).status@ == old(st).status@.update(v as int, Status::CacheHit),
        r == Some(NodeAction::RunCommand) ==> (never_cached(g, v as int) || !cache.contents().contains_key(key@))
            && final(st).status@ == old(st).status@.update(v as int, Status::Running),
        r is Some && never_cached(g, v as int) ==> r == Some(NodeAction::RunCommand),
{
    if !st.start(g, v) {
        return None;
    }
    if g.persistent[v] || !g.cached[v] {
        return Some(NodeAction::RunCommand);
    }
    match cache.lookup(key) {
        Some(_) => {
            st.finish(g, v, Outcome::CacheHit);
            assert(st.status@ =~= old(st).status@.update(v as int, Status::CacheHit));
            Some(NodeAction::UseCached)
        },
        None => Some(NodeAction::RunCommand),
    }
}

/// Records that the command of the running node `v` exited with
/// `exit_code`: on success its outputs and logs are stored under `key`
/// (unless the node is persistent or has caching switched off) and the node
/// succeeds; otherwise the node fails and nothing is stored. Nothing
/// changes if `v` is not running.
pub fn complete(
    st: &mut RunState,
    g: &TaskGraph,
    cache: &mut LocalCache,
    v: usize,
    key: &Vec<u8>,
    outputs: &Vec<u8>,
    logs: &Vec<u8>,
    exit_code: i32,
)
    requires
        old(st).inv(g),
        old(cache).wf(),
    ensures
        final(st).inv(g),
        final(cache).wf(),
        !(v < old(st).status@.len() && old(st).status@[v as int] == Status::Running) ==> final(st).status@
            == old(st).status@ && final(cache).contents() == old(cache).contents(),
        v < old(st).status@.len() && old(st).status@[v as int] == Status::Running && exit_code == 0
            ==> final(st).status@ == old(st).status@.update(v as int, Status::Success)
            && final(cache).contents() == if never_cached(g, v as int) {
                old(cache).contents()
            } else {
                old(cache).contents().insert(key@, EntryView { outputs: outputs@, logs: logs@, exit_code })
            },
        v < old(st).status@.len() && old(st).status@[v as int] == Status::Running && exit_code != 0
            ==> final(st).status@ == old(st).status@.update(v as int, Status::Failed)
            && final(cache).contents() == old(cache).contents(),
{
    if v >= st.status.len() || st.status[v] != Status::Running {
        return;
    }
    if exit_code == 0 {
        if !g.persistent[v] && g.cached[v] {
            cache.store(key, outputs, logs, exit_code);
        }
        st.finish(g, v, Outcome::Success);
    } else {
        st.finish(g, v, Outcome::Failed);
    }
}

} // verus!
