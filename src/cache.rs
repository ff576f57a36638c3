use vstd::prelude::*;
use crate::bytes::{bytes_equal, copy_bytes};

verus! {

/// What a cache holds for one key: the captured output files (as one
/// archive), the captured process output, and the exit code.
pub struct CacheEntry {
    pub outputs: Vec<u8>,
    pub logs: Vec<u8>,
    pub exit_code: i32,
}

/// The mathematical value of a cache entry.
pub struct EntryView {
    pub outputs: Seq<u8>,
    pub logs: Seq<u8>,
    pub exit_code: i32,
}

impl View for CacheEntry {
    type V = EntryView;

    open spec fn view(&self) -> EntryView {
        EntryView { outputs: self.outputs@, logs: self.logs@, exit_code: self.exit_code }
    }
}

impl CacheEntry {
    /// A copy of this entry.
    pub fn duplicate(&self) -> (r: CacheEntry)
        ensures
            r@ == self@,
    {
        CacheEntry {
            outputs: copy_bytes(&self.outputs),
            logs: copy_bytes(&self.logs),
            exit_code: self.exit_code,
        }
    }
}

/// A content-addressed store of task results, keyed by cache key.
pub struct LocalCache {
    keys: Vec<Vec<u8>>,
    entries: Vec<CacheEntry>,
}

impl LocalCache {
    /// Keys are unique and each has its entry.
    pub closed spec fn wf(&self) -> bool {
        &&& self.keys@.len() == self.entries@.len()
        &&& forall|i: int, j: int|
            0 <= i < j < self.keys@.len() ==> self.keys@[i]@ != self.keys@[j]@
    }

    /// The cache as a map from key to entry.
    pub closed spec fn contents(&self) -> Map<Seq<u8>, EntryView> {
        Map::new(
            |k: Seq<u8>| exists|i: int| 0 <= i < self.keys@.len() && self.keys@[i]@ == k,
            |k: Seq<u8>|
                self.entries@[choose|i: int| 0 <= i < self.keys@.len() && self.keys@[i]@ == k]@,
        )
    }

    /// An empty cache.
    pub fn new() -> (r: LocalCache)
        ensures
            r.wf(),
            r.contents() == Map::<Seq<u8>, EntryView>::empty(),
    {
        let r = LocalCache { keys: Vec::new(), entries: Vec::new() };
        assert(r.contents() =~= Map::<Seq<u8>, EntryView>::empty());
        r
    }

    fn position(&self, key: &Vec<u8>) -> (r: Option<usize>)
        requires
            self.wf(),
        ensures
            match r {
                Some(i) => i < self.keys@.len() && self.keys@[i as int]@ == key@,
                None => forall|i: int| 0 <= i < self.keys@.len() ==> self.keys@[i]@ != key@,
            },
    {
        let mut i: usize = 0;
        while i < self.keys.len()
            invariant
                i <= self.keys@.len(),
                forall|k: int| 0 <= k < i ==> self.keys@[k]@ != key@,
            decreases self.keys@.len() - i,
        {
            if bytes_equal(&self.keys[i], key) {
                return Some(i);
            }
            i = i + 1;
        }
        None
    }

    /// The entry stored under `key`, or `None` on a miss.
    pub fn lookup(&self, key: &Vec<u8>) -> (r: Option<CacheEntry>)
        requires
            self.wf(),
        ensures
            match r {
                Some(e) => self.contents().contains_key(key@) && e@ == self.contents()[key@],
                None => !self.contents().contains_key(key@),
            },
    {
        match self.position(key) {
            Some(i) => {
                let ghost j = choose|j: int| 0 <= j < self.keys@.len() && self.keys@[j]@ == key@;
                assert(j == i);
                Some(self.entries[i].duplicate())
            },
            None => None,
        }
    }

    /// Completes a lookup that missed locally with the remote store's
    /// answer: a remote hit is written to the local store first and then
    /// returned; a remote miss (or an unreachable remote) stays a miss.
    pub fn hydrate(&mut self, key: &Vec<u8>, remote: Option<CacheEntry>) -> (r: Option<CacheEntry>)
        requires
            old(self).wf(),
        ensures
            final(self).wf(),
            match remote {
                Some(e) => final(self).contents() == old(self).contents().insert(key@, e@)
                    && (r matches Some(h) && h@ == e@),
                None => final(self).contents() == old(self).contents() && r is None,
            },
    {
        match remote {
            Some(e) => {
                self.store(key, &e.outputs, &e.logs, e.exit_code);
                Some(e)
            },
            None => None,
        }
    }

    /// Records `outputs`, `logs` and `exit_code` under `key`, replacing what
    /// an earlier run stored there.
    pub fn store(&mut self, key: &Vec<u8>, outputs: &Vec<u8>, logs: &Vec<u8>, exit_code: i32)
        requires
            old(self).wf(),
        ensures
            final(self).wf(),
            final(self).contents() == old(self).contents().insert(
                key@,
                EntryView { outputs: outputs@, logs: logs@, exit_code },
            ),
    {
        let entry = CacheEntry { outputs: copy_bytes(outputs), logs: copy_bytes(logs), exit_code };
        let ghost before = self.contents();
        let ghost ev = entry@;
        match self.position(key) {
            Some(i) => {
                self.entries.set(i, entry);
                assert forall|k: Seq<u8>| #[trigger] self.contents().contains_key(k)
                    implies self.contents()[k] == before.insert(key@, ev)[k] by {
                    let j = choose|j: int| 0 <= j < self.keys@.len() && self.keys@[j]@ == k;
                    if k != key@ {
                        let j0 = choose|j: int| 0 <= j < old(self).keys@.len() && old(self).keys@[j]@ == k;
                        assert(j == j0);
                    }
                }
                assert(self.contents() =~= before.insert(key@, ev));
            },
            None => {
                self.keys.push(copy_bytes(key));
                self.entries.push(entry);
                let ghost n: int = self.keys@.len() - 1;
                assert(self.keys@[n]@ == key@);
                assert forall|k: Seq<u8>| before.contains_key(k)
                    implies #[trigger] self.contents().contains_key(k) by {
                    let j0 = choose|j: int| 0 <= j < old(self).keys@.len() && old(self).keys@[j]@ == k;
                    assert(self.keys@[j0]@ == k);
                }
                assert forall|k: Seq<u8>| #[trigger] self.contents().contains_key(k)
                    implies self.contents()[k] == before.insert(key@, ev)[k] by {
                    let j = choose|j: int| 0 <= j < self.keys@.len() && self.keys@[j]@ == k;
                    if k != key@ {
                        let j0 = choose|j: int| 0 <= j < old(self).keys@.len() && old(self).keys@[j]@ == k;
                        assert(self.keys@[j0]@ == k);
                        assert(j == j0);
                    } else {
                        assert(self.keys@[n]@ == k);
                        assert(j == n);
                    }
                }
                assert(self.contents() =~= before.insert(key@, ev));
            },
        }
    }
}

/// A store followed by a lookup of the same key returns what was stored:
/// the same output bytes, logs and exit code.
pub proof fn lemma_store_then_lookup(
    before: LocalCache,
    after: LocalCache,
    key: Seq<u8>,
    entry: EntryView,
)
    requires
        before.wf(),
        after.contents() == before.contents().insert(key, entry),
    ensures
        after.contents().contains_key(key),
        after.contents()[key] == entry,
{
}

} // verus!
