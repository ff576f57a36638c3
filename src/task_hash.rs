use vstd::prelude::*;
use crate::bytes::copy_bytes;
use crate::canonical::{in_key_order, in_name_order, sort_keys, sort_names, views};
use crate::task_graph::TaskGraph;

verus! {

/// Paths strictly increase along `s`.
pub open spec fn sorted_by_path(s: Seq<(u64, u64)>) -> bool {
    forall|i: int, j: int| 0 <= i < j < s.len() ==> s[i].0 < s[j].0
}

/// No path occurs twice in `s`.
pub open spec fn paths_distinct(s: Seq<(u64, u64)>) -> bool {
    forall|i: int, j: int| 0 <= i < j < s.len() ==> s[i].0 != s[j].0
}

/// Whether no path occurs twice in `files`.
pub fn paths_unique(files: &Vec<(u64, u64)>) -> (r: bool)
    ensures
        r == paths_distinct(files@),
{
    let n = files.len();
    let mut i: usize = 0;
    while i < n
        invariant
            n == files@.len(),
            i <= n,
            forall|a: int, b: int| 0 <= a < i && a < b < n ==> files@[a].0 != files@[b].0,
        decreases n - i,
    {
        let mut j: usize = i + 1;
        while j < n
            invariant
                n == files@.len(),
                i < n,
                i + 1 <= j <= n,
                forall|a: int, b: int| 0 <= a < i && a < b < n ==> files@[a].0 != files@[b].0,
                forall|b: int| i < b < j ==> files@[i as int].0 != files@[b].0,
            decreases n - j,
        {
            if files[i].0 == files[j].0 {
                return false;
            }
            j = j + 1;
        }
        i = i + 1;
    }
    true
}

/// The (path, digest) pairs of `set` in path order.
pub open spec fn in_path_order(set: Set<(u64, u64)>) -> Seq<(u64, u64)> {
    choose|s: Seq<(u64, u64)>| sorted_by_path(s) && s.to_set() == set
}

/// Two path-sorted sequences with the same pairs are equal.
proof fn lemma_sorted_unique(a: Seq<(u64, u64)>, b: Seq<(u64, u64)>)
    requires
        sorted_by_path(a),
        sorted_by_path(b),
        a.to_set() == b.to_set(),
    ensures
        a == b,
    decreases a.len(),
{
    if a.len() == 0 {
        if b.len() > 0 {
            assert(a.to_set().contains(b[0]));
        }
        assert(a =~= b);
    } else {
        assert(b.to_set().contains(a[0]));
        assert(b.len() > 0);
        assert(a.to_set().contains(b[0]));
        let k = choose|k: int| 0 <= k < b.len() && b[k] == a[0];
        let m = choose|m: int| 0 <= m < a.len() && a[m] == b[0];
        assert(k == 0 && m == 0) by {
            if k > 0 {
                assert(b[0].0 < b[k].0);
                if m > 0 {
                    assert(a[0].0 < a[m].0);
                }
            }
            if m > 0 {
                assert(a[0].0 < a[m].0);
            }
        }
        let a1 = a.drop_first();
        let b1 = b.drop_first();
        assert forall|x: (u64, u64)| a1.to_set().contains(x) implies b1.to_set().contains(x) by {
            let i = choose|i: int| 0 <= i < a1.len() && a1[i] == x;
            assert(a.to_set().contains(x));
            let j = choose|j: int| 0 <= j < b.len() && b[j] == x;
            assert(a[i + 1] == x);
            assert(a[0].0 < a[i + 1].0);
            assert(j != 0);
            assert(b1[j - 1] == x);
        }
        assert forall|x: (u64, u64)| b1.to_set().contains(x) implies a1.to_set().contains(x) by {
            let i = choose|i: int| 0 <= i < b1.len() && b1[i] == x;
            assert(b.to_set().contains(x));
            let j = choose|j: int| 0 <= j < a.len() && a[j] == x;
            assert(b[i + 1] == x);
            assert(b[0].0 < b[i + 1].0);
            assert(j != 0);
            assert(a1[j - 1] == x);
        }
        assert(a1.to_set() =~= b1.to_set());
        lemma_sorted_unique(a1, b1);
        assert(a =~= b) by {
            assert forall|i: int| 0 <= i < a.len() implies a[i] == b[i] by {
                if i > 0 {
                    assert(a[i] == a1[i - 1]);
                    assert(b[i] == b1[i - 1]);
                }
            }
        }
    }
}

/// The pairs of `files` in path order.
pub fn sort_by_path(files: &Vec<(u64, u64)>) -> (r: Vec<(u64, u64)>)
    requires
        paths_distinct(files@),
    ensures
        sorted_by_path(r@),
        r@.to_set() == files@.to_set(),
        r@ == in_path_order(files@.to_set()),
{
    let mut out: Vec<(u64, u64)> = Vec::new();
    let mut i: usize = 0;
    while i < files.len()
        invariant
            paths_distinct(files@),
            i <= files@.len(),
            sorted_by_path(out@),
            out@.to_set() == files@.subrange(0, i as int).to_set(),
        decreases files@.len() - i,
    {
        let x = files[i];
        let mut p: usize = 0;
        while p < out.len() && out[p].0 < x.0
            invariant
                p <= out@.len(),
                forall|k: int| 0 <= k < p ==> out@[k].0 < x.0,
            decreases out@.len() - p,
        {
            p = p + 1;
        }
        let ghost o0 = out@;
        proof {
            if p < o0.len() {
                assert(o0.to_set().contains(o0[p as int]));
                let s0 = files@.subrange(0, i as int);
                let j = choose|j: int| 0 <= j < i && s0[j] == o0[p as int];
                assert(files@[j] == o0[p as int]);
                assert(files@[j].0 != x.0);
            }
        }
        out.insert(p, x);
        proof {
            let s1 = files@.subrange(0, i + 1);
            let s0 = files@.subrange(0, i as int);
            assert forall|a: int, b: int| 0 <= a < b < out@.len() implies out@[a].0 < out@[b].0 by {
                if a < p && b > p {
                    assert(out@[a] == o0[a]);
                    assert(out@[b] == o0[b - 1]);
                    assert(o0[a].0 < x.0);
                } else if b > p && a > p {
                    assert(out@[a] == o0[a - 1]);
                    assert(out@[b] == o0[b - 1]);
                } else if a == p {
                    assert(out@[b] == o0[b - 1]);
                    if b - 1 > p {
                        assert(o0[p as int].0 < o0[b - 1].0);
                    }
                } else if b == p {
                    assert(out@[a] == o0[a]);
                } else {
                    assert(out@[a] == o0[a]);
                    assert(out@[b] == o0[b]);
                }
            }
            assert forall|y: (u64, u64)| out@.to_set().contains(y) <==> s1.to_set().contains(y) by {
                if out@.to_set().contains(y) {
                    let k = choose|k: int| 0 <= k < out@.len() && out@[k] == y;
                    if k == p {
                        assert(s1[i as int] == y);
                    } else {
                        let k0 = if k < p { k } else { k - 1 };
                        assert(o0[k0] == y);
                        assert(o0.to_set().contains(y));
                        let j = choose|j: int| 0 <= j < i && s0[j] == y;
                        assert(s1[j] == y);
                    }
                }
                if s1.to_set().contains(y) {
                    let j = choose|j: int| 0 <= j < i + 1 && s1[j] == y;
                    if j == i {
                        assert(out@[p as int] == y);
                    } else {
                        assert(s0[j] == y);
                        assert(s0.to_set().contains(y));
                        let k = choose|k: int| 0 <= k < o0.len() && o0[k] == y;
                        if k < p {
                            assert(out@[k] == y);
                        } else {
                            assert(out@[k + 1] == y);
                        }
                    }
                }
            }
            assert(out@.to_set() =~= s1.to_set());
        }
        i = i + 1;
    }
    proof {
        assert(files@.subrange(0, files@.len() as int) =~= files@);
        let c = in_path_order(files@.to_set());
        lemma_sorted_unique(out@, c);
    }
    out
}


/// `x` preceded by its length.
pub open spec fn prefixed(x: Seq<u64>) -> Seq<u64> {
    seq![x.len() as u64] + x
}

/// Each (path, digest) pair as two words, in order.
pub open spec fn file_words(s: Seq<(u64, u64)>) -> Seq<u64>
    decreases s.len(),
{
    if s.len() == 0 {
        Seq::empty()
    } else {
        file_words(s.drop_last()) + seq![s.last().0, s.last().1]
    }
}

/// The value of variable `name` in an environment snapshot: its first entry.
pub open spec fn env_lookup(env: Seq<(u64, u64)>, name: u64) -> Option<u64>
    decreases env.len(),
{
    if env.len() == 0 {
        None
    } else if env[0].0 == name {
        Some(env[0].1)
    } else {
        env_lookup(env.drop_first(), name)
    }
}

/// One declared variable as three words: name, whether it is set, value.
pub open spec fn env_entry(name: u64, value: Option<u64>) -> Seq<u64> {
    match value {
        Some(v) => seq![name, 1u64, v],
        None => seq![name, 0u64, 0u64],
    }
}

/// The declared variables, by name and value, in declaration order.
pub open spec fn env_words(declared: Seq<u64>, env: Seq<(u64, u64)>) -> Seq<u64>
    decreases declared.len(),
{
    if declared.len() == 0 {
        Seq::empty()
    } else {
        env_words(declared.drop_last(), env) + env_entry(declared.last(), env_lookup(env, declared.last()))
    }
}

/// The predecessors' keys, each preceded by its length.
pub open spec fn pred_words(p: Seq<Seq<u64>>) -> Seq<u64>
    decreases p.len(),
{
    if p.len() == 0 {
        Seq::empty()
    } else {
        prefixed(p[0]) + pred_words(p.drop_first())
    }
}

/// The cache key of a task: the run's salt, the task's configuration, its
/// input files in path order, its declared environment, and the keys of
/// its predecessors, each part preceded by its length.
pub open spec fn key_words(
    salt: u64,
    config: Seq<u64>,
    files: Seq<(u64, u64)>,
    declared: Seq<u64>,
    env: Seq<(u64, u64)>,
    preds: Seq<Seq<u64>>,
) -> Seq<u64> {
    seq![salt] + prefixed(config) + prefixed(file_words(files)) + prefixed(env_words(declared, env))
        + seq![preds.len() as u64] + pred_words(preds)
}

proof fn lemma_pred_words_push(p: Seq<Seq<u64>>, x: Seq<u64>)
    ensures
        pred_words(p.push(x)) == pred_words(p) + prefixed(x),
    decreases p.len(),
{
    if p.len() == 0 {
        assert(p.push(x).drop_first() =~= Seq::<Seq<u64>>::empty());
        assert(p.push(x)[0] == x);
        assert(pred_words(Seq::<Seq<u64>>::empty()) == Seq::<u64>::empty());
        assert(pred_words(p.push(x)) =~= prefixed(x) + Seq::<u64>::empty());
        assert(pred_words(p.push(x)) =~= prefixed(x));
    } else {
        assert(p.push(x).drop_first() =~= p.drop_first().push(x));
        lemma_pred_words_push(p.drop_first(), x);
        assert(pred_words(p.push(x)) =~= pred_words(p) + prefixed(x));
    }
}

proof fn lemma_file_words_len(s: Seq<(u64, u64)>)
    ensures
        file_words(s).len() == 2 * s.len(),
    decreases s.len(),
{
    if s.len() > 0 {
        lemma_file_words_len(s.drop_last());
    }
}

proof fn lemma_env_words_len(d: Seq<u64>, e: Seq<(u64, u64)>)
    ensures
        env_words(d, e).len() == 3 * d.len(),
    decreases d.len(),
{
    if d.len() > 0 {
        lemma_env_words_len(d.drop_last(), e);
    }
}

proof fn lemma_split_front(x: Seq<u64>, r1: Seq<u64>, y: Seq<u64>, r2: Seq<u64>)
    requires
        x.len() < 0x1_0000_0000_0000_0000,
        y.len() < 0x1_0000_0000_0000_0000,
        prefixed(x) + r1 == prefixed(y) + r2,
    ensures
        x == y,
        r1 == r2,
{
    let a = prefixed(x) + r1;
    let b = prefixed(y) + r2;
    assert(a[0] == x.len() as u64);
    assert(b[0] == y.len() as u64);
    assert(x =~= a.subrange(1, 1 + x.len() as int));
    assert(y =~= b.subrange(1, 1 + y.len() as int));
    assert(r1 =~= a.subrange(1 + x.len() as int, a.len() as int));
    assert(r2 =~= b.subrange(1 + y.len() as int, b.len() as int));
}

proof fn lemma_file_words_injective(a: Seq<(u64, u64)>, b: Seq<(u64, u64)>)
    requires
        file_words(a) == file_words(b),
    ensures
        a == b,
    decreases a.len(),
{
    lemma_file_words_len(a);
    lemma_file_words_len(b);
    if a.len() > 0 {
        let fa = file_words(a.drop_last());
        let fb = file_words(b.drop_last());
        lemma_file_words_len(a.drop_last());
        lemma_file_words_len(b.drop_last());
        assert(fa =~= file_words(a).subrange(0, fa.len() as int));
        assert(fb =~= file_words(b).subrange(0, fb.len() as int));
        lemma_file_words_injective(a.drop_last(), b.drop_last());
        assert(file_words(a)[fa.len() as int] == a.last().0);
        assert(file_words(b)[fb.len() as int] == b.last().0);
        assert(file_words(a)[fa.len() as int + 1] == a.last().1);
        assert(file_words(b)[fb.len() as int + 1] == b.last().1);
        assert(a =~= a.drop_last().push(a.last()));
        assert(b =~= b.drop_last().push(b.last()));
    } else {
        assert(a =~= b);
    }
}

proof fn lemma_env_words_injective(d1: Seq<u64>, e1: Seq<(u64, u64)>, d2: Seq<u64>, e2: Seq<(u64, u64)>)
    requires
        env_words(d1, e1) == env_words(d2, e2),
    ensures
        d1 == d2,
        forall|i: int| 0 <= i < d1.len() ==> env_lookup(e1, d1[i]) == env_lookup(e2, #[trigger] d1[i]),
    decreases d1.len(),
{
    lemma_env_words_len(d1, e1);
    lemma_env_words_len(d2, e2);
    if d1.len() > 0 {
        let w1 = env_words(d1.drop_last(), e1);
        let w2 = env_words(d2.drop_last(), e2);
        lemma_env_words_len(d1.drop_last(), e1);
        lemma_env_words_len(d2.drop_last(), e2);
        assert(w1 =~= env_words(d1, e1).subrange(0, w1.len() as int));
        assert(w2 =~= env_words(d2, e2).subrange(0, w2.len() as int));
        lemma_env_words_injective(d1.drop_last(), e1, d2.drop_last(), e2);
        let n = w1.len() as int;
        let t1 = env_entry(d1.last(), env_lookup(e1, d1.last()));
        let t2 = env_entry(d2.last(), env_lookup(e2, d2.last()));
        assert(t1 =~= env_words(d1, e1).subrange(n, n + 3));
        assert(t2 =~= env_words(d2, e2).subrange(n, n + 3));
        assert(t1[0] == t2[0]);
        assert(d1 =~= d1.drop_last().push(d1.last()));
        assert(d2 =~= d2.drop_last().push(d2.last()));
        assert(env_lookup(e1, d1.last()) == env_lookup(e2, d1.last())) by {
            assert(t1[1] == t2[1]);
            assert(t1[2] == t2[2]);
        }
        assert forall|i: int| 0 <= i < d1.len() implies env_lookup(e1, d1[i]) == env_lookup(e2, #[trigger] d1[i]) by {
            if i < d1.len() - 1 {
                assert(d1[i] == d1.drop_last()[i]);
            }
        }
    } else {
        assert(d1 =~= d2);
    }
}

proof fn lemma_env_words_declared_only(d: Seq<u64>, e1: Seq<(u64, u64)>, e2: Seq<(u64, u64)>)
    requires
        forall|i: int| 0 <= i < d.len() ==> env_lookup(e1, d[i]) == env_lookup(e2, #[trigger] d[i]),
    ensures
        env_words(d, e1) == env_words(d, e2),
    decreases d.len(),
{
    if d.len() > 0 {
        assert forall|i: int| 0 <= i < d.drop_last().len() implies
            env_lookup(e1, d.drop_last()[i]) == env_lookup(e2, #[trigger] d.drop_last()[i]) by {
            assert(d.drop_last()[i] == d[i]);
        }
        lemma_env_words_declared_only(d.drop_last(), e1, e2);
        assert(d.last() == d[d.len() - 1]);
    }
}

proof fn lemma_pred_words_injective(p: Seq<Seq<u64>>, q: Seq<Seq<u64>>)
    requires
        p.len() == q.len(),
        forall|i: int| 0 <= i < p.len() ==> (#[trigger] p[i]).len() < 0x1_0000_0000_0000_0000,
        forall|i: int| 0 <= i < q.len() ==> (#[trigger] q[i]).len() < 0x1_0000_0000_0000_0000,
        pred_words(p) == pred_words(q),
    ensures
        p == q,
    decreases p.len(),
{
    if p.len() > 0 {
        lemma_split_front(p[0], pred_words(p.drop_first()), q[0], pred_words(q.drop_first()));
        lemma_pred_words_injective(p.drop_first(), q.drop_first());
        assert(p =~= q) by {
            assert forall|i: int| 0 <= i < p.len() implies p[i] == q[i] by {
                if i > 0 {
                    assert(p[i] == p.drop_first()[i - 1]);
                    assert(q[i] == q.drop_first()[i - 1]);
                }
            }
        }
    } else {
        assert(p =~= q);
    }
}


/// A digest's bytes as words, one word per byte.
pub open spec fn widen(d: Seq<u8>) -> Seq<u64> {
    d.map_values(|b: u8| b as u64)
}

/// The predecessors' digests as word sequences.
pub open spec fn keys_view(p: Seq<Vec<u8>>) -> Seq<Seq<u64>> {
    p.map_values(|k: Vec<u8>| widen(k@))
}

/// Each digest as a word sequence.
pub open spec fn widen_all(s: Seq<Seq<u8>>) -> Seq<Seq<u64>> {
    s.map_values(|k: Seq<u8>| widen(k))
}

/// The little-endian bytes of one word.
pub open spec fn word_bytes(x: u64) -> Seq<u8> {
    seq![
        (x % 256) as u8,
        ((x / 0x100) % 256) as u8,
        ((x / 0x1_0000) % 256) as u8,
        ((x / 0x100_0000) % 256) as u8,
        ((x / 0x1_0000_0000) % 256) as u8,
        ((x / 0x100_0000_0000) % 256) as u8,
        ((x / 0x1_0000_0000_0000) % 256) as u8,
        ((x / 0x100_0000_0000_0000) % 256) as u8,
    ]
}

/// The little-endian bytes of each word, in order.
pub open spec fn words_bytes(w: Seq<u64>) -> Seq<u8>
    decreases w.len(),
{
    if w.len() == 0 {
        Seq::empty()
    } else {
        words_bytes(w.drop_last()) + word_bytes(w.last())
    }
}

/// What SHA-256 gives for `b`.
pub uninterp spec fn sha256_of(b: Seq<u8>) -> Seq<u8>;

/// Relies on sha2's `Sha256::digest`: the SHA-256 digest of `b`, which
/// depends on `b` alone and is 32 bytes long.
#[verifier::external_body]
fn sha256(b: &Vec<u8>) -> (r: Vec<u8>)
    ensures
        r@ == sha256_of(b@),
        r@.len() == 32,
{
    <sha2::Sha256 as sha2::Digest>::digest(b.as_slice()).to_vec()
}

/// The cache key of a task: the SHA-256 digest of its input words.
pub open spec fn key_digest(
    salt: u64,
    config: Seq<u64>,
    files: Seq<(u64, u64)>,
    declared: Seq<u64>,
    env: Seq<(u64, u64)>,
    preds: Seq<Seq<u64>>,
) -> Seq<u8> {
    sha256_of(words_bytes(key_words(salt, config, files, declared, env, preds)))
}

/// The little-endian bytes of the words `w`.
pub fn encode_words(w: &Vec<u64>) -> (r: Vec<u8>)
    ensures
        r@ == words_bytes(w@),
{
    let mut r: Vec<u8> = Vec::new();
    let mut i: usize = 0;
    while i < w.len()
        invariant
            i <= w@.len(),
            r@ == words_bytes(w@.subrange(0, i as int)),
        decreases w@.len() - i,
    {
        let x = w[i];
        assert(w@.subrange(0, i + 1).drop_last() =~= w@.subrange(0, i as int));
        r.push((x % 256) as u8);
        r.push(((x / 0x100) % 256) as u8);
        r.push(((x / 0x1_0000) % 256) as u8);
        r.push(((x / 0x100_0000) % 256) as u8);
        r.push(((x / 0x1_0000_0000) % 256) as u8);
        r.push(((x / 0x100_0000_0000) % 256) as u8);
        r.push(((x / 0x1_0000_0000_0000) % 256) as u8);
        r.push(((x / 0x100_0000_0000_0000) % 256) as u8);
        assert(r@ =~= words_bytes(w@.subrange(0, i + 1)));
        i = i + 1;
    }
    assert(w@.subrange(0, w@.len() as int) =~= w@);
    r
}

/// Appends the bytes of `d`, one word each, to `out`.
fn push_widened(out: &mut Vec<u64>, d: &Vec<u8>)
    ensures
        final(out)@ == old(out)@ + widen(d@),
{
    let ghost o0 = out@;
    let mut i: usize = 0;
    while i < d.len()
        invariant
            i <= d@.len(),
            out@ =~= o0 + widen(d@.subrange(0, i as int)),
        decreases d@.len() - i,
    {
        out.push(d[i] as u64);
        i = i + 1;
    }
    assert(d@.subrange(0, d@.len() as int) =~= d@);
}

/// Appends the words of `x` to `out`.
fn push_all(out: &mut Vec<u64>, x: &Vec<u64>)
    ensures
        final(out)@ == old(out)@ + x@,
{
    let ghost o0 = out@;
    let mut i: usize = 0;
    while i < x.len()
        invariant
            i <= x@.len(),
            out@ =~= o0 + x@.subrange(0, i as int),
        decreases x@.len() - i,
    {
        out.push(x[i]);
        i = i + 1;
    }
    assert(x@.subrange(0, x@.len() as int) =~= x@);
}

/// The value of `name` in the environment snapshot `env`.
pub fn lookup_env(env: &Vec<(u64, u64)>, name: u64) -> (r: Option<u64>)
    ensures
        r == env_lookup(env@, name),
{
    let mut i: usize = 0;
    assert(env@.subrange(0, env@.len() as int) =~= env@);
    while i < env.len()
        invariant
            i <= env@.len(),
            env_lookup(env@, name) == env_lookup(env@.subrange(i as int, env@.len() as int), name),
        decreases env@.len() - i,
    {
        let ghost rest = env@.subrange(i as int, env@.len() as int);
        assert(rest.drop_first() =~= env@.subrange(i + 1, env@.len() as int));
        if env[i].0 == name {
            return Some(env[i].1);
        }
        i = i + 1;
    }
    None
}

/// The words that a task's cache key digests: the run's salt (tool
/// version and any forced invalidation), the task's serialized
/// configuration, the digests of its input files keyed by
/// repository-relative path, the variables it declares read from an
/// environment snapshot, and its predecessors' keys. Files enter in path
/// order, declared names in increasing order and each once, predecessor
/// keys in byte order and each once, so the order in which any of them
/// were listed does not matter; undeclared variables do not enter at all.
pub fn task_key_words(
    salt: u64,
    config: &Vec<u64>,
    files: &Vec<(u64, u64)>,
    declared_env: &Vec<u64>,
    env: &Vec<(u64, u64)>,
    predecessor_keys: &Vec<Vec<u8>>,
) -> (r: Vec<u64>)
    requires
        paths_distinct(files@),
    ensures
        sorted_by_path(in_path_order(files@.to_set())),
        in_path_order(files@.to_set()).to_set() == files@.to_set(),
        r@ == key_words(
            salt,
            config@,
            in_path_order(files@.to_set()),
            in_name_order(declared_env@.to_set()),
            env@,
            widen_all(in_key_order(views(predecessor_keys@).to_set())),
        ),
{
    let mut out: Vec<u64> = Vec::new();
    out.push(salt);
    out.push(config.len() as u64);
    push_all(&mut out, config);

    let sorted = sort_by_path(files);
    let mut fw: Vec<u64> = Vec::new();
    let mut i: usize = 0;
    while i < sorted.len()
        invariant
            i <= sorted@.len(),
            fw@ == file_words(sorted@.subrange(0, i as int)),
        decreases sorted@.len() - i,
    {
        assert(sorted@.subrange(0, i + 1).drop_last() =~= sorted@.subrange(0, i as int));
        fw.push(sorted[i].0);
        fw.push(sorted[i].1);
        assert(fw@ =~= file_words(sorted@.subrange(0, i + 1)));
        i = i + 1;
    }
    assert(sorted@.subrange(0, sorted@.len() as int) =~= sorted@);
    out.push(fw.len() as u64);
    push_all(&mut out, &fw);

    let names = sort_names(declared_env);
    let mut ew: Vec<u64> = Vec::new();
    let mut d: usize = 0;
    while d < names.len()
        invariant
            d <= names@.len(),
            ew@ == env_words(names@.subrange(0, d as int), env@),
        decreases names@.len() - d,
    {
        let ghost pre = names@.subrange(0, d + 1);
        assert(pre.drop_last() =~= names@.subrange(0, d as int));
        let name = names[d];
        match lookup_env(env, name) {
            Some(v) => {
                ew.push(name);
                ew.push(1);
                ew.push(v);
            },
            None => {
                ew.push(name);
                ew.push(0);
                ew.push(0);
            },
        }
        assert(ew@ =~= env_words(pre, env@));
        d = d + 1;
    }
    assert(names@.subrange(0, names@.len() as int) =~= names@);
    out.push(ew.len() as u64);
    push_all(&mut out, &ew);

    let sk = sort_keys(predecessor_keys);
    out.push(sk.len() as u64);
    let ghost base = out@;
    let ghost kv = keys_view(sk@);
    let mut p: usize = 0;
    while p < sk.len()
        invariant
            p <= sk@.len(),
            kv == keys_view(sk@),
            out@ == base + pred_words(kv.subrange(0, p as int)),
        decreases sk@.len() - p,
    {
        let k = &sk[p];
        proof {
            lemma_pred_words_push(kv.subrange(0, p as int), kv[p as int]);
            assert(kv.subrange(0, p + 1) =~= kv.subrange(0, p as int).push(kv[p as int]));
        }
        out.push(k.len() as u64);
        push_widened(&mut out, k);
        assert(out@ =~= base + pred_words(kv.subrange(0, p + 1)));
        p = p + 1;
    }
    assert(kv.subrange(0, kv.len() as int) =~= kv);
    assert(kv =~= widen_all(views(sk@)));
    assert(out@ =~= key_words(salt, config@, sorted@, names@, env@, kv));
    out
}

/// The cache key of a task: the SHA-256 digest of its input words, a
/// fixed 32 bytes.
pub fn task_hash(
    salt: u64,
    config: &Vec<u64>,
    files: &Vec<(u64, u64)>,
    declared_env: &Vec<u64>,
    env: &Vec<(u64, u64)>,
    predecessor_keys: &Vec<Vec<u8>>,
) -> (r: Vec<u8>)
    requires
        paths_distinct(files@),
    ensures
        r@.len() == 32,
        r@ == key_digest(
            salt,
            config@,
            in_path_order(files@.to_set()),
            in_name_order(declared_env@.to_set()),
            env@,
            widen_all(in_key_order(views(predecessor_keys@).to_set())),
        ),
{
    let words = task_key_words(salt, config, files, declared_env, env, predecessor_keys);
    sha256(&encode_words(&words))
}

/// Hashing is deterministic: two path-ordered listings of the same input
/// files, with the same salt, configuration, declared environment and
/// predecessor keys, give the same key.
pub proof fn lemma_key_deterministic(
    salt: u64,
    config: Seq<u64>,
    files1: Seq<(u64, u64)>,
    files2: Seq<(u64, u64)>,
    declared: Seq<u64>,
    env: Seq<(u64, u64)>,
    preds: Seq<Seq<u64>>,
)
    requires
        sorted_by_path(files1),
        sorted_by_path(files2),
        files1.to_set() == files2.to_set(),
    ensures
        key_words(salt, config, files1, declared, env, preds)
            == key_words(salt, config, files2, declared, env, preds),
        key_digest(salt, config, files1, declared, env, preds)
            == key_digest(salt, config, files2, declared, env, preds),
{
    lemma_sorted_unique(files1, files2);
}

/// Variables that a task does not declare never reach its key: two
/// environments that agree on the declared variables give the same key.
pub proof fn lemma_key_ignores_undeclared(
    salt: u64,
    config: Seq<u64>,
    files: Seq<(u64, u64)>,
    declared: Seq<u64>,
    env1: Seq<(u64, u64)>,
    env2: Seq<(u64, u64)>,
    preds: Seq<Seq<u64>>,
)
    requires
        forall|i: int| 0 <= i < declared.len() ==> env_lookup(env1, declared[i]) == env_lookup(env2, #[trigger] declared[i]),
    ensures
        key_words(salt, config, files, declared, env1, preds)
            == key_words(salt, config, files, declared, env2, preds),
        key_digest(salt, config, files, declared, env1, preds)
            == key_digest(salt, config, files, declared, env2, preds),
{
    lemma_env_words_declared_only(declared, env1, env2);
}

/// Equal key words come only from equal inputs: the same salt,
/// configuration, input files and digests, declared variables with the
/// same values, and predecessor keys. So changing one input file's digest,
/// one declared variable's value or one predecessor's key changes the words
/// that the cache key digests, and so the key itself unless SHA-256
/// collides.
pub proof fn lemma_key_sensitive(
    salt1: u64,
    config1: Seq<u64>,
    files1: Seq<(u64, u64)>,
    declared1: Seq<u64>,
    env1: Seq<(u64, u64)>,
    preds1: Seq<Seq<u64>>,
    salt2: u64,
    config2: Seq<u64>,
    files2: Seq<(u64, u64)>,
    declared2: Seq<u64>,
    env2: Seq<(u64, u64)>,
    preds2: Seq<Seq<u64>>,
)
    requires
        config1.len() < 0x1_0000_0000_0000_0000,
        config2.len() < 0x1_0000_0000_0000_0000,
        2 * files1.len() < 0x1_0000_0000_0000_0000,
        2 * files2.len() < 0x1_0000_0000_0000_0000,
        3 * declared1.len() < 0x1_0000_0000_0000_0000,
        3 * declared2.len() < 0x1_0000_0000_0000_0000,
        preds1.len() < 0x1_0000_0000_0000_0000,
        preds2.len() < 0x1_0000_0000_0000_0000,
        forall|i: int| 0 <= i < preds1.len() ==> (#[trigger] preds1[i]).len() < 0x1_0000_0000_0000_0000,
        forall|i: int| 0 <= i < preds2.len() ==> (#[trigger] preds2[i]).len() < 0x1_0000_0000_0000_0000,
        key_words(salt1, config1, files1, declared1, env1, preds1)
            == key_words(salt2, config2, files2, declared2, env2, preds2),
    ensures
        salt1 == salt2,
        config1 == config2,
        files1 == files2,
        declared1 == declared2,
        forall|i: int| 0 <= i < declared1.len() ==> env_lookup(env1, declared1[i]) == env_lookup(env2, #[trigger] declared1[i]),
        preds1 == preds2,
{
    let fw1 = file_words(files1);
    let fw2 = file_words(files2);
    let ew1 = env_words(declared1, env1);
    let ew2 = env_words(declared2, env2);
    lemma_file_words_len(files1);
    lemma_file_words_len(files2);
    lemma_env_words_len(declared1, env1);
    lemma_env_words_len(declared2, env2);
    let tail1 = seq![preds1.len() as u64] + pred_words(preds1);
    let tail2 = seq![preds2.len() as u64] + pred_words(preds2);
    let k1 = key_words(salt1, config1, files1, declared1, env1, preds1);
    let k2 = key_words(salt2, config2, files2, declared2, env2, preds2);
    assert(k1 =~= seq![salt1] + (prefixed(config1) + (prefixed(fw1) + (prefixed(ew1) + tail1))));
    assert(k2 =~= seq![salt2] + (prefixed(config2) + (prefixed(fw2) + (prefixed(ew2) + tail2))));
    assert(k1[0] == salt1);
    assert(k2[0] == salt2);
    assert(k1.drop_first() =~= prefixed(config1) + (prefixed(fw1) + (prefixed(ew1) + tail1)));
    assert(k2.drop_first() =~= prefixed(config2) + (prefixed(fw2) + (prefixed(ew2) + tail2)));
    lemma_split_front(config1, prefixed(fw1) + (prefixed(ew1) + tail1), config2, prefixed(fw2) + (prefixed(ew2) + tail2));
    lemma_split_front(fw1, prefixed(ew1) + tail1, fw2, prefixed(ew2) + tail2);
    lemma_split_front(ew1, tail1, ew2, tail2);
    lemma_file_words_injective(files1, files2);
    lemma_env_words_injective(declared1, env1, declared2, env2);
    assert(tail1[0] == tail2[0]);
    assert(tail1.drop_first() =~= pred_words(preds1));
    assert(tail2.drop_first() =~= pred_words(preds2));
    lemma_pred_words_injective(preds1, preds2);
}


/// The inputs of one node that its key reads.
pub struct NodeInputs {
    pub config: Vec<u64>,
    pub files: Vec<(u64, u64)>,
    pub declared_env: Vec<u64>,
}

/// The keys at positions `preds`.
pub open spec fn pred_key_list(keys: Seq<Vec<u8>>, preds: Seq<usize>) -> Seq<Seq<u8>> {
    preds.map_values(|u: usize| keys[u as int]@)
}

/// The keys of every node of `g`, each computed once its predecessors'
/// keys are known, in the graph's topological order.
pub fn hash_graph(g: &TaskGraph, inputs: &Vec<NodeInputs>, salt: u64, env: &Vec<(u64, u64)>)
    -> (r: Vec<Vec<u8>>)
    requires
        g.wf(),
        inputs@.len() == g.nodes@.len(),
        forall|v: int| 0 <= v < inputs@.len() ==> paths_distinct(#[trigger] inputs@[v].files@),
    ensures
        r@.len() == g.nodes@.len(),
        forall|v: int| 0 <= v < r@.len() ==> (#[trigger] r@[v])@ == key_digest(
            salt,
            inputs@[v].config@,
            in_path_order(inputs@[v].files@.to_set()),
            in_name_order(inputs@[v].declared_env@.to_set()),
            env@,
            widen_all(in_key_order(pred_key_list(r@, g.preds@[v]@).to_set())),
        ),
{
    let mut keys: Vec<Vec<u8>> = Vec::new();
    let mut v: usize = 0;
    while v < g.nodes.len()
        invariant
            g.wf(),
            inputs@.len() == g.nodes@.len(),
            forall|v: int| 0 <= v < inputs@.len() ==> paths_distinct(#[trigger] inputs@[v].files@),
            v <= g.nodes@.len(),
            keys@.len() == v,
            forall|w: int| 0 <= w < keys@.len() ==> (#[trigger] keys@[w])@ == key_digest(
                salt,
                inputs@[w].config@,
                in_path_order(inputs@[w].files@.to_set()),
                in_name_order(inputs@[w].declared_env@.to_set()),
                env@,
                widen_all(in_key_order(pred_key_list(keys@, g.preds@[w]@).to_set())),
            ),
        decreases g.nodes@.len() - v,
    {
        let ps = &g.preds[v];
        let mut pk: Vec<Vec<u8>> = Vec::new();
        let mut j: usize = 0;
        while j < ps.len()
            invariant
                g.wf(),
                v < g.preds@.len(),
                ps == g.preds@[v as int],
                keys@.len() == v,
                j <= ps@.len(),
                pk@.len() == j,
                views(pk@) =~= pred_key_list(keys@, ps@.subrange(0, j as int)),
            decreases ps@.len() - j,
        {
            assert(ps@[j as int] < v);
            let c = copy_bytes(&keys[ps[j]]);
            let ghost pk0 = pk@;
            pk.push(c);
            assert forall|i: int| 0 <= i < j + 1 implies views(pk@)[i]
                == pred_key_list(keys@, ps@.subrange(0, j + 1))[i] by {
                if i < j {
                    assert(pk@[i] == pk0[i]);
                    assert(views(pk0)[i] == pred_key_list(keys@, ps@.subrange(0, j as int))[i]);
                }
            }
            assert(views(pk@) =~= pred_key_list(keys@, ps@.subrange(0, j + 1)));
            j = j + 1;
        }
        assert(ps@.subrange(0, ps@.len() as int) =~= ps@);
        let inp = &inputs[v];
        let k = task_hash(salt, &inp.config, &inp.files, &inp.declared_env, env, &pk);
        let ghost keys0 = keys@;
        keys.push(k);
        assert forall|w: int| 0 <= w < keys@.len() implies (#[trigger] keys@[w])@ == key_digest(
            salt,
            inputs@[w].config@,
            in_path_order(inputs@[w].files@.to_set()),
            in_name_order(inputs@[w].declared_env@.to_set()),
            env@,
            widen_all(in_key_order(pred_key_list(keys@, g.preds@[w]@).to_set())),
        ) by {
            assert forall|j: int| 0 <= j < g.preds@[w]@.len() implies #[trigger] g.preds@[w]@[j] < w by {}
            assert(pred_key_list(keys@, g.preds@[w]@) =~= pred_key_list(keys0, g.preds@[w]@));
            if w < v {
                assert(keys@[w] == keys0[w]);
            }
        }
        v = v + 1;
    }
    keys
}

} // verus!
