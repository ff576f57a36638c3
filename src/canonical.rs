use vstd::prelude::*;
use crate::bytes::{bytes_equal, copy_bytes};

verus! {

/// Each item of `s` is below the next under `lt`.
pub open spec fn sorted_by<T>(lt: spec_fn(T, T) -> bool, s: Seq<T>) -> bool {
    forall|i: int, j: int| 0 <= i < j < s.len() ==> lt(s[i], s[j])
}

/// `lt` is a strict total order.
pub open spec fn strict_order<T>(lt: spec_fn(T, T) -> bool) -> bool {
    &&& forall|a: T| !#[trigger] lt(a, a)
    &&& forall|a: T, b: T, c: T| #![trigger lt(a, b), lt(b, c)] lt(a, b) && lt(b, c) ==> lt(a, c)
    &&& forall|a: T, b: T| #![trigger lt(a, b)] #![trigger lt(b, a)] a != b ==> lt(a, b) || lt(b, a)
}

/// Two sequences sorted under a strict order, with the same items, are
/// equal.
pub proof fn lemma_sorted_unique_by<T>(lt: spec_fn(T, T) -> bool, a: Seq<T>, b: Seq<T>)
    requires
        strict_order(lt),
        sorted_by(lt, a),
        sorted_by(lt, b),
        a.to_set() == b.to_set(),
    ensures
        a == b,
    decreases a.len(),
{
    if a.len() == 0 {
        if b.len() > 0 {
            assert(a.to_set().contains(b[0]));
        }
        assert(a =~= b);
    } else {
        assert(b.to_set().contains(a[0]));
        assert(a.to_set().contains(b[0]));
        let k = choose|k: int| 0 <= k < b.len() && b[k] == a[0];
        let m = choose|m: int| 0 <= m < a.len() && a[m] == b[0];
        assert(k == 0 && m == 0) by {
            if k > 0 {
                assert(lt(b[0], b[k]));
                if m > 0 {
                    assert(lt(a[0], a[m]));
                    assert(lt(a[0], b[0]) && lt(b[0], a[0]));
                } else {
                    assert(!lt(a[0], a[0]));
                }
            } else if m > 0 {
                assert(lt(a[0], a[m]));
                assert(!lt(b[0], b[0]));
            }
        }
        let a1 = a.drop_first();
        let b1 = b.drop_first();
        assert forall|x: T| a1.to_set().contains(x) implies b1.to_set().contains(x) by {
            let i = choose|i: int| 0 <= i < a1.len() && a1[i] == x;
            assert(a[i + 1] == x);
            assert(a.to_set().contains(x));
            let j = choose|j: int| 0 <= j < b.len() && b[j] == x;
            assert(lt(a[0], a[i + 1]));
            if j == 0 {
                assert(!lt(a[0], a[0]));
            }
            assert(b1[j - 1] == x);
        }
        assert forall|x: T| b1.to_set().contains(x) implies a1.to_set().contains(x) by {
            let i = choose|i: int| 0 <= i < b1.len() && b1[i] == x;
            assert(b[i + 1] == x);
            assert(b.to_set().contains(x));
            let j = choose|j: int| 0 <= j < a.len() && a[j] == x;
            assert(lt(b[0], b[i + 1]));
            if j == 0 {
                assert(!lt(b[0], b[0]));
            }
            assert(a1[j - 1] == x);
        }
        assert(a1.to_set() =~= b1.to_set());
        lemma_sorted_unique_by(lt, a1, b1);
        assert forall|i: int| 0 <= i < a.len() implies a[i] == b[i] by {
            if i > 0 {
                assert(a[i] == a1[i - 1]);
                assert(b[i] == b1[i - 1]);
            }
        }
        assert(a =~= b);
    }
}

/// Inserting `x` where everything before is below it and everything from
/// there on is above it keeps a sequence sorted, and adds `x` to its items.
proof fn lemma_insert_sorted<T>(lt: spec_fn(T, T) -> bool, o: Seq<T>, p: int, x: T)
    requires
        strict_order(lt),
        sorted_by(lt, o),
        0 <= p <= o.len(),
        forall|k: int| 0 <= k < p ==> lt(#[trigger] o[k], x),
        p < o.len() ==> lt(x, o[p]),
    ensures
        sorted_by(lt, o.insert(p, x)),
        o.insert(p, x).to_set() == o.to_set().insert(x),
{
    let n = o.insert(p, x);
    assert forall|a: int, b: int| 0 <= a < b < n.len() implies lt(n[a], n[b]) by {
        if b < p {
            assert(n[a] == o[a] && n[b] == o[b]);
        } else if b == p {
            assert(n[a] == o[a]);
        } else if a < p {
            assert(n[a] == o[a] && n[b] == o[b - 1]);
            assert(lt(o[a], x) && lt(x, o[p]));
            if b - 1 > p {
                assert(lt(o[p], o[b - 1]));
                assert(lt(o[a], o[p]));
            }
        } else if a == p {
            assert(n[b] == o[b - 1]);
            if b - 1 > p {
                assert(lt(o[p], o[b - 1]));
            }
        } else {
            assert(n[a] == o[a - 1] && n[b] == o[b - 1]);
        }
    }
    assert forall|y: T| n.to_set().contains(y) <==> o.to_set().insert(x).contains(y) by {
        if n.to_set().contains(y) {
            let k = choose|k: int| 0 <= k < n.len() && n[k] == y;
            if k < p {
                assert(o[k] == y);
            } else if k > p {
                assert(o[k - 1] == y);
            }
        }
        if o.to_set().contains(y) {
            let k = choose|k: int| 0 <= k < o.len() && o[k] == y;
            if k < p {
                assert(n[k] == y);
            } else {
                assert(n[k + 1] == y);
            }
        }
        if y == x {
            assert(n[p] == x);
        }
    }
    assert(n.to_set() =~= o.to_set().insert(x));
}

/// Names strictly increase along `s`.
pub open spec fn names_ascending(s: Seq<u64>) -> bool {
    forall|i: int, j: int| 0 <= i < j < s.len() ==> s[i] < s[j]
}

/// The names of `set` in increasing order.
pub open spec fn in_name_order(set: Set<u64>) -> Seq<u64> {
    choose|s: Seq<u64>| names_ascending(s) && s.to_set() == set
}

proof fn lemma_u64_order()
    ensures
        strict_order(|a: u64, b: u64| a < b),
{
}

/// The distinct names of `v` in increasing order.
pub fn sort_names(v: &Vec<u64>) -> (r: Vec<u64>)
    ensures
        names_ascending(r@),
        r@.to_set() == v@.to_set(),
        r@ == in_name_order(v@.to_set()),
{
    let ghost lt = |a: u64, b: u64| a < b;
    proof { lemma_u64_order(); }
    let mut out: Vec<u64> = Vec::new();
    let mut i: usize = 0;
    while i < v.len()
        invariant
            lt == (|a: u64, b: u64| a < b),
            strict_order(lt),
            i <= v@.len(),
            sorted_by(lt, out@),
            out@.to_set() == v@.subrange(0, i as int).to_set(),
        decreases v@.len() - i,
    {
        let x = v[i];
        let mut p: usize = 0;
        while p < out.len() && out[p] < x
            invariant
                lt == (|a: u64, b: u64| a < b),
                p <= out@.len(),
                forall|k: int| 0 <= k < p ==> lt(#[trigger] out@[k], x),
            decreases out@.len() - p,
        {
            p = p + 1;
        }
        let ghost o0 = out@;
        assert(v@.subrange(0, i + 1) =~= v@.subrange(0, i as int).push(x));
        proof { v@.subrange(0, i as int).lemma_push_to_set_commute(x); }
        if p < out.len() && out[p] == x {
            assert(o0.to_set().contains(x));
            assert(out@.to_set() =~= out@.to_set().insert(x));
        } else {
            proof { lemma_insert_sorted(lt, o0, p as int, x); }
            out.insert(p, x);
        }
        i = i + 1;
    }
    proof {
        assert(v@.subrange(0, v@.len() as int) =~= v@);
        let c = in_name_order(v@.to_set());
        assert(names_ascending(out@));
        assert(names_ascending(c) && c.to_set() == v@.to_set());
        assert(sorted_by(lt, c));
        lemma_sorted_unique_by(lt, out@, c);
    }
    out
}

/// `a` comes before `b` in lexicographic byte order.
pub open spec fn lex_lt(a: Seq<u8>, b: Seq<u8>) -> bool
    decreases a.len(),
{
    if a.len() == 0 {
        b.len() > 0
    } else if b.len() == 0 {
        false
    } else if a[0] != b[0] {
        a[0] < b[0]
    } else {
        lex_lt(a.drop_first(), b.drop_first())
    }
}

proof fn lemma_lex_irreflexive(a: Seq<u8>)
    ensures
        !lex_lt(a, a),
    decreases a.len(),
{
    if a.len() > 0 {
        lemma_lex_irreflexive(a.drop_first());
    }
}

proof fn lemma_lex_transitive(a: Seq<u8>, b: Seq<u8>, c: Seq<u8>)
    requires
        lex_lt(a, b),
        lex_lt(b, c),
    ensures
        lex_lt(a, c),
    decreases a.len(),
{
    if a.len() > 0 && b.len() > 0 && c.len() > 0 && a[0] == b[0] && b[0] == c[0] {
        lemma_lex_transitive(a.drop_first(), b.drop_first(), c.drop_first());
    }
}

proof fn lemma_lex_total(a: Seq<u8>, b: Seq<u8>)
    requires
        a != b,
    ensures
        lex_lt(a, b) || lex_lt(b, a),
    decreases a.len(),
{
    if a.len() > 0 && b.len() > 0 && a[0] == b[0] {
        if a.drop_first() == b.drop_first() {
            assert(a =~= seq![a[0]] + a.drop_first());
            assert(b =~= seq![b[0]] + b.drop_first());
        }
        lemma_lex_total(a.drop_first(), b.drop_first());
    } else if a.len() == 0 && b.len() == 0 {
        assert(a =~= b);
    }
}

proof fn lemma_lex_order()
    ensures
        strict_order(|a: Seq<u8>, b: Seq<u8>| lex_lt(a, b)),
{
    assert forall|a: Seq<u8>| !lex_lt(a, a) by {
        lemma_lex_irreflexive(a);
    }
    assert forall|a: Seq<u8>, b: Seq<u8>, c: Seq<u8>| lex_lt(a, b) && lex_lt(b, c) implies lex_lt(a, c) by {
        lemma_lex_transitive(a, b, c);
    }
    assert forall|a: Seq<u8>, b: Seq<u8>| a != b implies lex_lt(a, b) || lex_lt(b, a) by {
        lemma_lex_total(a, b);
    }
}

/// Whether `a` comes before `b` in lexicographic byte order.
pub fn lex_less(a: &Vec<u8>, b: &Vec<u8>) -> (r: bool)
    ensures
        r == lex_lt(a@, b@),
{
    let mut i: usize = 0;
    assert(a@.subrange(0, a@.len() as int) =~= a@);
    assert(b@.subrange(0, b@.len() as int) =~= b@);
    while i < a.len() && i < b.len() && a[i] == b[i]
        invariant
            i <= a@.len(),
            i <= b@.len(),
            lex_lt(a@, b@) == lex_lt(a@.subrange(i as int, a@.len() as int), b@.subrange(i as int, b@.len() as int)),
        decreases a@.len() - i,
    {
        assert(a@.subrange(i as int, a@.len() as int).drop_first() =~= a@.subrange(i + 1, a@.len() as int));
        assert(b@.subrange(i as int, b@.len() as int).drop_first() =~= b@.subrange(i + 1, b@.len() as int));
        i = i + 1;
    }
    if i == a.len() {
        i < b.len()
    } else if i == b.len() {
        false
    } else {
        a[i] < b[i]
    }
}

/// The byte views of `v`.
pub open spec fn views(v: Seq<Vec<u8>>) -> Seq<Seq<u8>> {
    v.map_values(|k: Vec<u8>| k@)
}

/// Keys strictly increase along `s` in lexicographic byte order.
pub open spec fn keys_ascending(s: Seq<Seq<u8>>) -> bool {
    forall|i: int, j: int| 0 <= i < j < s.len() ==> lex_lt(s[i], s[j])
}

/// The keys of `set` in lexicographic byte order.
pub open spec fn in_key_order(set: Set<Seq<u8>>) -> Seq<Seq<u8>> {
    choose|s: Seq<Seq<u8>>| keys_ascending(s) && s.to_set() == set
}

/// The distinct keys of `v` in lexicographic byte order.
pub fn sort_keys(v: &Vec<Vec<u8>>) -> (r: Vec<Vec<u8>>)
    ensures
        keys_ascending(views(r@)),
        views(r@).to_set() == views(v@).to_set(),
        views(r@) == in_key_order(views(v@).to_set()),
{
    let ghost lt = |a: Seq<u8>, b: Seq<u8>| lex_lt(a, b);
    proof { lemma_lex_order(); }
    let mut out: Vec<Vec<u8>> = Vec::new();
    let mut i: usize = 0;
    while i < v.len()
        invariant
            lt == (|a: Seq<u8>, b: Seq<u8>| lex_lt(a, b)),
            strict_order(lt),
            i <= v@.len(),
            sorted_by(lt, views(out@)),
            views(out@).to_set() == views(v@).subrange(0, i as int).to_set(),
        decreases v@.len() - i,
    {
        let x = &v[i];
        let mut p: usize = 0;
        while p < out.len() && lex_less(&out[p], x)
            invariant
                lt == (|a: Seq<u8>, b: Seq<u8>| lex_lt(a, b)),
                p <= out@.len(),
                forall|k: int| 0 <= k < p ==> lt(#[trigger] views(out@)[k], x@),
            decreases out@.len() - p,
        {
            p = p + 1;
        }
        let ghost o0 = views(out@);
        assert(views(v@).subrange(0, i + 1) =~= views(v@).subrange(0, i as int).push(x@));
        proof { views(v@).subrange(0, i as int).lemma_push_to_set_commute(x@); }
        if p < out.len() && bytes_equal(&out[p], x) {
            assert(o0[p as int] == x@);
            assert(o0.to_set().contains(x@));
            assert(o0.to_set() =~= o0.to_set().insert(x@));
        } else {
            proof {
                if p < o0.len() {
                    assert(o0[p as int] != x@);
                    assert(!lt(o0[p as int], x@));
                }
                lemma_insert_sorted(lt, o0, p as int, x@);
            }
            let c = copy_bytes(x);
            out.insert(p, c);
            assert(views(out@) =~= o0.insert(p as int, x@));
        }
        i = i + 1;
    }
    proof {
        assert(views(v@).subrange(0, v@.len() as int) =~= views(v@));
        let c = in_key_order(views(v@).to_set());
        assert(keys_ascending(views(out@)));
        assert(keys_ascending(c) && c.to_set() == views(v@).to_set());
        assert(sorted_by(lt, c));
        lemma_sorted_unique_by(lt, views(out@), c);
    }
    out
}

} // verus!
