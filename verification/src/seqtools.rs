//! Small sequence lemmas used by the reconciliation proofs: `without`, the
//! order-preserving removal of a set of values from a sequence, and how it
//! relates to one-at-a-time removals.

use vstd::prelude::*;

verus! {

/// `k` with every element of `ns` removed, keeping the order of the rest.
pub open spec fn without(k: Seq<usize>, ns: Seq<usize>) -> Seq<usize>
    decreases k.len(),
{
    if k.len() == 0 {
        k
    } else {
        let rest = without(k.drop_last(), ns);
        if ns.contains(k.last()) {
            rest
        } else {
            rest.push(k.last())
        }
    }
}

/// A singleton sequence holds exactly its one value.
pub proof fn lemma_singleton_contains(v: usize)
    ensures
        forall|m: usize| #[trigger] seq![v].contains(m) == (m == v),
{
    assert forall|m: usize| #[trigger] seq![v].contains(m) == (m == v) by {
        assert(seq![v][0] == v);
        if seq![v].contains(m) {
            let w = choose|w: int| 0 <= w < seq![v].len() && seq![v][w] == m;
            assert(w == 0);
        }
    }
}

/// `without` distributes over concatenation.
pub proof fn lemma_without_concat(a: Seq<usize>, b: Seq<usize>, ns: Seq<usize>)
    ensures
        without(a + b, ns) == without(a, ns) + without(b, ns),
    decreases b.len(),
{
    if b.len() == 0 {
        assert(a + b =~= a);
        assert(without(a, ns) + without(b, ns) =~= without(a, ns));
    } else {
        lemma_without_concat(a, b.drop_last(), ns);
        assert((a + b).drop_last() =~= a + b.drop_last());
        assert((a + b).last() == b.last());
        if !ns.contains(b.last()) {
            assert(without(a, ns) + without(b.drop_last(), ns).push(b.last()) =~= (without(a, ns)
                + without(b.drop_last(), ns)).push(b.last()));
        }
    }
}

/// Removing values that do not occur changes nothing.
pub proof fn lemma_without_keep(k: Seq<usize>, ns: Seq<usize>)
    requires
        forall|j: int| 0 <= j < k.len() ==> !ns.contains(#[trigger] k[j]),
    ensures
        without(k, ns) == k,
    decreases k.len(),
{
    if k.len() != 0 {
        assert(forall|j: int| 0 <= j < k.drop_last().len() ==> #[trigger] k.drop_last()[j] == k[j]);
        lemma_without_keep(k.drop_last(), ns);
        assert(!ns.contains(k.last())) by {
            assert(k[k.len() - 1] == k.last());
        }
        assert(without(k, ns) =~= k);
    }
}

/// Removing values that cover the whole sequence leaves nothing.
pub proof fn lemma_without_all(k: Seq<usize>, ns: Seq<usize>)
    requires
        forall|j: int| 0 <= j < k.len() ==> ns.contains(#[trigger] k[j]),
    ensures
        without(k, ns) == Seq::<usize>::empty(),
    decreases k.len(),
{
    if k.len() != 0 {
        assert(forall|j: int| 0 <= j < k.drop_last().len() ==> #[trigger] k.drop_last()[j] == k[j]);
        lemma_without_all(k.drop_last(), ns);
        assert(ns.contains(k.last())) by {
            assert(k[k.len() - 1] == k.last());
        }
    }
}

/// What `without` keeps: length can only shrink, membership is membership
/// outside `ns`, and distinctness survives.
pub proof fn lemma_without_props(k: Seq<usize>, ns: Seq<usize>)
    ensures
        without(k, ns).len() <= k.len(),
        forall|m: usize| #[trigger] without(k, ns).contains(m) == (k.contains(m) && !ns.contains(
            m,
        )),
        k.no_duplicates() ==> without(k, ns).no_duplicates(),
    decreases k.len(),
{
    let r = without(k, ns);
    if k.len() == 0 {
        assert forall|m: usize| #[trigger] r.contains(m) == (k.contains(m) && !ns.contains(
            m,
        )) by {
            if k.contains(m) {
                let w = choose|w: int| 0 <= w < k.len() && k[w] == m;
                assert(false);
            }
            if r.contains(m) {
                let w = choose|w: int| 0 <= w < r.len() && r[w] == m;
                assert(false);
            }
        }
    } else {
        let d = k.drop_last();
        let e = k.last();
        lemma_without_props(d, ns);
        assert forall|m: usize| #[trigger] r.contains(m) == (k.contains(m) && !ns.contains(
            m,
        )) by {
            if r.contains(m) {
                let w = choose|w: int| 0 <= w < r.len() && r[w] == m;
                if ns.contains(e) || w < r.len() - 1 {
                    assert(without(d, ns).contains(m));
                    assert(d.contains(m) && !ns.contains(m));
                    let w2 = choose|w2: int| 0 <= w2 < d.len() && d[w2] == m;
                    assert(k[w2] == m);
                    assert(k.contains(m));
                } else {
                    assert(m == e);
                    assert(k[k.len() - 1] == m);
                    assert(k.contains(m));
                }
            }
            if k.contains(m) && !ns.contains(m) {
                let w = choose|w: int| 0 <= w < k.len() && k[w] == m;
                if w < k.len() - 1 {
                    assert(d[w] == m);
                    assert(d.contains(m));
                    assert(without(d, ns).contains(m));
                    let w2 = choose|w2: int|
                        0 <= w2 < without(d, ns).len() && without(d, ns)[w2] == m;
                    if !ns.contains(e) {
                        assert(r[w2] == m);
                    }
                    assert(r.contains(m));
                } else {
                    assert(m == e);
                    assert(!ns.contains(e));
                    assert(r[r.len() - 1] == m);
                    assert(r.contains(m));
                }
            }
        }
        if k.no_duplicates() {
            assert(d.no_duplicates()) by {
                assert(forall|j: int| 0 <= j < d.len() ==> #[trigger] d[j] == k[j]);
            }
            if !ns.contains(e) {
                assert(!without(d, ns).contains(e)) by {
                    if without(d, ns).contains(e) {
                        assert(d.contains(e));
                        let w = choose|w: int| 0 <= w < d.len() && d[w] == e;
                        assert(k[w] == k[k.len() - 1]);
                    }
                }
                assert(r.no_duplicates()) by {
                    let base = without(d, ns);
                    assert(r == base.push(e));
                    assert forall|x: int, y: int| 0 <= x < y < r.len() implies r[x] != r[y] by {
                        if y < r.len() - 1 {
                            assert(r[x] == base[x] && r[y] == base[y]);
                        } else {
                            assert(r[y] == e);
                            assert(r[x] == base[x]);
                            assert(base.contains(base[x]));
                        }
                    }
                }
            }
        }
    }
}

/// On a duplicate-free sequence, removing the single value `v` one at a time
/// equals removing the set `ns` whose only member is `v`.
pub proof fn lemma_without_remove_value(k: Seq<usize>, v: usize, ns: Seq<usize>)
    requires
        k.no_duplicates(),
        forall|m: usize| #[trigger] ns.contains(m) == (m == v),
    ensures
        k.remove_value(v) == without(k, ns),
{
    k.index_of_first_ensures(v);
    if k.contains(v) {
        let i = k.index_of_first(v)->Some_0;
        let a = k.subrange(0, i);
        let b = k.subrange(i + 1, k.len() as int);
        assert(k =~= a + seq![v] + b);
        lemma_without_concat(a + seq![v], b, ns);
        lemma_without_concat(a, seq![v], ns);
        assert(forall|j: int| 0 <= j < a.len() ==> !ns.contains(#[trigger] a[j]));
        lemma_without_keep(a, ns);
        assert(forall|j: int| 0 <= j < b.len() ==> #[trigger] b[j] != v) by {
            assert forall|j: int| 0 <= j < b.len() implies #[trigger] b[j] != v by {
                assert(b[j] == k[i + 1 + j]);
            }
        }
        assert(forall|j: int| 0 <= j < b.len() ==> !ns.contains(#[trigger] b[j]));
        lemma_without_keep(b, ns);
        assert(without(seq![v], ns) =~= Seq::<usize>::empty()) by {
            assert(seq![v].len() == 1);
            assert(seq![v].last() == v);
            assert(seq![v].drop_last() =~= Seq::<usize>::empty());
            assert(without(Seq::<usize>::empty(), ns) == Seq::<usize>::empty());
            assert(ns.contains(v));
        }
        assert(without(k, ns) =~= a + b);
        assert(k.remove_value(v) == k.remove(i));
        assert(k.remove(i) =~= a + b);
    } else {
        assert(forall|j: int| 0 <= j < k.len() ==> !ns.contains(#[trigger] k[j]));
        lemma_without_keep(k, ns);
    }
}

/// Removing `ns1` and then `ns2` is removing their union.
pub proof fn lemma_without_compose(k: Seq<usize>, ns1: Seq<usize>, ns2: Seq<usize>, nsu: Seq<
    usize,
>)
    requires
        forall|m: usize| #[trigger] nsu.contains(m) == (ns1.contains(m) || ns2.contains(m)),
    ensures
        without(without(k, ns1), ns2) == without(k, nsu),
    decreases k.len(),
{
    if k.len() != 0 {
        let d = k.drop_last();
        let e = k.last();
        lemma_without_compose(d, ns1, ns2, nsu);
        if !ns1.contains(e) {
            assert(without(k, ns1) == without(d, ns1).push(e));
            assert(without(d, ns1).push(e).drop_last() =~= without(d, ns1));
            assert(without(d, ns1).push(e).last() == e);
        }
    }
}

/// In a duplicate-free sequence split into three parts, the middle part
/// shares no value with the outer two.
pub proof fn lemma_nodup_split3(pre: Seq<usize>, mid: Seq<usize>, post: Seq<usize>, k: Seq<usize>)
    requires
        k == pre + mid + post,
        k.no_duplicates(),
    ensures
        forall|m: usize| #[trigger] mid.contains(m) ==> !pre.contains(m) && !post.contains(m),
        pre.no_duplicates(),
        mid.no_duplicates(),
        post.no_duplicates(),
{
    assert forall|m: usize| #[trigger] mid.contains(m) implies !pre.contains(m) && !post.contains(
        m,
    ) by {
        let w = choose|w: int| 0 <= w < mid.len() && mid[w] == m;
        assert(k[pre.len() + w] == m);
        if pre.contains(m) {
            let w2 = choose|w2: int| 0 <= w2 < pre.len() && pre[w2] == m;
            assert(k[w2] == m);
        }
        if post.contains(m) {
            let w2 = choose|w2: int| 0 <= w2 < post.len() && post[w2] == m;
            assert(k[pre.len() + mid.len() + w2] == m);
        }
    }
    assert forall|x: int, y: int| 0 <= x < y < pre.len() implies pre[x] != pre[y] by {
        assert(k[x] == pre[x] && k[y] == pre[y]);
    }
    assert forall|x: int, y: int| 0 <= x < y < mid.len() implies mid[x] != mid[y] by {
        assert(k[pre.len() + x] == mid[x] && k[pre.len() + y] == mid[y]);
    }
    assert forall|x: int, y: int| 0 <= x < y < post.len() implies post[x] != post[y] by {
        assert(k[pre.len() + mid.len() + x] == post[x] && k[pre.len() + mid.len() + y] == post[y]);
    }
}

} // verus!
