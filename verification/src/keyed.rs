//! The keyed list view: an ordered sequence of (key, value) pairs, each
//! independently reconciled.  The diff reuses, moves, builds, or tears down
//! each keyed entry while preserving the final sibling order, and never
//! rebuilds an entry solely because its position changed.
//!
//! Keys are plain integers: an identity the verifier can compare; richer
//! key types map onto them.

use crate::anchor::{Anchor, BeforeAnchor};
use crate::scene::{kids, node_inv, par, pos_of, scene_inv, NodeModel, Scene};
use crate::seqtools::{
    lemma_nodup_split3, lemma_singleton_contains, lemma_without_compose, lemma_without_keep,
    lemma_without_props, lemma_without_remove_value, without,
};
use crate::view::{
    content_node_ok, entry_similar, lemma_block_placed, lemma_placed_parts, lemma_releases_target,
    lemma_similar_trans, lemma_without_mid, owns, placed, releases, run_start, same_but,
    same_but_release, View,
};
use vstd::prelude::*;
use vstd::view::View as _;

verus! {

/// State of a built keyed list: a sentinel anchor plus the (key, inner
/// state) pairs in the currently rendered order.
pub struct VecViewState<InnerState> {
    pub anchor: BeforeAnchor,
    pub inner_state: Vec<(u64, InnerState)>,
}

/// The keys of a value sequence, in order.
pub open spec fn vkeys<T: View>(vs: Seq<(u64, T)>) -> Seq<u64> {
    vs.map_values(|e: (u64, T)| e.0)
}

/// The keys of an entry sequence, in order.
pub open spec fn ekeys<T: View>(es: Seq<(u64, T::State)>) -> Seq<u64> {
    es.map_values(|e: (u64, T::State)| e.0)
}

/// The concatenated content nodes of a value sequence.
pub open spec fn flat_content<T: View>(vs: Seq<(u64, T)>) -> Seq<usize>
    decreases vs.len(),
{
    if vs.len() == 0 {
        Seq::empty()
    } else {
        flat_content::<T>(vs.drop_last()) + vs.last().1.content()
    }
}

/// The concatenated footprints of an entry sequence, in order.
pub open spec fn flat_nodes<T: View>(es: Seq<(u64, T::State)>) -> Seq<usize>
    decreases es.len(),
{
    if es.len() == 0 {
        Seq::empty()
    } else {
        flat_nodes::<T>(es.drop_last()) + T::nodes(&es.last().1)
    }
}

/// The concatenated footprints of an entry sequence in reporting order.
pub open spec fn flat_collected<T: View>(es: Seq<(u64, T::State)>) -> Seq<usize>
    decreases es.len(),
{
    if es.len() == 0 {
        Seq::empty()
    } else {
        flat_collected::<T>(es.drop_last()) + T::collected(&es.last().1)
    }
}

/// One drained entry: its key, and — until consumed — its state together
/// with its collected footprint.
pub open spec fn slot_nodes<T: View>(e: (u64, Option<(T::State, Vec<usize>)>)) -> Seq<usize> {
    match e.1 {
        Some(x) => T::nodes(&x.0),
        None => Seq::empty(),
    }
}

/// The concatenated footprints of the unconsumed drained entries, in order.
pub open spec fn pool_flat<T: View>(pl: Seq<(u64, Option<(T::State, Vec<usize>)>)>) -> Seq<usize>
    decreases pl.len(),
{
    if pl.len() == 0 {
        Seq::empty()
    } else {
        pool_flat::<T>(pl.drop_last()) + slot_nodes::<T>(pl.last())
    }
}

/// No element of `a` occurs in `b`.
pub open spec fn apart(a: Seq<usize>, b: Seq<usize>) -> bool {
    forall|w: int| 0 <= w < a.len() ==> !b.contains(#[trigger] a[w])
}

/// The reconciliation precondition of one new pair against the old entries:
/// it must not claim the list's sentinel, and it must be fit to rebuild its
/// keyed entry (when the key is reused) or to build fresh (when it is new).
pub open spec fn pair_pre<T: View>(
    vs: Seq<(u64, T)>,
    es: Seq<(u64, T::State)>,
    s: Seq<NodeModel>,
    sent: usize,
    j: int,
) -> bool {
    let v = vs[j].1;
    &&& !v.content().contains(sent)
    &&& if ekeys::<T>(es).contains(vs[j].0) {
        v.rebuild_pre(&es[ekeys::<T>(es).index_of_first(vs[j].0)->Some_0].1, s)
    } else {
        v.val_inv(s)
    }
}

proof fn lemma_flat_nodes_split<T: View>(es: Seq<(u64, T::State)>, j: int)
    requires
        0 <= j < es.len(),
    ensures
        flat_nodes::<T>(es) == flat_nodes::<T>(es.take(j)) + T::nodes(&es[j].1) + flat_nodes::<T>(
            es.skip(j + 1),
        ),
    decreases es.len(),
{
    if j == es.len() - 1 {
        assert(es.take(j) =~= es.drop_last());
        assert(flat_nodes::<T>(es.skip(j + 1)) =~= Seq::<usize>::empty()) by {
            assert(es.skip(j + 1) =~= Seq::<(u64, T::State)>::empty());
        }
        assert(flat_nodes::<T>(es) =~= flat_nodes::<T>(es.take(j)) + T::nodes(&es[j].1)
            + flat_nodes::<T>(es.skip(j + 1)));
    } else {
        let d = es.drop_last();
        lemma_flat_nodes_split::<T>(d, j);
        assert(d.take(j) =~= es.take(j));
        assert(d[j] == es[j]);
        assert(es.skip(j + 1).drop_last() =~= d.skip(j + 1));
        assert(es.skip(j + 1).last() == es.last());
        assert(flat_nodes::<T>(es.skip(j + 1)) == flat_nodes::<T>(d.skip(j + 1)) + T::nodes(
            &es.last().1,
        ));
        assert(flat_nodes::<T>(es) =~= flat_nodes::<T>(es.take(j)) + T::nodes(&es[j].1)
            + flat_nodes::<T>(es.skip(j + 1)));
    }
}

pub proof fn lemma_flat_collected_split<T: View>(es: Seq<(u64, T::State)>, j: int)
    requires
        0 <= j < es.len(),
    ensures
        flat_collected::<T>(es) == flat_collected::<T>(es.take(j)) + T::collected(&es[j].1)
            + flat_collected::<T>(es.skip(j + 1)),
    decreases es.len(),
{
    if j == es.len() - 1 {
        assert(es.take(j) =~= es.drop_last());
        assert(flat_collected::<T>(es.skip(j + 1)) =~= Seq::<usize>::empty()) by {
            assert(es.skip(j + 1) =~= Seq::<(u64, T::State)>::empty());
        }
        assert(flat_collected::<T>(es) =~= flat_collected::<T>(es.take(j)) + T::collected(
            &es[j].1,
        ) + flat_collected::<T>(es.skip(j + 1)));
    } else {
        let d = es.drop_last();
        lemma_flat_collected_split::<T>(d, j);
        assert(d.take(j) =~= es.take(j));
        assert(d[j] == es[j]);
        assert(es.skip(j + 1).drop_last() =~= d.skip(j + 1));
        assert(es.skip(j + 1).last() == es.last());
        assert(flat_collected::<T>(es.skip(j + 1)) == flat_collected::<T>(d.skip(j + 1))
            + T::collected(&es.last().1));
        assert(flat_collected::<T>(es) =~= flat_collected::<T>(es.take(j)) + T::collected(
            &es[j].1,
        ) + flat_collected::<T>(es.skip(j + 1)));
    }
}

/// The reporting-order flattening holds the same nodes as the sibling-order
/// one: each entry's report is a permutation of its run.
proof fn lemma_flat_collected_sim<T: View>(es: Seq<(u64, T::State)>, s: Seq<NodeModel>)
    requires
        scene_inv(s),
        forall|j: int| 0 <= j < es.len() ==> T::state_inv(&(#[trigger] es[j]).1, s),
    ensures
        flat_collected::<T>(es).len() == flat_nodes::<T>(es).len(),
        forall|m: usize|
            #[trigger] flat_collected::<T>(es).contains(m) == flat_nodes::<T>(es).contains(m),
    decreases es.len(),
{
    if es.len() == 0 {
        assert forall|m: usize| #[trigger] flat_collected::<T>(es).contains(m) == flat_nodes::<
            T,
        >(es).contains(m) by {
            if flat_collected::<T>(es).contains(m) {
                let w = choose|w: int|
                    0 <= w < flat_collected::<T>(es).len() && flat_collected::<T>(es)[w] == m;
            }
            if flat_nodes::<T>(es).contains(m) {
                let w = choose|w: int|
                    0 <= w < flat_nodes::<T>(es).len() && flat_nodes::<T>(es)[w] == m;
            }
        }
    } else {
        let d = es.drop_last();
        assert(forall|j: int| 0 <= j < d.len() ==> #[trigger] d[j] == es[j]);
        lemma_flat_collected_sim::<T>(d, s);
        assert(es[es.len() - 1] == es.last());
        assert(T::state_inv(&es.last().1, s));
        T::lemma_state_inv(&es.last().1, s);
        let fcd = flat_collected::<T>(d);
        let fnd = flat_nodes::<T>(d);
        let tc = T::collected(&es.last().1);
        let tn = T::nodes(&es.last().1);
        assert forall|m: usize| #[trigger] flat_collected::<T>(es).contains(m) == flat_nodes::<
            T,
        >(es).contains(m) by {
            assert(flat_collected::<T>(es) == fcd + tc);
            assert(flat_nodes::<T>(es) == fnd + tn);
            if (fcd + tc).contains(m) {
                let w = choose|w: int| 0 <= w < (fcd + tc).len() && (fcd + tc)[w] == m;
                if w < fcd.len() {
                    assert(fcd[w] == m);
                    assert(fcd.contains(m));
                    assert(fnd.contains(m));
                    let w2 = choose|w2: int| 0 <= w2 < fnd.len() && fnd[w2] == m;
                    assert((fnd + tn)[w2] == m);
                } else {
                    assert(tc[w - fcd.len()] == m);
                    assert(tc.contains(m));
                    assert(tn.contains(m));
                    let w2 = choose|w2: int| 0 <= w2 < tn.len() && tn[w2] == m;
                    assert((fnd + tn)[fnd.len() + w2] == m);
                }
            }
            if (fnd + tn).contains(m) {
                let w = choose|w: int| 0 <= w < (fnd + tn).len() && (fnd + tn)[w] == m;
                if w < fnd.len() {
                    assert(fnd[w] == m);
                    assert(fnd.contains(m));
                    assert(fcd.contains(m));
                    let w2 = choose|w2: int| 0 <= w2 < fcd.len() && fcd[w2] == m;
                    assert((fcd + tc)[w2] == m);
                } else {
                    assert(tn[w - fnd.len()] == m);
                    assert(tn.contains(m));
                    assert(tc.contains(m));
                    let w2 = choose|w2: int| 0 <= w2 < tc.len() && tc[w2] == m;
                    assert((fcd + tc)[fcd.len() + w2] == m);
                }
            }
        }
    }
}

proof fn lemma_flat_nodes_take_succ<T: View>(es: Seq<(u64, T::State)>, j: int)
    requires
        0 <= j < es.len(),
    ensures
        flat_nodes::<T>(es.take(j + 1)) == flat_nodes::<T>(es.take(j)) + T::nodes(&es[j].1),
{
    assert(es.take(j + 1).drop_last() =~= es.take(j));
    assert(es.take(j + 1).last() == es[j]);
}

proof fn lemma_flat_content_split<T: View>(vs: Seq<(u64, T)>, j: int)
    requires
        0 <= j < vs.len(),
    ensures
        flat_content::<T>(vs) == flat_content::<T>(vs.take(j)) + vs[j].1.content()
            + flat_content::<T>(vs.skip(j + 1)),
    decreases vs.len(),
{
    if j == vs.len() - 1 {
        assert(vs.take(j) =~= vs.drop_last());
        assert(flat_content::<T>(vs.skip(j + 1)) =~= Seq::<usize>::empty()) by {
            assert(vs.skip(j + 1) =~= Seq::<(u64, T)>::empty());
        }
        assert(flat_content::<T>(vs) =~= flat_content::<T>(vs.take(j)) + vs[j].1.content()
            + flat_content::<T>(vs.skip(j + 1)));
    } else {
        let d = vs.drop_last();
        lemma_flat_content_split::<T>(d, j);
        assert(d.take(j) =~= vs.take(j));
        assert(d[j] == vs[j]);
        assert(vs.skip(j + 1).drop_last() =~= d.skip(j + 1));
        assert(vs.skip(j + 1).last() == vs.last());
        assert(flat_content::<T>(vs.skip(j + 1)) == flat_content::<T>(d.skip(j + 1))
            + vs.last().1.content());
        assert(flat_content::<T>(vs) =~= flat_content::<T>(vs.take(j)) + vs[j].1.content()
            + flat_content::<T>(vs.skip(j + 1)));
    }
}

proof fn lemma_pool_flat_split<T: View>(pl: Seq<(u64, Option<(T::State, Vec<usize>)>)>, j: int)
    requires
        0 <= j < pl.len(),
    ensures
        pool_flat::<T>(pl) == pool_flat::<T>(pl.take(j)) + slot_nodes::<T>(pl[j])
            + pool_flat::<T>(pl.skip(j + 1)),
    decreases pl.len(),
{
    if j == pl.len() - 1 {
        assert(pl.take(j) =~= pl.drop_last());
        assert(pool_flat::<T>(pl.skip(j + 1)) =~= Seq::<usize>::empty()) by {
            assert(pl.skip(j + 1) =~= Seq::<(u64, Option<(T::State, Vec<usize>)>)>::empty());
        }
        assert(pool_flat::<T>(pl) =~= pool_flat::<T>(pl.take(j)) + slot_nodes::<T>(pl[j])
            + pool_flat::<T>(pl.skip(j + 1)));
    } else {
        let d = pl.drop_last();
        lemma_pool_flat_split::<T>(d, j);
        assert(d.take(j) =~= pl.take(j));
        assert(d[j] == pl[j]);
        assert(pl.skip(j + 1).drop_last() =~= d.skip(j + 1));
        assert(pl.skip(j + 1).last() == pl.last());
        assert(pool_flat::<T>(pl.skip(j + 1)) == pool_flat::<T>(d.skip(j + 1)) + slot_nodes::<T>(
            pl.last(),
        ));
        assert(pool_flat::<T>(pl) =~= pool_flat::<T>(pl.take(j)) + slot_nodes::<T>(pl[j])
            + pool_flat::<T>(pl.skip(j + 1)));
    }
}

proof fn lemma_pool_flat_all_consumed<T: View>(pl: Seq<(u64, Option<(T::State, Vec<usize>)>)>)
    requires
        forall|i: int| 0 <= i < pl.len() ==> (#[trigger] pl[i]).1 is None,
    ensures
        pool_flat::<T>(pl) == Seq::<usize>::empty(),
    decreases pl.len(),
{
    if pl.len() != 0 {
        assert(forall|i: int|
            0 <= i < pl.drop_last().len() ==> #[trigger] pl.drop_last()[i] == pl[i]);
        lemma_pool_flat_all_consumed::<T>(pl.drop_last());
        assert(pl[pl.len() - 1].1 is None);
        assert(slot_nodes::<T>(pl.last()) =~= Seq::<usize>::empty());
        assert(pool_flat::<T>(pl) =~= Seq::<usize>::empty());
    }
}

/// Membership in the concatenated footprints comes from one entry.
proof fn lemma_flat_nodes_contains<T: View>(es: Seq<(u64, T::State)>, m: usize)
    ensures
        flat_nodes::<T>(es).contains(m) <==> exists|j: int|
            0 <= j < es.len() && T::nodes(&(#[trigger] es[j]).1).contains(m),
    decreases es.len(),
{
    if es.len() == 0 {
    } else {
        let d = es.drop_last();
        lemma_flat_nodes_contains::<T>(d, m);
        let fl = flat_nodes::<T>(es);
        let fd = flat_nodes::<T>(d);
        let ln = T::nodes(&es.last().1);
        if fl.contains(m) {
            let w = choose|w: int| 0 <= w < fl.len() && fl[w] == m;
            if w < fd.len() {
                assert(fd[w] == m);
                assert(fd.contains(m));
                let j = choose|j: int| 0 <= j < d.len() && T::nodes(&(#[trigger] d[j]).1).contains(m);
                assert(es[j] == d[j]);
                assert(T::nodes(&es[j].1).contains(m));
            } else {
                assert(ln[w - fd.len()] == m);
                assert(ln.contains(m));
                assert(T::nodes(&es[es.len() - 1].1).contains(m));
            }
        }
        if exists|j: int| 0 <= j < es.len() && T::nodes(&(#[trigger] es[j]).1).contains(m) {
            let j = choose|j: int| 0 <= j < es.len() && T::nodes(&(#[trigger] es[j]).1).contains(m);
            let w = choose|w: int|
                0 <= w < T::nodes(&es[j].1).len() && T::nodes(&es[j].1)[w] == m;
            if j < es.len() - 1 {
                assert(d[j] == es[j]);
                assert(fd.contains(m));
                let w2 = choose|w2: int| 0 <= w2 < fd.len() && fd[w2] == m;
                assert(fl[w2] == m);
            } else {
                assert(ln[w] == m);
                assert(fl[fd.len() + w] == m);
            }
            assert(fl.contains(m));
        }
    }
}

/// Membership in the concatenated contents comes from one value.
proof fn lemma_flat_content_contains<T: View>(vs: Seq<(u64, T)>, m: usize)
    ensures
        flat_content::<T>(vs).contains(m) <==> exists|j: int|
            0 <= j < vs.len() && (#[trigger] vs[j]).1.content().contains(m),
    decreases vs.len(),
{
    if vs.len() == 0 {
    } else {
        let d = vs.drop_last();
        lemma_flat_content_contains::<T>(d, m);
        let fl = flat_content::<T>(vs);
        let fd = flat_content::<T>(d);
        let ln = vs.last().1.content();
        if fl.contains(m) {
            let w = choose|w: int| 0 <= w < fl.len() && fl[w] == m;
            if w < fd.len() {
                assert(fd[w] == m);
                assert(fd.contains(m));
                let j = choose|j: int| 0 <= j < d.len() && (#[trigger] d[j]).1.content().contains(m);
                assert(vs[j] == d[j]);
            } else {
                assert(ln[w - fd.len()] == m);
                assert(ln.contains(m));
                assert(vs[vs.len() - 1].1.content().contains(m));
            }
        }
        if exists|j: int| 0 <= j < vs.len() && (#[trigger] vs[j]).1.content().contains(m) {
            let j = choose|j: int| 0 <= j < vs.len() && (#[trigger] vs[j]).1.content().contains(m);
            let w = choose|w: int|
                0 <= w < vs[j].1.content().len() && vs[j].1.content()[w] == m;
            if j < vs.len() - 1 {
                assert(d[j] == vs[j]);
                assert(fd.contains(m));
                let w2 = choose|w2: int| 0 <= w2 < fd.len() && fd[w2] == m;
                assert(fl[w2] == m);
            } else {
                assert(ln[w] == m);
                assert(fl[fd.len() + w] == m);
            }
            assert(fl.contains(m));
        }
    }
}

/// Moving the sole occurrence of `n` from behind `bv` to the front of `bv`
/// shifts `bv` one place to the right.
proof fn lemma_move_into_place(av: Seq<usize>, bv: Seq<usize>, n: usize, cv: Seq<usize>, k: Seq<
    usize,
>)
    requires
        k == av + bv + seq![n] + cv,
        k.no_duplicates(),
    ensures
        k.index_of_first(n) == Some(av.len() + bv.len() as int),
        k.remove(av.len() + bv.len() as int).insert(av.len() as int, n) == av + seq![n] + bv + cv,
{
    let pos = av.len() + bv.len() as int;
    assert(k[pos] == n);
    assert(k.contains(n));
    k.index_of_first_ensures(n);
    assert forall|j: int| 0 <= j < pos implies k[j] != n by {
        if k[j] == n {
            assert(k[j] == k[pos]);
        }
    }
    assert(k.index_of_first(n) == Some(pos));
    assert(k.remove(pos).insert(av.len() as int, n) =~= av + seq![n] + bv + cv) by {
        k.remove_ensures(pos);
        k.remove(pos).insert_ensures(av.len() as int, n);
    }
}

/// A state's footprint entries are untouched, so the state carries over.
proof fn keep_state<T: View>(st: &T::State, sa: Seq<NodeModel>, sb: Seq<NodeModel>)
    requires
        scene_inv(sa),
        scene_inv(sb),
        T::state_inv(st, sa),
        sa.len() <= sb.len(),
        forall|w: int|
            0 <= w < T::nodes(st).len() ==> sb[#[trigger] T::nodes(st)[w] as int] == sa[T::nodes(
                st,
            )[w] as int],
    ensures
        T::state_inv(st, sb),
        par(sb, T::top(st)) == par(sa, T::top(st)),
{
    T::lemma_state_inv(st, sa);
    T::lemma_state_frame(st, sa, sb);
    assert(T::nodes(st)[T::nodes(st).len() - 1] == T::top(st));
    assert(sb[T::top(st) as int] == sa[T::top(st) as int]);
}


/// The invariant of the reconciliation walk: after `jn` of the new pairs
/// have been handled, the reconciled entries sit first, the unconsumed
/// drained entries follow, and the sentinel still closes the run.
pub open spec fn walk_inv<T: View>(
    s: Seq<NodeModel>,
    s0: Seq<NodeModel>,
    vs: Seq<(u64, T)>,
    es0: Seq<(u64, T::State)>,
    pl: Seq<(u64, Option<(T::State, Vec<usize>)>)>,
    st: VecViewState<T::State>,
    p: usize,
    k0: Seq<usize>,
    i0: int,
    jn: int,
    noop: bool,
) -> bool {
    let sent = st.anchor.node;
    let fl0 = flat_nodes::<T>(es0);
    let ns0 = fl0 + seq![sent];
    let done = st.inner_state@;
    &&& scene_inv(s)
    &&& scene_inv(s0)
    &&& s0.len() <= s.len()
    &&& (p as int) < s0.len()
    &&& (sent as int) < s0.len()
    &&& s[sent as int] == s0[sent as int]
    &&& s0[sent as int].parent == Some(p)
    &&& s0[sent as int].children.len() == 0
    &&& s0[sent as int].alive
    &&& ns0.no_duplicates()
    &&& owns(s0, p, ns0)
    &&& vkeys::<T>(vs).no_duplicates()
    &&& flat_content::<T>(vs).no_duplicates()
    &&& ekeys::<T>(es0).no_duplicates()
    &&& 0 <= i0
    &&& i0 + ns0.len() <= k0.len()
    &&& k0 == kids(s0, p)
    &&& 0 <= jn <= vs.len()
    &&& pl.len() == es0.len()
    &&& forall|i: int| 0 <= i < es0.len() ==> (#[trigger] pl[i]).0 == es0[i].0
    &&& forall|i: int|
        0 <= i < es0.len() ==> ((#[trigger] pl[i]).1 is Some <==> !vkeys::<T>(vs).take(
            jn,
        ).contains(es0[i].0))
    &&& forall|i: int|
        0 <= i < es0.len() && (#[trigger] pl[i]).1 is Some ==> pl[i].1->Some_0.0 == es0[i].1
            && pl[i].1->Some_0.1@ == T::nodes(&es0[i].1)
    &&& forall|i: int|
        0 <= i < es0.len() && (#[trigger] pl[i]).1 is Some ==> T::state_inv(&es0[i].1, s) && par(
            s,
            T::top(&es0[i].1),
        ) == p
    &&& st.anchor.anchor_inv(s)
    &&& done.len() == jn
    &&& forall|d: int|
        0 <= d < jn ==> (#[trigger] done[d]).0 == vs[d].0 && T::represents(&done[d].1, &vs[d].1)
    &&& forall|d: int|
        0 <= d < jn ==> T::state_inv(&(#[trigger] done[d]).1, s) && par(s, T::top(&done[d].1))
            == p
    &&& kids(s, p) == k0.take(i0) + flat_nodes::<T>(done) + pool_flat::<T>(pl) + seq![sent]
        + k0.skip(i0 + ns0.len() as int)
    &&& forall|m: usize|
        #[trigger] st.anchor.anchored@.contains(m) == ((exists|d: int|
            0 <= d < jn && T::top(&(#[trigger] done[d]).1) == m) || (exists|i: int|
            0 <= i < es0.len() && (#[trigger] pl[i]).1 is Some && T::top(&es0[i].1) == m))
    &&& forall|w: int|
        0 <= w < flat_nodes::<T>(done).len() ==> ns0.contains(
            #[trigger] flat_nodes::<T>(done)[w],
        ) || flat_content::<T>(vs).contains(flat_nodes::<T>(done)[w]) || (flat_nodes::<T>(done)[w]
            as int) >= s0.len()
    &&& forall|d: int, w: int|
        #![trigger vs[d].1.content()[w]]
        0 <= d < jn && 0 <= w < vs[d].1.content().len() ==> flat_nodes::<T>(done).contains(
            vs[d].1.content()[w],
        )
    &&& forall|i: int|
        0 <= i < s0.len() && i != p as int && !(flat_nodes::<T>(es0) + seq![
            st.anchor.node,
        ]).contains(i as usize) && !flat_content::<T>(vs).contains(i as usize) && !releases(
            flat_content::<T>(vs),
            s0,
            i,
        ) ==> #[trigger] s[i] == s0[i]
    &&& forall|j: usize|
        (j as int) < s0.len() && j != p && !(flat_nodes::<T>(es0) + seq![
            st.anchor.node,
        ]).contains(j) && !flat_content::<T>(vs).contains(j) ==> #[trigger] entry_similar(s0, s, j)
    &&& forall|j: int, k: int|
        #![trigger vs[j].1.content()[k]]
        0 <= j < vs.len() && 0 <= k < vs[j].1.content().len() ==> ((vs[j].1.content()[k]) as int)
            < s0.len()
    &&& forall|j: int, k: int|
        #![trigger vs[j].1.content()[k]]
        jn <= j < vs.len() && 0 <= k < vs[j].1.content().len() && ((vs[j].1.content()[k]) as int)
            < s0.len() ==> entry_similar(s0, s, vs[j].1.content()[k])
    &&& s[p as int].alive == s0[p as int].alive
    &&& s[p as int].parent == s0[p as int].parent
    &&& forall|j: int| jn <= j < vs.len() ==> pair_pre::<T>(vs, es0, s, sent, j)
    &&& forall|j: int, i: int|
        #![trigger vs[j], es0[i]]
        0 <= j < vs.len() && 0 <= i < es0.len() && vs[j].0 != es0[i].0 ==> apart(
            vs[j].1.content(),
            T::nodes(&es0[i].1),
        )
    &&& forall|d: int|
        0 <= d < jn && ekeys::<T>(es0).contains(vs[d].0) && T::represents(
            &es0[ekeys::<T>(es0).index_of_first(vs[d].0)->Some_0].1,
            &vs[d].1,
        ) ==> T::nodes(&(#[trigger] done[d]).1) == T::nodes(
            &es0[ekeys::<T>(es0).index_of_first(vs[d].0)->Some_0].1,
        )
    &&& forall|d: int|
        0 <= d < jn && ekeys::<T>(es0).contains(vs[d].0) ==> T::top(&(#[trigger] done[d]).1)
            == T::top(&es0[ekeys::<T>(es0).index_of_first(vs[d].0)->Some_0].1)
    &&& noop ==> es0.len() == vs.len()
    &&& noop ==> forall|d: int|
        0 <= d < es0.len() ==> (#[trigger] es0[d]).0 == vs[d].0 && T::represents(
            &es0[d].1,
            &vs[d].1,
        )
    &&& noop ==> (forall|i: int| 0 <= i < s0.len() && s0[i].alive ==> #[trigger] s[i].alive)
    &&& noop ==> flat_nodes::<T>(done) == flat_nodes::<T>(es0.take(jn))
}


/// Handles one reused key of the walk: moves the drained entry's footprint
/// to the cursor and reconciles it in place.
#[verifier::rlimit(100)]
fn reuse_entry<T: View>(
    sg: &mut Scene,
    state: &mut VecViewState<T::State>,
    pool: &mut Vec<(u64, Option<(T::State, Vec<usize>)>)>,
    v: &T,
    key: u64,
    found: usize,
    cursor0: usize,
    pv: usize,
    Ghost(s0): Ghost<Seq<NodeModel>>,
    Ghost(vs): Ghost<Seq<(u64, T)>>,
    Ghost(es0): Ghost<Seq<(u64, T::State)>>,
    Ghost(k0): Ghost<Seq<usize>>,
    Ghost(i0): Ghost<int>,
    Ghost(jn): Ghost<int>,
    Ghost(noop): Ghost<bool>,
) -> (cur: usize)
    requires
        walk_inv::<T>(old(sg)@, s0, vs, es0, old(pool)@, *old(state), pv, k0, i0, jn, noop),
        0 <= jn < vs.len(),
        vs[jn].0 == key,
        vs[jn].1 == *v,
        cursor0 as int == i0 + flat_nodes::<T>(old(state).inner_state@).len(),
        (found as int) < es0.len(),
        old(pool)@[found as int].0 == key,
        ekeys::<T>(es0).index_of_first(key) == Some(found as int),
        ekeys::<T>(es0).contains(key),
    ensures
        walk_inv::<T>(final(sg)@, s0, vs, es0, final(pool)@, *final(state), pv, k0, i0, jn + 1, noop),
        cur as int == i0 + flat_nodes::<T>(final(state).inner_state@).len(),
        final(state).anchor.node == old(state).anchor.node,
{
    let ghost sa = sg@;
    let ghost st_a = *state;
    let ghost done0 = state.inner_state@;
    let ghost pool0 = pool@;
    let ghost sent = state.anchor.node;
    let ghost p = pv;
    let ghost fl0 = flat_nodes::<T>(es0);
    let ghost ns0 = fl0 + seq![sent];
    let ghost av = k0.take(i0) + flat_nodes::<T>(done0);
    let ghost post = k0.skip(i0 + ns0.len() as int);
    let ghost jn1 = jn + 1;
    let mut cursor = cursor0;
    let plen = pool.len();
                // reuse: move the entry's footprint to the cursor, then
                // reconcile it in place
                let ghost ei = found as int;
                proof {
                    // the slot is still unconsumed: the new keys are distinct
                    assert(pool0[ei].1 is Some) by {
                        if vkeys::<T>(vs).take(jn).contains(es0[ei].0) {
                            let d = choose|d: int|
                                0 <= d < jn && #[trigger] vkeys::<T>(vs).take(jn)[d]
                                    == es0[ei].0;
                            assert(vkeys::<T>(vs)[d] == key);
                            assert(vkeys::<T>(vs)[jn] == key);
                        }
                    }
                }
                let entry = pool.remove(found);
                let kk = entry.0;
                let slotopt = entry.1;
                pool.insert(found, (kk, None));
                let taken = slotopt.unwrap();
                let mut ist = taken.0;
                let nodesv = taken.1;
                let ghost est = es0[ei].1;
                let ghost blk = T::nodes(&est);
                let ghost pa = pool_flat::<T>(pool0.take(ei));
                let ghost pb = pool_flat::<T>(pool0.skip(ei + 1));
                proof {
                    assert(ist == est);
                    assert(nodesv@ == blk);
                    lemma_pool_flat_split::<T>(pool0, ei);
                    assert(slot_nodes::<T>(pool0[ei]) == blk);
                    assert(pool@ =~= pool0.update(ei, (kk, None))) by {
                        assert(pool0.remove(ei).insert(ei, (kk, None)) =~= pool0.update(
                            ei,
                            (kk, None),
                        ));
                    }
                    lemma_pool_flat_split::<T>(pool@, ei);
                    assert(pool@.take(ei) =~= pool0.take(ei));
                    assert(pool@.skip(ei + 1) =~= pool0.skip(ei + 1));
                    assert(slot_nodes::<T>(pool@[ei]) =~= Seq::<usize>::empty());
                    assert(pool_flat::<T>(pool@) =~= pa + pb);
                    assert(kids(sa, p) =~= av + pa + blk + (pb + seq![sent] + post)) by {
                        assert(pool_flat::<T>(pool0) == pa + blk + pb);
                    }
                    assert(T::state_inv(&ist, sa));
                    T::lemma_state_inv(&ist, sa);
                }
                let start = cursor;
                cursor = slide_block(
                    sg,
                    &nodesv,
                    cursor,
                    pv,
                    Ghost(pa),
                    Ghost(pb + seq![sent] + post),
                    Ghost(av),
                );
                let ghost sb = sg@;
                proof {
                    assert(kids(sb, p) == av + blk + pa + (pb + seq![sent] + post));
                    // the moved entry is whole and placed at the cursor
                    keep_state::<T>(&ist, sa, sb);
                    assert(par(sb, T::top(&ist)) == p);
                    assert(kids(sb, p) =~= av + blk + (pa + pb + seq![sent] + post));
                    lemma_block_placed(sb, p, blk, av, pa + pb + seq![sent] + post);
                    // it is still fit to rebuild
                    assert(pair_pre::<T>(vs, es0, sa, sent, jn));
                    assert(vs[jn].1.rebuild_pre(&est, sa));
                    assert forall|w: int|
                        0 <= w < T::nodes(&est).len() implies sb[#[trigger] T::nodes(&est)[w] as int]
                        == sa[T::nodes(&est)[w] as int] by {
                        T::lemma_state_inv(&est, sa);
                        assert(T::nodes(&est).contains(T::nodes(&est)[w]));
                        assert(T::nodes(&est)[w] != p);
                    }
                    assert forall|w: int|
                        0 <= w < vs[jn].1.content().len() && (vs[jn].1.content()[w] as int)
                            < sa.len() implies entry_similar(
                        sa,
                        sb,
                        #[trigger] vs[jn].1.content()[w],
                    ) by {
                        let c = vs[jn].1.content()[w];
                        if c == p {
                            assert(sb[p as int].alive == sa[p as int].alive && sb[p as int].parent
                                == sa[p as int].parent);
                            assert(kids(sb, p).len() == kids(sa, p).len());
                        } else {
                            assert(sb[c as int] == sa[c as int]);
                        }
                    }
                    vs[jn].1.lemma_rebuild_pre_frame(&est, sa, sb);
                    assert(vs[jn].1.rebuild_pre(&ist, sb));
                }
                v.rebuild(sg, &mut ist);
                let ghost sc = sg@;
                let ghost blk2 = T::nodes(&ist);
                proof {
                    // the rebuilt footprint replaced the old one in place
                    assert(run_start(sb, p, blk) == av.len());
                    assert(kids(sc, p) == kids(sb, p).take(av.len() as int) + blk2 + kids(
                        sb,
                        p,
                    ).skip(av.len() + blk.len() as int));
                    assert(kids(sb, p).take(av.len() as int) =~= av);
                    assert(kids(sb, p).skip(av.len() + blk.len() as int) =~= pa + pb + seq![sent]
                        + post);
                    assert(kids(sc, p) =~= av + blk2 + pa + pb + seq![sent] + post);
                }
                let mut newv: Vec<usize> = Vec::new();
                T::collect_run(&ist, &mut newv);
                let kl2 = sg.child_count(pv);
                proof {
                    assert(newv@ == blk2);
                    assert(kids(sc, p).len() == kl2 as int);
                    assert(start as int + newv@.len() <= kl2 as int) by {
                        assert(start as int == av.len());
                    }
                }
                cursor = start + newv.len();
                state.inner_state.push((key, ist));
            proof {
                let scn_ = sg@;
                assert(st_a.inner_state@ == done0);
                assert(state.inner_state@ =~= done0.push((key, ist)));
                assert(kids(sb, p) == (k0.take(i0) + flat_nodes::<T>(st_a.inner_state@))
                    + T::nodes(&es0[ei].1) + (pool_flat::<T>(pool0.take(ei)) + pool_flat::<T>(
                    pool0.skip(ei + 1),
                ) + seq![st_a.anchor.node] + k0.skip(
                    i0 + (flat_nodes::<T>(es0) + seq![st_a.anchor.node]).len() as int,
                ))) by {
                    assert(kids(sb, p) =~= av + blk + (pa + pb + seq![sent] + post));
                }
                assert(kids(scn_, p) == (k0.take(i0) + flat_nodes::<T>(st_a.inner_state@))
                    + T::nodes(&ist) + (pool_flat::<T>(pool0.take(ei)) + pool_flat::<T>(
                    pool0.skip(ei + 1),
                ) + seq![st_a.anchor.node] + k0.skip(
                    i0 + (flat_nodes::<T>(es0) + seq![st_a.anchor.node]).len() as int,
                ))) by {
                    assert(kids(scn_, p) =~= av + blk2 + (pa + pb + seq![sent] + post));
                }
                lemma_restore_reused::<T>(
                    s0,
                    sa,
                    sb,
                    scn_,
                    vs,
                    es0,
                    pool0,
                    st_a,
                    *state,
                    p,
                    k0,
                    i0,
                    jn,
                    noop,
                    ist,
                    pool@,
                    ei,
                );
                assert(flat_nodes::<T>(state.inner_state@) == flat_nodes::<T>(done0) + blk2) by {
                    assert(state.inner_state@.drop_last() =~= done0);
                }
            }
    cursor
}


/// Handles one new key of the walk: builds the entry at the end of the run
/// and moves its footprint to the cursor.
#[verifier::rlimit(100)]
fn build_entry<T: View>(
    sg: &mut Scene,
    state: &mut VecViewState<T::State>,
    pool: &Vec<(u64, Option<(T::State, Vec<usize>)>)>,
    v: &T,
    key: u64,
    cursor0: usize,
    pv: usize,
    Ghost(s0): Ghost<Seq<NodeModel>>,
    Ghost(vs): Ghost<Seq<(u64, T)>>,
    Ghost(es0): Ghost<Seq<(u64, T::State)>>,
    Ghost(k0): Ghost<Seq<usize>>,
    Ghost(i0): Ghost<int>,
    Ghost(jn): Ghost<int>,
    Ghost(noop): Ghost<bool>,
) -> (cur: usize)
    requires
        walk_inv::<T>(old(sg)@, s0, vs, es0, pool@, *old(state), pv, k0, i0, jn, noop),
        0 <= jn < vs.len(),
        vs[jn].0 == key,
        vs[jn].1 == *v,
        cursor0 as int == i0 + flat_nodes::<T>(old(state).inner_state@).len(),
        !ekeys::<T>(es0).contains(key),
    ensures
        walk_inv::<T>(final(sg)@, s0, vs, es0, pool@, *final(state), pv, k0, i0, jn + 1, noop),
        cur as int == i0 + flat_nodes::<T>(final(state).inner_state@).len(),
        final(state).anchor.node == old(state).anchor.node,
{
    let ghost sa = sg@;
    let ghost st_a = *state;
    let ghost done0 = state.inner_state@;
    let ghost pool0 = pool@;
    let ghost sent = state.anchor.node;
    let ghost p = pv;
    let ghost fl0 = flat_nodes::<T>(es0);
    let ghost ns0 = fl0 + seq![sent];
    let ghost av = k0.take(i0) + flat_nodes::<T>(done0);
    let ghost post = k0.skip(i0 + ns0.len() as int);
    let ghost jn1 = jn + 1;
    let mut cursor = cursor0;
                // a new key: build it at the end of the run, then move it to
                // the cursor
                proof {
                    assert(pair_pre::<T>(vs, es0, sa, sent, jn));
                    assert(vs[jn].1.val_inv(sa));
                    vs[jn].1.lemma_val_inv(sa);
                    assert(state.anchor.target(sa) == p);
                    assert(kids(sa, p).no_duplicates()) by {
                        assert(node_inv(sa, p as int));
                    }
                    assert(kids(sa, p) =~= av + (pool_flat::<T>(pool0) + seq![sent]) + post);
                    lemma_block_placed(
                        sa,
                        p,
                        pool_flat::<T>(pool0) + seq![sent],
                        av,
                        post,
                    );
                    assert(pos_of(sa, p, sent) == av.len() + pool_flat::<T>(pool0).len()) by {
                        assert((pool_flat::<T>(pool0) + seq![sent]).last() == sent);
                        assert(kids(sa, p) =~= av + (pool_flat::<T>(pool0) + seq![sent]) + post);
                    }
                    assert forall|w: int|
                        0 <= w < vs[jn].1.content().len() implies #[trigger] vs[jn].1.content()[w]
                        != state.anchor.target(sa) by {
                        let c = vs[jn].1.content()[w];
                        assert(content_node_ok(sa, c));
                        if c == p {
                            assert(kids(sa, p).contains(sent)) by {
                                assert(node_inv(sa, sent as int));
                            }
                            assert(kids(sa, p).len() == 0);
                        }
                    }
                }
                let ist = v.build(sg, &mut state.anchor);
    proof {
        let sb_ = sg@;
        assert(kids(sb_, p) == kids(sa, p).take(pos_of(sa, p, sent)) + T::nodes(&ist) + kids(
            sa,
            p,
        ).skip(pos_of(sa, p, sent)));
        assert(kids(sa, p).take(pos_of(sa, p, sent)) =~= av + pool_flat::<T>(pool0));
        assert(kids(sa, p).skip(pos_of(sa, p, sent)) =~= seq![sent] + post);
        assert(kids(sb_, p) =~= (k0.take(i0) + flat_nodes::<T>(st_a.inner_state@)) + pool_flat::<
            T,
        >(pool@) + T::nodes(&ist) + (seq![sent] + k0.skip(
            i0 + (flat_nodes::<T>(es0) + seq![st_a.anchor.node]).len() as int,
        )));
    }
    let cur2 = finish_built::<T>(
        sg,
        state,
        pool,
        key,
        ist,
        cursor0,
        pv,
        Ghost(s0),
        Ghost(vs),
        Ghost(es0),
        Ghost(k0),
        Ghost(i0),
        Ghost(jn),
        Ghost(noop),
        Ghost(sa),
        Ghost(st_a),
    );
    cur2
}

/// Places a freshly built entry: slides its footprint to the cursor and
/// restores the walk invariant.
#[verifier::rlimit(100)]
fn finish_built<T: View>(
    sg: &mut Scene,
    state: &mut VecViewState<T::State>,
    pool: &Vec<(u64, Option<(T::State, Vec<usize>)>)>,
    key: u64,
    ist: T::State,
    cursor0: usize,
    pv: usize,
    Ghost(s0): Ghost<Seq<NodeModel>>,
    Ghost(vs): Ghost<Seq<(u64, T)>>,
    Ghost(es0): Ghost<Seq<(u64, T::State)>>,
    Ghost(k0): Ghost<Seq<usize>>,
    Ghost(i0): Ghost<int>,
    Ghost(jn): Ghost<int>,
    Ghost(noop): Ghost<bool>,
    Ghost(sa): Ghost<Seq<NodeModel>>,
    Ghost(st_a): Ghost<VecViewState<T::State>>,
) -> (cur: usize)
    requires
        walk_inv::<T>(sa, s0, vs, es0, pool@, st_a, pv, k0, i0, jn, noop),
        0 <= jn < vs.len(),
        vs[jn].0 == key,
        !ekeys::<T>(es0).contains(key),
        cursor0 as int == i0 + flat_nodes::<T>(st_a.inner_state@).len(),
        old(state).inner_state@ == st_a.inner_state@,
        old(state).anchor.node == st_a.anchor.node,
        old(state).anchor.anchor_inv(old(sg)@),
        forall|m: usize|
            #[trigger] old(state).anchor.tracks(m) == (st_a.anchor.tracks(m) || m == T::top(
                &ist,
            )),
        scene_inv(old(sg)@),
        sa.len() <= old(sg)@.len(),
        same_but(sa, old(sg)@, pv, T::nodes(&ist)),
        T::state_inv(&ist, old(sg)@),
        T::represents(&ist, &vs[jn].1),
        par(old(sg)@, T::top(&ist)) == pv,
        (T::top(&ist) as int) >= sa.len(),
        forall|k: int|
            0 <= k < T::nodes(&ist).len() ==> vs[jn].1.content().contains(
                #[trigger] T::nodes(&ist)[k],
            ) || (T::nodes(&ist)[k] as int) >= sa.len(),
        forall|k: int|
            0 <= k < vs[jn].1.content().len() ==> T::nodes(&ist).contains(
                #[trigger] vs[jn].1.content()[k],
            ),
        kids(old(sg)@, pv) == (k0.take(i0) + flat_nodes::<T>(st_a.inner_state@)) + pool_flat::<T>(
            pool@,
        ) + T::nodes(&ist) + (seq![st_a.anchor.node] + k0.skip(
            i0 + (flat_nodes::<T>(es0) + seq![st_a.anchor.node]).len() as int,
        )),
    ensures
        walk_inv::<T>(final(sg)@, s0, vs, es0, pool@, *final(state), pv, k0, i0, jn + 1, noop),
        cur as int == i0 + flat_nodes::<T>(final(state).inner_state@).len(),
        final(state).anchor.node == old(state).anchor.node,
{
    let ghost sb = sg@;
    let ghost done0 = st_a.inner_state@;
    let ghost pool0 = pool@;
    let ghost sent = st_a.anchor.node;
    let ghost p = pv;
    let ghost fl0 = flat_nodes::<T>(es0);
    let ghost ns0 = fl0 + seq![sent];
    let ghost av = k0.take(i0) + flat_nodes::<T>(done0);
    let ghost post = k0.skip(i0 + ns0.len() as int);
    let mut cursor = cursor0;
                let ghost blk = T::nodes(&ist);
                proof {
                    assert(kids(sb, p) =~= av + pool_flat::<T>(pool0) + blk + (seq![sent] + post));
                }
                let mut nodesv: Vec<usize> = Vec::new();
                T::collect_run(&ist, &mut nodesv);
                let start = cursor;
                cursor = slide_block(
                    sg,
                    &nodesv,
                    cursor,
                    pv,
                    Ghost(pool_flat::<T>(pool0)),
                    Ghost(seq![sent] + post),
                    Ghost(av),
                );
                let ghost sc = sg@;
                proof {
                    assert(kids(sc, p) == av + blk + pool_flat::<T>(pool0) + (seq![sent] + post));
                }
                state.inner_state.push((key, ist));
            proof {
                let scn_ = sg@;
                assert(st_a.inner_state@ == done0);
                assert(state.inner_state@ =~= done0.push((key, ist)));
                assert(kids(scn_, p) == (k0.take(i0) + flat_nodes::<T>(st_a.inner_state@))
                    + T::nodes(&ist) + (pool_flat::<T>(pool0) + seq![st_a.anchor.node] + k0.skip(
                    i0 + (flat_nodes::<T>(es0) + seq![st_a.anchor.node]).len() as int,
                ))) by {
                    assert(kids(scn_, p) =~= av + blk + pool_flat::<T>(pool0) + (seq![sent]
                        + post));
                }
                lemma_restore_built::<T>(
                    s0,
                    sa,
                    sb,
                    scn_,
                    vs,
                    es0,
                    pool0,
                    st_a,
                    *state,
                    p,
                    k0,
                    i0,
                    jn,
                    noop,
                    ist,
                );
                assert(flat_nodes::<T>(state.inner_state@) == flat_nodes::<T>(done0) + blk) by {
                    assert(state.inner_state@.drop_last() =~= done0);
                }
            }
    cursor
}


/// Re-establishes the walk invariant after one reused key: the entry's old
/// footprint was slid to the cursor (`sa` to `sb`) and then reconciled in
/// place (`sb` to `scn`).
#[verifier::rlimit(100)]
proof fn lemma_restore_reused<T: View>(
    s0: Seq<NodeModel>,
    sa: Seq<NodeModel>,
    sb: Seq<NodeModel>,
    scn: Seq<NodeModel>,
    vs: Seq<(u64, T)>,
    es0: Seq<(u64, T::State)>,
    pool0: Seq<(u64, Option<(T::State, Vec<usize>)>)>,
    sta: VecViewState<T::State>,
    stb: VecViewState<T::State>,
    p: usize,
    k0: Seq<usize>,
    i0: int,
    jn: int,
    noop: bool,
    ist: T::State,
    pool1: Seq<(u64, Option<(T::State, Vec<usize>)>)>,
    ei: int,
)
    requires
        walk_inv::<T>(sa, s0, vs, es0, pool0, sta, p, k0, i0, jn, noop),
        0 <= jn < vs.len(),
        0 <= ei < es0.len(),
        ekeys::<T>(es0).index_of_first(vs[jn].0) == Some(ei),
        pool0[ei].1 is Some,
        pool1.len() == pool0.len(),
        forall|i: int| 0 <= i < pool0.len() && i != ei ==> pool1[i] == #[trigger] pool0[i],
        pool1[ei].0 == pool0[ei].0,
        pool1[ei].1 is None,
        stb.anchor == sta.anchor,
        stb.inner_state@ == sta.inner_state@.push((vs[jn].0, ist)),
        sb.len() == sa.len(),
        forall|i: int| 0 <= i < sa.len() && i != p as int ==> #[trigger] sb[i] == sa[i],
        sb[p as int].alive == sa[p as int].alive,
        sb[p as int].parent == sa[p as int].parent,
        scene_inv(sb),
        kids(sb, p) == (k0.take(i0) + flat_nodes::<T>(sta.inner_state@)) + T::nodes(&es0[ei].1) + (
        pool_flat::<T>(pool0.take(ei)) + pool_flat::<T>(pool0.skip(ei + 1)) + seq![
            sta.anchor.node,
        ] + k0.skip(i0 + (flat_nodes::<T>(es0) + seq![sta.anchor.node]).len() as int)),
        scene_inv(scn),
        sb.len() <= scn.len(),
        T::state_inv(&ist, scn),
        T::represents(&ist, &vs[jn].1),
        T::top(&ist) == T::top(&es0[ei].1),
        par(scn, T::top(&es0[ei].1)) == p,
        kids(scn, p) == (k0.take(i0) + flat_nodes::<T>(sta.inner_state@)) + T::nodes(&ist) + (
        pool_flat::<T>(pool0.take(ei)) + pool_flat::<T>(pool0.skip(ei + 1)) + seq![
            sta.anchor.node,
        ] + k0.skip(i0 + (flat_nodes::<T>(es0) + seq![sta.anchor.node]).len() as int)),
        same_but_release(sb, scn, p, T::nodes(&es0[ei].1) + T::nodes(&ist), vs[jn].1.content()),
        forall|k: int|
            0 <= k < T::nodes(&ist).len() ==> T::nodes(&es0[ei].1).contains(
                #[trigger] T::nodes(&ist)[k],
            ) || vs[jn].1.content().contains(T::nodes(&ist)[k]) || (T::nodes(&ist)[k] as int)
                >= sb.len(),
        forall|k: int|
            0 <= k < vs[jn].1.content().len() ==> T::nodes(&ist).contains(
                #[trigger] vs[jn].1.content()[k],
            ),
        T::represents(&es0[ei].1, &vs[jn].1) ==> T::nodes(&ist) == T::nodes(&es0[ei].1) && (
        forall|i: int| 0 <= i < sb.len() && sb[i].alive ==> #[trigger] scn[i].alive),
    ensures
        walk_inv::<T>(scn, s0, vs, es0, pool1, stb, p, k0, i0, jn + 1, noop),
{
    let sent = sta.anchor.node;
    let fl0 = flat_nodes::<T>(es0);
    let ns0 = fl0 + seq![sent];
    let done0 = sta.inner_state@;
    let av = k0.take(i0) + flat_nodes::<T>(done0);
    let post = k0.skip(i0 + ns0.len() as int);
    let key = vs[jn].0;
    let est = es0[ei].1;
    let blk = T::nodes(&est);
    let blk2 = T::nodes(&ist);
    let pa = pool_flat::<T>(pool0.take(ei));
    let pb = pool_flat::<T>(pool0.skip(ei + 1));
    let jn1 = jn + 1;
    let pool_ = pool1;
    lemma_pool_flat_split::<T>(pool0, ei);
    assert(slot_nodes::<T>(pool0[ei]) == blk) by {
        assert(ekeys::<T>(es0)[ei] == es0[ei].0);
    }
    lemma_pool_flat_split::<T>(pool1, ei);
    assert(pool1.take(ei) =~= pool0.take(ei));
    assert(pool1.skip(ei + 1) =~= pool0.skip(ei + 1));
    assert(slot_nodes::<T>(pool1[ei]) =~= Seq::<usize>::empty());
    assert(pool_flat::<T>(pool1) =~= pa + pb);
    assert(T::state_inv(&est, sa) && par(sa, T::top(&est)) == p);
    ekeys::<T>(es0).index_of_first_ensures(key);
    let done1 = stb.inner_state@;
    let v = vs[jn].1;
    let fd0 = flat_nodes::<T>(done0);
    let fd1 = flat_nodes::<T>(done1);
    let tail = pa + pb + seq![sent] + post;
    let touched = blk + blk2;
    assert(done1.drop_last() =~= done0);
    assert(fd1 == fd0 + blk2);
    assert(av == k0.take(i0) + fd0);
    // positional disjointness before and after the entry's rebuild
    assert(kids(sb, p).no_duplicates()) by {
        assert(node_inv(sb, p as int));
    }
    assert(kids(sb, p) =~= av + blk + tail);
    lemma_nodup_split3(av, blk, tail, kids(sb, p));
    assert(kids(scn, p).no_duplicates()) by {
        assert(node_inv(scn, p as int));
    }
    assert(kids(scn, p) =~= av + blk2 + tail);
    lemma_nodup_split3(av, blk2, tail, kids(scn, p));
    // one frame for the whole step
    assert(sa.len() == sb.len() && sb.len() <= scn.len());
    assert forall|i: int|
        0 <= i < sa.len() && i != p as int && !touched.contains(i as usize) && !releases(
            v.content(),
            sb,
            i,
        ) implies #[trigger] scn[i] == sa[i] by {
        assert(!blk.contains(i as usize) && !blk2.contains(i as usize)) by {
            if blk.contains(i as usize) {
                let w = choose|w: int| 0 <= w < blk.len() && blk[w] == (i as usize);
                assert(touched[w] == (i as usize));
            }
            if blk2.contains(i as usize) {
                let w = choose|w: int|
                    0 <= w < blk2.len() && blk2[w] == (i as usize);
                assert(touched[blk.len() + w] == (i as usize));
            }
        }
        assert(sb[i] == sa[i]);
    }
    assert(scn[p as int].alive == sa[p as int].alive && scn[p as int].parent == sa[
        p as int
    ].parent);
    // which old entry matched
    assert(ekeys::<T>(es0).index_of_first(key) == Some(ei));
    // the other drained entries own nodes away from the touched ones
    assert forall|i: int|
        0 <= i < es0.len() && (#[trigger] pool_[i]).1 is Some implies apart(
        T::nodes(&es0[i].1),
        touched,
    ) by {
        assert(i != ei);
        assert(pool0[i].1 is Some);
        assert forall|w: int|
            0 <= w < T::nodes(&es0[i].1).len() implies !touched.contains(
            #[trigger] T::nodes(&es0[i].1)[w],
        ) by {
            let m = T::nodes(&es0[i].1)[w];
            assert(tail.contains(m)) by {
                if i < ei {
                    lemma_pool_flat_split::<T>(pool0.take(ei), i);
                    assert(pool0.take(ei)[i] == pool0[i]);
                    assert(slot_nodes::<T>(pool0[i])[w] == m);
                    assert(pa == pool_flat::<T>(pool0.take(ei).take(i))
                        + slot_nodes::<T>(pool0[i]) + pool_flat::<T>(
                        pool0.take(ei).skip(i + 1),
                    ));
                    assert(pa[pool_flat::<T>(pool0.take(ei).take(i)).len() as int
                        + w] == m);
                    assert(pa.contains(m));
                    let w2 = choose|w2: int| 0 <= w2 < pa.len() && pa[w2] == m;
                    assert(tail[w2] == m);
                } else {
                    lemma_pool_flat_split::<T>(pool0.skip(ei + 1), i - ei - 1);
                    assert(pool0.skip(ei + 1)[i - ei - 1] == pool0[i]);
                    assert(slot_nodes::<T>(pool0[i])[w] == m);
                    assert(pb == pool_flat::<T>(pool0.skip(ei + 1).take(i - ei - 1))
                        + slot_nodes::<T>(pool0[i]) + pool_flat::<T>(
                        pool0.skip(ei + 1).skip(i - ei),
                    ));
                    assert(pb[pool_flat::<T>(
                        pool0.skip(ei + 1).take(i - ei - 1),
                    ).len() as int + w] == m);
                    assert(pb.contains(m));
                    let w2 = choose|w2: int| 0 <= w2 < pb.len() && pb[w2] == m;
                    assert(tail[pa.len() as int + w2] == m);
                }
            }
            if touched.contains(m) {
                let w2 = choose|w2: int|
                    0 <= w2 < touched.len() && touched[w2] == m;
                if w2 < blk.len() {
                    assert(blk[w2] == m);
                    assert(blk.contains(m));
                } else {
                    assert(blk2[w2 - blk.len()] == m);
                    assert(blk2.contains(m));
                }
            }
        }
    }
    // hence they are untouched
    assert forall|i: int|
        0 <= i < es0.len() && (#[trigger] pool_[i]).1 is Some implies T::state_inv(
        &es0[i].1,
        scn,
    ) && par(scn, T::top(&es0[i].1)) == p by {
        assert(pool0[i].1 is Some);
        assert(apart(T::nodes(&es0[i].1), touched));
        survive_r::<T>(&es0[i].1, sa, sb, scn, p, v.content(), touched);
    }
    // the already-reconciled entries are untouched
    assert forall|d: int|
        0 <= d < jn1 implies T::state_inv(&(#[trigger] done1[d]).1, scn) && par(
        scn,
        T::top(&done1[d].1),
    ) == p by {
        if d < jn {
            assert(done1[d] == done0[d]);
            assert(apart(T::nodes(&done0[d].1), touched)) by {
                assert forall|w: int|
                    0 <= w < T::nodes(&done0[d].1).len() implies !touched.contains(
                    #[trigger] T::nodes(&done0[d].1)[w],
                ) by {
                    let m = T::nodes(&done0[d].1)[w];
                    assert(av.contains(m)) by {
                        lemma_flat_nodes_split::<T>(done0, d);
                        let off = flat_nodes::<T>(done0.take(d)).len();
                        assert(fd0[off + w] == m);
                        assert(av[k0.take(i0).len() + off + w] == m);
                    }
                    if touched.contains(m) {
                        let w2 = choose|w2: int|
                            0 <= w2 < touched.len() && touched[w2] == m;
                        if w2 < blk.len() {
                            assert(blk[w2] == m);
                            assert(blk.contains(m));
                        } else {
                            assert(blk2[w2 - blk.len()] == m);
                            assert(blk2.contains(m));
                        }
                    }
                }
            }
            survive_r::<T>(&done0[d].1, sa, sb, scn, p, v.content(), touched);
        } else {
            assert(done1[d].1 == ist);
        }
    }
    // the remaining pairs can still be reconciled
    assert forall|j: int|
        jn1 <= j < vs.len() implies pair_pre::<T>(vs, es0, scn, sent, j) by {
        assert(pair_pre::<T>(vs, es0, sa, sent, j));
        assert(vs[j].0 != key) by {
            assert(vkeys::<T>(vs)[j] == vs[j].0);
            assert(vkeys::<T>(vs)[jn] == key);
        }
        assert forall|w: int|
            0 <= w < vs[j].1.content().len() && (vs[j].1.content()[w] as int)
                < sa.len() implies entry_similar(
            sa,
            scn,
            #[trigger] vs[j].1.content()[w],
        ) by {
            let c = vs[j].1.content()[w];
            assert(!blk.contains(c)) by {
                assert(vs[j].0 != es0[ei].0);
                assert(apart(vs[j].1.content(), T::nodes(&es0[ei].1)));
                assert(vs[j].1.content().contains(c));
                if blk.contains(c) {
                    let ww = choose|ww: int|
                        0 <= ww < vs[j].1.content().len() && vs[j].1.content()[ww]
                            == c;
                }
            }
            assert(!blk2.contains(c)) by {
                if blk2.contains(c) {
                    assert(blk.contains(c) || v.content().contains(c) || (
                    c as int) >= sb.len());
                    if v.content().contains(c) {
                        lemma_flat_content_split::<T>(vs, j);
                        lemma_flat_content_split::<T>(vs, jn);
                        let offj = flat_content::<T>(vs.take(j)).len();
                        let offn = flat_content::<T>(vs.take(jn)).len();
                        let wa = choose|wa: int|
                            0 <= wa < v.content().len() && v.content()[wa] == c;
                        assert(flat_content::<T>(vs)[offj + w] == c);
                        assert(flat_content::<T>(vs)[offn + wa] == c);
                        assert(offj + w != offn + wa) by {
                            lemma_flat_content_take_off::<T>(vs, jn, j);
                        }
                    }
                }
            }
            assert(!(blk + blk2).contains(c)) by {
                if (blk + blk2).contains(c) {
                    let w2 = choose|w2: int|
                        0 <= w2 < (blk + blk2).len() && (blk + blk2)[w2] == c;
                    if w2 < blk.len() {
                        assert(blk[w2] == c);
                    } else {
                        assert(blk2[w2 - blk.len()] == c);
                    }
                }
            }
            if c == p {
                assert(kids(sa, p).contains(sent)) by {
                    assert(node_inv(sa, sent as int));
                }
                assert(kids(scn, p).contains(sent)) by {
                    assert((av + blk2 + tail)[av.len() as int + blk2.len() as int
                        + pa.len() as int + pb.len() as int] == sent);
                }
                assert(kids(sa, p).len() != 0 && kids(scn, p).len() != 0);
            } else {
                assert(entry_similar(sa, sb, c)) by {
                    assert(sb[c as int] == sa[c as int]);
                }
                assert(entry_similar(sb, scn, c));
                lemma_similar_trans(sa, sb, scn, c);
            }
        }
        if ekeys::<T>(es0).contains(vs[j].0) {
            let ij = ekeys::<T>(es0).index_of_first(vs[j].0)->Some_0;
            ekeys::<T>(es0).index_of_first_ensures(vs[j].0);
            assert(0 <= ij < es0.len());
            assert(ij != ei) by {
                assert(ekeys::<T>(es0)[ij] == vs[j].0);
                assert(ekeys::<T>(es0)[ei] == key);
            }
            assert(pool_[ij].1 is Some) by {
                assert(pool0[ij].1 is Some) by {
                    if vkeys::<T>(vs).take(jn).contains(es0[ij].0) {
                        let dd = choose|dd: int|
                            0 <= dd < jn && #[trigger] vkeys::<T>(vs).take(
                                jn,
                            )[dd] == es0[ij].0;
                        assert(vkeys::<T>(vs)[dd] == vs[j].0);
                        assert(vkeys::<T>(vs)[j] == vs[j].0);
                    }
                }
                assert(pool_[ij] == pool0[ij]);
            }
            assert(T::state_inv(&es0[ij].1, scn));
            assert(T::state_inv(&es0[ij].1, sa));
            assert(apart(T::nodes(&es0[ij].1), touched));
            T::lemma_state_inv(&es0[ij].1, sa);
            assert forall|w: int|
                0 <= w < T::nodes(&es0[ij].1).len() implies scn[#[trigger] T::nodes(
                &es0[ij].1,
            )[w] as int] == sa[T::nodes(&es0[ij].1)[w] as int] by {
                let m = T::nodes(&es0[ij].1)[w];
                assert(T::nodes(&es0[ij].1).contains(m));
                assert(m != p);
                assert(!touched.contains(m));
                assert(sb[m as int] == sa[m as int]);
                assert(sa[m as int].children.len() == 0);
                assert(!releases(v.content(), sb, m as int)) by {
                    if releases(v.content(), sb, m as int) {
                        lemma_releases_target(v.content(), sb, m as int);
                        assert(kids(sb, m).len() != 0);
                    }
                }
                assert(scn[m as int] == sb[m as int]);
            }
            vs[j].1.lemma_rebuild_pre_frame(&es0[ij].1, sa, scn);
        } else {
            vs[j].1.lemma_val_frame(sa, scn);
        }
    }
    // the tracking set is unchanged as a set
    assert forall|m: usize| #[trigger] stb.anchor.anchored@.contains(m) == ((
    exists|d: int| 0 <= d < jn1 && T::top(&(#[trigger] done1[d]).1) == m) || (
    exists|i: int|
        0 <= i < es0.len() && (#[trigger] pool_[i]).1 is Some && T::top(&es0[i].1)
            == m)) by {
        let oldrhs = (exists|d: int|
            0 <= d < jn && T::top(&(#[trigger] done0[d]).1) == m) || (exists|
        i: int|
            0 <= i < es0.len() && (#[trigger] pool0[i]).1 is Some && T::top(
                &es0[i].1,
            ) == m);
        assert(stb.anchor.anchored@.contains(m) == oldrhs);
        assert(T::top(&ist) == T::top(&est));
        if oldrhs {
            if exists|d: int| 0 <= d < jn && T::top(&(#[trigger] done0[d]).1)
                == m {
                let d = choose|d: int|
                    0 <= d < jn && T::top(&(#[trigger] done0[d]).1) == m;
                assert(done1[d] == done0[d]);
                assert(T::top(&done1[d].1) == m);
            } else {
                let i = choose|i: int|
                    0 <= i < es0.len() && (#[trigger] pool0[i]).1 is Some && T::top(
                        &es0[i].1,
                    ) == m;
                if i == ei {
                    assert(T::top(&done1[jn].1) == m);
                } else {
                    assert(pool_[i] == pool0[i]);
                }
            }
        }
        if (exists|d: int| 0 <= d < jn1 && T::top(&(#[trigger] done1[d]).1) == m)
            || (exists|i: int|
            0 <= i < es0.len() && (#[trigger] pool_[i]).1 is Some && T::top(
                &es0[i].1,
            ) == m) {
            if exists|d: int| 0 <= d < jn1 && T::top(&(#[trigger] done1[d]).1)
                == m {
                let d = choose|d: int|
                    0 <= d < jn1 && T::top(&(#[trigger] done1[d]).1) == m;
                if d < jn {
                    assert(done0[d] == done1[d]);
                } else {
                    assert(pool0[ei].1 is Some && T::top(&es0[ei].1) == m);
                }
            } else {
                let i = choose|i: int|
                    0 <= i < es0.len() && (#[trigger] pool_[i]).1 is Some && T::top(
                        &es0[i].1,
                    ) == m;
                assert(pool0[i] == pool_[i]);
            }
            assert(oldrhs);
        }
    }
    // consumption pattern
    assert forall|i: int|
        0 <= i < es0.len() implies ((#[trigger] pool_[i]).1 is Some <==> !vkeys::<
        T,
    >(vs).take(jn1).contains(es0[i].0)) by {
        if i == ei {
            assert(vkeys::<T>(vs).take(jn1)[jn] == key);
        } else {
            assert(pool_[i] == pool0[i]);
            if vkeys::<T>(vs).take(jn1).contains(es0[i].0) {
                let d = choose|d: int|
                    0 <= d < jn1 && #[trigger] vkeys::<T>(vs).take(jn1)[d]
                        == es0[i].0;
                if d < jn {
                    assert(vkeys::<T>(vs).take(jn)[d] == es0[i].0);
                } else {
                    assert(es0[i].0 == key);
                    assert(ekeys::<T>(es0)[i] == key);
                    assert(ekeys::<T>(es0)[ei] == key);
                }
            }
            if vkeys::<T>(vs).take(jn).contains(es0[i].0) {
                let d = choose|d: int|
                    0 <= d < jn && #[trigger] vkeys::<T>(vs).take(jn)[d]
                        == es0[i].0;
                assert(vkeys::<T>(vs).take(jn1)[d] == es0[i].0);
            }
        }
    }
    // layout
    assert(kids(scn, p) =~= k0.take(i0) + fd1 + pool_flat::<T>(pool_) + seq![sent]
        + k0.skip(i0 + ns0.len() as int));
    // origin of the new region
    assert forall|w: int| 0 <= w < fd1.len() implies ns0.contains(
        #[trigger] fd1[w],
    ) || flat_content::<T>(vs).contains(fd1[w]) || (fd1[w] as int) >= s0.len() by {
        if w < fd0.len() {
            assert(fd1[w] == fd0[w]);
        } else {
            let m = blk2[w - fd0.len()];
            assert(fd1[w] == m);
            assert(blk2.contains(m)) by {
                assert(blk2[w - fd0.len()] == m);
            }
            assert(blk.contains(m) || v.content().contains(m) || (m as int)
                >= sb.len());
            if blk.contains(m) {
                lemma_flat_nodes_split::<T>(es0, ei);
                let w2 = choose|w2: int| 0 <= w2 < blk.len() && blk[w2] == m;
                let off = flat_nodes::<T>(es0.take(ei)).len();
                assert(fl0[off + w2] == m);
                assert(ns0[off + w2] == m);
            } else if v.content().contains(m) {
                lemma_flat_content_contains::<T>(vs, m);
            }
        }
    }
    // contents are covered
    assert forall|d: int, w: int|
        #![trigger vs[d].1.content()[w]]
        0 <= d < jn1 && 0 <= w < vs[d].1.content().len() implies fd1.contains(
        vs[d].1.content()[w],
    ) by {
        if d < jn {
            assert(done0[d] == done1[d]);
            assert(fd0.contains(vs[d].1.content()[w]));
            let w2 = choose|w2: int|
                0 <= w2 < fd0.len() && fd0[w2] == vs[d].1.content()[w];
            assert(fd1[w2] == vs[d].1.content()[w]);
        } else {
            assert(vs[d] == vs[jn]);
            assert(vs[jn].1.content()[w] == vs[d].1.content()[w]);
            assert(blk2.contains(vs[jn].1.content()[w]));
            assert(blk2.contains(vs[d].1.content()[w]));
            let w2 = choose|w2: int|
                0 <= w2 < blk2.len() && blk2[w2] == vs[d].1.content()[w];
            assert(fd1[fd0.len() + w2] == vs[d].1.content()[w]);
        }
    }
    // frame against the starting scene
    assert forall|i: int|
        0 <= i < s0.len() && i != p as int && !ns0.contains(i as usize)
            && !flat_content::<T>(vs).contains(i as usize) && !releases(
            flat_content::<T>(vs),
            s0,
            i,
        ) implies #[trigger] scn[i] == s0[i] by {
        assert(!releases(v.content(), sb, i)) by {
            if releases(v.content(), sb, i) {
                let kx = choose|kx: int|
                    0 <= kx < v.content().len() && ((#[trigger] v.content()[kx]) as int) < sb.len()
                        && sb[v.content()[kx] as int].parent == Some(i as usize);
                let c = v.content()[kx];
                assert(vs[jn].1.content()[kx] == c);
                assert((c as int) < s0.len());
                assert(entry_similar(s0, sa, c));
                assert(sb[c as int].parent == sa[c as int].parent) by {
                    if c != p {
                        assert(sb[c as int] == sa[c as int]);
                    }
                }
                assert(s0[c as int].parent == Some(i as usize));
                assert(releases(flat_content::<T>(vs), s0, i)) by {
                    lemma_flat_content_split::<T>(vs, jn);
                    let off = flat_content::<T>(vs.take(jn)).len();
                    assert(flat_content::<T>(vs)[off + kx] == c);
                }
            }
        }
        assert(!blk.contains(i as usize)) by {
            if blk.contains(i as usize) {
                lemma_flat_nodes_split::<T>(es0, ei);
                let w2 = choose|w2: int|
                    0 <= w2 < blk.len() && blk[w2] == (i as usize);
                let off = flat_nodes::<T>(es0.take(ei)).len();
                assert(fl0[off + w2] == (i as usize));
                assert(ns0[off + w2] == (i as usize));
            }
        }
        assert(!blk2.contains(i as usize)) by {
            if blk2.contains(i as usize) {
                let wz = choose|wz: int| 0 <= wz < blk2.len() && blk2[wz] == (i as usize);
                assert(T::nodes(&ist)[wz] == (i as usize));
                assert(blk.contains(i as usize) || v.content().contains(i as usize)
                    || (i as usize as int) >= sb.len());
                if v.content().contains(i as usize) {
                    lemma_flat_content_contains::<T>(vs, i as usize);
                }
            }
        }
        assert(!touched.contains(i as usize)) by {
            if touched.contains(i as usize) {
                let w2 = choose|w2: int|
                    0 <= w2 < touched.len() && touched[w2] == (i as usize);
                if w2 < blk.len() {
                    assert(blk[w2] == (i as usize));
                } else {
                    assert(blk2[w2 - blk.len()] == (i as usize));
                }
            }
        }
    }
    // the sentinel is untouched
    assert(scn[sent as int] == s0[sent as int]) by {
        assert(ns0[ns0.len() - 1] == sent);
        assert(ns0.contains(sent));
        assert(sent != p);
        assert(!blk.contains(sent)) by {
            if blk.contains(sent) {
                lemma_flat_nodes_split::<T>(es0, ei);
                let w2 = choose|w2: int| 0 <= w2 < blk.len() && blk[w2] == sent;
                let off = flat_nodes::<T>(es0.take(ei)).len();
                assert(fl0[off + w2] == sent);
                assert(ns0[off + w2] == sent);
                assert(ns0[ns0.len() - 1] == sent);
                assert(ns0.no_duplicates());
            }
        }
        assert(!blk2.contains(sent)) by {
            if blk2.contains(sent) {
                let wz = choose|wz: int| 0 <= wz < blk2.len() && blk2[wz] == sent;
                assert(T::nodes(&ist)[wz] == sent);
                assert(pair_pre::<T>(vs, es0, sa, sent, jn));
                assert(blk.contains(sent) || v.content().contains(sent) || (
                sent as int) >= sb.len());
            }
        }
        assert(!touched.contains(sent)) by {
            if touched.contains(sent) {
                let w2 = choose|w2: int|
                    0 <= w2 < touched.len() && touched[w2] == sent;
                if w2 < blk.len() {
                    assert(blk[w2] == sent);
                } else {
                    assert(blk2[w2 - blk.len()] == sent);
                }
            }
        }
        assert(sb[sent as int] == sa[sent as int]);
        assert(sa[sent as int].children.len() == 0);
        assert(!releases(v.content(), sb, sent as int)) by {
            if releases(v.content(), sb, sent as int) {
                lemma_releases_target(v.content(), sb, sent as int);
                assert(kids(sb, sent).len() != 0);
            }
        }
        assert(scn[sent as int] == sb[sent as int]);
    }
    // untouched nodes stay similar
    assert forall|j: usize|
        (j as int) < s0.len() && j != p && !ns0.contains(j) && !flat_content::<T>(vs).contains(
            j,
        ) implies #[trigger] entry_similar(s0, scn, j) by {
        assert(entry_similar(s0, sa, j));
        assert(entry_similar(sa, sb, j)) by {
            assert(sb[j as int] == sa[j as int]);
        }
        assert(!(blk + blk2).contains(j)) by {
            if (blk + blk2).contains(j) {
                let w2 = choose|w2: int| 0 <= w2 < (blk + blk2).len() && (blk + blk2)[w2] == j;
                if w2 < blk.len() {
                    assert(blk[w2] == j);
                    lemma_flat_nodes_split::<T>(es0, ei);
                    let off = flat_nodes::<T>(es0.take(ei)).len();
                    assert(fl0[off + w2] == j);
                    assert(ns0[off + w2] == j);
                } else {
                    let wz = w2 - blk.len();
                    assert(blk2[wz] == j);
                    assert(T::nodes(&ist)[wz] == j);
                    assert(blk.contains(j) || v.content().contains(j) || (j as int) >= sb.len());
                    if v.content().contains(j) {
                        lemma_flat_content_contains::<T>(vs, j);
                    }
                    if blk.contains(j) {
                        let w3 = choose|w3: int| 0 <= w3 < blk.len() && blk[w3] == j;
                        lemma_flat_nodes_split::<T>(es0, ei);
                        let off = flat_nodes::<T>(es0.take(ei)).len();
                        assert(fl0[off + w3] == j);
                        assert(ns0[off + w3] == j);
                    }
                }
            }
        }
        assert(entry_similar(sb, scn, j));
        lemma_similar_trans(s0, sa, sb, j);
        lemma_similar_trans(s0, sb, scn, j);
    }
    // the unprocessed values' content stays fit
    assert forall|j: int, kx: int|
        #![trigger vs[j].1.content()[kx]]
        jn1 <= j < vs.len() && 0 <= kx < vs[j].1.content().len() && ((
        vs[j].1.content()[kx]) as int) < s0.len() implies entry_similar(
        s0,
        scn,
        vs[j].1.content()[kx],
    ) by {
        let c = vs[j].1.content()[kx];
        assert(entry_similar(s0, sa, c));
        assert(entry_similar(sa, sb, c)) by {
            if c != p {
                assert(sb[c as int] == sa[c as int]);
            } else {
                assert(kids(sa, p).contains(sent)) by {
                    assert(node_inv(sa, sent as int));
                }
            }
        }
        assert(entry_similar(sb, scn, c)) by {
            if c == p {
                assert(kids(sb, p).contains(sent)) by {
                    assert((av + blk + tail)[av.len() as int + blk.len() as int + pa.len() as int
                        + pb.len() as int] == sent);
                }
            } else {
                assert(vs[j].0 != key) by {
                    assert(vkeys::<T>(vs)[j] == vs[j].0);
                    assert(vkeys::<T>(vs)[jn] == key);
                }
                assert(!blk.contains(c)) by {
                    assert(vs[j].0 != es0[ei].0);
                    assert(apart(vs[j].1.content(), T::nodes(&es0[ei].1)));
                    assert(vs[j].1.content().contains(c)) by {
                        assert(vs[j].1.content()[kx] == c);
                    }
                }
                assert(!blk2.contains(c)) by {
                    if blk2.contains(c) {
                        let wz = choose|wz: int| 0 <= wz < blk2.len() && blk2[wz] == c;
                        assert(T::nodes(&ist)[wz] == c);
                        assert(blk.contains(c) || v.content().contains(c) || (c as int)
                            >= sb.len());
                        if v.content().contains(c) {
                            lemma_flat_content_split::<T>(vs, j);
                            lemma_flat_content_split::<T>(vs, jn);
                            let offj = flat_content::<T>(vs.take(j)).len();
                            let offn = flat_content::<T>(vs.take(jn)).len();
                            let wa = choose|wa: int|
                                0 <= wa < v.content().len() && #[trigger] v.content()[wa] == c;
                            assert(flat_content::<T>(vs)[offj + kx] == c);
                            assert(flat_content::<T>(vs)[offn + wa] == c);
                            assert(offj + kx != offn + wa) by {
                                lemma_flat_content_take_off::<T>(vs, jn, j);
                            }
                        }
                    }
                }
                assert(!(blk + blk2).contains(c)) by {
                    if (blk + blk2).contains(c) {
                        let w2 = choose|w2: int|
                            0 <= w2 < (blk + blk2).len() && (blk + blk2)[w2] == c;
                        if w2 < blk.len() {
                            assert(blk[w2] == c);
                        } else {
                            assert(blk2[w2 - blk.len()] == c);
                        }
                    }
                }
                assert(entry_similar(sb, scn, c));
            }
        }
        lemma_similar_trans(s0, sa, sb, c);
        lemma_similar_trans(s0, sb, scn, c);
    }
    // minimality bookkeeping
    assert forall|d: int|
        0 <= d < jn1 && ekeys::<T>(es0).contains(vs[d].0) && T::represents(
            &es0[ekeys::<T>(es0).index_of_first(vs[d].0)->Some_0].1,
            &vs[d].1,
        ) implies T::nodes(&(#[trigger] done1[d]).1) == T::nodes(
        &es0[ekeys::<T>(es0).index_of_first(vs[d].0)->Some_0].1,
    ) by {
        if d < jn {
            assert(done1[d] == done0[d]);
        } else {
            assert(ekeys::<T>(es0).index_of_first(vs[d].0) == Some(ei));
            assert(done1[d].1 == ist);
        }
    }
    // reused entries carry their built state over
    assert forall|d: int|
        0 <= d < jn1 && ekeys::<T>(es0).contains(vs[d].0) implies T::top(
        &(#[trigger] done1[d]).1,
    ) == T::top(&es0[ekeys::<T>(es0).index_of_first(vs[d].0)->Some_0].1) by {
        if d < jn {
            assert(done1[d] == done0[d]);
        } else {
            assert(ekeys::<T>(es0).index_of_first(vs[d].0) == Some(ei));
            assert(done1[d].1 == ist);
        }
    }
    // a wholly unchanged list stays intact
    if noop {
        assert(es0[jn].0 == vs[jn].0);
        assert(ekeys::<T>(es0)[jn] == key);
        assert(ei == jn) by {
            ekeys::<T>(es0).index_of_first_ensures(key);
        }
        assert(T::represents(&est, &v));
        assert(blk2 == blk);
        assert(fd1 == flat_nodes::<T>(es0.take(jn1))) by {
            lemma_flat_nodes_take_succ::<T>(es0, jn);
        }
        assert forall|i: int|
            0 <= i < s0.len() && s0[i].alive implies #[trigger] scn[i].alive by {
            assert(sa[i].alive);
            assert(sb[i].alive) by {
                if i != p as int {
                    assert(sb[i] == sa[i]);
                }
            }
        }
    }
    assert forall|i: int| 0 <= i < es0.len() implies (#[trigger] pool1[i]).0 == es0[i].0 by {
        if i != ei {
            assert(pool1[i] == pool0[i]);
        }
    }
    assert forall|i: int|
        0 <= i < es0.len() && (#[trigger] pool1[i]).1 is Some implies pool1[i].1->Some_0.0
        == es0[i].1 && pool1[i].1->Some_0.1@ == T::nodes(&es0[i].1) by {
        assert(i != ei);
        assert(pool1[i] == pool0[i]);
    }
}


/// Re-establishes the walk invariant after one new key: the entry was built
/// at the end of the run (`sa` to `sb`) and slid to the cursor (`sb` to
/// `scn`).
#[verifier::rlimit(100)]
proof fn lemma_restore_built<T: View>(
    s0: Seq<NodeModel>,
    sa: Seq<NodeModel>,
    sb: Seq<NodeModel>,
    scn: Seq<NodeModel>,
    vs: Seq<(u64, T)>,
    es0: Seq<(u64, T::State)>,
    pool0: Seq<(u64, Option<(T::State, Vec<usize>)>)>,
    sta: VecViewState<T::State>,
    stb: VecViewState<T::State>,
    p: usize,
    k0: Seq<usize>,
    i0: int,
    jn: int,
    noop: bool,
    ist: T::State,
)
    requires
        walk_inv::<T>(sa, s0, vs, es0, pool0, sta, p, k0, i0, jn, noop),
        0 <= jn < vs.len(),
        !ekeys::<T>(es0).contains(vs[jn].0),
        stb.anchor.node == sta.anchor.node,
        stb.anchor.anchor_inv(sb),
        forall|m: usize|
            #[trigger] stb.anchor.tracks(m) == (sta.anchor.tracks(m) || m == T::top(&ist)),
        stb.inner_state@ == sta.inner_state@.push((vs[jn].0, ist)),
        scene_inv(sb),
        sa.len() <= sb.len(),
        same_but(sa, sb, p, T::nodes(&ist)),
        T::state_inv(&ist, sb),
        T::represents(&ist, &vs[jn].1),
        par(sb, T::top(&ist)) == p,
        (T::top(&ist) as int) >= sa.len(),
        forall|k: int|
            0 <= k < T::nodes(&ist).len() ==> vs[jn].1.content().contains(
                #[trigger] T::nodes(&ist)[k],
            ) || (T::nodes(&ist)[k] as int) >= sa.len(),
        forall|k: int|
            0 <= k < vs[jn].1.content().len() ==> T::nodes(&ist).contains(
                #[trigger] vs[jn].1.content()[k],
            ),
        scene_inv(scn),
        sb.len() == scn.len(),
        forall|i: int| 0 <= i < sb.len() && i != p as int ==> #[trigger] scn[i] == sb[i],
        scn[p as int].alive == sb[p as int].alive,
        scn[p as int].parent == sb[p as int].parent,
        kids(scn, p) == (k0.take(i0) + flat_nodes::<T>(sta.inner_state@)) + T::nodes(&ist) + (
        pool_flat::<T>(pool0) + seq![sta.anchor.node] + k0.skip(
            i0 + (flat_nodes::<T>(es0) + seq![sta.anchor.node]).len() as int,
        )),
    ensures
        walk_inv::<T>(scn, s0, vs, es0, pool0, stb, p, k0, i0, jn + 1, noop),
{
    let sent = sta.anchor.node;
    let fl0 = flat_nodes::<T>(es0);
    let ns0 = fl0 + seq![sent];
    let done0 = sta.inner_state@;
    let av = k0.take(i0) + flat_nodes::<T>(done0);
    let post = k0.skip(i0 + ns0.len() as int);
    let key = vs[jn].0;
    let blk = T::nodes(&ist);
    let jn1 = jn + 1;
    let pool_ = pool0;
    ekeys::<T>(es0).index_of_first_ensures(key);
    let done1 = stb.inner_state@;
    let v = vs[jn].1;
    let fd0 = flat_nodes::<T>(done0);
    let fd1 = flat_nodes::<T>(done1);
    let pfl = pool_flat::<T>(pool0);
    let tail = pfl + seq![sent] + post;
    assert(done1.drop_last() =~= done0);
    assert(fd1 == fd0 + blk);
    assert(av == k0.take(i0) + fd0);
    assert(pool_ == pool0);
    assert(kids(scn, p) =~= av + blk + tail);
    assert(kids(scn, p).no_duplicates()) by {
        assert(node_inv(scn, p as int));
    }
    lemma_nodup_split3(av, blk, tail, kids(scn, p));
    // frame for the whole step
    assert(sa.len() <= sb.len() && sb.len() == scn.len());
    assert forall|i: int|
        0 <= i < sa.len() && i != p as int && !blk.contains(i as usize) implies
        #[trigger] scn[i] == sa[i] by {
        assert(sb[i] == sa[i]);
    }
    assert(scn[p as int].alive == sa[p as int].alive && scn[p as int].parent == sa[
        p as int
    ].parent);
    // the drained entries own nodes away from the new block
    assert forall|i: int|
        0 <= i < es0.len() && (#[trigger] pool_[i]).1 is Some implies apart(
        T::nodes(&es0[i].1),
        blk,
    ) by {
        assert forall|w: int|
            0 <= w < T::nodes(&es0[i].1).len() implies !blk.contains(
            #[trigger] T::nodes(&es0[i].1)[w],
        ) by {
            let m = T::nodes(&es0[i].1)[w];
            assert(tail.contains(m)) by {
                lemma_pool_flat_split::<T>(pool0, i);
                assert(slot_nodes::<T>(pool0[i])[w] == m);
                assert(pfl.contains(m)) by {
                    assert(pfl == pool_flat::<T>(pool0.take(i)) + slot_nodes::<
                        T,
                    >(pool0[i]) + pool_flat::<T>(pool0.skip(i + 1)));
                    assert(pfl[pool_flat::<T>(pool0.take(i)).len() as int + w]
                        == m);
                }
                let w2 = choose|w2: int| 0 <= w2 < pfl.len() && pfl[w2] == m;
                assert(tail[w2] == m);
            }
        }
    }
    // hence they are untouched
    assert forall|i: int|
        0 <= i < es0.len() && (#[trigger] pool_[i]).1 is Some implies T::state_inv(
        &es0[i].1,
        scn,
    ) && par(scn, T::top(&es0[i].1)) == p by {
        assert(apart(T::nodes(&es0[i].1), blk));
        survive::<T>(&es0[i].1, sa, scn, p, blk);
    }
    // the already-reconciled entries are untouched
    assert forall|d: int|
        0 <= d < jn1 implies T::state_inv(&(#[trigger] done1[d]).1, scn) && par(
        scn,
        T::top(&done1[d].1),
    ) == p by {
        if d < jn {
            assert(done1[d] == done0[d]);
            assert(apart(T::nodes(&done0[d].1), blk)) by {
                assert forall|w: int|
                    0 <= w < T::nodes(&done0[d].1).len() implies !blk.contains(
                    #[trigger] T::nodes(&done0[d].1)[w],
                ) by {
                    let m = T::nodes(&done0[d].1)[w];
                    assert(av.contains(m)) by {
                        lemma_flat_nodes_split::<T>(done0, d);
                        let off = flat_nodes::<T>(done0.take(d)).len();
                        assert(fd0[off + w] == m);
                        assert(av[k0.take(i0).len() + off + w] == m);
                    }
                }
            }
            survive::<T>(&done0[d].1, sa, scn, p, blk);
        } else {
            assert(done1[d].1 == ist);
            assert(T::state_inv(&ist, sb));
            assert forall|w: int|
                0 <= w < T::nodes(&ist).len() implies scn[#[trigger] T::nodes(
                &ist,
            )[w] as int] == sb[T::nodes(&ist)[w] as int] by {
                let m = T::nodes(&ist)[w];
                T::lemma_state_inv(&ist, sb);
                assert(T::nodes(&ist).contains(m));
                assert(m != p);
            }
            keep_state::<T>(&ist, sb, scn);
        }
    }
    // the remaining pairs can still be reconciled
    assert forall|j: int|
        jn1 <= j < vs.len() implies pair_pre::<T>(vs, es0, scn, sent, j) by {
        assert(pair_pre::<T>(vs, es0, sa, sent, j));
        assert forall|w: int|
            0 <= w < vs[j].1.content().len() && (vs[j].1.content()[w] as int)
                < sa.len() implies entry_similar(
            sa,
            scn,
            #[trigger] vs[j].1.content()[w],
        ) by {
            let c = vs[j].1.content()[w];
            assert(!blk.contains(c)) by {
                if blk.contains(c) {
                    assert(v.content().contains(c) || (c as int) >= sa.len());
                    if v.content().contains(c) {
                        lemma_flat_content_split::<T>(vs, j);
                        lemma_flat_content_split::<T>(vs, jn);
                        let offj = flat_content::<T>(vs.take(j)).len();
                        let offn = flat_content::<T>(vs.take(jn)).len();
                        let wa = choose|wa: int|
                            0 <= wa < v.content().len() && v.content()[wa] == c;
                        assert(flat_content::<T>(vs)[offj + w] == c);
                        assert(flat_content::<T>(vs)[offn + wa] == c);
                        assert(offj + w != offn + wa) by {
                            lemma_flat_content_take_off::<T>(vs, jn, j);
                        }
                    }
                }
            }
            if c == p {
                assert(kids(sa, p).contains(sent)) by {
                    assert(node_inv(sa, sent as int));
                }
                assert(kids(scn, p).contains(sent)) by {
                    assert((av + blk + tail)[av.len() as int + blk.len() as int
                        + pfl.len() as int] == sent);
                }
                assert(kids(sa, p).len() != 0 && kids(scn, p).len() != 0);
            } else {
                assert(entry_similar(sa, sb, c)) by {
                    assert(sb[c as int] == sa[c as int]);
                }
                assert(entry_similar(sb, scn, c));
                lemma_similar_trans(sa, sb, scn, c);
            }
        }
        if ekeys::<T>(es0).contains(vs[j].0) {
            let ij = ekeys::<T>(es0).index_of_first(vs[j].0)->Some_0;
            ekeys::<T>(es0).index_of_first_ensures(vs[j].0);
            assert(0 <= ij < es0.len());
            assert(pool_[ij].1 is Some) by {
                if vkeys::<T>(vs).take(jn).contains(es0[ij].0) {
                    let dd = choose|dd: int|
                        0 <= dd < jn && #[trigger] vkeys::<T>(vs).take(
                            jn,
                        )[dd] == es0[ij].0;
                    assert(vkeys::<T>(vs)[dd] == vs[j].0);
                    assert(vkeys::<T>(vs)[j] == vs[j].0);
                }
            }
            assert(T::state_inv(&es0[ij].1, scn));
            assert(T::state_inv(&es0[ij].1, sa));
            assert(apart(T::nodes(&es0[ij].1), blk));
            T::lemma_state_inv(&es0[ij].1, sa);
            assert forall|w: int|
                0 <= w < T::nodes(&es0[ij].1).len() implies scn[#[trigger] T::nodes(
                &es0[ij].1,
            )[w] as int] == sa[T::nodes(&es0[ij].1)[w] as int] by {
                let m = T::nodes(&es0[ij].1)[w];
                assert(T::nodes(&es0[ij].1).contains(m));
                assert(m != p);
                assert(!blk.contains(m));
            }
            vs[j].1.lemma_rebuild_pre_frame(&es0[ij].1, sa, scn);
        } else {
            vs[j].1.lemma_val_frame(sa, scn);
        }
    }
    // tracking gained exactly the new entry's sentinel
    assert forall|m: usize| #[trigger] stb.anchor.anchored@.contains(m) == ((
    exists|d: int| 0 <= d < jn1 && T::top(&(#[trigger] done1[d]).1) == m) || (
    exists|i: int|
        0 <= i < es0.len() && (#[trigger] pool_[i]).1 is Some && T::top(&es0[i].1)
            == m)) by {
        let oldrhs = (exists|d: int|
            0 <= d < jn && T::top(&(#[trigger] done0[d]).1) == m) || (exists|
        i: int|
            0 <= i < es0.len() && (#[trigger] pool0[i]).1 is Some && T::top(
                &es0[i].1,
            ) == m);
        assert(stb.anchor.tracks(m) == (oldrhs || m == T::top(&ist)));
        if oldrhs {
            if exists|d: int| 0 <= d < jn && T::top(&(#[trigger] done0[d]).1)
                == m {
                let d = choose|d: int|
                    0 <= d < jn && T::top(&(#[trigger] done0[d]).1) == m;
                assert(done1[d] == done0[d]);
                assert(T::top(&done1[d].1) == m);
            }
        }
        if m == T::top(&ist) {
            assert(T::top(&done1[jn].1) == m);
        }
        if exists|d: int| 0 <= d < jn1 && T::top(&(#[trigger] done1[d]).1) == m {
            let d = choose|d: int|
                0 <= d < jn1 && T::top(&(#[trigger] done1[d]).1) == m;
            if d < jn {
                assert(done0[d] == done1[d]);
            }
        }
    }
    // consumption pattern: the new key consumed nothing
    assert forall|i: int|
        0 <= i < es0.len() implies ((#[trigger] pool_[i]).1 is Some <==> !vkeys::<
        T,
    >(vs).take(jn1).contains(es0[i].0)) by {
        assert(es0[i].0 != key) by {
            assert(ekeys::<T>(es0)[i] == es0[i].0);
        }
        if vkeys::<T>(vs).take(jn1).contains(es0[i].0) {
            let d = choose|d: int|
                0 <= d < jn1 && #[trigger] vkeys::<T>(vs).take(jn1)[d]
                    == es0[i].0;
            assert(d < jn) by {
                if d == jn {
                    assert(vkeys::<T>(vs)[jn] == key);
                }
            }
            assert(vkeys::<T>(vs).take(jn)[d] == es0[i].0);
        }
        if vkeys::<T>(vs).take(jn).contains(es0[i].0) {
            let d = choose|d: int|
                0 <= d < jn && #[trigger] vkeys::<T>(vs).take(jn)[d]
                    == es0[i].0;
            assert(vkeys::<T>(vs).take(jn1)[d] == es0[i].0);
        }
    }
    // layout
    assert(kids(scn, p) =~= k0.take(i0) + fd1 + pool_flat::<T>(pool_) + seq![sent]
        + k0.skip(i0 + ns0.len() as int));
    // origin
    assert forall|w: int| 0 <= w < fd1.len() implies ns0.contains(
        #[trigger] fd1[w],
    ) || flat_content::<T>(vs).contains(fd1[w]) || (fd1[w] as int) >= s0.len() by {
        if w < fd0.len() {
            assert(fd1[w] == fd0[w]);
        } else {
            let m = blk[w - fd0.len()];
            assert(fd1[w] == m);
            assert(blk.contains(m)) by {
                assert(blk[w - fd0.len()] == m);
            }
            assert(v.content().contains(m) || (m as int) >= sa.len());
            if v.content().contains(m) {
                lemma_flat_content_contains::<T>(vs, m);
            }
        }
    }
    // contents are covered
    assert forall|d: int, w: int|
        #![trigger vs[d].1.content()[w]]
        0 <= d < jn1 && 0 <= w < vs[d].1.content().len() implies fd1.contains(
        vs[d].1.content()[w],
    ) by {
        if d < jn {
            assert(done0[d] == done1[d]);
            assert(fd0.contains(vs[d].1.content()[w]));
            let w2 = choose|w2: int|
                0 <= w2 < fd0.len() && fd0[w2] == vs[d].1.content()[w];
            assert(fd1[w2] == vs[d].1.content()[w]);
        } else {
            assert(vs[d] == vs[jn]);
            assert(vs[jn].1.content()[w] == vs[d].1.content()[w]);
            assert(blk.contains(vs[jn].1.content()[w]));
            assert(blk.contains(vs[d].1.content()[w]));
            let w2 = choose|w2: int|
                0 <= w2 < blk.len() && blk[w2] == vs[d].1.content()[w];
            assert(fd1[fd0.len() + w2] == vs[d].1.content()[w]);
        }
    }
    // frame against the starting scene
    assert forall|i: int|
        0 <= i < s0.len() && i != p as int && !ns0.contains(i as usize)
            && !flat_content::<T>(vs).contains(i as usize) && !releases(
            flat_content::<T>(vs),
            s0,
            i,
        ) implies #[trigger] scn[i] == s0[i] by {
        assert(!blk.contains(i as usize)) by {
            if blk.contains(i as usize) {
                let wz = choose|wz: int| 0 <= wz < blk.len() && blk[wz] == (i as usize);
                assert(T::nodes(&ist)[wz] == (i as usize));
                assert(v.content().contains(i as usize) || (i as usize as int)
                    >= sa.len());
                if v.content().contains(i as usize) {
                    lemma_flat_content_contains::<T>(vs, i as usize);
                }
            }
        }
    }
    // the sentinel is untouched
    assert(scn[sent as int] == s0[sent as int]) by {
        assert(ns0[ns0.len() - 1] == sent);
        assert(ns0.contains(sent));
        assert(sent != p);
        assert(pair_pre::<T>(vs, es0, sa, sent, jn));
        assert(!blk.contains(sent)) by {
            if blk.contains(sent) {
                let wz = choose|wz: int| 0 <= wz < blk.len() && blk[wz] == sent;
                assert(T::nodes(&ist)[wz] == sent);
                assert(v.content().contains(sent) || (sent as int) >= sa.len());
            }
        }
    }
    // untouched nodes stay similar
    assert forall|j: usize|
        (j as int) < s0.len() && j != p && !ns0.contains(j) && !flat_content::<T>(vs).contains(
            j,
        ) implies #[trigger] entry_similar(s0, scn, j) by {
        assert(entry_similar(s0, sa, j));
        assert(!blk.contains(j)) by {
            if blk.contains(j) {
                let wz = choose|wz: int| 0 <= wz < blk.len() && blk[wz] == j;
                assert(T::nodes(&ist)[wz] == j);
                assert(v.content().contains(j) || (j as int) >= sa.len());
                if v.content().contains(j) {
                    lemma_flat_content_contains::<T>(vs, j);
                }
            }
        }
        assert(sb[j as int] == sa[j as int]);
        assert(scn[j as int] == sb[j as int]);
        assert(entry_similar(sa, scn, j));
        lemma_similar_trans(s0, sa, scn, j);
    }
    // the unprocessed values' content stays fit
    assert forall|j: int, kx: int|
        #![trigger vs[j].1.content()[kx]]
        jn1 <= j < vs.len() && 0 <= kx < vs[j].1.content().len() && ((
        vs[j].1.content()[kx]) as int) < s0.len() implies entry_similar(
        s0,
        scn,
        vs[j].1.content()[kx],
    ) by {
        let c = vs[j].1.content()[kx];
        assert(entry_similar(s0, sa, c));
        assert(entry_similar(sa, scn, c)) by {
            if c == p {
                assert(kids(sa, p).contains(sent)) by {
                    assert(node_inv(sa, sent as int));
                }
                assert(kids(scn, p).contains(sent)) by {
                    assert((av + blk + tail)[av.len() as int + blk.len() as int + pfl.len() as int]
                        == sent);
                }
            } else {
                assert(!blk.contains(c)) by {
                    if blk.contains(c) {
                        let wz = choose|wz: int| 0 <= wz < blk.len() && blk[wz] == c;
                        assert(T::nodes(&ist)[wz] == c);
                        assert(v.content().contains(c) || (c as int) >= sa.len());
                        if v.content().contains(c) {
                            lemma_flat_content_split::<T>(vs, j);
                            lemma_flat_content_split::<T>(vs, jn);
                            let offj = flat_content::<T>(vs.take(j)).len();
                            let offn = flat_content::<T>(vs.take(jn)).len();
                            let wa = choose|wa: int|
                                0 <= wa < v.content().len() && #[trigger] v.content()[wa] == c;
                            assert(flat_content::<T>(vs)[offj + kx] == c);
                            assert(flat_content::<T>(vs)[offn + wa] == c);
                            assert(offj + kx != offn + wa) by {
                                lemma_flat_content_take_off::<T>(vs, jn, j);
                            }
                        }
                    }
                }
                assert(sb[c as int] == sa[c as int]);
                assert(scn[c as int] == sb[c as int]);
            }
        }
        lemma_similar_trans(s0, sa, scn, c);
    }
    // a new key cannot appear in a wholly unchanged list
    assert(!noop) by {
        if noop {
            assert(es0.len() == vs.len());
            assert(es0[jn].0 == vs[jn].0);
            assert(ekeys::<T>(es0)[jn] == key);
            assert(ekeys::<T>(es0).contains(key));
        }
    }
    // minimality bookkeeping
    assert forall|d: int|
        0 <= d < jn1 && ekeys::<T>(es0).contains(vs[d].0) && T::represents(
            &es0[ekeys::<T>(es0).index_of_first(vs[d].0)->Some_0].1,
            &vs[d].1,
        ) implies T::nodes(&(#[trigger] done1[d]).1) == T::nodes(
        &es0[ekeys::<T>(es0).index_of_first(vs[d].0)->Some_0].1,
    ) by {
        if d < jn {
            assert(done1[d] == done0[d]);
        } else {
            assert(vs[d].0 == key);
        }
    }
    // reused entries carry their built state over
    assert forall|d: int|
        0 <= d < jn1 && ekeys::<T>(es0).contains(vs[d].0) implies T::top(
        &(#[trigger] done1[d]).1,
    ) == T::top(&es0[ekeys::<T>(es0).index_of_first(vs[d].0)->Some_0].1) by {
        if d < jn {
            assert(done1[d] == done0[d]);
        } else {
            assert(vs[d].0 == key);
        }
    }
}

impl<T: View> View for Vec<(u64, T)> {
    type State = VecViewState<T::State>;

    open spec fn content(&self) -> Seq<usize> {
        flat_content::<T>(self@)
    }

    open spec fn val_inv(&self, s: Seq<NodeModel>) -> bool {
        &&& vkeys::<T>(self@).no_duplicates()
        &&& flat_content::<T>(self@).no_duplicates()
        &&& forall|j: int| 0 <= j < self@.len() ==> (#[trigger] self@[j]).1.val_inv(s)
    }

    open spec fn nodes(state: &VecViewState<T::State>) -> Seq<usize> {
        flat_nodes::<T>(state.inner_state@) + seq![state.anchor.node]
    }

    open spec fn collected(state: &VecViewState<T::State>) -> Seq<usize> {
        seq![state.anchor.node] + flat_collected::<T>(state.inner_state@)
    }

    open spec fn top(state: &VecViewState<T::State>) -> usize {
        state.anchor.node
    }

    open spec fn state_inv(state: &VecViewState<T::State>, s: Seq<NodeModel>) -> bool {
        let es = state.inner_state@;
        &&& state.anchor.anchor_inv(s)
        &&& owns(s, par(s, state.anchor.node), Self::nodes(state))
        &&& ekeys::<T>(es).no_duplicates()
        &&& forall|j: int|
            0 <= j < es.len() ==> T::state_inv(&(#[trigger] es[j]).1, s) && par(
                s,
                T::top(&es[j].1),
            ) == par(s, state.anchor.node)
        &&& forall|m: usize|
            state.anchor.anchored@.contains(m) == exists|j: int|
                0 <= j < es.len() && T::top(&(#[trigger] es[j]).1) == m
    }

    open spec fn represents(state: &VecViewState<T::State>, v: &Vec<(u64, T)>) -> bool {
        let es = state.inner_state@;
        &&& es.len() == v@.len()
        &&& forall|j: int|
            0 <= j < es.len() ==> (#[trigger] es[j]).0 == v@[j].0 && T::represents(
                &es[j].1,
                &v@[j].1,
            )
    }

    open spec fn rebuild_pre(&self, state: &VecViewState<T::State>, s: Seq<NodeModel>) -> bool {
        let vs = self@;
        let es = state.inner_state@;
        &&& vkeys::<T>(vs).no_duplicates()
        &&& flat_content::<T>(vs).no_duplicates()
        &&& forall|j: int| 0 <= j < vs.len() ==> pair_pre::<T>(vs, es, s, state.anchor.node, j)
        &&& forall|j: int, i: int|
            #![trigger vs[j], es[i]]
            0 <= j < vs.len() && 0 <= i < es.len() && vs[j].0 != es[i].0 ==> apart(
                vs[j].1.content(),
                T::nodes(&es[i].1),
            )
    }

    proof fn lemma_val_inv(&self, s: Seq<NodeModel>) {
        assert forall|k: int| 0 <= k < self.content().len() implies content_node_ok(
            s,
            #[trigger] self.content()[k],
        ) by {
            let m = self.content()[k];
            assert(self.content().contains(m));
            lemma_flat_content_contains::<T>(self@, m);
            let j = choose|j: int| 0 <= j < self@.len() && (#[trigger] self@[j]).1.content().contains(m);
            self@[j].1.lemma_val_inv(s);
            let w = choose|w: int|
                0 <= w < self@[j].1.content().len() && self@[j].1.content()[w] == m;
        }
    }

    proof fn lemma_state_inv(state: &VecViewState<T::State>, s: Seq<NodeModel>) {
        let ns = Self::nodes(state);
        let cs = Self::collected(state);
        assert(ns.len() >= 1);
        assert(ns[ns.len() - 1] == state.anchor.node);
        assert(ns.last() == state.anchor.node);
        lemma_flat_collected_sim::<T>(state.inner_state@, s);
        let fc = flat_collected::<T>(state.inner_state@);
        let fl = flat_nodes::<T>(state.inner_state@);
        assert(cs.len() == ns.len());
        assert forall|m: usize| #[trigger] cs.contains(m) == ns.contains(m) by {
            if cs.contains(m) {
                let w = choose|w: int| 0 <= w < cs.len() && cs[w] == m;
                if w == 0 {
                    assert(ns[ns.len() - 1] == m);
                } else {
                    assert(fc[w - 1] == m);
                    assert(fc.contains(m));
                    assert(fl.contains(m));
                    let w2 = choose|w2: int| 0 <= w2 < fl.len() && fl[w2] == m;
                    assert(ns[w2] == m);
                }
                assert(ns.contains(m));
            }
            if ns.contains(m) {
                let w = choose|w: int| 0 <= w < ns.len() && ns[w] == m;
                if w == ns.len() - 1 {
                    assert(cs[0] == m);
                } else {
                    assert(fl[w] == m);
                    assert(fl.contains(m));
                    assert(fc.contains(m));
                    let w2 = choose|w2: int| 0 <= w2 < fc.len() && fc[w2] == m;
                    assert(cs[1 + w2] == m);
                }
                assert(cs.contains(m));
            }
        }
    }

    proof fn lemma_state_frame(
        state: &VecViewState<T::State>,
        s0: Seq<NodeModel>,
        s1: Seq<NodeModel>,
    ) {
        let es = state.inner_state@;
        let ns = Self::nodes(state);
        let sent = state.anchor.node;
        let fl = flat_nodes::<T>(es);
        assert(ns[ns.len() - 1] == sent);
        assert(s1[sent as int] == s0[sent as int]);
        let p = par(s0, sent);
        assert(par(s1, sent) == p);
        assert(owns(s1, p, ns)) by {
            assert forall|k: int| 0 <= k < ns.len() implies {
                let n = #[trigger] ns[k];
                &&& (n as int) < s1.len()
                &&& n != p
                &&& s1[n as int].alive
                &&& s1[n as int].parent == Some(p)
                &&& s1[n as int].children.len() == 0
            } by {
                assert(s1[ns[k] as int] == s0[ns[k] as int]);
            }
        }
        assert forall|j: int| 0 <= j < es.len() implies T::state_inv(&(#[trigger] es[j]).1, s1)
            && par(s1, T::top(&es[j].1)) == p by {
            lemma_flat_nodes_split::<T>(es, j);
            let off = flat_nodes::<T>(es.take(j)).len();
            assert forall|w: int|
                0 <= w < T::nodes(&es[j].1).len() implies s1[#[trigger] T::nodes(&es[j].1)[w] as int]
                == s0[T::nodes(&es[j].1)[w] as int] by {
                assert(fl[off + w] == T::nodes(&es[j].1)[w]);
                assert(ns[off + w] == fl[off + w]);
            }
            keep_state::<T>(&es[j].1, s0, s1);
            assert(par(s0, T::top(&es[j].1)) == p);
        }
    }

    proof fn lemma_val_frame(&self, s0: Seq<NodeModel>, s1: Seq<NodeModel>) {
        assert forall|j: int| 0 <= j < self@.len() implies (#[trigger] self@[j]).1.val_inv(s1) by {
            lemma_flat_content_split::<T>(self@, j);
            let off = flat_content::<T>(self@.take(j)).len();
            assert forall|w: int|
                0 <= w < self@[j].1.content().len() && (self@[j].1.content()[w] as int) < s0.len()
                implies entry_similar(s0, s1, #[trigger] self@[j].1.content()[w]) by {
                assert(self.content()[off + w] == self@[j].1.content()[w]);
            }
            self@[j].1.lemma_val_frame(s0, s1);
        }
    }

    proof fn lemma_rebuild_pre_frame(
        &self,
        state: &VecViewState<T::State>,
        s0: Seq<NodeModel>,
        s1: Seq<NodeModel>,
    ) {
        let vs = self@;
        let es = state.inner_state@;
        let sent = state.anchor.node;
        assert forall|j: int| 0 <= j < vs.len() implies pair_pre::<T>(vs, es, s1, sent, j) by {
            assert(pair_pre::<T>(vs, es, s0, sent, j));
            lemma_flat_content_split::<T>(vs, j);
            let off = flat_content::<T>(vs.take(j)).len();
            assert forall|w: int|
                0 <= w < vs[j].1.content().len() && (vs[j].1.content()[w] as int) < s0.len()
                implies entry_similar(s0, s1, #[trigger] vs[j].1.content()[w]) by {
                assert(self.content()[off + w] == vs[j].1.content()[w]);
            }
            if ekeys::<T>(es).contains(vs[j].0) {
                let i = ekeys::<T>(es).index_of_first(vs[j].0)->Some_0;
                ekeys::<T>(es).index_of_first_ensures(vs[j].0);
                assert(0 <= i < es.len());
                lemma_flat_nodes_split::<T>(es, i);
                let noff = flat_nodes::<T>(es.take(i)).len();
                assert forall|w: int|
                    0 <= w < T::nodes(&es[i].1).len() implies s1[#[trigger] T::nodes(&es[i].1)[w] as int]
                    == s0[T::nodes(&es[i].1)[w] as int] by {
                    assert(flat_nodes::<T>(es)[noff + w] == T::nodes(&es[i].1)[w]);
                    assert(Self::nodes(state)[noff + w] == flat_nodes::<T>(es)[noff + w]);
                }
                T::lemma_state_frame(&es[i].1, s0, s1);
                vs[j].1.lemma_rebuild_pre_frame(&es[i].1, s0, s1);
            } else {
                vs[j].1.lemma_val_frame(s0, s1);
            }
        }
    }

    proof fn lemma_rebuild_pre_bound(&self, state: &VecViewState<T::State>, s: Seq<NodeModel>) {
        let vs = self@;
        let es = state.inner_state@;
        assert forall|k: int|
            0 <= k < self.content().len() implies ((#[trigger] self.content()[k]) as int)
            < s.len() by {
            let c = self.content()[k];
            assert(self.content().contains(c));
            lemma_flat_content_contains::<T>(vs, c);
            let j = choose|j: int| 0 <= j < vs.len() && (#[trigger] vs[j]).1.content().contains(c);
            let w = choose|w: int| 0 <= w < vs[j].1.content().len() && vs[j].1.content()[w] == c;
            assert(pair_pre::<T>(vs, es, s, state.anchor.node, j));
            if ekeys::<T>(es).contains(vs[j].0) {
                let i = ekeys::<T>(es).index_of_first(vs[j].0)->Some_0;
                ekeys::<T>(es).index_of_first_ensures(vs[j].0);
                assert(T::state_inv(&(es[i]).1, s));
                vs[j].1.lemma_rebuild_pre_bound(&es[i].1, s);
            } else {
                vs[j].1.lemma_val_inv(s);
                assert(content_node_ok(s, vs[j].1.content()[w]));
            }
        }
    }

    #[verifier::rlimit(100)]
    fn build<AN: Anchor>(&self, sg: &mut Scene, anchor: &mut AN) -> (st: VecViewState<T::State>) {
        let ghost s0 = sg@;
        let ghost vs = self@;
        let ghost t = anchor.target(s0);
        let ghost sl = anchor.slot(s0);
        let ghost k0 = kids(s0, t);
        proof {
            anchor.lemma_anchor_inv(s0);
        }
        let sent = sg.new_node();
        let ghost s1 = sg@;
        proof {
            assert(s1[t as int] == s0[t as int]);
            assert(s1[anchor.anchor_node() as int] == s0[anchor.anchor_node() as int]);
            anchor.lemma_anchor_frame(s0, s1);
            assert(kids(s1, t) == k0);
        }
        let mut vec_anchor = BeforeAnchor::new(sent);
        anchor.add(sg, sent);
        let ghost s2 = sg@;
        proof {
            assert(sent != t);
            assert(kids(s2, t) == k0.insert(sl, sent));
            assert(s2[sent as int].alive && s2[sent as int].parent == Some(t));
            assert(s2[sent as int].children.len() == 0) by {
                assert(s1[sent as int].children.len() == 0);
            }
            assert(vec_anchor.anchor_inv(s2));
            assert(vec_anchor.target(s2) == t);
            assert(!k0.contains(sent)) by {
                if k0.contains(sent) {
                    let w = choose|w: int| 0 <= w < k0.len() && k0[w] == sent;
                    assert(node_inv(s0, t as int));
                    assert((k0[w] as int) < s0.len());
                }
            }
            k0.insert_ensures(sl, sent);
            kids(s2, t).index_of_first_ensures(sent);
            assert forall|j: int| 0 <= j < sl implies kids(s2, t)[j] != sent by {
                assert(kids(s2, t)[j] == k0[j]);
                assert(k0.contains(k0[j]));
            }
            assert(kids(s2, t)[sl] == sent);
            assert(kids(s2, t).index_of_first(sent) == Some(sl));
            assert(vec_anchor.slot(s2) == sl);
            assert(kids(s2, t) =~= k0.take(sl) + seq![sent] + k0.skip(sl));
            // each value is still fit to build
            self.lemma_val_inv(s0);
            assert forall|j: int| 0 <= j < vs.len() implies (#[trigger] vs[j]).1.val_inv(s2) by {
                lemma_flat_content_split::<T>(vs, j);
                let off = flat_content::<T>(vs.take(j)).len();
                assert forall|w: int|
                    0 <= w < vs[j].1.content().len() && (vs[j].1.content()[w] as int) < s0.len()
                    implies entry_similar(s0, s2, #[trigger] vs[j].1.content()[w]) by {
                    let c = vs[j].1.content()[w];
                    assert(self.content()[off + w] == c);
                    assert(content_node_ok(s0, c));
                    assert(c != t && c != sent);
                    assert(s2[c as int] == s0[c as int]);
                }
                vs[j].1.lemma_val_frame(s0, s2);
            }
        }
        let mut entries: Vec<(u64, T::State)> = Vec::new();
        let n = self.len();
        let mut j: usize = 0;
        while j < n
            invariant
                n == vs.len(),
                j <= n,
                vs == self@,
                entries@.len() == j,
                scene_inv(sg@),
                s2.len() <= sg@.len(),
                s0.len() < s2.len(),
                (t as int) < s0.len(),
                (sent as int) < s2.len(),
                sent as int >= s0.len(),
                sg@[sent as int] == s2[sent as int],
                s2[sent as int].alive && s2[sent as int].parent == Some(t) && s2[
                    sent as int
                ].children.len() == 0,
                vec_anchor.node == sent,
                vec_anchor.anchor_inv(sg@),
                vec_anchor.target(sg@) == t,
                vec_anchor.slot(sg@) == sl + flat_nodes::<T>(entries@).len(),
                kids(sg@, t) == k0.take(sl) + flat_nodes::<T>(entries@) + seq![sent] + k0.skip(sl),
                0 <= sl <= k0.len(),
                forall|d: int|
                    0 <= d < j ==> (#[trigger] entries@[d]).0 == vs[d].0 && T::represents(
                        &entries@[d].1,
                        &vs[d].1,
                    ),
                forall|d: int|
                    0 <= d < j ==> T::state_inv(&(#[trigger] entries@[d]).1, sg@) && par(
                        sg@,
                        T::top(&entries@[d].1),
                    ) == t,
                forall|m: usize|
                    #[trigger] vec_anchor.anchored@.contains(m) == exists|d: int|
                        0 <= d < j && T::top(&(#[trigger] entries@[d]).1) == m,
                // where the built footprints came from
                forall|w: int|
                    0 <= w < flat_nodes::<T>(entries@).len() ==> flat_content::<T>(vs).contains(
                        #[trigger] flat_nodes::<T>(entries@)[w],
                    ) || (flat_nodes::<T>(entries@)[w] as int) >= s0.len(),
                // contents of built values are covered
                forall|d: int, w: int|
                    #![trigger vs[d].1.content()[w]]
                    0 <= d < j && 0 <= w < vs[d].1.content().len() ==> flat_nodes::<T>(
                        entries@,
                    ).contains(vs[d].1.content()[w]),
                // the rest of the scene is untouched
                forall|i: int|
                    0 <= i < s0.len() && i != t as int && !flat_content::<T>(vs).contains(
                        i as usize,
                    ) ==> #[trigger] sg@[i] == s0[i],
                sg@[t as int].alive == s0[t as int].alive && sg@[t as int].parent == s0[
                    t as int
                ].parent,
                // the values not yet built are still fit
                forall|d: int| j <= d < n ==> (#[trigger] vs[d]).1.val_inv(sg@),
                vkeys::<T>(vs).no_duplicates(),
                flat_content::<T>(vs).no_duplicates(),
            decreases n - j,
        {
            let ghost sa = sg@;
            let ghost done0 = entries@;
            let ghost va0 = vec_anchor;
            let pair = &self[j];
            proof {
                assert(vs[j as int] == *pair);
                assert(pair.1.val_inv(sa));
                pair.1.lemma_val_inv(sa);
                assert forall|w: int|
                    0 <= w < pair.1.content().len() implies #[trigger] pair.1.content()[w]
                    != vec_anchor.target(sa) by {
                    let c = pair.1.content()[w];
                    assert(content_node_ok(sa, c));
                    if c == t {
                        assert(kids(sa, t).contains(sent)) by {
                            assert(node_inv(sa, sent as int));
                        }
                        assert(kids(sa, t).len() == 0);
                    }
                }
            }
            let ist = pair.1.build(sg, &mut vec_anchor);
            proof {
                let sb = sg@;
                let newn = T::nodes(&ist);
                let fa = flat_nodes::<T>(done0);
                assert(kids(sb, t) == kids(sa, t).take(sl + fa.len()) + newn + kids(sa, t).skip(
                    sl + fa.len(),
                ));
                assert(kids(sa, t).take(sl + fa.len()) =~= k0.take(sl) + fa);
                assert(kids(sa, t).skip(sl + fa.len()) =~= seq![sent] + k0.skip(sl));
                assert(kids(sb, t) =~= k0.take(sl) + (fa + newn) + seq![sent] + k0.skip(sl));
                assert(flat_nodes::<T>(done0.push((pair.0, ist))) == fa + newn) by {
                    assert(done0.push((pair.0, ist)).drop_last() =~= done0);
                }
                // older entries survive: their nodes are disjoint from the new ones
                assert(kids(sb, t).no_duplicates()) by {
                    assert(node_inv(sb, t as int));
                }
                lemma_nodup_split3(
                    k0.take(sl) + fa,
                    newn,
                    seq![sent] + k0.skip(sl),
                    kids(sb, t),
                );
                assert forall|d: int|
                    0 <= d < j implies T::state_inv(&(#[trigger] done0[d]).1, sb) && par(
                    sb,
                    T::top(&done0[d].1),
                ) == t by {
                    lemma_flat_nodes_split::<T>(done0, d);
                    let off = flat_nodes::<T>(done0.take(d)).len();
                    assert(T::state_inv(&done0[d].1, sa));
                    T::lemma_state_inv(&done0[d].1, sa);
                    assert forall|w: int|
                        0 <= w < T::nodes(&done0[d].1).len() implies sb[#[trigger] T::nodes(
                        &done0[d].1,
                    )[w] as int] == sa[T::nodes(&done0[d].1)[w] as int] by {
                        let m = T::nodes(&done0[d].1)[w];
                        assert(fa[off + w] == m);
                        assert(fa.contains(m));
                        assert(T::nodes(&done0[d].1).contains(m));
                        assert(m != t);
                        assert(!newn.contains(m)) by {
                            if newn.contains(m) {
                                assert((k0.take(sl) + fa).contains(m)) by {
                                    assert((k0.take(sl) + fa)[k0.take(sl).len() as int + off + w]
                                        == m);
                                }
                            }
                        }
                    }
                    keep_state::<T>(&done0[d].1, sa, sb);
                }
            }
            entries.push((pair.0, ist));
            j = j + 1;
            proof {
                let sb = sg@;
                let newn = T::nodes(&ist);
                let fa = flat_nodes::<T>(done0);
                let fb = flat_nodes::<T>(entries@);
                assert(entries@ == done0.push((vs[j - 1].0, ist)));
                assert(fb == fa + newn) by {
                    assert(entries@.drop_last() =~= done0);
                }
                // tracking set
                assert forall|m: usize| #[trigger] vec_anchor.anchored@.contains(m) == exists|d: int|
                    0 <= d < j && T::top(&(#[trigger] entries@[d]).1) == m by {
                    assert(vec_anchor.tracks(m) == (va0.tracks(m) || m == T::top(&ist)));
                    if vec_anchor.anchored@.contains(m) {
                        if m == T::top(&ist) {
                            assert(entries@[j - 1].1 == ist);
                            assert(T::top(&entries@[j - 1].1) == m);
                        } else {
                            assert(va0.anchored@.contains(m));
                            let d = choose|d: int|
                                0 <= d < j - 1 && T::top(&(#[trigger] done0[d]).1) == m;
                            assert(entries@[d].1 == done0[d].1);
                            assert(T::top(&entries@[d].1) == m);
                        }
                    }
                    if exists|d: int| 0 <= d < j && T::top(&(#[trigger] entries@[d]).1) == m {
                        let d = choose|d: int| 0 <= d < j && T::top(&(#[trigger] entries@[d]).1) == m;
                        if d < j - 1 {
                            assert(done0[d].1 == entries@[d].1);
                            assert(T::top(&done0[d].1) == m);
                            assert(va0.anchored@.contains(m));
                        } else {
                            assert(entries@[j - 1].1 == ist);
                        }
                        assert(vec_anchor.anchored@.contains(m));
                    }
                }
                // origin bookkeeping
                assert forall|w: int|
                    0 <= w < fb.len() implies flat_content::<T>(vs).contains(#[trigger] fb[w]) || (
                fb[w] as int) >= s0.len() by {
                    if w < fa.len() {
                        assert(fb[w] == fa[w]);
                    } else {
                        assert(fb[w] == newn[w - fa.len()]);
                        assert(vs[j - 1].1.content().contains(fb[w]) || (fb[w] as int)
                            >= sa.len());
                        if vs[j - 1].1.content().contains(fb[w]) {
                            lemma_flat_content_contains::<T>(vs, fb[w]);
                        }
                    }
                }
                assert forall|d: int, w: int|
                    #![trigger vs[d].1.content()[w]]
                    0 <= d < j && 0 <= w < vs[d].1.content().len() implies fb.contains(
                    vs[d].1.content()[w],
                ) by {
                    if d < j - 1 {
                        assert(entries@[d] == done0[d]);
                        assert(fa.contains(vs[d].1.content()[w]));
                        let w2 = choose|w2: int| 0 <= w2 < fa.len() && fa[w2] == vs[d].1.content()[w];
                        assert(fb[w2] == vs[d].1.content()[w]);
                    } else {
                        assert(vs[d] == *pair);
                        assert(pair.1.content()[w] == vs[d].1.content()[w]);
                        assert(newn.contains(pair.1.content()[w]));
                        assert(newn.contains(vs[d].1.content()[w]));
                        let w2 = choose|w2: int|
                            0 <= w2 < newn.len() && newn[w2] == vs[d].1.content()[w];
                        assert(fb[fa.len() + w2] == vs[d].1.content()[w]);
                    }
                }
                assert forall|d: int, w: int|
                    #![trigger vs[d].1.content()[w]]
                    0 <= d < j && 0 <= w < vs[d].1.content().len() implies flat_nodes::<T>(
                    entries@,
                ).contains(vs[d].1.content()[w]) by {
                    assert(fb.contains(vs[d].1.content()[w]));
                }
                // scene frame for untouched nodes
                assert forall|i: int|
                    0 <= i < s0.len() && i != t as int && !flat_content::<T>(vs).contains(
                        i as usize,
                    ) implies #[trigger] sg@[i] == s0[i] by {
                    assert(!newn.contains(i as usize)) by {
                        if newn.contains(i as usize) {
                            assert(vs[j - 1].1.content().contains(i as usize) || (i as usize as int)
                                >= sa.len());
                            if vs[j - 1].1.content().contains(i as usize) {
                                lemma_flat_content_contains::<T>(vs, i as usize);
                            }
                        }
                    }
                    assert(sa[i] == s0[i]);
                    assert(sb[i] == sa[i]);
                }
                // sentinel untouched
                assert(sb[sent as int] == sa[sent as int]) by {
                    assert(!newn.contains(sent)) by {
                        if newn.contains(sent) {
                            assert(vs[j - 1].1.content().contains(sent) || (sent as int)
                                >= sa.len());
                            if vs[j - 1].1.content().contains(sent) {
                                let w = choose|w: int|
                                    0 <= w < vs[j - 1].1.content().len() && #[trigger] vs[j
                                        - 1].1.content()[w] == sent;
                                lemma_flat_content_split::<T>(vs, j - 1);
                                let off = flat_content::<T>(vs.take(j - 1)).len();
                                assert(flat_content::<T>(vs)[off + w] == sent);
                                assert(flat_content::<T>(vs).contains(sent));
                                lemma_flat_content_contains::<T>(vs, sent);
                                let jj = choose|jj: int|
                                    0 <= jj < vs.len() && (#[trigger] vs[jj]).1.content().contains(
                                        sent,
                                    );
                                vs[jj].1.lemma_val_inv(s0);
                                let ww = choose|ww: int|
                                    0 <= ww < vs[jj].1.content().len() && vs[jj].1.content()[ww]
                                        == sent;
                                assert(content_node_ok(s0, sent));
                            }
                        }
                    }
                }
                // the anchor's slot moved past the new entry
                assert(kids(sb, t) =~= k0.take(sl) + (flat_nodes::<T>(entries@) + seq![sent])
                    + k0.skip(sl));
                lemma_block_placed(
                    sb,
                    t,
                    flat_nodes::<T>(entries@) + seq![sent],
                    k0.take(sl),
                    k0.skip(sl),
                );
                assert(vec_anchor.slot(sb) == sl + flat_nodes::<T>(entries@).len()) by {
                    assert((flat_nodes::<T>(entries@) + seq![sent]).last() == sent);
                    assert(pos_of(sb, t, sent) == sl + flat_nodes::<T>(entries@).len());
                }
                // remaining values still fit
                assert forall|d: int| j <= d < n implies (#[trigger] vs[d]).1.val_inv(sg@) by {
                    lemma_flat_content_split::<T>(vs, d);
                    let off = flat_content::<T>(vs.take(d)).len();
                    assert(vs[d].1.val_inv(sa));
                    vs[d].1.lemma_val_inv(sa);
                    assert forall|w: int|
                        0 <= w < vs[d].1.content().len() && (vs[d].1.content()[w] as int)
                            < sa.len() implies entry_similar(
                        sa,
                        sb,
                        #[trigger] vs[d].1.content()[w],
                    ) by {
                        let c = vs[d].1.content()[w];
                        assert(flat_content::<T>(vs)[off + w] == c);
                        assert(flat_content::<T>(vs).contains(c));
                        assert(content_node_ok(sa, c));
                        assert(!newn.contains(c)) by {
                            if newn.contains(c) {
                                assert(vs[j - 1].1.content().contains(c) || (c as int)
                                    >= sa.len());
                                if vs[j - 1].1.content().contains(c) {
                                    // the same content node in two values: flat content has it twice
                                    let wa = choose|wa: int|
                                        0 <= wa < vs[j - 1].1.content().len() && #[trigger] vs[j
                                            - 1].1.content()[wa] == c;
                                    lemma_flat_content_split::<T>(vs, j - 1);
                                    let offa = flat_content::<T>(vs.take(j - 1)).len();
                                    assert(flat_content::<T>(vs)[offa + wa] == c);
                                    assert(off + w != offa + wa) by {
                                        lemma_flat_content_take_off::<T>(vs, j - 1, d);
                                    }
                                }
                            }
                        }
                        assert(c != t) by {
                            if c == t {
                                assert(kids(sa, t).contains(sent)) by {
                                    assert(node_inv(sa, sent as int));
                                }
                                assert(kids(sa, t).len() == 0);
                            }
                        }
                        assert(sb[c as int] == sa[c as int]);
                    }
                    vs[d].1.lemma_val_frame(sa, sb);
                }
            }
        }
        let st = VecViewState { anchor: vec_anchor, inner_state: entries };
        proof {
            let s3 = sg@;
            let ns = Self::nodes(&st);
            let fl = flat_nodes::<T>(st.inner_state@);
            assert(ns == fl + seq![sent]);
            assert(kids(s3, t) =~= k0.take(sl) + ns + k0.skip(sl));
            lemma_block_placed(s3, t, ns, k0.take(sl), k0.skip(sl));
            assert(par(s3, sent) == t);
            // the footprint is owned
            assert(owns(s3, t, ns)) by {
                assert(kids(s3, t).no_duplicates()) by {
                    assert(node_inv(s3, t as int));
                }
                lemma_nodup_split3(k0.take(sl), ns, k0.skip(sl), kids(s3, t));
                assert forall|k: int| 0 <= k < ns.len() implies {
                    let m = #[trigger] ns[k];
                    &&& (m as int) < s3.len()
                    &&& m != t
                    &&& s3[m as int].alive
                    &&& s3[m as int].parent == Some(t)
                    &&& s3[m as int].children.len() == 0
                } by {
                    if k < fl.len() {
                        let m = ns[k];
                        assert(fl[k] == m);
                        assert(fl.contains(m));
                        lemma_flat_nodes_contains::<T>(st.inner_state@, m);
                        let d = choose|d: int|
                            0 <= d < st.inner_state@.len() && T::nodes(
                                &(#[trigger] st.inner_state@[d]).1,
                            ).contains(m);
                        T::lemma_state_inv(&st.inner_state@[d].1, s3);
                        let w = choose|w: int|
                            0 <= w < T::nodes(&st.inner_state@[d].1).len() && T::nodes(
                                &st.inner_state@[d].1,
                            )[w] == m;
                    } else {
                        assert(ns[k] == sent);
                    }
                }
            }
            // keys are the value keys, hence distinct
            assert(ekeys::<T>(st.inner_state@).no_duplicates()) by {
                assert forall|x: int, y: int|
                    0 <= x < y < ekeys::<T>(st.inner_state@).len() implies ekeys::<T>(
                    st.inner_state@,
                )[x] != ekeys::<T>(st.inner_state@)[y] by {
                    assert(ekeys::<T>(st.inner_state@)[x] == st.inner_state@[x].0);
                    assert(st.inner_state@[x].0 == vs[x].0 && st.inner_state@[y].0 == vs[y].0);
                    assert(vkeys::<T>(vs)[x] == vs[x].0 && vkeys::<T>(vs)[y] == vs[y].0);
                }
            }
            assert(Self::state_inv(&st, s3));
            assert(Self::represents(&st, self));
            // origin clauses
            assert forall|k: int| 0 <= k < ns.len() implies self.content().contains(
                #[trigger] ns[k],
            ) || (ns[k] as int) >= s0.len() by {
                if k < fl.len() {
                    assert(ns[k] == fl[k]);
                }
            }
            assert forall|k: int| 0 <= k < self.content().len() implies ns.contains(
                #[trigger] self.content()[k],
            ) by {
                let c = self.content()[k];
                lemma_flat_content_contains::<T>(vs, c);
                let d = choose|d: int| 0 <= d < vs.len() && (#[trigger] vs[d]).1.content().contains(c);
                let w = choose|w: int| 0 <= w < vs[d].1.content().len() && vs[d].1.content()[w] == c;
                assert(st.inner_state@[d] == st.inner_state@[d]);
                assert(fl.contains(c));
                let w2 = choose|w2: int| 0 <= w2 < fl.len() && fl[w2] == c;
                assert(ns[w2] == c);
            }
            // frame
            assert(same_but(s0, s3, t, ns)) by {
                assert forall|i: int|
                    0 <= i < s0.len() && i != t as int && !ns.contains(i as usize) implies
                    #[trigger] s3[i] == s0[i] by {
                    if flat_content::<T>(vs).contains(i as usize) {
                        lemma_flat_content_contains::<T>(vs, i as usize);
                        let d = choose|d: int|
                            0 <= d < vs.len() && (#[trigger] vs[d]).1.content().contains(i as usize);
                        let w = choose|w: int|
                            0 <= w < vs[d].1.content().len() && vs[d].1.content()[w] == (i as usize);
                        assert(fl.contains(i as usize));
                        let w2 = choose|w2: int| 0 <= w2 < fl.len() && fl[w2] == (i as usize);
                        assert(ns[w2] == (i as usize));
                        assert(false);
                    }
                }
            }
            // the parent anchor
            assert(s3[anchor.anchor_node() as int].alive == s2[anchor.anchor_node() as int].alive
                && s3[anchor.anchor_node() as int].parent == s2[anchor.anchor_node()
                as int].parent) by {
                anchor.lemma_anchor_inv(s2);
                let an = anchor.anchor_node();
                if an != t {
                    assert(!flat_content::<T>(vs).contains(an)) by {
                        if flat_content::<T>(vs).contains(an) {
                            lemma_flat_content_contains::<T>(vs, an);
                            let d = choose|d: int|
                                0 <= d < vs.len() && (#[trigger] vs[d]).1.content().contains(an);
                            vs[d].1.lemma_val_inv(s0);
                            let w = choose|w: int|
                                0 <= w < vs[d].1.content().len() && vs[d].1.content()[w] == an;
                            assert(content_node_ok(s0, an));
                            assert(s2[an as int] == s0[an as int]);
                            assert(s2[an as int].parent is None);
                        }
                    }
                    assert(s3[an as int] == s0[an as int]);
                    assert(s2[an as int] == s0[an as int]);
                }
            }
            anchor.lemma_anchor_frame(s2, s3);
        }
        st
    }

    /// Reusing a key keeps that entry's built state (its sentinel survives),
    /// and a reused key whose value is unchanged keeps its whole footprint
    /// intact: the keyed-list minimality law.  The footprint of every entry
    /// whose key vanished is destroyed.
    #[verifier::rlimit(100)]
    fn rebuild(&self, sg: &mut Scene, state: &mut Self::State)
        ensures
            forall|d: int|
                0 <= d < self@.len() && ekeys::<T>(old(state).inner_state@).contains(self@[d].0)
                    && T::represents(
                    &old(state).inner_state@[ekeys::<T>(old(state).inner_state@).index_of_first(
                        self@[d].0,
                    )->Some_0].1,
                    &self@[d].1,
                ) ==> T::nodes(&(#[trigger] final(state).inner_state@[d]).1) == T::nodes(
                    &old(state).inner_state@[ekeys::<T>(old(state).inner_state@).index_of_first(
                        self@[d].0,
                    )->Some_0].1,
                ),
            forall|d: int|
                0 <= d < self@.len() && ekeys::<T>(old(state).inner_state@).contains(self@[d].0)
                    ==> T::top(&(#[trigger] final(state).inner_state@[d]).1) == T::top(
                    &old(state).inner_state@[ekeys::<T>(old(state).inner_state@).index_of_first(
                        self@[d].0,
                    )->Some_0].1,
                ),
            forall|i: int, w: int|
                #![trigger T::nodes(&old(state).inner_state@[i].1)[w]]
                0 <= i < old(state).inner_state@.len() && !vkeys::<T>(self@).contains(
                    old(state).inner_state@[i].0,
                ) && 0 <= w < T::nodes(&old(state).inner_state@[i].1).len()
                    ==> !final(sg)@[T::nodes(&old(state).inner_state@[i].1)[w] as int].alive,
    {
        let ghost s0 = sg@;
        let ghost st0 = *state;
        let ghost es0 = st0.inner_state@;
        let ghost vs = self@;
        let ghost sent = st0.anchor.node;
        let ghost p = par(s0, sent);
        let ghost ns0 = Self::nodes(&st0);
        let ghost fl0 = flat_nodes::<T>(es0);
        let ghost i0 = run_start(s0, p, ns0);
        let ghost k0 = kids(s0, p);
        let ghost noop = Self::represents(&st0, self);
        proof {
            Self::lemma_state_inv(&st0, s0);
            assert(node_inv(s0, sent as int));
            assert(node_inv(s0, p as int));
            lemma_placed_parts(s0, p, ns0);
            assert(ns0 == fl0 + seq![sent]);
            assert(ns0[ns0.len() - 1] == sent);
            assert(ns0.no_duplicates());
            assert(!fl0.contains(sent)) by {
                if fl0.contains(sent) {
                    let w = choose|w: int| 0 <= w < fl0.len() && fl0[w] == sent;
                    assert(ns0[w] == sent);
                }
            }
            assert(pos_of(s0, p, sent) == i0 + fl0.len());
        }
        let sentv = state.anchor.node;
        let pv = match sg.get_parent(sentv) {
            Some(x) => x,
            None => {
                proof {
                    assert(false);
                }
                0
            },
        };
        let kl = sg.child_count(pv);
        proof {
            assert(pv == p);
            assert(kl as int == k0.len());
        }
        // Phase 1: drain the entries into a keyed pool with their footprints.
        let mut pool: Vec<(u64, Option<(T::State, Vec<usize>)>)> = Vec::new();
        let mut total: usize = 0;
        let n_old = state.inner_state.len();
        let mut ip: usize = 0;
        while ip < n_old
            invariant
                n_old == es0.len(),
                ip <= n_old,
                sg@ == s0,
                es0 == st0.inner_state@,
                ns0 == flat_nodes::<T>(es0) + seq![sent],
                fl0 == flat_nodes::<T>(es0),
                state.inner_state@ == es0.skip(ip as int),
                state.anchor == st0.anchor,
                pool@.len() == ip,
                forall|i: int|
                    0 <= i < ip ==> (#[trigger] pool@[i]).0 == es0[i].0 && pool@[i].1 is Some
                        && pool@[i].1->Some_0.0 == es0[i].1 && pool@[i].1->Some_0.1@ == T::nodes(
                        &es0[i].1,
                    ),
                total as int == flat_nodes::<T>(es0.take(ip as int)).len(),
                total as int <= fl0.len(),
                fl0.len() + 1 <= k0.len(),
                kl as int == k0.len(),
                scene_inv(s0),
                (p as int) < s0.len(),
                0 <= i0,
                i0 + ns0.len() <= k0.len(),
            decreases n_old - ip,
        {
            let (key, ist) = state.inner_state.remove(0);
            let mut nv: Vec<usize> = Vec::new();
            T::collect_run(&ist, &mut nv);
            proof {
                assert(es0.skip(ip as int)[0] == es0[ip as int]);
                assert(ist == es0[ip as int].1);
                lemma_flat_nodes_take_succ::<T>(es0, ip as int);
                lemma_flat_nodes_take_off_mono::<T>(es0, ip as int + 1, es0.len() as int);
                assert(es0.take(es0.len() as int) =~= es0);
            }
            total = total + nv.len();
            pool.push((key, Some((ist, nv))));
            ip = ip + 1;
            proof {
                assert(state.inner_state@ =~= es0.skip(ip as int)) by {
                    assert(es0.skip(ip - 1).remove(0) =~= es0.skip(ip as int));
                }
            }
        }
        proof {
            assert(es0.take(n_old as int) =~= es0);
            assert(total as int == fl0.len());
        }
        let sidx = sg.get_index(sentv);
        proof {
            assert(sidx as int == pos_of(s0, p, sent));
            assert(sidx as int == i0 + total);
        }
        let mut cursor = sidx - total;
        proof {
            // the drained pool mirrors the old entries exactly
            lemma_pool_flat_matches::<T>(pool@, es0);
            assert(kids(s0, p) =~= k0.take(i0) + flat_nodes::<T>(state.inner_state@)
                + pool_flat::<T>(pool@) + seq![sent] + k0.skip(i0 + ns0.len() as int)) by {
                assert(state.inner_state@ =~= Seq::<(u64, T::State)>::empty()) by {
                    assert(es0.skip(es0.len() as int) =~= Seq::<(u64, T::State)>::empty());
                }
                assert(flat_nodes::<T>(state.inner_state@) =~= Seq::<usize>::empty());
                assert(pool_flat::<T>(pool@) == fl0);
                assert(kids(s0, p) == k0.take(i0) + ns0 + k0.skip(i0 + ns0.len() as int));
            }
            assert forall|i: int| 0 <= i < es0.len() implies ((#[trigger] pool@[i]).1 is Some
                <==> !vkeys::<T>(vs).take(0).contains(es0[i].0)) by {
                if vkeys::<T>(vs).take(0).contains(es0[i].0) {
                    let d = choose|d: int|
                        0 <= d < 0 && #[trigger] vkeys::<T>(vs).take(0)[d] == es0[i].0;
                }
            }
            assert forall|i: int|
                0 <= i < es0.len() && (#[trigger] pool@[i]).1 is Some implies T::state_inv(
                &es0[i].1,
                s0,
            ) && par(s0, T::top(&es0[i].1)) == p by {
                assert(T::state_inv(&(es0[i]).1, s0));
            }
            assert forall|m: usize| #[trigger] st0.anchor.anchored@.contains(m) == ((exists|d: int|
                0 <= d < 0 && T::top(&(#[trigger] state.inner_state@[d]).1) == m) || (exists|i: int|
                0 <= i < es0.len() && (#[trigger] pool@[i]).1 is Some && T::top(&es0[i].1)
                    == m)) by {
                if st0.anchor.anchored@.contains(m) {
                    let j = choose|j: int|
                        0 <= j < es0.len() && T::top(&(#[trigger] es0[j]).1) == m;
                    assert(pool@[j].1 is Some && T::top(&es0[j].1) == m);
                }
                if exists|i: int|
                    0 <= i < es0.len() && (#[trigger] pool@[i]).1 is Some && T::top(&es0[i].1)
                        == m {
                    let i = choose|i: int|
                        0 <= i < es0.len() && (#[trigger] pool@[i]).1 is Some && T::top(&es0[i].1)
                            == m;
                    assert(T::top(&(es0[i]).1) == m);
                }
            }
            // every new value only names existing nodes as content
            assert forall|j: int, k: int|
                #![trigger vs[j].1.content()[k]]
                0 <= j < vs.len() && 0 <= k < vs[j].1.content().len() implies ((
            vs[j].1.content()[k]) as int) < s0.len() by {
                assert(pair_pre::<T>(vs, es0, s0, sent, j));
                if ekeys::<T>(es0).contains(vs[j].0) {
                    let i = ekeys::<T>(es0).index_of_first(vs[j].0)->Some_0;
                    ekeys::<T>(es0).index_of_first_ensures(vs[j].0);
                    assert(T::state_inv(&(es0[i]).1, s0));
                    vs[j].1.lemma_rebuild_pre_bound(&es0[i].1, s0);
                } else {
                    vs[j].1.lemma_val_inv(s0);
                    assert(content_node_ok(s0, vs[j].1.content()[k]));
                }
            }
            // the unchanged-list bookkeeping starts clean
            if noop {
                assert(flat_nodes::<T>(state.inner_state@) =~= flat_nodes::<T>(es0.take(0))) by {
                    assert(es0.take(0) =~= Seq::<(u64, T::State)>::empty());
                    assert(state.inner_state@ =~= Seq::<(u64, T::State)>::empty()) by {
                        assert(es0.skip(es0.len() as int) =~= Seq::<(u64, T::State)>::empty());
                    }
                }
            }
        }
        // Phase 2: walk the new sequence in order, reusing, moving, building.
        let nv_len = self.len();
        let mut jn: usize = 0;
        while jn < nv_len
            invariant
                nv_len == vs.len(),
                jn <= nv_len,
                vs == self@,
                es0 == st0.inner_state@,
                p == pv,
                sent == state.anchor.node,
                noop == Self::represents(&st0, self),
                walk_inv::<T>(sg@, s0, vs, es0, pool@, *state, pv, k0, i0, jn as int, noop),
                cursor as int == i0 + flat_nodes::<T>(state.inner_state@).len(),
            decreases nv_len - jn,
        {
            let pair = &self[jn];
            let key = pair.0;
            proof {
                assert(vs[jn as int] == *pair);
            }
            let plen = pool.len();
            let found = find_key::<T>(&pool, key);
            proof {
                ekeys::<T>(es0).index_of_first_ensures(key);
                if found < plen {
                    assert(pool@[found as int].0 == key);
                    assert(ekeys::<T>(es0)[found as int] == key);
                    assert(ekeys::<T>(es0).contains(key));
                    assert forall|i: int| 0 <= i < found implies ekeys::<T>(es0)[i] != key by {
                        assert(pool@[i].0 != key);
                    }
                    assert(ekeys::<T>(es0).index_of_first(key) == Some(found as int));
                } else {
                    assert(!ekeys::<T>(es0).contains(key)) by {
                        if ekeys::<T>(es0).contains(key) {
                            let i = choose|i: int|
                                0 <= i < ekeys::<T>(es0).len() && ekeys::<T>(es0)[i] == key;
                            assert(pool@[i].0 == key);
                        }
                    }
                }
            }
            if found < plen {
                cursor = reuse_entry::<T>(
                    sg,
                    state,
                    &mut pool,
                    &pair.1,
                    key,
                    found,
                    cursor,
                    pv,
                    Ghost(s0),
                    Ghost(vs),
                    Ghost(es0),
                    Ghost(k0),
                    Ghost(i0),
                    Ghost(jn as int),
                    Ghost(noop),
                );
            } else {
                cursor = build_entry::<T>(
                    sg,
                    state,
                    &pool,
                    &pair.1,
                    key,
                    cursor,
                    pv,
                    Ghost(s0),
                    Ghost(vs),
                    Ghost(es0),
                    Ghost(k0),
                    Ghost(i0),
                    Ghost(jn as int),
                    Ghost(noop),
                );
            }
            jn = jn + 1;
        }
        proof {
            assert(vkeys::<T>(vs).take(vs.len() as int) =~= vkeys::<T>(vs));
            assert forall|i: int| 0 <= i < es0.len() implies ((#[trigger] pool@[i]).1 is Some <==> (
            !vkeys::<T>(vs).contains(es0[i].0) && 0 <= i)) by {}
            if noop {
                assert(es0.take(es0.len() as int) =~= es0);
            }
        }
        // Phase 3: tear down the entries whose keys disappeared.
        let plen3 = pool.len();
        let mut i3: usize = 0;
        while i3 < plen3
            invariant
                plen3 == pool@.len(),
                pool@.len() == es0.len(),
                i3 <= plen3,
                vs == self@,
                es0 == st0.inner_state@,
                scene_inv(sg@),
                s0.len() <= sg@.len(),
                scene_inv(s0),
                (p as int) < s0.len(),
                (sent as int) < s0.len(),
                sg@[sent as int] == s0[sent as int],
                s0[sent as int].parent == Some(p),
                s0[sent as int].children.len() == 0,
                s0[sent as int].alive,
                ns0 == fl0 + seq![sent],
                fl0 == flat_nodes::<T>(es0),
                ns0.no_duplicates(),
                owns(s0, p, ns0),
                vkeys::<T>(vs).no_duplicates(),
                ekeys::<T>(es0).no_duplicates(),
                0 <= i0,
                i0 + ns0.len() <= k0.len(),
                k0 == kids(s0, p),
                forall|i: int| 0 <= i < es0.len() ==> (#[trigger] pool@[i]).0 == es0[i].0,
                forall|i: int|
                    0 <= i < es0.len() ==> ((#[trigger] pool@[i]).1 is Some <==> (!vkeys::<T>(
                        vs,
                    ).contains(es0[i].0) && i3 <= i)),
                forall|i: int|
                    0 <= i < es0.len() && (#[trigger] pool@[i]).1 is Some ==> pool@[i].1->Some_0.0
                        == es0[i].1,
                forall|i: int|
                    0 <= i < es0.len() && (#[trigger] pool@[i]).1 is Some ==> T::state_inv(
                        &es0[i].1,
                        sg@,
                    ) && par(sg@, T::top(&es0[i].1)) == p,
                state.anchor.node == sent,
                state.anchor.anchor_inv(sg@),
                state.inner_state@.len() == vs.len(),
                forall|d: int|
                    0 <= d < vs.len() ==> (#[trigger] state.inner_state@[d]).0 == vs[d].0
                        && T::represents(&state.inner_state@[d].1, &vs[d].1),
                forall|d: int|
                    0 <= d < vs.len() ==> T::state_inv(&(#[trigger] state.inner_state@[d]).1, sg@)
                        && par(sg@, T::top(&state.inner_state@[d].1)) == p,
                kids(sg@, p) == k0.take(i0) + flat_nodes::<T>(state.inner_state@) + pool_flat::<T>(
                    pool@,
                ) + seq![sent] + k0.skip(i0 + ns0.len() as int),
                forall|m: usize|
                    #[trigger] state.anchor.anchored@.contains(m) == ((exists|d: int|
                        0 <= d < vs.len() && T::top(&(#[trigger] state.inner_state@[d]).1) == m)
                        || (exists|i: int|
                        0 <= i < es0.len() && (#[trigger] pool@[i]).1 is Some && T::top(&es0[i].1)
                            == m)),
                forall|w: int|
                    0 <= w < flat_nodes::<T>(state.inner_state@).len() ==> ns0.contains(
                        #[trigger] flat_nodes::<T>(state.inner_state@)[w],
                    ) || flat_content::<T>(vs).contains(flat_nodes::<T>(state.inner_state@)[w]) || (
                    flat_nodes::<T>(state.inner_state@)[w] as int) >= s0.len(),
                forall|d: int, w: int|
                    #![trigger vs[d].1.content()[w]]
                    0 <= d < vs.len() && 0 <= w < vs[d].1.content().len() ==> flat_nodes::<T>(
                        state.inner_state@,
                    ).contains(vs[d].1.content()[w]),
                forall|i: int|
                    0 <= i < s0.len() && i != p as int && !ns0.contains(i as usize)
                        && !flat_content::<T>(vs).contains(i as usize) && !releases(
                        flat_content::<T>(vs),
                        s0,
                        i,
                    ) ==> #[trigger] sg@[i] == s0[i],
                forall|j: usize|
                    (j as int) < s0.len() && j != p && !ns0.contains(j) && !flat_content::<T>(
                        vs,
                    ).contains(j) ==> #[trigger] entry_similar(s0, sg@, j),
                sg@[p as int].alive == s0[p as int].alive && sg@[p as int].parent == s0[
                    p as int
                ].parent,
                forall|d: int|
                    0 <= d < vs.len() && ekeys::<T>(es0).contains(vs[d].0) && T::represents(
                        &es0[ekeys::<T>(es0).index_of_first(vs[d].0)->Some_0].1,
                        &vs[d].1,
                    ) ==> T::nodes(&(#[trigger] state.inner_state@[d]).1) == T::nodes(
                        &es0[ekeys::<T>(es0).index_of_first(vs[d].0)->Some_0].1,
                    ),
                forall|d: int|
                    0 <= d < vs.len() && ekeys::<T>(es0).contains(vs[d].0) ==> T::top(
                        &(#[trigger] state.inner_state@[d]).1,
                    ) == T::top(&es0[ekeys::<T>(es0).index_of_first(vs[d].0)->Some_0].1),
                forall|i: int, w: int|
                    #![trigger T::nodes(&es0[i].1)[w]]
                    0 <= i < i3 && !vkeys::<T>(vs).contains(es0[i].0) && 0 <= w < T::nodes(
                        &es0[i].1,
                    ).len() ==> !sg@[T::nodes(&es0[i].1)[w] as int].alive,
                noop == Self::represents(&st0, self),
                noop ==> (forall|i: int|
                    0 <= i < s0.len() && s0[i].alive ==> #[trigger] sg@[i].alive),
                noop ==> flat_nodes::<T>(state.inner_state@) == fl0,
            decreases plen3 - i3,
        {
            let consume = pool[i3].1.is_some();
            if consume {
                let ghost sa = sg@;
                let ghost pool0 = pool@;
                let ghost ei = i3 as int;
                let ghost est = es0[ei].1;
                let ghost blk = T::nodes(&est);
                let ghost pa = pool_flat::<T>(pool0.take(ei));
                let ghost pb = pool_flat::<T>(pool0.skip(ei + 1));
                let entry = pool.remove(i3);
                let kk = entry.0;
                let slotopt = entry.1;
                pool.insert(i3, (kk, None));
                let taken = slotopt.unwrap();
                let mut ist = taken.0;
                proof {
                    assert(ist == est);
                    lemma_pool_flat_split::<T>(pool0, ei);
                    assert(slot_nodes::<T>(pool0[ei]) == blk);
                    assert(pool@ =~= pool0.update(ei, (kk, None))) by {
                        assert(pool0.remove(ei).insert(ei, (kk, None)) =~= pool0.update(
                            ei,
                            (kk, None),
                        ));
                    }
                    lemma_pool_flat_split::<T>(pool@, ei);
                    assert(pool@.take(ei) =~= pool0.take(ei));
                    assert(pool@.skip(ei + 1) =~= pool0.skip(ei + 1));
                    assert(slot_nodes::<T>(pool@[ei]) =~= Seq::<usize>::empty());
                    assert(pool_flat::<T>(pool@) =~= pa + pb);
                    assert(T::state_inv(&ist, sa));
                    T::lemma_state_inv(&ist, sa);
                    assert(state.anchor.target(sa) == p);
                    assert(state.anchor.tracks(T::top(&ist))) by {
                        assert(pool0[ei].1 is Some);
                    }
                    assert(!blk.contains(sent)) by {
                        if blk.contains(sent) {
                            assert(kids(sa, p).no_duplicates()) by {
                                assert(node_inv(sa, p as int));
                            }
                            let fd = flat_nodes::<T>(state.inner_state@);
                            assert(kids(sa, p) =~= (k0.take(i0) + fd + pa) + blk + (pb + seq![sent]
                                + post_of(k0, i0, ns0)));
                            lemma_nodup_split3(
                                k0.take(i0) + fd + pa,
                                blk,
                                pb + seq![sent] + post_of(k0, i0, ns0),
                                kids(sa, p),
                            );
                            assert((pb + seq![sent] + post_of(k0, i0, ns0)).contains(sent)) by {
                                assert((pb + seq![sent] + post_of(k0, i0, ns0))[pb.len() as int]
                                    == sent);
                            }
                        }
                    }
                }
                proof {
                    assert(!state.anchor.anchored@.contains(sent)) by {
                        assert(state.anchor.anchor_inv(sa));
                    }
                }
                T::teardown(&mut ist, sg, &mut state.anchor);
                proof {
                    let sd = sg@;
                    let fdone = flat_nodes::<T>(state.inner_state@);
                    let pre0 = k0.take(i0) + fdone + pa;
                    let post0 = pb + seq![sent] + post_of(k0, i0, ns0);
                    assert(kids(sa, p) =~= pre0 + blk + post0);
                    assert(kids(sa, p).no_duplicates()) by {
                        assert(node_inv(sa, p as int));
                    }
                    lemma_nodup_split3(pre0, blk, post0, kids(sa, p));
                    lemma_without_mid(kids(sa, p), pre0, blk, post0);
                    assert(kids(sd, p) == pre0 + post0);
                    assert(kids(sd, p) =~= k0.take(i0) + fdone + pool_flat::<T>(pool@) + seq![sent]
                        + k0.skip(i0 + ns0.len() as int));
                    // who was touched
                    assert(sa.len() == sd.len());
                    assert forall|i: int|
                        0 <= i < sa.len() && i != p as int && !blk.contains(i as usize) implies
                        #[trigger] sd[i] == sa[i] by {}
                    // reconciled entries own nodes away from the torn block
                    assert forall|d: int|
                        0 <= d < vs.len() implies apart(
                        T::nodes(&(#[trigger] state.inner_state@[d]).1),
                        blk,
                    ) by {
                        assert forall|w: int|
                            0 <= w < T::nodes(&state.inner_state@[d].1).len() implies !blk.contains(
                            #[trigger] T::nodes(&state.inner_state@[d].1)[w],
                        ) by {
                            let m = T::nodes(&state.inner_state@[d].1)[w];
                            assert(pre0.contains(m)) by {
                                lemma_flat_nodes_split::<T>(state.inner_state@, d);
                                let off = flat_nodes::<T>(state.inner_state@.take(d)).len();
                                assert(fdone[off + w] == m);
                                assert(pre0[k0.take(i0).len() as int + off + w] == m);
                            }
                            if blk.contains(m) {
                                assert(!pre0.contains(m));
                            }
                        }
                    }
                    // hence they survive
                    assert forall|d: int|
                        0 <= d < vs.len() implies T::state_inv(
                        &(#[trigger] state.inner_state@[d]).1,
                        sd,
                    ) && par(sd, T::top(&state.inner_state@[d].1)) == p by {
                        assert(apart(T::nodes(&state.inner_state@[d].1), blk));
                        survive::<T>(&state.inner_state@[d].1, sa, sd, p, blk);
                    }
                    // the other unconsumed entries own nodes away from the block
                    assert forall|i: int|
                        0 <= i < es0.len() && (#[trigger] pool@[i]).1 is Some implies apart(
                        T::nodes(&es0[i].1),
                        blk,
                    ) by {
                        assert(i != ei);
                        assert(pool0[i].1 is Some);
                        assert(apart(T::nodes(&es0[i].1), blk)) by {
                            assert forall|w: int|
                                0 <= w < T::nodes(&es0[i].1).len() implies !blk.contains(
                                #[trigger] T::nodes(&es0[i].1)[w],
                            ) by {
                                let m = T::nodes(&es0[i].1)[w];
                                if i < ei {
                                    lemma_pool_flat_split::<T>(pool0.take(ei), i);
                                    assert(pool0.take(ei)[i] == pool0[i]);
                                    assert(slot_nodes::<T>(pool0[i])[w] == m);
                                    assert(pa == pool_flat::<T>(pool0.take(ei).take(i))
                                        + slot_nodes::<T>(pool0[i]) + pool_flat::<T>(
                                        pool0.take(ei).skip(i + 1),
                                    ));
                                    assert(pa[pool_flat::<T>(pool0.take(ei).take(i)).len() as int
                                        + w] == m);
                                    assert(pa.contains(m));
                                    let w2 = choose|w2: int| 0 <= w2 < pa.len() && pa[w2] == m;
                                    assert(pre0[k0.take(i0).len() as int + fdone.len() as int + w2]
                                        == m);
                                    assert(pre0.contains(m));
                                    if blk.contains(m) {
                                        assert(!pre0.contains(m));
                                    }
                                } else {
                                    lemma_pool_flat_split::<T>(pool0.skip(ei + 1), i - ei - 1);
                                    assert(pool0.skip(ei + 1)[i - ei - 1] == pool0[i]);
                                    assert(slot_nodes::<T>(pool0[i])[w] == m);
                                    assert(pb == pool_flat::<T>(pool0.skip(ei + 1).take(i - ei - 1))
                                        + slot_nodes::<T>(pool0[i]) + pool_flat::<T>(
                                        pool0.skip(ei + 1).skip(i - ei),
                                    ));
                                    assert(pb[pool_flat::<T>(
                                        pool0.skip(ei + 1).take(i - ei - 1),
                                    ).len() as int + w] == m);
                                    assert(pb.contains(m));
                                    let w2 = choose|w2: int| 0 <= w2 < pb.len() && pb[w2] == m;
                                    assert(post0[w2] == m);
                                    assert(post0.contains(m));
                                    if blk.contains(m) {
                                        assert(!post0.contains(m));
                                    }
                                }
                            }
                        }
                    }
                    // hence they survive
                    assert forall|i: int|
                        0 <= i < es0.len() && (#[trigger] pool@[i]).1 is Some implies T::state_inv(
                        &es0[i].1,
                        sd,
                    ) && par(sd, T::top(&es0[i].1)) == p by {
                        assert(apart(T::nodes(&es0[i].1), blk));
                        survive::<T>(&es0[i].1, sa, sd, p, blk);
                    }
                    // the tracking set lost exactly the torn entry's sentinel
                    assert forall|m: usize| #[trigger] state.anchor.anchored@.contains(m) == ((
                    exists|d: int|
                        0 <= d < vs.len() && T::top(&(#[trigger] state.inner_state@[d]).1) == m)
                        || (exists|i: int|
                        0 <= i < es0.len() && (#[trigger] pool@[i]).1 is Some && T::top(&es0[i].1)
                            == m)) by {
                        let oldrhs = (exists|d: int|
                            0 <= d < vs.len() && T::top(&(#[trigger] state.inner_state@[d]).1)
                                == m) || (exists|i: int|
                            0 <= i < es0.len() && (#[trigger] pool0[i]).1 is Some && T::top(
                                &es0[i].1,
                            ) == m);
                        if m == T::top(&est) {
                            assert(!state.anchor.anchored@.contains(m));
                            if exists|d: int|
                                0 <= d < vs.len() && T::top(
                                    &(#[trigger] state.inner_state@[d]).1,
                                ) == m {
                                let d = choose|d: int|
                                    0 <= d < vs.len() && T::top(
                                        &(#[trigger] state.inner_state@[d]).1,
                                    ) == m;
                                // the done entry's sentinel would be in two places
                                T::lemma_state_inv(&state.inner_state@[d].1, sa);
                                let dl = T::nodes(&state.inner_state@[d].1).len();
                                assert(T::nodes(&state.inner_state@[d].1)[dl - 1] == m);
                                assert(T::nodes(&state.inner_state@[d].1).contains(m));
                                assert(!blk.contains(m)) by {
                                    assert(apart(T::nodes(&state.inner_state@[d].1), blk));
                                }
                                assert(blk.contains(m)) by {
                                    T::lemma_state_inv(&est, sa);
                                    let tl = blk.len();
                                    assert(blk[tl - 1] == m);
                                }
                            }
                            if exists|i: int|
                                0 <= i < es0.len() && (#[trigger] pool@[i]).1 is Some && T::top(
                                    &es0[i].1,
                                ) == m {
                                let i = choose|i: int|
                                    0 <= i < es0.len() && (#[trigger] pool@[i]).1 is Some && T::top(
                                        &es0[i].1,
                                    ) == m;
                                assert(i != ei);
                                T::lemma_state_inv(&es0[i].1, sa);
                                let dl = T::nodes(&es0[i].1).len();
                                assert(T::nodes(&es0[i].1)[dl - 1] == m);
                                assert(T::nodes(&es0[i].1).contains(m));
                                assert(!blk.contains(m)) by {
                                    assert(apart(T::nodes(&es0[i].1), blk));
                                }
                                assert(blk.contains(m)) by {
                                    T::lemma_state_inv(&est, sa);
                                    let tl = blk.len();
                                    assert(blk[tl - 1] == m);
                                }
                            }
                        } else {
                            assert(state.anchor.tracks(m) == old_tracking_full::<T>(
                                state.inner_state@,
                                pool0,
                                es0,
                                m,
                            ));
                            if state.anchor.anchored@.contains(m) {
                                if exists|i: int|
                                    0 <= i < es0.len() && (#[trigger] pool0[i]).1 is Some && T::top(
                                        &es0[i].1,
                                    ) == m {
                                    let i = choose|i: int|
                                        0 <= i < es0.len() && (#[trigger] pool0[i]).1 is Some
                                            && T::top(&es0[i].1) == m;
                                    assert(i != ei);
                                    assert(pool@[i] == pool0[i]);
                                }
                            }
                            if exists|i: int|
                                0 <= i < es0.len() && (#[trigger] pool@[i]).1 is Some && T::top(
                                    &es0[i].1,
                                ) == m {
                                let i = choose|i: int|
                                    0 <= i < es0.len() && (#[trigger] pool@[i]).1 is Some && T::top(
                                        &es0[i].1,
                                    ) == m;
                                assert(pool0[i] == pool@[i]);
                            }
                        }
                    }
                    // frame against the starting scene
                    assert forall|i: int|
                        0 <= i < s0.len() && i != p as int && !ns0.contains(i as usize)
                            && !flat_content::<T>(vs).contains(i as usize) && !releases(
                            flat_content::<T>(vs),
                            s0,
                            i,
                        ) implies #[trigger] sg@[i] == s0[i] by {
                        assert(!blk.contains(i as usize)) by {
                            if blk.contains(i as usize) {
                                lemma_flat_nodes_split::<T>(es0, ei);
                                let w2 = choose|w2: int|
                                    0 <= w2 < blk.len() && blk[w2] == (i as usize);
                                let off = flat_nodes::<T>(es0.take(ei)).len();
                                assert(fl0[off + w2] == (i as usize));
                                assert(ns0[off + w2] == (i as usize));
                            }
                        }
                    }
                    assert(sg@[sent as int] == s0[sent as int]);
                    // untouched nodes stay similar
                    assert forall|j: usize|
                        (j as int) < s0.len() && j != p && !ns0.contains(j) && !flat_content::<T>(
                            vs,
                        ).contains(j) implies #[trigger] entry_similar(s0, sd, j) by {
                        assert(entry_similar(s0, sa, j));
                        assert(!blk.contains(j)) by {
                            if blk.contains(j) {
                                let wz = choose|wz: int| 0 <= wz < blk.len() && blk[wz] == j;
                                lemma_flat_nodes_split::<T>(es0, ei);
                                let off = flat_nodes::<T>(es0.take(ei)).len();
                                assert(fl0[off + wz] == j);
                                assert(ns0[off + wz] == j);
                            }
                        }
                        assert(sd[j as int] == sa[j as int]);
                        assert(entry_similar(sa, sd, j));
                        lemma_similar_trans(s0, sa, sd, j);
                    }
                    // footprints of entries already torn down stay destroyed
                    assert forall|i: int, w: int|
                        #![trigger T::nodes(&es0[i].1)[w]]
                        0 <= i <= ei && !vkeys::<T>(vs).contains(es0[i].0) && 0 <= w < T::nodes(
                            &es0[i].1,
                        ).len() implies !sd[T::nodes(&es0[i].1)[w] as int].alive by {
                        let m = T::nodes(&es0[i].1)[w];
                        if i == ei {
                            assert(!sd[blk[w] as int].alive);
                        } else {
                            assert(!sa[m as int].alive);
                            assert((m as int) < s0.len()) by {
                                lemma_flat_nodes_split::<T>(es0, i);
                                let off = flat_nodes::<T>(es0.take(i)).len();
                                assert(fl0[off + w] == m);
                                assert(ns0[off + w] == m);
                                assert(owns(s0, p, ns0));
                            }
                            assert(m != p) by {
                                assert(node_inv(s0, sent as int));
                                assert(s0[p as int].alive);
                            }
                            assert(!blk.contains(m)) by {
                                if blk.contains(m) {
                                    let wz = choose|wz: int| 0 <= wz < blk.len() && blk[wz] == m;
                                    assert(T::nodes(&est)[wz] == m);
                                    assert(sa[m as int].alive) by {
                                        T::lemma_state_inv(&est, sa);
                                        assert(T::nodes(&est).contains(m));
                                    }
                                }
                            }
                            assert(sd[m as int] == sa[m as int]);
                        }
                    }
                    assert(!noop) by {
                        if noop {
                            assert(es0.len() == vs.len());
                            assert(es0[ei].0 == vs[ei].0);
                            assert(vkeys::<T>(vs)[ei] == es0[ei].0);
                            assert(vkeys::<T>(vs).contains(es0[ei].0));
                        }
                    }
                }
            }
            i3 = i3 + 1;
            proof {
                assert forall|i: int|
                    0 <= i < es0.len() implies ((#[trigger] pool@[i]).1 is Some <==> (!vkeys::<T>(
                    vs,
                ).contains(es0[i].0) && i3 <= i)) by {
                    if i == i3 - 1 {
                        if !consume {
                            assert(vkeys::<T>(vs).contains(es0[i].0));
                        }
                    }
                }
            }
        }
        proof {
            let sfin = sg@;
            let esf = state.inner_state@;
            let flf = flat_nodes::<T>(esf);
            let nsf = Self::nodes(state);
            assert(forall|i: int| 0 <= i < pool@.len() ==> (#[trigger] pool@[i]).1 is None);
            lemma_pool_flat_all_consumed::<T>(pool@);
            assert(kids(sfin, p) =~= k0.take(i0) + nsf + k0.skip(i0 + ns0.len() as int)) by {
                assert(pool_flat::<T>(pool@) =~= Seq::<usize>::empty());
                assert(nsf == flf + seq![sent]);
            }
            lemma_block_placed(sfin, p, nsf, k0.take(i0), k0.skip(i0 + ns0.len() as int));
            assert(par(sfin, sent) == p);
            // the new state is well-formed
            assert(owns(sfin, p, nsf)) by {
                assert(kids(sfin, p).no_duplicates()) by {
                    assert(node_inv(sfin, p as int));
                }
                lemma_nodup_split3(
                    k0.take(i0),
                    nsf,
                    k0.skip(i0 + ns0.len() as int),
                    kids(sfin, p),
                );
                assert forall|k: int| 0 <= k < nsf.len() implies {
                    let m = #[trigger] nsf[k];
                    &&& (m as int) < sfin.len()
                    &&& m != p
                    &&& sfin[m as int].alive
                    &&& sfin[m as int].parent == Some(p)
                    &&& sfin[m as int].children.len() == 0
                } by {
                    if k < flf.len() {
                        let m = nsf[k];
                        assert(flf[k] == m);
                        assert(flf.contains(m));
                        lemma_flat_nodes_contains::<T>(esf, m);
                        let d = choose|d: int|
                            0 <= d < esf.len() && T::nodes(&(#[trigger] esf[d]).1).contains(m);
                        T::lemma_state_inv(&esf[d].1, sfin);
                        let w = choose|w: int|
                            0 <= w < T::nodes(&esf[d].1).len() && T::nodes(&esf[d].1)[w] == m;
                    } else {
                        assert(nsf[k] == sent);
                        assert(sfin[sent as int] == s0[sent as int]);
                    }
                }
            }
            assert(ekeys::<T>(esf).no_duplicates()) by {
                assert forall|x: int, y: int|
                    0 <= x < y < ekeys::<T>(esf).len() implies ekeys::<T>(esf)[x] != ekeys::<T>(
                    esf,
                )[y] by {
                    assert(ekeys::<T>(esf)[x] == esf[x].0);
                    assert(esf[x].0 == vs[x].0 && esf[y].0 == vs[y].0);
                    assert(vkeys::<T>(vs)[x] == vs[x].0 && vkeys::<T>(vs)[y] == vs[y].0);
                }
            }
            assert(Self::state_inv(state, sfin)) by {
                assert forall|m: usize| state.anchor.anchored@.contains(m) == exists|j: int|
                    0 <= j < esf.len() && T::top(&(#[trigger] esf[j]).1) == m by {
                    assert(state.anchor.anchored@.contains(m) == ((exists|d: int|
                        0 <= d < vs.len() && T::top(&(#[trigger] esf[d]).1) == m) || (exists|i: int|
                        0 <= i < es0.len() && (#[trigger] pool@[i]).1 is Some && T::top(&es0[i].1)
                            == m)));
                }
            }
            assert(Self::represents(state, self));
            assert(Self::top(state) == sent);
            // origin of the final footprint
            assert forall|k: int| 0 <= k < nsf.len() implies ns0.contains(#[trigger] nsf[k])
                || self.content().contains(nsf[k]) || (nsf[k] as int) >= s0.len() by {
                if k < flf.len() {
                    assert(nsf[k] == flf[k]);
                } else {
                    assert(nsf[k] == sent);
                    assert(ns0.contains(sent));
                }
            }
            // content is covered
            assert forall|k: int| 0 <= k < self.content().len() implies nsf.contains(
                #[trigger] self.content()[k],
            ) by {
                let c = self.content()[k];
                lemma_flat_content_contains::<T>(vs, c);
                let d = choose|d: int|
                    0 <= d < vs.len() && (#[trigger] vs[d]).1.content().contains(c);
                let w = choose|w: int| 0 <= w < vs[d].1.content().len() && vs[d].1.content()[w] == c;
                assert(state.inner_state@[d] == esf[d]);
                assert(flf.contains(c));
                let w2 = choose|w2: int| 0 <= w2 < flf.len() && flf[w2] == c;
                assert(nsf[w2] == c);
            }
            // frame
            assert(same_but_release(s0, sfin, p, ns0 + nsf, flat_content::<T>(vs))) by {
                assert forall|j: usize|
                    (j as int) < s0.len() && j != p && !(ns0 + nsf).contains(j) implies
                    #[trigger] entry_similar(s0, sfin, j) by {
                    assert(!ns0.contains(j)) by {
                        if ns0.contains(j) {
                            let w = choose|w: int| 0 <= w < ns0.len() && ns0[w] == j;
                            assert((ns0 + nsf)[w] == j);
                        }
                    }
                    assert(!flat_content::<T>(vs).contains(j)) by {
                        if flat_content::<T>(vs).contains(j) {
                            lemma_flat_content_contains::<T>(vs, j);
                            let d = choose|d: int|
                                0 <= d < vs.len() && (#[trigger] vs[d]).1.content().contains(j);
                            let w = choose|w: int|
                                0 <= w < vs[d].1.content().len() && vs[d].1.content()[w] == j;
                            assert(state.inner_state@[d] == esf[d]);
                            assert(flf.contains(j));
                            let w2 = choose|w2: int| 0 <= w2 < flf.len() && flf[w2] == j;
                            assert(nsf[w2] == j);
                            assert((ns0 + nsf)[ns0.len() + w2] == j);
                        }
                    }
                    assert(entry_similar(s0, sfin, j));
                }
                assert forall|i: int|
                    0 <= i < s0.len() && i != p as int && !(ns0 + nsf).contains(i as usize)
                        && !releases(flat_content::<T>(vs), s0, i) implies #[trigger] sfin[i]
                    == s0[i] by {
                    assert(!ns0.contains(i as usize)) by {
                        if ns0.contains(i as usize) {
                            let w = choose|w: int| 0 <= w < ns0.len() && ns0[w] == (i as usize);
                            assert((ns0 + nsf)[w] == (i as usize));
                        }
                    }
                    assert(!flat_content::<T>(vs).contains(i as usize)) by {
                        if flat_content::<T>(vs).contains(i as usize) {
                            lemma_flat_content_contains::<T>(vs, i as usize);
                            let d = choose|d: int|
                                0 <= d < vs.len() && (#[trigger] vs[d]).1.content().contains(
                                    i as usize,
                                );
                            let w = choose|w: int|
                                0 <= w < vs[d].1.content().len() && vs[d].1.content()[w] == (
                                i as usize);
                            assert(state.inner_state@[d] == esf[d]);
                            assert(flf.contains(i as usize));
                            let w2 = choose|w2: int|
                                0 <= w2 < flf.len() && flf[w2] == (i as usize);
                            assert(nsf[w2] == (i as usize));
                            assert((ns0 + nsf)[ns0.len() + w2] == (i as usize));
                        }
                    }
                }
            }
            // the no-op law and the per-entry minimality law
            if noop {
                assert(esf.len() == es0.len());
                assert(flf == fl0);
                assert(nsf == ns0);
            }
        }
    }

    #[verifier::rlimit(100)]
    fn teardown<AN: Anchor>(state: &mut Self::State, sg: &mut Scene, anchor: &mut AN) {
        let ghost s0 = sg@;
        let ghost st0 = *state;
        let ghost es0 = st0.inner_state@;
        let ghost sent = st0.anchor.node;
        let ghost p = par(s0, sent);
        let ghost ns0 = Self::nodes(&st0);
        let ghost fl0 = flat_nodes::<T>(es0);
        let ghost k0 = kids(s0, p);
        proof {
            Self::lemma_state_inv(&st0, s0);
            assert(node_inv(s0, sent as int));
            assert(node_inv(s0, p as int));
            anchor.lemma_anchor_inv(s0);
            assert(ns0 == fl0 + seq![sent]);
            assert(ns0[ns0.len() - 1] == sent);
            assert(ns0.contains(sent));
            assert(!fl0.contains(sent)) by {
                if fl0.contains(sent) {
                    let w = choose|w: int| 0 <= w < fl0.len() && fl0[w] == sent;
                    assert(ns0[w] == sent);
                }
            }
        }
        let mut ip: usize = 0;
        let n = state.inner_state.len();
        proof {
            assert(es0.take(0) =~= Seq::<(u64, T::State)>::empty());
            assert(flat_nodes::<T>(es0.take(0)) =~= Seq::<usize>::empty());
            assert(forall|j: int|
                0 <= j < k0.len() ==> !flat_nodes::<T>(es0.take(0)).contains(#[trigger] k0[j]));
            lemma_without_keep(k0, flat_nodes::<T>(es0.take(0)));
            assert forall|m: usize| st0.anchor.anchored@.contains(m) == exists|d: int|
                0 <= d < n && T::top(&(#[trigger] es0[d]).1) == m by {}
            assert forall|d: int|
                0 <= d < n implies T::state_inv(&(#[trigger] es0[d]).1, s0) && par(
                s0,
                T::top(&es0[d].1),
            ) == p by {
                assert(T::state_inv(&(es0[d]).1, s0));
            }
        }
        while ip < n
            invariant
                n == es0.len(),
                ip <= n,
                es0 == st0.inner_state@,
                fl0 == flat_nodes::<T>(es0),
                ns0 == fl0 + seq![sent],
                ns0 == Self::nodes(&st0),
                ns0.no_duplicates(),
                owns(s0, p, ns0),
                k0 == kids(s0, p),
                scene_inv(s0),
                state.inner_state@ == es0.skip(ip as int),
                state.anchor.node == sent,
                scene_inv(sg@),
                sg@.len() == s0.len(),
                (p as int) < s0.len(),
                (sent as int) < s0.len(),
                sg@[sent as int] == s0[sent as int],
                s0[sent as int].parent == Some(p),
                state.anchor.anchor_inv(sg@),
                kids(sg@, p) == without(k0, flat_nodes::<T>(es0.take(ip as int))),
                forall|w: int|
                    0 <= w < flat_nodes::<T>(es0.take(ip as int)).len() ==> !sg@[#[trigger] flat_nodes::<
                        T,
                    >(es0.take(ip as int))[w] as int].alive,
                forall|d: int|
                    ip <= d < n ==> T::state_inv(&(#[trigger] es0[d]).1, sg@) && par(
                        sg@,
                        T::top(&es0[d].1),
                    ) == p,
                forall|m: usize|
                    state.anchor.anchored@.contains(m) == exists|d: int|
                        ip <= d < n && T::top(&(#[trigger] es0[d]).1) == m,
                forall|i: int|
                    0 <= i < s0.len() && i != p as int && !ns0.contains(i as usize)
                        ==> #[trigger] sg@[i] == s0[i],
                sg@[p as int].alive == s0[p as int].alive && sg@[p as int].parent == s0[
                    p as int
                ].parent,
                sg@[anchor.anchor_node() as int].alive == s0[anchor.anchor_node() as int].alive
                    && sg@[anchor.anchor_node() as int].parent == s0[anchor.anchor_node()
                    as int].parent,
                !ns0.contains(anchor.anchor_node()),
                (anchor.anchor_node() as int) < s0.len(),
            decreases n - ip,
        {
            let ghost sa = sg@;
            let (k, mut ist) = state.inner_state.remove(0);
            proof {
                assert(es0.skip(ip as int)[0] == es0[ip as int]);
                assert(ist == es0[ip as int].1);
                assert(state.inner_state@ =~= es0.skip(ip as int + 1)) by {
                    assert(es0.skip(ip as int).remove(0) =~= es0.skip(ip as int + 1));
                }
                assert(T::state_inv(&ist, sa));
                T::lemma_state_inv(&ist, sa);
                assert(par(sa, T::top(&ist)) == p);
                assert(state.anchor.tracks(T::top(&ist))) by {
                    assert(T::top(&(es0[ip as int]).1) == T::top(&ist));
                }
                assert(state.anchor.target(sa) == p);
                assert(!T::nodes(&ist).contains(sent)) by {
                    if T::nodes(&ist).contains(sent) {
                        lemma_flat_nodes_split::<T>(es0, ip as int);
                        let w = choose|w: int|
                            0 <= w < T::nodes(&ist).len() && T::nodes(&ist)[w] == sent;
                        assert(fl0[flat_nodes::<T>(es0.take(ip as int)).len() as int + w] == sent);
                        assert(fl0.contains(sent));
                        let w3 = choose|w3: int| 0 <= w3 < fl0.len() && fl0[w3] == sent;
                        assert(ns0[w3] == sent);
                        assert(ns0[ns0.len() - 1] == sent);
                        assert(ns0.no_duplicates());
                    }
                }
            }
            T::teardown(&mut ist, sg, &mut state.anchor);
            ip = ip + 1;
            proof {
                let sb = sg@;
                let torn = T::nodes(&es0[ip - 1].1);
                let fa = flat_nodes::<T>(es0.take(ip - 1));
                let fb = flat_nodes::<T>(es0.take(ip as int));
                lemma_flat_nodes_take_succ::<T>(es0, ip - 1);
                assert(fb == fa + torn);
                // children: compose the removals
                assert(kids(sb, p) == without(without(k0, fa), torn));
                assert(forall|m: usize| #[trigger] fb.contains(m) == (fa.contains(m)
                    || torn.contains(m))) by {
                    assert forall|m: usize| #[trigger] fb.contains(m) == (fa.contains(m)
                        || torn.contains(m)) by {
                        if fb.contains(m) {
                            let w = choose|w: int| 0 <= w < fb.len() && fb[w] == m;
                            if w < fa.len() {
                                assert(fa[w] == m);
                            } else {
                                assert(torn[w - fa.len()] == m);
                            }
                        }
                        if fa.contains(m) {
                            let w = choose|w: int| 0 <= w < fa.len() && fa[w] == m;
                            assert(fb[w] == m);
                        }
                        if torn.contains(m) {
                            let w = choose|w: int| 0 <= w < torn.len() && torn[w] == m;
                            assert(fb[fa.len() + w] == m);
                        }
                    }
                }
                lemma_without_compose(k0, fa, torn, fb);
                assert(kids(sb, p) == without(k0, fb));
                // footprints of torn entries are inside the full footprint
                assert(forall|w: int| 0 <= w < fb.len() ==> ns0.contains(#[trigger] fb[w])) by {
                    assert forall|w: int| 0 <= w < fb.len() implies ns0.contains(
                        #[trigger] fb[w],
                    ) by {
                        lemma_flat_nodes_split::<T>(es0, ip - 1);
                        if w < fa.len() {
                            assert(fl0[w] == fb[w]);
                        } else {
                            assert(fl0[fa.len() + (w - fa.len())] == fb[w]);
                        }
                        assert(fl0.contains(fb[w]));
                        let w2 = choose|w2: int| 0 <= w2 < fl0.len() && fl0[w2] == fb[w];
                        assert(ns0[w2] == fb[w]);
                    }
                }
                // dead ones stay dead; fresh corpses appear
                assert forall|w: int| 0 <= w < fb.len() implies !sb[#[trigger] fb[w] as int].alive by {
                    if w < fa.len() {
                        assert(fb[w] == fa[w]);
                        assert(!sa[fa[w] as int].alive);
                        assert(sb[fa[w] as int].alive ==> false) by {
                            if fa[w] != p && !torn.contains(fa[w]) {
                                assert(sb[fa[w] as int] == sa[fa[w] as int]);
                            } else if torn.contains(fa[w]) {
                                let w2 = choose|w2: int|
                                    0 <= w2 < torn.len() && torn[w2] == fa[w];
                                assert(!sb[torn[w2] as int].alive);
                            }
                        }
                    } else {
                        assert(fb[w] == torn[w - fa.len()]);
                    }
                }
                // surviving entries are untouched
                assert forall|d: int|
                    ip <= d < n implies T::state_inv(&(#[trigger] es0[d]).1, sb) && par(
                    sb,
                    T::top(&es0[d].1),
                ) == p by {
                    lemma_flat_nodes_split::<T>(es0, d);
                    let off = flat_nodes::<T>(es0.take(d)).len();
                    assert(T::state_inv(&es0[d].1, sa));
                    T::lemma_state_inv(&es0[d].1, sa);
                    assert forall|w: int|
                        0 <= w < T::nodes(&es0[d].1).len() implies sb[#[trigger] T::nodes(
                        &es0[d].1,
                    )[w] as int] == sa[T::nodes(&es0[d].1)[w] as int] by {
                        let m = T::nodes(&es0[d].1)[w];
                        assert(fl0[off + w] == m);
                        assert(T::nodes(&es0[d].1).contains(m));
                        assert(m != p);
                        assert((m as int) < sa.len());
                        assert(!torn.contains(m)) by {
                            if torn.contains(m) {
                                let w2 = choose|w2: int| 0 <= w2 < torn.len() && torn[w2] == m;
                                lemma_flat_nodes_split::<T>(es0, ip - 1);
                                let offt = flat_nodes::<T>(es0.take(ip - 1)).len();
                                assert(fl0[offt + w2] == m);
                                assert(ns0.no_duplicates());
                                assert(ns0[off + w] == m && ns0[offt + w2] == m);
                                assert(off + w != offt + w2) by {
                                    lemma_flat_nodes_take_off::<T>(es0, ip - 1, d);
                                }
                            }
                        }
                    }
                    keep_state::<T>(&es0[d].1, sa, sb);
                }
                // the tracking set lost exactly the torn entry's sentinel
                assert forall|m: usize| state.anchor.anchored@.contains(m) == exists|d: int|
                    ip <= d < n && T::top(&(#[trigger] es0[d]).1) == m by {
                    if m == T::top(&es0[ip - 1].1) {
                        assert(!state.anchor.anchored@.contains(m));
                        if exists|d: int| ip <= d < n && T::top(&(#[trigger] es0[d]).1) == m {
                            let d = choose|d: int|
                                ip <= d < n && T::top(&(#[trigger] es0[d]).1) == m;
                            // two entries with the same sentinel: impossible
                            T::lemma_state_inv(&es0[d].1, sa);
                            let dl = T::nodes(&es0[d].1).len();
                            assert(T::nodes(&es0[d].1)[dl - 1] == m);
                            lemma_flat_nodes_split::<T>(es0, d);
                            let offd = flat_nodes::<T>(es0.take(d)).len();
                            assert(fl0[offd + dl - 1] == m);
                            let tl = torn.len();
                            assert(tl >= 1) by {
                                T::lemma_state_inv(&es0[ip - 1].1, sa);
                            }
                            assert(torn[tl - 1] == m) by {
                                T::lemma_state_inv(&es0[ip - 1].1, sa);
                            }
                            lemma_flat_nodes_split::<T>(es0, ip - 1);
                            let offt = flat_nodes::<T>(es0.take(ip - 1)).len();
                            assert(fl0[offt + tl - 1] == m);
                            assert(ns0.no_duplicates());
                            assert(ns0[offd + dl - 1] == m && ns0[offt + tl - 1] == m);
                            assert(offd + dl - 1 != offt + tl - 1) by {
                                lemma_flat_nodes_take_off::<T>(es0, ip - 1, d);
                            }
                        }
                    } else {
                        assert(state.anchor.tracks(m) == old_tracking::<T>(es0, ip - 1, n as int, m));
                        if state.anchor.anchored@.contains(m) {
                            let d = choose|d: int|
                                ip - 1 <= d < n && T::top(&(#[trigger] es0[d]).1) == m;
                            assert(d >= ip);
                        }
                    }
                }
                // frame
                assert forall|i: int|
                    0 <= i < s0.len() && i != p as int && !ns0.contains(i as usize) implies
                    #[trigger] sb[i] == s0[i] by {
                    assert(!torn.contains(i as usize)) by {
                        if torn.contains(i as usize) {
                            let w2 = choose|w2: int|
                                0 <= w2 < torn.len() && torn[w2] == (i as usize);
                            lemma_flat_nodes_split::<T>(es0, ip - 1);
                            let offt = flat_nodes::<T>(es0.take(ip - 1)).len();
                            assert(fl0[offt + w2] == (i as usize));
                            assert(ns0[offt + w2] == (i as usize));
                        }
                    }
                    assert(sb[i] == sa[i]);
                }
                assert(sb[sent as int] == sa[sent as int]) by {
                    assert(ns0[ns0.len() - 1] == sent);
                    assert(ns0.contains(sent));
                    assert(sent != p);
                    assert(!torn.contains(sent)) by {
                        if torn.contains(sent) {
                            let wz = choose|wz: int| 0 <= wz < torn.len() && torn[wz] == sent;
                            lemma_flat_nodes_split::<T>(es0, ip - 1);
                            let offt = flat_nodes::<T>(es0.take(ip - 1)).len();
                            assert(fl0[offt + wz] == sent);
                            assert(ns0[offt + wz] == sent);
                            assert(ns0.no_duplicates());
                        }
                    }
                }
                assert(sb[anchor.anchor_node() as int].alive == sa[anchor.anchor_node()
                    as int].alive && sb[anchor.anchor_node() as int].parent == sa[
                    anchor.anchor_node() as int].parent) by {
                    if anchor.anchor_node() as int != p as int {
                        assert(sb[anchor.anchor_node() as int] == sa[anchor.anchor_node() as int])
                            by {
                            assert(!torn.contains(anchor.anchor_node())) by {
                                if torn.contains(anchor.anchor_node()) {
                                    let w2 = choose|w2: int|
                                        0 <= w2 < torn.len() && torn[w2] == anchor.anchor_node();
                                    lemma_flat_nodes_split::<T>(es0, ip - 1);
                                    let offt = flat_nodes::<T>(es0.take(ip - 1)).len();
                                    assert(fl0[offt + w2] == anchor.anchor_node());
                                    assert(ns0[offt + w2] == anchor.anchor_node());
                                }
                            }
                        }
                    }
                }
            }
        }
        proof {
            anchor.lemma_anchor_frame(s0, sg@);
            assert(es0.take(n as int) =~= es0);
            assert(kids(sg@, p) == without(k0, fl0));
            assert(kids(sg@, p).contains(sent)) by {
                lemma_without_props(k0, fl0);
                assert(k0.contains(sent)) by {
                    assert(node_inv(s0, sent as int));
                }
            }
            assert(anchor.target(sg@) == p);
            assert(anchor.tracks(sent));
        }
        let sent_exec = state.anchor.node;
        anchor.remove(sg, sent_exec);
        let ghost s2 = sg@;
        proof {
            let k1 = without(k0, fl0);
            assert(node_inv(s0, p as int));
            assert(k1.no_duplicates()) by {
                lemma_without_props(k0, fl0);
            }
            lemma_singleton_contains(sent);
            lemma_without_remove_value(k1, sent, seq![sent]);
            assert(kids(s2, p) == without(without(k0, fl0), seq![sent]));
            assert(forall|m: usize| #[trigger] ns0.contains(m) == (fl0.contains(m) || seq![
                sent,
            ].contains(m))) by {
                assert forall|m: usize| #[trigger] ns0.contains(m) == (fl0.contains(m) || seq![
                    sent,
                ].contains(m)) by {
                    if ns0.contains(m) {
                        let w = choose|w: int| 0 <= w < ns0.len() && ns0[w] == m;
                        if w < fl0.len() {
                            assert(fl0[w] == m);
                        } else {
                            assert(m == sent);
                        }
                    }
                    if fl0.contains(m) {
                        let w = choose|w: int| 0 <= w < fl0.len() && fl0[w] == m;
                        assert(ns0[w] == m);
                    }
                }
            }
            lemma_without_compose(k0, fl0, seq![sent], ns0);
            assert(kids(s2, p) == without(k0, ns0));
            assert(s2[sent as int].alive && s2[sent as int].parent is None && s2[
                sent as int
            ].children.len() == 0);
        }
        sg.free(sent_exec);
        proof {
            let s3 = sg@;
            assert(kids(s3, p) == kids(s2, p)) by {
                assert(sent != p);
            }
            assert forall|k: int| 0 <= k < ns0.len() implies !s3[#[trigger] ns0[k] as int].alive by {
                if k < fl0.len() {
                    assert(ns0[k] == fl0[k]);
                    assert(fl0[k] != sent);
                    assert(fl0[k] != p) by {
                        assert(owns(s0, p, ns0));
                    }
                } else {
                    assert(ns0[k] == sent);
                }
            }
            assert(s3[anchor.anchor_node() as int].alive == s2[anchor.anchor_node() as int].alive
                && s3[anchor.anchor_node() as int].parent == s2[anchor.anchor_node()
                as int].parent) by {
                assert(anchor.anchor_node() != sent);
            }
            anchor.lemma_anchor_frame(s2, s3);
            assert(same_but(s0, s3, p, ns0)) by {
                assert forall|i: int|
                    0 <= i < s0.len() && i != p as int && !ns0.contains(i as usize) implies
                    #[trigger] s3[i] == s0[i] by {
                    assert(i != sent as int);
                }
            }
        }
    }

    fn collect_nodes(state: &VecViewState<T::State>, out: &mut Vec<usize>) {
        let ghost out0 = out@;
        let ghost es = state.inner_state@;
        out.push(state.anchor.node);
        let n = state.inner_state.len();
        let mut i: usize = 0;
        while i < n
            invariant
                n == es.len(),
                i <= n,
                es == state.inner_state@,
                out@ == out0 + seq![state.anchor.node] + flat_collected::<T>(es.take(i as int)),
            decreases n - i,
        {
            T::collect_nodes(&state.inner_state[i].1, out);
            i = i + 1;
            proof {
                assert(es.take(i as int).drop_last() =~= es.take(i - 1));
                assert(es.take(i as int).last() == es[i - 1]);
            }
        }
        proof {
            assert(es.take(n as int) =~= es);
            assert(out@ =~= out0 + Self::collected(state));
        }
    }

    fn collect_run(state: &VecViewState<T::State>, out: &mut Vec<usize>) {
        let ghost out0 = out@;
        let ghost es = state.inner_state@;
        let n = state.inner_state.len();
        let mut i: usize = 0;
        while i < n
            invariant
                n == es.len(),
                i <= n,
                es == state.inner_state@,
                out@ == out0 + flat_nodes::<T>(es.take(i as int)),
            decreases n - i,
        {
            T::collect_run(&state.inner_state[i].1, out);
            i = i + 1;
            proof {
                lemma_flat_nodes_take_succ::<T>(es, i - 1);
            }
        }
        out.push(state.anchor.node);
        proof {
            assert(es.take(n as int) =~= es);
            assert(out@ =~= out0 + Self::nodes(state));
        }
    }

    fn access<'a>(&'a self) -> (r: &'a Self) {
        self
    }
}


/// A fully loaded pool's footprints are the old entries' footprints.
proof fn lemma_pool_flat_matches<T: View>(
    pl: Seq<(u64, Option<(T::State, Vec<usize>)>)>,
    es: Seq<(u64, T::State)>,
)
    requires
        pl.len() == es.len(),
        forall|i: int|
            0 <= i < pl.len() ==> (#[trigger] pl[i]).1 is Some && pl[i].1->Some_0.0 == es[i].1,
    ensures
        pool_flat::<T>(pl) == flat_nodes::<T>(es),
    decreases pl.len(),
{
    if pl.len() != 0 {
        assert(forall|i: int|
            0 <= i < pl.drop_last().len() ==> #[trigger] pl.drop_last()[i] == pl[i]);
        assert(forall|i: int|
            0 <= i < es.drop_last().len() ==> #[trigger] es.drop_last()[i] == es[i]);
        lemma_pool_flat_matches::<T>(pl.drop_last(), es.drop_last());
        assert(slot_nodes::<T>(pl.last()) == T::nodes(&es.last().1)) by {
            assert(pl[pl.len() - 1].1 is Some);
        }
    }
}

/// Finds the position of `key` among the drained entries, or their number
/// when the key is new.
fn find_key<T: View>(pool: &Vec<(u64, Option<(T::State, Vec<usize>)>)>, key: u64) -> (r: usize)
    ensures
        r <= pool@.len(),
        r < pool@.len() ==> pool@[r as int].0 == key,
        forall|i: int| 0 <= i < r ==> (#[trigger] pool@[i]).0 != key,
        r == pool@.len() ==> forall|i: int| 0 <= i < pool@.len() ==> (#[trigger] pool@[i]).0
            != key,
{
    let plen = pool.len();
    let mut r: usize = 0;
    while r < plen
        invariant
            plen == pool@.len(),
            r <= plen,
            forall|i: int| 0 <= i < r ==> (#[trigger] pool@[i]).0 != key,
        decreases plen - r,
    {
        if pool[r].0 == key {
            return r;
        }
        r = r + 1;
    }
    r
}

/// The suffix of the parent's child list after the list's run.
pub open spec fn post_of(k0: Seq<usize>, i0: int, ns0: Seq<usize>) -> Seq<usize> {
    k0.skip(i0 + ns0.len() as int)
}

/// A state survives a scene step that did not touch its footprint.
proof fn survive<T: View>(
    st: &T::State,
    sa: Seq<NodeModel>,
    sc: Seq<NodeModel>,
    p: usize,
    touched: Seq<usize>,
)
    requires
        scene_inv(sa),
        scene_inv(sc),
        T::state_inv(st, sa),
        par(sa, T::top(st)) == p,
        sa.len() <= sc.len(),
        forall|i: int|
            0 <= i < sa.len() && i != p as int && !touched.contains(i as usize) ==> #[trigger] sc[i]
                == sa[i],
        apart(T::nodes(st), touched),
    ensures
        T::state_inv(st, sc),
        par(sc, T::top(st)) == p,
{
    T::lemma_state_inv(st, sa);
    assert forall|w: int|
        0 <= w < T::nodes(st).len() implies sc[#[trigger] T::nodes(st)[w] as int] == sa[T::nodes(
        st,
    )[w] as int] by {
        let m = T::nodes(st)[w];
        assert(T::nodes(st).contains(m));
        assert(m != p);
        assert(!touched.contains(m));
    }
    keep_state::<T>(st, sa, sc);
}

/// A state survives a two-hop step (a reorder of `p`'s children, then a
/// reconciliation that may touch `touched` and release content parents):
/// its footprint nodes are childless, so they are neither touched nor
/// released parents.
proof fn survive_r<T: View>(
    st: &T::State,
    sa: Seq<NodeModel>,
    sb: Seq<NodeModel>,
    scn: Seq<NodeModel>,
    p: usize,
    cn: Seq<usize>,
    touched: Seq<usize>,
)
    requires
        scene_inv(sa),
        scene_inv(sb),
        scene_inv(scn),
        T::state_inv(st, sa),
        par(sa, T::top(st)) == p,
        sa.len() == sb.len(),
        sb.len() <= scn.len(),
        forall|i: int| 0 <= i < sa.len() && i != p as int ==> #[trigger] sb[i] == sa[i],
        forall|i: int|
            0 <= i < sb.len() && i != p as int && !touched.contains(i as usize) && !releases(
                cn,
                sb,
                i,
            ) ==> #[trigger] scn[i] == sb[i],
        apart(T::nodes(st), touched),
    ensures
        T::state_inv(st, scn),
        par(scn, T::top(st)) == p,
{
    T::lemma_state_inv(st, sa);
    assert forall|w: int|
        0 <= w < T::nodes(st).len() implies scn[#[trigger] T::nodes(st)[w] as int] == sa[T::nodes(
        st,
    )[w] as int] by {
        let m = T::nodes(st)[w];
        assert(T::nodes(st).contains(m));
        assert(m != p);
        assert(!touched.contains(m));
        assert(sb[m as int] == sa[m as int]);
        assert(sa[m as int].children.len() == 0);
        assert(!releases(cn, sb, m as int)) by {
            if releases(cn, sb, m as int) {
                lemma_releases_target(cn, sb, m as int);
                assert(kids(sb, m).len() != 0);
            }
        }
        assert(scn[m as int] == sb[m as int]);
    }
    keep_state::<T>(st, sa, scn);
}

/// Moves the nodes of one block, in order, to consecutive sibling positions
/// starting at `cursor0` (the end of the region already in place), sliding
/// everything between one block-width to the right.
fn slide_block(
    sg: &mut Scene,
    nodesv: &Vec<usize>,
    cursor0: usize,
    pv: usize,
    Ghost(xv): Ghost<Seq<usize>>,
    Ghost(yv): Ghost<Seq<usize>>,
    Ghost(av): Ghost<Seq<usize>>,
) -> (cur: usize)
    requires
        scene_inv(old(sg)@),
        (pv as int) < old(sg)@.len(),
        kids(old(sg)@, pv) == av + xv + nodesv@ + yv,
        cursor0 as int == av.len(),
    ensures
        scene_inv(final(sg)@),
        final(sg)@.len() == old(sg)@.len(),
        kids(final(sg)@, pv) == av + nodesv@ + xv + yv,
        forall|i: int|
            0 <= i < old(sg)@.len() && i != pv as int ==> #[trigger] final(sg)@[i] == old(sg)@[i],
        cur as int == av.len() + nodesv@.len(),
        final(sg)@[pv as int].alive == old(sg)@[pv as int].alive && final(sg)@[pv as int].parent
            == old(sg)@[pv as int].parent,
{
    let ghost s00 = sg@;
    let m = nodesv.len();
    let kl = sg.child_count(pv);
    let mut w: usize = 0;
    let mut cursor = cursor0;
    while w < m
        invariant
            m == nodesv@.len(),
            w <= m,
            scene_inv(sg@),
            sg@.len() == s00.len(),
            (pv as int) < s00.len(),
            kids(sg@, pv) == av + nodesv@.take(w as int) + xv + nodesv@.skip(w as int) + yv,
            cursor as int == av.len() + w,
            kl as int == kids(sg@, pv).len(),
            forall|i: int| 0 <= i < s00.len() && i != pv as int ==> #[trigger] sg@[i] == s00[i],
            sg@[pv as int].alive == s00[pv as int].alive && sg@[pv as int].parent == s00[
                pv as int
            ].parent,
        decreases m - w,
    {
        let ghost sa = sg@;
        let ghost ka = kids(sa, pv);
        let node = nodesv[w];
        proof {
            assert(node_inv(sa, pv as int));
            assert(nodesv@.skip(w as int) =~= seq![node] + nodesv@.skip(w as int + 1));
            assert(ka =~= (av + nodesv@.take(w as int)) + xv + seq![node] + (nodesv@.skip(
                w as int + 1,
            ) + yv));
            lemma_move_into_place(
                av + nodesv@.take(w as int),
                xv,
                node,
                nodesv@.skip(w as int + 1) + yv,
                ka,
            );
            assert(ka[av.len() + w + xv.len()] == node);
            assert(ka.contains(node));
            assert((node as int) < sa.len() && sa[node as int].parent == Some(pv));
            assert(par(sa, node) == pv);
            assert(pos_of(sa, pv, node) == av.len() + w + xv.len());
            assert((cursor as int) < ka.len());
        }
        sg.move_child(node, cursor);
        proof {
            let sb = sg@;
            assert(kids(sb, pv) == ka.remove(pos_of(sa, pv, node)).insert(cursor as int, node));
            assert(kids(sb, pv) == (av + nodesv@.take(w as int)) + seq![node] + xv + (nodesv@.skip(
                w as int + 1,
            ) + yv));
            assert(kids(sb, pv) =~= av + nodesv@.take(w as int + 1) + xv + nodesv@.skip(
                w as int + 1,
            ) + yv) by {
                assert(nodesv@.take(w as int + 1) =~= nodesv@.take(w as int).push(node));
            }
        }
        cursor = cursor + 1;
        w = w + 1;
    }
    proof {
        assert(nodesv@.take(m as int) =~= nodesv@);
        assert(nodesv@.skip(m as int) =~= Seq::<usize>::empty());
        assert(kids(sg@, pv) =~= av + nodesv@ + xv + yv);
    }
    cursor
}

/// Whether one of the entries from `lo` (inclusive) to `hi` has sentinel `m`.
pub open spec fn old_tracking<T: View>(
    es: Seq<(u64, T::State)>,
    lo: int,
    hi: int,
    m: usize,
) -> bool {
    exists|d: int| lo <= d < hi && T::top(&(#[trigger] es[d]).1) == m
}

/// Whether a reconciled entry or an unconsumed drained entry has sentinel `m`.
pub open spec fn old_tracking_full<T: View>(
    done: Seq<(u64, T::State)>,
    pl: Seq<(u64, Option<(T::State, Vec<usize>)>)>,
    es: Seq<(u64, T::State)>,
    m: usize,
) -> bool {
    (exists|d: int| 0 <= d < done.len() && T::top(&(#[trigger] done[d]).1) == m) || (exists|i: int|
        0 <= i < es.len() && (#[trigger] pl[i]).1 is Some && T::top(&es[i].1) == m)
}

/// Flat offsets of two distinct entries never collide: the earlier entry's
/// block ends before the later one's begins.
proof fn lemma_flat_nodes_take_off<T: View>(es: Seq<(u64, T::State)>, a: int, b: int)
    requires
        0 <= a < b < es.len(),
    ensures
        flat_nodes::<T>(es.take(a)).len() + T::nodes(&es[a].1).len() <= flat_nodes::<T>(
            es.take(b),
        ).len(),
    decreases b - a,
{
    lemma_flat_nodes_take_succ::<T>(es, a);
    if a + 1 == b {
    } else {
        lemma_flat_nodes_take_off_mono::<T>(es, a + 1, b);
    }
}

proof fn lemma_flat_nodes_take_off_mono<T: View>(es: Seq<(u64, T::State)>, a: int, b: int)
    requires
        0 <= a <= b <= es.len(),
    ensures
        flat_nodes::<T>(es.take(a)).len() <= flat_nodes::<T>(es.take(b)).len(),
    decreases b - a,
{
    if a < b {
        lemma_flat_nodes_take_succ::<T>(es, b - 1);
        lemma_flat_nodes_take_off_mono::<T>(es, a, b - 1);
    }
}

proof fn lemma_flat_content_take_off<T: View>(vs: Seq<(u64, T)>, a: int, b: int)
    requires
        0 <= a < b < vs.len(),
    ensures
        flat_content::<T>(vs.take(a)).len() + vs[a].1.content().len() <= flat_content::<T>(
            vs.take(b),
        ).len(),
    decreases b - a,
{
    assert(vs.take(a + 1).drop_last() =~= vs.take(a));
    assert(vs.take(a + 1).last() == vs[a]);
    if a + 1 == b {
    } else {
        lemma_flat_content_take_off_mono::<T>(vs, a + 1, b);
    }
}

proof fn lemma_flat_content_take_off_mono<T: View>(vs: Seq<(u64, T)>, a: int, b: int)
    requires
        0 <= a <= b <= vs.len(),
    ensures
        flat_content::<T>(vs.take(a)).len() <= flat_content::<T>(vs.take(b)).len(),
    decreases b - a,
{
    if a < b {
        assert(vs.take(b).drop_last() =~= vs.take(b - 1));
        lemma_flat_content_take_off_mono::<T>(vs, a, b - 1);
    }
}

/// A keyed list's footprint lists each entry's nodes in exactly the order
/// the keys appear in the reconciled value, with the list's sentinel last:
/// the entry for the `j`-th key owns the `j`-th group.
pub proof fn lemma_keyed_list_order<T: View>(
    state: &VecViewState<T::State>,
    v: &Vec<(u64, T)>,
    j: int,
)
    requires
        <Vec<(u64, T)> as View>::represents(state, v),
        0 <= j < v@.len(),
    ensures
        state.inner_state@[j].0 == v@[j].0,
        <Vec<(u64, T)> as View>::nodes(state) == flat_nodes::<T>(state.inner_state@) + seq![
            state.anchor.node,
        ],
        flat_nodes::<T>(state.inner_state@) == flat_nodes::<T>(state.inner_state@.take(j))
            + T::nodes(&state.inner_state@[j].1) + flat_nodes::<T>(state.inner_state@.skip(j + 1)),
        <Vec<(u64, T)> as View>::collected(state) == seq![state.anchor.node] + flat_collected::<
            T,
        >(state.inner_state@),
        flat_collected::<T>(state.inner_state@) == flat_collected::<T>(
            state.inner_state@.take(j),
        ) + T::collected(&state.inner_state@[j].1) + flat_collected::<T>(
            state.inner_state@.skip(j + 1),
        ),
{
    lemma_flat_nodes_split::<T>(state.inner_state@, j);
    lemma_flat_collected_split::<T>(state.inner_state@, j);
}

} // verus!
