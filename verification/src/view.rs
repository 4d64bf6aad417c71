//! The view contract: a declarative value paired with a built state, kept in
//! sync by `build` / `rebuild` / `teardown`.
//!
//! Every view owns a footprint of scene nodes — its content nodes followed by
//! its own sentinel — that sits as one contiguous run of siblings under a
//! single parent.  `build` materializes the footprint at an anchor's slot,
//! `rebuild` edits it in place to match a new value, and `teardown` removes
//! and destroys it completely.

use crate::anchor::Anchor;
use crate::scene::{kids, par, scene_inv, NodeModel, Scene};
use crate::seqtools::without;
use vstd::prelude::*;
use vstd::view::View as _;

verus! {

/// `n` can become view content: live, detached and childless.  Childless
/// in the model: the model tracks only engine-managed structure, so a
/// mirrored subtree enters it as its single root node.
pub open spec fn content_node_ok(s: Seq<NodeModel>, n: usize) -> bool {
    &&& (n as int) < s.len()
    &&& s[n as int].alive
    &&& s[n as int].parent is None
    &&& s[n as int].children.len() == 0
}

/// `ns` is a well-formed footprint under parent `p`: distinct, live,
/// childless children of `p`.
pub open spec fn owns(s: Seq<NodeModel>, p: usize, ns: Seq<usize>) -> bool {
    &&& ns.no_duplicates()
    &&& forall|k: int|
        0 <= k < ns.len() ==> {
            let n = #[trigger] ns[k];
            &&& (n as int) < s.len()
            &&& n != p
            &&& s[n as int].alive
            &&& s[n as int].parent == Some(p)
            &&& s[n as int].children.len() == 0
        }
}

/// What a content node's fitness can depend on: liveness, parent, and
/// childlessness of its entry.  Childlessness only needs to be kept, not
/// reflected: a reconciliation step may empty some other node's child list
/// (a defensive detach does), never fill a content node's.
pub open spec fn entry_similar(s0: Seq<NodeModel>, s1: Seq<NodeModel>, n: usize) -> bool {
    &&& s1[n as int].alive == s0[n as int].alive
    &&& s1[n as int].parent == s0[n as int].parent
    &&& (s0[n as int].children.len() == 0 ==> s1[n as int].children.len() == 0)
}

/// Scene `s1` agrees with `s0` everywhere except on `p`'s child list and on
/// the nodes in `ns`; `p` keeps its liveness and its parent.
pub open spec fn same_but(s0: Seq<NodeModel>, s1: Seq<NodeModel>, p: usize, ns: Seq<usize>) -> bool {
    &&& s0.len() <= s1.len()
    &&& forall|j: int|
        0 <= j < s0.len() && j != p as int && !ns.contains(j as usize) ==> #[trigger] s1[j] == s0[j]
    &&& (p as int) < s0.len() ==> {
        &&& s1[p as int].alive == s0[p as int].alive
        &&& s1[p as int].parent == s0[p as int].parent
    }
}

/// Whether `j` is the prior parent of one of the content nodes `cn`: the
/// node that a defensive detach would edit when a rebuild adopts a content
/// node that is still attached elsewhere.
pub open spec fn releases(cn: Seq<usize>, s: Seq<NodeModel>, j: int) -> bool {
    exists|k: int|
        0 <= k < cn.len() && ((#[trigger] cn[k]) as int) < s.len() && s[cn[k] as int].parent
            == Some(j as usize)
}

/// A released parent is live and has at least one child; in particular it is
/// never a footprint node (those are childless).
pub proof fn lemma_releases_target(cn: Seq<usize>, s: Seq<NodeModel>, j: int)
    requires
        scene_inv(s),
        releases(cn, s, j),
    ensures
        s[(j as usize) as int].alive,
        kids(s, j as usize).len() != 0,
{
    let k = choose|k: int|
        0 <= k < cn.len() && ((#[trigger] cn[k]) as int) < s.len() && s[cn[k] as int].parent
            == Some(j as usize);
    assert(crate::scene::node_inv(s, cn[k] as int));
    assert(kids(s, j as usize).contains(cn[k]));
}

/// Like `same_but`, with one more exception: the prior parents of the
/// content nodes `cn`, which a rebuild may edit when it detaches a still
/// attached content node before adopting it.
pub open spec fn same_but_release(
    s0: Seq<NodeModel>,
    s1: Seq<NodeModel>,
    p: usize,
    ns: Seq<usize>,
    cn: Seq<usize>,
) -> bool {
    &&& s0.len() <= s1.len()
    &&& forall|j: int|
        0 <= j < s0.len() && j != p as int && !ns.contains(j as usize) && !releases(cn, s0, j)
            ==> #[trigger] s1[j] == s0[j]
    &&& forall|j: usize|
        (j as int) < s0.len() && j != p && !ns.contains(j) ==> #[trigger] entry_similar(s0, s1, j)
    &&& (p as int) < s0.len() ==> {
        &&& s1[p as int].alive == s0[p as int].alive
        &&& s1[p as int].parent == s0[p as int].parent
    }
}

/// A step that touches no content parent satisfies the released-parent
/// frame vacuously.
pub proof fn lemma_same_but_weaken(
    s0: Seq<NodeModel>,
    s1: Seq<NodeModel>,
    p: usize,
    ns: Seq<usize>,
    cn: Seq<usize>,
)
    requires
        same_but(s0, s1, p, ns),
    ensures
        same_but_release(s0, s1, p, ns, cn),
{
}

/// Entry similarity composes across successive scenes.
pub proof fn lemma_similar_trans(s0: Seq<NodeModel>, s1: Seq<NodeModel>, s2: Seq<NodeModel>, n: usize)
    requires
        entry_similar(s0, s1, n),
        entry_similar(s1, s2, n),
    ensures
        entry_similar(s0, s2, n),
{
}

/// The released-parent frame is monotone in the set of touched nodes.
pub proof fn lemma_sbr_grow(
    s0: Seq<NodeModel>,
    s1: Seq<NodeModel>,
    p: usize,
    ns_small: Seq<usize>,
    ns_big: Seq<usize>,
    cn: Seq<usize>,
)
    requires
        same_but_release(s0, s1, p, ns_small, cn),
        forall|m: usize| #[trigger] ns_small.contains(m) ==> ns_big.contains(m),
    ensures
        same_but_release(s0, s1, p, ns_big, cn),
{
}

/// The child position at which footprint `ns` starts, measured back from its
/// sentinel (the last node of `ns`).
pub open spec fn run_start(s: Seq<NodeModel>, p: usize, ns: Seq<usize>) -> int {
    crate::scene::pos_of(s, p, ns.last()) - ns.len() + 1
}

/// Footprint `ns` occupies one contiguous run of `p`'s children, ending at
/// its sentinel.
pub open spec fn placed(s: Seq<NodeModel>, p: usize, ns: Seq<usize>) -> bool {
    let i = run_start(s, p, ns);
    &&& 0 <= i
    &&& i + ns.len() <= kids(s, p).len()
    &&& kids(s, p).subrange(i, i + ns.len()) == ns
}

/// A footprint written as one block between a prefix and a suffix of a child
/// list is placed, and starts right after the prefix.
pub proof fn lemma_block_placed(
    s: Seq<NodeModel>,
    p: usize,
    ns: Seq<usize>,
    pre: Seq<usize>,
    post: Seq<usize>,
)
    requires
        scene_inv(s),
        (p as int) < s.len(),
        kids(s, p) == pre + ns + post,
        ns.len() >= 1,
    ensures
        placed(s, p, ns),
        run_start(s, p, ns) == pre.len(),
        crate::scene::pos_of(s, p, ns.last()) == pre.len() + ns.len() - 1,
{
    let k = kids(s, p);
    let sent = ns.last();
    let i = pre.len() + ns.len() - 1;
    assert(crate::scene::node_inv(s, p as int));
    assert(k.no_duplicates());
    assert(k[i as int] == sent);
    assert(k.contains(sent));
    k.index_of_first_ensures(sent);
    let w = k.index_of_first(sent)->Some_0;
    assert(w <= i);
    assert(k[w] == sent);
    assert(w == i) by {
        if w < i {
            assert(k[w] == k[i as int]);
        }
    }
    assert(k.subrange(pre.len() as int, pre.len() as int + ns.len() as int) =~= ns);
}

/// A placed footprint splits the child list into prefix, block, suffix.
pub proof fn lemma_placed_parts(s: Seq<NodeModel>, p: usize, ns: Seq<usize>)
    requires
        scene_inv(s),
        (p as int) < s.len(),
        ns.len() >= 1,
        placed(s, p, ns),
    ensures
        kids(s, p) == kids(s, p).take(run_start(s, p, ns)) + ns + kids(s, p).skip(
            run_start(s, p, ns) + ns.len(),
        ),
{
    let k = kids(s, p);
    let i = run_start(s, p, ns);
    assert(k =~= k.take(i) + k.subrange(i, i + ns.len()) + k.skip(i + ns.len()));
}

/// Removing exactly the contents of a placed block removes the block.
pub proof fn lemma_without_mid(k: Seq<usize>, pre: Seq<usize>, blk: Seq<usize>, post: Seq<usize>)
    requires
        k == pre + blk + post,
        k.no_duplicates(),
    ensures
        without(k, blk) == pre + post,
{
    crate::seqtools::lemma_without_concat(pre + blk, post, blk);
    crate::seqtools::lemma_without_concat(pre, blk, blk);
    assert(forall|j: int| 0 <= j < pre.len() ==> !blk.contains(#[trigger] pre[j])) by {
        assert forall|j: int| 0 <= j < pre.len() implies !blk.contains(#[trigger] pre[j]) by {
            if blk.contains(pre[j]) {
                let w = choose|w: int| 0 <= w < blk.len() && blk[w] == pre[j];
                assert(k[j] == pre[j]);
                assert(k[pre.len() + w] == pre[j]);
            }
        }
    }
    assert(forall|j: int| 0 <= j < post.len() ==> !blk.contains(#[trigger] post[j])) by {
        assert forall|j: int| 0 <= j < post.len() implies !blk.contains(#[trigger] post[j]) by {
            if blk.contains(post[j]) {
                let w = choose|w: int| 0 <= w < blk.len() && blk[w] == post[j];
                assert(k[pre.len() + blk.len() + j] == post[j]);
                assert(k[pre.len() + w] == post[j]);
            }
        }
    }
    crate::seqtools::lemma_without_keep(pre, blk);
    crate::seqtools::lemma_without_keep(post, blk);
    crate::seqtools::lemma_without_all(blk, blk);
    assert(without(k, blk) =~= pre + post);
}

/// Tearing down exactly what a build inserted restores the parent's child
/// list: the fresh footprint `ns` was placed as one block at position `i`
/// of `c0`, and removing every node of `ns` yields `c0` again.  This is why
/// building an optional view's inner value and reconciling it away again is
/// a round trip, and why a teardown leaves no tracked node behind.
pub proof fn lemma_build_teardown_round_trip(c0: Seq<usize>, ns: Seq<usize>, i: int)
    requires
        0 <= i <= c0.len(),
        (c0.take(i) + ns + c0.skip(i)).no_duplicates(),
    ensures
        without(c0.take(i) + ns + c0.skip(i), ns) == c0,
{
    lemma_without_mid(c0.take(i) + ns + c0.skip(i), c0.take(i), ns, c0.skip(i));
    assert(c0.take(i) + c0.skip(i) =~= c0);
}

/// The view contract.  A value of a `View` type describes a fragment of the
/// scene; its `State` holds what a previous `build` produced for it.
///
/// The reconciliation laws every implementation obeys:
/// - `build` inserts the new footprint as one block at the anchor's slot and
///   touches nothing else;
/// - `rebuild` replaces the old footprint by the new one in place, and when
///   the value is unchanged it keeps the footprint (and every live node)
///   intact;
/// - `teardown` removes exactly the footprint from the parent's child list
///   and destroys every footprint node.
pub trait View: Sized {
    /// The built artifacts: node handles, anchors, nested states.
    type State;

    /// The scene nodes the value itself brings along (a leaf's node).
    spec fn content(&self) -> Seq<usize>;

    /// The value is fit to build: its content nodes are live, detached,
    /// childless and distinct.
    spec fn val_inv(&self, s: Seq<NodeModel>) -> bool;

    /// The state's full footprint, in the sibling order it occupies:
    /// content and inner footprints first, its own sentinel last.
    spec fn nodes(state: &Self::State) -> Seq<usize>;

    /// The state's full footprint in reporting order: its own sentinel
    /// first, then what the inner views report — the same nodes as
    /// `nodes`, permuted.
    spec fn collected(state: &Self::State) -> Seq<usize>;

    /// The state's own sentinel: the last node of its footprint.
    spec fn top(state: &Self::State) -> usize;

    /// The state is a faithful materialization under its parent.
    spec fn state_inv(state: &Self::State, s: Seq<NodeModel>) -> bool;

    /// The state was most recently reconciled against `v`.
    spec fn represents(state: &Self::State, v: &Self) -> bool;

    /// The new value `self` can be reconciled against `state`.
    spec fn rebuild_pre(&self, state: &Self::State, s: Seq<NodeModel>) -> bool;

    /// What a fit value guarantees of its content nodes.
    proof fn lemma_val_inv(&self, s: Seq<NodeModel>)
        requires
            scene_inv(s),
            self.val_inv(s),
        ensures
            self.content().no_duplicates(),
            forall|k: int|
                0 <= k < self.content().len() ==> content_node_ok(s, #[trigger] self.content()[k]),
    ;

    /// What a well-formed state guarantees of its footprint.
    proof fn lemma_state_inv(state: &Self::State, s: Seq<NodeModel>)
        requires
            scene_inv(s),
            Self::state_inv(state, s),
        ensures
            Self::nodes(state).len() >= 1,
            Self::nodes(state).last() == Self::top(state),
            (Self::top(state) as int) < s.len(),
            s[Self::top(state) as int].parent is Some,
            owns(s, par(s, Self::top(state)), Self::nodes(state)),
            Self::collected(state).len() == Self::nodes(state).len(),
            forall|m: usize|
                #[trigger] Self::collected(state).contains(m) == Self::nodes(state).contains(m),
    ;

    /// A state's well-formedness depends only on its own footprint's entries.
    proof fn lemma_state_frame(state: &Self::State, s0: Seq<NodeModel>, s1: Seq<NodeModel>)
        requires
            scene_inv(s0),
            scene_inv(s1),
            Self::state_inv(state, s0),
            s0.len() <= s1.len(),
            forall|k: int|
                0 <= k < Self::nodes(state).len() ==> s1[#[trigger] Self::nodes(state)[k] as int]
                    == s0[Self::nodes(state)[k] as int],
        ensures
            Self::state_inv(state, s1),
    ;

    /// A value's fitness to build depends only on its content nodes' entries.
    proof fn lemma_val_frame(&self, s0: Seq<NodeModel>, s1: Seq<NodeModel>)
        requires
            scene_inv(s0),
            scene_inv(s1),
            self.val_inv(s0),
            s0.len() <= s1.len(),
            forall|k: int|
                0 <= k < self.content().len() && (self.content()[k] as int) < s0.len()
                    ==> entry_similar(s0, s1, #[trigger] self.content()[k]),
        ensures
            self.val_inv(s1),
    ;

    /// A value fit to rebuild only names existing scene nodes as content.
    proof fn lemma_rebuild_pre_bound(&self, state: &Self::State, s: Seq<NodeModel>)
        requires
            scene_inv(s),
            Self::state_inv(state, s),
            self.rebuild_pre(state, s),
        ensures
            forall|k: int|
                0 <= k < self.content().len() ==> ((#[trigger] self.content()[k]) as int)
                    < s.len(),
    ;

    /// Fitness to rebuild depends only on the entries of the old footprint
    /// and of the new value's content.
    proof fn lemma_rebuild_pre_frame(&self, state: &Self::State, s0: Seq<NodeModel>, s1: Seq<
        NodeModel,
    >)
        requires
            scene_inv(s0),
            scene_inv(s1),
            Self::state_inv(state, s0),
            Self::state_inv(state, s1),
            self.rebuild_pre(state, s0),
            s0.len() <= s1.len(),
            forall|k: int|
                0 <= k < Self::nodes(state).len() ==> s1[#[trigger] Self::nodes(state)[k] as int]
                    == s0[Self::nodes(state)[k] as int],
            forall|k: int|
                0 <= k < self.content().len() && (self.content()[k] as int) < s0.len()
                    ==> entry_similar(s0, s1, #[trigger] self.content()[k]),
        ensures
            self.rebuild_pre(state, s1),
    ;

    /// Builds the footprint for `self` at the anchor's slot and returns the
    /// state that materializes it.
    fn build<AN: Anchor>(&self, sg: &mut Scene, anchor: &mut AN) -> (st: Self::State)
        requires
            scene_inv(old(sg)@),
            old(anchor).anchor_inv(old(sg)@),
            self.val_inv(old(sg)@),
            forall|k: int|
                0 <= k < self.content().len() ==> #[trigger] self.content()[k] != old(
                    anchor,
                ).target(old(sg)@),
        ensures
            scene_inv(final(sg)@),
            old(sg)@.len() <= final(sg)@.len(),
            Self::state_inv(&st, final(sg)@),
            Self::represents(&st, self),
            par(final(sg)@, Self::top(&st)) == old(anchor).target(old(sg)@),
            (Self::top(&st) as int) >= old(sg)@.len(),
            forall|k: int|
                0 <= k < Self::nodes(&st).len() ==> self.content().contains(
                    #[trigger] Self::nodes(&st)[k],
                ) || (Self::nodes(&st)[k] as int) >= old(sg)@.len(),
            forall|k: int|
                0 <= k < self.content().len() ==> Self::nodes(&st).contains(
                    #[trigger] self.content()[k],
                ),
            kids(final(sg)@, old(anchor).target(old(sg)@)) == kids(
                old(sg)@,
                old(anchor).target(old(sg)@),
            ).take(old(anchor).slot(old(sg)@)) + Self::nodes(&st) + kids(
                old(sg)@,
                old(anchor).target(old(sg)@),
            ).skip(old(anchor).slot(old(sg)@)),
            placed(final(sg)@, old(anchor).target(old(sg)@), Self::nodes(&st)),
            same_but(old(sg)@, final(sg)@, old(anchor).target(old(sg)@), Self::nodes(&st)),
            final(anchor).anchor_inv(final(sg)@),
            final(anchor).anchor_node() == old(anchor).anchor_node(),
            final(anchor).target(final(sg)@) == old(anchor).target(old(sg)@),
            forall|m: usize|
                final(anchor).tracks(m) == (old(anchor).tracks(m) || m == Self::top(&st)),
            final(anchor).forgets() == old(anchor).forgets(),
    ;

    /// Reconciles the state against the new value `self`, editing the
    /// footprint in place.
    fn rebuild(&self, sg: &mut Scene, state: &mut Self::State)
        requires
            scene_inv(old(sg)@),
            Self::state_inv(old(state), old(sg)@),
            placed(
                old(sg)@,
                par(old(sg)@, Self::top(old(state))),
                Self::nodes(old(state)),
            ),
            self.rebuild_pre(old(state), old(sg)@),
        ensures
            scene_inv(final(sg)@),
            old(sg)@.len() <= final(sg)@.len(),
            Self::state_inv(final(state), final(sg)@),
            Self::represents(final(state), self),
            Self::top(final(state)) == Self::top(old(state)),
            par(final(sg)@, Self::top(old(state))) == par(old(sg)@, Self::top(old(state))),
            kids(final(sg)@, par(old(sg)@, Self::top(old(state)))) == kids(
                old(sg)@,
                par(old(sg)@, Self::top(old(state))),
            ).take(run_start(old(sg)@, par(old(sg)@, Self::top(old(state))), Self::nodes(old(state))))
                + Self::nodes(final(state)) + kids(
                old(sg)@,
                par(old(sg)@, Self::top(old(state))),
            ).skip(
                run_start(old(sg)@, par(old(sg)@, Self::top(old(state))), Self::nodes(old(state)))
                    + Self::nodes(old(state)).len(),
            ),
            placed(final(sg)@, par(old(sg)@, Self::top(old(state))), Self::nodes(final(state))),
            forall|k: int|
                0 <= k < Self::nodes(final(state)).len() ==> Self::nodes(old(state)).contains(
                    #[trigger] Self::nodes(final(state))[k],
                ) || self.content().contains(Self::nodes(final(state))[k]) || (Self::nodes(
                    final(state),
                )[k] as int) >= old(sg)@.len(),
            same_but_release(
                old(sg)@,
                final(sg)@,
                par(old(sg)@, Self::top(old(state))),
                Self::nodes(old(state)) + Self::nodes(final(state)),
                self.content(),
            ),
            forall|k: int|
                0 <= k < self.content().len() ==> Self::nodes(final(state)).contains(
                    #[trigger] self.content()[k],
                ),
            Self::represents(old(state), self) ==> {
                &&& Self::nodes(final(state)) == Self::nodes(old(state))
                &&& forall|j: int|
                    0 <= j < old(sg)@.len() && old(sg)@[j].alive ==> #[trigger] final(sg)@[j].alive
            },
    ;

    /// Removes the whole footprint from its parent (unhooking the sentinel
    /// through the caller's anchor) and destroys every footprint node.
    fn teardown<AN: Anchor>(state: &mut Self::State, sg: &mut Scene, anchor: &mut AN)
        requires
            scene_inv(old(sg)@),
            Self::state_inv(old(state), old(sg)@),
            old(anchor).anchor_inv(old(sg)@),
            old(anchor).target(old(sg)@) == par(old(sg)@, Self::top(old(state))),
            old(anchor).tracks(Self::top(old(state))),
            !Self::nodes(old(state)).contains(old(anchor).anchor_node()),
        ensures
            scene_inv(final(sg)@),
            final(sg)@.len() == old(sg)@.len(),
            kids(final(sg)@, par(old(sg)@, Self::top(old(state)))) == without(
                kids(old(sg)@, par(old(sg)@, Self::top(old(state)))),
                Self::nodes(old(state)),
            ),
            forall|k: int|
                0 <= k < Self::nodes(old(state)).len() ==> !final(sg)@[#[trigger] Self::nodes(
                    old(state),
                )[k] as int].alive,
            same_but(
                old(sg)@,
                final(sg)@,
                par(old(sg)@, Self::top(old(state))),
                Self::nodes(old(state)),
            ),
            final(anchor).anchor_inv(final(sg)@),
            final(anchor).anchor_node() == old(anchor).anchor_node(),
            final(anchor).target(final(sg)@) == old(anchor).target(old(sg)@),
            forall|m: usize|
                m != Self::top(old(state)) ==> final(anchor).tracks(m) == old(anchor).tracks(m),
            old(anchor).forgets() ==> !final(anchor).tracks(Self::top(old(state))),
            final(anchor).forgets() == old(anchor).forgets(),
    ;

    /// Appends the state's footprint to `out` in reporting order: the
    /// state's own sentinel first, then the inner views' reports.
    fn collect_nodes(state: &Self::State, out: &mut Vec<usize>)
        ensures
            final(out)@ == old(out)@ + Self::collected(state),
    ;

    /// Appends the state's footprint to `out` in sibling order — the exact
    /// run it occupies; the diff walks footprints in this order so that
    /// moving them node by node keeps each entry one contiguous block.
    fn collect_run(state: &Self::State, out: &mut Vec<usize>)
        ensures
            final(out)@ == old(out)@ + Self::nodes(state),
    ;

    /// Read-only access to the composed value.
    fn access<'a>(&'a self) -> (r: &'a Self)
        ensures
            r == self,
    ;
}

/// Implemented by user-composed views that need a hook after creation.
pub trait CustomView: Sized {
    /// Called once after the composed view has been assembled.
    fn init(&mut self);
}

/// A live value paired with the state built for it.  The pair's invariant —
/// the state always materializes the held value — is kept by funnelling every
/// edit through `set` / `__rebuild`.
pub struct ViewValue<T: View> {
    pub value: T,
    pub state: T::State,
}

impl<T: View> ViewValue<T> {
    /// The pair is coherent against scene `s`: the state is well-formed,
    /// placed, and materializes the held value.
    pub open spec fn vv_inv(&self, s: Seq<NodeModel>) -> bool {
        &&& T::state_inv(&self.state, s)
        &&& placed(s, par(s, T::top(&self.state)), T::nodes(&self.state))
        &&& T::represents(&self.state, &self.value)
    }

    /// Pairs a value with the state that was built for it.
    pub fn __create(value: T, state: T::State) -> (r: Self)
        ensures
            r.value == value,
            r.state == state,
    {
        ViewValue { value, state }
    }

    /// The held value.
    pub fn __value(&self) -> (r: &T)
        ensures
            r == &self.value,
    {
        &self.value
    }

    /// Mutable access to the held value; the caller must follow up with
    /// `__rebuild` to restore coherence.
    pub fn __value_mut(&mut self) -> (r: &mut T)
        ensures
            *r == old(self).value,
            final(self).value == *final(r),
            final(self).state == old(self).state,
    {
        &mut self.value
    }

    /// Reconciles the stored state against the held (possibly just edited)
    /// value: the commit step of a scoped mutation.
    pub fn __rebuild(&mut self, sg: &mut Scene)
        requires
            scene_inv(old(sg)@),
            T::state_inv(&old(self).state, old(sg)@),
            placed(
                old(sg)@,
                par(old(sg)@, T::top(&old(self).state)),
                T::nodes(&old(self).state),
            ),
            old(self).value.rebuild_pre(&old(self).state, old(sg)@),
        ensures
            scene_inv(final(sg)@),
            final(self).vv_inv(final(sg)@),
            final(self).value == old(self).value,
            T::top(&final(self).state) == T::top(&old(self).state),
    {
        let ViewValue { value, state } = self;
        value.rebuild(sg, state);
    }
}

} // verus!
