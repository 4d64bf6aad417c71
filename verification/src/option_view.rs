//! The optional view: wraps a view that may or may not be present, adding a
//! presence state machine (absent/present) around the inner view's
//! lifecycle.

use crate::anchor::{Anchor, BeforeAnchor};
use crate::scene::{kids, node_inv, par, scene_inv, NodeModel, Scene};
use crate::seqtools::{lemma_singleton_contains, lemma_without_compose, lemma_without_props,
    lemma_without_remove_value, without};
use crate::view::{
    content_node_ok, entry_similar, lemma_block_placed, lemma_placed_parts, lemma_releases_target,
    lemma_same_but_weaken, lemma_sbr_grow, lemma_without_mid, owns, placed, releases, run_start,
    same_but, same_but_release, View,
};
use vstd::prelude::*;
use vstd::view::View as _;

verus! {

/// State of a built optional view: a sentinel anchor plus the inner state,
/// when the value was present.
pub struct OptionViewState<InnerState> {
    pub anchor: BeforeAnchor,
    pub inner_state: Option<InnerState>,
}

impl<T: View> View for Option<T> {
    type State = OptionViewState<T::State>;

    open spec fn content(&self) -> Seq<usize> {
        match self {
            Some(v) => v.content(),
            None => Seq::empty(),
        }
    }

    open spec fn val_inv(&self, s: Seq<NodeModel>) -> bool {
        match self {
            Some(v) => v.val_inv(s),
            None => true,
        }
    }

    open spec fn nodes(state: &OptionViewState<T::State>) -> Seq<usize> {
        match &state.inner_state {
            Some(ist) => T::nodes(ist) + seq![state.anchor.node],
            None => seq![state.anchor.node],
        }
    }

    open spec fn collected(state: &OptionViewState<T::State>) -> Seq<usize> {
        match &state.inner_state {
            Some(ist) => seq![state.anchor.node] + T::collected(ist),
            None => seq![state.anchor.node],
        }
    }

    open spec fn top(state: &OptionViewState<T::State>) -> usize {
        state.anchor.node
    }

    open spec fn state_inv(state: &OptionViewState<T::State>, s: Seq<NodeModel>) -> bool {
        &&& state.anchor.anchor_inv(s)
        &&& owns(s, par(s, state.anchor.node), Self::nodes(state))
        &&& match &state.inner_state {
            Some(ist) => {
                &&& T::state_inv(ist, s)
                &&& par(s, T::top(ist)) == par(s, state.anchor.node)
                &&& forall|m: usize| state.anchor.anchored@.contains(m) == (m == T::top(ist))
            },
            None => forall|m: usize| !state.anchor.anchored@.contains(m),
        }
    }

    open spec fn represents(state: &OptionViewState<T::State>, v: &Option<T>) -> bool {
        match (v, &state.inner_state) {
            (Some(vv), Some(ist)) => T::represents(ist, vv),
            (None, None) => true,
            _ => false,
        }
    }

    open spec fn rebuild_pre(&self, state: &OptionViewState<T::State>, s: Seq<NodeModel>) -> bool {
        match (self, &state.inner_state) {
            (Some(vv), Some(ist)) => vv.rebuild_pre(ist, s) && !vv.content().contains(
                state.anchor.node,
            ),
            (Some(vv), None) => vv.val_inv(s),
            (None, _) => true,
        }
    }

    proof fn lemma_val_inv(&self, s: Seq<NodeModel>) {
        match self {
            Some(v) => {
                v.lemma_val_inv(s);
            },
            None => {
                assert(self.content() =~= Seq::<usize>::empty());
            },
        }
    }

    proof fn lemma_state_inv(state: &OptionViewState<T::State>, s: Seq<NodeModel>) {
        let ns = Self::nodes(state);
        let cs = Self::collected(state);
        assert(ns.len() >= 1 && ns.last() == state.anchor.node) by {
            match &state.inner_state {
                Some(ist) => {
                    assert(ns[ns.len() - 1] == state.anchor.node);
                },
                None => {
                    assert(ns[0] == state.anchor.node);
                },
            }
        }
        match &state.inner_state {
            Some(ist) => {
                T::lemma_state_inv(ist, s);
                let tn = T::nodes(ist);
                let tc = T::collected(ist);
                assert(cs.len() == ns.len());
                assert forall|m: usize| #[trigger] cs.contains(m) == ns.contains(m) by {
                    if cs.contains(m) {
                        let w = choose|w: int| 0 <= w < cs.len() && cs[w] == m;
                        if w == 0 {
                            assert(ns[ns.len() - 1] == m);
                        } else {
                            assert(tc[w - 1] == m);
                            assert(tc.contains(m));
                            assert(tn.contains(m));
                            let w2 = choose|w2: int| 0 <= w2 < tn.len() && tn[w2] == m;
                            assert(ns[w2] == m);
                        }
                        assert(ns.contains(m));
                    }
                    if ns.contains(m) {
                        let w = choose|w: int| 0 <= w < ns.len() && ns[w] == m;
                        if w == ns.len() - 1 {
                            assert(cs[0] == m);
                        } else {
                            assert(tn[w] == m);
                            assert(tn.contains(m));
                            assert(tc.contains(m));
                            let w2 = choose|w2: int| 0 <= w2 < tc.len() && tc[w2] == m;
                            assert(cs[1 + w2] == m);
                        }
                        assert(cs.contains(m));
                    }
                }
            },
            None => {
                assert(cs =~= ns);
            },
        }
    }

    proof fn lemma_state_frame(
        state: &OptionViewState<T::State>,
        s0: Seq<NodeModel>,
        s1: Seq<NodeModel>,
    ) {
        let ns = Self::nodes(state);
        let sent = state.anchor.node;
        assert(ns.last() == sent && ns.len() >= 1) by {
            Self::lemma_state_inv(state, s0);
        }
        assert(s1[sent as int] == s0[sent as int]) by {
            assert(ns[ns.len() - 1] == sent);
        }
        let p = par(s0, sent);
        assert(par(s1, sent) == p);
        assert(owns(s1, p, ns)) by {
            assert forall|k: int| 0 <= k < ns.len() implies {
                let n = #[trigger] ns[k];
                &&& (n as int) < s1.len()
                &&& n != p
                &&& s1[n as int].alive
                &&& s1[n as int].parent == Some(p)
                &&& s1[n as int].children.len() == 0
            } by {
                assert(s1[ns[k] as int] == s0[ns[k] as int]);
            }
        }
        match &state.inner_state {
            Some(ist) => {
                assert forall|k: int|
                    0 <= k < T::nodes(ist).len() implies s1[#[trigger] T::nodes(ist)[k] as int]
                    == s0[T::nodes(ist)[k] as int] by {
                    assert(ns[k] == T::nodes(ist)[k]);
                }
                T::lemma_state_frame(ist, s0, s1);
                T::lemma_state_inv(ist, s1);
                assert(s1[T::top(ist) as int] == s0[T::top(ist) as int]) by {
                    let il = T::nodes(ist).len();
                    assert(T::nodes(ist)[il - 1] == T::top(ist)) by {
                        T::lemma_state_inv(ist, s0);
                    }
                }
            },
            None => {},
        }
    }

    proof fn lemma_val_frame(&self, s0: Seq<NodeModel>, s1: Seq<NodeModel>) {
        match self {
            Some(v) => {
                assert forall|k: int|
                    0 <= k < v.content().len() && (v.content()[k] as int) < s0.len() implies entry_similar(
                    s0,
                    s1,
                    #[trigger] v.content()[k],
                ) by {
                    assert(self.content()[k] == v.content()[k]);
                }
                v.lemma_val_frame(s0, s1);
            },
            None => {},
        }
    }

    proof fn lemma_rebuild_pre_frame(
        &self,
        state: &OptionViewState<T::State>,
        s0: Seq<NodeModel>,
        s1: Seq<NodeModel>,
    ) {
        match (self, &state.inner_state) {
            (Some(vv), Some(ist)) => {
                assert forall|k: int|
                    0 <= k < T::nodes(ist).len() implies s1[#[trigger] T::nodes(ist)[k] as int]
                    == s0[T::nodes(ist)[k] as int] by {
                    assert(Self::nodes(state)[k] == T::nodes(ist)[k]);
                }
                assert forall|k: int|
                    0 <= k < vv.content().len() && (vv.content()[k] as int) < s0.len() implies entry_similar(
                    s0,
                    s1,
                    #[trigger] vv.content()[k],
                ) by {
                    assert(self.content()[k] == vv.content()[k]);
                }
                T::lemma_state_frame(ist, s0, s1);
                vv.lemma_rebuild_pre_frame(ist, s0, s1);
            },
            (Some(vv), None) => {
                assert forall|k: int|
                    0 <= k < vv.content().len() && (vv.content()[k] as int) < s0.len() implies entry_similar(
                    s0,
                    s1,
                    #[trigger] vv.content()[k],
                ) by {
                    assert(self.content()[k] == vv.content()[k]);
                }
                vv.lemma_val_frame(s0, s1);
            },
            (None, _) => {},
        }
    }

    proof fn lemma_rebuild_pre_bound(&self, state: &OptionViewState<T::State>, s: Seq<NodeModel>) {
        match (self, &state.inner_state) {
            (Some(vv), Some(ist)) => {
                vv.lemma_rebuild_pre_bound(ist, s);
                assert forall|k: int|
                    0 <= k < self.content().len() implies ((#[trigger] self.content()[k]) as int)
                    < s.len() by {
                    assert(self.content()[k] == vv.content()[k]);
                }
            },
            (Some(vv), None) => {
                vv.lemma_val_inv(s);
                assert forall|k: int|
                    0 <= k < self.content().len() implies ((#[trigger] self.content()[k]) as int)
                    < s.len() by {
                    assert(self.content()[k] == vv.content()[k]);
                    assert(content_node_ok(s, vv.content()[k]));
                }
            },
            (None, _) => {
                assert(self.content() =~= Seq::<usize>::empty());
            },
        }
    }

    fn build<AN: Anchor>(&self, sg: &mut Scene, anchor: &mut AN) -> (st: OptionViewState<T::State>) {
        let ghost s0 = sg@;
        let ghost t = anchor.target(s0);
        let ghost sl = anchor.slot(s0);
        let ghost k0 = kids(s0, t);
        proof {
            anchor.lemma_anchor_inv(s0);
        }
        let sent = sg.new_node();
        let ghost s1 = sg@;
        proof {
            assert(s1[t as int] == s0[t as int]);
            assert(s1[anchor.anchor_node() as int] == s0[anchor.anchor_node() as int]);
            anchor.lemma_anchor_frame(s0, s1);
            assert(kids(s1, t) == k0);
        }
        let mut opt_anchor = BeforeAnchor::new(sent);
        anchor.add(sg, sent);
        let ghost s2 = sg@;
        proof {
            assert(sent != t);
            assert(kids(s2, t) == k0.insert(sl, sent));
            assert(s2[sent as int].alive && s2[sent as int].parent == Some(t));
            assert(s2[sent as int].children.len() == 0) by {
                assert(s1[sent as int].children.len() == 0);
            }
            assert(opt_anchor.anchor_inv(s2));
            assert(opt_anchor.target(s2) == t);
            assert(!k0.contains(sent)) by {
                if k0.contains(sent) {
                    let w = choose|w: int| 0 <= w < k0.len() && k0[w] == sent;
                    assert(node_inv(s0, t as int));
                    assert((k0[w] as int) < s0.len());
                }
            }
            k0.insert_ensures(sl, sent);
            kids(s2, t).index_of_first_ensures(sent);
            assert forall|j: int| 0 <= j < sl implies kids(s2, t)[j] != sent by {
                assert(kids(s2, t)[j] == k0[j]);
                assert(k0.contains(k0[j]));
            }
            assert(kids(s2, t)[sl] == sent);
            assert(kids(s2, t).index_of_first(sent) == Some(sl));
            assert(opt_anchor.slot(s2) == sl);
        }
        let ghost oa0 = opt_anchor;
        let inner_state = match self {
            Some(v) => {
                proof {
                    self.lemma_val_inv(s0);
                    assert forall|k: int|
                        0 <= k < v.content().len() implies s2[#[trigger] v.content()[k] as int]
                        == s0[v.content()[k] as int] by {
                        assert(self.content()[k] == v.content()[k]);
                        assert(content_node_ok(s0, v.content()[k]));
                        assert((v.content()[k] as int) < s0.len());
                        assert(v.content()[k] != t && v.content()[k] != sent);
                    }
                    v.lemma_val_frame(s0, s2);
                    assert forall|k: int|
                        0 <= k < v.content().len() implies #[trigger] v.content()[k]
                        != opt_anchor.target(s2) by {
                        assert(self.content()[k] == v.content()[k]);
                    }
                }
                let ist = v.build(sg, &mut opt_anchor);
                proof {
                    let s3 = sg@;
                    let inner = T::nodes(&ist);
                    assert(kids(s3, t) == kids(s2, t).take(sl) + inner + kids(s2, t).skip(sl));
                    assert(kids(s2, t).take(sl) =~= k0.take(sl)) by {
                        k0.insert_ensures(sl, sent);
                    }
                    assert(kids(s2, t).skip(sl) =~= seq![sent] + k0.skip(sl)) by {
                        k0.insert_ensures(sl, sent);
                    }
                    assert(kids(s3, t) =~= k0.take(sl) + (inner + seq![sent]) + k0.skip(sl));
                }
                Some(ist)
            },
            None => None,
        };
        let st = OptionViewState { anchor: opt_anchor, inner_state };
        proof {
            let s3 = sg@;
            let ns = Self::nodes(&st);
            match &st.inner_state {
                Some(ist) => {
                    let inner = T::nodes(ist);
                    assert(ns == inner + seq![sent]);
                    assert(ns.last() == sent);
                    // the sentinel is none of the inner nodes
                    assert(!inner.contains(sent)) by {
                        if inner.contains(sent) {
                            let w = choose|w: int| 0 <= w < inner.len() && inner[w] == sent;
                            assert(self.content().contains(inner[w]) || (inner[w] as int)
                                >= s2.len());
                            if self.content().contains(sent) {
                                let w2 = choose|w2: int|
                                    0 <= w2 < self.content().len() && self.content()[w2] == sent;
                                self.lemma_val_inv(s0);
                                assert(content_node_ok(s0, sent));
                            }
                        }
                    }
                    // the sentinel survived the inner build untouched
                    assert(s3[sent as int] == s2[sent as int]);
                    T::lemma_state_inv(ist, s3);
                    assert(par(s3, sent) == t);
                    assert(owns(s3, t, ns)) by {
                        assert(owns(s3, t, inner));
                        assert forall|k: int| 0 <= k < ns.len() implies {
                            let n = #[trigger] ns[k];
                            &&& (n as int) < s3.len()
                            &&& n != t
                            &&& s3[n as int].alive
                            &&& s3[n as int].parent == Some(t)
                            &&& s3[n as int].children.len() == 0
                        } by {
                            if k < inner.len() {
                                assert(ns[k] == inner[k]);
                                assert(inner.contains(inner[k]));
                            } else {
                                assert(ns[k] == sent);
                            }
                        }
                        assert(ns.no_duplicates()) by {
                            assert forall|x: int, y: int|
                                0 <= x < y < ns.len() implies ns[x] != ns[y] by {
                                if y < inner.len() {
                                    assert(ns[x] == inner[x] && ns[y] == inner[y]);
                                } else {
                                    assert(ns[y] == sent);
                                    assert(ns[x] == inner[x]);
                                    assert(inner.contains(inner[x]));
                                }
                            }
                        }
                    }
                    assert(Self::state_inv(&st, s3)) by {
                        assert(st.anchor.anchor_inv(s3));
                        assert(par(s3, T::top(ist)) == t);
                        assert forall|m: usize| st.anchor.anchored@.contains(m) == (m == T::top(
                            ist,
                        )) by {
                            assert(st.anchor.tracks(m) == (oa0.tracks(m) || m == T::top(ist)));
                            assert(!Seq::<usize>::empty().contains(m));
                        }
                    }
                    // layout: one block at the anchor's old slot
                    assert(kids(s3, t) == k0.take(sl) + ns + k0.skip(sl));
                    lemma_block_placed(s3, t, ns, k0.take(sl), k0.skip(sl));
                    // frame
                    assert(same_but(s0, s3, t, ns)) by {
                        assert forall|j: int|
                            0 <= j < s0.len() && j != t as int && !ns.contains(j as usize) implies
                            #[trigger] s3[j] == s0[j] by {
                            assert(ns[ns.len() - 1] == sent);
                            assert(!T::nodes(ist).contains(j as usize)) by {
                                if T::nodes(ist).contains(j as usize) {
                                    let w = choose|w: int|
                                        0 <= w < T::nodes(ist).len() && T::nodes(ist)[w] == (
                                        j as usize);
                                    assert(ns[w] == (j as usize));
                                }
                            }
                            assert(s2[j] == s0[j]);
                        }
                    }
                    // origin of the footprint
                    assert forall|k: int| 0 <= k < ns.len() implies self.content().contains(
                        #[trigger] ns[k],
                    ) || (ns[k] as int) >= s0.len() by {
                        if k < T::nodes(ist).len() {
                            assert(ns[k] == T::nodes(ist)[k]);
                            assert(T::nodes(ist).contains(ns[k]));
                        } else {
                            assert(ns[k] == sent);
                        }
                    }
                    assert forall|k: int|
                        0 <= k < self.content().len() implies ns.contains(
                        #[trigger] self.content()[k],
                    ) by {
                        let c = self.content()[k];
                        assert(T::nodes(ist).contains(c));
                        let w = choose|w: int|
                            0 <= w < T::nodes(ist).len() && T::nodes(ist)[w] == c;
                        assert(ns[w] == c);
                    }
                    // the parent anchor's view of things
                    assert(s3[anchor.anchor_node() as int].alive == s2[anchor.anchor_node()
                        as int].alive && s3[anchor.anchor_node() as int].parent == s2[
                        anchor.anchor_node() as int].parent) by {
                        anchor.lemma_anchor_inv(s2);
                        if anchor.anchor_node() != t {
                            assert(!T::nodes(ist).contains(anchor.anchor_node())) by {
                                if T::nodes(ist).contains(anchor.anchor_node()) {
                                    let an = anchor.anchor_node();
                                    assert(self.content().contains(an) || (an as int) >= s2.len());
                                    assert(self.content().contains(an));
                                    let w2 = choose|w2: int|
                                        0 <= w2 < self.content().len() && self.content()[w2] == an;
                                    assert(content_node_ok(s0, an));
                                    assert(s2[an as int] == s0[an as int]);
                                    assert(s2[an as int].parent is None);
                                }
                            }
                        }
                    }
                    anchor.lemma_anchor_frame(s2, s3);
                },
                None => {
                    assert(ns =~= seq![sent]);
                    assert(ns[0] == sent);
                    assert(owns(s2, t, ns)) by {
                        assert forall|k: int| 0 <= k < ns.len() implies {
                            let n = #[trigger] ns[k];
                            &&& (n as int) < s2.len()
                            &&& n != t
                            &&& s2[n as int].alive
                            &&& s2[n as int].parent == Some(t)
                            &&& s2[n as int].children.len() == 0
                        } by {
                            assert(k == 0);
                        }
                    }
                    assert forall|m: usize| !st.anchor.anchored@.contains(m) by {
                        assert(!Seq::<usize>::empty().contains(m));
                    }
                    assert(Self::state_inv(&st, s2));
                    assert(kids(s2, t) =~= k0.take(sl) + ns + k0.skip(sl)) by {
                        k0.insert_ensures(sl, sent);
                        assert(kids(s2, t) == k0.insert(sl, sent));
                    }
                    lemma_block_placed(s2, t, ns, k0.take(sl), k0.skip(sl));
                    assert(same_but(s0, s2, t, ns)) by {
                        assert forall|j: int|
                            0 <= j < s0.len() && j != t as int && !ns.contains(j as usize) implies
                            #[trigger] s2[j] == s0[j] by {
                            assert(ns[0] == sent);
                            assert(j != sent as int);
                        }
                    }
                    assert forall|k: int| 0 <= k < ns.len() implies self.content().contains(
                        #[trigger] ns[k],
                    ) || (ns[k] as int) >= s0.len() by {
                        assert(k == 0);
                    }
                    assert(self.content() =~= Seq::<usize>::empty());
                },
            }
        }
        st
    }

    /// Beyond the general contract: reconciling away a present inner view
    /// destroys its whole footprint; keeping it present carries the built
    /// inner state over (its sentinel survives); absent-to-absent touches
    /// nothing at all.
    #[verifier::rlimit(100)]
    fn rebuild(&self, sg: &mut Scene, state: &mut Self::State)
        ensures
            self is None && old(state).inner_state is None ==> {
                &&& final(sg)@ == old(sg)@
                &&& final(state).inner_state is None
                &&& final(state).anchor.node == old(state).anchor.node
                &&& final(state).anchor.anchored@ == old(state).anchor.anchored@
            },
            self is None && old(state).inner_state is Some ==> {
                &&& final(state).inner_state is None
                &&& forall|k: int|
                    0 <= k < T::nodes(&old(state).inner_state->Some_0).len()
                        ==> !final(sg)@[#[trigger] T::nodes(
                        &old(state).inner_state->Some_0,
                    )[k] as int].alive
            },
            self is Some && old(state).inner_state is Some ==> {
                &&& final(state).inner_state is Some
                &&& T::top(&final(state).inner_state->Some_0) == T::top(
                    &old(state).inner_state->Some_0,
                )
            },
            self is Some <==> final(state).inner_state is Some,
    {
        let ghost s0 = sg@;
        let ghost st0 = *state;
        let ghost sent = st0.anchor.node;
        let ghost p = par(s0, sent);
        let ghost ns0 = Self::nodes(&st0);
        let ghost i0 = run_start(s0, p, ns0);
        let ghost k0 = kids(s0, p);
        proof {
            Self::lemma_state_inv(&st0, s0);
            assert(node_inv(s0, sent as int));
            assert(node_inv(s0, p as int));
            lemma_placed_parts(s0, p, ns0);
            assert(ns0.last() == sent);
        }
        match (self, &mut state.inner_state) {
            (None, None) => {
                proof {
                    assert(Self::nodes(state) == ns0);
                    assert(self.content() =~= Seq::<usize>::empty());
                }
            },
            (None, inner_slot) => {
                option_clear::<T>(sg, state);
            },
            (Some(v), inner_slot) => {
                match inner_slot {
                    Some(ist) => {
                        option_forward::<T>(v, sg, state);
                    },
                    None => {
                        option_fill::<T>(v, sg, state);
                    },
                }
            },
        }
    }

    fn teardown<AN: Anchor>(state: &mut Self::State, sg: &mut Scene, anchor: &mut AN) {
        let ghost s0 = sg@;
        let ghost st0 = *state;
        let ghost sent = st0.anchor.node;
        let ghost p = par(s0, sent);
        let ghost ns0 = Self::nodes(&st0);
        let ghost k0 = kids(s0, p);
        proof {
            Self::lemma_state_inv(&st0, s0);
            assert(node_inv(s0, sent as int));
            assert(node_inv(s0, p as int));
            anchor.lemma_anchor_inv(s0);
            assert(ns0.last() == sent);
            assert(ns0.contains(sent)) by {
                assert(ns0[ns0.len() - 1] == sent);
            }
        }
        let ghost inner0 = match st0.inner_state {
            Some(ist) => T::nodes(&ist),
            None => Seq::<usize>::empty(),
        };
        match &mut state.inner_state {
            Some(ist) => {
                proof {
                    let ist0 = st0.inner_state->Some_0;
                    assert(ns0 == inner0 + seq![sent]);
                    assert(!inner0.contains(sent)) by {
                        if inner0.contains(sent) {
                            let w = choose|w: int| 0 <= w < inner0.len() && inner0[w] == sent;
                            assert(ns0[w] == sent && ns0[ns0.len() - 1] == sent);
                        }
                    }
                    assert(st0.anchor.tracks(T::top(&ist0)));
                    assert(par(s0, T::top(&ist0)) == p);
                }
                T::teardown(ist, sg, &mut state.anchor);
            },
            None => {
                proof {
                    assert(ns0 =~= seq![sent]);
                    assert(inner0 =~= Seq::<usize>::empty());
                }
            },
        }
        let ghost s1 = sg@;
        proof {
            match st0.inner_state {
                Some(ist0) => {
                    assert(kids(s1, p) == without(k0, inner0));
                    assert(s1[sent as int] == s0[sent as int]);
                    let an = anchor.anchor_node();
                    assert(s1[an as int].alive == s0[an as int].alive && s1[an as int].parent
                        == s0[an as int].parent) by {
                        assert(!inner0.contains(an)) by {
                            if inner0.contains(an) {
                                let w = choose|w: int| 0 <= w < inner0.len() && inner0[w] == an;
                                assert(ns0[w] == an);
                                assert(ns0.contains(an));
                            }
                        }
                        if an as int != p as int {
                            assert(s1[an as int] == s0[an as int]);
                        }
                    }
                    anchor.lemma_anchor_frame(s0, s1);
                },
                None => {
                    assert(kids(s1, p) == k0);
                    assert(forall|j: int| 0 <= j < k0.len() ==> !inner0.contains(
                        #[trigger] k0[j],
                    ));
                    crate::seqtools::lemma_without_keep(k0, inner0);
                    assert(kids(s1, p) == without(k0, inner0));
                },
            }
            assert(par(s1, sent) == p);
            assert(kids(s1, p).contains(sent)) by {
                lemma_without_props(k0, inner0);
                assert(k0.contains(sent)) by {
                    assert(node_inv(s0, sent as int));
                }
                assert(!inner0.contains(sent)) by {
                    if inner0.contains(sent) {
                        let w = choose|w: int| 0 <= w < inner0.len() && inner0[w] == sent;
                        assert(ns0[w] == sent && ns0[ns0.len() - 1] == sent);
                    }
                }
            }
            assert(anchor.target(s1) == p);
            assert(anchor.tracks(sent));
        }
        let sent_exec = state.anchor.node;
        anchor.remove(sg, sent_exec);
        let ghost s2 = sg@;
        proof {
            let k1 = kids(s1, p);
            assert(node_inv(s1, p as int));
            lemma_singleton_contains(sent);
            lemma_without_remove_value(k1, sent, seq![sent]);
            assert(kids(s2, p) == without(without(k0, inner0), seq![sent]));
            assert(forall|m: usize| #[trigger] ns0.contains(m) == (inner0.contains(m) || seq![
                sent,
            ].contains(m))) by {
                assert forall|m: usize| #[trigger] ns0.contains(m) == (inner0.contains(m) || seq![
                    sent,
                ].contains(m)) by {
                    if ns0.contains(m) {
                        let w = choose|w: int| 0 <= w < ns0.len() && ns0[w] == m;
                        if w < inner0.len() {
                            assert(inner0[w] == m);
                        } else {
                            assert(m == sent);
                        }
                    }
                    if inner0.contains(m) {
                        let w = choose|w: int| 0 <= w < inner0.len() && inner0[w] == m;
                        assert(ns0[w] == m);
                    }
                    if seq![sent].contains(m) {
                        assert(m == sent);
                        assert(ns0[ns0.len() - 1] == sent);
                    }
                }
            }
            lemma_without_compose(k0, inner0, seq![sent], ns0);
            assert(kids(s2, p) == without(k0, ns0));
            assert(s2[sent as int].alive && s2[sent as int].parent is None && s2[
                sent as int
            ].children.len() == 0);
        }
        sg.free(sent_exec);
        proof {
            let s3 = sg@;
            assert(kids(s3, p) == kids(s2, p)) by {
                assert(sent != p);
            }
            assert forall|k: int| 0 <= k < ns0.len() implies !s3[#[trigger] ns0[k] as int].alive by {
                if k < inner0.len() {
                    assert(ns0[k] == inner0[k]);
                    assert(!s1[inner0[k] as int].alive);
                    assert(s3[inner0[k] as int] == s1[inner0[k] as int]) by {
                        assert(inner0[k] != sent) by {
                            assert(ns0.no_duplicates()) by {
                                Self::lemma_state_inv(&st0, s0);
                            }
                        }
                        assert(inner0[k] != p);
                    }
                } else {
                    assert(ns0[k] == sent);
                }
            }
            assert(s3[anchor.anchor_node() as int].alive == s2[anchor.anchor_node() as int].alive
                && s3[anchor.anchor_node() as int].parent == s2[anchor.anchor_node()
                as int].parent) by {
                assert(anchor.anchor_node() != sent);
            }
            anchor.lemma_anchor_frame(s2, s3);
            assert(same_but(s0, s3, p, ns0)) by {
                assert forall|j: int|
                    0 <= j < s0.len() && j != p as int && !ns0.contains(j as usize) implies
                    #[trigger] s3[j] == s0[j] by {
                    assert(j != sent as int) by {
                        assert(ns0[ns0.len() - 1] == sent);
                    }
                    assert(!inner0.contains(j as usize)) by {
                        if inner0.contains(j as usize) {
                            let w = choose|w: int| 0 <= w < inner0.len() && inner0[w] == (
                            j as usize);
                            assert(ns0[w] == (j as usize));
                        }
                    }
                }
            }
        }
    }

    fn collect_nodes(state: &OptionViewState<T::State>, out: &mut Vec<usize>) {
        let ghost out0 = out@;
        out.push(state.anchor.node);
        match &state.inner_state {
            Some(ist) => {
                T::collect_nodes(ist, out);
            },
            None => {},
        }
        proof {
            assert(out@ =~= out0 + Self::collected(state));
        }
    }

    fn collect_run(state: &OptionViewState<T::State>, out: &mut Vec<usize>) {
        let ghost out0 = out@;
        match &state.inner_state {
            Some(ist) => {
                T::collect_run(ist, out);
            },
            None => {},
        }
        out.push(state.anchor.node);
        proof {
            assert(out@ =~= out0 + Self::nodes(state));
        }
    }

    fn access<'a>(&'a self) -> (r: &'a Self) {
        self
    }
}

/// The optional round trip: building the inner view in place of the bare
/// sentinel and then reconciling it away again leaves the parent's child
/// list exactly as it was, modulo nothing — the persistent sentinel stays.
/// `k0` is the child list with the absent state's sentinel at `i0`; the
/// present-rebuild replaced that lone sentinel by the footprint `ns1` (which
/// ends with the same sentinel), and the absent-rebuild replaced `ns1` by
/// the lone sentinel again.
pub proof fn lemma_optional_round_trip(k0: Seq<usize>, ns1: Seq<usize>, i0: int, sent: usize)
    requires
        0 <= i0 < k0.len(),
        k0[i0] == sent,
        ns1.len() >= 1,
        ns1.last() == sent,
    ensures
        (k0.take(i0) + ns1 + k0.skip(i0 + 1)).take(i0) + seq![sent] + (k0.take(i0) + ns1 + k0.skip(
            i0 + 1,
        )).skip(i0 + ns1.len() as int) == k0,
{
    let k1 = k0.take(i0) + ns1 + k0.skip(i0 + 1);
    assert(k1.take(i0) =~= k0.take(i0));
    assert(k1.skip(i0 + ns1.len() as int) =~= k0.skip(i0 + 1));
    assert(k1.take(i0) + seq![sent] + k1.skip(i0 + ns1.len() as int) =~= k0);
}


/// Fills an absent optional view: builds the inner view fresh under the
/// sentinel anchor and stores it.
#[verifier::rlimit(100)]
fn option_fill<T: View>(v: &T, sg: &mut Scene, state: &mut OptionViewState<T::State>)
    requires
        scene_inv(old(sg)@),
        <Option<T> as View>::state_inv(old(state), old(sg)@),
        placed(
            old(sg)@,
            par(old(sg)@, old(state).anchor.node),
            <Option<T> as View>::nodes(old(state)),
        ),
        old(state).inner_state is None,
        v.val_inv(old(sg)@),
    ensures
        scene_inv(final(sg)@),
        old(sg)@.len() <= final(sg)@.len(),
        <Option<T> as View>::state_inv(final(state), final(sg)@),
        final(state).inner_state is Some,
        T::represents(&final(state).inner_state->Some_0, v),
        final(state).anchor.node == old(state).anchor.node,
        par(final(sg)@, old(state).anchor.node) == par(old(sg)@, old(state).anchor.node),
        kids(final(sg)@, par(old(sg)@, old(state).anchor.node)) == kids(
            old(sg)@,
            par(old(sg)@, old(state).anchor.node),
        ).take(
            run_start(
                old(sg)@,
                par(old(sg)@, old(state).anchor.node),
                <Option<T> as View>::nodes(old(state)),
            ),
        ) + <Option<T> as View>::nodes(final(state)) + kids(
            old(sg)@,
            par(old(sg)@, old(state).anchor.node),
        ).skip(
            run_start(
                old(sg)@,
                par(old(sg)@, old(state).anchor.node),
                <Option<T> as View>::nodes(old(state)),
            ) + <Option<T> as View>::nodes(old(state)).len(),
        ),
        placed(
            final(sg)@,
            par(old(sg)@, old(state).anchor.node),
            <Option<T> as View>::nodes(final(state)),
        ),
        forall|k: int|
            0 <= k < <Option<T> as View>::nodes(final(state)).len() ==> <Option<T> as View>::nodes(
                old(state),
            ).contains(#[trigger] <Option<T> as View>::nodes(final(state))[k]) || v.content(
            ).contains(<Option<T> as View>::nodes(final(state))[k]) || (<Option<T> as View>::nodes(
                final(state),
            )[k] as int) >= old(sg)@.len(),
        same_but_release(
            old(sg)@,
            final(sg)@,
            par(old(sg)@, old(state).anchor.node),
            <Option<T> as View>::nodes(old(state)) + <Option<T> as View>::nodes(final(state)),
            v.content(),
        ),
        forall|k: int|
            0 <= k < v.content().len() ==> <Option<T> as View>::nodes(final(state)).contains(
                #[trigger] v.content()[k],
            ),
{
    let ghost s0 = sg@;
    let ghost st0 = *state;
    let ghost sent = st0.anchor.node;
    let ghost p = par(s0, sent);
    let ghost ns0 = <Option<T> as View>::nodes(&st0);
    let ghost i0 = run_start(s0, p, ns0);
    let ghost k0 = kids(s0, p);
    proof {
        <Option<T> as View>::lemma_state_inv(&st0, s0);
        assert(node_inv(s0, sent as int));
        assert(node_inv(s0, p as int));
        lemma_placed_parts(s0, p, ns0);
    }
    // absent -> present: build the inner view fresh
    proof {
        assert(ns0 =~= seq![sent]);
        assert(st0.anchor.anchor_inv(s0));
        assert(st0.anchor.target(s0) == p);
        assert(st0.anchor.slot(s0) == i0) by {
            assert(ns0.last() == sent);
        }
        v.lemma_val_inv(s0);
        assert forall|k: int|
            0 <= k < v.content().len() implies #[trigger] v.content()[k]
            != st0.anchor.target(s0) by {
            assert(content_node_ok(s0, v.content()[k]));
            if v.content()[k] == p {
                assert(kids(s0, p).contains(sent)) by {
                    assert(node_inv(s0, sent as int));
                }
                assert(kids(s0, p).len() == 0);
            }
        }
    }
    let ist = v.build(sg, &mut state.anchor);
    state.inner_state = Some(ist);
    proof {
        let s1 = sg@;
        let ist1 = state.inner_state->Some_0;
        let inner1 = T::nodes(&ist1);
        let ns1 = <Option<T> as View>::nodes(state);
        assert(ns1 == inner1 + seq![sent]);
        assert(kids(s1, p) == k0.take(i0) + inner1 + k0.skip(i0));
        assert(k0[i0] == sent) by {
            assert(k0 == k0.take(i0) + ns0 + k0.skip(i0 + 1));
            assert(ns0[0] == sent);
        }
        assert(k0.skip(i0) =~= seq![sent] + k0.skip(i0 + 1));
        assert(kids(s1, p) =~= k0.take(i0) + ns1 + k0.skip(i0 + 1));
        // sentinel untouched by the inner build
        assert(!inner1.contains(sent)) by {
            if inner1.contains(sent) {
                let w = choose|w: int|
                    0 <= w < inner1.len() && inner1[w] == sent;
                assert(v.content().contains(sent) || (sent as int) >= s0.len());
                if v.content().contains(sent) {
                    let w2 = choose|w2: int|
                        0 <= w2 < v.content().len() && v.content()[w2] == sent;
                    assert(content_node_ok(s0, sent));
                }
            }
        }
        assert(s1[sent as int] == s0[sent as int]);
        assert(par(s1, sent) == p);
        T::lemma_state_inv(&ist1, s1);
        assert(owns(s1, p, ns1)) by {
            assert(owns(s1, p, inner1));
            assert forall|k: int| 0 <= k < ns1.len() implies {
                let n = #[trigger] ns1[k];
                &&& (n as int) < s1.len()
                &&& n != p
                &&& s1[n as int].alive
                &&& s1[n as int].parent == Some(p)
                &&& s1[n as int].children.len() == 0
            } by {
                if k < inner1.len() {
                    assert(ns1[k] == inner1[k]);
                    assert(inner1.contains(inner1[k]));
                } else {
                    assert(ns1[k] == sent);
                }
            }
            assert(ns1.no_duplicates()) by {
                assert forall|x: int, y: int|
                    0 <= x < y < ns1.len() implies ns1[x] != ns1[y] by {
                    if y < inner1.len() {
                        assert(ns1[x] == inner1[x] && ns1[y] == inner1[y]);
                    } else {
                        assert(ns1[y] == sent);
                        assert(ns1[x] == inner1[x]);
                        assert(inner1.contains(inner1[x]));
                    }
                }
            }
        }
        assert(<Option<T> as View>::state_inv(state, s1)) by {
            assert(state.anchor.anchor_inv(s1));
            assert(par(s1, T::top(&ist1)) == p);
            assert forall|m: usize| state.anchor.anchored@.contains(m) == (m
                == T::top(&ist1)) by {
                assert(state.anchor.tracks(m) == (st0.anchor.tracks(m) || m
                    == T::top(&ist1)));
            }
        }
        lemma_block_placed(s1, p, ns1, k0.take(i0), k0.skip(i0 + 1));
        assert(same_but(s0, s1, p, ns0 + ns1)) by {
            assert forall|j: int|
                0 <= j < s0.len() && j != p as int && !(ns0 + ns1).contains(
                    j as usize,
                ) implies #[trigger] s1[j] == s0[j] by {
                assert(!inner1.contains(j as usize)) by {
                    if inner1.contains(j as usize) {
                        let w = choose|w: int|
                            0 <= w < inner1.len() && inner1[w] == (j as usize);
                        assert(ns1[w] == (j as usize));
                        assert((ns0 + ns1)[ns0.len() + w] == (j as usize));
                    }
                }
                assert(j != sent as int) by {
                    assert((ns0 + ns1)[0] == sent);
                }
            }
        }
        lemma_same_but_weaken(s0, s1, p, ns0 + ns1, v.content());
        assert forall|k: int| 0 <= k < ns1.len() implies ns0.contains(
            #[trigger] ns1[k],
        ) || v.content().contains(ns1[k]) || (ns1[k] as int) >= s0.len() by {
            if k < inner1.len() {
                assert(ns1[k] == inner1[k]);
                assert(inner1.contains(inner1[k]));
                if v.content().contains(ns1[k]) {
                    let w = choose|w: int|
                        0 <= w < v.content().len() && v.content()[w] == ns1[k];
                    assert(v.content()[w] == ns1[k]);
                }
            } else {
                assert(ns1[k] == sent);
                assert(ns0[0] == sent);
                assert(ns0.contains(sent));
            }
        }
        assert forall|k: int|
            0 <= k < v.content().len() implies <Option<T> as View>::nodes(state).contains(
            #[trigger] v.content()[k],
        ) by {
            assert(v.content()[k] == v.content()[k]);
            assert(v.content().contains(v.content()[k]));
            assert(inner1.contains(v.content()[k]));
            let w = choose|w: int|
                0 <= w < inner1.len() && inner1[w] == v.content()[k];
            assert(ns1[w] == v.content()[k]);
        }
    }
}


/// Empties a present optional view: tears the stored inner state down
/// against the sentinel anchor (destroying its whole footprint) and clears
/// it.
#[verifier::rlimit(100)]
fn option_clear<T: View>(sg: &mut Scene, state: &mut OptionViewState<T::State>)
    requires
        scene_inv(old(sg)@),
        <Option<T> as View>::state_inv(old(state), old(sg)@),
        placed(
            old(sg)@,
            par(old(sg)@, old(state).anchor.node),
            <Option<T> as View>::nodes(old(state)),
        ),
        old(state).inner_state is Some,
    ensures
        scene_inv(final(sg)@),
        old(sg)@.len() <= final(sg)@.len(),
        <Option<T> as View>::state_inv(final(state), final(sg)@),
        final(state).inner_state is None,
        final(state).anchor.node == old(state).anchor.node,
        par(final(sg)@, old(state).anchor.node) == par(old(sg)@, old(state).anchor.node),
        kids(final(sg)@, par(old(sg)@, old(state).anchor.node)) == kids(
            old(sg)@,
            par(old(sg)@, old(state).anchor.node),
        ).take(
            run_start(
                old(sg)@,
                par(old(sg)@, old(state).anchor.node),
                <Option<T> as View>::nodes(old(state)),
            ),
        ) + <Option<T> as View>::nodes(final(state)) + kids(
            old(sg)@,
            par(old(sg)@, old(state).anchor.node),
        ).skip(
            run_start(
                old(sg)@,
                par(old(sg)@, old(state).anchor.node),
                <Option<T> as View>::nodes(old(state)),
            ) + <Option<T> as View>::nodes(old(state)).len(),
        ),
        placed(
            final(sg)@,
            par(old(sg)@, old(state).anchor.node),
            <Option<T> as View>::nodes(final(state)),
        ),
        forall|k: int|
            0 <= k < <Option<T> as View>::nodes(final(state)).len() ==> <Option<T> as View>::nodes(
                old(state),
            ).contains(#[trigger] <Option<T> as View>::nodes(final(state))[k]) || (<Option<
                T,
            > as View>::nodes(final(state))[k] as int) >= old(sg)@.len(),
        same_but(
            old(sg)@,
            final(sg)@,
            par(old(sg)@, old(state).anchor.node),
            <Option<T> as View>::nodes(old(state)) + <Option<T> as View>::nodes(final(state)),
        ),
        forall|k: int|
            0 <= k < T::nodes(&old(state).inner_state->Some_0).len() ==> !final(sg)@[#[trigger] T::nodes(
                &old(state).inner_state->Some_0,
            )[k] as int].alive,
{
    let ghost s0 = sg@;
    let ghost st0 = *state;
    let ghost sent = st0.anchor.node;
    let ghost p = par(s0, sent);
    let ghost ns0 = <Option<T> as View>::nodes(&st0);
    let ghost i0 = run_start(s0, p, ns0);
    let ghost k0 = kids(s0, p);
    let inner_slot = &mut state.inner_state;
    proof {
        <Option<T> as View>::lemma_state_inv(&st0, s0);
        assert(node_inv(s0, sent as int));
        assert(node_inv(s0, p as int));
        lemma_placed_parts(s0, p, ns0);
        assert(ns0.last() == sent);
    }
    // present -> absent: tear the inner view down
    let ghost ist0 = st0.inner_state->Some_0;
    let ghost inner0 = T::nodes(&ist0);
    proof {
        assert(ns0 == inner0 + seq![sent]);
        assert(inner0.len() >= 1) by {
            T::lemma_state_inv(&ist0, s0);
        }
        assert(!inner0.contains(sent)) by {
            if inner0.contains(sent) {
                let w = choose|w: int| 0 <= w < inner0.len() && inner0[w] == sent;
                assert(ns0[w] == sent && ns0[ns0.len() - 1] == sent);
            }
        }
        assert(st0.anchor.tracks(T::top(&ist0)));
        assert(st0.anchor.target(s0) == p);
        assert(par(s0, T::top(&ist0)) == p);
    }
    match inner_slot {
        Some(ist) => {
            T::teardown(ist, sg, &mut state.anchor);
        },
        None => {
            proof {
                assert(false);
            }
        },
    }
    *inner_slot = None;
    proof {
        let s1 = sg@;
        let ns1 = <Option<T> as View>::nodes(state);
        assert(ns1 =~= seq![sent]);
        assert(kids(s1, p) == without(k0, inner0));
        assert(k0 == k0.take(i0) + ns0 + k0.skip(i0 + ns0.len()));
        assert(k0 =~= (k0.take(i0) + inner0) + seq![sent] + k0.skip(i0 + ns0.len()));
        assert(k0 =~= k0.take(i0) + inner0 + (seq![sent] + k0.skip(i0 + ns0.len())));
        lemma_without_mid(
            k0,
            k0.take(i0),
            inner0,
            seq![sent] + k0.skip(i0 + ns0.len()),
        );
        assert(without(k0, inner0) =~= k0.take(i0) + (seq![sent] + k0.skip(
            i0 + ns0.len(),
        )));
        assert(kids(s1, p) =~= k0.take(i0) + ns1 + k0.skip(i0 + ns0.len()));
        // the sentinel is untouched, the state is absent and clean
        assert(s1[sent as int] == s0[sent as int]);
        assert(par(s1, sent) == p);
        assert(owns(s1, p, ns1)) by {
            assert forall|k: int| 0 <= k < ns1.len() implies {
                let n = #[trigger] ns1[k];
                &&& (n as int) < s1.len()
                &&& n != p
                &&& s1[n as int].alive
                &&& s1[n as int].parent == Some(p)
                &&& s1[n as int].children.len() == 0
            } by {
                assert(k == 0);
                assert(ns0.contains(sent)) by {
                    assert(ns0[ns0.len() - 1] == sent);
                }
            }
        }
        assert forall|m: usize| !state.anchor.anchored@.contains(m) by {
            if m != T::top(&ist0) {
                assert(state.anchor.tracks(m) == st0.anchor.tracks(m));
            }
        }
        assert(<Option<T> as View>::state_inv(state, s1));
        lemma_block_placed(s1, p, ns1, k0.take(i0), k0.skip(i0 + ns0.len()));
        assert(same_but(s0, s1, p, ns0 + ns1)) by {
            assert forall|j: int|
                0 <= j < s0.len() && j != p as int && !(ns0 + ns1).contains(
                    j as usize,
                ) implies #[trigger] s1[j] == s0[j] by {
                assert(!inner0.contains(j as usize)) by {
                    if inner0.contains(j as usize) {
                        let w = choose|w: int|
                            0 <= w < inner0.len() && inner0[w] == (j as usize);
                        assert(ns0[w] == (j as usize));
                        assert((ns0 + ns1)[w] == (j as usize));
                    }
                }
            }
        }
        
        assert forall|k: int| 0 <= k < ns1.len() implies ns0.contains(
            #[trigger] ns1[k],
        ) || Seq::<usize>::empty().contains(ns1[k]) || (ns1[k] as int) >= s0.len() by {
            assert(k == 0);
            assert(ns0[ns0.len() - 1] == sent);
            assert(ns0.contains(sent));
        }
        assert(Seq::<usize>::empty() =~= Seq::<usize>::empty());
    }
}


/// Forwards a present optional view's reconciliation into the inner view's
/// own rebuild; the sentinel and the stored inner state carry over.
#[verifier::rlimit(100)]
fn option_forward<T: View>(v: &T, sg: &mut Scene, state: &mut OptionViewState<T::State>)
    requires
        scene_inv(old(sg)@),
        <Option<T> as View>::state_inv(old(state), old(sg)@),
        placed(
            old(sg)@,
            par(old(sg)@, old(state).anchor.node),
            <Option<T> as View>::nodes(old(state)),
        ),
        old(state).inner_state is Some,
        v.rebuild_pre(&old(state).inner_state->Some_0, old(sg)@),
        !v.content().contains(old(state).anchor.node),
    ensures
        scene_inv(final(sg)@),
        old(sg)@.len() <= final(sg)@.len(),
        <Option<T> as View>::state_inv(final(state), final(sg)@),
        final(state).inner_state is Some,
        T::represents(&final(state).inner_state->Some_0, v),
        T::top(&final(state).inner_state->Some_0) == T::top(&old(state).inner_state->Some_0),
        final(state).anchor.node == old(state).anchor.node,
        par(final(sg)@, old(state).anchor.node) == par(old(sg)@, old(state).anchor.node),
        kids(final(sg)@, par(old(sg)@, old(state).anchor.node)) == kids(
            old(sg)@,
            par(old(sg)@, old(state).anchor.node),
        ).take(
            run_start(
                old(sg)@,
                par(old(sg)@, old(state).anchor.node),
                <Option<T> as View>::nodes(old(state)),
            ),
        ) + <Option<T> as View>::nodes(final(state)) + kids(
            old(sg)@,
            par(old(sg)@, old(state).anchor.node),
        ).skip(
            run_start(
                old(sg)@,
                par(old(sg)@, old(state).anchor.node),
                <Option<T> as View>::nodes(old(state)),
            ) + <Option<T> as View>::nodes(old(state)).len(),
        ),
        placed(
            final(sg)@,
            par(old(sg)@, old(state).anchor.node),
            <Option<T> as View>::nodes(final(state)),
        ),
        forall|k: int|
            0 <= k < <Option<T> as View>::nodes(final(state)).len() ==> <Option<T> as View>::nodes(
                old(state),
            ).contains(#[trigger] <Option<T> as View>::nodes(final(state))[k]) || v.content(
            ).contains(<Option<T> as View>::nodes(final(state))[k]) || (<Option<T> as View>::nodes(
                final(state),
            )[k] as int) >= old(sg)@.len(),
        same_but_release(
            old(sg)@,
            final(sg)@,
            par(old(sg)@, old(state).anchor.node),
            <Option<T> as View>::nodes(old(state)) + <Option<T> as View>::nodes(final(state)),
            v.content(),
        ),
        forall|k: int|
            0 <= k < v.content().len() ==> <Option<T> as View>::nodes(final(state)).contains(
                #[trigger] v.content()[k],
            ),
        T::represents(&old(state).inner_state->Some_0, v) ==> {
            &&& <Option<T> as View>::nodes(final(state)) == <Option<T> as View>::nodes(old(state))
            &&& forall|j: int|
                0 <= j < old(sg)@.len() && old(sg)@[j].alive ==> #[trigger] final(sg)@[j].alive
        },
{
    let ghost s0 = sg@;
    let ghost st0 = *state;
    let ghost sent = st0.anchor.node;
    let ghost p = par(s0, sent);
    let ghost ns0 = <Option<T> as View>::nodes(&st0);
    let ghost i0 = run_start(s0, p, ns0);
    let ghost k0 = kids(s0, p);
    proof {
        <Option<T> as View>::lemma_state_inv(&st0, s0);
        assert(node_inv(s0, sent as int));
        assert(node_inv(s0, p as int));
        lemma_placed_parts(s0, p, ns0);
        assert(ns0.last() == sent);
        assert(!releases(v.content(), s0, sent as int)) by {
            if releases(v.content(), s0, sent as int) {
                lemma_releases_target(v.content(), s0, sent as int);
                assert(owns(s0, p, ns0));
                assert(ns0[ns0.len() - 1] == sent);
                assert(s0[sent as int].children.len() == 0);
            }
        }
    }
    let ist = match &mut state.inner_state {
        Some(ist) => ist,
        None => {
            proof {
                assert(false);
            }
            unreached()
        },
    };
    // present -> present: delegate to the inner view
    let ghost ist0 = *ist;
    let ghost inner0 = T::nodes(&ist0);
    proof {
        assert(ns0 == inner0 + seq![sent]);
        assert(inner0.len() >= 1) by {
            T::lemma_state_inv(&ist0, s0);
        }
        assert(k0 == k0.take(i0) + ns0 + k0.skip(i0 + ns0.len()));
        assert(k0 =~= k0.take(i0) + inner0 + (seq![sent] + k0.skip(
            i0 + ns0.len(),
        )));
        lemma_block_placed(
            s0,
            p,
            inner0,
            k0.take(i0),
            seq![sent] + k0.skip(i0 + ns0.len()),
        );
        assert(par(s0, T::top(&ist0)) == p);
    }
    v.rebuild(sg, ist);
    proof {
        let s1 = sg@;
        let inner1 = T::nodes(ist);
        let ns1 = <Option<T> as View>::nodes(state);
        assert(ns1 == inner1 + seq![sent]);
        assert(kids(s1, p) == k0.take(i0) + inner1 + (seq![sent] + k0.skip(
            i0 + ns0.len(),
        )));
        assert(kids(s1, p) =~= k0.take(i0) + ns1 + k0.skip(i0 + ns0.len()));
        // the sentinel survived: it is in neither footprint
        assert(!inner0.contains(sent)) by {
            if inner0.contains(sent) {
                let w = choose|w: int|
                    0 <= w < inner0.len() && inner0[w] == sent;
                assert(ns0[w] == sent && ns0[ns0.len() - 1] == sent);
            }
        }
        assert(!inner1.contains(sent)) by {
            if inner1.contains(sent) {
                let w = choose|w: int|
                    0 <= w < inner1.len() && inner1[w] == sent;
                assert(inner0.contains(sent) || v.content().contains(sent) || (
                sent as int) >= s0.len());
            }
        }
        assert(s1[sent as int] == s0[sent as int]) by {
            assert(!(inner0 + inner1).contains(sent)) by {
                if (inner0 + inner1).contains(sent) {
                    let w = choose|w: int|
                        0 <= w < (inner0 + inner1).len() && (inner0 + inner1)[w]
                            == sent;
                }
            }
        }
        assert(par(s1, sent) == p);
        T::lemma_state_inv(ist, s1);
        assert(owns(s1, p, ns1)) by {
            assert(owns(s1, p, inner1));
            assert forall|k: int| 0 <= k < ns1.len() implies {
                let n = #[trigger] ns1[k];
                &&& (n as int) < s1.len()
                &&& n != p
                &&& s1[n as int].alive
                &&& s1[n as int].parent == Some(p)
                &&& s1[n as int].children.len() == 0
            } by {
                if k < inner1.len() {
                    assert(ns1[k] == inner1[k]);
                    assert(inner1.contains(inner1[k]));
                } else {
                    assert(ns1[k] == sent);
                }
            }
            assert(ns1.no_duplicates()) by {
                assert forall|x: int, y: int|
                    0 <= x < y < ns1.len() implies ns1[x] != ns1[y] by {
                    if y < inner1.len() {
                        assert(ns1[x] == inner1[x] && ns1[y] == inner1[y]);
                    } else {
                        assert(ns1[y] == sent);
                        assert(ns1[x] == inner1[x]);
                        assert(inner1.contains(inner1[x]));
                    }
                }
            }
        }
        assert(<Option<T> as View>::state_inv(state, s1)) by {
            assert(state.anchor == st0.anchor);
            assert(state.anchor.anchor_inv(s1));
            assert(par(s1, T::top(ist)) == p) by {
                T::lemma_state_inv(ist, s1);
            }
            assert forall|m: usize| state.anchor.anchored@.contains(m) == (m
                == T::top(ist)) by {
                assert(T::top(ist) == T::top(&ist0));
            }
        }
        lemma_block_placed(s1, p, ns1, k0.take(i0), k0.skip(i0 + ns0.len()));
        assert(same_but_release(s0, s1, p, ns0 + ns1, v.content())) by {
            assert(forall|m: usize|
                #[trigger] (inner0 + inner1).contains(m) ==> (ns0 + ns1).contains(m)) by {
                assert forall|m: usize|
                    #[trigger] (inner0 + inner1).contains(m) implies (ns0 + ns1).contains(m) by {
                    let w = choose|w: int|
                        0 <= w < (inner0 + inner1).len() && (inner0 + inner1)[w] == m;
                    if w < inner0.len() {
                        assert(ns0[w] == m);
                        assert((ns0 + ns1)[w] == m);
                    } else {
                        assert(ns1[w - inner0.len()] == m);
                        assert((ns0 + ns1)[ns0.len() + w - inner0.len()] == m);
                    }
                }
            }
            lemma_sbr_grow(s0, s1, p, inner0 + inner1, ns0 + ns1, v.content());
        }
        assert forall|k: int| 0 <= k < ns1.len() implies ns0.contains(
            #[trigger] ns1[k],
        ) || v.content().contains(ns1[k]) || (ns1[k] as int) >= s0.len() by {
            if k < inner1.len() {
                assert(ns1[k] == inner1[k]);
                assert(inner1.contains(inner1[k]));
                if inner0.contains(ns1[k]) {
                    let w = choose|w: int|
                        0 <= w < inner0.len() && inner0[w] == ns1[k];
                    assert(ns0[w] == ns1[k]);
                }
                if v.content().contains(ns1[k]) {
                    let w = choose|w: int|
                        0 <= w < v.content().len() && v.content()[w] == ns1[k];
                    assert(v.content()[w] == ns1[k]);
                }
            } else {
                assert(ns1[k] == sent);
                assert(ns0[ns0.len() - 1] == sent);
                assert(ns0.contains(sent));
            }
        }
        assert forall|k: int|
            0 <= k < v.content().len() implies <Option<T> as View>::nodes(state).contains(
            #[trigger] v.content()[k],
        ) by {
            assert(v.content()[k] == v.content()[k]);
            assert(inner1.contains(v.content()[k]));
            let w = choose|w: int|
                0 <= w < inner1.len() && inner1[w] == v.content()[k];
            assert(ns1[w] == v.content()[k]);
        }
        // unchanged value leaves everything intact
        if opt_represents_old::<T>(st0, v) {
            assert(T::represents(&ist0, v));
            assert(inner1 == inner0);
            assert(ns1 == ns0);
        }
    }
}

/// Whether the stored state already materializes the value `v` as present.
pub open spec fn opt_represents_old<T: View>(st0: OptionViewState<T::State>, v: &T) -> bool {
    match st0.inner_state {
        Some(ist) => T::represents(&ist, v),
        None => false,
    }
}

} // verus!
