//! The discriminated-union view: a value that is exactly one of two typed
//! alternatives.  Reconciliation forwards into the unchanged alternative's
//! own rebuild, and on an alternative switch it tears the old branch down
//! completely before building the new one.
//!
//! Unions of more than two alternatives nest: an alternative may itself be
//! a union.

use crate::anchor::{Anchor, BeforeAnchor};
use crate::scene::{kids, node_inv, par, scene_inv, NodeModel, Scene};
use crate::seqtools::{
    lemma_singleton_contains, lemma_without_compose, lemma_without_props,
    lemma_without_remove_value, without,
};
use crate::view::{
    content_node_ok, entry_similar, lemma_block_placed, lemma_placed_parts, lemma_releases_target,
    lemma_sbr_grow, lemma_without_mid, owns, placed, releases, run_start, same_but,
    same_but_release, View,
};
use vstd::prelude::*;
use vstd::view::View as _;

verus! {

/// A value that is exactly one of two alternatives.
pub enum UnionView<A, B> {
    First(A),
    Second(B),
}

/// The built state of the active alternative.
pub enum UnionInner<SA, SB> {
    First(SA),
    Second(SB),
}

/// State of a built union view: a sentinel anchor plus the one built branch.
pub struct UnionViewState<SA, SB> {
    pub anchor: BeforeAnchor,
    pub inner: UnionInner<SA, SB>,
}

impl<A: View, B: View> UnionView<A, B> {
    /// The footprint of the active branch, without the union's own sentinel.
    pub open spec fn inner_nodes(state: &UnionViewState<A::State, B::State>) -> Seq<usize> {
        match &state.inner {
            UnionInner::First(sa) => A::nodes(sa),
            UnionInner::Second(sb) => B::nodes(sb),
        }
    }
}

impl<A: View, B: View> View for UnionView<A, B> {
    type State = UnionViewState<A::State, B::State>;

    open spec fn content(&self) -> Seq<usize> {
        match self {
            UnionView::First(v) => v.content(),
            UnionView::Second(v) => v.content(),
        }
    }

    open spec fn val_inv(&self, s: Seq<NodeModel>) -> bool {
        match self {
            UnionView::First(v) => v.val_inv(s),
            UnionView::Second(v) => v.val_inv(s),
        }
    }

    open spec fn nodes(state: &UnionViewState<A::State, B::State>) -> Seq<usize> {
        Self::inner_nodes(state) + seq![state.anchor.node]
    }

    open spec fn collected(state: &UnionViewState<A::State, B::State>) -> Seq<usize> {
        seq![state.anchor.node] + (match &state.inner {
            UnionInner::First(sa) => A::collected(sa),
            UnionInner::Second(sb) => B::collected(sb),
        })
    }

    open spec fn top(state: &UnionViewState<A::State, B::State>) -> usize {
        state.anchor.node
    }

    open spec fn state_inv(state: &UnionViewState<A::State, B::State>, s: Seq<NodeModel>) -> bool {
        &&& state.anchor.anchor_inv(s)
        &&& owns(s, par(s, state.anchor.node), Self::nodes(state))
        &&& match &state.inner {
            UnionInner::First(sa) => {
                &&& A::state_inv(sa, s)
                &&& par(s, A::top(sa)) == par(s, state.anchor.node)
                &&& forall|m: usize| state.anchor.anchored@.contains(m) == (m == A::top(sa))
            },
            UnionInner::Second(sb) => {
                &&& B::state_inv(sb, s)
                &&& par(s, B::top(sb)) == par(s, state.anchor.node)
                &&& forall|m: usize| state.anchor.anchored@.contains(m) == (m == B::top(sb))
            },
        }
    }

    open spec fn represents(
        state: &UnionViewState<A::State, B::State>,
        v: &UnionView<A, B>,
    ) -> bool {
        match (v, &state.inner) {
            (UnionView::First(va), UnionInner::First(sa)) => A::represents(sa, va),
            (UnionView::Second(vb), UnionInner::Second(sb)) => B::represents(sb, vb),
            _ => false,
        }
    }

    open spec fn rebuild_pre(
        &self,
        state: &UnionViewState<A::State, B::State>,
        s: Seq<NodeModel>,
    ) -> bool {
        match (self, &state.inner) {
            (UnionView::First(va), UnionInner::First(sa)) => va.rebuild_pre(sa, s)
                && !va.content().contains(state.anchor.node),
            (UnionView::Second(vb), UnionInner::Second(sb)) => vb.rebuild_pre(sb, s)
                && !vb.content().contains(state.anchor.node),
            (UnionView::First(va), UnionInner::Second(_)) => va.val_inv(s)
                && !va.content().contains(state.anchor.node),
            (UnionView::Second(vb), UnionInner::First(_)) => vb.val_inv(s)
                && !vb.content().contains(state.anchor.node),
        }
    }

    proof fn lemma_val_inv(&self, s: Seq<NodeModel>) {
        match self {
            UnionView::First(v) => {
                v.lemma_val_inv(s);
            },
            UnionView::Second(v) => {
                v.lemma_val_inv(s);
            },
        }
    }

    proof fn lemma_state_inv(state: &UnionViewState<A::State, B::State>, s: Seq<NodeModel>) {
        let ns = Self::nodes(state);
        let cs = Self::collected(state);
        assert(ns[ns.len() - 1] == state.anchor.node);
        assert(ns.last() == state.anchor.node);
        let (tn, tc): (Seq<usize>, Seq<usize>) = match &state.inner {
            UnionInner::First(sa) => {
                A::lemma_state_inv(sa, s);
                (A::nodes(sa), A::collected(sa))
            },
            UnionInner::Second(sb) => {
                B::lemma_state_inv(sb, s);
                (B::nodes(sb), B::collected(sb))
            },
        };
        assert(cs.len() == ns.len());
        assert forall|m: usize| #[trigger] cs.contains(m) == ns.contains(m) by {
            if cs.contains(m) {
                let w = choose|w: int| 0 <= w < cs.len() && cs[w] == m;
                if w == 0 {
                    assert(ns[ns.len() - 1] == m);
                } else {
                    assert(tc[w - 1] == m);
                    assert(tc.contains(m));
                    assert(tn.contains(m));
                    let w2 = choose|w2: int| 0 <= w2 < tn.len() && tn[w2] == m;
                    assert(ns[w2] == m);
                }
                assert(ns.contains(m));
            }
            if ns.contains(m) {
                let w = choose|w: int| 0 <= w < ns.len() && ns[w] == m;
                if w == ns.len() - 1 {
                    assert(cs[0] == m);
                } else {
                    assert(tn[w] == m);
                    assert(tn.contains(m));
                    assert(tc.contains(m));
                    let w2 = choose|w2: int| 0 <= w2 < tc.len() && tc[w2] == m;
                    assert(cs[1 + w2] == m);
                }
                assert(cs.contains(m));
            }
        }
    }

    proof fn lemma_state_frame(
        state: &UnionViewState<A::State, B::State>,
        s0: Seq<NodeModel>,
        s1: Seq<NodeModel>,
    ) {
        let ns = Self::nodes(state);
        let sent = state.anchor.node;
        assert(ns[ns.len() - 1] == sent);
        assert(s1[sent as int] == s0[sent as int]);
        let p = par(s0, sent);
        assert(par(s1, sent) == p);
        assert(owns(s1, p, ns)) by {
            assert forall|k: int| 0 <= k < ns.len() implies {
                let n = #[trigger] ns[k];
                &&& (n as int) < s1.len()
                &&& n != p
                &&& s1[n as int].alive
                &&& s1[n as int].parent == Some(p)
                &&& s1[n as int].children.len() == 0
            } by {
                assert(s1[ns[k] as int] == s0[ns[k] as int]);
            }
        }
        match &state.inner {
            UnionInner::First(sa) => {
                assert forall|k: int|
                    0 <= k < A::nodes(sa).len() implies s1[#[trigger] A::nodes(sa)[k] as int]
                    == s0[A::nodes(sa)[k] as int] by {
                    assert(ns[k] == A::nodes(sa)[k]);
                }
                A::lemma_state_frame(sa, s0, s1);
                assert(s1[A::top(sa) as int] == s0[A::top(sa) as int]) by {
                    A::lemma_state_inv(sa, s0);
                    assert(A::nodes(sa)[A::nodes(sa).len() - 1] == A::top(sa));
                }
            },
            UnionInner::Second(sb) => {
                assert forall|k: int|
                    0 <= k < B::nodes(sb).len() implies s1[#[trigger] B::nodes(sb)[k] as int]
                    == s0[B::nodes(sb)[k] as int] by {
                    assert(ns[k] == B::nodes(sb)[k]);
                }
                B::lemma_state_frame(sb, s0, s1);
                assert(s1[B::top(sb) as int] == s0[B::top(sb) as int]) by {
                    B::lemma_state_inv(sb, s0);
                    assert(B::nodes(sb)[B::nodes(sb).len() - 1] == B::top(sb));
                }
            },
        }
    }

    proof fn lemma_val_frame(&self, s0: Seq<NodeModel>, s1: Seq<NodeModel>) {
        match self {
            UnionView::First(v) => {
                assert forall|k: int|
                    0 <= k < v.content().len() && (v.content()[k] as int) < s0.len() implies entry_similar(
                    s0,
                    s1,
                    #[trigger] v.content()[k],
                ) by {
                    assert(self.content()[k] == v.content()[k]);
                }
                v.lemma_val_frame(s0, s1);
            },
            UnionView::Second(v) => {
                assert forall|k: int|
                    0 <= k < v.content().len() && (v.content()[k] as int) < s0.len() implies entry_similar(
                    s0,
                    s1,
                    #[trigger] v.content()[k],
                ) by {
                    assert(self.content()[k] == v.content()[k]);
                }
                v.lemma_val_frame(s0, s1);
            },
        }
    }

    proof fn lemma_rebuild_pre_frame(
        &self,
        state: &UnionViewState<A::State, B::State>,
        s0: Seq<NodeModel>,
        s1: Seq<NodeModel>,
    ) {
        match (self, &state.inner) {
            (UnionView::First(va), UnionInner::First(sa)) => {
                assert forall|k: int|
                    0 <= k < A::nodes(sa).len() implies s1[#[trigger] A::nodes(sa)[k] as int]
                    == s0[A::nodes(sa)[k] as int] by {
                    assert(Self::nodes(state)[k] == A::nodes(sa)[k]);
                }
                assert forall|k: int|
                    0 <= k < va.content().len() && (va.content()[k] as int) < s0.len() implies entry_similar(
                    s0,
                    s1,
                    #[trigger] va.content()[k],
                ) by {
                    assert(self.content()[k] == va.content()[k]);
                }
                A::lemma_state_frame(sa, s0, s1);
                va.lemma_rebuild_pre_frame(sa, s0, s1);
            },
            (UnionView::Second(vb), UnionInner::Second(sb)) => {
                assert forall|k: int|
                    0 <= k < B::nodes(sb).len() implies s1[#[trigger] B::nodes(sb)[k] as int]
                    == s0[B::nodes(sb)[k] as int] by {
                    assert(Self::nodes(state)[k] == B::nodes(sb)[k]);
                }
                assert forall|k: int|
                    0 <= k < vb.content().len() && (vb.content()[k] as int) < s0.len() implies entry_similar(
                    s0,
                    s1,
                    #[trigger] vb.content()[k],
                ) by {
                    assert(self.content()[k] == vb.content()[k]);
                }
                B::lemma_state_frame(sb, s0, s1);
                vb.lemma_rebuild_pre_frame(sb, s0, s1);
            },
            (UnionView::First(va), UnionInner::Second(_)) => {
                assert forall|k: int|
                    0 <= k < va.content().len() && (va.content()[k] as int) < s0.len() implies entry_similar(
                    s0,
                    s1,
                    #[trigger] va.content()[k],
                ) by {
                    assert(self.content()[k] == va.content()[k]);
                }
                va.lemma_val_frame(s0, s1);
            },
            (UnionView::Second(vb), UnionInner::First(_)) => {
                assert forall|k: int|
                    0 <= k < vb.content().len() && (vb.content()[k] as int) < s0.len() implies entry_similar(
                    s0,
                    s1,
                    #[trigger] vb.content()[k],
                ) by {
                    assert(self.content()[k] == vb.content()[k]);
                }
                vb.lemma_val_frame(s0, s1);
            },
        }
    }

    proof fn lemma_rebuild_pre_bound(
        &self,
        state: &UnionViewState<A::State, B::State>,
        s: Seq<NodeModel>,
    ) {
        match (self, &state.inner) {
            (UnionView::First(va), UnionInner::First(sa)) => {
                va.lemma_rebuild_pre_bound(sa, s);
                assert forall|k: int|
                    0 <= k < self.content().len() implies ((#[trigger] self.content()[k]) as int)
                    < s.len() by {
                    assert(self.content()[k] == va.content()[k]);
                }
            },
            (UnionView::Second(vb), UnionInner::Second(sb)) => {
                vb.lemma_rebuild_pre_bound(sb, s);
                assert forall|k: int|
                    0 <= k < self.content().len() implies ((#[trigger] self.content()[k]) as int)
                    < s.len() by {
                    assert(self.content()[k] == vb.content()[k]);
                }
            },
            (UnionView::First(va), UnionInner::Second(_)) => {
                va.lemma_val_inv(s);
                assert forall|k: int|
                    0 <= k < self.content().len() implies ((#[trigger] self.content()[k]) as int)
                    < s.len() by {
                    assert(self.content()[k] == va.content()[k]);
                    assert(content_node_ok(s, va.content()[k]));
                }
            },
            (UnionView::Second(vb), UnionInner::First(_)) => {
                vb.lemma_val_inv(s);
                assert forall|k: int|
                    0 <= k < self.content().len() implies ((#[trigger] self.content()[k]) as int)
                    < s.len() by {
                    assert(self.content()[k] == vb.content()[k]);
                    assert(content_node_ok(s, vb.content()[k]));
                }
            },
        }
    }

    #[verifier::rlimit(100)]
    fn build<AN: Anchor>(&self, sg: &mut Scene, anchor: &mut AN) -> (st: UnionViewState<
        A::State,
        B::State,
    >) {
        let ghost s0 = sg@;
        let ghost t = anchor.target(s0);
        let ghost sl = anchor.slot(s0);
        let ghost k0 = kids(s0, t);
        proof {
            anchor.lemma_anchor_inv(s0);
        }
        let sent = sg.new_node();
        let ghost s1 = sg@;
        proof {
            assert(s1[t as int] == s0[t as int]);
            assert(s1[anchor.anchor_node() as int] == s0[anchor.anchor_node() as int]);
            anchor.lemma_anchor_frame(s0, s1);
            assert(kids(s1, t) == k0);
        }
        let mut un_anchor = BeforeAnchor::new(sent);
        anchor.add(sg, sent);
        let ghost s2 = sg@;
        proof {
            assert(sent != t);
            assert(kids(s2, t) == k0.insert(sl, sent));
            assert(s2[sent as int].alive && s2[sent as int].parent == Some(t));
            assert(s2[sent as int].children.len() == 0) by {
                assert(s1[sent as int].children.len() == 0);
            }
            assert(un_anchor.anchor_inv(s2));
            assert(un_anchor.target(s2) == t);
            assert(!k0.contains(sent)) by {
                if k0.contains(sent) {
                    let w = choose|w: int| 0 <= w < k0.len() && k0[w] == sent;
                    assert(node_inv(s0, t as int));
                    assert((k0[w] as int) < s0.len());
                }
            }
            k0.insert_ensures(sl, sent);
            kids(s2, t).index_of_first_ensures(sent);
            assert forall|j: int| 0 <= j < sl implies kids(s2, t)[j] != sent by {
                assert(kids(s2, t)[j] == k0[j]);
                assert(k0.contains(k0[j]));
            }
            assert(kids(s2, t)[sl] == sent);
            assert(kids(s2, t).index_of_first(sent) == Some(sl));
            assert(un_anchor.slot(s2) == sl);
            self.lemma_val_inv(s0);
            assert forall|k: int|
                0 <= k < self.content().len() implies entry_similar(
                s0,
                s2,
                #[trigger] self.content()[k],
            ) && #[trigger] self.content()[k] != t by {
                let c = self.content()[k];
                assert(content_node_ok(s0, c));
                assert(c != sent);
                assert(c != t);
                assert(s2[c as int] == s0[c as int]);
            }
        }
        let ghost ua0 = un_anchor;
        let inner = match self {
            UnionView::First(v) => {
                proof {
                    assert forall|k: int|
                        0 <= k < v.content().len() && (v.content()[k] as int) < s0.len() implies entry_similar(
                        s0,
                        s2,
                        #[trigger] v.content()[k],
                    ) by {
                        assert(self.content()[k] == v.content()[k]);
                    }
                    v.lemma_val_frame(s0, s2);
                    assert forall|k: int|
                        0 <= k < v.content().len() implies #[trigger] v.content()[k]
                        != un_anchor.target(s2) by {
                        assert(self.content()[k] == v.content()[k]);
                    }
                }
                UnionInner::First(v.build(sg, &mut un_anchor))
            },
            UnionView::Second(v) => {
                proof {
                    assert forall|k: int|
                        0 <= k < v.content().len() && (v.content()[k] as int) < s0.len() implies entry_similar(
                        s0,
                        s2,
                        #[trigger] v.content()[k],
                    ) by {
                        assert(self.content()[k] == v.content()[k]);
                    }
                    v.lemma_val_frame(s0, s2);
                    assert forall|k: int|
                        0 <= k < v.content().len() implies #[trigger] v.content()[k]
                        != un_anchor.target(s2) by {
                        assert(self.content()[k] == v.content()[k]);
                    }
                }
                UnionInner::Second(v.build(sg, &mut un_anchor))
            },
        };
        let st = UnionViewState { anchor: un_anchor, inner };
        proof {
            let s3 = sg@;
            let ns = Self::nodes(&st);
            let inn = Self::inner_nodes(&st);
            let ghost itop = match &st.inner {
                UnionInner::First(sa) => A::top(sa),
                UnionInner::Second(sb) => B::top(sb),
            };
            let ghost icontent = match self {
                UnionView::First(v) => v.content(),
                UnionView::Second(v) => v.content(),
            };
            assert(ns == inn + seq![sent]);
            assert(kids(s3, t) == kids(s2, t).take(sl) + inn + kids(s2, t).skip(sl));
            assert(kids(s2, t).take(sl) =~= k0.take(sl)) by {
                k0.insert_ensures(sl, sent);
            }
            assert(kids(s2, t).skip(sl) =~= seq![sent] + k0.skip(sl)) by {
                k0.insert_ensures(sl, sent);
            }
            assert(kids(s3, t) =~= k0.take(sl) + ns + k0.skip(sl));
            assert(!inn.contains(sent)) by {
                if inn.contains(sent) {
                    let w = choose|w: int| 0 <= w < inn.len() && inn[w] == sent;
                    assert(icontent.contains(sent) || (sent as int) >= s2.len());
                    if icontent.contains(sent) {
                        let w2 = choose|w2: int|
                            0 <= w2 < icontent.len() && icontent[w2] == sent;
                        assert(self.content()[w2] == sent);
                        self.lemma_val_inv(s0);
                        assert(content_node_ok(s0, sent));
                    }
                }
            }
            assert(s3[sent as int] == s2[sent as int]);
            assert(par(s3, sent) == t);
            match &st.inner {
                UnionInner::First(sa) => {
                    A::lemma_state_inv(sa, s3);
                },
                UnionInner::Second(sb) => {
                    B::lemma_state_inv(sb, s3);
                },
            }
            assert(owns(s3, t, ns)) by {
                assert(owns(s3, t, inn));
                assert forall|k: int| 0 <= k < ns.len() implies {
                    let n = #[trigger] ns[k];
                    &&& (n as int) < s3.len()
                    &&& n != t
                    &&& s3[n as int].alive
                    &&& s3[n as int].parent == Some(t)
                    &&& s3[n as int].children.len() == 0
                } by {
                    if k < inn.len() {
                        assert(ns[k] == inn[k]);
                        assert(inn.contains(inn[k]));
                    } else {
                        assert(ns[k] == sent);
                    }
                }
                assert(ns.no_duplicates()) by {
                    assert forall|x: int, y: int| 0 <= x < y < ns.len() implies ns[x] != ns[y] by {
                        if y < inn.len() {
                            assert(ns[x] == inn[x] && ns[y] == inn[y]);
                        } else {
                            assert(ns[y] == sent);
                            assert(ns[x] == inn[x]);
                            assert(inn.contains(inn[x]));
                        }
                    }
                }
            }
            assert(Self::state_inv(&st, s3)) by {
                assert(st.anchor.anchor_inv(s3));
                assert forall|m: usize| st.anchor.anchored@.contains(m) == (m == itop) by {
                    assert(st.anchor.tracks(m) == (ua0.tracks(m) || m == itop));
                    assert(!Seq::<usize>::empty().contains(m));
                }
            }
            lemma_block_placed(s3, t, ns, k0.take(sl), k0.skip(sl));
            assert(same_but(s0, s3, t, ns)) by {
                assert forall|i: int|
                    0 <= i < s0.len() && i != t as int && !ns.contains(i as usize) implies
                    #[trigger] s3[i] == s0[i] by {
                    assert(ns[ns.len() - 1] == sent);
                    assert(!inn.contains(i as usize)) by {
                        if inn.contains(i as usize) {
                            let w = choose|w: int| 0 <= w < inn.len() && inn[w] == (i as usize);
                            assert(ns[w] == (i as usize));
                        }
                    }
                    assert(s2[i] == s0[i]);
                }
            }
            assert forall|k: int| 0 <= k < ns.len() implies self.content().contains(
                #[trigger] ns[k],
            ) || (ns[k] as int) >= s0.len() by {
                if k < inn.len() {
                    assert(ns[k] == inn[k]);
                    assert(inn.contains(inn[k]));
                    if icontent.contains(ns[k]) {
                        let w = choose|w: int| 0 <= w < icontent.len() && icontent[w] == ns[k];
                        assert(self.content()[w] == ns[k]);
                    }
                } else {
                    assert(ns[k] == sent);
                }
            }
            assert forall|k: int| 0 <= k < self.content().len() implies ns.contains(
                #[trigger] self.content()[k],
            ) by {
                let c = self.content()[k];
                assert(icontent.contains(c)) by {
                    assert(icontent[k] == c);
                }
                assert(inn.contains(c));
                let w = choose|w: int| 0 <= w < inn.len() && inn[w] == c;
                assert(ns[w] == c);
            }
            assert(s3[anchor.anchor_node() as int].alive == s2[anchor.anchor_node() as int].alive
                && s3[anchor.anchor_node() as int].parent == s2[anchor.anchor_node()
                as int].parent) by {
                anchor.lemma_anchor_inv(s2);
                let an = anchor.anchor_node();
                if an != t {
                    assert(!inn.contains(an)) by {
                        if inn.contains(an) {
                            assert(icontent.contains(an) || (an as int) >= s2.len());
                            if icontent.contains(an) {
                                let w2 = choose|w2: int|
                                    0 <= w2 < icontent.len() && icontent[w2] == an;
                                assert(self.content()[w2] == an);
                                self.lemma_val_inv(s0);
                                assert(content_node_ok(s0, an));
                                assert(s2[an as int] == s0[an as int]);
                                assert(s2[an as int].parent is None);
                            }
                        }
                    }
                    assert(!ns.contains(an)) by {
                        if ns.contains(an) {
                            let w = choose|w: int| 0 <= w < ns.len() && ns[w] == an;
                            if w < inn.len() {
                                assert(inn[w] == an);
                            } else {
                                assert(ns[w] == sent);
                            }
                        }
                    }
                }
            }
            anchor.lemma_anchor_frame(s2, s3);
        }
        st
    }

    /// Beyond the general contract: the stored tag always follows the new
    /// value's tag; forwarding into the unchanged alternative carries the
    /// built branch over (its sentinel survives); a switch destroys the
    /// whole footprint of the replaced branch.
    #[verifier::rlimit(100)]
    fn rebuild(&self, sg: &mut Scene, state: &mut Self::State)
        ensures
            self is First <==> final(state).inner is First,
            self is First && old(state).inner is First ==> A::top(&final(state).inner->First_0)
                == A::top(&old(state).inner->First_0),
            self is Second && old(state).inner is Second ==> B::top(
                &final(state).inner->Second_0,
            ) == B::top(&old(state).inner->Second_0),
            self is First && old(state).inner is Second ==> forall|k: int|
                0 <= k < B::nodes(&old(state).inner->Second_0).len() ==> !final(sg)@[#[trigger] B::nodes(
                    &old(state).inner->Second_0,
                )[k] as int].alive,
            self is Second && old(state).inner is First ==> forall|k: int|
                0 <= k < A::nodes(&old(state).inner->First_0).len() ==> !final(sg)@[#[trigger] A::nodes(
                    &old(state).inner->First_0,
                )[k] as int].alive,
    {
        let ghost s0 = sg@;
        let ghost st0 = *state;
        let ghost sent = st0.anchor.node;
        let ghost p = par(s0, sent);
        let ghost ns0 = Self::nodes(&st0);
        let ghost inn0 = Self::inner_nodes(&st0);
        let ghost i0 = run_start(s0, p, ns0);
        let ghost k0 = kids(s0, p);
        proof {
            Self::lemma_state_inv(&st0, s0);
            assert(node_inv(s0, sent as int));
            assert(node_inv(s0, p as int));
            lemma_placed_parts(s0, p, ns0);
            assert(ns0 == inn0 + seq![sent]);
            assert(ns0[ns0.len() - 1] == sent);
            assert(!inn0.contains(sent)) by {
                if inn0.contains(sent) {
                    let w = choose|w: int| 0 <= w < inn0.len() && inn0[w] == sent;
                    assert(ns0[w] == sent);
                }
            }
            assert(inn0.len() >= 1) by {
                match &st0.inner {
                    UnionInner::First(sa) => {
                        A::lemma_state_inv(sa, s0);
                    },
                    UnionInner::Second(sb) => {
                        B::lemma_state_inv(sb, s0);
                    },
                }
            }
            assert(k0 == k0.take(i0) + ns0 + k0.skip(i0 + ns0.len() as int));
            assert(k0 =~= k0.take(i0) + inn0 + (seq![sent] + k0.skip(i0 + ns0.len() as int)));
        }
        match (self, &mut state.inner) {
            (UnionView::First(v), UnionInner::First(sa0)) => {
                proof {
                    lemma_block_placed(
                        s0,
                        p,
                        inn0,
                        k0.take(i0),
                        seq![sent] + k0.skip(i0 + ns0.len() as int),
                    );
                    assert(par(s0, A::top(sa0)) == p);
                }
                v.rebuild(sg, sa0);
                proof {
                    let s1 = sg@;
                    let inner0 = inn0;
                    let inner1 = A::nodes(sa0);
                            let s1 = sg@;
                            let inner1 = A::nodes(sa0);
                            let ns1 = Self::nodes(state);
                            assert(ns1 == inner1 + seq![sent]);
                            assert(kids(s1, p) == k0.take(i0) + inner1 + (seq![sent] + k0.skip(
                                i0 + ns0.len() as int,
                            )));
                            assert(kids(s1, p) =~= k0.take(i0) + ns1 + k0.skip(i0 + ns0.len() as int));
                            // the sentinel survived: it is in neither footprint
                            assert(!inner0.contains(sent)) by {
                                if inner0.contains(sent) {
                                    let w = choose|w: int|
                                        0 <= w < inner0.len() && inner0[w] == sent;
                                    assert(ns0[w] == sent && ns0[ns0.len() - 1] == sent);
                                }
                            }
                            assert(!inner1.contains(sent)) by {
                                if inner1.contains(sent) {
                                    let w = choose|w: int|
                                        0 <= w < inner1.len() && inner1[w] == sent;
                                    assert(inner0.contains(sent) || v.content().contains(sent) || (
                                    sent as int) >= s0.len());
                                }
                            }
                            assert(s1[sent as int] == s0[sent as int]) by {
                                assert(!(inner0 + inner1).contains(sent)) by {
                                    if (inner0 + inner1).contains(sent) {
                                        let w = choose|w: int|
                                            0 <= w < (inner0 + inner1).len() && (inner0 + inner1)[w]
                                                == sent;
                                    }
                                }
                                assert(self.content() =~= v.content());
                                assert(!releases(v.content(), s0, sent as int)) by {
                                    if releases(v.content(), s0, sent as int) {
                                        lemma_releases_target(v.content(), s0, sent as int);
                                        assert(owns(s0, p, ns0));
                                        assert(ns0[ns0.len() - 1] == sent);
                                        assert(s0[sent as int].children.len() == 0);
                                    }
                                }
                            }
                            assert(par(s1, sent) == p);
                            A::lemma_state_inv(sa0, s1);
                            assert(owns(s1, p, ns1)) by {
                                assert(owns(s1, p, inner1));
                                assert forall|k: int| 0 <= k < ns1.len() implies {
                                    let n = #[trigger] ns1[k];
                                    &&& (n as int) < s1.len()
                                    &&& n != p
                                    &&& s1[n as int].alive
                                    &&& s1[n as int].parent == Some(p)
                                    &&& s1[n as int].children.len() == 0
                                } by {
                                    if k < inner1.len() {
                                        assert(ns1[k] == inner1[k]);
                                        assert(inner1.contains(inner1[k]));
                                    } else {
                                        assert(ns1[k] == sent);
                                    }
                                }
                                assert(ns1.no_duplicates()) by {
                                    assert forall|x: int, y: int|
                                        0 <= x < y < ns1.len() implies ns1[x] != ns1[y] by {
                                        if y < inner1.len() {
                                            assert(ns1[x] == inner1[x] && ns1[y] == inner1[y]);
                                        } else {
                                            assert(ns1[y] == sent);
                                            assert(ns1[x] == inner1[x]);
                                            assert(inner1.contains(inner1[x]));
                                        }
                                    }
                                }
                            }
                            assert(Self::state_inv(state, s1)) by {
                                assert(state.anchor == st0.anchor);
                                assert(state.anchor.anchor_inv(s1));
                                assert(par(s1, A::top(sa0)) == p) by {
                                    A::lemma_state_inv(sa0, s1);
                                }
                                assert forall|m: usize| state.anchor.anchored@.contains(m) == (m
                                    == A::top(sa0)) by {
                                    assert(A::top(sa0) == A::top(&st0.inner->First_0));
                                }
                            }
                            lemma_block_placed(s1, p, ns1, k0.take(i0), k0.skip(i0 + ns0.len() as int));
                            assert(same_but_release(s0, s1, p, ns0 + ns1, self.content())) by {
                                assert(forall|m: usize|
                                    #[trigger] (inner0 + inner1).contains(m) ==> (ns0
                                        + ns1).contains(m)) by {
                                    assert forall|m: usize|
                                        #[trigger] (inner0 + inner1).contains(m) implies (ns0
                                        + ns1).contains(m) by {
                                        let w = choose|w: int|
                                            0 <= w < (inner0 + inner1).len() && (inner0 + inner1)[w]
                                                == m;
                                        if w < inner0.len() {
                                            assert(ns0[w] == m);
                                            assert((ns0 + ns1)[w] == m);
                                        } else {
                                            assert(ns1[w - inner0.len()] == m);
                                            assert((ns0 + ns1)[ns0.len() + w - inner0.len()] == m);
                                        }
                                    }
                                }
                                assert(self.content() =~= v.content());
                                lemma_sbr_grow(s0, s1, p, inner0 + inner1, ns0 + ns1, v.content());
                            }
                            assert forall|k: int| 0 <= k < ns1.len() implies ns0.contains(
                                #[trigger] ns1[k],
                            ) || self.content().contains(ns1[k]) || (ns1[k] as int) >= s0.len() by {
                                if k < inner1.len() {
                                    assert(ns1[k] == inner1[k]);
                                    assert(inner1.contains(inner1[k]));
                                    if inner0.contains(ns1[k]) {
                                        let w = choose|w: int|
                                            0 <= w < inner0.len() && inner0[w] == ns1[k];
                                        assert(ns0[w] == ns1[k]);
                                    }
                                    if v.content().contains(ns1[k]) {
                                        let w = choose|w: int|
                                            0 <= w < v.content().len() && v.content()[w] == ns1[k];
                                        assert(self.content()[w] == ns1[k]);
                                    }
                                } else {
                                    assert(ns1[k] == sent);
                                    assert(ns0[ns0.len() - 1] == sent);
                                    assert(ns0.contains(sent));
                                }
                            }
                            assert forall|k: int|
                                0 <= k < self.content().len() implies Self::nodes(state).contains(
                                #[trigger] self.content()[k],
                            ) by {
                                assert(self.content()[k] == v.content()[k]);
                                assert(inner1.contains(v.content()[k]));
                                let w = choose|w: int|
                                    0 <= w < inner1.len() && inner1[w] == v.content()[k];
                                assert(ns1[w] == v.content()[k]);
                            }
                            // unchanged value leaves everything intact
                            if Self::represents(&st0, self) {
                                assert(A::represents(&st0.inner->First_0, v));
                                assert(inner1 == inner0);
                                assert(ns1 == ns0);
                            }
                }

            },
            (UnionView::Second(v), UnionInner::Second(sb0)) => {
                proof {
                    lemma_block_placed(
                        s0,
                        p,
                        inn0,
                        k0.take(i0),
                        seq![sent] + k0.skip(i0 + ns0.len() as int),
                    );
                    assert(par(s0, B::top(sb0)) == p);
                }
                v.rebuild(sg, sb0);
                proof {
                    let s1 = sg@;
                    let inner0 = inn0;
                    let inner1 = B::nodes(sb0);
                            let s1 = sg@;
                            let inner1 = B::nodes(sb0);
                            let ns1 = Self::nodes(state);
                            assert(ns1 == inner1 + seq![sent]);
                            assert(kids(s1, p) == k0.take(i0) + inner1 + (seq![sent] + k0.skip(
                                i0 + ns0.len() as int,
                            )));
                            assert(kids(s1, p) =~= k0.take(i0) + ns1 + k0.skip(i0 + ns0.len() as int));
                            // the sentinel survived: it is in neither footprint
                            assert(!inner0.contains(sent)) by {
                                if inner0.contains(sent) {
                                    let w = choose|w: int|
                                        0 <= w < inner0.len() && inner0[w] == sent;
                                    assert(ns0[w] == sent && ns0[ns0.len() - 1] == sent);
                                }
                            }
                            assert(!inner1.contains(sent)) by {
                                if inner1.contains(sent) {
                                    let w = choose|w: int|
                                        0 <= w < inner1.len() && inner1[w] == sent;
                                    assert(inner0.contains(sent) || v.content().contains(sent) || (
                                    sent as int) >= s0.len());
                                }
                            }
                            assert(s1[sent as int] == s0[sent as int]) by {
                                assert(!(inner0 + inner1).contains(sent)) by {
                                    if (inner0 + inner1).contains(sent) {
                                        let w = choose|w: int|
                                            0 <= w < (inner0 + inner1).len() && (inner0 + inner1)[w]
                                                == sent;
                                    }
                                }
                                assert(self.content() =~= v.content());
                                assert(!releases(v.content(), s0, sent as int)) by {
                                    if releases(v.content(), s0, sent as int) {
                                        lemma_releases_target(v.content(), s0, sent as int);
                                        assert(owns(s0, p, ns0));
                                        assert(ns0[ns0.len() - 1] == sent);
                                        assert(s0[sent as int].children.len() == 0);
                                    }
                                }
                            }
                            assert(par(s1, sent) == p);
                            B::lemma_state_inv(sb0, s1);
                            assert(owns(s1, p, ns1)) by {
                                assert(owns(s1, p, inner1));
                                assert forall|k: int| 0 <= k < ns1.len() implies {
                                    let n = #[trigger] ns1[k];
                                    &&& (n as int) < s1.len()
                                    &&& n != p
                                    &&& s1[n as int].alive
                                    &&& s1[n as int].parent == Some(p)
                                    &&& s1[n as int].children.len() == 0
                                } by {
                                    if k < inner1.len() {
                                        assert(ns1[k] == inner1[k]);
                                        assert(inner1.contains(inner1[k]));
                                    } else {
                                        assert(ns1[k] == sent);
                                    }
                                }
                                assert(ns1.no_duplicates()) by {
                                    assert forall|x: int, y: int|
                                        0 <= x < y < ns1.len() implies ns1[x] != ns1[y] by {
                                        if y < inner1.len() {
                                            assert(ns1[x] == inner1[x] && ns1[y] == inner1[y]);
                                        } else {
                                            assert(ns1[y] == sent);
                                            assert(ns1[x] == inner1[x]);
                                            assert(inner1.contains(inner1[x]));
                                        }
                                    }
                                }
                            }
                            assert(Self::state_inv(state, s1)) by {
                                assert(state.anchor == st0.anchor);
                                assert(state.anchor.anchor_inv(s1));
                                assert(par(s1, B::top(sb0)) == p) by {
                                    B::lemma_state_inv(sb0, s1);
                                }
                                assert forall|m: usize| state.anchor.anchored@.contains(m) == (m
                                    == B::top(sb0)) by {
                                    assert(B::top(sb0) == B::top(&st0.inner->Second_0));
                                }
                            }
                            lemma_block_placed(s1, p, ns1, k0.take(i0), k0.skip(i0 + ns0.len() as int));
                            assert(same_but_release(s0, s1, p, ns0 + ns1, self.content())) by {
                                assert(forall|m: usize|
                                    #[trigger] (inner0 + inner1).contains(m) ==> (ns0
                                        + ns1).contains(m)) by {
                                    assert forall|m: usize|
                                        #[trigger] (inner0 + inner1).contains(m) implies (ns0
                                        + ns1).contains(m) by {
                                        let w = choose|w: int|
                                            0 <= w < (inner0 + inner1).len() && (inner0 + inner1)[w]
                                                == m;
                                        if w < inner0.len() {
                                            assert(ns0[w] == m);
                                            assert((ns0 + ns1)[w] == m);
                                        } else {
                                            assert(ns1[w - inner0.len()] == m);
                                            assert((ns0 + ns1)[ns0.len() + w - inner0.len()] == m);
                                        }
                                    }
                                }
                                assert(self.content() =~= v.content());
                                lemma_sbr_grow(s0, s1, p, inner0 + inner1, ns0 + ns1, v.content());
                            }
                            assert forall|k: int| 0 <= k < ns1.len() implies ns0.contains(
                                #[trigger] ns1[k],
                            ) || self.content().contains(ns1[k]) || (ns1[k] as int) >= s0.len() by {
                                if k < inner1.len() {
                                    assert(ns1[k] == inner1[k]);
                                    assert(inner1.contains(inner1[k]));
                                    if inner0.contains(ns1[k]) {
                                        let w = choose|w: int|
                                            0 <= w < inner0.len() && inner0[w] == ns1[k];
                                        assert(ns0[w] == ns1[k]);
                                    }
                                    if v.content().contains(ns1[k]) {
                                        let w = choose|w: int|
                                            0 <= w < v.content().len() && v.content()[w] == ns1[k];
                                        assert(self.content()[w] == ns1[k]);
                                    }
                                } else {
                                    assert(ns1[k] == sent);
                                    assert(ns0[ns0.len() - 1] == sent);
                                    assert(ns0.contains(sent));
                                }
                            }
                            assert forall|k: int|
                                0 <= k < self.content().len() implies Self::nodes(state).contains(
                                #[trigger] self.content()[k],
                            ) by {
                                assert(self.content()[k] == v.content()[k]);
                                assert(inner1.contains(v.content()[k]));
                                let w = choose|w: int|
                                    0 <= w < inner1.len() && inner1[w] == v.content()[k];
                                assert(ns1[w] == v.content()[k]);
                            }
                            // unchanged value leaves everything intact
                            if Self::represents(&st0, self) {
                                assert(B::represents(&st0.inner->Second_0, v));
                                assert(inner1 == inner0);
                                assert(ns1 == ns0);
                            }
                }

            },
            (vv, inner_slot) => {
                union_switch::<A, B>(self, sg, state);
            },
        }
    }

    #[verifier::rlimit(100)]
    fn teardown<AN: Anchor>(state: &mut Self::State, sg: &mut Scene, anchor: &mut AN) {
        let ghost s0 = sg@;
        let ghost st0 = *state;
        let ghost sent = st0.anchor.node;
        let ghost p = par(s0, sent);
        let ghost ns0 = Self::nodes(&st0);
        let ghost inn0 = Self::inner_nodes(&st0);
        let ghost k0 = kids(s0, p);
        proof {
            Self::lemma_state_inv(&st0, s0);
            assert(node_inv(s0, sent as int));
            assert(node_inv(s0, p as int));
            anchor.lemma_anchor_inv(s0);
            assert(ns0[ns0.len() - 1] == sent);
            assert(ns0.contains(sent));
            assert(!inn0.contains(sent)) by {
                if inn0.contains(sent) {
                    let w = choose|w: int| 0 <= w < inn0.len() && inn0[w] == sent;
                    assert(ns0[w] == sent);
                }
            }
            match &st0.inner {
                UnionInner::First(sa) => {
                    assert(st0.anchor.tracks(A::top(sa)));
                    assert(par(s0, A::top(sa)) == p);
                },
                UnionInner::Second(sb) => {
                    assert(st0.anchor.tracks(B::top(sb)));
                    assert(par(s0, B::top(sb)) == p);
                },
            }
        }
        match &mut state.inner {
            UnionInner::First(sa0) => {
                A::teardown(sa0, sg, &mut state.anchor);
            },
            UnionInner::Second(sb0) => {
                B::teardown(sb0, sg, &mut state.anchor);
            },
        }
        let ghost s1 = sg@;
        proof {
            assert(kids(s1, p) == without(k0, inn0));
            assert(s1[sent as int] == s0[sent as int]);
            let an = anchor.anchor_node();
            assert(s1[an as int].alive == s0[an as int].alive && s1[an as int].parent == s0[
                an as int
            ].parent) by {
                assert(!inn0.contains(an)) by {
                    if inn0.contains(an) {
                        let w = choose|w: int| 0 <= w < inn0.len() && inn0[w] == an;
                        assert(ns0[w] == an);
                        assert(ns0.contains(an));
                    }
                }
                if an as int != p as int {
                    assert(s1[an as int] == s0[an as int]);
                }
            }
            anchor.lemma_anchor_frame(s0, s1);
            assert(par(s1, sent) == p);
            assert(kids(s1, p).contains(sent)) by {
                lemma_without_props(k0, inn0);
                assert(k0.contains(sent)) by {
                    assert(node_inv(s0, sent as int));
                }
            }
            assert(anchor.target(s1) == p);
            assert(anchor.tracks(sent));
        }
        let sent_exec = state.anchor.node;
        anchor.remove(sg, sent_exec);
        let ghost s2 = sg@;
        proof {
            let k1 = without(k0, inn0);
            assert(node_inv(s0, p as int));
            assert(k1.no_duplicates()) by {
                lemma_without_props(k0, inn0);
            }
            lemma_singleton_contains(sent);
            lemma_without_remove_value(k1, sent, seq![sent]);
            assert(kids(s2, p) == without(without(k0, inn0), seq![sent]));
            assert(forall|m: usize| #[trigger] ns0.contains(m) == (inn0.contains(m) || seq![
                sent,
            ].contains(m))) by {
                assert forall|m: usize| #[trigger] ns0.contains(m) == (inn0.contains(m) || seq![
                    sent,
                ].contains(m)) by {
                    if ns0.contains(m) {
                        let w = choose|w: int| 0 <= w < ns0.len() && ns0[w] == m;
                        if w < inn0.len() {
                            assert(inn0[w] == m);
                        } else {
                            assert(m == sent);
                        }
                    }
                    if inn0.contains(m) {
                        let w = choose|w: int| 0 <= w < inn0.len() && inn0[w] == m;
                        assert(ns0[w] == m);
                    }
                }
            }
            lemma_without_compose(k0, inn0, seq![sent], ns0);
            assert(kids(s2, p) == without(k0, ns0));
            assert(s2[sent as int].alive && s2[sent as int].parent is None && s2[
                sent as int
            ].children.len() == 0);
        }
        sg.free(sent_exec);
        proof {
            let s3 = sg@;
            assert(kids(s3, p) == kids(s2, p)) by {
                assert(sent != p);
            }
            assert forall|k: int| 0 <= k < ns0.len() implies !s3[#[trigger] ns0[k] as int].alive by {
                if k < inn0.len() {
                    assert(ns0[k] == inn0[k]);
                    assert(!s1[inn0[k] as int].alive);
                    assert(s3[inn0[k] as int] == s1[inn0[k] as int]) by {
                        assert(inn0[k] != sent);
                        assert(inn0[k] != p) by {
                            assert(owns(s0, p, ns0));
                        }
                    }
                } else {
                    assert(ns0[k] == sent);
                }
            }
            assert(s3[anchor.anchor_node() as int].alive == s2[anchor.anchor_node() as int].alive
                && s3[anchor.anchor_node() as int].parent == s2[anchor.anchor_node()
                as int].parent) by {
                assert(anchor.anchor_node() != sent);
            }
            anchor.lemma_anchor_frame(s2, s3);
            assert(same_but(s0, s3, p, ns0)) by {
                assert forall|i: int|
                    0 <= i < s0.len() && i != p as int && !ns0.contains(i as usize) implies
                    #[trigger] s3[i] == s0[i] by {
                    assert(i != sent as int);
                    assert(!inn0.contains(i as usize)) by {
                        if inn0.contains(i as usize) {
                            let w = choose|w: int| 0 <= w < inn0.len() && inn0[w] == (i as usize);
                            assert(ns0[w] == (i as usize));
                        }
                    }
                }
            }
        }
    }

    fn collect_nodes(state: &UnionViewState<A::State, B::State>, out: &mut Vec<usize>) {
        let ghost out0 = out@;
        out.push(state.anchor.node);
        match &state.inner {
            UnionInner::First(sa) => {
                A::collect_nodes(sa, out);
            },
            UnionInner::Second(sb) => {
                B::collect_nodes(sb, out);
            },
        }
        proof {
            assert(out@ =~= out0 + Self::collected(state));
        }
    }

    fn collect_run(state: &UnionViewState<A::State, B::State>, out: &mut Vec<usize>) {
        let ghost out0 = out@;
        match &state.inner {
            UnionInner::First(sa) => {
                A::collect_run(sa, out);
            },
            UnionInner::Second(sb) => {
                B::collect_run(sb, out);
            },
        }
        out.push(state.anchor.node);
        proof {
            assert(out@ =~= out0 + Self::nodes(state));
        }
    }

    fn access<'a>(&'a self) -> (r: &'a Self) {
        self
    }
}


/// Replaces the built branch on an alternative switch: the old branch is
/// torn down against the union's sentinel anchor, then the new alternative
/// is built in its place.
#[verifier::rlimit(100)]
fn union_switch<A: View, B: View>(
    uv: &UnionView<A, B>,
    sg: &mut Scene,
    state: &mut UnionViewState<A::State, B::State>,
)
    requires
        scene_inv(old(sg)@),
        <UnionView<A, B> as View>::state_inv(old(state), old(sg)@),
        placed(
            old(sg)@,
            par(old(sg)@, old(state).anchor.node),
            <UnionView<A, B> as View>::nodes(old(state)),
        ),
        uv.rebuild_pre(old(state), old(sg)@),
        (old(state).inner is First <==> !(uv is First)),
    ensures
        scene_inv(final(sg)@),
        old(sg)@.len() <= final(sg)@.len(),
        <UnionView<A, B> as View>::state_inv(final(state), final(sg)@),
        <UnionView<A, B> as View>::represents(final(state), uv),
        final(state).anchor.node == old(state).anchor.node,
        par(final(sg)@, old(state).anchor.node) == par(old(sg)@, old(state).anchor.node),
        kids(final(sg)@, par(old(sg)@, old(state).anchor.node)) == kids(
            old(sg)@,
            par(old(sg)@, old(state).anchor.node),
        ).take(
            run_start(
                old(sg)@,
                par(old(sg)@, old(state).anchor.node),
                <UnionView<A, B> as View>::nodes(old(state)),
            ),
        ) + <UnionView<A, B> as View>::nodes(final(state)) + kids(
            old(sg)@,
            par(old(sg)@, old(state).anchor.node),
        ).skip(
            run_start(
                old(sg)@,
                par(old(sg)@, old(state).anchor.node),
                <UnionView<A, B> as View>::nodes(old(state)),
            ) + <UnionView<A, B> as View>::nodes(old(state)).len(),
        ),
        placed(
            final(sg)@,
            par(old(sg)@, old(state).anchor.node),
            <UnionView<A, B> as View>::nodes(final(state)),
        ),
        forall|k: int|
            0 <= k < <UnionView<A, B> as View>::nodes(final(state)).len()
                ==> <UnionView<A, B> as View>::nodes(old(state)).contains(
                #[trigger] <UnionView<A, B> as View>::nodes(final(state))[k],
            ) || uv.content().contains(<UnionView<A, B> as View>::nodes(final(state))[k]) || (<
            UnionView<A, B> as View>::nodes(final(state))[k] as int) >= old(sg)@.len(),
        same_but_release(
            old(sg)@,
            final(sg)@,
            par(old(sg)@, old(state).anchor.node),
            <UnionView<A, B> as View>::nodes(old(state)) + <UnionView<A, B> as View>::nodes(
                final(state),
            ),
            uv.content(),
        ),
        forall|k: int|
            0 <= k < uv.content().len() ==> <UnionView<A, B> as View>::nodes(
                final(state),
            ).contains(#[trigger] uv.content()[k]),
        uv is First <==> final(state).inner is First,
        forall|k: int|
            0 <= k < UnionView::<A, B>::inner_nodes(old(state)).len() ==> !final(sg)@[#[trigger] UnionView::<
                A,
                B,
            >::inner_nodes(old(state))[k] as int].alive,
{
    let ghost s0 = sg@;
    let ghost st0 = *state;
    let ghost sent = st0.anchor.node;
    let ghost p = par(s0, sent);
    let ghost ns0 = <UnionView<A, B> as View>::nodes(&st0);
    let ghost inn0 = UnionView::<A, B>::inner_nodes(&st0);
    let ghost i0 = run_start(s0, p, ns0);
    let ghost k0 = kids(s0, p);
    let vv = uv;
    proof {
        <UnionView<A, B> as View>::lemma_state_inv(&st0, s0);
        assert(node_inv(s0, sent as int));
        assert(node_inv(s0, p as int));
        lemma_placed_parts(s0, p, ns0);
        assert(ns0 == inn0 + seq![sent]);
        assert(ns0[ns0.len() - 1] == sent);
        assert(!inn0.contains(sent)) by {
            if inn0.contains(sent) {
                let w = choose|w: int| 0 <= w < inn0.len() && inn0[w] == sent;
                assert(ns0[w] == sent);
            }
        }
        assert(inn0.len() >= 1) by {
            match &st0.inner {
                UnionInner::First(sa) => {
                    A::lemma_state_inv(sa, s0);
                },
                UnionInner::Second(sb) => {
                    B::lemma_state_inv(sb, s0);
                },
            }
        }
        assert(k0 == k0.take(i0) + ns0 + k0.skip(i0 + ns0.len() as int));
        assert(k0 =~= k0.take(i0) + inn0 + (seq![sent] + k0.skip(i0 + ns0.len() as int)));
    }
    let inner_slot = &mut state.inner;
                // an alternative switch: tear the old branch down, then
                // build the new one at the sentinel
                proof {
                    match &st0.inner {
                        UnionInner::First(sa) => {
                            assert(st0.anchor.tracks(A::top(sa)));
                            assert(!A::nodes(sa).contains(sent)) by {
                                if A::nodes(sa).contains(sent) {
                                    let w = choose|w: int|
                                        0 <= w < inn0.len() && inn0[w] == sent;
                                }
                            }
                        },
                        UnionInner::Second(sb) => {
                            assert(st0.anchor.tracks(B::top(sb)));
                            assert(!B::nodes(sb).contains(sent)) by {
                                if B::nodes(sb).contains(sent) {
                                    let w = choose|w: int|
                                        0 <= w < inn0.len() && inn0[w] == sent;
                                }
                            }
                        },
                    }
                }
                match inner_slot {
                    UnionInner::First(sa0) => {
                        A::teardown(sa0, sg, &mut state.anchor);
                    },
                    UnionInner::Second(sb0) => {
                        B::teardown(sb0, sg, &mut state.anchor);
                    },
                }
                let ghost s1 = sg@;
                proof {
                    assert(kids(s1, p) == without(k0, inn0));
                    lemma_without_mid(
                        k0,
                        k0.take(i0),
                        inn0,
                        seq![sent] + k0.skip(i0 + ns0.len() as int),
                    );
                    assert(kids(s1, p) =~= k0.take(i0) + (seq![sent] + k0.skip(
                        i0 + ns0.len() as int,
                    )));
                    assert(s1[sent as int] == s0[sent as int]);
                    assert(par(s1, sent) == p);
                    assert(state.anchor.anchor_inv(s1));
                    assert(state.anchor.target(s1) == p);
                    assert(forall|m: usize| !state.anchor.anchored@.contains(m)) by {
                        assert forall|m: usize| !state.anchor.anchored@.contains(m) by {
                            match &st0.inner {
                                UnionInner::First(sa) => {
                                    if m != A::top(sa) {
                                        assert(state.anchor.tracks(m) == st0.anchor.tracks(m));
                                    }
                                },
                                UnionInner::Second(sb) => {
                                    if m != B::top(sb) {
                                        assert(state.anchor.tracks(m) == st0.anchor.tracks(m));
                                    }
                                },
                            }
                        }
                    }
                    // the sentinel fronts the gap: its slot is the run start
                    kids(s1, p).index_of_first_ensures(sent);
                    assert(kids(s1, p)[i0] == sent);
                    assert forall|j: int| 0 <= j < i0 implies kids(s1, p)[j] != sent by {
                        assert(kids(s1, p)[j] == k0.take(i0)[j]);
                        assert(k0[j] == kids(s1, p)[j]);
                        if k0[j] == sent {
                            assert(k0[i0 + ns0.len() - 1] == sent);
                            assert(node_inv(s0, p as int));
                        }
                    }
                    assert(kids(s1, p).index_of_first(sent) == Some(i0));
                    assert(state.anchor.slot(s1) == i0);
                    // the new branch's value is untouched and fit
                    uv.lemma_rebuild_pre_frame(&st0, s0, s0);
                    match vv {
                        UnionView::First(va) => {
                            assert(va.val_inv(s0));
                            va.lemma_val_inv(s0);
                            assert forall|k: int|
                                0 <= k < va.content().len() && (va.content()[k] as int) < s0.len()
                                implies entry_similar(s0, s1, #[trigger] va.content()[k]) by {
                                let c = va.content()[k];
                                assert(uv.content()[k] == c);
                                assert(content_node_ok(s0, c));
                                assert(!ns0.contains(c)) by {
                                    if ns0.contains(c) {
                                        let w = choose|w: int|
                                            0 <= w < ns0.len() && ns0[w] == c;
                                        assert(owns(s0, p, ns0));
                                        assert(s0[c as int].parent == Some(p));
                                    }
                                }
                                assert(!inn0.contains(c)) by {
                                    if inn0.contains(c) {
                                        let wz = choose|wz: int|
                                            0 <= wz < inn0.len() && inn0[wz] == c;
                                        assert(ns0[wz] == c);
                                    }
                                }
                                if c == p {
                                    assert(kids(s0, p).contains(sent)) by {
                                        assert(node_inv(s0, sent as int));
                                    }
                                    assert(kids(s1, p).contains(sent)) by {
                                        assert(kids(s1, p)[i0] == sent);
                                    }
                                } else {
                                    assert(s1[c as int] == s0[c as int]);
                                }
                            }
                            va.lemma_val_frame(s0, s1);
                            assert forall|k: int|
                                0 <= k < va.content().len() implies #[trigger] va.content()[k]
                                != state.anchor.target(s1) by {
                                let c = va.content()[k];
                                assert(uv.content()[k] == c);
                                assert(content_node_ok(s0, c));
                                if c == p {
                                    assert(kids(s0, p).contains(sent)) by {
                                        assert(node_inv(s0, sent as int));
                                    }
                                    assert(kids(s0, p).len() == 0);
                                }
                            }
                        },
                        UnionView::Second(vb) => {
                            assert(vb.val_inv(s0));
                            vb.lemma_val_inv(s0);
                            assert forall|k: int|
                                0 <= k < vb.content().len() && (vb.content()[k] as int) < s0.len()
                                implies entry_similar(s0, s1, #[trigger] vb.content()[k]) by {
                                let c = vb.content()[k];
                                assert(uv.content()[k] == c);
                                assert(content_node_ok(s0, c));
                                assert(!ns0.contains(c)) by {
                                    if ns0.contains(c) {
                                        let w = choose|w: int|
                                            0 <= w < ns0.len() && ns0[w] == c;
                                        assert(owns(s0, p, ns0));
                                        assert(s0[c as int].parent == Some(p));
                                    }
                                }
                                assert(!inn0.contains(c)) by {
                                    if inn0.contains(c) {
                                        let wz = choose|wz: int|
                                            0 <= wz < inn0.len() && inn0[wz] == c;
                                        assert(ns0[wz] == c);
                                    }
                                }
                                if c == p {
                                    assert(kids(s0, p).contains(sent)) by {
                                        assert(node_inv(s0, sent as int));
                                    }
                                    assert(kids(s1, p).contains(sent)) by {
                                        assert(kids(s1, p)[i0] == sent);
                                    }
                                } else {
                                    assert(s1[c as int] == s0[c as int]);
                                }
                            }
                            vb.lemma_val_frame(s0, s1);
                            assert forall|k: int|
                                0 <= k < vb.content().len() implies #[trigger] vb.content()[k]
                                != state.anchor.target(s1) by {
                                let c = vb.content()[k];
                                assert(uv.content()[k] == c);
                                assert(content_node_ok(s0, c));
                                if c == p {
                                    assert(kids(s0, p).contains(sent)) by {
                                        assert(node_inv(s0, sent as int));
                                    }
                                    assert(kids(s0, p).len() == 0);
                                }
                            }
                        },
                    }
                }
                let ghost ua1 = state.anchor;
                match vv {
                    UnionView::First(va) => {
                        let nsa = va.build(sg, &mut state.anchor);
                        *inner_slot = UnionInner::First(nsa);
                    },
                    UnionView::Second(vb) => {
                        let nsb = vb.build(sg, &mut state.anchor);
                        *inner_slot = UnionInner::Second(nsb);
                    },
                }
                proof {
                    let s2 = sg@;
                    let newinner = UnionView::<A, B>::inner_nodes(state);
                    let ns1 = <UnionView<A, B> as View>::nodes(state);
                    let icontent = match uv {
                        UnionView::First(va) => va.content(),
                        UnionView::Second(vb) => vb.content(),
                    };
                    let newtop = match &state.inner {
                        UnionInner::First(sa) => A::top(sa),
                        UnionInner::Second(sb) => B::top(sb),
                    };
                    assert(state.anchor.node == sent);
                    assert(ns1 == newinner + seq![sent]);
                    assert(icontent =~= uv.content());
                    assert(kids(s2, p) == kids(s1, p).take(i0) + newinner + kids(s1, p).skip(i0));
                    assert(kids(s1, p).take(i0) =~= k0.take(i0));
                    assert(kids(s1, p).skip(i0) =~= seq![sent] + k0.skip(i0 + ns0.len() as int));
                    assert(kids(s2, p) =~= k0.take(i0) + ns1 + k0.skip(i0 + ns0.len() as int));
                    assert(!newinner.contains(sent)) by {
                        if newinner.contains(sent) {
                            let w = choose|w: int| 0 <= w < newinner.len() && newinner[w] == sent;
                            assert(icontent.contains(sent) || (sent as int) >= s1.len());
                            if icontent.contains(sent) {
                                let w2 = choose|w2: int|
                                    0 <= w2 < icontent.len() && icontent[w2] == sent;
                                assert(uv.content().contains(sent));
                            }
                        }
                    }
                    assert(s2[sent as int] == s1[sent as int]);
                    assert(s2[sent as int] == s0[sent as int]);
                    assert(par(s2, sent) == p);
                    match &state.inner {
                        UnionInner::First(sa) => {
                            A::lemma_state_inv(sa, s2);
                        },
                        UnionInner::Second(sb) => {
                            B::lemma_state_inv(sb, s2);
                        },
                    }
                    assert(owns(s2, p, ns1)) by {
                        assert(owns(s2, p, newinner));
                        assert forall|k: int| 0 <= k < ns1.len() implies {
                            let n = #[trigger] ns1[k];
                            &&& (n as int) < s2.len()
                            &&& n != p
                            &&& s2[n as int].alive
                            &&& s2[n as int].parent == Some(p)
                            &&& s2[n as int].children.len() == 0
                        } by {
                            if k < newinner.len() {
                                assert(ns1[k] == newinner[k]);
                                assert(newinner.contains(newinner[k]));
                            } else {
                                assert(ns1[k] == sent);
                            }
                        }
                        assert(ns1.no_duplicates()) by {
                            assert forall|x: int, y: int|
                                0 <= x < y < ns1.len() implies ns1[x] != ns1[y] by {
                                if y < newinner.len() {
                                    assert(ns1[x] == newinner[x] && ns1[y] == newinner[y]);
                                } else {
                                    assert(ns1[y] == sent);
                                    assert(ns1[x] == newinner[x]);
                                    assert(newinner.contains(newinner[x]));
                                }
                            }
                        }
                    }
                    assert(<UnionView<A, B> as View>::state_inv(state, s2)) by {
                        assert(state.anchor.anchor_inv(s2));
                        assert forall|m: usize| state.anchor.anchored@.contains(m) == (m
                            == newtop) by {
                            assert(state.anchor.tracks(m) == (ua1.tracks(m) || m == newtop));
                            assert(!ua1.anchored@.contains(m));
                        }
                    }
                    lemma_block_placed(s2, p, ns1, k0.take(i0), k0.skip(i0 + ns0.len() as int));
                    assert(same_but(s0, s2, p, ns0 + ns1)) by {
                        assert forall|j: int|
                            0 <= j < s0.len() && j != p as int && !(ns0 + ns1).contains(
                                j as usize,
                            ) implies #[trigger] s2[j] == s0[j] by {
                            assert(!inn0.contains(j as usize)) by {
                                if inn0.contains(j as usize) {
                                    let w = choose|w: int|
                                        0 <= w < inn0.len() && inn0[w] == (j as usize);
                                    assert(ns0[w] == (j as usize));
                                    assert((ns0 + ns1)[w] == (j as usize));
                                }
                            }
                            assert(!newinner.contains(j as usize)) by {
                                if newinner.contains(j as usize) {
                                    let w = choose|w: int|
                                        0 <= w < newinner.len() && newinner[w] == (j as usize);
                                    assert(ns1[w] == (j as usize));
                                    assert((ns0 + ns1)[ns0.len() + w] == (j as usize));
                                }
                            }
                            assert(s1[j] == s0[j]);
                        }
                    }
                    assert forall|k: int| 0 <= k < ns1.len() implies ns0.contains(
                        #[trigger] ns1[k],
                    ) || uv.content().contains(ns1[k]) || (ns1[k] as int) >= s0.len() by {
                        if k < newinner.len() {
                            assert(ns1[k] == newinner[k]);
                            assert(newinner.contains(newinner[k]));
                            if icontent.contains(ns1[k]) {
                                let w = choose|w: int|
                                    0 <= w < icontent.len() && icontent[w] == ns1[k];
                                assert(uv.content()[w] == ns1[k]);
                            }
                        } else {
                            assert(ns1[k] == sent);
                            assert(ns0[ns0.len() - 1] == sent);
                            assert(ns0.contains(sent));
                        }
                    }
                    assert forall|k: int| 0 <= k < uv.content().len() implies ns1.contains(
                        #[trigger] uv.content()[k],
                    ) by {
                        let c = uv.content()[k];
                        assert(icontent[k] == c);
                        assert(icontent.contains(c));
                        assert(newinner.contains(c));
                        let w = choose|w: int| 0 <= w < newinner.len() && newinner[w] == c;
                        assert(ns1[w] == c);
                    }
                    assert(!<UnionView<A, B> as View>::represents(&st0, uv));
                }
                proof {
                    // the replaced branch's footprint stays destroyed through
                    // the new build
                    let s2 = sg@;
                    let newinner = UnionView::<A, B>::inner_nodes(state);
                    let icontent = match uv {
                        UnionView::First(va) => va.content(),
                        UnionView::Second(vb) => vb.content(),
                    };
                    assert forall|k: int|
                        0 <= k < inn0.len() implies !s2[#[trigger] inn0[k] as int].alive by {
                        let n = inn0[k];
                        assert(owns(s0, p, ns0));
                        assert(ns0[k] == n);
                        assert((n as int) < s0.len());
                        assert(n != p);
                        assert(!s1[n as int].alive) by {
                            match &st0.inner {
                                UnionInner::First(sa) => {
                                    assert(!s1[A::nodes(sa)[k] as int].alive);
                                },
                                UnionInner::Second(sb) => {
                                    assert(!s1[B::nodes(sb)[k] as int].alive);
                                },
                            }
                        }
                        assert(!newinner.contains(n)) by {
                            if newinner.contains(n) {
                                let w = choose|w: int|
                                    0 <= w < newinner.len() && newinner[w] == n;
                                assert(icontent.contains(n) || (n as int) >= s1.len());
                                if icontent.contains(n) {
                                    let w2 = choose|w2: int|
                                        0 <= w2 < icontent.len() && icontent[w2] == n;
                                    assert(uv.content()[w2] == n);
                                    assert(content_node_ok(s0, n));
                                    assert(s0[n as int].parent is None);
                                    assert(s0[n as int].parent == Some(p));
                                }
                                assert((n as int) < s0.len());
                            }
                        }
                        assert(s2[n as int] == s1[n as int]);
                    }
                }
}

/// A discriminated-union state reports the nodes of exactly one
/// alternative: its footprint is the active branch's footprint followed by
/// the union's own sentinel, and never mixes the two alternatives.
pub proof fn lemma_union_exclusive<A: View, B: View>(
    state: &UnionViewState<A::State, B::State>,
    s: Seq<NodeModel>,
)
    requires
        scene_inv(s),
        <UnionView<A, B> as View>::state_inv(state, s),
    ensures
        state.inner is First ==> <UnionView<A, B> as View>::nodes(state) == A::nodes(
            &state.inner->First_0,
        ) + seq![state.anchor.node],
        state.inner is Second ==> <UnionView<A, B> as View>::nodes(state) == B::nodes(
            &state.inner->Second_0,
        ) + seq![state.anchor.node],
        state.inner is First ==> <UnionView<A, B> as View>::collected(state) == seq![
            state.anchor.node,
        ] + A::collected(&state.inner->First_0),
        state.inner is Second ==> <UnionView<A, B> as View>::collected(state) == seq![
            state.anchor.node,
        ] + B::collected(&state.inner->Second_0),
{
}

} // verus!
