//! The leaf view: a view whose value is a scene node reference.
//! Reconciliation replaces the shown node when the reference changes, and
//! issues no scene edit at all when it is identical.

use crate::anchor::{Anchor, BeforeAnchor};
use crate::scene::{kids, node_inv, par, scene_inv, NodeModel, Scene};
use crate::seqtools::{
    lemma_singleton_contains, lemma_without_compose, lemma_without_props,
    lemma_without_remove_value, without,
};
use crate::view::{
    content_node_ok, entry_similar, lemma_block_placed, lemma_placed_parts, owns, placed,
    releases, run_start, same_but, same_but_release, View,
};
use vstd::prelude::*;
use vstd::view::View as _;

verus! {

/// A view whose value is a node reference.
pub struct LeafView {
    pub node: usize,
}

/// Built state of a leaf: a private anchor around an owned sentinel, plus
/// the node currently shown (sitting directly before that sentinel).
pub struct LeafViewState {
    pub anchor: BeforeAnchor,
    pub node: usize,
}

impl View for LeafView {
    type State = LeafViewState;

    open spec fn content(&self) -> Seq<usize> {
        seq![self.node]
    }

    open spec fn val_inv(&self, s: Seq<NodeModel>) -> bool {
        content_node_ok(s, self.node)
    }

    open spec fn nodes(state: &LeafViewState) -> Seq<usize> {
        seq![state.node, state.anchor.node]
    }

    open spec fn collected(state: &LeafViewState) -> Seq<usize> {
        seq![state.node, state.anchor.node]
    }

    open spec fn top(state: &LeafViewState) -> usize {
        state.anchor.node
    }

    open spec fn state_inv(state: &LeafViewState, s: Seq<NodeModel>) -> bool {
        &&& state.anchor.anchor_inv(s)
        &&& owns(s, par(s, state.anchor.node), seq![state.node, state.anchor.node])
        &&& state.anchor.anchored@ == seq![state.node]
    }

    open spec fn represents(state: &LeafViewState, v: &LeafView) -> bool {
        state.node == v.node
    }

    open spec fn rebuild_pre(&self, state: &LeafViewState, s: Seq<NodeModel>) -> bool {
        ||| self.node == state.node
        ||| {
            &&& (self.node as int) < s.len()
            &&& s[self.node as int].alive
            &&& s[self.node as int].children.len() == 0
            &&& s[self.node as int].parent != Some(par(s, state.anchor.node))
        }
    }

    proof fn lemma_val_inv(&self, s: Seq<NodeModel>) {
        assert(self.content()[0] == self.node);
    }

    proof fn lemma_state_inv(state: &LeafViewState, s: Seq<NodeModel>) {
        assert(Self::nodes(state)[0] == state.node);
        assert(Self::nodes(state)[1] == state.anchor.node);
        assert(Self::collected(state) =~= Self::nodes(state));
    }

    proof fn lemma_state_frame(state: &LeafViewState, s0: Seq<NodeModel>, s1: Seq<NodeModel>) {
        let ns = Self::nodes(state);
        assert(ns[0] == state.node);
        assert(ns[1] == state.anchor.node);
        assert(s1[state.node as int] == s0[state.node as int]);
        assert(s1[state.anchor.node as int] == s0[state.anchor.node as int]);
        let p = par(s0, state.anchor.node);
        assert(par(s1, state.anchor.node) == p);
        assert forall|k: int| 0 <= k < ns.len() implies {
            let n = #[trigger] ns[k];
            &&& (n as int) < s1.len()
            &&& n != p
            &&& s1[n as int].alive
            &&& s1[n as int].parent == Some(p)
            &&& s1[n as int].children.len() == 0
        } by {
            assert(k == 0 || k == 1);
        }
    }

    proof fn lemma_val_frame(&self, s0: Seq<NodeModel>, s1: Seq<NodeModel>) {
        assert(self.content()[0] == self.node);
        assert(entry_similar(s0, s1, self.node));
    }

    proof fn lemma_rebuild_pre_frame(
        &self,
        state: &LeafViewState,
        s0: Seq<NodeModel>,
        s1: Seq<NodeModel>,
    ) {
        if self.node != state.node {
            assert(self.content()[0] == self.node);
            assert(Self::nodes(state)[1] == state.anchor.node);
            assert(s1[state.anchor.node as int] == s0[state.anchor.node as int]);
            assert(entry_similar(s0, s1, self.node));
        }
    }

    proof fn lemma_rebuild_pre_bound(&self, state: &LeafViewState, s: Seq<NodeModel>) {
        assert(self.content()[0] == self.node);
        if self.node == state.node {
            assert(Self::nodes(state)[0] == state.node);
        }
    }

    fn build<AN: Anchor>(&self, sg: &mut Scene, anchor: &mut AN) -> (st: LeafViewState) {
        let ghost s0 = sg@;
        let ghost t = anchor.target(s0);
        let ghost sl = anchor.slot(s0);
        let ghost k0 = kids(s0, t);
        proof {
            anchor.lemma_anchor_inv(s0);
            assert(self.content()[0] == self.node);
        }
        let sent = sg.new_node();
        let ghost s1 = sg@;
        proof {
            assert(s1[t as int] == s0[t as int]);
            assert(s1[anchor.anchor_node() as int] == s0[anchor.anchor_node() as int]);
            anchor.lemma_anchor_frame(s0, s1);
            assert(kids(s1, t) == k0);
        }
        let mut gd_anchor = BeforeAnchor::new(sent);
        anchor.add(sg, sent);
        let ghost s2 = sg@;
        proof {
            assert(sent != t);
            assert(kids(s2, t) == k0.insert(sl, sent));
            assert(s2[sent as int].alive && s2[sent as int].parent == Some(t));
            assert(s2[sent as int].children.len() == 0) by {
                assert(s1[sent as int].children.len() == 0);
            }
            assert(gd_anchor.anchor_inv(s2));
            assert(gd_anchor.target(s2) == t);
            // the fresh sentinel sits exactly at the anchor's old slot
            assert(!k0.contains(sent)) by {
                if k0.contains(sent) {
                    let w = choose|w: int| 0 <= w < k0.len() && k0[w] == sent;
                    assert(node_inv(s0, t as int));
                    assert((k0[w] as int) < s0.len());
                }
            }
            k0.insert_ensures(sl, sent);
            kids(s2, t).index_of_first_ensures(sent);
            assert forall|j: int| 0 <= j < sl implies kids(s2, t)[j] != sent by {
                assert(kids(s2, t)[j] == k0[j]);
                assert(k0.contains(k0[j]));
            }
            assert(kids(s2, t)[sl] == sent);
            assert(kids(s2, t).index_of_first(sent) == Some(sl));
            assert(gd_anchor.slot(s2) == sl);
            // the leaf's content node is untouched and insertable
            assert(self.node != sent);
            assert(s2[self.node as int] == s0[self.node as int]);
            assert(content_node_ok(s2, self.node));
            assert(self.node != t);
        }
        gd_anchor.add(sg, self.node);
        let ghost s3 = sg@;
        let st = LeafViewState { anchor: gd_anchor, node: self.node };
        proof {
            assert(kids(s3, t) == kids(s2, t).insert(sl, self.node));
            assert(kids(s3, t) =~= k0.take(sl) + seq![self.node, sent] + k0.skip(sl)) by {
                k0.insert_ensures(sl, sent);
                kids(s2, t).insert_ensures(sl, self.node);
                assert(k0.take(sl) =~= k0.subrange(0, sl));
            }
            assert(k0.take(sl) + seq![self.node, sent] + k0.skip(sl) =~= k0.take(sl) + Self::nodes(
                &st,
            ) + k0.skip(sl));
            // the footprint is a placed block
            lemma_block_placed(s3, t, seq![self.node, sent], k0.take(sl), k0.skip(sl));
            // footprint entries
            assert(s3[sent as int].alive && s3[sent as int].parent == Some(t) && s3[
                sent as int
            ].children.len() == 0) by {
                assert(self.node != sent);
            }
            assert(s3[self.node as int].alive && s3[self.node as int].parent == Some(t) && s3[
                self.node as int
            ].children.len() == 0);
            let ns3 = seq![self.node, sent];
            assert(owns(s3, t, ns3)) by {
                assert forall|k: int| 0 <= k < ns3.len() implies {
                    let n = #[trigger] ns3[k];
                    &&& (n as int) < s3.len()
                    &&& n != t
                    &&& s3[n as int].alive
                    &&& s3[n as int].parent == Some(t)
                    &&& s3[n as int].children.len() == 0
                } by {
                    assert(k == 0 || k == 1);
                }
            }
            assert(par(s3, sent) == t);
            assert(Self::state_inv(&st, s3));
            // the parent anchor survived the content insertion
            assert(s3[anchor.anchor_node() as int].alive == s2[anchor.anchor_node() as int].alive
                && s3[anchor.anchor_node() as int].parent == s2[anchor.anchor_node() as int].parent)
                by {
                assert(anchor.anchor_node() != self.node) by {
                    if anchor.anchor_node() == self.node {
                        assert(s2[self.node as int].parent is None);
                        anchor.lemma_anchor_inv(s2);
                    }
                }
            }
            anchor.lemma_anchor_frame(s2, s3);
            // frame over the rest of the scene
            assert(same_but(s0, s3, t, Self::nodes(&st))) by {
                assert forall|j: int|
                    0 <= j < s0.len() && j != t as int && !Self::nodes(&st).contains(
                        j as usize,
                    ) implies #[trigger] s3[j] == s0[j] by {
                    assert(Self::nodes(&st)[0] == self.node);
                    assert(j != self.node as int && j != sent as int);
                }
            }
            // origin of the footprint
            assert forall|k: int| 0 <= k < Self::nodes(&st).len() implies self.content().contains(
                #[trigger] Self::nodes(&st)[k],
            ) || (Self::nodes(&st)[k] as int) >= s0.len() by {
                assert(k == 0 || k == 1);
                assert(self.content()[0] == self.node);
            }
            assert(self.content()[0] == self.node && Self::nodes(&st)[0] == self.node);
            assert(Self::nodes(&st).contains(self.node));
            assert(st.anchor.anchored@ =~= seq![self.node]) by {
                assert(!Seq::<usize>::empty().contains(self.node));
            }
        }
        st
    }

    /// Rebuilding with the node already shown issues no scene edit at all:
    /// the leaf identity law.  A replaced node is handed back to the caller
    /// live and detached, never destroyed.
    fn rebuild(&self, sg: &mut Scene, state: &mut Self::State)
        ensures
            self.node == old(state).node ==> {
                &&& final(sg)@ == old(sg)@
                &&& final(state).node == old(state).node
                &&& final(state).anchor.node == old(state).anchor.node
                &&& final(state).anchor.anchored@ == old(state).anchor.anchored@
            },
            self.node != old(state).node ==> {
                &&& final(sg)@[old(state).node as int].alive
                &&& final(sg)@[old(state).node as int].parent is None
            },
    {
        let ghost s0 = sg@;
        let ghost st0 = *state;
        let ghost p = par(s0, st0.anchor.node);
        let ghost ns0 = Self::nodes(&st0);
        let ghost i0 = run_start(s0, p, ns0);
        let ghost k0 = kids(s0, p);
        proof {
            Self::lemma_state_inv(&st0, s0);
            assert(ns0[0] == st0.node && ns0[1] == st0.anchor.node);
            assert(node_inv(s0, st0.anchor.node as int));
            lemma_placed_parts(s0, p, ns0);
        }
        if self.node != state.node {
            let ghost sent = st0.anchor.node;
            let ghost oldn = st0.node;
            proof {
                // the old node sits at the run's start
                assert(k0 == k0.take(i0) + ns0 + k0.skip(i0 + 2));
                assert(node_inv(s0, p as int));
                assert(k0[i0] == oldn && k0[i0 + 1] == sent);
                assert(kids(s0, p).contains(oldn)) by {
                    assert(node_inv(s0, oldn as int));
                }
            }
            proof {
                assert(st0.anchor.anchored@[0] == oldn);
                assert(st0.anchor.tracks(oldn));
                assert(self.node != p) by {
                    if self.node == p {
                        assert(s0[p as int].children.len() == 0);
                        assert(k0.len() == 0);
                        assert(k0.contains(oldn));
                    }
                }
                assert(owns(s0, p, ns0));
                assert(self.node != sent) by {
                    assert(s0[sent as int].parent == Some(p));
                }
            }
            // a still attached replacement is detached first and adopted
            match sg.get_parent(self.node) {
                Some(q) => {
                    proof {
                        assert(s0[self.node as int].parent == Some(q));
                        assert(node_inv(s0, self.node as int));
                        assert(kids(s0, q).contains(self.node));
                        assert(q != p);
                        assert(kids(s0, q).len() != 0);
                        assert(q != sent && q != oldn) by {
                            assert(s0[sent as int].children.len() == 0);
                            assert(s0[oldn as int].children.len() == 0);
                        }
                    }
                    sg.remove_child(q, self.node);
                },
                None => {},
            }
            let ghost sd = sg@;
            proof {
                assert(kids(sd, p) == k0) by {
                    assert(self.node != p);
                }
                assert(sd[oldn as int] == s0[oldn as int]);
                assert(sd[sent as int] == s0[sent as int]);
                assert(sd[p as int].alive == s0[p as int].alive && sd[p as int].parent == s0[
                    p as int
                ].parent);
                assert(sd.len() == s0.len());
                assert(content_node_ok(sd, self.node));
                assert(Self::state_inv(&st0, sd)) by {
                    assert(state.anchor.anchor_inv(sd));
                    assert(par(sd, sent) == p);
                    assert(owns(sd, p, ns0)) by {
                        assert forall|k: int| 0 <= k < ns0.len() implies {
                            let n = #[trigger] ns0[k];
                            &&& (n as int) < sd.len()
                            &&& n != p
                            &&& sd[n as int].alive
                            &&& sd[n as int].parent == Some(p)
                            &&& sd[n as int].children.len() == 0
                        } by {
                            assert(k == 0 || k == 1);
                        }
                    }
                }
                assert(kids(sd, p).contains(oldn)) by {
                    assert(k0.contains(oldn));
                }
            }
            state.anchor.remove(sg, state.node);
            let ghost s1 = sg@;
            proof {
                // children list lost exactly the old node
                k0.index_of_first_ensures(oldn);
                assert forall|j: int| 0 <= j < i0 implies k0[j] != oldn by {
                    if k0[j] == oldn {
                        assert(k0[j] == k0[i0]);
                    }
                }
                assert(k0.index_of_first(oldn) == Some(i0));
                assert(kids(s1, p) == k0.remove(i0));
                assert(kids(s1, p) =~= k0.take(i0) + seq![sent] + k0.skip(i0 + 2)) by {
                    k0.remove_ensures(i0);
                    assert(k0.take(i0) =~= k0.subrange(0, i0));
                }
                // the new node is now free to adopt
                assert(self.node != oldn);
                assert(s1[self.node as int] == sd[self.node as int]);
                assert(content_node_ok(s1, self.node));
                assert(state.anchor.target(s1) == p);
                // the sentinel now fronts the run
                assert(s1[sent as int] == s0[sent as int]) by {
                    assert(sent != oldn && sent != p);
                }
                kids(s1, p).index_of_first_ensures(sent);
                assert forall|j: int| 0 <= j < i0 implies kids(s1, p)[j] != sent by {
                    assert(kids(s1, p)[j] == k0[j]);
                    if k0[j] == sent {
                        assert(k0[j] == k0[i0 + 1]);
                    }
                }
                assert(kids(s1, p)[i0] == sent);
                assert(kids(s1, p).index_of_first(sent) == Some(i0));
                assert(state.anchor.slot(s1) == i0);
            }
            state.anchor.add(sg, self.node);
            let ghost s2 = sg@;
            proof {
                assert(state.anchor.anchored@ =~= seq![self.node]) by {
                    lemma_singleton_contains(oldn);
                    seq![oldn].index_of_first_ensures(oldn);
                    assert(seq![oldn][0] == oldn);
                    assert(seq![oldn].index_of_first(oldn) == Some(0int));
                    assert(seq![oldn].remove_value(oldn) =~= Seq::<usize>::empty());
                    assert(!Seq::<usize>::empty().contains(self.node));
                }
                assert(kids(s2, p) == kids(s1, p).insert(i0, self.node));
                assert(kids(s2, p) =~= k0.take(i0) + seq![self.node, sent] + k0.skip(i0 + 2)) by {
                    kids(s1, p).insert_ensures(i0, self.node);
                }
            }
            state.node = self.node;
            proof {
                let s2 = sg@;
                let ns2 = Self::nodes(state);
                assert(ns2 =~= seq![self.node, sent]);
                assert(kids(s2, p) == k0.take(i0) + ns2 + k0.skip(i0 + 2));
                lemma_block_placed(s2, p, ns2, k0.take(i0), k0.skip(i0 + 2));
                assert(owns(s2, p, ns2)) by {
                    assert forall|k: int| 0 <= k < 2 implies {
                        let n = #[trigger] ns2[k];
                        &&& (n as int) < s2.len()
                        &&& n != p
                        &&& s2[n as int].alive
                        &&& s2[n as int].parent == Some(p)
                        &&& s2[n as int].children.len() == 0
                    } by {
                        assert(k == 0 || k == 1);
                        assert(self.node != p && sent != p);
                    }
                }
                assert(par(s2, sent) == p);
                assert(Self::state_inv(state, s2));
                assert(same_but_release(s0, s2, p, ns0 + ns2, self.content())) by {
                    assert forall|j: int|
                        0 <= j < s0.len() && j != p as int && !(ns0 + ns2).contains(j as usize)
                            && !releases(self.content(), s0, j) implies #[trigger] s2[j]
                        == s0[j] by {
                        assert((ns0 + ns2)[0] == oldn);
                        assert((ns0 + ns2)[2] == self.node);
                        assert((ns0 + ns2)[1] == sent);
                        assert(j != oldn as int && j != self.node as int && j != sent as int);
                        assert(sd[j] == s0[j]) by {
                            if s0[self.node as int].parent is Some {
                                let q = s0[self.node as int].parent->Some_0;
                                if j == q as int {
                                    assert(self.content()[0] == self.node);
                                    assert(releases(self.content(), s0, j));
                                }
                            }
                        }
                    }
                    assert forall|j: usize|
                        (j as int) < s0.len() && j != p && !(ns0 + ns2).contains(
                            j,
                        ) implies #[trigger] entry_similar(s0, s2, j) by {
                        assert((ns0 + ns2)[0] == oldn);
                        assert((ns0 + ns2)[2] == self.node);
                        assert((ns0 + ns2)[1] == sent);
                        assert(j != oldn && j != self.node && j != sent);
                        // a detach can only empty the prior parent's list
                        assert(entry_similar(s0, sd, j)) by {
                            if s0[self.node as int].parent is Some {
                                let q = s0[self.node as int].parent->Some_0;
                                if j == q {
                                    assert(sd[j as int].alive == s0[j as int].alive);
                                    assert(sd[j as int].parent == s0[j as int].parent);
                                    assert(s0[q as int].children.contains(self.node)) by {
                                        assert(node_inv(s0, self.node as int));
                                    }
                                    assert(s0[j as int].children.len() != 0);
                                } else {
                                    assert(sd[j as int] == s0[j as int]);
                                }
                            } else {
                                assert(sd[j as int] == s0[j as int]);
                            }
                        }
                        assert(s2[j as int] == sd[j as int]);
                    }
                }
                assert forall|k: int| 0 <= k < ns2.len() implies ns0.contains(#[trigger] ns2[k])
                    || self.content().contains(ns2[k]) || (ns2[k] as int) >= s0.len() by {
                    assert(k == 0 || k == 1);
                    assert(self.content()[0] == self.node);
                    assert(ns0[1] == sent);
                }
                assert(ns2[0] == self.node);
                assert(Self::nodes(state).contains(self.node));
                assert(self.content()[0] == self.node);
            }
        } else {
            proof {
                assert(Self::nodes(state) == ns0);
                assert(kids(s0, p) == k0.take(i0) + ns0 + k0.skip(i0 + 2));
                assert(Self::nodes(state)[0] == self.node);
                assert(Self::nodes(state).contains(self.node));
                assert(self.content()[0] == self.node);
            }
        }
    }

    fn teardown<AN: Anchor>(state: &mut Self::State, sg: &mut Scene, anchor: &mut AN) {
        let ghost s0 = sg@;
        let ghost st0 = *state;
        let ghost sent = st0.anchor.node;
        let ghost oldn = st0.node;
        let ghost p = par(s0, sent);
        let ghost ns0 = Self::nodes(&st0);
        let ghost k0 = kids(s0, p);
        proof {
            Self::lemma_state_inv(&st0, s0);
            assert(ns0[0] == oldn && ns0[1] == sent);
            assert(node_inv(s0, sent as int));
            assert(node_inv(s0, p as int));
            assert(kids(s0, p).contains(oldn)) by {
                assert(node_inv(s0, oldn as int));
            }
            anchor.lemma_anchor_inv(s0);
        }
        state.anchor.remove(sg, state.node);
        let ghost s1 = sg@;
        proof {
            lemma_singleton_contains(oldn);
            lemma_without_remove_value(k0, oldn, seq![oldn]);
            lemma_without_props(k0, seq![oldn]);
            assert(kids(s1, p) == k0.remove_value(oldn));
            // the caller's anchor survived
            assert(anchor.anchor_node() != oldn && anchor.anchor_node() != sent) by {
                assert(ns0.contains(ns0[0]) && ns0.contains(ns0[1]));
            }
            assert(s1[anchor.anchor_node() as int].alive == s0[anchor.anchor_node() as int].alive
                && s1[anchor.anchor_node() as int].parent == s0[anchor.anchor_node()
                as int].parent);
            anchor.lemma_anchor_frame(s0, s1);
            assert(anchor.target(s1) == p);
            assert(kids(s1, p).contains(sent)) by {
                assert(sent != oldn);
                assert(k0.contains(sent)) by {
                    assert(node_inv(s0, sent as int));
                }
            }
            assert(s1[sent as int] == s0[sent as int]) by {
                assert(sent != oldn && sent != p);
            }
        }
        let sent_node = state.anchor.node;
        anchor.remove(sg, sent_node);
        let ghost s2 = sg@;
        proof {
            let k1 = kids(s1, p);
            assert(node_inv(s1, p as int));
            lemma_singleton_contains(sent);
            lemma_without_remove_value(k1, sent, seq![sent]);
            assert(kids(s2, p) == k1.remove_value(sent));
            assert(forall|m: usize| #[trigger] ns0.contains(m) == (seq![oldn].contains(m) || seq![
                sent,
            ].contains(m))) by {
                assert forall|m: usize| #[trigger] ns0.contains(m) == (seq![oldn].contains(m)
                    || seq![sent].contains(m)) by {
                    assert(ns0[0] == oldn && ns0[1] == sent);
                    assert(seq![oldn][0] == oldn && seq![sent][0] == sent);
                    if ns0.contains(m) {
                        let w = choose|w: int| 0 <= w < ns0.len() && ns0[w] == m;
                        assert(w == 0 || w == 1);
                    }
                    if seq![oldn].contains(m) {
                        assert(m == oldn);
                    }
                    if seq![sent].contains(m) {
                        assert(m == sent);
                    }
                }
            }
            lemma_without_compose(k0, seq![oldn], seq![sent], ns0);
            assert(kids(s2, p) == without(k0, ns0));
            // both nodes are now detached and childless
            assert(s2[sent as int].alive && s2[sent as int].parent is None && s2[
                sent as int
            ].children.len() == 0);
            assert(s2[oldn as int].alive && s2[oldn as int].parent is None && s2[
                oldn as int
            ].children.len() == 0) by {
                assert(oldn != sent && oldn != p);
            }
        }
        sg.free(sent_node);
        let node = state.node;
        sg.free(node);
        proof {
            let s4 = sg@;
            assert(kids(s4, p) == kids(s2, p)) by {
                assert(sent != p && oldn != p);
            }
            assert(!s4[oldn as int].alive && !s4[sent as int].alive);
            assert forall|k: int| 0 <= k < ns0.len() implies !s4[#[trigger] ns0[k] as int].alive by {
                assert(k == 0 || k == 1);
            }
            assert(s4[anchor.anchor_node() as int].alive == s2[anchor.anchor_node() as int].alive
                && s4[anchor.anchor_node() as int].parent == s2[anchor.anchor_node()
                as int].parent);
            anchor.lemma_anchor_frame(s2, s4);
            assert(same_but(s0, s4, p, ns0)) by {
                assert forall|j: int|
                    0 <= j < s0.len() && j != p as int && !ns0.contains(j as usize) implies
                    #[trigger] s4[j] == s0[j] by {
                    assert(j != oldn as int && j != sent as int);
                }
            }
        }
    }

    fn collect_nodes(state: &LeafViewState, out: &mut Vec<usize>) {
        let ghost out0 = out@;
        out.push(state.node);
        out.push(state.anchor.node);
        proof {
            assert(out@ =~= out0 + Self::collected(state));
        }
    }

    fn collect_run(state: &LeafViewState, out: &mut Vec<usize>) {
        let ghost out0 = out@;
        out.push(state.node);
        out.push(state.anchor.node);
        proof {
            assert(out@ =~= out0 + Self::nodes(state));
        }
    }

    fn access<'a>(&'a self) -> (r: &'a Self) {
        self
    }
}

} // verus!
