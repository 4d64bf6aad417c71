//! Anchors: stable insertion points inside an ordered sibling list.
//!
//! A `ChildAnchor` appends under a fixed parent node.  A `BeforeAnchor` owns a
//! sentinel node and inserts new content immediately before that sentinel,
//! tracking what it inserted so that removal only ever detaches its own
//! content.  All nodes inserted through one `BeforeAnchor` end up in a
//! contiguous run of siblings directly preceding the sentinel.

use crate::scene::{
    kids, node_inv, par, pos_of, scene_inv, sg_insert_child, sg_remove_child, NodeModel, Scene,
};
use vstd::prelude::*;

verus! {

/// An insertion point in the scene: a designated spot in an ordered sibling
/// list, which can receive new nodes (`add`) and detach nodes it manages
/// (`remove`).
pub trait Anchor: Sized {
    /// The node this anchor was built around.
    spec fn anchor_node(&self) -> usize;

    /// Well-formedness of the anchor against scene `s`.
    spec fn anchor_inv(&self, s: Seq<NodeModel>) -> bool;

    /// The node whose child list receives insertions.
    spec fn target(&self, s: Seq<NodeModel>) -> usize;

    /// The child position of `target` at which the next insertion lands.
    spec fn slot(&self, s: Seq<NodeModel>) -> int;

    /// Whether `remove` would detach `n` (rather than ignore it).
    spec fn tracks(&self, n: usize) -> bool;

    /// Whether `remove` also forgets what it detached (an anchor with a
    /// tracked set does; one that removes any child does not).
    spec fn forgets(&self) -> bool;

    proof fn lemma_anchor_inv(&self, s: Seq<NodeModel>)
        requires
            scene_inv(s),
            self.anchor_inv(s),
        ensures
            (self.target(s) as int) < s.len(),
            s[self.target(s) as int].alive,
            0 <= self.slot(s) <= kids(s, self.target(s)).len(),
            (self.anchor_node() as int) < s.len(),
            s[self.anchor_node() as int].alive,
            self.anchor_node() == self.target(s) || s[self.anchor_node() as int].parent is Some,
    ;

    /// The anchor's well-formedness, target and slot depend only on its own
    /// node's liveness and parent, and (for the slot) the target's children.
    proof fn lemma_anchor_frame(&self, s0: Seq<NodeModel>, s1: Seq<NodeModel>)
        requires
            scene_inv(s0),
            scene_inv(s1),
            self.anchor_inv(s0),
            s0.len() <= s1.len(),
            s1[self.anchor_node() as int].alive == s0[self.anchor_node() as int].alive,
            s1[self.anchor_node() as int].parent == s0[self.anchor_node() as int].parent,
        ensures
            self.anchor_inv(s1),
            self.target(s1) == self.target(s0),
            kids(s1, self.target(s0)) == kids(s0, self.target(s0)) ==> self.slot(s1)
                == self.slot(s0),
    ;

    /// Makes an anchor around `node`.
    fn new(node: usize) -> (a: Self)
        ensures
            a.anchor_node() == node,
    ;

    /// Inserts the live, detached node `n` at this anchor's slot.
    fn add(&mut self, sg: &mut Scene, n: usize)
        requires
            scene_inv(old(sg)@),
            old(self).anchor_inv(old(sg)@),
            (n as int) < old(sg)@.len(),
            old(sg)@[n as int].alive,
            old(sg)@[n as int].parent is None,
            n != old(self).target(old(sg)@),
        ensures
            scene_inv(final(sg)@),
            final(self).anchor_inv(final(sg)@),
            final(self).anchor_node() == old(self).anchor_node(),
            final(sg)@ == sg_insert_child(
                old(sg)@,
                old(self).target(old(sg)@),
                old(self).slot(old(sg)@),
                n,
            ),
            forall|m: usize| final(self).tracks(m) == (old(self).tracks(m) || m == n),
            final(self).forgets() == old(self).forgets(),
            final(self).target(final(sg)@) == old(self).target(old(sg)@),
            final(self).slot(final(sg)@) == old(self).slot(old(sg)@) + 1,
    ;

    /// Detaches `n` if this anchor manages it; otherwise changes nothing.
    fn remove(&mut self, sg: &mut Scene, n: usize)
        requires
            scene_inv(old(sg)@),
            old(self).anchor_inv(old(sg)@),
            old(self).tracks(n) ==> kids(old(sg)@, old(self).target(old(sg)@)).contains(n),
        ensures
            scene_inv(final(sg)@),
            final(self).anchor_inv(final(sg)@),
            final(self).anchor_node() == old(self).anchor_node(),
            old(self).tracks(n) ==> final(sg)@ == sg_remove_child(
                old(sg)@,
                old(self).target(old(sg)@),
                n,
            ),
            !old(self).tracks(n) ==> final(sg)@ == old(sg)@ && *final(self) == *old(self),
            forall|m: usize| m != n ==> final(self).tracks(m) == old(self).tracks(m),
            old(self).forgets() ==> !final(self).tracks(n),
            final(self).forgets() == old(self).forgets(),
            final(self).target(final(sg)@) == old(self).target(old(sg)@),
    ;

    /// The anchor's node.
    fn node(&self) -> (n: usize)
        ensures
            n == self.anchor_node(),
    ;
}

/// Appends new content as the last child of a fixed parent node.
pub struct ChildAnchor {
    pub node: usize,
}

/// Inserts new content immediately before an owned sentinel node, and tracks
/// the nodes it inserted.
pub struct BeforeAnchor {
    pub node: usize,
    pub anchored: Vec<usize>,
}

/// Whether `v` holds `n`.
fn seq_holds(v: &Vec<usize>, n: usize) -> (r: bool)
    ensures
        r == v@.contains(n),
{
    let len = v.len();
    let mut i: usize = 0;
    while i < len
        invariant
            len == v@.len(),
            i <= len,
            forall|j: int| 0 <= j < i ==> v@[j] != n,
        decreases len - i,
    {
        if v[i] == n {
            return true;
        }
        i = i + 1;
    }
    false
}

/// Removes every occurrence of `n` from `v` (at most one, when `v` holds no
/// duplicates).
fn seq_take_out(v: &mut Vec<usize>, n: usize)
    requires
        old(v)@.no_duplicates(),
    ensures
        final(v)@ == old(v)@.remove_value(n),
        final(v)@.no_duplicates(),
        !final(v)@.contains(n),
        forall|m: usize| m != n ==> final(v)@.contains(m) == old(v)@.contains(m),
{
    let ghost v0 = v@;
    let len = v.len();
    let mut i: usize = 0;
    while i < len
        invariant
            v@ == v0,
            v0 == old(v)@,
            len == v0.len(),
            i <= len,
            v0.no_duplicates(),
            forall|j: int| 0 <= j < i ==> v0[j] != n,
        decreases len - i,
    {
        if v[i] == n {
            v.remove(i);
            proof {
                v0.index_of_first_ensures(n);
                assert(v0.index_of_first(n) == Some(i as int));
                assert(final(v)@ == v0.remove(i as int));
                lemma_remove_unique(v0, n, i as int);
            }
            return ;
        }
        i = i + 1;
    }
    proof {
        assert(!v0.contains(n)) by {
            if v0.contains(n) {
                let w = choose|w: int| 0 <= w < v0.len() && v0[w] == n;
                assert(false);
            }
        }
        v0.index_of_first_ensures(n);
    }
}

proof fn lemma_remove_unique(v: Seq<usize>, n: usize, i: int)
    requires
        v.no_duplicates(),
        0 <= i < v.len(),
        v[i] == n,
    ensures
        v.remove(i).no_duplicates(),
        !v.remove(i).contains(n),
        forall|m: usize| m != n ==> v.remove(i).contains(m) == v.contains(m),
{
    let r = v.remove(i);
    v.remove_ensures(i);
    assert forall|x: int, y: int| 0 <= x < y < r.len() implies r[x] != r[y] by {
        let x0 = if x < i {
            x
        } else {
            x + 1
        };
        let y0 = if y < i {
            y
        } else {
            y + 1
        };
        assert(v[x0] == r[x] && v[y0] == r[y]);
    }
    assert forall|m: usize| r.contains(m) implies m == n || v.contains(m) by {
        let w = choose|w: int| 0 <= w < r.len() && r[w] == m;
        let w0 = if w < i {
            w
        } else {
            w + 1
        };
        assert(v[w0] == m);
    }
    assert(!r.contains(n)) by {
        if r.contains(n) {
            let w = choose|w: int| 0 <= w < r.len() && r[w] == n;
            let w0 = if w < i {
                w
            } else {
                w + 1
            };
            assert(v[w0] == n && v[i] == n && w0 != i);
        }
    }
    assert forall|m: usize| m != n && v.contains(m) implies r.contains(m) by {
        let w = choose|w: int| 0 <= w < v.len() && v[w] == m;
        if w < i {
            assert(r[w] == m);
        } else {
            assert(w != i);
            assert(r[w - 1] == m);
        }
    }
}

impl Anchor for ChildAnchor {
    open spec fn anchor_node(&self) -> usize {
        self.node
    }

    open spec fn anchor_inv(&self, s: Seq<NodeModel>) -> bool {
        &&& (self.node as int) < s.len()
        &&& s[self.node as int].alive
    }

    open spec fn target(&self, s: Seq<NodeModel>) -> usize {
        self.node
    }

    open spec fn slot(&self, s: Seq<NodeModel>) -> int {
        kids(s, self.node).len() as int
    }

    open spec fn tracks(&self, n: usize) -> bool {
        true
    }

    open spec fn forgets(&self) -> bool {
        false
    }

    proof fn lemma_anchor_inv(&self, s: Seq<NodeModel>) {
    }

    proof fn lemma_anchor_frame(&self, s0: Seq<NodeModel>, s1: Seq<NodeModel>) {
    }

    fn new(node: usize) -> (a: Self) {
        ChildAnchor { node }
    }

    fn add(&mut self, sg: &mut Scene, n: usize) {
        let ghost s0 = sg@;
        sg.add_child(self.node, n);
        proof {
            assert(kids(s0, self.node).push(n) =~= kids(s0, self.node).insert(
                kids(s0, self.node).len() as int,
                n,
            ));
            assert(final(sg)@ =~= sg_insert_child(s0, self.node, kids(s0, self.node).len() as int, n));
            assert(kids(final(sg)@, self.node).len() == kids(s0, self.node).len() + 1);
        }
    }

    fn remove(&mut self, sg: &mut Scene, n: usize) {
        sg.remove_child(self.node, n);
        proof {
            assert(node_inv(old(sg)@, self.node as int));
        }
    }

    fn node(&self) -> (n: usize) {
        self.node
    }
}

impl Anchor for BeforeAnchor {
    open spec fn anchor_node(&self) -> usize {
        self.node
    }

    open spec fn anchor_inv(&self, s: Seq<NodeModel>) -> bool {
        &&& (self.node as int) < s.len()
        &&& s[self.node as int].alive
        &&& s[self.node as int].parent is Some
        &&& self.anchored@.no_duplicates()
        &&& !self.anchored@.contains(self.node)
    }

    open spec fn target(&self, s: Seq<NodeModel>) -> usize {
        par(s, self.node)
    }

    open spec fn slot(&self, s: Seq<NodeModel>) -> int {
        pos_of(s, par(s, self.node), self.node)
    }

    open spec fn tracks(&self, n: usize) -> bool {
        self.anchored@.contains(n)
    }

    open spec fn forgets(&self) -> bool {
        true
    }

    proof fn lemma_anchor_inv(&self, s: Seq<NodeModel>) {
        assert(node_inv(s, self.node as int));
        let p = par(s, self.node);
        assert(node_inv(s, p as int));
        kids(s, p).index_of_first_ensures(self.node);
    }

    proof fn lemma_anchor_frame(&self, s0: Seq<NodeModel>, s1: Seq<NodeModel>) {
    }

    fn new(node: usize) -> (a: Self)
        ensures
            a.node == node,
            a.anchored@ == Seq::<usize>::empty(),
    {
        let a = BeforeAnchor { node, anchored: Vec::new() };
        proof {
            assert(a.anchored@ =~= Seq::<usize>::empty());
        }
        a
    }

    fn add(&mut self, sg: &mut Scene, n: usize)
        ensures
            final(self).anchored@ == if old(self).anchored@.contains(n) {
                old(self).anchored@
            } else {
                old(self).anchored@.push(n)
            },
    {
        let ghost s0 = sg@;
        proof {
            assert(node_inv(s0, self.node as int));
            self.lemma_anchor_inv(s0);
        }
        let idx = sg.get_index(self.node);
        let parent = match sg.get_parent(self.node) {
            Some(p) => p,
            None => {
                proof {
                    assert(false);
                }
                0
            },
        };
        let ghost p = parent;
        let ghost k0 = kids(s0, p);
        proof {
            assert(!k0.contains(n)) by {
                if k0.contains(n) {
                    let w = choose|w: int| 0 <= w < k0.len() && k0[w] == n;
                    assert(node_inv(s0, p as int));
                    assert(s0[n as int].parent == Some(p));
                }
            }
            assert(n != self.node);
        }
        sg.add_child(parent, n);
        let ghost s1 = sg@;
        proof {
            assert(s1[n as int].parent == Some(p));
            assert(par(s1, n) == p);
            assert(kids(s1, p) == k0.push(n));
            assert(kids(s1, p)[k0.len() as int] == n);
            assert(kids(s1, p).contains(n));
            kids(s1, p).index_of_first_ensures(n);
            assert forall|j: int| 0 <= j < k0.len() implies kids(s1, p)[j] != n by {
                assert(kids(s1, p)[j] == k0[j]);
                assert(k0.contains(k0[j]) == true || !k0.contains(n));
                if k0[j] == n {
                    assert(k0.contains(n));
                }
            }
            assert(kids(s1, p).index_of_first(n) == Some(k0.len() as int));
        }
        sg.move_child(n, idx);
        proof {
            let s2 = sg@;
            assert(kids(s2, p) == kids(s1, p).remove(k0.len() as int).insert(idx as int, n));
            assert(kids(s1, p).remove(k0.len() as int) =~= k0);
            assert(kids(s2, p) == k0.insert(idx as int, n));
            assert(s2 =~= sg_insert_child(s0, p, idx as int, n));
            // the sentinel's slot moved one to the right
            let k2 = kids(s2, p);
            k0.insert_ensures(idx as int, n);
            assert(k2[idx + 1] == self.node);
            assert(k2.contains(self.node));
            k2.index_of_first_ensures(self.node);
            assert forall|j: int| 0 <= j <= idx implies k2[j] != self.node by {
                if j < idx {
                    assert(k2[j] == k0[j]);
                    k0.index_of_first_ensures(self.node);
                } else {
                    assert(k2[idx as int] == n);
                }
            }
            assert(k2.index_of_first(self.node) == Some(idx + 1));
        }
        if !seq_holds(&self.anchored, n) {
            self.anchored.push(n);
            proof {
                assert forall|m: usize| final(self).tracks(m) == (old(self).tracks(m) || m
                    == n) by {
                    if final(self).tracks(m) {
                        let w = choose|w: int|
                            0 <= w < final(self).anchored@.len() && final(self).anchored@[w] == m;
                        if w < old(self).anchored@.len() {
                            assert(old(self).anchored@[w] == m);
                        }
                    }
                    if old(self).tracks(m) {
                        let w = choose|w: int|
                            0 <= w < old(self).anchored@.len() && old(self).anchored@[w] == m;
                        assert(final(self).anchored@[w] == m);
                    }
                    if m == n {
                        assert(final(self).anchored@[old(self).anchored@.len() as int] == n);
                    }
                }
            }
        }
    }

    fn remove(&mut self, sg: &mut Scene, n: usize)
        ensures
            !final(self).tracks(n),
            final(self).anchored@ == old(self).anchored@.remove_value(n),
    {
        let ghost s0 = sg@;
        proof {
            self.lemma_anchor_inv(s0);
            assert(node_inv(s0, self.node as int));
            if self.anchored@.contains(n) {
                let w = choose|w: int|
                    0 <= w < kids(s0, self.target(s0)).len() && kids(s0, self.target(s0))[w] == n;
                assert(kids(s0, self.target(s0))[w] == n);
                assert(node_inv(s0, self.target(s0) as int));
                assert((n as int) < s0.len());
            }
        }
        if seq_holds(&self.anchored, n) {
            seq_take_out(&mut self.anchored, n);
            let parent = match sg.get_parent(self.node) {
                Some(p) => p,
                None => {
                    proof {
                        assert(false);
                    }
                    0
                },
            };
            sg.remove_child(parent, n);
            proof {
                assert(n != self.node);
                assert(parent as int != self.node as int);
                assert(n as int != self.node as int);
                assert(sg@ == sg_remove_child(s0, parent, n));
                assert(sg@[self.node as int] == s0[self.node as int]);
            }
        } else {
            proof {
                old(self).anchored@.index_of_first_ensures(n);
            }
        }
    }

    fn node(&self) -> (n: usize) {
        self.node
    }
}

} // verus!
