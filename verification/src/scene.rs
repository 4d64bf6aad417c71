//! The scene graph model: an arena of nodes forming a mutable ordered tree.
//!
//! Nodes are addressed by index into the arena.  Each node is either live or
//! destroyed; a live node may have a parent and an ordered list of children.
//! The operations mirror what a retained-mode scene tree offers a view layer:
//! appending a child, removing a child, moving a child to a sibling index,
//! querying a node's sibling index or parent, and destroying a node.

use vstd::prelude::*;

verus! {

/// Ghost description of one scene node: whether it is live, its parent, and
/// its ordered children.
pub ghost struct NodeModel {
    pub alive: bool,
    pub parent: Option<usize>,
    pub children: Seq<usize>,
}

struct SceneNode {
    alive: bool,
    parent: Option<usize>,
    children: Vec<usize>,
}

impl SceneNode {
    spec fn model(&self) -> NodeModel {
        NodeModel { alive: self.alive, parent: self.parent, children: self.children@ }
    }
}

/// The scene graph: an arena of nodes.  Destroyed nodes keep their slot (so
/// identifiers are never reused) but are marked dead, detached and childless.
pub struct Scene {
    nodes: Vec<SceneNode>,
}

impl View for Scene {
    type V = Seq<NodeModel>;

    closed spec fn view(&self) -> Seq<NodeModel> {
        self.nodes@.map(|i: int, n: SceneNode| n.model())
    }
}

/// The ordered children of node `p`.
pub open spec fn kids(s: Seq<NodeModel>, p: usize) -> Seq<usize> {
    s[p as int].children
}

/// The parent of node `n`, for a node that has one.
pub open spec fn par(s: Seq<NodeModel>, n: usize) -> usize {
    s[n as int].parent->Some_0
}

/// The sibling index of `c` under its parent `p`: the position of its first
/// (under `scene_inv`, only) occurrence in `p`'s child list.
pub open spec fn pos_of(s: Seq<NodeModel>, p: usize, c: usize) -> int {
    kids(s, p).index_of_first(c)->Some_0
}

/// Well-formedness of one node of the scene:
/// dead nodes are detached and childless; parent and child lists agree;
/// child lists hold no duplicates; no node is its own parent.
pub open spec fn node_inv(s: Seq<NodeModel>, i: int) -> bool {
    let nd = s[i];
    &&& (!nd.alive ==> nd.parent is None && nd.children.len() == 0)
    &&& (nd.parent is Some ==> {
        let p = nd.parent->Some_0;
        &&& nd.alive
        &&& (p as int) < s.len()
        &&& (p as int) != i
        &&& s[p as int].alive
        &&& s[p as int].children.contains(i as usize)
    })
    &&& nd.children.no_duplicates()
    &&& (forall|k: int|
        0 <= k < nd.children.len() ==> {
            let c = #[trigger] nd.children[k];
            &&& (c as int) < s.len()
            &&& s[c as int].alive
            &&& s[c as int].parent == Some(i as usize)
        })
}

/// Well-formedness of the whole scene.
pub open spec fn scene_inv(s: Seq<NodeModel>) -> bool {
    forall|i: int| 0 <= i < s.len() ==> #[trigger] node_inv(s, i)
}

/// `s` with the child list of `p` replaced by `ch`.
pub open spec fn upd_children(s: Seq<NodeModel>, p: usize, ch: Seq<usize>) -> Seq<NodeModel> {
    s.update(
        p as int,
        NodeModel { alive: s[p as int].alive, parent: s[p as int].parent, children: ch },
    )
}

/// `s` with the parent of `c` replaced by `pa`.
pub open spec fn upd_parent(s: Seq<NodeModel>, c: usize, pa: Option<usize>) -> Seq<NodeModel> {
    s.update(
        c as int,
        NodeModel { alive: s[c as int].alive, parent: pa, children: s[c as int].children },
    )
}

/// Effect of appending `c` as the last child of `p`.
pub open spec fn sg_add_child(s: Seq<NodeModel>, p: usize, c: usize) -> Seq<NodeModel> {
    upd_parent(upd_children(s, p, kids(s, p).push(c)), c, Some(p))
}

/// Effect of detaching child `c` from `p`.
pub open spec fn sg_remove_child(s: Seq<NodeModel>, p: usize, c: usize) -> Seq<NodeModel> {
    upd_parent(upd_children(s, p, kids(s, p).remove_value(c)), c, None)
}

/// Effect of moving child `c` to sibling index `to` under its parent.
pub open spec fn sg_move_child(s: Seq<NodeModel>, c: usize, to: usize) -> Seq<NodeModel> {
    let p = par(s, c);
    upd_children(s, p, kids(s, p).remove(pos_of(s, p, c)).insert(to as int, c))
}

/// Effect of inserting `c` at child position `i` of `p` (what an anchor's
/// insertion amounts to: an append followed by a move to `i`).
pub open spec fn sg_insert_child(s: Seq<NodeModel>, p: usize, i: int, c: usize) -> Seq<
    NodeModel,
> {
    upd_parent(upd_children(s, p, kids(s, p).insert(i, c)), c, Some(p))
}

/// Effect of destroying the (detached, childless) node `c`.
pub open spec fn sg_free(s: Seq<NodeModel>, c: usize) -> Seq<NodeModel> {
    s.update(c as int, NodeModel { alive: false, parent: None, children: Seq::empty() })
}

/// Number of live nodes among the first `k` slots.
pub open spec fn live_upto(s: Seq<NodeModel>, k: int) -> int
    decreases k,
{
    if k <= 0 {
        0
    } else {
        live_upto(s, k - 1) + if s[k - 1].alive {
            1int
        } else {
            0int
        }
    }
}

/// Number of live nodes in the scene.
pub open spec fn live_count_of(s: Seq<NodeModel>) -> int {
    live_upto(s, s.len() as int)
}

impl Scene {
    /// An empty scene.
    pub fn new() -> (s: Scene)
        ensures
            s@ == Seq::<NodeModel>::empty(),
            scene_inv(s@),
    {
        let s = Scene { nodes: Vec::new() };
        proof {
            assert(s@ =~= Seq::<NodeModel>::empty());
        }
        s
    }

    /// Allocates a fresh live node, detached and childless.  Identifiers are
    /// handed out in order, so a fresh identifier equals the old arena size.
    pub fn new_node(&mut self) -> (id: usize)
        requires
            scene_inv(old(self)@),
        ensures
            id == old(self)@.len(),
            final(self)@ == old(self)@.push(
                NodeModel { alive: true, parent: None, children: Seq::empty() },
            ),
            scene_inv(final(self)@),
    {
        let id = self.nodes.len();
        self.nodes.push(SceneNode { alive: true, parent: None, children: Vec::new() });
        proof {
            let m = NodeModel { alive: true, parent: None, children: Seq::empty() };
            assert(final(self)@ =~= old(self)@.push(m));
            assert forall|i: int| 0 <= i < final(self)@.len() implies #[trigger] node_inv(
                final(self)@,
                i,
            ) by {
                if i < old(self)@.len() {
                    assert(node_inv(old(self)@, i));
                }
            }
        }
        id
    }

    /// Appends `c` as the last child of `p`.  `c` must be live and detached.
    pub fn add_child(&mut self, p: usize, c: usize)
        requires
            scene_inv(old(self)@),
            (p as int) < old(self)@.len(),
            (c as int) < old(self)@.len(),
            old(self)@[p as int].alive,
            old(self)@[c as int].alive,
            old(self)@[c as int].parent is None,
            c != p,
        ensures
            final(self)@ == sg_add_child(old(self)@, p, c),
            scene_inv(final(self)@),
    {
        let pn = &mut self.nodes[p];
        pn.children.push(c);
        let cn = &mut self.nodes[c];
        cn.parent = Some(p);
        proof {
            let s0 = old(self)@;
            let s1 = sg_add_child(s0, p, c);
            assert(final(self)@ =~= s1);
            assert(!kids(s0, p).contains(c)) by {
                assert(node_inv(s0, p as int));
                if kids(s0, p).contains(c) {
                    let k = choose|k: int| 0 <= k < kids(s0, p).len() && kids(s0, p)[k] == c;
                    assert(s0[c as int].parent == Some(p));
                }
            }
            assert forall|i: int| 0 <= i < s1.len() implies #[trigger] node_inv(s1, i) by {
                assert(node_inv(s0, i));
                assert(node_inv(s0, p as int));
                assert(node_inv(s0, c as int));
                if i == p as int {
                    assert forall|k: int| 0 <= k < s1[i].children.len() implies {
                        let ch = #[trigger] s1[i].children[k];
                        &&& (ch as int) < s1.len()
                        &&& s1[ch as int].alive
                        &&& s1[ch as int].parent == Some(i as usize)
                    } by {
                        if k < kids(s0, p).len() {
                            assert(kids(s0, p).contains(kids(s0, p)[k]));
                        }
                    }
                    assert(s1[i].children.no_duplicates());
                } else if i == c as int {
                    assert(kids(s1, p)[kids(s0, p).len() as int] == c);
                    assert(kids(s1, p).contains(c));
                } else {
                    assert forall|k: int| 0 <= k < s1[i].children.len() implies {
                        let ch = #[trigger] s1[i].children[k];
                        &&& (ch as int) < s1.len()
                        &&& s1[ch as int].alive
                        &&& s1[ch as int].parent == Some(i as usize)
                    } by {
                        assert(s0[i].children.contains(s0[i].children[k]));
                        assert(s0[i].children[k] != c);
                    }
                    if s1[i].parent is Some {
                        let pp = s1[i].parent->Some_0;
                        if pp == p {
                            assert(kids(s1, p).contains(i as usize)) by {
                                assert(kids(s0, p).contains(i as usize));
                                let k = choose|k: int|
                                    0 <= k < kids(s0, p).len() && kids(s0, p)[k] == i as usize;
                                assert(kids(s1, p)[k] == i as usize);
                            }
                        }
                    }
                }
            }
        }
    }

    /// The position of child `c` in `p`'s child list.
    fn find_child(&self, p: usize, c: usize) -> (i: usize)
        requires
            scene_inv(self@),
            (p as int) < self@.len(),
            kids(self@, p).contains(c),
        ensures
            (i as int) < kids(self@, p).len(),
            kids(self@, p)[i as int] == c,
            kids(self@, p).index_of_first(c) == Some(i as int),
            i as int == pos_of(self@, p, c),
    {
        let ghost s0 = self@;
        let n = self.nodes[p].children.len();
        let mut i: usize = 0;
        loop
            invariant
                s0 == self@,
                scene_inv(s0),
                (p as int) < s0.len(),
                kids(s0, p).contains(c),
                n as int == kids(s0, p).len(),
                i <= n,
                forall|j: int| 0 <= j < i ==> kids(s0, p)[j] != c,
            decreases n - i,
        {
            proof {
                if i as int == kids(s0, p).len() {
                    let w = choose|w: int| 0 <= w < kids(s0, p).len() && kids(s0, p)[w] == c;
                    assert(false);
                }
            }
            if self.nodes[p].children[i] == c {
                proof {
                    kids(s0, p).index_of_first_ensures(c);
                }
                return i;
            }
            i = i + 1;
        }
    }

    /// Detaches child `c` from `p`.
    pub fn remove_child(&mut self, p: usize, c: usize)
        requires
            scene_inv(old(self)@),
            (p as int) < old(self)@.len(),
            kids(old(self)@, p).contains(c),
        ensures
            final(self)@ == sg_remove_child(old(self)@, p, c),
            scene_inv(final(self)@),
    {
        proof {
            assert(node_inv(old(self)@, p as int));
            assert(node_inv(old(self)@, c as int));
        }
        let ghost s0 = old(self)@;
        let _arena_len = self.nodes.len();
        let i = self.find_child(p, c);
        let pn = &mut self.nodes[p];
        pn.children.remove(i);
        let cn = &mut self.nodes[c];
        cn.parent = None;
        proof {
            let s1 = sg_remove_child(s0, p, c);
            assert(kids(s0, p).remove_value(c) == kids(s0, p).remove(i as int));
            assert(final(self)@ =~= s1);
            assert(c != p);
            lemma_remove_child_inv(s0, p, c);
        }
    }

    /// Moves child `c` to sibling index `to` under its current parent.
    pub fn move_child(&mut self, c: usize, to: usize)
        requires
            scene_inv(old(self)@),
            (c as int) < old(self)@.len(),
            old(self)@[c as int].parent is Some,
            (to as int) < kids(old(self)@, par(old(self)@, c)).len(),
        ensures
            final(self)@ == sg_move_child(old(self)@, c, to),
            scene_inv(final(self)@),
    {
        let ghost s0 = old(self)@;
        proof {
            assert(node_inv(s0, c as int));
        }
        let p = match self.nodes[c].parent {
            Some(p) => p,
            None => {
                proof {
                    assert(false);
                }
                0
            },
        };
        proof {
            assert(node_inv(s0, p as int));
        }
        let _arena_len = self.nodes.len();
        let i = self.find_child(p, c);
        let pn = &mut self.nodes[p];
        pn.children.remove(i);
        pn.children.insert(to, c);
        proof {
            let s1 = sg_move_child(s0, c, to);
            assert(final(self)@ =~= s1);
            lemma_move_child_inv(s0, c, to);
        }
    }

    /// The sibling index of `c` under its parent.
    pub fn get_index(&self, c: usize) -> (i: usize)
        requires
            scene_inv(self@),
            (c as int) < self@.len(),
            self@[c as int].parent is Some,
        ensures
            i as int == pos_of(self@, par(self@, c), c),
            (i as int) < kids(self@, par(self@, c)).len(),
            kids(self@, par(self@, c))[i as int] == c,
    {
        let ghost s0 = self@;
        proof {
            assert(node_inv(s0, c as int));
        }
        let p = match self.nodes[c].parent {
            Some(p) => p,
            None => {
                proof {
                    assert(false);
                }
                0
            },
        };
        proof {
            assert(node_inv(s0, p as int));
        }
        self.find_child(p, c)
    }

    /// The parent of `c`, or `None` for a detached or destroyed node.
    pub fn get_parent(&self, c: usize) -> (r: Option<usize>)
        requires
            (c as int) < self@.len(),
        ensures
            r == self@[c as int].parent,
    {
        self.nodes[c].parent
    }

    /// Destroys the (detached, childless) node `c`.
    pub fn free(&mut self, c: usize)
        requires
            scene_inv(old(self)@),
            (c as int) < old(self)@.len(),
            old(self)@[c as int].parent is None,
            kids(old(self)@, c).len() == 0,
        ensures
            final(self)@ == sg_free(old(self)@, c),
            scene_inv(final(self)@),
    {
        let cn = &mut self.nodes[c];
        cn.alive = false;
        proof {
            let s0 = old(self)@;
            let s1 = sg_free(s0, c);
            assert(s0[c as int].children =~= Seq::<usize>::empty());
            assert(final(self)@ =~= s1);
            assert forall|i: int| 0 <= i < s1.len() implies #[trigger] node_inv(s1, i) by {
                assert(node_inv(s0, i));
                assert(node_inv(s0, c as int));
                if i != c as int {
                    assert forall|k: int| 0 <= k < s1[i].children.len() implies {
                        let ch = #[trigger] s1[i].children[k];
                        &&& (ch as int) < s1.len()
                        &&& s1[ch as int].alive
                        &&& s1[ch as int].parent == Some(i as usize)
                    } by {
                        assert(s0[i].children.contains(s0[i].children[k]));
                        assert(s0[i].children[k] != c);
                    }
                    if s1[i].parent is Some {
                        assert(s1[i].parent->Some_0 != c);
                    }
                }
            }
        }
    }

    /// Number of arena slots (live or destroyed).
    pub fn node_count(&self) -> (n: usize)
        ensures
            n as int == self@.len(),
    {
        self.nodes.len()
    }

    /// Whether node `n` is live.
    pub fn is_alive(&self, n: usize) -> (r: bool)
        requires
            (n as int) < self@.len(),
        ensures
            r == self@[n as int].alive,
    {
        self.nodes[n].alive
    }

    /// Number of children of `p`.
    pub fn child_count(&self, p: usize) -> (n: usize)
        requires
            (p as int) < self@.len(),
        ensures
            n as int == kids(self@, p).len(),
    {
        self.nodes[p].children.len()
    }

    /// The child of `p` at sibling index `i`.
    pub fn child_at(&self, p: usize, i: usize) -> (c: usize)
        requires
            (p as int) < self@.len(),
            (i as int) < kids(self@, p).len(),
        ensures
            c == kids(self@, p)[i as int],
    {
        self.nodes[p].children[i]
    }

    /// Number of live nodes in the scene.
    pub fn live_count(&self) -> (n: usize)
        ensures
            n as int == live_count_of(self@),
    {
        let len = self.nodes.len();
        let mut n: usize = 0;
        let mut i: usize = 0;
        while i < len
            invariant
                len as int == self@.len(),
                i <= len,
                n as int == live_upto(self@, i as int),
                n <= i,
            decreases len - i,
        {
            if self.nodes[i].alive {
                n = n + 1;
            }
            i = i + 1;
        }
        n
    }
}

proof fn lemma_live_upto_bound(s: Seq<NodeModel>, k: int)
    requires
        0 <= k,
    ensures
        0 <= live_upto(s, k) <= k,
    decreases k,
{
    if k > 0 {
        lemma_live_upto_bound(s, k - 1);
    }
}

proof fn lemma_remove_child_inv(s0: Seq<NodeModel>, p: usize, c: usize)
    requires
        scene_inv(s0),
        s0.len() <= usize::MAX,
        (p as int) < s0.len(),
        kids(s0, p).contains(c),
    ensures
        scene_inv(sg_remove_child(s0, p, c)),
{
    let s1 = sg_remove_child(s0, p, c);
    assert(node_inv(s0, p as int));
    assert(node_inv(s0, c as int));
    assert(s0[c as int].parent == Some(p)) by {
        let w = choose|w: int| 0 <= w < kids(s0, p).len() && kids(s0, p)[w] == c;
        assert(kids(s0, p)[w] == c);
    }
    kids(s0, p).index_of_first_ensures(c);
    let pos = kids(s0, p).index_of_first(c)->Some_0;
    kids(s0, p).remove_ensures(pos);
    assert(c != p);
    assert(kids(s1, p) == kids(s0, p).remove(pos));
    assert(!kids(s1, p).contains(c)) by {
        if kids(s1, p).contains(c) {
            let w = choose|w: int| 0 <= w < kids(s1, p).len() && kids(s1, p)[w] == c;
            if w < pos {
                assert(kids(s0, p)[w] == c);
                assert(kids(s0, p)[pos] == c);
            } else {
                assert(kids(s0, p)[w + 1] == c);
                assert(kids(s0, p)[pos] == c);
            }
        }
    }
    assert forall|i: int| 0 <= i < s1.len() implies #[trigger] node_inv(s1, i) by {
        assert(node_inv(s0, i));
        if i == p as int {
            assert(kids(s1, p).no_duplicates()) by {
                assert forall|x: int, y: int|
                    0 <= x < y < kids(s1, p).len() implies kids(s1, p)[x] != kids(s1, p)[y] by {
                    let x0 = if x < pos {
                        x
                    } else {
                        x + 1
                    };
                    let y0 = if y < pos {
                        y
                    } else {
                        y + 1
                    };
                    assert(kids(s0, p)[x0] == kids(s1, p)[x]);
                    assert(kids(s0, p)[y0] == kids(s1, p)[y]);
                }
            }
            assert forall|k: int| 0 <= k < s1[i].children.len() implies {
                let ch = #[trigger] s1[i].children[k];
                &&& (ch as int) < s1.len()
                &&& s1[ch as int].alive
                &&& s1[ch as int].parent == Some(i as usize)
            } by {
                let k0 = if k < pos {
                    k
                } else {
                    k + 1
                };
                assert(kids(s1, p)[k] == kids(s0, p)[k0]);
                assert(kids(s0, p).contains(kids(s0, p)[k0]));
                assert(kids(s0, p)[k0] != c);
            }
        } else if i == c as int {
            assert(s1[i].parent is None);
            assert forall|k: int| 0 <= k < s1[i].children.len() implies {
                let ch = #[trigger] s1[i].children[k];
                &&& (ch as int) < s1.len()
                &&& s1[ch as int].alive
                &&& s1[ch as int].parent == Some(i as usize)
            } by {
                let ch = s1[i].children[k];
                assert(s0[i].children[k] == ch);
                assert(s0[ch as int].alive && s0[ch as int].parent == Some(c));
                assert(ch != c) by {
                    if ch == c {
                        assert(s0[c as int].parent == Some(c));
                    }
                }
                assert(s1[ch as int].alive && s1[ch as int].parent == Some(c));
            }
        } else {
            assert forall|k: int| 0 <= k < s1[i].children.len() implies {
                let ch = #[trigger] s1[i].children[k];
                &&& (ch as int) < s1.len()
                &&& s1[ch as int].alive
                &&& s1[ch as int].parent == Some(i as usize)
            } by {
                let ch = s1[i].children[k];
                assert(s0[i].children[k] == ch);
                assert(s0[ch as int].alive && s0[ch as int].parent == Some(i as usize));
                assert(ch != c) by {
                    if ch == c {
                        assert(s0[c as int].parent == Some(i as usize));
                        assert(i as usize == p);
                    }
                }
            }
            if s1[i].parent is Some {
                let pp = s1[i].parent->Some_0;
                if pp == p {
                    assert(kids(s0, p).contains(i as usize));
                    let w = choose|w: int|
                        0 <= w < kids(s0, p).len() && kids(s0, p)[w] == i as usize;
                    assert(i as usize != c);
                    assert(w != pos);
                    if w < pos {
                        assert(kids(s1, p)[w] == i as usize);
                    } else {
                        assert(kids(s1, p)[w - 1] == i as usize);
                    }
                    assert(kids(s1, p).contains(i as usize));
                }
            }
        }
    }
}

proof fn lemma_move_child_inv(s0: Seq<NodeModel>, c: usize, to: usize)
    requires
        scene_inv(s0),
        s0.len() <= usize::MAX,
        (c as int) < s0.len(),
        s0[c as int].parent is Some,
        (to as int) < kids(s0, par(s0, c)).len(),
    ensures
        scene_inv(sg_move_child(s0, c, to)),
{
    let p = par(s0, c);
    let s1 = sg_move_child(s0, c, to);
    assert(node_inv(s0, c as int));
    assert(node_inv(s0, p as int));
    kids(s0, p).index_of_first_ensures(c);
    let pos = kids(s0, p).index_of_first(c)->Some_0;
    let mid = kids(s0, p).remove(pos);
    kids(s0, p).remove_ensures(pos);
    mid.insert_ensures(to as int, c);
    assert(kids(s1, p) == mid.insert(to as int, c));
    assert(!mid.contains(c)) by {
        if mid.contains(c) {
            let w = choose|w: int| 0 <= w < mid.len() && mid[w] == c;
            if w < pos {
                assert(kids(s0, p)[w] == c);
                assert(kids(s0, p)[pos] == c);
            } else {
                assert(kids(s0, p)[w + 1] == c);
                assert(kids(s0, p)[pos] == c);
            }
        }
    }
    assert(forall|x: usize| mid.contains(x) ==> kids(s0, p).contains(x)) by {
        assert forall|x: usize| mid.contains(x) implies kids(s0, p).contains(x) by {
            let w = choose|w: int| 0 <= w < mid.len() && mid[w] == x;
            if w < pos {
                assert(kids(s0, p)[w] == x);
            } else {
                assert(kids(s0, p)[w + 1] == x);
            }
        }
    }
    assert forall|x: usize| kids(s1, p).contains(x) implies kids(s0, p).contains(x) by {
        let w = choose|w: int| 0 <= w < kids(s1, p).len() && kids(s1, p)[w] == x;
        if w == to as int {
            assert(x == c);
        } else {
            assert(mid.contains(x));
        }
    }
    assert forall|x: usize| kids(s0, p).contains(x) implies kids(s1, p).contains(x) by {
        if x == c {
            assert(kids(s1, p)[to as int] == c);
        } else {
            let w = choose|w: int| 0 <= w < kids(s0, p).len() && kids(s0, p)[w] == x;
            assert(w != pos);
            if w < pos {
                assert(mid[w] == x);
            } else {
                assert(mid[w - 1] == x);
            }
            let w2 = choose|w2: int| 0 <= w2 < mid.len() && mid[w2] == x;
            if w2 < to as int {
                assert(kids(s1, p)[w2] == x);
            } else {
                assert(kids(s1, p)[w2 + 1] == x);
            }
        }
    }
    assert(kids(s1, p).no_duplicates()) by {
        assert(mid.no_duplicates()) by {
            assert forall|x: int, y: int| 0 <= x < y < mid.len() implies mid[x] != mid[y] by {
                let x0 = if x < pos {
                    x
                } else {
                    x + 1
                };
                let y0 = if y < pos {
                    y
                } else {
                    y + 1
                };
                assert(kids(s0, p)[x0] == mid[x]);
                assert(kids(s0, p)[y0] == mid[y]);
            }
        }
        assert forall|x: int, y: int|
            0 <= x < y < kids(s1, p).len() implies kids(s1, p)[x] != kids(s1, p)[y] by {
            let xv = kids(s1, p)[x];
            let yv = kids(s1, p)[y];
            if x == to as int {
                assert(xv == c);
                assert(mid[y - 1] == yv);
                assert(mid.contains(yv));
            } else if y == to as int {
                assert(yv == c);
                let x0 = if x < to as int {
                    x
                } else {
                    x - 1
                };
                assert(mid[x0] == xv);
                assert(mid.contains(xv));
            } else {
                let x0 = if x < to as int {
                    x
                } else {
                    x - 1
                };
                let y0 = if y < to as int {
                    y
                } else {
                    y - 1
                };
                assert(mid[x0] == xv);
                assert(mid[y0] == yv);
            }
        }
    }
    assert forall|i: int| 0 <= i < s1.len() implies #[trigger] node_inv(s1, i) by {
        assert(node_inv(s0, i));
        if i == p as int {
            assert forall|k: int| 0 <= k < s1[i].children.len() implies {
                let ch = #[trigger] s1[i].children[k];
                &&& (ch as int) < s1.len()
                &&& s1[ch as int].alive
                &&& s1[ch as int].parent == Some(i as usize)
            } by {
                assert(kids(s1, p).contains(kids(s1, p)[k]));
                assert(kids(s0, p).contains(kids(s1, p)[k]));
            }
        } else {
            if s1[i].parent is Some && s1[i].parent->Some_0 == p {
                assert(kids(s0, p).contains(i as usize));
                assert(kids(s1, p).contains(i as usize));
            }
        }
    }
}

} // verus!
