use moonstone::anchor::{Anchor, BeforeAnchor, ChildAnchor};
use moonstone::ctx::AppCtx;
use moonstone::leaf::LeafView;
use moonstone::scene::Scene;
use moonstone::union_view::{UnionInner, UnionView};
use moonstone::view::{View, ViewValue};

fn children_of(sg: &Scene, p: usize) -> Vec<usize> {
    let mut out = Vec::new();
    let mut i = 0;
    while i < sg.child_count(p) {
        out.push(sg.child_at(p, i));
        i += 1;
    }
    out
}

#[test]
fn scene_basic_edits() {
    let mut sg = Scene::new();
    let root = sg.new_node();
    let a = sg.new_node();
    let b = sg.new_node();
    sg.add_child(root, a);
    sg.add_child(root, b);
    assert_eq!(children_of(&sg, root), vec![a, b]);
    sg.move_child(b, 0);
    assert_eq!(children_of(&sg, root), vec![b, a]);
    assert_eq!(sg.get_index(a), 1);
    assert_eq!(sg.get_parent(a), Some(root));
    sg.remove_child(root, a);
    assert_eq!(children_of(&sg, root), vec![b]);
    assert_eq!(sg.get_parent(a), None);
    sg.free(a);
    assert!(!sg.is_alive(a));
    assert_eq!(sg.live_count(), 2);
}

#[test]
fn before_anchor_inserts_before_sentinel() {
    let mut sg = Scene::new();
    let root = sg.new_node();
    let sent = sg.new_node();
    sg.add_child(root, sent);
    let mut ba = BeforeAnchor::new(sent);
    let x = sg.new_node();
    let y = sg.new_node();
    ba.add(&mut sg, x);
    ba.add(&mut sg, y);
    // each insertion lands at the end of the run, directly before the sentinel
    assert_eq!(children_of(&sg, root), vec![x, y, sent]);
    // removing a node it never inserted is a silent no-op
    let stranger = sg.new_node();
    ba.remove(&mut sg, stranger);
    assert_eq!(children_of(&sg, root), vec![x, y, sent]);
    ba.remove(&mut sg, x);
    assert_eq!(children_of(&sg, root), vec![y, sent]);
}

#[test]
fn leaf_identity_noop() {
    let mut sg = Scene::new();
    let root = sg.new_node();
    let n = sg.new_node();
    let v = LeafView { node: n };
    let mut ca = ChildAnchor::new(root);
    let mut st = v.build(&mut sg, &mut ca);
    let before = children_of(&sg, root);
    let live = sg.live_count();
    // rebuilding with the identical node issues no scene edit at all
    v.rebuild(&mut sg, &mut st);
    assert_eq!(children_of(&sg, root), before);
    assert_eq!(sg.live_count(), live);
    assert_eq!(st.node, n);
}

#[test]
fn leaf_replaces_on_new_node() {
    let mut sg = Scene::new();
    let root = sg.new_node();
    let n1 = sg.new_node();
    let n2 = sg.new_node();
    let mut ca = ChildAnchor::new(root);
    let mut st = LeafView { node: n1 }.build(&mut sg, &mut ca);
    let sent = st.anchor.node;
    assert_eq!(children_of(&sg, root), vec![n1, sent]);
    LeafView { node: n2 }.rebuild(&mut sg, &mut st);
    // the old node is handed back detached and alive; the new one shows
    assert_eq!(children_of(&sg, root), vec![n2, sent]);
    assert_eq!(sg.get_parent(n1), None);
    assert!(sg.is_alive(n1));
}

#[test]
fn leaf_detaches_attached_replacement() {
    let mut sg = Scene::new();
    let root = sg.new_node();
    let other = sg.new_node();
    let n1 = sg.new_node();
    let n2 = sg.new_node();
    // n2 currently lives under an unrelated parent
    sg.add_child(root, other);
    sg.add_child(other, n2);
    let mut ca = ChildAnchor::new(root);
    let mut st = LeafView { node: n1 }.build(&mut sg, &mut ca);
    let sent = st.anchor.node;
    LeafView { node: n2 }.rebuild(&mut sg, &mut st);
    // the replacement was detached from its prior parent and adopted
    assert_eq!(children_of(&sg, other), Vec::<usize>::new());
    assert_eq!(children_of(&sg, root), vec![other, n2, sent]);
    assert_eq!(sg.get_parent(n1), None);
    assert!(sg.is_alive(n1));
}

#[test]
fn optional_round_trip() {
    let mut sg = Scene::new();
    let root = sg.new_node();
    let inner = sg.new_node();
    let mut ca = ChildAnchor::new(root);
    let absent: Option<LeafView> = None;
    let mut st = absent.build(&mut sg, &mut ca);
    let after_build = children_of(&sg, root);
    let live_after_build = sg.live_count();
    Some(LeafView { node: inner }).rebuild(&mut sg, &mut st);
    assert_eq!(children_of(&sg, root).len(), 3);
    let absent2: Option<LeafView> = None;
    absent2.rebuild(&mut sg, &mut st);
    // back to the state right after the empty build (the sentinel persists)
    assert_eq!(children_of(&sg, root), after_build);
    // the inner leaf and its sentinel were destroyed
    assert_eq!(sg.live_count(), live_after_build - 1);
    assert!(!sg.is_alive(inner));
}

#[test]
fn optional_teardown_completeness() {
    let mut sg = Scene::new();
    let root = sg.new_node();
    let inner = sg.new_node();
    let baseline = sg.live_count();
    let kids0 = children_of(&sg, root);
    let mut ca = ChildAnchor::new(root);
    let mut st = Some(LeafView { node: inner }).build(&mut sg, &mut ca);
    <Option<LeafView> as View>::teardown(&mut st, &mut sg, &mut ca);
    // every footprint node is gone: the child list and the live set return
    // to their pre-build baseline (the inner leaf is destroyed with it)
    assert_eq!(children_of(&sg, root), kids0);
    assert_eq!(sg.live_count(), baseline - 1);
    assert!(!sg.is_alive(inner));
}

#[test]
fn keyed_list_scenario() {
    let mut sg = Scene::new();
    let root = sg.new_node();
    let leaf_a = sg.new_node();
    let leaf_b = sg.new_node();
    let leaf_c = sg.new_node();
    let mut ca = ChildAnchor::new(root);
    let v1: Vec<(u64, LeafView)> = vec![
        (1, LeafView { node: leaf_a }),
        (2, LeafView { node: leaf_b }),
    ];
    let mut st = v1.build(&mut sg, &mut ca);
    let list_sent = st.anchor.node;
    let sent_a = st.inner_state[0].1.anchor.node;
    let sent_b = st.inner_state[1].1.anchor.node;
    // reporting order: the list's own sentinel first, then each entry's
    // group in key order
    let mut collected: Vec<usize> = Vec::new();
    <Vec<(u64, LeafView)> as View>::collect_nodes(&st, &mut collected);
    assert_eq!(collected, vec![list_sent, leaf_a, sent_a, leaf_b, sent_b]);
    // sibling order: the run sits before the list's sentinel
    assert_eq!(
        children_of(&sg, root),
        vec![leaf_a, sent_a, leaf_b, sent_b, list_sent]
    );
    let live_before = sg.live_count();
    // drop "a", keep "b" (moved to the front), append a new "c"
    let v2: Vec<(u64, LeafView)> = vec![
        (2, LeafView { node: leaf_b }),
        (3, LeafView { node: leaf_c }),
    ];
    v2.rebuild(&mut sg, &mut st);
    let sent_b2 = st.inner_state[0].1.anchor.node;
    let sent_c = st.inner_state[1].1.anchor.node;
    // the reused entry kept its sentinel: no teardown+build happened
    assert_eq!(sent_b2, sent_b);
    assert_eq!(st.inner_state[0].0, 2);
    assert_eq!(st.inner_state[1].0, 3);
    assert_eq!(
        children_of(&sg, root),
        vec![leaf_b, sent_b, leaf_c, sent_c, list_sent]
    );
    // entry "a" was torn down: its two nodes were detached and destroyed
    assert!(!sg.is_alive(leaf_a));
    assert!(!sg.is_alive(sent_a));
    // one sentinel was created for "c", two nodes died with "a"
    assert_eq!(sg.live_count(), live_before + 1 - 2);
}

#[test]
fn keyed_list_permutation_keeps_groups() {
    let mut sg = Scene::new();
    let root = sg.new_node();
    let n1 = sg.new_node();
    let n2 = sg.new_node();
    let n3 = sg.new_node();
    let mut ca = ChildAnchor::new(root);
    let v1: Vec<(u64, LeafView)> = vec![
        (10, LeafView { node: n1 }),
        (20, LeafView { node: n2 }),
        (30, LeafView { node: n3 }),
    ];
    let mut st = v1.build(&mut sg, &mut ca);
    let s1 = st.inner_state[0].1.anchor.node;
    let s2 = st.inner_state[1].1.anchor.node;
    let s3 = st.inner_state[2].1.anchor.node;
    let list_sent = st.anchor.node;
    let live = sg.live_count();
    // reverse the keys: every entry is reused, only moved
    let v2: Vec<(u64, LeafView)> = vec![
        (30, LeafView { node: n3 }),
        (20, LeafView { node: n2 }),
        (10, LeafView { node: n1 }),
    ];
    v2.rebuild(&mut sg, &mut st);
    let mut collected: Vec<usize> = Vec::new();
    <Vec<(u64, LeafView)> as View>::collect_nodes(&st, &mut collected);
    // groups come out exactly in the new key order, sentinel first
    assert_eq!(collected, vec![list_sent, n3, s3, n2, s2, n1, s1]);
    assert_eq!(
        children_of(&sg, root),
        vec![n3, s3, n2, s2, n1, s1, list_sent]
    );
    // nothing was destroyed or created: reuse only moves
    assert_eq!(sg.live_count(), live);
}

#[test]
fn keyed_list_identical_value_changes_nothing() {
    let mut sg = Scene::new();
    let root = sg.new_node();
    let n1 = sg.new_node();
    let n2 = sg.new_node();
    let mut ca = ChildAnchor::new(root);
    let v1: Vec<(u64, LeafView)> = vec![
        (7, LeafView { node: n1 }),
        (8, LeafView { node: n2 }),
    ];
    let mut st = v1.build(&mut sg, &mut ca);
    let before = children_of(&sg, root);
    let live = sg.live_count();
    let v2: Vec<(u64, LeafView)> = vec![
        (7, LeafView { node: n1 }),
        (8, LeafView { node: n2 }),
    ];
    v2.rebuild(&mut sg, &mut st);
    assert_eq!(children_of(&sg, root), before);
    assert_eq!(sg.live_count(), live);
}

#[test]
fn union_switches_alternatives() {
    let mut sg = Scene::new();
    let root = sg.new_node();
    let n1 = sg.new_node();
    let n2 = sg.new_node();
    let mut ca = ChildAnchor::new(root);
    let first: UnionView<LeafView, Option<LeafView>> = UnionView::First(LeafView { node: n1 });
    let mut st = first.build(&mut sg, &mut ca);
    let sent = st.anchor.node;
    // the state holds exactly the first alternative
    assert!(matches!(st.inner, UnionInner::First(_)));
    let mut collected: Vec<usize> = Vec::new();
    <UnionView<LeafView, Option<LeafView>> as View>::collect_nodes(&st, &mut collected);
    assert_eq!(collected.len(), 3);
    assert_eq!(collected[0], sent);
    // switching the alternative tears the old branch down completely
    let second: UnionView<LeafView, Option<LeafView>> =
        UnionView::Second(Some(LeafView { node: n2 }));
    second.rebuild(&mut sg, &mut st);
    assert!(matches!(st.inner, UnionInner::Second(_)));
    assert!(!sg.is_alive(n1));
    let mut collected2: Vec<usize> = Vec::new();
    <UnionView<LeafView, Option<LeafView>> as View>::collect_nodes(&st, &mut collected2);
    // nodes of exactly one alternative, never a mix: the old branch is dead
    for n in &collected2 {
        assert!(sg.is_alive(*n));
        assert!(!collected.contains(n) || *n == sent);
    }
    // forwarding into the unchanged alternative leaves the scene alone
    let before = children_of(&sg, root);
    let second_again: UnionView<LeafView, Option<LeafView>> =
        UnionView::Second(Some(LeafView { node: n2 }));
    second_again.rebuild(&mut sg, &mut st);
    assert_eq!(children_of(&sg, root), before);
}

#[test]
fn view_value_commits_one_rebuild() {
    let mut sg = Scene::new();
    let root = sg.new_node();
    let n1 = sg.new_node();
    let n2 = sg.new_node();
    let mut ca = ChildAnchor::new(root);
    let v = LeafView { node: n1 };
    let st = v.build(&mut sg, &mut ca);
    let mut vv = ViewValue::__create(v, st);
    assert_eq!(vv.__value().node, n1);
    // scoped mutation: edit the value, then commit exactly one rebuild
    vv.__value_mut().node = n2;
    vv.__rebuild(&mut sg);
    assert_eq!(vv.state.node, n2);
    let sent = vv.state.anchor.node;
    assert_eq!(children_of(&sg, root), vec![n2, sent]);
}

#[test]
fn app_ctx_queues_in_order() {
    let mut ctx: AppCtx<u32> = AppCtx::new();
    assert_eq!(ctx.msg_count(), 0);
    ctx.msg(4);
    ctx.msg(5);
    assert_eq!(ctx.msg_count(), 2);
    assert_eq!(ctx.next_msg(), Some(4));
    assert_eq!(ctx.next_msg(), Some(5));
    assert_eq!(ctx.next_msg(), None);
}

#[test]
fn nested_list_of_options() {
    let mut sg = Scene::new();
    let root = sg.new_node();
    let n1 = sg.new_node();
    let n2 = sg.new_node();
    let mut ca = ChildAnchor::new(root);
    let v1: Vec<(u64, Option<LeafView>)> = vec![
        (1, Some(LeafView { node: n1 })),
        (2, None),
    ];
    let mut st = v1.build(&mut sg, &mut ca);
    // fill the absent slot on the next pass
    let v2: Vec<(u64, Option<LeafView>)> = vec![
        (1, Some(LeafView { node: n1 })),
        (2, Some(LeafView { node: n2 })),
    ];
    v2.rebuild(&mut sg, &mut st);
    let mut collected: Vec<usize> = Vec::new();
    <Vec<(u64, Option<LeafView>)> as View>::collect_nodes(&st, &mut collected);
    assert!(collected.contains(&n1));
    assert!(collected.contains(&n2));
    assert_eq!(sg.get_parent(n1), Some(root));
    assert_eq!(sg.get_parent(n2), Some(root));
}
