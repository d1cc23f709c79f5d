use lighter::arena::NodeArena;
use lighter::flags::{DirtyFlags, InteractionState};
use lighter::node::{Error, NodeKind};

#[test]
fn create_links_parent_and_children() {
    let mut arena = NodeArena::new();
    let root = arena.create_node(NodeKind::Div, None).unwrap();
    let a = arena.create_node(NodeKind::Div, Some(root)).unwrap();
    let b = arena.create_node(NodeKind::Text, Some(root)).unwrap();
    assert_eq!(arena.len(), 3);
    assert_eq!(arena.get_parent(a), Ok(Some(root)));
    assert_eq!(arena.get_parent(root), Ok(None));
    assert_eq!(arena.get_children(root).unwrap(), &vec![a, b]);
    assert_eq!(arena.get_data(b).unwrap().kind, NodeKind::Text);
}

#[test]
fn new_nodes_are_dirty_for_layout_and_paint() {
    let mut arena = NodeArena::new();
    assert!(!arena.is_any_dirty(DirtyFlags::all()));
    let root = arena.create_node(NodeKind::Div, None).unwrap();
    assert!(arena.is_any_dirty(DirtyFlags::layout()));
    assert!(arena.is_any_dirty(DirtyFlags::paint()));
    assert_eq!(arena.get_data(root).unwrap().dirty.bits(), 3);
}

#[test]
fn deleted_node_is_not_found() {
    let mut arena = NodeArena::new();
    let root = arena.create_node(NodeKind::Div, None).unwrap();
    let a = arena.create_node(NodeKind::Div, Some(root)).unwrap();
    assert_eq!(arena.delete_node(a), Ok(()));
    assert_eq!(arena.get_children(root).unwrap().len(), 0);
    assert_eq!(arena.delete_node(a), Err(Error::NodeNotFound(a)));
    assert!(matches!(arena.get_data(a), Err(Error::NodeNotFound(_))));
    let mut cleared = Vec::new();
    assert_eq!(arena.mark_dirty(a, DirtyFlags::paint(), &mut cleared), Err(Error::NodeNotFound(a)));
}

#[test]
fn create_under_missing_parent_reports_it() {
    let mut arena = NodeArena::new();
    let gone = arena.create_node(NodeKind::Div, None).unwrap();
    arena.delete_node(gone).unwrap();
    let r = arena.create_node(NodeKind::Div, Some(gone));
    assert_eq!(r, Err(Error::NodeNotFound(gone)));
    assert_eq!(arena.len(), 1);
}

#[test]
fn layout_marking_climbs_to_the_root() {
    let mut arena = NodeArena::new();
    let root = arena.create_node(NodeKind::Div, None).unwrap();
    let mid = arena.create_node(NodeKind::Div, Some(root)).unwrap();
    let leaf = arena.create_node(NodeKind::Text, Some(mid)).unwrap();
    for id in [root, mid, leaf] {
        arena.mark_clean(id, DirtyFlags::all()).unwrap();
    }
    assert!(!arena.is_any_dirty(DirtyFlags::all()));
    let mut cleared = Vec::new();
    arena.mark_dirty(leaf, DirtyFlags::layout(), &mut cleared).unwrap();
    assert_eq!(cleared, vec![leaf, mid, root]);
    assert!(arena.is_any_dirty(DirtyFlags::layout()));
    assert!(!arena.is_any_dirty(DirtyFlags::paint()));
    assert_eq!(arena.get_data(root).unwrap().dirty.bits(), 1);
}

#[test]
fn layout_marking_stops_at_a_node_already_marked() {
    let mut arena = NodeArena::new();
    let root = arena.create_node(NodeKind::Div, None).unwrap();
    let mid = arena.create_node(NodeKind::Div, Some(root)).unwrap();
    let leaf = arena.create_node(NodeKind::Text, Some(mid)).unwrap();
    arena.mark_clean(leaf, DirtyFlags::all()).unwrap();
    let mut cleared = Vec::new();
    arena.mark_dirty(leaf, DirtyFlags::layout(), &mut cleared).unwrap();
    assert_eq!(cleared, vec![leaf]);
}

#[test]
fn paint_marking_does_not_climb() {
    let mut arena = NodeArena::new();
    let root = arena.create_node(NodeKind::Div, None).unwrap();
    let leaf = arena.create_node(NodeKind::Text, Some(root)).unwrap();
    arena.mark_clean(root, DirtyFlags::all()).unwrap();
    arena.mark_clean(leaf, DirtyFlags::all()).unwrap();
    let mut cleared = Vec::new();
    arena.mark_dirty(leaf, DirtyFlags::paint(), &mut cleared).unwrap();
    assert!(cleared.is_empty());
    assert_eq!(arena.get_data(root).unwrap().dirty.bits(), 0);
    assert_eq!(arena.get_data(leaf).unwrap().dirty.bits(), 2);
}

#[test]
fn deleting_a_dirty_node_clears_its_counts() {
    let mut arena = NodeArena::new();
    let root = arena.create_node(NodeKind::Div, None).unwrap();
    let leaf = arena.create_node(NodeKind::Text, Some(root)).unwrap();
    arena.mark_clean(root, DirtyFlags::all()).unwrap();
    assert!(arena.is_any_dirty(DirtyFlags::paint()));
    arena.delete_node(leaf).unwrap();
    assert!(!arena.is_any_dirty(DirtyFlags::all()));
}

#[test]
fn traverse_visits_parents_before_children_in_order() {
    let mut arena = NodeArena::new();
    let root = arena.create_node(NodeKind::Div, None).unwrap();
    let a = arena.create_node(NodeKind::Div, Some(root)).unwrap();
    let b = arena.create_node(NodeKind::Div, Some(root)).unwrap();
    let a1 = arena.create_node(NodeKind::Text, Some(a)).unwrap();
    let a2 = arena.create_node(NodeKind::Text, Some(a)).unwrap();
    let b1 = arena.create_node(NodeKind::Text, Some(b)).unwrap();
    assert_eq!(arena.traverse(root), vec![root, a, a1, a2, b, b1]);
    assert_eq!(arena.traverse(b), vec![b, b1]);
}

#[test]
fn replace_states_returns_the_previous_states() {
    let mut arena = NodeArena::new();
    let root = arena.create_node(NodeKind::Div, None).unwrap();
    let before = arena.replace_states(root, InteractionState::hover()).unwrap();
    assert_eq!(before.bits(), 0);
    assert!(arena.get_data(root).unwrap().interaction_state.is_hovered());
}

#[test]
fn kind_mismatch_names_both_kinds() {
    assert_eq!(NodeKind::Div.expect(NodeKind::Div), Ok(()));
    assert_eq!(
        NodeKind::Text.expect(NodeKind::Div),
        Err(Error::NodeKindMismatch { expected: NodeKind::Div, found: NodeKind::Text })
    );
    assert_eq!(NodeKind::Div.kind_name(), "Div");
    assert_eq!(NodeKind::Text.kind_name(), "Text");
}

#[test]
fn delete_subtree_removes_the_node_and_everything_below() {
    let mut arena = NodeArena::new();
    let root = arena.create_node(NodeKind::Div, None).unwrap();
    let a = arena.create_node(NodeKind::Div, Some(root)).unwrap();
    let b = arena.create_node(NodeKind::Div, Some(root)).unwrap();
    let a1 = arena.create_node(NodeKind::Text, Some(a)).unwrap();
    let a2 = arena.create_node(NodeKind::Div, Some(a)).unwrap();
    let a21 = arena.create_node(NodeKind::Text, Some(a2)).unwrap();
    assert_eq!(arena.delete_subtree(a), Ok(()));
    assert_eq!(arena.len(), 2);
    for gone in [a, a1, a2, a21] {
        assert_eq!(arena.get_data(gone).err(), Some(Error::NodeNotFound(gone)));
    }
    assert_eq!(arena.get_children(root).unwrap(), &vec![b]);
    assert_eq!(arena.delete_subtree(a), Err(Error::NodeNotFound(a)));
    arena.mark_clean(root, DirtyFlags::all()).unwrap();
    arena.mark_clean(b, DirtyFlags::all()).unwrap();
    assert!(!arena.is_any_dirty(DirtyFlags::all()));
    assert_eq!(arena.delete_subtree(root), Ok(()));
    assert_eq!(arena.len(), 0);
}
