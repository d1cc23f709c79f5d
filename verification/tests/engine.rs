use lighter::arena::NodeArena;
use lighter::engine::{Engine, HoverChange};
use lighter::flags::{DirtyFlags, InteractionState};
use lighter::geometry::Size;
use lighter::node::{Error, NodeId, NodeKind};

fn clean_tree() -> (Engine, NodeId, NodeId, NodeId) {
    let mut arena = NodeArena::new();
    let root = arena.create_node(NodeKind::Div, None).unwrap();
    let a = arena.create_node(NodeKind::Div, Some(root)).unwrap();
    let b = arena.create_node(NodeKind::Text, Some(a)).unwrap();
    for id in [root, a, b] {
        arena.mark_clean(id, DirtyFlags::all()).unwrap();
    }
    let engine = Engine::new(arena, root, Size::wh(400, 300));
    assert_eq!(engine.paint_order(), vec![root, a, b]);
    (engine, root, a, b)
}

fn states(engine: &Engine, id: NodeId) -> InteractionState {
    engine.arena().get_data(id).unwrap().interaction_state
}

#[test]
fn hover_enter_and_leave_leaves() {
    let (mut engine, root, a, b) = clean_tree();
    assert!(!engine.frame_flags().1);
    let change = engine.pointer_move(vec![root, a, b]).unwrap();
    assert_eq!(change, HoverChange { leave: None, enter: Some(b) });
    assert!(states(&engine, root).is_hovered());
    assert!(states(&engine, b).is_hovered());
    assert!(engine.frame_flags().1);
    assert!(engine.needs_frame(false, false));
    assert_eq!(engine.hover_path(), &vec![root, a, b]);

    let same = engine.pointer_move(vec![root, a, b]).unwrap();
    assert_eq!(same, HoverChange { leave: None, enter: None });

    let change = engine.pointer_move(vec![root]).unwrap();
    assert_eq!(change, HoverChange { leave: Some(b), enter: Some(root) });
    assert!(states(&engine, root).is_hovered());
    assert!(!states(&engine, a).is_hovered());
    assert!(!states(&engine, b).is_hovered());

    let change = engine.pointer_move(vec![]).unwrap();
    assert_eq!(change, HoverChange { leave: Some(root), enter: None });
    assert!(!states(&engine, root).is_hovered());
}

/// The nodes under a point of a window whose only node covers the whole window.
fn hit_full_window(root: NodeId, size: Size<usize>, x: f32, y: f32) -> Vec<NodeId> {
    if x >= 0.0 && y >= 0.0 && x < size.width as f32 && y < size.height as f32 {
        vec![root]
    } else {
        vec![]
    }
}

fn window_engine() -> (Engine, NodeId) {
    let mut arena = NodeArena::new();
    let root = arena.create_node(NodeKind::Div, None).unwrap();
    (Engine::new(arena, root, Size::wh(400, 300)), root)
}

#[test]
fn hover_enter_leave_baseline_sequence() {
    let (mut engine, root) = window_engine();
    let size = engine.get_size();
    let mut enter_count = 0;
    let mut leave_count = 0;
    for (x, y) in [(10.0, 10.0), (20.0, 20.0), (9999.0, 9999.0)] {
        let change = engine.pointer_move(hit_full_window(root, size, x, y)).unwrap();
        if change.enter.is_some() {
            enter_count += 1;
        }
        if change.leave.is_some() {
            leave_count += 1;
        }
    }
    assert_eq!(enter_count, 1, "enter should fire once");
    assert_eq!(leave_count, 1, "leave should fire once");
}

#[test]
fn interaction_sequence_does_not_panic() {
    let (mut engine, root) = window_engine();
    let size = engine.get_size();
    assert!(engine.needs_frame(false, true));
    engine.pointer_move(hit_full_window(root, size, 10.0, 10.0)).unwrap();
    let mut clicked = Vec::new();
    engine.pointer_down(&hit_full_window(root, size, 10.0, 10.0), &mut clicked).unwrap();
    assert_eq!(clicked, vec![root]);
    engine.pointer_up(&hit_full_window(root, size, 10.0, 10.0)).unwrap();
    engine.pointer_move(hit_full_window(root, size, 9999.0, 9999.0)).unwrap();
    let order = engine.paint_order();
    engine.finish_paint(&order).unwrap();
    assert!(!states(&engine, root).is_hovered());
    assert!(!states(&engine, root).is_active());
}

#[test]
fn press_goes_from_leaf_to_root_and_release_undoes_it() {
    let (mut engine, root, a, b) = clean_tree();
    let mut clicked = Vec::new();
    engine.pointer_down(&vec![root, a, b], &mut clicked).unwrap();
    assert_eq!(clicked, vec![b, a, root]);
    assert!(states(&engine, a).is_active());
    engine.pointer_up(&vec![root, a, b]).unwrap();
    assert!(!states(&engine, a).is_active());
    assert!(!states(&engine, root).is_active());
}

#[test]
fn leaving_the_path_clears_active() {
    let (mut engine, root, a, b) = clean_tree();
    engine.pointer_move(vec![root, a, b]).unwrap();
    let mut clicked = Vec::new();
    engine.pointer_down(&vec![root, a, b], &mut clicked).unwrap();
    engine.pointer_move(vec![root]).unwrap();
    assert!(!states(&engine, b).is_active());
    assert!(!states(&engine, b).is_hovered());
    assert!(states(&engine, root).is_active());
}

#[test]
fn press_on_a_missing_node_stops_there() {
    let mut arena = NodeArena::new();
    let root = arena.create_node(NodeKind::Div, None).unwrap();
    let gone = arena.create_node(NodeKind::Div, Some(root)).unwrap();
    arena.delete_node(gone).unwrap();
    let mut engine = Engine::new(arena, root, Size::wh(10, 10));
    let mut clicked = Vec::new();
    let r = engine.pointer_down(&vec![gone, root], &mut clicked);
    assert_eq!(r, Err(Error::NodeNotFound(gone)));
    assert_eq!(clicked, vec![root]);
    assert!(states(&engine, root).is_active());
    let r = engine.pointer_move(vec![root, gone]);
    assert_eq!(r, Err(Error::NodeNotFound(gone)));
    assert_eq!(engine.hover_path(), &Vec::<NodeId>::new());
}

#[test]
fn state_change_marks_for_paint_only_when_it_changes() {
    let (mut engine, root, _a, _b) = clean_tree();
    engine.set_state(root, InteractionState::focus(), false).unwrap();
    assert!(!engine.frame_flags().1);
    engine.set_state(root, InteractionState::focus(), true).unwrap();
    assert!(engine.frame_flags().1);
    assert!(!engine.frame_flags().0);
}

#[test]
fn resize_marks_the_root_for_layout() {
    let (mut engine, root, _a, _b) = clean_tree();
    assert!(!engine.needs_frame(false, false));
    assert!(engine.needs_frame(true, false));
    assert!(engine.needs_frame(false, true));
    let mut cleared = Vec::new();
    engine.resize(Size::wh(800, 600), &mut cleared).unwrap();
    assert_eq!(cleared, vec![root]);
    assert_eq!(engine.get_size(), Size::wh(800, 600));
    assert_eq!(engine.frame_flags(), (true, false));
}

#[test]
fn updates_mark_their_nodes_and_paint_clears() {
    let (mut engine, root, a, b) = clean_tree();
    let mut cleared = Vec::new();
    engine.apply_updates(&vec![(b, DirtyFlags::paint()), (a, DirtyFlags::layout())], &mut cleared);
    assert_eq!(cleared, vec![a, root]);
    assert_eq!(engine.frame_flags(), (true, true));
    let order = engine.paint_order();
    engine.finish_paint(&order).unwrap();
    assert_eq!(engine.frame_flags(), (true, false));
    assert_eq!(engine.root(), root);
}

#[test]
fn a_frame_clears_layout_and_paint_so_no_frame_is_due() {
    let (mut engine, _root) = window_engine();
    assert_eq!(engine.frame_flags(), (true, true));
    let order = engine.paint_order();
    engine.finish_layout(&order).unwrap();
    assert_eq!(engine.frame_flags(), (false, true));
    engine.finish_paint(&order).unwrap();
    assert_eq!(engine.frame_flags(), (false, false));
    assert!(!engine.needs_frame(false, false));
}
