use lighter::arena::NodeArena;
use lighter::event::{ClickDispatch, EventPhase};
use lighter::node::{NodeId, NodeKind};

fn path() -> (NodeId, NodeId, NodeId) {
    let mut arena = NodeArena::new();
    let root = arena.create_node(NodeKind::Div, None).unwrap();
    let mid = arena.create_node(NodeKind::Div, Some(root)).unwrap();
    let leaf = arena.create_node(NodeKind::Text, Some(mid)).unwrap();
    (root, mid, leaf)
}

#[test]
fn click_bubbles_from_target_to_root() {
    let (root, mid, leaf) = path();
    let mut dispatch = ClickDispatch::new(vec![leaf, mid, root], Some((3, 4)));
    let mut seen = Vec::new();
    while let Some(ctx) = dispatch.next_context() {
        assert_eq!(ctx.target, leaf);
        assert_eq!(ctx.position, Some((3, 4)));
        seen.push((ctx.current, ctx.phase));
        dispatch.finish(&ctx);
    }
    assert_eq!(seen, vec![(leaf, EventPhase::Target), (mid, EventPhase::Bubble), (root, EventPhase::Bubble)]);
}

#[test]
fn stop_propagation_keeps_ancestors_from_their_click() {
    let (root, mid, leaf) = path();
    let mut dispatch = ClickDispatch::new(vec![leaf, mid, root], None::<(i32, i32)>);
    let mut seen = Vec::new();
    while let Some(mut ctx) = dispatch.next_context() {
        seen.push(ctx.current);
        if ctx.current == mid {
            ctx.stop_propagation();
        }
        dispatch.finish(&ctx);
    }
    assert_eq!(seen, vec![leaf, mid]);
    assert!(dispatch.next_context().is_none());
}

#[test]
fn empty_click_delivers_nothing() {
    let mut dispatch = ClickDispatch::<u8>::new(Vec::new(), None);
    assert!(dispatch.next_context().is_none());
}
