use gitgraph::Message;
use gitgraph::graph::CommitGraph;
use gitgraph::graph::GraphError;
use gitgraph::graph::extract_label;
use gitgraph::rat::Frac;
use gitgraph::viewport::Bounds;
use gitgraph::viewport::CanvasEvent;
use gitgraph::viewport::EventStatus;
use gitgraph::viewport::MouseButton;
use gitgraph::viewport::NodeLocation;
use gitgraph::viewport::ScrollDelta;
use gitgraph::viewport::Vec2;
use gitgraph::viewport::ViewportState;
use gitgraph::viewport::CursorHint;
use gitgraph::viewport::Primitive;
use gitgraph::viewport::adjust_position_for_view;
use gitgraph::viewport::draw_primitives;
use gitgraph::viewport::mouse_interaction;

fn fr(v: i64) -> Frac {
    Frac { num: v, den: 1 }
}

fn canvas() -> Bounds {
    Bounds { x: fr(0), y: fr(0), width: fr(800), height: fr(600) }
}

fn origin_node() -> Vec<NodeLocation> {
    vec![NodeLocation { id: "a".to_string(), x: fr(0), y: fr(0) }]
}

fn move_to(state: &mut ViewportState, bounds: &Bounds, locs: &Vec<NodeLocation>, x: i64, y: i64) {
    let (status, msg) = state.update(
        CanvasEvent::CursorMoved { position: Vec2 { x: fr(x), y: fr(y) } },
        bounds,
        locs,
    );
    assert_eq!(status, EventStatus::Captured);
    assert!(msg.is_none());
}

#[test]
fn projection_is_exact() {
    let mut state = ViewportState::new();
    state.zoom = fr(2);
    state.offset = Vec2 { x: fr(3), y: fr(-4) };
    let b = canvas();
    let p = adjust_position_for_view(&Vec2 { x: fr(7), y: fr(9) }, &b, &state).unwrap();
    // x: 2 * (7 + 3) + 400 = 420; y: 2 * (9 - 4) + 300 = 310.
    assert_eq!(p.x.num * 1, 420 * p.x.den);
    assert_eq!(p.y.num * 1, 310 * p.y.den);
}

#[test]
fn screen_graph_screen_round_trip() {
    let state = {
        let mut s = ViewportState::new();
        s.zoom = fr(2);
        s.offset = Vec2 { x: fr(3), y: fr(-4) };
        s
    };
    let b = canvas();
    // Unproject the screen point (420, 310) by hand, re-project, and expect
    // the same screen point back.
    let g = Vec2 { x: fr((420 - 400) / 2 - 3), y: fr((310 - 300) / 2 + 4) };
    let p = adjust_position_for_view(&g, &b, &state).unwrap();
    assert_eq!(p.x.num, 420 * p.x.den);
    assert_eq!(p.y.num, 310 * p.y.den);
}

#[test]
fn press_on_node_center_selects_it() {
    let mut state = ViewportState::new();
    let b = canvas();
    let locs = origin_node();
    // The origin projects to the canvas centre under offset 0, zoom 1.
    move_to(&mut state, &b, &locs, 400, 300);
    let (status, msg) = state.update(CanvasEvent::ButtonPressed(MouseButton::Left), &b, &locs);
    assert_eq!(status, EventStatus::Captured);
    match msg {
        Some(Message::SelectCommit(id)) => assert_eq!(id, "a"),
        _ => panic!("expected a selection"),
    }
    assert!(!state.dragging);
}

#[test]
fn press_outside_unselects_and_drag_pans_by_delta_over_zoom() {
    let mut state = ViewportState::new();
    let b = canvas();
    let locs = origin_node();
    move_to(&mut state, &b, &locs, 10, 10);
    let (status, msg) = state.update(CanvasEvent::ButtonPressed(MouseButton::Left), &b, &locs);
    assert_eq!(status, EventStatus::Captured);
    match msg {
        Some(Message::UnselectCommit) => {}
        _ => panic!("expected the selection to clear"),
    }
    assert!(state.dragging);
    // Moving the pointer by (20, 40) at zoom 1 pans the offset by (20, 40).
    move_to(&mut state, &b, &locs, 30, 50);
    assert_eq!(state.offset.x.num, 20 * state.offset.x.den);
    assert_eq!(state.offset.y.num, 40 * state.offset.y.den);
    // Releasing ends the drag.
    let (status, msg) = state.update(CanvasEvent::ButtonReleased(MouseButton::Left), &b, &locs);
    assert_eq!(status, EventStatus::Captured);
    assert!(msg.is_none());
    assert!(!state.dragging);
}

#[test]
fn wheel_while_dragging_keeps_zoom() {
    let mut state = ViewportState::new();
    let b = canvas();
    let locs = origin_node();
    move_to(&mut state, &b, &locs, 10, 10);
    state.update(CanvasEvent::ButtonPressed(MouseButton::Left), &b, &locs);
    assert!(state.dragging);
    let (status, msg) = state.update(
        CanvasEvent::WheelScrolled { delta: ScrollDelta::Lines { y: fr(3) } },
        &b,
        &locs,
    );
    assert_eq!(status, EventStatus::Captured);
    assert!(msg.is_none());
    assert_eq!(state.zoom.num, 1);
    assert_eq!(state.zoom.den, 1);
}

#[test]
fn wheel_scales_zoom_by_fifteen_percent_per_line() {
    let mut state = ViewportState::new();
    let b = canvas();
    let locs = origin_node();
    move_to(&mut state, &b, &locs, 400, 300);
    let (status, _) = state.update(
        CanvasEvent::WheelScrolled { delta: ScrollDelta::Lines { y: fr(1) } },
        &b,
        &locs,
    );
    assert_eq!(status, EventStatus::Captured);
    // 1 * (1 + 0.15) = 23/20.
    assert_eq!(state.zoom.num * 20, 23 * state.zoom.den);
}

#[test]
fn wheel_zoom_clamps_to_range() {
    let b = canvas();
    let locs = origin_node();
    let mut state = ViewportState::new();
    move_to(&mut state, &b, &locs, 400, 300);
    state.update(
        CanvasEvent::WheelScrolled { delta: ScrollDelta::Lines { y: fr(100) } },
        &b,
        &locs,
    );
    assert_eq!(state.zoom.num * 1, 4 * state.zoom.den);
    let mut state = ViewportState::new();
    move_to(&mut state, &b, &locs, 400, 300);
    state.update(
        CanvasEvent::WheelScrolled { delta: ScrollDelta::Lines { y: fr(-100) } },
        &b,
        &locs,
    );
    assert_eq!(state.zoom.num * 1000, 1 * state.zoom.den);
}

#[test]
fn wheel_keeps_graph_point_under_cursor() {
    let mut state = ViewportState::new();
    let b = canvas();
    let locs = origin_node();
    move_to(&mut state, &b, &locs, 500, 300);
    // Graph x under the cursor before the zoom: (500 - 400) / 1 - 0 = 100.
    let (status, _) = state.update(
        CanvasEvent::WheelScrolled { delta: ScrollDelta::Lines { y: fr(1) } },
        &b,
        &locs,
    );
    assert_eq!(status, EventStatus::Captured);
    // After: (100 / zoom) - offset.x must still be 100.
    let zn = state.zoom.num as i128;
    let zd = state.zoom.den as i128;
    let on = state.offset.x.num as i128;
    let od = state.offset.x.den as i128;
    // (100 * zd / zn) - on/od == 100  <=>  100*zd*od - on*zn == 100*zn*od.
    assert_eq!(100 * zd * od - on * zn, 100 * zn * od);
}

#[test]
fn unsupported_events_are_reported_unconsumed() {
    let mut state = ViewportState::new();
    let b = canvas();
    let locs = origin_node();
    let (status, msg) = state.update(CanvasEvent::Other, &b, &locs);
    assert_eq!(status, EventStatus::Ignored);
    assert!(msg.is_none());
    let (status, _) = state.update(CanvasEvent::ButtonPressed(MouseButton::Right), &b, &locs);
    assert_eq!(status, EventStatus::Ignored);
}

#[test]
fn fractions_reduce_and_stay_exact() {
    let a = Frac { num: 1, den: 2 };
    let c = a.try_add(Frac { num: 1, den: 3 }).unwrap();
    assert_eq!((c.num, c.den), (5, 6));
    let d = a.try_mul(Frac { num: 2, den: 5 }).unwrap();
    assert_eq!((d.num, d.den), (1, 5));
    assert!(a.try_div(Frac { num: 0, den: 1 }).is_none());
    let e = a.try_sub(Frac { num: 3, den: 4 }).unwrap();
    assert_eq!((e.num, e.den), (-1, 4));
}

#[test]
fn reference_labels_follow_the_last_separator() {
    assert_eq!(extract_label("refs/heads/main").unwrap(), "main");
    assert_eq!(extract_label("refs/tags/v1.0").unwrap(), "v1.0");
    assert_eq!(extract_label("HEAD"), Err(GraphError::MalformedReferenceName));
}

#[test]
fn cursor_hint_follows_state() {
    let b = canvas();
    let locs = origin_node();
    let mut state = ViewportState::new();
    // Pointer at origin: no hit, y == 0 is not over the canvas.
    assert_eq!(mouse_interaction(&state, &b, &locs), CursorHint::Idle);
    move_to(&mut state, &b, &locs, 400, 300);
    // Exactly over the node's projected center.
    assert_eq!(mouse_interaction(&state, &b, &locs), CursorHint::Pointer);
    move_to(&mut state, &b, &locs, 10, 10);
    state.update(CanvasEvent::ButtonPressed(MouseButton::Left), &b, &locs);
    assert_eq!(mouse_interaction(&state, &b, &locs), CursorHint::Grabbing);
}

#[test]
fn draw_primitives_emit_discs_captions_and_links() {
    let mut g = CommitGraph::new();
    g.add_commit("aaaaaa".to_string(), Vec::new(), None).unwrap();
    g.add_commit(
        "bbbbbb".to_string(),
        vec!["aaaaaa".to_string()],
        Some("main".to_string()),
    )
    .unwrap();
    g.add_commit("cccccc".to_string(), vec!["aaaaaa".to_string()], None)
        .unwrap();
    // Graph-space locations from the layout: a (0,0), b (125,-75), c (125,75).
    let locs = vec![
        NodeLocation { id: "aaaaaa".to_string(), x: fr(0), y: fr(0) },
        NodeLocation { id: "bbbbbb".to_string(), x: fr(125), y: fr(-75) },
        NodeLocation { id: "cccccc".to_string(), x: fr(125), y: fr(75) },
    ];
    let state = ViewportState::new();
    let b = canvas();
    let prims = draw_primitives(&g, &locs, &b, &state);
    // a: disc + caption; b: disc + caption + reference caption + 1 link;
    // c: disc + caption + 1 link.
    assert_eq!(prims.len(), 9);
    match &prims[0] {
        Primitive::Node { cx, cy, radius } => {
            assert_eq!(cx.num, 400 * cx.den);
            assert_eq!(cy.num, 300 * cy.den);
            assert_eq!(radius.num, 50 * radius.den);
        }
        _ => panic!("expected the root's disc first"),
    }
    match &prims[1] {
        Primitive::Caption { text, .. } => assert_eq!(text, "aaaaaa"),
        _ => panic!("expected the root's caption"),
    }
    let captions: Vec<&str> = prims
        .iter()
        .filter_map(|p| match p {
            Primitive::Caption { text, .. } => Some(text.as_str()),
            _ => None,
        })
        .collect();
    assert!(captions.contains(&"main"));
    let links = prims
        .iter()
        .filter(|p| matches!(p, Primitive::Link { .. }))
        .count();
    assert_eq!(links, 2);
}
