use abc_lumenpyx::camera::RenderError;
use abc_lumenpyx::collect::{sort_by_depth, EntityDepthItem};
use abc_lumenpyx::resolve::{DrawItem, LightItem};
use abc_lumenpyx::scene::{Node, Scene};
use abc_lumenpyx::{BlendComponent, DrawableKind, LightKind};
use lumenpyx::blending::BlendMode;

fn circle_at(depth: i64) -> Node {
    let mut n = Node::new();
    n.drawables.circle = true;
    n.depth = Some(depth);
    n
}

fn camera(active: bool, with_transform: bool) -> Node {
    let mut n = Node::new();
    n.camera = Some(active);
    if with_transform {
        n.depth = Some(0);
    }
    n
}

fn blend_at(depth: i64) -> Node {
    let mut n = Node::new();
    n.blend = Some(BlendComponent::new(BlendMode::Subtractive));
    n.depth = Some(depth);
    n
}

fn entity_of(d: &DrawItem) -> usize {
    match d {
        DrawItem::Shape { entity, .. } => *entity,
        DrawItem::Blend { entity, .. } => *entity,
    }
}

fn plan_entities(scene: &mut Scene, t: i64) -> Vec<usize> {
    let plan = scene.render(t).unwrap().unwrap();
    plan.drawables.iter().map(entity_of).collect()
}

#[test]
fn depth_orders_drawing() {
    let mut s = Scene::new();
    s.add_entity(camera(true, true));
    let a = s.add_entity(circle_at(5));
    let b = s.add_entity(circle_at(-2));
    let c = s.add_entity(circle_at(3));
    assert_eq!(plan_entities(&mut s, 0), vec![b, c, a]);
}

#[test]
fn equal_depths_keep_discovery_order() {
    let mut s = Scene::new();
    s.add_entity(camera(true, true));
    let a = s.add_entity(circle_at(1));
    let b = s.add_entity(circle_at(0));
    let c = s.add_entity(circle_at(1));
    let d = s.add_entity(circle_at(0));
    assert_eq!(plan_entities(&mut s, 0), vec![b, d, a, c]);
}

#[test]
fn work_list_sort_is_stable_by_depth() {
    let items = vec![
        EntityDepthItem { entity: 0, depth: 4 },
        EntityDepthItem { entity: 1, depth: 2 },
        EntityDepthItem { entity: 2, depth: 4 },
        EntityDepthItem { entity: 3, depth: -7 },
    ];
    let sorted = sort_by_depth(&items);
    let entities: Vec<usize> = sorted.iter().map(|i| i.entity).collect();
    assert_eq!(entities, vec![3, 1, 0, 2]);
}

#[test]
fn equal_depths_keep_input_order_not_entity_order() {
    let items = vec![
        EntityDepthItem { entity: 5, depth: 0 },
        EntityDepthItem { entity: 3, depth: 0 },
        EntityDepthItem { entity: 9, depth: -1 },
        EntityDepthItem { entity: 1, depth: 0 },
    ];
    let sorted = sort_by_depth(&items);
    let entities: Vec<usize> = sorted.iter().map(|i| i.entity).collect();
    assert_eq!(entities, vec![9, 5, 3, 1]);
    let a = EntityDepthItem { entity: 0, depth: 0 };
    let b = EntityDepthItem { entity: 1, depth: 0 };
    assert!(!a.precedes(&b));
    assert!(!b.precedes(&a));
}

#[test]
fn drawables_of_one_entity_keep_listing_order() {
    let mut s = Scene::new();
    s.add_entity(camera(true, true));
    let mut n = circle_at(0);
    n.drawables.text_box = true;
    n.drawables.sprite = true;
    let e = s.add_entity(n);
    let plan = s.render(0).unwrap().unwrap();
    assert_eq!(plan.drawables.len(), 3);
    assert!(matches!(plan.drawables[0], DrawItem::Shape { entity, kind: DrawableKind::Circle } if entity == e));
    assert!(matches!(plan.drawables[1], DrawItem::Shape { kind: DrawableKind::Sprite, .. }));
    assert!(matches!(plan.drawables[2], DrawItem::Shape { kind: DrawableKind::TextBox, .. }));
}

#[test]
fn lights_are_listed_in_order() {
    let mut s = Scene::new();
    s.add_entity(camera(true, true));
    let mut far = Node::new();
    far.lights.directional = true;
    far.lights.point = true;
    far.depth = Some(9);
    let f = s.add_entity(far);
    let mut near = Node::new();
    near.lights.area = true;
    near.depth = Some(1);
    let n = s.add_entity(near);
    let plan = s.render(0).unwrap().unwrap();
    assert_eq!(
        plan.lights,
        vec![
            LightItem { entity: n, kind: LightKind::Area },
            LightItem { entity: f, kind: LightKind::Point },
            LightItem { entity: f, kind: LightKind::Directional },
        ]
    );
    assert!(plan.drawables.is_empty());
}

#[test]
fn entity_without_transform_is_skipped() {
    let mut s = Scene::new();
    s.add_entity(camera(true, true));
    let mut n = Node::new();
    n.drawables.sphere = true;
    n.lights.point = true;
    s.add_entity(n);
    let k = s.add_entity(circle_at(2));
    let plan = s.render(0).unwrap().unwrap();
    assert_eq!(plan.drawables.iter().map(entity_of).collect::<Vec<_>>(), vec![k]);
    assert!(plan.lights.is_empty());
    assert_eq!(plan.order.len(), 2);
}

#[test]
fn blend_orders_children_by_depth() {
    let mut s = Scene::new();
    s.add_entity(camera(true, true));
    let blend = s.add_entity(blend_at(4));
    let deep = s.add_entity(circle_at(8));
    let mut r = Node::new();
    r.drawables.rectangle = true;
    r.depth = Some(1);
    let shallow = s.add_entity(r);
    assert!(s.set_parent(deep, blend));
    assert!(s.set_parent(shallow, blend));
    let b = s.get_blend_object(blend).unwrap();
    match b {
        DrawItem::Blend { entity, mode, first, second } => {
            assert_eq!(entity, blend);
            assert!(matches!(mode, BlendMode::Subtractive));
            assert!(matches!(*first, DrawItem::Shape { entity, kind: DrawableKind::Rectangle } if entity == shallow));
            assert!(matches!(*second, DrawItem::Shape { entity, kind: DrawableKind::Circle } if entity == deep));
        }
        _ => panic!("expected a composite"),
    }
    // The children are drawn through the composite only.
    assert_eq!(plan_entities(&mut s, 0), vec![blend]);
}

#[test]
fn blend_result_does_not_depend_on_child_order() {
    for swap in [false, true] {
        let mut s = Scene::new();
        let blend = s.add_entity(blend_at(0));
        let a = s.add_entity(circle_at(-3));
        let b = s.add_entity(circle_at(6));
        let mut other = Node::new();
        other.depth = Some(-10);
        let c = s.add_entity(other);
        if swap {
            assert!(s.set_parent(b, blend));
            assert!(s.set_parent(c, blend));
            assert!(s.set_parent(a, blend));
        } else {
            assert!(s.set_parent(a, blend));
            assert!(s.set_parent(c, blend));
            assert!(s.set_parent(b, blend));
        }
        match s.get_blend_object(blend).unwrap() {
            DrawItem::Blend { first, second, .. } => {
                assert_eq!(entity_of(&first), a);
                assert_eq!(entity_of(&second), b);
            }
            _ => panic!("expected a composite"),
        }
    }
}

#[test]
fn blend_with_one_child_yields_nothing() {
    let mut s = Scene::new();
    s.add_entity(camera(true, true));
    let blend = s.add_entity(blend_at(0));
    let only = s.add_entity(circle_at(1));
    assert!(s.set_parent(only, blend));
    assert!(s.get_blend_object(blend).is_none());
    // A self pair is refused by the hierarchy itself.
    assert!(!s.set_parent(only, blend));
    assert!(!s.set_parent(blend, blend));
    // Without a composite the child is drawn on its own.
    assert_eq!(plan_entities(&mut s, 0), vec![only]);
}

#[test]
fn blend_ignores_children_without_drawables_and_extra_children() {
    let mut s = Scene::new();
    let blend = s.add_entity(blend_at(0));
    let mut hidden = circle_at(0);
    hidden.not_active = true;
    let h = s.add_entity(hidden);
    let a = s.add_entity(circle_at(2));
    let b = s.add_entity(circle_at(1));
    let c = s.add_entity(circle_at(-5));
    for k in [h, a, b, c] {
        assert!(s.set_parent(k, blend));
    }
    match s.get_blend_object(blend).unwrap() {
        DrawItem::Blend { first, second, .. } => {
            assert_eq!(entity_of(&first), b);
            assert_eq!(entity_of(&second), a);
        }
        _ => panic!("expected a composite"),
    }
}

#[test]
fn blend_without_transform_yields_nothing() {
    let mut s = Scene::new();
    let mut n = Node::new();
    n.blend = Some(BlendComponent::new(BlendMode::Additive));
    let blend = s.add_entity(n);
    let a = s.add_entity(circle_at(2));
    let b = s.add_entity(circle_at(1));
    assert!(s.set_parent(a, blend));
    assert!(s.set_parent(b, blend));
    assert!(s.get_blend_object(blend).is_none());
}

#[test]
fn nested_blend_composites_compose() {
    let mut s = Scene::new();
    s.add_entity(camera(true, true));
    let outer = s.add_entity(blend_at(0));
    let inner = s.add_entity(blend_at(5));
    let x = s.add_entity(circle_at(1));
    let y = s.add_entity(circle_at(2));
    let z = s.add_entity(circle_at(3));
    assert!(s.set_parent(x, inner));
    assert!(s.set_parent(y, inner));
    assert!(s.set_parent(inner, outer));
    assert!(s.set_parent(z, outer));
    match s.get_blend_object(outer).unwrap() {
        DrawItem::Blend { first, second, .. } => {
            assert_eq!(entity_of(&first), z);
            assert!(matches!(*second, DrawItem::Blend { entity, .. } if entity == inner));
        }
        _ => panic!("expected a composite"),
    }
    assert_eq!(plan_entities(&mut s, 0), vec![outer]);
}

#[test]
fn not_active_ancestor_suppresses_subtree() {
    let mut s = Scene::new();
    s.add_entity(camera(true, true));
    let mut root = Node::new();
    root.not_active = true;
    let r = s.add_entity(root);
    let mid = s.add_entity(Node::new());
    let mut leaf = circle_at(1);
    leaf.lights.point = true;
    let deep = s.add_entity(leaf);
    let sibling_root = s.add_entity(Node::new());
    let sibling = s.add_entity(circle_at(2));
    assert!(s.set_parent(mid, r));
    assert!(s.set_parent(deep, mid));
    assert!(s.set_parent(sibling, sibling_root));
    assert!(s.is_suppressed(deep));
    assert!(!s.is_suppressed(sibling));
    let (d, placed) = s.get_all_drawables_on_object(deep);
    assert!(d.is_empty());
    assert_eq!(placed, None);
    let plan = s.render(0).unwrap().unwrap();
    assert_eq!(plan.drawables.iter().map(entity_of).collect::<Vec<_>>(), vec![sibling]);
    assert!(plan.lights.is_empty());
}

#[test]
fn not_active_entity_is_not_drawn() {
    let mut s = Scene::new();
    s.add_entity(camera(true, true));
    let mut n = circle_at(0);
    n.not_active = true;
    n.lights.area = true;
    let e = s.add_entity(n);
    let (d, placed) = s.get_all_drawables_on_object(e);
    assert!(d.is_empty());
    assert_eq!(placed, None);
    let plan = s.render(0).unwrap().unwrap();
    assert!(plan.drawables.is_empty());
    assert!(plan.lights.is_empty());
}

#[test]
fn active_camera_is_chosen_over_inactive() {
    let mut s = Scene::new();
    s.add_entity(camera(false, true));
    let active = s.add_entity(camera(true, true));
    assert_eq!(s.get_camera(), Ok(Some(active)));
    let plan = s.render(0).unwrap().unwrap();
    assert_eq!(plan.camera, active);
}

#[test]
fn active_camera_without_transform_is_passed_over() {
    let mut s = Scene::new();
    s.add_entity(camera(true, false));
    let good = s.add_entity(camera(true, true));
    assert_eq!(s.get_camera(), Ok(Some(good)));
}

#[test]
fn no_camera_is_an_error() {
    let mut s = Scene::new();
    s.add_entity(circle_at(0));
    assert_eq!(s.get_camera(), Err(RenderError::NoCamera));
    assert!(matches!(s.render(0), Err(RenderError::NoCamera)));
}

#[test]
fn no_active_camera_renders_nothing() {
    let mut s = Scene::new();
    s.add_entity(camera(false, true));
    let mut a = circle_at(0);
    a.drawables.animation = true;
    let e = s.add_entity(a);
    assert!(s.add_animation_clock(e, false, 3));
    assert_eq!(s.get_camera(), Ok(None));
    assert!(matches!(s.render(10), Ok(None)));
    assert_eq!(s.clocks[0].elapsed, 0);
}

#[test]
fn animation_clocks_follow_session_time() {
    let mut s = Scene::new();
    s.add_entity(camera(true, true));
    let mut a = circle_at(0);
    a.drawables.animation = true;
    a.drawables.animation_state_machine = true;
    let e = s.add_entity(a);
    assert!(s.add_animation_clock(e, false, 40));
    assert!(s.add_animation_clock(e, true, 100));
    assert!(!s.add_animation_clock(0, false, 0));
    s.render(250).unwrap().unwrap();
    assert_eq!(s.clocks[0].elapsed, 210);
    assert_eq!(s.clocks[1].elapsed, 150);
}

#[test]
fn repeating_a_frame_changes_nothing() {
    let mut s = Scene::new();
    s.add_entity(camera(true, true));
    let mut a = circle_at(3);
    a.drawables.animation = true;
    let e = s.add_entity(a);
    s.add_entity(circle_at(1));
    assert!(s.add_animation_clock(e, false, 7));
    let first = s.render(20).unwrap().unwrap();
    let clocks = s.clocks.clone();
    let second = s.render(20).unwrap().unwrap();
    assert_eq!(s.clocks, clocks);
    assert_eq!(s.clocks[0].elapsed, 13);
    assert_eq!(first.order, second.order);
    assert_eq!(first.lights, second.lights);
    assert_eq!(
        first.drawables.iter().map(entity_of).collect::<Vec<_>>(),
        second.drawables.iter().map(entity_of).collect::<Vec<_>>()
    );
}

#[test]
fn work_list_holds_every_candidate() {
    let mut s = Scene::new();
    let mut out = Vec::new();
    s.add_entity(camera(true, true));
    let a = s.add_entity(circle_at(4));
    let mut l = Node::new();
    l.lights.point = true;
    let b = s.add_entity(l);
    let c = s.add_entity(blend_at(-1));
    s.collect_renderable_entities(&mut out, 0);
    assert_eq!(
        out,
        vec![
            EntityDepthItem { entity: a, depth: 4 },
            EntityDepthItem { entity: b, depth: 0 },
            EntityDepthItem { entity: c, depth: -1 },
        ]
    );
}

#[test]
fn well_formedness_is_checked() {
    let mut s = Scene::new();
    let a = s.add_entity(Node::new());
    let b = s.add_entity(Node::new());
    assert!(s.is_well_formed());
    // A child listed without its parent set.
    s.children[a].push(b);
    assert!(!s.is_well_formed());
    s.nodes[b].parent = Some(a);
    assert!(s.is_well_formed());
    s.children[a].push(b);
    assert!(!s.is_well_formed());
    s.children[a].pop();
    // A cycle: each is the other's parent.
    s.nodes[a].parent = Some(b);
    s.children[b].push(a);
    assert!(!s.is_well_formed());
    s.children[b].pop();
    s.nodes[a].parent = None;
    assert!(s.is_well_formed());
    s.nodes[b].parent = Some(9);
    assert!(!s.is_well_formed());
}

#[test]
fn set_parent_refuses_cycles_and_second_parents() {
    let mut s = Scene::new();
    let a = s.add_entity(Node::new());
    let b = s.add_entity(Node::new());
    let c = s.add_entity(Node::new());
    assert!(s.set_parent(b, a));
    assert!(s.set_parent(c, b));
    assert!(!s.set_parent(a, c));
    assert!(!s.set_parent(c, a));
    assert!(!s.set_parent(a, 7));
    assert_eq!(s.children[a], vec![b]);
    assert_eq!(s.nodes[c].parent, Some(b));
}

#[test]
fn scene_with_only_a_camera_plans_an_empty_frame() {
    let mut s = Scene::new();
    let cam = s.add_entity(camera(true, true));
    let plan = s.render(5).unwrap().unwrap();
    assert_eq!(plan.camera, cam);
    assert!(plan.order.is_empty());
    assert!(plan.drawables.is_empty());
    assert!(plan.lights.is_empty());
}

#[test]
fn blend_node_lists_composite_before_its_own_drawables() {
    let mut s = Scene::new();
    let mut n = blend_at(0);
    n.drawables.cylinder = true;
    let blend = s.add_entity(n);
    let a = s.add_entity(circle_at(1));
    let b = s.add_entity(circle_at(2));
    assert!(s.set_parent(a, blend));
    assert!(s.set_parent(b, blend));
    let (d, placed) = s.get_all_drawables_on_object(blend);
    assert_eq!(placed, Some(0));
    assert_eq!(d.len(), 2);
    assert!(matches!(d[0], DrawItem::Blend { entity, .. } if entity == blend));
    assert!(matches!(d[1], DrawItem::Shape { entity, kind: DrawableKind::Cylinder } if entity == blend));
    // Its children are drawn through it only.
    assert!(s.is_suppressed(a));
    let (d, placed) = s.get_all_drawables_on_object(a);
    assert!(d.is_empty());
    assert_eq!(placed, None);
}

#[test]
fn order_and_depth_helpers() {
    let a = EntityDepthItem { entity: 3, depth: 1 };
    let b = EntityDepthItem { entity: 1, depth: 1 };
    let c = EntityDepthItem { entity: 0, depth: 2 };
    assert!(!b.precedes(&a));
    assert!(!a.precedes(&b));
    assert!(a.precedes(&c));
    assert!(!a.precedes(&a));
    let mut s = Scene::new();
    let e = s.add_entity(Node::new());
    let f = s.add_entity(circle_at(-4));
    assert_eq!(s.depth_or_zero(e), 0);
    assert_eq!(s.depth_or_zero(f), -4);
    let mut l = Node::new();
    l.lights.area = true;
    l.lights.directional = true;
    let g = s.add_entity(l);
    assert_eq!(
        s.get_all_lights_on_object(g),
        vec![
            LightItem { entity: g, kind: LightKind::Area },
            LightItem { entity: g, kind: LightKind::Directional },
        ]
    );
}
