use geosketch::geom::{COORD_LIMIT};
use geosketch::graph::{DepGraph, EditError};
use geosketch::snap::{hitting_object, snap_target, SnapTarget, SELECT_THRESHOLD};
use geosketch::spatial::{SpatialHashCache, CELL_SIZE};
use geosketch::store::{ConcreteGeometry, Sketch};
use geosketch::viewport::{Viewport, ViewportEvent};
use geosketch::Vector2;

fn v(x: i64, y: i64) -> Vector2 {
    Vector2 { x, y }
}

#[test]
fn topological_order_parents_before_children() {
    let mut s = Sketch::new();
    let l1 = s.create_line(v(0, 0), v(1, 0));
    let l2 = s.create_line(v(0, 0), v(0, 1));
    let p = s.create_intersection_point(l1, l2).unwrap();
    let q = s.create_point_on_line(l1, 5).unwrap();
    let order = s.topological_order();
    let pos = |h: u64| order.iter().position(|&x| x == h).unwrap();
    assert!(pos(l1) < pos(p));
    assert!(pos(l2) < pos(p));
    assert!(pos(l1) < pos(q));
    assert_eq!(order.len(), 4);
}

#[test]
fn cycle_insert_rejected_graph_unchanged() {
    let mut g = DepGraph::new();
    assert_eq!(g.on_insert(1, vec![]), Ok(()));
    assert_eq!(g.on_insert(2, vec![1]), Ok(()));
    let before = g.topological_order();
    // a definition referencing itself closes a cycle
    assert_eq!(g.on_insert(3, vec![3]), Err(EditError::Cycle));
    // redefining an object to depend on its own dependent closes a cycle
    assert_eq!(g.on_insert(1, vec![2]), Err(EditError::Cycle));
    let after = g.topological_order();
    assert_eq!(before, after);
}

#[test]
fn dangling_reference_rejected() {
    let mut g = DepGraph::new();
    assert_eq!(g.on_insert(1, vec![42]), Err(EditError::DanglingReference));
    let mut s = Sketch::new();
    assert_eq!(s.create_point_on_line(999, 0), Err(EditError::DanglingReference));
    let p = s.create_free_point(v(1, 2));
    // a point is not a line: the handle kind is checked too
    assert_eq!(s.create_point_on_line(p, 0), Err(EditError::DanglingReference));
    assert_eq!(s.create_intersection_point(p, p), Err(EditError::DanglingReference));
}

#[test]
fn delete_returns_exactly_transitive_dependents() {
    let mut s = Sketch::new();
    let l1 = s.create_line(v(0, 0), v(1, 0));
    let l2 = s.create_line(v(0, 0), v(0, 1));
    let p = s.create_intersection_point(l1, l2).unwrap();
    let l3 = s.create_line_through_points(p, p).unwrap();
    let q = s.create_point_on_line(l2, 3).unwrap();
    let removed = s.delete(l1).unwrap();
    // exactly the transitive dependents of l1: p and the line through p
    assert_eq!(removed.len(), 2);
    assert!(removed.contains(&p));
    assert!(removed.contains(&l3));
    assert!(!removed.contains(&l1));
    assert!(!removed.contains(&q));
    // survivors are intact, the deleted are gone
    assert!(s.is_live(l2));
    assert!(s.is_live(q));
    assert!(!s.is_live(l1));
    assert!(!s.is_live(p));
    assert!(!s.is_live(l3));
    // deleting a dead handle is a dangling reference
    assert_eq!(s.delete(l1), Err(EditError::DanglingReference));
}

#[test]
fn solver_is_idempotent() {
    let mut s = Sketch::new();
    let l1 = s.create_line(v(0, 0), v(1, 0));
    let l2 = s.create_line(v(0, 0), v(0, 1));
    let p = s.create_intersection_point(l1, l2).unwrap();
    let q = s.create_point_on_line(l1, 7).unwrap();
    s.solve();
    let first: Vec<_> = [l1, l2, p, q].iter().map(|&h| s.concrete_of(h)).collect();
    s.solve();
    let second: Vec<_> = [l1, l2, p, q].iter().map(|&h| s.concrete_of(h)).collect();
    assert_eq!(first, second);
}

#[test]
fn resolution_rules_concrete_values() {
    let mut s = Sketch::new();
    let f = s.create_free_point(v(3, 4));
    let l1 = s.create_line(v(0, 0), v(1, 0));
    let p_on = s.create_point_on_line(l1, 5).unwrap();
    let l2 = s.create_line(v(0, 0), v(0, 1));
    let x = s.create_intersection_point(l1, l2).unwrap();
    // a line parallel to l1: intersection with l1 is absent
    let l3 = s.create_line(v(0, 5), v(1, 0));
    let none = s.create_intersection_point(l1, l3).unwrap();
    s.solve();
    assert_eq!(s.concrete_of(f), Some(ConcreteGeometry::Point(v(3, 4))));
    assert_eq!(s.concrete_of(p_on), Some(ConcreteGeometry::Point(v(5, 0))));
    assert_eq!(s.concrete_of(x), Some(ConcreteGeometry::Point(v(0, 0))));
    assert_eq!(s.concrete_of(none), None);
}

#[test]
fn absence_is_contagious() {
    let mut s = Sketch::new();
    // a zero-direction line is degenerate: absent
    let l = s.create_line(v(1, 1), v(0, 0));
    let p = s.create_point_on_line(l, 2).unwrap();
    s.solve();
    assert_eq!(s.concrete_of(l), None);
    assert_eq!(s.concrete_of(p), None);
}

#[test]
fn line_through_two_points() {
    let mut s = Sketch::new();
    let a = s.create_free_point(v(1, 1));
    let b = s.create_free_point(v(4, 5));
    let l = s.create_line_through_points(a, b).unwrap();
    s.solve();
    assert_eq!(s.concrete_of(l), Some(ConcreteGeometry::Line(v(1, 1), v(3, 4))));
    // coincident endpoints leave the line absent
    let c = s.create_free_point(v(2, 2));
    let m = s.create_line_through_points(c, c).unwrap();
    s.solve();
    assert_eq!(s.concrete_of(m), None);
}

#[test]
fn moved_line_origin_moves_constrained_point() {
    let mut s = Sketch::new();
    let l = s.create_line(v(0, 0), v(1, 0));
    let p = s.create_point_on_line(l, 2).unwrap();
    s.solve();
    assert_eq!(s.concrete_of(p), Some(ConcreteGeometry::Point(v(2, 0))));
    s.move_line(l, v(10, 0), v(1, 0)).unwrap();
    s.solve();
    assert_eq!(s.concrete_of(p), Some(ConcreteGeometry::Point(v(12, 0))));
}

#[test]
fn moving_a_free_point_updates_descendants() {
    let mut s = Sketch::new();
    let a = s.create_free_point(v(0, 0));
    let b = s.create_free_point(v(2, 0));
    let l = s.create_line_through_points(a, b).unwrap();
    let p = s.create_point_on_line(l, 3).unwrap();
    s.solve();
    assert_eq!(s.concrete_of(p), Some(ConcreteGeometry::Point(v(6, 0))));
    s.move_free_point(a, v(0, 1)).unwrap();
    s.solve();
    assert_eq!(s.concrete_of(l), Some(ConcreteGeometry::Line(v(0, 1), v(2, -1))));
}

#[test]
fn spatial_neighbors_within_cell_size() {
    let mut s = Sketch::new();
    let p = s.create_free_point(v(100, 100));
    let far = s.create_free_point(v(5000, 5000));
    s.solve();
    let vp = Viewport::new(v(800, 600));
    let mut cache = SpatialHashCache::new();
    cache.rebuild(&s, &vp);
    // anything within one cell size of the query must come back
    let near = cache.neighbors_of(v(100 + CELL_SIZE - 1, 100));
    assert!(near.contains(&p));
    let exact = cache.neighbors_of(v(100, 100));
    assert!(exact.contains(&p));
    assert!(!exact.contains(&far));
}

#[test]
fn spatial_empty_cache_gives_no_neighbors() {
    let cache = SpatialHashCache::new();
    assert!(cache.neighbors_of(v(0, 0)).is_empty());
}

#[test]
fn hit_test_prefers_point_over_line() {
    let mut s = Sketch::new();
    let l = s.create_line(v(0, 0), v(1, 0));
    let p = s.create_free_point(v(50, 2));
    s.solve();
    let vp = Viewport::new(v(800, 600));
    let mut cache = SpatialHashCache::new();
    cache.rebuild(&s, &vp);
    // the cursor is on the line and near the point: the point wins
    let hit = hitting_object(v(50, 0), &vp, &cache, &s, SELECT_THRESHOLD);
    assert_eq!(hit, Some(p));
    // far from the point, the line itself is hit
    let hit2 = hitting_object(v(200, 1), &vp, &cache, &s, SELECT_THRESHOLD);
    assert_eq!(hit2, Some(l));
    // far from everything, nothing is hit
    let hit3 = hitting_object(v(200, 300), &vp, &cache, &s, SELECT_THRESHOLD);
    assert_eq!(hit3, None);
}

#[test]
fn hit_test_closest_point_wins() {
    let mut s = Sketch::new();
    let _a = s.create_free_point(v(10, 4));
    let b = s.create_free_point(v(10, 1));
    s.solve();
    let vp = Viewport::new(v(800, 600));
    let mut cache = SpatialHashCache::new();
    cache.rebuild(&s, &vp);
    let hit = hitting_object(v(10, 0), &vp, &cache, &s, SELECT_THRESHOLD);
    assert_eq!(hit, Some(b));
}

#[test]
fn viewport_round_trip_and_events() {
    let mut vp = Viewport::new(v(800, 600));
    vp.apply_event(&ViewportEvent::Move(v(30, -20)));
    assert_eq!(vp.pan, v(30, -20));
    let virt = v(5, 7);
    let act = vp.to_actual(virt);
    assert_eq!(act, v(35, -13));
    assert_eq!(vp.to_virtual(act), virt);
    vp.apply_event(&ViewportEvent::Resize(v(1024, 768)));
    assert_eq!(vp.size, v(1024, 768));
    assert_eq!(vp.pan, v(30, -20));
    // panning is clamped to the workspace
    vp.apply_event(&ViewportEvent::Move(v(COORD_LIMIT, 0)));
    assert_eq!(vp.pan.x, COORD_LIMIT);
}

#[test]
fn viewport_pan_affects_hit_test() {
    let mut s = Sketch::new();
    let p = s.create_free_point(v(100, 100));
    s.solve();
    let mut vp = Viewport::new(v(800, 600));
    vp.apply_event(&ViewportEvent::Move(v(-100, -100)));
    let mut cache = SpatialHashCache::new();
    cache.rebuild(&s, &vp);
    // the point now sits at the screen origin
    let hit = hitting_object(v(1, 1), &vp, &cache, &s, SELECT_THRESHOLD);
    assert_eq!(hit, Some(p));
}

#[test]
fn on_line_parameter_update() {
    let mut s = Sketch::new();
    let l = s.create_line(v(0, 0), v(0, 1));
    let p = s.create_point_on_line(l, 4).unwrap();
    s.solve();
    assert_eq!(s.concrete_of(p), Some(ConcreteGeometry::Point(v(0, 4))));
    s.set_on_line_parameter(p, -3).unwrap();
    s.solve();
    assert_eq!(s.concrete_of(p), Some(ConcreteGeometry::Point(v(0, -3))));
}

#[test]
fn snap_prefers_point_over_intersection() {
    let mut s = Sketch::new();
    let l1 = s.create_line(v(0, 0), v(1, 0));
    let l2 = s.create_line(v(0, 0), v(0, 1));
    // a point sits near the intersection of the two axes
    let p = s.create_free_point(v(3, 3));
    s.solve();
    let vp = Viewport::new(v(800, 600));
    let mut cache = SpatialHashCache::new();
    cache.rebuild(&s, &vp);
    // the cursor is within the point threshold of both the free point
    // and the axes' intersection: the point wins
    let t = snap_target(v(1, 1), &vp, &cache, &s);
    assert_eq!(t, SnapTarget::SnapPoint(p));
    // with the point gone, the same cursor snaps along a line first
    s.delete(p).unwrap();
    s.solve();
    cache.rebuild(&s, &vp);
    let t2 = snap_target(v(1, 1), &vp, &cache, &s);
    assert!(t2 == SnapTarget::SnapLine(l1) || t2 == SnapTarget::SnapLine(l2));
    // off every line, within the point threshold of nothing: no snap
    let t3 = snap_target(v(300, 300), &vp, &cache, &s);
    assert_eq!(t3, SnapTarget::NoSnap);
}

#[test]
fn snap_finds_intersection_when_lines_are_out_of_line_range() {
    let mut s = Sketch::new();
    let l1 = s.create_line(v(0, 0), v(1, 0));
    let l2 = s.create_line(v(0, 0), v(0, 1));
    s.solve();
    let vp = Viewport::new(v(800, 600));
    let mut cache = SpatialHashCache::new();
    cache.rebuild(&s, &vp);
    // the cursor is 7 units from both axes (outside the line threshold
    // of 6) but within 10 of their intersection at the origin
    let t = snap_target(v(7, 7), &vp, &cache, &s);
    assert_eq!(t, SnapTarget::SnapIntersection(l1, l2, v(0, 0)));
}
