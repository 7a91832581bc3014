//! Snap and hit-test helper: pure queries over the spatial hash cache
//! and the geometry store.
//!
//! Candidates come from the cache's neighbor query; their exact
//! distances to the cursor are then compared on squared integers.
//! Points are ranked by exact squared Euclidean distance, lines by
//! their squared perpendicular distance truncated to grid units
//! ([`crate::geom::line_q`]).  The priority order is point over line
//! over line-line intersection, and among equally close point or line
//! candidates the lowest handle wins — a deterministic tie-break
//! independent of the cache's internal iteration order.

use vstd::prelude::*;

use crate::geom::{
    dir_coord_ok, dist2, dist_sq, in_workspace, line_intersection, line_metric, line_q,
    line_within, within_line_dist, Vector2, COORD_LIMIT,
};
use crate::solver::cg_wf;
use crate::spatial::{concrete_point_of, is_concrete_line, is_concrete_point, SpatialHashCache};
use crate::store::{ConcreteGeometry, Sketch};
use crate::viewport::Viewport;

verus! {

/// How close the cursor must be to snap to an existing point or a
/// line-line intersection, in screen units.
pub const SNAP_POINT_THRESHOLD: i64 = 10;

/// How close the cursor must be to snap onto a line, in screen units.
pub const SNAP_LINE_THRESHOLD: i64 = 6;

/// How close a click must be to select an object, in screen units.
pub const SELECT_THRESHOLD: i64 = 5;

/// What the cursor snaps to: an existing point, a line, the
/// intersection of two lines, or nothing.
#[derive(Clone, Copy, PartialEq, Eq, Structural, Debug)]
pub enum SnapTarget {
    SnapPoint(u64),
    SnapLine(u64),
    SnapIntersection(u64, u64, Vector2),
    NoSnap,
}

/// The resolved origin of a line object.
pub open spec fn line_origin_of(sk: Sketch, h: u64) -> Vector2
    recommends
        is_concrete_line(sk, h),
{
    match sk.concrete_spec(h) {
        Some(ConcreteGeometry::Line(o, d)) => o,
        _ => Vector2 { x: 0, y: 0 },
    }
}

/// The resolved direction of a line object.
pub open spec fn line_dir_of(sk: Sketch, h: u64) -> Vector2
    recommends
        is_concrete_line(sk, h),
{
    match sk.concrete_spec(h) {
        Some(ConcreteGeometry::Line(o, d)) => d,
        _ => Vector2 { x: 1, y: 0 },
    }
}

/// `h` is a resolved point among the cursor's spatial-hash neighbors,
/// within `thr` of the cursor (exact squared distances).
#[verifier::opaque]
pub open spec fn point_candidate(
    sk: Sketch,
    vp: Viewport,
    cache: SpatialHashCache,
    cur: Vector2,
    thr: int,
    h: u64,
) -> bool {
    cache.is_neighbor(cur, h) && sk.live(h) && is_concrete_point(sk, h) && point_dist(
        sk,
        vp,
        cur,
        h,
    ) <= thr * thr
}

/// The exact squared screen distance from the cursor to a point object.
#[verifier::opaque]
pub open spec fn point_dist(sk: Sketch, vp: Viewport, cur: Vector2, h: u64) -> int {
    dist2(vp.to_actual_spec(concrete_point_of(sk, h)), cur)
}

/// `h` is a resolved line among the cursor's spatial-hash neighbors,
/// within `thr` of the cursor (exact squared distances).
#[verifier::opaque]
pub open spec fn line_candidate(
    sk: Sketch,
    vp: Viewport,
    cache: SpatialHashCache,
    cur: Vector2,
    thr: int,
    h: u64,
) -> bool {
    cache.is_neighbor(cur, h) && sk.live(h) && is_concrete_line(sk, h) && within_line_dist(
        cur,
        vp.to_actual_spec(line_origin_of(sk, h)),
        line_dir_of(sk, h),
        thr,
    )
}

/// The grid-truncated squared screen distance from the cursor to a
/// line object.
#[verifier::opaque]
pub open spec fn line_dist(sk: Sketch, vp: Viewport, cur: Vector2, h: u64) -> int {
    line_q(cur, vp.to_actual_spec(line_origin_of(sk, h)), line_dir_of(sk, h))
}

/// The best point candidate within `thr` of the cursor: smallest exact
/// squared distance, ties to the lowest handle; nothing when no point
/// qualifies.
#[verifier::rlimit(90)]
pub fn best_point_candidate(
    sketch: &Sketch,
    viewport: &Viewport,
    cache: &SpatialHashCache,
    neighbors: &Vec<u64>,
    cursor: Vector2,
    threshold: i64,
) -> (r: Option<u64>)
    requires
        sketch.wf(),
        sketch.solved(),
        viewport.vp_ok(),
        dir_coord_ok(cursor.x as int),
        dir_coord_ok(cursor.y as int),
        0 <= threshold <= COORD_LIMIT,
        forall|h: u64| #[trigger] neighbors@.contains(h) <==> cache.is_neighbor(cursor, h),
    ensures
        match r {
            Some(h) => point_candidate(*sketch, *viewport, *cache, cursor, threshold as int, h)
                && forall|h2: u64|
                #[trigger] point_candidate(
                    *sketch,
                    *viewport,
                    *cache,
                    cursor,
                    threshold as int,
                    h2,
                ) ==> point_dist(*sketch, *viewport, cursor, h) < point_dist(
                    *sketch,
                    *viewport,
                    cursor,
                    h2,
                ) || (point_dist(*sketch, *viewport, cursor, h) == point_dist(
                    *sketch,
                    *viewport,
                    cursor,
                    h2,
                ) && h <= h2),
            None => forall|h2: u64|
                !#[trigger] point_candidate(
                    *sketch,
                    *viewport,
                    *cache,
                    cursor,
                    threshold as int,
                    h2,
                ),
        },
{
    proof {
        sketch.lemma_solved_cg_wf();
    }
    let mut have = false;
    let mut bh: u64 = 0;
    let mut bd: i128 = 0;
    let n = neighbors.len();
    proof {
        assert forall|k: int| 0 <= k < neighbors@.len() implies cache.is_neighbor(
            cursor,
            #[trigger] neighbors@[k],
        ) by {
            assert(neighbors@.contains(neighbors@[k]));
        }
    }
    for i in 0..n
        invariant
            n == neighbors@.len(),
            sketch.wf(),
            viewport.vp_ok(),
            dir_coord_ok(cursor.x as int),
            dir_coord_ok(cursor.y as int),
            0 <= threshold <= COORD_LIMIT,
            forall|k: int|
                0 <= k < sketch.objects@.len() ==> ((#[trigger] sketch.objects@[k]).concrete
                    matches Some(c) ==> cg_wf(c)),
            forall|k: int|
                0 <= k < n ==> cache.is_neighbor(cursor, #[trigger] neighbors@[k]),
            have ==> point_candidate(*sketch, *viewport, *cache, cursor, threshold as int, bh)
                && bd == point_dist(*sketch, *viewport, cursor, bh),
            have ==> forall|k: int|
                0 <= k < i && #[trigger] point_candidate(
                    *sketch,
                    *viewport,
                    *cache,
                    cursor,
                    threshold as int,
                    neighbors@[k],
                ) ==> bd < point_dist(*sketch, *viewport, cursor, neighbors@[k]) || (bd
                    == point_dist(*sketch, *viewport, cursor, neighbors@[k]) && bh
                    <= neighbors@[k]),
            !have ==> forall|k: int|
                0 <= k < i ==> !#[trigger] point_candidate(
                    *sketch,
                    *viewport,
                    *cache,
                    cursor,
                    threshold as int,
                    neighbors@[k],
                ),
    {
        let h = neighbors[i];
        proof {
            assert(cache.is_neighbor(cursor, neighbors@[i as int]));
        }
        let mut is_cand = false;
        let mut d: i128 = 0;
        match sketch.concrete_of(h) {
            Some(ConcreteGeometry::Point(v)) => {
                proof {
                    sketch.lemma_idx(h);
                    assert(sketch.objects@[sketch.idx(h)].concrete == sketch.concrete_spec(h));
                    assert(cg_wf(ConcreteGeometry::Point(v)));
                }
                let a = viewport.to_actual(v);
                d = dist_sq(a, cursor);
                proof {
                    crate::geom::lemma_mul_bound(
                        threshold as int,
                        threshold as int,
                        100_000_000,
                        100_000_000,
                    );
                }
                let t2: i128 = (threshold as i128) * (threshold as i128);
                proof {
                    reveal(crate::snap::point_dist);
                    assert(concrete_point_of(*sketch, h) == v);
                    assert(d == point_dist(*sketch, *viewport, cursor, h));
                }
                if d <= t2 {
                    is_cand = true;
                    proof {
                        reveal(crate::snap::point_candidate);
                        assert(point_candidate(
                            *sketch,
                            *viewport,
                            *cache,
                            cursor,
                            threshold as int,
                            h,
                        ));
                    }
                } else {
                    proof {
                        reveal(crate::snap::point_candidate);
                    }
                }
            },
            _ => {
                proof {
                    reveal(crate::snap::point_candidate);
                    if sketch.live(h) {
                        sketch.lemma_idx(h);
                        assert(sketch.objects@[sketch.idx(h)].concrete == sketch.concrete_spec(
                            h,
                        ));
                    }
                    assert(!point_candidate(
                        *sketch,
                        *viewport,
                        *cache,
                        cursor,
                        threshold as int,
                        h,
                    ));
                }
            },
        }
        if is_cand {
            if !have || d < bd || (d == bd && h < bh) {
                have = true;
                bh = h;
                bd = d;
            }
        }
    }
    proof {
        if have {
            assert forall|h2: u64|
                #[trigger] point_candidate(
                    *sketch,
                    *viewport,
                    *cache,
                    cursor,
                    threshold as int,
                    h2,
                ) implies bd < point_dist(*sketch, *viewport, cursor, h2) || (bd == point_dist(
                *sketch,
                *viewport,
                cursor,
                h2,
            ) && bh <= h2) by {
                reveal(crate::snap::point_candidate);
                assert(cache.is_neighbor(cursor, h2));
                assert(neighbors@.contains(h2));
                let k = choose|k: int| 0 <= k < neighbors@.len() && neighbors@[k] == h2;
                assert(point_candidate(
                    *sketch,
                    *viewport,
                    *cache,
                    cursor,
                    threshold as int,
                    neighbors@[k],
                ));
            }
        } else {
            assert forall|h2: u64|
                !#[trigger] point_candidate(
                    *sketch,
                    *viewport,
                    *cache,
                    cursor,
                    threshold as int,
                    h2,
                ) by {
                if point_candidate(*sketch, *viewport, *cache, cursor, threshold as int, h2) {
                    reveal(crate::snap::point_candidate);
                    assert(neighbors@.contains(h2));
                    let k = choose|k: int| 0 <= k < neighbors@.len() && neighbors@[k] == h2;
                    assert(point_candidate(
                        *sketch,
                        *viewport,
                        *cache,
                        cursor,
                        threshold as int,
                        neighbors@[k],
                    ));
                }
            }
        }
    }
    if have {
        Some(bh)
    } else {
        None
    }
}

/// The best line candidate within `thr` of the cursor: smallest
/// grid-truncated squared distance, ties to the lowest handle; nothing
/// when no line qualifies.
#[verifier::rlimit(90)]
pub fn best_line_candidate(
    sketch: &Sketch,
    viewport: &Viewport,
    cache: &SpatialHashCache,
    neighbors: &Vec<u64>,
    cursor: Vector2,
    threshold: i64,
) -> (r: Option<u64>)
    requires
        sketch.wf(),
        sketch.solved(),
        viewport.vp_ok(),
        dir_coord_ok(cursor.x as int),
        dir_coord_ok(cursor.y as int),
        0 <= threshold <= COORD_LIMIT,
        forall|h: u64| #[trigger] neighbors@.contains(h) <==> cache.is_neighbor(cursor, h),
    ensures
        match r {
            Some(h) => line_candidate(*sketch, *viewport, *cache, cursor, threshold as int, h)
                && forall|h2: u64|
                #[trigger] line_candidate(
                    *sketch,
                    *viewport,
                    *cache,
                    cursor,
                    threshold as int,
                    h2,
                ) ==> line_dist(*sketch, *viewport, cursor, h) < line_dist(
                    *sketch,
                    *viewport,
                    cursor,
                    h2,
                ) || (line_dist(*sketch, *viewport, cursor, h) == line_dist(
                    *sketch,
                    *viewport,
                    cursor,
                    h2,
                ) && h <= h2),
            None => forall|h2: u64|
                !#[trigger] line_candidate(
                    *sketch,
                    *viewport,
                    *cache,
                    cursor,
                    threshold as int,
                    h2,
                ),
        },
{
    proof {
        sketch.lemma_solved_cg_wf();
    }
    let mut have = false;
    let mut bh: u64 = 0;
    let mut bd: i128 = 0;
    let n = neighbors.len();
    proof {
        assert forall|k: int| 0 <= k < neighbors@.len() implies cache.is_neighbor(
            cursor,
            #[trigger] neighbors@[k],
        ) by {
            assert(neighbors@.contains(neighbors@[k]));
        }
    }
    for i in 0..n
        invariant
            n == neighbors@.len(),
            sketch.wf(),
            viewport.vp_ok(),
            dir_coord_ok(cursor.x as int),
            dir_coord_ok(cursor.y as int),
            0 <= threshold <= COORD_LIMIT,
            forall|k: int|
                0 <= k < sketch.objects@.len() ==> ((#[trigger] sketch.objects@[k]).concrete
                    matches Some(c) ==> cg_wf(c)),
            forall|k: int|
                0 <= k < n ==> cache.is_neighbor(cursor, #[trigger] neighbors@[k]),
            have ==> line_candidate(*sketch, *viewport, *cache, cursor, threshold as int, bh)
                && bd == line_dist(*sketch, *viewport, cursor, bh),
            have ==> forall|k: int|
                0 <= k < i && #[trigger] line_candidate(
                    *sketch,
                    *viewport,
                    *cache,
                    cursor,
                    threshold as int,
                    neighbors@[k],
                ) ==> bd < line_dist(*sketch, *viewport, cursor, neighbors@[k]) || (bd == line_dist(
                    *sketch,
                    *viewport,
                    cursor,
                    neighbors@[k],
                ) && bh <= neighbors@[k]),
            !have ==> forall|k: int|
                0 <= k < i ==> !#[trigger] line_candidate(
                    *sketch,
                    *viewport,
                    *cache,
                    cursor,
                    threshold as int,
                    neighbors@[k],
                ),
    {
        let h = neighbors[i];
        proof {
            assert(cache.is_neighbor(cursor, neighbors@[i as int]));
        }
        let mut is_cand = false;
        let mut d: i128 = 0;
        match sketch.concrete_of(h) {
            Some(ConcreteGeometry::Line(o, dd)) => {
                proof {
                    sketch.lemma_idx(h);
                    assert(sketch.objects@[sketch.idx(h)].concrete == sketch.concrete_spec(h));
                    assert(cg_wf(ConcreteGeometry::Line(o, dd)));
                    assert(line_origin_of(*sketch, h) == o);
                    assert(line_dir_of(*sketch, h) == dd);
                }
                let a = viewport.to_actual(o);
                if line_within(cursor, a, dd, threshold) {
                    is_cand = true;
                    d = line_metric(cursor, a, dd);
                    proof {
                        reveal(crate::snap::line_candidate);
                        reveal(crate::snap::line_dist);
                        assert(line_candidate(
                            *sketch,
                            *viewport,
                            *cache,
                            cursor,
                            threshold as int,
                            h,
                        ));
                        assert(d == line_dist(*sketch, *viewport, cursor, h));
                    }
                } else {
                    proof {
                        reveal(crate::snap::line_candidate);
                    }
                }
            },
            _ => {
                proof {
                    reveal(crate::snap::line_candidate);
                    if sketch.live(h) {
                        sketch.lemma_idx(h);
                        assert(sketch.objects@[sketch.idx(h)].concrete == sketch.concrete_spec(
                            h,
                        ));
                    }
                    assert(!line_candidate(
                        *sketch,
                        *viewport,
                        *cache,
                        cursor,
                        threshold as int,
                        h,
                    ));
                }
            },
        }
        if is_cand {
            if !have || d < bd || (d == bd && h < bh) {
                have = true;
                bh = h;
                bd = d;
            }
        }
    }
    proof {
        if have {
            assert forall|h2: u64|
                #[trigger] line_candidate(
                    *sketch,
                    *viewport,
                    *cache,
                    cursor,
                    threshold as int,
                    h2,
                ) implies bd < line_dist(*sketch, *viewport, cursor, h2) || (bd == line_dist(
                *sketch,
                *viewport,
                cursor,
                h2,
            ) && bh <= h2) by {
                reveal(crate::snap::line_candidate);
                assert(cache.is_neighbor(cursor, h2));
                assert(neighbors@.contains(h2));
                let k = choose|k: int| 0 <= k < neighbors@.len() && neighbors@[k] == h2;
                assert(line_candidate(
                    *sketch,
                    *viewport,
                    *cache,
                    cursor,
                    threshold as int,
                    neighbors@[k],
                ));
            }
        } else {
            assert forall|h2: u64|
                !#[trigger] line_candidate(
                    *sketch,
                    *viewport,
                    *cache,
                    cursor,
                    threshold as int,
                    h2,
                ) by {
                if line_candidate(*sketch, *viewport, *cache, cursor, threshold as int, h2) {
                    reveal(crate::snap::line_candidate);
                    assert(neighbors@.contains(h2));
                    let k = choose|k: int| 0 <= k < neighbors@.len() && neighbors@[k] == h2;
                    assert(line_candidate(
                        *sketch,
                        *viewport,
                        *cache,
                        cursor,
                        threshold as int,
                        neighbors@[k],
                    ));
                }
            }
        }
    }
    if have {
        Some(bh)
    } else {
        None
    }
}

/// Find the object under the cursor: the closest point within the
/// threshold, or failing that the closest line — points take priority
/// over lines, ties go to the lowest handle.
pub fn hitting_object(
    mouse_pos: Vector2,
    viewport: &Viewport,
    spatial_table: &SpatialHashCache,
    sketch: &Sketch,
    threshold: i64,
) -> (r: Option<u64>)
    requires
        sketch.wf(),
        sketch.solved(),
        viewport.vp_ok(),
        dir_coord_ok(mouse_pos.x as int),
        dir_coord_ok(mouse_pos.y as int),
        0 <= threshold <= COORD_LIMIT,
    ensures
        (exists|h: u64|
            #[trigger] point_candidate(
                *sketch,
                *viewport,
                *spatial_table,
                mouse_pos,
                threshold as int,
                h,
            )) ==> (r matches Some(h) && point_candidate(
            *sketch,
            *viewport,
            *spatial_table,
            mouse_pos,
            threshold as int,
            h,
        ) && (forall|h2: u64|
            #[trigger] point_candidate(
                *sketch,
                *viewport,
                *spatial_table,
                mouse_pos,
                threshold as int,
                h2,
            ) ==> point_dist(*sketch, *viewport, mouse_pos, h) < point_dist(
                *sketch,
                *viewport,
                mouse_pos,
                h2,
            ) || (point_dist(*sketch, *viewport, mouse_pos, h) == point_dist(
                *sketch,
                *viewport,
                mouse_pos,
                h2,
            ) && h <= h2))),
        (!(exists|h: u64|
            #[trigger] point_candidate(
                *sketch,
                *viewport,
                *spatial_table,
                mouse_pos,
                threshold as int,
                h,
            )) && (exists|h: u64|
            #[trigger] line_candidate(
                *sketch,
                *viewport,
                *spatial_table,
                mouse_pos,
                threshold as int,
                h,
            ))) ==> (r matches Some(h) && line_candidate(
            *sketch,
            *viewport,
            *spatial_table,
            mouse_pos,
            threshold as int,
            h,
        ) && (forall|h2: u64|
            #[trigger] line_candidate(
                *sketch,
                *viewport,
                *spatial_table,
                mouse_pos,
                threshold as int,
                h2,
            ) ==> line_dist(*sketch, *viewport, mouse_pos, h) < line_dist(
                *sketch,
                *viewport,
                mouse_pos,
                h2,
            ) || (line_dist(*sketch, *viewport, mouse_pos, h) == line_dist(
                *sketch,
                *viewport,
                mouse_pos,
                h2,
            ) && h <= h2))),
        (!(exists|h: u64|
            #[trigger] point_candidate(
                *sketch,
                *viewport,
                *spatial_table,
                mouse_pos,
                threshold as int,
                h,
            )) && !(exists|h: u64|
            #[trigger] line_candidate(
                *sketch,
                *viewport,
                *spatial_table,
                mouse_pos,
                threshold as int,
                h,
            ))) ==> r is None,
{
    let neighbors = spatial_table.neighbors_of(mouse_pos);
    let bp = best_point_candidate(sketch, viewport, spatial_table, &neighbors, mouse_pos, threshold);
    match bp {
        Some(h) => Some(h),
        None => best_line_candidate(
            sketch,
            viewport,
            spatial_table,
            &neighbors,
            mouse_pos,
            threshold,
        ),
    }
}

/// Lines `a` and `b` are distinct neighbor candidates whose
/// intersection `p` lies within `thr` of the cursor.
#[verifier::opaque]
pub open spec fn intersection_candidate(
    sk: Sketch,
    vp: Viewport,
    cache: SpatialHashCache,
    cur: Vector2,
    thr: int,
    a: u64,
    b: u64,
    p: Vector2,
) -> bool {
    cache.is_neighbor(cur, a) && cache.is_neighbor(cur, b) && a != b && sk.live(a) && sk.live(b)
        && is_concrete_line(sk, a) && is_concrete_line(sk, b) && line_intersection(
        line_origin_of(sk, a),
        line_dir_of(sk, a),
        line_origin_of(sk, b),
        line_dir_of(sk, b),
    ) == Some(p) && dist2(vp.to_actual_spec(p), cur) <= thr * thr
}

/// What the cursor snaps to while placing a point: the closest point
/// within the point threshold; failing that the closest line within the
/// line threshold; failing that a line-line intersection within the
/// point threshold; else nothing.  Points take priority over lines and
/// lines over intersections.
pub fn snap_target(
    cursor: Vector2,
    viewport: &Viewport,
    spatial_table: &SpatialHashCache,
    sketch: &Sketch,
) -> (r: SnapTarget)
    requires
        sketch.wf(),
        sketch.solved(),
        viewport.vp_ok(),
        dir_coord_ok(cursor.x as int),
        dir_coord_ok(cursor.y as int),
    ensures
        (exists|h: u64|
            #[trigger] point_candidate(
                *sketch,
                *viewport,
                *spatial_table,
                cursor,
                SNAP_POINT_THRESHOLD as int,
                h,
            )) ==> (r matches SnapTarget::SnapPoint(h) && point_candidate(
            *sketch,
            *viewport,
            *spatial_table,
            cursor,
            SNAP_POINT_THRESHOLD as int,
            h,
        ) && (forall|h2: u64|
            #[trigger] point_candidate(
                *sketch,
                *viewport,
                *spatial_table,
                cursor,
                SNAP_POINT_THRESHOLD as int,
                h2,
            ) ==> point_dist(*sketch, *viewport, cursor, h) < point_dist(
                *sketch,
                *viewport,
                cursor,
                h2,
            ) || (point_dist(*sketch, *viewport, cursor, h) == point_dist(
                *sketch,
                *viewport,
                cursor,
                h2,
            ) && h <= h2))),
        (!(exists|h: u64|
            #[trigger] point_candidate(
                *sketch,
                *viewport,
                *spatial_table,
                cursor,
                SNAP_POINT_THRESHOLD as int,
                h,
            )) && (exists|h: u64|
            #[trigger] line_candidate(
                *sketch,
                *viewport,
                *spatial_table,
                cursor,
                SNAP_LINE_THRESHOLD as int,
                h,
            ))) ==> (r matches SnapTarget::SnapLine(h) && line_candidate(
            *sketch,
            *viewport,
            *spatial_table,
            cursor,
            SNAP_LINE_THRESHOLD as int,
            h,
        ) && (forall|h2: u64|
            #[trigger] line_candidate(
                *sketch,
                *viewport,
                *spatial_table,
                cursor,
                SNAP_LINE_THRESHOLD as int,
                h2,
            ) ==> line_dist(*sketch, *viewport, cursor, h) < line_dist(
                *sketch,
                *viewport,
                cursor,
                h2,
            ) || (line_dist(*sketch, *viewport, cursor, h) == line_dist(
                *sketch,
                *viewport,
                cursor,
                h2,
            ) && h <= h2))),
        r matches SnapTarget::SnapIntersection(a, b, p) ==> !(exists|h: u64|
            #[trigger] point_candidate(
                *sketch,
                *viewport,
                *spatial_table,
                cursor,
                SNAP_POINT_THRESHOLD as int,
                h,
            )) && !(exists|h: u64|
            #[trigger] line_candidate(
                *sketch,
                *viewport,
                *spatial_table,
                cursor,
                SNAP_LINE_THRESHOLD as int,
                h,
            )) && intersection_candidate(
            *sketch,
            *viewport,
            *spatial_table,
            cursor,
            SNAP_POINT_THRESHOLD as int,
            a,
            b,
            p,
        ),
        r is NoSnap ==> !(exists|h: u64|
            #[trigger] point_candidate(
                *sketch,
                *viewport,
                *spatial_table,
                cursor,
                SNAP_POINT_THRESHOLD as int,
                h,
            )) && !(exists|h: u64|
            #[trigger] line_candidate(
                *sketch,
                *viewport,
                *spatial_table,
                cursor,
                SNAP_LINE_THRESHOLD as int,
                h,
            )),
{
    let neighbors = spatial_table.neighbors_of(cursor);
    if let Some(h) = best_point_candidate(
        sketch,
        viewport,
        spatial_table,
        &neighbors,
        cursor,
        SNAP_POINT_THRESHOLD,
    ) {
        return SnapTarget::SnapPoint(h);
    }
    if let Some(h) = best_line_candidate(
        sketch,
        viewport,
        spatial_table,
        &neighbors,
        cursor,
        SNAP_LINE_THRESHOLD,
    ) {
        return SnapTarget::SnapLine(h);
    }
    proof {
        sketch.lemma_solved_cg_wf();
    }
    let mut have = false;
    let mut ba: u64 = 0;
    let mut bb: u64 = 0;
    let mut bp = Vector2 { x: 0, y: 0 };
    let mut bd: i128 = 0;
    let n = neighbors.len();
    proof {
        assert forall|k: int| 0 <= k < neighbors@.len() implies spatial_table.is_neighbor(
            cursor,
            #[trigger] neighbors@[k],
        ) by {
            assert(neighbors@.contains(neighbors@[k]));
        }
    }
    for i in 0..n
        invariant
            n == neighbors@.len(),
            sketch.wf(),
            viewport.vp_ok(),
            dir_coord_ok(cursor.x as int),
            dir_coord_ok(cursor.y as int),
            neighbors@.no_duplicates(),
            forall|k: int|
                0 <= k < sketch.objects@.len() ==> ((#[trigger] sketch.objects@[k]).concrete
                    matches Some(c) ==> cg_wf(c)),
            forall|k: int|
                0 <= k < n ==> spatial_table.is_neighbor(cursor, #[trigger] neighbors@[k]),
            have ==> intersection_candidate(
                *sketch,
                *viewport,
                *spatial_table,
                cursor,
                SNAP_POINT_THRESHOLD as int,
                ba,
                bb,
                bp,
            ),
    {
        let h1 = neighbors[i];
        let g1 = sketch.concrete_of(h1);
        if let Some(ConcreteGeometry::Line(o1, d1)) = g1 {
            proof {
                sketch.lemma_idx(h1);
                assert(sketch.objects@[sketch.idx(h1)].concrete == sketch.concrete_spec(h1));
                assert(cg_wf(ConcreteGeometry::Line(o1, d1)));
            }
            for j in (i + 1)..n
                invariant
                    i < n,
                    n == neighbors@.len(),
                    sketch.wf(),
                    viewport.vp_ok(),
                    dir_coord_ok(cursor.x as int),
                    dir_coord_ok(cursor.y as int),
                    neighbors@.no_duplicates(),
                    forall|k: int|
                        0 <= k < sketch.objects@.len() ==> ((
                        #[trigger] sketch.objects@[k]).concrete matches Some(c) ==> cg_wf(c)),
                    forall|k: int|
                        0 <= k < n ==> spatial_table.is_neighbor(cursor, #[trigger] neighbors@[k]),
                    h1 == neighbors@[i as int],
                    sketch.live(h1),
                    sketch.concrete_spec(h1) == Some(ConcreteGeometry::Line(o1, d1)),
                    cg_wf(ConcreteGeometry::Line(o1, d1)),
                    have ==> intersection_candidate(
                        *sketch,
                        *viewport,
                        *spatial_table,
                        cursor,
                        SNAP_POINT_THRESHOLD as int,
                        ba,
                        bb,
                        bp,
                    ),
            {
                let h2 = neighbors[j];
                let g2 = sketch.concrete_of(h2);
                if let Some(ConcreteGeometry::Line(o2, d2)) = g2 {
                    proof {
                        sketch.lemma_idx(h2);
                        assert(sketch.objects@[sketch.idx(h2)].concrete == sketch.concrete_spec(
                            h2,
                        ));
                        assert(cg_wf(ConcreteGeometry::Line(o2, d2)));
                    }
                    if let Some(p) = crate::geom::intersect_lines(o1, d1, o2, d2) {
                        proof {
                            assert(in_workspace(p));
                        }
                        let a2 = viewport.to_actual(p);
                        let d = dist_sq(a2, cursor);
                        proof {
                            crate::geom::lemma_mul_bound(
                                SNAP_POINT_THRESHOLD as int,
                                SNAP_POINT_THRESHOLD as int,
                                100_000_000,
                                100_000_000,
                            );
                        }
                        let t2: i128 = (SNAP_POINT_THRESHOLD as i128) * (
                        SNAP_POINT_THRESHOLD as i128);
                        if d <= t2 {
                            if !have || d < bd {
                                proof {
                                    reveal(crate::snap::intersection_candidate);
                                    assert(neighbors@[i as int] != neighbors@[j as int]);
                                    assert(line_origin_of(*sketch, h1) == o1);
                                    assert(line_dir_of(*sketch, h1) == d1);
                                    assert(line_origin_of(*sketch, h2) == o2);
                                    assert(line_dir_of(*sketch, h2) == d2);
                                    assert(intersection_candidate(
                                        *sketch,
                                        *viewport,
                                        *spatial_table,
                                        cursor,
                                        SNAP_POINT_THRESHOLD as int,
                                        h1,
                                        h2,
                                        p,
                                    ));
                                }
                                have = true;
                                ba = h1;
                                bb = h2;
                                bp = p;
                                bd = d;
                            }
                        }
                    }
                }
            }
        }
    }
    if have {
        SnapTarget::SnapIntersection(ba, bb, bp)
    } else {
        SnapTarget::NoSnap
    }
}

} // verus!
