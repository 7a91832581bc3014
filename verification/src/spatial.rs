//! Spatial hash cache: a uniform grid over screen space for proximity
//! queries.
//!
//! Each resolved point is bucketed into the cell containing its
//! screen-space position.  A neighbor query returns everything in the
//! query cell and its eight surrounding cells, so nothing within one
//! cell size of the query point can be missed
//! ([`lemma_neighbors_no_false_negative`]); farther candidates may come
//! back too, and callers filter by exact distance.  Every resolved line
//! is kept as a candidate for every query: an unbounded line crosses a
//! band of cells the whole viewport wide, and the snap layer's exact
//! distance test does the real filtering.  The cache is rebuilt from
//! scratch after every solver pass or camera change.

use vstd::prelude::*;

use crate::geom::{abs_int, dir_coord_ok, dist2, Vector2};
use crate::graph::contains_u64;
use crate::solver::cg_wf;
use crate::store::{ConcreteGeometry, Sketch};
use crate::viewport::Viewport;
use vstd::arithmetic::div_mod::{lemma_div_is_ordered, lemma_div_plus_one};

verus! {

/// Side length of a grid cell, in screen units.  It is at least as
/// large as every snap threshold, so a query cell and its eight
/// neighbors cover everything within one threshold of the query point.
pub const CELL_SIZE: i64 = 16;

/// Shift that makes every screen coordinate nonnegative before the cell
/// division.
pub const CELL_OFFSET: i64 = 1_073_741_824;

/// The grid cell index of a screen coordinate.
pub open spec fn cell_coord(c: int) -> int {
    (c + CELL_OFFSET as int) / (CELL_SIZE as int)
}

/// The grid cell index of a screen coordinate.
pub fn cell_of(c: i64) -> (r: i64)
    requires
        dir_coord_ok(c as int),
    ensures
        r as int == cell_coord(c as int),
{
    (((c + CELL_OFFSET) as u64) / (CELL_SIZE as u64)) as i64
}

/// Screen coordinates within one cell size land in the same or an
/// adjacent cell column (and likewise for rows).
pub proof fn lemma_cell_proximity(a: int, b: int)
    requires
        abs_int(a - b) <= CELL_SIZE as int,
    ensures
        abs_int(cell_coord(a) - cell_coord(b)) <= 1,
{
    let c = CELL_SIZE as int;
    let sa = a + CELL_OFFSET as int;
    let sb = b + CELL_OFFSET as int;
    if sa <= sb {
        lemma_div_is_ordered(sa, sb, c);
        lemma_div_is_ordered(sb, sa + c, c);
        lemma_div_plus_one(sa, c);
    } else {
        lemma_div_is_ordered(sb, sa, c);
        lemma_div_is_ordered(sa, sb + c, c);
        lemma_div_plus_one(sb, c);
    }
}

/// One bucketed point: its handle and its grid cell.
#[derive(Clone, Copy, PartialEq, Eq, Structural, Debug)]
pub struct CellEntry {
    pub handle: u64,
    pub cx: i64,
    pub cy: i64,
}

/// Whether `h` currently resolves to a point in `sk`.
pub open spec fn is_concrete_point(sk: Sketch, h: u64) -> bool {
    sk.concrete_spec(h) matches Some(ConcreteGeometry::Point(v))
}

/// Whether `h` currently resolves to a line in `sk`.
pub open spec fn is_concrete_line(sk: Sketch, h: u64) -> bool {
    sk.concrete_spec(h) matches Some(ConcreteGeometry::Line(o, d))
}

/// The resolved position of a point object.
pub open spec fn concrete_point_of(sk: Sketch, h: u64) -> Vector2
    recommends
        is_concrete_point(sk, h),
{
    match sk.concrete_spec(h) {
        Some(ConcreteGeometry::Point(v)) => v,
        _ => Vector2 { x: 0, y: 0 },
    }
}

/// The bucket entry a resolved point belongs in under camera `vp`.
pub open spec fn entry_for(sk: Sketch, vp: Viewport, h: u64) -> CellEntry {
    CellEntry {
        handle: h,
        cx: cell_coord(vp.to_actual_spec(concrete_point_of(sk, h)).x as int) as i64,
        cy: cell_coord(vp.to_actual_spec(concrete_point_of(sk, h)).y as int) as i64,
    }
}

/// The spatial hash cache: bucketed resolved points, plus all resolved
/// lines as ever-present candidates.
pub struct SpatialHashCache {
    pub points: Vec<CellEntry>,
    pub lines: Vec<u64>,
}

impl SpatialHashCache {
    /// An empty cache.
    pub fn new() -> (r: SpatialHashCache)
        ensures
            r.points@.len() == 0,
            r.lines@.len() == 0,
    {
        SpatialHashCache { points: Vec::new(), lines: Vec::new() }
    }

    /// The cache reflects exactly the resolved geometry of `sk` as seen
    /// through camera `vp`.
    pub open spec fn consistent(self, sk: Sketch, vp: Viewport) -> bool {
        &&& forall|j: int|
            0 <= j < self.points@.len() ==> {
                let e = #[trigger] self.points@[j];
                sk.live(e.handle) && (sk.concrete_spec(e.handle) matches Some(
                    ConcreteGeometry::Point(v),
                ) && e.cx as int == cell_coord(vp.to_actual_spec(v).x as int) && e.cy as int
                    == cell_coord(vp.to_actual_spec(v).y as int))
            }
        &&& forall|h: u64|
            sk.live(h) && #[trigger] is_concrete_point(sk, h) ==> self.points@.contains(
                entry_for(sk, vp, h),
            )
        &&& forall|h: u64|
            #[trigger] self.lines@.contains(h) <==> sk.live(h) && is_concrete_line(sk, h)
    }

    /// Whether a neighbor query at screen position `p` yields `h`: every
    /// resolved line, and every bucketed point within one cell of `p`'s
    /// cell in both axes.
    pub open spec fn is_neighbor(self, p: Vector2, h: u64) -> bool {
        self.lines@.contains(h) || exists|j: int|
            0 <= j < self.points@.len() && (#[trigger] self.points@[j]).handle == h && abs_int(
                self.points@[j].cx - cell_coord(p.x as int),
            ) <= 1 && abs_int(self.points@[j].cy - cell_coord(p.y as int)) <= 1
    }

    /// Clear and repopulate the grid from the store's resolved geometry
    /// and the current camera.
    pub fn rebuild(&mut self, sk: &Sketch, vp: &Viewport)
        requires
            sk.wf(),
            sk.solved(),
            vp.vp_ok(),
        ensures
            final(self).consistent(*sk, *vp),
    {
        let mut points: Vec<CellEntry> = Vec::new();
        let mut lines: Vec<u64> = Vec::new();
        let n = sk.objects.len();
        proof {
            sk.lemma_solved_cg_wf();
        }
        for i in 0..n
            invariant
                n == sk.objects@.len(),
                sk.wf(),
                vp.vp_ok(),
                forall|k: int|
                    0 <= k < n ==> ((#[trigger] sk.objects@[k]).concrete matches Some(c) ==> cg_wf(
                        c,
                    )),
                forall|j: int|
                    0 <= j < points@.len() ==> {
                        let e = #[trigger] points@[j];
                        sk.live(e.handle) && (sk.concrete_spec(e.handle) matches Some(
                            ConcreteGeometry::Point(v),
                        ) && e.cx as int == cell_coord(vp.to_actual_spec(v).x as int)
                            && e.cy as int == cell_coord(vp.to_actual_spec(v).y as int))
                    },
                forall|k: int|
                    0 <= k < i && is_concrete_point(*sk, (#[trigger] sk.objects@[k]).handle)
                        ==> points@.contains(entry_for(*sk, *vp, sk.objects@[k].handle)),
                forall|h: u64|
                    #[trigger] lines@.contains(h) <==> exists|k: int|
                        0 <= k < i && (#[trigger] sk.objects@[k]).handle == h && is_concrete_line(
                            *sk,
                            sk.objects@[k].handle,
                        ),
        {
            let ob = sk.objects[i];
            proof {
                sk.lemma_idx_unique(ob.handle, i as int);
            }
            match ob.concrete {
                Some(ConcreteGeometry::Point(v)) => {
                    let a = vp.to_actual(v);
                    let e = CellEntry { handle: ob.handle, cx: cell_of(a.x), cy: cell_of(a.y) };
                    proof {
                        assert(sk.concrete_spec(ob.handle) == Some(ConcreteGeometry::Point(v)));
                        assert(concrete_point_of(*sk, ob.handle) == v);
                        assert(e == entry_for(*sk, *vp, ob.handle));
                    }
                    let ghost p0 = points@;
                    points.push(e);
                    proof {
                        crate::graph::lemma_push_contains_iff_gen(p0, e);
                        assert forall|k: int|
                            0 <= k < i + 1 && is_concrete_point(
                                *sk,
                                (#[trigger] sk.objects@[k]).handle,
                            ) implies points@.contains(
                            entry_for(*sk, *vp, sk.objects@[k].handle),
                        ) by {
                            if k < i {
                                assert(p0.contains(entry_for(*sk, *vp, sk.objects@[k].handle)));
                            }
                        }
                    }
                },
                Some(ConcreteGeometry::Line(_, _)) => {
                    let ghost l0 = lines@;
                    lines.push(ob.handle);
                    proof {
                        crate::graph::lemma_push_contains_iff(l0, ob.handle);
                        assert forall|h: u64| #[trigger] lines@.contains(h) implies exists|k: int|
                            0 <= k < i + 1 && (#[trigger] sk.objects@[k]).handle == h
                                && is_concrete_line(*sk, sk.objects@[k].handle) by {
                            if h == ob.handle {
                                assert(sk.objects@[i as int].handle == h);
                                assert(sk.concrete_spec(h) == sk.objects@[i as int].concrete);
                            } else {
                                assert(l0.contains(h));
                            }
                        }
                    }
                },
                None => {},
            }
        }
        self.points = points;
        self.lines = lines;
        proof {
            assert forall|h: u64|
                #[trigger] self.lines@.contains(h) <==> (sk.live(h) && is_concrete_line(
                *sk,
                h,
            )) by {
                if self.lines@.contains(h) {
                    let k = choose|k: int|
                        0 <= k < n && (#[trigger] sk.objects@[k]).handle == h && is_concrete_line(
                            *sk,
                            sk.objects@[k].handle,
                        );
                    sk.lemma_idx_unique(h, k);
                }
                if sk.live(h) && is_concrete_line(*sk, h) {
                    sk.lemma_idx(h);
                    sk.lemma_idx_unique(h, sk.idx(h));
                }
            }
            assert forall|h: u64|
                sk.live(h) && #[trigger] is_concrete_point(*sk, h) implies self.points@.contains(
                entry_for(*sk, *vp, h),
            ) by {
                sk.lemma_idx(h);
                sk.lemma_idx_unique(h, sk.idx(h));
            }
        }
    }

    /// All candidates near the screen position `p`: everything bucketed
    /// in `p`'s cell or one of its eight neighbors, and every resolved
    /// line; without duplicates, and empty when the cache is empty.
    pub fn neighbors_of(&self, p: Vector2) -> (r: Vec<u64>)
        requires
            dir_coord_ok(p.x as int),
            dir_coord_ok(p.y as int),
        ensures
            r@.no_duplicates(),
            forall|h: u64| #[trigger] r@.contains(h) <==> self.is_neighbor(p, h),
            self.points@.len() == 0 && self.lines@.len() == 0 ==> r@.len() == 0,
    {
        let mut r: Vec<u64> = Vec::new();
        let nl = self.lines.len();
        for i in 0..nl
            invariant
                nl == self.lines@.len(),
                r@.no_duplicates(),
                forall|h: u64|
                    #[trigger] r@.contains(h) <==> exists|k: int|
                        0 <= k < i && self.lines@[k] == h,
        {
            let h = self.lines[i];
            let ghost r0 = r@;
            if !contains_u64(&r, h) {
                r.push(h);
                proof {
                    crate::graph::lemma_push_no_dup(r0, h);
                    crate::graph::lemma_push_contains_iff(r0, h);
                }
            }
            proof {
                assert forall|hh: u64| #[trigger] r@.contains(hh) implies exists|k: int|
                    0 <= k < i + 1 && self.lines@[k] == hh by {
                    if hh == h {
                        assert(self.lines@[i as int] == hh);
                    } else {
                        assert(r0.contains(hh));
                    }
                }
                assert forall|k: int| 0 <= k < i + 1 implies r@.contains(
                    #[trigger] self.lines@[k],
                ) by {
                    if k < i {
                        assert(r0.contains(self.lines@[k]));
                    }
                }
            }
        }
        let ghost rl = r@;
        proof {
            assert forall|h: u64| #[trigger] rl.contains(h) <==> self.lines@.contains(h) by {
                if self.lines@.contains(h) {
                    let k = choose|k: int| 0 <= k < self.lines@.len() && self.lines@[k] == h;
                }
            }
        }
        let pcx = cell_of(p.x);
        let pcy = cell_of(p.y);
        let np = self.points.len();
        for j in 0..np
            invariant
                np == self.points@.len(),
                pcx as int == cell_coord(p.x as int),
                pcy as int == cell_coord(p.y as int),
                r@.no_duplicates(),
                forall|h: u64| #[trigger] rl.contains(h) <==> self.lines@.contains(h),
                forall|h: u64| rl.contains(h) ==> r@.contains(h),
                forall|h: u64|
                    #[trigger] r@.contains(h) ==> rl.contains(h) || exists|k: int|
                        0 <= k < self.points@.len() && (#[trigger] self.points@[k]).handle == h
                            && abs_int(self.points@[k].cx - cell_coord(p.x as int)) <= 1 && abs_int(
                            self.points@[k].cy - cell_coord(p.y as int),
                        ) <= 1,
                forall|k: int|
                    0 <= k < j && abs_int((#[trigger] self.points@[k]).cx - cell_coord(p.x as int))
                        <= 1 && abs_int(self.points@[k].cy - cell_coord(p.y as int)) <= 1
                        ==> r@.contains(self.points@[k].handle),
        {
            let e = self.points[j];
            let dx: i128 = e.cx as i128 - pcx as i128;
            let dy: i128 = e.cy as i128 - pcy as i128;
            let near = -1 <= dx && dx <= 1 && -1 <= dy && dy <= 1;
            if near {
                let ghost r0 = r@;
                if !contains_u64(&r, e.handle) {
                    r.push(e.handle);
                    proof {
                        crate::graph::lemma_push_no_dup(r0, e.handle);
                        crate::graph::lemma_push_contains_iff(r0, e.handle);
                        assert(self.points@[j as int].handle == e.handle);
                    }
                }
            }
        }
        proof {
            assert forall|h: u64| #[trigger] r@.contains(h) <==> self.is_neighbor(p, h) by {
                if r@.contains(h) {
                    if rl.contains(h) {
                        assert(self.lines@.contains(h));
                    } else {
                        let k = choose|k: int|
                            0 <= k < self.points@.len() && (#[trigger] self.points@[k]).handle == h
                                && abs_int(self.points@[k].cx - cell_coord(p.x as int)) <= 1
                                && abs_int(self.points@[k].cy - cell_coord(p.y as int)) <= 1;
                        assert(self.is_neighbor(p, h));
                    }
                }
                if self.is_neighbor(p, h) {
                    if self.lines@.contains(h) {
                        assert(rl.contains(h));
                        assert(r@.contains(h));
                    } else {
                        let k = choose|k: int|
                            0 <= k < self.points@.len() && (#[trigger] self.points@[k]).handle == h
                                && abs_int(self.points@[k].cx - cell_coord(p.x as int)) <= 1
                                && abs_int(self.points@[k].cy - cell_coord(p.y as int)) <= 1;
                        assert(r@.contains(self.points@[k].handle));
                    }
                }
            }
            if self.points@.len() == 0 && self.lines@.len() == 0 {
                if r@.len() > 0 {
                    assert(r@.contains(r@[0]));
                    assert(self.is_neighbor(p, r@[0]));
                }
            }
        }
        r
    }
}

/// A resolved point within one cell size of the query position is
/// always among the returned neighbors: no false negatives.
pub proof fn lemma_neighbors_no_false_negative(
    cache: SpatialHashCache,
    sk: Sketch,
    vp: Viewport,
    p: Vector2,
    h: u64,
    v: Vector2,
)
    requires
        cache.consistent(sk, vp),
        sk.live(h),
        sk.concrete_spec(h) == Some(ConcreteGeometry::Point(v)),
        dist2(vp.to_actual_spec(v), p) <= (CELL_SIZE as int) * (CELL_SIZE as int),
    ensures
        cache.is_neighbor(p, h),
{
    let a = vp.to_actual_spec(v);
    assert(abs_int(a.x - p.x) <= CELL_SIZE as int && abs_int(a.y - p.y) <= CELL_SIZE as int) by {
        let dx = a.x - p.x;
        let dy = a.y - p.y;
        assert(dx * dx >= 0 && dy * dy >= 0 && (abs_int(dx) > CELL_SIZE as int ==> dx * dx
            > (CELL_SIZE as int) * (CELL_SIZE as int)) && (abs_int(dy) > CELL_SIZE as int ==> dy
            * dy > (CELL_SIZE as int) * (CELL_SIZE as int))) by (nonlinear_arith);
    }
    lemma_cell_proximity(a.x as int, p.x as int);
    lemma_cell_proximity(a.y as int, p.y as int);
    assert(is_concrete_point(sk, h));
    assert(concrete_point_of(sk, h) == v);
    let e = entry_for(sk, vp, h);
    assert(cache.points@.contains(e));
    assert(e.cx as int == cell_coord(a.x as int) && e.cy as int == cell_coord(a.y as int));
    let j = choose|j: int| 0 <= j < cache.points@.len() && cache.points@[j] == e;
    assert(cache.points@[j].handle == h);
}

} // verus!
