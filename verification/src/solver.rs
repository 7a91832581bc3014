//! Solver: recomputes concrete geometry in dependency order.
//!
//! One pass walks the objects in the store's creation order, which the
//! dependency graph cache guarantees to be topological: every parent is
//! resolved before any object that depends on it.  Each object's cached
//! concrete geometry is replaced by the value of the resolution rules
//! ([`resolve_def`]) under the environment of already-resolved ancestors.
//! Absence is contagious: an object whose parent is absent, or whose
//! construction is degenerate (parallel lines, a zero direction, a
//! coordinate leaving the workspace), resolves to absent.
//!
//! The pass is a pure function of the symbolic content ([`solved_at`]),
//! which makes it idempotent: see [`lemma_solver_idempotent`].

use vstd::prelude::*;

use crate::geom::{
    dir_coord_ok, in_workspace, intersect_lines, line_intersection, on_line_point, on_line_spec,
    Vector2,
};
use crate::store::{
    def_payload_ok, ConcreteGeometry, GeoObject, Sketch, SymbolicDef, SymbolicLine, SymbolicPoint,
};

verus! {

/// The symbolic content of a store: handle and definition pairs, in
/// creation order.  Concrete geometry is no part of it, so a solver pass
/// leaves it unchanged.
pub open spec fn sym_view(objs: Seq<GeoObject>) -> Seq<(u64, SymbolicDef)> {
    objs.map_values(|o: GeoObject| (o.handle, o.def))
}

/// Resolved line geometry of `h` in an environment, if `h` is resolved
/// and is a line.
pub open spec fn env_line(env: Map<u64, ConcreteGeometry>, h: u64) -> Option<(Vector2, Vector2)> {
    if env.contains_key(h) {
        match env[h] {
            ConcreteGeometry::Line(o, d) => Some((o, d)),
            ConcreteGeometry::Point(_) => None,
        }
    } else {
        None
    }
}

/// Resolved position of `h` in an environment, if `h` is resolved and is
/// a point.
pub open spec fn env_point(env: Map<u64, ConcreteGeometry>, h: u64) -> Option<Vector2> {
    if env.contains_key(h) {
        match env[h] {
            ConcreteGeometry::Point(v) => Some(v),
            ConcreteGeometry::Line(_, _) => None,
        }
    } else {
        None
    }
}

/// The resolution rules: what a definition resolves to under an
/// environment of resolved ancestors.
pub open spec fn resolve_def(def: SymbolicDef, env: Map<u64, ConcreteGeometry>) -> Option<
    ConcreteGeometry,
> {
    match def {
        SymbolicDef::Point(SymbolicPoint::Free(v)) => Some(ConcreteGeometry::Point(v)),
        SymbolicDef::Point(SymbolicPoint::OnLine(l, t)) => match env_line(env, l) {
            Some(od) => match on_line_spec(od.0, od.1, t as int) {
                Some(p) => Some(ConcreteGeometry::Point(p)),
                None => None,
            },
            None => None,
        },
        SymbolicDef::Point(SymbolicPoint::LineLineIntersect(a, b)) => match env_line(env, a) {
            Some(od1) => match env_line(env, b) {
                Some(od2) => match line_intersection(od1.0, od1.1, od2.0, od2.1) {
                    Some(p) => Some(ConcreteGeometry::Point(p)),
                    None => None,
                },
                None => None,
            },
            None => None,
        },
        SymbolicDef::Line(SymbolicLine::Concrete(o, d)) => if d.x == 0 && d.y == 0 {
            None
        } else {
            Some(ConcreteGeometry::Line(o, d))
        },
        SymbolicDef::Line(SymbolicLine::TwoPoints(p, q)) => match env_point(env, p) {
            Some(a) => match env_point(env, q) {
                Some(b) => if a.x == b.x && a.y == b.y {
                    None
                } else {
                    Some(
                        ConcreteGeometry::Line(
                            a,
                            Vector2 { x: (b.x - a.x) as i64, y: (b.y - a.y) as i64 },
                        ),
                    )
                },
                None => None,
            },
            None => None,
        },
    }
}

/// The environment after resolving the first `n` objects: each resolved
/// handle maps to its concrete geometry, absent handles stay out.
pub open spec fn solve_env(syms: Seq<(u64, SymbolicDef)>, n: int) -> Map<u64, ConcreteGeometry>
    decreases n,
{
    if n <= 0 {
        Map::empty()
    } else {
        let m = solve_env(syms, n - 1);
        match resolve_def(syms[n - 1].1, m) {
            Some(c) => m.insert(syms[n - 1].0, c),
            None => m,
        }
    }
}

/// What the solver assigns to the object at position `i`.
pub open spec fn solved_at(syms: Seq<(u64, SymbolicDef)>, i: int) -> Option<ConcreteGeometry> {
    resolve_def(syms[i].1, solve_env(syms, i))
}

/// Well-formed concrete geometry: coordinates inside the workspace, line
/// directions bounded and nonzero.
pub open spec fn cg_wf(c: ConcreteGeometry) -> bool {
    match c {
        ConcreteGeometry::Point(v) => in_workspace(v),
        ConcreteGeometry::Line(o, d) => in_workspace(o) && dir_coord_ok(d.x as int)
            && dir_coord_ok(d.y as int) && !(d.x == 0 && d.y == 0),
    }
}

/// Every value of an environment is well formed.
pub open spec fn env_wf(env: Map<u64, ConcreteGeometry>) -> bool {
    forall|h: u64| #[trigger] env.contains_key(h) ==> cg_wf(env[h])
}

/// Resolution under a well-formed environment yields well-formed
/// geometry.
pub proof fn lemma_resolve_wf(def: SymbolicDef, env: Map<u64, ConcreteGeometry>)
    requires
        def_payload_ok(def),
        env_wf(env),
    ensures
        match resolve_def(def, env) {
            Some(c) => cg_wf(c),
            None => true,
        },
{
    match def {
        SymbolicDef::Point(SymbolicPoint::OnLine(l, _)) => {
            if env.contains_key(l) {
                assert(cg_wf(env[l]));
            }
        },
        SymbolicDef::Point(SymbolicPoint::LineLineIntersect(a, b)) => {
            if env.contains_key(a) {
                assert(cg_wf(env[a]));
            }
            if env.contains_key(b) {
                assert(cg_wf(env[b]));
            }
        },
        SymbolicDef::Line(SymbolicLine::TwoPoints(p, q)) => {
            if env.contains_key(p) {
                assert(cg_wf(env[p]));
            }
            if env.contains_key(q) {
                assert(cg_wf(env[q]));
            }
        },
        _ => {},
    }
}

/// The environments of a store with bounded definitions are well formed.
pub proof fn lemma_env_wf(syms: Seq<(u64, SymbolicDef)>, i: int)
    requires
        0 <= i <= syms.len(),
        forall|k: int| 0 <= k < syms.len() ==> def_payload_ok((#[trigger] syms[k]).1),
    ensures
        env_wf(solve_env(syms, i)),
    decreases i,
{
    if i > 0 {
        lemma_env_wf(syms, i - 1);
        let m = solve_env(syms, i - 1);
        lemma_resolve_wf(syms[i - 1].1, m);
        match resolve_def(syms[i - 1].1, m) {
            Some(c) => {
                assert forall|h: u64|
                    #[trigger] solve_env(syms, i).contains_key(h) implies cg_wf(
                    solve_env(syms, i)[h],
                ) by {
                    if h != syms[i - 1].0 {
                        assert(m.contains_key(h));
                    }
                }
            },
            None => {},
        }
    }
}

/// Whether the environment after `i` steps tracks the object at
/// position `k` exactly: present with its solved value, or absent.
pub open spec fn env_tracks(syms: Seq<(u64, SymbolicDef)>, i: int, k: int) -> bool {
    match solved_at(syms, k) {
        Some(c) => solve_env(syms, i).contains_key(syms[k].0) && solve_env(syms, i)[syms[k].0]
            == c,
        None => !solve_env(syms, i).contains_key(syms[k].0),
    }
}

/// With unique handles, the environment after `i` steps holds exactly
/// the resolved objects of the prefix, each at its solved value.
pub proof fn lemma_env_char(syms: Seq<(u64, SymbolicDef)>, i: int)
    requires
        0 <= i <= syms.len(),
        forall|a: int, b: int|
            0 <= a < b < syms.len() ==> (#[trigger] syms[a]).0 != (#[trigger] syms[b]).0,
    ensures
        forall|k: int| 0 <= k < i ==> #[trigger] env_tracks(syms, i, k),
        forall|h: u64|
            #[trigger] solve_env(syms, i).contains_key(h) ==> exists|k: int|
                0 <= k < i && (#[trigger] syms[k]).0 == h,
    decreases i,
{
    if i > 0 {
        lemma_env_char(syms, i - 1);
        let m = solve_env(syms, i - 1);
        let hi = syms[i - 1].0;
        if m.contains_key(hi) {
            let k = choose|k: int| 0 <= k < i - 1 && (#[trigger] syms[k]).0 == hi;
            assert(syms[k].0 != syms[i - 1].0);
            assert(false);
        }
        assert forall|k: int| 0 <= k < i implies #[trigger] env_tracks(syms, i, k) by {
            if k < i - 1 {
                assert(env_tracks(syms, i - 1, k));
                assert(syms[k].0 != hi);
            } else {
                assert(!m.contains_key(hi));
            }
        }
        assert forall|h: u64| #[trigger] solve_env(syms, i).contains_key(h) implies exists|k: int|
            0 <= k < i && (#[trigger] syms[k]).0 == h by {
            if m.contains_key(h) {
                let k = choose|k: int| 0 <= k < i - 1 && (#[trigger] syms[k]).0 == h;
                assert(0 <= k < i && syms[k].0 == h);
            } else {
                assert(syms[i - 1].0 == h);
            }
        }
    }
}

impl Sketch {
    /// The symbolic content of this store.
    pub open spec fn syms(self) -> Seq<(u64, SymbolicDef)> {
        sym_view(self.objects@)
    }

    /// Every cached concrete value equals what the resolution rules give
    /// it under the store's own symbolic content.
    pub open spec fn solved(self) -> bool {
        forall|i: int|
            0 <= i < self.objects@.len() ==> (#[trigger] self.objects@[i]).concrete == solved_at(
                self.syms(),
                i,
            )
    }

    /// In a solved, well-formed store every cached concrete value is
    /// well-formed geometry.
    pub proof fn lemma_solved_cg_wf(self)
        requires
            self.wf(),
            self.solved(),
        ensures
            forall|k: int|
                0 <= k < self.objects@.len() ==> ((#[trigger] self.objects@[k]).concrete matches
                Some(c) ==> cg_wf(c)),
    {
        assert forall|j: int| 0 <= j < self.syms().len() implies def_payload_ok(
            (#[trigger] self.syms()[j]).1,
        ) by {
            assert(self.syms()[j].1 == self.objects@[j].def);
        }
        assert forall|k: int|
            0 <= k < self.objects@.len() implies ((#[trigger] self.objects@[k]).concrete matches
        Some(c) ==> cg_wf(c)) by {
            assert(self.objects@[k].concrete == solved_at(self.syms(), k));
            lemma_env_wf(self.syms(), k);
            lemma_resolve_wf(self.syms()[k].1, solve_env(self.syms(), k));
        }
    }

    /// Under `wf`, positions carry distinct handles.
    proof fn lemma_syms_nodup(self)
        requires
            self.wf(),
        ensures
            forall|a: int, b: int|
                0 <= a < b < self.syms().len() ==> (#[trigger] self.syms()[a]).0 != (
                #[trigger] self.syms()[b]).0,
    {
        assert forall|a: int, b: int|
            0 <= a < b < self.syms().len() implies (#[trigger] self.syms()[a]).0 != (
        #[trigger] self.syms()[b]).0 by {
            assert(self.graph.handles().len() == self.graph.nodes@.len());
            assert(self.handles().len() == self.objects@.len());
            assert(self.graph.nodes@[a].handle == self.graph.handles()[a]);
            assert(self.graph.nodes@[b].handle == self.graph.handles()[b]);
            assert(self.graph.nodes@[a].handle != self.graph.nodes@[b].handle);
        }
    }

    /// Find the resolved line geometry of `h` among the first `i`
    /// already-solved objects.
    fn lookup_line(&self, h: u64, i: usize) -> (r: Option<(Vector2, Vector2)>)
        requires
            self.wf(),
            i <= self.objects@.len(),
            forall|k: int|
                0 <= k < i ==> (#[trigger] self.objects@[k]).concrete == solved_at(
                    sym_view(self.objects@),
                    k,
                ),
        ensures
            r == env_line(solve_env(sym_view(self.objects@), i as int), h),
    {
        proof {
            self.lemma_syms_nodup();
            lemma_env_char(self.syms(), i as int);
        }
        for k in 0..i
            invariant
                i <= self.objects@.len(),
                self.wf(),
                forall|kk: int|
                    0 <= kk < i ==> (#[trigger] self.objects@[kk]).concrete == solved_at(
                        sym_view(self.objects@),
                        kk,
                    ),
                forall|kk: int| 0 <= kk < k ==> (#[trigger] self.objects@[kk]).handle != h,
                forall|kk: int| 0 <= kk < i ==> #[trigger] env_tracks(self.syms(), i as int, kk),
                forall|hh: u64|
                    #[trigger] solve_env(self.syms(), i as int).contains_key(hh) ==> exists|kk: int|
                        0 <= kk < i && (#[trigger] self.syms()[kk]).0 == hh,
        {
            if self.objects[k].handle == h {
                proof {
                    assert(env_tracks(self.syms(), i as int, k as int));
                    assert(self.syms()[k as int].0 == h);
                }
                match self.objects[k].concrete {
                    Some(ConcreteGeometry::Line(o, d)) => {
                        return Some((o, d));
                    },
                    _ => {
                        return None;
                    },
                }
            }
        }
        proof {
            if solve_env(self.syms(), i as int).contains_key(h) {
                let kk = choose|kk: int| 0 <= kk < i && (#[trigger] self.syms()[kk]).0 == h;
                assert(self.objects@[kk].handle == h);
            }
        }
        None
    }

    /// Find the resolved position of `h` among the first `i`
    /// already-solved objects.
    fn lookup_point(&self, h: u64, i: usize) -> (r: Option<Vector2>)
        requires
            self.wf(),
            i <= self.objects@.len(),
            forall|k: int|
                0 <= k < i ==> (#[trigger] self.objects@[k]).concrete == solved_at(
                    sym_view(self.objects@),
                    k,
                ),
        ensures
            r == env_point(solve_env(sym_view(self.objects@), i as int), h),
    {
        proof {
            self.lemma_syms_nodup();
            lemma_env_char(self.syms(), i as int);
        }
        for k in 0..i
            invariant
                i <= self.objects@.len(),
                self.wf(),
                forall|kk: int|
                    0 <= kk < i ==> (#[trigger] self.objects@[kk]).concrete == solved_at(
                        sym_view(self.objects@),
                        kk,
                    ),
                forall|kk: int| 0 <= kk < k ==> (#[trigger] self.objects@[kk]).handle != h,
                forall|kk: int| 0 <= kk < i ==> #[trigger] env_tracks(self.syms(), i as int, kk),
                forall|hh: u64|
                    #[trigger] solve_env(self.syms(), i as int).contains_key(hh) ==> exists|kk: int|
                        0 <= kk < i && (#[trigger] self.syms()[kk]).0 == hh,
        {
            if self.objects[k].handle == h {
                proof {
                    assert(env_tracks(self.syms(), i as int, k as int));
                    assert(self.syms()[k as int].0 == h);
                }
                match self.objects[k].concrete {
                    Some(ConcreteGeometry::Point(v)) => {
                        return Some(v);
                    },
                    _ => {
                        return None;
                    },
                }
            }
        }
        proof {
            if solve_env(self.syms(), i as int).contains_key(h) {
                let kk = choose|kk: int| 0 <= kk < i && (#[trigger] self.syms()[kk]).0 == h;
                assert(self.objects@[kk].handle == h);
            }
        }
        None
    }

    /// One full solver pass: recompute every object's concrete geometry
    /// in topological order.  Afterwards every cached value equals the
    /// resolution rules' value ([`Sketch::solved`]); handles, symbolic
    /// definitions and the dependency graph are untouched.
    pub fn solve(&mut self)
        requires
            old(self).wf(),
        ensures
            final(self).wf(),
            final(self).solved(),
            final(self).syms() == old(self).syms(),
            final(self).handles() == old(self).handles(),
            final(self).next_handle == old(self).next_handle,
            final(self).graph == old(self).graph,
    {
        let ghost s0 = *self;
        let n = self.objects.len();
        for i in 0..n
            invariant
                n == self.objects@.len(),
                self.graph == s0.graph,
                self.next_handle == s0.next_handle,
                s0.wf(),
                self.wf(),
                self.handles() == s0.handles(),
                sym_view(self.objects@) == s0.syms(),
                forall|k: int|
                    0 <= k < n ==> (#[trigger] self.objects@[k]).handle == s0.objects@[k].handle
                        && self.objects@[k].def == s0.objects@[k].def,
                forall|k: int|
                    0 <= k < i ==> (#[trigger] self.objects@[k]).concrete == solved_at(
                        s0.syms(),
                        k,
                    ),
        {
            let ob = self.objects[i];
            proof {
                assert(self.syms()[i as int] == (ob.handle, ob.def));
                assert(def_payload_ok(ob.def));
                self.lemma_syms_nodup();
                lemma_env_wf(self.syms(), i as int);
            }
            let newc: Option<ConcreteGeometry> = match ob.def {
                SymbolicDef::Point(SymbolicPoint::Free(v)) => Some(ConcreteGeometry::Point(v)),
                SymbolicDef::Point(SymbolicPoint::OnLine(l, t)) => {
                    match self.lookup_line(l, i) {
                        Some(od) => {
                            proof {
                                let env = solve_env(self.syms(), i as int);
                                assert(env_line(env, l) == Some::<(Vector2, Vector2)>(od));
                                assert(env.contains_key(l));
                                assert(cg_wf(env[l]));
                            }
                            match on_line_point(od.0, od.1, t) {
                                Some(p) => Some(ConcreteGeometry::Point(p)),
                                None => None,
                            }
                        },
                        None => None,
                    }
                },
                SymbolicDef::Point(SymbolicPoint::LineLineIntersect(a, b)) => {
                    match self.lookup_line(a, i) {
                        Some(od1) => {
                            match self.lookup_line(b, i) {
                                Some(od2) => {
                                    proof {
                                        let env = solve_env(self.syms(), i as int);
                                        assert(env.contains_key(a) && env.contains_key(b));
                                        assert(cg_wf(env[a]) && cg_wf(env[b]));
                                    }
                                    match intersect_lines(od1.0, od1.1, od2.0, od2.1) {
                                        Some(p) => Some(ConcreteGeometry::Point(p)),
                                        None => None,
                                    }
                                },
                                None => None,
                            }
                        },
                        None => None,
                    }
                },
                SymbolicDef::Line(SymbolicLine::Concrete(o, d)) => {
                    if d.x == 0 && d.y == 0 {
                        None
                    } else {
                        Some(ConcreteGeometry::Line(o, d))
                    }
                },
                SymbolicDef::Line(SymbolicLine::TwoPoints(p, q)) => {
                    match self.lookup_point(p, i) {
                        Some(a) => {
                            match self.lookup_point(q, i) {
                                Some(b) => {
                                    proof {
                                        let env = solve_env(self.syms(), i as int);
                                        assert(env.contains_key(p) && env.contains_key(q));
                                        assert(cg_wf(env[p]) && cg_wf(env[q]));
                                    }
                                    if a.x == b.x && a.y == b.y {
                                        None
                                    } else {
                                        Some(
                                            ConcreteGeometry::Line(
                                                a,
                                                Vector2 { x: b.x - a.x, y: b.y - a.y },
                                            ),
                                        )
                                    }
                                },
                                None => None,
                            }
                        },
                        None => None,
                    }
                },
            };
            proof {
                assert(newc == solved_at(s0.syms(), i as int));
            }
            let ghost before = *self;
            self.objects.set(i, GeoObject { handle: ob.handle, def: ob.def, concrete: newc });
            proof {
                assert(self.handles() =~= before.handles());
                assert(sym_view(self.objects@) =~= sym_view(before.objects@));
                assert forall|k: int|
                    0 <= k < n implies (#[trigger] self.objects@[k]).handle
                    == s0.objects@[k].handle && self.objects@[k].def == s0.objects@[k].def by {
                    if k != i {
                        assert(self.objects@[k] == before.objects@[k]);
                    }
                }
                assert(self.wf()) by {
                    assert forall|k: int|
                        0 <= k < self.objects@.len() implies self.graph.nodes@[k].parents@
                        == crate::store::def_parents((#[trigger] self.objects@[k]).def)
                        && self.objects@[k].handle < self.next_handle && def_payload_ok(
                        self.objects@[k].def,
                    ) by {
                        if k != i {
                            assert(self.objects@[k] == before.objects@[k]);
                        }
                    }
                    assert forall|k: int|
                        0 <= k < self.objects@.len() implies self.refs_ok(
                        (#[trigger] self.objects@[k]).def,
                    ) by {
                        assert(before.refs_ok(before.objects@[k].def));
                        Self::lemma_refs_ok_same_shape(before, *self, before.objects@[k].def);
                        if k != i {
                            assert(self.objects@[k] == before.objects@[k]);
                        }
                    }
                }
            }
        }
        proof {
            assert forall|i: int|
                0 <= i < self.objects@.len() implies (#[trigger] self.objects@[i]).concrete
                == solved_at(self.syms(), i) by {
                assert(self.objects@[i].concrete == solved_at(s0.syms(), i));
            }
        }
    }

    /// Changing cached geometry alone never changes which handles are
    /// live lines or points.
    proof fn lemma_refs_ok_same_shape(a: Sketch, b: Sketch, def: SymbolicDef)
        requires
            a.wf(),
            a.refs_ok(def),
            b.handles() == a.handles(),
            b.objects@.len() == a.objects@.len(),
            forall|k: int|
                0 <= k < a.objects@.len() ==> (#[trigger] b.objects@[k]).handle
                    == a.objects@[k].handle && b.objects@[k].def == a.objects@[k].def,
        ensures
            b.refs_ok(def),
    {
        assert forall|x: u64| #[trigger] a.live(x) implies b.live(x) && b.def_of(x) == a.def_of(
            x,
        ) by {
            a.lemma_idx(x);
            let k = a.idx(x);
            assert(b.objects@[k].handle == x);
            b.lemma_idx(x);
            let kb = b.idx(x);
            assert(b.def_of(x) == b.objects@[kb].def);
            assert(a.objects@[kb].handle == x);
            a.lemma_idx_unique(x, kb);
            assert(a.def_of(x) == a.objects@[kb].def);
        }
        match def {
            SymbolicDef::Point(SymbolicPoint::OnLine(l, _)) => {
                assert(a.live(l));
            },
            SymbolicDef::Point(SymbolicPoint::LineLineIntersect(x, y)) => {
                assert(a.live(x) && a.live(y));
            },
            SymbolicDef::Line(SymbolicLine::TwoPoints(p, q)) => {
                assert(a.live(p) && a.live(q));
            },
            _ => {},
        }
    }
}

/// The solver is idempotent: two stores with the same symbolic content,
/// each solved, carry identical concrete geometry position for
/// position.  In particular, running [`Sketch::solve`] twice in a row
/// without a structural or positional change reproduces the same
/// values.
pub proof fn lemma_solver_idempotent(a: Sketch, b: Sketch)
    requires
        a.syms() == b.syms(),
        a.solved(),
        b.solved(),
    ensures
        forall|i: int|
            0 <= i < a.objects@.len() ==> (#[trigger] a.objects@[i]).concrete
                == b.objects@[i].concrete,
{
    assert(a.syms().len() == a.objects@.len());
    assert(b.syms().len() == b.objects@.len());
    assert forall|i: int|
        0 <= i < a.objects@.len() implies (#[trigger] a.objects@[i]).concrete
        == b.objects@[i].concrete by {
        assert(a.objects@[i].concrete == solved_at(a.syms(), i));
        assert(b.objects@[i].concrete == solved_at(b.syms(), i));
    }
}

} // verus!
