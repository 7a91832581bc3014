//! Geometry store: the arena of objects and their symbolic definitions.
//!
//! Every object is reached only through its handle, an identifier that is
//! never reused while the sketch lives.  An object holds a symbolic
//! definition (how it is constructed) and, after a solver pass, its
//! concrete geometry, absent when the construction is degenerate or an
//! ancestor is absent.  The store keeps the dependency graph cache in
//! lock step with the definitions: creating an object records its parent
//! edges, deleting one cascades over its transitive dependents.

use vstd::prelude::*;

use crate::geom::{coord_ok, in_workspace, Vector2};
use crate::graph::{keep_pred, DepGraph, EditError};

verus! {

/// How a point is constructed.
#[derive(Clone, Copy, PartialEq, Eq, Structural, Debug)]
pub enum SymbolicPoint {
    /// An independent, user-placed point.
    Free(Vector2),
    /// A point constrained to a line, `t` grid steps along its direction
    /// from its origin.
    OnLine(u64, i64),
    /// The intersection of two lines; absent while they are parallel.
    LineLineIntersect(u64, u64),
}

/// How a line is constructed.
#[derive(Clone, Copy, PartialEq, Eq, Structural, Debug)]
pub enum SymbolicLine {
    /// A line given directly by origin and direction.
    Concrete(Vector2, Vector2),
    /// A line through two points (origin and through-point).
    TwoPoints(u64, u64),
}

/// The symbolic definition of an object.
#[derive(Clone, Copy, PartialEq, Eq, Structural, Debug)]
pub enum SymbolicDef {
    Point(SymbolicPoint),
    Line(SymbolicLine),
}

/// Resolved geometry: a point's position, or a line's origin and
/// direction.
#[derive(Clone, Copy, PartialEq, Eq, Structural, Debug)]
pub enum ConcreteGeometry {
    Point(Vector2),
    Line(Vector2, Vector2),
}

/// The handles a definition depends on, in a fixed order.
pub open spec fn def_parents(def: SymbolicDef) -> Seq<u64> {
    match def {
        SymbolicDef::Point(SymbolicPoint::Free(_)) => Seq::<u64>::empty(),
        SymbolicDef::Point(SymbolicPoint::OnLine(l, _)) => seq![l],
        SymbolicDef::Point(SymbolicPoint::LineLineIntersect(a, b)) => seq![a, b],
        SymbolicDef::Line(SymbolicLine::Concrete(_, _)) => Seq::<u64>::empty(),
        SymbolicDef::Line(SymbolicLine::TwoPoints(p, q)) => seq![p, q],
    }
}

/// The numeric payload of a definition stays inside the workspace.
pub open spec fn def_payload_ok(def: SymbolicDef) -> bool {
    match def {
        SymbolicDef::Point(SymbolicPoint::Free(v)) => in_workspace(v),
        SymbolicDef::Point(SymbolicPoint::OnLine(_, t)) => coord_ok(t as int),
        SymbolicDef::Point(SymbolicPoint::LineLineIntersect(_, _)) => true,
        SymbolicDef::Line(SymbolicLine::Concrete(o, d)) => in_workspace(o) && in_workspace(d),
        SymbolicDef::Line(SymbolicLine::TwoPoints(_, _)) => true,
    }
}

/// Whether a definition constructs a point.
pub open spec fn is_point_def(def: SymbolicDef) -> bool {
    match def {
        SymbolicDef::Point(_) => true,
        SymbolicDef::Line(_) => false,
    }
}

/// Whether a definition constructs a line.
pub open spec fn is_line_def(def: SymbolicDef) -> bool {
    !is_point_def(def)
}

/// The handles a definition depends on, as a vector.
pub fn def_parents_vec(def: &SymbolicDef) -> (r: Vec<u64>)
    ensures
        r@ == def_parents(*def),
{
    let mut r: Vec<u64> = Vec::new();
    match def {
        SymbolicDef::Point(SymbolicPoint::Free(_)) => {},
        SymbolicDef::Point(SymbolicPoint::OnLine(l, _)) => {
            r.push(*l);
        },
        SymbolicDef::Point(SymbolicPoint::LineLineIntersect(a, b)) => {
            r.push(*a);
            r.push(*b);
        },
        SymbolicDef::Line(SymbolicLine::Concrete(_, _)) => {},
        SymbolicDef::Line(SymbolicLine::TwoPoints(p, q)) => {
            r.push(*p);
            r.push(*q);
        },
    }
    proof {
        assert(r@ =~= def_parents(*def));
    }
    r
}

/// One object of the store.
#[derive(Clone, Copy, Debug)]
pub struct GeoObject {
    pub handle: u64,
    pub def: SymbolicDef,
    pub concrete: Option<ConcreteGeometry>,
}

/// The geometry store together with its dependency graph cache.
#[derive(Clone, Debug)]
pub struct Sketch {
    pub next_handle: u64,
    pub objects: Vec<GeoObject>,
    pub graph: DepGraph,
}

impl Sketch {
    /// The live handles, in creation (topological) order.
    pub open spec fn handles(self) -> Seq<u64> {
        self.objects@.map_values(|o: GeoObject| o.handle)
    }

    /// Whether `h` names a live object.
    pub open spec fn live(self, h: u64) -> bool {
        self.handles().contains(h)
    }

    /// The position of `h` in the object list.
    pub open spec fn idx(self, h: u64) -> int
        recommends
            self.live(h),
    {
        choose|i: int| 0 <= i < self.objects@.len() && self.objects@[i].handle == h
    }

    /// The symbolic definition of `h`.
    pub open spec fn def_of(self, h: u64) -> SymbolicDef
        recommends
            self.live(h),
    {
        self.objects@[self.idx(h)].def
    }

    /// The cached concrete geometry of `h`.
    pub open spec fn concrete_spec(self, h: u64) -> Option<ConcreteGeometry>
        recommends
            self.live(h),
    {
        self.objects@[self.idx(h)].concrete
    }

    /// `h` is a live line object.
    pub open spec fn is_line_handle(self, h: u64) -> bool {
        self.live(h) && is_line_def(self.def_of(h))
    }

    /// `h` is a live point object.
    pub open spec fn is_point_handle(self, h: u64) -> bool {
        self.live(h) && is_point_def(self.def_of(h))
    }

    /// Every handle a definition references exists and has the kind the
    /// definition asks of it.
    pub open spec fn refs_ok(self, def: SymbolicDef) -> bool {
        match def {
            SymbolicDef::Point(SymbolicPoint::Free(_)) => true,
            SymbolicDef::Point(SymbolicPoint::OnLine(l, _)) => self.is_line_handle(l),
            SymbolicDef::Point(SymbolicPoint::LineLineIntersect(a, b)) => self.is_line_handle(a)
                && self.is_line_handle(b),
            SymbolicDef::Line(SymbolicLine::Concrete(_, _)) => true,
            SymbolicDef::Line(SymbolicLine::TwoPoints(p, q)) => self.is_point_handle(p)
                && self.is_point_handle(q),
        }
    }

    /// `c` depends on `a`, directly or transitively.
    pub open spec fn depends_on(self, c: u64, a: u64) -> bool {
        self.graph.depends_on(c, a)
    }

    /// Structural invariant: the dependency graph mirrors the object
    /// list handle for handle and edge for edge, every handle is below
    /// the allocation cursor, and every definition is bounded and
    /// well-referenced.
    pub open spec fn wf(self) -> bool {
        &&& self.graph.wf()
        &&& self.graph.handles() == self.handles()
        &&& forall|i: int|
            0 <= i < self.objects@.len() ==> self.graph.nodes@[i].parents@ == def_parents(
                (#[trigger] self.objects@[i]).def,
            )
        &&& forall|i: int|
            0 <= i < self.objects@.len() ==> (#[trigger] self.objects@[i]).handle
                < self.next_handle
        &&& forall|i: int|
            0 <= i < self.objects@.len() ==> def_payload_ok((#[trigger] self.objects@[i]).def)
        &&& forall|i: int|
            0 <= i < self.objects@.len() ==> self.refs_ok((#[trigger] self.objects@[i]).def)
    }

    /// An empty sketch.
    pub fn new() -> (r: Sketch)
        ensures
            r.wf(),
            r.handles() == Seq::<u64>::empty(),
            r.next_handle == 1u64,
    {
        let r = Sketch { next_handle: 1, objects: Vec::new(), graph: DepGraph::new() };
        proof {
            assert(r.handles() =~= Seq::<u64>::empty());
        }
        r
    }

    /// A live handle's position is well defined and carries its record.
    pub proof fn lemma_idx(self, h: u64)
        requires
            self.live(h),
        ensures
            0 <= self.idx(h) < self.objects@.len(),
            self.objects@[self.idx(h)].handle == h,
    {
        let k = choose|k: int| 0 <= k < self.handles().len() && self.handles()[k] == h;
        assert(self.objects@[k].handle == h);
    }

    /// As soon as the graph mirrors the handle list, the position of a
    /// live handle is unique (used while re-establishing `wf`).
    pub proof fn lemma_idx_unique_pre(self, h: u64, i: int)
        requires
            self.graph.wf(),
            self.graph.handles() == self.handles(),
            0 <= i < self.objects@.len(),
            self.objects@[i].handle == h,
        ensures
            self.live(h),
            self.idx(h) == i,
            self.graph.idx(h) == i,
            self.graph.live(h),
    {
        assert(self.graph.handles().len() == self.graph.nodes@.len());
        assert(self.handles().len() == self.objects@.len());
        assert(self.graph.nodes@.len() == self.objects@.len());
        assert(self.handles()[i] == h);
        assert(self.graph.handles()[i] == h);
        assert(self.graph.nodes@[i].handle == h);
        self.graph.lemma_idx_unique(h, i);
        self.lemma_idx(h);
        let j = self.idx(h);
        if i != j {
            assert(self.graph.nodes@[j].handle == self.handles()[j]);
            self.graph.lemma_idx_unique(h, j);
        }
    }

    /// Under `wf`, the position of a live handle is unique.
    pub proof fn lemma_idx_unique(self, h: u64, i: int)
        requires
            self.wf(),
            0 <= i < self.objects@.len(),
            self.objects@[i].handle == h,
        ensures
            self.live(h),
            self.idx(h) == i,
            self.graph.idx(h) == i,
            self.graph.live(h),
    {
        self.lemma_idx_unique_pre(h, i);
    }

    /// The graph and the store agree on liveness.
    pub proof fn lemma_live_agree(self, h: u64)
        requires
            self.wf(),
        ensures
            self.live(h) == self.graph.live(h),
            self.live(h) ==> self.idx(h) == self.graph.idx(h),
    {
        if self.live(h) {
            self.lemma_idx(h);
            self.lemma_idx_unique(h, self.idx(h));
        }
        if self.graph.live(h) {
            self.graph.lemma_idx(h);
            let k = self.graph.idx(h);
            assert(self.handles()[k] == h);
        }
    }

    /// Locate a handle in the object list.
    fn find_object(&self, h: u64) -> (r: Option<usize>)
        requires
            self.wf(),
        ensures
            match r {
                Some(i) => self.live(h) && i < self.objects@.len() && i == self.idx(h),
                None => !self.live(h),
            },
    {
        let n = self.objects.len();
        for i in 0..n
            invariant
                n == self.objects@.len(),
                self.wf(),
                forall|k: int| 0 <= k < i ==> (#[trigger] self.objects@[k].handle) != h,
        {
            if self.objects[i].handle == h {
                proof {
                    self.lemma_idx_unique(h, i as int);
                }
                return Some(i);
            }
        }
        proof {
            if self.live(h) {
                let k = choose|k: int| 0 <= k < self.handles().len() && self.handles()[k] == h;
                assert(self.objects@[k].handle == h);
            }
        }
        None
    }

    /// Whether `h` is a live line object.
    pub fn line_handle_ok(&self, h: u64) -> (r: bool)
        requires
            self.wf(),
        ensures
            r == self.is_line_handle(h),
    {
        match self.find_object(h) {
            Some(i) => matches!(self.objects[i].def, SymbolicDef::Line(_)),
            None => false,
        }
    }

    /// Whether `h` is a live point object.
    pub fn point_handle_ok(&self, h: u64) -> (r: bool)
        requires
            self.wf(),
        ensures
            r == self.is_point_handle(h),
    {
        match self.find_object(h) {
            Some(i) => matches!(self.objects[i].def, SymbolicDef::Point(_)),
            None => false,
        }
    }

    /// Carrying well-referencedness to a store with at least the same
    /// live objects and unchanged definitions.
    proof fn lemma_refs_ok_monotone(a: Sketch, b: Sketch, def: SymbolicDef)
        requires
            a.refs_ok(def),
            forall|x: u64| #[trigger] a.live(x) ==> b.live(x) && b.def_of(x) == a.def_of(x),
        ensures
            b.refs_ok(def),
    {
        match def {
            SymbolicDef::Point(SymbolicPoint::OnLine(l, _)) => {
                assert(a.live(l));
            },
            SymbolicDef::Point(SymbolicPoint::LineLineIntersect(x, y)) => {
                assert(a.live(x) && a.live(y));
            },
            SymbolicDef::Line(SymbolicLine::TwoPoints(p, q)) => {
                assert(a.live(p) && a.live(q));
            },
            _ => {},
        }
    }

    /// Record a new object with definition `def`.  Fails exactly when
    /// the definition references a missing handle or one of the wrong
    /// kind; the allocated handle is the allocation cursor.
    fn insert_def(&mut self, def: SymbolicDef) -> (r: Result<u64, EditError>)
        requires
            old(self).wf(),
            def_payload_ok(def),
            old(self).next_handle < u64::MAX,
        ensures
            final(self).wf(),
            r == Ok::<u64, EditError>(old(self).next_handle) <==> old(self).refs_ok(def),
            r.is_err() ==> r == Err::<u64, EditError>(EditError::DanglingReference) && final(self).objects@ == old(self).objects@ && final(self).graph.nodes@ == old(self).graph.nodes@
                && final(self).next_handle == old(self).next_handle,
            r.is_ok() ==> {
                &&& final(self).next_handle == old(self).next_handle + 1
                &&& final(self).handles() == old(self).handles().push(old(self).next_handle)
                &&& final(self).live(old(self).next_handle)
                &&& final(self).def_of(old(self).next_handle) == def
                &&& final(self).concrete_spec(old(self).next_handle) == Option::<
                    ConcreteGeometry,
                >::None
                &&& forall|x: u64|
                    x != old(self).next_handle && old(self).live(x) ==> final(self).live(x)
                        && final(self).def_of(x) == old(self).def_of(x) && final(self).concrete_spec(x) == old(self).concrete_spec(x)
                &&& forall|x: u64|
                    #[trigger] final(self).live(x) ==> x == old(self).next_handle || old(self).live(x)
            },
    {
        let ghost s0 = *self;
        let refs_good = match &def {
            SymbolicDef::Point(SymbolicPoint::Free(_)) => true,
            SymbolicDef::Point(SymbolicPoint::OnLine(l, _)) => self.line_handle_ok(*l),
            SymbolicDef::Point(SymbolicPoint::LineLineIntersect(a, b)) => self.line_handle_ok(*a)
                && self.line_handle_ok(*b),
            SymbolicDef::Line(SymbolicLine::Concrete(_, _)) => true,
            SymbolicDef::Line(SymbolicLine::TwoPoints(p, q)) => self.point_handle_ok(*p)
                && self.point_handle_ok(*q),
        };
        if !refs_good {
            return Err(EditError::DanglingReference);
        }
        let h = self.next_handle;
        proof {
            // the allocation cursor is fresh
            if s0.live(h) {
                s0.lemma_idx(h);
            }
            if s0.graph.live(h) {
                s0.lemma_live_agree(h);
            }
            // every referenced handle is live, hence below the cursor
            assert forall|j: int|
                0 <= j < def_parents(def).len() implies s0.graph.live(
                #[trigger] def_parents(def)[j],
            ) && def_parents(def)[j] != h by {
                let p = def_parents(def)[j];
                assert(s0.live(p));
                s0.lemma_idx(p);
                s0.lemma_live_agree(p);
            }
        }
        let parents = def_parents_vec(&def);
        let ghost g0 = self.graph;
        match self.graph.on_insert(h, parents) {
            Ok(()) => {},
            Err(_) => {
                proof {
                    assert(!g0.insert_cycle(h, def_parents(def)));
                    assert(!g0.insert_dangling(h, def_parents(def)));
                    assert(false);
                }
                return Err(EditError::DanglingReference);
            },
        }
        self.objects.push(GeoObject { handle: h, def, concrete: None });
        self.next_handle = h + 1;
        proof {
            let s1 = *self;
            let n = s0.objects@.len();
            assert(s1.handles() =~= s0.handles().push(h));
            assert(s1.graph.handles() == s0.graph.handles().push(h));
            assert(s0.graph.handles() == s0.handles());
            assert(s1.graph.handles() =~= s1.handles());
            s1.lemma_idx_unique_pre(h, n as int);
            assert(s1.def_of(h) == def);
            assert forall|x: u64| x != h && s0.live(x) implies s1.live(x) && s1.def_of(x)
                == s0.def_of(x) && s1.concrete_spec(x) == s0.concrete_spec(x) by {
                s0.lemma_idx(x);
                let k = s0.idx(x);
                assert(s1.objects@[k].handle == x);
                s1.lemma_idx_unique_pre(x, k);
                s0.lemma_idx_unique(x, k);
            }
            assert forall|x: u64| #[trigger] s1.live(x) implies x == h || s0.live(x) by {
                s1.lemma_idx(x);
                let k = s1.idx(x);
                if k < n {
                    assert(s0.objects@[k].handle == x);
                    assert(s0.handles()[k] == x);
                }
            }
            // the graph rows still mirror the definitions
            assert forall|i: int|
                0 <= i < s1.objects@.len() implies s1.graph.nodes@[i].parents@ == def_parents(
                (#[trigger] s1.objects@[i]).def,
            ) by {
                let hi = s1.objects@[i].handle;
                s1.lemma_idx_unique_pre(hi, i);
                if i < n {
                    s0.lemma_idx_unique(hi, i);
                    assert(s1.graph.parents_of(hi) == s0.graph.parents_of(hi));
                    assert(s0.graph.nodes@[i].parents@ == s0.graph.parents_of(hi));
                    assert(s1.graph.nodes@[i].parents@ == s1.graph.parents_of(hi));
                } else {
                    assert(s1.graph.parents_of(h) == def_parents(def));
                    assert(s1.graph.nodes@[i].parents@ == s1.graph.parents_of(hi));
                }
            }
            // definitions keep their valid references
            assert forall|i: int|
                0 <= i < s1.objects@.len() implies s1.refs_ok(
                (#[trigger] s1.objects@[i]).def,
            ) by {
                if i < n {
                    assert(s0.refs_ok(s0.objects@[i].def));
                    Self::lemma_refs_ok_monotone(s0, s1, s0.objects@[i].def);
                } else {
                    Self::lemma_refs_ok_monotone(s0, s1, def);
                }
            }
        }
        Ok(h)
    }

    /// Delete `h` and, by cascade, every object that depends on it.
    ///
    /// Returns exactly the transitive dependents that were deleted along
    /// with `h` (not `h` itself).  Fails with the dangling-reference
    /// error exactly when `h` is not live, leaving the store unchanged.
    /// Surviving objects keep their definitions, cached geometry and
    /// relative order; no definition is left referencing a deleted
    /// handle.
    #[verifier::rlimit(50)]
    pub fn delete(&mut self, h: u64) -> (r: Result<Vec<u64>, EditError>)
        requires
            old(self).wf(),
        ensures
            final(self).wf(),
            final(self).next_handle == old(self).next_handle,
            r.is_ok() <==> old(self).live(h),
            r.is_err() ==> r == Err::<Vec<u64>, EditError>(EditError::DanglingReference) && final(self).objects@ == old(self).objects@ && final(self).graph.nodes@ == old(self).graph.nodes@,
            r matches Ok(removed) ==> {
                &&& removed@.no_duplicates()
                &&& !removed@.contains(h)
                &&& forall|x: u64| #[trigger] removed@.contains(x) <==> old(self).depends_on(x, h)
                &&& forall|x: u64|
                    #[trigger] final(self).live(x) <==> old(self).live(x) && x != h && !old(self).depends_on(x, h)
                &&& final(self).handles() == old(self).handles().filter(keep_pred(h, removed@))
                &&& forall|x: u64|
                    #[trigger] final(self).live(x) ==> final(self).def_of(x) == old(self).def_of(x)
                        && final(self).concrete_spec(x) == old(self).concrete_spec(x)
            },
    {
        let ghost s0 = *self;
        if self.find_object(h).is_none() {
            return Err(EditError::DanglingReference);
        }
        let removed = self.graph.on_remove(h);
        let ghost g1 = self.graph;
        let n = self.objects.len();
        let mut kept: Vec<GeoObject> = Vec::new();
        for i in 0..n
            invariant
                self.objects@ == s0.objects@,
                self.graph == g1,
                self.next_handle == s0.next_handle,
                s0.wf(),
                n == s0.objects@.len(),
                kept@.map_values(|o: GeoObject| o.handle) == s0.handles().subrange(
                    0,
                    i as int,
                ).filter(keep_pred(h, removed@)),
                forall|kk: int|
                    0 <= kk < kept@.len() ==> s0.live(#[trigger] kept@[kk].handle)
                        && kept@[kk] == s0.objects@[s0.idx(kept@[kk].handle)],
        {
            let ghost pre = s0.handles().subrange(0, i as int);
            let ghost cur = s0.handles().subrange(0, i + 1);
            proof {
                assert(cur.drop_last() =~= pre);
                assert(cur.last() == s0.objects@[i as int].handle);
            }
            let ob = self.objects[i];
            let drop_it = ob.handle == h || crate::graph::contains_u64(&removed, ob.handle);
            proof {
                reveal_with_fuel(Seq::<u64>::filter, 2);
                s0.lemma_idx_unique(ob.handle, i as int);
                if drop_it {
                    assert(!keep_pred(h, removed@)(cur.last()));
                    assert(cur.filter(keep_pred(h, removed@)) == pre.filter(keep_pred(h, removed@)));
                } else {
                    assert(keep_pred(h, removed@)(cur.last()));
                    assert(cur.filter(keep_pred(h, removed@)) == pre.filter(
                        keep_pred(h, removed@),
                    ).push(cur.last()));
                }
            }
            if !drop_it {
                let ghost kh0 = kept@.map_values(|o: GeoObject| o.handle);
                kept.push(ob);
                proof {
                    assert(kept@.map_values(|o: GeoObject| o.handle) =~= kh0.push(ob.handle));
                }
            }
        }
        proof {
            assert(s0.handles().subrange(0, n as int) =~= s0.handles());
        }
        self.objects = kept;
        proof {
            let s1 = *self;
            // the graph and the store filtered the same handles
            assert(s1.handles() == s0.handles().filter(keep_pred(h, removed@)));
            assert(g1.handles() == s0.graph.handles().filter(keep_pred(h, removed@)));
            assert(s1.graph.handles() == s1.handles());
            assert(s1.graph.handles().len() == s1.graph.nodes@.len());
            assert(s1.handles().len() == s1.objects@.len());
            // liveness carries over from the graph's contract
            assert forall|x: u64|
                #[trigger] s1.live(x) <==> (s0.live(x) && x != h && !s0.depends_on(x, h)) by {
                s0.lemma_live_agree(x);
                assert(s1.live(x) == s1.graph.live(x));
                assert(s1.graph.live(x) <==> (s0.graph.live(x) && x != h && !s0.graph.depends_on(
                    x,
                    h,
                )));
            }
            // surviving objects keep their records
            assert forall|x: u64| #[trigger] s1.live(x) implies s1.def_of(x) == s0.def_of(x)
                && s1.concrete_spec(x) == s0.concrete_spec(x) by {
                s1.lemma_idx(x);
                let kk = s1.idx(x);
                assert(s1.objects@[kk].handle == x);
                s1.lemma_idx_unique_pre(x, kk);
                assert(s1.objects@[kk] == s0.objects@[s0.idx(x)]);
            }
            // the graph rows still mirror the definitions
            assert forall|i: int|
                0 <= i < s1.objects@.len() implies s1.graph.nodes@[i].parents@ == def_parents(
                (#[trigger] s1.objects@[i]).def,
            ) by {
                let hi = s1.objects@[i].handle;
                s1.lemma_idx_unique_pre(hi, i);
                assert(s1.live(hi));
                s0.lemma_live_agree(hi);
                s0.lemma_idx(hi);
                s0.lemma_idx_unique(hi, s0.idx(hi));
                assert(s1.graph.parents_of(hi) == s0.graph.parents_of(hi));
                assert(s0.graph.nodes@[s0.idx(hi)].parents@ == s0.graph.parents_of(hi));
                assert(s1.graph.nodes@[i].parents@ == s1.graph.parents_of(hi));
                assert(s1.objects@[i].def == s0.objects@[s0.idx(hi)].def);
            }
            // surviving definitions still reference live objects
            assert forall|i: int|
                0 <= i < s1.objects@.len() implies s1.refs_ok(
                (#[trigger] s1.objects@[i]).def,
            ) by {
                let hi = s1.objects@[i].handle;
                s1.lemma_idx_unique_pre(hi, i);
                let def = s1.objects@[i].def;
                assert forall|j: int| 0 <= j < def_parents(def).len() implies s1.live(
                    #[trigger] def_parents(def)[j],
                ) && s1.def_of(def_parents(def)[j]) == s0.def_of(def_parents(def)[j]) by {
                    let p = def_parents(def)[j];
                    assert(s1.graph.nodes@[i].parents@ == def_parents(def));
                    assert(s1.graph.edge(hi, p)) by {
                        assert(s1.graph.nodes@[i].handle == hi);
                        s1.graph.lemma_idx_unique(hi, i);
                        assert(s1.graph.parents_of(hi) == def_parents(def));
                    }
                    s1.graph.lemma_parents_precede(hi, p);
                    assert(s1.graph.live(p));
                    let kp = s1.graph.idx(p);
                    s1.graph.lemma_idx(p);
                    assert(s1.handles()[kp] == p);
                    assert(s1.live(p));
                }
                assert(s0.live(hi));
                s0.lemma_idx(hi);
                s0.lemma_idx_unique(hi, s0.idx(hi));
                assert(s0.refs_ok(def));
                match def {
                    SymbolicDef::Point(SymbolicPoint::OnLine(l, _)) => {
                        assert(def_parents(def)[0] == l);
                    },
                    SymbolicDef::Point(SymbolicPoint::LineLineIntersect(a, b)) => {
                        assert(def_parents(def)[0] == a && def_parents(def)[1] == b);
                    },
                    SymbolicDef::Line(SymbolicLine::TwoPoints(p, q)) => {
                        assert(def_parents(def)[0] == p && def_parents(def)[1] == q);
                    },
                    _ => {},
                }
            }
        }
        Ok(removed)
    }

    /// Two stores that classify handles alike validate the same
    /// definitions.
    proof fn lemma_refs_ok_equiv(a: Sketch, b: Sketch, def: SymbolicDef)
        requires
            forall|x: u64| #[trigger] a.is_line_handle(x) == b.is_line_handle(x),
            forall|x: u64| #[trigger] a.is_point_handle(x) == b.is_point_handle(x),
        ensures
            a.refs_ok(def) == b.refs_ok(def),
    {
        match def {
            SymbolicDef::Point(SymbolicPoint::OnLine(l, _)) => {
                assert(a.is_line_handle(l) == b.is_line_handle(l));
            },
            SymbolicDef::Point(SymbolicPoint::LineLineIntersect(x, y)) => {
                assert(a.is_line_handle(x) == b.is_line_handle(x));
                assert(a.is_line_handle(y) == b.is_line_handle(y));
            },
            SymbolicDef::Line(SymbolicLine::TwoPoints(p, q)) => {
                assert(a.is_point_handle(p) == b.is_point_handle(p));
                assert(a.is_point_handle(q) == b.is_point_handle(q));
            },
            _ => {},
        }
    }

    /// Replacing one definition's numeric payload (same construction
    /// shape, same parents) preserves the invariant and everything else.
    proof fn lemma_update_payload_wf(s0: Sketch, s1: Sketch, i: int)
        requires
            s0.wf(),
            0 <= i < s0.objects@.len(),
            s1.graph == s0.graph,
            s1.next_handle == s0.next_handle,
            s1.objects@.len() == s0.objects@.len(),
            forall|k: int|
                0 <= k < s0.objects@.len() && k != i ==> #[trigger] s1.objects@[k]
                    == s0.objects@[k],
            s1.objects@[i].handle == s0.objects@[i].handle,
            s1.objects@[i].concrete == s0.objects@[i].concrete,
            def_parents(s1.objects@[i].def) == def_parents(s0.objects@[i].def),
            def_payload_ok(s1.objects@[i].def),
            is_point_def(s1.objects@[i].def) == is_point_def(s0.objects@[i].def),
            s0.refs_ok(s1.objects@[i].def),
        ensures
            s1.wf(),
            s1.handles() == s0.handles(),
            forall|x: u64| #[trigger] s1.live(x) == s0.live(x),
            s1.def_of(s0.objects@[i].handle) == s1.objects@[i].def,
            forall|x: u64|
                x != s0.objects@[i].handle && s0.live(x) ==> s1.def_of(x) == s0.def_of(x),
            forall|x: u64| s0.live(x) ==> s1.concrete_spec(x) == s0.concrete_spec(x),
    {
        let hi = s0.objects@[i].handle;
        assert(s1.handles() =~= s0.handles());
        assert forall|x: u64| #[trigger] s1.live(x) == s0.live(x) by {}
        s0.lemma_idx_unique(hi, i);
        s1.lemma_idx_unique_pre(hi, i);
        assert forall|x: u64| x != hi && s0.live(x) implies s1.def_of(x) == s0.def_of(x)
            && s1.concrete_spec(x) == s0.concrete_spec(x) by {
            s0.lemma_idx(x);
            let k = s0.idx(x);
            s0.lemma_idx_unique(x, k);
            s1.lemma_idx_unique_pre(x, k);
        }
        assert forall|x: u64|
            #[trigger] s0.is_line_handle(x) == s1.is_line_handle(x) && s0.is_point_handle(x)
                == s1.is_point_handle(x) by {
            if s0.live(x) {
                if x == hi {
                    assert(s1.def_of(x) == s1.objects@[i].def);
                } else {
                    assert(s1.def_of(x) == s0.def_of(x));
                }
            }
        }
        assert forall|k: int|
            0 <= k < s1.objects@.len() implies s1.refs_ok((#[trigger] s1.objects@[k]).def) by {
            if k == i {
                Self::lemma_refs_ok_equiv(s0, s1, s1.objects@[i].def);
            } else {
                assert(s0.refs_ok(s0.objects@[k].def));
                Self::lemma_refs_ok_equiv(s0, s1, s0.objects@[k].def);
            }
        }
        assert forall|x: u64| s0.live(x) implies s1.concrete_spec(x) == s0.concrete_spec(x) by {
            if x == hi {
                assert(s1.concrete_spec(hi) == s1.objects@[i].concrete);
            }
        }
    }

    /// Move an independent point to `v`.  Fails with the
    /// dangling-reference error exactly when `h` is not a live free
    /// point; cached geometry is untouched until the next solver pass.
    pub fn move_free_point(&mut self, h: u64, v: Vector2) -> (r: Result<(), EditError>)
        requires
            old(self).wf(),
            in_workspace(v),
        ensures
            final(self).wf(),
            final(self).next_handle == old(self).next_handle,
            r.is_ok() <==> old(self).live(h) && (old(self).def_of(h) matches SymbolicDef::Point(
                SymbolicPoint::Free(_),
            )),
            r.is_err() ==> r == Err::<(), EditError>(EditError::DanglingReference) && final(self).objects@ == old(self).objects@ && final(self).graph.nodes@ == old(self).graph.nodes@,
            r.is_ok() ==> {
                &&& final(self).handles() == old(self).handles()
                &&& final(self).def_of(h) == SymbolicDef::Point(SymbolicPoint::Free(v))
                &&& forall|x: u64|
                    x != h && old(self).live(x) ==> final(self).def_of(x) == old(self).def_of(x)
                &&& forall|x: u64|
                    old(self).live(x) ==> final(self).concrete_spec(x) == old(self).concrete_spec(
                        x,
                    )
            },
    {
        let ghost s0 = *self;
        match self.find_object(h) {
            Some(i) => {
                let ob = self.objects[i];
                match ob.def {
                    SymbolicDef::Point(SymbolicPoint::Free(_)) => {
                        let nd = SymbolicDef::Point(SymbolicPoint::Free(v));
                        self.objects.set(
                            i,
                            GeoObject { handle: ob.handle, def: nd, concrete: ob.concrete },
                        );
                        proof {
                            assert(def_parents(nd) =~= def_parents(ob.def));
                            Self::lemma_update_payload_wf(s0, *self, i as int);
                        }
                        Ok(())
                    },
                    _ => Err(EditError::DanglingReference),
                }
            },
            None => Err(EditError::DanglingReference),
        }
    }

    /// Re-seat a point constrained to a line at a new parameter `t`.
    /// Fails with the dangling-reference error exactly when `h` is not a
    /// live on-line point; the constraining line is kept.
    pub fn set_on_line_parameter(&mut self, h: u64, t: i64) -> (r: Result<(), EditError>)
        requires
            old(self).wf(),
            coord_ok(t as int),
        ensures
            final(self).wf(),
            final(self).next_handle == old(self).next_handle,
            r.is_ok() <==> old(self).live(h) && (old(self).def_of(h) matches SymbolicDef::Point(
                SymbolicPoint::OnLine(_, _),
            )),
            r.is_err() ==> r == Err::<(), EditError>(EditError::DanglingReference) && final(self).objects@ == old(self).objects@ && final(self).graph.nodes@ == old(self).graph.nodes@,
            r.is_ok() ==> {
                &&& final(self).handles() == old(self).handles()
                &&& (old(self).def_of(h) matches SymbolicDef::Point(SymbolicPoint::OnLine(l, _))
                    ==> final(self).def_of(h) == SymbolicDef::Point(SymbolicPoint::OnLine(l, t)))
                &&& forall|x: u64|
                    x != h && old(self).live(x) ==> final(self).def_of(x) == old(self).def_of(x)
                &&& forall|x: u64|
                    old(self).live(x) ==> final(self).concrete_spec(x) == old(self).concrete_spec(
                        x,
                    )
            },
    {
        let ghost s0 = *self;
        match self.find_object(h) {
            Some(i) => {
                let ob = self.objects[i];
                match ob.def {
                    SymbolicDef::Point(SymbolicPoint::OnLine(l, _)) => {
                        let nd = SymbolicDef::Point(SymbolicPoint::OnLine(l, t));
                        self.objects.set(
                            i,
                            GeoObject { handle: ob.handle, def: nd, concrete: ob.concrete },
                        );
                        proof {
                            assert(def_parents(nd) =~= def_parents(ob.def));
                            Self::lemma_update_payload_wf(s0, *self, i as int);
                        }
                        Ok(())
                    },
                    _ => Err(EditError::DanglingReference),
                }
            },
            None => Err(EditError::DanglingReference),
        }
    }

    /// Move a directly-given line to a new origin and direction.  Fails
    /// with the dangling-reference error exactly when `h` is not a live
    /// concrete line.
    pub fn move_line(&mut self, h: u64, o: Vector2, d: Vector2) -> (r: Result<(), EditError>)
        requires
            old(self).wf(),
            in_workspace(o),
            in_workspace(d),
        ensures
            final(self).wf(),
            final(self).next_handle == old(self).next_handle,
            r.is_ok() <==> old(self).live(h) && (old(self).def_of(h) matches SymbolicDef::Line(
                SymbolicLine::Concrete(_, _),
            )),
            r.is_err() ==> r == Err::<(), EditError>(EditError::DanglingReference) && final(self).objects@ == old(self).objects@ && final(self).graph.nodes@ == old(self).graph.nodes@,
            r.is_ok() ==> {
                &&& final(self).handles() == old(self).handles()
                &&& final(self).def_of(h) == SymbolicDef::Line(SymbolicLine::Concrete(o, d))
                &&& forall|x: u64|
                    x != h && old(self).live(x) ==> final(self).def_of(x) == old(self).def_of(x)
                &&& forall|x: u64|
                    old(self).live(x) ==> final(self).concrete_spec(x) == old(self).concrete_spec(
                        x,
                    )
            },
    {
        let ghost s0 = *self;
        match self.find_object(h) {
            Some(i) => {
                let ob = self.objects[i];
                match ob.def {
                    SymbolicDef::Line(SymbolicLine::Concrete(_, _)) => {
                        let nd = SymbolicDef::Line(SymbolicLine::Concrete(o, d));
                        self.objects.set(
                            i,
                            GeoObject { handle: ob.handle, def: nd, concrete: ob.concrete },
                        );
                        proof {
                            assert(def_parents(nd) =~= def_parents(ob.def));
                            Self::lemma_update_payload_wf(s0, *self, i as int);
                        }
                        Ok(())
                    },
                    _ => Err(EditError::DanglingReference),
                }
            },
            None => Err(EditError::DanglingReference),
        }
    }

    /// Create an independent point at `v`.
    pub fn create_free_point(&mut self, v: Vector2) -> (r: u64)
        requires
            old(self).wf(),
            in_workspace(v),
            old(self).next_handle < u64::MAX,
        ensures
            final(self).wf(),
            r == old(self).next_handle,
            final(self).live(r),
            !old(self).live(r),
            final(self).def_of(r) == SymbolicDef::Point(SymbolicPoint::Free(v)),
            final(self).handles() == old(self).handles().push(r),
            final(self).next_handle == old(self).next_handle + 1,
            forall|x: u64|
                x != r && old(self).live(x) ==> final(self).live(x) && final(self).def_of(x)
                    == old(self).def_of(x) && final(self).concrete_spec(x) == old(self).concrete_spec(x),
    {
        let res = self.insert_def(SymbolicDef::Point(SymbolicPoint::Free(v)));
        match res {
            Ok(h) => h,
            Err(_) => {
                proof {
                    assert(false);
                }
                0
            },
        }
    }

    /// Create a line given directly by origin `o` and direction `d`.
    pub fn create_line(&mut self, o: Vector2, d: Vector2) -> (r: u64)
        requires
            old(self).wf(),
            in_workspace(o),
            in_workspace(d),
            old(self).next_handle < u64::MAX,
        ensures
            final(self).wf(),
            r == old(self).next_handle,
            final(self).live(r),
            !old(self).live(r),
            final(self).def_of(r) == SymbolicDef::Line(SymbolicLine::Concrete(o, d)),
            final(self).handles() == old(self).handles().push(r),
            final(self).next_handle == old(self).next_handle + 1,
            forall|x: u64|
                x != r && old(self).live(x) ==> final(self).live(x) && final(self).def_of(x)
                    == old(self).def_of(x) && final(self).concrete_spec(x) == old(self).concrete_spec(x),
    {
        let res = self.insert_def(SymbolicDef::Line(SymbolicLine::Concrete(o, d)));
        match res {
            Ok(h) => h,
            Err(_) => {
                proof {
                    assert(false);
                }
                0
            },
        }
    }

    /// Create a point constrained to line `l` at parameter `t`.  Fails
    /// with the dangling-reference error exactly when `l` is not a live
    /// line.
    pub fn create_point_on_line(&mut self, l: u64, t: i64) -> (r: Result<u64, EditError>)
        requires
            old(self).wf(),
            coord_ok(t as int),
            old(self).next_handle < u64::MAX,
        ensures
            final(self).wf(),
            r == Ok::<u64, EditError>(old(self).next_handle) <==> old(self).is_line_handle(l),
            r.is_err() ==> r == Err::<u64, EditError>(EditError::DanglingReference) && final(self).objects@ == old(self).objects@ && final(self).next_handle == old(self).next_handle,
            r.is_ok() ==> final(self).live(old(self).next_handle) && final(self).def_of(
                old(self).next_handle,
            ) == SymbolicDef::Point(SymbolicPoint::OnLine(l, t)) && final(self).handles() == old(self).handles().push(old(self).next_handle) && final(self).next_handle == old(self).next_handle + 1 && (forall|x: u64|
                x != old(self).next_handle && old(self).live(x) ==> final(self).live(x) && final(self).def_of(x) == old(self).def_of(x) && final(self).concrete_spec(x) == old(self).concrete_spec(x)),
    {
        self.insert_def(SymbolicDef::Point(SymbolicPoint::OnLine(l, t)))
    }

    /// Create the intersection point of lines `a` and `b`.  Fails with
    /// the dangling-reference error exactly when either is not a live
    /// line.
    pub fn create_intersection_point(&mut self, a: u64, b: u64) -> (r: Result<u64, EditError>)
        requires
            old(self).wf(),
            old(self).next_handle < u64::MAX,
        ensures
            final(self).wf(),
            r == Ok::<u64, EditError>(old(self).next_handle) <==> old(self).is_line_handle(a)
                && old(self).is_line_handle(b),
            r.is_err() ==> r == Err::<u64, EditError>(EditError::DanglingReference) && final(self).objects@ == old(self).objects@ && final(self).next_handle == old(self).next_handle,
            r.is_ok() ==> final(self).live(old(self).next_handle) && final(self).def_of(
                old(self).next_handle,
            ) == SymbolicDef::Point(SymbolicPoint::LineLineIntersect(a, b)) && final(self).handles() == old(self).handles().push(old(self).next_handle) && final(self).next_handle == old(self).next_handle + 1 && (forall|x: u64|
                x != old(self).next_handle && old(self).live(x) ==> final(self).live(x) && final(self).def_of(x) == old(self).def_of(x) && final(self).concrete_spec(x) == old(self).concrete_spec(x)),
    {
        self.insert_def(SymbolicDef::Point(SymbolicPoint::LineLineIntersect(a, b)))
    }

    /// Create a line through points `p` and `q`.  Fails with the
    /// dangling-reference error exactly when either is not a live point.
    pub fn create_line_through_points(&mut self, p: u64, q: u64) -> (r: Result<u64, EditError>)
        requires
            old(self).wf(),
            old(self).next_handle < u64::MAX,
        ensures
            final(self).wf(),
            r == Ok::<u64, EditError>(old(self).next_handle) <==> old(self).is_point_handle(p)
                && old(self).is_point_handle(q),
            r.is_err() ==> r == Err::<u64, EditError>(EditError::DanglingReference) && final(self).objects@ == old(self).objects@ && final(self).next_handle == old(self).next_handle,
            r.is_ok() ==> final(self).live(old(self).next_handle) && final(self).def_of(
                old(self).next_handle,
            ) == SymbolicDef::Line(SymbolicLine::TwoPoints(p, q)) && final(self).handles() == old(self).handles().push(old(self).next_handle) && final(self).next_handle == old(self).next_handle + 1 && (forall|x: u64|
                x != old(self).next_handle && old(self).live(x) ==> final(self).live(x) && final(self).def_of(x) == old(self).def_of(x) && final(self).concrete_spec(x) == old(self).concrete_spec(x)),
    {
        self.insert_def(SymbolicDef::Line(SymbolicLine::TwoPoints(p, q)))
    }
    /// Whether `h` names a live object.
    pub fn is_live(&self, h: u64) -> (r: bool)
        requires
            self.wf(),
        ensures
            r == self.live(h),
    {
        self.find_object(h).is_some()
    }

    /// The cached concrete geometry of `h`, if `h` is live.
    pub fn concrete_of(&self, h: u64) -> (r: Option<ConcreteGeometry>)
        requires
            self.wf(),
        ensures
            r == (if self.live(h) {
                self.concrete_spec(h)
            } else {
                Option::<ConcreteGeometry>::None
            }),
    {
        match self.find_object(h) {
            Some(i) => self.objects[i].concrete,
            None => None,
        }
    }

    /// The symbolic definition of `h`, if `h` is live.
    pub fn symbolic_of(&self, h: u64) -> (r: Option<SymbolicDef>)
        requires
            self.wf(),
        ensures
            r == (if self.live(h) {
                Some(self.def_of(h))
            } else {
                Option::<SymbolicDef>::None
            }),
    {
        match self.find_object(h) {
            Some(i) => Some(self.objects[i].def),
            None => None,
        }
    }

    /// The recomputation order: every live handle once, parents before
    /// children (see [`Sketch::lemma_parents_precede`]).
    pub fn topological_order(&self) -> (r: Vec<u64>)
        requires
            self.wf(),
        ensures
            r@ == self.handles(),
    {
        let r = self.graph.topological_order();
        proof {
            assert(r@ == self.graph.handles());
        }
        r
    }

    /// The number of live objects.
    pub fn object_count(&self) -> (r: usize)
        ensures
            r == self.objects@.len(),
    {
        self.objects.len()
    }

    /// In the recomputation order every object stands strictly after
    /// each handle its definition depends on.
    pub proof fn lemma_parents_precede(self, c: u64, p: u64)
        requires
            self.wf(),
            self.live(c),
            def_parents(self.def_of(c)).contains(p),
        ensures
            self.live(p),
            self.idx(p) < self.idx(c),
    {
        self.lemma_idx(c);
        let i = self.idx(c);
        self.lemma_idx_unique(c, i);
        assert(self.graph.nodes@[i].parents@ == def_parents(self.objects@[i].def));
        assert(self.graph.edge(c, p)) by {
            assert(self.graph.nodes@[i].handle == self.graph.handles()[i]);
            self.graph.lemma_idx_unique(c, i);
            assert(self.graph.parents_of(c) == self.graph.nodes@[i].parents@);
        }
        self.graph.lemma_parents_precede(c, p);
        self.lemma_live_agree(p);
        self.lemma_live_agree(c);
    }
}

} // verus!
