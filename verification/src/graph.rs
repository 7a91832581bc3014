//! Dependency graph cache.
//!
//! Every object of a sketch owns a node here; a node records the handles
//! the object's symbolic definition depends on (its parents).  The node
//! list is kept in creation order, and the structural invariant [`DepGraph::wf`]
//! says that every parent stands strictly earlier in that list than the
//! node that references it.  The list order is therefore itself a
//! topological order, and a witness that the dependency relation is
//! acyclic ([`DepGraph::lemma_wf_acyclic`]).
//!
//! An insert whose parents all exist already is always safe; an insert or
//! redefinition that references itself, or a handle that does not stand
//! earlier in the order, would close a cycle and is rejected with
//! [`EditError::Cycle`], leaving the graph unchanged.  Removal returns
//! exactly the transitive dependents of the removed handle, so the caller
//! can cascade-delete them, and leaves no dangling edges behind.

use vstd::prelude::*;

verus! {

/// Why a structural edit was rejected.
///
/// `Cycle` is the cycle error of the engine: the edit would make some
/// object depend, directly or transitively, on itself.
/// `DanglingReference` is the dangling-reference error: the edit names a
/// handle that does not exist (never created, or already deleted).
#[derive(Clone, Copy, PartialEq, Eq, Structural, Debug)]
pub enum EditError {
    Cycle,
    DanglingReference,
}

/// One node of the dependency graph: an object handle and the handles
/// its definition depends on.
#[derive(Clone, Debug)]
pub struct DepNode {
    pub handle: u64,
    pub parents: Vec<u64>,
}

/// The dependency graph cache.  Nodes stand in creation order; see the
/// module documentation for the structural invariant.
#[derive(Clone, Debug)]
pub struct DepGraph {
    pub nodes: Vec<DepNode>,
}

impl DepGraph {
    /// The handles of all live objects, in creation (topological) order.
    pub open spec fn handles(self) -> Seq<u64> {
        self.nodes@.map_values(|n: DepNode| n.handle)
    }

    /// Whether `h` names a live object.
    pub open spec fn live(self, h: u64) -> bool {
        self.handles().contains(h)
    }

    /// The position of `h` in the node list.
    pub open spec fn idx(self, h: u64) -> int
        recommends
            self.live(h),
    {
        choose|i: int| 0 <= i < self.nodes@.len() && self.nodes@[i].handle == h
    }

    /// The handles the definition of `c` depends on.
    pub open spec fn parents_of(self, c: u64) -> Seq<u64>
        recommends
            self.live(c),
    {
        self.nodes@[self.idx(c)].parents@
    }

    /// A direct dependency edge: `c` depends on `p`.
    pub open spec fn edge(self, c: u64, p: u64) -> bool {
        self.live(c) && self.parents_of(c).contains(p)
    }

    /// `s` walks the graph from a node toward its ancestors, one direct
    /// dependency per step.
    pub open spec fn is_chain(self, s: Seq<u64>) -> bool {
        forall|i: int| 0 <= i < s.len() - 1 ==> self.edge(#[trigger] s[i], s[i + 1])
    }

    /// `c` depends on `a`, directly or transitively (`c != a` unless the
    /// graph is cyclic).
    pub open spec fn depends_on(self, c: u64, a: u64) -> bool {
        exists|s: Seq<u64>|
            #[trigger] self.is_chain(s) && s.len() >= 2 && s[0] == c && s[s.len() - 1] == a
    }

    /// Some object depends on itself.
    pub open spec fn has_cycle(self) -> bool {
        exists|h: u64| #[trigger] self.depends_on(h, h)
    }

    /// Structural invariant: handles are unique, and every parent of a
    /// node stands strictly earlier in the node list.
    pub open spec fn wf(self) -> bool {
        &&& forall|i: int, j: int|
            0 <= i < j < self.nodes@.len() ==> (#[trigger] self.nodes@[i].handle)
                != (#[trigger] self.nodes@[j].handle)
        &&& forall|i: int, j: int|
            0 <= i < self.nodes@.len() && 0 <= j < self.nodes@[i].parents@.len()
                ==> self.parent_before(#[trigger] self.nodes@[i].parents@[j], i)
    }

    /// Handle `p` occupies some position strictly before `i`.
    pub open spec fn parent_before(self, p: u64, i: int) -> bool {
        exists|k: int| 0 <= k < i && #[trigger] self.nodes@[k].handle == p
    }

    /// An empty graph.
    pub fn new() -> (r: DepGraph)
        ensures
            r.wf(),
            r.handles() == Seq::<u64>::empty(),
    {
        let r = DepGraph { nodes: Vec::new() };
        proof {
            assert(r.handles() =~= Seq::<u64>::empty());
        }
        r
    }

    /// A live handle's position is well defined and carries its record.
    pub proof fn lemma_idx(self, h: u64)
        requires
            self.live(h),
        ensures
            0 <= self.idx(h) < self.nodes@.len(),
            self.nodes@[self.idx(h)].handle == h,
    {
        let k = choose|k: int| 0 <= k < self.handles().len() && self.handles()[k] == h;
        assert(self.nodes@[k].handle == h);
    }

    /// Under `wf`, the position of a live handle is unique.
    pub proof fn lemma_idx_unique(self, h: u64, i: int)
        requires
            self.wf(),
            0 <= i < self.nodes@.len(),
            self.nodes@[i].handle == h,
        ensures
            self.live(h),
            self.idx(h) == i,
    {
        assert(self.handles()[i] == h);
        self.lemma_idx(h);
        let j = self.idx(h);
        if i != j {
            if i < j {
                assert(self.nodes@[i].handle != self.nodes@[j].handle);
            } else {
                assert(self.nodes@[j].handle != self.nodes@[i].handle);
            }
        }
    }

    /// Every parent of a live node is itself live and stands strictly
    /// earlier in the order.  This is the ordering guarantee of the
    /// cache: in `topological_order()` every parent precedes every child.
    pub proof fn lemma_parents_precede(self, c: u64, p: u64)
        requires
            self.wf(),
            self.edge(c, p),
        ensures
            self.live(c),
            self.live(p),
            self.idx(p) < self.idx(c),
    {
        self.lemma_idx(c);
        let i = self.idx(c);
        let j = choose|j: int| 0 <= j < self.nodes@[i].parents@.len() && self.nodes@[i].parents@[j]
            == p;
        assert(self.parent_before(p, i));
        let k = choose|k: int| 0 <= k < i && self.nodes@[k].handle == p;
        assert(self.handles()[k] == p);
        self.lemma_idx_unique(p, k);
    }

    /// Along a dependency chain the list position strictly decreases,
    /// one step at a time.
    pub proof fn lemma_chain_descends(self, s: Seq<u64>)
        requires
            self.wf(),
            self.is_chain(s),
            s.len() >= 1,
            self.live(s[0]) || s.len() >= 2,
        ensures
            self.live(s[0]),
            self.live(s[s.len() - 1]),
            self.idx(s[s.len() - 1]) + s.len() - 1 <= self.idx(s[0]),
        decreases s.len(),
    {
        if s.len() >= 2 {
            assert(self.edge(s[0], s[1]));
            self.lemma_parents_precede(s[0], s[1]);
            let t = s.subrange(1, s.len() as int);
            assert forall|i: int| 0 <= i < t.len() - 1 implies self.edge(#[trigger] t[i], t[i + 1]) by {
                assert(t[i] == s[i + 1]);
                assert(t[i + 1] == s[i + 2]);
            }
            self.lemma_chain_descends(t);
            assert(t[0] == s[1]);
            assert(t[t.len() - 1] == s[s.len() - 1]);
        }
    }

    /// A well-formed graph is acyclic: no object depends on itself.
    pub proof fn lemma_wf_acyclic(self)
        requires
            self.wf(),
        ensures
            !self.has_cycle(),
    {
        if self.has_cycle() {
            let h = choose|h: u64| self.depends_on(h, h);
            let s = choose|s: Seq<u64>|
                #[trigger] self.is_chain(s) && s.len() >= 2 && s[0] == h && s[s.len() - 1] == h;
            self.lemma_chain_descends(s);
        }
    }

    /// Anything depended on is live; in particular nothing depends on a
    /// handle that was never inserted or was removed.
    pub proof fn lemma_dependency_live(self, c: u64, a: u64)
        requires
            self.wf(),
            self.depends_on(c, a),
        ensures
            self.live(c),
            self.live(a),
            self.idx(a) < self.idx(c),
    {
        let s = choose|s: Seq<u64>|
            #[trigger] self.is_chain(s) && s.len() >= 2 && s[0] == c && s[s.len() - 1] == a;
        self.lemma_chain_descends(s);
    }

    /// One direct edge yields a dependency.
    pub proof fn lemma_edge_depends(self, c: u64, p: u64)
        requires
            self.edge(c, p),
        ensures
            self.depends_on(c, p),
    {
        let s: Seq<u64> = seq![c, p];
        assert(self.is_chain(s));
    }

    /// A direct edge onto a dependent extends the dependency.
    pub proof fn lemma_depends_step(self, c: u64, p: u64, a: u64)
        requires
            self.edge(c, p),
            self.depends_on(p, a),
        ensures
            self.depends_on(c, a),
    {
        let s = choose|s: Seq<u64>|
            #[trigger] self.is_chain(s) && s.len() >= 2 && s[0] == p && s[s.len() - 1] == a;
        let t = seq![c] + s;
        assert forall|i: int| 0 <= i < t.len() - 1 implies self.edge(#[trigger] t[i], t[i + 1]) by {
            if i == 0 {
                assert(t[0] == c && t[1] == s[0]);
            } else {
                assert(t[i] == s[i - 1] && t[i + 1] == s[i]);
            }
        }
        assert(self.is_chain(t));
        assert(t[0] == c && t[t.len() - 1] == a && t.len() >= 2);
    }

    /// The edit would reference a handle that does not exist (and is not
    /// the self-reference case, which closes a cycle instead).
    pub open spec fn insert_dangling(self, h: u64, parents: Seq<u64>) -> bool {
        exists|j: int|
            0 <= j < parents.len() && !self.live(#[trigger] parents[j]) && parents[j] != h
    }

    /// The edit would close a dependency cycle: the definition references
    /// its own handle, or (on a redefinition) a handle that does not stand
    /// strictly earlier in the creation order.
    pub open spec fn insert_cycle(self, h: u64, parents: Seq<u64>) -> bool {
        if self.live(h) {
            exists|j: int|
                0 <= j < parents.len() && self.live(#[trigger] parents[j]) && self.idx(
                    parents[j],
                ) >= self.idx(h)
        } else {
            parents.contains(h)
        }
    }

    /// Locate a handle in the node list.
    fn find_index(&self, h: u64) -> (r: Option<usize>)
        requires
            self.wf(),
        ensures
            match r {
                Some(i) => self.live(h) && i < self.nodes@.len() && i == self.idx(h),
                None => !self.live(h),
            },
    {
        let n = self.nodes.len();
        for i in 0..n
            invariant
                n == self.nodes@.len(),
                self.wf(),
                forall|k: int| 0 <= k < i ==> (#[trigger] self.nodes@[k].handle) != h,
        {
            if self.nodes[i].handle == h {
                proof {
                    self.lemma_idx_unique(h, i as int);
                }
                return Some(i);
            }
        }
        proof {
            if self.live(h) {
                let k = choose|k: int|
                    0 <= k < self.handles().len() && self.handles()[k] == h;
                assert(self.nodes@[k].handle == h);
            }
        }
        None
    }

    /// Record (or re-record) the definition of `h` as depending on
    /// `parents`.
    ///
    /// Fails with the cycle error when the edit would close a dependency
    /// cycle, and with the dangling-reference error when it names a
    /// handle that does not exist; in both cases the graph is left
    /// unchanged.  On success the node stands in the order with all of
    /// its parents strictly before it.
    pub fn on_insert(&mut self, h: u64, parents: Vec<u64>) -> (r: Result<(), EditError>)
        requires
            old(self).wf(),
        ensures
            final(self).wf(),
            r == Ok::<(), EditError>(()) <==> !old(self).insert_cycle(h, parents@) && !old(
                self,
            ).insert_dangling(h, parents@),
            r == Err::<(), EditError>(EditError::Cycle) <==> old(self).insert_cycle(h, parents@),
            r.is_err() ==> final(self).nodes@ == old(self).nodes@,
            r.is_ok() ==> {
                &&& final(self).live(h)
                &&& final(self).parents_of(h) == parents@
                &&& forall|x: u64|
                    x != h && old(self).live(x) ==> final(self).live(x)
                        && final(self).parents_of(x) == old(self).parents_of(x)
                &&& forall|x: u64| #[trigger] final(self).live(x) ==> x == h || old(self).live(x)
                &&& if old(self).live(h) {
                    final(self).handles() == old(self).handles()
                } else {
                    final(self).handles() == old(self).handles().push(h)
                }
            },
    {
        let ghost g0 = *self;
        let maybe_i = self.find_index(h);
        let np = parents.len();
        match maybe_i {
            Some(i) => {
                // `h` is being redefined: every parent must stand strictly
                // before it in the creation order.
                for j in 0..np
                    invariant
                        np == parents@.len(),
                        *self == g0,
                        g0.wf(),
                        g0.live(h),
                        i == g0.idx(h),
                        i < g0.nodes@.len(),
                        forall|jj: int|
                            0 <= jj < j ==> !(g0.live(#[trigger] parents@[jj]) && g0.idx(
                                parents@[jj],
                            ) >= g0.idx(h)),
                {
                    if let Some(k) = self.find_index(parents[j]) {
                        if k >= i {
                            return Err(EditError::Cycle);
                        }
                    }
                }
                for j in 0..np
                    invariant
                        np == parents@.len(),
                        *self == g0,
                        g0.wf(),
                        g0.live(h),
                        i == g0.idx(h),
                        i < g0.nodes@.len(),
                        !g0.insert_cycle(h, parents@),
                        forall|jj: int| 0 <= jj < j ==> g0.live(#[trigger] parents@[jj]),
                        forall|jj: int|
                            0 <= jj < j ==> g0.idx(#[trigger] parents@[jj]) < g0.idx(h),
                {
                    match self.find_index(parents[j]) {
                        Some(k) => {
                            proof {
                                assert(!(g0.live(parents@[j as int]) && g0.idx(parents@[j as int])
                                    >= g0.idx(h)));
                            }
                        },
                        None => {
                            proof {
                                assert(parents@[j as int] != h);
                            }
                            return Err(EditError::DanglingReference);
                        },
                    }
                }
                let node = DepNode { handle: h, parents };
                self.nodes.set(i, node);
                proof {
                    self.lemma_insert_update_ok(g0, h, parents@, i as int);
                }
                Ok(())
            },
            None => {
                // `h` is new: it may not reference itself, and every parent
                // must already exist.
                for j in 0..np
                    invariant
                        np == parents@.len(),
                        *self == g0,
                        g0.wf(),
                        !g0.live(h),
                        forall|jj: int| 0 <= jj < j ==> (#[trigger] parents@[jj]) != h,
                {
                    if parents[j] == h {
                        return Err(EditError::Cycle);
                    }
                }
                for j in 0..np
                    invariant
                        np == parents@.len(),
                        *self == g0,
                        g0.wf(),
                        !g0.live(h),
                        !parents@.contains(h),
                        forall|jj: int| 0 <= jj < j ==> g0.live(#[trigger] parents@[jj]),
                {
                    if self.find_index(parents[j]).is_none() {
                        return Err(EditError::DanglingReference);
                    }
                }
                let node = DepNode { handle: h, parents };
                self.nodes.push(node);
                proof {
                    self.lemma_insert_push_ok(g0, h, parents@);
                }
                Ok(())
            },
        }
    }

    /// After replacing the parents of the node at position `i` (its
    /// handle unchanged) with earlier-standing parents, the invariant and
    /// the insert postconditions hold.
    proof fn lemma_insert_update_ok(self, g0: DepGraph, h: u64, parents: Seq<u64>, i: int)
        requires
            g0.wf(),
            g0.live(h),
            i == g0.idx(h),
            0 <= i < g0.nodes@.len(),
            forall|j: int| 0 <= j < parents.len() ==> g0.live(#[trigger] parents[j]),
            forall|j: int| 0 <= j < parents.len() ==> g0.idx(#[trigger] parents[j]) < i,
            self.nodes@.len() == g0.nodes@.len(),
            self.nodes@[i].handle == h,
            self.nodes@[i].parents@ == parents,
            forall|k: int| 0 <= k < self.nodes@.len() && k != i ==> #[trigger] self.nodes@[k]
                == g0.nodes@[k],
        ensures
            self.wf(),
            self.handles() == g0.handles(),
            self.live(h),
            self.parents_of(h) == parents,
            forall|x: u64|
                x != h && g0.live(x) ==> self.live(x) && self.parents_of(x) == g0.parents_of(x),
            forall|x: u64| #[trigger] self.live(x) ==> x == h || g0.live(x),
    {
        assert(self.handles() =~= g0.handles());
        assert forall|ii: int, j: int|
            0 <= ii < self.nodes@.len() && 0 <= j < self.nodes@[ii].parents@.len() implies self
            .parent_before(self.nodes@[ii].parents@[j], ii) by {
            if ii == i {
                let p = parents[j];
                g0.lemma_idx(p);
                let k = g0.idx(p);
                assert(self.nodes@[k].handle == p);
            } else {
                assert(g0.parent_before(g0.nodes@[ii].parents@[j], ii));
                let k = choose|k: int| 0 <= k < ii && g0.nodes@[k].handle == g0.nodes@[ii].parents@[j];
                assert(self.nodes@[k].handle == g0.nodes@[ii].parents@[j]);
            }
        }
        assert(self.wf());
        self.lemma_idx_unique(h, i);
        assert(self.parents_of(h) == parents);
        assert forall|x: u64| x != h && g0.live(x) implies self.live(x) && self.parents_of(x)
            == g0.parents_of(x) by {
            g0.lemma_idx(x);
            let k = g0.idx(x);
            assert(self.nodes@[k].handle == x);
            self.lemma_idx_unique(x, k);
        }
        assert forall|x: u64| #[trigger] self.live(x) implies x == h || g0.live(x) by {
            self.lemma_idx(x);
            let k = self.idx(x);
            if k != i {
                assert(g0.nodes@[k].handle == x);
                assert(g0.handles()[k] == x);
            }
        }
    }

    /// After appending a fresh node whose parents all already exist, the
    /// invariant and the insert postconditions hold.
    proof fn lemma_insert_push_ok(self, g0: DepGraph, h: u64, parents: Seq<u64>)
        requires
            g0.wf(),
            !g0.live(h),
            forall|j: int| 0 <= j < parents.len() ==> g0.live(#[trigger] parents[j]),
            self.nodes@.len() == g0.nodes@.len() + 1,
            self.nodes@[g0.nodes@.len() as int].handle == h,
            self.nodes@[g0.nodes@.len() as int].parents@ == parents,
            forall|k: int| 0 <= k < g0.nodes@.len() ==> #[trigger] self.nodes@[k] == g0.nodes@[k],
        ensures
            self.wf(),
            self.handles() == g0.handles().push(h),
            self.live(h),
            self.parents_of(h) == parents,
            forall|x: u64|
                x != h && g0.live(x) ==> self.live(x) && self.parents_of(x) == g0.parents_of(x),
            forall|x: u64| #[trigger] self.live(x) ==> x == h || g0.live(x),
    {
        let n = g0.nodes@.len();
        assert(self.handles() =~= g0.handles().push(h));
        assert forall|i: int, j: int| 0 <= i < j < self.nodes@.len() implies (#[trigger] self
            .nodes@[i].handle) != (#[trigger] self.nodes@[j].handle) by {
            if j == n {
                assert(g0.handles()[i] == g0.nodes@[i].handle);
                assert(self.nodes@[j].handle == h);
            }
        }
        assert forall|i: int, j: int|
            0 <= i < self.nodes@.len() && 0 <= j < self.nodes@[i].parents@.len() implies self
            .parent_before(self.nodes@[i].parents@[j], i) by {
            if i == n {
                let p = parents[j];
                g0.lemma_idx(p);
                let k = g0.idx(p);
                assert(self.nodes@[k].handle == p);
            } else {
                assert(g0.parent_before(g0.nodes@[i].parents@[j], i));
                let k = choose|k: int| 0 <= k < i && g0.nodes@[k].handle == g0.nodes@[i].parents@[j];
                assert(self.nodes@[k].handle == g0.nodes@[i].parents@[j]);
            }
        }
        assert(self.wf());
        self.lemma_idx_unique(h, n as int);
        assert forall|x: u64| x != h && g0.live(x) implies self.live(x) && self.parents_of(x)
            == g0.parents_of(x) by {
            g0.lemma_idx(x);
            let k = g0.idx(x);
            assert(self.nodes@[k].handle == x);
            self.lemma_idx_unique(x, k);
        }
        assert forall|x: u64| #[trigger] self.live(x) implies x == h || g0.live(x) by {
            self.lemma_idx(x);
            let k = self.idx(x);
            if k != n {
                assert(g0.nodes@[k].handle == x);
                assert(g0.handles()[k] == x);
            }
        }
    }

    /// Remove `h` together with everything that depends on it.
    ///
    /// Returns exactly the transitive dependents of `h` (not `h` itself),
    /// so the caller can cascade-delete their attached data.  Afterwards
    /// the graph holds precisely the objects that did not depend on `h`,
    /// in their old order and with their old parent sets, so no dangling
    /// edges remain.  Removing a handle that is not live does nothing.
    #[verifier::rlimit(50)]
    pub fn on_remove(&mut self, h: u64) -> (r: Vec<u64>)
        requires
            old(self).wf(),
        ensures
            final(self).wf(),
            r@.no_duplicates(),
            !r@.contains(h),
            forall|x: u64| #[trigger] r@.contains(x) <==> old(self).depends_on(x, h),
            forall|x: u64|
                #[trigger] final(self).live(x) <==> old(self).live(x) && x != h && !old(
                    self,
                ).depends_on(x, h),
            forall|x: u64|
                #[trigger] final(self).live(x) ==> final(self).parents_of(x) == old(
                    self,
                ).parents_of(x),
            final(self).handles() == old(self).handles().filter(keep_pred(h, r@)),
    {
        let ghost g0 = *self;
        let n = self.nodes.len();

        // Marking pass: creation order visits every node after all of its
        // parents, so one forward sweep computes the full dependent set.
        let mut doomed: Vec<u64> = Vec::new();
        let mut deps: Vec<u64> = Vec::new();
        for i in 0..n
            invariant
                *self == g0,
                g0.wf(),
                n == g0.nodes@.len(),
                forall|x: u64|
                    #[trigger] doomed@.contains(x) ==> exists|k: int|
                        0 <= k < i && g0.nodes@[k].handle == x,
                forall|x: u64| #[trigger] doomed@.contains(x) ==> x == h || g0.depends_on(x, h),
                forall|k: int|
                    0 <= k < i && (#[trigger] g0.nodes@[k].handle) == h ==> doomed@.contains(h),
                forall|k: int|
                    0 <= k < i && g0.depends_on(#[trigger] g0.nodes@[k].handle, h)
                        ==> doomed@.contains(g0.nodes@[k].handle),
                doomed@.no_duplicates(),
                forall|x: u64| #[trigger] deps@.contains(x) <==> doomed@.contains(x) && x != h,
                deps@.no_duplicates(),
        {
            let node_handle = self.nodes[i].handle;
            let hit_parent = any_contained(&self.nodes[i].parents, &doomed);
            proof {
                g0.lemma_idx_unique(node_handle, i as int);
            }
            if node_handle == h || hit_parent {
                proof {
                    if node_handle != h {
                        let j = choose|j: int|
                            0 <= j < g0.nodes@[i as int].parents@.len() && doomed@.contains(
                                #[trigger] g0.nodes@[i as int].parents@[j],
                            );
                        let p = g0.nodes@[i as int].parents@[j];
                        assert(g0.edge(node_handle, p));
                        if p == h {
                            g0.lemma_edge_depends(node_handle, p);
                        } else {
                            g0.lemma_depends_step(node_handle, p, h);
                        }
                    }
                    // the handle is fresh in `doomed`: it occupies position
                    // `i`, while everything marked so far stands earlier
                    if doomed@.contains(node_handle) {
                        let k = choose|k: int| 0 <= k < i && g0.nodes@[k].handle == node_handle;
                        assert(g0.nodes@[k].handle == g0.nodes@[i as int].handle);
                    }
                }
                let ghost d0 = doomed@;
                let ghost e0 = deps@;
                doomed.push(node_handle);
                if node_handle != h {
                    deps.push(node_handle);
                }
                proof {
                    lemma_push_contains_iff(d0, node_handle);
                    lemma_push_no_dup(d0, node_handle);
                    if node_handle != h {
                        assert(!e0.contains(node_handle));
                        lemma_push_contains_iff(e0, node_handle);
                        lemma_push_no_dup(e0, node_handle);
                    }
                    assert forall|x: u64| #[trigger] doomed@.contains(x) implies exists|k: int|
                        0 <= k < i + 1 && g0.nodes@[k].handle == x by {
                        if x == node_handle {
                            assert(g0.nodes@[i as int].handle == x);
                        } else {
                            assert(d0.contains(x));
                            let k = choose|k: int| 0 <= k < i && g0.nodes@[k].handle == x;
                        }
                    }
                }
            } else {
                proof {
                    // an unmarked node does not depend on `h`: otherwise the
                    // first step of its chain would lead to a marked parent
                    if g0.depends_on(node_handle, h) {
                        let s = choose|s: Seq<u64>|
                            #[trigger] g0.is_chain(s) && s.len() >= 2 && s[0] == node_handle
                                && s[s.len() - 1] == h;
                        assert(g0.edge(s[0], s[1]));
                        g0.lemma_parents_precede(s[0], s[1]);
                        let p = s[1];
                        let j = choose|j: int|
                            0 <= j < g0.parents_of(node_handle).len() && g0.parents_of(
                                node_handle,
                            )[j] == p;
                        assert(g0.nodes@[i as int].parents@[j] == p);
                        if p == h {
                            assert(g0.nodes@[g0.idx(p)].handle == h);
                            assert(doomed@.contains(p));
                        } else {
                            let t = s.subrange(1, s.len() as int);
                            assert forall|ii: int| 0 <= ii < t.len() - 1 implies g0.edge(
                                #[trigger] t[ii],
                                t[ii + 1],
                            ) by {
                                assert(t[ii] == s[ii + 1]);
                                assert(t[ii + 1] == s[ii + 2]);
                            }
                            assert(g0.is_chain(t) && t[0] == p && t[t.len() - 1] == h);
                            assert(g0.depends_on(p, h));
                            assert(doomed@.contains(p));
                        }
                    }
                }
            }
        }
        let ghost dmd = doomed@;
        proof {
            // the mark is complete and sound
            assert forall|x: u64| g0.depends_on(x, h) implies dmd.contains(x) by {
                g0.lemma_dependency_live(x, h);
                g0.lemma_idx(x);
            }
            if g0.live(h) {
                g0.lemma_idx(h);
            }
        }

        // Removal pass: keep exactly the unmarked nodes, in order.
        let mut kept: Vec<DepNode> = Vec::new();
        for i in 0..n
            invariant
                *self == g0,
                g0.wf(),
                n == g0.nodes@.len(),
                dmd == doomed@,
                g0.live(h) ==> dmd.contains(h),
                forall|x: u64| #[trigger] dmd.contains(x) ==> x == h || g0.depends_on(x, h),
                forall|x: u64| g0.depends_on(x, h) ==> dmd.contains(x),
                (DepGraph { nodes: kept }).wf(),
                (DepGraph { nodes: kept }).handles() == g0.handles().subrange(0, i as int).filter(
                    not_in(dmd),
                ),
                forall|kk: int|
                    0 <= kk < kept@.len() ==> g0.live(#[trigger] kept@[kk].handle)
                        && kept@[kk].parents@ == g0.parents_of(kept@[kk].handle),
        {
            let ghost pre = g0.handles().subrange(0, i as int);
            let ghost cur = g0.handles().subrange(0, i + 1);
            proof {
                assert(cur.drop_last() =~= pre);
                assert(cur.last() == g0.nodes@[i as int].handle);
            }
            let node_handle = self.nodes[i].handle;
            if !contains_u64(&doomed, node_handle) {
                let ghost gk0 = DepGraph { nodes: kept };
                let parents_copy = copy_u64_vec(&self.nodes[i].parents);
                proof {
                    g0.lemma_idx_unique(node_handle, i as int);
                    // the handle is not yet among the kept ones
                    if gk0.live(node_handle) {
                        lemma_filter_member(pre, not_in(dmd), node_handle);
                        let k = choose|k: int| 0 <= k < pre.len() && pre[k] == node_handle;
                        assert(g0.nodes@[k].handle == g0.nodes@[i as int].handle);
                    }
                }
                kept.push(DepNode { handle: node_handle, parents: parents_copy });
                proof {
                    let gk = DepGraph { nodes: kept };
                    assert forall|j: int|
                        0 <= j < g0.nodes@[i as int].parents@.len() implies gk0.live(
                        #[trigger] g0.nodes@[i as int].parents@[j],
                    ) by {
                        let p = g0.nodes@[i as int].parents@[j];
                        assert(g0.edge(node_handle, p));
                        g0.lemma_parents_precede(node_handle, p);
                        if dmd.contains(p) {
                            if p == h {
                                g0.lemma_edge_depends(node_handle, p);
                            } else {
                                g0.lemma_depends_step(node_handle, p, h);
                            }
                            assert(dmd.contains(node_handle));
                        }
                        let kp = g0.idx(p);
                        assert(pre[kp] == p);
                        pre.lemma_filter_contains(not_in(dmd), kp);
                    }
                    gk.lemma_insert_push_ok(gk0, node_handle, g0.nodes@[i as int].parents@);
                    reveal_with_fuel(Seq::<u64>::filter, 2);
                    assert(cur.filter(not_in(dmd)) == pre.filter(not_in(dmd)).push(cur.last()));
                    assert(gk.handles() =~= cur.filter(not_in(dmd)));
                }
            } else {
                proof {
                    assert(dmd.contains(g0.nodes@[i as int].handle));
                    reveal_with_fuel(Seq::<u64>::filter, 2);
                    assert(cur.filter(not_in(dmd)) == pre.filter(not_in(dmd)));
                    assert((DepGraph { nodes: kept }).handles() =~= cur.filter(not_in(dmd)));
                }
            }
        }
        proof {
            assert(g0.handles().subrange(0, n as int) =~= g0.handles());
        }
        self.nodes = kept;
        proof {
            let gk = *self;
            g0.lemma_wf_acyclic();
            assert forall|k: int| 0 <= k < g0.handles().len() implies not_in(dmd)(
                #[trigger] g0.handles()[k],
            ) == keep_pred(h, deps@)(g0.handles()[k]) by {
                let x = g0.handles()[k];
                if dmd.contains(x) {
                    if x != h {
                        assert(deps@.contains(x));
                    }
                } else {
                    assert(!deps@.contains(x));
                    if x == h {
                        assert(g0.live(h));
                        assert(dmd.contains(h));
                    }
                }
            }
            lemma_filter_equiv(g0.handles(), not_in(dmd), keep_pred(h, deps@));
            assert forall|x: u64|
                #[trigger] gk.live(x) <==> (g0.live(x) && x != h && !g0.depends_on(x, h)) by {
                if gk.live(x) {
                    lemma_filter_member(g0.handles(), not_in(dmd), x);
                    assert(!dmd.contains(x));
                }
                if g0.live(x) && x != h && !g0.depends_on(x, h) {
                    g0.lemma_idx(x);
                    let k = g0.idx(x);
                    assert(g0.handles()[k] == x);
                    assert(!dmd.contains(x));
                    g0.handles().lemma_filter_contains(not_in(dmd), k);
                }
            }
            assert forall|x: u64| #[trigger] gk.live(x) implies gk.parents_of(x) == g0.parents_of(
                x,
            ) by {
                gk.lemma_idx(x);
                let kk = gk.idx(x);
                assert(gk.nodes@[kk].parents@ == g0.parents_of(x));
            }
            assert forall|x: u64| #[trigger] deps@.contains(x) implies g0.depends_on(x, h) by {
                assert(dmd.contains(x) && x != h);
            }
            assert forall|x: u64| g0.depends_on(x, h) implies deps@.contains(x) by {
                assert(dmd.contains(x));
                if x == h {
                    assert(g0.has_cycle());
                }
            }
        }
        deps
    }

    /// The total recomputation order: every live handle once, parents
    /// before children (see [`DepGraph::lemma_parents_precede`]).
    pub fn topological_order(&self) -> (r: Vec<u64>)
        ensures
            r@ == self.handles(),
    {
        let mut r: Vec<u64> = Vec::new();
        let n = self.nodes.len();
        for i in 0..n
            invariant
                n == self.nodes@.len(),
                r@ == self.handles().subrange(0, i as int),
        {
            r.push(self.nodes[i].handle);
            proof {
                assert(r@ =~= self.handles().subrange(0, i + 1));
            }
        }
        proof {
            assert(self.handles().subrange(0, n as int) =~= self.handles());
        }
        r
    }
}


/// The predicate that keeps a handle when neither it nor anything marked
/// as removed matches it; names the filter used by
/// [`DepGraph::on_remove`]'s contract.
pub open spec fn keep_pred(h: u64, removed: Seq<u64>) -> spec_fn(u64) -> bool {
    |x: u64| x != h && !removed.contains(x)
}

/// The predicate that keeps a handle outside a marked set.
pub open spec fn not_in(s: Seq<u64>) -> spec_fn(u64) -> bool {
    |x: u64| !s.contains(x)
}

/// Whether `x` occurs in `v`.
pub fn contains_u64(v: &Vec<u64>, x: u64) -> (r: bool)
    ensures
        r == v@.contains(x),
{
    let n = v.len();
    for i in 0..n
        invariant
            n == v@.len(),
            forall|k: int| 0 <= k < i ==> v@[k] != x,
    {
        if v[i] == x {
            return true;
        }
    }
    proof {
        if v@.contains(x) {
            let k = choose|k: int| 0 <= k < v@.len() && v@[k] == x;
        }
    }
    false
}

/// Whether any element of `items` occurs in `set`.
fn any_contained(items: &Vec<u64>, set: &Vec<u64>) -> (r: bool)
    ensures
        r == exists|j: int| 0 <= j < items@.len() && set@.contains(#[trigger] items@[j]),
{
    let n = items.len();
    for j in 0..n
        invariant
            n == items@.len(),
            forall|k: int| 0 <= k < j ==> !set@.contains(#[trigger] items@[k]),
    {
        if contains_u64(set, items[j]) {
            assert(set@.contains(items@[j as int]));
            return true;
        }
    }
    false
}

/// An element-for-element copy of a handle list.
pub(crate) fn copy_u64_vec(v: &Vec<u64>) -> (r: Vec<u64>)
    ensures
        r@ == v@,
{
    let mut r: Vec<u64> = Vec::new();
    let n = v.len();
    for i in 0..n
        invariant
            n == v@.len(),
            r@ == v@.subrange(0, i as int),
    {
        r.push(v[i]);
        proof {
            assert(r@ =~= v@.subrange(0, i + 1));
        }
    }
    proof {
        assert(v@.subrange(0, n as int) =~= v@);
    }
    r
}

/// Membership after a push, for any element type.
pub proof fn lemma_push_contains_iff_gen<A>(s: Seq<A>, x: A)
    ensures
        forall|y: A| #[trigger] s.push(x).contains(y) <==> s.contains(y) || y == x,
{
    assert forall|y: A| #[trigger] s.push(x).contains(y) <==> (s.contains(y) || y == x) by {
        if s.push(x).contains(y) {
            let k = choose|k: int| 0 <= k < s.push(x).len() && s.push(x)[k] == y;
            if k < s.len() {
                assert(s[k] == y);
            }
        }
        if s.contains(y) {
            let k = choose|k: int| 0 <= k < s.len() && s[k] == y;
            assert(s.push(x)[k] == y);
        }
        if y == x {
            assert(s.push(x)[s.len() as int] == y);
        }
    }
}

/// Membership after a push: the old elements and the new one.
pub proof fn lemma_push_contains_iff(s: Seq<u64>, x: u64)
    ensures
        forall|y: u64| #[trigger] s.push(x).contains(y) <==> s.contains(y) || y == x,
{
    assert forall|y: u64| #[trigger] s.push(x).contains(y) <==> (s.contains(y) || y == x) by {
        if s.push(x).contains(y) {
            let k = choose|k: int| 0 <= k < s.push(x).len() && s.push(x)[k] == y;
            if k < s.len() {
                assert(s[k] == y);
            }
        }
        if s.contains(y) {
            let k = choose|k: int| 0 <= k < s.len() && s[k] == y;
            assert(s.push(x)[k] == y);
        }
        if y == x {
            assert(s.push(x)[s.len() as int] == y);
        }
    }
}

/// Pushing a fresh element keeps a sequence duplicate-free.
pub proof fn lemma_push_no_dup(s: Seq<u64>, x: u64)
    requires
        s.no_duplicates(),
        !s.contains(x),
    ensures
        s.push(x).no_duplicates(),
{
    assert forall|a: int, b: int|
        0 <= a < b < s.push(x).len() implies s.push(x)[a] != s.push(x)[b] by {
        if b == s.len() {
            if s.push(x)[a] == x {
                assert(s[a] == x);
            }
        }
    }
}

/// Everything a filter keeps comes from the underlying sequence and
/// satisfies the predicate.
pub proof fn lemma_filter_member<A>(s: Seq<A>, pred: spec_fn(A) -> bool, x: A)
    requires
        s.filter(pred).contains(x),
    ensures
        s.contains(x),
        pred(x),
    decreases s.len(),
{
    reveal_with_fuel(Seq::<u64>::filter, 2);
    if s.len() == 0 {
        assert(s.filter(pred) =~= Seq::<A>::empty());
    } else {
        let sub = s.drop_last();
        if pred(s.last()) {
            assert(s.filter(pred) == sub.filter(pred).push(s.last()));
            if x == s.last() {
                assert(s[s.len() - 1] == x);
            } else {
                let k = choose|k: int| 0 <= k < s.filter(pred).len() && s.filter(pred)[k] == x;
                assert(sub.filter(pred)[k] == x);
                assert(sub.filter(pred).contains(x));
                lemma_filter_member(sub, pred, x);
                let k2 = choose|k2: int| 0 <= k2 < sub.len() && sub[k2] == x;
                assert(s[k2] == x);
            }
        } else {
            assert(s.filter(pred) == sub.filter(pred));
            lemma_filter_member(sub, pred, x);
            let k2 = choose|k2: int| 0 <= k2 < sub.len() && sub[k2] == x;
            assert(s[k2] == x);
        }
    }
}

/// Predicates that agree on every element of a sequence filter it to
/// equal results.
pub proof fn lemma_filter_equiv<A>(s: Seq<A>, p1: spec_fn(A) -> bool, p2: spec_fn(A) -> bool)
    requires
        forall|i: int| 0 <= i < s.len() ==> p1(#[trigger] s[i]) == p2(s[i]),
    ensures
        s.filter(p1) == s.filter(p2),
    decreases s.len(),
{
    reveal_with_fuel(Seq::<u64>::filter, 2);
    if s.len() == 0 {
        assert(s.filter(p1) =~= s.filter(p2));
    } else {
        assert forall|i: int| 0 <= i < s.drop_last().len() implies p1(
            #[trigger] s.drop_last()[i],
        ) == p2(s.drop_last()[i]) by {
            assert(s.drop_last()[i] == s[i]);
        }
        lemma_filter_equiv(s.drop_last(), p1, p2);
        assert(s.last() == s[s.len() - 1]);
        assert(p1(s.last()) == p2(s.last()));
        assert(s.filter(p1) == if p1(s.last()) {
            s.drop_last().filter(p1).push(s.last())
        } else {
            s.drop_last().filter(p1)
        });
        assert(s.filter(p2) == if p2(s.last()) {
            s.drop_last().filter(p2).push(s.last())
        } else {
            s.drop_last().filter(p2)
        });
    }
}

} // verus!
