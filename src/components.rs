use vstd::prelude::*;
use crate::board::{adjacent, before, Board};
use crate::cell::{Cell, Ownership};

verus! {

/// `s` holds a cell at `(x, y)`.
pub open spec fn holds(s: Seq<Cell>, x: int, y: int) -> bool {
    exists|j: int| 0 <= j < s.len() && (#[trigger] s[j]).x == x && s[j].y == y
}

/// The components as sequences of cells.
pub open spec fn comps_view(v: Seq<Vec<Cell>>) -> Seq<Seq<Cell>> {
    v.map_values(|c: Vec<Cell>| c@)
}

/// Marker `(x, y)` of a marker grid.
pub open spec fn marked(v: Seq<Vec<bool>>, x: int, y: int) -> bool {
    v[x]@[y]
}

/// Number of unset markers in a row.
pub open spec fn unmarked_in_row(r: Seq<bool>) -> nat
    decreases r.len(),
{
    if r.len() == 0 {
        0
    } else {
        unmarked_in_row(r.drop_last()) + if r.last() { 0nat } else { 1nat }
    }
}

/// Number of unset markers in a marker grid.
pub open spec fn unmarked(v: Seq<Vec<bool>>) -> nat
    decreases v.len(),
{
    if v.len() == 0 {
        0
    } else {
        unmarked(v.drop_last()) + unmarked_in_row(v.last()@)
    }
}

proof fn lemma_mark_row(r: Seq<bool>, j: int)
    requires
        0 <= j < r.len(),
        !r[j],
    ensures
        unmarked_in_row(r.update(j, true)) + 1 == unmarked_in_row(r),
    decreases r.len(),
{
    if j == r.len() - 1 {
        assert(r.update(j, true).drop_last() =~= r.drop_last());
    } else {
        assert(r.update(j, true).drop_last() =~= r.drop_last().update(j, true));
        lemma_mark_row(r.drop_last(), j);
    }
}

proof fn lemma_mark(v: Seq<Vec<bool>>, x: int, y: int, row: Vec<bool>)
    requires
        0 <= x < v.len(),
        0 <= y < v[x]@.len(),
        !v[x]@[y],
        row@ == v[x]@.update(y, true),
    ensures
        unmarked(v.update(x, row)) + 1 == unmarked(v),
    decreases v.len(),
{
    if x == v.len() - 1 {
        assert(v.update(x, row).drop_last() =~= v.drop_last());
        lemma_mark_row(v[x]@, y);
    } else {
        assert(v.update(x, row).drop_last() =~= v.drop_last().update(x, row));
        lemma_mark(v.drop_last(), x, y, row);
    }
}

impl Board {
    /// `(x, y)` is on the board and held by a player.
    pub open spec fn occupied(&self, x: int, y: int) -> bool {
        self.in_bounds(x, y) && self.owner(x, y) != Ownership::Unowned
    }

    /// Two occupied, hex-adjacent cells of the same owner.
    pub open spec fn linked(&self, x1: int, y1: int, x2: int, y2: int) -> bool {
        &&& self.occupied(x1, y1)
        &&& self.occupied(x2, y2)
        &&& adjacent(x1, y1, x2, y2)
        &&& self.owner(x1, y1) == self.owner(x2, y2)
    }

    /// Cell `c` is linked to `(x, y)`.
    pub open spec fn joins(&self, c: Cell, x: int, y: int) -> bool {
        self.linked(c.x as int, c.y as int, x, y)
    }

    /// `c` is an occupied cell of this board, as the board holds it.
    pub open spec fn is_member(&self, c: Cell) -> bool {
        self.occupied(c.x as int, c.y as int) && c == self.cell(c.x as int, c.y as int)
    }

    /// A connected component: distinct occupied cells, each after the first
    /// linked to an earlier one (so all are connected through same-owner
    /// steps), and closed: every cell linked to a member is a member.
    pub open spec fn is_component(&self, s: Seq<Cell>) -> bool {
        &&& s.len() > 0
        &&& forall|j: int| 0 <= j < s.len() ==> self.is_member(#[trigger] s[j])
        &&& forall|j1: int, j2: int|
            0 <= j1 < s.len() && 0 <= j2 < s.len() && j1 != j2 ==> !((#[trigger] s[j1]).x == (#[trigger] s[j2]).x
                && s[j1].y == s[j2].y)
        &&& forall|j: int|
            #![trigger s[j]]
            0 < j < s.len() ==> exists|k: int| 0 <= k < j && #[trigger] self.joins(s[k], s[j].x as int, s[j].y as int)
        &&& forall|j: int, a: int, b: int|
            0 <= j < s.len() && #[trigger] self.joins(s[j], a, b) ==> holds(s, a, b)
    }

    /// `cs` splits the occupied cells into connected components: each is a
    /// component, no cell lies in two, and every occupied cell lies in one.
    pub open spec fn is_partition(&self, cs: Seq<Seq<Cell>>) -> bool {
        &&& forall|i: int| 0 <= i < cs.len() ==> self.is_component(#[trigger] cs[i])
        &&& forall|i1: int, i2: int, j1: int, j2: int|
            0 <= i1 < cs.len() && 0 <= i2 < cs.len() && i1 != i2 && 0 <= j1 < cs[i1].len() && 0 <= j2 < cs[i2].len()
                ==> !((#[trigger] cs[i1][j1]).x == (#[trigger] cs[i2][j2]).x && cs[i1][j1].y == cs[i2][j2].y)
        &&& forall|x: int, y: int|
            #[trigger] self.occupied(x, y) ==> exists|i: int| 0 <= i < cs.len() && holds(#[trigger] cs[i], x, y)
    }

    /// `visited` is a `dim_x` by `dim_y` marker grid.
    pub open spec fn fits(&self, visited: Seq<Vec<bool>>) -> bool {
        &&& visited.len() == self.dim_x
        &&& forall|a: int| 0 <= a < self.dim_x ==> #[trigger] visited[a]@.len() == self.dim_y
    }
}

impl Board {
    /// The state of a component grown from `node`: `c` starts with `node`,
    /// holds distinct members of `node`'s owner, each after the first linked
    /// to an earlier one and unmarked in `v0`; `v` is `v0` with the members
    /// of `c` marked.
    #[verifier::opaque]
    spec fn growing(&self, v0: Seq<Vec<bool>>, v: Seq<Vec<bool>>, c: Seq<Cell>, node: Cell) -> bool {
        &&& self.fits(v0)
        &&& self.fits(v)
        &&& self.is_member(node)
        &&& marked(v0, node.x as int, node.y as int)
        &&& c.len() > 0
        &&& c[0] == node
        &&& forall|j: int| 0 <= j < c.len() ==> self.is_member(#[trigger] c[j]) && c[j].ownership == node.ownership
        &&& forall|j1: int, j2: int|
            0 <= j1 < c.len() && 0 <= j2 < c.len() && j1 != j2 ==> !((#[trigger] c[j1]).x == (#[trigger] c[j2]).x
                && c[j1].y == c[j2].y)
        &&& forall|j: int|
            #![trigger c[j]]
            0 < j < c.len() ==> exists|k: int| 0 <= k < j && #[trigger] self.joins(c[k], c[j].x as int, c[j].y as int)
        &&& forall|j: int| 0 < j < c.len() ==> !marked(v0, (#[trigger] c[j]).x as int, c[j].y as int)
        &&& forall|j: int| 0 <= j < c.len() ==> marked(v, (#[trigger] c[j]).x as int, c[j].y as int)
        &&& forall|a: int, b: int|
            #![trigger marked(v, a, b)]
            self.in_bounds(a, b) ==> (marked(v, a, b) <==> (marked(v0, a, b) || holds(c, a, b)))
    }

    /// Every cell linked to one of the first `upto` cells of `c` is marked.
    #[verifier::opaque]
    spec fn processed(&self, v: Seq<Vec<bool>>, c: Seq<Cell>, upto: int) -> bool {
        forall|j: int, a: int, b: int| 0 <= j < upto && #[trigger] self.joins(c[j], a, b) ==> marked(v, a, b)
    }

    proof fn lemma_grow_start(&self, v0: Seq<Vec<bool>>, c: Seq<Cell>, node: Cell)
        requires
            self.fits(v0),
            self.is_member(node),
            marked(v0, node.x as int, node.y as int),
            c == seq![node],
        ensures
            self.growing(v0, v0, c, node),
            self.processed(v0, c, 0),
    {
        reveal(Board::growing);
        reveal(Board::processed);
        assert forall|a: int, b: int|
            #![trigger marked(v0, a, b)]
            self.in_bounds(a, b) implies (marked(v0, a, b) <==> (marked(v0, a, b) || holds(c, a, b))) by {
            if holds(c, a, b) {
                let j = choose|j: int| 0 <= j < c.len() && (#[trigger] c[j]).x == a && c[j].y == b;
                assert(c[j] == node);
            }
        }
    }

    proof fn lemma_grow_absorb(
        &self,
        v0: Seq<Vec<bool>>,
        vb: Seq<Vec<bool>>,
        va: Seq<Vec<bool>>,
        cb: Seq<Cell>,
        node: Cell,
        i: int,
        p: int,
        n: Cell,
    )
        requires
            self.growing(v0, vb, cb, node),
            self.processed(vb, cb, i),
            0 <= p < cb.len(),
            self.joins(cb[p], n.x as int, n.y as int),
            n == self.cell(n.x as int, n.y as int),
            n.ownership == node.ownership,
            self.in_bounds(n.x as int, n.y as int),
            !marked(vb, n.x as int, n.y as int),
            va == vb.update(n.x as int, va[n.x as int]),
            va[n.x as int]@ == vb[n.x as int]@.update(n.y as int, true),
        ensures
            self.growing(v0, va, cb.push(n), node),
            self.processed(va, cb.push(n), i),
            unmarked(va) + 1 == unmarked(vb),
            forall|a: int, b: int| #[trigger] marked(vb, a, b) && self.in_bounds(a, b) ==> marked(va, a, b),
    {
        reveal(Board::growing);
        reveal(Board::processed);
        lemma_mark(vb, n.x as int, n.y as int, va[n.x as int]);
        let ca = cb.push(n);
        let len = cb.len() as int;
        assert(ca[len] == n);
        assert forall|a: int, b: int| #[trigger] marked(vb, a, b) && self.in_bounds(a, b) implies marked(va, a, b) by {
            if a == n.x {
            }
        }
        assert forall|j1: int, j2: int|
            0 <= j1 < ca.len() && 0 <= j2 < ca.len() && j1 != j2 implies !((#[trigger] ca[j1]).x == (#[trigger] ca[j2]).x
                && ca[j1].y == ca[j2].y) by {
            if j1 == len {
                assert(marked(vb, ca[j2].x as int, ca[j2].y as int));
            } else if j2 == len {
                assert(marked(vb, ca[j1].x as int, ca[j1].y as int));
            } else {
                assert(ca[j1] == cb[j1] && ca[j2] == cb[j2]);
            }
        }
        assert forall|j: int|
            #![trigger ca[j]]
            0 < j < ca.len() implies exists|k: int| 0 <= k < j && #[trigger] self.joins(ca[k], ca[j].x as int, ca[j].y as int) by {
            if j == len {
                assert(ca[p] == cb[p]);
            } else {
                let k = choose|k: int| 0 <= k < j && #[trigger] self.joins(cb[k], cb[j].x as int, cb[j].y as int);
                assert(ca[k] == cb[k] && ca[j] == cb[j]);
            }
        }
        assert forall|j: int| 0 <= j < ca.len() implies marked(va, (#[trigger] ca[j]).x as int, ca[j].y as int) by {
            if j < len {
                assert(ca[j] == cb[j]);
                assert(marked(vb, cb[j].x as int, cb[j].y as int));
            }
        }
        assert forall|a: int, b: int|
            #![trigger marked(va, a, b)]
            self.in_bounds(a, b) implies (marked(va, a, b) <==> (marked(v0, a, b) || holds(ca, a, b))) by {
            if a == n.x && b == n.y {
                assert(ca[len].x == a && ca[len].y == b);
            } else {
                assert(marked(va, a, b) == marked(vb, a, b));
                assert(marked(vb, a, b) <==> (marked(v0, a, b) || holds(cb, a, b)));
                if holds(ca, a, b) {
                    let j = choose|j: int| 0 <= j < ca.len() && (#[trigger] ca[j]).x == a && ca[j].y == b;
                    assert(j != len);
                    assert(cb[j] == ca[j]);
                }
                if holds(cb, a, b) {
                    let j = choose|j: int| 0 <= j < cb.len() && (#[trigger] cb[j]).x == a && cb[j].y == b;
                    assert(cb[j] == ca[j]);
                }
            }
        }
        assert forall|j: int, a: int, b: int| 0 <= j < i && #[trigger] self.joins(ca[j], a, b) implies marked(va, a, b) by {
            if j < len {
                assert(ca[j] == cb[j]);
                assert(marked(vb, a, b));
            }
        }
    }

    /// Grows the component of `node` from its hex neighbours, breadth first,
    /// marking each cell that joins it. `node` must already be marked.
    fn expand_component(&self, visited_nodes: &mut Vec<Vec<bool>>, node: Cell) -> (r: Vec<Cell>)
        requires
            self.wf(),
            !self.spec_is_empty(),
            self.fits(old(visited_nodes)@),
            self.is_member(node),
            marked(old(visited_nodes)@, node.x as int, node.y as int),
        ensures
            self.growing(old(visited_nodes)@, final(visited_nodes)@, r@, node),
            self.processed(final(visited_nodes)@, r@, r@.len() as int),
    {
        let ghost v0 = visited_nodes@;
        let mut component_nodes: Vec<Cell> = Vec::new();
        component_nodes.push(node);
        proof {
            self.lemma_grow_start(v0, component_nodes@, node);
        }
        let mut i: usize = 0;
        while i < component_nodes.len()
            invariant
                self.wf(),
                !self.spec_is_empty(),
                self.fits(visited_nodes@),
                i <= component_nodes@.len(),
                self.growing(v0, visited_nodes@, component_nodes@, node),
                self.processed(visited_nodes@, component_nodes@, i as int),
            decreases unmarked(visited_nodes@) + component_nodes@.len() - i,
        {
            let current = component_nodes[i];
            proof {
                reveal(Board::growing);
            }
            let ghost m0 = unmarked(visited_nodes@) + component_nodes@.len();
            let neighbours = self.get_neighbours(current.x as isize, current.y as isize);
            let mut k: usize = 0;
            while k < neighbours.len()
                invariant
                    self.wf(),
                    !self.spec_is_empty(),
                    self.fits(visited_nodes@),
                    i < component_nodes@.len(),
                    component_nodes@[i as int] == current,
                    current.ownership == node.ownership,
                    self.is_member(current),
                    k <= neighbours@.len(),
                    forall|j: int|
                        0 <= j < neighbours@.len() ==> {
                            let c = #[trigger] neighbours@[j];
                            &&& self.in_bounds(c.x as int, c.y as int)
                            &&& adjacent(current.x as int, current.y as int, c.x as int, c.y as int)
                            &&& c == self.cell(c.x as int, c.y as int)
                        },
                    forall|a: int, b: int|
                        #![trigger adjacent(current.x as int, current.y as int, a, b)]
                        self.in_bounds(a, b) && adjacent(current.x as int, current.y as int, a, b) ==> exists|j: int|
                            0 <= j < neighbours@.len() && (#[trigger] neighbours@[j]).x == a && neighbours@[j].y == b,
                    unmarked(visited_nodes@) + component_nodes@.len() == m0,
                    self.growing(v0, visited_nodes@, component_nodes@, node),
                    self.processed(visited_nodes@, component_nodes@, i as int),
                    forall|t: int|
                        0 <= t < k && (#[trigger] neighbours@[t]).ownership == current.ownership ==> marked(
                            visited_nodes@,
                            neighbours@[t].x as int,
                            neighbours@[t].y as int,
                        ),
                decreases neighbours@.len() - k,
            {
                let n = neighbours[k];
                assert(self.in_bounds(n.x as int, n.y as int));
                if !visited_nodes[n.x][n.y] && n.ownership == current.ownership {
                    let ghost vb = visited_nodes@;
                    let ghost cb = component_nodes@;
                    visited_nodes[n.x][n.y] = true;
                    component_nodes.push(n);
                    proof {
                        assert(visited_nodes@ == vb.update(n.x as int, visited_nodes@[n.x as int]));
                        self.lemma_grow_absorb(v0, vb, visited_nodes@, cb, node, i as int, i as int, n);
                        assert(component_nodes@[i as int] == current);
                        assert forall|t: int|
                            0 <= t < k + 1 && (#[trigger] neighbours@[t]).ownership == current.ownership implies marked(
                                visited_nodes@,
                                neighbours@[t].x as int,
                                neighbours@[t].y as int,
                            ) by {
                            if t < k {
                                assert(marked(vb, neighbours@[t].x as int, neighbours@[t].y as int));
                            }
                        }
                    }
                }
                k += 1;
            }
            proof {
                reveal(Board::processed);
                assert forall|j: int, a: int, b: int|
                    0 <= j < i + 1 && #[trigger] self.joins(component_nodes@[j], a, b) implies marked(
                        visited_nodes@,
                        a,
                        b,
                    ) by {
                    if j == i {
                        assert(adjacent(current.x as int, current.y as int, a, b));
                        let t = choose|t: int|
                            0 <= t < neighbours@.len() && (#[trigger] neighbours@[t]).x == a && neighbours@[t].y == b;
                        assert(neighbours@[t].ownership == current.ownership);
                    }
                }
            }
            i += 1;
        }
        component_nodes
    }
}

impl Board {
    /// What the scan of the board keeps true: the components found so far
    /// are components and pairwise disjoint, their cells are marked, and
    /// every marked occupied cell lies in one of them.
    #[verifier::opaque]
    spec fn scan_state(&self, cs: Seq<Seq<Cell>>, v: Seq<Vec<bool>>) -> bool {
        &&& forall|i: int| 0 <= i < cs.len() ==> self.is_component(#[trigger] cs[i])
        &&& forall|i1: int, i2: int, j1: int, j2: int|
            0 <= i1 < cs.len() && 0 <= i2 < cs.len() && i1 != i2 && 0 <= j1 < cs[i1].len() && 0 <= j2 < cs[i2].len()
                ==> !((#[trigger] cs[i1][j1]).x == (#[trigger] cs[i2][j2]).x && cs[i1][j1].y == cs[i2][j2].y)
        &&& forall|i: int, j: int|
            0 <= i < cs.len() && 0 <= j < cs[i].len() ==> marked(v, (#[trigger] cs[i][j]).x as int, cs[i][j].y as int)
        &&& forall|a: int, b: int|
            #![trigger marked(v, a, b)]
            self.occupied(a, b) && marked(v, a, b) ==> exists|i: int| 0 <= i < cs.len() && holds(#[trigger] cs[i], a, b)
    }

    proof fn lemma_scan_mark_unowned(&self, cs: Seq<Seq<Cell>>, v: Seq<Vec<bool>>, w: Seq<Vec<bool>>, x: int, y: int)
        requires
            self.scan_state(cs, v),
            self.in_bounds(x, y),
            !self.occupied(x, y),
            forall|i: int, j: int| #[trigger] marked(v, i, j) && self.in_bounds(i, j) ==> marked(w, i, j),
            forall|i: int, j: int| #[trigger] marked(w, i, j) && self.in_bounds(i, j) ==> marked(v, i, j) || (i == x && j == y),
            forall|i: int, j: int|
                0 <= i < cs.len() && 0 <= j < cs[i].len() ==> self.in_bounds((#[trigger] cs[i][j]).x as int, cs[i][j].y as int),
        ensures
            self.scan_state(cs, w),
    {
        reveal(Board::scan_state);
    }

    proof fn lemma_scan_add(
        &self,
        cs: Seq<Seq<Cell>>,
        vp: Seq<Vec<bool>>,
        v1: Seq<Vec<bool>>,
        v2: Seq<Vec<bool>>,
        comp: Seq<Cell>,
        node: Cell,
    )
        requires
            self.wf(),
            self.scan_state(cs, vp),
            self.is_member(node),
            !marked(vp, node.x as int, node.y as int),
            forall|i: int, j: int| #[trigger] marked(vp, i, j) && self.in_bounds(i, j) ==> marked(v1, i, j),
            forall|i: int, j: int|
                #[trigger] marked(v1, i, j) && self.in_bounds(i, j) ==> marked(vp, i, j) || (i == node.x && j == node.y),
            self.growing(v1, v2, comp, node),
            self.processed(v2, comp, comp.len() as int),
        ensures
            self.scan_state(cs.push(comp), v2),
            forall|i: int, j: int| #[trigger] marked(vp, i, j) && self.in_bounds(i, j) ==> marked(v2, i, j),
    {
        reveal(Board::scan_state);
        reveal(Board::growing);
        reveal(Board::processed);
        let ncs = cs.push(comp);
        let n = cs.len() as int;
        assert(ncs[n] == comp);
        assert(holds(comp, node.x as int, node.y as int)) by {
            assert(comp[0] == node);
        }
        // a cell of the new component was unmarked before the scan reached it
        assert forall|j: int| 0 <= j < comp.len() implies !marked(vp, (#[trigger] comp[j]).x as int, comp[j].y as int) by {
            if j > 0 {
                assert(!marked(v1, comp[j].x as int, comp[j].y as int));
            }
        }
        assert forall|i: int, j: int| #[trigger] marked(vp, i, j) && self.in_bounds(i, j) implies marked(v2, i, j) by {
            assert(marked(v1, i, j));
        }
        assert forall|j: int, a: int, b: int| 0 <= j < comp.len() && #[trigger] self.joins(comp[j], a, b) implies holds(
            comp,
            a,
            b,
        ) by {
            assert(marked(v2, a, b));
            if !holds(comp, a, b) && !(a == node.x && b == node.y) {
                assert(marked(vp, a, b));
                let i = choose|i: int| 0 <= i < cs.len() && holds(#[trigger] cs[i], a, b);
                let s = cs[i];
                assert(self.is_component(s));
                let t = choose|t: int| 0 <= t < s.len() && (#[trigger] s[t]).x == a && s[t].y == b;
                assert(self.is_member(s[t]));
                assert(self.joins(s[t], comp[j].x as int, comp[j].y as int));
                let u = choose|u: int| 0 <= u < s.len() && (#[trigger] s[u]).x == comp[j].x && s[u].y == comp[j].y;
                assert(marked(vp, s[u].x as int, s[u].y as int));
                assert(false);
            }
        }
        assert(self.is_component(comp));
        assert forall|i: int| 0 <= i < ncs.len() implies self.is_component(#[trigger] ncs[i]) by {
            if i < n {
                assert(ncs[i] == cs[i]);
            }
        }
        assert forall|i1: int, i2: int, j1: int, j2: int|
            0 <= i1 < ncs.len() && 0 <= i2 < ncs.len() && i1 != i2 && 0 <= j1 < ncs[i1].len() && 0 <= j2 < ncs[i2].len()
                implies !((#[trigger] ncs[i1][j1]).x == (#[trigger] ncs[i2][j2]).x && ncs[i1][j1].y == ncs[i2][j2].y) by {
            if i1 == n {
                assert(ncs[i2] == cs[i2]);
                assert(marked(vp, cs[i2][j2].x as int, cs[i2][j2].y as int));
            } else if i2 == n {
                assert(ncs[i1] == cs[i1]);
                assert(marked(vp, cs[i1][j1].x as int, cs[i1][j1].y as int));
            } else {
                assert(ncs[i1] == cs[i1] && ncs[i2] == cs[i2]);
            }
        }
        assert forall|i: int, j: int|
            0 <= i < ncs.len() && 0 <= j < ncs[i].len() implies marked(v2, (#[trigger] ncs[i][j]).x as int, ncs[i][j].y as int) by {
            if i < n {
                assert(ncs[i] == cs[i]);
                assert(marked(vp, cs[i][j].x as int, cs[i][j].y as int));
                assert(self.is_component(cs[i]));
                assert(self.is_member(cs[i][j]));
            }
        }
        assert forall|a: int, b: int|
            #![trigger marked(v2, a, b)]
            self.occupied(a, b) && marked(v2, a, b) implies exists|i: int| 0 <= i < ncs.len() && holds(#[trigger] ncs[i], a, b) by {
            if holds(comp, a, b) || (a == node.x && b == node.y) {
                assert(holds(ncs[n], a, b));
            } else {
                assert(marked(vp, a, b));
                let i = choose|i: int| 0 <= i < cs.len() && holds(#[trigger] cs[i], a, b);
                assert(ncs[i] == cs[i]);
            }
        }
    }

    /// Cells of two different components are never linked.
    pub proof fn lemma_components_apart(&self, cs: Seq<Seq<Cell>>)
        requires
            self.is_partition(cs),
        ensures
            forall|i1: int, i2: int, j1: int, j2: int|
                0 <= i1 < cs.len() && 0 <= i2 < cs.len() && i1 != i2 && 0 <= j1 < cs[i1].len() && 0 <= j2 < cs[i2].len()
                    ==> !self.joins(#[trigger] cs[i1][j1], (#[trigger] cs[i2][j2]).x as int, cs[i2][j2].y as int),
    {
        assert forall|i1: int, i2: int, j1: int, j2: int|
            0 <= i1 < cs.len() && 0 <= i2 < cs.len() && i1 != i2 && 0 <= j1 < cs[i1].len() && 0 <= j2 < cs[i2].len()
                implies !self.joins(#[trigger] cs[i1][j1], (#[trigger] cs[i2][j2]).x as int, cs[i2][j2].y as int) by {
            if self.joins(cs[i1][j1], cs[i2][j2].x as int, cs[i2][j2].y as int) {
                let s = cs[i1];
                assert(self.is_component(s));
                assert(holds(s, cs[i2][j2].x as int, cs[i2][j2].y as int));
                let t = choose|t: int|
                    0 <= t < s.len() && (#[trigger] s[t]).x == cs[i2][j2].x as int && s[t].y == cs[i2][j2].y as int;
                assert(cs[i1][t] == s[t]);
            }
        }
    }

    /// Splits the occupied cells into their connected components: maximal
    /// groups of same-owner cells joined through hex-adjacent steps. The
    /// order of the components, and of the cells in each, is that of the
    /// search.
    pub fn find_connected_components(&self) -> (r: Vec<Vec<Cell>>)
        requires
            self.wf(),
        ensures
            self.is_partition(comps_view(r@)),
            forall|i1: int, i2: int, j1: int, j2: int|
                0 <= i1 < r@.len() && 0 <= i2 < r@.len() && i1 != i2 && 0 <= j1 < r@[i1]@.len() && 0 <= j2 < r@[i2]@.len()
                    ==> !self.joins(#[trigger] r@[i1]@[j1], (#[trigger] r@[i2]@[j2]).x as int, r@[i2]@[j2].y as int),
    {
        if self.is_empty() {
            let r: Vec<Vec<Cell>> = Vec::new();
            assert(comps_view(r@) =~= Seq::<Seq<Cell>>::empty());
            return r;
        }
        let mut connected_components: Vec<Vec<Cell>> = Vec::new();
        let mut visited_nodes: Vec<Vec<bool>> = Vec::with_capacity(self.dim_x);
        for x in 0..self.dim_x
            invariant
                visited_nodes@.len() == x,
                forall|a: int| 0 <= a < x ==> #[trigger] visited_nodes@[a]@.len() == self.dim_y,
                forall|a: int, b: int| 0 <= a < x && 0 <= b < self.dim_y ==> !marked(visited_nodes@, a, b),
        {
            let mut column: Vec<bool> = Vec::with_capacity(self.dim_y);
            for y in 0..self.dim_y
                invariant
                    column@.len() == y,
                    forall|b: int| 0 <= b < column@.len() ==> !(#[trigger] column@[b]),
            {
                column.push(false);
            }
            assert(column@.len() == self.dim_y);
            let ghost old_v = visited_nodes@;
            visited_nodes.push(column);
            proof {
                assert forall|a: int, b: int| 0 <= a < x + 1 && 0 <= b < self.dim_y implies !marked(visited_nodes@, a, b) by {
                    if a == x {
                        assert(visited_nodes@[a]@ == column@);
                    } else {
                        assert(visited_nodes@[a] == old_v[a]);
                        assert(!marked(old_v, a, b));
                    }
                }
            }
        }
        proof {
            reveal(Board::scan_state);
            assert(comps_view(connected_components@) =~= Seq::<Seq<Cell>>::empty());
        }
        for x in 0..self.dim_x
            invariant
                self.wf(),
                !self.spec_is_empty(),
                self.fits(visited_nodes@),
                self.scan_state(comps_view(connected_components@), visited_nodes@),
                forall|a: int, b: int| 0 <= a < x && 0 <= b < self.dim_y ==> marked(visited_nodes@, a, b),
        {
            for y in 0..self.dim_y
                invariant
                    self.wf(),
                    !self.spec_is_empty(),
                    x < self.dim_x,
                    self.fits(visited_nodes@),
                    self.scan_state(comps_view(connected_components@), visited_nodes@),
                    forall|a: int, b: int|
                        0 <= a < self.dim_x && 0 <= b < self.dim_y && before((a, b), (x as int, y as int)) ==> marked(
                            visited_nodes@,
                            a,
                            b,
                        ),
            {
                let ghost vs = visited_nodes@;
                if !visited_nodes[x][y] {
                    let ghost vp = visited_nodes@;
                    let ghost cs = comps_view(connected_components@);
                    visited_nodes[x][y] = true;
                    let ghost v1 = visited_nodes@;
                    proof {
                        assert(v1 == vp.update(x as int, v1[x as int]));
                        assert forall|i: int, j: int| #[trigger] marked(vp, i, j) && self.in_bounds(i, j) implies marked(
                            v1,
                            i,
                            j,
                        ) by {
                            if i == x {
                            }
                        }
                        assert forall|i: int, j: int| #[trigger] marked(v1, i, j) && self.in_bounds(i, j) implies marked(
                            vp,
                            i,
                            j,
                        ) || (i == x && j == y) by {
                            if i == x {
                            }
                        }
                    }
                    let node = self.cells[x][y];
                    if node.ownership != Ownership::Unowned {
                        let component = self.expand_component(&mut visited_nodes, node);
                        proof {
                            self.lemma_scan_add(cs, vp, v1, visited_nodes@, component@, node);
                            reveal(Board::growing);
                            assert(component@[0] == node);
                        }
                        connected_components.push(component);
                        proof {
                            assert(comps_view(connected_components@) =~= cs.push(component@));
                        }
                    } else {
                        proof {
                            reveal(Board::scan_state);
                            self.lemma_scan_mark_unowned(cs, vp, v1, x as int, y as int);
                        }
                    }
                    proof {
                        assert(marked(visited_nodes@, x as int, y as int));
                        assert forall|i: int, j: int| #[trigger] marked(vp, i, j) && self.in_bounds(i, j) implies marked(
                            visited_nodes@,
                            i,
                            j,
                        ) by {
                        }
                    }
                }
                proof {
                    assert(marked(visited_nodes@, x as int, y as int));
                    assert forall|a: int, b: int|
                        0 <= a < self.dim_x && 0 <= b < self.dim_y && before((a, b), (x as int, y + 1)) implies marked(
                            visited_nodes@,
                            a,
                            b,
                        ) by {
                        if !(a == x && b == y) {
                            assert(before((a, b), (x as int, y as int)));
                            assert(marked(vs, a, b));
                        }
                    }
                }
            }
        }
        let ghost cs = comps_view(connected_components@);
        proof {
            reveal(Board::scan_state);
            assert forall|i: int, j: int|
                0 <= i < cs.len() && 0 <= j < cs[i].len() implies #[trigger] cs[i][j] == connected_components@[i]@[j] by {
            }
            assert forall|a: int, b: int| #[trigger] self.occupied(a, b) implies exists|i: int|
                0 <= i < cs.len() && holds(#[trigger] cs[i], a, b) by {
                assert(marked(visited_nodes@, a, b));
            }
            self.lemma_components_apart(cs);
            assert forall|i1: int, i2: int, j1: int, j2: int|
                0 <= i1 < cs.len() && 0 <= i2 < cs.len() && i1 != i2 && 0 <= j1 < connected_components@[i1]@.len() && 0 <= j2
                    < connected_components@[i2]@.len() implies !self.joins(
                #[trigger] connected_components@[i1]@[j1],
                (#[trigger] connected_components@[i2]@[j2]).x as int,
                connected_components@[i2]@[j2].y as int,
            ) by {
                assert(cs[i1][j1] == connected_components@[i1]@[j1]);
                assert(cs[i2][j2] == connected_components@[i2]@[j2]);
            }
        }
        connected_components
    }
}

} // verus!
