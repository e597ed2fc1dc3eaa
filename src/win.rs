use vstd::prelude::*;
use crate::board::{Board, BoardError};
use crate::cell::{Cell, Ownership};
use crate::components::{comps_view, holds};

verus! {

impl Board {
    /// `(x, y)` lies on the edge where `player`'s chain starts: the bottom row
    /// for the first player, the left column for the second.
    pub open spec fn starts(&self, player: Ownership, x: int, y: int) -> bool {
        match player {
            Ownership::Player1 => y == 0,
            Ownership::Player2 => x == 0,
            Ownership::Unowned => false,
        }
    }

    /// `(x, y)` lies on the edge where `player`'s chain ends: the top row for
    /// the first player, the right column for the second.
    pub open spec fn ends(&self, player: Ownership, x: int, y: int) -> bool {
        match player {
            Ownership::Player1 => y == self.dim_y - 1,
            Ownership::Player2 => x == self.dim_x - 1,
            Ownership::Unowned => false,
        }
    }

    /// `p` walks through occupied cells, each step to a linked cell.
    pub open spec fn is_path(&self, p: Seq<(int, int)>) -> bool {
        &&& p.len() > 0
        &&& forall|k: int| 0 <= k < p.len() ==> self.occupied(#[trigger] p[k].0, p[k].1)
        &&& forall|k: int|
            #![trigger p[k], p[k + 1]]
            0 <= k < p.len() - 1 ==> self.linked(p[k].0, p[k].1, p[k + 1].0, p[k + 1].1)
    }

    /// `player` holds a chain of linked cells from its first edge to its last.
    pub open spec fn has_bridge(&self, player: Ownership) -> bool {
        exists|p: Seq<(int, int)>|
            #[trigger] self.is_path(p) && self.owner(p[0].0, p[0].1) == player && self.starts(player, p[0].0, p[0].1)
                && self.ends(player, p.last().0, p.last().1)
    }

    /// Component `s` holds a cell of `player` on each of `player`'s edges.
    pub open spec fn comp_wins(&self, s: Seq<Cell>, player: Ownership) -> bool {
        &&& exists|j: int|
            0 <= j < s.len() && (#[trigger] s[j]).ownership == player && self.starts(player, s[j].x as int, s[j].y as int)
        &&& exists|j: int|
            0 <= j < s.len() && (#[trigger] s[j]).ownership == player && self.ends(player, s[j].x as int, s[j].y as int)
    }

    /// Every cell of component `s` is reached from its first cell by a path.
    proof fn lemma_path_to_member(&self, s: Seq<Cell>, j: int) -> (p: Seq<(int, int)>)
        requires
            self.is_component(s),
            0 <= j < s.len(),
        ensures
            self.is_path(p),
            p[0] == (s[0].x as int, s[0].y as int),
            p.last() == (s[j].x as int, s[j].y as int),
        decreases j,
    {
        if j == 0 {
            seq![(s[0].x as int, s[0].y as int)]
        } else {
            let k = choose|k: int| 0 <= k < j && #[trigger] self.joins(s[k], s[j].x as int, s[j].y as int);
            let q = self.lemma_path_to_member(s, k);
            let p = q.push((s[j].x as int, s[j].y as int));
            assert(self.is_member(s[j]));
            assert forall|t: int|
                #![trigger p[t], p[t + 1]]
                0 <= t < p.len() - 1 implies self.linked(p[t].0, p[t].1, p[t + 1].0, p[t + 1].1) by {
                if t < q.len() - 1 {
                    assert(p[t] == q[t] && p[t + 1] == q[t + 1]);
                    assert(q[t] == q[t] && q[t + 1] == q[t + 1]);
                }
            }
            assert forall|t: int| 0 <= t < p.len() implies self.occupied(#[trigger] p[t].0, p[t].1) by {
                if t < q.len() {
                    assert(p[t] == q[t]);
                }
            }
            p
        }
    }

    /// A path read backwards is a path.
    proof fn lemma_path_reverse(&self, p: Seq<(int, int)>) -> (r: Seq<(int, int)>)
        requires
            self.is_path(p),
        ensures
            self.is_path(r),
            r[0] == p.last(),
            r.last() == p[0],
    {
        let n = p.len() as int;
        let r = Seq::new(p.len(), |k: int| p[n - 1 - k]);
        assert forall|k: int|
            #![trigger r[k], r[k + 1]]
            0 <= k < r.len() - 1 implies self.linked(r[k].0, r[k].1, r[k + 1].0, r[k + 1].1) by {
            let t = n - 2 - k;
            assert(p[t] == p[t] && p[t + 1] == p[t + 1]);
        }
        assert forall|k: int| 0 <= k < r.len() implies self.occupied(#[trigger] r[k].0, r[k].1) by {
            assert(p[n - 1 - k] == r[k]);
        }
        r
    }

    /// Two paths that meet end to start make one path.
    proof fn lemma_path_join(&self, p: Seq<(int, int)>, q: Seq<(int, int)>) -> (r: Seq<(int, int)>)
        requires
            self.is_path(p),
            self.is_path(q),
            p.last() == q[0],
        ensures
            self.is_path(r),
            r[0] == p[0],
            r.last() == q.last(),
    {
        let r = p + q.drop_first();
        let n = p.len() as int;
        assert forall|k: int|
            #![trigger r[k], r[k + 1]]
            0 <= k < r.len() - 1 implies self.linked(r[k].0, r[k].1, r[k + 1].0, r[k + 1].1) by {
            if k < n - 1 {
                assert(p[k] == p[k] && p[k + 1] == p[k + 1]);
            } else {
                let t = k - n + 1;
                assert(r[k] == q[t] && r[k + 1] == q[t + 1]);
                assert(q[t] == q[t] && q[t + 1] == q[t + 1]);
            }
        }
        assert forall|k: int| 0 <= k < r.len() implies self.occupied(#[trigger] r[k].0, r[k].1) by {
            if k < n {
                assert(r[k] == p[k]);
            } else {
                assert(r[k] == q[k - n + 1]);
            }
        }
        if q.len() == 1 {
            assert(r =~= p);
        }
        r
    }

    /// A path that starts in a component stays in it up to step `k`, and
    /// keeps its owner.
    proof fn lemma_path_prefix_in_component(&self, s: Seq<Cell>, p: Seq<(int, int)>, k: int)
        requires
            self.is_component(s),
            self.is_path(p),
            holds(s, p[0].0, p[0].1),
            0 <= k < p.len(),
        ensures
            forall|t: int| 0 <= t <= k ==> holds(s, #[trigger] p[t].0, p[t].1),
            forall|t: int| 0 <= t <= k ==> self.owner(#[trigger] p[t].0, p[t].1) == self.owner(p[0].0, p[0].1),
        decreases k,
    {
        if k > 0 {
            self.lemma_path_prefix_in_component(s, p, k - 1);
            let i = k - 1;
            assert(p[i] == p[i] && p[i + 1] == p[i + 1]);
            assert(holds(s, p[i].0, p[i].1));
            let j = choose|j: int| 0 <= j < s.len() && (#[trigger] s[j]).x == p[i].0 && s[j].y == p[i].1;
            assert(self.is_member(s[j]));
            assert(self.joins(s[j], p[k].0, p[k].1));
        }
    }

    /// `player` has a bridge exactly when some component of a partition
    /// holds a cell of `player` on each of `player`'s two edges.
    pub proof fn lemma_win_iff_component(&self, cs: Seq<Seq<Cell>>, player: Ownership)
        requires
            self.is_partition(cs),
        ensures
            self.has_bridge(player) <==> exists|i: int| 0 <= i < cs.len() && self.comp_wins(#[trigger] cs[i], player),
    {
        if self.has_bridge(player) {
            let p = choose|p: Seq<(int, int)>|
                #[trigger] self.is_path(p) && self.owner(p[0].0, p[0].1) == player && self.starts(player, p[0].0, p[0].1)
                    && self.ends(player, p.last().0, p.last().1);
            assert(self.occupied(p[0].0, p[0].1));
            let i = choose|i: int| 0 <= i < cs.len() && holds(#[trigger] cs[i], p[0].0, p[0].1);
            let s = cs[i];
            assert(self.is_component(s));
            self.lemma_path_prefix_in_component(s, p, p.len() - 1);
            let n = p.len() - 1;
            assert(holds(s, p[n].0, p[n].1));
            assert(self.owner(p[n].0, p[n].1) == player);
            let ja = choose|j: int| 0 <= j < s.len() && (#[trigger] s[j]).x == p[0].0 && s[j].y == p[0].1;
            let jb = choose|j: int| 0 <= j < s.len() && (#[trigger] s[j]).x == p[n].0 && s[j].y == p[n].1;
            assert(self.is_member(s[ja]));
            assert(self.is_member(s[jb]));
            assert(self.comp_wins(s, player));
        }
        if exists|i: int| 0 <= i < cs.len() && self.comp_wins(#[trigger] cs[i], player) {
            let i = choose|i: int| 0 <= i < cs.len() && self.comp_wins(#[trigger] cs[i], player);
            let s = cs[i];
            assert(self.is_component(s));
            let ja = choose|j: int|
                0 <= j < s.len() && (#[trigger] s[j]).ownership == player && self.starts(player, s[j].x as int, s[j].y as int);
            let jb = choose|j: int|
                0 <= j < s.len() && (#[trigger] s[j]).ownership == player && self.ends(player, s[j].x as int, s[j].y as int);
            assert(self.is_member(s[ja]));
            let pa = self.lemma_path_to_member(s, ja);
            let pb = self.lemma_path_to_member(s, jb);
            let ra = self.lemma_path_reverse(pa);
            let p = self.lemma_path_join(ra, pb);
            assert(self.is_path(p) && self.owner(p[0].0, p[0].1) == player && self.starts(player, p[0].0, p[0].1)
                && self.ends(player, p.last().0, p.last().1));
        }
    }

    /// A board of positive size held entirely by one player is won by that
    /// player.
    pub proof fn lemma_full_board_wins(&self, player: Ownership)
        requires
            self.wf(),
            self.dim_x > 0,
            self.dim_y > 0,
            player != Ownership::Unowned,
            forall|x: int, y: int| #[trigger] self.in_bounds(x, y) ==> self.owner(x, y) == player,
        ensures
            self.has_bridge(player),
    {
        let p = if player == Ownership::Player1 {
            Seq::new(self.dim_y as nat, |k: int| (0int, k))
        } else {
            Seq::new(self.dim_x as nat, |k: int| (k, 0int))
        };
        assert(self.in_bounds(p[0].0, p[0].1));
        assert(self.in_bounds(p.last().0, p.last().1));
        assert forall|k: int|
            #![trigger p[k], p[k + 1]]
            0 <= k < p.len() - 1 implies self.linked(p[k].0, p[k].1, p[k + 1].0, p[k + 1].1) by {
            assert(self.in_bounds(p[k].0, p[k].1));
            assert(self.in_bounds(p[k + 1].0, p[k + 1].1));
        }
        assert forall|k: int| 0 <= k < p.len() implies self.occupied(#[trigger] p[k].0, p[k].1) by {
            assert(self.in_bounds(p[k].0, p[k].1));
        }
        assert(self.is_path(p));
    }

    /// Whether `component` holds a cell of `player` on each of `player`'s
    /// two edges.
    fn component_wins(&self, component: &Vec<Cell>, player: Ownership) -> (r: bool)
        requires
            player != Ownership::Unowned,
            forall|j: int| 0 <= j < component@.len() ==> self.in_bounds(#[trigger] component@[j].x as int, component@[j].y as int),
        ensures
            r == self.comp_wins(component@, player),
    {
        let mut at_start = false;
        let mut at_end = false;
        let mut j: usize = 0;
        while j < component.len()
            invariant
                j <= component@.len(),
                player != Ownership::Unowned,
                forall|t: int| 0 <= t < component@.len() ==> self.in_bounds(#[trigger] component@[t].x as int, component@[t].y as int),
                at_start == exists|t: int|
                    0 <= t < j && (#[trigger] component@[t]).ownership == player && self.starts(
                        player,
                        component@[t].x as int,
                        component@[t].y as int,
                    ),
                at_end == exists|t: int|
                    0 <= t < j && (#[trigger] component@[t]).ownership == player && self.ends(
                        player,
                        component@[t].x as int,
                        component@[t].y as int,
                    ),
            decreases component@.len() - j,
        {
            let c = component[j];
            assert(self.in_bounds(c.x as int, c.y as int));
            if c.ownership == player {
                let (first, last) = match player {
                    Ownership::Player1 => (c.y == 0, c.y == self.dim_y - 1),
                    _ => (c.x == 0, c.x == self.dim_x - 1),
                };
                if first {
                    at_start = true;
                }
                if last {
                    at_end = true;
                }
            }
            j += 1;
        }
        at_start && at_end
    }

    /// Whether `player` has joined its two edges with one chain of linked
    /// cells: bottom to top row for the first player, left to right column
    /// for the second. Asking it of the unowned marker is an error.
    pub fn check_winner(&self, player: Ownership) -> (r: Result<bool, BoardError>)
        requires
            self.wf(),
        ensures
            player == Ownership::Unowned ==> r == Err::<bool, BoardError>(BoardError::InvalidPlayer),
            player != Ownership::Unowned ==> r == Ok::<bool, BoardError>(self.has_bridge(player)),
    {
        if player == Ownership::Unowned {
            return Err(BoardError::InvalidPlayer);
        }
        let connected_components = self.find_connected_components();
        let ghost cs = comps_view(connected_components@);
        proof {
            self.lemma_win_iff_component(cs, player);
        }
        let mut i: usize = 0;
        while i < connected_components.len()
            invariant
                i <= connected_components@.len(),
                player != Ownership::Unowned,
                cs == comps_view(connected_components@),
                self.is_partition(cs),
                self.has_bridge(player) <==> exists|k: int| 0 <= k < cs.len() && self.comp_wins(#[trigger] cs[k], player),
                forall|k: int| 0 <= k < i ==> !self.comp_wins(#[trigger] cs[k], player),
            decreases connected_components@.len() - i,
        {
            let ghost s = cs[i as int];
            proof {
                assert(self.is_component(s));
                assert(connected_components@[i as int]@ == s);
                assert forall|j: int| 0 <= j < s.len() implies self.in_bounds(#[trigger] s[j].x as int, s[j].y as int) by {
                    assert(self.is_member(s[j]));
                }
            }
            if self.component_wins(&connected_components[i], player) {
                return Ok(true);
            }
            i += 1;
        }
        Ok(false)
    }
}

} // verus!
