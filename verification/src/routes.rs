//! Routes through the open passages of a maze, and the proof that passages
//! which were opened cell by cell, each new cell from one that was already
//! reached, join any two cells by exactly one route.

use vstd::prelude::*;
use crate::model::{origin, MazeView, Pos};

verus! {

/// The order in which the cells were reached: the origin has number 0.
pub type Ranking = spec_fn(Pos) -> int;

/// For each cell but the origin, the cell from which it was reached.
pub type Parents = spec_fn(Pos) -> Pos;

impl MazeView {
    /// There is a passage from the `i`-th position of the path to the next.
    pub open spec fn linked(self, path: Seq<Pos>, i: int) -> bool {
        self.passage(path[i], path[i + 1])
    }

    /// The path stays inside the grid and moves through open passages only.
    pub open spec fn is_walk(self, path: Seq<Pos>) -> bool {
        &&& path.len() >= 1
        &&& forall|i: int| 0 <= i < path.len() ==> self.contains(#[trigger] path[i])
        &&& forall|i: int| 0 <= i < path.len() - 1 ==> #[trigger] self.linked(path, i)
    }

    /// The path is a route from `from` to `to`: a walk between the two that
    /// enters no cell twice.
    pub open spec fn is_route(self, path: Seq<Pos>, from: Pos, to: Pos) -> bool {
        &&& self.is_walk(path)
        &&& path.no_duplicates()
        &&& path.first() == from
        &&& path.last() == to
    }

    /// Some route leads from `a` to `b`.
    pub open spec fn joined(self, a: Pos, b: Pos) -> bool {
        exists|path: Seq<Pos>| self.is_route(path, a, b)
    }

    /// Every cell can be reached from every other cell.
    pub open spec fn connected(self) -> bool {
        forall|a: Pos, b: Pos| self.contains(a) && self.contains(b) ==> #[trigger] self.joined(a, b)
    }

    /// No two different routes have the same ends: the passages form no cycle.
    pub open spec fn acyclic(self) -> bool {
        forall|a: Pos, b: Pos, p: Seq<Pos>, q: Seq<Pos>|
            #[trigger] self.is_route(p, a, b) && #[trigger] self.is_route(q, a, b) ==> p == q
    }
}

impl MazeView {
    /// The grid is a finished maze: every cell visited, walls removed on both
    /// sides or on none, the outer walls standing, one wall removed for each
    /// cell but the first, and exactly one route between any two cells.
    pub open spec fn perfect(self) -> bool {
        &&& self.wf()
        &&& self.all_visited()
        &&& self.walls_paired()
        &&& self.border_intact()
        &&& self.removed_walls() == self.width * self.height - 1
        &&& self.connected()
        &&& self.acyclic()
    }
}

/// The passages of the grid are exactly the links between each cell and the
/// cell it was reached from, and every cell was reached after its parent.
pub open spec fn is_tree_by(m: MazeView, rank: Ranking, parent: Parents) -> bool {
    &&& m.contains(origin())
    &&& rank(origin()) == 0
    &&& forall|p: Pos| m.contains(p) ==> #[trigger] rank(p) >= 0
    &&& forall|p: Pos, q: Pos|
        m.contains(p) && m.contains(q) && #[trigger] rank(p) == #[trigger] rank(q) ==> p == q
    &&& forall|p: Pos|
        m.contains(p) && p != origin() ==> m.passage(#[trigger] parent(p), p) && rank(parent(p))
            < rank(p)
    &&& forall|a: Pos, b: Pos| #[trigger] m.passage(a, b) && rank(a) < rank(b) ==> a == parent(b)
}

/// Any two cells of a tree are joined by a route, and no cell on it was
/// reached later than both ends.
pub proof fn lemma_route_exists(m: MazeView, rank: Ranking, parent: Parents, a: Pos, b: Pos) -> (path:
    Seq<Pos>)
    requires
        is_tree_by(m, rank, parent),
        m.contains(a),
        m.contains(b),
    ensures
        m.is_route(path, a, b),
        forall|i: int|
            0 <= i < path.len() ==> rank(#[trigger] path[i]) <= rank(a) || rank(path[i]) <= rank(
                b,
            ),
    decreases rank(a) + rank(b),
{
    if a == b {
        seq![a]
    } else if rank(a) > rank(b) {
        let up = parent(a);
        assert(m.passage(up, a));
        let rest = lemma_route_exists(m, rank, parent, up, b);
        let path = seq![a] + rest;
        assert forall|i: int| 0 <= i < path.len() - 1 implies #[trigger] m.linked(path, i) by {
            if i > 0 {
                assert(m.linked(rest, i - 1));
            }
        }
        assert forall|i: int, j: int|
            0 <= i < path.len() && 0 <= j < path.len() && i != j implies path[i] != path[j] by {
            if i > 0 && j > 0 {
                assert(rest[i - 1] != rest[j - 1]);
            } else if i == 0 {
                assert(rank(rest[j - 1]) < rank(a));
            } else {
                assert(rank(rest[i - 1]) < rank(a));
            }
        }
        path
    } else {
        let up = parent(b);
        assert(m.passage(up, b));
        let rest = lemma_route_exists(m, rank, parent, a, up);
        let path = rest.push(b);
        assert forall|i: int| 0 <= i < path.len() - 1 implies #[trigger] m.linked(path, i) by {
            if i < rest.len() - 1 {
                assert(m.linked(rest, i));
            }
        }
        assert forall|i: int, j: int|
            0 <= i < path.len() && 0 <= j < path.len() && i != j implies path[i] != path[j] by {
            if i < rest.len() && j < rest.len() {
                assert(rest[i] != rest[j]);
            } else if i == rest.len() {
                assert(rank(rest[j]) < rank(b));
            } else {
                assert(rank(rest[i]) < rank(b));
            }
        }
        path
    }
}

/// On a route through a tree, no cell strictly between the ends was reached
/// after both of the cells beside it.
proof fn lemma_no_inner_peak(
    m: MazeView,
    rank: Ranking,
    parent: Parents,
    path: Seq<Pos>,
    a: Pos,
    b: Pos,
    i: int,
)
    requires
        is_tree_by(m, rank, parent),
        m.is_route(path, a, b),
        0 < i < path.len() - 1,
    ensures
        rank(path[i]) < rank(path[i - 1]) || rank(path[i]) < rank(path[i + 1]),
{
    assert(m.linked(path, i - 1));
    assert(m.linked(path, i));
    assert(m.passage(path[i - 1], path[i]));
    assert(m.passage(path[i + 1], path[i]));
    assert(path[i - 1] != path[i]);
    assert(path[i + 1] != path[i]);
    assert(path[i - 1] != path[i + 1]);
    assert(m.contains(path[i - 1]) && m.contains(path[i]) && m.contains(path[i + 1]));
}

/// A route that starts by going to a cell reached later keeps doing so.
proof fn lemma_climb(
    m: MazeView,
    rank: Ranking,
    parent: Parents,
    path: Seq<Pos>,
    a: Pos,
    b: Pos,
    i: int,
)
    requires
        is_tree_by(m, rank, parent),
        m.is_route(path, a, b),
        path.len() >= 2,
        rank(path[0]) < rank(path[1]),
        0 <= i < path.len() - 1,
    ensures
        rank(path[i]) < rank(path[i + 1]),
        rank(path[0]) < rank(path[i + 1]),
    decreases i,
{
    if i > 0 {
        lemma_climb(m, rank, parent, path, a, b, i - 1);
        lemma_no_inner_peak(m, rank, parent, path, a, b, i);
        assert(path[i] != path[i + 1]);
        assert(m.contains(path[i]) && m.contains(path[i + 1]));
    }
}

/// A route that ends by coming from a cell reached later has done so all along.
proof fn lemma_descend(
    m: MazeView,
    rank: Ranking,
    parent: Parents,
    path: Seq<Pos>,
    a: Pos,
    b: Pos,
    i: int,
)
    requires
        is_tree_by(m, rank, parent),
        m.is_route(path, a, b),
        path.len() >= 2,
        rank(path[path.len() - 1]) < rank(path[path.len() - 2]),
        0 <= i < path.len() - 1,
    ensures
        rank(path[i + 1]) < rank(path[i]),
        rank(path[path.len() - 1]) < rank(path[i]),
    decreases path.len() - i,
{
    if i < path.len() - 2 {
        lemma_descend(m, rank, parent, path, a, b, i + 1);
        lemma_no_inner_peak(m, rank, parent, path, a, b, i + 1);
        assert(path[i] != path[i + 1]);
        assert(m.contains(path[i]) && m.contains(path[i + 1]));
    }
}

/// A route from a cell to one reached earlier begins with the step to the
/// parent of its first cell.
proof fn lemma_first_step(
    m: MazeView,
    rank: Ranking,
    parent: Parents,
    path: Seq<Pos>,
    a: Pos,
    b: Pos,
)
    requires
        is_tree_by(m, rank, parent),
        m.is_route(path, a, b),
        rank(a) > rank(b),
    ensures
        path.len() >= 2,
        path[1] == parent(a),
{
    assert(m.linked(path, 0));
    assert(m.passage(path[1], path[0]));
    assert(m.contains(path[0]) && m.contains(path[1]));
    assert(path[0] != path[1]);
    if rank(path[0]) < rank(path[1]) {
        lemma_climb(m, rank, parent, path, a, b, path.len() - 2);
    }
}

/// A route from a cell to one reached later ends with the step from the
/// parent of its last cell.
proof fn lemma_last_step(
    m: MazeView,
    rank: Ranking,
    parent: Parents,
    path: Seq<Pos>,
    a: Pos,
    b: Pos,
)
    requires
        is_tree_by(m, rank, parent),
        m.is_route(path, a, b),
        rank(a) < rank(b),
    ensures
        path.len() >= 2,
        path[path.len() - 2] == parent(b),
{
    let n = path.len() as int;
    assert(m.linked(path, n - 2));
    assert(m.passage(path[n - 2], path[n - 1]));
    assert(m.contains(path[n - 2]) && m.contains(path[n - 1]));
    assert(path[n - 2] != path[n - 1]);
    if rank(path[n - 1]) < rank(path[n - 2]) {
        lemma_descend(m, rank, parent, path, a, b, 0);
    }
}

/// A route without its first cell is a route from its second cell.
proof fn lemma_route_tail(m: MazeView, path: Seq<Pos>, a: Pos, b: Pos)
    requires
        m.is_route(path, a, b),
        path.len() >= 2,
    ensures
        m.is_route(path.subrange(1, path.len() as int), path[1], b),
{
    let rest = path.subrange(1, path.len() as int);
    assert forall|i: int| 0 <= i < rest.len() - 1 implies #[trigger] m.linked(rest, i) by {
        assert(m.linked(path, i + 1));
    }
    assert forall|i: int, j: int|
        0 <= i < rest.len() && 0 <= j < rest.len() && i != j implies rest[i] != rest[j] by {
        assert(path[i + 1] != path[j + 1]);
    }
}

/// A route without its last cell is a route to the cell before it.
proof fn lemma_route_init(m: MazeView, path: Seq<Pos>, a: Pos, b: Pos)
    requires
        m.is_route(path, a, b),
        path.len() >= 2,
    ensures
        m.is_route(path.drop_last(), a, path[path.len() - 2]),
{
    let rest = path.drop_last();
    assert forall|i: int| 0 <= i < rest.len() - 1 implies #[trigger] m.linked(rest, i) by {
        assert(m.linked(path, i));
    }
    assert forall|i: int, j: int|
        0 <= i < rest.len() && 0 <= j < rest.len() && i != j implies rest[i] != rest[j] by {
        assert(path[i] != path[j]);
    }
}

/// Two routes through a tree with the same ends are the same route.
pub proof fn lemma_route_unique(
    m: MazeView,
    rank: Ranking,
    parent: Parents,
    p: Seq<Pos>,
    q: Seq<Pos>,
    a: Pos,
    b: Pos,
)
    requires
        is_tree_by(m, rank, parent),
        m.is_route(p, a, b),
        m.is_route(q, a, b),
    ensures
        p == q,
    decreases p.len(),
{
    assert(m.contains(p[0]) && m.contains(p[p.len() - 1]));
    if a == b {
        if p.len() > 1 {
            assert(p[0] != p[p.len() - 1]);
        }
        if q.len() > 1 {
            assert(q[0] != q[q.len() - 1]);
        }
        assert(p =~= q);
    } else if rank(a) > rank(b) {
        lemma_first_step(m, rank, parent, p, a, b);
        lemma_first_step(m, rank, parent, q, a, b);
        lemma_route_tail(m, p, a, b);
        lemma_route_tail(m, q, a, b);
        let p_rest = p.subrange(1, p.len() as int);
        let q_rest = q.subrange(1, q.len() as int);
        lemma_route_unique(m, rank, parent, p_rest, q_rest, parent(a), b);
        assert forall|i: int| 0 <= i < p.len() implies p[i] == q[i] by {
            if i > 0 {
                assert(p[i] == p_rest[i - 1]);
                assert(q[i] == q_rest[i - 1]);
            }
        }
        assert(p =~= q);
    } else {
        lemma_last_step(m, rank, parent, p, a, b);
        lemma_last_step(m, rank, parent, q, a, b);
        lemma_route_init(m, p, a, b);
        lemma_route_init(m, q, a, b);
        let p_rest = p.drop_last();
        let q_rest = q.drop_last();
        lemma_route_unique(m, rank, parent, p_rest, q_rest, a, parent(b));
        assert forall|i: int| 0 <= i < p.len() implies p[i] == q[i] by {
            if i < p.len() - 1 {
                assert(p[i] == p_rest[i]);
                assert(q[i] == q_rest[i]);
            }
        }
        assert(p =~= q);
    }
}

/// The passages of a tree join any two cells by exactly one route.
pub proof fn lemma_tree_routes(m: MazeView, rank: Ranking, parent: Parents)
    requires
        is_tree_by(m, rank, parent),
    ensures
        m.connected(),
        m.acyclic(),
{
    assert forall|a: Pos, b: Pos| m.contains(a) && m.contains(b) implies #[trigger] m.joined(
        a,
        b,
    ) by {
        let path = lemma_route_exists(m, rank, parent, a, b);
        assert(m.is_route(path, a, b));
    }
    assert forall|a: Pos, b: Pos, p: Seq<Pos>, q: Seq<Pos>| #[trigger]
        m.is_route(p, a, b) && #[trigger] m.is_route(q, a, b) implies p == q by {
        lemma_route_unique(m, rank, parent, p, q, a, b);
    }
}

} // verus!
