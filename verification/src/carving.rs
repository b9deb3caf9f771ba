//! The carving of a maze as a sequence of steps on a grid and a path, and the
//! facts that every step keeps.

use vstd::prelude::*;
use crate::model::{
    above, adjacent, below, left_of, lemma_blank, lemma_open_passage_cells,
    lemma_unvisited_neighbors, lemma_visited_count, lemma_with_cell, lemma_with_cell_counts,
    origin, right_of, CellView, MazeView, Pos,
};
use crate::random::draw;
use crate::routes::{is_tree_by, lemma_tree_routes, Parents, Ranking};

verus! {

/// The state of a carving: the grid as carved so far, and the path of cells
/// that leads from the origin to the cell being worked on, that cell last.
pub struct Carving {
    pub maze: MazeView,
    pub path: Seq<Pos>,
}

impl Carving {
    /// The state in which carving begins: a blank grid but for the visited
    /// origin, which is alone on the path.
    pub open spec fn start(width: int, height: int) -> Carving {
        Carving {
            maze: MazeView::blank(width, height).mark_visited(origin()),
            path: seq![origin()],
        }
    }

    /// The state after stepping back from the last cell of the path.
    pub open spec fn retreat(self) -> Carving {
        Carving { maze: self.maze, path: self.path.drop_last() }
    }

    /// The state after moving on to `next`: the wall between the last cell of
    /// the path and `next` is removed, `next` is visited and ends the path.
    pub open spec fn advance(self, next: Pos) -> Carving {
        Carving {
            maze: self.maze.open_passage(self.path.last(), next).mark_visited(next),
            path: self.path.push(next),
        }
    }

    /// The number of steps that are left: two for each cell still to be
    /// visited, one to reach it and one to step back from it, and one for
    /// each cell on the path.
    pub open spec fn budget(self) -> int {
        2 * (self.maze.width * self.maze.height - self.maze.visited_count()) + self.path.len()
    }

    /// One step of carving with a generator in state `rng`. Where the last
    /// cell of the path has no unvisited neighbour the step goes back;
    /// otherwise it moves on to the neighbour that the generator draws.
    pub open spec fn step(self, rng: Seq<u32>) -> (Carving, Seq<u32>) {
        let options = self.maze.unvisited_neighbors(self.path.last());
        if options.len() == 0 {
            (self.retreat(), rng)
        } else {
            let outcome = draw(rng, options.len() as usize);
            (self.advance(options[outcome.0 as int]), outcome.1)
        }
    }

    /// At most `steps` steps of carving, ending early when the path is empty.
    pub open spec fn run(self, rng: Seq<u32>, steps: nat) -> (Carving, Seq<u32>)
        decreases steps,
    {
        if steps == 0 || self.path.len() == 0 {
            (self, rng)
        } else {
            let (then, rng_then) = self.step(rng);
            then.run(rng_then, (steps - 1) as nat)
        }
    }

    /// Every cell on the path is a visited cell of the grid, and every visited
    /// cell that is not on the path has no unvisited neighbour left.
    pub open spec fn exploring(self) -> bool {
        &&& forall|i: int|
            0 <= i < self.path.len() ==> self.maze.contains(#[trigger] self.path[i])
                && self.maze.at(self.path[i]).visited
        &&& forall|p: Pos|
            self.maze.contains(p) && (#[trigger] self.maze.at(p)).visited ==> self.path.contains(p)
                || self.maze.settled(p)
    }
}

/// The maze that carving a blank grid of the given size produces with a
/// generator that starts in state `rng`, and the state the generator ends in.
pub open spec fn generated(width: int, height: int, rng: Seq<u32>) -> (MazeView, Seq<u32>) {
    let end = Carving::start(width, height).run(rng, (2 * width * height - 1) as nat);
    (end.0.maze, end.1)
}

/// The ranking with `p` given the number `k`.
pub open spec fn rank_with(rank: Ranking, p: Pos, k: int) -> Ranking {
    |q: Pos| if q == p { k } else { rank(q) }
}

/// The parents with `p` reached from `from`.
pub open spec fn parent_with(parent: Parents, p: Pos, from: Pos) -> Parents {
    |q: Pos| if q == p { from } else { parent(q) }
}

/// What holds of the grid at every moment of a carving: the visited cells,
/// numbered in the order they were reached, form a tree of passages rooted at
/// the origin, and the rest of the grid is untouched.
pub open spec fn tree_so_far(m: MazeView, rank: Ranking, parent: Parents) -> bool {
    &&& m.wf()
    &&& m.walls_paired()
    &&& m.border_intact()
    &&& m.unvisited_intact()
    &&& m.at(origin()).visited
    &&& rank(origin()) == 0
    &&& m.removed_walls() == m.visited_count() - 1
    &&& forall|p: Pos|
        m.contains(p) && m.at(p).visited ==> 0 <= #[trigger] rank(p) < m.visited_count()
    &&& forall|p: Pos, q: Pos|
        m.contains(p) && m.contains(q) && m.at(p).visited && m.at(q).visited && #[trigger] rank(p)
            == #[trigger] rank(q) ==> p == q
    &&& forall|p: Pos|
        m.contains(p) && m.at(p).visited && p != origin() ==> m.passage(#[trigger] parent(p), p)
            && rank(parent(p)) < rank(p)
    &&& forall|a: Pos, b: Pos| #[trigger] m.passage(a, b) && rank(a) < rank(b) ==> a == parent(b)
}

/// What moving on from `cur` to its neighbour `next` does to the grid: the
/// two cells lose the wall between them, `next` becomes visited, and nothing
/// else changes.
pub proof fn lemma_advance_cells(m: MazeView, cur: Pos, next: Pos)
    requires
        m.wf(),
        m.contains(cur),
        m.contains(next),
        adjacent(cur, next),
    ensures
        ({
            let m2 = m.open_passage(cur, next).mark_visited(next);
            &&& m2.wf()
            &&& m2.width == m.width
            &&& m2.height == m.height
            &&& m2.at(cur) == m.opened(cur, next)
            &&& m2.at(next) == CellView { visited: true, ..m.opened(next, cur) }
            &&& forall|q: Pos|
                m.contains(q) && q != cur && q != next ==> #[trigger] m2.at(q) == m.at(q)
            &&& m2.visited_count() == m.visited_count() + 1 - m.at(next).visits()
            &&& m2.removed_walls() == m.removed_walls() + m.opened(cur, next).cleared() - m.at(
                cur,
            ).cleared() + m.opened(next, cur).cleared() - m.at(next).cleared()
        }),
{
    let m1 = m.open_passage(cur, next);
    let m2 = m1.mark_visited(next);
    lemma_open_passage_cells(m, cur, next);
    let seen = CellView { visited: true, ..m1.at(next) };
    lemma_with_cell(m1, next, seen, cur);
    lemma_with_cell(m1, next, seen, next);
    lemma_with_cell_counts(m1, next, seen);
    assert forall|q: Pos| m.contains(q) && q != cur && q != next implies #[trigger] m2.at(q)
        == m.at(q) by {
        assert(m1.at(q) == m.at(q));
        lemma_with_cell(m1, next, seen, q);
    }
    assert forall|p: Pos| m2.contains(p) implies (#[trigger] m2.at(p)).x == p.0 && m2.at(p).y
        == p.1 by {
        if p != cur && p != next {
            assert(m2.at(p) == m.at(p));
        }
        assert(m.at(p).x == p.0);
    }
}

/// After moving on from `cur` to `next`, the wall flags are as before but for
/// the two that faced each other across the removed wall, and the visited
/// cells are those of before and `next`.
pub proof fn lemma_facing_after(m: MazeView, cur: Pos, next: Pos, a: Pos, b: Pos)
    requires
        m.wf(),
        m.contains(cur),
        m.contains(next),
        adjacent(cur, next),
        m.contains(a),
        adjacent(a, b),
    ensures
        ({
            let m2 = m.open_passage(cur, next).mark_visited(next);
            &&& m2.wall_facing(a, b) == (if (a == cur && b == next) || (a == next && b == cur) {
                false
            } else {
                m.wall_facing(a, b)
            })
            &&& m2.at(a).visited == (m.at(a).visited || a == next)
        }),
{
    lemma_advance_cells(m, cur, next);
    let m2 = m.open_passage(cur, next).mark_visited(next);
    if a != cur && a != next {
        assert(m2.at(a) == m.at(a));
    }
}

/// After moving on from `cur` to `next`, the passages are those of before and
/// the new one between the two.
pub proof fn lemma_passage_after(m: MazeView, cur: Pos, next: Pos, a: Pos, b: Pos)
    requires
        m.wf(),
        m.contains(cur),
        m.contains(next),
        adjacent(cur, next),
    ensures
        m.open_passage(cur, next).mark_visited(next).passage(a, b) <==> m.passage(a, b) || (a
            == cur && b == next) || (a == next && b == cur),
{
    lemma_advance_cells(m, cur, next);
    if m.contains(a) && m.contains(b) && adjacent(a, b) {
        lemma_facing_after(m, cur, next, a, b);
        lemma_facing_after(m, cur, next, b, a);
    }
}

/// A passage leads only to cells that have been visited.
pub proof fn lemma_passage_visited(m: MazeView, a: Pos, b: Pos)
    requires
        m.unvisited_intact(),
        m.passage(a, b),
    ensures
        m.at(a).visited,
        m.at(b).visited,
{
    assert(!m.at(a).intact());
    assert(!m.at(b).intact());
}

/// Moving on from a visited cell to an unvisited neighbour keeps the tree,
/// with the neighbour numbered after all cells visited before and reached
/// from the cell left.
pub proof fn lemma_advance_tree(m: MazeView, rank: Ranking, parent: Parents, cur: Pos, next: Pos)
    requires
        tree_so_far(m, rank, parent),
        m.contains(cur),
        m.at(cur).visited,
        m.unexplored(next),
        adjacent(cur, next),
    ensures
        tree_so_far(
            m.open_passage(cur, next).mark_visited(next),
            rank_with(rank, next, m.visited_count()),
            parent_with(parent, next, cur),
        ),
        m.open_passage(cur, next).mark_visited(next).visited_count() == m.visited_count() + 1,
{
    let m2 = m.open_passage(cur, next).mark_visited(next);
    let count = m.visited_count();
    let rank2 = rank_with(rank, next, count);
    let parent2 = parent_with(parent, next, cur);
    lemma_advance_cells(m, cur, next);
    assert(m.at(next).intact());
    assert(m.wall_facing(next, cur));
    assert(m.wall_facing(cur, next) == m.wall_facing(next, cur));
    assert(0 <= rank(origin()) < count);
    assert(origin() != next);
    assert(m2.walls_paired()) by {
        assert forall|a: Pos, b: Pos|
            m2.contains(a) && m2.contains(b) && adjacent(a, b) implies #[trigger] m2.wall_facing(
            a,
            b,
        ) == m2.wall_facing(b, a) by {
            lemma_facing_after(m, cur, next, a, b);
            lemma_facing_after(m, cur, next, b, a);
            assert(m.wall_facing(a, b) == m.wall_facing(b, a));
        }
    }
    assert(m2.border_intact()) by {
        assert forall|p: Pos| m2.contains(p) implies ({
            let cell = #[trigger] m2.at(p);
            &&& p.1 == 0 ==> cell.top
            &&& p.0 == m2.width - 1 ==> cell.right
            &&& p.1 == m2.height - 1 ==> cell.bottom
            &&& p.0 == 0 ==> cell.left
        }) by {
            let old_cell = m.at(p);
            assert(p.1 == 0 ==> old_cell.top);
            if p != cur && p != next {
                assert(m2.at(p) == m.at(p));
            }
        }
    }
    assert(m2.unvisited_intact()) by {
        assert forall|p: Pos| m2.contains(p) && !(#[trigger] m2.at(p)).visited implies m2.at(
            p,
        ).intact() by {
            assert(m2.at(p) == m.at(p));
            assert(m.at(p).intact());
        }
    }
    assert(m2.at(origin()).visited) by {
        if origin() != cur {
            assert(m2.at(origin()) == m.at(origin()));
        }
    }
    assert(m2.removed_walls() == m2.visited_count() - 1);
    assert forall|p: Pos| m2.contains(p) && m2.at(p).visited implies 0 <= #[trigger] rank2(p)
        < m2.visited_count() by {
        lemma_facing_after(m, cur, next, p, above(p));
        if p != next {
            assert(0 <= rank(p) < count);
        }
    }
    assert forall|p: Pos, q: Pos|
        m2.contains(p) && m2.contains(q) && m2.at(p).visited && m2.at(q).visited
            && #[trigger] rank2(p) == #[trigger] rank2(q) implies p == q by {
        lemma_facing_after(m, cur, next, p, above(p));
        lemma_facing_after(m, cur, next, q, above(q));
        if p != next {
            assert(0 <= rank(p) < count);
        }
        if q != next {
            assert(0 <= rank(q) < count);
        }
    }
    assert forall|p: Pos| m2.contains(p) && m2.at(p).visited && p != origin() implies m2.passage(
        #[trigger] parent2(p),
        p,
    ) && rank2(parent2(p)) < rank2(p) by {
        lemma_facing_after(m, cur, next, p, above(p));
        if p == next {
            lemma_passage_after(m, cur, next, cur, next);
            assert(0 <= rank(cur) < count);
        } else {
            let up = parent(p);
            assert(m.passage(up, p) && rank(up) < rank(p));
            lemma_passage_visited(m, up, p);
            lemma_passage_after(m, cur, next, up, p);
        }
    }
    assert forall|a: Pos, b: Pos| #[trigger] m2.passage(a, b) && rank2(a) < rank2(b) implies a
        == parent2(b) by {
        lemma_passage_after(m, cur, next, a, b);
        if a == cur && b == next {
        } else if a == next && b == cur {
            assert(0 <= rank(cur) < count);
        } else {
            assert(m.passage(a, b));
            lemma_passage_visited(m, a, b);
        }
    }
}

/// Moving on to an unvisited neighbour of the last cell of the path keeps
/// the exploration in order.
pub proof fn lemma_advance_exploring(c: Carving, next: Pos)
    requires
        c.maze.wf(),
        c.exploring(),
        c.path.len() > 0,
        c.maze.unexplored(next),
        adjacent(c.path.last(), next),
    ensures
        c.advance(next).exploring(),
{
    let m = c.maze;
    let cur = c.path.last();
    let c2 = c.advance(next);
    let m2 = c2.maze;
    assert(m.contains(c.path[c.path.len() - 1]));
    lemma_advance_cells(m, cur, next);
    assert forall|i: int| 0 <= i < c2.path.len() implies m2.contains(#[trigger] c2.path[i])
        && m2.at(c2.path[i]).visited by {
        if i < c.path.len() {
            assert(m.contains(c.path[i]) && m.at(c.path[i]).visited);
            lemma_facing_after(m, cur, next, c.path[i], above(c.path[i]));
        }
    }
    assert forall|p: Pos| m2.contains(p) && (#[trigger] m2.at(p)).visited implies c2.path.contains(
        p,
    ) || m2.settled(p) by {
        lemma_facing_after(m, cur, next, p, above(p));
        if p == next {
            assert(c2.path[c.path.len() as int] == p);
        } else {
            assert(m.at(p).visited);
            if c.path.contains(p) {
                let i = choose|i: int| 0 <= i < c.path.len() && c.path[i] == p;
                assert(c2.path[i] == p);
            } else {
                assert(m.settled(p));
                lemma_still_explored(m, cur, next, above(p));
                lemma_still_explored(m, cur, next, right_of(p));
                lemma_still_explored(m, cur, next, below(p));
                lemma_still_explored(m, cur, next, left_of(p));
            }
        }
    }
}

/// Moving on leaves no cell unexplored that was not so before.
pub proof fn lemma_still_explored(m: MazeView, cur: Pos, next: Pos, q: Pos)
    requires
        m.wf(),
        m.contains(cur),
        m.contains(next),
        adjacent(cur, next),
    ensures
        m.open_passage(cur, next).mark_visited(next).unexplored(q) ==> m.unexplored(q),
{
    lemma_advance_cells(m, cur, next);
    if m.contains(q) {
        lemma_facing_after(m, cur, next, q, above(q));
    }
}

/// Stepping back from a settled cell keeps the exploration in order.
pub proof fn lemma_retreat_exploring(c: Carving)
    requires
        c.exploring(),
        c.path.len() > 0,
        c.maze.settled(c.path.last()),
    ensures
        c.retreat().exploring(),
{
    let c2 = c.retreat();
    assert forall|i: int| 0 <= i < c2.path.len() implies c2.maze.contains(#[trigger] c2.path[i])
        && c2.maze.at(c2.path[i]).visited by {
        assert(c2.path[i] == c.path[i]);
    }
    assert forall|p: Pos|
        c2.maze.contains(p) && (#[trigger] c2.maze.at(p)).visited implies c2.path.contains(p)
        || c2.maze.settled(p) by {
        if c.path.contains(p) && p != c.path.last() {
            let i = choose|i: int| 0 <= i < c.path.len() && c.path[i] == p;
            assert(c2.path[i] == p);
        }
    }
}

/// Where the origin is visited and every visited cell is settled, every cell
/// is visited.
pub proof fn lemma_settled_covers(m: MazeView, p: Pos)
    requires
        m.wf(),
        m.at(origin()).visited,
        forall|q: Pos| m.contains(q) && (#[trigger] m.at(q)).visited ==> m.settled(q),
        m.contains(p),
    ensures
        m.at(p).visited,
    decreases p.0 + p.1,
{
    if p.0 > 0 {
        let q = left_of(p);
        lemma_settled_covers(m, q);
        assert(m.settled(q));
        assert(right_of(q) == p);
    } else if p.1 > 0 {
        let q = above(p);
        lemma_settled_covers(m, q);
        assert(m.settled(q));
        assert(below(q) == p);
    } else {
        assert(p == origin());
    }
}

/// The state in which carving begins is a tree of one cell, in order, with
/// two steps to go for every other cell and one for the origin.
pub proof fn lemma_start(width: int, height: int)
    requires
        width >= 1,
        height >= 1,
    ensures
        tree_so_far(Carving::start(width, height).maze, |p: Pos| 0int, |p: Pos| origin()),
        Carving::start(width, height).exploring(),
        Carving::start(width, height).maze.width == width,
        Carving::start(width, height).maze.height == height,
        Carving::start(width, height).maze.visited_count() == 1,
        Carving::start(width, height).budget() == 2 * width * height - 1,
{
    let blank = MazeView::blank(width, height);
    let c = Carving::start(width, height);
    let m = c.maze;
    let rank = |p: Pos| 0int;
    let parent = |p: Pos| origin();
    lemma_blank(width, height);
    assert(blank.contains(origin()));
    let seen = CellView { visited: true, ..blank.at(origin()) };
    lemma_with_cell(blank, origin(), seen, origin());
    lemma_with_cell_counts(blank, origin(), seen);
    assert forall|p: Pos| m.contains(p) implies #[trigger] m.at(p) == (CellView {
        visited: p == origin(),
        ..CellView::fresh(p.0, p.1)
    }) by {
        lemma_with_cell(blank, origin(), seen, p);
        assert(blank.contains(p));
    }
    assert(m.wf());
    assert(m.walls_paired()) by {
        assert forall|a: Pos, b: Pos|
            m.contains(a) && m.contains(b) && adjacent(a, b) implies #[trigger] m.wall_facing(a, b)
            == m.wall_facing(b, a) by {
            assert(m.at(a).intact() && m.at(b).intact());
        }
    }
    assert forall|a: Pos, b: Pos| #[trigger] m.passage(a, b) && rank(a) < rank(b) implies a
        == parent(b) by {
        assert(m.at(a).intact());
    }
    assert(c.path[0] == origin());
    assert(2 * (width * height - 1) + 1 == 2 * width * height - 1) by (nonlinear_arith);
}

/// When the path has run empty the maze is finished.
pub proof fn lemma_finished(c: Carving, rank: Ranking, parent: Parents)
    requires
        tree_so_far(c.maze, rank, parent),
        c.exploring(),
        c.path.len() == 0,
    ensures
        c.maze.perfect(),
        c.budget() == 0,
{
    let m = c.maze;
    assert forall|q: Pos| m.contains(q) && (#[trigger] m.at(q)).visited implies m.settled(q) by {
        assert(!c.path.contains(q));
    }
    assert forall|p: Pos| m.contains(p) implies (#[trigger] m.at(p)).visited by {
        lemma_settled_covers(m, p);
    }
    lemma_visited_count(m);
    assert(is_tree_by(m, rank, parent));
    lemma_tree_routes(m, rank, parent);
}

/// A step of carving, taken in a state that is in order, leads to a state
/// that is in order, with one step less to go.
pub proof fn lemma_step(c: Carving, rank: Ranking, parent: Parents, rng: Seq<u32>) -> (then: (
    Ranking,
    Parents,
))
    requires
        tree_so_far(c.maze, rank, parent),
        c.exploring(),
        c.path.len() > 0,
        c.maze.unvisited_neighbors(c.path.last()).len() > 0 ==> draw(
            rng,
            c.maze.unvisited_neighbors(c.path.last()).len() as usize,
        ).0 < c.maze.unvisited_neighbors(c.path.last()).len(),
    ensures
        tree_so_far(c.step(rng).0.maze, then.0, then.1),
        c.step(rng).0.exploring(),
        c.step(rng).0.maze.width == c.maze.width,
        c.step(rng).0.maze.height == c.maze.height,
        c.budget() >= 1,
        c.step(rng).0.budget() == c.budget() - 1,
        c.run(rng, c.budget() as nat) == c.step(rng).0.run(
            c.step(rng).1,
            c.step(rng).0.budget() as nat,
        ),
{
    let m = c.maze;
    let cur = c.path.last();
    let options = m.unvisited_neighbors(cur);
    assert(m.contains(c.path[c.path.len() - 1]) && m.at(c.path[c.path.len() - 1]).visited);
    lemma_unvisited_neighbors(m, cur);
    lemma_visited_count(m);
    if options.len() == 0 {
        lemma_retreat_exploring(c);
        (rank, parent)
    } else {
        let next = options[draw(rng, options.len() as usize).0 as int];
        assert(m.unexplored(next) && adjacent(cur, next));
        lemma_advance_tree(m, rank, parent, cur, next);
        lemma_advance_exploring(c, next);
        lemma_advance_cells(m, cur, next);
        (rank_with(rank, next, m.visited_count()), parent_with(parent, next, cur))
    }
}

} // verus!
