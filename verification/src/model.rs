//! The mathematical model of a maze grid: cells with four wall flags laid out
//! in row-major order, and the vocabulary that the contracts are written in.

use vstd::prelude::*;

verus! {

/// A grid coordinate: the column `x` first, then the row `y`.
pub type Pos = (int, int);

/// The cell at which carving starts.
pub open spec fn origin() -> Pos {
    (0, 0)
}

/// The position one row up (towards row 0).
pub open spec fn above(p: Pos) -> Pos {
    (p.0, p.1 - 1)
}

/// The position one column to the right.
pub open spec fn right_of(p: Pos) -> Pos {
    (p.0 + 1, p.1)
}

/// The position one row down.
pub open spec fn below(p: Pos) -> Pos {
    (p.0, p.1 + 1)
}

/// The position one column to the left.
pub open spec fn left_of(p: Pos) -> Pos {
    (p.0 - 1, p.1)
}

/// Two positions are adjacent when they differ by one step along one axis.
pub open spec fn adjacent(a: Pos, b: Pos) -> bool {
    b == above(a) || b == right_of(a) || b == below(a) || b == left_of(a)
}

/// The four positions next to `p`, in the order top, right, bottom, left.
pub open spec fn around(p: Pos) -> Seq<Pos> {
    seq![above(p), right_of(p), below(p), left_of(p)]
}

/// What a cell holds: its coordinates, one flag per wall (`true` while the
/// wall stands) and the traversal mark.
pub struct CellView {
    pub x: int,
    pub y: int,
    pub top: bool,
    pub right: bool,
    pub bottom: bool,
    pub left: bool,
    pub visited: bool,
}

impl CellView {
    /// The cell as it is created: all four walls standing, not visited.
    pub open spec fn fresh(x: int, y: int) -> CellView {
        CellView { x, y, top: true, right: true, bottom: true, left: true, visited: false }
    }

    /// All four walls stand.
    pub open spec fn intact(self) -> bool {
        self.top && self.right && self.bottom && self.left
    }

    /// How many of the two walls that a cell is counted for, the right one and
    /// the bottom one, are gone.
    pub open spec fn cleared(self) -> int {
        (if self.right { 0int } else { 1int }) + (if self.bottom { 0int } else { 1int })
    }

    /// One if the cell is visited, zero otherwise.
    pub open spec fn visits(self) -> int {
        if self.visited { 1 } else { 0 }
    }
}

/// The number of cleared right and bottom walls among the first `n` cells.
pub open spec fn cleared_upto(cells: Seq<CellView>, n: int) -> int
    decreases n,
{
    if n <= 0 {
        0
    } else {
        cleared_upto(cells, n - 1) + cells[n - 1].cleared()
    }
}

/// The number of visited cells among the first `n` cells.
pub open spec fn visited_upto(cells: Seq<CellView>, n: int) -> int
    decreases n,
{
    if n <= 0 {
        0
    } else {
        visited_upto(cells, n - 1) + cells[n - 1].visits()
    }
}

/// A maze grid: `width * height` cells in row-major order.
pub struct MazeView {
    pub width: int,
    pub height: int,
    pub cells: Seq<CellView>,
}

impl MazeView {
    /// The position lies inside the grid.
    pub open spec fn contains(self, p: Pos) -> bool {
        0 <= p.0 < self.width && 0 <= p.1 < self.height
    }

    /// The place of a position in the row-major cell sequence.
    pub open spec fn index(self, p: Pos) -> int {
        p.1 * self.width + p.0
    }

    /// The cell at a position.
    pub open spec fn at(self, p: Pos) -> CellView {
        self.cells[self.index(p)]
    }

    /// Both dimensions are positive and there is one cell per position.
    pub open spec fn shaped(self) -> bool {
        &&& self.width >= 1
        &&& self.height >= 1
        &&& self.cells.len() == self.width * self.height
    }

    /// The grid is shaped and every cell carries the coordinates of its place.
    pub open spec fn wf(self) -> bool {
        &&& self.shaped()
        &&& forall|p: Pos|
            self.contains(p) ==> (#[trigger] self.at(p)).x == p.0 && self.at(p).y == p.1
    }

    /// The grid as it is constructed: every cell fresh.
    pub open spec fn blank(width: int, height: int) -> MazeView {
        MazeView {
            width,
            height,
            cells: Seq::new(
                (width * height) as nat,
                |i: int| CellView::fresh(i % width, i / width),
            ),
        }
    }

    /// Every cell is fresh: no wall removed, nothing visited.
    pub open spec fn is_blank(self) -> bool {
        self == Self::blank(self.width, self.height)
    }

    /// The position is inside the grid and its cell has not been visited.
    pub open spec fn unexplored(self, p: Pos) -> bool {
        self.contains(p) && !self.at(p).visited
    }

    /// No neighbour of the position is left to explore.
    pub open spec fn settled(self, p: Pos) -> bool {
        &&& !self.unexplored(above(p))
        &&& !self.unexplored(right_of(p))
        &&& !self.unexplored(below(p))
        &&& !self.unexplored(left_of(p))
    }

    /// The neighbours of a position that lie inside the grid, in the order
    /// top, right, bottom, left.
    pub open spec fn neighbors(self, p: Pos) -> Seq<Pos> {
        around(p).filter(|q: Pos| self.contains(q))
    }

    /// The neighbours of a position that are still unexplored, in the order
    /// top, right, bottom, left.
    pub open spec fn unvisited_neighbors(self, p: Pos) -> Seq<Pos> {
        around(p).filter(|q: Pos| self.unexplored(q))
    }

    /// The wall flag of the cell at `a` on the side of its neighbour `b`.
    pub open spec fn wall_facing(self, a: Pos, b: Pos) -> bool {
        let cell = self.at(a);
        if b == above(a) {
            cell.top
        } else if b == right_of(a) {
            cell.right
        } else if b == below(a) {
            cell.bottom
        } else {
            cell.left
        }
    }

    /// There is an open passage between `a` and `b`: they are adjacent cells of
    /// the grid and the wall between them is gone on both sides.
    pub open spec fn passage(self, a: Pos, b: Pos) -> bool {
        &&& self.contains(a)
        &&& self.contains(b)
        &&& adjacent(a, b)
        &&& !self.wall_facing(a, b)
        &&& !self.wall_facing(b, a)
    }

    /// A wall between two cells is either there on both sides or gone on both.
    pub open spec fn walls_paired(self) -> bool {
        forall|a: Pos, b: Pos|
            self.contains(a) && self.contains(b) && adjacent(a, b) ==> #[trigger] self.wall_facing(
                a,
                b,
            ) == self.wall_facing(b, a)
    }

    /// No cell on the edge of the grid has lost a wall that faces outwards.
    pub open spec fn border_intact(self) -> bool {
        forall|p: Pos|
            self.contains(p) ==> {
                let cell = #[trigger] self.at(p);
                &&& p.1 == 0 ==> cell.top
                &&& p.0 == self.width - 1 ==> cell.right
                &&& p.1 == self.height - 1 ==> cell.bottom
                &&& p.0 == 0 ==> cell.left
            }
    }

    /// Every cell has been visited.
    pub open spec fn all_visited(self) -> bool {
        forall|p: Pos| self.contains(p) ==> (#[trigger] self.at(p)).visited
    }

    /// Every cell that has not been visited still has its four walls.
    pub open spec fn unvisited_intact(self) -> bool {
        forall|p: Pos| self.contains(p) && !(#[trigger] self.at(p)).visited ==> self.at(p).intact()
    }

    /// The number of walls removed between cells. Each removed wall is counted
    /// once, at the cell on its left or upper side.
    pub open spec fn removed_walls(self) -> int {
        cleared_upto(self.cells, self.cells.len() as int)
    }

    /// The number of visited cells.
    pub open spec fn visited_count(self) -> int {
        visited_upto(self.cells, self.cells.len() as int)
    }

    /// The grid with the cell at `p` replaced.
    pub open spec fn with_cell(self, p: Pos, cell: CellView) -> MazeView {
        MazeView { cells: self.cells.update(self.index(p), cell), ..self }
    }

    /// The grid with the cell at `p` marked as visited.
    pub open spec fn mark_visited(self, p: Pos) -> MazeView {
        self.with_cell(p, CellView { visited: true, ..self.at(p) })
    }

    /// The cell at `a` with its wall flag on the side of `b` cleared.
    pub open spec fn opened(self, a: Pos, b: Pos) -> CellView {
        let cell = self.at(a);
        if b == above(a) {
            CellView { top: false, ..cell }
        } else if b == right_of(a) {
            CellView { right: false, ..cell }
        } else if b == below(a) {
            CellView { bottom: false, ..cell }
        } else {
            CellView { left: false, ..cell }
        }
    }

    /// The grid with the wall flag of `a` on the side of `b` cleared.
    pub open spec fn clear_facing(self, a: Pos, b: Pos) -> MazeView {
        self.with_cell(a, self.opened(a, b))
    }

    /// The grid with the wall between the adjacent cells `a` and `b` removed on
    /// both sides.
    pub open spec fn open_passage(self, a: Pos, b: Pos) -> MazeView {
        self.clear_facing(a, b).clear_facing(b, a)
    }
}

/// Filtering a sequence with one more item at its end keeps or drops that item
/// and filters the rest.
pub proof fn lemma_filter_push(s: Seq<Pos>, last: Pos, keep: spec_fn(Pos) -> bool)
    ensures
        s.push(last).filter(keep) == (if keep(last) {
            s.filter(keep).push(last)
        } else {
            s.filter(keep)
        }),
{
    reveal(Seq::filter);
    assert(s.push(last).drop_last() =~= s);
}

/// The positions around `p` that a filter keeps, written out: each of the
/// four, in the order top, right, bottom, left, if the filter keeps it.
pub open spec fn kept_around(p: Pos, keep: spec_fn(Pos) -> bool) -> Seq<Pos> {
    let none = Seq::<Pos>::empty();
    let a = if keep(above(p)) { none.push(above(p)) } else { none };
    let b = if keep(right_of(p)) { a.push(right_of(p)) } else { a };
    let c = if keep(below(p)) { b.push(below(p)) } else { b };
    if keep(left_of(p)) { c.push(left_of(p)) } else { c }
}

/// Filtering the four positions around `p` gives those that the filter keeps.
pub proof fn lemma_filter_around(p: Pos, keep: spec_fn(Pos) -> bool)
    ensures
        around(p).filter(keep) == kept_around(p, keep),
{
    let none = Seq::<Pos>::empty();
    let one = none.push(above(p));
    let two = one.push(right_of(p));
    let three = two.push(below(p));
    assert(none.filter(keep) == none) by {
        reveal(Seq::filter);
    }
    lemma_filter_push(none, above(p), keep);
    lemma_filter_push(one, right_of(p), keep);
    lemma_filter_push(two, below(p), keep);
    lemma_filter_push(three, left_of(p), keep);
    assert(around(p) == three.push(left_of(p)));
}

/// The unvisited neighbours of a position are its neighbours, without those
/// that have been visited.
pub proof fn lemma_unvisited_among_neighbors(m: MazeView, p: Pos)
    ensures
        m.unvisited_neighbors(p) == m.neighbors(p).filter(|q: Pos| !m.at(q).visited),
{
    let inside = |q: Pos| m.contains(q);
    let open = |q: Pos| !m.at(q).visited;
    let both = |q: Pos| m.unexplored(q);
    lemma_filter_around(p, inside);
    lemma_filter_around(p, both);
    let none = Seq::<Pos>::empty();
    let a = if inside(above(p)) { none.push(above(p)) } else { none };
    let b = if inside(right_of(p)) { a.push(right_of(p)) } else { a };
    let c = if inside(below(p)) { b.push(below(p)) } else { b };
    assert(none.filter(open) == none) by {
        reveal(Seq::filter);
    }
    lemma_filter_push(none, above(p), open);
    lemma_filter_push(a, right_of(p), open);
    lemma_filter_push(b, below(p), open);
    lemma_filter_push(c, left_of(p), open);
}

/// The unvisited neighbours of a cell are unexplored cells next to it, and
/// there is none exactly when the cell is settled.
pub proof fn lemma_unvisited_neighbors(m: MazeView, p: Pos)
    ensures
        m.unvisited_neighbors(p).len() <= 4,
        m.unvisited_neighbors(p).len() == 0 <==> m.settled(p),
        forall|i: int|
            0 <= i < m.unvisited_neighbors(p).len() ==> m.unexplored(
                #[trigger] m.unvisited_neighbors(p)[i],
            ) && adjacent(p, m.unvisited_neighbors(p)[i]),
{
    lemma_filter_around(p, |q: Pos| m.unexplored(q));
}

/// The neighbours of a cell are cells of the grid next to it.
pub proof fn lemma_neighbors(m: MazeView, p: Pos)
    ensures
        m.neighbors(p).len() <= 4,
        forall|i: int|
            0 <= i < m.neighbors(p).len() ==> m.contains(#[trigger] m.neighbors(p)[i]) && adjacent(
                p,
                m.neighbors(p)[i],
            ),
        forall|q: Pos| m.contains(q) && adjacent(p, q) ==> m.neighbors(p).contains(q),
{
    let n = m.neighbors(p);
    lemma_filter_around(p, |q: Pos| m.contains(q));
    assert forall|q: Pos| m.contains(q) && adjacent(p, q) implies n.contains(q) by {
        let before_top = 0int;
        let before_right = before_top + if m.contains(above(p)) { 1int } else { 0int };
        let before_bottom = before_right + if m.contains(right_of(p)) { 1int } else { 0int };
        let before_left = before_bottom + if m.contains(below(p)) { 1int } else { 0int };
        if q == above(p) {
            assert(n[before_top] == q);
        } else if q == right_of(p) {
            assert(n[before_right] == q);
        } else if q == below(p) {
            assert(n[before_bottom] == q);
        } else {
            assert(n[before_left] == q);
        }
    }
}

/// Replacing the cell at place `i` changes the count of cleared walls by the
/// difference between the new cell and the old one.
pub proof fn lemma_cleared_update(cells: Seq<CellView>, i: int, cell: CellView, n: int)
    requires
        0 <= i < cells.len(),
        0 <= n <= cells.len(),
    ensures
        cleared_upto(cells.update(i, cell), n) == cleared_upto(cells, n) + (if i < n {
            cell.cleared() - cells[i].cleared()
        } else {
            0
        }),
    decreases n,
{
    if n > 0 {
        lemma_cleared_update(cells, i, cell, n - 1);
    }
}

/// Replacing the cell at place `i` changes the count of visited cells by the
/// difference between the new cell and the old one.
pub proof fn lemma_visited_update(cells: Seq<CellView>, i: int, cell: CellView, n: int)
    requires
        0 <= i < cells.len(),
        0 <= n <= cells.len(),
    ensures
        visited_upto(cells.update(i, cell), n) == visited_upto(cells, n) + (if i < n {
            cell.visits() - cells[i].visits()
        } else {
            0
        }),
    decreases n,
{
    if n > 0 {
        lemma_visited_update(cells, i, cell, n - 1);
    }
}

/// Among `n` cells, between none and `n` are visited; all of them are exactly
/// when the count is `n`.
pub proof fn lemma_visited_bounds(cells: Seq<CellView>, n: int)
    requires
        0 <= n <= cells.len(),
    ensures
        0 <= visited_upto(cells, n) <= n,
        visited_upto(cells, n) == n <==> forall|i: int| 0 <= i < n ==> (#[trigger] cells[i]).visited,
    decreases n,
{
    if n > 0 {
        lemma_visited_bounds(cells, n - 1);
        if visited_upto(cells, n) == n {
            assert forall|i: int| 0 <= i < n implies (#[trigger] cells[i]).visited by {
                if i < n - 1 {
                    assert(cells[i].visited);
                }
            }
        }
    }
}

/// Cells that all have their right and bottom walls count no cleared wall.
pub proof fn lemma_none_cleared(cells: Seq<CellView>, n: int)
    requires
        0 <= n <= cells.len(),
        forall|i: int| 0 <= i < n ==> (#[trigger] cells[i]).right && cells[i].bottom,
    ensures
        cleared_upto(cells, n) == 0,
    decreases n,
{
    if n > 0 {
        lemma_none_cleared(cells, n - 1);
        assert(cells[n - 1].right && cells[n - 1].bottom);
    }
}

/// Cells of which none is visited count no visit.
pub proof fn lemma_none_visited(cells: Seq<CellView>, n: int)
    requires
        0 <= n <= cells.len(),
        forall|i: int| 0 <= i < n ==> !(#[trigger] cells[i]).visited,
    ensures
        visited_upto(cells, n) == 0,
    decreases n,
{
    if n > 0 {
        lemma_none_visited(cells, n - 1);
        assert(!cells[n - 1].visited);
    }
}

/// A position inside the grid has its place inside the cell sequence.
pub proof fn lemma_index_in_range(m: MazeView, p: Pos)
    requires
        m.shaped(),
        m.contains(p),
    ensures
        0 <= m.index(p) < m.cells.len(),
        0 <= p.1 * m.width <= m.index(p),
        m.index(p) < m.width * m.height,
{
    let w = m.width;
    let h = m.height;
    let x = p.0;
    let y = p.1;
    assert(0 <= y * w && y * w + w <= h * w && h * w == w * h) by (nonlinear_arith)
        requires
            0 <= y < h,
            w >= 1,
    ;
}

/// Different positions inside the grid have different places.
pub proof fn lemma_index_injective(m: MazeView, p: Pos, q: Pos)
    requires
        m.contains(p),
        m.contains(q),
        m.index(p) == m.index(q),
    ensures
        p == q,
{
    let w = m.width;
    assert(p.1 == q.1) by (nonlinear_arith)
        requires
            0 <= p.0 < w,
            0 <= q.0 < w,
            p.1 * w + p.0 == q.1 * w + q.0,
    ;
}

/// A place in the cell sequence is the place of exactly one position.
pub proof fn lemma_index_inverse(m: MazeView, i: int)
    requires
        m.shaped(),
        0 <= i < m.cells.len(),
    ensures
        m.contains((i % m.width, i / m.width)),
        m.index((i % m.width, i / m.width)) == i,
{
    let w = m.width;
    let h = m.height;
    vstd::arithmetic::div_mod::lemma_fundamental_div_mod(i, w);
    vstd::arithmetic::div_mod::lemma_mod_bound(i, w);
    let x = i % w;
    let y = i / w;
    assert(w * y == y * w) by (nonlinear_arith);
    assert(0 <= y < h) by (nonlinear_arith)
        requires
            0 <= i < w * h,
            i == y * w + x,
            0 <= x < w,
            w >= 1,
    ;
}

/// The coordinates of a position are recovered from its place.
pub proof fn lemma_index_div_mod(m: MazeView, p: Pos)
    requires
        m.contains(p),
    ensures
        m.index(p) % m.width == p.0,
        m.index(p) / m.width == p.1,
{
    vstd::arithmetic::div_mod::lemma_fundamental_div_mod_converse(
        m.index(p),
        m.width,
        p.1,
        p.0,
    );
}

/// Replacing one cell changes that cell and no other.
pub proof fn lemma_with_cell(m: MazeView, p: Pos, cell: CellView, q: Pos)
    requires
        m.shaped(),
        m.contains(p),
        m.contains(q),
    ensures
        m.with_cell(p, cell).at(q) == (if q == p { cell } else { m.at(q) }),
        m.with_cell(p, cell).shaped(),
        m.with_cell(p, cell).width == m.width,
        m.with_cell(p, cell).height == m.height,
{
    lemma_index_in_range(m, p);
    lemma_index_in_range(m, q);
    if q != p {
        if m.index(p) == m.index(q) {
            lemma_index_injective(m, p, q);
        }
    }
}

/// Replacing one cell changes the counts by what the new cell adds and the
/// old one took.
pub proof fn lemma_with_cell_counts(m: MazeView, p: Pos, cell: CellView)
    requires
        m.shaped(),
        m.contains(p),
    ensures
        m.with_cell(p, cell).visited_count() == m.visited_count() + cell.visits() - m.at(
            p,
        ).visits(),
        m.with_cell(p, cell).removed_walls() == m.removed_walls() + cell.cleared() - m.at(
            p,
        ).cleared(),
{
    lemma_index_in_range(m, p);
    lemma_cleared_update(m.cells, m.index(p), cell, m.cells.len() as int);
    lemma_visited_update(m.cells, m.index(p), cell, m.cells.len() as int);
}

/// The count of visited cells lies between zero and the number of cells, and
/// reaches it exactly when every cell is visited.
pub proof fn lemma_visited_count(m: MazeView)
    requires
        m.shaped(),
    ensures
        0 <= m.visited_count() <= m.width * m.height,
        m.visited_count() == m.width * m.height <==> m.all_visited(),
{
    let n = m.cells.len() as int;
    lemma_visited_bounds(m.cells, n);
    if m.visited_count() == n {
        assert forall|p: Pos| m.contains(p) implies (#[trigger] m.at(p)).visited by {
            lemma_index_in_range(m, p);
            assert(m.cells[m.index(p)].visited);
        }
    }
    if m.all_visited() {
        assert forall|i: int| 0 <= i < n implies (#[trigger] m.cells[i]).visited by {
            lemma_index_inverse(m, i);
            assert(m.at((i % m.width, i / m.width)).visited);
        }
    }
}

/// Where the walls are paired and the outer walls stand, a cell has lost its
/// right wall exactly when a passage leads to the cell on its right, and its
/// bottom wall exactly when a passage leads to the cell below: the count of
/// removed walls counts each passage once.
pub proof fn lemma_cleared_walls_are_passages(m: MazeView, p: Pos)
    requires
        m.wf(),
        m.walls_paired(),
        m.border_intact(),
        m.contains(p),
    ensures
        !m.at(p).right <==> m.passage(p, right_of(p)),
        !m.at(p).bottom <==> m.passage(p, below(p)),
{
    if m.contains(right_of(p)) {
        assert(m.wall_facing(p, right_of(p)) == m.wall_facing(right_of(p), p));
    }
    if m.contains(below(p)) {
        assert(m.wall_facing(p, below(p)) == m.wall_facing(below(p), p));
    }
}

/// What removing the wall between two adjacent cells does to the grid: each
/// of the two loses its wall flag on the side of the other, and nothing else
/// changes.
pub proof fn lemma_open_passage_cells(m: MazeView, a: Pos, b: Pos)
    requires
        m.wf(),
        m.contains(a),
        m.contains(b),
        adjacent(a, b),
    ensures
        ({
            let m2 = m.open_passage(a, b);
            &&& m2.wf()
            &&& m2.width == m.width
            &&& m2.height == m.height
            &&& m2.at(a) == m.opened(a, b)
            &&& m2.at(b) == m.opened(b, a)
            &&& forall|q: Pos| m.contains(q) && q != a && q != b ==> #[trigger] m2.at(q) == m.at(q)
            &&& m2.visited_count() == m.visited_count()
            &&& m2.removed_walls() == m.removed_walls() + m.opened(a, b).cleared() - m.at(
                a,
            ).cleared() + m.opened(b, a).cleared() - m.at(b).cleared()
        }),
{
    let m1 = m.clear_facing(a, b);
    let m2 = m1.clear_facing(b, a);
    lemma_with_cell(m, a, m.opened(a, b), a);
    lemma_with_cell(m, a, m.opened(a, b), b);
    lemma_with_cell_counts(m, a, m.opened(a, b));
    lemma_with_cell(m1, b, m1.opened(b, a), a);
    lemma_with_cell(m1, b, m1.opened(b, a), b);
    lemma_with_cell_counts(m1, b, m1.opened(b, a));
    assert forall|q: Pos| m.contains(q) && q != a && q != b implies #[trigger] m2.at(q) == m.at(
        q,
    ) by {
        lemma_with_cell(m, a, m.opened(a, b), q);
        lemma_with_cell(m1, b, m1.opened(b, a), q);
    }
    assert forall|p: Pos| m2.contains(p) implies (#[trigger] m2.at(p)).x == p.0 && m2.at(p).y
        == p.1 by {
        if p != a && p != b {
            assert(m2.at(p) == m.at(p));
        }
        assert(m.at(p).x == p.0);
    }
}

/// Removing the wall between two adjacent cells leaves the walls paired and
/// the outer walls standing, where they were so before.
pub proof fn lemma_open_passage_keeps_walls(m: MazeView, a: Pos, b: Pos)
    requires
        m.wf(),
        m.contains(a),
        m.contains(b),
        adjacent(a, b),
    ensures
        m.walls_paired() ==> m.open_passage(a, b).walls_paired(),
        m.border_intact() ==> m.open_passage(a, b).border_intact(),
        m.open_passage(a, b).passage(a, b),
{
    let m2 = m.open_passage(a, b);
    lemma_open_passage_cells(m, a, b);
    if m.walls_paired() {
        assert forall|p: Pos, q: Pos|
            m2.contains(p) && m2.contains(q) && adjacent(p, q) implies #[trigger] m2.wall_facing(
            p,
            q,
        ) == m2.wall_facing(q, p) by {
            assert(m.wall_facing(p, q) == m.wall_facing(q, p));
            if p != a && p != b {
                assert(m2.at(p) == m.at(p));
            }
            if q != a && q != b {
                assert(m2.at(q) == m.at(q));
            }
        }
    }
    if m.border_intact() {
        assert forall|p: Pos| m2.contains(p) implies ({
            let cell = #[trigger] m2.at(p);
            &&& p.1 == 0 ==> cell.top
            &&& p.0 == m2.width - 1 ==> cell.right
            &&& p.1 == m2.height - 1 ==> cell.bottom
            &&& p.0 == 0 ==> cell.left
        }) by {
            let old_cell = m.at(p);
            assert(p.1 == 0 ==> old_cell.top);
            if p != a && p != b {
                assert(m2.at(p) == m.at(p));
            }
        }
    }
}

/// Marking a cell as visited keeps the grid well formed.
pub proof fn lemma_mark_visited_wf(m: MazeView, p: Pos)
    requires
        m.wf(),
        m.contains(p),
    ensures
        m.mark_visited(p).wf(),
{
    let seen = CellView { visited: true, ..m.at(p) };
    let m2 = m.mark_visited(p);
    lemma_with_cell(m, p, seen, p);
    assert forall|q: Pos| m2.contains(q) implies (#[trigger] m2.at(q)).x == q.0 && m2.at(q).y
        == q.1 by {
        lemma_with_cell(m, p, seen, q);
        assert(m.at(q).x == q.0);
    }
}

/// A blank grid is well formed and holds a fresh cell at every position.
pub proof fn lemma_blank(width: int, height: int)
    requires
        width >= 1,
        height >= 1,
    ensures
        MazeView::blank(width, height).wf(),
        MazeView::blank(width, height).width == width,
        MazeView::blank(width, height).height == height,
        forall|p: Pos| #[trigger]
            MazeView::blank(width, height).contains(p) ==> MazeView::blank(width, height).at(p)
                == CellView::fresh(p.0, p.1),
        MazeView::blank(width, height).visited_count() == 0,
        MazeView::blank(width, height).removed_walls() == 0,
{
    let m = MazeView::blank(width, height);
    assert(width * height >= 1) by (nonlinear_arith)
        requires
            width >= 1,
            height >= 1,
    ;
    assert(m.shaped());
    assert forall|p: Pos| #[trigger] m.contains(p) implies m.at(p) == CellView::fresh(
        p.0,
        p.1,
    ) by {
        lemma_index_in_range(m, p);
        lemma_index_div_mod(m, p);
    }
    lemma_visited_bounds(m.cells, m.cells.len() as int);
    lemma_none_cleared(m.cells, m.cells.len() as int);
    lemma_none_visited(m.cells, m.cells.len() as int);
}

} // verus!
