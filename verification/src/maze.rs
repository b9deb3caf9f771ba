//! The maze grid: cells with their walls, and the queries and updates that
//! carving is made of.

use vstd::prelude::*;
use crate::error::MazeError;
use crate::model::{
    adjacent, lemma_blank, lemma_filter_around, lemma_index_div_mod, lemma_index_in_range,
    lemma_mark_visited_wf, lemma_open_passage_cells, lemma_with_cell, CellView, MazeView, Pos,
};

verus! {

/// A cell of the maze grid.
#[derive(Clone, Copy, Debug)]
pub struct Cell {
    pub x: usize,
    pub y: usize,
    /// The walls in the order top, right, bottom, left; `true` while standing.
    pub walls: [bool; 4],
    pub visited: bool,
}

impl View for Cell {
    type V = CellView;

    open spec fn view(&self) -> CellView {
        CellView {
            x: self.x as int,
            y: self.y as int,
            top: self.walls[0],
            right: self.walls[1],
            bottom: self.walls[2],
            left: self.walls[3],
            visited: self.visited,
        }
    }
}

impl Cell {
    /// Creates a cell with all walls intact, not yet visited.
    pub fn new(x: usize, y: usize) -> (cell: Cell)
        ensures
            cell@ == CellView::fresh(x as int, y as int),
    {
        Cell { x, y, walls: [true; 4], visited: false }
    }

    /// The position of the cell.
    pub open spec fn pos(self) -> Pos {
        (self.x as int, self.y as int)
    }
}

/// A cell is determined by its view.
pub proof fn lemma_cell_view_injective(a: Cell, b: Cell)
    requires
        a@ == b@,
    ensures
        a == b,
{
    assert(a.walls =~= b.walls);
}

/// Two mazes with the same view have the same size and hold the same cells.
pub proof fn lemma_maze_view_injective(a: Maze, b: Maze)
    requires
        a@ == b@,
    ensures
        a.width == b.width,
        a.height == b.height,
        a.grid@ == b.grid@,
{
    assert(a.grid@.len() == a@.cells.len());
    assert(b.grid@.len() == b@.cells.len());
    assert forall|i: int| 0 <= i < a.grid@.len() implies a.grid@[i] == b.grid@[i] by {
        assert(a@.cells[i] == a.grid@[i]@);
        assert(b@.cells[i] == b.grid@[i]@);
        lemma_cell_view_injective(a.grid@[i], b.grid@[i]);
    }
    assert(a.grid@ =~= b.grid@);
}

/// The cells are those that the grid holds at the given positions, in order.
pub open spec fn cells_at(cells: Seq<Cell>, m: MazeView, places: Seq<Pos>) -> bool {
    &&& cells.len() == places.len()
    &&& forall|i: int| 0 <= i < places.len() ==> (#[trigger] cells[i])@ == m.at(places[i])
}

/// Cells found at the same positions of grids in the same state are the same
/// cells: asking again, with nothing changed in between, gives the same answer.
pub proof fn lemma_cells_at_repeatable(
    first: Seq<Cell>,
    second: Seq<Cell>,
    m: MazeView,
    places: Seq<Pos>,
)
    requires
        cells_at(first, m, places),
        cells_at(second, m, places),
    ensures
        first == second,
{
    assert forall|i: int| 0 <= i < first.len() implies first[i] == second[i] by {
        lemma_cell_view_injective(first[i], second[i]);
    }
    assert(first =~= second);
}

/// A rectangular maze grid, its cells in row-major order.
pub struct Maze {
    pub width: usize,
    pub height: usize,
    pub grid: Vec<Cell>,
}

impl View for Maze {
    type V = MazeView;

    open spec fn view(&self) -> MazeView {
        MazeView {
            width: self.width as int,
            height: self.height as int,
            cells: Seq::new(self.grid@.len(), |i: int| self.grid@[i]@),
        }
    }
}

/// A maze that differs from another in the cell at one position only has the
/// view of the other with that cell replaced.
proof fn lemma_view_update(before: Maze, after: Maze, p: Pos, cell: CellView)
    requires
        before@.shaped(),
        before@.contains(p),
        after.width == before.width,
        after.height == before.height,
        after.grid@.len() == before.grid@.len(),
        after.grid@[before@.index(p)]@ == cell,
        forall|j: int|
            0 <= j < before.grid@.len() && j != before@.index(p) ==> after.grid@[j]
                == before.grid@[j],
    ensures
        after@ == before@.with_cell(p, cell),
{
    lemma_index_in_range(before@, p);
    assert(after@.cells =~= before@.with_cell(p, cell).cells);
}

impl Maze {
    /// Creates a maze of the given size with every wall standing and no cell
    /// visited. A width or height of zero is refused.
    pub fn new(width: usize, height: usize) -> (made: Result<Maze, MazeError>)
        requires
            width * height <= usize::MAX,
        ensures
            made is Err <==> width == 0 || height == 0,
            made matches Err(e) ==> e == MazeError::InvalidDimensions,
            made matches Ok(maze) ==> maze.width == width && maze.height == height && maze@
                == MazeView::blank(width as int, height as int) && maze@.wf(),
    {
        if width == 0 || height == 0 {
            return Err(MazeError::InvalidDimensions);
        }
        let mut grid: Vec<Cell> = Vec::with_capacity(width * height);
        let ghost shape = MazeView::blank(width as int, height as int);
        proof {
            lemma_blank(width as int, height as int);
            assert(0 * width == 0) by (nonlinear_arith);
        }
        for y in 0..height
            invariant
                width >= 1,
                height >= 1,
                shape == MazeView::blank(width as int, height as int),
                shape.shaped(),
                grid@.len() == y * width,
                grid@.len() <= shape.cells.len(),
                forall|i: int| 0 <= i < grid@.len() ==> (#[trigger] grid@[i])@ == shape.cells[i],
        {
            for x in 0..width
                invariant
                    width >= 1,
                    height >= 1,
                    y < height,
                    shape == MazeView::blank(width as int, height as int),
                    shape.shaped(),
                    grid@.len() == y * width + x,
                    grid@.len() <= shape.cells.len(),
                    forall|i: int|
                        0 <= i < grid@.len() ==> (#[trigger] grid@[i])@ == shape.cells[i],
            {
                proof {
                    let p: Pos = (x as int, y as int);
                    lemma_index_in_range(shape, p);
                    lemma_index_div_mod(shape, p);
                }
                grid.push(Cell::new(x, y));
            }
            assert(y * width + width == (y + 1) * width) by (nonlinear_arith);
        }
        assert(height * width == width * height) by (nonlinear_arith);
        let maze = Maze { width, height, grid };
        assert(maze@.cells =~= shape.cells);
        Ok(maze)
    }

    /// The place of the cell at `(x, y)` in `grid`.
    pub fn index_of(&self, x: usize, y: usize) -> (i: usize)
        requires
            self@.shaped(),
            self@.contains((x as int, y as int)),
        ensures
            i == self@.index((x as int, y as int)),
            i < self.grid@.len(),
    {
        proof {
            lemma_index_in_range(self@, (x as int, y as int));
            assert(self@.cells.len() == self.grid.len());
        }
        y * self.width + x
    }

    /// The cell at `(x, y)`.
    pub fn cell_at(&self, x: usize, y: usize) -> (cell: &Cell)
        requires
            self@.shaped(),
            self@.contains((x as int, y as int)),
        ensures
            cell@ == self@.at((x as int, y as int)),
            *cell == self.grid@[self@.index((x as int, y as int))],
    {
        let i: usize = self.index_of(x, y);
        &self.grid[i]
    }

    /// Whether the maze is as `new` makes it: of positive size, with one fresh
    /// cell for each position, in row-major order.
    pub fn is_blank(&self) -> (blank: bool)
        ensures
            blank == (self@.wf() && self@.is_blank()),
    {
        if self.width == 0 || self.height == 0 {
            return false;
        }
        let size: Option<usize> = self.width.checked_mul(self.height);
        if size != Some(self.grid.len()) {
            return false;
        }
        let ghost shape = MazeView::blank(self.width as int, self.height as int);
        proof {
            lemma_blank(self.width as int, self.height as int);
        }
        let mut i: usize = 0;
        while i < self.grid.len()
            invariant
                self.width >= 1,
                self.height >= 1,
                shape == MazeView::blank(self.width as int, self.height as int),
                self.grid.len() == self.width * self.height,
                i <= self.grid.len(),
                forall|j: int| 0 <= j < i ==> (#[trigger] self.grid@[j])@ == shape.cells[j],
            decreases self.grid.len() - i,
        {
            let cell = &self.grid[i];
            let fresh: bool = cell.x == i % self.width && cell.y == i / self.width && cell.walls[0]
                && cell.walls[1] && cell.walls[2] && cell.walls[3] && !cell.visited;
            if !fresh {
                assert(self@.cells[i as int] != shape.cells[i as int]);
                return false;
            }
            i += 1;
        }
        assert(self@.cells =~= shape.cells);
        true
    }

    /// The cells next to `(x, y)` that lie inside the grid, in the order top,
    /// right, bottom, left.
    pub fn neighbors(&self, x: usize, y: usize) -> (found: Vec<Cell>)
        requires
            self@.shaped(),
            self@.contains((x as int, y as int)),
        ensures
            cells_at(found@, self@, self@.neighbors((x as int, y as int))),
    {
        proof {
            lemma_filter_around((x as int, y as int), |q: Pos| self@.contains(q));
        }
        let mut found: Vec<Cell> = Vec::new();
        if y > 0 {
            found.push(*self.cell_at(x, y - 1));
        }
        if x < self.width - 1 {
            found.push(*self.cell_at(x + 1, y));
        }
        if y < self.height - 1 {
            found.push(*self.cell_at(x, y + 1));
        }
        if x > 0 {
            found.push(*self.cell_at(x - 1, y));
        }
        found
    }

    /// The cells next to `(x, y)` that lie inside the grid and have not been
    /// visited, in the order top, right, bottom, left.
    pub fn get_unvisited_neighbors(&self, x: usize, y: usize) -> (found: Vec<Cell>)
        requires
            self@.shaped(),
            self@.contains((x as int, y as int)),
        ensures
            cells_at(found@, self@, self@.unvisited_neighbors((x as int, y as int))),
    {
        proof {
            lemma_filter_around((x as int, y as int), |q: Pos| self@.unexplored(q));
        }
        let mut found: Vec<Cell> = Vec::new();
        if y > 0 {
            let top = self.cell_at(x, y - 1);
            if !top.visited {
                found.push(*top);
            }
        }
        if x < self.width - 1 {
            let right = self.cell_at(x + 1, y);
            if !right.visited {
                found.push(*right);
            }
        }
        if y < self.height - 1 {
            let bottom = self.cell_at(x, y + 1);
            if !bottom.visited {
                found.push(*bottom);
            }
        }
        if x > 0 {
            let left = self.cell_at(x - 1, y);
            if !left.visited {
                found.push(*left);
            }
        }
        found
    }

    /// Removes the wall between two adjacent cells, on both sides.
    pub fn remove_wall_between(&mut self, current: &Cell, next: &Cell)
        requires
            old(self)@.shaped(),
            old(self)@.contains(current.pos()),
            old(self)@.contains(next.pos()),
            adjacent(current.pos(), next.pos()),
        ensures
            final(self)@ == old(self)@.open_passage(current.pos(), next.pos()),
            final(self)@.shaped(),
            old(self)@.wf() ==> final(self)@.wf(),
            final(self).width == old(self).width,
            final(self).height == old(self).height,
    {
        let ghost before = *self;
        let ci: usize = self.index_of(current.x, current.y);
        if next.x == current.x + 1 {
            self.grid[ci].walls[1] = false;
        } else if current.x == next.x + 1 {
            self.grid[ci].walls[3] = false;
        } else if next.y == current.y + 1 {
            self.grid[ci].walls[2] = false;
        } else {
            self.grid[ci].walls[0] = false;
        }
        proof {
            lemma_view_update(
                before,
                *self,
                current.pos(),
                before@.clear_facing(current.pos(), next.pos()).at(current.pos()),
            );
            lemma_with_cell(before@, current.pos(), self@.at(current.pos()), current.pos());
        }
        let ghost halfway = *self;
        let ni: usize = self.index_of(next.x, next.y);
        if next.x == current.x + 1 {
            self.grid[ni].walls[3] = false;
        } else if current.x == next.x + 1 {
            self.grid[ni].walls[1] = false;
        } else if next.y == current.y + 1 {
            self.grid[ni].walls[0] = false;
        } else {
            self.grid[ni].walls[2] = false;
        }
        proof {
            lemma_view_update(
                halfway,
                *self,
                next.pos(),
                halfway@.clear_facing(next.pos(), current.pos()).at(next.pos()),
            );
            lemma_with_cell(halfway@, next.pos(), self@.at(next.pos()), next.pos());
            if before@.wf() {
                lemma_open_passage_cells(before@, current.pos(), next.pos());
            }
        }
    }

    /// Marks the cell at `(x, y)` as visited.
    pub fn mark_visited(&mut self, x: usize, y: usize)
        requires
            old(self)@.shaped(),
            old(self)@.contains((x as int, y as int)),
        ensures
            final(self)@ == old(self)@.mark_visited((x as int, y as int)),
            final(self)@.shaped(),
            old(self)@.wf() ==> final(self)@.wf(),
            final(self).width == old(self).width,
            final(self).height == old(self).height,
    {
        let ghost before = *self;
        let i: usize = self.index_of(x, y);
        self.grid[i].visited = true;
        proof {
            lemma_view_update(
                before,
                *self,
                (x as int, y as int),
                before@.mark_visited((x as int, y as int)).at((x as int, y as int)),
            );
            lemma_with_cell(
                before@,
                (x as int, y as int),
                self@.at((x as int, y as int)),
                (x as int, y as int),
            );
            if before@.wf() {
                lemma_mark_visited_wf(before@, (x as int, y as int));
            }
        }
    }
}

} // verus!
