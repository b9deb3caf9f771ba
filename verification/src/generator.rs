//! The maze generator: randomized depth-first carving with an explicit path.

use rand::rngs::StdRng;
use vstd::prelude::*;
use crate::carving::{
    generated, lemma_advance_cells, lemma_finished, lemma_start, lemma_step, tree_so_far, Carving,
};
use crate::maze::{lemma_maze_view_injective, Cell, Maze};
use crate::model::{adjacent, lemma_unvisited_neighbors, origin, Pos};
use crate::random::{choose_cell, draw, entropy_seed, rng_state, seeded_rng, seeded_state};
use crate::routes::{Parents, Ranking};

verus! {

/// The positions that a path of coordinate pairs stands for.
pub open spec fn positions(path: Seq<(usize, usize)>) -> Seq<Pos> {
    Seq::new(path.len(), |i: int| (path[i].0 as int, path[i].1 as int))
}

impl Maze {
    /// The state of a carving that works on this maze along `path`.
    pub open spec fn carving(self, path: Seq<(usize, usize)>) -> Carving {
        Carving { maze: self@, path: positions(path) }
    }

    /// One step of carving, given what was chosen among the unvisited
    /// neighbours of the last cell of the path. With nothing chosen the step
    /// goes back: the last cell leaves the path. With a neighbour chosen it
    /// moves on: the wall towards the neighbour is removed, the neighbour is
    /// marked as visited and put at the end of the path.
    pub fn carve_step(&mut self, path: &mut Vec<(usize, usize)>, chosen: Option<Cell>)
        requires
            old(self)@.wf(),
            old(path)@.len() > 0,
            old(self)@.contains(positions(old(path)@).last()),
            chosen matches Some(next) ==> old(self)@.contains(next.pos()) && adjacent(
                positions(old(path)@).last(),
                next.pos(),
            ),
        ensures
            final(self).width == old(self).width,
            final(self).height == old(self).height,
            final(self)@.wf(),
            final(self).carving(final(path)@) == (match chosen {
                Some(next) => old(self).carving(old(path)@).advance(next.pos()),
                None => old(self).carving(old(path)@).retreat(),
            }),
    {
        let ghost before = self.carving(path@);
        match chosen {
            None => {
                path.pop();
                assert(positions(path@) =~= before.path.drop_last());
            },
            Some(next) => {
                let x: usize = path[path.len() - 1].0;
                let y: usize = path[path.len() - 1].1;
                assert(before.path.last() == (x as int, y as int));
                let current = *self.cell_at(x, y);
                proof {
                    lemma_advance_cells(before.maze, current.pos(), next.pos());
                }
                self.remove_wall_between(&current, &next);
                self.mark_visited(next.x, next.y);
                path.push((next.x, next.y));
                assert(positions(path@) =~= before.path.push(next.pos()));
            },
        }
    }

    /// Carves the maze with the given generator: starting from the cell at
    /// the origin it walks to a randomly chosen unvisited neighbour, removing
    /// the wall on the way, and steps back where no such neighbour is left,
    /// until it has stepped back from the origin.
    pub fn generate_with(&mut self, rng: &mut StdRng)
        requires
            old(self)@.wf(),
            old(self)@.is_blank(),
        ensures
            final(self).width == old(self).width,
            final(self).height == old(self).height,
            final(self)@.perfect(),
            (final(self)@, rng_state(*final(rng))) == generated(
                old(self).width as int,
                old(self).height as int,
                rng_state(*old(rng)),
            ),
    {
        let ghost w = self.width as int;
        let ghost h = self.height as int;
        let ghost rng_before = rng_state(*rng);
        let ghost mut rank: Ranking = |p: Pos| 0int;
        let ghost mut parent: Parents = |p: Pos| origin();
        proof {
            lemma_start(w, h);
        }
        self.mark_visited(0, 0);
        let mut path: Vec<(usize, usize)> = Vec::new();
        path.push((0, 0));
        assert(positions(path@) =~= seq![origin()]);
        while path.len() > 0
            invariant
                self.width == w,
                self.height == h,
                tree_so_far(self@, rank, parent),
                self.carving(path@).exploring(),
                self.carving(path@).run(rng_state(*rng), self.carving(path@).budget() as nat)
                    == Carving::start(w, h).run(rng_before, (2 * w * h - 1) as nat),
            decreases self.carving(path@).budget(),
        {
            let x: usize = path[path.len() - 1].0;
            let y: usize = path[path.len() - 1].1;
            let ghost before = self.carving(path@);
            let ghost state = rng_state(*rng);
            let ghost cur: Pos = (x as int, y as int);
            let ghost options = self@.unvisited_neighbors(cur);
            assert(before.path[path.len() - 1] == cur);
            let candidates = self.get_unvisited_neighbors(x, y);
            let chosen = choose_cell(&candidates, rng);
            proof {
                lemma_unvisited_neighbors(self@, cur);
                if let Some(next) = chosen {
                    let k = draw(state, candidates.len()).0 as int;
                    assert(candidates@[k]@ == self@.at(options[k]));
                    assert(self@.unexplored(options[k]));
                    assert(next.pos() == options[k]);
                }
                let then = lemma_step(before, rank, parent, state);
                rank = then.0;
                parent = then.1;
            }
            self.carve_step(&mut path, chosen);
            assert(self.carving(path@) == before.step(state).0);
            assert(rng_state(*rng) == before.step(state).1);
        }
        proof {
            lemma_finished(self.carving(path@), rank, parent);
        }
    }

    /// Carves the maze with a generator made from `seed`: the same seed on a
    /// grid of the same size gives the same maze.
    pub fn generate_seeded(&mut self, seed: u64)
        requires
            old(self)@.wf(),
            old(self)@.is_blank(),
        ensures
            final(self).width == old(self).width,
            final(self).height == old(self).height,
            final(self)@.perfect(),
            final(self)@ == generated(
                old(self).width as int,
                old(self).height as int,
                seeded_state(seed),
            ).0,
    {
        let mut rng = seeded_rng(seed);
        self.generate_with(&mut rng);
    }

    /// Carves the maze with a seed drawn from the thread's random source.
    pub fn generate(&mut self)
        requires
            old(self)@.wf(),
            old(self)@.is_blank(),
        ensures
            final(self).width == old(self).width,
            final(self).height == old(self).height,
            final(self)@.perfect(),
            exists|seed: u64| final(self)@ == #[trigger] generated(
                old(self).width as int,
                old(self).height as int,
                seeded_state(seed),
            ).0,
    {
        let seed: u64 = entropy_seed();
        self.generate_seeded(seed);
    }
}

/// Two mazes of the same size carved with generators that started in the
/// same state hold the same cells, wall for wall.
pub proof fn lemma_generation_repeatable(first: Maze, second: Maze, rng: Seq<u32>)
    requires
        first.width == second.width,
        first.height == second.height,
        first@ == generated(first.width as int, first.height as int, rng).0,
        second@ == generated(second.width as int, second.height as int, rng).0,
    ensures
        first.grid@ == second.grid@,
{
    lemma_maze_view_injective(first, second);
}

} // verus!
