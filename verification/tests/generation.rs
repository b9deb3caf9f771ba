use bevy_maze::{Cell, Maze};
use rand::rngs::StdRng;
use rand::SeedableRng;

const TOP: usize = 0;
const RIGHT: usize = 1;
const BOTTOM: usize = 2;
const LEFT: usize = 3;

fn fresh(width: usize, height: usize) -> Maze {
    match Maze::new(width, height) {
        Ok(maze) => maze,
        Err(e) => panic!("{}x{} refused: {:?}", width, height, e),
    }
}

fn carved(width: usize, height: usize, seed: u64) -> Maze {
    let mut maze = fresh(width, height);
    maze.generate_seeded(seed);
    maze
}

fn walls(maze: &Maze) -> Vec<[bool; 4]> {
    maze.grid.iter().map(|c| c.walls).collect()
}

fn removed_pairs(maze: &Maze) -> usize {
    maze.grid.iter().map(|c| (!c.walls[RIGHT]) as usize + (!c.walls[BOTTOM]) as usize).sum()
}

fn reachable_from_origin(maze: &Maze) -> usize {
    let mut seen = vec![false; maze.grid.len()];
    let mut pending = vec![(0usize, 0usize)];
    seen[0] = true;
    let mut count = 0;
    while let Some((x, y)) = pending.pop() {
        count += 1;
        let cell = &maze.grid[y * maze.width + x];
        let mut steps = Vec::new();
        if !cell.walls[TOP] && y > 0 {
            steps.push((x, y - 1));
        }
        if !cell.walls[RIGHT] && x + 1 < maze.width {
            steps.push((x + 1, y));
        }
        if !cell.walls[BOTTOM] && y + 1 < maze.height {
            steps.push((x, y + 1));
        }
        if !cell.walls[LEFT] && x > 0 {
            steps.push((x - 1, y));
        }
        for (nx, ny) in steps {
            let i = ny * maze.width + nx;
            if !seen[i] {
                seen[i] = true;
                pending.push((nx, ny));
            }
        }
    }
    count
}

fn assert_walls_paired(maze: &Maze) {
    for y in 0..maze.height {
        for x in 0..maze.width {
            let cell = maze.cell_at(x, y);
            if x + 1 < maze.width {
                assert_eq!(cell.walls[RIGHT], maze.cell_at(x + 1, y).walls[LEFT], "at {},{}", x, y);
            }
            if y + 1 < maze.height {
                assert_eq!(cell.walls[BOTTOM], maze.cell_at(x, y + 1).walls[TOP], "at {},{}", x, y);
            }
        }
    }
}

fn assert_border_intact(maze: &Maze) {
    for cell in maze.grid.iter() {
        if cell.y == 0 {
            assert!(cell.walls[TOP]);
        }
        if cell.x == maze.width - 1 {
            assert!(cell.walls[RIGHT]);
        }
        if cell.y == maze.height - 1 {
            assert!(cell.walls[BOTTOM]);
        }
        if cell.x == 0 {
            assert!(cell.walls[LEFT]);
        }
    }
}

fn assert_perfect(maze: &Maze) {
    let cells = maze.width * maze.height;
    assert_eq!(maze.grid.len(), cells);
    for (i, cell) in maze.grid.iter().enumerate() {
        assert_eq!((cell.x, cell.y), (i % maze.width, i / maze.width));
        assert!(cell.visited, "cell {},{} not visited", cell.x, cell.y);
    }
    assert_walls_paired(maze);
    assert_border_intact(maze);
    assert_eq!(removed_pairs(maze), cells - 1);
    assert_eq!(reachable_from_origin(maze), cells);
}

#[test]
fn single_cell_maze_keeps_all_walls() {
    let mut maze = fresh(1, 1);
    maze.generate();
    assert_eq!(maze.grid.len(), 1);
    assert!(maze.grid[0].visited);
    assert_eq!(maze.grid[0].walls, [true, true, true, true]);
    assert_eq!(removed_pairs(&maze), 0);
}

#[test]
fn two_by_one_maze_opens_the_wall_between() {
    let mut maze = fresh(2, 1);
    maze.generate();
    assert_eq!(maze.grid.len(), 2);
    assert!(maze.grid[0].visited);
    assert!(maze.grid[1].visited);
    assert_eq!(maze.grid[0].walls, [true, false, true, true]);
    assert_eq!(maze.grid[1].walls, [true, true, true, false]);
    assert_eq!(removed_pairs(&maze), 1);
}

#[test]
fn one_by_two_maze_opens_the_wall_between() {
    let maze = carved(1, 2, 5);
    assert_eq!(maze.grid[0].walls, [true, true, false, true]);
    assert_eq!(maze.grid[1].walls, [false, true, true, true]);
}

#[test]
fn ten_by_ten_maze_is_a_spanning_tree() {
    let mut maze = fresh(10, 10);
    maze.generate();
    assert_eq!(maze.grid.len(), 100);
    assert_eq!(removed_pairs(&maze), 99);
    assert_eq!(reachable_from_origin(&maze), 100);
    assert_perfect(&maze);
}

#[test]
fn every_cell_is_visited() {
    for (width, height) in [(1, 1), (1, 7), (7, 1), (2, 2), (3, 5), (8, 8), (13, 4)] {
        let mut maze = fresh(width, height);
        maze.generate();
        assert!(maze.grid.iter().all(|c| c.visited), "{}x{}", width, height);
    }
}

#[test]
fn mazes_of_many_sizes_and_seeds_are_perfect() {
    for width in 1..7 {
        for height in 1..7 {
            for seed in 0..5 {
                let maze = carved(width, height, seed);
                assert_eq!(maze.width, width);
                assert_eq!(maze.height, height);
                assert_perfect(&maze);
            }
        }
    }
}

#[test]
fn walls_are_removed_on_both_sides() {
    for seed in 0..20 {
        assert_walls_paired(&carved(9, 6, seed));
    }
}

#[test]
fn outer_walls_stay() {
    for seed in 0..20 {
        assert_border_intact(&carved(6, 9, seed));
    }
}

#[test]
fn removed_walls_are_one_less_than_cells() {
    assert_eq!(removed_pairs(&carved(1, 1, 3)), 0);
    assert_eq!(removed_pairs(&carved(2, 2, 3)), 3);
    assert_eq!(removed_pairs(&carved(4, 3, 3)), 11);
    assert_eq!(removed_pairs(&carved(20, 15, 3)), 299);
}

#[test]
fn same_seed_gives_the_same_maze() {
    for seed in [0u64, 1, 42, u64::MAX] {
        let first = carved(12, 9, seed);
        let second = carved(12, 9, seed);
        assert_eq!(walls(&first), walls(&second));
    }
}

#[test]
fn seeded_generation_is_generation_with_a_seeded_generator() {
    let by_seed = carved(8, 8, 2024);
    let mut by_rng = fresh(8, 8);
    let mut rng = StdRng::seed_from_u64(2024);
    by_rng.generate_with(&mut rng);
    assert_eq!(walls(&by_seed), walls(&by_rng));
}

#[test]
fn generators_in_the_same_state_give_the_same_maze_and_end_alike() {
    let mut a = StdRng::seed_from_u64(7);
    let mut b = a.clone();
    let mut first = fresh(5, 5);
    let mut second = fresh(5, 5);
    first.generate_with(&mut a);
    second.generate_with(&mut b);
    assert_eq!(walls(&first), walls(&second));
    assert_eq!(a, b);
}

#[test]
fn a_generator_that_was_used_goes_on_from_where_it_is() {
    let mut rng = StdRng::seed_from_u64(11);
    let mut first = fresh(6, 6);
    first.generate_with(&mut rng);
    assert_ne!(rng, StdRng::seed_from_u64(11));
    let mut second = fresh(6, 6);
    second.generate_with(&mut rng);
    assert_perfect(&first);
    assert_perfect(&second);
}

#[test]
fn seeds_decide_the_maze() {
    let mut distinct: Vec<Vec<[bool; 4]>> = Vec::new();
    for seed in 0..40 {
        let w = walls(&carved(6, 6, seed));
        if !distinct.contains(&w) {
            distinct.push(w);
        }
    }
    assert!(distinct.len() > 1);
}

#[test]
fn both_first_moves_occur() {
    let mut went_right = false;
    let mut went_down = false;
    for seed in 0..64 {
        let maze = carved(2, 2, seed);
        let origin = maze.cell_at(0, 0);
        if !origin.walls[RIGHT] && origin.walls[BOTTOM] {
            went_right = true;
        }
        if origin.walls[RIGHT] && !origin.walls[BOTTOM] {
            went_down = true;
        }
        assert!(origin.walls[RIGHT] != origin.walls[BOTTOM]);
    }
    assert!(went_right && went_down);
}

#[test]
fn carve_step_moves_on_to_the_chosen_cell() {
    let mut maze = fresh(2, 1);
    maze.mark_visited(0, 0);
    let mut path = vec![(0usize, 0usize)];
    let next = *maze.cell_at(1, 0);
    maze.carve_step(&mut path, Some(next));
    assert_eq!(path, vec![(0, 0), (1, 0)]);
    assert_eq!(maze.grid[0].walls, [true, false, true, true]);
    assert_eq!(maze.grid[1].walls, [true, true, true, false]);
    assert!(maze.grid[0].visited);
    assert!(maze.grid[1].visited);
}

#[test]
fn carve_step_moves_down() {
    let mut maze = fresh(2, 2);
    maze.mark_visited(1, 0);
    let mut path = vec![(1usize, 0usize)];
    let next = *maze.cell_at(1, 1);
    maze.carve_step(&mut path, Some(next));
    assert_eq!(path, vec![(1, 0), (1, 1)]);
    assert_eq!(maze.cell_at(1, 0).walls, [true, true, false, true]);
    assert_eq!(maze.cell_at(1, 1).walls, [false, true, true, true]);
    assert!(maze.cell_at(1, 1).visited);
    assert!(!maze.cell_at(0, 0).visited);
    assert!(!maze.cell_at(0, 1).visited);
    assert_eq!(maze.cell_at(0, 0).walls, [true; 4]);
    assert_eq!(maze.cell_at(0, 1).walls, [true; 4]);
}

#[test]
fn carve_step_steps_back_when_nothing_is_chosen() {
    let mut maze = fresh(2, 1);
    maze.mark_visited(0, 0);
    let mut path = vec![(0usize, 0usize)];
    let next = *maze.cell_at(1, 0);
    maze.carve_step(&mut path, Some(next));
    let before = walls(&maze);
    maze.carve_step(&mut path, None);
    assert_eq!(path, vec![(0, 0)]);
    assert_eq!(walls(&maze), before);
    maze.carve_step(&mut path, None);
    assert!(path.is_empty());
    assert_eq!(walls(&maze), before);
    assert!(maze.grid.iter().all(|c| c.visited));
}

#[test]
fn carve_step_uses_the_live_cell_not_the_copy() {
    let mut maze = fresh(3, 1);
    maze.mark_visited(0, 0);
    let mut path = vec![(0usize, 0usize)];
    let second: Cell = *maze.cell_at(1, 0);
    let third: Cell = *maze.cell_at(2, 0);
    maze.carve_step(&mut path, Some(second));
    maze.carve_step(&mut path, Some(third));
    assert_eq!(path, vec![(0, 0), (1, 0), (2, 0)]);
    assert_eq!(maze.grid[1].walls, [true, false, true, false]);
    assert_eq!(removed_pairs(&maze), 2);
}

#[test]
fn generation_takes_a_maze_that_is_blank() {
    let mut maze = fresh(4, 4);
    assert!(maze.is_blank());
    maze.generate();
    assert!(!maze.is_blank());
    assert_perfect(&maze);
}

#[test]
fn seed_42_carves_this_three_by_three_maze() {
    let maze = carved(3, 3, 42);
    let expected = vec![
        [true, false, true, true],
        [true, true, false, false],
        [true, true, false, true],
        [true, true, false, true],
        [false, false, true, true],
        [false, true, false, false],
        [false, false, true, true],
        [true, false, true, false],
        [false, true, true, false],
    ];
    assert_eq!(walls(&maze), expected);
}

#[test]
fn seed_7_carves_this_four_by_two_maze() {
    let maze = carved(4, 2, 7);
    let expected = vec![
        [true, false, true, true],
        [true, false, true, false],
        [true, false, true, false],
        [true, true, false, false],
        [true, false, true, true],
        [true, false, true, false],
        [true, false, true, false],
        [false, true, true, false],
    ];
    assert_eq!(walls(&maze), expected);
}
