use bevy_maze::{Cell, Maze, MazeConfig, MazeError};

fn blank(width: usize, height: usize) -> Maze {
    match Maze::new(width, height) {
        Ok(maze) => maze,
        Err(e) => panic!("{}x{} refused: {:?}", width, height, e),
    }
}

fn coords(cells: &[Cell]) -> Vec<(usize, usize)> {
    cells.iter().map(|c| (c.x, c.y)).collect()
}

#[test]
fn cell_new_has_all_walls_and_is_unvisited() {
    let cell = Cell::new(3, 7);
    assert_eq!(cell.x, 3);
    assert_eq!(cell.y, 7);
    assert_eq!(cell.walls, [true, true, true, true]);
    assert!(!cell.visited);
}

#[test]
fn new_lays_cells_out_row_by_row() {
    let maze = blank(3, 2);
    assert_eq!(maze.width, 3);
    assert_eq!(maze.height, 2);
    assert_eq!(maze.grid.len(), 6);
    let expected = [(0, 0), (1, 0), (2, 0), (0, 1), (1, 1), (2, 1)];
    for (i, cell) in maze.grid.iter().enumerate() {
        assert_eq!((cell.x, cell.y), expected[i]);
        assert_eq!(cell.walls, [true; 4]);
        assert!(!cell.visited);
    }
}

#[test]
fn new_rejects_zero_width() {
    assert!(matches!(Maze::new(0, 5), Err(MazeError::InvalidDimensions)));
}

#[test]
fn new_rejects_zero_height() {
    assert!(matches!(Maze::new(5, 0), Err(MazeError::InvalidDimensions)));
    assert!(matches!(Maze::new(0, 0), Err(MazeError::InvalidDimensions)));
}

#[test]
fn new_accepts_the_smallest_grid() {
    let maze = blank(1, 1);
    assert_eq!(maze.grid.len(), 1);
    assert_eq!((maze.grid[0].x, maze.grid[0].y), (0, 0));
}

#[test]
fn index_of_is_row_times_width_plus_column() {
    let maze = blank(5, 4);
    assert_eq!(maze.index_of(0, 0), 0);
    assert_eq!(maze.index_of(4, 0), 4);
    assert_eq!(maze.index_of(0, 1), 5);
    assert_eq!(maze.index_of(3, 2), 13);
    assert_eq!(maze.index_of(4, 3), 19);
}

#[test]
fn cell_at_finds_the_cell_with_those_coordinates() {
    let maze = blank(4, 3);
    for y in 0..3 {
        for x in 0..4 {
            let cell = maze.cell_at(x, y);
            assert_eq!((cell.x, cell.y), (x, y));
        }
    }
}

#[test]
fn cell_at_sees_changes() {
    let mut maze = blank(4, 3);
    maze.mark_visited(2, 1);
    assert!(maze.cell_at(2, 1).visited);
    assert!(!maze.cell_at(1, 2).visited);
}

#[test]
fn neighbors_of_an_inner_cell_come_top_right_bottom_left() {
    let maze = blank(3, 3);
    let found = maze.neighbors(1, 1);
    assert_eq!(coords(&found), vec![(1, 0), (2, 1), (1, 2), (0, 1)]);
}

#[test]
fn neighbors_stay_inside_the_grid() {
    let maze = blank(3, 3);
    assert_eq!(coords(&maze.neighbors(0, 0)), vec![(1, 0), (0, 1)]);
    assert_eq!(coords(&maze.neighbors(2, 0)), vec![(2, 1), (1, 0)]);
    assert_eq!(coords(&maze.neighbors(2, 2)), vec![(2, 1), (1, 2)]);
    assert_eq!(coords(&maze.neighbors(0, 2)), vec![(0, 1), (1, 2)]);
    assert_eq!(coords(&maze.neighbors(1, 0)), vec![(2, 0), (1, 1), (0, 0)]);
}

#[test]
fn neighbors_of_the_only_cell_are_none() {
    let maze = blank(1, 1);
    assert!(maze.neighbors(0, 0).is_empty());
    assert!(maze.get_unvisited_neighbors(0, 0).is_empty());
}

#[test]
fn neighbors_in_a_single_row_or_column() {
    let row = blank(3, 1);
    assert_eq!(coords(&row.neighbors(1, 0)), vec![(2, 0), (0, 0)]);
    let column = blank(1, 3);
    assert_eq!(coords(&column.neighbors(0, 1)), vec![(0, 0), (0, 2)]);
}

#[test]
fn unvisited_neighbors_of_a_blank_grid_are_all_neighbors() {
    let maze = blank(3, 3);
    assert_eq!(coords(&maze.get_unvisited_neighbors(1, 1)), vec![(1, 0), (2, 1), (1, 2), (0, 1)]);
    assert_eq!(coords(&maze.get_unvisited_neighbors(0, 0)), vec![(1, 0), (0, 1)]);
}

#[test]
fn unvisited_neighbors_leave_out_visited_cells() {
    let mut maze = blank(3, 3);
    maze.mark_visited(2, 1);
    maze.mark_visited(1, 0);
    assert_eq!(coords(&maze.get_unvisited_neighbors(1, 1)), vec![(1, 2), (0, 1)]);
    maze.mark_visited(1, 2);
    maze.mark_visited(0, 1);
    assert!(maze.get_unvisited_neighbors(1, 1).is_empty());
    assert_eq!(coords(&maze.neighbors(1, 1)), vec![(1, 0), (2, 1), (1, 2), (0, 1)]);
}

#[test]
fn unvisited_neighbors_do_not_depend_on_the_cell_itself() {
    let mut maze = blank(2, 2);
    maze.mark_visited(0, 0);
    assert_eq!(coords(&maze.get_unvisited_neighbors(0, 0)), vec![(1, 0), (0, 1)]);
}

#[test]
fn neighbor_cells_carry_their_walls() {
    let mut maze = blank(2, 1);
    let a = *maze.cell_at(0, 0);
    let b = *maze.cell_at(1, 0);
    maze.remove_wall_between(&a, &b);
    let found = maze.neighbors(0, 0);
    assert_eq!(found.len(), 1);
    assert_eq!(found[0].walls, [true, true, true, false]);
}

#[test]
fn queries_repeat_their_answer() {
    let mut maze = blank(4, 4);
    maze.mark_visited(1, 1);
    maze.mark_visited(2, 2);
    let first = coords(&maze.get_unvisited_neighbors(2, 1));
    let again = coords(&maze.get_unvisited_neighbors(2, 1));
    assert_eq!(first, again);
    assert_eq!(first, vec![(2, 0), (3, 1)]);
    assert_eq!(coords(&maze.neighbors(2, 1)), coords(&maze.neighbors(2, 1)));
    assert!(maze.cell_at(1, 1).visited);
    assert_eq!(maze.grid.iter().filter(|c| c.visited).count(), 2);
}

#[test]
fn remove_wall_to_the_right() {
    let mut maze = blank(3, 3);
    let a = *maze.cell_at(1, 1);
    let b = *maze.cell_at(2, 1);
    maze.remove_wall_between(&a, &b);
    assert_eq!(maze.cell_at(1, 1).walls, [true, false, true, true]);
    assert_eq!(maze.cell_at(2, 1).walls, [true, true, true, false]);
}

#[test]
fn remove_wall_to_the_left() {
    let mut maze = blank(3, 3);
    let a = *maze.cell_at(1, 1);
    let b = *maze.cell_at(0, 1);
    maze.remove_wall_between(&a, &b);
    assert_eq!(maze.cell_at(1, 1).walls, [true, true, true, false]);
    assert_eq!(maze.cell_at(0, 1).walls, [true, false, true, true]);
}

#[test]
fn remove_wall_below() {
    let mut maze = blank(3, 3);
    let a = *maze.cell_at(1, 1);
    let b = *maze.cell_at(1, 2);
    maze.remove_wall_between(&a, &b);
    assert_eq!(maze.cell_at(1, 1).walls, [true, true, false, true]);
    assert_eq!(maze.cell_at(1, 2).walls, [false, true, true, true]);
}

#[test]
fn remove_wall_above() {
    let mut maze = blank(3, 3);
    let a = *maze.cell_at(1, 1);
    let b = *maze.cell_at(1, 0);
    maze.remove_wall_between(&a, &b);
    assert_eq!(maze.cell_at(1, 1).walls, [false, true, true, true]);
    assert_eq!(maze.cell_at(1, 0).walls, [true, true, false, true]);
}

#[test]
fn remove_wall_touches_no_other_cell() {
    let mut maze = blank(3, 3);
    let a = *maze.cell_at(1, 1);
    let b = *maze.cell_at(2, 1);
    maze.remove_wall_between(&a, &b);
    for cell in maze.grid.iter() {
        if (cell.x, cell.y) != (1, 1) && (cell.x, cell.y) != (2, 1) {
            assert_eq!(cell.walls, [true; 4]);
        }
        assert!(!cell.visited);
    }
}

#[test]
fn remove_wall_goes_by_coordinates_not_by_stale_flags() {
    let mut maze = blank(3, 1);
    let a = *maze.cell_at(0, 0);
    let b = *maze.cell_at(1, 0);
    let c = *maze.cell_at(2, 0);
    maze.remove_wall_between(&a, &b);
    maze.remove_wall_between(&b, &c);
    assert_eq!(maze.cell_at(0, 0).walls, [true, false, true, true]);
    assert_eq!(maze.cell_at(1, 0).walls, [true, false, true, false]);
    assert_eq!(maze.cell_at(2, 0).walls, [true, true, true, false]);
}

#[test]
fn mark_visited_changes_one_flag() {
    let mut maze = blank(2, 2);
    maze.mark_visited(1, 0);
    let visited: Vec<bool> = maze.grid.iter().map(|c| c.visited).collect();
    assert_eq!(visited, vec![false, true, false, false]);
    for cell in maze.grid.iter() {
        assert_eq!(cell.walls, [true; 4]);
    }
}

#[test]
fn is_blank_holds_of_a_new_maze() {
    assert!(blank(1, 1).is_blank());
    assert!(blank(7, 3).is_blank());
}

#[test]
fn is_blank_fails_after_any_change() {
    let mut visited = blank(3, 3);
    visited.mark_visited(2, 2);
    assert!(!visited.is_blank());

    let mut opened = blank(3, 3);
    let a = *opened.cell_at(0, 0);
    let b = *opened.cell_at(0, 1);
    opened.remove_wall_between(&a, &b);
    assert!(!opened.is_blank());

    let mut moved = blank(3, 3);
    moved.grid[4].x = 0;
    assert!(!moved.is_blank());

    let mut short = blank(3, 3);
    short.grid.pop();
    assert!(!short.is_blank());

    let mut reshaped = blank(2, 3);
    reshaped.width = 3;
    reshaped.height = 2;
    assert!(!reshaped.is_blank());
}

#[test]
fn is_blank_fails_on_an_empty_maze() {
    let empty = Maze { width: 0, height: 0, grid: Vec::new() };
    assert!(!empty.is_blank());
    let flat = Maze { width: 4, height: 0, grid: Vec::new() };
    assert!(!flat.is_blank());
}

#[test]
fn config_new_keeps_the_size() {
    let config = MazeConfig::new(10, 6);
    assert_eq!(config.width, 10);
    assert_eq!(config.height, 6);
}

#[test]
fn config_default_is_empty() {
    let config = MazeConfig::default();
    assert_eq!(config.width, 0);
    assert_eq!(config.height, 0);
    assert!(matches!(Maze::new(config.width, config.height), Err(MazeError::InvalidDimensions)));
}

#[test]
fn error_compares_and_prints() {
    let e = MazeError::InvalidDimensions;
    assert_eq!(e, MazeError::InvalidDimensions);
    assert_eq!(format!("{:?}", e), "InvalidDimensions");
}
