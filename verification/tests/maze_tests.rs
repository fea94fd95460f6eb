use maze_solver::coord::Coord;
use maze_solver::grid::{make_maze, CreateMaze, MazeCellKind};
use maze_solver::search::{collect_path, shortest_path};
use maze_solver::solve::{draw_maze, solve};
use maze_solver::MazeError;

fn desc(entrance: &str, grid_size: &str, walls: &[&str]) -> CreateMaze {
    let wall_strings: Vec<String> = walls.iter().map(|w| w.to_string()).collect();
    let d = CreateMaze::parse(entrance, grid_size, &wall_strings).unwrap();
    assert!(d.validate());
    d
}

/// An independent shortest-distance check: plain level-by-level flooding
/// from the entrance, counting moves to the nearest exit cell.
fn min_moves_to_exit(grid: &[MazeCellKind], width: usize, entrance: usize) -> Option<usize> {
    let n = grid.len();
    let height = n / width;
    let mut dist: Vec<Option<usize>> = vec![None; n];
    dist[entrance] = Some(0);
    let mut frontier = vec![entrance];
    let mut steps = 0usize;
    while !frontier.is_empty() {
        for &p in &frontier {
            if grid[p] == MazeCellKind::Exit {
                return Some(steps);
            }
        }
        let mut next = Vec::new();
        for &p in &frontier {
            let row = p / width;
            let col = p % width;
            let mut candidates = Vec::new();
            if col + 1 < width {
                candidates.push(p + 1);
            }
            if col >= 1 {
                candidates.push(p - 1);
            }
            if row + 1 < height {
                candidates.push(p + width);
            }
            if row >= 1 {
                candidates.push(p - width);
            }
            for q in candidates {
                if grid[q] != MazeCellKind::Wall && dist[q].is_none() {
                    dist[q] = Some(steps + 1);
                    next.push(q);
                }
            }
        }
        frontier = next;
        steps += 1;
    }
    None
}

#[test]
fn corners_are_exits_unless_entrance() {
    // 3x3, entrance at the north-west corner: that corner becomes the
    // entry, the other three corners stay exits.
    let d = desc("A1", "3x3", &[]);
    let grid = make_maze(&d);
    assert_eq!(grid[0], MazeCellKind::Entry);
    assert_eq!(grid[2], MazeCellKind::Exit);
    assert_eq!(grid[6], MazeCellKind::Exit);
    assert_eq!(grid[8], MazeCellKind::Exit);
    let exits = grid.iter().filter(|k| **k == MazeCellKind::Exit).count();
    assert_eq!(exits, 3);
}

#[test]
fn four_exits_when_entrance_off_corner() {
    let d = desc("B2", "3x3", &[]);
    let grid = make_maze(&d);
    let exits = grid.iter().filter(|k| **k == MazeCellKind::Exit).count();
    assert_eq!(exits, 4);
    assert_eq!(grid[4], MazeCellKind::Entry);
}

#[test]
fn corner_wall_is_overridden_by_exit() {
    // A wall declared on a corner is silently overwritten to an exit.
    let d = desc("B2", "3x3", &["A1"]);
    let grid = make_maze(&d);
    assert_eq!(grid[0], MazeCellKind::Exit);
}

#[test]
fn walls_and_duplicates_fill_cells() {
    let d = desc("A1", "3x3", &["B1", "B1", "B2"]);
    let grid = make_maze(&d);
    assert_eq!(grid[1], MazeCellKind::Wall);
    assert_eq!(grid[4], MazeCellKind::Wall);
    assert_eq!(grid[3], MazeCellKind::Empty);
}

#[test]
fn one_by_one_grid_is_all_entrance() {
    let d = desc("A1", "1x1", &[]);
    let grid = make_maze(&d);
    assert_eq!(grid, vec![MazeCellKind::Entry]);
    // The lone cell is no longer an exit, so there is nothing to reach.
    assert_eq!(solve(&d), Err(MazeError::NoPathFound));
}

#[test]
fn three_by_three_solution_goes_east() {
    // Entrance at the corner A1: three exits remain; the nearest are two
    // moves away, and the east-first neighbor order fixes the tie-break.
    let d = desc("A1", "3x3", &[]);
    assert_eq!(
        solve(&d),
        Ok(vec!["A1".to_string(), "B1".to_string(), "C1".to_string()])
    );
}

#[test]
fn walled_off_exits_give_no_path() {
    // A center entrance enclosed by four walls reaches no exit cell.
    let d = desc("B2", "3x3", &["B1", "A2", "C2", "B3"]);
    assert_eq!(solve(&d), Err(MazeError::NoPathFound));
}

#[test]
fn two_by_two_walls_on_corners_become_exits() {
    // In a 2x2 grid every cell is a corner, and corners take precedence
    // over walls: walls laid on B1 and A2 are overwritten to exits, so the
    // maze stays solvable with a one-move path.
    let d = desc("A1", "2x2", &["B1", "A2"]);
    assert_eq!(solve(&d), Ok(vec!["A1".to_string(), "B1".to_string()]));
}

#[test]
fn search_is_deterministic() {
    let d = desc("A1", "4x4", &["B2", "C1"]);
    let grid = make_maze(&d);
    let e = d.entrance.to_pos(d.grid_size.0);
    let r1 = shortest_path(&grid, e, d.grid_size.0, d.grid_size.1).unwrap();
    let r2 = shortest_path(&grid, e, d.grid_size.0, d.grid_size.1).unwrap();
    assert_eq!(r1.parents, r2.parents);
    assert_eq!(r1.leaf, r2.leaf);
}

#[test]
fn search_on_exit_entrance_returns_single_cell_path() {
    // A hand-built grid whose entrance cell is itself an exit: immediate
    // success with a one-cell path.
    let grid = vec![MazeCellKind::Exit];
    let path = shortest_path(&grid, 0, 1, 1).unwrap();
    assert_eq!(path.leaf, 0);
    assert_eq!(collect_path(&path), vec![0]);
}

#[test]
fn reconstructed_path_steps_are_adjacent() {
    let d = desc("B2", "4x3", &["B1"]);
    let grid = make_maze(&d);
    let width = d.grid_size.0;
    let e = d.entrance.to_pos(width);
    let path = shortest_path(&grid, e, width, d.grid_size.1).unwrap();
    let cells = collect_path(&path);
    assert_eq!(cells[0], e);
    assert_eq!(*cells.last().unwrap(), path.leaf);
    assert_eq!(grid[path.leaf], MazeCellKind::Exit);
    for pair in cells.windows(2) {
        let (a, b) = (pair[0], pair[1]);
        let (ar, ac) = (a / width, a % width);
        let (br, bc) = (b / width, b % width);
        let adjacent = (ar == br && (ac + 1 == bc || bc + 1 == ac))
            || (ac == bc && (ar + 1 == br || br + 1 == ar));
        assert!(adjacent);
        assert!(grid[b] != MazeCellKind::Wall);
    }
}

#[test]
fn path_length_is_minimal_on_small_grids() {
    // Exhaustive check against an independent flooding count: the
    // reconstructed path's edge count equals the minimum number of moves.
    let cases: &[(&str, &str, &[&str])] = &[
        ("A1", "3x3", &[]),
        ("B2", "3x3", &[]),
        ("B2", "3x3", &["B1", "A2"]),
        ("C2", "5x4", &["B1", "B2", "B3", "D2", "D3"]),
        ("B2", "4x4", &["A2", "B1", "C2", "B3"]),
        ("C3", "5x5", &["B2", "C2", "D2", "B3", "D3", "B4", "C4", "D4"]),
        ("A2", "2x3", &[]),
        ("D1", "4x2", &["C1", "C2"]),
    ];
    for (entrance, size, walls) in cases {
        let d = desc(entrance, size, walls);
        let grid = make_maze(&d);
        let width = d.grid_size.0;
        let e = d.entrance.to_pos(width);
        let expected = min_moves_to_exit(&grid, width, e);
        match shortest_path(&grid, e, width, d.grid_size.1) {
            Some(path) => {
                let cells = collect_path(&path);
                assert_eq!(Some(cells.len() - 1), expected, "case {size} {entrance}");
            }
            None => assert_eq!(expected, None, "case {size} {entrance}"),
        }
    }
}

#[test]
fn solve_renders_entrance_first_exit_last() {
    // From the center of a 3x3 grid the nearest corners are two moves away;
    // the fixed neighbor order makes the south-east corner the one found.
    let d = desc("B2", "3x3", &[]);
    let labels = solve(&d).unwrap();
    assert_eq!(
        labels,
        vec!["B2".to_string(), "C2".to_string(), "C3".to_string()]
    );
}

#[test]
fn parse_rejects_bad_entrance_labels() {
    let no_walls: Vec<String> = Vec::new();
    assert_eq!(
        CreateMaze::parse("a1", "3x3", &no_walls),
        Err(MazeError::MalformedCell)
    );
    assert_eq!(
        CreateMaze::parse("A0", "3x3", &no_walls),
        Err(MazeError::MalformedCell)
    );
}

#[test]
fn parse_rejects_bad_wall_labels() {
    let walls = vec!["B1".to_string(), "b2".to_string()];
    assert_eq!(
        CreateMaze::parse("A1", "3x3", &walls),
        Err(MazeError::MalformedCell)
    );
}

#[test]
fn parse_rejects_zero_dimension() {
    let no_walls: Vec<String> = Vec::new();
    assert_eq!(
        CreateMaze::parse("A1", "10x0", &no_walls),
        Err(MazeError::MalformedGridSize)
    );
    assert_eq!(
        CreateMaze::parse("A1", "0x10", &no_walls),
        Err(MazeError::MalformedGridSize)
    );
}

#[test]
fn parse_rejects_malformed_grid_sizes() {
    let no_walls: Vec<String> = Vec::new();
    for bad in ["", "10", "10x", "x10", "10x5x2", "10X5", "axb", "1 x 2"] {
        assert_eq!(
            CreateMaze::parse("A1", bad, &no_walls),
            Err(MazeError::MalformedGridSize),
            "grid size {bad:?}"
        );
    }
}

#[test]
fn parse_accepts_wire_description() {
    let walls = vec!["B1".to_string(), "C2".to_string()];
    let d = CreateMaze::parse("A1", "10x8", &walls).unwrap();
    assert_eq!(d.grid_size, (10, 8));
    assert_eq!(d.entrance, Coord { row: 0, col: 0 });
    assert_eq!(
        d.walls,
        vec![Coord { row: 0, col: 1 }, Coord { row: 1, col: 2 }]
    );
}

#[test]
fn validate_rejects_out_of_range_coordinates() {
    let no_walls: Vec<String> = Vec::new();
    let d = CreateMaze::parse("A9", "3x3", &no_walls).unwrap();
    assert!(!d.validate());
    let walls = vec!["D1".to_string()];
    let d = CreateMaze::parse("A1", "3x3", &walls).unwrap();
    assert!(!d.validate());
}

#[test]
fn validate_rejects_unlabelable_width() {
    let no_walls: Vec<String> = Vec::new();
    let d = CreateMaze::parse("A1", "27x3", &no_walls).unwrap();
    assert!(!d.validate());
    let d = CreateMaze::parse("A1", "26x3", &no_walls).unwrap();
    assert!(d.validate());
}

#[test]
fn draw_marks_path_and_cells() {
    let d = desc("A1", "3x3", &["B2"]);
    let grid = make_maze(&d);
    let path = vec![0usize, 1, 2];
    let text = draw_maze(&grid, &path, 3, 3);
    assert_eq!(text, "***\n.x.\no.o\n");
}
