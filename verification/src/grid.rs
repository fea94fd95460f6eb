//! Grid builder: materializes a dense grid of cell kinds from a maze
//! description (dimensions, walls, entrance), marking the four grid corners
//! as exits.

use crate::coord::{pos_of, Coord};
use vstd::prelude::*;

verus! {

/// The classification of a grid cell.
#[derive(Clone, Copy, Debug, PartialEq, Eq, Structural)]
pub enum MazeCellKind {
    /// An impassable cell.
    Wall,
    /// A passable cell, the default.
    Empty,
    /// The unique start cell.
    Entry,
    /// A goal cell; the four grid corners, unless covered by the entrance.
    Exit,
}

/// A maze description: the persisted record from which a grid is rebuilt on
/// demand. `grid_size` is (width, height).
#[derive(Debug, PartialEq)]
pub struct CreateMaze {
    pub entrance: Coord,
    pub grid_size: (usize, usize),
    pub walls: Vec<Coord>,
}

/// A maze description that fits its grid: positive dimensions whose cell
/// count fits the machine, and entrance and walls inside the grid.
pub open spec fn wf_desc(d: CreateMaze) -> bool {
    let w = d.grid_size.0;
    let h = d.grid_size.1;
    &&& w >= 1
    &&& h >= 1
    &&& w * h <= usize::MAX
    &&& d.entrance.row < h
    &&& d.entrance.col < w
    &&& forall|j: int|
        0 <= j < d.walls@.len() ==> (#[trigger] d.walls@[j]).row < h && d.walls@[j].col < w
}

/// Whether flat position `p` is one of the four grid corners.
pub open spec fn is_corner(p: int, w: int, h: int) -> bool {
    p == 0 || p == w - 1 || p == (h - 1) * w || p == (h - 1) * w + (w - 1)
}

/// Whether some listed wall covers flat position `p`.
pub open spec fn is_wall_pos(walls: Seq<Coord>, w: usize, p: int) -> bool {
    exists|j: int| 0 <= j < walls.len() && pos_of(walls[j], w) == p
}

/// The kind of the cell at flat position `p` of the built grid. The entrance
/// overrides the corner exits, which override the listed walls.
pub open spec fn built_cell(d: CreateMaze, p: int) -> MazeCellKind {
    let w = d.grid_size.0;
    let h = d.grid_size.1;
    if p == pos_of(d.entrance, w) {
        MazeCellKind::Entry
    } else if is_corner(p, w as int, h as int) {
        MazeCellKind::Exit
    } else if is_wall_pos(d.walls@, w, p) {
        MazeCellKind::Wall
    } else {
        MazeCellKind::Empty
    }
}

/// A coordinate inside a `w x h` grid has a flat index inside `[0, w * h)`.
pub proof fn lemma_pos_in_grid(c: Coord, w: usize, h: usize)
    requires
        c.row < h,
        c.col < w,
    ensures
        0 <= pos_of(c, w) < w * h,
{
    assert(c.row * w + c.col < w * h) by (nonlinear_arith)
        requires
            c.row < h,
            c.col < w,
    {}
}

/// Build the dense cell grid of a maze description: all cells empty, then
/// the listed walls, then the four corners as exits, then the entrance —
/// later assignments overriding earlier ones.
#[verifier::loop_isolation(false)]
pub fn make_maze(create_maze: &CreateMaze) -> (maze: Vec<MazeCellKind>)
    requires
        wf_desc(*create_maze),
    ensures
        maze@.len() == create_maze.grid_size.0 * create_maze.grid_size.1,
        forall|p: int| 0 <= p < maze@.len() ==> maze@[p] == built_cell(*create_maze, p),
{
    let width = create_maze.grid_size.0;
    let height = create_maze.grid_size.1;
    let n = width * height;
    let mut maze: Vec<MazeCellKind> = Vec::new();
    let mut i: usize = 0;
    while i < n
        invariant
            i <= n,
            maze@.len() == i,
            forall|p: int| 0 <= p < i ==> maze@[p] == MazeCellKind::Empty,
        decreases n - i,
    {
        maze.push(MazeCellKind::Empty);
        i += 1;
    }

    let mut j: usize = 0;
    while j < create_maze.walls.len()
        invariant
            j <= create_maze.walls@.len(),
            maze@.len() == n,
            forall|p: int|
                0 <= p < n ==> maze@[p] == (if is_wall_pos(create_maze.walls@.take(j as int), width, p) {
                    MazeCellKind::Wall
                } else {
                    MazeCellKind::Empty
                }),
        decreases create_maze.walls@.len() - j,
    {
        let cell = &create_maze.walls[j];
        proof {
            lemma_pos_in_grid(*cell, width, height);
        }
        let pos = cell.to_pos(width);
        maze[pos] = MazeCellKind::Wall;
        proof {
            let walls = create_maze.walls@;
            assert forall|p: int|
                0 <= p < n implies maze@[p] == (if is_wall_pos(walls.take(j + 1), width, p) {
                MazeCellKind::Wall
            } else {
                MazeCellKind::Empty
            }) by {
                if p == pos_of(walls[j as int], width) {
                    assert(walls.take(j + 1)[j as int] == walls[j as int]);
                    assert(is_wall_pos(walls.take(j + 1), width, p));
                } else {
                    if is_wall_pos(walls.take(j + 1), width, p) {
                        let k = choose|k: int|
                            0 <= k < walls.take(j + 1).len() && pos_of(
                                #[trigger] walls.take(j + 1)[k],
                                width,
                            ) == p;
                        assert(walls.take(j as int)[k] == walls.take(j + 1)[k]);
                        assert(is_wall_pos(walls.take(j as int), width, p));
                    }
                    if is_wall_pos(walls.take(j as int), width, p) {
                        let k = choose|k: int|
                            0 <= k < walls.take(j as int).len() && pos_of(
                                #[trigger] walls.take(j as int)[k],
                                width,
                            ) == p;
                        assert(walls.take(j + 1)[k] == walls.take(j as int)[k]);
                        assert(is_wall_pos(walls.take(j + 1), width, p));
                    }
                }
            }
        }
        j += 1;
    }
    proof {
        assert(create_maze.walls@.take(create_maze.walls@.len() as int) =~= create_maze.walls@);
    }

    proof {
        assert((height - 1) * width + (width - 1) == n - 1) by (nonlinear_arith)
            requires
                n == width * height,
                width >= 1,
                height >= 1,
        {}
    }
    let corner_a: usize = 0;
    let corner_b: usize = width - 1;
    let corner_c: usize = (height - 1) * width;
    let corner_d: usize = corner_c + (width - 1);
    maze[corner_a] = MazeCellKind::Exit;
    maze[corner_b] = MazeCellKind::Exit;
    maze[corner_c] = MazeCellKind::Exit;
    maze[corner_d] = MazeCellKind::Exit;

    proof {
        lemma_pos_in_grid(create_maze.entrance, width, height);
    }
    let entrance_pos = create_maze.entrance.to_pos(width);
    maze[entrance_pos] = MazeCellKind::Entry;

    maze
}

/// The set of flat positions of the built grid holding an exit cell.
pub open spec fn exit_positions(d: CreateMaze) -> Set<int> {
    Set::new(
        |p: int|
            0 <= p < d.grid_size.0 * d.grid_size.1 && built_cell(d, p) == MazeCellKind::Exit,
    )
}

/// Law: in a built grid, a corner cell not covered by the entrance is an
/// exit, whatever walls were listed on it.
pub proof fn lemma_corners_are_exits(d: CreateMaze, p: int)
    requires
        wf_desc(d),
        is_corner(p, d.grid_size.0 as int, d.grid_size.1 as int),
        p != pos_of(d.entrance, d.grid_size.0),
    ensures
        built_cell(d, p) == MazeCellKind::Exit,
{
}

/// Law: a grid at least 2 wide and 2 high whose entrance is not on a corner
/// has exactly four exit cells; with the entrance on a corner it has exactly
/// three.
pub proof fn lemma_exit_count(d: CreateMaze)
    requires
        wf_desc(d),
        d.grid_size.0 >= 2,
        d.grid_size.1 >= 2,
    ensures
        !is_corner(
            pos_of(d.entrance, d.grid_size.0),
            d.grid_size.0 as int,
            d.grid_size.1 as int,
        ) ==> exit_positions(d).len() == 4,
        is_corner(
            pos_of(d.entrance, d.grid_size.0),
            d.grid_size.0 as int,
            d.grid_size.1 as int,
        ) ==> exit_positions(d).len() == 3,
{
    broadcast use vstd::set::group_set_axioms;

    let w = d.grid_size.0 as int;
    let h = d.grid_size.1 as int;
    let ca = 0int;
    let cb = w - 1;
    let cc = (h - 1) * w;
    let cd = (h - 1) * w + (w - 1);
    let e = pos_of(d.entrance, d.grid_size.0);
    assert(w <= cc && cd == w * h - 1) by (nonlinear_arith)
        requires
            w >= 2,
            h >= 2,
            cc == (h - 1) * w,
            cd == (h - 1) * w + (w - 1),
    {}
    assert(0 < cb && cb < cc && cc < cd && cd < w * h);
    lemma_pos_in_grid(d.entrance, d.grid_size.0, d.grid_size.1);
    if !is_corner(e, w, h) {
        assert(exit_positions(d) =~= Set::empty().insert(ca).insert(cb).insert(cc).insert(cd));
        assert(exit_positions(d).len() == 4);
    } else {
        let s4 = Set::empty().insert(ca).insert(cb).insert(cc).insert(cd);
        assert(s4.len() == 4);
        assert(exit_positions(d) =~= s4.remove(e));
        assert(s4.contains(e));
        assert(exit_positions(d).len() == 3);
    }
}

} // verus!
