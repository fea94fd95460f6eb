//! The solve pipeline: parse a maze description from its wire fields, build
//! the grid, search for the nearest exit, and render the path as cell
//! labels.

use crate::coord::{
    coord_of, dec_val, is_digit, label_of, parse_spec, pos_of, Coord,
};
use crate::grid::{built_cell, make_maze, wf_desc, CreateMaze, MazeCellKind};
use crate::search::{
    bfs_spec, collect_path, is_walk, lemma_collected_path_is_walk, lemma_search_path_minimal,
    reachable, shortest_path,
};
use crate::MazeError;
use vstd::prelude::*;

verus! {

/// A well-placed grid-size separator: the character at `k` is the sole `x`,
/// with a non-empty digit run on each side.
pub open spec fn wf_grid_size_at(s: Seq<char>, k: int) -> bool {
    &&& 1 <= k < s.len() - 1
    &&& s[k] == 'x'
    &&& forall|i: int| 0 <= i < k ==> is_digit(#[trigger] s[i])
    &&& forall|i: int| k < i < s.len() ==> is_digit(#[trigger] s[i])
}

/// What parsing a "WxH" grid size yields: the two dimensions, or `None`
/// where the text is not two positive machine-range integers joined by one
/// `x`.
pub open spec fn parse_grid_size_spec(s: Seq<char>) -> Option<(usize, usize)> {
    if exists|k: int| wf_grid_size_at(s, k) {
        let k = choose|k: int| wf_grid_size_at(s, k);
        let w = dec_val(s.subrange(0, k));
        let h = dec_val(s.subrange(k + 1, s.len() as int));
        if 1 <= w <= usize::MAX && 1 <= h <= usize::MAX {
            Some((w as usize, h as usize))
        } else {
            None
        }
    } else {
        None
    }
}

/// The digit-run value over a longer prefix is at least the value over a
/// shorter one.
proof fn lemma_dec_val_run_grows(s: Seq<char>, from: int, i: int, j: int)
    requires
        0 <= from <= i <= j <= s.len(),
    ensures
        dec_val(s.subrange(from, i)) <= dec_val(s.subrange(from, j)),
    decreases j - i,
{
    if i < j {
        lemma_dec_val_run_grows(s, from, i, j - 1);
        assert(s.subrange(from, j).drop_last() =~= s.subrange(from, j - 1));
        assert(dec_val(s.subrange(from, j)) == dec_val(s.subrange(from, j - 1)) * 10 + (
        s.subrange(from, j).last() as nat - 48) as nat);
    }
}

/// Parse the characters of `s` in `[from, to)` as a decimal number: `Some`
/// exactly where the run is non-empty, all digits, and in machine range.
#[verifier::loop_isolation(false)]
fn parse_decimal_run(s: &str, from: usize, to: usize) -> (r: Option<usize>)
    requires
        from <= to <= s@.len(),
    ensures
        match r {
            Some(v) => {
                &&& from < to
                &&& forall|i: int| from <= i < to ==> is_digit(#[trigger] s@[i])
                &&& v == dec_val(s@.subrange(from as int, to as int))
            },
            None => !{
                &&& from < to
                &&& forall|i: int| from <= i < to ==> is_digit(#[trigger] s@[i])
                &&& dec_val(s@.subrange(from as int, to as int)) <= usize::MAX
            },
        },
{
    if from >= to {
        return None;
    }
    let mut v: usize = 0;
    let mut i: usize = from;
    while i < to
        invariant
            from <= i <= to,
            forall|j: int| from <= j < i ==> is_digit(#[trigger] s@[j]),
            v == dec_val(s@.subrange(from as int, i as int)),
        decreases to - i,
    {
        let ch = s.get_char(i);
        let code = ch as u32;
        if !(48 <= code && code <= 57) {
            return None;
        }
        let d = (code - 48) as usize;
        proof {
            assert(s@.subrange(from as int, i + 1).drop_last() =~= s@.subrange(
                from as int,
                i as int,
            ));
            assert(s@.subrange(from as int, i + 1).last() == s@[i as int]);
        }
        if v > (usize::MAX - d) / 10 {
            proof {
                lemma_dec_val_run_grows(s@, from as int, i + 1, to as int);
            }
            return None;
        }
        v = v * 10 + d;
        i += 1;
    }
    Some(v)
}

impl CreateMaze {
    /// Parse a maze description from its wire fields: a `"WxH"` grid size of
    /// two positive integers joined by one `x`, an entrance cell label, and
    /// a list of wall cell labels.
    #[verifier::loop_isolation(false)]
    pub fn parse(entrance: &str, grid_size: &str, walls: &Vec<String>) -> (r: Result<
        CreateMaze,
        MazeError,
    >)
        ensures
            match r {
                Ok(d) => {
                    &&& parse_grid_size_spec(grid_size@) == Some(d.grid_size)
                    &&& parse_spec(entrance@) == Some(d.entrance)
                    &&& d.walls@.len() == walls@.len()
                    &&& forall|j: int|
                        0 <= j < walls@.len() ==> parse_spec(walls@[j]@) == Some(
                            #[trigger] d.walls@[j],
                        )
                },
                Err(e) => {
                    ||| (parse_grid_size_spec(grid_size@) is None && e
                        == MazeError::MalformedGridSize)
                    ||| (parse_grid_size_spec(grid_size@) is Some && e == MazeError::MalformedCell
                        && (parse_spec(entrance@) is None || exists|j: int|
                        0 <= j < walls@.len() && parse_spec(#[trigger] walls@[j]@) is None))
                },
            },
    {
        let len = grid_size.unicode_len();
        let mut sep: usize = 0;
        let mut found = false;
        let mut i: usize = 0;
        while i < len
            invariant
                i <= len,
                len == grid_size@.len(),
                found ==> sep < i && grid_size@[sep as int] == 'x',
                found ==> forall|j: int|
                    0 <= j < i && j != sep ==> grid_size@[j] != 'x',
                !found ==> forall|j: int| 0 <= j < i ==> grid_size@[j] != 'x',
            decreases len - i,
        {
            let ch = grid_size.get_char(i);
            if ch == 'x' {
                if found {
                    proof {
                        lemma_no_two_seps(grid_size@, sep as int, i as int);
                    }
                    return Err(MazeError::MalformedGridSize);
                }
                sep = i;
                found = true;
            }
            i += 1;
        }
        if !found {
            proof {
                assert forall|k: int| !wf_grid_size_at(grid_size@, k) by {
                    if 0 <= k < len {
                        assert(grid_size@[k] != 'x');
                    }
                }
            }
            return Err(MazeError::MalformedGridSize);
        }

        let w = parse_decimal_run(grid_size, 0, sep);
        let h = parse_decimal_run(grid_size, sep + 1, len);
        let (w, h) = match (w, h) {
            (Some(w), Some(h)) => (w, h),
            _ => {
                proof {
                    lemma_grid_size_sep_unique(grid_size@, sep as int);
                }
                return Err(MazeError::MalformedGridSize);
            },
        };
        if w == 0 || h == 0 {
            proof {
                lemma_grid_size_sep_unique(grid_size@, sep as int);
            }
            return Err(MazeError::MalformedGridSize);
        }
        proof {
            lemma_grid_size_sep_unique(grid_size@, sep as int);
            assert(wf_grid_size_at(grid_size@, sep as int));
        }

        let entrance_coord = match Coord::parse(entrance) {
            Ok(c) => c,
            Err(_) => {
                return Err(MazeError::MalformedCell);
            },
        };

        let mut wall_coords: Vec<Coord> = Vec::new();
        let mut j: usize = 0;
        while j < walls.len()
            invariant
                j <= walls@.len(),
                wall_coords@.len() == j,
                forall|k: int|
                    0 <= k < j ==> parse_spec(walls@[k]@) == Some(#[trigger] wall_coords@[k]),
            decreases walls@.len() - j,
        {
            let c = match Coord::parse(walls[j].as_str()) {
                Ok(c) => c,
                Err(_) => {
                    return Err(MazeError::MalformedCell);
                },
            };
            wall_coords.push(c);
            j += 1;
        }

        Ok(CreateMaze { entrance: entrance_coord, grid_size: (w, h), walls: wall_coords })
    }
}

/// The flat entrance position of a description.
pub open spec fn entrance_pos_of(d: CreateMaze) -> usize {
    pos_of(d.entrance, d.grid_size.0) as usize
}

/// The dense grid a description builds.
pub open spec fn built_grid(d: CreateMaze) -> Seq<MazeCellKind> {
    Seq::new((d.grid_size.0 * d.grid_size.1) as nat, |p: int| built_cell(d, p))
}

/// A description the solver accepts: well formed, with columns the label
/// codec can name (at most 26).
pub open spec fn solvable_desc(d: CreateMaze) -> bool {
    wf_desc(d) && d.grid_size.0 <= 26
}

/// A cell sequence that is the solution the search finds on a grid: the
/// breadth-first parent chain from the entrance to the discovered exit, a
/// walk of the grid ending at an exit-kind cell.
pub open spec fn is_solution_path(
    grid: Seq<MazeCellKind>,
    w: usize,
    h: usize,
    e: usize,
    cells: Seq<usize>,
) -> bool {
    match bfs_spec(grid, w, h, e) {
        Some(res) => {
            let parents = res.0;
            let leaf = res.1;
            &&& cells.len() >= 1
            &&& cells[0] == e
            &&& cells.last() == leaf
            &&& parents[cells[0] as int] is None
            &&& forall|i: int|
                0 <= i < cells.len() - 1 ==> parents[(#[trigger] cells[i + 1]) as int] == Some(
                    cells[i],
                )
            &&& is_walk(grid, w, h, cells, e, leaf)
            &&& leaf < grid.len()
            &&& grid[leaf as int] == MazeCellKind::Exit
        },
        None => false,
    }
}

impl CreateMaze {
    /// Whether this description fits its grid and the label codec: positive
    /// dimensions, at most 26 columns, a cell count in machine range, and
    /// entrance and walls inside the grid.
    #[verifier::loop_isolation(false)]
    pub fn validate(&self) -> (b: bool)
        ensures
            b == solvable_desc(*self),
    {
        let w = self.grid_size.0;
        let h = self.grid_size.1;
        if w == 0 || h == 0 || w > 26 {
            return false;
        }
        if h > usize::MAX / w {
            proof {
                lemma_area_overflow(w, h);
            }
            return false;
        }
        proof {
            lemma_area_fits(w, h);
        }
        if self.entrance.row >= h || self.entrance.col >= w {
            return false;
        }
        let mut j: usize = 0;
        while j < self.walls.len()
            invariant
                j <= self.walls@.len(),
                forall|k: int|
                    0 <= k < j ==> (#[trigger] self.walls@[k]).row < h && self.walls@[k].col < w,
            decreases self.walls@.len() - j,
        {
            let wall = &self.walls[j];
            if wall.row >= h || wall.col >= w {
                return false;
            }
            j += 1;
        }
        true
    }
}

/// A height beyond `usize::MAX / w` makes the cell count overflow.
proof fn lemma_area_overflow(w: usize, h: usize)
    requires
        w >= 1,
        h > usize::MAX as int / w as int,
    ensures
        w * h > usize::MAX,
{
    let q = usize::MAX as int / w as int;
    vstd::arithmetic::div_mod::lemma_fundamental_div_mod(usize::MAX as int, w as int);
    assert(w * h > usize::MAX) by (nonlinear_arith)
        requires
            usize::MAX as int == w * q + usize::MAX as int % w as int,
            0 <= (usize::MAX as int % w as int) && (usize::MAX as int % w as int) < w,
            h > q,
            w >= 1,
    {}
}

/// A height within `usize::MAX / w` keeps the cell count in machine range.
proof fn lemma_area_fits(w: usize, h: usize)
    requires
        w >= 1,
        h <= usize::MAX as int / w as int,
    ensures
        w * h <= usize::MAX,
{
    let q = usize::MAX as int / w as int;
    vstd::arithmetic::div_mod::lemma_fundamental_div_mod(usize::MAX as int, w as int);
    assert(w * h <= usize::MAX) by (nonlinear_arith)
        requires
            usize::MAX as int == w * q + usize::MAX as int % w as int,
            0 <= (usize::MAX as int % w as int) && (usize::MAX as int % w as int) < w,
            h <= q,
            w >= 1,
    {}
}

/// Solve a maze description: build its grid, run the breadth-first search
/// from the entrance, and render the path found as cell labels, entrance
/// first, exit last. `NoPathFound` exactly when no exit-kind cell is
/// reachable from the entrance through non-wall cells.
#[verifier::loop_isolation(false)]
#[verifier::rlimit(60)]
pub fn solve(desc: &CreateMaze) -> (r: Result<Vec<String>, MazeError>)
    requires
        solvable_desc(*desc),
    ensures
        ({
            let grid = built_grid(*desc);
            let w = desc.grid_size.0;
            let h = desc.grid_size.1;
            let e = entrance_pos_of(*desc);
            match r {
                Ok(labels) => exists|cells: Seq<usize>|
                    {
                        &&& #[trigger] is_solution_path(grid, w, h, e, cells)
                        &&& labels@.len() == cells.len()
                        &&& forall|i: int|
                            0 <= i < cells.len() ==> (#[trigger] labels@[i])@ == label_of(
                                coord_of(cells[i], w),
                            )
                    },
                Err(err) => {
                    &&& err == MazeError::NoPathFound
                    &&& bfs_spec(grid, w, h, e) is None
                },
            }
        }),
        r is Ok <==> exists|x: usize|
            x < built_grid(*desc).len() && built_grid(*desc)[x as int] == MazeCellKind::Exit
                && reachable(
                built_grid(*desc),
                desc.grid_size.0,
                desc.grid_size.1,
                entrance_pos_of(*desc),
                x,
            ),
        ({
            let grid = built_grid(*desc);
            let w = desc.grid_size.0;
            let h = desc.grid_size.1;
            let e = entrance_pos_of(*desc);
            match (r, bfs_spec(grid, w, h, e)) {
                (Ok(labels), Some(res)) => forall|s: Seq<usize>|
                    is_walk(grid, w, h, s, e, res.1) ==> s.len() >= labels@.len(),
                _ => true,
            }
        }),
{
    let width = desc.grid_size.0;
    let height = desc.grid_size.1;
    let maze = make_maze(desc);
    proof {
        assert(maze@ =~= built_grid(*desc));
        crate::grid::lemma_pos_in_grid(desc.entrance, width, height);
    }
    let entrance_pos = desc.entrance.to_pos(width);

    let path = match shortest_path(&maze, entrance_pos, width, height) {
        None => {
            return Err(MazeError::NoPathFound);
        },
        Some(path) => path,
    };

    let cells = collect_path(&path);
    proof {
        lemma_collected_path_is_walk(
            maze@,
            width,
            height,
            path,
            entrance_pos,
            cells@,
        );
    }

    let mut labels: Vec<String> = Vec::new();
    let mut i: usize = 0;
    while i < cells.len()
        invariant
            i <= cells@.len(),
            labels@.len() == i,
            forall|j: int|
                0 <= j < i ==> (#[trigger] labels@[j])@ == label_of(coord_of(cells@[j], width)),
        decreases cells@.len() - i,
    {
        let cell = cells[i];
        proof {
            crate::coord::lemma_pos_round_trip(cell, width, height);
        }
        let coord = Coord::from_pos(cell, width);
        labels.push(coord.format());
        i += 1;
    }
    proof {
        assert(is_solution_path(
            built_grid(*desc),
            width,
            height,
            entrance_pos_of(*desc),
            cells@,
        ));
        assert forall|s: Seq<usize>|
            is_walk(
                built_grid(*desc),
                width,
                height,
                s,
                entrance_pos_of(*desc),
                path.leaf,
            ) implies s.len() >= labels@.len() by {
            lemma_search_path_minimal(
                built_grid(*desc),
                width,
                height,
                entrance_pos_of(*desc),
                path.parents@,
                path.leaf,
                cells@,
                s,
            );
        }
    }
    Ok(labels)
}

/// The character a rendering shows for flat position `pos`: a star on the
/// path, else the cell kind's mark.
pub open spec fn draw_char(grid: Seq<MazeCellKind>, path: Seq<usize>, pos: int) -> char {
    if exists|i: int| 0 <= i < path.len() && path[i] == pos {
        '*'
    } else {
        match grid[pos] {
            MazeCellKind::Wall => 'x',
            MazeCellKind::Empty => '.',
            MazeCellKind::Exit => 'o',
            MazeCellKind::Entry => 'e',
        }
    }
}

/// Whether the path holds the given flat position.
fn path_contains(path: &Vec<usize>, pos: usize) -> (b: bool)
    ensures
        b == exists|i: int| 0 <= i < path@.len() && path@[i] == pos,
{
    let mut i: usize = 0;
    while i < path.len()
        invariant
            i <= path@.len(),
            forall|j: int| 0 <= j < i ==> path@[j] != pos,
        decreases path@.len() - i,
    {
        if path[i] == pos {
            return true;
        }
        i += 1;
    }
    false
}

/// Render the maze as text, one grid row per line ending in a newline, the
/// given path drawn with stars over the cell marks.
#[verifier::loop_isolation(false)]
#[verifier::rlimit(60)]
pub fn draw_maze(maze: &Vec<MazeCellKind>, path: &Vec<usize>, width: usize, height: usize) -> (r:
    String)
    requires
        maze@.len() == width * height,
        width >= 1,
        height >= 1,
        (width + 1) * height <= usize::MAX,
    ensures
        r@.len() == (width + 1) * height,
        forall|y: int, x: int|
            0 <= y < height && 0 <= x < width ==> #[trigger] r@[y * (width + 1) + x] == draw_char(
                maze@,
                path@,
                y * width + x,
            ),
        forall|y: int| 0 <= y < height ==> #[trigger] r@[y * (width + 1) + width] == '\n',
{
    let mut bytes: Vec<u8> = Vec::new();
    let mut y: usize = 0;
    proof {
        lemma_row_bounds(width, height, 0, 0);
    }
    while y < height
        invariant
            y <= height,
            bytes@.len() == y * (width + 1),
            forall|j: int| 0 <= j < bytes@.len() ==> (#[trigger] bytes@[j]) < 128,
            forall|yy: int, x: int|
                0 <= yy < y && 0 <= x < width ==> #[trigger] bytes@[yy * (width + 1) + x] as char
                    == draw_char(maze@, path@, yy * width + x),
            forall|yy: int| 0 <= yy < y ==> #[trigger] bytes@[yy * (width + 1) + width] as char == '\n',
        decreases height - y,
    {
        let mut x: usize = 0;
        proof {
            lemma_row_bounds(width, height, y as int, 0);
        }
        while x < width
            invariant
                x <= width,
                y < height,
                bytes@.len() == y * (width + 1) + x,
                forall|j: int| 0 <= j < bytes@.len() ==> (#[trigger] bytes@[j]) < 128,
                forall|yy: int, xx: int|
                    0 <= yy < y && 0 <= xx < width ==> #[trigger] bytes@[yy * (width + 1) + xx] as char
                        == draw_char(maze@, path@, yy * width + xx),
                forall|yy: int| 0 <= yy < y ==> #[trigger] bytes@[yy * (width + 1) + width] as char == '\n',
                forall|xx: int|
                    0 <= xx < x ==> #[trigger] bytes@[y * (width + 1) + xx] as char == draw_char(
                        maze@,
                        path@,
                        y * width + xx,
                    ),
            decreases width - x,
        {
            proof {
                lemma_row_bounds(width, height, y as int, x as int);
            }
            let pos = y * width + x;
            let b: u8 = if path_contains(path, pos) {
                42
            } else {
                match maze[pos] {
                    MazeCellKind::Wall => 120,
                    MazeCellKind::Empty => 46,
                    MazeCellKind::Exit => 111,
                    MazeCellKind::Entry => 101,
                }
            };
            let ghost pre_cell = bytes@;
            bytes.push(b);
            proof {
                assert(bytes@[y * (width + 1) + x] == b);
                assert(bytes@[y * (width + 1) + x] as char == draw_char(
                    maze@,
                    path@,
                    y * width + x,
                ));
                assert forall|yy: int, xx: int|
                    0 <= yy < y && 0 <= xx < width implies #[trigger] bytes@[yy * (width + 1)
                    + xx] as char == draw_char(maze@, path@, yy * width + xx) by {
                    assert(yy * (width + 1) + xx < pre_cell.len()) by (nonlinear_arith)
                        requires
                            0 <= yy < y,
                            0 <= xx < width,
                            pre_cell.len() == y * (width + 1) + x,
                            0 <= x,
                    {}
                    assert(bytes@[yy * (width + 1) + xx] == pre_cell[yy * (width + 1) + xx]);
                }
                assert forall|yy: int|
                    0 <= yy < y implies #[trigger] bytes@[yy * (width + 1) + width] as char
                    == '\n' by {
                    assert(yy * (width + 1) + width < pre_cell.len()) by (nonlinear_arith)
                        requires
                            0 <= yy < y,
                            pre_cell.len() == y * (width + 1) + x,
                            0 <= x,
                            width >= 1,
                    {}
                    assert(bytes@[yy * (width + 1) + width] == pre_cell[yy * (width + 1)
                        + width]);
                }
                assert forall|xx: int|
                    0 <= xx < x implies #[trigger] bytes@[y * (width + 1) + xx] as char
                    == draw_char(maze@, path@, y * width + xx) by {
                    assert(bytes@[y * (width + 1) + xx] == pre_cell[y * (width + 1) + xx]);
                }
            }
            x += 1;
        }
        let ghost row_done = bytes@;
        bytes.push(10);
        proof {
            assert(bytes@.len() == y * (width + 1) + width + 1);
            assert((y + 1) * (width + 1) == y * (width + 1) + width + 1) by (nonlinear_arith) {}
            assert(bytes@[y * (width + 1) + width] == 10);
            assert(bytes@[y * (width + 1) + width] as char == '\n');
            assert forall|yy: int, xx: int|
                0 <= yy <= y && 0 <= xx < width implies #[trigger] bytes@[yy * (width + 1)
                + xx] as char == draw_char(maze@, path@, yy * width + xx) by {
                lemma_row_bounds(width, height, yy, xx);
                assert(yy * (width + 1) + xx < row_done.len()) by (nonlinear_arith)
                    requires
                        0 <= yy <= y,
                        0 <= xx < width,
                        row_done.len() == y * (width + 1) + width,
                {}
                assert(bytes@[yy * (width + 1) + xx] == row_done[yy * (width + 1) + xx]);
                assert(row_done[yy * (width + 1) + xx] as char == draw_char(
                    maze@,
                    path@,
                    yy * width + xx,
                ));
            }
            assert forall|yy: int|
                0 <= yy < y implies #[trigger] bytes@[yy * (width + 1) + width] as char == '\n' by {
                lemma_row_bounds(width, height, yy, 0);
                assert(yy * (width + 1) + width < row_done.len()) by (nonlinear_arith)
                    requires
                        0 <= yy < y,
                        row_done.len() == y * (width + 1) + width,
                {}
                assert(bytes@[yy * (width + 1) + width] == row_done[yy * (width + 1) + width]);
            }
        }
        y += 1;
    }
    let ghost bseq = bytes@;
    let r = crate::coord::ascii_bytes_to_string(bytes);
    proof {
        assert(r@.len() == bseq.len());
        assert(bseq.len() == height * (width + 1));
        assert((width + 1) * height == height * (width + 1)) by (nonlinear_arith) {}
        assert forall|yy: int, x: int|
            0 <= yy < height && 0 <= x < width implies #[trigger] r@[yy * (width + 1) + x]
            == draw_char(maze@, path@, yy * width + x) by {
            lemma_row_bounds(width, height, yy, x);
            let idx = yy * (width + 1) + x;
            assert(0 <= idx < bseq.len());
            assert(bseq[idx] as char == draw_char(maze@, path@, yy * width + x));
            assert(r@[idx] == bseq[idx] as char);
        }
        assert forall|yy: int|
            0 <= yy < height implies #[trigger] r@[yy * (width + 1) + width] == '\n' by {
            lemma_row_bounds(width, height, yy, 0);
            let idx = yy * (width + 1) + width;
            assert(0 <= idx < bseq.len());
            assert(bseq[idx] as char == '\n');
            assert(r@[idx] == bseq[idx] as char);
        }
    }
    r
}

/// Index bounds of the rendered text: each cell of row `y` lies inside the
/// rendering, and each row holds the grid cells of that row.
proof fn lemma_row_bounds(w: usize, h: usize, y: int, x: int)
    requires
        w >= 1,
        h >= 1,
        0 <= y < h,
        0 <= x <= w,
    ensures
        0 <= y * (w + 1) + x,
        y * (w + 1) + x < (w + 1) * h,
        y * (w + 1) + w < (w + 1) * h,
        x < w ==> 0 <= y * w + x < w * h,
        w * h <= (w + 1) * h,
{
    assert(y * (w + 1) + x >= 0 && y * (w + 1) + w < (w + 1) * h && (x < w ==> y * w + x < w * h)
        && w * h <= (w + 1) * h) by (nonlinear_arith)
        requires
            w >= 1,
            h >= 1,
            0 <= y < h,
            0 <= x <= w,
    {}
}

/// A grid-size string holds at most one separator position.
proof fn lemma_no_two_seps(s: Seq<char>, k1: int, k2: int)
    requires
        0 <= k1 < s.len(),
        0 <= k2 < s.len(),
        k1 != k2,
        s[k1] == 'x',
        s[k2] == 'x',
    ensures
        forall|k: int| !wf_grid_size_at(s, k),
{
    assert forall|k: int| !wf_grid_size_at(s, k) by {
        if wf_grid_size_at(s, k) {
            if k1 != k {
                assert(is_digit(s[k1]));
            } else {
                assert(is_digit(s[k2]));
            }
        }
    }
}

/// The separator found by the scan is the one position any well-placed
/// separator can sit at.
proof fn lemma_grid_size_sep_unique(s: Seq<char>, sep: int)
    requires
        0 <= sep < s.len(),
        s[sep] == 'x',
        forall|j: int| 0 <= j < s.len() && j != sep ==> s[j] != 'x',
    ensures
        forall|k: int| wf_grid_size_at(s, k) ==> k == sep,
{
    assert forall|k: int| wf_grid_size_at(s, k) implies k == sep by {
        if k != sep {
            if 0 <= sep < k {
                assert(is_digit(s[sep]));
            } else {
                assert(is_digit(s[sep]));
            }
        }
    }
}

} // verus!
