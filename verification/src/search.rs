//! Path search engine: breadth-first search over a built grid from the
//! entrance to the nearest exit-kind cell, producing a parent-pointer table
//! for path reconstruction.

use crate::grid::MazeCellKind;
use vstd::prelude::*;

verus! {

/// The intermediate state of a breadth-first search: which cells are
/// explored, the recorded parent of each cell, and the FIFO queue (front
/// first) of explored cells whose neighbors are still to be visited.
#[verifier::ext_equal]
pub struct BfsState {
    pub explored: Seq<bool>,
    pub parents: Seq<Option<usize>>,
    pub queue: Seq<usize>,
}

/// How many cells of the grid are still unexplored.
pub open spec fn count_unexplored(s: Seq<bool>) -> nat
    decreases s.len(),
{
    if s.len() == 0 {
        0
    } else {
        count_unexplored(s.drop_last()) + (if s.last() {
            0nat
        } else {
            1nat
        })
    }
}

/// Exploring one more cell strictly lowers the unexplored count.
proof fn lemma_count_unexplored_update(s: Seq<bool>, q: int)
    requires
        0 <= q < s.len(),
        !s[q],
    ensures
        count_unexplored(s.update(q, true)) < count_unexplored(s),
    decreases s.len(),
{
    let t = s.update(q, true);
    if q == s.len() - 1 {
        assert(t.drop_last() =~= s.drop_last());
    } else {
        lemma_count_unexplored_update(s.drop_last(), q);
        assert(t.drop_last() =~= s.drop_last().update(q, true));
        assert(t.last() == s.last());
    }
}

/// Whether `q` is one of the axis-aligned neighbors of `p` in a `w x h`
/// grid, in flat row-major indexing: east, west, south or north of `p`.
pub open spec fn adjacent(p: usize, q: usize, w: usize, h: usize) -> bool {
    let c = p as int % w as int;
    let r = p as int / w as int;
    ||| (c + 1 < w && q as int == p + 1)
    ||| (c >= 1 && q as int == p - 1)
    ||| (r + 1 < h && q as int == p + w)
    ||| (r >= 1 && q as int == p - w)
}

/// One neighbor visit: where `q` is an in-range non-wall cell not yet
/// explored, mark it explored with parent `p` and enqueue it; otherwise
/// leave the state unchanged.
pub open spec fn enq_one(grid: Seq<MazeCellKind>, st: BfsState, p: usize, q: usize) -> BfsState {
    if q < grid.len() && q < st.explored.len() && q < st.parents.len() && grid[q as int]
        != MazeCellKind::Wall && !st.explored[q as int] {
        BfsState {
            explored: st.explored.update(q as int, true),
            parents: st.parents.update(q as int, Some(p)),
            queue: st.queue.push(q),
        }
    } else {
        st
    }
}

/// Visit the up to four axis-aligned neighbors of `p`: east, west, south,
/// north, in that fixed order.
pub open spec fn visit_neighbors(
    grid: Seq<MazeCellKind>,
    w: usize,
    h: usize,
    st: BfsState,
    p: usize,
) -> BfsState {
    let c = p as int % w as int;
    let r = p as int / w as int;
    let st1 = if c + 1 < w {
        enq_one(grid, st, p, (p + 1) as usize)
    } else {
        st
    };
    let st2 = if c >= 1 {
        enq_one(grid, st1, p, (p - 1) as usize)
    } else {
        st1
    };
    let st3 = if r + 1 < h {
        enq_one(grid, st2, p, (p + w) as usize)
    } else {
        st2
    };
    if r >= 1 {
        enq_one(grid, st3, p, (p - w) as usize)
    } else {
        st3
    }
}

/// The state after taking the front cell off the queue.
pub open spec fn dequeue(st: BfsState) -> BfsState {
    BfsState { explored: st.explored, parents: st.parents, queue: st.queue.drop_first() }
}

/// A neighbor visit never raises the unexplored count, and a visit that
/// changes anything lowers it.
proof fn lemma_enq_one_progress(grid: Seq<MazeCellKind>, st: BfsState, p: usize, q: usize)
    ensures
        count_unexplored(enq_one(grid, st, p, q).explored) <= count_unexplored(st.explored),
        enq_one(grid, st, p, q) == st || count_unexplored(enq_one(grid, st, p, q).explored)
            < count_unexplored(st.explored),
{
    let st2 = enq_one(grid, st, p, q);
    if st2 != st {
        lemma_count_unexplored_update(st.explored, q as int);
    }
}

/// Visiting the neighbors of a cell never raises the unexplored count, and
/// lowers it unless it leaves the state unchanged.
proof fn lemma_visit_neighbors_progress(
    grid: Seq<MazeCellKind>,
    w: usize,
    h: usize,
    st: BfsState,
    p: usize,
)
    ensures
        count_unexplored(visit_neighbors(grid, w, h, st, p).explored) <= count_unexplored(
            st.explored,
        ),
        visit_neighbors(grid, w, h, st, p) == st || count_unexplored(
            visit_neighbors(grid, w, h, st, p).explored,
        ) < count_unexplored(st.explored),
{
    let c = p as int % w as int;
    let r = p as int / w as int;
    let st1 = if c + 1 < w {
        enq_one(grid, st, p, (p + 1) as usize)
    } else {
        st
    };
    let st2 = if c >= 1 {
        enq_one(grid, st1, p, (p - 1) as usize)
    } else {
        st1
    };
    let st3 = if r + 1 < h {
        enq_one(grid, st2, p, (p + w) as usize)
    } else {
        st2
    };
    lemma_enq_one_progress(grid, st, p, (p + 1) as usize);
    lemma_enq_one_progress(grid, st1, p, (p - 1) as usize);
    lemma_enq_one_progress(grid, st2, p, (p + w) as usize);
    lemma_enq_one_progress(grid, st3, p, (p - w) as usize);
}

/// The search outcome from a given state: `None` where the queue runs dry
/// without meeting an exit, otherwise the parent table and the first
/// exit-kind cell dequeued.
pub open spec fn bfs_run(grid: Seq<MazeCellKind>, w: usize, h: usize, st: BfsState) -> Option<
    (Seq<Option<usize>>, usize),
>
    decreases count_unexplored(st.explored), st.queue.len(),
        via bfs_run_decreases
{
    if st.queue.len() == 0 {
        None
    } else {
        let p = st.queue[0];
        if p < grid.len() && grid[p as int] == MazeCellKind::Exit {
            Some((st.parents, p))
        } else {
            bfs_run(grid, w, h, visit_neighbors(grid, w, h, dequeue(st), p))
        }
    }
}

#[via_fn]
proof fn bfs_run_decreases(grid: Seq<MazeCellKind>, w: usize, h: usize, st: BfsState) {
    if st.queue.len() != 0 {
        let p = st.queue[0];
        if !(p < grid.len() && grid[p as int] == MazeCellKind::Exit) {
            lemma_visit_neighbors_progress(grid, w, h, dequeue(st), p);
        }
    }
}

/// The starting state: only the entrance explored and queued, no parents.
pub open spec fn init_state(n: nat, entrance: usize) -> BfsState {
    BfsState {
        explored: Seq::new(n, |i: int| i == entrance),
        parents: Seq::new(n, |i: int| None),
        queue: seq![entrance],
    }
}

/// What a breadth-first search of the grid from the entrance returns: the
/// result is a function of the grid and the entrance alone.
pub open spec fn bfs_spec(
    grid: Seq<MazeCellKind>,
    w: usize,
    h: usize,
    entrance: usize,
) -> Option<(Seq<Option<usize>>, usize)> {
    bfs_run(grid, w, h, init_state(grid.len(), entrance))
}

/// A walk of the grid from `from` to `to`: consecutive cells adjacent, and
/// no cell after the first a wall.
pub open spec fn is_walk(
    grid: Seq<MazeCellKind>,
    w: usize,
    h: usize,
    s: Seq<usize>,
    from: usize,
    to: usize,
) -> bool {
    &&& s.len() >= 1
    &&& s[0] == from
    &&& s.last() == to
    &&& forall|i: int| 0 <= i < s.len() ==> (#[trigger] s[i]) < grid.len()
    &&& forall|i: int| 1 <= i < s.len() ==> grid[(#[trigger] s[i]) as int] != MazeCellKind::Wall
    &&& forall|i: int| 0 <= i < s.len() - 1 ==> adjacent(s[i], #[trigger] s[i + 1], w, h)
}

/// Whether `to` can be reached from `from` through non-wall cells.
pub open spec fn reachable(
    grid: Seq<MazeCellKind>,
    w: usize,
    h: usize,
    from: usize,
    to: usize,
) -> bool {
    exists|s: Seq<usize>| is_walk(grid, w, h, s, from, to)
}

/// A cell reaches itself by the one-cell walk.
proof fn lemma_reachable_self(grid: Seq<MazeCellKind>, w: usize, h: usize, p: usize)
    requires
        p < grid.len(),
    ensures
        reachable(grid, w, h, p, p),
{
    let s = seq![p];
    assert(is_walk(grid, w, h, s, p, p));
}

/// Reachability extends across one step to an adjacent non-wall cell.
proof fn lemma_reachable_step(
    grid: Seq<MazeCellKind>,
    w: usize,
    h: usize,
    from: usize,
    p: usize,
    q: usize,
)
    requires
        reachable(grid, w, h, from, p),
        adjacent(p, q, w, h),
        q < grid.len(),
        grid[q as int] != MazeCellKind::Wall,
    ensures
        reachable(grid, w, h, from, q),
{
    let s = choose|s: Seq<usize>| is_walk(grid, w, h, s, from, p);
    let s2 = s.push(q);
    assert(s2.last() == q);
    assert forall|i: int| 0 <= i < s2.len() - 1 implies adjacent(s2[i], #[trigger] s2[i + 1], w, h) by {
        if i < s.len() - 1 {
            assert(s2[i] == s[i] && s2[i + 1] == s[i + 1]);
        } else {
            assert(s2[i] == s.last() && s2[i + 1] == q);
        }
    }
    assert(is_walk(grid, w, h, s2, from, q));
}

/// A ranking witness for parent pointers: the rank strictly drops from a
/// cell to its recorded parent, so following parents cannot loop.
pub open spec fn parents_ranked(parents: Seq<Option<usize>>, d: Seq<nat>) -> bool {
    &&& d.len() == parents.len()
    &&& forall|x: int|
        0 <= x < parents.len() ==> ((#[trigger] parents[x]) matches Some(q) ==> q < parents.len()
            && d[q as int] < d[x])
}

/// Parent pointers that cannot loop: some ranking strictly decreases from
/// each cell to its parent.
pub open spec fn parents_acyclic(parents: Seq<Option<usize>>) -> bool {
    exists|d: Seq<nat>| parents_ranked(parents, d)
}

/// Parent pointers anchored at a root: the root records no parent, and every
/// recorded parent either is the root or records a parent itself, so every
/// parent chain ends at the root.
pub open spec fn parents_rooted(parents: Seq<Option<usize>>, root: usize) -> bool {
    &&& root < parents.len()
    &&& parents[root as int] is None
    &&& forall|x: int|
        0 <= x < parents.len() ==> ((#[trigger] parents[x]) matches Some(q) ==> q < parents.len()
            && (q == root || parents[q as int] is Some))
}

/// Parent pointers that follow the searched grid: each recorded edge steps
/// from a cell to an adjacent one, and never into a wall.
pub open spec fn parents_follow_grid(
    grid: Seq<MazeCellKind>,
    w: usize,
    h: usize,
    parents: Seq<Option<usize>>,
) -> bool {
    forall|x: int|
        0 <= x < parents.len() ==> ((#[trigger] parents[x]) matches Some(q) ==> adjacent(
            q,
            x as usize,
            w,
            h,
        ) && grid[x] != MazeCellKind::Wall)
}

/// The product of a successful search: one optional predecessor per cell,
/// and the discovered exit cell (the leaf of the path).
pub struct MazePath {
    pub parents: Vec<Option<usize>>,
    pub leaf: usize,
}

impl MazePath {
    /// A reconstructible search product: parent pointers in range, free of
    /// cycles, anchored at the search's entrance, and with the leaf itself
    /// on a chain to the entrance.
    pub open spec fn wf(self, root: usize) -> bool {
        &&& parents_rooted(self.parents@, root)
        &&& parents_acyclic(self.parents@)
        &&& self.leaf < self.parents@.len()
        &&& (self.leaf == root || self.parents@[self.leaf as int] is Some)
    }
}

/// The search invariant over the explored and parent tables: the entrance is
/// explored and parentless, every other explored cell records an explored
/// parent one step away through a non-wall cell, and every explored cell is
/// reachable from the entrance.
#[verifier::opaque]
spec fn inv_core(
    grid: Seq<MazeCellKind>,
    w: usize,
    h: usize,
    entrance: usize,
    explored: Seq<bool>,
    parents: Seq<Option<usize>>,
) -> bool {
    &&& explored.len() == grid.len()
    &&& parents.len() == grid.len()
    &&& entrance < grid.len()
    &&& explored[entrance as int]
    &&& parents[entrance as int] is None
    &&& forall|x: int| 0 <= x < grid.len() && !(#[trigger] explored[x]) ==> parents[x] is None
    &&& forall|x: int|
        0 <= x < grid.len() && (#[trigger] explored[x]) && x != entrance ==> parents[x] is Some
    &&& forall|x: int|
        0 <= x < grid.len() ==> ((#[trigger] parents[x]) matches Some(q) ==> q < grid.len()
            && explored[q as int] && adjacent(q, x as usize, w, h) && grid[x]
            != MazeCellKind::Wall)
    &&& forall|x: int|
        0 <= x < grid.len() && (#[trigger] explored[x]) ==> reachable(grid, w, h, entrance, x as usize)
}

/// The ranking that goes with one neighbor visit: a newly explored cell
/// ranks one above its parent.
spec fn rank_after(
    grid: Seq<MazeCellKind>,
    st: BfsState,
    d: Seq<nat>,
    p: usize,
    q: usize,
) -> Seq<nat> {
    if q < grid.len() && q < st.explored.len() && q < st.parents.len() && grid[q as int]
        != MazeCellKind::Wall && !st.explored[q as int] {
        d.update(q as int, (d[p as int] + 1) as nat)
    } else {
        d
    }
}

/// One neighbor visit preserves the search invariant and the ranking.
proof fn lemma_enq_one_inv(
    grid: Seq<MazeCellKind>,
    w: usize,
    h: usize,
    entrance: usize,
    st: BfsState,
    d: Seq<nat>,
    p: usize,
    q: usize,
)
    requires
        inv_core(grid, w, h, entrance, st.explored, st.parents),
        parents_ranked(st.parents, d),
        st.explored.len() == st.parents.len(),
        p < grid.len(),
        st.explored[p as int],
        adjacent(p, q, w, h),
    ensures
        inv_core(
            grid,
            w,
            h,
            entrance,
            enq_one(grid, st, p, q).explored,
            enq_one(grid, st, p, q).parents,
        ),
        parents_ranked(enq_one(grid, st, p, q).parents, rank_after(grid, st, d, p, q)),
{
    reveal(inv_core);
    let st2 = enq_one(grid, st, p, q);
    if st2 != st {
        assert(q < grid.len() && grid[q as int] != MazeCellKind::Wall && !st.explored[q as int]);
        lemma_reachable_step(grid, w, h, entrance, p, q);
        assert(st.parents[q as int] is None);
        assert(q != entrance);
        assert forall|x: int|
            0 <= x < grid.len() implies ((#[trigger] st2.parents[x]) matches Some(y) ==> y
            < grid.len() && st2.explored[y as int] && adjacent(y, x as usize, w, h) && grid[x]
            != MazeCellKind::Wall) by {
            if x != q {
                assert(st2.parents[x] == st.parents[x]);
            }
        }
    }
}
/// Bounds of the neighbor candidates of a cell of a `w x h` grid.
proof fn lemma_neighbor_positions(p: usize, w: usize, h: usize, n: int)
    requires
        w >= 1,
        h >= 1,
        n == w * h,
        p < n,
    ensures
        p as int % w as int + 1 < w ==> p + 1 < n,
        p as int / w as int + 1 < h ==> p + w < n,
        p as int % w as int >= 1 ==> p >= 1,
        p as int / w as int >= 1 ==> p >= w,
        0 <= (p as int % w as int) && (p as int % w as int) < w,
        0 <= (p as int / w as int) && (p as int / w as int) < h,
{
    let c = p as int % w as int;
    let r = p as int / w as int;
    vstd::arithmetic::div_mod::lemma_fundamental_div_mod(p as int, w as int);
    vstd::arithmetic::div_mod::lemma_div_pos_is_pos(p as int, w as int);
    assert((c + 1 < w ==> p + 1 < n) && (r + 1 < h ==> p + w < n) && (c >= 1 ==> p >= 1) && (r >= 1
        ==> p >= w) && r < h) by (nonlinear_arith)
        requires
            p as int == w * r + c,
            0 <= c < w,
            0 <= r,
            n == w * h,
            p < n,
            w >= 1,
            h >= 1,
    {}
}

/// The abstract state a concrete search holds: the active queue is the work
/// list from `head` on.
spec fn st_of(
    explored: Seq<bool>,
    parents: Seq<Option<usize>>,
    work: Seq<usize>,
    head: int,
) -> BfsState {
    BfsState { explored, parents, queue: work.subrange(head, work.len() as int) }
}

/// Visit one neighbor candidate `q` of the dequeued cell `p`: mirrors
/// `enq_one` over the full work list and carries the search invariant.
fn try_visit(
    maze: &Vec<MazeCellKind>,
    width: usize,
    height: usize,
    Ghost(entrance): Ghost<usize>,
    explored: &mut Vec<bool>,
    parents: &mut Vec<Option<usize>>,
    work: &mut Vec<usize>,
    Ghost(depth_in): Ghost<Seq<nat>>,
    p: usize,
    q: usize,
) -> (depth_out: Ghost<Seq<nat>>)
    requires
        maze@.len() == width * height,
        width * height <= usize::MAX,
        p < maze@.len(),
        q < maze@.len(),
        old(explored)@.len() == maze@.len(),
        old(parents)@.len() == maze@.len(),
        old(explored)@[p as int],
        adjacent(p, q, width, height),
        inv_core(maze@, width, height, entrance, old(explored)@, old(parents)@),
        parents_ranked(old(parents)@, depth_in),
        forall|k: int|
            0 <= k < old(work)@.len() ==> (#[trigger] old(work)@[k]) < maze@.len()
                && old(explored)@[old(work)@[k] as int],
        forall|x: int|
            0 <= x < maze@.len() && (#[trigger] old(explored)@[x]) ==> exists|k: int|
                0 <= k < old(work)@.len() && old(work)@[k] == x,
    ensures
        ({
            let st2 = enq_one(
                maze@,
                BfsState { explored: old(explored)@, parents: old(parents)@, queue: old(work)@ },
                p,
                q,
            );
            final(explored)@ == st2.explored && final(parents)@ == st2.parents && final(work)@
                == st2.queue
        }),
        inv_core(maze@, width, height, entrance, final(explored)@, final(parents)@),
        parents_ranked(final(parents)@, depth_out@),
        forall|k: int|
            0 <= k < final(work)@.len() ==> (#[trigger] final(work)@[k]) < maze@.len()
                && final(explored)@[final(work)@[k] as int],
        forall|x: int|
            0 <= x < maze@.len() && (#[trigger] final(explored)@[x]) ==> exists|k: int|
                0 <= k < final(work)@.len() && final(work)@[k] == x,
        forall|x: int| 0 <= x < maze@.len() && old(explored)@[x] ==> final(explored)@[x],
        maze@[q as int] != MazeCellKind::Wall ==> final(explored)@[q as int],
        old(work)@.len() <= final(work)@.len(),
        forall|k: int| 0 <= k < old(work)@.len() ==> final(work)@[k] == old(work)@[k],
{
    let ghost st = BfsState { explored: explored@, parents: parents@, queue: work@ };
    proof {
        lemma_enq_one_inv(maze@, width, height, entrance, st, depth_in, p, q);
    }
    if maze[q] != MazeCellKind::Wall && !explored[q] {
        explored[q] = true;
        parents[q] = Some(p);
        work.push(q);
        proof {
            assert forall|x: int|
                0 <= x < maze@.len() && (#[trigger] explored@[x]) implies exists|k: int|
                0 <= k < work@.len() && work@[k] == x by {
                if x == q {
                    assert(work@[work@.len() - 1] == q);
                } else {
                    let k = choose|k: int| 0 <= k < st.queue.len() && st.queue[k] == x;
                    assert(work@[k] == x);
                }
            }
        }
    }
    Ghost(rank_after(maze@, st, depth_in, p, q))
}

/// Where the whole work list has been dequeued without meeting an exit, no
/// exit-kind cell is reachable from the entrance: every reachable cell has
/// been explored, every explored cell was dequeued, and no dequeued cell was
/// an exit.
proof fn lemma_no_reachable_exit(
    grid: Seq<MazeCellKind>,
    w: usize,
    h: usize,
    entrance: usize,
    explored: Seq<bool>,
    work: Seq<usize>,
)
    requires
        explored.len() == grid.len(),
        entrance < grid.len(),
        explored[entrance as int],
        forall|k: int| 0 <= k < work.len() ==> (#[trigger] work[k]) < grid.len(),
        forall|x: int|
            0 <= x < grid.len() && (#[trigger] explored[x]) ==> exists|k: int|
                0 <= k < work.len() && work[k] == x,
        forall|k: int| 0 <= k < work.len() ==> grid[(#[trigger] work[k]) as int] != MazeCellKind::Exit,
        forall|k: int, q: usize|
            0 <= k < work.len() && q < grid.len() && #[trigger] adjacent(work[k], q, w, h)
                && grid[q as int] != MazeCellKind::Wall ==> explored[q as int],
    ensures
        forall|x: usize|
            x < grid.len() && grid[x as int] == MazeCellKind::Exit ==> !reachable(
                grid,
                w,
                h,
                entrance,
                x,
            ),
{
    assert forall|x: usize|
        x < grid.len() && grid[x as int] == MazeCellKind::Exit implies !reachable(
        grid,
        w,
        h,
        entrance,
        x,
    ) by {
        if reachable(grid, w, h, entrance, x) {
            let s = choose|s: Seq<usize>| is_walk(grid, w, h, s, entrance, x);
            assert forall|p: usize, q: usize|
                p < grid.len() && q < grid.len() && explored[p as int] && #[trigger] adjacent(
                    p,
                    q,
                    w,
                    h,
                ) && grid[q as int] != MazeCellKind::Wall implies explored[q as int] by {
                let k = choose|k: int| 0 <= k < work.len() && work[k] == p;
            }
            lemma_walk_stays_explored(grid, w, h, explored, s, entrance, x);
            let k = choose|k: int| 0 <= k < work.len() && work[k] == x;
            assert(grid[(work[k]) as int] != MazeCellKind::Exit);
        }
    }
}

/// What the search tables say of a discovered exit: the parent pointers are
/// rooted at the entrance, acyclic, follow the grid, and the leaf reaches
/// the entrance along them.
proof fn lemma_search_result_wf(
    grid: Seq<MazeCellKind>,
    w: usize,
    h: usize,
    entrance: usize,
    explored: Seq<bool>,
    parents: Seq<Option<usize>>,
    depth: Seq<nat>,
    leaf: usize,
)
    requires
        inv_core(grid, w, h, entrance, explored, parents),
        parents_ranked(parents, depth),
        leaf < grid.len(),
        explored[leaf as int],
    ensures
        parents.len() == grid.len(),
        entrance < grid.len(),
        parents_rooted(parents, entrance),
        parents_acyclic(parents),
        parents_follow_grid(grid, w, h, parents),
        leaf == entrance || parents[leaf as int] is Some,
        reachable(grid, w, h, entrance, leaf),
{
    reveal(inv_core);
}

/// Visit all (up to four) neighbor candidates of the dequeued cell `p`:
/// east, west, south, north, in that order, carrying the search invariant
/// and mirroring `visit_neighbors` on the active queue from `head` on.
#[verifier::rlimit(100)]
fn visit_all_neighbors(
    maze: &Vec<MazeCellKind>,
    width: usize,
    height: usize,
    Ghost(entrance): Ghost<usize>,
    explored: &mut Vec<bool>,
    parents: &mut Vec<Option<usize>>,
    work: &mut Vec<usize>,
    Ghost(depth_in): Ghost<Seq<nat>>,
    head: usize,
    p: usize,
) -> (depth_out: Ghost<Seq<nat>>)
    requires
        maze@.len() == width * height,
        width * height <= usize::MAX,
        width >= 1,
        height >= 1,
        head <= old(work)@.len(),
        p < maze@.len(),
        old(explored)@.len() == maze@.len(),
        old(parents)@.len() == maze@.len(),
        old(explored)@[p as int],
        inv_core(maze@, width, height, entrance, old(explored)@, old(parents)@),
        parents_ranked(old(parents)@, depth_in),
        forall|k: int|
            0 <= k < old(work)@.len() ==> (#[trigger] old(work)@[k]) < maze@.len()
                && old(explored)@[old(work)@[k] as int],
        forall|x: int|
            0 <= x < maze@.len() && (#[trigger] old(explored)@[x]) ==> exists|k: int|
                0 <= k < old(work)@.len() && old(work)@[k] == x,
    ensures
        final(explored)@.len() == maze@.len(),
        final(parents)@.len() == maze@.len(),
        head <= final(work)@.len(),
        inv_core(maze@, width, height, entrance, final(explored)@, final(parents)@),
        parents_ranked(final(parents)@, depth_out@),
        forall|k: int|
            0 <= k < final(work)@.len() ==> (#[trigger] final(work)@[k]) < maze@.len()
                && final(explored)@[final(work)@[k] as int],
        forall|x: int|
            0 <= x < maze@.len() && (#[trigger] final(explored)@[x]) ==> exists|k: int|
                0 <= k < final(work)@.len() && final(work)@[k] == x,
        st_of(final(explored)@, final(parents)@, final(work)@, head as int) == visit_neighbors(
            maze@,
            width,
            height,
            st_of(old(explored)@, old(parents)@, old(work)@, head as int),
            p,
        ),
        forall|x: int| 0 <= x < maze@.len() && old(explored)@[x] ==> final(explored)@[x],
        forall|q: usize|
            q < maze@.len() && #[trigger] adjacent(p, q, width, height) && maze@[q as int]
                != MazeCellKind::Wall ==> final(explored)@[q as int],
        old(work)@.len() <= final(work)@.len(),
        forall|k: int| 0 <= k < old(work)@.len() ==> final(work)@[k] == old(work)@[k],
        count_unexplored(final(explored)@) <= count_unexplored(old(explored)@),
        count_unexplored(final(explored)@) < count_unexplored(old(explored)@)
            || (final(explored)@ == old(explored)@ && final(parents)@ == old(parents)@
            && final(work)@ == old(work)@),
{
    let ghost grid = maze@;
    let ghost n = maze@.len();
    let ghost st_deq = st_of(explored@, parents@, work@, head as int);
    let ghost mut depth: Seq<nat> = depth_in;
    proof {
        lemma_neighbor_positions(p, width, height, n as int);
    }

    let c = p % width;
    let r = p / width;

    // east
    let ghost pre1 = (explored@, parents@, work@);
    if c + 1 < width {
        let q = p + 1;
        let gd = try_visit(
            maze,
            width,
            height,
            Ghost(entrance),
            explored,
            parents,
            work,
            Ghost(depth),
            p,
            q,
        );
        proof {
            depth = gd@;
        }
    }
    proof {
        let ast = if c + 1 < width {
            enq_one(grid, st_deq, p, ((p + 1) as usize))
        } else {
            st_deq
        };
        assert(st_of(explored@, parents@, work@, head as int) =~= ast);
    }
    let ghost ast1 = st_of(explored@, parents@, work@, head as int);

    // west
    if c >= 1 {
        let q = p - 1;
        let gd = try_visit(
            maze,
            width,
            height,
            Ghost(entrance),
            explored,
            parents,
            work,
            Ghost(depth),
            p,
            q,
        );
        proof {
            depth = gd@;
        }
    }
    proof {
        let ast = if c >= 1 {
            enq_one(grid, ast1, p, ((p - 1) as usize))
        } else {
            ast1
        };
        assert(st_of(explored@, parents@, work@, head as int) =~= ast);
    }
    let ghost ast2 = st_of(explored@, parents@, work@, head as int);

    // south
    if r + 1 < height {
        let q = p + width;
        let gd = try_visit(
            maze,
            width,
            height,
            Ghost(entrance),
            explored,
            parents,
            work,
            Ghost(depth),
            p,
            q,
        );
        proof {
            depth = gd@;
        }
    }
    proof {
        let ast = if r + 1 < height {
            enq_one(grid, ast2, p, ((p + width) as usize))
        } else {
            ast2
        };
        assert(st_of(explored@, parents@, work@, head as int) =~= ast);
    }
    let ghost ast3 = st_of(explored@, parents@, work@, head as int);

    // north
    if r >= 1 {
        let q = p - width;
        let gd = try_visit(
            maze,
            width,
            height,
            Ghost(entrance),
            explored,
            parents,
            work,
            Ghost(depth),
            p,
            q,
        );
        proof {
            depth = gd@;
        }
    }
    proof {
        let ast = if r >= 1 {
            enq_one(grid, ast3, p, ((p - width) as usize))
        } else {
            ast3
        };
        assert(st_of(explored@, parents@, work@, head as int) =~= ast);
    }

    proof {
        let st_new = st_of(explored@, parents@, work@, head as int);
        assert(st_new =~= visit_neighbors(grid, width, height, st_deq, p));

        // the dequeued cell's non-wall neighbors are now all explored
        assert forall|q: usize|
            q < n && #[trigger] adjacent(p, q, width, height) && grid[q as int]
                != MazeCellKind::Wall implies explored@[q as int] by {
            let cc = p as int % width as int;
            let rr = p as int / width as int;
            if cc + 1 < width && q as int == p + 1 {
                assert(explored@[q as int]);
            } else if cc >= 1 && q as int == p - 1 {
                assert(explored@[q as int]);
            } else if rr + 1 < height && q as int == p + width {
                assert(explored@[q as int]);
            } else {
                assert(rr >= 1 && q as int == p - width);
                assert(explored@[q as int]);
            }
        }

        // either a cell was newly explored or the whole state is unchanged
        lemma_visit_neighbors_progress(grid, width, height, st_deq, p);
        if st_new == st_deq {
            assert(explored@ == pre1.0 && parents@ == pre1.1);
            assert(work@.subrange(head as int, work@.len() as int) == pre1.2.subrange(
                head as int,
                pre1.2.len() as int,
            ));
            assert(work@.len() == pre1.2.len());
            assert forall|k: int| 0 <= k < work@.len() implies work@[k] == pre1.2[k] by {
                if k >= head {
                    assert(work@.subrange(head as int, work@.len() as int)[k - head]
                        == pre1.2.subrange(head as int, pre1.2.len() as int)[k - head]);
                }
            }
            assert(work@ =~= pre1.2);
        } else {
            assert(count_unexplored(st_new.explored) < count_unexplored(st_deq.explored));
        }
    }
    Ghost(depth)
}

/// Breadth-first search over the grid from the entrance to the nearest
/// exit-kind cell: east, west, south, north neighbors visited in that fixed
/// order, each cell explored at most once. Returns the parent table and the
/// discovered exit, or `None` exactly when no exit-kind cell is reachable
/// from the entrance through non-wall cells.
#[verifier::rlimit(100)]
pub fn shortest_path(
    maze: &Vec<MazeCellKind>,
    entrance_pos: usize,
    width: usize,
    height: usize,
) -> (r: Option<MazePath>)
    requires
        width >= 1,
        height >= 1,
        width * height <= usize::MAX,
        maze@.len() == width * height,
        entrance_pos < width * height,
    ensures
        match r {
            Some(path) => {
                &&& bfs_spec(maze@, width, height, entrance_pos) == Some(
                    (path.parents@, path.leaf),
                )
                &&& path.wf(entrance_pos)
                &&& path.parents@.len() == maze@.len()
                &&& path.leaf < maze@.len()
                &&& maze@[path.leaf as int] == MazeCellKind::Exit
                &&& parents_follow_grid(maze@, width, height, path.parents@)
                &&& reachable(maze@, width, height, entrance_pos, path.leaf)
            },
            None => bfs_spec(maze@, width, height, entrance_pos) is None,
        },
        r is Some <==> exists|x: usize|
            x < maze@.len() && maze@[x as int] == MazeCellKind::Exit && reachable(
                maze@,
                width,
                height,
                entrance_pos,
                x,
            ),
{
    let n = width * height;
    let ghost grid = maze@;

    let mut explored: Vec<bool> = Vec::new();
    let mut i: usize = 0;
    while i < n
        invariant
            i <= n,
            explored@.len() == i,
            forall|x: int| 0 <= x < i ==> !(#[trigger] explored@[x]),
        decreases n - i,
    {
        explored.push(false);
        i += 1;
    }
    let mut parents: Vec<Option<usize>> = Vec::new();
    let mut j: usize = 0;
    while j < n
        invariant
            j <= n,
            parents@.len() == j,
            forall|x: int| 0 <= x < j ==> (#[trigger] parents@[x]) is None,
        decreases n - j,
    {
        parents.push(None);
        j += 1;
    }

    let mut work: Vec<usize> = Vec::new();
    work.push(entrance_pos);
    explored[entrance_pos] = true;
    let mut head: usize = 0;

    let ghost mut depth: Seq<nat> = Seq::new(n as nat, |x: int| 0nat);

    proof {
        reveal(inv_core);
        assert(st_of(explored@, parents@, work@, 0) =~= init_state(grid.len(), entrance_pos));
        lemma_reachable_self(grid, width, height, entrance_pos);
    }

    while head < work.len()
        invariant
            grid == maze@,
            n == width * height,
            width >= 1,
            height >= 1,
            n <= usize::MAX,
            entrance_pos < n,
            grid.len() == n,
            explored@.len() == n,
            parents@.len() == n,
            head <= work@.len(),
            inv_core(grid, width, height, entrance_pos, explored@, parents@),
            parents_ranked(parents@, depth),
            bfs_run(grid, width, height, st_of(explored@, parents@, work@, head as int))
                == bfs_spec(grid, width, height, entrance_pos),
            forall|k: int|
                0 <= k < work@.len() ==> (#[trigger] work@[k]) < n && explored@[work@[k] as int],
            forall|x: int|
                0 <= x < n && (#[trigger] explored@[x]) ==> exists|k: int|
                    0 <= k < work@.len() && work@[k] == x,
            forall|k: int|
                0 <= k < head ==> grid[(#[trigger] work@[k]) as int] != MazeCellKind::Exit,
            forall|k: int, q: usize|
                0 <= k < head && q < n && #[trigger] adjacent(work@[k], q, width, height)
                    && grid[q as int] != MazeCellKind::Wall ==> explored@[q as int],
        decreases count_unexplored(explored@), work@.len() - head,
    {
        let work_pos = work[head];
        let ghost st0 = st_of(explored@, parents@, work@, head as int);
        proof {
            assert(st0.queue.len() == work@.len() - head);
            assert(st0.queue[0] == work@[head as int]);
        }

        if maze[work_pos] == MazeCellKind::Exit {
            proof {
                assert(bfs_run(grid, width, height, st0) == Some((parents@, work_pos)));
                lemma_search_result_wf(
                    grid,
                    width,
                    height,
                    entrance_pos,
                    explored@,
                    parents@,
                    depth,
                    work_pos,
                );
            }
            return Some(MazePath { parents, leaf: work_pos });
        }

        head = head + 1;
        proof {
            assert(dequeue(st0) =~= st_of(explored@, parents@, work@, head as int));
        }
        let ghost st_deq = st_of(explored@, parents@, work@, head as int);
        let ghost pre = (explored@, parents@, work@);

        let gd = visit_all_neighbors(
            maze,
            width,
            height,
            Ghost(entrance_pos),
            &mut explored,
            &mut parents,
            &mut work,
            Ghost(depth),
            head,
            work_pos,
        );
        proof {
            depth = gd@;
            let st_new = st_of(explored@, parents@, work@, head as int);
            assert(st_new == visit_neighbors(grid, width, height, st_deq, work_pos));
            assert(bfs_run(grid, width, height, st0) == bfs_run(grid, width, height, st_new));

            // the not-yet-an-exit record covers the cell just dequeued
            assert forall|k: int|
                0 <= k < head implies grid[(#[trigger] work@[k]) as int] != MazeCellKind::Exit by {
                assert(work@[k] == pre.2[k]);
            }

            // closure of processed cells under non-wall adjacency
            assert forall|k: int, q: usize|
                0 <= k < head && q < n && #[trigger] adjacent(work@[k], q, width, height)
                    && grid[q as int] != MazeCellKind::Wall implies explored@[q as int] by {
                assert(work@[k] == pre.2[k]);
                if k < head - 1 {
                    assert(pre.0[q as int]);
                }
            }
        }
    }

    proof {
        reveal(inv_core);
        let st_end = st_of(explored@, parents@, work@, head as int);
        assert(st_end.queue.len() == 0);
        assert(bfs_spec(grid, width, height, entrance_pos) is None);
        lemma_no_reachable_exit(grid, width, height, entrance_pos, explored@, work@);
    }
    None
}

/// Walk parent pointers back from the discovered exit, returning the path
/// entrance-first, exit-last. The leaf alone makes a one-cell path.
#[verifier::rlimit(100)]
pub fn collect_path(path: &MazePath) -> (r: Vec<usize>)
    requires
        exists|root: usize| path.wf(root),
    ensures
        r@.len() >= 1,
        r@.last() == path.leaf,
        r@[0] < path.parents@.len(),
        path.parents@[r@[0] as int] is None,
        forall|i: int| 0 <= i < r@.len() ==> (#[trigger] r@[i]) < path.parents@.len(),
        forall|i: int| 0 <= i < r@.len() - 1 ==> path.parents@[r@[i + 1] as int] == Some(r@[i]),
        forall|root: usize| path.wf(root) ==> r@[0] == root,
{
    let ghost d = choose|d: Seq<nat>| parents_ranked(path.parents@, d);
    proof {
        let root0 = choose|root: usize| path.wf(root);
        assert(path.wf(root0));
        assert(parents_ranked(path.parents@, d));
    }
    let mut path_pos: Vec<usize> = Vec::new();
    path_pos.push(path.leaf);
    let mut current_pos = path.leaf;
    loop
        invariant
            parents_ranked(path.parents@, d),
            current_pos < path.parents@.len(),
            path_pos@.len() >= 1,
            path_pos@[0] == path.leaf,
            path_pos@.last() == current_pos,
            forall|i: int|
                0 <= i < path_pos@.len() ==> (#[trigger] path_pos@[i]) < path.parents@.len(),
            forall|i: int|
                0 <= i < path_pos@.len() - 1 ==> path.parents@[(#[trigger] path_pos@[i]) as int]
                    == Some(path_pos@[i + 1]),
        ensures
            path_pos@.len() >= 1,
            path_pos@[0] == path.leaf,
            path_pos@.last() == current_pos,
            current_pos < path.parents@.len(),
            path.parents@[current_pos as int] is None,
            forall|i: int|
                0 <= i < path_pos@.len() ==> (#[trigger] path_pos@[i]) < path.parents@.len(),
            forall|i: int|
                0 <= i < path_pos@.len() - 1 ==> path.parents@[(#[trigger] path_pos@[i]) as int]
                    == Some(path_pos@[i + 1]),
        decreases d[current_pos as int],
    {
        let parent = path.parents[current_pos];
        match parent {
            Option::Some(parent_pos) => {
                path_pos.push(parent_pos);
                current_pos = parent_pos;
            },
            Option::None => {
                break ;
            },
        }
    }

    let mut r: Vec<usize> = Vec::new();
    let mut i: usize = path_pos.len();
    while i > 0
        invariant
            i <= path_pos@.len(),
            r@.len() == path_pos@.len() - i,
            forall|j: int|
                0 <= j < r@.len() ==> (#[trigger] r@[j]) == path_pos@[path_pos@.len() - 1 - j],
        decreases i,
    {
        i -= 1;
        r.push(path_pos[i]);
    }

    proof {
        lemma_chain_reversal(path.parents@, path_pos@, r@, path.leaf, current_pos);
        assert forall|root: usize| path.wf(root) implies r@[0] == root by {
            lemma_chain_root(*path, r@, root);
        }
    }
    r
}

/// Reversing a parent chain built leaf-first gives a root-first chain.
proof fn lemma_chain_reversal(
    parents: Seq<Option<usize>>,
    pp: Seq<usize>,
    r: Seq<usize>,
    leaf: usize,
    current: usize,
)
    requires
        pp.len() >= 1,
        pp[0] == leaf,
        pp.last() == current,
        current < parents.len(),
        parents[current as int] is None,
        forall|i: int| 0 <= i < pp.len() ==> (#[trigger] pp[i]) < parents.len(),
        forall|i: int|
            0 <= i < pp.len() - 1 ==> parents[(#[trigger] pp[i]) as int] == Some(pp[i + 1]),
        r.len() == pp.len(),
        forall|j: int| 0 <= j < r.len() ==> (#[trigger] r[j]) == pp[pp.len() - 1 - j],
    ensures
        r.len() >= 1,
        r.last() == leaf,
        r[0] < parents.len(),
        parents[r[0] as int] is None,
        forall|i: int| 0 <= i < r.len() ==> (#[trigger] r[i]) < parents.len(),
        forall|i: int| 0 <= i < r.len() - 1 ==> parents[(#[trigger] r[i + 1]) as int] == Some(r[i]),
{
    let len = pp.len() as int;
    assert(r[0] == pp[len - 1] && pp[len - 1] == current);
    assert(r.last() == pp[0]);
    assert forall|k: int|
        0 <= k < r.len() - 1 implies parents[(#[trigger] r[k + 1]) as int] == Some(r[k]) by {
        assert(r[k + 1] == pp[len - 2 - k]);
        assert(r[k] == pp[len - 1 - k]);
        assert(parents[(pp[len - 2 - k]) as int] == Some(pp[len - 2 - k + 1]));
    }
}

/// A root-first parent chain starts at the root the search product is
/// anchored at.
proof fn lemma_chain_root(path: MazePath, r: Seq<usize>, root: usize)
    requires
        path.wf(root),
        r.len() >= 1,
        r.last() == path.leaf,
        r[0] < path.parents@.len(),
        path.parents@[r[0] as int] is None,
        forall|i: int| 0 <= i < r.len() ==> (#[trigger] r[i]) < path.parents@.len(),
        forall|i: int|
            0 <= i < r.len() - 1 ==> path.parents@[(#[trigger] r[i + 1]) as int] == Some(r[i]),
    ensures
        r[0] == root,
{
    if r.len() == 1 {
        assert(r[0] == path.leaf);
    } else {
        let i0: int = 0;
        assert(path.parents@[(r[i0 + 1]) as int] == Some(r[i0]));
    }
}

/// Law: searching the same grid from the same entrance twice returns the
/// identical parent table and the identical discovered exit.
pub proof fn lemma_search_deterministic(
    grid: Seq<MazeCellKind>,
    w: usize,
    h: usize,
    entrance: usize,
    r1: Option<(Seq<Option<usize>>, usize)>,
    r2: Option<(Seq<Option<usize>>, usize)>,
)
    requires
        r1 == bfs_spec(grid, w, h, entrance),
        r2 == bfs_spec(grid, w, h, entrance),
    ensures
        r1 == r2,
{
}

/// Law: a path reconstructed from a well-formed search product is a walk of
/// the searched grid: entrance-first, exit-last, each move between adjacent
/// cells, never into a wall.
pub proof fn lemma_collected_path_is_walk(
    grid: Seq<MazeCellKind>,
    w: usize,
    h: usize,
    path: MazePath,
    root: usize,
    r: Seq<usize>,
)
    requires
        path.wf(root),
        parents_follow_grid(grid, w, h, path.parents@),
        path.parents@.len() == grid.len(),
        r.len() >= 1,
        r.last() == path.leaf,
        r[0] < path.parents@.len(),
        path.parents@[r[0] as int] is None,
        forall|i: int| 0 <= i < r.len() ==> (#[trigger] r[i]) < path.parents@.len(),
        forall|i: int| 0 <= i < r.len() - 1 ==> path.parents@[r[i + 1] as int] == Some(r[i]),
    ensures
        is_walk(grid, w, h, r, root, path.leaf),
{
    if r.len() == 1 {
        assert(r[0] == path.leaf);
        assert(r[0] == root);
    } else {
        assert(path.parents@[(r[1]) as int] == Some(r[0]));
        assert(r[0] == root);
    }
    assert forall|i: int| 1 <= i < r.len() implies grid[(#[trigger] r[i]) as int]
        != MazeCellKind::Wall by {
        assert(path.parents@[(r[i]) as int] == Some(r[i - 1]));
    }
    assert forall|i: int| 0 <= i < r.len() - 1 implies adjacent(r[i], #[trigger] r[i + 1], w, h) by {
        assert(path.parents@[(r[i + 1]) as int] == Some(r[i]));
    }
}


/// Depth-exact parent pointers: each recorded edge steps down exactly one
/// level of the ranking, and points between explored cells.
spec fn parents_stepped(
    parents: Seq<Option<usize>>,
    explored: Seq<bool>,
    d: Seq<nat>,
) -> bool {
    &&& forall|x: int|
        0 <= x < parents.len() ==> ((#[trigger] parents[x]) matches Some(q) ==> q < parents.len()
            && explored[x] && explored[q as int] && d[x] == d[q as int] + 1)
    &&& forall|x: int| 0 <= x < parents.len() && !(#[trigger] explored[x]) ==> parents[x] is None
}

/// The invariant of a search state with its depth ranking `d`: the entrance
/// sits at depth zero; the queue holds explored cells at nondecreasing
/// depths spanning at most two levels; every explored cell off the queue has
/// been processed, its depth at most any queued depth, and its non-wall
/// neighbors explored within one more level.
spec fn bfs_inv(
    grid: Seq<MazeCellKind>,
    w: usize,
    h: usize,
    e: usize,
    st: BfsState,
    d: Seq<nat>,
) -> bool {
    &&& st.explored.len() == grid.len()
    &&& st.parents.len() == grid.len()
    &&& d.len() == grid.len()
    &&& e < grid.len()
    &&& st.explored[e as int]
    &&& d[e as int] == 0
    &&& parents_stepped(st.parents, st.explored, d)
    &&& forall|i: int|
        0 <= i < st.queue.len() ==> (#[trigger] st.queue[i]) < grid.len()
            && st.explored[st.queue[i] as int]
    &&& forall|i: int, j: int|
        0 <= i < j < st.queue.len() ==> (#[trigger] st.queue[i]) != (#[trigger] st.queue[j])
    &&& forall|i: int, j: int|
        0 <= i <= j < st.queue.len() ==> d[(#[trigger] st.queue[i]) as int]
            <= d[(#[trigger] st.queue[j]) as int]
    &&& (st.queue.len() > 0 ==> d[st.queue.last() as int] <= d[st.queue[0] as int] + 1)
    &&& forall|x: int, j: int|
        0 <= x < grid.len() && (#[trigger] st.explored[x]) && !st.queue.contains(x as usize) && 0
            <= j < st.queue.len() ==> d[x] <= d[(#[trigger] st.queue[j]) as int]
    &&& forall|x: usize, q: usize|
        x < grid.len() && st.explored[x as int] && !st.queue.contains(x) && q < grid.len()
            && #[trigger] adjacent(x, q, w, h) && grid[q as int] != MazeCellKind::Wall
            ==> st.explored[q as int] && d[q as int] <= d[x as int] + 1
}

/// The depth ranking after visiting the four neighbor candidates of `p`,
/// mirroring `visit_neighbors`.
spec fn visit_rank(
    grid: Seq<MazeCellKind>,
    w: usize,
    h: usize,
    st: BfsState,
    d: Seq<nat>,
    p: usize,
) -> Seq<nat> {
    let c = p as int % w as int;
    let r = p as int / w as int;
    let st1 = if c + 1 < w {
        enq_one(grid, st, p, (p + 1) as usize)
    } else {
        st
    };
    let d1 = if c + 1 < w {
        rank_after(grid, st, d, p, (p + 1) as usize)
    } else {
        d
    };
    let st2 = if c >= 1 {
        enq_one(grid, st1, p, (p - 1) as usize)
    } else {
        st1
    };
    let d2 = if c >= 1 {
        rank_after(grid, st1, d1, p, (p - 1) as usize)
    } else {
        d1
    };
    let st3 = if r + 1 < h {
        enq_one(grid, st2, p, (p + w) as usize)
    } else {
        st2
    };
    let d3 = if r + 1 < h {
        rank_after(grid, st2, d2, p, (p + w) as usize)
    } else {
        d2
    };
    if r >= 1 {
        rank_after(grid, st3, d3, p, (p - w) as usize)
    } else {
        d3
    }
}

/// The invariant bundle during a visit, with the closure clause withheld
/// for the cell `p` being processed.
spec fn bfs_inv_mid(
    grid: Seq<MazeCellKind>,
    w: usize,
    h: usize,
    e: usize,
    st: BfsState,
    d: Seq<nat>,
    p: usize,
) -> bool {
    &&& st.explored.len() == grid.len()
    &&& st.parents.len() == grid.len()
    &&& d.len() == grid.len()
    &&& e < grid.len()
    &&& st.explored[e as int]
    &&& d[e as int] == 0
    &&& parents_stepped(st.parents, st.explored, d)
    &&& p < grid.len()
    &&& st.explored[p as int]
    &&& forall|i: int|
        0 <= i < st.queue.len() ==> (#[trigger] st.queue[i]) < grid.len()
            && st.explored[st.queue[i] as int]
    &&& forall|i: int, j: int|
        0 <= i < j < st.queue.len() ==> (#[trigger] st.queue[i]) != (#[trigger] st.queue[j])
    &&& forall|i: int, j: int|
        0 <= i <= j < st.queue.len() ==> d[(#[trigger] st.queue[i]) as int]
            <= d[(#[trigger] st.queue[j]) as int]
    &&& (st.queue.len() > 0 ==> d[st.queue.last() as int] <= d[p as int] + 1)
    &&& (st.queue.len() > 0 ==> d[p as int] <= d[st.queue[0] as int])
    &&& forall|x: int, j: int|
        0 <= x < grid.len() && (#[trigger] st.explored[x]) && !st.queue.contains(x as usize) && 0
            <= j < st.queue.len() ==> d[x] <= d[(#[trigger] st.queue[j]) as int]
    &&& forall|x: usize, q: usize|
        x < grid.len() && st.explored[x as int] && !st.queue.contains(x) && x != p && q
            < grid.len() && #[trigger] adjacent(x, q, w, h) && grid[q as int]
            != MazeCellKind::Wall ==> st.explored[q as int] && d[q as int] <= d[x as int] + 1
    &&& forall|x: int|
        0 <= x < grid.len() && st.explored[x] && !st.queue.contains(x as usize) && x != p
            ==> d[x] <= d[p as int]
}

/// One neighbor visit keeps the mid-visit invariant, settles the candidate
/// within one level of `p`, and leaves the ranking of explored cells alone.
proof fn lemma_bfs_inv_enq(
    grid: Seq<MazeCellKind>,
    w: usize,
    h: usize,
    e: usize,
    st: BfsState,
    d: Seq<nat>,
    p: usize,
    q: usize,
)
    requires
        bfs_inv_mid(grid, w, h, e, st, d, p),
        adjacent(p, q, w, h),
        q < grid.len(),
        !st.queue.contains(p),
    ensures
        bfs_inv_mid(grid, w, h, e, enq_one(grid, st, p, q), rank_after(grid, st, d, p, q), p),
        grid[q as int] != MazeCellKind::Wall ==> enq_one(grid, st, p, q).explored[q as int]
            && rank_after(grid, st, d, p, q)[q as int] <= d[p as int] + 1,
        forall|x: int|
            0 <= x < grid.len() && st.explored[x] ==> enq_one(grid, st, p, q).explored[x]
                && rank_after(grid, st, d, p, q)[x] == d[x],
        !enq_one(grid, st, p, q).queue.contains(p),
{
    let st2 = enq_one(grid, st, p, q);
    let d2 = rank_after(grid, st, d, p, q);
    if st2 != st {
        assert(!st.explored[q as int]);
        assert(st2.explored =~= st.explored.update(q as int, true));
        assert(d2 =~= d.update(q as int, (d[p as int] + 1) as nat));
        assert(st2.queue =~= st.queue.push(q));
        // the new cell joins the queue, so no closure duty falls on it
        assert(st2.queue.contains(q)) by {
            assert(st2.queue[st.queue.len() as int] == q);
        }
        assert forall|x: usize| st.queue.contains(x) implies st2.queue.contains(x) by {
            let i = choose|i: int| 0 <= i < st.queue.len() && st.queue[i] == x;
            assert(st2.queue[i] == x);
        }
        assert forall|x: usize| x != q && st2.queue.contains(x) implies st.queue.contains(
            x,
        ) by {
            let i = choose|i: int| 0 <= i < st2.queue.len() && st2.queue[i] == x;
            assert(i < st.queue.len());
            assert(st.queue[i] == x);
        }
        assert(!st2.queue.contains(p));
        // the pushed cell was unexplored, so it is new to the queue
        assert forall|i: int, j: int|
            0 <= i < j < st2.queue.len() implies (#[trigger] st2.queue[i]) != (
        #[trigger] st2.queue[j]) by {
            if j == st.queue.len() {
                assert(st2.queue[i] == st.queue[i]);
                assert(st.explored[st.queue[i] as int]);
            } else {
                assert(st2.queue[i] == st.queue[i] && st2.queue[j] == st.queue[j]);
            }
        }
        // sortedness: the pushed depth tops the old queue
        assert forall|i: int, j: int|
            0 <= i <= j < st2.queue.len() implies d2[(#[trigger] st2.queue[i]) as int] <= d2[(
        #[trigger] st2.queue[j]) as int] by {
            if j < st.queue.len() {
                assert(st2.queue[i] == st.queue[i] && st2.queue[j] == st.queue[j]);
                assert(st.explored[st.queue[i] as int] && st.explored[st.queue[j] as int]);
            } else {
                assert(st2.queue[j] == q);
                if i < st.queue.len() {
                    assert(st2.queue[i] == st.queue[i]);
                    assert(d[st.queue[i] as int] <= d[st.queue.last() as int]);
                }
            }
        }
        // closure duties of settled cells are untouched: their neighbors
        // were already explored, so their ranks are unchanged
        assert forall|x: usize, qq: usize|
            x < grid.len() && st2.explored[x as int] && !st2.queue.contains(x) && x != p && qq
                < grid.len() && #[trigger] adjacent(x, qq, w, h) && grid[qq as int]
                != MazeCellKind::Wall implies st2.explored[qq as int] && d2[qq as int] <= d2[
        x as int] + 1 by {
            assert(x != q);
            assert(st.explored[x as int]);
            assert(!st.queue.contains(x));
            assert(st.explored[qq as int] && d[qq as int] <= d[x as int] + 1);
            assert(qq != q);
        }
    }
}


/// Dequeuing the front cell and visiting its neighbors carries the search
/// invariant from one state of the run to the next.
#[verifier::rlimit(100)]
proof fn lemma_bfs_inv_step(
    grid: Seq<MazeCellKind>,
    w: usize,
    h: usize,
    e: usize,
    st: BfsState,
    d: Seq<nat>,
)
    requires
        bfs_inv(grid, w, h, e, st, d),
        st.queue.len() > 0,
        w >= 1,
        h >= 1,
        grid.len() == w * h,
        grid.len() <= usize::MAX,
    ensures
        bfs_inv(
            grid,
            w,
            h,
            e,
            visit_neighbors(grid, w, h, dequeue(st), st.queue[0]),
            visit_rank(grid, w, h, dequeue(st), d, st.queue[0]),
        ),
{
    let p = st.queue[0];
    let st0 = dequeue(st);
    lemma_neighbor_positions(p, w, h, grid.len() as int);

    // after the dequeue the front cell owes its closure, nothing else
    assert forall|x: usize| st0.queue.contains(x) implies st.queue.contains(x) by {
        let i = choose|i: int| 0 <= i < st0.queue.len() && st0.queue[i] == x;
        assert(st.queue[i + 1] == x);
    }
    assert(!st0.queue.contains(p));
    assert forall|x: usize| x != p && st.queue.contains(x) implies st0.queue.contains(x) by {
        let i = choose|i: int| 0 <= i < st.queue.len() && st.queue[i] == x;
        assert(i > 0);
        assert(st0.queue[i - 1] == x);
    }
    assert(st0.queue.len() == st.queue.len() - 1);
    assert(forall|i: int| 0 <= i < st0.queue.len() ==> (#[trigger] st0.queue[i]) == st.queue[i + 1]);
    if st0.queue.len() > 0 {
        assert(st0.queue.last() == st.queue.last());
        assert(st0.queue[0] == st.queue[1]);
        assert(d[p as int] <= d[st.queue[1] as int]);
    }
    assert forall|x: int, j: int|
        0 <= x < grid.len() && (#[trigger] st0.explored[x]) && !st0.queue.contains(x as usize)
            && 0 <= j < st0.queue.len() implies d[x] <= d[(#[trigger] st0.queue[j]) as int] by {
        assert(st0.queue[j] == st.queue[j + 1]);
        if x as usize == p {
            assert(d[st.queue[0] as int] <= d[st.queue[j + 1] as int]);
        } else {
            assert(!st.queue.contains(x as usize));
            assert(d[x] <= d[st.queue[j + 1] as int]);
        }
    }
    assert forall|x: int|
        0 <= x < grid.len() && st0.explored[x] && !st0.queue.contains(x as usize) && x
            != p as int implies d[x] <= d[p as int] by {
        assert(!st.queue.contains(x as usize));
        assert(d[x] <= d[st.queue[0] as int]);
    }
    assert(bfs_inv_mid(grid, w, h, e, st0, d, p));

    let c = p as int % w as int;
    let r = p as int / w as int;
    let q1 = (p + 1) as usize;
    let q2 = (p - 1) as usize;
    let q3 = (p + w) as usize;
    let q4 = (p - w) as usize;
    let st1 = if c + 1 < w {
        enq_one(grid, st0, p, q1)
    } else {
        st0
    };
    let d1 = if c + 1 < w {
        rank_after(grid, st0, d, p, q1)
    } else {
        d
    };
    let st2 = if c >= 1 {
        enq_one(grid, st1, p, q2)
    } else {
        st1
    };
    let d2 = if c >= 1 {
        rank_after(grid, st1, d1, p, q2)
    } else {
        d1
    };
    let st3 = if r + 1 < h {
        enq_one(grid, st2, p, q3)
    } else {
        st2
    };
    let d3 = if r + 1 < h {
        rank_after(grid, st2, d2, p, q3)
    } else {
        d2
    };
    let st4 = if r >= 1 {
        enq_one(grid, st3, p, q4)
    } else {
        st3
    };
    let d4 = if r >= 1 {
        rank_after(grid, st3, d3, p, q4)
    } else {
        d3
    };
    if c + 1 < w {
        lemma_bfs_inv_enq(grid, w, h, e, st0, d, p, q1);
    }
    if c >= 1 {
        lemma_bfs_inv_enq(grid, w, h, e, st1, d1, p, q2);
    }
    if r + 1 < h {
        lemma_bfs_inv_enq(grid, w, h, e, st2, d2, p, q3);
    }
    if r >= 1 {
        lemma_bfs_inv_enq(grid, w, h, e, st3, d3, p, q4);
    }
    assert(st4 == visit_neighbors(grid, w, h, st0, p));
    assert(d4 == visit_rank(grid, w, h, st0, d, p));
    assert(bfs_inv_mid(grid, w, h, e, st4, d4, p));
    assert(d4[p as int] == d[p as int]);

    // the dequeued cell has met its closure duty: each of its non-wall
    // neighbors is now explored within one more level
    assert forall|q: usize|
        q < grid.len() && #[trigger] adjacent(p, q, w, h) && grid[q as int]
            != MazeCellKind::Wall implies st4.explored[q as int] && d4[q as int] <= d4[p as int]
        + 1 by {
        if c + 1 < w && q as int == p + 1 {
            assert(st1.explored[q as int] && d1[q as int] <= d[p as int] + 1);
        } else if c >= 1 && q as int == p - 1 {
            assert(st2.explored[q as int] && d2[q as int] <= d1[p as int] + 1);
        } else if r + 1 < h && q as int == p + w {
            assert(st3.explored[q as int] && d3[q as int] <= d2[p as int] + 1);
        } else {
            assert(r >= 1 && q as int == p - w);
            assert(st4.explored[q as int] && d4[q as int] <= d3[p as int] + 1);
        }
    }

    // every cell off the final queue either settled earlier or is `p`
    assert forall|x: usize, q: usize|
        x < grid.len() && st4.explored[x as int] && !st4.queue.contains(x) && q < grid.len()
            && #[trigger] adjacent(x, q, w, h) && grid[q as int] != MazeCellKind::Wall implies
        st4.explored[q as int] && d4[q as int] <= d4[x as int] + 1 by {
        if x != p {
            assert(st4.explored[q as int] && d4[q as int] <= d4[x as int] + 1);
        }
    }

    // queued depths stay within one level of the new front
    assert forall|x: int, j: int|
        0 <= x < grid.len() && (#[trigger] st4.explored[x]) && !st4.queue.contains(x as usize)
            && 0 <= j < st4.queue.len() implies d4[x] <= d4[(#[trigger] st4.queue[j]) as int] by {
        assert(d4[st4.queue[0] as int] <= d4[st4.queue[j] as int]);
        if x == p {
            assert(d4[x] <= d4[st4.queue[0] as int]);
        } else {
            assert(d4[x] <= d4[p as int]);
        }
    }
}


/// At any mid-run state, a walk from the entrance shorter than the front
/// cell's depth ends in a cell already explored at a depth at most the
/// walk's edge count.
proof fn lemma_walk_depth_bound(
    grid: Seq<MazeCellKind>,
    w: usize,
    h: usize,
    e: usize,
    st: BfsState,
    d: Seq<nat>,
    s: Seq<usize>,
    x: usize,
)
    requires
        bfs_inv(grid, w, h, e, st, d),
        st.queue.len() > 0,
        is_walk(grid, w, h, s, e, x),
        s.len() <= d[st.queue[0] as int],
    ensures
        st.explored[x as int],
        d[x as int] <= s.len() - 1,
    decreases s.len(),
{
    if s.len() == 1 {
        assert(x == e);
    } else {
        let s1 = s.drop_last();
        let prev = s[s.len() - 2];
        assert(s1.last() == prev);
        assert(is_walk(grid, w, h, s1, e, prev));
        lemma_walk_depth_bound(grid, w, h, e, st, d, s1, prev);
        assert(!st.queue.contains(prev)) by {
            if st.queue.contains(prev) {
                let j = choose|j: int| 0 <= j < st.queue.len() && st.queue[j] == prev;
                assert(d[st.queue[0] as int] <= d[st.queue[j] as int]);
            }
        }
        assert(s[s.len() - 1] == x);
        assert(adjacent(s[s.len() - 2], s[s.len() - 2 + 1], w, h));
        assert(adjacent(prev, x, w, h));
        assert(st.explored[x as int] && d[x as int] <= d[prev as int] + 1);
    }
}

/// Exact parent depths without reference to the explored set: each recorded
/// edge steps down exactly one level.
spec fn depth_consistent(parents: Seq<Option<usize>>, d: Seq<nat>) -> bool {
    &&& d.len() == parents.len()
    &&& forall|x: int|
        0 <= x < parents.len() ==> ((#[trigger] parents[x]) matches Some(q) ==> q < parents.len()
            && d[x] == d[q as int] + 1)
}

/// A depth witness for a finished search: the parent table steps down one
/// level per edge from depth zero at the entrance, and every walk from the
/// entrance to the discovered exit has more cells than the exit's depth.
spec fn bfs_depth_witness(
    grid: Seq<MazeCellKind>,
    w: usize,
    h: usize,
    e: usize,
    parents: Seq<Option<usize>>,
    leaf: usize,
    d: Seq<nat>,
) -> bool {
    &&& parents.len() == grid.len()
    &&& d.len() == grid.len()
    &&& leaf < grid.len()
    &&& e < grid.len()
    &&& d[e as int] == 0
    &&& depth_consistent(parents, d)
    &&& forall|s: Seq<usize>| is_walk(grid, w, h, s, e, leaf) ==> s.len() > d[leaf as int]
}

/// A finished run that found an exit leaves a depth witness behind.
proof fn lemma_bfs_run_depth(
    grid: Seq<MazeCellKind>,
    w: usize,
    h: usize,
    e: usize,
    st: BfsState,
    d: Seq<nat>,
) -> (d2: Seq<nat>)
    requires
        bfs_inv(grid, w, h, e, st, d),
        w >= 1,
        h >= 1,
        grid.len() == w * h,
        grid.len() <= usize::MAX,
    ensures
        match bfs_run(grid, w, h, st) {
            Some(res) => bfs_depth_witness(grid, w, h, e, res.0, res.1, d2),
            None => true,
        },
    decreases count_unexplored(st.explored), st.queue.len(),
{
    if st.queue.len() > 0 {
        let p = st.queue[0];
        if p < grid.len() && grid[p as int] == MazeCellKind::Exit {
            assert(bfs_run(grid, w, h, st) == Some((st.parents, p)));
            assert forall|s: Seq<usize>|
                is_walk(grid, w, h, s, e, p) implies s.len() > d[p as int] by {
                if s.len() <= d[p as int] {
                    lemma_walk_depth_bound(grid, w, h, e, st, d, s, p);
                }
            }
            assert(bfs_depth_witness(grid, w, h, e, st.parents, p, d));
            d
        } else {
            lemma_bfs_inv_step(grid, w, h, e, st, d);
            lemma_visit_neighbors_progress(grid, w, h, dequeue(st), p);
            let d2 = lemma_bfs_run_depth(
                grid,
                w,
                h,
                e,
                visit_neighbors(grid, w, h, dequeue(st), p),
                visit_rank(grid, w, h, dequeue(st), d, p),
            );
            assert(bfs_run(grid, w, h, st) == bfs_run(
                grid,
                w,
                h,
                visit_neighbors(grid, w, h, dequeue(st), p),
            ));
            d2
        }
    } else {
        d
    }
}

/// Along a root-first parent chain the depth witness counts up from the
/// root, one level per cell.
proof fn lemma_chain_depth(parents: Seq<Option<usize>>, d: Seq<nat>, cells: Seq<usize>, k: int)
    requires
        depth_consistent(parents, d),
        cells.len() >= 1,
        forall|i: int| 0 <= i < cells.len() ==> (#[trigger] cells[i]) < parents.len(),
        forall|i: int|
            0 <= i < cells.len() - 1 ==> parents[(#[trigger] cells[i + 1]) as int] == Some(
                cells[i],
            ),
        0 <= k < cells.len(),
    ensures
        d[cells[k] as int] == d[cells[0] as int] + k,
    decreases k,
{
    if k > 0 {
        lemma_chain_depth(parents, d, cells, k - 1);
        assert(parents[(cells[k - 1 + 1]) as int] == Some(cells[k - 1]));
        assert(d[cells[k] as int] == d[cells[k - 1] as int] + 1);
    }
}

/// Law: the reconstructed path is shortest — no walk of the grid from the
/// entrance to the discovered exit has fewer cells (fewer orthogonal moves)
/// than the breadth-first parent chain.
pub proof fn lemma_search_path_minimal(
    grid: Seq<MazeCellKind>,
    w: usize,
    h: usize,
    e: usize,
    parents: Seq<Option<usize>>,
    leaf: usize,
    cells: Seq<usize>,
    s: Seq<usize>,
)
    requires
        w >= 1,
        h >= 1,
        grid.len() == w * h,
        grid.len() <= usize::MAX,
        e < grid.len(),
        bfs_spec(grid, w, h, e) == Some((parents, leaf)),
        cells.len() >= 1,
        cells[0] == e,
        cells.last() == leaf,
        forall|i: int| 0 <= i < cells.len() ==> (#[trigger] cells[i]) < parents.len(),
        forall|i: int|
            0 <= i < cells.len() - 1 ==> parents[(#[trigger] cells[i + 1]) as int] == Some(
                cells[i],
            ),
        is_walk(grid, w, h, s, e, leaf),
    ensures
        s.len() >= cells.len(),
{
    let st0 = init_state(grid.len(), e);
    let d0 = Seq::new(grid.len(), |i: int| 0nat);
    assert(st0.queue[0] == e);
    assert(st0.queue.contains(e));
    assert(bfs_inv(grid, w, h, e, st0, d0));
    let d2 = lemma_bfs_run_depth(grid, w, h, e, st0, d0);
    assert(bfs_depth_witness(grid, w, h, e, parents, leaf, d2));
    lemma_chain_depth(parents, d2, cells, cells.len() - 1);
    assert(d2[leaf as int] == cells.len() - 1);
    assert(s.len() > d2[leaf as int]);
}

/// A set of cells that contains the start of a walk and is closed under
/// stepping to adjacent non-wall cells contains the walk's end.
proof fn lemma_walk_stays_explored(
    grid: Seq<MazeCellKind>,
    w: usize,
    h: usize,
    explored: Seq<bool>,
    s: Seq<usize>,
    from: usize,
    to: usize,
)
    requires
        is_walk(grid, w, h, s, from, to),
        explored.len() == grid.len(),
        from < grid.len(),
        explored[from as int],
        forall|p: usize, q: usize|
            p < grid.len() && q < grid.len() && explored[p as int] && #[trigger] adjacent(
                p,
                q,
                w,
                h,
            ) && grid[q as int] != MazeCellKind::Wall ==> explored[q as int],
    ensures
        explored[to as int],
    decreases s.len(),
{
    if s.len() == 1 {
        assert(to == from);
    } else {
        let s1 = s.drop_last();
        let prev = s[s.len() - 2];
        assert(s1.last() == prev);
        assert(is_walk(grid, w, h, s1, from, prev));
        lemma_walk_stays_explored(grid, w, h, explored, s1, from, prev);
        assert(s[s.len() - 1] == to);
        assert(adjacent(s[s.len() - 2], s[s.len() - 2 + 1], w, h));
        assert(adjacent(prev, to, w, h));
    }
}

} // verus!
