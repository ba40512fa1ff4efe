//! The search engine: grid storage, the A* loop, and path reconstruction.

use vstd::prelude::*;

use crate::frontier::Entry;
use crate::frontier::Frontier;
use crate::frontier::key_le;

verus! {

/// Errors reported by the engine.
///
/// An unreachable goal is not an error: it is the empty path.
#[derive(Clone, Copy, Debug, PartialEq, Eq, Structural)]
pub enum MazeError {
    /// `load` was given a malformed grid: empty, jagged rows, or a cell
    /// value outside {0, 1}.
    InvalidGrid,
    /// `search` was called before any successful `load`.
    NotLoaded,
}

/// Two cells are orthogonally adjacent: they differ by exactly one in
/// exactly one coordinate.
pub open spec fn adjacent(a: (usize, usize), b: (usize, usize)) -> bool {
    ||| (a.0 == b.0 && (a.1 + 1 == b.1 || b.1 + 1 == a.1))
    ||| (a.1 == b.1 && (a.0 + 1 == b.0 || b.0 + 1 == a.0))
}

/// The Manhattan distance between two cells, as a mathematical value.
pub open spec fn manhattan(a: (usize, usize), b: (usize, usize)) -> int {
    (if a.0 >= b.0 { a.0 - b.0 } else { b.0 - a.0 }) + (if a.1 >= b.1 {
        a.1 - b.1
    } else {
        b.1 - a.1
    })
}

/// The Manhattan distance `|dr| + |dc|`: the admissible heuristic used
/// by the search (it never overestimates the true remaining cost on a
/// 4-directional unit-cost grid).
pub fn manhattan_distance(a: (usize, usize), b: (usize, usize)) -> (r: u128)
    ensures
        r == manhattan(a, b),
{
    let dr: u128 = if a.0 >= b.0 {
        (a.0 - b.0) as u128
    } else {
        (b.0 - a.0) as u128
    };
    let dc: u128 = if a.1 >= b.1 {
        (a.1 - b.1) as u128
    } else {
        (b.1 - a.1) as u128
    };
    dr + dc
}

/// A well-formed grid input: non-empty, rectangular, every cell 0 or 1.
pub open spec fn rows_valid(rows: Seq<Seq<u8>>) -> bool {
    &&& rows.len() > 0
    &&& forall|i: int| 0 <= i < rows.len() ==> (#[trigger] rows[i]).len() == rows[0].len()
    &&& forall|i: int, j: int|
        0 <= i < rows.len() && 0 <= j < rows[i].len() ==> #[trigger] rows[i][j] <= 1
}

/// The search engine: owns the loaded grid and the per-search scratch
/// buffers (visitation marks, best-known costs, backpointers), which are
/// reset at the start of every search.
pub struct MazeSolver {
    loaded: bool,
    width: usize,
    height: usize,
    data: Vec<u8>,
    visited: Vec<u8>,
    parent: Vec<usize>,
    cost: Vec<usize>,
}

impl MazeSolver {
    /// Structural well-formedness: the flat buffers all cover the grid.
    pub closed spec fn wf(self) -> bool {
        &&& self.data@.len() == self.height * self.width
        &&& self.visited@.len() == self.data@.len()
        &&& self.parent@.len() == self.data@.len()
        &&& self.cost@.len() == self.data@.len()
        &&& (self.loaded ==> self.height > 0)
        &&& forall|i: int| 0 <= i < self.data@.len() ==> #[trigger] self.data@[i] <= 1
    }

    /// Whether a grid has been successfully loaded.
    pub closed spec fn is_loaded(self) -> bool {
        self.loaded
    }

    pub closed spec fn spec_height(self) -> usize {
        self.height
    }

    pub closed spec fn spec_width(self) -> usize {
        self.width
    }

    /// The passability flag of the cell at `(r, c)`, as stored.
    pub closed spec fn grid_at(self, r: int, c: int) -> u8 {
        self.data@[r * self.width + c]
    }

    /// A cell lies inside the grid.
    pub open spec fn spec_in_bounds(self, cell: (usize, usize)) -> bool {
        cell.0 < self.spec_height() && cell.1 < self.spec_width()
    }

    /// A cell is passable: in bounds and not a wall.
    pub open spec fn spec_passable(self, cell: (usize, usize)) -> bool {
        self.spec_in_bounds(cell) && self.grid_at(cell.0 as int, cell.1 as int) == 1
    }

    /// The cell whose flat buffer index is `i`.
    pub closed spec fn cell_of(self, i: int) -> (usize, usize) {
        ((i / self.width as int) as usize, (i % self.width as int) as usize)
    }

    /// The flat buffer index of a cell.
    pub closed spec fn flat_of(self, c: (usize, usize)) -> int {
        c.0 * self.width + c.1
    }

    /// The grid fields (not the scratch buffers) are identical.
    spec fn grid_eq(self, o: MazeSolver) -> bool {
        &&& self.loaded == o.loaded
        &&& self.height == o.height
        &&& self.width == o.width
        &&& self.data@ == o.data@
    }

    /// The invariant of the per-search bookkeeping, relative to the start
    /// cell's flat index `start`:
    /// every marked cell is passable; marks are the tri-state 0/1/2;
    /// the start is marked with cost 0; every other marked cell has a
    /// closed, adjacent parent one step cheaper; and costs are bounded by
    /// the number of closed cells (so they never overflow the buffer
    /// length).
    #[verifier::opaque]
    spec fn search_inv(self, start: int) -> bool {
        let n = self.data@.len() as int;
        let cc = count_closed(self.visited@);
        &&& 0 <= start < n
        &&& self.visited@[start] != 0
        &&& self.cost@[start] == 0
        &&& forall|i: int| 0 <= i < n ==> #[trigger] self.visited@[i] <= 2
        &&& forall|i: int| 0 <= i < n && #[trigger] self.visited@[i] != 0 ==> self.data@[i] == 1
        &&& forall|i: int|
            0 <= i < n && #[trigger] self.visited@[i] != 0 ==> ((self.visited@[i] == 2
                ==> self.cost@[i] < cc) && (self.visited@[i] == 1 ==> self.cost@[i] <= cc))
        &&& forall|i: int|
            0 <= i < n && #[trigger] self.visited@[i] != 0 && i != start ==> {
                let p = self.parent@[i] as int;
                &&& self.cost@[i] >= 1
                &&& p < n
                &&& self.visited@[p] == 2
                &&& self.cost@[p] + 1 == self.cost@[i]
                &&& adjacent(self.cell_of(p), self.cell_of(i))
            }
    }

    /// Every passable neighbor of the cell at flat index `i` is marked:
    /// the cell has been fully expanded.
    spec fn expanded(self, i: int) -> bool {
        forall|j: int|
            0 <= j < self.data@.len() && self.data@[j] == 1 && adjacent(
                self.cell_of(i),
                #[trigger] self.cell_of(j),
            ) ==> self.visited@[j] != 0
    }

    /// Every passable open neighbor of the closed cell at flat index `i`
    /// has been offered the route through `i`: its cost is at most one
    /// more than `i`'s.
    spec fn relaxed(self, i: int) -> bool {
        forall|j: int|
            0 <= j < self.data@.len() && self.data@[j] == 1 && adjacent(
                self.cell_of(i),
                #[trigger] self.cell_of(j),
            ) && self.visited@[j] == 1 ==> self.cost@[j] <= self.cost@[i] + 1
    }

    /// The recorded cost of the cell at flat index `i` is optimal: no
    /// route from `s_cell` to it has fewer edges.
    spec fn settled(self, s_cell: (usize, usize), i: int) -> bool {
        forall|q: Seq<(usize, usize)>|
            self.is_path(q, s_cell, self.cell_of(i)) ==> q.len() - 1 >= self.cost@[i]
    }

    /// The grid part of the state (not the scratch buffers) is the same.
    pub open spec fn same_grid(self, other: MazeSolver) -> bool {
        &&& self.is_loaded() == other.is_loaded()
        &&& self.spec_height() == other.spec_height()
        &&& self.spec_width() == other.spec_width()
        &&& forall|r: int, c: int|
            0 <= r < self.spec_height() && 0 <= c < self.spec_width() ==> self.grid_at(r, c)
                == other.grid_at(r, c)
    }

    /// `p` is a valid route from `s` to `g` on this grid: non-empty,
    /// starts at `s`, ends at `g`, every cell passable, every step
    /// orthogonal.
    pub open spec fn is_path(self, p: Seq<(usize, usize)>, s: (usize, usize), g: (usize, usize)) -> bool {
        &&& p.len() >= 1
        &&& p[0] == s
        &&& p[p.len() - 1] == g
        &&& forall|i: int| 0 <= i < p.len() ==> self.spec_passable(#[trigger] p[i])
        &&& forall|i: int| 0 <= i < p.len() - 1 ==> adjacent(#[trigger] p[i], p[i + 1])
    }

    /// `s` and `g` are connected by passable orthogonal moves.
    pub open spec fn connected(self, s: (usize, usize), g: (usize, usize)) -> bool {
        exists|p: Seq<(usize, usize)>| self.is_path(p, s, g)
    }

    /// A fresh engine with no grid loaded.
    pub fn new() -> (r: MazeSolver)
        ensures
            r.wf(),
            !r.is_loaded(),
            r.spec_height() == 0,
            r.spec_width() == 0,
    {
        MazeSolver {
            loaded: false,
            width: 0,
            height: 0,
            data: Vec::new(),
            visited: Vec::new(),
            parent: Vec::new(),
            cost: Vec::new(),
        }
    }

    /// Replaces the grid. Fails with `InvalidGrid` when `rows` is empty,
    /// jagged, or holds a value outside {0, 1} (0 = wall, 1 = passable);
    /// it also fails, rather than overflowing the flat buffer index, on a
    /// grid whose cell count exceeds `usize::MAX` (such a grid cannot fit
    /// in memory). On failure the previously loaded grid is untouched.
    pub fn load(&mut self, rows: Vec<Vec<u8>>) -> (r: Result<(), MazeError>)
        requires
            old(self).wf(),
        ensures
            final(self).wf(),
            r is Ok <==> (rows_valid(rows.deep_view()) && rows.deep_view().len()
                * rows.deep_view()[0].len() <= usize::MAX),
            r is Err ==> r == Err::<(), MazeError>(MazeError::InvalidGrid) && *final(self)
                == *old(self),
            r is Ok ==> final(self).is_loaded() && final(self).spec_height()
                == rows.deep_view().len() && final(self).spec_width()
                == rows.deep_view()[0].len() && forall|rr: int, cc: int|
                0 <= rr < rows.deep_view().len() && 0 <= cc < rows.deep_view()[0].len()
                    ==> final(self).grid_at(rr, cc) == rows.deep_view()[rr][cc],
    {
        let ghost dv = rows.deep_view();
        proof {
            assert forall|i: int| 0 <= i < dv.len() implies dv[i] =~= rows@[i]@ by {}
        }
        let h = rows.len();
        if h == 0 {
            return Err(MazeError::InvalidGrid);
        }
        let w = rows[0].len();
        let mut i: usize = 0;
        while i < h
            invariant
                self.wf(),
                h == rows@.len(),
                dv == rows.deep_view(),
                dv.len() == h,
                forall|r: int| 0 <= r < dv.len() ==> #[trigger] dv[r] =~= rows@[r]@,
                w == dv[0].len(),
                forall|r: int| 0 <= r < i ==> (#[trigger] dv[r]).len() == w,
                forall|r: int, c: int|
                    0 <= r < i && 0 <= c < dv[r].len() ==> #[trigger] dv[r][c] <= 1,
            decreases h - i,
        {
            if rows[i].len() != w {
                proof {
                    assert(dv[i as int].len() != dv[0].len());
                }
                return Err(MazeError::InvalidGrid);
            }
            let mut j: usize = 0;
            while j < w
                invariant
                    self.wf(),
                    h == rows@.len(),
                    dv == rows.deep_view(),
                    dv.len() == h,
                    i < h,
                    forall|r: int| 0 <= r < dv.len() ==> #[trigger] dv[r] =~= rows@[r]@,
                    dv[i as int].len() == w,
                    forall|c: int| 0 <= c < j ==> #[trigger] dv[i as int][c] <= 1,
                decreases w - j,
            {
                if rows[i][j] > 1 {
                    proof {
                        assert(dv[i as int][j as int] > 1);
                    }
                    return Err(MazeError::InvalidGrid);
                }
                j += 1;
            }
            i += 1;
        }
        // The input is well formed; flatten it row-major into a new buffer.
        let mut data: Vec<u8> = Vec::new();
        let mut r: usize = 0;
        while r < h
            invariant
                h == rows@.len(),
                dv == rows.deep_view(),
                dv.len() == h,
                forall|q: int| 0 <= q < dv.len() ==> #[trigger] dv[q] =~= rows@[q]@,
                forall|q: int| 0 <= q < dv.len() ==> (#[trigger] dv[q]).len() == w,
                forall|q: int, c: int| 0 <= q < dv.len() && 0 <= c < w ==> #[trigger] dv[q][c] <= 1,
                r <= h,
                data@.len() == r * w,
                forall|q: int, c: int|
                    0 <= q < r && 0 <= c < w ==> data@[q * w + c] == #[trigger] dv[q][c],
            decreases h - r,
        {
            let mut c: usize = 0;
            proof {
                lemma_row_step(r as int, w as int);
            }
            while c < w
                invariant
                    h == rows@.len(),
                    dv == rows.deep_view(),
                    dv.len() == h,
                    forall|q: int| 0 <= q < dv.len() ==> #[trigger] dv[q] =~= rows@[q]@,
                    forall|q: int| 0 <= q < dv.len() ==> (#[trigger] dv[q]).len() == w,
                    forall|q: int, c2: int|
                        0 <= q < dv.len() && 0 <= c2 < w ==> #[trigger] dv[q][c2] <= 1,
                    r < h,
                    c <= w,
                    data@.len() == r * w + c,
                    forall|q: int, c2: int|
                        0 <= q < r && 0 <= c2 < w ==> data@[q * w + c2] == #[trigger] dv[q][c2],
                    forall|c2: int| 0 <= c2 < c ==> data@[r * w + c2] == #[trigger] dv[r as int][c2],
                decreases w - c,
            {
                proof {
                    assert(dv[r as int] =~= rows@[r as int]@);
                    assert(dv[r as int].len() == w);
                }
                data.push(rows[r][c]);
                proof {
                    assert forall|q: int, c2: int| 0 <= q < r && 0 <= c2 < w implies data@[q * w
                        + c2] == #[trigger] dv[q][c2] by {
                        lemma_index_in_range(r as int, w as int, q, c2);
                    }
                }
                c += 1;
            }
            proof {
                assert forall|q: int, c2: int| 0 <= q < r + 1 && 0 <= c2 < w implies data@[q * w
                    + c2] == #[trigger] dv[q][c2] by {
                    if q < r {
                        lemma_index_in_range(r as int, w as int, q, c2);
                    }
                }
            }
            r += 1;
        }
        let size = data.len();
        proof {
            assert forall|ix: int| 0 <= ix < data@.len() implies #[trigger] data@[ix] <= 1 by {
                lemma_flat_decompose(h as int, w as int, ix);
                assert(dv[ix / (w as int)][ix % (w as int)] <= 1);
                assert(data@[(ix / (w as int)) * (w as int) + ix % (w as int)] == dv[ix / (
                w as int)][ix % (w as int)]);
            }
        }
        let mut visited: Vec<u8> = Vec::new();
        let mut parent: Vec<usize> = Vec::new();
        let mut cost: Vec<usize> = Vec::new();
        let mut k: usize = 0;
        while k < size
            invariant
                k <= size,
                visited@.len() == k,
                parent@.len() == k,
                cost@.len() == k,
            decreases size - k,
        {
            visited.push(0);
            parent.push(0);
            cost.push(0);
            k += 1;
        }
        self.loaded = true;
        self.height = h;
        self.width = w;
        self.data = data;
        self.visited = visited;
        self.parent = parent;
        self.cost = cost;
        Ok(())
    }

    /// Runs an A* search with the Manhattan heuristic from `start` to
    /// `goal` over the loaded grid.
    ///
    /// Returns a shortest route of orthogonally adjacent passable cells
    /// from `start` to `goal` inclusive — no valid route has fewer cells,
    /// and the route visits no cell twice; the single-cell route when
    /// `start == goal`; or the empty route when `start` or `goal` is out
    /// of bounds or impassable, or when no route exists. An unreachable
    /// goal is a normal empty result, never an error; `NotLoaded` is
    /// returned exactly when no grid has been successfully loaded.
    /// Ties among equally short routes are broken deterministically
    /// (by frontier key, then cell index), so repeated calls agree.
    #[verifier::rlimit(100)]
    pub fn search(&mut self, start: (usize, usize), goal: (usize, usize)) -> (r: Result<
        Vec<(usize, usize)>,
        MazeError,
    >)
        requires
            old(self).wf(),
        ensures
            final(self).wf(),
            final(self).same_grid(*old(self)),
            r is Err <==> !old(self).is_loaded(),
            r is Err ==> r == Err::<Vec<(usize, usize)>, MazeError>(MazeError::NotLoaded),
            r matches Ok(p) ==> ((!old(self).spec_passable(start) || !old(self).spec_passable(
                goal,
            )) ==> p@.len() == 0),
            r matches Ok(p) ==> (p@.len() > 0 ==> old(self).is_path(p@, start, goal)),
            r matches Ok(p) ==> (p@.len() > 0 <==> old(self).connected(start, goal)),
            r matches Ok(p) ==> ((old(self).spec_passable(start) && start == goal) ==> p@
                =~= seq![start]),
            r matches Ok(p) ==> (p@.len() > 0 ==> forall|q: Seq<(usize, usize)>|
                old(self).is_path(q, start, goal) ==> p@.len() <= q.len()),
            r matches Ok(p) ==> forall|t1: int, t2: int|
                0 <= t1 < t2 < p@.len() ==> #[trigger] p@[t1] != #[trigger] p@[t2],
    {
        if !self.loaded {
            return Err(MazeError::NotLoaded);
        }
        if !self.is_passable(start) || !self.is_passable(goal) {
            proof {
                assert(!old(self).connected(start, goal)) by {
                    if old(self).connected(start, goal) {
                        let pw = choose|pw: Seq<(usize, usize)>|
                            old(self).is_path(pw, start, goal);
                        assert(old(self).spec_passable(pw[0]));
                        assert(old(self).spec_passable(pw[pw.len() - 1]));
                    }
                }
            }
            return Ok(Vec::new());
        }
        if start.0 == goal.0 && start.1 == goal.1 {
            let mut p: Vec<(usize, usize)> = Vec::new();
            p.push(start);
            proof {
                assert(p@ =~= seq![start]);
                assert(old(self).is_path(p@, start, goal));
                assert(old(self).connected(start, goal));
                assert forall|q: Seq<(usize, usize)>| old(self).is_path(
                    q,
                    start,
                    goal,
                ) implies p@.len() <= q.len() by {}
            }
            return Ok(p);
        }
        let start_idx = self.index_of(start.0, start.1);
        let goal_idx = self.index_of(goal.0, goal.1);
        proof {
            lemma_flat_compose(
                self.height as int,
                self.width as int,
                start.0 as int,
                start.1 as int,
            );
            lemma_flat_compose(
                self.height as int,
                self.width as int,
                goal.0 as int,
                goal.1 as int,
            );
            assert(self.cell_of(start_idx as int) == start);
            assert(self.cell_of(goal_idx as int) == goal);
            assert(start_idx != goal_idx);
        }
        self.reset_scratch();
        let n = self.data.len();
        self.visited.set(start_idx, 1);
        proof {
            reveal(MazeSolver::search_inv);
            lemma_count_closed_zero(self.visited@);
            assert(self.search_inv(start_idx as int));
        }
        let mut fr = Frontier::new();
        let first = Entry { f: manhattan_distance(start, goal), idx: start_idx };
        fr.push(first);
        proof {
            assert forall|i: int|
                0 <= i < n && #[trigger] self.visited@[i] == 1 implies exists|x: Entry|
                fr@.contains(x) && x.idx as int == i && x.f == self.cost@[i] + manhattan(
                    self.cell_of(i),
                    goal,
                ) by {
                assert(i == start_idx as int);
                assert(self.cost@[i] == 0);
                assert(fr@.contains(first) && first.idx as int == i && first.f == self.cost@[i]
                    + manhattan(self.cell_of(i), goal));
            }
            assert forall|i: int| 0 <= i < n implies #[trigger] self.visited@[i] != 2 by {}
        }
        while fr.len() > 0
            invariant
                self.wf(),
                fr.wf(),
                self.grid_eq(*old(self)),
                n == self.data@.len(),
                self.is_loaded(),
                start_idx < n,
                goal_idx < n,
                start_idx != goal_idx,
                start != goal,
                self.spec_passable(start),
                self.spec_passable(goal),
                self.cell_of(start_idx as int) == start,
                self.cell_of(goal_idx as int) == goal,
                self.flat_of(start) == start_idx,
                self.flat_of(goal) == goal_idx,
                self.search_inv(start_idx as int),
                count_closed(self.visited@) <= n,
                forall|x: Entry| fr@.contains(x) ==> x.idx < n && self.visited@[x.idx as int] != 0,
                forall|x: Entry|
                    fr@.contains(x) ==> x.f >= self.cost@[x.idx as int] + manhattan(
                        self.cell_of(x.idx as int),
                        goal,
                    ),
                self.visited@[goal_idx as int] != 2,
                forall|i: int| 0 <= i < n && #[trigger] self.visited@[i] == 2 ==> self.expanded(i),
                forall|i: int| 0 <= i < n && #[trigger] self.visited@[i] == 2 ==> self.relaxed(i),
                forall|i: int|
                    0 <= i < n && #[trigger] self.visited@[i] == 2 ==> self.settled(start, i),
                forall|i: int|
                    0 <= i < n && #[trigger] self.visited@[i] == 1 ==> exists|x: Entry|
                        fr@.contains(x) && x.idx as int == i && x.f == self.cost@[i] + manhattan(
                            self.cell_of(i),
                            goal,
                        ),
            decreases n - count_closed(self.visited@), fr@.len(),
        {
            let ghost fr0 = fr;
            let e = fr.pop();
            let cur = e.idx;
            if self.visited[cur] == 2 {
                // A stale lazy-deletion entry: this cell was already
                // closed through a cheaper route; skip it.
                proof {
                    assert forall|i: int|
                        0 <= i < n && #[trigger] self.visited@[i] == 1 implies exists|x: Entry|
                        fr@.contains(x) && x.idx as int == i && x.f == self.cost@[i] + manhattan(
                            self.cell_of(i),
                            goal,
                        ) by {
                        let x = choose|x: Entry|
                            fr0@.contains(x) && x.idx as int == i && x.f == self.cost@[i]
                                + manhattan(self.cell_of(i), goal);
                        assert(x != e);
                        assert(fr@.contains(x));
                    }
                }
            } else if cur == goal_idx {
                proof {
                    lemma_flat_compose(
                        self.height as int,
                        self.width as int,
                        start.0 as int,
                        start.1 as int,
                    );
                    lemma_flat_compose(
                        self.height as int,
                        self.width as int,
                        goal.0 as int,
                        goal.1 as int,
                    );
                    assert(self.visited@[start_idx as int] != 0 && self.cost@[start_idx as int]
                        == 0 && forall|i: int| 0 <= i < n ==> #[trigger] self.visited@[i] <= 2) by {
                        reveal(MazeSolver::search_inv);
                    }
                    lemma_popped_settled(*self, fr0@, e, start_idx as int, goal);
                }
                let path = self.reconstruct_path(start, goal, start_idx, goal_idx);
                proof {
                    assert forall|t: int| 0 <= t < path@.len() implies old(self).spec_passable(
                        #[trigger] path@[t],
                    ) by {
                        assert(self.spec_passable(path@[t]));
                    }
                    assert(old(self).is_path(path@, start, goal));
                    assert(old(self).connected(start, goal));
                    assert forall|q: Seq<(usize, usize)>| old(self).is_path(
                        q,
                        start,
                        goal,
                    ) implies path@.len() <= q.len() by {
                        assert(self.is_path(q, start, self.cell_of(goal_idx as int))) by {
                            assert forall|t: int| 0 <= t < q.len() implies self.spec_passable(
                                #[trigger] q[t],
                            ) by {
                                assert(old(self).spec_passable(q[t]));
                            }
                        }
                        assert(q.len() - 1 >= self.cost@[goal_idx as int]);
                    }
                }
                return Ok(path);
            } else {
                let ghost pre_self = *self;
                let ghost pre_fr = fr;
                proof {
                    assert(self.visited@[start_idx as int] != 0 && self.cost@[start_idx as int]
                        == 0 && forall|i: int| 0 <= i < n ==> #[trigger] self.visited@[i] <= 2) by {
                        reveal(MazeSolver::search_inv);
                    }
                    lemma_popped_settled(*self, fr0@, e, start_idx as int, goal);
                }
                self.expand(&mut fr, cur, goal, Ghost(start_idx as int));
                proof {
                    assert forall|i: int|
                        0 <= i < n && #[trigger] self.visited@[i] == 2 implies self.relaxed(
                        i,
                    ) by {
                        if i == cur as int {
                        } else {
                            assert(pre_self.visited@[i] == 2);
                            assert(pre_self.relaxed(i));
                            assert(pre_self.expanded(i));
                            assert forall|j: int|
                                0 <= j < self.data@.len() && self.data@[j] == 1 && adjacent(
                                    self.cell_of(i),
                                    #[trigger] self.cell_of(j),
                                ) && self.visited@[j] == 1 implies self.cost@[j] <= self.cost@[i]
                                + 1 by {
                                assert(pre_self.cell_of(i) == self.cell_of(i));
                                assert(pre_self.cell_of(j) == self.cell_of(j));
                                assert(pre_self.visited@[j] != 0);
                                assert(pre_self.visited@[j] != 2);
                                assert(pre_self.cost@[j] <= pre_self.cost@[i] + 1);
                                assert(self.cost@[j] <= pre_self.cost@[j]);
                                assert(self.cost@[i] == pre_self.cost@[i]);
                            }
                        }
                    }
                    assert forall|i: int|
                        0 <= i < n && #[trigger] self.visited@[i] == 2 implies self.settled(
                        start,
                        i,
                    ) by {
                        assert(pre_self.settled(start, i)) by {
                            if i == cur as int {
                                assert(pre_self.settled(pre_self.cell_of(start_idx as int), i));
                            }
                        }
                        assert(self.cost@[i] == pre_self.cost@[i]);
                        assert forall|q: Seq<(usize, usize)>| self.is_path(
                            q,
                            start,
                            self.cell_of(i),
                        ) implies q.len() - 1 >= self.cost@[i] by {
                            assert(pre_self.cell_of(i) == self.cell_of(i));
                            assert(pre_self.is_path(q, start, pre_self.cell_of(i))) by {
                                assert forall|t: int| 0 <= t < q.len() implies pre_self.spec_passable(
                                    #[trigger] q[t],
                                ) by {
                                    assert(self.spec_passable(q[t]));
                                }
                            }
                        }
                    }
                    assert forall|i: int|
                        0 <= i < n && #[trigger] self.visited@[i] == 2 implies self.expanded(
                        i,
                    ) by {
                        if i != cur as int {
                            assert(pre_self.expanded(i));
                            assert forall|j: int|
                                0 <= j < self.data@.len() && self.data@[j] == 1 && adjacent(
                                    self.cell_of(i),
                                    #[trigger] self.cell_of(j),
                                ) implies self.visited@[j] != 0 by {
                                assert(pre_self.cell_of(i) == self.cell_of(i));
                                assert(pre_self.cell_of(j) == self.cell_of(j));
                                assert(pre_self.visited@[j] != 0);
                            }
                        }
                    }
                    assert forall|i: int|
                        0 <= i < n && #[trigger] self.visited@[i] == 1 implies exists|x: Entry|
                        fr@.contains(x) && x.idx == i by {
                        if pre_self.visited@[i] == 1 {
                            let x = choose|x: Entry| fr0@.contains(x) && x.idx == i;
                            assert(x != e);
                            assert(pre_fr@.contains(x));
                            assert(fr@.contains(x) && x.idx == i);
                        }
                    }
                }
            }
        }
        proof {
            reveal(MazeSolver::search_inv);
            assert forall|i: int| 0 <= i < n implies self.visited@[i] != 1 by {
                if self.visited@[i] == 1 {
                    let x = choose|x: Entry| fr@.contains(x) && x.idx == i;
                    let t = choose|t: int| 0 <= t < fr@.len() && fr@[t] == x;
                    assert(false);
                }
            }
            assert(self.visited@[start_idx as int] == 2);
            assert(!old(self).connected(start, goal)) by {
                if old(self).connected(start, goal) {
                    let pw = choose|pw: Seq<(usize, usize)>| old(self).is_path(pw, start, goal);
                    assert(self.is_path(pw, start, goal)) by {
                        assert forall|t: int| 0 <= t < pw.len() implies self.spec_passable(
                            #[trigger] pw[t],
                        ) by {
                            assert(old(self).spec_passable(pw[t]));
                        }
                    }
                    lemma_route_ends_closed(*self, start_idx as int, goal_idx as int, pw);
                    assert(self.visited@[goal_idx as int] == 2);
                }
            }
        }
        Ok(Vec::new())
    }

    /// Marks the open cell `cur` closed, keeping the bookkeeping
    /// invariant and raising the closed count by exactly one.
    #[verifier::rlimit(100)]
    fn close_cell(&mut self, cur: usize, Ghost(start): Ghost<int>)
        requires
            old(self).wf(),
            old(self).search_inv(start),
            cur < old(self).data@.len(),
            old(self).visited@[cur as int] != 0,
            old(self).visited@[cur as int] != 2,
        ensures
            final(self).wf(),
            final(self).grid_eq(*old(self)),
            final(self).search_inv(start),
            final(self).visited@ == old(self).visited@.update(cur as int, 2),
            final(self).cost@ == old(self).cost@,
            final(self).parent@ == old(self).parent@,
            count_closed(final(self).visited@) == count_closed(old(self).visited@) + 1,
            count_closed(final(self).visited@) <= final(self).data@.len(),
        {
        let ghost pre = self.visited@;
        self.visited.set(cur, 2);
        proof {
            lemma_count_closed_update(pre, cur as int, 2);
            lemma_count_closed_le_len(self.visited@);
            assert(self.search_inv(start)) by {
                reveal(MazeSolver::search_inv);
                let n = self.data@.len() as int;
                let cc0 = count_closed(pre);
                let cc = count_closed(self.visited@);
                assert(cc == cc0 + 1);
                assert forall|i: int|
                    0 <= i < n && #[trigger] self.visited@[i] != 0 implies ((self.visited@[i] == 2
                    ==> self.cost@[i] < cc) && (self.visited@[i] == 1 ==> self.cost@[i] <= cc)) by {
                    assert(pre[i] != 0);
                    if i == cur as int {
                        assert(self.cost@[i] <= cc0);
                    }
                }
                assert forall|i: int|
                    0 <= i < n && #[trigger] self.visited@[i] != 0 && i != start implies {
                    let p = self.parent@[i] as int;
                    &&& self.cost@[i] >= 1
                    &&& p < n
                    &&& self.visited@[p] == 2
                    &&& self.cost@[p] + 1 == self.cost@[i]
                    &&& adjacent(self.cell_of(p), self.cell_of(i))
                } by {
                    assert(pre[i] != 0);
                    assert(pre[self.parent@[i] as int] == 2);
                }
            }
        }
    }

    /// Closes the open cell `cur` and relaxes its four orthogonal
    /// neighbors, in the fixed order +col, +row, -col, -row.
    #[verifier::rlimit(100)]
    fn expand(&mut self, fr: &mut Frontier, cur: usize, goal: (usize, usize), Ghost(
        start,
    ): Ghost<int>)
        requires
            old(self).wf(),
            old(fr).wf(),
            old(self).search_inv(start),
            cur < old(self).data@.len(),
            old(self).visited@[cur as int] != 0,
            old(self).visited@[cur as int] != 2,
            forall|x: Entry|
                old(fr)@.contains(x) ==> x.idx < old(self).data@.len() && old(
                    self).visited@[x.idx as int] != 0,
        ensures
            final(self).wf(),
            final(fr).wf(),
            final(self).grid_eq(*old(self)),
            final(self).search_inv(start),
            count_closed(final(self).visited@) == count_closed(old(self).visited@) + 1,
            count_closed(final(self).visited@) <= final(self).data@.len(),
            forall|x: Entry|
                final(fr)@.contains(x) ==> x.idx < final(self).data@.len() && final(
                    self).visited@[x.idx as int] != 0,
            forall|i: int|
                0 <= i < old(self).data@.len() ==> ((final(self).visited@[i] == 2) <==> (old(
                    self).visited@[i] == 2 || i == cur)),
            forall|i: int|
                0 <= i < old(self).data@.len() && old(self).visited@[i] != 0 ==> final(
                    self).visited@[i] != 0,
            forall|x: Entry| old(fr)@.contains(x) ==> final(fr)@.contains(x),
            final(self).expanded(cur as int),
            final(self).relaxed(cur as int),
            final(self).cost@[cur as int] == old(self).cost@[cur as int],
            forall|i: int|
                0 <= i < old(self).data@.len() && old(self).visited@[i] == 2 ==> final(
                    self).cost@[i] == old(self).cost@[i],
            forall|i: int|
                0 <= i < old(self).data@.len() && old(self).visited@[i] != 0 ==> final(
                    self).cost@[i] <= old(self).cost@[i],
            forall|x: Entry|
                final(fr)@.contains(x) ==> old(fr)@.contains(x) || x.f >= final(
                    self).cost@[x.idx as int] + manhattan(final(self).cell_of(x.idx as int), goal),
            forall|j: int|
                0 <= j < old(self).data@.len() && final(self).visited@[j] == 1 ==> ((old(
                    self).visited@[j] == 1 && final(self).cost@[j] == old(self).cost@[j])
                    || exists|x: Entry|
                    final(fr)@.contains(x) && x.idx as int == j && x.f == final(self).cost@[j]
                        + manhattan(final(self).cell_of(j), goal)),
    {
        self.close_cell(cur, Ghost(start));
        let ccell = self.cell_from_index(cur);
        let cr = ccell.0;
        let ccol = ccell.1;
        if ccol + 1 < self.width {
            self.relax(fr, cur, cr, ccol + 1, goal, Ghost(start));
        }
        if cr + 1 < self.height {
            self.relax(fr, cur, cr + 1, ccol, goal, Ghost(start));
        }
        if ccol > 0 {
            self.relax(fr, cur, cr, ccol - 1, goal, Ghost(start));
        }
        if cr > 0 {
            self.relax(fr, cur, cr - 1, ccol, goal, Ghost(start));
        }
        proof {
            let h = self.height as int;
            let w = self.width as int;
            assert forall|j: int|
                0 <= j < self.data@.len() && self.data@[j] == 1 && adjacent(
                    self.cell_of(cur as int),
                    #[trigger] self.cell_of(j),
                ) implies self.visited@[j] != 0 && (self.visited@[j] == 1 ==> self.cost@[j]
                <= self.cost@[cur as int] + 1) by {
                lemma_flat_decompose(h, w, j);
                let jr = j / w;
                let jc = j % w;
                assert(self.cell_of(j) == (jr as usize, jc as usize));
                if jr == cr && jc == ccol + 1 {
                    assert(cr * w + (ccol + 1) == j);
                } else if jr == cr + 1 && jc == ccol {
                    assert((cr + 1) * w + ccol == j);
                } else if jr == cr && jc + 1 == ccol {
                    assert(cr * w + (ccol - 1) == j);
                } else if jr + 1 == cr && jc == ccol {
                    assert((cr - 1) * w + ccol == j);
                }
            }
        }
    }

    /// Whether `cell` lies inside the loaded grid.
    pub fn in_bounds(&self, cell: (usize, usize)) -> (r: bool)
        ensures
            r == self.spec_in_bounds(cell),
    {
        cell.0 < self.height && cell.1 < self.width
    }

    /// Whether `cell` may be traversed: false when out of bounds or a wall.
    pub fn is_passable(&self, cell: (usize, usize)) -> (r: bool)
        requires
            self.wf(),
        ensures
            r == self.spec_passable(cell),
    {
        if cell.0 < self.height && cell.1 < self.width {
            let idx = self.index_of(cell.0, cell.1);
            self.data[idx] == 1
        } else {
            false
        }
    }

    /// The flat buffer index of in-bounds cell `(r, c)`.
    fn index_of(&self, r: usize, c: usize) -> (idx: usize)
        requires
            self.wf(),
            r < self.spec_height(),
            c < self.spec_width(),
        ensures
            idx == r * self.spec_width() + c,
            idx < self.data@.len(),
    {
        let n = self.data.len();
        proof {
            lemma_index_in_range(self.height as int, self.width as int, r as int, c as int);
            assert(r * self.width + c < n);
        }
        r * self.width + c
    }

    /// The cell of an in-range flat index.
    fn cell_from_index(&self, i: usize) -> (cell: (usize, usize))
        requires
            self.wf(),
            i < self.data@.len(),
        ensures
            cell == self.cell_of(i as int),
            cell.0 < self.spec_height(),
            cell.1 < self.spec_width(),
            i == cell.0 * self.spec_width() + cell.1,
    {
        proof {
            lemma_flat_decompose(self.height as int, self.width as int, i as int);
        }
        (i / self.width, i % self.width)
    }

    /// Resets the visitation marks, costs, and backpointers for a fresh
    /// search.
    fn reset_scratch(&mut self)
        requires
            old(self).wf(),
        ensures
            final(self).wf(),
            final(self).grid_eq(*old(self)),
            forall|i: int| 0 <= i < final(self).visited@.len() ==> final(self).visited@[i] == 0,
            forall|i: int| 0 <= i < final(self).cost@.len() ==> final(self).cost@[i] == 0,
    {
        let n = self.visited.len();
        let mut k: usize = 0;
        while k < n
            invariant
                self.wf(),
                self.grid_eq(*old(self)),
                n == self.visited@.len(),
                k <= n,
                forall|i: int| 0 <= i < k ==> self.visited@[i] == 0,
                forall|i: int| 0 <= i < k ==> self.cost@[i] == 0,
            decreases n - k,
        {
            self.visited.set(k, 0);
            self.cost.set(k, 0);
            self.parent.set(k, 0);
            k += 1;
        }
    }

    /// One A* relaxation step: if the in-bounds neighbor `(nr, nc)` of the
    /// just-closed cell `cur` is passable, not closed, and reached more
    /// cheaply through `cur`, record the improved cost and backpointer and
    /// open it on the frontier.
    #[verifier::rlimit(60)]
    fn relax(
        &mut self,
        fr: &mut Frontier,
        cur: usize,
        nr: usize,
        nc: usize,
        goal: (usize, usize),
        Ghost(start): Ghost<int>,
    )
        requires
            old(self).wf(),
            old(self).search_inv(start),
            old(fr).wf(),
            cur < old(self).data@.len(),
            old(self).visited@[cur as int] == 2,
            nr < old(self).spec_height(),
            nc < old(self).spec_width(),
            adjacent(old(self).cell_of(cur as int), (nr, nc)),
            forall|x: Entry|
                old(fr)@.contains(x) ==> x.idx < old(self).data@.len() && old(
                    self).visited@[x.idx as int] != 0,
        ensures
            final(self).wf(),
            final(fr).wf(),
            final(self).grid_eq(*old(self)),
            final(self).search_inv(start),
            forall|i: int|
                0 <= i < final(self).data@.len() ==> ((final(self).visited@[i] == 2) <==> (old(
                    self).visited@[i] == 2)),
            count_closed(final(self).visited@) == count_closed(old(self).visited@),
            forall|x: Entry|
                final(fr)@.contains(x) ==> x.idx < final(self).data@.len() && final(
                    self).visited@[x.idx as int] != 0,
            forall|i: int|
                0 <= i < old(self).data@.len() && old(self).visited@[i] != 0 ==> final(
                    self).visited@[i] != 0,
            old(self).data@[(nr * old(self).spec_width() + nc) as int] == 1 ==> final(
                self).visited@[(nr * old(self).spec_width() + nc) as int] != 0,
            forall|x: Entry| old(fr)@.contains(x) ==> final(fr)@.contains(x),
            forall|i: int|
                0 <= i < old(self).data@.len() && old(self).visited@[i] == 2 ==> final(
                    self).cost@[i] == old(self).cost@[i] && final(self).parent@[i] == old(
                    self).parent@[i],
            forall|i: int|
                0 <= i < old(self).data@.len() && i != (nr * old(self).spec_width() + nc) ==> final(
                    self).visited@[i] == old(self).visited@[i] && final(self).cost@[i] == old(
                    self).cost@[i] && final(self).parent@[i] == old(self).parent@[i],
            old(self).visited@[(nr * old(self).spec_width() + nc) as int] != 0 ==> final(
                self).cost@[(nr * old(self).spec_width() + nc) as int] <= old(self).cost@[(nr * old(
                self).spec_width() + nc) as int],
            final(self).visited@[(nr * old(self).spec_width() + nc) as int] == 1 ==> final(
                self).cost@[(nr * old(self).spec_width() + nc) as int] <= old(self).cost@[cur as int]
                + 1,
            forall|x: Entry|
                final(fr)@.contains(x) ==> old(fr)@.contains(x) || (x.idx as int == nr * old(
                    self).spec_width() + nc && x.f == final(self).cost@[x.idx as int] + manhattan(
                    final(self).cell_of(x.idx as int),
                    goal,
                )),
            (final(self).visited@[(nr * old(self).spec_width() + nc) as int] == 1 && (old(
                self).visited@[(nr * old(self).spec_width() + nc) as int] != 1 || final(
                self).cost@[(nr * old(self).spec_width() + nc) as int] != old(self).cost@[(nr * old(
                self).spec_width() + nc) as int])) ==> exists|x: Entry|
                final(fr)@.contains(x) && x.idx as int == nr * old(self).spec_width() + nc && x.f
                    == final(self).cost@[x.idx as int] + manhattan(
                    final(self).cell_of(x.idx as int),
                    goal,
                ),
    {
        let idx = self.index_of(nr, nc);
        proof {
            reveal(MazeSolver::search_inv);
            lemma_flat_compose(
                self.height as int,
                self.width as int,
                nr as int,
                nc as int,
            );
            assert(self.cell_of(idx as int) == (nr, nc));
        }
        if self.visited[idx] != 2 && self.data[idx] == 1 {
            let nv = self.visited.len();
            proof {
                lemma_count_closed_le_len(self.visited@);
                assert(self.visited@[cur as int] == 2);
                assert(self.cost@[cur as int] < count_closed(self.visited@));
                assert(count_closed(self.visited@) <= nv);
            }
            let gc = self.cost[cur];
            let g2 = gc + 1;
            let seen = self.visited[idx];
            if seen == 0 || g2 < self.cost[idx] {
                proof {
                    if idx as int == start {
                        assert(self.visited@[start] != 0);
                        assert(self.cost@[start] == 0);
                        assert(false);
                    }
                }
                self.cost.set(idx, g2);
                self.parent.set(idx, cur);
                self.visited.set(idx, 1);
                proof {
                    lemma_count_closed_congruent(old(self).visited@, self.visited@);
                }
                let f = g2 as u128 + manhattan_distance((nr, nc), goal);
                fr.push(
                    Entry { f, idx },
                );
                proof {
                    let n = self.data@.len() as int;
                    let cc = count_closed(self.visited@);
                    assert forall|i: int|
                        0 <= i < n && #[trigger] self.visited@[i] != 0 && i != start implies {
                        let p = self.parent@[i] as int;
                        &&& self.cost@[i] >= 1
                        &&& p < n
                        &&& self.visited@[p] == 2
                        &&& self.cost@[p] + 1 == self.cost@[i]
                        &&& adjacent(self.cell_of(p), self.cell_of(i))
                    } by {
                        if i != idx {
                            assert(old(self).visited@[i] != 0);
                            assert(old(self).parent@[i] as int != idx as int);
                        }
                    }
                }
            }
        }
    }

    /// One backpointer step: the closed, adjacent, one-step-cheaper
    /// parent of a marked non-start cell, with its cell coordinates.
    #[verifier::rlimit(100)]
    fn parent_step(&self, cur: usize, Ghost(start): Ghost<int>) -> (r: (usize, (usize, usize)))
        requires
            self.wf(),
            self.search_inv(start),
            cur < self.data@.len(),
            self.visited@[cur as int] != 0,
            cur as int != start,
        ensures
            r.0 < self.data@.len(),
            self.visited@[r.0 as int] != 0,
            self.visited@[r.0 as int] == 2,
            self.cost@[r.0 as int] + 1 == self.cost@[cur as int],
            r.0 == self.parent@[cur as int],
            r.1 == self.cell_of(r.0 as int),
            r.0 == self.flat_of(r.1),
            self.spec_passable(r.1),
            adjacent(self.cell_of(r.0 as int), self.cell_of(cur as int)),
        {
        proof {
            reveal(MazeSolver::search_inv);
        }
        let p = self.parent[cur];
        let pcell = self.cell_from_index(p);
        proof {
            assert(self.spec_passable(pcell)) by {
                assert(self.visited@[p as int] == 2);
                assert(self.data@[p as int] == 1);
            }
        }
        (p, pcell)
    }

    /// Walks the backpointers from the goal to the start and returns the
    /// route in start-to-goal order. The walk terminates because every
    /// backpointer step lowers the recorded cost by one.
    #[verifier::rlimit(100)]
    fn reconstruct_path(
        &self,
        start: (usize, usize),
        goal: (usize, usize),
        start_idx: usize,
        goal_idx: usize,
    ) -> (path: Vec<(usize, usize)>)
        requires
            self.wf(),
            self.search_inv(start_idx as int),
            start_idx < self.data@.len(),
            goal_idx < self.data@.len(),
            start_idx != goal_idx,
            self.visited@[goal_idx as int] != 0,
            self.cell_of(start_idx as int) == start,
            self.cell_of(goal_idx as int) == goal,
            self.flat_of(start) == start_idx,
            self.flat_of(goal) == goal_idx,
        ensures
            self.is_path(path@, start, goal),
            path@.len() >= 2,
            path@.len() == self.cost@[goal_idx as int] + 1,
            forall|t1: int, t2: int|
                0 <= t1 < t2 < path@.len() ==> #[trigger] path@[t1] != #[trigger] path@[t2],
            forall|t: int|
                1 <= t < path@.len() ==> self.parent@[self.flat_of(#[trigger] path@[t])]
                    == self.flat_of(path@[t - 1]),
    {
        let mut rev: Vec<(usize, usize)> = Vec::new();
        let gcell = self.cell_from_index(goal_idx);
        proof {
            assert(self.spec_passable(gcell) && self.cost@[start_idx as int] == 0) by {
                reveal(MazeSolver::search_inv);
                assert(self.data@[goal_idx as int] == 1);
            }
        }
        rev.push(gcell);
        let mut cur = goal_idx;
        while cur != start_idx
            invariant
                self.wf(),
                self.search_inv(start_idx as int),
                start_idx < self.data@.len(),
                cur < self.data@.len(),
                self.visited@[cur as int] != 0,
                self.cell_of(start_idx as int) == start,
                rev@.len() >= 1,
                rev@[0] == self.cell_of(goal_idx as int),
                rev@[rev@.len() - 1] == self.cell_of(cur as int),
                (cur == goal_idx && rev@.len() == 1) || rev@.len() >= 2,
                forall|t: int| 0 <= t < rev@.len() ==> self.spec_passable(#[trigger] rev@[t]),
                forall|t: int| 0 <= t < rev@.len() - 1 ==> adjacent(#[trigger] rev@[t], rev@[t + 1]),
                self.flat_of(start) == start_idx,
                self.flat_of(goal) == goal_idx,
                self.cost@[start_idx as int] == 0,
                rev@.len() + self.cost@[cur as int] == self.cost@[goal_idx as int] + 1,
                self.flat_of(rev@[rev@.len() - 1]) == cur as int,
                forall|t: int|
                    0 <= t < rev@.len() ==> 0 <= self.flat_of(#[trigger] rev@[t])
                        < self.data@.len(),
                forall|t: int|
                    0 <= t < rev@.len() ==> self.cost@[self.flat_of(#[trigger] rev@[t])]
                        == self.cost@[goal_idx as int] - t,
                forall|t: int|
                    0 <= t < rev@.len() - 1 ==> self.parent@[self.flat_of(#[trigger] rev@[t])]
                        == self.flat_of(rev@[t + 1]),
            decreases self.cost@[cur as int],
        {
            let (p, pcell) = self.parent_step(cur, Ghost(start_idx as int));
            rev.push(pcell);
            cur = p;
        }
        let mut path: Vec<(usize, usize)> = Vec::new();
        let total = rev.len();
        let mut k = total;
        while k > 0
            invariant
                total == rev@.len(),
                k <= total,
                path@.len() == total - k,
                forall|t: int| 0 <= t < path@.len() ==> #[trigger] path@[t] == rev@[total - 1 - t],
            decreases k,
        {
            k -= 1;
            path.push(rev[k]);
        }
        proof {
            assert(path@.len() == total);
            assert(path@[0] == rev@[total - 1]);
            assert(path@[path@.len() - 1] == rev@[0]);
            assert forall|t: int| 0 <= t < path@.len() - 1 implies adjacent(
                #[trigger] path@[t],
                path@[t + 1],
            ) by {
                assert(path@[t] == rev@[total - 1 - t]);
                assert(path@[t + 1] == rev@[total - 1 - (t + 1)]);
                assert(adjacent(rev@[total - 2 - t], rev@[total - 2 - t + 1]));
            }
            assert(self.cost@[start_idx as int] == 0);
            assert(path@.len() == self.cost@[goal_idx as int] + 1);
            assert forall|t1: int, t2: int|
                0 <= t1 < t2 < path@.len() implies #[trigger] path@[t1] != #[trigger] path@[t2] by {
                assert(path@[t1] == rev@[total - 1 - t1]);
                assert(path@[t2] == rev@[total - 1 - t2]);
                assert(self.cost@[self.flat_of(rev@[total - 1 - t1])] != self.cost@[self.flat_of(
                    rev@[total - 1 - t2],
                )]);
            }
            assert forall|t: int|
                1 <= t < path@.len() implies self.parent@[self.flat_of(#[trigger] path@[t])]
                == self.flat_of(path@[t - 1]) by {
                assert(path@[t] == rev@[total - 1 - t]);
                assert(path@[t - 1] == rev@[total - t]);
                assert(self.parent@[self.flat_of(rev@[total - 1 - t])] == self.flat_of(
                    rev@[total - 1 - t + 1],
                ));
            }
        }
        path
    }
}

/// How many cells are marked closed (value 2) in a visitation buffer.
spec fn count_closed(s: Seq<u8>) -> int
    decreases s.len(),
{
    if s.len() == 0 {
        0
    } else {
        count_closed(s.drop_last()) + if s.last() == 2 {
            1int
        } else {
            0int
        }
    }
}

proof fn lemma_count_closed_le_len(s: Seq<u8>)
    ensures
        0 <= count_closed(s) <= s.len(),
    decreases s.len(),
{
    if s.len() > 0 {
        lemma_count_closed_le_len(s.drop_last());
    }
}

/// Buffers that agree on which cells are closed have the same count.
proof fn lemma_count_closed_congruent(s1: Seq<u8>, s2: Seq<u8>)
    requires
        s1.len() == s2.len(),
        forall|i: int| 0 <= i < s1.len() ==> ((s1[i] == 2) <==> (s2[i] == 2)),
    ensures
        count_closed(s1) == count_closed(s2),
    decreases s1.len(),
{
    if s1.len() > 0 {
        lemma_count_closed_congruent(s1.drop_last(), s2.drop_last());
    }
}

proof fn lemma_count_closed_zero(s: Seq<u8>)
    requires
        forall|i: int| 0 <= i < s.len() ==> s[i] != 2,
    ensures
        count_closed(s) == 0,
    decreases s.len(),
{
    if s.len() > 0 {
        lemma_count_closed_zero(s.drop_last());
    }
}

/// Closing one cell that was not closed raises the count by one.
proof fn lemma_count_closed_update(s: Seq<u8>, i: int, v: u8)
    requires
        0 <= i < s.len(),
        s[i] != 2,
        v == 2,
    ensures
        count_closed(s.update(i, v)) == count_closed(s) + 1,
    decreases s.len(),
{
    if i == s.len() - 1 {
        assert(s.update(i, v).drop_last() =~= s.drop_last());
    } else {
        assert(s.update(i, v).drop_last() =~= s.drop_last().update(i, v));
        lemma_count_closed_update(s.drop_last(), i, v);
    }
}

/// Any two shortest routes between the same endpoints have the same
/// length. Together with `search`'s contract — the result is a valid
/// shortest route, non-empty exactly when the endpoints are connected —
/// this pins the error, the emptiness and the length of every search
/// result as functions of the grid, start and goal alone; only the
/// choice among equally short routes is left to the engine's (fixed,
/// deterministic) tie-break.
pub proof fn lemma_shortest_routes_equal_length(
    s: MazeSolver,
    p1: Seq<(usize, usize)>,
    p2: Seq<(usize, usize)>,
    a: (usize, usize),
    b: (usize, usize),
)
    requires
        s.is_path(p1, a, b),
        s.is_path(p2, a, b),
        forall|q: Seq<(usize, usize)>| s.is_path(q, a, b) ==> p1.len() <= q.len(),
        forall|q: Seq<(usize, usize)>| s.is_path(q, a, b) ==> p2.len() <= q.len(),
    ensures
        p1.len() == p2.len(),
{
}

/// The Manhattan heuristic is admissible: no route can be shorter than
/// the Manhattan distance between its endpoints, so the heuristic never
/// overestimates the true remaining cost. Every route from `a` to `b`
/// has at least `manhattan(a, b)` edges.
pub proof fn lemma_manhattan_admissible(
    s: MazeSolver,
    p: Seq<(usize, usize)>,
    a: (usize, usize),
    b: (usize, usize),
)
    requires
        s.is_path(p, a, b),
    ensures
        p.len() - 1 >= manhattan(a, b),
    decreases p.len(),
{
    if p.len() > 1 {
        let rest = p.subrange(1, p.len() as int);
        assert(s.is_path(rest, p[1], b)) by {
            assert(rest[rest.len() - 1] == p[p.len() - 1]);
            assert forall|t: int| 0 <= t < rest.len() implies s.spec_passable(
                #[trigger] rest[t],
            ) by {
                assert(rest[t] == p[t + 1]);
            }
            assert forall|t: int| 0 <= t < rest.len() - 1 implies adjacent(
                #[trigger] rest[t],
                rest[t + 1],
            ) by {
                assert(rest[t] == p[t + 1] && rest[t + 1] == p[t + 2]);
            }
        }
        lemma_manhattan_admissible(s, rest, p[1], b);
        assert(adjacent(p[0], p[1]));
        assert(manhattan(p[1], b) >= manhattan(p[0], b) - 1);
    }
}

/// What popping a least entry establishes: the popped cell's recorded
/// cost is optimal, because every open cell's `cost + heuristic` is at
/// least the popped entry's key.
proof fn lemma_popped_settled(
    s: MazeSolver,
    fs: Seq<Entry>,
    e: Entry,
    start_idx: int,
    goal: (usize, usize),
)
    requires
        s.wf(),
        0 <= start_idx < s.data@.len(),
        s.visited@[start_idx] != 0,
        s.cost@[start_idx] == 0,
        forall|i: int| 0 <= i < s.data@.len() ==> #[trigger] s.visited@[i] <= 2,
        e.idx < s.data@.len(),
        e.f >= s.cost@[e.idx as int] + manhattan(s.cell_of(e.idx as int), goal),
        forall|t: int| 0 <= t < fs.len() ==> key_le(e, #[trigger] fs[t]),
        forall|j: int|
            0 <= j < s.data@.len() && #[trigger] s.visited@[j] == 1 ==> exists|x: Entry|
                fs.contains(x) && x.idx as int == j && x.f == s.cost@[j] + manhattan(
                    s.cell_of(j),
                    goal,
                ),
        forall|i: int| 0 <= i < s.data@.len() && #[trigger] s.visited@[i] == 2 ==> s.expanded(i),
        forall|i: int| 0 <= i < s.data@.len() && #[trigger] s.visited@[i] == 2 ==> s.relaxed(i),
        forall|i: int|
            0 <= i < s.data@.len() && #[trigger] s.visited@[i] == 2 ==> s.settled(
                s.cell_of(start_idx),
                i,
            ),
    ensures
        s.settled(s.cell_of(start_idx), e.idx as int),
{
    let bound = s.cost@[e.idx as int] + manhattan(s.cell_of(e.idx as int), goal);
    assert forall|j: int| 0 <= j < s.data@.len() && #[trigger] s.visited@[j] == 1 implies bound
        <= s.cost@[j] + manhattan(s.cell_of(j), goal) by {
        let x = choose|x: Entry|
            fs.contains(x) && x.idx as int == j && x.f == s.cost@[j] + manhattan(
                s.cell_of(j),
                goal,
            );
        let t = choose|t: int| 0 <= t < fs.len() && fs[t] == x;
        assert(key_le(e, fs[t]));
    }
    assert forall|q: Seq<(usize, usize)>| s.is_path(
        q,
        s.cell_of(start_idx),
        s.cell_of(e.idx as int),
    ) implies q.len() - 1 >= s.cost@[e.idx as int] by {
        lemma_cut_bound(s, start_idx, e.idx as int, goal, bound, q);
    }
}

/// The frontier-cut bound behind A* optimality. When every closed cell
/// is fully expanded and relaxed, every closed cell's cost is optimal,
/// and `bound` is at most `cost + heuristic` of every open cell, then a
/// route from the start to a closed cell has at least that cell's cost
/// in edges, and a route to any other cell, plus that cell's heuristic,
/// comes to at least `bound`.
proof fn lemma_cut_bound(
    s: MazeSolver,
    start_idx: int,
    zi: int,
    goal: (usize, usize),
    bound: int,
    q: Seq<(usize, usize)>,
)
    requires
        s.wf(),
        0 <= start_idx < s.data@.len(),
        0 <= zi < s.data@.len(),
        s.visited@[start_idx] != 0,
        s.cost@[start_idx] == 0,
        forall|i: int| 0 <= i < s.data@.len() ==> #[trigger] s.visited@[i] <= 2,
        forall|j: int|
            0 <= j < s.data@.len() && #[trigger] s.visited@[j] == 1 ==> bound <= s.cost@[j]
                + manhattan(s.cell_of(j), goal),
        forall|i: int| 0 <= i < s.data@.len() && #[trigger] s.visited@[i] == 2 ==> s.expanded(i),
        forall|i: int| 0 <= i < s.data@.len() && #[trigger] s.visited@[i] == 2 ==> s.relaxed(i),
        forall|i: int|
            0 <= i < s.data@.len() && #[trigger] s.visited@[i] == 2 ==> s.settled(
                s.cell_of(start_idx),
                i,
            ),
        s.is_path(q, s.cell_of(start_idx), s.cell_of(zi)),
    ensures
        s.visited@[zi] == 2 ==> q.len() - 1 >= s.cost@[zi],
        s.visited@[zi] != 2 ==> q.len() - 1 + manhattan(s.cell_of(zi), goal) >= bound,
    decreases q.len(),
{
    let h = s.height as int;
    let w = s.width as int;
    assert(h * w == s.data@.len());
    assert(w > 0) by (nonlinear_arith)
        requires
            h >= 0,
            h * w > 0,
    ;
    lemma_flat_decompose(h, w, start_idx);
    lemma_flat_decompose(h, w, zi);
    if s.visited@[zi] == 2 {
        assert(s.settled(s.cell_of(start_idx), zi));
        assert(q.len() - 1 >= s.cost@[zi]);
    } else if q.len() == 1 {
        assert(s.cell_of(start_idx) == s.cell_of(zi));
        assert(start_idx == zi);
        assert(s.visited@[zi] == 1);
        assert(bound <= s.cost@[zi] + manhattan(s.cell_of(zi), goal));
    } else {
        let prev = q[q.len() - 2];
        assert(s.spec_passable(prev));
        assert(adjacent(prev, q[q.len() - 1]));
        let pi = prev.0 * w + prev.1;
        lemma_flat_compose(h, w, prev.0 as int, prev.1 as int);
        assert(s.cell_of(pi) == prev);
        let q2 = q.subrange(0, q.len() - 1);
        assert(s.is_path(q2, s.cell_of(start_idx), s.cell_of(pi))) by {
            assert(q2[0] == q[0]);
            assert(q2[q2.len() - 1] == prev);
            assert forall|t: int| 0 <= t < q2.len() implies s.spec_passable(
                #[trigger] q2[t],
            ) by {
                assert(q2[t] == q[t]);
            }
            assert forall|t: int| 0 <= t < q2.len() - 1 implies adjacent(
                #[trigger] q2[t],
                q2[t + 1],
            ) by {
                assert(q2[t] == q[t] && q2[t + 1] == q[t + 1]);
            }
        }
        lemma_cut_bound(s, start_idx, pi, goal, bound, q2);
        if s.visited@[pi] == 2 {
            // The last step leaves the closed region: the end cell was
            // relaxed when `prev` was expanded.
            assert(s.data@[zi] == 1) by {
                assert(s.spec_passable(q[q.len() - 1]));
            }
            assert(s.expanded(pi));
            assert(adjacent(s.cell_of(pi), s.cell_of(zi)));
            assert(s.visited@[zi] != 0);
            assert(s.visited@[zi] == 1);
            assert(s.relaxed(pi));
            assert(s.cost@[zi] <= s.cost@[pi] + 1);
            assert(q.len() - 1 >= s.cost@[pi] + 1);
            assert(bound <= s.cost@[zi] + manhattan(s.cell_of(zi), goal));
        } else {
            // Both ends of the last step are outside the closed region:
            // one step moves the heuristic by at most one.
            assert(q2.len() - 1 + manhattan(s.cell_of(pi), goal) >= bound);
            assert(manhattan(prev, goal) <= manhattan(s.cell_of(zi), goal) + 1);
        }
    }
}

/// After an exhausted search (no open cells are left, the start is
/// closed, and every closed cell is fully expanded) every route from the
/// start cell ends in a closed cell: a cell the search did reach. In
/// particular a goal that was never closed has no route to it.
proof fn lemma_route_ends_closed(s: MazeSolver, start_idx: int, goal_idx: int, p: Seq<
    (usize, usize),
>)
    requires
        s.wf(),
        0 <= start_idx < s.data@.len(),
        0 <= goal_idx < s.data@.len(),
        s.visited@[start_idx] == 2,
        forall|i: int| 0 <= i < s.data@.len() ==> #[trigger] s.visited@[i] <= 2,
        forall|i: int| 0 <= i < s.data@.len() ==> #[trigger] s.visited@[i] != 1,
        forall|i: int|
            0 <= i < s.data@.len() && #[trigger] s.visited@[i] == 2 ==> s.expanded(i),
        s.is_path(p, s.cell_of(start_idx), s.cell_of(goal_idx)),
    ensures
        s.visited@[goal_idx] == 2,
    decreases p.len(),
{
    let h = s.height as int;
    let w = s.width as int;
    assert(h * w == s.data@.len());
    assert(w > 0) by (nonlinear_arith)
        requires
            h >= 0,
            h * w > 0,
    ;
    lemma_flat_decompose(h, w, start_idx);
    lemma_flat_decompose(h, w, goal_idx);
    if p.len() == 1 {
        assert(s.cell_of(start_idx) == s.cell_of(goal_idx));
        assert(start_idx == goal_idx);
        assert(s.visited@[goal_idx] == 2);
    } else {
        let next = p[1];
        assert(s.spec_passable(next));
        assert(adjacent(p[0], p[1]));
        let ni = next.0 * w + next.1;
        lemma_flat_compose(h, w, next.0 as int, next.1 as int);
        assert(s.cell_of(ni) == next);
        assert(s.data@[ni] == 1);
        assert(s.expanded(start_idx));
        assert(s.visited@[ni] != 0);
        assert(s.visited@[ni] == 2);
        let rest = p.subrange(1, p.len() as int);
        assert(s.is_path(rest, s.cell_of(ni), s.cell_of(goal_idx))) by {
            assert(rest[0] == next);
            assert(rest[rest.len() - 1] == p[p.len() - 1]);
            assert forall|t: int| 0 <= t < rest.len() implies s.spec_passable(
                #[trigger] rest[t],
            ) by {
                assert(rest[t] == p[t + 1]);
            }
            assert forall|t: int| 0 <= t < rest.len() - 1 implies adjacent(
                #[trigger] rest[t],
                rest[t + 1],
            ) by {
                assert(rest[t] == p[t + 1] && rest[t + 1] == p[t + 2]);
            }
        }
        lemma_route_ends_closed(s, ni, goal_idx, rest);
    }
}

/// Composing an in-bounds row and column round-trips through the flat index.
proof fn lemma_flat_compose(h: int, w: int, r: int, c: int) by (nonlinear_arith)
    requires
        0 <= r < h,
        0 <= c < w,
    ensures
        0 <= r * w + c < h * w,
        (r * w + c) / w == r,
        (r * w + c) % w == c,
{
}

/// A flat index below `h * w` splits into an in-bounds row and column.
proof fn lemma_flat_decompose(h: int, w: int, ix: int) by (nonlinear_arith)
    requires
        h >= 0,
        w >= 0,
        0 <= ix < h * w,
    ensures
        0 <= ix / w < h,
        0 <= ix % w < w,
        (ix / w) * w + ix % w == ix,
{
}

/// One more full row advances the flat length by exactly the width.
proof fn lemma_row_step(r: int, w: int) by (nonlinear_arith)
    requires
        r >= 0,
        w >= 0,
    ensures
        (r + 1) * w == r * w + w,
{
}

/// For an in-bounds cell the flat index stays inside the buffer.
proof fn lemma_index_in_range(h: int, w: int, r: int, c: int) by (nonlinear_arith)
    requires
        0 <= r < h,
        0 <= c < w,
    ensures
        0 <= r * w + c < h * w,
{
}

} // verus!
