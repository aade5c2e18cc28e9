//! Random layout generation: symmetric wall placement kept only while the
//! layout stays connected and free of runs shorter than three cells.

use vstd::prelude::*;
use std::collections::VecDeque;
use rand::Rng;
use crate::grid::Grid;
use crate::solver::lemma_rc_index;

verus! {

/// Columns `c0 .. c0 + len` of row `r` form a maximal non-black run (any
/// length from one up).
pub open spec fn horiz_run_at(g: Grid, r: int, c0: int, len: int) -> bool {
    &&& 0 <= r < g.height
    &&& 0 <= c0
    &&& c0 + len <= g.width
    &&& len >= 1
    &&& forall|k: int| 0 <= k < len ==> !(#[trigger] g.cells@[g.spec_index(r, c0 + k)]).is_black
    &&& (c0 == 0 || g.cells@[g.spec_index(r, c0 - 1)].is_black)
    &&& (c0 + len == g.width || g.cells@[g.spec_index(r, c0 + len)].is_black)
}

/// Rows `r0 .. r0 + len` of column `c` form a maximal non-black run.
pub open spec fn vert_run_at(g: Grid, r0: int, c: int, len: int) -> bool {
    &&& 0 <= c < g.width
    &&& 0 <= r0
    &&& r0 + len <= g.height
    &&& len >= 1
    &&& forall|k: int| 0 <= k < len ==> !(#[trigger] g.cells@[g.spec_index(r0 + k, c)]).is_black
    &&& (r0 == 0 || g.cells@[g.spec_index(r0 - 1, c)].is_black)
    &&& (r0 + len == g.height || g.cells@[g.spec_index(r0 + len, c)].is_black)
}

/// Every maximal run of white cells, horizontal or vertical, has at least
/// three cells.
pub open spec fn min_word_len_ok(g: Grid) -> bool {
    &&& forall|r: int, c0: int, len: int| #[trigger] horiz_run_at(g, r, c0, len) ==> len >= 3
    &&& forall|r0: int, c: int, len: int| #[trigger] vert_run_at(g, r0, c, len) ==> len >= 3
}

/// A maximal horizontal run is determined by any stretch of white cells it
/// overlaps that is itself bounded by walls or the grid edge.
pub proof fn lemma_horiz_run_unique(g: Grid, r: int, s: int, e: int, c0: int, len: int)
    requires
        g.wf(),
        0 <= r < g.height,
        0 <= s < e <= g.width,
        forall|j: int| s <= j < e ==> !(#[trigger] g.cells@[g.spec_index(r, j)]).is_black,
        s == 0 || g.cells@[g.spec_index(r, s - 1)].is_black,
        e == g.width || g.cells@[g.spec_index(r, e as int)].is_black,
        horiz_run_at(g, r, c0, len),
        s < c0 + len <= e,
    ensures
        c0 == s && len == e - s,
{
    if c0 > s {
        assert(!g.cells@[g.spec_index(r, c0 - 1)].is_black);
        assert(false);
    }
    if c0 < s {
        assert(c0 <= s - 1 < c0 + len);
        assert(!g.cells@[g.spec_index(r, c0 + (s - 1 - c0))].is_black);
        assert(false);
    }
    if c0 + len < e {
        assert(!g.cells@[g.spec_index(r, c0 + len)].is_black);
        assert(false);
    }
}

/// A maximal vertical run is determined by any stretch of white cells it
/// overlaps that is itself bounded by walls or the grid edge.
pub proof fn lemma_vert_run_unique(g: Grid, c: int, s: int, e: int, r0: int, len: int)
    requires
        g.wf(),
        0 <= c < g.width,
        0 <= s < e <= g.height,
        forall|j: int| s <= j < e ==> !(#[trigger] g.cells@[g.spec_index(j, c)]).is_black,
        s == 0 || g.cells@[g.spec_index(s - 1, c)].is_black,
        e == g.height || g.cells@[g.spec_index(e as int, c)].is_black,
        vert_run_at(g, r0, c, len),
        s < r0 + len <= e,
    ensures
        r0 == s && len == e - s,
{
    if r0 > s {
        assert(!g.cells@[g.spec_index(r0 - 1, c)].is_black);
        assert(false);
    }
    if r0 < s {
        assert(r0 <= s - 1 < r0 + len);
        assert(!g.cells@[g.spec_index(r0 + (s - 1 - r0), c)].is_black);
        assert(false);
    }
    if r0 + len < e {
        assert(!g.cells@[g.spec_index(r0 + len, c)].is_black);
        assert(false);
    }
}

/// Every non-black cell still offers the full alphabet.
pub open spec fn white_cells_full(g: Grid) -> bool {
    forall|i: int|
        0 <= i < g.cells@.len() && !(#[trigger] g.cells@[i]).is_black ==> (forall|l: int|
            0 <= l < 26 ==> g.cells@[i].domain.spec_has(l))
}

/// The wall pattern is symmetric under rotation by a half turn.
pub open spec fn symmetric_blacks(g: Grid) -> bool {
    forall|rr: int, cc: int|
        0 <= rr < g.height && 0 <= cc < g.width ==> ((#[trigger] g.cells@[g.spec_index(
            rr,
            cc,
        )]).is_black <==> g.cells@[g.spec_index(
            g.height - 1 - rr,
            g.width - 1 - cc,
        )].is_black)
}

/// Relies on rand::thread_rng and rand::Rng::gen_range over `0..n`: the
/// draw lies below `n`; the call panics only on an empty range, which the
/// precondition rules out.
#[verifier::external_body]
fn rand_below(n: usize) -> (r: usize)
    requires
        n > 0,
    ensures
        r < n,
{
    rand::thread_rng().gen_range(0..n)
}

/// Positions inside the grid agree on their row-major index exactly when
/// they are the same position.
proof fn lemma_index_unique(g: Grid, r1: int, c1: int, r2: int, c2: int)
    requires
        0 <= c1 < g.width,
        0 <= c2 < g.width,
        0 <= r1,
        0 <= r2,
    ensures
        (g.spec_index(r1, c1) == g.spec_index(r2, c2)) <==> (r1 == r2 && c1 == c2),
{
    let w = g.width as int;
    assert(r1 * w + c1 == r2 * w + c2 ==> r1 == r2 && c1 == c2) by (nonlinear_arith)
        requires
            0 <= c1 < w && 0 <= c2 < w && 0 <= r1 && 0 <= r2,
    ;
}

/// A freshly built all-white grid is trivially symmetric, and its open
/// cells carry the full alphabet.
proof fn lemma_fresh_grid_symmetric(g: Grid)
    requires
        g.wf(),
        forall|i: int|
            0 <= i < g.cells@.len() ==> !(#[trigger] g.cells@[i]).is_black && (forall|l: int|
                g.cells@[i].domain.spec_has(l) <==> 0 <= l < 26),
    ensures
        white_cells_full(g),
        symmetric_blacks(g),
{
    assert forall|rr: int, cc: int|
        0 <= rr < g.height && 0 <= cc < g.width implies ((#[trigger] g.cells@[g.spec_index(
        rr,
        cc,
    )]).is_black <==> g.cells@[g.spec_index(
        g.height - 1 - rr,
        g.width - 1 - cc,
    )].is_black) by {
        lemma_rc_index(g, rr, cc);
        lemma_rc_index(g, g.height - 1 - rr, g.width - 1 - cc);
    }
}

/// Toggling a position and its half-turn mirror together keeps the wall
/// pattern symmetric and the open cells full.
proof fn lemma_symmetric_pair(g1: Grid, g2: Grid, r: int, c: int)
    requires
        g1.wf(),
        g2.wf(),
        g1.width == g2.width,
        g1.height == g2.height,
        g1.cells@.len() == g2.cells@.len(),
        symmetric_blacks(g1),
        white_cells_full(g1),
        0 <= r < g1.height,
        0 <= c < g1.width,
        forall|i: int|
            0 <= i < g2.cells@.len() && i != g1.spec_index(r, c) && i != g1.spec_index(
                g1.height - 1 - r,
                g1.width - 1 - c,
            ) ==> (#[trigger] g2.cells@[i]) == g1.cells@[i],
        g2.cells@[g1.spec_index(r, c)].is_black == g2.cells@[g1.spec_index(
            g1.height - 1 - r,
            g1.width - 1 - c,
        )].is_black,
        !g2.cells@[g1.spec_index(r, c)].is_black ==> (forall|l: int|
            0 <= l < 26 ==> #[trigger] g2.cells@[g1.spec_index(r, c)].domain.spec_has(l)),
        !g2.cells@[g1.spec_index(g1.height - 1 - r, g1.width - 1 - c)].is_black ==> (forall|l: int|
            0 <= l < 26 ==> #[trigger] g2.cells@[g1.spec_index(
                g1.height - 1 - r,
                g1.width - 1 - c,
            )].domain.spec_has(l)),
    ensures
        symmetric_blacks(g2),
        white_cells_full(g2),
{
    let p = g1.spec_index(r, c);
    let q = g1.spec_index(g1.height - 1 - r, g1.width - 1 - c);
    lemma_rc_index(g1, r, c);
    lemma_rc_index(g1, g1.height - 1 - r, g1.width - 1 - c);
    assert forall|rr: int, cc: int|
        0 <= rr < g2.height && 0 <= cc < g2.width implies ((#[trigger] g2.cells@[g2.spec_index(
        rr,
        cc,
    )]).is_black <==> g2.cells@[g2.spec_index(
        g2.height - 1 - rr,
        g2.width - 1 - cc,
    )].is_black) by {
        lemma_rc_index(g1, rr, cc);
        lemma_rc_index(g1, g1.height - 1 - rr, g1.width - 1 - cc);
        let i1 = g1.spec_index(rr, cc);
        let i2 = g1.spec_index(g1.height - 1 - rr, g1.width - 1 - cc);
        lemma_index_unique(g1, rr, cc, r, c);
        lemma_index_unique(g1, rr, cc, g1.height - 1 - r, g1.width - 1 - c);
        lemma_index_unique(g1, g1.height - 1 - rr, g1.width - 1 - cc, r, c);
        lemma_index_unique(
            g1,
            g1.height - 1 - rr,
            g1.width - 1 - cc,
            g1.height - 1 - r,
            g1.width - 1 - c,
        );
        if i1 == p {
            assert(rr == r && cc == c);
            assert(i2 == q);
        } else if i1 == q {
            assert(rr == g1.height - 1 - r && cc == g1.width - 1 - c);
            assert(i2 == p);
        } else {
            assert(g2.cells@[i1] == g1.cells@[i1]);
            assert(i2 != p && i2 != q);
            assert(g2.cells@[i2] == g1.cells@[i2]);
        }
    }
    assert forall|i: int|
        0 <= i < g2.cells@.len() && !(#[trigger] g2.cells@[i]).is_black implies (forall|l: int|
        0 <= l < 26 ==> g2.cells@[i].domain.spec_has(l)) by {
        if i != p && i != q {
            assert(g2.cells@[i] == g1.cells@[i]);
        }
    }
}

/// Generates random symmetric layouts for a grid of fixed dimensions.
pub struct LayoutGenerator {
    pub width: usize,
    pub height: usize,
}

impl LayoutGenerator {
    pub fn new(width: usize, height: usize) -> (r: LayoutGenerator)
        ensures
            r.width == width,
            r.height == height,
    {
        LayoutGenerator { width, height }
    }

    /// The layout passes the connectivity scan and has no white run shorter
    /// than three cells.
    pub fn is_valid_layout(&self, grid: &Grid) -> (r: bool)
        requires
            grid.wf(),
        ensures
            r ==> min_word_len_ok(*grid),
    {
        if !self.check_connectivity(grid) {
            return false;
        }
        if !self.check_min_word_length(grid) {
            return false;
        }
        true
    }

    /// Breadth-first scan over white cells from the first one found. The
    /// verdict compares the number of cells reached with the number of
    /// white cells; an empty grid counts as connected. The verdict itself
    /// carries no proved meaning: connectivity is a layout heuristic.
    pub fn check_connectivity(&self, grid: &Grid) -> (r: bool)
        requires
            grid.wf(),
    {
        let total = grid.cells.len();
        let mut total_white: usize = 0;
        let mut start: Option<usize> = None;
        let mut i: usize = 0;
        while i < total
            invariant
                i <= total,
                total == grid.cells@.len(),
                total_white <= i,
                start matches Some(s) ==> s < total,
            decreases total - i,
        {
            if !grid.cells[i].is_black {
                if total_white == 0 {
                    start = Some(i);
                }
                total_white = total_white + 1;
            }
            i = i + 1;
        }
        let start_idx = match start {
            Some(s) => s,
            None => {
                return true;
            },
        };
        if grid.width == 0 {
            return true;
        }
        let mut visited: Vec<bool> = Vec::new();
        let mut k: usize = 0;
        while k < total
            invariant
                k <= total,
                visited@.len() == k,
            decreases total - k,
        {
            visited.push(false);
            k = k + 1;
        }
        let mut queue: VecDeque<usize> = VecDeque::new();
        queue.push_back(start_idx);
        visited.set(start_idx, true);
        let mut count: usize = 0;
        let mut steps: usize = 0;
        let bound = if total > usize::MAX / 2 {
            usize::MAX
        } else {
            total * 2
        };
        while steps < bound
            invariant
                total == grid.cells@.len(),
                total >= 1,
                grid.width >= 1,
                grid.wf(),
                visited@.len() == total,
                forall|q: int| 0 <= q < queue@.len() ==> (#[trigger] queue@[q]) < total,
                count <= steps,
                steps <= bound,
            decreases bound - steps,
        {
            steps = steps + 1;
            let popped = queue.pop_front();
            let idx = match popped {
                Some(x) => x,
                None => {
                    return count == total_white;
                },
            };
            if count == usize::MAX {
                return false;
            }
            count = count + 1;
            let r = idx / grid.width;
            let c = idx % grid.width;
            proof {
                vstd::arithmetic::div_mod::lemma_fundamental_div_mod(
                    idx as int,
                    grid.width as int,
                );
                let w = grid.width as int;
                let h = grid.height as int;
                assert((idx as int) / w < h) by (nonlinear_arith)
                    requires
                        (idx as int) < w * h && w >= 1 && (idx as int) == w * ((idx as int) / w)
                            + ((idx as int) % w) && 0 <= ((idx as int) % w) < w && 0 <= ((
                        idx as int) / w),
                ;
            }
            if c + 1 < grid.width {
                self.try_visit(grid, r, c + 1, &mut visited, &mut queue);
            }
            if c > 0 {
                self.try_visit(grid, r, c - 1, &mut visited, &mut queue);
            }
            if r + 1 < grid.height {
                self.try_visit(grid, r + 1, c, &mut visited, &mut queue);
            }
            if r > 0 {
                self.try_visit(grid, r - 1, c, &mut visited, &mut queue);
            }
        }
        count == total_white
    }

    /// Marks and enqueues one neighbouring cell when it is white and not
    /// yet seen.
    fn try_visit(&self, grid: &Grid, r: usize, c: usize, visited: &mut Vec<bool>, queue: &mut
        VecDeque<usize>)
        requires
            grid.wf(),
            r < grid.height,
            c < grid.width,
            old(visited)@.len() == grid.cells@.len(),
            forall|q: int| 0 <= q < old(queue)@.len() ==> (#[trigger] old(queue)@[q])
                < grid.cells@.len(),
        ensures
            final(visited)@.len() == old(visited)@.len(),
            forall|q: int| 0 <= q < final(queue)@.len() ==> (#[trigger] final(queue)@[q])
                < grid.cells@.len(),
    {
        let idx = grid.get_index(r, c);
        if !grid.cells[idx].is_black && !visited[idx] {
            visited.set(idx, true);
            let ghost qprev = queue@;
            queue.push_back(idx);
            proof {
                assert forall|q: int| 0 <= q < queue@.len() implies (#[trigger] queue@[q])
                    < grid.cells@.len() by {
                    if q < qprev.len() {
                        assert(qprev[q] < grid.cells@.len());
                    }
                }
            }
        }
    }

    /// Scans every row and column for a maximal white run shorter than
    /// three cells; the verdict is exact against `min_word_len_ok`.
    pub fn check_min_word_length(&self, grid: &Grid) -> (res: bool)
        requires
            grid.wf(),
        ensures
            res == min_word_len_ok(*grid),
    {
        let mut r: usize = 0;
        while r < grid.height
            invariant
                grid.wf(),
                r <= grid.height,
                forall|rr: int, c0: int, len: int|
                    0 <= rr < r && #[trigger] horiz_run_at(*grid, rr, c0, len) ==> len >= 3,
            decreases grid.height - r,
        {
            let mut c: usize = 0;
            while c < grid.width
                invariant
                    grid.wf(),
                    r < grid.height,
                    c <= grid.width,
                    c == 0 || c == grid.width || grid.cells@[grid.spec_index(
                        r as int,
                        c - 1,
                    )].is_black || grid.cells@[grid.spec_index(r as int, c as int)].is_black,
                    forall|c0: int, len: int|
                        #[trigger] horiz_run_at(*grid, r as int, c0, len) && c0 + len <= c ==> len
                            >= 3,
                decreases grid.width - c,
            {
                if grid.get_cell(r, c).is_black {
                    proof {
                        assert forall|c0: int, len: int|
                            #[trigger] horiz_run_at(*grid, r as int, c0, len) && c0 + len <= c
                                + 1 implies len >= 3 by {
                            if c0 + len == c + 1 {
                                lemma_rc_index(*grid, r as int, c0 + len - 1);
                                assert(!grid.cells@[grid.spec_index(
                                    r as int,
                                    c0 + (len - 1),
                                )].is_black);
                                assert(false);
                            }
                        }
                    }
                    c = c + 1;
                } else {
                    let start = c;
                    while c < grid.width && !grid.get_cell(r, c).is_black
                        invariant
                            grid.wf(),
                            r < grid.height,
                            start <= c <= grid.width,
                            start == 0 || grid.cells@[grid.spec_index(
                                r as int,
                                start - 1,
                            )].is_black,
                            forall|j: int|
                                start <= j < c ==> !(#[trigger] grid.cells@[grid.spec_index(
                                    r as int,
                                    j,
                                )]).is_black,
                        decreases grid.width - c,
                    {
                        c = c + 1;
                    }
                    let length = c - start;
                    if length < 3 {
                        proof {
                            assert(horiz_run_at(*grid, r as int, start as int, length as int));
                        }
                        return false;
                    }
                    proof {
                        assert forall|c0: int, len: int|
                            #[trigger] horiz_run_at(*grid, r as int, c0, len) && c0 + len <= c
                                implies len >= 3 by {
                            if c0 + len > start {
                                lemma_horiz_run_unique(
                                    *grid,
                                    r as int,
                                    start as int,
                                    c as int,
                                    c0,
                                    len,
                                );
                            }
                        }
                    }
                }
            }
            r = r + 1;
        }
        let mut cc: usize = 0;
        while cc < grid.width
            invariant
                grid.wf(),
                cc <= grid.width,
                forall|rr: int, c0: int, len: int|
                    0 <= rr < grid.height && #[trigger] horiz_run_at(*grid, rr, c0, len) ==> len
                        >= 3,
                forall|r0: int, c2: int, len: int|
                    0 <= c2 < cc && #[trigger] vert_run_at(*grid, r0, c2, len) ==> len >= 3,
            decreases grid.width - cc,
        {
            let mut rr: usize = 0;
            while rr < grid.height
                invariant
                    grid.wf(),
                    cc < grid.width,
                    rr <= grid.height,
                    rr == 0 || rr == grid.height || grid.cells@[grid.spec_index(
                        rr - 1,
                        cc as int,
                    )].is_black || grid.cells@[grid.spec_index(rr as int, cc as int)].is_black,
                    forall|r0: int, len: int|
                        #[trigger] vert_run_at(*grid, r0, cc as int, len) && r0 + len <= rr ==> len
                            >= 3,
                decreases grid.height - rr,
            {
                if grid.get_cell(rr, cc).is_black {
                    proof {
                        assert forall|r0: int, len: int|
                            #[trigger] vert_run_at(*grid, r0, cc as int, len) && r0 + len <= rr
                                + 1 implies len >= 3 by {
                            if r0 + len == rr + 1 {
                                lemma_rc_index(*grid, r0 + len - 1, cc as int);
                                assert(!grid.cells@[grid.spec_index(
                                    r0 + (len - 1),
                                    cc as int,
                                )].is_black);
                                assert(false);
                            }
                        }
                    }
                    rr = rr + 1;
                } else {
                    let start = rr;
                    while rr < grid.height && !grid.get_cell(rr, cc).is_black
                        invariant
                            grid.wf(),
                            cc < grid.width,
                            start <= rr <= grid.height,
                            start == 0 || grid.cells@[grid.spec_index(
                                start - 1,
                                cc as int,
                            )].is_black,
                            forall|j: int|
                                start <= j < rr ==> !(#[trigger] grid.cells@[grid.spec_index(
                                    j,
                                    cc as int,
                                )]).is_black,
                        decreases grid.height - rr,
                    {
                        rr = rr + 1;
                    }
                    let length = rr - start;
                    if length < 3 {
                        proof {
                            assert(vert_run_at(*grid, start as int, cc as int, length as int));
                        }
                        return false;
                    }
                    proof {
                        assert forall|r0: int, len: int|
                            #[trigger] vert_run_at(*grid, r0, cc as int, len) && r0 + len
                                <= rr implies len >= 3 by {
                            if r0 + len > start {
                                lemma_vert_run_unique(
                                    *grid,
                                    cc as int,
                                    start as int,
                                    rr as int,
                                    r0,
                                    len,
                                );
                            }
                        }
                    }
                }
            }
            cc = cc + 1;
        }
        true
    }

    /// Draws random wall positions, mirrored through the centre, keeping
    /// each pair only while the layout stays valid; the rounds are bounded
    /// so that generation provably terminates, falling back to the
    /// all-white grid, which is a valid layout for dimensions of three and
    /// up. Whatever was drawn, the result has the generator's dimensions, a
    /// half-turn-symmetric wall pattern, full domains on every open cell,
    /// and no white run shorter than three cells.
    pub fn generate(&self) -> (g: Grid)
        requires
            3 <= self.width,
            3 <= self.height,
            self.width * self.height <= usize::MAX,
        ensures
            g.wf(),
            g.width == self.width,
            g.height == self.height,
            min_word_len_ok(g),
            white_cells_full(g),
            symmetric_blacks(g),
    {
        let mut rounds: usize = 0;
        while rounds < 8
            invariant
                3 <= self.width,
                3 <= self.height,
                self.width * self.height <= usize::MAX,
                rounds <= 8,
            decreases 8 - rounds,
        {
            let mut grid = Grid::new(self.width, self.height);
            let total = self.width * self.height;
            let target = total / 25 * 4;
            let mut black_count: usize = 0;
            let mut attempts: usize = 0;
            proof {
                lemma_fresh_grid_symmetric(grid);
            }
            while attempts < 2000 && black_count < target
                invariant
                    3 <= self.width,
                    3 <= self.height,
                    self.width * self.height <= usize::MAX,
                    grid.wf(),
                    grid.width == self.width,
                    grid.height == self.height,
                    white_cells_full(grid),
                    symmetric_blacks(grid),
                decreases 2000 - attempts,
            {
                attempts = attempts + 1;
                let r = rand_below(self.height);
                let c = rand_below(self.width);
                if !grid.get_cell(r, c).is_black {
                    let sym_r = self.height - 1 - r;
                    let sym_c = self.width - 1 - c;
                    let ghost gpre = grid;
                    grid.set_black(r, c, true);
                    grid.set_black(sym_r, sym_c, true);
                    proof {
                        lemma_rc_index(gpre, r as int, c as int);
                        lemma_rc_index(gpre, gpre.height - 1 - r, gpre.width - 1 - c);
                        assert(sym_r as int == gpre.height - 1 - r);
                        assert(sym_c as int == gpre.width - 1 - c);
                        let p = gpre.spec_index(r as int, c as int);
                        let q = gpre.spec_index(sym_r as int, sym_c as int);
                        assert(grid.cells@[q].is_black);
                        if p != q {
                            assert(grid.cells@[p].is_black);
                        }
                        lemma_symmetric_pair(gpre, grid, r as int, c as int);
                    }
                    if self.is_valid_layout(&grid) {
                        black_count = count_black(&grid);
                    } else {
                        let ghost gpre2 = grid;
                        grid.set_black(r, c, false);
                        grid.set_black(sym_r, sym_c, false);
                        proof {
                            lemma_rc_index(gpre2, r as int, c as int);
                            lemma_rc_index(gpre2, gpre2.height - 1 - r, gpre2.width - 1 - c);
                            assert(sym_r as int == gpre2.height - 1 - r);
                            assert(sym_c as int == gpre2.width - 1 - c);
                            let p = gpre2.spec_index(r as int, c as int);
                            let q = gpre2.spec_index(sym_r as int, sym_c as int);
                            assert(!grid.cells@[q].is_black);
                            if p != q {
                                assert(!grid.cells@[p].is_black);
                            }
                            lemma_symmetric_pair(gpre2, grid, r as int, c as int);
                        }
                    }
                }
            }
            if self.is_valid_layout(&grid) {
                return grid;
            }
            rounds = rounds + 1;
        }
        let g = Grid::new(self.width, self.height);
        proof {
            lemma_fresh_grid_symmetric(g);
            assert forall|r: int, c0: int, len: int| #[trigger] horiz_run_at(
                g,
                r,
                c0,
                len,
            ) implies len >= 3 by {
                if c0 > 0 {
                    lemma_rc_index(g, r, c0 - 1);
                    assert(false);
                }
                if c0 + len < g.width {
                    lemma_rc_index(g, r, c0 + len);
                    assert(false);
                }
            }
            assert forall|r0: int, c: int, len: int| #[trigger] vert_run_at(
                g,
                r0,
                c,
                len,
            ) implies len >= 3 by {
                if r0 > 0 {
                    lemma_rc_index(g, r0 - 1, c);
                    assert(false);
                }
                if r0 + len < g.height {
                    lemma_rc_index(g, r0 + len, c);
                    assert(false);
                }
            }
        }
        g
    }
}

/// Counts the wall cells of a grid.
fn count_black(grid: &Grid) -> (n: usize)
    requires
        grid.wf(),
{
    let total = grid.cells.len();
    let mut n: usize = 0;
    let mut i: usize = 0;
    while i < total
        invariant
            i <= total,
            total == grid.cells@.len(),
            n <= i,
        decreases total - i,
    {
        if grid.cells[i].is_black {
            n = n + 1;
        }
        i = i + 1;
    }
    n
}

} // verus!
