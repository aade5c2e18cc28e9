//! Slot inventory, arc-consistency propagation over slots, and backtracking
//! search with a minimum-remaining-values heuristic.

use vstd::prelude::*;
use std::collections::VecDeque;
use crate::domain::{Domain, is_letter, letter_idx, idx_char, lemma_singleton_count,
    lemma_subset_count};
use crate::dawg::{Dawg, accepts, accepts_from, walk, edge, lemma_walk_snoc, lemma_walk_append};
use crate::grid::{Cell, Grid};

verus! {

/// A maximal straight run of at least two non-black cells.
#[derive(Clone, Debug)]
pub struct Slot {
    pub id: usize,
    pub r: usize,
    pub c: usize,
    pub length: usize,
    pub is_across: bool,
    pub cells: Vec<(usize, usize)>,
}

/// Columns `c0 .. c0 + len` of row `r` are non-black and bounded by walls or
/// the grid edge on both sides, with `len >= 2`.
pub open spec fn across_slot_at(g: Grid, r: int, c0: int, len: int) -> bool {
    &&& 0 <= r < g.height
    &&& 0 <= c0
    &&& c0 + len <= g.width
    &&& len >= 2
    &&& forall|k: int| 0 <= k < len ==> !(#[trigger] g.cells@[g.spec_index(r, c0 + k)]).is_black
    &&& (c0 == 0 || g.cells@[g.spec_index(r, c0 - 1)].is_black)
    &&& (c0 + len == g.width || g.cells@[g.spec_index(r, c0 + len)].is_black)
}

/// Rows `r0 .. r0 + len` of column `c` are non-black and bounded by walls or
/// the grid edge on both sides, with `len >= 2`.
pub open spec fn down_slot_at(g: Grid, r0: int, c: int, len: int) -> bool {
    &&& 0 <= c < g.width
    &&& 0 <= r0
    &&& r0 + len <= g.height
    &&& len >= 2
    &&& forall|k: int| 0 <= k < len ==> !(#[trigger] g.cells@[g.spec_index(r0 + k, c)]).is_black
    &&& (r0 == 0 || g.cells@[g.spec_index(r0 - 1, c)].is_black)
    &&& (r0 + len == g.height || g.cells@[g.spec_index(r0 + len, c)].is_black)
}

/// The slot record describes a maximal run of the grid and lists its cell
/// coordinates in order.
pub open spec fn slot_matches(g: Grid, s: Slot) -> bool {
    &&& s.length == s.cells@.len()
    &&& s.length >= 2
    &&& if s.is_across {
        &&& across_slot_at(g, s.r as int, s.c as int, s.length as int)
        &&& forall|k: int|
            0 <= k < s.length ==> (#[trigger] s.cells@[k]) == (s.r, (s.c + k) as usize)
    } else {
        &&& down_slot_at(g, s.r as int, s.c as int, s.length as int)
        &&& forall|k: int|
            0 <= k < s.length ==> (#[trigger] s.cells@[k]) == ((s.r + k) as usize, s.c)
    }
}

/// The coordinates of each slot cell are in range and point at a non-black
/// cell.
pub proof fn lemma_slot_cell_in_range(g: Grid, s: Slot, k: int)
    requires
        g.wf(),
        slot_matches(g, s),
        0 <= k < s.length,
    ensures
        (s.cells@[k].0 as int) < g.height,
        (s.cells@[k].1 as int) < g.width,
        !g.cells@[g.spec_index(s.cells@[k].0 as int, s.cells@[k].1 as int)].is_black,
    decreases k,
{
    if s.is_across {
        assert(s.cells@[k] == (s.r, (s.c + k) as usize));
        assert(!g.cells@[g.spec_index(s.r as int, s.c + k)].is_black);
    } else {
        assert(s.cells@[k] == ((s.r + k) as usize, s.c));
        assert(!g.cells@[g.spec_index(s.r + k, s.c as int)].is_black);
    }
}

/// Grids with equal dimensions and wall patterns carry the same slots.
pub open spec fn same_skeleton(g1: Grid, g2: Grid) -> bool {
    &&& g1.width == g2.width
    &&& g1.height == g2.height
    &&& g1.cells@.len() == g2.cells@.len()
    &&& forall|i: int|
        0 <= i < g1.cells@.len() ==> (#[trigger] g2.cells@[i]).is_black == g1.cells@[i].is_black
            && g2.cells@[i].fixed_char == g1.cells@[i].fixed_char
}

/// A position inside the grid has a row-major index inside the cell vector.
pub proof fn lemma_rc_index(g: Grid, r: int, c: int)
    requires
        g.wf(),
        0 <= r < g.height,
        0 <= c < g.width,
    ensures
        0 <= g.spec_index(r, c) < g.cells@.len(),
{
    let w = g.width as int;
    let h = g.height as int;
    assert(r * w + c < w * h) by (nonlinear_arith)
        requires
            r < h && c < w && 0 <= r && 0 <= c && 0 < w,
    ;
    assert(0 <= r * w) by (nonlinear_arith)
        requires
            0 <= r && 0 <= w,
    ;
}

/// A slot of one grid is a slot of every grid with the same skeleton.
pub proof fn lemma_slot_matches_frame(g1: Grid, g2: Grid, s: Slot)
    requires
        g1.wf(),
        same_skeleton(g1, g2),
        slot_matches(g1, s),
    ensures
        slot_matches(g2, s),
{
    let r0 = s.r as int;
    let c0 = s.c as int;
    let len = s.length as int;
    if s.is_across {
        assert forall|k: int| 0 <= k < len implies !(#[trigger] g2.cells@[g2.spec_index(
            r0,
            c0 + k,
        )]).is_black by {
            lemma_rc_index(g1, r0, c0 + k);
            assert(!g1.cells@[g1.spec_index(r0, c0 + k)].is_black);
        }
        if c0 > 0 {
            lemma_rc_index(g1, r0, c0 - 1);
        }
        if c0 + len < g1.width {
            lemma_rc_index(g1, r0, c0 + len);
        }
    } else {
        assert forall|k: int| 0 <= k < len implies !(#[trigger] g2.cells@[g2.spec_index(
            r0 + k,
            c0,
        )]).is_black by {
            lemma_rc_index(g1, r0 + k, c0);
            assert(!g1.cells@[g1.spec_index(r0 + k, c0)].is_black);
        }
        if r0 > 0 {
            lemma_rc_index(g1, r0 - 1, c0);
        }
        if r0 + len < g1.height {
            lemma_rc_index(g1, r0 + len, c0);
        }
    }
}

/// The constraint engine: the grid being filled, the dictionary automaton,
/// the slot inventory, and the cell-to-slot incidence lists.
pub struct Solver {
    pub grid: Grid,
    pub dawg: Dawg,
    pub slots: Vec<Slot>,
    pub cell_to_slots: Vec<Vec<usize>>,
}

impl Solver {
    /// The grid and automaton are well-formed, every slot record matches the
    /// grid, and every incidence entry indexes the slot list.
    pub open spec fn wf(self) -> bool {
        &&& self.grid.wf()
        &&& self.dawg.wf()
        &&& self.cell_to_slots@.len() == self.grid.cells@.len()
        &&& forall|i: int, k: int|
            0 <= i < self.cell_to_slots@.len() && 0 <= k < self.cell_to_slots@[i]@.len() ==> (
            #[trigger] self.cell_to_slots@[i]@[k]) < self.slots@.len()
        &&& forall|s: int|
            0 <= s < self.slots@.len() ==> slot_matches(self.grid, #[trigger] self.slots@[s])
                && self.slots@[s].id == s
    }

    /// The grid in its current state.
    pub open spec fn spec_grid(self) -> Grid {
        self.grid
    }

    /// The dictionary automaton.
    pub open spec fn spec_dawg(self) -> Dawg {
        self.dawg
    }

    /// The slot inventory.
    pub open spec fn spec_slots(self) -> Seq<Slot> {
        self.slots@
    }

    /// Read access to the grid in its current state.
    pub fn current_grid(&self) -> (g: &Grid)
        ensures
            *g == self.spec_grid(),
    {
        &self.grid
    }

    /// Number of slots in the inventory.
    pub fn slot_count(&self) -> (n: usize)
        ensures
            n == self.spec_slots().len(),
    {
        self.slots.len()
    }

    /// Builds the engine for a grid and a dictionary. The slot inventory is
    /// sound (each entry is a maximal run of the grid, by `wf`), complete
    /// (every maximal run of the grid stands in it), free of duplicates, and
    /// enumerated in order: across slots first in row-major order of their
    /// start cells, then down slots in column-major order, ids in
    /// enumeration order. Each cell's incidence list holds exactly the
    /// slots passing through that cell.
    pub fn new(grid: Grid, dawg: Dawg) -> (s: Solver)
        requires
            grid.wf(),
            dawg.wf(),
        ensures
            s.wf(),
            s.spec_grid() == grid,
            s.spec_dawg() == dawg,
            forall|rw: int, c0: int, len: int|
                #[trigger] across_slot_at(grid, rw, c0, len) ==> has_across_slot(
                    s.spec_slots(),
                    rw,
                    c0,
                    len,
                ),
            forall|r0: int, cl: int, len: int|
                #[trigger] down_slot_at(grid, r0, cl, len) ==> has_down_slot(
                    s.spec_slots(),
                    r0,
                    cl,
                    len,
                ),
            forall|s1: int, s2: int|
                0 <= s1 < s2 < s.spec_slots().len() ==> slot_order(
                    #[trigger] s.spec_slots()[s1],
                    #[trigger] s.spec_slots()[s2],
                ),
            forall|s1: int, s2: int|
                0 <= s1 < s2 < s.spec_slots().len() ==> !((#[trigger] s.spec_slots()[s1]).is_across
                    == (#[trigger] s.spec_slots()[s2]).is_across && s.spec_slots()[s1].r
                    == s.spec_slots()[s2].r && s.spec_slots()[s1].c == s.spec_slots()[s2].c
                    && s.spec_slots()[s1].length == s.spec_slots()[s2].length),
            s.cell_to_slots@.len() == grid.cells@.len(),
            forall|i: int, sid: int|
                0 <= i < s.cell_to_slots@.len() && 0 <= sid < s.spec_slots().len() ==> ((
                #[trigger] s.cell_to_slots@[i]@.contains(sid as usize)) <==> slot_covers(
                    grid,
                    s.spec_slots()[sid],
                    i,
                )),
            incidence_exact(grid, s.spec_slots(), s.cell_to_slots@),
    {
        let (slots, cell_to_slots) = identify_slots(&grid);
        Solver { grid, dawg, slots, cell_to_slots }
    }
}

/// Appends `val` to the inner vector at `idx`.
fn push_entry(v: &mut Vec<Vec<usize>>, idx: usize, val: usize)
    requires
        idx < old(v)@.len(),
    ensures
        final(v)@.len() == old(v)@.len(),
        final(v)@[idx as int]@ == old(v)@[idx as int]@.push(val),
        forall|i: int| 0 <= i < old(v)@.len() && i != idx ==> final(v)@[i] == old(v)@[i],
{
    let mut inner: Vec<usize> = Vec::new();
    let len = v[idx].len();
    let mut i: usize = 0;
    while i < len
        invariant
            idx < v@.len(),
            len == v@[idx as int]@.len(),
            i <= len,
            inner@.len() == i,
            forall|k: int| 0 <= k < i ==> inner@[k] == v@[idx as int]@[k],
        decreases len - i,
    {
        inner.push(v[idx][i]);
        i = i + 1;
    }
    inner.push(val);
    proof {
        assert(inner@ =~= v@[idx as int]@.push(val));
    }
    v.set(idx, inner);
}

/// Scans the grid and enumerates every maximal run of at least two non-black
/// cells: across slots first in row-major order, then down slots in
/// column-major order. Also builds the incidence lists from cell index to
/// the slots passing through it.
/// The inventory holds an across slot with this row, start column and
/// length.
pub open spec fn has_across_slot(slots: Seq<Slot>, rw: int, c0: int, len: int) -> bool {
    exists|s: int|
        0 <= s < slots.len() && (#[trigger] slots[s]).is_across && slots[s].r == rw && slots[s].c
            == c0 && slots[s].length == len
}

/// The inventory holds a down slot with this start row, column and length.
pub open spec fn has_down_slot(slots: Seq<Slot>, r0: int, cl: int, len: int) -> bool {
    exists|s: int|
        0 <= s < slots.len() && !(#[trigger] slots[s]).is_across && slots[s].r == r0 && slots[s].c
            == cl && slots[s].length == len
}

/// The enumeration order of the slot inventory: across slots first, in
/// row-major order of their start cells, then down slots in column-major
/// order.
pub open spec fn slot_order(a: Slot, b: Slot) -> bool {
    if a.is_across && !b.is_across {
        true
    } else if a.is_across && b.is_across {
        (a.r as int) < b.r as int || (a.r == b.r && (a.c as int) < b.c as int)
    } else if !a.is_across && !b.is_across {
        (a.c as int) < b.c as int || (a.c == b.c && (a.r as int) < b.r as int)
    } else {
        false
    }
}

/// Slot `s` passes through the cell with row-major index `idx`.
pub open spec fn slot_covers(g: Grid, s: Slot, idx: int) -> bool {
    exists|k: int|
        0 <= k < s.cells@.len() && g.spec_index(
            (#[trigger] s.cells@[k]).0 as int,
            s.cells@[k].1 as int,
        ) == idx
}

/// Membership in a pushed sequence of slot ids.
proof fn lemma_contains_push_usize(s: Seq<usize>, e: usize, x: usize)
    ensures
        s.push(e).contains(x) <==> (s.contains(x) || x == e),
{
    if s.contains(x) {
        let j = choose|j: int| 0 <= j < s.len() && s[j] == x;
        assert(s.push(e)[j] == x);
    }
    if x == e {
        assert(s.push(e)[s.len() as int] == x);
    }
    if s.push(e).contains(x) {
        let j = choose|j: int| 0 <= j < s.push(e).len() && s.push(e)[j] == x;
        if j < s.len() {
            assert(s[j] == x);
        }
    }
}

fn identify_slots(grid: &Grid) -> (r: (Vec<Slot>, Vec<Vec<usize>>))
    requires
        grid.wf(),
    ensures
        r.1@.len() == grid.cells@.len(),
        forall|i: int, k: int|
            0 <= i < r.1@.len() && 0 <= k < r.1@[i]@.len() ==> (#[trigger] r.1@[i]@[k])
                < r.0@.len(),
        forall|s: int|
            0 <= s < r.0@.len() ==> slot_matches(*grid, #[trigger] r.0@[s]) && r.0@[s].id == s,
        forall|rw: int, c0: int, len: int|
            #[trigger] across_slot_at(*grid, rw, c0, len) ==> has_across_slot(r.0@, rw, c0, len),
        forall|r0: int, cl: int, len: int|
            #[trigger] down_slot_at(*grid, r0, cl, len) ==> has_down_slot(r.0@, r0, cl, len),
        forall|s1: int, s2: int|
            0 <= s1 < s2 < r.0@.len() ==> slot_order(#[trigger] r.0@[s1], #[trigger] r.0@[s2]),
        forall|i: int, sid: int|
            0 <= i < r.1@.len() && 0 <= sid < r.0@.len() ==> ((#[trigger] r.1@[i]@.contains(
                sid as usize,
            )) <==> slot_covers(*grid, r.0@[sid], i)),
{
    let mut slots: Vec<Slot> = Vec::new();
    let mut cell_to_slots: Vec<Vec<usize>> = Vec::new();
    let total = grid.cells.len();
    let mut t: usize = 0;
    while t < total
        invariant
            t <= total,
            cell_to_slots@.len() == t,
            forall|i: int| 0 <= i < t ==> (#[trigger] cell_to_slots@[i])@.len() == 0,
        decreases total - t,
    {
        cell_to_slots.push(Vec::new());
        t = t + 1;
    }
    let mut r: usize = 0;
    while r < grid.height
        invariant
            grid.wf(),
            r <= grid.height,
            cell_to_slots@.len() == grid.cells@.len(),
            forall|i: int, k: int|
                0 <= i < cell_to_slots@.len() && 0 <= k < cell_to_slots@[i]@.len() ==> ((
                #[trigger] cell_to_slots@[i]@[k]) as int) < slots@.len() && slot_covers(
                    *grid,
                    slots@[cell_to_slots@[i]@[k] as int],
                    i,
                ),
            forall|sid: int, kk: int|
                0 <= sid < slots@.len() && 0 <= kk < slots@[sid].cells@.len()
                    ==> cell_to_slots@[grid.spec_index(
                    (#[trigger] slots@[sid].cells@[kk]).0 as int,
                    slots@[sid].cells@[kk].1 as int,
                )]@.contains(sid as usize),
            forall|s: int|
                0 <= s < slots@.len() ==> slot_matches(*grid, #[trigger] slots@[s])
                    && slots@[s].id == s,
            forall|s: int| 0 <= s < slots@.len() ==> (#[trigger] slots@[s]).is_across,
            forall|s: int| 0 <= s < slots@.len() ==> ((#[trigger] slots@[s]).r as int) < r as int,
            forall|s1: int, s2: int|
                0 <= s1 < s2 < slots@.len() ==> slot_order(
                    #[trigger] slots@[s1],
                    #[trigger] slots@[s2],
                ),
            forall|rw: int, c0: int, len: int|
                0 <= rw < r && #[trigger] across_slot_at(*grid, rw, c0, len) ==> has_across_slot(
                    slots@,
                    rw,
                    c0,
                    len,
                ),
        decreases grid.height - r,
    {
        let mut c: usize = 0;
        while c < grid.width
            invariant
                grid.wf(),
                r < grid.height,
                c <= grid.width,
                c == 0 || c == grid.width || grid.cells@[grid.spec_index(r as int, c - 1)].is_black
                    || grid.cells@[grid.spec_index(r as int, c as int)].is_black,
                cell_to_slots@.len() == grid.cells@.len(),
                forall|i: int, k: int|
                    0 <= i < cell_to_slots@.len() && 0 <= k < cell_to_slots@[i]@.len() ==> ((
                    #[trigger] cell_to_slots@[i]@[k]) as int) < slots@.len() && slot_covers(
                        *grid,
                        slots@[cell_to_slots@[i]@[k] as int],
                        i,
                    ),
                forall|sid: int, kk: int|
                    0 <= sid < slots@.len() && 0 <= kk < slots@[sid].cells@.len()
                        ==> cell_to_slots@[grid.spec_index(
                        (#[trigger] slots@[sid].cells@[kk]).0 as int,
                        slots@[sid].cells@[kk].1 as int,
                    )]@.contains(sid as usize),
                forall|s: int|
                    0 <= s < slots@.len() ==> slot_matches(*grid, #[trigger] slots@[s])
                        && slots@[s].id == s,
                forall|s: int| 0 <= s < slots@.len() ==> (#[trigger] slots@[s]).is_across,
                forall|s: int|
                    0 <= s < slots@.len() ==> ((#[trigger] slots@[s]).r as int) < r as int || (
                    slots@[s].r == r && ((slots@[s].c as int) < c as int)),
                forall|s1: int, s2: int|
                    0 <= s1 < s2 < slots@.len() ==> slot_order(
                        #[trigger] slots@[s1],
                        #[trigger] slots@[s2],
                    ),
                forall|rw: int, c0: int, len: int|
                    0 <= rw < r && #[trigger] across_slot_at(*grid, rw, c0, len)
                        ==> has_across_slot(slots@, rw, c0, len),
                forall|c0: int, len: int|
                    #[trigger] across_slot_at(*grid, r as int, c0, len) && c0 + len <= c
                        ==> has_across_slot(slots@, r as int, c0, len),
            decreases grid.width - c,
        {
            if grid.get_cell(r, c).is_black {
                proof {
                    assert forall|c0: int, len: int|
                        #[trigger] across_slot_at(*grid, r as int, c0, len) && c0 + len <= c
                            + 1 implies has_across_slot(slots@, r as int, c0, len) by {
                        if c0 + len == c + 1 {
                            lemma_rc_index(*grid, r as int, c0 + (len - 1));
                            assert(!grid.cells@[grid.spec_index(
                                r as int,
                                c0 + (len - 1),
                            )].is_black);
                            assert(false);
                        }
                    }
                }
                c = c + 1;
            } else {
                let start = c;
                while c < grid.width && !grid.get_cell(r, c).is_black
                    invariant
                        grid.wf(),
                        r < grid.height,
                        start <= c <= grid.width,
                        start == 0 || grid.cells@[grid.spec_index(r as int, start - 1)].is_black,
                        forall|j: int|
                            start <= j < c ==> !(#[trigger] grid.cells@[grid.spec_index(
                                r as int,
                                j,
                            )]).is_black,
                    decreases grid.width - c,
                {
                    c = c + 1;
                }
                let length = c - start;
                if length >= 2 {
                    let slot_id = slots.len();
                    let mut cells: Vec<(usize, usize)> = Vec::new();
                    let mut k: usize = 0;
                    while k < length
                        invariant
                            k <= length,
                            cells@.len() == k,
                            start + length <= grid.width,
                            forall|kk: int|
                                0 <= kk < k ==> (#[trigger] cells@[kk]) == (
                                r,
                                (start + kk) as usize,
                            ),
                        decreases length - k,
                    {
                        cells.push((r, start + k));
                        k = k + 1;
                    }
                    let slot = Slot { id: slot_id, r, c: start, length, is_across: true, cells };
                    proof {
                        assert(across_slot_at(*grid, r as int, start as int, length as int));
                        assert(slot_matches(*grid, slot));
                    }
                    let ghost prev_slots = slots@;
                    slots.push(slot);
                    proof {
                        assert forall|rw: int, c0: int, len: int|
                            has_across_slot(prev_slots, rw, c0, len) implies has_across_slot(
                            slots@,
                            rw,
                            c0,
                            len,
                        ) by {
                            let s = choose|s: int|
                                0 <= s < prev_slots.len() && (#[trigger] prev_slots[s]).is_across
                                    && prev_slots[s].r == rw && prev_slots[s].c == c0
                                    && prev_slots[s].length == len;
                            assert(slots@[s] == prev_slots[s]);
                        }
                        assert(slots@[prev_slots.len() as int] == slot);
                        assert forall|c0: int, len: int|
                            #[trigger] across_slot_at(*grid, r as int, c0, len) && c0 + len
                                <= c implies has_across_slot(slots@, r as int, c0, len) by {
                            if c0 + len > start {
                                assert(crate::layout::horiz_run_at(*grid, r as int, c0, len));
                                crate::layout::lemma_horiz_run_unique(
                                    *grid,
                                    r as int,
                                    start as int,
                                    c as int,
                                    c0,
                                    len,
                                );
                            }
                        }
                    }
                    let mut k2: usize = 0;
                    while k2 < length
                        invariant
                            grid.wf(),
                            r < grid.height,
                            k2 <= length,
                            start + length <= grid.width,
                            slot_id < slots@.len(),
                            slot_id == slots@.len() - 1,
                            slots@[slot_id as int].cells@.len() == length,
                            forall|s: int|
                                0 <= s < slots@.len() ==> slot_matches(
                                    *grid,
                                    #[trigger] slots@[s],
                                ) && slots@[s].id == s,
                            forall|kk: int|
                                0 <= kk < length ==> (#[trigger] slots@[slot_id as int].cells@[kk])
                                    == (r, (start + kk) as usize),
                            cell_to_slots@.len() == grid.cells@.len(),
                            forall|i: int, kk: int|
                                0 <= i < cell_to_slots@.len() && 0 <= kk < cell_to_slots@[i]@.len()
                                    ==> ((#[trigger] cell_to_slots@[i]@[kk]) as int)
                                    < slots@.len() && slot_covers(
                                    *grid,
                                    slots@[cell_to_slots@[i]@[kk] as int],
                                    i,
                                ),
                            forall|sid: int, kk: int|
                                0 <= sid < slots@.len() - 1 && 0 <= kk
                                    < slots@[sid].cells@.len() ==> cell_to_slots@[grid.spec_index(
                                    (#[trigger] slots@[sid].cells@[kk]).0 as int,
                                    slots@[sid].cells@[kk].1 as int,
                                )]@.contains(sid as usize),
                            forall|kk: int|
                                0 <= kk < k2 ==> cell_to_slots@[grid.spec_index(
                                    (#[trigger] slots@[slot_id as int].cells@[kk]).0 as int,
                                    slots@[slot_id as int].cells@[kk].1 as int,
                                )]@.contains(slot_id),
                        decreases length - k2,
                    {
                        let idx = grid.get_index(r, start + k2);
                        let ghost prev_lists = cell_to_slots@;
                        push_entry(&mut cell_to_slots, idx, slot_id);
                        proof {
                            assert forall|i: int, kk: int|
                                0 <= i < cell_to_slots@.len() && 0 <= kk
                                    < cell_to_slots@[i]@.len() implies ((
                            #[trigger] cell_to_slots@[i]@[kk]) as int) < slots@.len()
                                && slot_covers(
                                *grid,
                                slots@[cell_to_slots@[i]@[kk] as int],
                                i,
                            ) by {
                                if i == idx as int && kk == cell_to_slots@[i]@.len() - 1 {
                                    assert(cell_to_slots@[i]@[kk] == slot_id);
                                    assert(slots@[slot_id as int].cells@[k2 as int] == (
                                        r,
                                        (start + k2) as usize,
                                    ));
                                    assert(grid.spec_index(r as int, start + k2) == idx as int);
                                    assert(slot_covers(*grid, slots@[slot_id as int], i));
                                } else {
                                    assert(cell_to_slots@[i]@[kk] == prev_lists[i]@[kk]);
                                }
                            }
                            assert forall|sid: int, kk: int|
                                0 <= sid < slots@.len() - 1 && 0 <= kk
                                    < slots@[sid].cells@.len() implies cell_to_slots@[grid.spec_index(
                                (#[trigger] slots@[sid].cells@[kk]).0 as int,
                                slots@[sid].cells@[kk].1 as int,
                            )]@.contains(sid as usize) by {
                                lemma_slot_cell_in_range(*grid, slots@[sid], kk);
                                lemma_rc_index(
                                    *grid,
                                    slots@[sid].cells@[kk].0 as int,
                                    slots@[sid].cells@[kk].1 as int,
                                );
                                let ci = grid.spec_index(
                                    slots@[sid].cells@[kk].0 as int,
                                    slots@[sid].cells@[kk].1 as int,
                                );
                                assert(prev_lists[ci]@.contains(sid as usize));
                                if ci == idx as int {
                                    assert(cell_to_slots@[ci]@ == prev_lists[ci]@.push(slot_id));
                                    lemma_contains_push_usize(
                                        prev_lists[ci]@,
                                        slot_id,
                                        sid as usize,
                                    );
                                } else {
                                    assert(cell_to_slots@[ci] == prev_lists[ci]);
                                }
                            }
                            assert forall|kk: int|
                                0 <= kk < k2 + 1 implies cell_to_slots@[grid.spec_index(
                                (#[trigger] slots@[slot_id as int].cells@[kk]).0 as int,
                                slots@[slot_id as int].cells@[kk].1 as int,
                            )]@.contains(slot_id) by {
                                lemma_slot_cell_in_range(*grid, slots@[slot_id as int], kk);
                                lemma_rc_index(
                                    *grid,
                                    slots@[slot_id as int].cells@[kk].0 as int,
                                    slots@[slot_id as int].cells@[kk].1 as int,
                                );
                                let ci = grid.spec_index(
                                    slots@[slot_id as int].cells@[kk].0 as int,
                                    slots@[slot_id as int].cells@[kk].1 as int,
                                );
                                if kk == k2 as int {
                                    assert(ci == idx as int);
                                    assert(cell_to_slots@[ci]@ == prev_lists[ci]@.push(slot_id));
                                    assert(cell_to_slots@[ci]@[cell_to_slots@[ci]@.len() - 1]
                                        == slot_id);
                                    assert(cell_to_slots@[ci]@.contains(slot_id));
                                } else {
                                    assert(prev_lists[ci]@.contains(slot_id));
                                    if ci == idx as int {
                                        assert(cell_to_slots@[ci]@ == prev_lists[ci]@.push(
                                            slot_id,
                                        ));
                                        lemma_contains_push_usize(
                                            prev_lists[ci]@,
                                            slot_id,
                                            slot_id,
                                        );
                                    } else {
                                        assert(cell_to_slots@[ci] == prev_lists[ci]);
                                    }
                                }
                            }
                        }
                        k2 = k2 + 1;
                    }
                } else {
                    proof {
                        assert forall|c0: int, len: int|
                            #[trigger] across_slot_at(*grid, r as int, c0, len) && c0 + len
                                <= c implies has_across_slot(slots@, r as int, c0, len) by {
                            if c0 + len > start {
                                assert(crate::layout::horiz_run_at(*grid, r as int, c0, len));
                                crate::layout::lemma_horiz_run_unique(
                                    *grid,
                                    r as int,
                                    start as int,
                                    c as int,
                                    c0,
                                    len,
                                );
                                assert(false);
                            }
                        }
                    }
                }
            }
        }
        r = r + 1;
    }
    let ghost nacross = slots@.len() as int;
    let mut cc: usize = 0;
    while cc < grid.width
        invariant
            grid.wf(),
            cc <= grid.width,
            cell_to_slots@.len() == grid.cells@.len(),
            forall|i: int, k: int|
                0 <= i < cell_to_slots@.len() && 0 <= k < cell_to_slots@[i]@.len() ==> ((
                #[trigger] cell_to_slots@[i]@[k]) as int) < slots@.len() && slot_covers(
                    *grid,
                    slots@[cell_to_slots@[i]@[k] as int],
                    i,
                ),
            forall|sid: int, kk: int|
                0 <= sid < slots@.len() && 0 <= kk < slots@[sid].cells@.len()
                    ==> cell_to_slots@[grid.spec_index(
                    (#[trigger] slots@[sid].cells@[kk]).0 as int,
                    slots@[sid].cells@[kk].1 as int,
                )]@.contains(sid as usize),
            forall|s: int|
                0 <= s < slots@.len() ==> slot_matches(*grid, #[trigger] slots@[s])
                    && slots@[s].id == s,
            0 <= nacross <= slots@.len(),
            forall|s: int| 0 <= s < nacross ==> (#[trigger] slots@[s]).is_across,
            forall|s: int|
                nacross <= s < slots@.len() ==> !(#[trigger] slots@[s]).is_across && ((
                slots@[s].c as int) < cc as int),
            forall|s1: int, s2: int|
                0 <= s1 < s2 < slots@.len() ==> slot_order(
                    #[trigger] slots@[s1],
                    #[trigger] slots@[s2],
                ),
            forall|rw: int, c0: int, len: int|
                #[trigger] across_slot_at(*grid, rw, c0, len) ==> has_across_slot(
                    slots@,
                    rw,
                    c0,
                    len,
                ),
            forall|r0: int, c2: int, len: int|
                0 <= c2 < cc && #[trigger] down_slot_at(*grid, r0, c2, len) ==> has_down_slot(
                    slots@,
                    r0,
                    c2,
                    len,
                ),
        decreases grid.width - cc,
    {
        let mut rr: usize = 0;
        while rr < grid.height
            invariant
                grid.wf(),
                cc < grid.width,
                rr <= grid.height,
                rr == 0 || rr == grid.height || grid.cells@[grid.spec_index(
                    rr - 1,
                    cc as int,
                )].is_black || grid.cells@[grid.spec_index(rr as int, cc as int)].is_black,
                cell_to_slots@.len() == grid.cells@.len(),
                forall|i: int, k: int|
                    0 <= i < cell_to_slots@.len() && 0 <= k < cell_to_slots@[i]@.len() ==> ((
                    #[trigger] cell_to_slots@[i]@[k]) as int) < slots@.len() && slot_covers(
                        *grid,
                        slots@[cell_to_slots@[i]@[k] as int],
                        i,
                    ),
                forall|sid: int, kk: int|
                    0 <= sid < slots@.len() && 0 <= kk < slots@[sid].cells@.len()
                        ==> cell_to_slots@[grid.spec_index(
                        (#[trigger] slots@[sid].cells@[kk]).0 as int,
                        slots@[sid].cells@[kk].1 as int,
                    )]@.contains(sid as usize),
                forall|s: int|
                    0 <= s < slots@.len() ==> slot_matches(*grid, #[trigger] slots@[s])
                        && slots@[s].id == s,
                0 <= nacross <= slots@.len(),
                forall|s: int| 0 <= s < nacross ==> (#[trigger] slots@[s]).is_across,
                forall|s: int|
                    nacross <= s < slots@.len() ==> !(#[trigger] slots@[s]).is_across && (((
                    slots@[s].c as int) < cc as int) || (slots@[s].c == cc && ((
                    slots@[s].r as int) < rr as int))),
                forall|s1: int, s2: int|
                    0 <= s1 < s2 < slots@.len() ==> slot_order(
                        #[trigger] slots@[s1],
                        #[trigger] slots@[s2],
                    ),
                forall|rw: int, c0: int, len: int|
                    #[trigger] across_slot_at(*grid, rw, c0, len) ==> has_across_slot(
                        slots@,
                        rw,
                        c0,
                        len,
                    ),
                forall|r0: int, c2: int, len: int|
                    0 <= c2 < cc && #[trigger] down_slot_at(*grid, r0, c2, len) ==> has_down_slot(
                        slots@,
                        r0,
                        c2,
                        len,
                    ),
                forall|r0: int, len: int|
                    #[trigger] down_slot_at(*grid, r0, cc as int, len) && r0 + len <= rr
                        ==> has_down_slot(slots@, r0, cc as int, len),
            decreases grid.height - rr,
        {
            if grid.get_cell(rr, cc).is_black {
                proof {
                    assert forall|r0: int, len: int|
                        #[trigger] down_slot_at(*grid, r0, cc as int, len) && r0 + len <= rr
                            + 1 implies has_down_slot(slots@, r0, cc as int, len) by {
                        if r0 + len == rr + 1 {
                            lemma_rc_index(*grid, r0 + (len - 1), cc as int);
                            assert(!grid.cells@[grid.spec_index(
                                r0 + (len - 1),
                                cc as int,
                            )].is_black);
                            assert(false);
                        }
                    }
                }
                rr = rr + 1;
            } else {
                let start = rr;
                while rr < grid.height && !grid.get_cell(rr, cc).is_black
                    invariant
                        grid.wf(),
                        cc < grid.width,
                        start <= rr <= grid.height,
                        start == 0 || grid.cells@[grid.spec_index(start - 1, cc as int)].is_black,
                        forall|j: int|
                            start <= j < rr ==> !(#[trigger] grid.cells@[grid.spec_index(
                                j,
                                cc as int,
                            )]).is_black,
                    decreases grid.height - rr,
                {
                    rr = rr + 1;
                }
                let length = rr - start;
                if length >= 2 {
                    let slot_id = slots.len();
                    let mut cells: Vec<(usize, usize)> = Vec::new();
                    let mut k: usize = 0;
                    while k < length
                        invariant
                            k <= length,
                            cells@.len() == k,
                            start + length <= grid.height,
                            forall|kk: int|
                                0 <= kk < k ==> (#[trigger] cells@[kk]) == (
                                (start + kk) as usize,
                                cc,
                            ),
                        decreases length - k,
                    {
                        cells.push((start + k, cc));
                        k = k + 1;
                    }
                    let slot = Slot { id: slot_id, r: start, c: cc, length, is_across: false, cells };
                    proof {
                        assert(down_slot_at(*grid, start as int, cc as int, length as int));
                        assert(slot_matches(*grid, slot));
                    }
                    let ghost prev_slots = slots@;
                    slots.push(slot);
                    proof {
                        assert forall|rw: int, c0: int, len: int|
                            has_across_slot(prev_slots, rw, c0, len) implies has_across_slot(
                            slots@,
                            rw,
                            c0,
                            len,
                        ) by {
                            let s = choose|s: int|
                                0 <= s < prev_slots.len() && (#[trigger] prev_slots[s]).is_across
                                    && prev_slots[s].r == rw && prev_slots[s].c == c0
                                    && prev_slots[s].length == len;
                            assert(slots@[s] == prev_slots[s]);
                        }
                        assert forall|r0: int, c2: int, len: int|
                            has_down_slot(prev_slots, r0, c2, len) implies has_down_slot(
                            slots@,
                            r0,
                            c2,
                            len,
                        ) by {
                            let s = choose|s: int|
                                0 <= s < prev_slots.len() && !(#[trigger] prev_slots[s]).is_across
                                    && prev_slots[s].r == r0 && prev_slots[s].c == c2
                                    && prev_slots[s].length == len;
                            assert(slots@[s] == prev_slots[s]);
                        }
                        assert(slots@[prev_slots.len() as int] == slot);
                        assert forall|r0: int, len: int|
                            #[trigger] down_slot_at(*grid, r0, cc as int, len) && r0 + len
                                <= rr implies has_down_slot(slots@, r0, cc as int, len) by {
                            if r0 + len > start {
                                assert(crate::layout::vert_run_at(*grid, r0, cc as int, len));
                                crate::layout::lemma_vert_run_unique(
                                    *grid,
                                    cc as int,
                                    start as int,
                                    rr as int,
                                    r0,
                                    len,
                                );
                            }
                        }
                    }
                    let mut k2: usize = 0;
                    while k2 < length
                        invariant
                            grid.wf(),
                            cc < grid.width,
                            k2 <= length,
                            start + length <= grid.height,
                            slot_id < slots@.len(),
                            slot_id == slots@.len() - 1,
                            slots@[slot_id as int].cells@.len() == length,
                            forall|s: int|
                                0 <= s < slots@.len() ==> slot_matches(
                                    *grid,
                                    #[trigger] slots@[s],
                                ) && slots@[s].id == s,
                            forall|kk: int|
                                0 <= kk < length ==> (#[trigger] slots@[slot_id as int].cells@[kk])
                                    == ((start + kk) as usize, cc),
                            cell_to_slots@.len() == grid.cells@.len(),
                            forall|i: int, kk: int|
                                0 <= i < cell_to_slots@.len() && 0 <= kk < cell_to_slots@[i]@.len()
                                    ==> ((#[trigger] cell_to_slots@[i]@[kk]) as int)
                                    < slots@.len() && slot_covers(
                                    *grid,
                                    slots@[cell_to_slots@[i]@[kk] as int],
                                    i,
                                ),
                            forall|sid: int, kk: int|
                                0 <= sid < slots@.len() - 1 && 0 <= kk
                                    < slots@[sid].cells@.len() ==> cell_to_slots@[grid.spec_index(
                                    (#[trigger] slots@[sid].cells@[kk]).0 as int,
                                    slots@[sid].cells@[kk].1 as int,
                                )]@.contains(sid as usize),
                            forall|kk: int|
                                0 <= kk < k2 ==> cell_to_slots@[grid.spec_index(
                                    (#[trigger] slots@[slot_id as int].cells@[kk]).0 as int,
                                    slots@[slot_id as int].cells@[kk].1 as int,
                                )]@.contains(slot_id),
                        decreases length - k2,
                    {
                        let idx = grid.get_index(start + k2, cc);
                        let ghost prev_lists = cell_to_slots@;
                        push_entry(&mut cell_to_slots, idx, slot_id);
                        proof {
                            assert forall|i: int, kk: int|
                                0 <= i < cell_to_slots@.len() && 0 <= kk
                                    < cell_to_slots@[i]@.len() implies ((
                            #[trigger] cell_to_slots@[i]@[kk]) as int) < slots@.len()
                                && slot_covers(
                                *grid,
                                slots@[cell_to_slots@[i]@[kk] as int],
                                i,
                            ) by {
                                if i == idx as int && kk == cell_to_slots@[i]@.len() - 1 {
                                    assert(cell_to_slots@[i]@[kk] == slot_id);
                                    assert(slots@[slot_id as int].cells@[k2 as int] == (
                                        (start + k2) as usize,
                                        cc,
                                    ));
                                    assert(grid.spec_index(start + k2, cc as int) == idx as int);
                                    assert(slot_covers(*grid, slots@[slot_id as int], i));
                                } else {
                                    assert(cell_to_slots@[i]@[kk] == prev_lists[i]@[kk]);
                                }
                            }
                            assert forall|sid: int, kk: int|
                                0 <= sid < slots@.len() - 1 && 0 <= kk
                                    < slots@[sid].cells@.len() implies cell_to_slots@[grid.spec_index(
                                (#[trigger] slots@[sid].cells@[kk]).0 as int,
                                slots@[sid].cells@[kk].1 as int,
                            )]@.contains(sid as usize) by {
                                lemma_slot_cell_in_range(*grid, slots@[sid], kk);
                                lemma_rc_index(
                                    *grid,
                                    slots@[sid].cells@[kk].0 as int,
                                    slots@[sid].cells@[kk].1 as int,
                                );
                                let ci = grid.spec_index(
                                    slots@[sid].cells@[kk].0 as int,
                                    slots@[sid].cells@[kk].1 as int,
                                );
                                assert(prev_lists[ci]@.contains(sid as usize));
                                if ci == idx as int {
                                    assert(cell_to_slots@[ci]@ == prev_lists[ci]@.push(slot_id));
                                    lemma_contains_push_usize(
                                        prev_lists[ci]@,
                                        slot_id,
                                        sid as usize,
                                    );
                                } else {
                                    assert(cell_to_slots@[ci] == prev_lists[ci]);
                                }
                            }
                            assert forall|kk: int|
                                0 <= kk < k2 + 1 implies cell_to_slots@[grid.spec_index(
                                (#[trigger] slots@[slot_id as int].cells@[kk]).0 as int,
                                slots@[slot_id as int].cells@[kk].1 as int,
                            )]@.contains(slot_id) by {
                                lemma_slot_cell_in_range(*grid, slots@[slot_id as int], kk);
                                lemma_rc_index(
                                    *grid,
                                    slots@[slot_id as int].cells@[kk].0 as int,
                                    slots@[slot_id as int].cells@[kk].1 as int,
                                );
                                let ci = grid.spec_index(
                                    slots@[slot_id as int].cells@[kk].0 as int,
                                    slots@[slot_id as int].cells@[kk].1 as int,
                                );
                                if kk == k2 as int {
                                    assert(ci == idx as int);
                                    assert(cell_to_slots@[ci]@ == prev_lists[ci]@.push(slot_id));
                                    assert(cell_to_slots@[ci]@[cell_to_slots@[ci]@.len() - 1]
                                        == slot_id);
                                    assert(cell_to_slots@[ci]@.contains(slot_id));
                                } else {
                                    assert(prev_lists[ci]@.contains(slot_id));
                                    if ci == idx as int {
                                        assert(cell_to_slots@[ci]@ == prev_lists[ci]@.push(
                                            slot_id,
                                        ));
                                        lemma_contains_push_usize(
                                            prev_lists[ci]@,
                                            slot_id,
                                            slot_id,
                                        );
                                    } else {
                                        assert(cell_to_slots@[ci] == prev_lists[ci]);
                                    }
                                }
                            }
                        }
                        k2 = k2 + 1;
                    }
                } else {
                    proof {
                        assert forall|r0: int, len: int|
                            #[trigger] down_slot_at(*grid, r0, cc as int, len) && r0 + len
                                <= rr implies has_down_slot(slots@, r0, cc as int, len) by {
                            if r0 + len > start {
                                assert(crate::layout::vert_run_at(*grid, r0, cc as int, len));
                                crate::layout::lemma_vert_run_unique(
                                    *grid,
                                    cc as int,
                                    start as int,
                                    rr as int,
                                    r0,
                                    len,
                                );
                                assert(false);
                            }
                        }
                    }
                }
            }
        }
        cc = cc + 1;
    }
    proof {
        assert forall|i: int, sid: int|
            0 <= i < cell_to_slots@.len() && 0 <= sid < slots@.len() implies ((
        #[trigger] cell_to_slots@[i]@.contains(sid as usize)) <==> slot_covers(
            *grid,
            slots@[sid],
            i,
        )) by {
            if cell_to_slots@[i]@.contains(sid as usize) {
                let k = choose|k: int|
                    0 <= k < cell_to_slots@[i]@.len() && cell_to_slots@[i]@[k] == (sid as usize);
                assert(slot_covers(*grid, slots@[cell_to_slots@[i]@[k] as int], i));
            }
            if slot_covers(*grid, slots@[sid], i) {
                let k = choose|k: int|
                    0 <= k < slots@[sid].cells@.len() && grid.spec_index(
                        (#[trigger] slots@[sid].cells@[k]).0 as int,
                        slots@[sid].cells@[k].1 as int,
                    ) == i;
                assert(cell_to_slots@[grid.spec_index(
                    slots@[sid].cells@[k].0 as int,
                    slots@[sid].cells@[k].1 as int,
                )]@.contains(sid as usize));
            }
        }
    }
    (slots, cell_to_slots)
}

/// The dictionary accepts some word of length `len`.
pub open spec fn has_word_of_len(d: Dawg, len: int) -> bool {
    exists|w: Seq<char>| #[trigger] accepts(d, w) && w.len() == len
}

/// The current letter domains of a slot's cells, position by position.
pub open spec fn slot_domains(g: Grid, s: Slot) -> Seq<Domain> {
    Seq::new(
        s.cells@.len() as nat,
        |k: int| g.cells@[g.spec_index(s.cells@[k].0 as int, s.cells@[k].1 as int)].domain,
    )
}

/// Some word accepted from node `n` completes the slot from position `pos`
/// on while staying inside the given domains.
pub open spec fn has_compat_completion(d: Dawg, doms: Seq<Domain>, pos: int, n: int) -> bool {
    exists|w: Seq<char>|
        #[trigger] accepts_from(d, n, w) && w.len() == doms.len() - pos && (forall|j: int|
            0 <= j < w.len() ==> #[trigger] doms[pos + j].spec_has(letter_idx(w[j])))
}

/// Sum of the domain sizes over all cells: the well-founded quantity that
/// propagation and search shrink.
pub open spec fn cells_measure(s: Seq<Cell>) -> nat
    decreases s.len(),
{
    if s.len() == 0 {
        0
    } else {
        cells_measure(s.drop_last()) + s.last().domain.spec_count()
    }
}

/// Replacing one cell changes the measure by the difference of the domain
/// counts.
pub proof fn lemma_measure_update(s: Seq<Cell>, j: int, c: Cell)
    requires
        0 <= j < s.len(),
    ensures
        cells_measure(s.update(j, c)) + s[j].domain.spec_count() == cells_measure(s)
            + c.domain.spec_count(),
    decreases s.len(),
{
    let s2 = s.update(j, c);
    if j == s.len() - 1 {
        assert(s2.drop_last() =~= s.drop_last());
        assert(s2.last() == c);
    } else {
        assert(s2.drop_last() =~= s.drop_last().update(j, c));
        assert(s2.last() == s.last());
        lemma_measure_update(s.drop_last(), j, c);
    }
}

/// Pointwise domain shrinkage never grows the measure.
pub proof fn lemma_measure_le(s1: Seq<Cell>, s2: Seq<Cell>)
    requires
        s1.len() == s2.len(),
        forall|i: int|
            0 <= i < s1.len() ==> (#[trigger] s2[i]).domain.spec_subset_of(s1[i].domain)
                && s2[i].domain.wf() && s1[i].domain.wf(),
    ensures
        cells_measure(s2) <= cells_measure(s1),
    decreases s1.len(),
{
    if s1.len() > 0 {
        assert forall|i: int|
            0 <= i < s1.drop_last().len() implies (#[trigger] s2.drop_last()[i]).domain.spec_subset_of(
            s1.drop_last()[i].domain,
        ) && s2.drop_last()[i].domain.wf() && s1.drop_last()[i].domain.wf() by {
            assert(s2.drop_last()[i] == s2[i]);
            assert(s1.drop_last()[i] == s1[i]);
        }
        lemma_measure_le(s1.drop_last(), s2.drop_last());
        assert(s2.last() == s2[s1.len() - 1]);
        assert(s1.last() == s1[s1.len() - 1]);
        lemma_subset_count(s2.last().domain, s1.last().domain);
    }
}

/// The word an assignment `f` (one character per cell, indexed row-major)
/// spells along a slot.
pub open spec fn fill_word(g: Grid, s: Slot, f: Seq<char>) -> Seq<char> {
    Seq::new(
        s.cells@.len() as nat,
        |k: int| f[g.spec_index(s.cells@[k].0 as int, s.cells@[k].1 as int)],
    )
}

/// `f` solves the instance as it stands: one character per cell, each
/// non-black cell's character inside its current domain, and every slot
/// spelling an accepted word.
pub open spec fn fill_solves(d: Dawg, g: Grid, slots: Seq<Slot>, f: Seq<char>) -> bool {
    &&& f.len() == g.cells@.len()
    &&& forall|i: int|
        0 <= i < g.cells@.len() && !(#[trigger] g.cells@[i]).is_black ==> g.cells@[i].domain.spec_has(
            letter_idx(f[i]),
        )
    &&& forall|s: int| 0 <= s < slots.len() ==> accepts(d, fill_word(g, #[trigger] slots[s], f))
}

/// The word a solving assignment spells along a slot is an accepted,
/// domain-compatible completion of that slot.
pub proof fn lemma_fill_word_compat(d: Dawg, g: Grid, slots: Seq<Slot>, si: int, f: Seq<char>)
    requires
        g.wf(),
        0 <= si < slots.len(),
        slot_matches(g, slots[si]),
        fill_solves(d, g, slots, f),
    ensures
        ({
            let w = fill_word(g, slots[si], f);
            &&& accepts_from(d, 0, w)
            &&& w.len() == slot_domains(g, slots[si]).len()
            &&& forall|j: int|
                0 <= j < w.len() ==> #[trigger] slot_domains(g, slots[si])[j].spec_has(
                    letter_idx(w[j]),
                )
        }),
{
    let s = slots[si];
    let w = fill_word(g, s, f);
    assert(accepts(d, w));
    assert forall|j: int| 0 <= j < w.len() implies #[trigger] slot_domains(g, s)[j].spec_has(
        letter_idx(w[j]),
    ) by {
        lemma_slot_cell_in_range(g, s, j);
        lemma_rc_index(g, s.cells@[j].0 as int, s.cells@[j].1 as int);
        assert(w[j] == f[g.spec_index(s.cells@[j].0 as int, s.cells@[j].1 as int)]);
        assert(!g.cells@[g.spec_index(s.cells@[j].0 as int, s.cells@[j].1 as int)].is_black);
    }
}

/// Every letter of every mask of `a` also stands in `b`'s mask at the same
/// position.
pub open spec fn masks_grow(a: Seq<Domain>, b: Seq<Domain>) -> bool {
    forall|j: int, l: int| 0 <= j < a.len() && a[j].spec_has(l) ==> #[trigger] b[j].spec_has(l)
}

/// The first `n` masks agree.
pub open spec fn masks_same_below(a: Seq<Domain>, b: Seq<Domain>, n: int) -> bool {
    forall|j: int| 0 <= j < n ==> a[j] == b[j]
}

/// Every letter of `b`'s masks is either already in `a`'s or is possible
/// for the slot: some fitting accepted word carries it at that position.
pub open spec fn masks_bound(d: Dawg, doms: Seq<Domain>, a: Seq<Domain>, b: Seq<Domain>) -> bool {
    forall|j: int, l: int|
        0 <= j < b.len() && (#[trigger] b[j].spec_has(l)) ==> ((j < a.len() && a[j].spec_has(l))
            || letter_possible(d, doms, j, l))
}

/// The possibility bound composes.
pub proof fn lemma_masks_bound_trans(d: Dawg, doms: Seq<Domain>, a: Seq<Domain>, b: Seq<Domain>, c: Seq<Domain>)
    requires
        a.len() == b.len(),
        masks_bound(d, doms, a, b),
        masks_bound(d, doms, b, c),
    ensures
        masks_bound(d, doms, a, c),
{
    assert forall|j: int, l: int|
        0 <= j < c.len() && (#[trigger] c[j].spec_has(l)) implies ((j < a.len() && a[j].spec_has(
        l,
    )) || letter_possible(d, doms, j, l)) by {
        if j < b.len() && b[j].spec_has(l) {
        }
    }
}

/// Growth composes.
pub proof fn lemma_masks_grow_trans(a: Seq<Domain>, b: Seq<Domain>, c: Seq<Domain>)
    requires
        a.len() == b.len(),
        masks_grow(a, b),
        masks_grow(b, c),
    ensures
        masks_grow(a, c),
{
    assert forall|j: int, l: int| 0 <= j < a.len() && a[j].spec_has(l) implies #[trigger] c[j].spec_has(
        l,
    ) by {
        assert(b[j].spec_has(l));
    }
}

/// Agreement below a bound composes.
pub proof fn lemma_masks_same_below_trans(a: Seq<Domain>, b: Seq<Domain>, c: Seq<Domain>, n: int)
    requires
        masks_same_below(a, b, n),
        masks_same_below(b, c, n),
    ensures
        masks_same_below(a, c, n),
{
}

/// One letter carried through a growth step.
pub proof fn lemma_masks_grow_elem(a: Seq<Domain>, b: Seq<Domain>, j: int, l: int)
    requires
        masks_grow(a, b),
        0 <= j < a.len(),
        a[j].spec_has(l),
    ensures
        b[j].spec_has(l),
{
}

impl Solver {
    /// Depth-first traversal of the automaton along the slot, descending
    /// only through letters admitted by the cell domains. Returns whether
    /// some accepted completion exists; on the unwind each position's mask
    /// collects the letters of completions found: positions before `pos`
    /// stay untouched, masks only grow, and every letter of every
    /// compatible completion lands in its position's mask.
    fn find_valid_paths(&self, pos: usize, node_idx: usize, slot_idx: usize, masks: &mut Vec<
        Domain,
    >, Ghost(prefix): Ghost<Seq<char>>) -> (found: bool)
        requires
            self.wf(),
            slot_idx < self.slots@.len(),
            pos <= self.slots@[slot_idx as int].length,
            node_idx < self.dawg.nodes@.len(),
            old(masks)@.len() == self.slots@[slot_idx as int].length,
            forall|k: int| 0 <= k < old(masks)@.len() ==> (#[trigger] old(masks)@[k]).wf(),
            prefix.len() == pos,
            walk(self.dawg, 0, prefix) == Some(node_idx as int),
            forall|j: int|
                0 <= j < pos ==> #[trigger] slot_domains(
                    self.grid,
                    self.slots@[slot_idx as int],
                )[j].spec_has(letter_idx(prefix[j])),
        ensures
            final(masks)@.len() == old(masks)@.len(),
            forall|k: int| 0 <= k < final(masks)@.len() ==> (#[trigger] final(masks)@[k]).wf(),
            masks_same_below(old(masks)@, final(masks)@, pos as int),
            masks_grow(old(masks)@, final(masks)@),
            found == has_compat_completion(
                self.dawg,
                slot_domains(self.grid, self.slots@[slot_idx as int]),
                pos as int,
                node_idx as int,
            ),
            forall|w: Seq<char>|
                ((#[trigger] accepts_from(self.dawg, node_idx as int, w)) && w.len()
                    == slot_domains(self.grid, self.slots@[slot_idx as int]).len() - pos && (
                forall|j: int|
                    0 <= j < w.len() ==> #[trigger] slot_domains(
                        self.grid,
                        self.slots@[slot_idx as int],
                    )[pos + j].spec_has(letter_idx(w[j])))) ==> (forall|j: int|
                    0 <= j < w.len() ==> final(masks)@[pos + j].spec_has(letter_idx(w[j]))),
            masks_bound(
                self.dawg,
                slot_domains(self.grid, self.slots@[slot_idx as int]),
                old(masks)@,
                final(masks)@,
            ),
        decreases self.slots@[slot_idx as int].length - pos,
    {
        let ghost d = self.dawg;
        let ghost doms = slot_domains(self.grid, self.slots@[slot_idx as int]);
        proof {
            assert(slot_matches(self.grid, self.slots@[slot_idx as int]));
            assert(doms.len() == self.slots@[slot_idx as int].length);
        }
        let slot_len = self.slots[slot_idx].length;
        if pos == slot_len {
            let t = self.dawg.nodes[node_idx].is_terminal;
            proof {
                let e = Seq::<char>::empty();
                assert(walk(d, node_idx as int, e) == Some(node_idx as int));
                if t {
                    assert(accepts_from(d, node_idx as int, e) && e.len() == 0);
                    assert(has_compat_completion(d, doms, pos as int, node_idx as int));
                } else {
                    if has_compat_completion(d, doms, pos as int, node_idx as int) {
                        let w = choose|w: Seq<char>|
                            #[trigger] accepts_from(d, node_idx as int, w) && w.len() == doms.len()
                                - pos && (forall|j: int|
                                0 <= j < w.len() ==> #[trigger] doms[pos as int + j].spec_has(
                                    letter_idx(w[j]),
                                ));
                        assert(w =~= e);
                        assert(false);
                    }
                }
            }
            return t;
        }
        proof {
            lemma_slot_cell_in_range(self.grid, self.slots@[slot_idx as int], pos as int);
        }
        let coord = self.slots[slot_idx].cells[pos];
        let cell_domain = self.grid.get_cell(coord.0, coord.1).domain;
        proof {
            assert(doms[pos as int] == cell_domain);
        }
        let mut found = false;
        let mut code: u32 = 0;
        while code < 26
            invariant
                self.wf(),
                slot_idx < self.slots@.len(),
                pos < self.slots@[slot_idx as int].length,
                slot_len == self.slots@[slot_idx as int].length,
                node_idx < self.dawg.nodes@.len(),
                d == self.dawg,
                doms == slot_domains(self.grid, self.slots@[slot_idx as int]),
                doms.len() == slot_len,
                doms[pos as int] == cell_domain,
                code <= 26,
                masks@.len() == slot_len,
                old(masks)@.len() == slot_len,
                forall|k: int| 0 <= k < masks@.len() ==> (#[trigger] masks@[k]).wf(),
                masks_same_below(old(masks)@, masks@, pos as int),
                masks_grow(old(masks)@, masks@),
                masks_bound(d, doms, old(masks)@, masks@),
                prefix.len() == pos,
                walk(d, 0, prefix) == Some(node_idx as int),
                forall|j: int|
                    0 <= j < pos ==> #[trigger] doms[j].spec_has(letter_idx(prefix[j])),
                found ==> has_compat_completion(d, doms, pos as int, node_idx as int),
                !found ==> (forall|w: Seq<char>|
                    (#[trigger] accepts_from(d, node_idx as int, w)) && w.len() == slot_len - pos
                        && (forall|j: int|
                        0 <= j < w.len() ==> #[trigger] doms[pos as int + j].spec_has(
                            letter_idx(w[j]),
                        )) ==> letter_idx(w[0]) >= code),
                forall|w: Seq<char>|
                    ((#[trigger] accepts_from(d, node_idx as int, w)) && w.len() == slot_len - pos
                        && (forall|j: int|
                        0 <= j < w.len() ==> #[trigger] doms[pos as int + j].spec_has(
                            letter_idx(w[j]),
                        )) && letter_idx(w[0]) < code) ==> (forall|j: int|
                        0 <= j < w.len() ==> masks@[pos as int + j].spec_has(letter_idx(w[j]))),
            decreases 26 - code,
        {
            let ch = ((65 + code) as u8) as char;
            proof {
                assert(ch as int == 65 + code);
                assert(is_letter(ch) && letter_idx(ch) == code as int);
                assert(crate::domain::spec_to_upper(ch) == ch);
                assert(self.dawg.nodes@[node_idx as int].children@.len() == 26);
            }
            if cell_domain.contains(ch) {
                let child = self.dawg.nodes[node_idx].children[code as usize];
                match child {
                    Some(next) => {
                        proof {
                            assert(edge(d, node_idx as int, code as int) == Some(next as int));
                        }
                        let ghost m0 = masks@;
                        proof {
                            lemma_walk_snoc(d, 0, prefix, ch);
                        }
                        let sub = self.find_valid_paths(
                            pos + 1,
                            next,
                            slot_idx,
                            masks,
                            Ghost(prefix.push(ch)),
                        );
                        let ghost m1 = masks@;
                        proof {
                            assert(masks_grow(m0, m1));
                            assert(masks_same_below(m0, m1, pos as int + 1));
                            assert(masks_bound(d, doms, m0, m1));
                        }
                        if sub {
                            let m = masks[pos];
                            masks.set(pos, m.union(Domain::from_char(ch)));
                            proof {
                                assert forall|j: int, l: int|
                                    0 <= j < m1.len() && m1[j].spec_has(l)
                                        implies #[trigger] masks@[j].spec_has(l) by {
                                    if j != pos {
                                        assert(masks@[j] == m1[j]);
                                    }
                                }
                                assert(masks_grow(m1, masks@));
                                assert(masks@[pos as int].spec_has(code as int));
                                lemma_masks_grow_trans(m0, m1, masks@);
                                lemma_masks_grow_trans(old(masks)@, m0, masks@);
                                assert forall|j: int| 0 <= j < pos implies masks@[j] == m1[j] by {}
                                assert(masks_same_below(m1, masks@, pos as int));
                                lemma_masks_same_below_trans(m0, m1, masks@, pos as int);
                                lemma_masks_same_below_trans(
                                    old(masks)@,
                                    m0,
                                    masks@,
                                    pos as int,
                                );
                                let w = choose|w: Seq<char>|
                                    #[trigger] accepts_from(d, next as int, w) && w.len()
                                        == doms.len() - (pos + 1) && (forall|j: int|
                                        0 <= j < w.len() ==> #[trigger] doms[pos + 1 + j].spec_has(
                                            letter_idx(w[j]),
                                        ));
                                let w2 = seq![ch] + w;
                                assert(w2[0] == ch);
                                assert(w2.skip(1) =~= w);
                                assert(walk(d, node_idx as int, w2) == walk(d, next as int, w));
                                assert(accepts_from(d, node_idx as int, w2) && w2.len()
                                    == doms.len() - pos);
                                assert forall|j: int|
                                    0 <= j < w2.len() implies #[trigger] doms[pos as int
                                    + j].spec_has(letter_idx(w2[j])) by {
                                    if j > 0 {
                                        assert(w2[j] == w[j - 1]);
                                        assert(doms[pos + 1 + (j - 1)].spec_has(
                                            letter_idx(w[j - 1]),
                                        ));
                                    }
                                }
                                assert(has_compat_completion(d, doms, pos as int, node_idx as int));
                                let full = prefix + w2;
                                lemma_walk_append(d, 0, prefix, w2);
                                assert(accepts(d, full));
                                assert(full.len() == doms.len());
                                assert forall|j: int|
                                    0 <= j < doms.len() implies #[trigger] doms[j].spec_has(
                                    letter_idx(full[j]),
                                ) by {
                                    if j < pos {
                                        assert(full[j] == prefix[j]);
                                    } else {
                                        assert(full[j] == w2[j - pos]);
                                        assert(doms[pos as int + (j - pos)].spec_has(
                                            letter_idx(w2[j - pos]),
                                        ));
                                    }
                                }
                                assert(full[pos as int] == ch);
                                assert(letter_possible(d, doms, pos as int, code as int));
                                assert forall|j: int, l: int|
                                    0 <= j < masks@.len() && (#[trigger] masks@[j].spec_has(l))
                                        implies ((j < m1.len() && m1[j].spec_has(l))
                                        || letter_possible(d, doms, j, l)) by {
                                    if j == pos as int && !m1[j].spec_has(l) {
                                        assert(l == code as int);
                                    } else {
                                        if j != pos as int {
                                            assert(masks@[j] == m1[j]);
                                        }
                                    }
                                }
                                assert(masks_bound(d, doms, m1, masks@));
                                lemma_masks_bound_trans(d, doms, m0, m1, masks@);
                                lemma_masks_bound_trans(d, doms, old(masks)@, m0, masks@);
                                assert forall|w2b: Seq<char>|
                                    ((#[trigger] accepts_from(d, node_idx as int, w2b))
                                        && w2b.len() == slot_len - pos && (forall|j: int|
                                        0 <= j < w2b.len() ==> #[trigger] doms[pos as int
                                            + j].spec_has(letter_idx(w2b[j]))) && letter_idx(
                                        w2b[0],
                                    ) < code + 1) implies (forall|j: int|
                                        0 <= j < w2b.len() ==> masks@[pos as int + j].spec_has(
                                            letter_idx(w2b[j]),
                                        )) by {
                                    if letter_idx(w2b[0]) == code as int {
                                        assert(doms[pos as int + 0].spec_has(letter_idx(w2b[0])));
                                        assert(w2b[0] == ch);
                                        assert(walk(d, node_idx as int, w2b) == walk(
                                            d,
                                            next as int,
                                            w2b.skip(1),
                                        ));
                                        assert(accepts_from(d, next as int, w2b.skip(1)));
                                        assert forall|j: int|
                                            0 <= j < w2b.skip(1).len() implies #[trigger] doms[pos
                                            + 1 + j].spec_has(letter_idx(w2b.skip(1)[j])) by {
                                            assert(w2b.skip(1)[j] == w2b[j + 1]);
                                            assert(doms[pos as int + (j + 1)].spec_has(
                                                letter_idx(w2b[j + 1]),
                                            ));
                                        }
                                        assert(w2b.skip(1).len() == doms.len() - (pos + 1));
                                        assert forall|j: int|
                                            0 <= j < w2b.len() implies masks@[pos as int
                                            + j].spec_has(letter_idx(w2b[j])) by {
                                            if j == 0 {
                                                assert(masks@[pos as int].spec_has(code as int));
                                            } else {
                                                assert(w2b.skip(1)[j - 1] == w2b[j]);
                                                assert(m1[pos + 1 + (j - 1)].spec_has(
                                                    letter_idx(w2b.skip(1)[j - 1]),
                                                ));
                                                lemma_masks_grow_elem(
                                                    m1,
                                                    masks@,
                                                    pos as int + j,
                                                    letter_idx(w2b[j]),
                                                );
                                            }
                                        }
                                    } else {
                                        assert(letter_idx(w2b[0]) < code);
                                        assert forall|j: int|
                                            0 <= j < w2b.len() implies masks@[pos as int
                                            + j].spec_has(letter_idx(w2b[j])) by {
                                            assert(m0[pos as int + j].spec_has(
                                                letter_idx(w2b[j]),
                                            ));
                                            lemma_masks_grow_elem(
                                                m0,
                                                m1,
                                                pos as int + j,
                                                letter_idx(w2b[j]),
                                            );
                                            lemma_masks_grow_elem(
                                                m1,
                                                masks@,
                                                pos as int + j,
                                                letter_idx(w2b[j]),
                                            );
                                        }
                                    }
                                }
                            }
                            found = true;
                        } else {
                            proof {
                                lemma_masks_grow_trans(old(masks)@, m0, masks@);
                                lemma_masks_same_below_trans(
                                    old(masks)@,
                                    m0,
                                    masks@,
                                    pos as int,
                                );
                                assert(masks_bound(d, doms, m0, masks@));
                                lemma_masks_bound_trans(d, doms, old(masks)@, m0, masks@);
                                assert forall|w: Seq<char>|
                                    ((#[trigger] accepts_from(d, node_idx as int, w)) && w.len()
                                        == slot_len - pos && (forall|j: int|
                                        0 <= j < w.len() ==> #[trigger] doms[pos as int
                                            + j].spec_has(letter_idx(w[j])))) implies letter_idx(
                                    w[0],
                                ) != code as int by {
                                    if letter_idx(w[0]) == code as int {
                                        assert(doms[pos as int + 0].spec_has(letter_idx(w[0])));
                                        assert(w[0] == ch);
                                        assert(walk(d, node_idx as int, w) == walk(
                                            d,
                                            next as int,
                                            w.skip(1),
                                        ));
                                        assert(accepts_from(d, next as int, w.skip(1)));
                                        assert forall|j: int|
                                            0 <= j < w.skip(1).len() implies #[trigger] doms[pos
                                            + 1 + j].spec_has(letter_idx(w.skip(1)[j])) by {
                                            assert(w.skip(1)[j] == w[j + 1]);
                                            assert(doms[pos as int + (j + 1)].spec_has(
                                                letter_idx(w[j + 1]),
                                            ));
                                        }
                                        assert(w.skip(1).len() == doms.len() - (pos + 1));
                                        assert(has_compat_completion(
                                            d,
                                            doms,
                                            pos as int + 1,
                                            next as int,
                                        ));
                                        assert(false);
                                    }
                                }
                                assert forall|wb: Seq<char>|
                                    ((#[trigger] accepts_from(d, node_idx as int, wb)) && wb.len()
                                        == slot_len - pos && (forall|j: int|
                                        0 <= j < wb.len() ==> #[trigger] doms[pos as int
                                            + j].spec_has(letter_idx(wb[j]))) && letter_idx(wb[0])
                                        < code + 1) implies (forall|j: int|
                                        0 <= j < wb.len() ==> masks@[pos as int + j].spec_has(
                                            letter_idx(wb[j]),
                                        )) by {
                                    assert(letter_idx(wb[0]) < code);
                                    assert forall|j: int|
                                        0 <= j < wb.len() implies masks@[pos as int + j].spec_has(
                                        letter_idx(wb[j]),
                                    ) by {
                                        assert(m0[pos as int + j].spec_has(letter_idx(wb[j])));
                                        lemma_masks_grow_elem(
                                            m0,
                                            masks@,
                                            pos as int + j,
                                            letter_idx(wb[j]),
                                        );
                                    }
                                }
                            }
                        }
                    },
                    None => {
                        proof {
                            assert(edge(d, node_idx as int, code as int) is None);
                            assert forall|w: Seq<char>|
                                ((#[trigger] accepts_from(d, node_idx as int, w)) && w.len()
                                    == slot_len - pos && (forall|j: int|
                                    0 <= j < w.len() ==> #[trigger] doms[pos as int + j].spec_has(
                                        letter_idx(w[j]),
                                    ))) implies letter_idx(w[0]) != code as int by {
                                if letter_idx(w[0]) == code as int {
                                    assert(doms[pos as int + 0].spec_has(letter_idx(w[0])));
                                    assert(w[0] == ch);
                                    assert(walk(d, node_idx as int, w) is None);
                                    assert(false);
                                }
                            }
                        }
                    },
                }
            } else {
                proof {
                    assert forall|w: Seq<char>|
                        ((#[trigger] accepts_from(d, node_idx as int, w)) && w.len() == slot_len
                            - pos && (forall|j: int|
                            0 <= j < w.len() ==> #[trigger] doms[pos as int + j].spec_has(
                                letter_idx(w[j]),
                            ))) implies letter_idx(w[0]) != code as int by {
                        if letter_idx(w[0]) == code as int {
                            assert(doms[pos as int + 0].spec_has(letter_idx(w[0])));
                            assert(w[0] == ch);
                            assert(cell_domain.spec_has(code as int));
                            assert(false);
                        }
                    }
                }
            }
            code = code + 1;
        }
        proof {
            if !found {
                if has_compat_completion(d, doms, pos as int, node_idx as int) {
                    let w = choose|w: Seq<char>|
                        #[trigger] accepts_from(d, node_idx as int, w) && w.len() == doms.len()
                            - pos && (forall|j: int|
                            0 <= j < w.len() ==> #[trigger] doms[pos as int + j].spec_has(
                                letter_idx(w[j]),
                            ));
                    assert(w.len() > 0);
                    assert(doms[pos as int + 0].spec_has(letter_idx(w[0])));
                    assert(false);
                }
            }
            assert forall|w: Seq<char>|
                ((#[trigger] accepts_from(d, node_idx as int, w)) && w.len() == doms.len() - pos
                    && (forall|j: int|
                    0 <= j < w.len() ==> #[trigger] doms[pos as int + j].spec_has(
                        letter_idx(w[j]),
                    ))) implies (forall|j: int|
                    0 <= j < w.len() ==> masks@[pos as int + j].spec_has(letter_idx(w[j]))) by {
                assert(w.len() > 0);
                assert(doms[pos as int + 0].spec_has(letter_idx(w[0])));
                assert(letter_idx(w[0]) < 26);
            }
        }
        found
    }

    /// Computes, for each position of the slot, a mask of letters that
    /// covers every accepted word fitting the slot's current domains;
    /// `None` exactly when no such word exists.
    fn compute_slot_valid_masks(&self, slot_idx: usize) -> (r: Option<Vec<Domain>>)
        requires
            self.wf(),
            slot_idx < self.slots@.len(),
        ensures
            match r {
                Some(m) => {
                    &&& m@.len() == self.slots@[slot_idx as int].length
                    &&& forall|k: int| 0 <= k < m@.len() ==> (#[trigger] m@[k]).wf()
                    &&& has_word_of_len(self.dawg, self.slots@[slot_idx as int].length as int)
                    &&& has_compat_completion(
                        self.dawg,
                        slot_domains(self.grid, self.slots@[slot_idx as int]),
                        0,
                        0,
                    )
                    &&& forall|w: Seq<char>|
                        ((#[trigger] accepts_from(self.dawg, 0, w)) && w.len() == slot_domains(
                            self.grid,
                            self.slots@[slot_idx as int],
                        ).len() && (forall|j: int|
                            0 <= j < w.len() ==> #[trigger] slot_domains(
                                self.grid,
                                self.slots@[slot_idx as int],
                            )[j].spec_has(letter_idx(w[j])))) ==> (forall|i: int|
                            0 <= i < w.len() ==> m@[i].spec_has(letter_idx(w[i])))
                    &&& forall|i: int, l: int|
                        0 <= i < m@.len() ==> ((#[trigger] m@[i].spec_has(l)) <==> letter_possible(
                            self.dawg,
                            slot_domains(self.grid, self.slots@[slot_idx as int]),
                            i,
                            l,
                        ))
                },
                None => !has_compat_completion(
                    self.dawg,
                    slot_domains(self.grid, self.slots@[slot_idx as int]),
                    0,
                    0,
                ),
            },
    {
        let ghost d = self.dawg;
        let ghost doms = slot_domains(self.grid, self.slots@[slot_idx as int]);
        proof {
            assert(slot_matches(self.grid, self.slots@[slot_idx as int]));
            assert(doms.len() == self.slots@[slot_idx as int].length);
        }
        let slot_len = self.slots[slot_idx].length;
        let mut masks: Vec<Domain> = Vec::new();
        let mut i: usize = 0;
        while i < slot_len
            invariant
                i <= slot_len,
                masks@.len() == i,
                forall|k: int| 0 <= k < i ==> (#[trigger] masks@[k]).wf(),
                forall|k: int, l: int| 0 <= k < i ==> !(#[trigger] masks@[k].spec_has(l)),
            decreases slot_len - i,
        {
            masks.push(Domain::empty());
            i = i + 1;
        }
        let ghost m_init = masks@;
        proof {
            assert(walk(d, 0, Seq::<char>::empty()) == Some(0int));
        }
        let found = self.find_valid_paths(0, 0, slot_idx, &mut masks, Ghost(Seq::empty()));
        if !found {
            return None;
        }
        proof {
            let w = choose|w: Seq<char>|
                #[trigger] accepts_from(d, 0, w) && w.len() == doms.len() - 0 && (forall|j: int|
                    0 <= j < w.len() ==> #[trigger] doms[0 + j].spec_has(letter_idx(w[j])));
            assert(accepts(d, w) && w.len() == self.slots@[slot_idx as int].length);
            assert forall|i2: int, l: int|
                0 <= i2 < masks@.len() implies ((#[trigger] masks@[i2].spec_has(l))
                <==> letter_possible(d, doms, i2, l)) by {
                if masks@[i2].spec_has(l) {
                    assert(!m_init[i2].spec_has(l));
                    assert(letter_possible(d, doms, i2, l));
                }
                if letter_possible(d, doms, i2, l) {
                    let wt = choose|wt: Seq<char>|
                        #[trigger] accepts(d, wt) && wt.len() == doms.len() && (forall|j: int|
                            0 <= j < doms.len() ==> #[trigger] doms[j].spec_has(
                                letter_idx(wt[j]),
                            )) && letter_idx(wt[i2]) == l;
                    assert(accepts_from(d, 0, wt));
                    assert(wt.len() == doms.len() - 0);
                    assert forall|j: int|
                        0 <= j < wt.len() implies #[trigger] doms[0 + j].spec_has(
                        letter_idx(wt[j]),
                    ) by {
                        assert(doms[j].spec_has(letter_idx(wt[j])));
                    }
                    assert(masks@[0 + i2].spec_has(letter_idx(wt[i2])));
                }
            }
        }
        let mut k: usize = 0;
        while k < slot_len
            invariant
                self.wf(),
                slot_idx < self.slots@.len(),
                d == self.dawg,
                doms == slot_domains(self.grid, self.slots@[slot_idx as int]),
                doms.len() == slot_len,
                k <= slot_len,
                masks@.len() == slot_len,
                slot_len == self.slots@[slot_idx as int].length,
                forall|j: int| 0 <= j < masks@.len() ==> (#[trigger] masks@[j]).wf(),
                has_word_of_len(self.dawg, self.slots@[slot_idx as int].length as int),
                has_compat_completion(d, doms, 0, 0),
                forall|w: Seq<char>|
                    ((#[trigger] accepts_from(d, 0, w)) && w.len() == doms.len() && (forall|j: int|
                        0 <= j < w.len() ==> #[trigger] doms[j].spec_has(letter_idx(w[j]))))
                        ==> (forall|i2: int|
                        0 <= i2 < w.len() ==> masks@[i2].spec_has(letter_idx(w[i2]))),
                forall|i2: int, l: int|
                    0 <= i2 < masks@.len() ==> ((#[trigger] masks@[i2].spec_has(l))
                        <==> letter_possible(d, doms, i2, l)),
            decreases slot_len - k,
        {
            if masks[k].is_empty() {
                proof {
                    let w = choose|w: Seq<char>|
                        #[trigger] accepts_from(d, 0, w) && w.len() == doms.len() - 0 && (
                        forall|j: int|
                            0 <= j < w.len() ==> #[trigger] doms[0 + j].spec_has(
                                letter_idx(w[j]),
                            ));
                    assert(w.len() == doms.len());
                    assert forall|j: int| 0 <= j < w.len() implies #[trigger] doms[j].spec_has(
                        letter_idx(w[j]),
                    ) by {
                        assert(doms[0 + j].spec_has(letter_idx(w[j])));
                    }
                    assert(masks@[k as int].spec_has(letter_idx(w[k as int])));
                    assert(false);
                }
                return None;
            }
            k = k + 1;
        }
        Some(masks)
    }

    /// Arc-consistency propagation over slots: repeatedly tightens cell
    /// domains to the letters some fitting word allows, until a fixed point.
    /// Returns false when a domain would become empty or a slot has no
    /// fitting word. Domains only ever shrink, walls and fixed letters never
    /// change, and any domain the pass touched stays non-empty. When the
    /// pass succeeds, every slot had some word of its length in the
    /// dictionary. Propagation never discards a letter of a solving
    /// assignment: every assignment that solved the instance before the pass
    /// still solves it after, and on a solvable state the pass always
    /// succeeds. At a successful exit the state is arc consistent: every
    /// slot still has a fitting word, and every letter left in a slot cell's
    /// domain is carried at that position by a word fitting the slot's final
    /// domains. A pass started at such a fixed point succeeds and leaves
    /// the grid untouched, so running propagation twice with no mutation in
    /// between gives the same domains as running it once.
    pub fn propagate(&mut self) -> (r: bool)
        requires
            old(self).wf(),
            incidence_exact(old(self).grid, old(self).slots@, old(self).cell_to_slots@),
        ensures
            final(self).wf(),
            incidence_exact(final(self).grid, final(self).slots@, final(self).cell_to_slots@),
            r ==> all_slots_consistent(*final(self)),
            all_slots_consistent(*old(self)) ==> (r == true && final(self).grid == old(
                self,
            ).grid),
            final(self).dawg == old(self).dawg,
            final(self).slots == old(self).slots,
            final(self).cell_to_slots == old(self).cell_to_slots,
            final(self).grid.width == old(self).grid.width,
            final(self).grid.height == old(self).grid.height,
            final(self).grid.cells@.len() == old(self).grid.cells@.len(),
            forall|i: int|
                0 <= i < final(self).grid.cells@.len() ==> {
                    let nc = #[trigger] final(self).grid.cells@[i];
                    let oc = old(self).grid.cells@[i];
                    &&& nc.is_black == oc.is_black
                    &&& nc.fixed_char == oc.fixed_char
                    &&& nc.domain.spec_subset_of(oc.domain)
                    &&& (nc.domain == oc.domain || exists|l: int| #[trigger] nc.domain.spec_has(l))
                },
            r ==> forall|s: int|
                0 <= s < final(self).slots@.len() ==> has_word_of_len(
                    final(self).dawg,
                    (#[trigger] final(self).slots@[s]).length as int,
                ),
            forall|f: Seq<char>|
                #[trigger] fill_solves(old(self).dawg, old(self).grid, old(self).slots@, f)
                    ==> fill_solves(final(self).dawg, final(self).grid, final(self).slots@, f),
            (exists|f: Seq<char>|
                #[trigger] fill_solves(old(self).dawg, old(self).grid, old(self).slots@, f)) ==> r
                == true,
    {
        let nslots = self.slots.len();
        let mut queue: VecDeque<usize> = VecDeque::new();
        let mut in_queue: Vec<bool> = Vec::new();
        let mut i: usize = 0;
        while i < nslots
            invariant
                i <= nslots,
                queue@.len() == i,
                in_queue@.len() == i,
                forall|k: int| 0 <= k < i ==> (#[trigger] queue@[k]) == k,
                forall|k: int| 0 <= k < i ==> (#[trigger] in_queue@[k]) == true,
            decreases nslots - i,
        {
            queue.push_back(i);
            in_queue.push(true);
            i = i + 1;
        }
        proof {
            assert forall|s: int| 0 <= s < nslots && in_queue@[s] implies queue@.contains(s as usize) by {
                assert(queue@[s] == s as usize);
            }
        }
        loop
            invariant
                self.wf(),
                self.dawg == old(self).dawg,
                self.slots == old(self).slots,
                self.cell_to_slots == old(self).cell_to_slots,
                self.grid.width == old(self).grid.width,
                self.grid.height == old(self).grid.height,
                self.grid.cells@.len() == old(self).grid.cells@.len(),
                nslots == self.slots@.len(),
                in_queue@.len() == nslots,
                forall|k: int| 0 <= k < queue@.len() ==> (#[trigger] queue@[k]) < nslots,
                queue@.no_duplicates(),
                forall|s: int|
                    0 <= s < nslots ==> ((#[trigger] in_queue@[s]) <==> queue@.contains(
                        s as usize,
                    )),
                forall|s: int|
                    0 <= s < nslots && !(#[trigger] in_queue@[s]) ==> has_word_of_len(
                        self.dawg,
                        self.slots@[s].length as int,
                    ),
                forall|i: int|
                    0 <= i < self.grid.cells@.len() ==> {
                        let nc = #[trigger] self.grid.cells@[i];
                        let oc = old(self).grid.cells@[i];
                        &&& nc.is_black == oc.is_black
                        &&& nc.fixed_char == oc.fixed_char
                        &&& nc.domain.spec_subset_of(oc.domain)
                        &&& (nc.domain == oc.domain || exists|l: int|
                            #[trigger] nc.domain.spec_has(l))
                    },
                forall|f: Seq<char>|
                    #[trigger] fill_solves(old(self).dawg, old(self).grid, old(self).slots@, f)
                        ==> fill_solves(self.dawg, self.grid, self.slots@, f),
                incidence_exact(self.grid, self.slots@, self.cell_to_slots@),
                forall|s: int|
                    0 <= s < nslots && !(#[trigger] in_queue@[s]) ==> slot_consistent(
                        self.dawg,
                        self.grid,
                        self.slots@[s],
                    ) && has_compat_completion(
                        self.dawg,
                        slot_domains(self.grid, self.slots@[s]),
                        0,
                        0,
                    ),
                all_slots_consistent(*old(self)) ==> self.grid == old(self).grid,
            decreases cells_measure(self.grid.cells@), queue@.len(),
        {
            let ghost qold = queue@;
            let ghost gtop = self.grid;
            let ghost mut changed: bool = false;
            let popped = queue.pop_front();
            let slot_idx = match popped {
                Some(s) => s,
                None => {
                    proof {
                        assert forall|s: int| 0 <= s < nslots implies has_word_of_len(
                            self.dawg,
                            (#[trigger] self.slots@[s]).length as int,
                        ) && slot_consistent(self.dawg, self.grid, self.slots@[s])
                            && has_compat_completion(
                            self.dawg,
                            slot_domains(self.grid, self.slots@[s]),
                            0,
                            0,
                        ) by {
                            if in_queue@[s] {
                                assert(queue@.contains(s as usize));
                                assert(false);
                            }
                            assert(!in_queue@[s]);
                        }
                        assert(all_slots_consistent(*self));
                    }
                    return true;
                },
            };
            in_queue.set(slot_idx, false);
            proof {
                assert(qold[0] == slot_idx);
                assert(queue@ =~= qold.subrange(1, qold.len() as int));
                assert forall|s: int|
                    0 <= s < nslots implies ((#[trigger] in_queue@[s]) <==> queue@.contains(
                    s as usize,
                )) by {
                    if s == slot_idx as int {
                        if queue@.contains(s as usize) {
                            let j = choose|j: int| 0 <= j < queue@.len() && queue@[j] == (
                            s as usize);
                            assert(qold[j + 1] == s as usize);
                            assert(qold[0] == qold[j + 1]);
                            assert(false);
                        }
                    } else {
                        if qold.contains(s as usize) {
                            let j = choose|j: int| 0 <= j < qold.len() && qold[j] == (s as usize);
                            assert(j != 0);
                            assert(queue@[j - 1] == s as usize);
                        }
                        if queue@.contains(s as usize) {
                            let j = choose|j: int| 0 <= j < queue@.len() && queue@[j] == (
                            s as usize);
                            assert(qold[j + 1] == s as usize);
                        }
                    }
                }
            }
            let masks_opt = self.compute_slot_valid_masks(slot_idx);
            match masks_opt {
                Some(masks) => {
                    let ghost gmid = self.grid;
                    let slot_len = self.slots[slot_idx].length;
                    let mut k: usize = 0;
                    while k < slot_len
                        invariant
                            qold.len() >= 1,
                            !changed ==> self.grid == gtop && queue@.len() + 1 == qold.len(),
                            changed ==> cells_measure(self.grid.cells@) < cells_measure(
                                gtop.cells@,
                            ),
                            self.wf(),
                            self.dawg == old(self).dawg,
                            self.slots == old(self).slots,
                            self.cell_to_slots == old(self).cell_to_slots,
                            self.grid.width == old(self).grid.width,
                            self.grid.height == old(self).grid.height,
                            self.grid.cells@.len() == old(self).grid.cells@.len(),
                            nslots == self.slots@.len(),
                            slot_idx < nslots,
                            slot_len == self.slots@[slot_idx as int].length,
                            k <= slot_len,
                            masks@.len() == slot_len,
                            forall|j: int| 0 <= j < masks@.len() ==> (#[trigger] masks@[j]).wf(),
                            has_word_of_len(self.dawg, self.slots@[slot_idx as int].length as int),
                            gmid.wf(),
                            gmid.width == self.grid.width,
                            gmid.cells@.len() == self.grid.cells@.len(),
                            slot_matches(gmid, self.slots@[slot_idx as int]),
                            slot_domains(gmid, self.slots@[slot_idx as int]).len() == slot_len,
                            incidence_exact(self.grid, self.slots@, self.cell_to_slots@),
                            forall|s: int|
                                0 <= s < nslots && s != slot_idx && !(#[trigger] in_queue@[s])
                                    ==> slot_consistent(self.dawg, self.grid, self.slots@[s])
                                    && has_compat_completion(
                                    self.dawg,
                                    slot_domains(self.grid, self.slots@[s]),
                                    0,
                                    0,
                                ),
                            forall|i2: int, l: int|
                                0 <= i2 < masks@.len() ==> ((#[trigger] masks@[i2].spec_has(l))
                                    <==> letter_possible(
                                    self.dawg,
                                    slot_domains(gmid, self.slots@[slot_idx as int]),
                                    i2,
                                    l,
                                )),
                            has_compat_completion(
                                self.dawg,
                                slot_domains(gmid, self.slots@[slot_idx as int]),
                                0,
                                0,
                            ),
                            all_slots_consistent(*old(self)) ==> (self.grid == old(self).grid
                                && gmid == old(self).grid),
                            forall|j: int, l: int|
                                0 <= j < k ==> ((#[trigger] slot_domains(
                                    self.grid,
                                    self.slots@[slot_idx as int],
                                )[j].spec_has(l)) <==> (slot_domains(
                                    gmid,
                                    self.slots@[slot_idx as int],
                                )[j].spec_has(l) && masks@[j].spec_has(l))),
                            forall|j: int|
                                k <= j < slot_len ==> (#[trigger] slot_domains(
                                    self.grid,
                                    self.slots@[slot_idx as int],
                                )[j]) == slot_domains(gmid, self.slots@[slot_idx as int])[j],
                            forall|f: Seq<char>|
                                #[trigger] fill_solves(
                                    old(self).dawg,
                                    old(self).grid,
                                    old(self).slots@,
                                    f,
                                ) ==> fill_solves(self.dawg, gmid, self.slots@, f),
                            forall|f: Seq<char>|
                                #[trigger] fill_solves(
                                    old(self).dawg,
                                    old(self).grid,
                                    old(self).slots@,
                                    f,
                                ) ==> fill_solves(self.dawg, self.grid, self.slots@, f),
                            forall|w: Seq<char>|
                                ((#[trigger] accepts_from(self.dawg, 0, w)) && w.len()
                                    == slot_domains(gmid, self.slots@[slot_idx as int]).len() && (
                                forall|j: int|
                                    0 <= j < w.len() ==> #[trigger] slot_domains(
                                        gmid,
                                        self.slots@[slot_idx as int],
                                    )[j].spec_has(letter_idx(w[j])))) ==> (forall|i2: int|
                                    0 <= i2 < w.len() ==> masks@[i2].spec_has(letter_idx(w[i2]))),
                            in_queue@.len() == nslots,
                            forall|kk: int|
                                0 <= kk < queue@.len() ==> (#[trigger] queue@[kk]) < nslots,
                            queue@.no_duplicates(),
                            forall|s: int|
                                0 <= s < nslots ==> ((#[trigger] in_queue@[s])
                                    <==> queue@.contains(s as usize)),
                            forall|s: int|
                                0 <= s < nslots && s != slot_idx && !(#[trigger] in_queue@[s])
                                    ==> has_word_of_len(
                                    self.dawg,
                                    self.slots@[s].length as int,
                                ),
                            forall|i: int|
                                0 <= i < self.grid.cells@.len() ==> {
                                    let nc = #[trigger] self.grid.cells@[i];
                                    let oc = old(self).grid.cells@[i];
                                    &&& nc.is_black == oc.is_black
                                    &&& nc.fixed_char == oc.fixed_char
                                    &&& nc.domain.spec_subset_of(oc.domain)
                                    &&& (nc.domain == oc.domain || exists|l: int|
                                        #[trigger] nc.domain.spec_has(l))
                                },
                        decreases slot_len - k,
                    {
                        proof {
                            lemma_slot_cell_in_range(
                                self.grid,
                                self.slots@[slot_idx as int],
                                k as int,
                            );
                        }
                        let coord = self.slots[slot_idx].cells[k];
                        let cell_idx = self.grid.get_index(coord.0, coord.1);
                        let current = self.grid.cells[cell_idx].domain;
                        let newd = current.intersect(masks[k]);
                        if newd.count() < current.count() {
                            proof {
                                if all_slots_consistent(*old(self)) {
                                    assert(self.grid == old(self).grid && gmid == old(self).grid);
                                    let sl = self.slots@[slot_idx as int];
                                    assert(self.slots@ == old(self).slots@);
                                    assert(slot_consistent(
                                        self.dawg,
                                        old(self).grid,
                                        old(self).slots@[slot_idx as int],
                                    ));
                                    assert(slot_consistent(self.dawg, gmid, sl));
                                    assert(slot_domains(self.grid, sl)[k as int] == current);
                                    assert(slot_domains(gmid, sl)[k as int] == current);
                                    assert forall|l: int|
                                        current.spec_has(l) implies #[trigger] masks@[k as int].spec_has(
                                        l,
                                    ) by {
                                        assert(slot_domains(gmid, sl)[k as int].spec_has(l));
                                        assert(letter_possible(
                                            self.dawg,
                                            slot_domains(gmid, sl),
                                            k as int,
                                            l,
                                        ));
                                    }
                                    assert(newd.spec_subset_of(current));
                                    assert(current.spec_subset_of(newd));
                                    assert(self.grid.cells@[cell_idx as int].wf());
                                    crate::domain::lemma_subset_count(newd, current);
                                    crate::domain::lemma_subset_count(current, newd);
                                    assert(false);
                                }
                            }
                            if newd.is_empty() {
                                proof {
                                    if exists|f: Seq<char>|
                                        #[trigger] fill_solves(
                                            old(self).dawg,
                                            old(self).grid,
                                            old(self).slots@,
                                            f,
                                        ) {
                                        let f = choose|f: Seq<char>|
                                            #[trigger] fill_solves(
                                                old(self).dawg,
                                                old(self).grid,
                                                old(self).slots@,
                                                f,
                                            );
                                        assert(fill_solves(self.dawg, gmid, self.slots@, f));
                                        assert(fill_solves(self.dawg, self.grid, self.slots@, f));
                                        lemma_fill_word_compat(
                                            self.dawg,
                                            gmid,
                                            self.slots@,
                                            slot_idx as int,
                                            f,
                                        );
                                        let w = fill_word(gmid, self.slots@[slot_idx as int], f);
                                        assert(masks@[k as int].spec_has(letter_idx(w[k as int])));
                                        let ci = gmid.spec_index(
                                            self.slots@[slot_idx as int].cells@[k as int].0 as int,
                                            self.slots@[slot_idx as int].cells@[k as int].1 as int,
                                        );
                                        assert(w[k as int] == f[ci]);
                                        assert(ci == cell_idx as int);
                                        assert(current.spec_has(letter_idx(f[ci])));
                                        assert(newd.spec_has(letter_idx(f[ci])));
                                        assert(false);
                                    }
                                }
                                return false;
                            }
                            // every slot through this cell, except the one
                            // being tightened, goes back on the queue before
                            // the domain changes
                            let nbs_len = self.cell_to_slots[cell_idx].len();
                            let mut t: usize = 0;
                            while t < nbs_len
                                invariant
                                    self.wf(),
                                    cell_idx < self.cell_to_slots@.len(),
                                    nbs_len == self.cell_to_slots@[cell_idx as int]@.len(),
                                    t <= nbs_len,
                                    nslots == self.slots@.len(),
                                    slot_idx < nslots,
                                    in_queue@.len() == nslots,
                                    forall|kk: int|
                                        0 <= kk < queue@.len() ==> (#[trigger] queue@[kk])
                                            < nslots,
                                    queue@.no_duplicates(),
                                    forall|s: int|
                                        0 <= s < nslots ==> ((#[trigger] in_queue@[s])
                                            <==> queue@.contains(s as usize)),
                                    forall|s: int|
                                        0 <= s < nslots && s != slot_idx && !(
                                        #[trigger] in_queue@[s]) ==> has_word_of_len(
                                            self.dawg,
                                            self.slots@[s].length as int,
                                        ) && slot_consistent(
                                            self.dawg,
                                            self.grid,
                                            self.slots@[s],
                                        ) && has_compat_completion(
                                            self.dawg,
                                            slot_domains(self.grid, self.slots@[s]),
                                            0,
                                            0,
                                        ),
                                    forall|t2: int|
                                        0 <= t2 < t ==> ((#[trigger] self.cell_to_slots@[cell_idx as int]@[t2])
                                            == slot_idx
                                            || in_queue@[self.cell_to_slots@[cell_idx as int]@[t2] as int]),
                                    !all_slots_consistent(*old(self)),
                                decreases nbs_len - t,
                            {
                                let nb = self.cell_to_slots[cell_idx][t];
                                if nb != slot_idx && !in_queue[nb] {
                                    let ghost qprev = queue@;
                                    queue.push_back(nb);
                                    in_queue.set(nb, true);
                                    proof {
                                        assert(!qprev.contains(nb));
                                        assert forall|a: int, b: int|
                                            0 <= a < queue@.len() && 0 <= b < queue@.len() && a
                                                != b implies queue@[a] != queue@[b] by {
                                            if a < qprev.len() && b < qprev.len() {
                                            } else if a < qprev.len() {
                                                assert(queue@[b] == nb);
                                                assert(qprev[a] != nb);
                                            } else if b < qprev.len() {
                                                assert(queue@[a] == nb);
                                                assert(qprev[b] != nb);
                                            }
                                        }
                                        assert forall|s: int|
                                            0 <= s < nslots implies ((#[trigger] in_queue@[s])
                                            <==> queue@.contains(s as usize)) by {
                                            if s == nb as int {
                                                assert(queue@[queue@.len() - 1] == nb);
                                            } else {
                                                if qprev.contains(s as usize) {
                                                    let j = choose|j: int|
                                                        0 <= j < qprev.len() && qprev[j] == (
                                                        s as usize);
                                                    assert(queue@[j] == s as usize);
                                                } else {
                                                    if queue@.contains(s as usize) {
                                                        let j = choose|j: int|
                                                            0 <= j < queue@.len() && queue@[j]
                                                                == (s as usize);
                                                        assert(j == queue@.len() - 1);
                                                    }
                                                }
                                            }
                                        }
                                    }
                                }
                                t = t + 1;
                            }
                            let ghost gprev = self.grid;
                            self.grid.set_domain(coord.0, coord.1, newd);
                            proof {
                                assert forall|s: int|
                                    0 <= s < nslots && s != slot_idx && !(#[trigger] in_queue@[s])
                                        implies slot_domains(self.grid, self.slots@[s])
                                    == slot_domains(gprev, self.slots@[s]) by {
                                    if slot_covers(gprev, self.slots@[s], cell_idx as int) {
                                        assert(self.cell_to_slots@[cell_idx as int]@.contains(
                                            s as usize,
                                        ));
                                        let t2 = choose|t2: int|
                                            0 <= t2 < self.cell_to_slots@[cell_idx as int]@.len()
                                                && self.cell_to_slots@[cell_idx as int]@[t2] == (
                                            s as usize);
                                        assert(false);
                                    }
                                    assert forall|p: int|
                                        0 <= p < self.slots@[s].cells@.len()
                                            implies #[trigger] slot_domains(
                                        self.grid,
                                        self.slots@[s],
                                    )[p] == slot_domains(gprev, self.slots@[s])[p] by {
                                        lemma_slot_cell_in_range(gprev, self.slots@[s], p);
                                        lemma_rc_index(
                                            gprev,
                                            self.slots@[s].cells@[p].0 as int,
                                            self.slots@[s].cells@[p].1 as int,
                                        );
                                        assert(gprev.spec_index(
                                            self.slots@[s].cells@[p].0 as int,
                                            self.slots@[s].cells@[p].1 as int,
                                        ) != cell_idx as int);
                                    }
                                    assert(slot_domains(self.grid, self.slots@[s])
                                        =~= slot_domains(gprev, self.slots@[s]));
                                }
                                assert forall|s: int|
                                    0 <= s < nslots && s != slot_idx && !(#[trigger] in_queue@[s])
                                        implies slot_consistent(
                                    self.dawg,
                                    self.grid,
                                    self.slots@[s],
                                ) && has_compat_completion(
                                    self.dawg,
                                    slot_domains(self.grid, self.slots@[s]),
                                    0,
                                    0,
                                ) by {
                                    lemma_consistent_same_domains(
                                        self.dawg,
                                        gprev,
                                        self.grid,
                                        self.slots@[s],
                                    );
                                }
                                lemma_incidence_frame(gprev, self.grid, self.slots@, self.cell_to_slots@);
                                assert forall|j: int|
                                    0 <= j < slot_len && j != k implies (#[trigger] slot_domains(
                                    self.grid,
                                    self.slots@[slot_idx as int],
                                )[j]) == slot_domains(gprev, self.slots@[slot_idx as int])[j] by {
                                    lemma_slot_cells_injective(
                                        gprev,
                                        self.slots@[slot_idx as int],
                                        j,
                                        k as int,
                                    );
                                    lemma_slot_cell_in_range(
                                        gprev,
                                        self.slots@[slot_idx as int],
                                        j,
                                    );
                                    lemma_rc_index(
                                        gprev,
                                        self.slots@[slot_idx as int].cells@[j].0 as int,
                                        self.slots@[slot_idx as int].cells@[j].1 as int,
                                    );
                                }
                                assert(slot_domains(gprev, self.slots@[slot_idx as int])[k as int]
                                    == current);
                                assert(slot_domains(self.grid, self.slots@[slot_idx as int])[k as int]
                                    == newd);
                                assert forall|l: int|
                                    (#[trigger] slot_domains(
                                        self.grid,
                                        self.slots@[slot_idx as int],
                                    )[k as int].spec_has(l)) <==> (slot_domains(
                                        gmid,
                                        self.slots@[slot_idx as int],
                                    )[k as int].spec_has(l) && masks@[k as int].spec_has(l)) by {
                                    assert(newd.spec_has(l) <==> (current.spec_has(l)
                                        && masks@[k as int].spec_has(l)));
                                }
                                lemma_measure_update(
                                    gprev.cells@,
                                    cell_idx as int,
                                    self.grid.cells@[cell_idx as int],
                                );
                                changed = true;
                                assert(same_skeleton(gprev, self.grid));
                                assert forall|s: int|
                                    0 <= s < self.slots@.len() implies slot_matches(
                                    self.grid,
                                    #[trigger] self.slots@[s],
                                ) by {
                                    lemma_slot_matches_frame(gprev, self.grid, self.slots@[s]);
                                }
                                assert(exists|l: int| #[trigger] newd.spec_has(l)) by {
                                    let l = choose|l: int| newd.spec_has(l);
                                }
                                assert forall|f: Seq<char>|
                                    #[trigger] fill_solves(
                                        old(self).dawg,
                                        old(self).grid,
                                        old(self).slots@,
                                        f,
                                    ) implies fill_solves(self.dawg, self.grid, self.slots@, f) by {
                                    assert(fill_solves(self.dawg, gmid, self.slots@, f));
                                    assert(fill_solves(self.dawg, gprev, self.slots@, f));
                                    lemma_fill_word_compat(
                                        self.dawg,
                                        gmid,
                                        self.slots@,
                                        slot_idx as int,
                                        f,
                                    );
                                    let w = fill_word(gmid, self.slots@[slot_idx as int], f);
                                    assert(masks@[k as int].spec_has(letter_idx(w[k as int])));
                                    let ci = gmid.spec_index(
                                        self.slots@[slot_idx as int].cells@[k as int].0 as int,
                                        self.slots@[slot_idx as int].cells@[k as int].1 as int,
                                    );
                                    assert(w[k as int] == f[ci]);
                                    assert(ci == cell_idx as int);
                                    assert(current.spec_has(letter_idx(f[ci])));
                                    assert(newd.spec_has(letter_idx(f[ci])));
                                    assert forall|i: int|
                                        0 <= i < self.grid.cells@.len() && !(
                                        #[trigger] self.grid.cells@[i]).is_black
                                        implies self.grid.cells@[i].domain.spec_has(
                                        letter_idx(f[i]),
                                    ) by {
                                        if i != cell_idx as int {
                                            assert(self.grid.cells@[i] == gprev.cells@[i]);
                                        }
                                    }
                                    assert forall|s: int|
                                        0 <= s < self.slots@.len() implies accepts(
                                        self.dawg,
                                        fill_word(self.grid, #[trigger] self.slots@[s], f),
                                    ) by {
                                        assert(fill_word(self.grid, self.slots@[s], f)
                                            =~= fill_word(gprev, self.slots@[s], f));
                                    }
                                }
                            }
                        } else {
                            proof {
                                assert(self.grid.cells@[cell_idx as int].wf());
                                crate::domain::lemma_subset_count(newd, current);
                                assert forall|l: int|
                                    current.spec_has(l) implies #[trigger] newd.spec_has(l) by {
                                    if !newd.spec_has(l) {
                                        assert(newd.spec_count() < current.spec_count());
                                        assert(false);
                                    }
                                }
                                assert(slot_domains(self.grid, self.slots@[slot_idx as int])[k as int]
                                    == current);
                                assert forall|l: int|
                                    (#[trigger] slot_domains(
                                        self.grid,
                                        self.slots@[slot_idx as int],
                                    )[k as int].spec_has(l)) <==> (slot_domains(
                                        gmid,
                                        self.slots@[slot_idx as int],
                                    )[k as int].spec_has(l) && masks@[k as int].spec_has(l)) by {
                                    if current.spec_has(l) {
                                        assert(newd.spec_has(l));
                                    }
                                }
                            }
                        }
                        k = k + 1;
                    }
                    proof {
                        let sl = self.slots@[slot_idx as int];
                        let dm = slot_domains(gmid, sl);
                        let dm2 = slot_domains(self.grid, sl);
                        assert(dm2.len() == dm.len());
                        assert forall|j: int, l: int|
                            0 <= j < dm.len() implies ((#[trigger] dm2[j].spec_has(l)) <==> (
                        dm[j].spec_has(l) && letter_possible(self.dawg, dm, j, l))) by {
                            assert((slot_domains(self.grid, sl)[j].spec_has(l)) <==> (
                            slot_domains(gmid, sl)[j].spec_has(l) && masks@[j].spec_has(l)));
                        }
                        lemma_tightening_idempotent(self.dawg, dm, dm2);
                        assert forall|i2: int, l: int|
                            0 <= i2 < dm2.len() && (#[trigger] dm2[i2].spec_has(l))
                                implies letter_possible(self.dawg, dm2, i2, l) by {
                            assert(letter_possible(self.dawg, dm, i2, l));
                        }
                        assert(slot_consistent(self.dawg, self.grid, sl));
                        let wc = choose|wc: Seq<char>|
                            #[trigger] accepts_from(self.dawg, 0, wc) && wc.len() == dm.len() - 0
                                && (forall|j: int|
                                0 <= j < wc.len() ==> #[trigger] dm[0 + j].spec_has(
                                    letter_idx(wc[j]),
                                ));
                        assert(accepts(self.dawg, wc));
                        assert forall|j: int|
                            0 <= j < wc.len() implies #[trigger] dm2[0 + j].spec_has(
                            letter_idx(wc[j]),
                        ) by {
                            assert forall|jj: int|
                                0 <= jj < dm.len() implies #[trigger] dm[jj].spec_has(
                                letter_idx(wc[jj]),
                            ) by {
                                assert(dm[0 + jj].spec_has(letter_idx(wc[jj])));
                            }
                            assert(letter_possible(self.dawg, dm, j, letter_idx(wc[j])));
                            assert(dm[0 + j].spec_has(letter_idx(wc[j])));
                        }
                        assert(has_compat_completion(self.dawg, dm2, 0, 0));
                    }
                },
                None => {
                    proof {
                        if all_slots_consistent(*old(self)) {
                            assert(self.grid == old(self).grid);
                            assert(self.slots@ == old(self).slots@);
                            assert(has_compat_completion(
                                self.dawg,
                                slot_domains(old(self).grid, old(self).slots@[slot_idx as int]),
                                0,
                                0,
                            ));
                            assert(false);
                        }
                        if exists|f: Seq<char>|
                            #[trigger] fill_solves(
                                old(self).dawg,
                                old(self).grid,
                                old(self).slots@,
                                f,
                            ) {
                            let f = choose|f: Seq<char>|
                                #[trigger] fill_solves(
                                    old(self).dawg,
                                    old(self).grid,
                                    old(self).slots@,
                                    f,
                                );
                            assert(fill_solves(self.dawg, self.grid, self.slots@, f));
                            lemma_fill_word_compat(
                                self.dawg,
                                self.grid,
                                self.slots@,
                                slot_idx as int,
                                f,
                            );
                            let w = fill_word(self.grid, self.slots@[slot_idx as int], f);
                            assert(w.len() == slot_domains(
                                self.grid,
                                self.slots@[slot_idx as int],
                            ).len() - 0);
                            assert(has_compat_completion(
                                self.dawg,
                                slot_domains(self.grid, self.slots@[slot_idx as int]),
                                0,
                                0,
                            ));
                            assert(false);
                        }
                    }
                    return false;
                },
            }
            proof {
                if !changed {
                    assert(self.grid == gtop);
                    assert(queue@.len() < qold.len());
                }
            }
        }
    }
}

/// The letter with alphabet index `l` is possible at position `i` of a slot
/// whose current cell domains are `doms`: some accepted word of the slot's
/// length lies inside every domain and carries that letter at position `i`.
pub open spec fn letter_possible(d: Dawg, doms: Seq<Domain>, i: int, l: int) -> bool {
    exists|w: Seq<char>|
        #[trigger] accepts(d, w) && w.len() == doms.len() && (forall|j: int|
            0 <= j < doms.len() ==> #[trigger] doms[j].spec_has(letter_idx(w[j]))) && letter_idx(
            w[i],
        ) == l
}

/// Tightening a slot's domains to its possibility masks is idempotent: the
/// masks computed from the tightened domains are the original masks. Every
/// word witnessing a possible letter lies, position by position, inside the
/// masks themselves, so it survives the tightening. This is why a
/// propagation pass re-run on its own output finds nothing further to
/// remove and leaves the domains as they are.
pub proof fn lemma_tightening_idempotent(d: Dawg, doms: Seq<Domain>, doms2: Seq<Domain>)
    requires
        doms2.len() == doms.len(),
        forall|j: int, l: int|
            0 <= j < doms.len() ==> ((#[trigger] doms2[j].spec_has(l)) <==> (doms[j].spec_has(l)
                && letter_possible(d, doms, j, l))),
    ensures
        forall|i: int, l: int|
            0 <= i < doms.len() ==> ((#[trigger] letter_possible(d, doms2, i, l))
                <==> letter_possible(d, doms, i, l)),
{
    assert forall|i: int, l: int| 0 <= i < doms.len() implies ((#[trigger] letter_possible(
        d,
        doms2,
        i,
        l,
    )) <==> letter_possible(d, doms, i, l)) by {
        if letter_possible(d, doms, i, l) {
            let w = choose|w: Seq<char>|
                #[trigger] accepts(d, w) && w.len() == doms.len() && (forall|j: int|
                    0 <= j < doms.len() ==> #[trigger] doms[j].spec_has(letter_idx(w[j])))
                    && letter_idx(w[i]) == l;
            assert forall|j: int| 0 <= j < doms2.len() implies #[trigger] doms2[j].spec_has(
                letter_idx(w[j]),
            ) by {
                assert(letter_possible(d, doms, j, letter_idx(w[j])));
            }
            assert(letter_possible(d, doms2, i, l));
        }
        if letter_possible(d, doms2, i, l) {
            let w = choose|w: Seq<char>|
                #[trigger] accepts(d, w) && w.len() == doms2.len() && (forall|j: int|
                    0 <= j < doms2.len() ==> #[trigger] doms2[j].spec_has(letter_idx(w[j])))
                    && letter_idx(w[i]) == l;
            assert forall|j: int| 0 <= j < doms.len() implies #[trigger] doms[j].spec_has(
                letter_idx(w[j]),
            ) by {
                assert(doms2[j].spec_has(letter_idx(w[j])));
            }
            assert(letter_possible(d, doms, i, l));
        }
    }
}

/// Arc consistency of one slot: every letter still in a cell's domain is
/// carried at that position by some accepted word fitting the slot's
/// current domains.
pub open spec fn slot_consistent(d: Dawg, g: Grid, s: Slot) -> bool {
    forall|i: int, l: int|
        0 <= i < slot_domains(g, s).len() && (#[trigger] slot_domains(g, s)[i].spec_has(l))
            ==> letter_possible(d, slot_domains(g, s), i, l)
}

/// Every slot is arc consistent and still has a fitting word: the fixed
/// point propagation reaches.
pub open spec fn all_slots_consistent(v: Solver) -> bool {
    forall|s: int|
        0 <= s < v.slots@.len() ==> slot_consistent(v.dawg, v.grid, #[trigger] v.slots@[s])
            && has_compat_completion(v.dawg, slot_domains(v.grid, v.slots@[s]), 0, 0)
}

/// Exact incidence: each cell's list holds exactly the slots passing
/// through that cell.
pub open spec fn incidence_exact(g: Grid, slots: Seq<Slot>, c2s: Seq<Vec<usize>>) -> bool {
    &&& c2s.len() == g.cells@.len()
    &&& forall|i: int, sid: int|
        0 <= i < c2s.len() && 0 <= sid < slots.len() ==> ((#[trigger] c2s[i]@.contains(
            sid as usize,
        )) <==> slot_covers(g, slots[sid], i))
}

/// Exact incidence does not depend on the domains: it carries over to any
/// grid with the same dimensions.
pub proof fn lemma_incidence_frame(g1: Grid, g2: Grid, slots: Seq<Slot>, c2s: Seq<Vec<usize>>)
    requires
        incidence_exact(g1, slots, c2s),
        g1.width == g2.width,
        g1.cells@.len() == g2.cells@.len(),
    ensures
        incidence_exact(g2, slots, c2s),
{
    assert forall|i: int, sid: int|
        0 <= i < c2s.len() && 0 <= sid < slots.len() implies ((#[trigger] c2s[i]@.contains(
        sid as usize,
    )) <==> slot_covers(g2, slots[sid], i)) by {
        if slot_covers(g1, slots[sid], i) {
            let k = choose|k: int|
                0 <= k < slots[sid].cells@.len() && g1.spec_index(
                    (#[trigger] slots[sid].cells@[k]).0 as int,
                    slots[sid].cells@[k].1 as int,
                ) == i;
            assert(g2.spec_index(
                slots[sid].cells@[k].0 as int,
                slots[sid].cells@[k].1 as int,
            ) == i);
        }
        if slot_covers(g2, slots[sid], i) {
            let k = choose|k: int|
                0 <= k < slots[sid].cells@.len() && g2.spec_index(
                    (#[trigger] slots[sid].cells@[k]).0 as int,
                    slots[sid].cells@[k].1 as int,
                ) == i;
            assert(g1.spec_index(
                slots[sid].cells@[k].0 as int,
                slots[sid].cells@[k].1 as int,
            ) == i);
        }
    }
}

/// Consistency carries over to a grid giving the slot the same domains.
pub proof fn lemma_consistent_same_domains(d: Dawg, g1: Grid, g2: Grid, s: Slot)
    requires
        slot_domains(g1, s) == slot_domains(g2, s),
        slot_consistent(d, g1, s),
    ensures
        slot_consistent(d, g2, s),
{
}

/// Two cells of one slot never share a grid index.
pub proof fn lemma_slot_cells_injective(g: Grid, s: Slot, j: int, k: int)
    requires
        g.wf(),
        slot_matches(g, s),
        0 <= j < s.length,
        0 <= k < s.length,
        j != k,
    ensures
        g.spec_index(s.cells@[j].0 as int, s.cells@[j].1 as int) != g.spec_index(
            s.cells@[k].0 as int,
            s.cells@[k].1 as int,
        ),
{
    lemma_slot_cell_in_range(g, s, j);
    lemma_slot_cell_in_range(g, s, k);
    if s.is_across {
        assert(s.cells@[j] == (s.r, (s.c + j) as usize));
        assert(s.cells@[k] == (s.r, (s.c + k) as usize));
    } else {
        assert(s.cells@[j] == ((s.r + j) as usize, s.c));
        assert(s.cells@[k] == ((s.r + k) as usize, s.c));
    }
    let w = g.width as int;
    assert(s.cells@[j].0 * w + s.cells@[j].1 != s.cells@[k].0 * w + s.cells@[k].1)
        by (nonlinear_arith)
        requires
            0 <= (s.cells@[j].1 as int) < w,
            0 <= (s.cells@[k].1 as int) < w,
            0 <= s.cells@[j].0,
            0 <= s.cells@[k].0,
            (s.cells@[j].0, s.cells@[j].1) != (s.cells@[k].0, s.cells@[k].1),
    ;
}

/// Some accepted word of the slot's length lies in every cell domain of the
/// slot position by position. On a solved grid, where each domain is a
/// singleton, this says the slot spells an accepted word.
pub open spec fn slot_filled_ok(g: Grid, d: Dawg, s: Slot) -> bool {
    exists|w: Seq<char>|
        #[trigger] accepts(d, w) && w.len() == s.length && (forall|k: int|
            0 <= k < s.length ==> is_letter(#[trigger] w[k]) && g.cells@[g.spec_index(
                s.cells@[k].0 as int,
                s.cells@[k].1 as int,
            )].domain.spec_has(letter_idx(w[k])))
}

/// How a search step may change the engine: structure untouched, domains
/// only shrunk.
pub open spec fn search_frame(pre: Solver, post: Solver) -> bool {
    &&& post.wf()
    &&& post.dawg == pre.dawg
    &&& post.slots == pre.slots
    &&& post.cell_to_slots == pre.cell_to_slots
    &&& post.grid.width == pre.grid.width
    &&& post.grid.height == pre.grid.height
    &&& post.grid.cells@.len() == pre.grid.cells@.len()
    &&& forall|i: int|
        0 <= i < post.grid.cells@.len() ==> {
            let nc = #[trigger] post.grid.cells@[i];
            let oc = pre.grid.cells@[i];
            &&& nc.is_black == oc.is_black
            &&& nc.fixed_char == oc.fixed_char
            &&& nc.domain.spec_subset_of(oc.domain)
        }
}

/// `g` is a solution for the engine state `pre`: the skeleton is the one of
/// `pre`, every domain shrank to a subset of what `pre` had, every non-black
/// cell holds exactly one letter, and every slot spells an accepted word.
pub open spec fn solution_of(g: Grid, pre: Solver) -> bool {
    &&& g.wf()
    &&& g.width == pre.grid.width
    &&& g.height == pre.grid.height
    &&& g.cells@.len() == pre.grid.cells@.len()
    &&& forall|i: int|
        0 <= i < g.cells@.len() ==> {
            let nc = #[trigger] g.cells@[i];
            let oc = pre.grid.cells@[i];
            &&& nc.is_black == oc.is_black
            &&& nc.fixed_char == oc.fixed_char
            &&& nc.domain.spec_subset_of(oc.domain)
            &&& (!nc.is_black ==> nc.domain.spec_count() == 1)
        }
    &&& forall|s: int|
        0 <= s < pre.slots@.len() ==> slot_filled_ok(g, pre.dawg, #[trigger] pre.slots@[s])
}

/// Search frames compose.
pub proof fn lemma_frame_trans(a: Solver, b: Solver, c: Solver)
    requires
        search_frame(a, b),
        search_frame(b, c),
    ensures
        search_frame(a, c),
{
    assert forall|i: int| 0 <= i < c.grid.cells@.len() implies {
        let nc = #[trigger] c.grid.cells@[i];
        let oc = a.grid.cells@[i];
        nc.is_black == oc.is_black && nc.fixed_char == oc.fixed_char && nc.domain.spec_subset_of(
            oc.domain,
        )
    } by {
        assert(b.grid.cells@[i].domain.spec_subset_of(a.grid.cells@[i].domain));
        assert(c.grid.cells@[i].domain.spec_subset_of(b.grid.cells@[i].domain));
    }
}

/// A solution for a frame-later state is a solution for the earlier state.
pub proof fn lemma_solution_trans(g: Grid, a: Solver, b: Solver)
    requires
        search_frame(a, b),
        solution_of(g, b),
    ensures
        solution_of(g, a),
{
    assert forall|i: int| 0 <= i < g.cells@.len() implies {
        let nc = #[trigger] g.cells@[i];
        let oc = a.grid.cells@[i];
        &&& nc.is_black == oc.is_black
        &&& nc.fixed_char == oc.fixed_char
        &&& nc.domain.spec_subset_of(oc.domain)
        &&& (!nc.is_black ==> nc.domain.spec_count() == 1)
    } by {
        assert(b.grid.cells@[i].domain.spec_subset_of(a.grid.cells@[i].domain));
        assert(g.cells@[i].domain.spec_subset_of(b.grid.cells@[i].domain));
    }
}

/// A field-for-field copy of the cell vector.
fn copy_cells(v: &Vec<Cell>) -> (r: Vec<Cell>)
    ensures
        r@ == v@,
{
    let mut out: Vec<Cell> = Vec::new();
    let len = v.len();
    let mut i: usize = 0;
    while i < len
        invariant
            i <= len,
            len == v@.len(),
            out@.len() == i,
            forall|k: int| 0 <= k < i ==> out@[k] == v@[k],
        decreases len - i,
    {
        out.push(v[i]);
        i = i + 1;
    }
    proof {
        assert(out@ =~= v@);
    }
    out
}

impl Solver {
    /// Every non-black cell has been narrowed to exactly one letter.
    fn is_solved(&self) -> (r: bool)
        requires
            self.wf(),
        ensures
            r == (forall|i: int|
                0 <= i < self.grid.cells@.len() ==> ((#[trigger] self.grid.cells@[i]).is_black
                    || self.grid.cells@[i].domain.spec_count() == 1)),
    {
        let total = self.grid.cells.len();
        let mut i: usize = 0;
        while i < total
            invariant
                self.wf(),
                total == self.grid.cells@.len(),
                i <= total,
                forall|j: int|
                    0 <= j < i ==> ((#[trigger] self.grid.cells@[j]).is_black
                        || self.grid.cells@[j].domain.spec_count() == 1),
            decreases total - i,
        {
            let cell = self.grid.cells[i];
            if !cell.is_black && cell.domain.count() != 1 {
                return false;
            }
            i = i + 1;
        }
        true
    }

    /// Re-reads the solved grid slot by slot and checks each spelled word
    /// against the dictionary. On a grid of singleton domains a negative
    /// verdict means no solving assignment exists at all: the singletons
    /// are the only candidate.
    fn check_words(&self) -> (r: bool)
        requires
            self.wf(),
        ensures
            r ==> forall|s: int|
                0 <= s < self.slots@.len() ==> slot_filled_ok(
                    self.grid,
                    self.dawg,
                    #[trigger] self.slots@[s],
                ),
            ((forall|i: int|
                0 <= i < self.grid.cells@.len() ==> ((#[trigger] self.grid.cells@[i]).is_black
                    || self.grid.cells@[i].domain.spec_count() == 1)) && !r) ==> !(exists|
                f: Seq<char>,
            |
                #[trigger] fill_solves(self.dawg, self.grid, self.slots@, f)),
    {
        let nslots = self.slots.len();
        let mut s: usize = 0;
        while s < nslots
            invariant
                self.wf(),
                nslots == self.slots@.len(),
                s <= nslots,
                forall|ss: int|
                    0 <= ss < s ==> slot_filled_ok(
                        self.grid,
                        self.dawg,
                        #[trigger] self.slots@[ss],
                    ),
            decreases nslots - s,
        {
            let slot_len = self.slots[s].length;
            let mut wchars: Vec<char> = Vec::new();
            let mut k: usize = 0;
            while k < slot_len
                invariant
                    self.wf(),
                    s < self.slots@.len(),
                    slot_len == self.slots@[s as int].length,
                    k <= slot_len,
                    wchars@.len() == k,
                    forall|kk: int|
                        0 <= kk < k ==> is_letter(#[trigger] wchars@[kk])
                            && self.grid.cells@[self.grid.spec_index(
                            self.slots@[s as int].cells@[kk].0 as int,
                            self.slots@[s as int].cells@[kk].1 as int,
                        )].domain.spec_has(letter_idx(wchars@[kk])),
                decreases slot_len - k,
            {
                proof {
                    lemma_slot_cell_in_range(self.grid, self.slots@[s as int], k as int);
                }
                let coord = self.slots[s].cells[k];
                let cell = self.grid.get_cell(coord.0, coord.1);
                proof {
                    lemma_rc_index(self.grid, coord.0 as int, coord.1 as int);
                    assert(self.grid.cells@[self.grid.spec_index(
                        coord.0 as int,
                        coord.1 as int,
                    )].wf());
                }
                match cell.domain.is_singleton() {
                    Some(ch) => {
                        wchars.push(ch);
                    },
                    None => {
                        proof {
                            if forall|i: int|
                                0 <= i < self.grid.cells@.len() ==> ((
                                #[trigger] self.grid.cells@[i]).is_black
                                    || self.grid.cells@[i].domain.spec_count() == 1) {
                                assert(self.grid.cells@[self.grid.spec_index(
                                    coord.0 as int,
                                    coord.1 as int,
                                )].is_black || self.grid.cells@[self.grid.spec_index(
                                    coord.0 as int,
                                    coord.1 as int,
                                )].domain.spec_count() == 1);
                                assert(false);
                            }
                        }
                        return false;
                    },
                }
                k = k + 1;
            }
            if !self.dawg.accepts_chars(&wchars) {
                proof {
                    if forall|i: int|
                        0 <= i < self.grid.cells@.len() ==> ((#[trigger] self.grid.cells@[i]).is_black
                            || self.grid.cells@[i].domain.spec_count() == 1) {
                        if exists|f: Seq<char>|
                            #[trigger] fill_solves(self.dawg, self.grid, self.slots@, f) {
                            let f = choose|f: Seq<char>|
                                #[trigger] fill_solves(self.dawg, self.grid, self.slots@, f);
                            let w = fill_word(self.grid, self.slots@[s as int], f);
                            assert(accepts(self.dawg, w));
                            assert forall|kk: int| 0 <= kk < slot_len implies w[kk] == wchars@[kk] by {
                                lemma_slot_cell_in_range(
                                    self.grid,
                                    self.slots@[s as int],
                                    kk,
                                );
                                lemma_rc_index(
                                    self.grid,
                                    self.slots@[s as int].cells@[kk].0 as int,
                                    self.slots@[s as int].cells@[kk].1 as int,
                                );
                                let ci = self.grid.spec_index(
                                    self.slots@[s as int].cells@[kk].0 as int,
                                    self.slots@[s as int].cells@[kk].1 as int,
                                );
                                assert(w[kk] == f[ci]);
                                assert(!self.grid.cells@[ci].is_black);
                                assert(self.grid.cells@[ci].domain.spec_has(letter_idx(f[ci])));
                                assert(self.grid.cells@[ci].domain.spec_has(
                                    letter_idx(wchars@[kk]),
                                ));
                                crate::domain::lemma_count_one_unique(
                                    self.grid.cells@[ci].domain,
                                    letter_idx(f[ci]),
                                    letter_idx(wchars@[kk]),
                                );
                            }
                            assert(w =~= wchars@);
                            assert(false);
                        }
                    }
                }
                return false;
            }
            proof {
                assert(accepts(self.dawg, wchars@) && wchars@.len()
                    == self.slots@[s as int].length);
                assert(slot_filled_ok(self.grid, self.dawg, self.slots@[s as int]));
            }
            s = s + 1;
        }
        true
    }

    /// Backtracking search: branch on a cell of minimum remaining domain
    /// size, try its letters in ascending order, propagate after each
    /// assignment, and restore the domains before the next try. A returned
    /// grid is a verified solution of the state the search started from;
    /// whenever some assignment within the entry domains solves the
    /// instance, a solution is returned, and a failure hands the domains
    /// back unchanged.
    fn backtrack(&mut self) -> (r: Option<Grid>)
        requires
            old(self).wf(),
            incidence_exact(old(self).grid, old(self).slots@, old(self).cell_to_slots@),
        ensures
            search_frame(*old(self), *final(self)),
            incidence_exact(final(self).grid, final(self).slots@, final(self).cell_to_slots@),
            match r {
                Some(g) => solution_of(g, *old(self)),
                None => final(self).grid.cells@ == old(self).grid.cells@,
            },
            (exists|f: Seq<char>|
                #[trigger] fill_solves(old(self).dawg, old(self).grid, old(self).slots@, f)) ==> r
                is Some,
        decreases cells_measure(self.grid.cells@),
    {
        if self.is_solved() {
            if self.check_words() {
                let g = Grid {
                    width: self.grid.width,
                    height: self.grid.height,
                    cells: copy_cells(&self.grid.cells),
                };
                return Some(g);
            } else {
                proof {
                    assert(forall|i: int|
                        0 <= i < self.grid.cells@.len() ==> ((#[trigger] self.grid.cells@[i]).is_black
                            || self.grid.cells@[i].domain.spec_count() == 1));
                    assert(!(exists|f: Seq<char>|
                        #[trigger] fill_solves(
                            old(self).dawg,
                            old(self).grid,
                            old(self).slots@,
                            f,
                        )));
                }
                return None;
            }
        }
        let total = self.grid.cells.len();
        let mut best: Option<usize> = None;
        let mut min_count: u32 = 32;
        let mut i: usize = 0;
        while i < total
            invariant
                *self == *old(self),
                incidence_exact(self.grid, self.slots@, self.cell_to_slots@),
                !(forall|j: int|
                    0 <= j < total ==> ((#[trigger] self.grid.cells@[j]).is_black
                        || self.grid.cells@[j].domain.spec_count() == 1)),
                self.wf(),
                total == self.grid.cells@.len(),
                i <= total,
                match best {
                    Some(b) => b < total && !self.grid.cells@[b as int].is_black
                        && self.grid.cells@[b as int].domain.spec_count() == min_count && 2
                        <= min_count,
                    None => min_count == 32 && (forall|j: int|
                        0 <= j < i ==> ((#[trigger] self.grid.cells@[j]).is_black
                            || self.grid.cells@[j].domain.spec_count() == 1)),
                },
            decreases total - i,
        {
            let cell = self.grid.cells[i];
            if !cell.is_black {
                let cnt = cell.domain.count();
                proof {
                    crate::domain::lemma_count_bound(cell.domain);
                }
                if cnt == 0 {
                    proof {
                        if exists|f: Seq<char>|
                            #[trigger] fill_solves(
                                old(self).dawg,
                                old(self).grid,
                                old(self).slots@,
                                f,
                            ) {
                            let f = choose|f: Seq<char>|
                                #[trigger] fill_solves(
                                    old(self).dawg,
                                    old(self).grid,
                                    old(self).slots@,
                                    f,
                                );
                            assert(old(self).grid.cells@[i as int].domain.spec_has(
                                letter_idx(f[i as int]),
                            ));
                            crate::domain::lemma_has_count_pos(
                                old(self).grid.cells@[i as int].domain,
                                letter_idx(f[i as int]),
                            );
                            assert(false);
                        }
                    }
                    return None;
                }
                if cnt > 1 && cnt < min_count {
                    min_count = cnt;
                    best = Some(i);
                    if cnt == 2 {
                        // two letters is the smallest branch there is: stop
                        // scanning
                        i = total;
                    } else {
                        i = i + 1;
                    }
                } else {
                    i = i + 1;
                }
            } else {
                i = i + 1;
            }
        }
        let cell_idx = match best {
            Some(x) => x,
            None => {
                // unsolved, yet no cell has an empty domain or a choice to
                // make: that state cannot be reached
                proof {
                    assert(false);
                }
                return None;
            },
        };
        let letters = self.grid.cells[cell_idx].domain.iter();
        let saved = copy_cells(&self.grid.cells);
        let nletters = letters.len();
        let mut li: usize = 0;
        proof {
            assert forall|f: Seq<char>|
                #[trigger] fill_solves(old(self).dawg, old(self).grid, old(self).slots@, f)
                    implies (exists|li2: int|
                    0 <= li2 < letters@.len() && letter_idx(#[trigger] letters@[li2])
                        == letter_idx(f[cell_idx as int])) by {
                let l = letter_idx(f[cell_idx as int]);
                assert(old(self).grid.cells@[cell_idx as int].domain.spec_has(l));
                assert(letters@.contains(idx_char(l)));
                let li2 = choose|li2: int|
                    0 <= li2 < letters@.len() && letters@[li2] == idx_char(l);
                assert(idx_char(l) as int == l + 65);
                assert(letter_idx(letters@[li2]) == l);
            }
        }
        while li < nletters
            invariant
                forall|f: Seq<char>|
                    #[trigger] fill_solves(old(self).dawg, old(self).grid, old(self).slots@, f)
                        ==> (exists|li2: int|
                        li <= li2 < letters@.len() && letter_idx(#[trigger] letters@[li2])
                            == letter_idx(f[cell_idx as int])),
                old(self).wf(),
                incidence_exact(self.grid, self.slots@, self.cell_to_slots@),
                self.wf(),
                self.dawg == old(self).dawg,
                self.slots == old(self).slots,
                self.cell_to_slots == old(self).cell_to_slots,
                self.grid.width == old(self).grid.width,
                self.grid.height == old(self).grid.height,
                self.grid.cells@ == old(self).grid.cells@,
                saved@ == old(self).grid.cells@,
                li <= nletters,
                total == self.grid.cells@.len(),
                cell_idx < total,
                !self.grid.cells@[cell_idx as int].is_black,
                self.grid.cells@[cell_idx as int].domain.spec_count() >= 2,
                nletters == letters@.len(),
                forall|k: int|
                    0 <= k < letters@.len() ==> is_letter(#[trigger] letters@[k]) && old(
                        self,
                    ).grid.cells@[cell_idx as int].domain.spec_has(letter_idx(letters@[k])),
            decreases nletters - li,
        {
            let ch = letters[li];
            let nd = Domain::from_char(ch);
            proof {
                assert(crate::domain::spec_to_upper(ch) == ch);
                lemma_singleton_count(nd, letter_idx(ch));
            }
            let ghost gprev = self.grid;
            self.grid.set_domain_at(cell_idx, nd);
            proof {
                lemma_incidence_frame(gprev, self.grid, self.slots@, self.cell_to_slots@);
                lemma_measure_update(
                    gprev.cells@,
                    cell_idx as int,
                    self.grid.cells@[cell_idx as int],
                );
                assert(same_skeleton(gprev, self.grid));
                assert forall|s: int| 0 <= s < self.slots@.len() implies slot_matches(
                    self.grid,
                    #[trigger] self.slots@[s],
                ) by {
                    lemma_slot_matches_frame(gprev, self.grid, self.slots@[s]);
                }
                assert(self.wf());
            }
            let ghost mid = *self;
            proof {
                assert(search_frame(*old(self), mid));
                assert forall|f: Seq<char>|
                    (#[trigger] fill_solves(old(self).dawg, old(self).grid, old(self).slots@, f))
                        && letter_idx(f[cell_idx as int]) == letter_idx(ch) implies fill_solves(
                    mid.dawg,
                    mid.grid,
                    mid.slots@,
                    f,
                ) by {
                    assert forall|i: int|
                        0 <= i < mid.grid.cells@.len() && !(#[trigger] mid.grid.cells@[i]).is_black
                            implies mid.grid.cells@[i].domain.spec_has(letter_idx(f[i])) by {
                        if i != cell_idx as int {
                            assert(mid.grid.cells@[i] == old(self).grid.cells@[i]);
                        } else {
                            assert(mid.grid.cells@[i].domain == nd);
                        }
                    }
                    assert forall|s: int|
                        0 <= s < mid.slots@.len() implies accepts(
                        mid.dawg,
                        fill_word(mid.grid, #[trigger] mid.slots@[s], f),
                    ) by {
                        assert(fill_word(mid.grid, mid.slots@[s], f) =~= fill_word(
                            old(self).grid,
                            old(self).slots@[s],
                            f,
                        ));
                        assert(accepts(
                            old(self).dawg,
                            fill_word(old(self).grid, old(self).slots@[s], f),
                        ));
                    }
                }
            }
            let ok = self.propagate();
            if ok {
                proof {
                    assert(search_frame(mid, *self));
                    lemma_frame_trans(*old(self), mid, *self);
                    lemma_measure_le(mid.grid.cells@, self.grid.cells@);
                    assert(cells_measure(self.grid.cells@) < cells_measure(
                        old(self).grid.cells@,
                    ));
                }
                let ghost pre_rec = *self;
                let res = self.backtrack();
                match res {
                    Some(sol) => {
                        proof {
                            lemma_frame_trans(*old(self), pre_rec, *self);
                            lemma_solution_trans(sol, *old(self), pre_rec);
                        }
                        return Some(sol);
                    },
                    None => {
                        proof {
                            lemma_frame_trans(*old(self), pre_rec, *self);
                            assert forall|f: Seq<char>|
                                (#[trigger] fill_solves(
                                    old(self).dawg,
                                    old(self).grid,
                                    old(self).slots@,
                                    f,
                                )) implies letter_idx(f[cell_idx as int]) != letter_idx(ch) by {
                                if letter_idx(f[cell_idx as int]) == letter_idx(ch) {
                                    assert(fill_solves(mid.dawg, mid.grid, mid.slots@, f));
                                    assert(fill_solves(
                                        pre_rec.dawg,
                                        pre_rec.grid,
                                        pre_rec.slots@,
                                        f,
                                    ));
                                    assert(false);
                                }
                            }
                        }
                    },
                }
            } else {
                proof {
                    assert forall|f: Seq<char>|
                        (#[trigger] fill_solves(
                            old(self).dawg,
                            old(self).grid,
                            old(self).slots@,
                            f,
                        )) implies letter_idx(f[cell_idx as int]) != letter_idx(ch) by {
                        if letter_idx(f[cell_idx as int]) == letter_idx(ch) {
                            assert(fill_solves(mid.dawg, mid.grid, mid.slots@, f));
                            assert(false);
                        }
                    }
                }
            }
            let ghost grestore = self.grid;
            let fresh = copy_cells(&saved);
            self.grid.cells = fresh;
            proof {
                lemma_incidence_frame(grestore, self.grid, self.slots@, self.cell_to_slots@);
                assert(same_skeleton(old(self).grid, self.grid));
                assert forall|s: int| 0 <= s < self.slots@.len() implies slot_matches(
                    self.grid,
                    #[trigger] self.slots@[s],
                ) by {
                    assert(self.slots@ == old(self).slots@);
                    assert(slot_matches(old(self).grid, old(self).slots@[s]));
                    lemma_slot_matches_frame(old(self).grid, self.grid, self.slots@[s]);
                }
                assert forall|f: Seq<char>|
                    #[trigger] fill_solves(old(self).dawg, old(self).grid, old(self).slots@, f)
                        implies (exists|li2: int|
                        li + 1 <= li2 < letters@.len() && letter_idx(#[trigger] letters@[li2])
                            == letter_idx(f[cell_idx as int])) by {
                    let li2 = choose|li2: int|
                        li <= li2 < letters@.len() && letter_idx(#[trigger] letters@[li2])
                            == letter_idx(f[cell_idx as int]);
                    if li2 == li {
                        assert(letter_idx(f[cell_idx as int]) != letter_idx(ch));
                        assert(false);
                    }
                }
            }
            li = li + 1;
        }
        proof {
            if exists|f: Seq<char>|
                #[trigger] fill_solves(old(self).dawg, old(self).grid, old(self).slots@, f) {
                let f = choose|f: Seq<char>|
                    #[trigger] fill_solves(old(self).dawg, old(self).grid, old(self).slots@, f);
                assert(false);
            }
        }
        None
    }

    /// Runs propagation and, when it succeeds, the backtracking search. A
    /// returned grid is a verified solution: the skeleton and fixed letters
    /// of the starting state, every domain a subset of what it was, one
    /// letter per non-black cell, and every slot spelling a dictionary word.
    /// The search is also complete: whenever some assignment within the
    /// starting domains fills every slot with a dictionary word, a solution
    /// is returned, so a `None` means the instance is unsatisfiable. In
    /// particular a grid with a slot can only be solved when the dictionary
    /// has a word of that slot's length.
    pub fn solve(&mut self) -> (r: Option<Grid>)
        requires
            old(self).wf(),
            incidence_exact(old(self).grid, old(self).slots@, old(self).cell_to_slots@),
        ensures
            search_frame(*old(self), *final(self)),
            match r {
                Some(g) => solution_of(g, *old(self)),
                None => true,
            },
            r is Some ==> forall|s: int|
                0 <= s < old(self).slots@.len() ==> has_word_of_len(
                    old(self).dawg,
                    (#[trigger] old(self).slots@[s]).length as int,
                ),
            (exists|f: Seq<char>|
                #[trigger] fill_solves(old(self).dawg, old(self).grid, old(self).slots@, f)) ==> r
                is Some,
    {
        let ok = self.propagate();
        if !ok {
            return None;
        }
        let ghost mid = *self;
        proof {
            assert(search_frame(*old(self), mid));
        }
        let r = self.backtrack();
        proof {
            if exists|f: Seq<char>|
                #[trigger] fill_solves(old(self).dawg, old(self).grid, old(self).slots@, f) {
                let f = choose|f: Seq<char>|
                    #[trigger] fill_solves(old(self).dawg, old(self).grid, old(self).slots@, f);
                assert(fill_solves(mid.dawg, mid.grid, mid.slots@, f));
                assert(r is Some);
            }
        }
        proof {
            lemma_frame_trans(*old(self), mid, *self);
            if r is Some {
                let g = r->Some_0;
                {
                    lemma_solution_trans(g, *old(self), mid);
                    assert forall|s: int| 0 <= s < old(self).slots@.len() implies has_word_of_len(
                        old(self).dawg,
                        (#[trigger] old(self).slots@[s]).length as int,
                    ) by {
                        assert(slot_filled_ok(g, old(self).dawg, old(self).slots@[s]));
                        let w = choose|w: Seq<char>|
                            #[trigger] accepts(old(self).dawg, w) && w.len() == old(
                                self,
                            ).slots@[s].length && (forall|k: int|
                                0 <= k < old(self).slots@[s].length ==> is_letter(#[trigger] w[k])
                                    && g.cells@[g.spec_index(
                                    old(self).slots@[s].cells@[k].0 as int,
                                    old(self).slots@[s].cells@[k].1 as int,
                                )].domain.spec_has(letter_idx(w[k])));
                        assert(accepts(old(self).dawg, w) && w.len() == old(
                            self,
                        ).slots@[s].length);
                    }
                }
            }
        }
        r
    }
}

} // verus!
