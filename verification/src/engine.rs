//! The solver core's outward face: configuration validation, board and
//! dictionary construction, solving, and rendering of the solved board.

use vstd::prelude::*;
use vstd::string::StrSliceExecFns;
use crate::domain::{Domain, is_letter, letter_idx, spec_to_upper, to_upper, char_code,
    lemma_count_pos_has_letter};
use crate::dawg::Dawg;
use crate::grid::{Grid, GridConfig};
use crate::solver::{Solver, lemma_rc_index, fill_solves, fill_word};
use crate::dawg::{accepts, fold_word};

verus! {

/// Outcome of a solve call: a solved board, an unsatisfiable instance, or a
/// malformed configuration.
#[derive(Debug)]
pub enum SolveOutcome {
    Success(Vec<Vec<char>>),
    Failed,
    Error(String),
}

/// The configuration is well-formed: positive dimensions whose product fits
/// the machine, wall coordinates in range and free of duplicates, and fixed
/// cells in range, naming letters, and never on a wall.
pub open spec fn config_ok(c: GridConfig) -> bool {
    &&& c.width >= 1
    &&& c.height >= 1
    &&& c.width * c.height <= usize::MAX
    &&& forall|k: int|
        0 <= k < c.black_cells@.len() ==> ((#[trigger] c.black_cells@[k]).0 as int) < c.height && (
        c.black_cells@[k].1 as int) < c.width
    &&& forall|k1: int, k2: int|
        0 <= k1 < k2 < c.black_cells@.len() ==> (#[trigger] c.black_cells@[k1]) != (
        #[trigger] c.black_cells@[k2])
    &&& forall|k: int|
        0 <= k < c.fixed_cells@.len() ==> ((#[trigger] c.fixed_cells@[k]).0 as int) < c.height && (
        c.fixed_cells@[k].1 as int) < c.width && is_letter(spec_to_upper(c.fixed_cells@[k].2))
            && !c.black_cells@.contains((c.fixed_cells@[k].0, c.fixed_cells@[k].1))
}

/// No two fixed cells name the same position.
pub open spec fn fixed_cells_distinct(c: GridConfig) -> bool {
    forall|k1: int, k2: int|
        0 <= k1 < k2 < c.fixed_cells@.len() ==> ((#[trigger] c.fixed_cells@[k1]).0 != (
        #[trigger] c.fixed_cells@[k2]).0 || c.fixed_cells@[k1].1 != c.fixed_cells@[k2].1)
}

/// Columns `c0 .. c0 + len` of row `r` are open in the configuration and
/// bounded by configured walls or the grid edge: an across slot of the
/// configured grid.
pub open spec fn config_across_run(c: GridConfig, r: int, c0: int, len: int) -> bool {
    &&& 0 <= r < c.height
    &&& 0 <= c0
    &&& c0 + len <= c.width
    &&& len >= 2
    &&& forall|k: int|
        0 <= k < len ==> !(#[trigger] c.black_cells@.contains(
            ((r as usize), ((c0 + k) as usize)),
        ))
    &&& (c0 == 0 || c.black_cells@.contains(((r as usize), ((c0 - 1) as usize))))
    &&& (c0 + len == c.width || c.black_cells@.contains(((r as usize), ((c0 + len) as usize))))
}

/// Rows `r0 .. r0 + len` of column `cl`: a down slot of the configured grid.
pub open spec fn config_down_run(c: GridConfig, r0: int, cl: int, len: int) -> bool {
    &&& 0 <= cl < c.width
    &&& 0 <= r0
    &&& r0 + len <= c.height
    &&& len >= 2
    &&& forall|k: int|
        0 <= k < len ==> !(#[trigger] c.black_cells@.contains(
            (((r0 + k) as usize), (cl as usize)),
        ))
    &&& (r0 == 0 || c.black_cells@.contains((((r0 - 1) as usize), (cl as usize))))
    &&& (r0 + len == c.height || c.black_cells@.contains((((r0 + len) as usize), (cl as usize))))
}

/// The dictionary built from the word list accepts `v`: `v` is the case
/// folding of some admissible word of the list.
pub open spec fn list_accepts(words: Seq<String>, v: Seq<char>) -> bool {
    exists|k: int|
        0 <= k < words.len() && word_admissible((#[trigger] words[k])@) && v == fold_word(
            words[k]@,
        )
}

/// `f` (one character per cell, row-major) fills the configured instance: a
/// letter on every open cell, the configured letter (case-folded) on every
/// fixed cell, and a dictionary word along every maximal run.
pub open spec fn config_fill_ok(c: GridConfig, words: Seq<String>, f: Seq<char>) -> bool {
    &&& f.len() == c.width * c.height
    &&& (forall|rr: int, cc: int|
        0 <= rr < c.height && 0 <= cc < c.width && !c.black_cells@.contains(
            ((rr as usize), (cc as usize)),
        ) ==> is_letter(#[trigger] f[rr * c.width + cc]))
    &&& (forall|k: int|
        0 <= k < c.fixed_cells@.len() ==> f[((#[trigger] c.fixed_cells@[k]).0 as int) * c.width + (
        c.fixed_cells@[k].1 as int)] == spec_to_upper(c.fixed_cells@[k].2))
    &&& (forall|r: int, c0: int, len: int|
        #[trigger] config_across_run(c, r, c0, len) ==> list_accepts(
            words,
            Seq::new(len as nat, |k: int| f[r * c.width + c0 + k]),
        ))
    &&& (forall|r0: int, cl: int, len: int|
        #[trigger] config_down_run(c, r0, cl, len) ==> list_accepts(
            words,
            Seq::new(len as nat, |k: int| f[(r0 + k) * c.width + cl]),
        ))
}

/// A word is admitted to the dictionary: at least two characters, each
/// folding to a letter A-Z.
pub open spec fn word_admissible(w: Seq<char>) -> bool {
    w.len() >= 2 && (forall|i: int| 0 <= i < w.len() ==> is_letter(spec_to_upper(#[trigger] w[i])))
}

/// Positions inside the grid agree on their row-major index exactly when
/// they are the same position.
proof fn lemma_rc_unique(g: Grid, r1: int, c1: int, r2: int, c2: int)
    requires
        0 <= c1 < g.width,
        0 <= c2 < g.width,
        0 <= r1,
        0 <= r2,
    ensures
        (g.spec_index(r1, c1) == g.spec_index(r2, c2)) <==> (r1 == r2 && c1 == c2),
{
    let w = g.width as int;
    assert(r1 * w + c1 == r2 * w + c2 ==> r1 == r2 && c1 == c2) by (nonlinear_arith)
        requires
            0 <= c1 < w && 0 <= c2 < w && 0 <= r1 && 0 <= r2,
    ;
}

/// Tests whether a word is admitted to the dictionary.
fn word_ok(s: &str) -> (r: bool)
    ensures
        r == word_admissible(s@),
{
    let n = s.unicode_len();
    if n < 2 {
        return false;
    }
    let mut i: usize = 0;
    while i < n
        invariant
            n == s@.len(),
            i <= n,
            forall|k: int| 0 <= k < i ==> is_letter(spec_to_upper(#[trigger] s@[k])),
        decreases n - i,
    {
        let u = char_code(to_upper(s.get_char(i)));
        if u < 65 || u > 90 {
            return false;
        }
        i = i + 1;
    }
    true
}

/// Renders a board: `#` for a wall, the letter of a cell narrowed to one,
/// `?` for a cell still undetermined.
pub fn render(g: &Grid) -> (out: Vec<Vec<char>>)
    requires
        g.wf(),
    ensures
        out@.len() == g.height,
        forall|rr: int| 0 <= rr < out@.len() ==> (#[trigger] out@[rr])@.len() == g.width,
        forall|rr: int, cc: int|
            0 <= rr < g.height && 0 <= cc < g.width ==> {
                let cell = g.cells@[g.spec_index(rr, cc)];
                let ch = #[trigger] out@[rr]@[cc];
                if cell.is_black {
                    ch == '#'
                } else if cell.domain.spec_count() == 1 {
                    is_letter(ch) && cell.domain.spec_has(letter_idx(ch))
                } else {
                    ch == '?'
                }
            },
{
    let mut out: Vec<Vec<char>> = Vec::new();
    let mut rr: usize = 0;
    while rr < g.height
        invariant
            g.wf(),
            rr <= g.height,
            out@.len() == rr,
            forall|r2: int| 0 <= r2 < rr ==> (#[trigger] out@[r2])@.len() == g.width,
            forall|r2: int, cc: int|
                0 <= r2 < rr && 0 <= cc < g.width ==> {
                    let cell = g.cells@[g.spec_index(r2, cc)];
                    let ch = #[trigger] out@[r2]@[cc];
                    if cell.is_black {
                        ch == '#'
                    } else if cell.domain.spec_count() == 1 {
                        is_letter(ch) && cell.domain.spec_has(letter_idx(ch))
                    } else {
                        ch == '?'
                    }
                },
        decreases g.height - rr,
    {
        let mut row: Vec<char> = Vec::new();
        let mut cc: usize = 0;
        while cc < g.width
            invariant
                g.wf(),
                rr < g.height,
                cc <= g.width,
                row@.len() == cc,
                forall|c2: int|
                    0 <= c2 < cc ==> {
                        let cell = g.cells@[g.spec_index(rr as int, c2)];
                        let ch = #[trigger] row@[c2];
                        if cell.is_black {
                            ch == '#'
                        } else if cell.domain.spec_count() == 1 {
                            is_letter(ch) && cell.domain.spec_has(letter_idx(ch))
                        } else {
                            ch == '?'
                        }
                    },
            decreases g.width - cc,
        {
            proof {
                lemma_rc_index(*g, rr as int, cc as int);
            }
            let cell = g.get_cell(rr, cc);
            if cell.is_black {
                row.push('#');
            } else {
                match cell.domain.is_singleton() {
                    Some(ch) => {
                        row.push(ch);
                    },
                    None => {
                        row.push('?');
                    },
                }
            }
            cc = cc + 1;
        }
        out.push(row);
        rr = rr + 1;
    }
    out
}

/// Membership in a pushed sequence.
proof fn lemma_contains_push(s: Seq<(usize, usize)>, e: (usize, usize), x: (usize, usize))
    ensures
        s.push(e).contains(x) <==> (s.contains(x) || x == e),
{
    if s.contains(x) {
        let j = choose|j: int| 0 <= j < s.len() && s[j] == x;
        assert(s.push(e)[j] == x);
    }
    if x == e {
        assert(s.push(e)[s.len() as int] == x);
    }
    if s.push(e).contains(x) {
        let j = choose|j: int| 0 <= j < s.push(e).len() && s.push(e)[j] == x;
        if j < s.len() {
            assert(s[j] == x);
        }
    }
}

/// Validates the configuration, builds the board and the dictionary, runs
/// the constraint engine, and renders the outcome. `Error` comes exactly on
/// a malformed configuration. A `Success` board has the configured
/// dimensions, walls exactly at the configured positions, an uppercase
/// letter everywhere else, every maximal run spelling a (case-folded,
/// admissible) word of the list, and, when no two fixings name one cell,
/// every fixed cell shows its configured letter, case-folded. `Failed`
/// comes only when no assignment of letters fills the configured instance
/// (stated for configurations whose fixings name distinct cells; fixings
/// that collide leave no fill either way).
pub fn solve_config(config: &GridConfig, words: &Vec<String>) -> (r: SolveOutcome)
    ensures
        (r is Error) <==> !config_ok(*config),
        (r is Failed && fixed_cells_distinct(*config)) ==> !(exists|f: Seq<char>|
            #[trigger] config_fill_ok(*config, words@, f)),
        (match r {
            SolveOutcome::Success(out) => {
                &&& out@.len() == config.height
                &&& (forall|rr: int|
                    0 <= rr < out@.len() ==> (#[trigger] out@[rr])@.len() == config.width)
                &&& (forall|rr: int, cc: int|
                    0 <= rr < config.height && 0 <= cc < config.width ==> (((
                    #[trigger] out@[rr]@[cc]) == '#') <==> config.black_cells@.contains((
                        (rr as usize),
                        (cc as usize),
                    ))))
                &&& (forall|rr: int, cc: int|
                    0 <= rr < config.height && 0 <= cc < config.width
                        && !config.black_cells@.contains(((rr as usize), (cc as usize)))
                        ==> is_letter(#[trigger] out@[rr]@[cc]))
                &&& (fixed_cells_distinct(*config) ==> (forall|k: int|
                    0 <= k < config.fixed_cells@.len()
                        ==> out@[(#[trigger] config.fixed_cells@[k]).0 as int]@[config.fixed_cells@[k].1 as int]
                        == spec_to_upper(config.fixed_cells@[k].2)))
                &&& (forall|r: int, c0: int, len: int|
                    #[trigger] config_across_run(*config, r, c0, len) ==> list_accepts(
                        words@,
                        Seq::new(len as nat, |k: int| out@[r]@[c0 + k]),
                    ))
                &&& (forall|r0: int, cl: int, len: int|
                    #[trigger] config_down_run(*config, r0, cl, len) ==> list_accepts(
                        words@,
                        Seq::new(len as nat, |k: int| out@[r0 + k]@[cl]),
                    ))
            },
            SolveOutcome::Failed => true,
            SolveOutcome::Error(_) => true,
        }),
{
    if config.width == 0 || config.height == 0 {
        return SolveOutcome::Error("grid dimensions must be positive".to_owned());
    }
    let maxdiv = usize::MAX / config.height;
    if config.width > maxdiv {
        proof {
            let w = config.width as int;
            let h = config.height as int;
            let m = usize::MAX as int;
            vstd::arithmetic::div_mod::lemma_fundamental_div_mod(m, h);
            assert(w * h > m) by (nonlinear_arith)
                requires
                    w >= m / h + 1 && h >= 1 && m == h * (m / h) + m % h && 0 <= m % h < h,
            ;
        }
        return SolveOutcome::Error("grid dimensions overflow".to_owned());
    }
    proof {
        let w = config.width as int;
        let h = config.height as int;
        let m = usize::MAX as int;
        vstd::arithmetic::div_mod::lemma_fundamental_div_mod(m, h);
        assert(w * h <= m) by (nonlinear_arith)
            requires
                w <= m / h && h >= 1 && m == h * (m / h) + m % h && 0 <= m % h < h,
        ;
    }
    let nb = config.black_cells.len();
    let mut i: usize = 0;
    while i < nb
        invariant
            i <= nb,
            nb == config.black_cells@.len(),
            forall|k: int|
                0 <= k < i ==> ((#[trigger] config.black_cells@[k]).0 as int) < config.height && (
                config.black_cells@[k].1 as int) < config.width,
            forall|k1: int, k2: int|
                0 <= k1 < k2 < i ==> (#[trigger] config.black_cells@[k1]) != (
                #[trigger] config.black_cells@[k2]),
        decreases nb - i,
    {
        let bcell = config.black_cells[i];
        if bcell.0 >= config.height || bcell.1 >= config.width {
            return SolveOutcome::Error("wall coordinates out of range".to_owned());
        }
        let mut j: usize = 0;
        while j < i
            invariant
                j <= i,
                i < nb,
                nb == config.black_cells@.len(),
                bcell == config.black_cells@[i as int],
                forall|k: int|
                    0 <= k < j ==> (#[trigger] config.black_cells@[k])
                        != config.black_cells@[i as int],
            decreases i - j,
        {
            let pcell = config.black_cells[j];
            if pcell.0 == bcell.0 && pcell.1 == bcell.1 {
                proof {
                    assert(config.black_cells@[j as int] == config.black_cells@[i as int]);
                }
                return SolveOutcome::Error("duplicate wall cell".to_owned());
            }
            j = j + 1;
        }
        i = i + 1;
    }
    let nf = config.fixed_cells.len();
    i = 0;
    while i < nf
        invariant
            i <= nf,
            nf == config.fixed_cells@.len(),
            nb == config.black_cells@.len(),
            forall|k: int|
                0 <= k < i ==> ((#[trigger] config.fixed_cells@[k]).0 as int) < config.height && (
                config.fixed_cells@[k].1 as int) < config.width && is_letter(spec_to_upper(
                    config.fixed_cells@[k].2,
                )) && !config.black_cells@.contains((
                    config.fixed_cells@[k].0,
                    config.fixed_cells@[k].1,
                )),
        decreases nf - i,
    {
        let fcell = config.fixed_cells[i];
        if fcell.0 >= config.height || fcell.1 >= config.width {
            return SolveOutcome::Error("fixed cell out of range".to_owned());
        }
        let u = char_code(to_upper(fcell.2));
        if u < 65 || u > 90 {
            return SolveOutcome::Error("fixed letter must be A-Z".to_owned());
        }
        let mut j: usize = 0;
        while j < nb
            invariant
                j <= nb,
                i < nf,
                nf == config.fixed_cells@.len(),
                nb == config.black_cells@.len(),
                fcell == config.fixed_cells@[i as int],
                forall|k: int|
                    0 <= k < j ==> (#[trigger] config.black_cells@[k]) != (fcell.0, fcell.1),
            decreases nb - j,
        {
            let bcell = config.black_cells[j];
            if bcell.0 == fcell.0 && bcell.1 == fcell.1 {
                proof {
                    assert(config.black_cells@.contains((
                        config.fixed_cells@[i as int].0,
                        config.fixed_cells@[i as int].1,
                    ))) by {
                        assert(config.black_cells@[j as int] == (fcell.0, fcell.1));
                    }
                }
                return SolveOutcome::Error("fixed cell lies on a wall".to_owned());
            }
            j = j + 1;
        }
        proof {
            if config.black_cells@.contains((fcell.0, fcell.1)) {
                let jj = choose|jj: int|
                    0 <= jj < config.black_cells@.len() && config.black_cells@[jj] == (
                    fcell.0,
                    fcell.1,
                );
                assert(false);
            }
        }
        i = i + 1;
    }
    proof {
        assert(config_ok(*config));
    }
    let mut grid = Grid::new(config.width, config.height);
    proof {
        assert forall|rr: int, cc: int|
            0 <= rr < config.height && 0 <= cc < config.width implies !(
        #[trigger] grid.cells@[grid.spec_index(rr, cc)]).is_black by {
            lemma_rc_index(grid, rr, cc);
        }
        assert(config.black_cells@.take(0).len() == 0);
        assert forall|rr: int, cc: int| #![trigger grid.spec_index(rr, cc)]
            0 <= rr < config.height && 0 <= cc < config.width implies (forall|l: int|
            0 <= l < 26 ==> #[trigger] grid.cells@[grid.spec_index(rr, cc)].domain.spec_has(
                l,
            )) by {
            lemma_rc_index(grid, rr, cc);
        }
    }
    i = 0;
    while i < nb
        invariant
            i <= nb,
            nb == config.black_cells@.len(),
            config_ok(*config),
            grid.wf(),
            grid.width == config.width,
            grid.height == config.height,
            forall|rr: int, cc: int|
                0 <= rr < config.height && 0 <= cc < config.width ==> ((#[trigger] grid.cells@[grid.spec_index(
                    rr,
                    cc,
                )]).is_black <==> config.black_cells@.take(i as int).contains((
                    (rr as usize),
                    (cc as usize),
                ))),
            forall|ii: int|
                0 <= ii < grid.cells@.len() ==> (#[trigger] grid.cells@[ii]).fixed_char is None,
            forall|rr: int, cc: int|
                0 <= rr < config.height && 0 <= cc < config.width && !(
                #[trigger] grid.cells@[grid.spec_index(rr, cc)]).is_black ==> (forall|l: int|
                    0 <= l < 26 ==> #[trigger] grid.cells@[grid.spec_index(
                        rr,
                        cc,
                    )].domain.spec_has(l)),
        decreases nb - i,
    {
        let bcell = config.black_cells[i];
        let ghost gprev = grid;
        grid.set_black(bcell.0, bcell.1, true);
        proof {
            assert(config.black_cells@.take(i as int + 1) =~= config.black_cells@.take(
                i as int,
            ).push(config.black_cells@[i as int]));
            assert forall|rr: int, cc: int|
                0 <= rr < config.height && 0 <= cc < config.width implies ((
            #[trigger] grid.cells@[grid.spec_index(rr, cc)]).is_black
                <==> config.black_cells@.take(i as int + 1).contains((
                    (rr as usize),
                    (cc as usize),
                ))) by {
                lemma_rc_index(gprev, rr, cc);
                lemma_contains_push(
                    config.black_cells@.take(i as int),
                    config.black_cells@[i as int],
                    ((rr as usize), (cc as usize)),
                );
                if rr == bcell.0 as int && cc == bcell.1 as int {
                    assert(grid.cells@[grid.spec_index(rr, cc)].is_black);
                } else {
                    lemma_rc_unique(gprev, rr, cc, bcell.0 as int, bcell.1 as int);
                    assert(grid.spec_index(rr, cc) != gprev.spec_index(
                        bcell.0 as int,
                        bcell.1 as int,
                    ));
                    assert(grid.cells@[grid.spec_index(rr, cc)] == gprev.cells@[gprev.spec_index(
                        rr,
                        cc,
                    )]);
                }
            }
            assert forall|rr: int, cc: int|
                0 <= rr < config.height && 0 <= cc < config.width && !(
            #[trigger] grid.cells@[grid.spec_index(rr, cc)]).is_black implies (forall|l: int|
                0 <= l < 26 ==> #[trigger] grid.cells@[grid.spec_index(rr, cc)].domain.spec_has(
                    l,
                )) by {
                lemma_rc_index(gprev, rr, cc);
                if !(rr == bcell.0 as int && cc == bcell.1 as int) {
                    lemma_rc_unique(gprev, rr, cc, bcell.0 as int, bcell.1 as int);
                    assert(grid.cells@[grid.spec_index(rr, cc)] == gprev.cells@[gprev.spec_index(
                        rr,
                        cc,
                    )]);
                }
            }
        }
        i = i + 1;
    }
    proof {
        assert(config.black_cells@.take(nb as int) =~= config.black_cells@);
    }
    i = 0;
    while i < nf
        invariant
            i <= nf,
            nf == config.fixed_cells@.len(),
            config_ok(*config),
            grid.wf(),
            grid.width == config.width,
            grid.height == config.height,
            forall|rr: int, cc: int|
                0 <= rr < config.height && 0 <= cc < config.width ==> ((#[trigger] grid.cells@[grid.spec_index(
                    rr,
                    cc,
                )]).is_black <==> config.black_cells@.contains(((rr as usize), (cc as usize)))),
            fixed_cells_distinct(*config) ==> (forall|k: int|
                0 <= k < i ==> {
                    let f = #[trigger] config.fixed_cells@[k];
                    let cell = grid.cells@[grid.spec_index(f.0 as int, f.1 as int)];
                    &&& cell.fixed_char == Some(spec_to_upper(f.2))
                    &&& forall|l: int|
                        cell.domain.spec_has(l) <==> l == letter_idx(spec_to_upper(f.2))
                }),
            forall|rr: int, cc: int|
                0 <= rr < config.height && 0 <= cc < config.width && !(
                #[trigger] grid.cells@[grid.spec_index(rr, cc)]).is_black && !(exists|k: int|
                    0 <= k < i && ((#[trigger] config.fixed_cells@[k]).0 as int) == rr && (
                    config.fixed_cells@[k].1 as int) == cc) ==> (forall|l: int|
                    0 <= l < 26 ==> #[trigger] grid.cells@[grid.spec_index(
                        rr,
                        cc,
                    )].domain.spec_has(l)),
        decreases nf - i,
    {
        let fcell = config.fixed_cells[i];
        let up = to_upper(fcell.2);
        let d = Domain::from_char(fcell.2);
        let ghost gprev = grid;
        grid.set_domain(fcell.0, fcell.1, d);
        grid.set_fixed(fcell.0, fcell.1, Some(up));
        proof {
            lemma_rc_index(gprev, fcell.0 as int, fcell.1 as int);
            assert forall|rr: int, cc: int|
                0 <= rr < config.height && 0 <= cc < config.width implies ((
            #[trigger] grid.cells@[grid.spec_index(rr, cc)]).is_black
                <==> config.black_cells@.contains(((rr as usize), (cc as usize)))) by {
                lemma_rc_index(gprev, rr, cc);
                if !(rr == fcell.0 as int && cc == fcell.1 as int) {
                    lemma_rc_unique(gprev, rr, cc, fcell.0 as int, fcell.1 as int);
                }
            }
            assert forall|rr: int, cc: int|
                0 <= rr < config.height && 0 <= cc < config.width && !(
            #[trigger] grid.cells@[grid.spec_index(rr, cc)]).is_black && !(exists|k: int|
                0 <= k < i + 1 && ((#[trigger] config.fixed_cells@[k]).0 as int) == rr && (
                config.fixed_cells@[k].1 as int) == cc) implies (forall|l: int|
                0 <= l < 26 ==> #[trigger] grid.cells@[grid.spec_index(rr, cc)].domain.spec_has(
                    l,
                )) by {
                lemma_rc_index(gprev, rr, cc);
                if !(rr == fcell.0 as int && cc == fcell.1 as int) {
                    lemma_rc_unique(gprev, rr, cc, fcell.0 as int, fcell.1 as int);
                    assert(grid.cells@[grid.spec_index(rr, cc)] == gprev.cells@[gprev.spec_index(
                        rr,
                        cc,
                    )]);
                } else {
                    assert(((config.fixed_cells@[i as int]).0 as int) == rr && (
                    config.fixed_cells@[i as int].1 as int) == cc);
                }
            }
            if fixed_cells_distinct(*config) {
                assert forall|k: int| 0 <= k < i + 1 implies {
                    let f = #[trigger] config.fixed_cells@[k];
                    let cell = grid.cells@[grid.spec_index(f.0 as int, f.1 as int)];
                    &&& cell.fixed_char == Some(spec_to_upper(f.2))
                    &&& forall|l: int|
                        cell.domain.spec_has(l) <==> l == letter_idx(spec_to_upper(f.2))
                } by {
                    let f = config.fixed_cells@[k];
                    lemma_rc_index(gprev, f.0 as int, f.1 as int);
                    if k < i {
                        assert(f.0 != fcell.0 || f.1 != fcell.1);
                        lemma_rc_unique(gprev, f.0 as int, f.1 as int, fcell.0 as int,
                            fcell.1 as int);
                    }
                }
            }
        }
        i = i + 1;
    }
    let mut dawg = Dawg::new();
    let nw = words.len();
    i = 0;
    while i < nw
        invariant
            i <= nw,
            nw == words@.len(),
            dawg.wf(),
            forall|v: Seq<char>|
                (#[trigger] accepts(dawg, v)) <==> (exists|k: int|
                    0 <= k < i && word_admissible((#[trigger] words@[k])@) && v == fold_word(
                        words@[k]@,
                    )),
        decreases nw - i,
    {
        let w = words[i].as_str();
        let ghost dprev = dawg;
        let ok = word_ok(w);
        if ok {
            dawg.insert(w);
        }
        proof {
            assert forall|v: Seq<char>| (#[trigger] accepts(dawg, v)) <==> (exists|k: int|
                0 <= k < i + 1 && word_admissible((#[trigger] words@[k])@) && v == fold_word(
                    words@[k]@,
                )) by {
                if ok {
                    if v == fold_word(words@[i as int]@) {
                        assert(accepts(dawg, v));
                        assert(word_admissible(words@[i as int]@));
                    } else {
                        assert(accepts(dawg, v) == accepts(dprev, v));
                    }
                } else {
                    assert(accepts(dawg, v) == accepts(dprev, v));
                    if accepts(dawg, v) {
                        let k = choose|k: int|
                            0 <= k < i && word_admissible((#[trigger] words@[k])@) && v
                                == fold_word(words@[k]@);
                        assert(0 <= k < i + 1 && word_admissible(words@[k]@) && v == fold_word(
                            words@[k]@,
                        ));
                    }
                    if exists|k: int|
                        0 <= k < i + 1 && word_admissible((#[trigger] words@[k])@) && v
                            == fold_word(words@[k]@) {
                        let k = choose|k: int|
                            0 <= k < i + 1 && word_admissible((#[trigger] words@[k])@) && v
                                == fold_word(words@[k]@);
                        assert(k < i);
                    }
                }
            }
        }
        i = i + 1;
    }
    let ghost built_grid = grid;
    let mut solver = Solver::new(grid, dawg);
    let ghost pre = solver;
    let solved = solver.solve();
    match solved {
        Some(sol) => {
            let out = render(&sol);
            proof {
                assert(crate::solver::solution_of(sol, pre));
                assert forall|rr: int, cc: int|
                    0 <= rr < config.height && 0 <= cc < config.width implies (((
                #[trigger] out@[rr]@[cc]) == '#') <==> config.black_cells@.contains((
                    (rr as usize),
                    (cc as usize),
                ))) by {
                    lemma_rc_index(built_grid, rr, cc);
                    assert(sol.cells@[sol.spec_index(rr, cc)].is_black
                        == built_grid.cells@[built_grid.spec_index(rr, cc)].is_black);
                    if !sol.cells@[sol.spec_index(rr, cc)].is_black {
                        assert(is_letter(out@[rr]@[cc]));
                        assert(out@[rr]@[cc] != '#');
                    }
                }
                assert forall|rr: int, cc: int|
                    0 <= rr < config.height && 0 <= cc < config.width
                        && !config.black_cells@.contains(((rr as usize), (cc as usize)))
                        implies is_letter(#[trigger] out@[rr]@[cc]) by {
                    lemma_rc_index(built_grid, rr, cc);
                }
                if fixed_cells_distinct(*config) {
                    assert forall|k: int| 0 <= k < config.fixed_cells@.len()
                        implies out@[(#[trigger] config.fixed_cells@[k]).0 as int]@[config.fixed_cells@[k].1 as int]
                        == spec_to_upper(config.fixed_cells@[k].2) by {
                        let f = config.fixed_cells@[k];
                        let fr = f.0 as int;
                        let fc = f.1 as int;
                        lemma_rc_index(built_grid, fr, fc);
                        let bcell = built_grid.cells@[built_grid.spec_index(fr, fc)];
                        let scell = sol.cells@[sol.spec_index(fr, fc)];
                        assert(!bcell.is_black);
                        assert(scell.domain.spec_count() == 1);
                        lemma_count_pos_has_letter(scell.domain);
                        let l = choose|l: int| #[trigger] scell.domain.spec_has(l);
                        assert(bcell.domain.spec_has(l));
                        assert(l == letter_idx(spec_to_upper(f.2)));
                        let ch = out@[fr]@[fc];
                        assert(is_letter(ch) && scell.domain.spec_has(letter_idx(ch)));
                        assert(letter_idx(ch) == l);
                        assert(ch as int == spec_to_upper(f.2) as int);
                        assert(ch == spec_to_upper(f.2));
                    }
                }
                assert forall|r: int, c0: int, len: int| #[trigger] config_across_run(
                    *config,
                    r,
                    c0,
                    len,
                ) implies list_accepts(
                    words@,
                    Seq::new(len as nat, |k: int| out@[r]@[c0 + k]),
                ) by {
                    assert forall|k: int| 0 <= k < len implies !(
                    #[trigger] built_grid.cells@[built_grid.spec_index(r, c0 + k)]).is_black by {
                        lemma_rc_index(built_grid, r, c0 + k);
                        assert(!config.black_cells@.contains(((r as usize), ((c0 + k) as usize))));
                    }
                    if c0 > 0 {
                        lemma_rc_index(built_grid, r, c0 - 1);
                    }
                    if c0 + len < config.width {
                        lemma_rc_index(built_grid, r, c0 + len);
                    }
                    assert(crate::solver::across_slot_at(built_grid, r, c0, len));
                    assert(crate::solver::has_across_slot(pre.slots@, r, c0, len));
                    let si = choose|si: int|
                        0 <= si < pre.slots@.len() && (#[trigger] pre.slots@[si]).is_across
                            && pre.slots@[si].r == r && pre.slots@[si].c == c0
                            && pre.slots@[si].length == len;
                    assert(crate::solver::slot_filled_ok(sol, pre.dawg, pre.slots@[si]));
                    let wsol = choose|wsol: Seq<char>|
                        #[trigger] accepts(pre.dawg, wsol) && wsol.len() == pre.slots@[si].length
                            && (forall|k: int|
                            0 <= k < pre.slots@[si].length ==> is_letter(#[trigger] wsol[k])
                                && sol.cells@[sol.spec_index(
                                pre.slots@[si].cells@[k].0 as int,
                                pre.slots@[si].cells@[k].1 as int,
                            )].domain.spec_has(letter_idx(wsol[k])));
                    let sv = Seq::new(len as nat, |k: int| out@[r]@[c0 + k]);
                    assert forall|k: int| 0 <= k < len implies sv[k] == wsol[k] by {
                        assert(crate::solver::slot_matches(pre.grid, pre.slots@[si]));
                        assert(pre.slots@[si].cells@[k] == (
                            pre.slots@[si].r,
                            (pre.slots@[si].c + k) as usize,
                        ));
                        lemma_rc_index(built_grid, r, c0 + k);
                        let ci = sol.spec_index(r, c0 + k);
                        assert(sol.cells@[ci].domain.spec_has(letter_idx(wsol[k])));
                        assert(is_letter(out@[r]@[c0 + k]) && sol.cells@[ci].domain.spec_has(
                            letter_idx(out@[r]@[c0 + k]),
                        ));
                        crate::domain::lemma_count_one_unique(
                            sol.cells@[ci].domain,
                            letter_idx(wsol[k]),
                            letter_idx(out@[r]@[c0 + k]),
                        );
                    }
                    assert(sv =~= wsol);
                    assert(list_accepts(words@, wsol));
                }
                assert forall|r0: int, cl: int, len: int| #[trigger] config_down_run(
                    *config,
                    r0,
                    cl,
                    len,
                ) implies list_accepts(
                    words@,
                    Seq::new(len as nat, |k: int| out@[r0 + k]@[cl]),
                ) by {
                    assert forall|k: int| 0 <= k < len implies !(
                    #[trigger] built_grid.cells@[built_grid.spec_index(r0 + k, cl)]).is_black by {
                        lemma_rc_index(built_grid, r0 + k, cl);
                        assert(!config.black_cells@.contains((((r0 + k) as usize), (cl as usize))));
                    }
                    if r0 > 0 {
                        lemma_rc_index(built_grid, r0 - 1, cl);
                    }
                    if r0 + len < config.height {
                        lemma_rc_index(built_grid, r0 + len, cl);
                    }
                    assert(crate::solver::down_slot_at(built_grid, r0, cl, len));
                    assert(crate::solver::has_down_slot(pre.slots@, r0, cl, len));
                    let si = choose|si: int|
                        0 <= si < pre.slots@.len() && !(#[trigger] pre.slots@[si]).is_across
                            && pre.slots@[si].r == r0 && pre.slots@[si].c == cl
                            && pre.slots@[si].length == len;
                    assert(crate::solver::slot_filled_ok(sol, pre.dawg, pre.slots@[si]));
                    let wsol = choose|wsol: Seq<char>|
                        #[trigger] accepts(pre.dawg, wsol) && wsol.len() == pre.slots@[si].length
                            && (forall|k: int|
                            0 <= k < pre.slots@[si].length ==> is_letter(#[trigger] wsol[k])
                                && sol.cells@[sol.spec_index(
                                pre.slots@[si].cells@[k].0 as int,
                                pre.slots@[si].cells@[k].1 as int,
                            )].domain.spec_has(letter_idx(wsol[k])));
                    let sv = Seq::new(len as nat, |k: int| out@[r0 + k]@[cl]);
                    assert forall|k: int| 0 <= k < len implies sv[k] == wsol[k] by {
                        assert(crate::solver::slot_matches(pre.grid, pre.slots@[si]));
                        assert(pre.slots@[si].cells@[k] == (
                            (pre.slots@[si].r + k) as usize,
                            pre.slots@[si].c,
                        ));
                        lemma_rc_index(built_grid, r0 + k, cl);
                        let ci = sol.spec_index(r0 + k, cl);
                        assert(sol.cells@[ci].domain.spec_has(letter_idx(wsol[k])));
                        assert(is_letter(out@[r0 + k]@[cl]) && sol.cells@[ci].domain.spec_has(
                            letter_idx(out@[r0 + k]@[cl]),
                        ));
                        crate::domain::lemma_count_one_unique(
                            sol.cells@[ci].domain,
                            letter_idx(wsol[k]),
                            letter_idx(out@[r0 + k]@[cl]),
                        );
                    }
                    assert(sv =~= wsol);
                    assert(list_accepts(words@, wsol));
                }
            }
            SolveOutcome::Success(out)
        },
        None => {
            proof {
                if fixed_cells_distinct(*config) {
                    if exists|f: Seq<char>| #[trigger] config_fill_ok(*config, words@, f) {
                        let f = choose|f: Seq<char>| #[trigger] config_fill_ok(*config, words@, f);
                        let w = config.width as int;
                        let h = config.height as int;
                        assert forall|ii: int|
                            0 <= ii < pre.grid.cells@.len() && !(
                        #[trigger] pre.grid.cells@[ii]).is_black
                            implies pre.grid.cells@[ii].domain.spec_has(letter_idx(f[ii])) by {
                            vstd::arithmetic::div_mod::lemma_fundamental_div_mod(ii, w);
                            let rr = ii / w;
                            let cc = ii % w;
                            assert(rr < h) by (nonlinear_arith)
                                requires
                                    ii < w * h && w >= 1 && ii == w * rr + cc && 0 <= cc < w && 0
                                        <= rr,
                            ;
                            assert(pre.grid.width == config.width);
                            assert(ii == w * rr + cc);
                            assert(rr * w == w * rr) by (nonlinear_arith);
                            assert(pre.grid.spec_index(rr, cc) == ii);
                            assert(!config.black_cells@.contains(
                                ((rr as usize), (cc as usize)),
                            ));
                            assert(is_letter(f[rr * w + cc]));
                            if exists|k: int|
                                0 <= k < config.fixed_cells@.len() && ((
                                #[trigger] config.fixed_cells@[k]).0 as int) == rr && (
                                config.fixed_cells@[k].1 as int) == cc {
                                let k = choose|k: int|
                                    0 <= k < config.fixed_cells@.len() && ((
                                    #[trigger] config.fixed_cells@[k]).0 as int) == rr && (
                                    config.fixed_cells@[k].1 as int) == cc;
                                assert(f[((config.fixed_cells@[k]).0 as int) * w + (
                                config.fixed_cells@[k].1 as int)] == spec_to_upper(
                                    config.fixed_cells@[k].2,
                                ));
                                assert(pre.grid.cells@[ii].domain.spec_has(
                                    letter_idx(spec_to_upper(config.fixed_cells@[k].2)),
                                ));
                            } else {
                                assert(pre.grid.cells@[ii].domain.spec_has(letter_idx(f[ii])));
                            }
                        }
                        assert forall|s: int| 0 <= s < pre.slots@.len() implies accepts(
                            pre.dawg,
                            fill_word(pre.grid, #[trigger] pre.slots@[s], f),
                        ) by {
                            let slot = pre.slots@[s];
                            assert(crate::solver::slot_matches(pre.grid, slot));
                            let wv = fill_word(pre.grid, slot, f);
                            if slot.is_across {
                                let r0 = slot.r as int;
                                let c0 = slot.c as int;
                                let len = slot.length as int;
                                assert forall|k: int| 0 <= k < len implies !(
                                #[trigger] config.black_cells@.contains(
                                    ((r0 as usize), ((c0 + k) as usize)),
                                )) by {
                                    lemma_rc_index(pre.grid, r0, c0 + k);
                                    assert(!pre.grid.cells@[pre.grid.spec_index(
                                        r0,
                                        c0 + k,
                                    )].is_black);
                                }
                                if c0 > 0 {
                                    lemma_rc_index(pre.grid, r0, c0 - 1);
                                }
                                if c0 + len < w {
                                    lemma_rc_index(pre.grid, r0, c0 + len);
                                }
                                assert(config_across_run(*config, r0, c0, len));
                                let sv = Seq::new(len as nat, |k: int| f[r0 * w + c0 + k]);
                                assert(list_accepts(words@, sv));
                                assert forall|k: int| 0 <= k < len implies wv[k] == sv[k] by {
                                    assert(slot.cells@[k] == (slot.r, (slot.c + k) as usize));
                                }
                                assert(wv =~= sv);
                            } else {
                                let r0 = slot.r as int;
                                let c0 = slot.c as int;
                                let len = slot.length as int;
                                assert forall|k: int| 0 <= k < len implies !(
                                #[trigger] config.black_cells@.contains(
                                    (((r0 + k) as usize), (c0 as usize)),
                                )) by {
                                    lemma_rc_index(pre.grid, r0 + k, c0);
                                    assert(!pre.grid.cells@[pre.grid.spec_index(
                                        r0 + k,
                                        c0,
                                    )].is_black);
                                }
                                if r0 > 0 {
                                    lemma_rc_index(pre.grid, r0 - 1, c0);
                                }
                                if r0 + len < h {
                                    lemma_rc_index(pre.grid, r0 + len, c0);
                                }
                                assert(config_down_run(*config, r0, c0, len));
                                let sv = Seq::new(len as nat, |k: int| f[(r0 + k) * w + c0]);
                                assert(list_accepts(words@, sv));
                                assert forall|k: int| 0 <= k < len implies wv[k] == sv[k] by {
                                    assert(slot.cells@[k] == ((slot.r + k) as usize, slot.c));
                                }
                                assert(wv =~= sv);
                            }
                        }
                        assert(fill_solves(pre.dawg, pre.grid, pre.slots@, f));
                        assert(false);
                    }
                }
            }
            SolveOutcome::Failed
        },
    }
}

} // verus!
