//! Third puzzle: an engine schematic grid. Digit runs form part numbers;
//! part one sums the runs that touch a symbol, part two sums, over every
//! `*` touched by exactly two runs, the product of those two numbers.
use crate::text::{is_digit, is_digit_b, lines_of, num_of, parse_u64};
use vstd::prelude::*;
use vstd::string::StringSliceAdditionalSpecFns;

verus! {

pub open spec fn nonempty_line_fn() -> spec_fn(Seq<u8>) -> bool {
    |s: Seq<u8>| s.len() > 0
}

/// The grid: every line with at least one byte, in order.
pub open spec fn grid_of(s: Seq<u8>) -> Seq<Seq<u8>> {
    lines_of(s).filter(nonempty_line_fn())
}

/// All rows as wide as the first; at least one row.
pub open spec fn rect(g: Seq<Seq<u8>>) -> bool {
    g.len() > 0 && forall|i: int| 0 <= i < g.len() ==> (#[trigger] g[i]).len() == g[0].len()
}

/// A symbol is anything but a digit or a dot.
pub open spec fn sym_at(g: Seq<Seq<u8>>, r: int, c: int) -> bool {
    !is_digit(g[r][c]) && g[r][c] != 46
}

/// Some neighbouring cell, diagonals included, holds a symbol.
pub open spec fn adj_sym(g: Seq<Seq<u8>>, r: int, c: int) -> bool {
    exists|nr: int, nc: int|
        r - 1 <= nr <= r + 1 && c - 1 <= nc <= c + 1 && 0 <= nr < g.len() && 0 <= nc
            < g[0].len() && sym_at(g, nr, nc)
}

/// First column at or after `c` in row `r` that leaves the digit run.
pub open spec fn run_end(g: Seq<Seq<u8>>, r: int, c: int) -> int
    decreases g[0].len() - c,
{
    if c < 0 || c >= g[0].len() || !is_digit(g[r][c]) {
        c
    } else {
        run_end(g, r, c + 1)
    }
}

proof fn lemma_run_end_bounds(g: Seq<Seq<u8>>, r: int, c: int)
    requires
        0 <= c <= g[0].len(),
    ensures
        c <= run_end(g, r, c) <= g[0].len(),
        forall|m: int| c <= m < run_end(g, r, c) ==> is_digit(g[r][m]),
        run_end(g, r, c) < g[0].len() ==> !is_digit(g[r][run_end(g, r, c)]),
    decreases g[0].len() - c,
{
    if c < g[0].len() && is_digit(g[r][c]) {
        lemma_run_end_bounds(g, r, c + 1);
    }
}

proof fn lemma_run_end_is(g: Seq<Seq<u8>>, r: int, c: int, e: int)
    requires
        0 <= c <= e <= g[0].len(),
        forall|m: int| c <= m < e ==> is_digit(g[r][m]),
        e < g[0].len() ==> !is_digit(g[r][e]),
    ensures
        run_end(g, r, c) == e,
    decreases e - c,
{
    if c < e {
        lemma_run_end_is(g, r, c + 1, e);
    }
}

/// Some column of the run `[a, b)` touches a symbol.
pub open spec fn run_adj(g: Seq<Seq<u8>>, r: int, a: int, b: int) -> bool {
    exists|c: int| a <= c < b && adj_sym(g, r, c)
}

/// A maximal digit run in row `r`.
pub open spec fn is_run(g: Seq<Seq<u8>>, r: int, a: int, b: int) -> bool {
    &&& 0 <= r < g.len()
    &&& 0 <= a < b <= g[0].len()
    &&& forall|c: int| a <= c < b ==> is_digit(g[r][c])
    &&& (a == 0 || !is_digit(g[r][a - 1]))
    &&& (b == g[0].len() || !is_digit(g[r][b]))
}

/// The run end, held inside `(c, row width]` so that the scan always
/// advances.
pub open spec fn clamp_end(g: Seq<Seq<u8>>, r: int, c: int) -> int {
    if run_end(g, r, c) < c + 1 {
        c + 1
    } else if run_end(g, r, c) > g[0].len() {
        g[0].len() as int
    } else {
        run_end(g, r, c)
    }
}

/// Sum of the symbol-adjacent run values in row `r` from column `c` on.
pub open spec fn row_sum_from(g: Seq<Seq<u8>>, r: int, c: int) -> int
    decreases g[0].len() - c,
{
    if c < 0 || c >= g[0].len() {
        0
    } else if !is_digit(g[r][c]) {
        row_sum_from(g, r, c + 1)
    } else {
        let e = clamp_end(g, r, c);
        (if run_adj(g, r, c, e) {
            num_of(g[r].subrange(c, e))
        } else {
            0
        }) + row_sum_from(g, r, e)
    }
}

/// Sum of the symbol-adjacent run values in the first `r` rows.
pub open spec fn grid_sum_upto(g: Seq<Seq<u8>>, r: int) -> int
    decreases r,
{
    if r <= 0 {
        0
    } else {
        grid_sum_upto(g, r - 1) + row_sum_from(g, r - 1, 0)
    }
}

proof fn lemma_row_sum_nonneg(g: Seq<Seq<u8>>, r: int, c: int)
    requires
        rect(g),
        0 <= r < g.len(),
    ensures
        row_sum_from(g, r, c) >= 0,
    decreases g[0].len() - c,
{
    if 0 <= c < g[0].len() {
        if !is_digit(g[r][c]) {
            lemma_row_sum_nonneg(g, r, c + 1);
        } else {
            lemma_run_end_bounds(g, r, c);
            let e = clamp_end(g, r, c);
            lemma_row_sum_nonneg(g, r, e);
            if run_adj(g, r, c, e) {
                crate::text::lemma_num_of_nonneg(g[r].subrange(c, e));
            }
        }
    }
}

proof fn lemma_grid_sum_nonneg(g: Seq<Seq<u8>>, r: int)
    requires
        rect(g),
        r <= g.len(),
    ensures
        grid_sum_upto(g, r) >= 0,
    decreases r,
{
    if r > 0 {
        lemma_grid_sum_nonneg(g, r - 1);
        lemma_row_sum_nonneg(g, r - 1, 0);
    }
}

/// Whether any neighbour of cell `(r, c)` holds a symbol.
fn adj_to_symbol(g: &Vec<Vec<u8>>, r: usize, c: usize) -> (res: bool)
    requires
        rect(g.deep_view()),
        r < g.deep_view().len(),
        c < g.deep_view()[0].len(),
    ensures
        res == adj_sym(g.deep_view(), r as int, c as int),
{
    let ghost gv = g.deep_view();
    let rows = g.len();
    proof {
        assert(gv.len() == g@.len());
        assert(g@[0].deep_view() =~= g@[0]@);
    }
    let cols = g[0].len();
    let rlo = if r > 0 {
        r - 1
    } else {
        0
    };
    let rhi = if r + 1 < rows {
        r + 1
    } else {
        rows - 1
    };
    let clo = if c > 0 {
        c - 1
    } else {
        0
    };
    let chi = if c + 1 < cols {
        c + 1
    } else {
        cols - 1
    };
    let mut nr = rlo;
    while nr <= rhi
        invariant
            rlo <= nr <= rhi + 1,
            rlo == if r > 0 {
                r - 1
            } else {
                0
            },
            rhi == if r + 1 < rows {
                r + 1
            } else {
                rows - 1
            },
            clo == if c > 0 {
                c - 1
            } else {
                0
            },
            chi == if c + 1 < cols {
                c + 1
            } else {
                cols - 1
            },
            rect(gv),
            gv == g.deep_view(),
            gv.len() == g@.len(),
            rows == gv.len(),
            cols == gv[0].len(),
            r < rows,
            c < cols,
            forall|xr: int, xc: int|
                rlo <= xr < nr && clo <= xc <= chi ==> !sym_at(gv, xr, xc),
        decreases rhi + 1 - nr,
    {
        let mut nc = clo;
        while nc <= chi
            invariant
                clo <= nc <= chi + 1,
                clo == if c > 0 {
                    c - 1
                } else {
                    0
                },
                chi == if c + 1 < cols {
                    c + 1
                } else {
                    cols - 1
                },
                rect(gv),
                gv == g.deep_view(),
                gv.len() == g@.len(),
                rows == gv.len(),
                cols == gv[0].len(),
                r < rows,
                c < cols,
                rlo == if r > 0 {
                    r - 1
                } else {
                    0
                },
                rhi == if r + 1 < rows {
                    r + 1
                } else {
                    rows - 1
                },
                rlo <= nr <= rhi,
                rhi < rows,
                forall|xc: int| clo <= xc < nc ==> !sym_at(gv, nr as int, xc),
            decreases chi + 1 - nc,
        {
            proof {
                assert(g@[nr as int].deep_view() =~= g@[nr as int]@);
                assert(g@[nr as int]@ == gv[nr as int]);
                assert(gv[nr as int].len() == cols);
            }
            let b = g[nr][nc];
            if !is_digit_b(b) && b != 46 {
                proof {
                    assert(sym_at(gv, nr as int, nc as int));
                    assert(r as int - 1 <= nr as int <= r as int + 1);
                    assert(c as int - 1 <= nc as int <= c as int + 1);
                    assert(0 <= nr as int && (nr as int) < gv.len());
                    assert(0 <= nc as int && (nc as int) < gv[0].len());
                    assert(adj_sym(gv, r as int, c as int));
                }
                return true;
            }
            nc += 1;
        }
        nr += 1;
    }
    proof {
        assert forall|dr: int, dc: int|
            r - 1 <= dr <= r + 1 && c - 1 <= dc <= c + 1 && 0 <= dr < gv.len() && 0 <= dc
                < gv[0].len() implies !sym_at(gv, dr, dc) by {
            assert(rlo <= dr <= rhi);
            assert(clo <= dc <= chi);
        }
    }
    false
}

proof fn lemma_grid_sum_mono(g: Seq<Seq<u8>>, r1: int, r2: int)
    requires
        rect(g),
        0 <= r1 <= r2 <= g.len(),
    ensures
        grid_sum_upto(g, r1) <= grid_sum_upto(g, r2),
    decreases r2 - r1,
{
    if r1 < r2 {
        lemma_grid_sum_mono(g, r1 + 1, r2);
        lemma_row_sum_nonneg(g, r1, 0);
    }
}

/// The nonempty lines of `v`, as the schematic grid.
fn grid_vec(v: &[u8]) -> (out: Vec<Vec<u8>>)
    ensures
        out.deep_view() == grid_of(v@),
{
    let lines = crate::text::lines_vec(v);
    let ghost p = lines_of(v@);
    let mut out: Vec<Vec<u8>> = Vec::new();
    let mut i: usize = 0;
    proof {
        reveal(Seq::filter);
        assert(p.take(0) =~= Seq::<Seq<u8>>::empty());
        assert(out.deep_view() =~~= p.take(0).filter(nonempty_line_fn()));
    }
    while i < lines.len()
        invariant
            i <= lines@.len(),
            lines@.len() == p.len(),
            lines.deep_view() == p,
            out.deep_view() == p.take(i as int).filter(nonempty_line_fn()),
        decreases lines.len() - i,
    {
        proof {
            reveal(Seq::filter);
            assert(p.take(i + 1).drop_last() =~= p.take(i as int));
            assert(p.take(i + 1).last() == p[i as int]);
            assert(lines@[i as int].deep_view() =~= lines@[i as int]@);
        }
        let ghost odeep = out.deep_view();
        if lines[i].len() > 0 {
            let piece = crate::text::copy_vec(&lines[i]);
            out.push(piece);
            proof {
                assert(out.deep_view() =~~= odeep.push(p[i as int]));
            }
        }
        i += 1;
    }
    proof {
        assert(p.take(p.len() as int) =~= p);
    }
    out
}

/// Sum of all part numbers: the digit runs that touch a symbol.
pub fn part_one(input: &str) -> (res: u64)
    requires
        rect(grid_of(input.spec_bytes())),
        forall|rr: int, a: int, b: int|
            is_run(grid_of(input.spec_bytes()), rr, a, b) ==> num_of(
                grid_of(input.spec_bytes())[rr].subrange(a, b),
            ) <= u64::MAX,
        grid_sum_upto(grid_of(input.spec_bytes()), grid_of(input.spec_bytes()).len() as int)
            <= u64::MAX,
    ensures
        res == grid_sum_upto(
            grid_of(input.spec_bytes()),
            grid_of(input.spec_bytes()).len() as int,
        ),
{
    let ghost gv = grid_of(input.spec_bytes());
    let g = grid_vec(input.as_bytes());
    let rows = g.len();
    proof {
        assert(gv.len() == g@.len());
        assert(g@[0].deep_view() =~= g@[0]@);
    }
    let cols = g[0].len();
    let mut sum: u64 = 0;
    let mut rr: usize = 0;
    while rr < rows
        invariant
            rr <= rows,
            rows == gv.len(),
            gv == grid_of(input.spec_bytes()),
            g.deep_view() == gv,
            g@.len() == rows,
            rect(gv),
            cols == gv[0].len(),
            forall|r2: int, a: int, b: int|
                is_run(gv, r2, a, b) ==> num_of(gv[r2].subrange(a, b)) <= u64::MAX,
            grid_sum_upto(gv, rows as int) <= u64::MAX,
            sum == grid_sum_upto(gv, rr as int),
        decreases rows - rr,
    {
        proof {
            assert(g@[rr as int].deep_view() =~= g@[rr as int]@);
            assert(g@[rr as int]@ == gv[rr as int]);
            assert(gv[rr as int].len() == cols);
            lemma_row_sum_nonneg(gv, rr as int, 0);
        }
        let mut c: usize = 0;
        while c < cols
            invariant
                c <= cols,
                rr < rows,
                rows == gv.len(),
                gv == grid_of(input.spec_bytes()),
                g.deep_view() == gv,
                g@.len() == rows,
                rect(gv),
                cols == gv[0].len(),
                gv[rr as int].len() == cols,
                forall|r2: int, a: int, b: int|
                    is_run(gv, r2, a, b) ==> num_of(gv[r2].subrange(a, b)) <= u64::MAX,
                grid_sum_upto(gv, rows as int) <= u64::MAX,
                sum as int == grid_sum_upto(gv, rr as int) + row_sum_from(gv, rr as int, 0)
                    - row_sum_from(gv, rr as int, c as int),
                is_digit(gv[rr as int][c as int]) && c < cols ==> c == 0 || !is_digit(
                    gv[rr as int][c - 1],
                ),
            decreases cols - c,
        {
            proof {
                assert(g@[rr as int].deep_view() =~= g@[rr as int]@);
                assert(g@[rr as int]@ == gv[rr as int]);
            }
            if is_digit_b(g[rr][c]) {
                let mut e: usize = c;
                while e < cols && is_digit_b(g[rr][e])
                    invariant
                        c <= e <= cols,
                        rr < rows,
                        rows == gv.len(),
                        g.deep_view() == gv,
                        g@.len() == rows,
                        rect(gv),
                        cols == gv[0].len(),
                        gv[rr as int].len() == cols,
                        forall|m: int| c <= m < e ==> is_digit(#[trigger] gv[rr as int][m]),
                    decreases cols - e,
                {
                    proof {
                        assert(g@[rr as int].deep_view() =~= g@[rr as int]@);
                    }
                    e += 1;
                }
                proof {
                    lemma_run_end_is(gv, rr as int, c as int, e as int);
                    assert(clamp_end(gv, rr as int, c as int) == e as int);
                    assert(is_run(gv, rr as int, c as int, e as int));
                }
                let mut adj = false;
                let mut cc: usize = c;
                while cc < e
                    invariant
                        c <= cc <= e <= cols,
                        rr < rows,
                        rows == gv.len(),
                        g.deep_view() == gv,
                        g@.len() == rows,
                        rect(gv),
                        cols == gv[0].len(),
                        adj == exists|x: int| c <= x < cc && adj_sym(gv, rr as int, x),
                    decreases e - cc,
                {
                    if adj_to_symbol(&g, rr, cc) {
                        adj = true;
                    }
                    cc += 1;
                }
                proof {
                    assert(adj == run_adj(gv, rr as int, c as int, e as int));
                }
                let mut digits: Vec<u8> = Vec::new();
                let mut t: usize = c;
                while t < e
                    invariant
                        c <= t <= e <= cols,
                        rr < rows,
                        rows == gv.len(),
                        g.deep_view() == gv,
                        g@.len() == rows,
                        gv[rr as int].len() == cols,
                        digits@ == gv[rr as int].subrange(c as int, t as int),
                    decreases e - t,
                {
                    proof {
                        assert(g@[rr as int].deep_view() =~= g@[rr as int]@);
                        assert(gv[rr as int].subrange(c as int, t + 1) =~= gv[rr as int].subrange(
                            c as int,
                            t as int,
                        ).push(gv[rr as int][t as int]));
                    }
                    digits.push(g[rr][t]);
                    t += 1;
                }
                proof {
                    assert(digits@ == gv[rr as int].subrange(c as int, e as int));
                    assert(crate::text::is_digits(digits@));
                    assert(num_of(digits@) <= u64::MAX);
                    crate::text::lemma_num_of_nonneg(digits@);
                }
                let val = parse_u64(&digits);
                proof {
                    lemma_row_sum_nonneg(gv, rr as int, e as int);
                    lemma_grid_sum_mono(gv, rr as int + 1, rows as int);
                    lemma_grid_sum_nonneg(gv, rr as int);
                    assert(grid_sum_upto(gv, rr as int + 1) == grid_sum_upto(gv, rr as int)
                        + row_sum_from(gv, rr as int, 0));
                    assert(row_sum_from(gv, rr as int, c as int) == (if run_adj(
                        gv,
                        rr as int,
                        c as int,
                        e as int,
                    ) {
                        num_of(gv[rr as int].subrange(c as int, e as int))
                    } else {
                        0
                    }) + row_sum_from(gv, rr as int, e as int));
                }
                if adj {
                    sum = sum + val;
                }
                c = e;
            } else {
                c += 1;
            }
        }
        proof {
            assert(row_sum_from(gv, rr as int, cols as int) == 0);
            assert(grid_sum_upto(gv, rr as int + 1) == grid_sum_upto(gv, rr as int)
                + row_sum_from(gv, rr as int, 0));
        }
        rr += 1;
    }
    sum
}

/// Values of the runs in row `r`, from column `c` on, that touch the cell
/// `(i, j)`.
pub open spec fn row_gear_vals(g: Seq<Seq<u8>>, r: int, i: int, j: int, c: int) -> Seq<int>
    decreases g[0].len() - c,
{
    if c < 0 || c >= g[0].len() {
        Seq::empty()
    } else if !is_digit(g[r][c]) {
        row_gear_vals(g, r, i, j, c + 1)
    } else {
        let e = clamp_end(g, r, c);
        let rest = row_gear_vals(g, r, i, j, e);
        if c <= j + 1 && j <= e {
            seq![num_of(g[r].subrange(c, e))] + rest
        } else {
            rest
        }
    }
}

/// The run values around the cell `(i, j)`, rows top to bottom, each row
/// left to right.
pub open spec fn gear_vals(g: Seq<Seq<u8>>, i: int, j: int) -> Seq<int> {
    let top: Seq<int> = if i >= 1 {
        row_gear_vals(g, i - 1, i, j, 0)
    } else {
        Seq::empty()
    };
    let mid = row_gear_vals(g, i, i, j, 0);
    let bot: Seq<int> = if i + 1 < g.len() {
        row_gear_vals(g, i + 1, i, j, 0)
    } else {
        Seq::empty()
    };
    top + mid + bot
}

/// The gear ratio of a cell: the product of the two touching run values
/// when the cell is a `*` touched by exactly two runs, else zero.
pub open spec fn gear_value(g: Seq<Seq<u8>>, i: int, j: int) -> int {
    if g[i][j] == 42 && gear_vals(g, i, j).len() == 2 {
        gear_vals(g, i, j)[0] * gear_vals(g, i, j)[1]
    } else {
        0
    }
}

pub open spec fn row_gears_from(g: Seq<Seq<u8>>, i: int, j: int) -> int
    decreases g[0].len() - j,
{
    if j < 0 || j >= g[0].len() {
        0
    } else {
        gear_value(g, i, j) + row_gears_from(g, i, j + 1)
    }
}

/// Sum of the gear ratios of the first `i` rows.
pub open spec fn gears_upto(g: Seq<Seq<u8>>, i: int) -> int
    decreases i,
{
    if i <= 0 {
        0
    } else {
        gears_upto(g, i - 1) + row_gears_from(g, i - 1, 0)
    }
}

proof fn lemma_row_gear_vals_nonneg(g: Seq<Seq<u8>>, r: int, i: int, j: int, c: int)
    requires
        rect(g),
        0 <= r < g.len(),
    ensures
        forall|m: int|
            0 <= m < row_gear_vals(g, r, i, j, c).len() ==> #[trigger] row_gear_vals(
                g,
                r,
                i,
                j,
                c,
            )[m] >= 0,
    decreases g[0].len() - c,
{
    if 0 <= c < g[0].len() {
        if !is_digit(g[r][c]) {
            lemma_row_gear_vals_nonneg(g, r, i, j, c + 1);
        } else {
            lemma_run_end_bounds(g, r, c);
            let e = clamp_end(g, r, c);
            lemma_row_gear_vals_nonneg(g, r, i, j, e);
            crate::text::lemma_num_of_nonneg(g[r].subrange(c, e));
            let vs = row_gear_vals(g, r, i, j, c);
            let rest = row_gear_vals(g, r, i, j, e);
            if c <= j + 1 && j <= e {
                assert forall|m: int| 0 <= m < vs.len() implies #[trigger] vs[m] >= 0 by {
                    if m == 0 {
                        assert(vs[m] == num_of(g[r].subrange(c, e)));
                    } else {
                        assert(vs[m] == rest[m - 1]);
                    }
                }
            }
        }
    }
}

proof fn lemma_gear_value_nonneg(g: Seq<Seq<u8>>, i: int, j: int)
    requires
        rect(g),
        0 <= i < g.len(),
    ensures
        gear_value(g, i, j) >= 0,
{
    if g[i][j] == 42 && gear_vals(g, i, j).len() == 2 {
        let vs = gear_vals(g, i, j);
        if i >= 1 {
            lemma_row_gear_vals_nonneg(g, i - 1, i, j, 0);
        }
        lemma_row_gear_vals_nonneg(g, i, i, j, 0);
        if i + 1 < g.len() {
            lemma_row_gear_vals_nonneg(g, i + 1, i, j, 0);
        }
        assert(vs[0] >= 0);
        assert(vs[1] >= 0);
        assert(vs[0] * vs[1] >= 0) by (nonlinear_arith)
            requires
                vs[0] >= 0,
                vs[1] >= 0,
        ;
    }
}

proof fn lemma_row_gears_nonneg(g: Seq<Seq<u8>>, i: int, j: int)
    requires
        rect(g),
        0 <= i < g.len(),
    ensures
        row_gears_from(g, i, j) >= 0,
    decreases g[0].len() - j,
{
    if 0 <= j < g[0].len() {
        lemma_gear_value_nonneg(g, i, j);
        lemma_row_gears_nonneg(g, i, j + 1);
    }
}

proof fn lemma_gears_upto_mono(g: Seq<Seq<u8>>, r1: int, r2: int)
    requires
        rect(g),
        0 <= r1 <= r2 <= g.len(),
    ensures
        gears_upto(g, r1) <= gears_upto(g, r2),
    decreases r2 - r1,
{
    if r1 < r2 {
        lemma_gears_upto_mono(g, r1 + 1, r2);
        lemma_row_gears_nonneg(g, r1, 0);
    }
}

proof fn lemma_gears_upto_nonneg(g: Seq<Seq<u8>>, i: int)
    requires
        rect(g),
        i <= g.len(),
    ensures
        gears_upto(g, i) >= 0,
    decreases i,
{
    if i > 0 {
        lemma_gears_upto_nonneg(g, i - 1);
        lemma_row_gears_nonneg(g, i - 1, 0);
    }
}

pub open spec fn u64s_to_ints(s: Seq<u64>) -> Seq<int> {
    Seq::new(s.len(), |k: int| s[k] as int)
}

/// Collects into `vals` the values of the runs in row `r` that touch the
/// cell `(i, j)`.
fn scan_gear_row(g: &Vec<Vec<u8>>, r: usize, i: usize, j: usize, vals: &mut Vec<u64>)
    requires
        rect(g.deep_view()),
        r < g.deep_view().len(),
        j < g.deep_view()[0].len(),
        forall|r2: int, a: int, b: int|
            is_run(g.deep_view(), r2, a, b) ==> num_of(g.deep_view()[r2].subrange(a, b))
                <= u64::MAX,
    ensures
        u64s_to_ints(final(vals)@) == u64s_to_ints(old(vals)@) + row_gear_vals(
            g.deep_view(),
            r as int,
            i as int,
            j as int,
            0,
        ),
{
    let ghost gv = g.deep_view();
    let ghost base = u64s_to_ints(vals@);
    proof {
        assert(gv.len() == g@.len());
        assert(g@[0].deep_view() =~= g@[0]@);
    }
    let cols = g[0].len();
    let mut c: usize = 0;
    while c < cols
        invariant
            c <= cols,
            r < gv.len(),
            gv == g.deep_view(),
            gv.len() == g@.len(),
            rect(gv),
            cols == gv[0].len(),
            gv[r as int].len() == cols,
            j < cols,
            forall|r2: int, a: int, b: int|
                is_run(gv, r2, a, b) ==> num_of(gv[r2].subrange(a, b)) <= u64::MAX,
            base == u64s_to_ints(old(vals)@),
            u64s_to_ints(vals@) + row_gear_vals(gv, r as int, i as int, j as int, c as int)
                == base + row_gear_vals(gv, r as int, i as int, j as int, 0),
            is_digit(gv[r as int][c as int]) && c < cols ==> c == 0 || !is_digit(
                gv[r as int][c - 1],
            ),
        decreases cols - c,
    {
        proof {
            assert(g@[r as int].deep_view() =~= g@[r as int]@);
            assert(g@[r as int]@ == gv[r as int]);
        }
        if is_digit_b(g[r][c]) {
            let mut e: usize = c;
            while e < cols && is_digit_b(g[r][e])
                invariant
                    c <= e <= cols,
                    r < gv.len(),
                    gv == g.deep_view(),
                    gv.len() == g@.len(),
                    rect(gv),
                    cols == gv[0].len(),
                    gv[r as int].len() == cols,
                    forall|m: int| c <= m < e ==> is_digit(#[trigger] gv[r as int][m]),
                decreases cols - e,
            {
                proof {
                    assert(g@[r as int].deep_view() =~= g@[r as int]@);
                }
                e += 1;
            }
            proof {
                lemma_run_end_is(gv, r as int, c as int, e as int);
                assert(clamp_end(gv, r as int, c as int) == e as int);
                assert(is_run(gv, r as int, c as int, e as int));
            }
            if c <= j + 1 && e >= j {
                let mut digits: Vec<u8> = Vec::new();
                let mut t: usize = c;
                while t < e
                    invariant
                        c <= t <= e <= cols,
                        r < gv.len(),
                        gv == g.deep_view(),
                        gv.len() == g@.len(),
                        gv[r as int].len() == cols,
                        digits@ == gv[r as int].subrange(c as int, t as int),
                    decreases e - t,
                {
                    proof {
                        assert(g@[r as int].deep_view() =~= g@[r as int]@);
                        assert(gv[r as int].subrange(c as int, t + 1) =~= gv[r as int].subrange(
                            c as int,
                            t as int,
                        ).push(gv[r as int][t as int]));
                    }
                    digits.push(g[r][t]);
                    t += 1;
                }
                proof {
                    assert(digits@ == gv[r as int].subrange(c as int, e as int));
                    assert(crate::text::is_digits(digits@));
                    assert(num_of(digits@) <= u64::MAX);
                    crate::text::lemma_num_of_nonneg(digits@);
                }
                let val = parse_u64(&digits);
                let ghost vi = u64s_to_ints(vals@);
                vals.push(val);
                proof {
                    assert(u64s_to_ints(vals@) =~= vi.push(val as int));
                    assert(row_gear_vals(gv, r as int, i as int, j as int, c as int) == seq![
                        num_of(gv[r as int].subrange(c as int, e as int)),
                    ] + row_gear_vals(gv, r as int, i as int, j as int, e as int));
                    assert(u64s_to_ints(vals@) + row_gear_vals(
                        gv,
                        r as int,
                        i as int,
                        j as int,
                        e as int,
                    ) =~= vi + row_gear_vals(gv, r as int, i as int, j as int, c as int));
                }
            } else {
                proof {
                    assert(row_gear_vals(gv, r as int, i as int, j as int, c as int)
                        == row_gear_vals(gv, r as int, i as int, j as int, e as int));
                }
            }
            c = e;
        } else {
            c += 1;
        }
    }
}

/// Sum of the gear ratios over the whole grid.
pub fn part_two(input: &str) -> (res: u64)
    requires
        rect(grid_of(input.spec_bytes())),
        forall|rr: int, a: int, b: int|
            is_run(grid_of(input.spec_bytes()), rr, a, b) ==> num_of(
                grid_of(input.spec_bytes())[rr].subrange(a, b),
            ) <= u64::MAX,
        forall|i: int, j: int|
            0 <= i < grid_of(input.spec_bytes()).len() && 0 <= j < grid_of(
                input.spec_bytes(),
            )[0].len() ==> gear_value(grid_of(input.spec_bytes()), i, j) <= u64::MAX,
        gears_upto(grid_of(input.spec_bytes()), grid_of(input.spec_bytes()).len() as int)
            <= u64::MAX,
    ensures
        res == gears_upto(
            grid_of(input.spec_bytes()),
            grid_of(input.spec_bytes()).len() as int,
        ),
{
    let ghost gv = grid_of(input.spec_bytes());
    let g = grid_vec(input.as_bytes());
    let rows = g.len();
    proof {
        assert(gv.len() == g@.len());
        assert(g@[0].deep_view() =~= g@[0]@);
    }
    let cols = g[0].len();
    let mut sum: u64 = 0;
    let mut i: usize = 0;
    while i < rows
        invariant
            i <= rows,
            rows == gv.len(),
            gv == grid_of(input.spec_bytes()),
            g.deep_view() == gv,
            g@.len() == rows,
            rect(gv),
            cols == gv[0].len(),
            forall|r2: int, a: int, b: int|
                is_run(gv, r2, a, b) ==> num_of(gv[r2].subrange(a, b)) <= u64::MAX,
            forall|x: int, y: int|
                0 <= x < gv.len() && 0 <= y < gv[0].len() ==> gear_value(gv, x, y) <= u64::MAX,
            gears_upto(gv, rows as int) <= u64::MAX,
            sum == gears_upto(gv, i as int),
        decreases rows - i,
    {
        proof {
            assert(g@[i as int].deep_view() =~= g@[i as int]@);
            assert(g@[i as int]@ == gv[i as int]);
            assert(gv[i as int].len() == cols);
            lemma_row_gears_nonneg(gv, i as int, 0);
        }
        let mut j: usize = 0;
        while j < cols
            invariant
                j <= cols,
                i < rows,
                rows == gv.len(),
                gv == grid_of(input.spec_bytes()),
                g.deep_view() == gv,
                g@.len() == rows,
                rect(gv),
                cols == gv[0].len(),
                gv[i as int].len() == cols,
                forall|r2: int, a: int, b: int|
                    is_run(gv, r2, a, b) ==> num_of(gv[r2].subrange(a, b)) <= u64::MAX,
                forall|x: int, y: int|
                    0 <= x < gv.len() && 0 <= y < gv[0].len() ==> gear_value(gv, x, y)
                        <= u64::MAX,
                gears_upto(gv, rows as int) <= u64::MAX,
                sum as int == gears_upto(gv, i as int) + row_gears_from(gv, i as int, 0)
                    - row_gears_from(gv, i as int, j as int),
            decreases cols - j,
        {
            proof {
                assert(g@[i as int].deep_view() =~= g@[i as int]@);
                assert(g@[i as int]@ == gv[i as int]);
            }
            let ghost valspec = gear_value(gv, i as int, j as int);
            if g[i][j] == 42 {
                let mut vals: Vec<u64> = Vec::new();
                proof {
                    assert(u64s_to_ints(vals@) =~= Seq::<int>::empty());
                }
                if i >= 1 {
                    scan_gear_row(&g, i - 1, i, j, &mut vals);
                }
                let ghost topd = u64s_to_ints(vals@);
                scan_gear_row(&g, i, i, j, &mut vals);
                if i + 1 < rows {
                    scan_gear_row(&g, i + 1, i, j, &mut vals);
                }
                proof {
                    assert(u64s_to_ints(vals@) =~= gear_vals(gv, i as int, j as int));
                    assert(vals@.len() == gear_vals(gv, i as int, j as int).len());
                }
                if vals.len() == 2 {
                    proof {
                        assert(vals@[0] as int == gear_vals(gv, i as int, j as int)[0]);
                        assert(vals@[1] as int == gear_vals(gv, i as int, j as int)[1]);
                        assert(valspec == gear_vals(gv, i as int, j as int)[0] * gear_vals(
                            gv,
                            i as int,
                            j as int,
                        )[1]);
                        assert(valspec <= u64::MAX);
                        lemma_gear_value_nonneg(gv, i as int, j as int);
                        lemma_row_gears_nonneg(gv, i as int, j as int + 1);
                        lemma_gears_upto_mono(gv, i as int + 1, rows as int);
                        lemma_gears_upto_nonneg(gv, i as int);
                    }
                    let prod = vals[0] * vals[1];
                    proof {
                        assert(row_gears_from(gv, i as int, j as int) == valspec
                            + row_gears_from(gv, i as int, j as int + 1));
                        assert(gears_upto(gv, i as int + 1) == gears_upto(gv, i as int)
                            + row_gears_from(gv, i as int, 0));
                    }
                    sum = sum + prod;
                } else {
                    proof {
                        assert(valspec == 0);
                    }
                }
            } else {
                proof {
                    assert(valspec == 0);
                }
            }
            proof {
                assert(row_gears_from(gv, i as int, j as int) == valspec + row_gears_from(
                    gv,
                    i as int,
                    j + 1,
                ));
            }
            j += 1;
        }
        proof {
            assert(row_gears_from(gv, i as int, cols as int) == 0);
            assert(gears_upto(gv, i as int + 1) == gears_upto(gv, i as int) + row_gears_from(
                gv,
                i as int,
                0,
            ));
        }
        i += 1;
    }
    sum
}

} // verus!
