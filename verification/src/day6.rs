//! Sixth puzzle: toy boat races. Holding the button for `x` time units of a
//! race lasting `t` covers `(t - x) * x` distance; a way to win beats the
//! record `d`. Part one multiplies the counts of winning holds over the
//! races; part two reads all digits as one long race and counts its winning
//! holds by binary search.
use crate::arith::{lemma_prod_map_nonneg, lemma_prod_map_step, prod_map};
use crate::text::{
    content_lines, content_lines_vec, find_at, is_digits, num_of, parse_u64, tokens_of,
    tokens_vec,
};
use vstd::prelude::*;
use vstd::string::StringSliceAdditionalSpecFns;

verus! {

/// How many of the first `x` hold times beat the record.
pub open spec fn wins_upto(t: int, d: int, x: int) -> int
    decreases x,
{
    if x <= 0 {
        0
    } else {
        wins_upto(t, d, x - 1) + if (t - (x - 1)) * (x - 1) > d {
            1int
        } else {
            0int
        }
    }
}

/// How many hold times win a race of length `t` with record `d`.
pub open spec fn ways(t: int, d: int) -> int {
    wins_upto(t, d, t)
}

/// The numbers on a label line, after its colon.
pub open spec fn nums_after_colon(line: Seq<u8>) -> Seq<int> {
    let ts = tokens_of(line.skip(find_at(line, 58) + 1));
    Seq::new(ts.len(), |k: int| num_of(ts[k]))
}

pub open spec fn wf_nums_line(line: Seq<u8>) -> bool {
    let ts = tokens_of(line.skip(find_at(line, 58) + 1));
    find_at(line, 58) < line.len() && forall|k: int|
        0 <= k < ts.len() ==> is_digits(#[trigger] ts[k]) && num_of(ts[k]) <= u64::MAX
}

/// The time-record pairs of the two label lines, as `zip` pairs them.
pub open spec fn race_pairs(s: Seq<u8>) -> Seq<(int, int)> {
    let ts = nums_after_colon(content_lines(s)[0]);
    let ds = nums_after_colon(content_lines(s)[1]);
    let n = if ts.len() <= ds.len() {
        ts.len()
    } else {
        ds.len()
    };
    Seq::new(n, |k: int| (ts[k], ds[k]))
}

pub open spec fn ways_fn() -> spec_fn((int, int)) -> int {
    |p: (int, int)| ways(p.0, p.1)
}

proof fn lemma_wins_upto_nonneg(t: int, d: int, x: int)
    ensures
        0 <= wins_upto(t, d, x),
        wins_upto(t, d, x) <= if x >= 0 {
            x
        } else {
            0
        },
    decreases x,
{
    if x > 0 {
        lemma_wins_upto_nonneg(t, d, x - 1);
    }
}

/// Counts the winning hold times of one race by trying each one.
fn count_ways(t: u64, d: u64) -> (r: usize)
    requires
        t <= usize::MAX,
        (t - t / 2) * (t / 2) <= u64::MAX,
    ensures
        r == ways(t as int, d as int),
{
    let mut count: usize = 0;
    let mut x: u64 = 0;
    while x < t
        invariant
            x <= t,
            t <= usize::MAX,
            (t - t / 2) * (t / 2) <= u64::MAX,
            count == wins_upto(t as int, d as int, x as int),
            count <= x,
        decreases t - x,
    {
        proof {
            lemma_f_le_mid(t as int, x as int);
            lemma_wins_upto_nonneg(t as int, d as int, x as int);
        }
        if (t - x) * x > d {
            count = count + 1;
        }
        x += 1;
    }
    count
}

proof fn lemma_f_mono(t: int, x: int, y: int)
    requires
        0 <= x <= y,
        x + y <= t,
    ensures
        (t - x) * x <= (t - y) * y,
{
    assert((t - y) * y - (t - x) * x == (y - x) * (t - x - y)) by (nonlinear_arith);
    assert((y - x) * (t - x - y) >= 0) by (nonlinear_arith)
        requires
            y - x >= 0,
            t - x - y >= 0,
    ;
}

proof fn lemma_f_symm(t: int, x: int)
    ensures
        (t - x) * x == (t - (t - x)) * (t - x),
{
    assert((t - x) * x == (t - (t - x)) * (t - x)) by (nonlinear_arith);
}

/// Any hold time covers at most what the middle hold covers.
proof fn lemma_f_le_mid(t: int, x: int)
    requires
        0 <= x <= t,
    ensures
        (t - x) * x <= (t - t / 2) * (t / 2),
{
    if x <= t / 2 {
        lemma_f_mono(t, x, t / 2);
    } else {
        lemma_f_symm(t, x);
        lemma_f_mono(t, t - x, t / 2);
    }
}

/// Product over the races of the number of winning holds.
pub fn part_one(input: &str) -> (r: usize)
    requires
        content_lines(input.spec_bytes()).len() >= 2,
        wf_nums_line(content_lines(input.spec_bytes())[0]),
        wf_nums_line(content_lines(input.spec_bytes())[1]),
        forall|k: int|
            0 <= k < race_pairs(input.spec_bytes()).len() ==> {
                let t = #[trigger] race_pairs(input.spec_bytes())[k].0;
                t <= usize::MAX && (t - t / 2) * (t / 2) <= u64::MAX
            },
        forall|k: int|
            0 <= k <= race_pairs(input.spec_bytes()).len() ==> prod_map(
                #[trigger] race_pairs(input.spec_bytes()).take(k),
                ways_fn(),
            ) <= usize::MAX,
    ensures
        r == prod_map(race_pairs(input.spec_bytes()), ways_fn()),
{
    let ghost pr = race_pairs(input.spec_bytes());
    let ghost f = ways_fn();
    let flines = content_lines_vec(input.as_bytes());
    proof {
        assert(flines@[0].deep_view() =~= flines@[0]@);
        assert(flines@[1].deep_view() =~= flines@[1]@);
    }
    let trest = crate::text::after_byte(&flines[0], 58);
    let drest = crate::text::after_byte(&flines[1], 58);
    let ttoks = tokens_vec(trest.as_slice());
    let dtoks = tokens_vec(drest.as_slice());
    let ghost tns = nums_after_colon(content_lines(input.spec_bytes())[0]);
    let ghost dns = nums_after_colon(content_lines(input.spec_bytes())[1]);
    let n = if ttoks.len() <= dtoks.len() {
        ttoks.len()
    } else {
        dtoks.len()
    };
    proof {
        assert(ttoks.deep_view().len() == tns.len());
        assert(dtoks.deep_view().len() == dns.len());
        assert(n == pr.len());
        assert(pr.take(0) =~= Seq::<(int, int)>::empty());
        assert forall|j: int| 0 <= j < pr.len() implies f(#[trigger] pr[j]) >= 0 by {
            lemma_wins_upto_nonneg(pr[j].0, pr[j].1, pr[j].0);
        }
    }
    let mut prod: usize = 1;
    let mut k: usize = 0;
    while k < n
        invariant
            k <= n,
            n == pr.len(),
            ttoks.deep_view() == tokens_of(
                content_lines(input.spec_bytes())[0].skip(
                    find_at(content_lines(input.spec_bytes())[0], 58) + 1,
                ),
            ),
            dtoks.deep_view() == tokens_of(
                content_lines(input.spec_bytes())[1].skip(
                    find_at(content_lines(input.spec_bytes())[1], 58) + 1,
                ),
            ),
            content_lines(input.spec_bytes()).len() >= 2,
            wf_nums_line(content_lines(input.spec_bytes())[0]),
            wf_nums_line(content_lines(input.spec_bytes())[1]),
            n <= ttoks@.len(),
            n <= dtoks@.len(),
            tns == nums_after_colon(content_lines(input.spec_bytes())[0]),
            dns == nums_after_colon(content_lines(input.spec_bytes())[1]),
            pr == race_pairs(input.spec_bytes()),
            f == ways_fn(),
            forall|j: int|
                0 <= j < pr.len() ==> {
                    let t = #[trigger] pr[j].0;
                    t <= usize::MAX && (t - t / 2) * (t / 2) <= u64::MAX
                },
            forall|j: int|
                0 <= j <= pr.len() ==> prod_map(#[trigger] pr.take(j), f) <= usize::MAX,
            forall|j: int| 0 <= j < pr.len() ==> f(#[trigger] pr[j]) >= 0,
            prod == prod_map(pr.take(k as int), f),
            prod >= 0,
        decreases n - k,
    {
        proof {
            assert(ttoks@[k as int].deep_view() =~= ttoks@[k as int]@);
            assert(ttoks.deep_view()[k as int] == ttoks@[k as int]@);
            assert(dtoks@[k as int].deep_view() =~= dtoks@[k as int]@);
            assert(dtoks.deep_view()[k as int] == dtoks@[k as int]@);
            assert(pr[k as int] == (tns[k as int], dns[k as int]));
            lemma_prod_map_step(pr, f, k as int);
            assert forall|j: int|
                0 <= j < pr.take(k + 1).len() implies f(#[trigger] pr.take(k + 1)[j]) >= 0 by {
                assert(pr.take(k + 1)[j] == pr[j]);
            }
            lemma_prod_map_nonneg(pr.take(k + 1), f);
            assert(prod_map(pr.take(k + 1), f) <= usize::MAX);
        }
        let t = parse_u64(&ttoks[k]);
        let d = parse_u64(&dtoks[k]);
        let w = count_ways(t, d);
        let ghost oldprod = prod as int;
        prod = prod * w;
        proof {
            assert(prod as int == oldprod * w as int);
        }
        k += 1;
    }
    proof {
        assert(pr.take(pr.len() as int) =~= pr);
    }
    prod
}

/// All digit tokens of a label line run together into one number string.
pub open spec fn cat_tokens(ts: Seq<Seq<u8>>) -> Seq<u8>
    decreases ts.len(),
{
    if ts.len() == 0 {
        Seq::empty()
    } else {
        cat_tokens(ts.drop_last()) + ts.last()
    }
}

pub open spec fn cat_num(line: Seq<u8>) -> int {
    num_of(cat_tokens(tokens_of(line.skip(find_at(line, 58) + 1))))
}

/// A label line whose run-together digits form one readable number.
pub open spec fn wf_cat_line(line: Seq<u8>) -> bool {
    find_at(line, 58) < line.len() && is_digits(
        cat_tokens(tokens_of(line.skip(find_at(line, 58) + 1))),
    ) && cat_num(line) <= u64::MAX
}

proof fn lemma_cat_step(ts: Seq<Seq<u8>>, k: int)
    requires
        0 <= k < ts.len(),
    ensures
        cat_tokens(ts.take(k + 1)) == cat_tokens(ts.take(k)) + ts[k],
{
    assert(ts.take(k + 1).drop_last() =~= ts.take(k));
    assert(ts.take(k + 1).last() == ts[k]);
}

/// Reads the run-together digits of a label line as one number.
fn parse_cat(line: &Vec<u8>) -> (r: u64)
    requires
        wf_cat_line(line@),
    ensures
        r == cat_num(line@),
{
    let ghost ts = tokens_of(line@.skip(find_at(line@, 58) + 1));
    let rest = crate::text::after_byte(line, 58);
    let toks = tokens_vec(rest.as_slice());
    let mut cat: Vec<u8> = Vec::new();
    let mut k: usize = 0;
    proof {
        assert(ts.take(0) =~= Seq::<Seq<u8>>::empty());
        assert(cat@ =~= cat_tokens(ts.take(0)));
    }
    while k < toks.len()
        invariant
            k <= ts.len(),
            toks.deep_view() == ts,
            ts.len() == toks@.len(),
            cat@ == cat_tokens(ts.take(k as int)),
        decreases toks.len() - k,
    {
        proof {
            assert(toks@[k as int].deep_view() =~= toks@[k as int]@);
            assert(toks.deep_view()[k as int] == toks@[k as int]@);
            lemma_cat_step(ts, k as int);
        }
        let ghost c0 = cat@;
        let tok = &toks[k];
        let mut j: usize = 0;
        while j < tok.len()
            invariant
                j <= tok@.len(),
                cat@ == c0 + tok@.take(j as int),
            decreases tok.len() - j,
        {
            cat.push(tok[j]);
            proof {
                assert(c0 + tok@.take(j + 1) =~= (c0 + tok@.take(j as int)).push(
                    tok@[j as int],
                ));
            }
            j += 1;
        }
        proof {
            assert(tok@.take(tok@.len() as int) =~= tok@);
            assert(cat@ =~= cat_tokens(ts.take(k + 1)));
        }
        k += 1;
    }
    proof {
        assert(ts.take(ts.len() as int) =~= ts);
    }
    parse_u64(&cat)
}

/// Winning holds form the block `[lw, t - lw]`: anything earlier or later
/// falls short.
proof fn lemma_win_iff(t: int, d: int, lw: int, x: int)
    requires
        0 <= d,
        1 <= lw <= t / 2,
        (t - (lw - 1)) * (lw - 1) <= d,
        (t - lw) * lw > d,
        0 <= x < t,
    ensures
        ((t - x) * x > d) <==> (lw <= x <= t - lw),
{
    if x < lw {
        lemma_f_mono(t, x, lw - 1);
    } else if x > t - lw {
        lemma_f_symm(t, x);
        lemma_f_mono(t, t - x, lw - 1);
    } else {
        if x <= t / 2 {
            lemma_f_mono(t, lw, x);
        } else {
            lemma_f_symm(t, x);
            lemma_f_mono(t, lw, t - x);
        }
    }
}

/// With the winning block known, the count of winning holds is its width.
proof fn lemma_wins_count(t: int, d: int, lw: int, x: int)
    requires
        0 <= d,
        1 <= lw <= t / 2,
        (t - (lw - 1)) * (lw - 1) <= d,
        (t - lw) * lw > d,
        0 <= x <= t,
    ensures
        wins_upto(t, d, x) == if x <= lw {
            0int
        } else if x <= t - lw + 1 {
            x - lw
        } else {
            t - 2 * lw + 1
        },
    decreases x,
{
    if x > 0 {
        lemma_wins_count(t, d, lw, x - 1);
        lemma_win_iff(t, d, lw, x - 1);
    }
}

/// Number of winning holds of the one long race read from all digits.
pub fn part_two(input: &str) -> (r: u64)
    requires
        content_lines(input.spec_bytes()).len() >= 2,
        wf_cat_line(content_lines(input.spec_bytes())[0]),
        wf_cat_line(content_lines(input.spec_bytes())[1]),
        cat_num(content_lines(input.spec_bytes())[0]) >= 2,
        cat_num(content_lines(input.spec_bytes())[0]) <= u64::MAX - 2,
        ({
            let t = cat_num(content_lines(input.spec_bytes())[0]);
            let d = cat_num(content_lines(input.spec_bytes())[1]);
            (t - t / 2) * (t / 2) <= u64::MAX && (t - t / 2) * (t / 2) > d
        }),
    ensures
        r == ways(
            cat_num(content_lines(input.spec_bytes())[0]),
            cat_num(content_lines(input.spec_bytes())[1]),
        ),
{
    let flines = content_lines_vec(input.as_bytes());
    proof {
        assert(flines@[0].deep_view() =~= flines@[0]@);
        assert(flines@[1].deep_view() =~= flines@[1]@);
    }
    let time = parse_cat(&flines[0]);
    let distance = parse_cat(&flines[1]);
    let ghost t = time as int;
    let ghost d = distance as int;
    let mut lo: u64 = 0;
    let mut up: u64 = time / 2;
    proof {
        lemma_f_le_mid(t, 0);
    }
    while lo < up - 1
        invariant
            0 <= lo < up <= time / 2,
            t == time as int,
            d == distance as int,
            time >= 2,
            (t - t / 2) * (t / 2) <= u64::MAX,
            (time - lo) * lo <= distance,
            (time - up) * up > distance,
        decreases up - lo,
    {
        let mid = lo + (up - lo) / 2;
        proof {
            lemma_f_le_mid(t, mid as int);
        }
        if (time - mid) * mid > distance {
            up = mid;
        } else {
            lo = mid;
        }
    }
    let lower = up;
    proof {
        assert(lo == up - 1);
        lemma_wins_count(t, d, lower as int, t);
    }
    let wide = (time / 2 - lower + 1) * 2;
    if time % 2 == 0 {
        wide - 1
    } else {
        wide
    }
}

} // verus!
