//! Fourth puzzle: scratchcards. Each card line lists winning numbers, a
//! bar, and own numbers; the card's matches are the own numbers found among
//! the winning ones. Part one scores each card as two to the power of one
//! less than its matches; part two lets each card win copies of the
//! following cards and counts all cards held in the end.
use crate::arith::{
    lemma_pow2_mono, lemma_pow2_pos, lemma_sum_map_member, lemma_sum_map_prefix,
    lemma_sum_map_step, pow2, sum_map,
};
use crate::text::{
    after_byte, before_byte, find_at, is_digits, lines_of, lines_vec, num_of, parse_u64, tokens_of,
    tokens_vec, trim_of, trim_vec,
};
use vstd::prelude::*;
use vstd::string::StringSliceAdditionalSpecFns;

verus! {

/// The card lines: every line that is not blank.
pub open spec fn card_lines(s: Seq<u8>) -> Seq<Seq<u8>> {
    crate::text::content_lines(s)
}

/// The winning-number part of a card line: after the colon, trimmed,
/// before the bar.
pub open spec fn win_part(line: Seq<u8>) -> Seq<u8> {
    let tr = trim_of(line.skip(find_at(line, 58) + 1));
    tr.take(find_at(tr, 124))
}

/// The own-number part of a card line: after the bar.
pub open spec fn my_part(line: Seq<u8>) -> Seq<u8> {
    let tr = trim_of(line.skip(find_at(line, 58) + 1));
    tr.skip(find_at(tr, 124) + 1)
}

pub open spec fn win_vals(line: Seq<u8>) -> Seq<int> {
    Seq::new(tokens_of(win_part(line)).len(), |k: int| num_of(tokens_of(win_part(line))[k]))
}

/// How many own numbers appear among the winning numbers, duplicates
/// counted each time.
pub open spec fn match_count(line: Seq<u8>) -> int {
    sum_map(
        tokens_of(my_part(line)),
        |t: Seq<u8>| if win_vals(line).contains(num_of(t)) {
            1int
        } else {
            0int
        },
    )
}

/// A card line the solver can read without fault: a colon, a bar,
/// and numeric tokens on both sides that fit a machine word.
pub open spec fn wf_card_line(line: Seq<u8>) -> bool {
    let tr = trim_of(line.skip(find_at(line, 58) + 1));
    &&& find_at(line, 58) < line.len()
    &&& find_at(tr, 124) < tr.len()
    &&& forall|k: int|
        0 <= k < tokens_of(win_part(line)).len() ==> is_digits(
            #[trigger] tokens_of(win_part(line))[k],
        ) && num_of(tokens_of(win_part(line))[k]) <= u64::MAX
    &&& forall|k: int|
        0 <= k < tokens_of(my_part(line)).len() ==> is_digits(
            #[trigger] tokens_of(my_part(line))[k],
        ) && num_of(tokens_of(my_part(line))[k]) <= u64::MAX
}

proof fn lemma_match_count_bounds(line: Seq<u8>)
    ensures
        0 <= match_count(line) <= tokens_of(my_part(line)).len(),
{
    let ts = tokens_of(my_part(line));
    let f = |t: Seq<u8>| if win_vals(line).contains(num_of(t)) {
        1int
    } else {
        0int
    };
    lemma_match_prefix(line, ts.len() as int);
    assert(ts.take(ts.len() as int) =~= ts);
}

proof fn lemma_match_prefix(line: Seq<u8>, i: int)
    requires
        0 <= i <= tokens_of(my_part(line)).len(),
    ensures
        0 <= sum_map(
            tokens_of(my_part(line)).take(i),
            |t: Seq<u8>| if win_vals(line).contains(num_of(t)) {
                1int
            } else {
                0int
            },
        ) <= i,
    decreases i,
{
    let ts = tokens_of(my_part(line));
    let f = |t: Seq<u8>| if win_vals(line).contains(num_of(t)) {
        1int
    } else {
        0int
    };
    if i == 0 {
        assert(ts.take(0) =~= Seq::<Seq<u8>>::empty());
    } else {
        lemma_match_prefix(line, i - 1);
        lemma_sum_map_step(ts, f, i - 1);
    }
}

fn contains_val(ws: &Vec<u64>, v: u64) -> (r: bool)
    ensures
        r == exists|k: int| 0 <= k < ws@.len() && ws@[k] == v,
{
    let mut k: usize = 0;
    while k < ws.len()
        invariant
            k <= ws@.len(),
            forall|m: int| 0 <= m < k ==> ws@[m] != v,
        decreases ws.len() - k,
    {
        if ws[k] == v {
            return true;
        }
        k += 1;
    }
    false
}

/// The match count of every card line, in order.
pub fn collect_matches(input: &str) -> (r: Vec<u64>)
    requires
        forall|i: int|
            0 <= i < card_lines(input.spec_bytes()).len() ==> wf_card_line(
                #[trigger] card_lines(input.spec_bytes())[i],
            ),
    ensures
        r@.len() == card_lines(input.spec_bytes()).len(),
        forall|i: int|
            0 <= i < r@.len() ==> #[trigger] r@[i] == match_count(
                card_lines(input.spec_bytes())[i],
            ),
{
    let ghost cl = card_lines(input.spec_bytes());
    let flines = crate::text::content_lines_vec(input.as_bytes());
    let mut r: Vec<u64> = Vec::new();
    let mut i: usize = 0;
    while i < flines.len()
        invariant
            i <= flines@.len(),
            flines@.len() == cl.len(),
            flines.deep_view() == cl,
            forall|j: int| 0 <= j < cl.len() ==> wf_card_line(#[trigger] cl[j]),
            r@.len() == i,
            forall|j: int| 0 <= j < i ==> #[trigger] r@[j] == match_count(cl[j]),
        decreases flines.len() - i,
    {
        proof {
            assert(flines@[i as int].deep_view() =~= flines@[i as int]@);
            assert(flines@[i as int]@ == cl[i as int]);
        }
        let line = &flines[i];
        let ghost lv = cl[i as int];
        let numbers = after_byte(line, 58);
        let tr = trim_vec(numbers.as_slice());
        let wvec = before_byte(&tr, 124);
        let mvec = after_byte(&tr, 124);
        proof {
            assert(tr@ == trim_of(lv.skip(find_at(lv, 58) + 1)));
            assert(wvec@ == win_part(lv));
            assert(mvec@ == my_part(lv));
        }
        let wtoks = tokens_vec(wvec.as_slice());
        let mtoks = tokens_vec(mvec.as_slice());
        let ghost wts = tokens_of(win_part(lv));
        let ghost mts = tokens_of(my_part(lv));
        let ghost f = |t: Seq<u8>| if win_vals(lv).contains(num_of(t)) {
            1int
        } else {
            0int
        };
        let mut ws: Vec<u64> = Vec::new();
        let mut k: usize = 0;
        while k < wtoks.len()
            invariant
                k <= wts.len(),
                wtoks.deep_view() == wts,
                wts.len() == wtoks@.len(),
                forall|m: int|
                    0 <= m < wts.len() ==> is_digits(#[trigger] wts[m]) && num_of(wts[m])
                        <= u64::MAX,
                ws@.len() == k,
                forall|m: int| 0 <= m < k ==> #[trigger] ws@[m] == num_of(wts[m]),
            decreases wtoks.len() - k,
        {
            proof {
                assert(wtoks@[k as int].deep_view() =~= wtoks@[k as int]@);
                assert(wtoks.deep_view()[k as int] == wtoks@[k as int]@);
            }
            let v = parse_u64(&wtoks[k]);
            ws.push(v);
            k += 1;
        }
        let mut count: u64 = 0;
        let mut t: usize = 0;
        proof {
            assert(mts.take(0) =~= Seq::<Seq<u8>>::empty());
        }
        while t < mtoks.len()
            invariant
                t <= mts.len(),
                mtoks.deep_view() == mts,
                mts.len() == mtoks@.len(),
                mts == tokens_of(my_part(lv)),
                f == (|t: Seq<u8>| if win_vals(lv).contains(num_of(t)) {
                    1int
                } else {
                    0int
                }),
                forall|m: int|
                    0 <= m < mts.len() ==> is_digits(#[trigger] mts[m]) && num_of(mts[m])
                        <= u64::MAX,
                ws@.len() == win_vals(lv).len(),
                forall|m: int| 0 <= m < ws@.len() ==> #[trigger] ws@[m] == win_vals(lv)[m],
                count == sum_map(mts.take(t as int), f),
                count <= t,
            decreases mtoks.len() - t,
        {
            proof {
                assert(mtoks@[t as int].deep_view() =~= mtoks@[t as int]@);
                assert(mtoks.deep_view()[t as int] == mtoks@[t as int]@);
                lemma_sum_map_step(mts, f, t as int);
            }
            let v = parse_u64(&mtoks[t]);
            let hit = contains_val(&ws, v);
            proof {
                if hit {
                    let k0 = choose|k0: int| 0 <= k0 < ws@.len() && ws@[k0] == v;
                    assert(win_vals(lv)[k0] == v as int);
                    assert(win_vals(lv).contains(num_of(mts[t as int])));
                } else {
                    if win_vals(lv).contains(num_of(mts[t as int])) {
                        let k0 = choose|k0: int|
                            0 <= k0 < win_vals(lv).len() && win_vals(lv)[k0] == num_of(
                                mts[t as int],
                            );
                        assert(ws@[k0] == v);
                    }
                }
            }
            if hit {
                count = count + 1;
            }
            t += 1;
        }
        proof {
            assert(mts.take(mts.len() as int) =~= mts);
            assert(count == match_count(lv));
        }
        r.push(count);
        i += 1;
    }
    r
}

/// Two to the power `e`, by repeated doubling.
fn pow2_u64(e: u64) -> (r: u64)
    requires
        pow2(e as int) <= u64::MAX,
    ensures
        r == pow2(e as int),
{
    let mut acc: u64 = 1;
    let mut i: u64 = 0;
    while i < e
        invariant
            i <= e,
            acc == pow2(i as int),
            pow2(e as int) <= u64::MAX,
        decreases e - i,
    {
        proof {
            lemma_pow2_mono(i as int + 1, e as int);
            lemma_pow2_pos(i as int);
        }
        acc = acc * 2;
        i += 1;
    }
    acc
}

/// Score of one card line: two to the power of one less than its matches,
/// zero for no match.
pub open spec fn score_of(line: Seq<u8>) -> int {
    if match_count(line) > 0 {
        pow2(match_count(line) - 1)
    } else {
        0
    }
}

pub open spec fn score_fn() -> spec_fn(Seq<u8>) -> int {
    |s: Seq<u8>| score_of(s)
}

/// Sum of the card scores.
pub fn part_one(input: &str) -> (r: u64)
    requires
        forall|i: int|
            0 <= i < card_lines(input.spec_bytes()).len() ==> wf_card_line(
                #[trigger] card_lines(input.spec_bytes())[i],
            ),
        forall|i: int|
            0 <= i < card_lines(input.spec_bytes()).len() ==> match_count(
                #[trigger] card_lines(input.spec_bytes())[i],
            ) <= 64,
        sum_map(card_lines(input.spec_bytes()), score_fn()) <= u64::MAX,
    ensures
        r == sum_map(card_lines(input.spec_bytes()), score_fn()),
{
    let ghost cl = card_lines(input.spec_bytes());
    let ghost f = score_fn();
    let matches = collect_matches(input);
    let mut sum: u64 = 0;
    let mut i: usize = 0;
    proof {
        assert(cl.take(0) =~= Seq::<Seq<u8>>::empty());
        assert forall|j: int| 0 <= j < cl.len() implies f(#[trigger] cl[j]) >= 0 by {
            lemma_match_count_bounds(cl[j]);
            if match_count(cl[j]) > 0 {
                lemma_pow2_pos(match_count(cl[j]) - 1);
            }
        }
    }
    while i < matches.len()
        invariant
            i <= matches@.len(),
            matches@.len() == cl.len(),
            forall|j: int| 0 <= j < cl.len() ==> #[trigger] matches@[j] == match_count(cl[j]),
            forall|j: int| 0 <= j < cl.len() ==> match_count(#[trigger] cl[j]) <= 64,
            forall|j: int| 0 <= j < cl.len() ==> f(#[trigger] cl[j]) >= 0,
            f == score_fn(),
            sum_map(cl, f) <= u64::MAX,
            sum == sum_map(cl.take(i as int), f),
        decreases matches.len() - i,
    {
        proof {
            lemma_sum_map_step(cl, f, i as int);
            lemma_sum_map_prefix(cl, f, i + 1);
            lemma_match_count_bounds(cl[i as int]);
        }
        let m = matches[i];
        if m > 0 {
            proof {
                lemma_pow2_mono(m as int - 1, 63);
                reveal_with_fuel(pow2, 64);
                assert(pow2(63) <= u64::MAX);
            }
            let s = pow2_u64(m - 1);
            sum = sum + s;
        }
        i += 1;
    }
    proof {
        assert(cl.take(cl.len() as int) =~= cl);
    }
    sum
}

/// How many cards card `i` turns into in the end: itself, plus every card
/// its matches win, counted recursively.
pub open spec fn card_total(ms: Seq<int>, i: int) -> int
    decreases ms.len() - i, ms.len() - i,
{
    if i < 0 || i >= ms.len() {
        0
    } else {
        let w = if ms[i] < 0 {
            0
        } else if ms[i] <= ms.len() - 1 - i {
            ms[i]
        } else {
            ms.len() - 1 - i
        };
        1 + wins_sum(ms, i, w)
    }
}

/// Total of the cards won by card `i` through its first `k` matches.
pub open spec fn wins_sum(ms: Seq<int>, i: int, k: int) -> int
    decreases ms.len() - i, k,
{
    if k <= 0 || i < 0 || i >= ms.len() {
        0
    } else if i + k >= ms.len() {
        wins_sum(ms, i, k - 1)
    } else {
        wins_sum(ms, i, k - 1) + card_total(ms, i + k)
    }
}

proof fn lemma_card_total_nonneg(ms: Seq<int>, i: int)
    ensures
        card_total(ms, i) >= 0,
    decreases ms.len() - i, ms.len() - i,
{
    if 0 <= i < ms.len() {
        let w = if ms[i] < 0 {
            0
        } else if ms[i] <= ms.len() - 1 - i {
            ms[i]
        } else {
            ms.len() - 1 - i
        };
        lemma_wins_sum_nonneg(ms, i, w);
    }
}

proof fn lemma_wins_sum_nonneg(ms: Seq<int>, i: int, k: int)
    ensures
        wins_sum(ms, i, k) >= 0,
    decreases ms.len() - i, k,
{
    if !(k <= 0 || i < 0 || i >= ms.len()) {
        lemma_wins_sum_nonneg(ms, i, k - 1);
        if i + k < ms.len() {
            lemma_card_total_nonneg(ms, i + k);
        }
    }
}

proof fn lemma_wins_sum_mono(ms: Seq<int>, i: int, k1: int, k2: int)
    requires
        k1 <= k2,
    ensures
        wins_sum(ms, i, k1) <= wins_sum(ms, i, k2),
    decreases k2,
{
    if k1 < k2 && k2 > 0 {
        lemma_wins_sum_mono(ms, i, k1, k2 - 1);
        if !(i < 0 || i >= ms.len()) && i + k2 < ms.len() {
            lemma_card_total_nonneg(ms, i + k2);
        }
    }
}

/// The match count of every card line.
pub open spec fn matches_of(s: Seq<u8>) -> Seq<int> {
    Seq::new(card_lines(s).len(), |i: int| match_count(card_lines(s)[i]))
}

pub open spec fn ident_fn() -> spec_fn(int) -> int {
    |x: int| x
}

pub open spec fn totals_of(ms: Seq<int>) -> Seq<int> {
    Seq::new(ms.len(), |i: int| card_total(ms, i))
}

/// Total number of cards held once every copy has been won.
pub fn part_two(input: &str) -> (r: u64)
    requires
        forall|i: int|
            0 <= i < card_lines(input.spec_bytes()).len() ==> wf_card_line(
                #[trigger] card_lines(input.spec_bytes())[i],
            ),
        forall|i: int|
            0 <= i < matches_of(input.spec_bytes()).len() ==> #[trigger] matches_of(
                input.spec_bytes(),
            )[i] <= matches_of(input.spec_bytes()).len() - 1 - i,
        sum_map(totals_of(matches_of(input.spec_bytes())), ident_fn()) <= u64::MAX,
    ensures
        r == sum_map(totals_of(matches_of(input.spec_bytes())), ident_fn()),
{
    let ghost cl = card_lines(input.spec_bytes());
    let ghost msi = matches_of(input.spec_bytes());
    let ghost tot = totals_of(msi);
    let ghost f = ident_fn();
    let matches = collect_matches(input);
    let n = matches.len();
    proof {
        assert(msi.len() == n);
        assert forall|j: int| 0 <= j < n implies f(#[trigger] tot[j]) >= 0 by {
            lemma_card_total_nonneg(msi, j);
        }
        assert forall|j: int| 0 <= j < n implies #[trigger] msi[j] >= 0 by {
            lemma_match_count_bounds(cl[j]);
        }
    }
    let mut dp: Vec<u64> = Vec::new();
    let mut z: usize = 0;
    while z < n
        invariant
            z <= n,
            dp@.len() == z,
        decreases n - z,
    {
        dp.push(0);
        z += 1;
    }
    let mut idx: usize = n;
    while idx > 0
        invariant
            idx <= n,
            n == matches@.len(),
            n == msi.len(),
            tot == totals_of(msi),
            f == ident_fn(),
            dp@.len() == n,
            forall|j: int| 0 <= j < n ==> #[trigger] matches@[j] == msi[j],
            forall|j: int| 0 <= j < n ==> #[trigger] msi[j] >= 0,
            forall|j: int| 0 <= j < n ==> #[trigger] msi[j] <= n - 1 - j,
            forall|j: int| 0 <= j < n ==> f(#[trigger] tot[j]) >= 0,
            sum_map(tot, f) <= u64::MAX,
            forall|j: int| idx <= j < n ==> #[trigger] dp@[j] == card_total(msi, j),
        decreases idx,
    {
        let dpi = idx - 1;
        let wins = matches[dpi] as usize;
        proof {
            assert(msi[dpi as int] <= n - 1 - dpi);
            lemma_sum_map_member(tot, f, dpi as int);
            assert(tot[dpi as int] == card_total(msi, dpi as int));
            assert(card_total(msi, dpi as int) == 1 + wins_sum(msi, dpi as int, wins as int));
        }
        let mut acc: u64 = 0;
        let mut t: usize = 1;
        while t <= wins
            invariant
                1 <= t <= wins + 1,
                n == msi.len(),
                dp@.len() == n,
                dpi < n,
                wins == msi[dpi as int],
                wins <= n - 1 - dpi,
                forall|j: int| dpi + 1 <= j < n ==> #[trigger] dp@[j] == card_total(msi, j),
                acc == wins_sum(msi, dpi as int, t - 1),
                wins_sum(msi, dpi as int, wins as int) <= u64::MAX - 1,
            decreases wins + 1 - t,
        {
            proof {
                lemma_wins_sum_mono(msi, dpi as int, t as int, wins as int);
                lemma_wins_sum_nonneg(msi, dpi as int, t as int - 1);
                lemma_card_total_nonneg(msi, dpi as int + t as int);
                assert(wins_sum(msi, dpi as int, t as int) == wins_sum(msi, dpi as int, t as int
                    - 1) + card_total(msi, dpi as int + t as int));
            }
            let v = dp[dpi + t];
            acc = acc + v;
            t += 1;
        }
        let total_here = 1 + acc;
        dp[dpi] = total_here;
        proof {
            assert(dp@[dpi as int] == card_total(msi, dpi as int));
        }
        idx = dpi;
    }
    let mut sum: u64 = 0;
    let mut i: usize = 0;
    proof {
        assert(tot.take(0) =~= Seq::<int>::empty());
    }
    while i < n
        invariant
            i <= n,
            n == msi.len(),
            tot == totals_of(msi),
            f == ident_fn(),
            dp@.len() == n,
            forall|j: int| 0 <= j < n ==> #[trigger] dp@[j] == card_total(msi, j),
            forall|j: int| 0 <= j < n ==> f(#[trigger] tot[j]) >= 0,
            sum_map(tot, f) <= u64::MAX,
            sum == sum_map(tot.take(i as int), f),
        decreases n - i,
    {
        proof {
            lemma_sum_map_step(tot, f, i as int);
            lemma_sum_map_prefix(tot, f, i + 1);
        }
        sum = sum + dp[i];
        i += 1;
    }
    proof {
        assert(tot.take(tot.len() as int) =~= tot);
    }
    sum
}

} // verus!
