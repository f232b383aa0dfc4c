//! Second puzzle: each line records a game of coloured-cube draws separated
//! by semicolons, every draw naming counts of red, green and blue cubes.
//! Part one sums the ids of games whose draws all fit a fixed bag; part two
//! sums, per game, the product of the fewest cubes of each colour that make
//! every draw possible.
use crate::arith::{lemma_sum_map_prefix, lemma_sum_map_step, sum_map};
use crate::text::{
    after_byte, before_byte, bytes_eq, content_lines, content_lines_vec, find_at, int_of,
    is_digits, is_int_str, num_of, parse_i64, parse_u64, split_byte, split_byte_vec, trim_of,
    trim_vec,
};
use vstd::prelude::*;
use vstd::string::StringSliceAdditionalSpecFns;

verus! {

pub open spec fn game_w() -> Seq<u8> {
    seq![71u8, 97, 109, 101, 32]
}

pub open spec fn red_w() -> Seq<u8> {
    seq![114u8, 101, 100]
}

pub open spec fn green_w() -> Seq<u8> {
    seq![103u8, 114, 101, 101, 110]
}

pub open spec fn blue_w() -> Seq<u8> {
    seq![98u8, 108, 117, 101]
}

/// The text of one game line after its colon: the draws.
pub open spec fn draws_part(line: Seq<u8>) -> Seq<Seq<u8>> {
    split_byte(line.skip(find_at(line, 58) + 1), 59)
}

/// The count named by one trimmed colour entry such as `3 blue`.
pub open spec fn entry_count(te: Seq<u8>) -> int {
    int_of(te.take(find_at(te, 32)))
}

/// The colour word of one trimmed colour entry.
pub open spec fn entry_colour(te: Seq<u8>) -> Seq<u8> {
    te.skip(find_at(te, 32) + 1)
}

/// The red, green and blue counts one trimmed draw states; a later entry
/// of the same colour wins.
pub open spec fn draw_fold(es: Seq<Seq<u8>>) -> (int, int, int)
    decreases es.len(),
{
    if es.len() == 0 {
        (0, 0, 0)
    } else {
        let prev = draw_fold(es.drop_last());
        let te = trim_of(es.last());
        let cnt = entry_count(te);
        let col = entry_colour(te);
        if col == red_w() {
            (cnt, prev.1, prev.2)
        } else if col == green_w() {
            (prev.0, cnt, prev.2)
        } else if col == blue_w() {
            (prev.0, prev.1, cnt)
        } else {
            prev
        }
    }
}

pub open spec fn draw_of(ds: Seq<u8>) -> (int, int, int) {
    draw_fold(split_byte(ds, 44))
}

/// A trimmed colour entry the solver can read without fault.
pub open spec fn wf_entry(te: Seq<u8>) -> bool {
    &&& find_at(te, 32) < te.len()
    &&& is_int_str(te.take(find_at(te, 32)))
    &&& isize::MIN <= entry_count(te) <= isize::MAX
    &&& (entry_colour(te) == red_w() || entry_colour(te) == green_w() || entry_colour(te)
        == blue_w())
}

pub open spec fn wf_draw(ds: Seq<u8>) -> bool {
    forall|k: int|
        0 <= k < split_byte(ds, 44).len() ==> wf_entry(trim_of(#[trigger] split_byte(ds, 44)[k]))
}

/// A line whose colon and draws the solver can read.
pub open spec fn wf_line_draws(line: Seq<u8>) -> bool {
    &&& find_at(line, 58) < line.len()
    &&& forall|k: int|
        0 <= k < draws_part(line).len() ==> wf_draw(trim_of(#[trigger] draws_part(line)[k]))
}

/// The game id before the colon, after the word `Game`.
pub open spec fn game_id(line: Seq<u8>) -> int {
    num_of(trim_of(line.take(find_at(line, 58))).skip(5))
}

/// A line whose `Game N` head the solver can read.
pub open spec fn wf_game_head(line: Seq<u8>) -> bool {
    let g = trim_of(line.take(find_at(line, 58)));
    g.len() > 5 && g.take(5) == game_w() && is_digits(g.skip(5)) && num_of(g.skip(5))
        <= usize::MAX
}

/// True when every draw of the line fits twelve red, thirteen green and
/// fourteen blue cubes.
pub open spec fn line_ok(line: Seq<u8>) -> bool {
    forall|k: int|
        0 <= k < draws_part(line).len() ==> {
            let d = draw_of(trim_of(#[trigger] draws_part(line)[k]));
            d.0 <= 12 && d.1 <= 13 && d.2 <= 14
        }
}

pub open spec fn id_if_ok_fn() -> spec_fn(Seq<u8>) -> int {
    |line: Seq<u8>| if line_ok(line) {
        game_id(line)
    } else {
        0
    }
}

/// Reads one trimmed draw into its red, green and blue counts.
fn parse_draw(ds: &Vec<u8>) -> (r: (i64, i64, i64))
    requires
        wf_draw(ds@),
    ensures
        (r.0 as int, r.1 as int, r.2 as int) == draw_of(ds@),
        isize::MIN <= r.0 <= isize::MAX,
        isize::MIN <= r.1 <= isize::MAX,
        isize::MIN <= r.2 <= isize::MAX,
{
    let ghost es = split_byte(ds@, 44);
    let entries = split_byte_vec(ds.as_slice(), 44);
    let red_v: Vec<u8> = vec![114u8, 101, 100];
    let green_v: Vec<u8> = vec![103u8, 114, 101, 101, 110];
    let blue_v: Vec<u8> = vec![98u8, 108, 117, 101];
    proof {
        assert(red_v@ =~= red_w());
        assert(green_v@ =~= green_w());
        assert(blue_v@ =~= blue_w());
        assert(es.take(0) =~= Seq::<Seq<u8>>::empty());
    }
    let mut red: i64 = 0;
    let mut green: i64 = 0;
    let mut blue: i64 = 0;
    let mut k: usize = 0;
    while k < entries.len()
        invariant
            k <= es.len(),
            entries.deep_view() == es,
            es.len() == entries@.len(),
            es == split_byte(ds@, 44),
            wf_draw(ds@),
            red_v@ == red_w(),
            green_v@ == green_w(),
            blue_v@ == blue_w(),
            (red as int, green as int, blue as int) == draw_fold(es.take(k as int)),
            isize::MIN <= red <= isize::MAX,
            isize::MIN <= green <= isize::MAX,
            isize::MIN <= blue <= isize::MAX,
        decreases entries.len() - k,
    {
        proof {
            assert(entries@[k as int].deep_view() =~= entries@[k as int]@);
            assert(entries@[k as int]@ == es[k as int]);
            assert(wf_entry(trim_of(es[k as int])));
            assert(es.take(k + 1).drop_last() =~= es.take(k as int));
            assert(es.take(k + 1).last() == es[k as int]);
        }
        let te = trim_vec(entries[k].as_slice());
        let cnt_b = before_byte(&te, 32);
        let col = after_byte(&te, 32);
        proof {
            assert(cnt_b@ == trim_of(es[k as int]).take(find_at(trim_of(es[k as int]), 32)));
            assert(col@ == entry_colour(trim_of(es[k as int])));
        }
        let cnt = parse_i64(&cnt_b);
        if bytes_eq(&col, &red_v) {
            red = cnt;
        } else if bytes_eq(&col, &green_v) {
            green = cnt;
        } else if bytes_eq(&col, &blue_v) {
            blue = cnt;
        }
        k += 1;
    }
    proof {
        assert(es.take(es.len() as int) =~= es);
    }
    (red, green, blue)
}

/// Sum of the ids of the games all of whose draws fit the fixed bag.
pub fn part_one(input: &str) -> (r: usize)
    requires
        forall|i: int|
            0 <= i < content_lines(input.spec_bytes()).len() ==> wf_line_draws(
                #[trigger] content_lines(input.spec_bytes())[i],
            ) && wf_game_head(content_lines(input.spec_bytes())[i]),
        sum_map(content_lines(input.spec_bytes()), id_if_ok_fn()) <= usize::MAX,
    ensures
        r == sum_map(content_lines(input.spec_bytes()), id_if_ok_fn()),
{
    let ghost cl = content_lines(input.spec_bytes());
    let ghost f = id_if_ok_fn();
    let flines = content_lines_vec(input.as_bytes());
    let mut sum: usize = 0;
    let mut i: usize = 0;
    proof {
        assert(cl.take(0) =~= Seq::<Seq<u8>>::empty());
        assert forall|j: int| 0 <= j < cl.len() implies f(#[trigger] cl[j]) >= 0 by {
            crate::text::lemma_num_of_nonneg(trim_of(cl[j].take(find_at(cl[j], 58))).skip(5));
        }
    }
    while i < flines.len()
        invariant
            i <= flines@.len(),
            flines@.len() == cl.len(),
            flines.deep_view() == cl,
            f == id_if_ok_fn(),
            forall|j: int|
                0 <= j < cl.len() ==> wf_line_draws(#[trigger] cl[j]) && wf_game_head(cl[j]),
            forall|j: int| 0 <= j < cl.len() ==> f(#[trigger] cl[j]) >= 0,
            sum_map(cl, f) <= usize::MAX,
            sum == sum_map(cl.take(i as int), f),
        decreases flines.len() - i,
    {
        proof {
            assert(flines@[i as int].deep_view() =~= flines@[i as int]@);
            assert(flines@[i as int]@ == cl[i as int]);
            lemma_sum_map_step(cl, f, i as int);
            lemma_sum_map_prefix(cl, f, i + 1);
        }
        let line = &flines[i];
        let ghost lv = cl[i as int];
        let ghost ds = draws_part(lv);
        let draws = split_byte_vec(after_byte(line, 58).as_slice(), 59);
        proof {
            assert(draws.deep_view() == ds);
        }
        let mut ok = true;
        let mut k: usize = 0;
        while k < draws.len()
            invariant
                k <= ds.len(),
                draws.deep_view() == ds,
                ds.len() == draws@.len(),
                ds == draws_part(lv),
                wf_line_draws(lv),
                ok == (forall|m: int|
                    0 <= m < k ==> {
                        let d = draw_of(trim_of(#[trigger] ds[m]));
                        d.0 <= 12 && d.1 <= 13 && d.2 <= 14
                    }),
            decreases draws.len() - k,
        {
            proof {
                assert(draws@[k as int].deep_view() =~= draws@[k as int]@);
                assert(draws@[k as int]@ == ds[k as int]);
            }
            let td = trim_vec(draws[k].as_slice());
            let d = parse_draw(&td);
            if !(d.0 <= 12 && d.1 <= 13 && d.2 <= 14) {
                ok = false;
            }
            k += 1;
        }
        proof {
            assert(ds.take(ds.len() as int) =~= ds);
            assert(ok == line_ok(lv));
        }
        if ok {
            let head = trim_vec(before_byte(line, 58).as_slice());
            let ghost g = trim_of(lv.take(find_at(lv, 58)));
            proof {
                assert(head@ == g);
            }
            let mut idb: Vec<u8> = Vec::new();
            let mut t: usize = 5;
            while t < head.len()
                invariant
                    5 <= t <= head@.len(),
                    head@.len() > 5,
                    idb@ == head@.subrange(5, t as int),
                decreases head.len() - t,
            {
                idb.push(head[t]);
                proof {
                    assert(head@.subrange(5, t + 1) =~= head@.subrange(5, t as int).push(
                        head@[t as int],
                    ));
                }
                t += 1;
            }
            proof {
                assert(idb@ =~= g.skip(5));
                crate::text::lemma_num_of_nonneg(g.skip(5));
            }
            let idv = parse_u64(&idb);
            sum = sum + (idv as usize);
        }
        i += 1;
    }
    proof {
        assert(cl.take(cl.len() as int) =~= cl);
    }
    sum
}

/// The fewest cubes of each colour that make every draw of the line
/// possible: the componentwise greatest counts, never below zero.
pub open spec fn max_fold(dss: Seq<Seq<u8>>) -> (int, int, int)
    decreases dss.len(),
{
    if dss.len() == 0 {
        (0, 0, 0)
    } else {
        let p = max_fold(dss.drop_last());
        let d = draw_of(trim_of(dss.last()));
        (
            if d.0 >= p.0 {
                d.0
            } else {
                p.0
            },
            if d.1 >= p.1 {
                d.1
            } else {
                p.1
            },
            if d.2 >= p.2 {
                d.2
            } else {
                p.2
            },
        )
    }
}

/// The power of a line: the product of its fewest-cube counts, red times
/// blue times green.
pub open spec fn power_of(line: Seq<u8>) -> int {
    let m = max_fold(draws_part(line));
    m.0 * m.2 * m.1
}

pub open spec fn power_fn() -> spec_fn(Seq<u8>) -> int {
    |line: Seq<u8>| power_of(line)
}

proof fn lemma_max_fold_nonneg(dss: Seq<Seq<u8>>)
    ensures
        max_fold(dss).0 >= 0,
        max_fold(dss).1 >= 0,
        max_fold(dss).2 >= 0,
    decreases dss.len(),
{
    if dss.len() > 0 {
        lemma_max_fold_nonneg(dss.drop_last());
    }
}

proof fn lemma_max_fold_step(dss: Seq<Seq<u8>>, k: int)
    requires
        0 <= k < dss.len(),
    ensures
        max_fold(dss.take(k + 1)) == {
            let p = max_fold(dss.take(k));
            let d = draw_of(trim_of(dss[k]));
            (
                if d.0 >= p.0 {
                    d.0
                } else {
                    p.0
                },
                if d.1 >= p.1 {
                    d.1
                } else {
                    p.1
                },
                if d.2 >= p.2 {
                    d.2
                } else {
                    p.2
                },
            )
        },
{
    assert(dss.take(k + 1).drop_last() =~= dss.take(k));
    assert(dss.take(k + 1).last() == dss[k]);
}

/// Sum over all games of the power of the fewest workable cube counts.
pub fn part_two(input: &str) -> (r: isize)
    requires
        forall|i: int|
            0 <= i < content_lines(input.spec_bytes()).len() ==> wf_line_draws(
                #[trigger] content_lines(input.spec_bytes())[i],
            ),
        forall|i: int|
            0 <= i < content_lines(input.spec_bytes()).len() ==> {
                let m = max_fold(draws_part(#[trigger] content_lines(input.spec_bytes())[i]));
                m.0 * m.2 <= isize::MAX && m.0 * m.2 * m.1 <= isize::MAX
            },
        sum_map(content_lines(input.spec_bytes()), power_fn()) <= isize::MAX,
    ensures
        r == sum_map(content_lines(input.spec_bytes()), power_fn()),
{
    let ghost cl = content_lines(input.spec_bytes());
    let ghost f = power_fn();
    let flines = content_lines_vec(input.as_bytes());
    let mut sum: isize = 0;
    let mut i: usize = 0;
    proof {
        assert(cl.take(0) =~= Seq::<Seq<u8>>::empty());
        assert forall|j: int| 0 <= j < cl.len() implies f(#[trigger] cl[j]) >= 0 by {
            lemma_max_fold_nonneg(draws_part(cl[j]));
            let m = max_fold(draws_part(cl[j]));
            assert(m.0 * m.2 >= 0) by (nonlinear_arith)
                requires
                    m.0 >= 0,
                    m.2 >= 0,
            ;
            assert(m.0 * m.2 * m.1 >= 0) by (nonlinear_arith)
                requires
                    m.0 * m.2 >= 0,
                    m.1 >= 0,
            ;
        }
    }
    while i < flines.len()
        invariant
            i <= flines@.len(),
            flines@.len() == cl.len(),
            flines.deep_view() == cl,
            f == power_fn(),
            forall|j: int| 0 <= j < cl.len() ==> wf_line_draws(#[trigger] cl[j]),
            forall|j: int|
                0 <= j < cl.len() ==> {
                    let m = max_fold(draws_part(#[trigger] cl[j]));
                    m.0 * m.2 <= isize::MAX && m.0 * m.2 * m.1 <= isize::MAX
                },
            forall|j: int| 0 <= j < cl.len() ==> f(#[trigger] cl[j]) >= 0,
            sum_map(cl, f) <= isize::MAX,
            sum == sum_map(cl.take(i as int), f),
            sum >= 0,
        decreases flines.len() - i,
    {
        proof {
            assert(flines@[i as int].deep_view() =~= flines@[i as int]@);
            assert(flines@[i as int]@ == cl[i as int]);
            lemma_sum_map_step(cl, f, i as int);
            lemma_sum_map_prefix(cl, f, i + 1);
        }
        let line = &flines[i];
        let ghost lv = cl[i as int];
        let ghost ds = draws_part(lv);
        let draws = split_byte_vec(after_byte(line, 58).as_slice(), 59);
        proof {
            assert(draws.deep_view() == ds);
            assert(ds.take(0) =~= Seq::<Seq<u8>>::empty());
            lemma_max_fold_nonneg(ds);
        }
        let mut mr: i64 = 0;
        let mut mg: i64 = 0;
        let mut mb: i64 = 0;
        let mut k: usize = 0;
        while k < draws.len()
            invariant
                k <= ds.len(),
                draws.deep_view() == ds,
                ds.len() == draws@.len(),
                ds == draws_part(lv),
                wf_line_draws(lv),
                (mr as int, mg as int, mb as int) == max_fold(ds.take(k as int)),
                0 <= mr <= isize::MAX,
                0 <= mg <= isize::MAX,
                0 <= mb <= isize::MAX,
            decreases draws.len() - k,
        {
            proof {
                assert(draws@[k as int].deep_view() =~= draws@[k as int]@);
                assert(draws@[k as int]@ == ds[k as int]);
                lemma_max_fold_step(ds, k as int);
                lemma_max_fold_nonneg(ds.take(k + 1));
            }
            let td = trim_vec(draws[k].as_slice());
            let d = parse_draw(&td);
            if d.0 >= mr {
                mr = d.0;
            }
            if d.1 >= mg {
                mg = d.1;
            }
            if d.2 >= mb {
                mb = d.2;
            }
            k += 1;
        }
        proof {
            assert(ds.take(ds.len() as int) =~= ds);
            assert((mr as int, mg as int, mb as int) == max_fold(ds));
        }
        let rb = (mr as isize) * (mb as isize);
        let power = rb * (mg as isize);
        sum = sum + power;
        i += 1;
    }
    proof {
        assert(cl.take(cl.len() as int) =~= cl);
    }
    sum
}

} // verus!
