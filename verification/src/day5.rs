//! Fifth puzzle: seed numbers run through a chain of range-remapping
//! tables. Each table holds rules `dest src len`: values in
//! `[src, src + len)` move by `dest - src`, others pass through to the next
//! rule. The answer is the smallest value reachable after all tables.
use crate::text::{
    find_at, is_digits, lines_of, lines_vec, num_of, parse_u64, tokens_of, tokens_vec, trim_of,
    trim_vec,
};
use vstd::prelude::*;
use vstd::string::StringSliceAdditionalSpecFns;

verus! {

/// A half-open range of values.
#[derive(Clone, Copy)]
pub struct Span {
    pub start: u64,
    pub end: u64,
}

impl View for Span {
    type V = (int, int);

    open spec fn view(&self) -> (int, int) {
        (self.start as int, self.end as int)
    }
}

impl DeepView for Span {
    type V = (int, int);

    open spec fn deep_view(&self) -> (int, int) {
        self.view()
    }
}

/// A span together with whether a rule has already moved it.
#[derive(Clone, Copy)]
pub struct MappedRange {
    pub span: Span,
    pub mapped: bool,
}

impl View for MappedRange {
    type V = (int, int, bool);

    open spec fn view(&self) -> (int, int, bool) {
        (self.span.start as int, self.span.end as int, self.mapped)
    }
}

impl DeepView for MappedRange {
    type V = (int, int, bool);

    open spec fn deep_view(&self) -> (int, int, bool) {
        self.view()
    }
}

/// What one rule `[ms, me) -> +off` makes of the key range `[ks, ke)`: the
/// part inside the rule moves by `off`, the parts outside pass through
/// unmoved, in position order.
pub open spec fn clip_pieces(ks: int, ke: int, ms: int, me: int, off: int) -> Seq<(int, int, bool)> {
    if ke <= ms || me <= ks {
        seq![(ks, ke, false)]
    } else {
        let lo = if ks >= ms {
            ks
        } else {
            ms
        };
        let hi = if ke <= me {
            ke
        } else {
            me
        };
        let pre: Seq<(int, int, bool)> = if ks < ms {
            seq![(ks, ms, false)]
        } else {
            Seq::empty()
        };
        let post: Seq<(int, int, bool)> = if me < ke {
            seq![(me, ke, false)]
        } else {
            Seq::empty()
        };
        pre + seq![(lo + off, hi + off, true)] + post
    }
}

/// Shifts both ends of a span by `off`.
fn shift_span(s: u64, e: u64, off: i64) -> (r: Span)
    requires
        0 <= s + off <= u64::MAX,
        0 <= e + off <= u64::MAX,
    ensures
        r.start == s + off,
        r.end == e + off,
{
    if off >= 0 {
        Span { start: s + (off as u64), end: e + (off as u64) }
    } else {
        let mag = (-(off + 1)) as u64 + 1;
        proof {
            assert(mag == -(off as int));
        }
        Span { start: s - mag, end: e - mag }
    }
}

/// Applies one rule to one key range, keeping the unmoved flanks.
pub fn map_range(kr: &Span, mr: &Span, off: i64) -> (out: Vec<MappedRange>)
    requires
        mr.start <= mr.end,
        0 <= mr.start + off,
        mr.end + off <= u64::MAX,
    ensures
        out.deep_view() == clip_pieces(
            kr.start as int,
            kr.end as int,
            mr.start as int,
            mr.end as int,
            off as int,
        ),
{
    let ghost target = clip_pieces(
        kr.start as int,
        kr.end as int,
        mr.start as int,
        mr.end as int,
        off as int,
    );
    let mut out: Vec<MappedRange> = Vec::new();
    if kr.end <= mr.start || mr.end <= kr.start {
        out.push(MappedRange { span: Span { start: kr.start, end: kr.end }, mapped: false });
        proof {
            assert(out.deep_view() =~= target);
        }
        return out;
    }
    let lo = if kr.start >= mr.start {
        kr.start
    } else {
        mr.start
    };
    let hi = if kr.end <= mr.end {
        kr.end
    } else {
        mr.end
    };
    if kr.start < mr.start {
        out.push(MappedRange { span: Span { start: kr.start, end: mr.start }, mapped: false });
    }
    let mid = shift_span(lo, hi, off);
    out.push(MappedRange { span: mid, mapped: true });
    if mr.end < kr.end {
        out.push(MappedRange { span: Span { start: mr.end, end: kr.end }, mapped: false });
    }
    proof {
        assert(out.deep_view() =~= target);
    }
    out
}

/// The spans among `ps` whose flag equals `want`, in order.
pub open spec fn select_flag(ps: Seq<(int, int, bool)>, want: bool) -> Seq<(int, int)>
    decreases ps.len(),
{
    if ps.len() == 0 {
        Seq::empty()
    } else {
        let r = select_flag(ps.drop_last(), want);
        if ps.last().2 == want {
            r.push((ps.last().0, ps.last().1))
        } else {
            r
        }
    }
}

/// One rule applied to a whole key list: the still-unmoved pieces, and the
/// pieces the rule moved, each in order.
pub open spec fn apply_rule(keys: Seq<(int, int)>, ms: int, me: int, off: int) -> (
    Seq<(int, int)>,
    Seq<(int, int)>,
)
    decreases keys.len(),
{
    if keys.len() == 0 {
        (Seq::<(int, int)>::empty(), Seq::<(int, int)>::empty())
    } else {
        let prev = apply_rule(keys.drop_last(), ms, me, off);
        let ps = clip_pieces(keys.last().0, keys.last().1, ms, me, off);
        (prev.0 + select_flag(ps, false), prev.1 + select_flag(ps, true))
    }
}

proof fn lemma_select_step(ps: Seq<(int, int, bool)>, want: bool, k: int)
    requires
        0 <= k < ps.len(),
    ensures
        select_flag(ps.take(k + 1), want) == if ps[k].2 == want {
            select_flag(ps.take(k), want).push((ps[k].0, ps[k].1))
        } else {
            select_flag(ps.take(k), want)
        },
{
    assert(ps.take(k + 1).drop_last() =~= ps.take(k));
    assert(ps.take(k + 1).last() == ps[k]);
}

proof fn lemma_select_len(ps: Seq<(int, int, bool)>, want: bool)
    ensures
        select_flag(ps, true).len() + select_flag(ps, false).len() == ps.len(),
    decreases ps.len(),
{
    if ps.len() > 0 {
        lemma_select_len(ps.drop_last(), want);
    }
}

proof fn lemma_apply_rule_step(keys: Seq<(int, int)>, ms: int, me: int, off: int, k: int)
    requires
        0 <= k < keys.len(),
    ensures
        apply_rule(keys.take(k + 1), ms, me, off).0 == apply_rule(keys.take(k), ms, me, off).0
            + select_flag(clip_pieces(keys[k].0, keys[k].1, ms, me, off), false),
        apply_rule(keys.take(k + 1), ms, me, off).1 == apply_rule(keys.take(k), ms, me, off).1
            + select_flag(clip_pieces(keys[k].0, keys[k].1, ms, me, off), true),
{
    assert(keys.take(k + 1).drop_last() =~= keys.take(k));
    assert(keys.take(k + 1).last() == keys[k]);
}

proof fn lemma_apply_rule_len(keys: Seq<(int, int)>, ms: int, me: int, off: int)
    ensures
        apply_rule(keys, ms, me, off).0.len() + apply_rule(keys, ms, me, off).1.len()
            >= keys.len(),
    decreases keys.len(),
{
    if keys.len() > 0 {
        lemma_apply_rule_len(keys.drop_last(), ms, me, off);
        lemma_select_len(clip_pieces(keys.last().0, keys.last().1, ms, me, off), true);
    }
}

/// Applies one rule to every key span; pieces the rule moved are appended
/// to `mapped`, the rest become the new key list.
fn apply_one_rule(keys: &Vec<Span>, mr: &Span, off: i64, mapped: &mut Vec<Span>) -> (next: Vec<
    Span,
>)
    requires
        mr.start <= mr.end,
        0 <= mr.start + off,
        mr.end + off <= u64::MAX,
    ensures
        next.deep_view() == apply_rule(
            keys.deep_view(),
            mr.start as int,
            mr.end as int,
            off as int,
        ).0,
        final(mapped).deep_view() == old(mapped).deep_view() + apply_rule(
            keys.deep_view(),
            mr.start as int,
            mr.end as int,
            off as int,
        ).1,
{
    let ghost kd = keys.deep_view();
    let ghost m0 = mapped.deep_view();
    let ghost ms = mr.start as int;
    let ghost me = mr.end as int;
    let mut next: Vec<Span> = Vec::new();
    let mut k: usize = 0;
    proof {
        assert(kd.take(0) =~= Seq::<(int, int)>::empty());
        assert(next.deep_view() =~= apply_rule(kd.take(0), ms, me, off as int).0);
        assert(mapped.deep_view() =~= m0 + apply_rule(kd.take(0), ms, me, off as int).1);
    }
    while k < keys.len()
        invariant
            k <= keys@.len(),
            keys.deep_view() == kd,
            kd.len() == keys@.len(),
            mr.start <= mr.end,
            0 <= mr.start + off,
            mr.end + off <= u64::MAX,
            ms == mr.start as int,
            me == mr.end as int,
            next.deep_view() == apply_rule(kd.take(k as int), ms, me, off as int).0,
            mapped.deep_view() == m0 + apply_rule(kd.take(k as int), ms, me, off as int).1,
        decreases keys.len() - k,
    {
        proof {
            assert(keys@[k as int].deep_view() == kd[k as int]);
        }
        let pieces = map_range(&keys[k], mr, off);
        let ghost ps = clip_pieces(kd[k as int].0, kd[k as int].1, ms, me, off as int);
        proof {
            assert(pieces.deep_view() == ps);
            assert(pieces@.len() == ps.len());
            assert(ps.take(0) =~= Seq::<(int, int, bool)>::empty());
        }
        let ghost nbase = next.deep_view();
        let ghost mbase = mapped.deep_view();
        let mut t: usize = 0;
        while t < pieces.len()
            invariant
                t <= pieces@.len(),
                pieces.deep_view() == ps,
                ps.len() == pieces@.len(),
                next.deep_view() == nbase + select_flag(ps.take(t as int), false),
                mapped.deep_view() == mbase + select_flag(ps.take(t as int), true),
            decreases pieces.len() - t,
        {
            proof {
                assert(pieces@[t as int].deep_view() == ps[t as int]);
                lemma_select_step(ps, true, t as int);
                lemma_select_step(ps, false, t as int);
            }
            let ghost ndeep = next.deep_view();
            let ghost mdeep = mapped.deep_view();
            let piece = &pieces[t];
            if piece.mapped {
                mapped.push(piece.span);
                proof {
                    assert(mapped.deep_view() =~= mdeep.push(
                        (piece.span.start as int, piece.span.end as int),
                    ));
                    assert(next.deep_view() =~= ndeep);
                }
            } else {
                next.push(piece.span);
                proof {
                    assert(next.deep_view() =~= ndeep.push(
                        (piece.span.start as int, piece.span.end as int),
                    ));
                    assert(mapped.deep_view() =~= mdeep);
                }
            }
            t += 1;
        }
        proof {
            assert(ps.take(ps.len() as int) =~= ps);
            lemma_apply_rule_step(kd, ms, me, off as int, k as int);
            assert(next.deep_view() =~= apply_rule(kd.take(k + 1), ms, me, off as int).0);
            assert(mapped.deep_view() =~= m0 + apply_rule(kd.take(k + 1), ms, me, off as int).1);
        }
        k += 1;
    }
    proof {
        assert(kd.take(kd.len() as int) =~= kd);
    }
    next
}

pub open spec fn line_blank(s: Seq<u8>) -> bool {
    trim_of(s).len() == 0
}

/// The rule a table line holds, as `(src, src + len, dest - src)`.
pub open spec fn rule_of_line(s: Seq<u8>) -> (int, int, int) {
    let ts = tokens_of(s);
    (
        num_of(ts[1]),
        num_of(ts[1]) + num_of(ts[2]),
        num_of(ts[0]) - num_of(ts[1]),
    )
}

/// A table line the solver can read without fault: three numeric
/// tokens whose values stay within machine range.
pub open spec fn wf_rule_line(s: Seq<u8>) -> bool {
    let ts = tokens_of(s);
    ts.len() >= 3 && is_digits(ts[0]) && is_digits(ts[1]) && is_digits(ts[2]) && num_of(ts[0])
        <= i64::MAX && num_of(ts[1]) <= i64::MAX && num_of(ts[1]) + num_of(ts[2]) <= u64::MAX
        && num_of(ts[0]) + num_of(ts[2]) <= u64::MAX
}

/// Walks the lines from `j` on, table by table: a header line is skipped,
/// each rule line reshapes the key spans, and a blank line closes the table,
/// merging moved and unmoved spans. Returns the final span list.
pub open spec fn run_tables(
    ls: Seq<Seq<u8>>,
    j: int,
    keys: Seq<(int, int)>,
    mapped: Seq<(int, int)>,
    in_rules: bool,
) -> Seq<(int, int)>
    decreases ls.len() - j,
{
    if j < 0 || j >= ls.len() {
        if in_rules {
            mapped + keys
        } else {
            keys
        }
    } else if !in_rules {
        run_tables(ls, j + 1, keys, mapped, true)
    } else if line_blank(ls[j]) {
        run_tables(ls, j + 1, mapped + keys, Seq::empty(), false)
    } else {
        let r = rule_of_line(ls[j]);
        let a = apply_rule(keys, r.0, r.1, r.2);
        run_tables(ls, j + 1, a.0, mapped + a.1, true)
    }
}

/// Every rule line reachable from `j` is well-formed.
pub open spec fn wf_tables(ls: Seq<Seq<u8>>, j: int, in_rules: bool) -> bool
    decreases ls.len() - j,
{
    if j < 0 || j >= ls.len() {
        true
    } else if !in_rules {
        wf_tables(ls, j + 1, true)
    } else if line_blank(ls[j]) {
        wf_tables(ls, j + 1, false)
    } else {
        wf_rule_line(ls[j]) && wf_tables(ls, j + 1, true)
    }
}

proof fn lemma_run_tables_len(
    ls: Seq<Seq<u8>>,
    j: int,
    keys: Seq<(int, int)>,
    mapped: Seq<(int, int)>,
    in_rules: bool,
)
    ensures
        run_tables(ls, j, keys, mapped, in_rules).len() >= keys.len() + if in_rules {
            mapped.len() as int
        } else {
            0
        },
    decreases ls.len() - j,
{
    if j < 0 || j >= ls.len() {
    } else if !in_rules {
        lemma_run_tables_len(ls, j + 1, keys, mapped, true);
    } else if line_blank(ls[j]) {
        lemma_run_tables_len(ls, j + 1, mapped + keys, Seq::empty(), false);
    } else {
        let r = rule_of_line(ls[j]);
        let a = apply_rule(keys, r.0, r.1, r.2);
        lemma_apply_rule_len(keys, r.0, r.1, r.2);
        lemma_run_tables_len(ls, j + 1, a.0, mapped + a.1, true);
    }
}

/// Index of the first line that is not blank, or the number of lines.
pub open spec fn first_nonblank(ls: Seq<Seq<u8>>, j: int) -> int
    decreases ls.len() - j,
{
    if j < 0 || j >= ls.len() {
        ls.len() as int
    } else if !line_blank(ls[j]) {
        j
    } else {
        first_nonblank(ls, j + 1)
    }
}

proof fn lemma_first_nonblank_is(ls: Seq<Seq<u8>>, k: int)
    requires
        0 <= k <= ls.len(),
        forall|j: int| 0 <= j < k ==> line_blank(#[trigger] ls[j]),
        k < ls.len() ==> !line_blank(ls[k]),
    ensures
        first_nonblank(ls, 0) == if k < ls.len() {
            k
        } else {
            ls.len() as int
        },
    decreases ls.len(),
{
    lemma_first_nonblank_from(ls, 0, k);
}

proof fn lemma_first_nonblank_from(ls: Seq<Seq<u8>>, j: int, k: int)
    requires
        0 <= j <= k <= ls.len(),
        forall|m: int| j <= m < k ==> line_blank(#[trigger] ls[m]),
        k < ls.len() ==> !line_blank(ls[k]),
    ensures
        first_nonblank(ls, j) == if k < ls.len() {
            k
        } else {
            ls.len() as int
        },
    decreases k - j,
{
    if j < k {
        lemma_first_nonblank_from(ls, j + 1, k);
    }
}

/// The numbers on the seeds line, after its colon.
pub open spec fn seed_nums(ls: Seq<Seq<u8>>) -> Seq<int> {
    let si = first_nonblank(ls, 0);
    let line = ls[si];
    let ts = tokens_of(line.skip(find_at(line, 58) + 1));
    Seq::new(ts.len(), |k: int| num_of(ts[k]))
}

/// A first nonblank line exists, carries a colon, and numeric tokens
/// follow it.
pub open spec fn wf_seeds(ls: Seq<Seq<u8>>) -> bool {
    let si = first_nonblank(ls, 0);
    &&& si < ls.len()
    &&& find_at(ls[si], 58) < ls[si].len()
    &&& {
        let ts = tokens_of(ls[si].skip(find_at(ls[si], 58) + 1));
        ts.len() > 0 && forall|k: int| 0 <= k < ts.len() ==> is_digits(#[trigger] ts[k])
    }
}

/// The smallest span start.
pub open spec fn min_start(rs: Seq<(int, int)>) -> int
    decreases rs.len(),
{
    if rs.len() == 0 {
        0
    } else if rs.len() == 1 {
        rs[0].0
    } else {
        let m = min_start(rs.drop_last());
        if rs.last().0 < m {
            rs.last().0
        } else {
            m
        }
    }
}

proof fn lemma_min_start_step(rs: Seq<(int, int)>, k: int)
    requires
        1 <= k < rs.len(),
    ensures
        min_start(rs.take(k + 1)) == if rs[k].0 < min_start(rs.take(k)) {
            rs[k].0
        } else {
            min_start(rs.take(k))
        },
{
    assert(rs.take(k + 1).drop_last() =~= rs.take(k));
    assert(rs.take(k + 1).last() == rs[k]);
}

fn is_blank(v: &Vec<u8>) -> (r: bool)
    ensures
        r == line_blank(v@),
{
    let t = trim_vec(v.as_slice());
    t.len() == 0
}

/// Runs every table from line `start` on over the key spans.
fn run_tables_exec(lines: &Vec<Vec<u8>>, start: usize, keys: Vec<Span>) -> (out: Vec<Span>)
    requires
        start <= lines@.len(),
        wf_tables(lines.deep_view(), start as int, false),
    ensures
        out.deep_view() == run_tables(
            lines.deep_view(),
            start as int,
            keys.deep_view(),
            Seq::empty(),
            false,
        ),
{
    let ghost ls = lines.deep_view();
    let ghost target = run_tables(ls, start as int, keys.deep_view(), Seq::empty(), false);
    let mut keys = keys;
    let mut mapped: Vec<Span> = Vec::new();
    let mut in_rules = false;
    let mut j: usize = start;
    proof {
        assert(mapped.deep_view() =~= Seq::<(int, int)>::empty());
    }
    while j < lines.len()
        invariant
            j <= lines@.len(),
            ls == lines.deep_view(),
            ls.len() == lines@.len(),
            wf_tables(ls, j as int, in_rules),
            run_tables(ls, j as int, keys.deep_view(), mapped.deep_view(), in_rules) == target,
        decreases lines.len() - j,
    {
        if !in_rules {
            in_rules = true;
        } else {
            proof {
                assert(lines@[j as int].deep_view() =~= lines@[j as int]@);
                assert(lines@[j as int]@ == ls[j as int]);
            }
            if is_blank(&lines[j]) {
                let ghost md = mapped.deep_view();
                let ghost kd = keys.deep_view();
                mapped.append(&mut keys);
                proof {
                    assert(mapped.deep_view() =~= md + kd);
                }
                keys = mapped;
                mapped = Vec::new();
                in_rules = false;
                proof {
                    assert(mapped.deep_view() =~= Seq::<(int, int)>::empty());
                }
            } else {
                let ghost r = rule_of_line(ls[j as int]);
                let toks = tokens_vec(lines[j].as_slice());
                proof {
                    assert(toks@[0].deep_view() =~= toks@[0]@);
                    assert(toks@[1].deep_view() =~= toks@[1]@);
                    assert(toks@[2].deep_view() =~= toks@[2]@);
                }
                let d = parse_u64(&toks[0]);
                let s = parse_u64(&toks[1]);
                let l = parse_u64(&toks[2]);
                let off: i64 = (d as i64) - (s as i64);
                let mr = Span { start: s, end: s + l };
                proof {
                    assert(r == (mr.start as int, mr.end as int, off as int));
                }
                let next = apply_one_rule(&keys, &mr, off, &mut mapped);
                keys = next;
            }
        }
        j += 1;
    }
    if in_rules {
        let ghost md = mapped.deep_view();
        let ghost kd = keys.deep_view();
        mapped.append(&mut keys);
        proof {
            assert(mapped.deep_view() =~= md + kd);
        }
        mapped
    } else {
        keys
    }
}

/// Smallest start among the spans; the list must be nonempty.
fn min_start_exec(rs: &Vec<Span>) -> (r: u64)
    requires
        rs@.len() > 0,
    ensures
        r == min_start(rs.deep_view()),
{
    let ghost rd = rs.deep_view();
    let mut best = rs[0].start;
    let mut k: usize = 1;
    proof {
        assert(rd.take(1) =~= seq![rd[0]]);
        assert(rs@[0].deep_view() == rd[0]);
        assert(min_start(rd.take(1)) == rd[0].0);
    }
    while k < rs.len()
        invariant
            1 <= k <= rs@.len(),
            rd == rs.deep_view(),
            rd.len() == rs@.len(),
            best == min_start(rd.take(k as int)),
        decreases rs.len() - k,
    {
        proof {
            assert(rs@[k as int].deep_view() == rd[k as int]);
            lemma_min_start_step(rd, k as int);
        }
        if rs[k].start < best {
            best = rs[k].start;
        }
        k += 1;
    }
    proof {
        assert(rd.take(rd.len() as int) =~= rd);
    }
    best
}

/// Finds the seeds line and returns its numeric tokens.
fn seed_tokens(lines: &Vec<Vec<u8>>) -> (r: (Vec<Vec<u8>>, usize))
    requires
        wf_seeds(lines.deep_view()),
    ensures
        r.0.deep_view() == tokens_of(
            lines.deep_view()[first_nonblank(lines.deep_view(), 0)].skip(
                find_at(lines.deep_view()[first_nonblank(lines.deep_view(), 0)], 58) + 1,
            ),
        ),
        r.1 == first_nonblank(lines.deep_view(), 0),
        r.1 < lines@.len(),
{
    let ghost ls = lines.deep_view();
    let mut si: usize = 0;
    while si < lines.len() && is_blank(&lines[si])
        invariant
            si <= lines@.len(),
            ls == lines.deep_view(),
            ls.len() == lines@.len(),
            forall|j: int| 0 <= j < si ==> line_blank(#[trigger] ls[j]),
        decreases lines.len() - si,
    {
        proof {
            assert(lines@[si as int].deep_view() =~= lines@[si as int]@);
        }
        si += 1;
    }
    proof {
        if si < lines@.len() {
            assert(lines@[si as int].deep_view() =~= lines@[si as int]@);
        }
        lemma_first_nonblank_is(ls, si as int);
        assert(first_nonblank(ls, 0) < ls.len());
    }
    let rest = crate::text::after_byte(&lines[si], 58);
    proof {
        assert(lines@[si as int].deep_view() =~= lines@[si as int]@);
        assert(rest@ == ls[si as int].skip(find_at(ls[si as int], 58) + 1));
    }
    let toks = tokens_vec(rest.as_slice());
    (toks, si)
}

/// The spans the run starts from in part one: one single-value span per
/// seed number.
pub open spec fn single_seed_spans(ls: Seq<Seq<u8>>) -> Seq<(int, int)> {
    Seq::new(seed_nums(ls).len(), |k: int| (seed_nums(ls)[k], seed_nums(ls)[k] + 1))
}

/// The smallest location any single seed reaches after all tables.
pub fn part_one(input: &str) -> (r: u64)
    requires
        wf_seeds(lines_of(input.spec_bytes())),
        forall|k: int|
            0 <= k < seed_nums(lines_of(input.spec_bytes())).len() ==> #[trigger] seed_nums(
                lines_of(input.spec_bytes()),
            )[k] < u64::MAX,
        wf_tables(
            lines_of(input.spec_bytes()),
            first_nonblank(lines_of(input.spec_bytes()), 0) + 2,
            false,
        ),
    ensures
        r == min_start(
            run_tables(
                lines_of(input.spec_bytes()),
                first_nonblank(lines_of(input.spec_bytes()), 0) + 2,
                single_seed_spans(lines_of(input.spec_bytes())),
                Seq::empty(),
                false,
            ),
        ),
{
    let ghost ls = lines_of(input.spec_bytes());
    let lines = lines_vec(input.as_bytes());
    let (toks, si) = seed_tokens(&lines);
    let ghost sn = seed_nums(ls);
    let mut keys: Vec<Span> = Vec::new();
    let mut k: usize = 0;
    proof {
        assert(sn.len() == toks@.len());
    }
    while k < toks.len()
        invariant
            k <= toks@.len(),
            toks.deep_view() == tokens_of(ls[first_nonblank(ls, 0)].skip(
                find_at(ls[first_nonblank(ls, 0)], 58) + 1,
            )),
            ls == lines_of(input.spec_bytes()),
            wf_seeds(ls),
            sn == seed_nums(ls),
            sn.len() == toks@.len(),
            forall|m: int| 0 <= m < sn.len() ==> #[trigger] sn[m] < u64::MAX,
            keys.deep_view().len() == k,
            forall|m: int|
                0 <= m < k ==> #[trigger] keys.deep_view()[m] == (sn[m], sn[m] + 1),
        decreases toks.len() - k,
    {
        proof {
            assert(toks@[k as int].deep_view() =~= toks@[k as int]@);
            assert(toks.deep_view()[k as int] == toks@[k as int]@);
            assert(is_digits(toks.deep_view()[k as int]));
            assert(num_of(toks@[k as int]@) == sn[k as int]);
        }
        let ghost kd = keys.deep_view();
        let v = parse_u64(&toks[k]);
        keys.push(Span { start: v, end: v + 1 });
        proof {
            assert(keys.deep_view() =~= kd.push((v as int, v as int + 1)));
        }
        k += 1;
    }
    proof {
        assert(keys.deep_view() =~= single_seed_spans(ls));
    }
    let n = lines.len();
    let start = if n - si >= 2 {
        si + 2
    } else {
        n
    };
    let ghost spans0 = single_seed_spans(ls);
    proof {
        assert(run_tables(ls, start as int, spans0, Seq::empty(), false) == run_tables(
            ls,
            first_nonblank(ls, 0) + 2,
            spans0,
            Seq::empty(),
            false,
        ));
        assert(wf_tables(ls, start as int, false));
    }
    let out = run_tables_exec(&lines, start, keys);
    proof {
        lemma_run_tables_len(ls, start as int, spans0, Seq::empty(), false);
        assert(out@.len() == out.deep_view().len());
    }
    min_start_exec(&out)
}

/// The spans the run starts from in part two: the seed numbers read in
/// pairs, a start and a width.
pub open spec fn paired_seed_spans(ls: Seq<Seq<u8>>) -> Seq<(int, int)> {
    Seq::new(
        (seed_nums(ls).len() / 2) as nat,
        |k: int| (seed_nums(ls)[2 * k], seed_nums(ls)[2 * k] + seed_nums(ls)[2 * k + 1] + 1),
    )
}

/// The smallest location any seed of the paired ranges reaches after all
/// tables.
pub fn part_two(input: &str) -> (r: u64)
    requires
        wf_seeds(lines_of(input.spec_bytes())),
        seed_nums(lines_of(input.spec_bytes())).len() % 2 == 0,
        forall|k: int|
            0 <= k < seed_nums(lines_of(input.spec_bytes())).len() / 2 ==> #[trigger] seed_nums(
                lines_of(input.spec_bytes()),
            )[2 * k] + seed_nums(lines_of(input.spec_bytes()))[2 * k + 1] + 1 <= u64::MAX,
        wf_tables(
            lines_of(input.spec_bytes()),
            first_nonblank(lines_of(input.spec_bytes()), 0) + 2,
            false,
        ),
    ensures
        r == min_start(
            run_tables(
                lines_of(input.spec_bytes()),
                first_nonblank(lines_of(input.spec_bytes()), 0) + 2,
                paired_seed_spans(lines_of(input.spec_bytes())),
                Seq::empty(),
                false,
            ),
        ),
{
    let ghost ls = lines_of(input.spec_bytes());
    let lines = lines_vec(input.as_bytes());
    let (toks, si) = seed_tokens(&lines);
    let ghost sn = seed_nums(ls);
    let mut keys: Vec<Span> = Vec::new();
    let mut k: usize = 0;
    proof {
        assert(sn.len() == toks@.len());
        lemma_num_nonneg_all(ls);
    }
    while k < toks.len() / 2
        invariant
            k <= toks@.len() / 2,
            toks.deep_view() == tokens_of(ls[first_nonblank(ls, 0)].skip(
                find_at(ls[first_nonblank(ls, 0)], 58) + 1,
            )),
            ls == lines_of(input.spec_bytes()),
            wf_seeds(ls),
            sn == seed_nums(ls),
            sn.len() == toks@.len(),
            sn.len() % 2 == 0,
            forall|m: int|
                0 <= m < sn.len() / 2 ==> #[trigger] sn[2 * m] + sn[2 * m + 1] + 1 <= u64::MAX,
            forall|m: int| 0 <= m < sn.len() ==> #[trigger] sn[m] >= 0,
            keys.deep_view().len() == k,
            forall|m: int|
                0 <= m < k ==> #[trigger] keys.deep_view()[m] == (
                    sn[2 * m],
                    sn[2 * m] + sn[2 * m + 1] + 1,
                ),
        decreases toks@.len() / 2 - k,
    {
        proof {
            assert(toks@[2 * k as int].deep_view() =~= toks@[2 * k as int]@);
            assert(toks@[2 * k as int + 1].deep_view() =~= toks@[2 * k as int + 1]@);
            assert(toks.deep_view()[2 * k as int] == toks@[2 * k as int]@);
            assert(toks.deep_view()[2 * k as int + 1] == toks@[2 * k as int + 1]@);
            assert(is_digits(toks.deep_view()[2 * k as int]));
            assert(is_digits(toks.deep_view()[2 * k as int + 1]));
            assert(num_of(toks@[2 * k as int]@) == sn[2 * k as int]);
            assert(num_of(toks@[2 * k as int + 1]@) == sn[2 * k as int + 1]);
            assert(sn[2 * k as int] + sn[2 * k as int + 1] + 1 <= u64::MAX);
            assert(sn[2 * k as int] >= 0);
            assert(sn[2 * k as int + 1] >= 0);
        }
        let ghost kd = keys.deep_view();
        let start = parse_u64(&toks[2 * k]);
        let delta = parse_u64(&toks[2 * k + 1]);
        keys.push(Span { start, end: start + delta + 1 });
        proof {
            assert(keys.deep_view() =~= kd.push(
                (start as int, start as int + delta as int + 1),
            ));
        }
        k += 1;
    }
    proof {
        assert(keys.deep_view() =~= paired_seed_spans(ls));
    }
    let n = lines.len();
    let start = if n - si >= 2 {
        si + 2
    } else {
        n
    };
    let ghost spans0 = paired_seed_spans(ls);
    proof {
        assert(run_tables(ls, start as int, spans0, Seq::empty(), false) == run_tables(
            ls,
            first_nonblank(ls, 0) + 2,
            spans0,
            Seq::empty(),
            false,
        ));
        assert(wf_tables(ls, start as int, false));
        assert(spans0.len() == sn.len() / 2);
        assert(spans0.len() > 0);
    }
    let out = run_tables_exec(&lines, start, keys);
    proof {
        lemma_run_tables_len(ls, start as int, spans0, Seq::empty(), false);
        assert(out@.len() == out.deep_view().len());
    }
    min_start_exec(&out)
}

proof fn lemma_num_nonneg_all(ls: Seq<Seq<u8>>)
    requires
        wf_seeds(ls),
    ensures
        forall|m: int| 0 <= m < seed_nums(ls).len() ==> #[trigger] seed_nums(ls)[m] >= 0,
{
    let si = first_nonblank(ls, 0);
    let ts = tokens_of(ls[si].skip(find_at(ls[si], 58) + 1));
    assert forall|m: int| 0 <= m < seed_nums(ls).len() implies #[trigger] seed_nums(ls)[m]
        >= 0 by {
        crate::text::lemma_num_of_nonneg(ts[m]);
    }
}

} // verus!
