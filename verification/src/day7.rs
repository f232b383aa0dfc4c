//! Seventh puzzle: camel card hands. Each line holds a five-card hand and a
//! bid; hands rank first by the shape of their card counts, then by their
//! cards in order. The answer weights each bid by the rank of its hand in
//! the sorted order.
use crate::text::{content_lines, content_lines_vec, find_at, is_digits, num_of, parse_u64};
use vstd::prelude::*;
use vstd::string::StringSliceAdditionalSpecFns;

verus! {

#[derive(Clone, Copy, PartialEq, Eq, Structural, Debug)]
pub enum Card {
    C1,
    C2,
    C3,
    C4,
    C5,
    C6,
    C7,
    C8,
    C9,
    T,
    J,
    Q,
    K,
    A,
}

pub open spec fn card_rank(c: Card) -> int {
    match c {
        Card::C1 => 0,
        Card::C2 => 1,
        Card::C3 => 2,
        Card::C4 => 3,
        Card::C5 => 4,
        Card::C6 => 5,
        Card::C7 => 6,
        Card::C8 => 7,
        Card::C9 => 8,
        Card::T => 9,
        Card::J => 10,
        Card::Q => 11,
        Card::K => 12,
        Card::A => 13,
    }
}

pub open spec fn is_card(b: u8) -> bool {
    (49 <= b <= 57) || b == 84 || b == 74 || b == 81 || b == 75 || b == 65
}

pub open spec fn card_of(b: u8) -> Card {
    if b == 49 {
        Card::C1
    } else if b == 50 {
        Card::C2
    } else if b == 51 {
        Card::C3
    } else if b == 52 {
        Card::C4
    } else if b == 53 {
        Card::C5
    } else if b == 54 {
        Card::C6
    } else if b == 55 {
        Card::C7
    } else if b == 56 {
        Card::C8
    } else if b == 57 {
        Card::C9
    } else if b == 84 {
        Card::T
    } else if b == 74 {
        Card::J
    } else if b == 81 {
        Card::Q
    } else if b == 75 {
        Card::K
    } else {
        Card::A
    }
}

fn card_of_b(b: u8) -> (c: Card)
    requires
        is_card(b),
    ensures
        c == card_of(b),
{
    if b == 49 {
        Card::C1
    } else if b == 50 {
        Card::C2
    } else if b == 51 {
        Card::C3
    } else if b == 52 {
        Card::C4
    } else if b == 53 {
        Card::C5
    } else if b == 54 {
        Card::C6
    } else if b == 55 {
        Card::C7
    } else if b == 56 {
        Card::C8
    } else if b == 57 {
        Card::C9
    } else if b == 84 {
        Card::T
    } else if b == 74 {
        Card::J
    } else if b == 81 {
        Card::Q
    } else if b == 75 {
        Card::K
    } else {
        Card::A
    }
}

#[derive(Clone, Copy, PartialEq, Eq, Structural, Debug)]
pub enum Kind {
    HighCard,
    OnePair,
    TwoPair,
    ThreeOf,
    FullHouse,
    FourOf,
    FiveOf,
}

pub open spec fn kind_rank(k: Kind) -> int {
    match k {
        Kind::HighCard => 0,
        Kind::OnePair => 1,
        Kind::TwoPair => 2,
        Kind::ThreeOf => 3,
        Kind::FullHouse => 4,
        Kind::FourOf => 5,
        Kind::FiveOf => 6,
    }
}

/// How often `c` occurs among the cards.
pub open spec fn count_eq(cs: Seq<Card>, c: Card) -> int
    decreases cs.len(),
{
    if cs.len() == 0 {
        0
    } else {
        count_eq(cs.drop_last(), c) + if cs.last() == c {
            1int
        } else {
            0int
        }
    }
}

/// How many different cards occur.
pub open spec fn distinct_count(cs: Seq<Card>) -> int
    decreases cs.len(),
{
    if cs.len() == 0 {
        0
    } else {
        distinct_count(cs.drop_last()) + if cs.drop_last().contains(cs.last()) {
            0int
        } else {
            1int
        }
    }
}

/// The greatest occurrence count among the first `i` cards.
pub open spec fn max_count_upto(cs: Seq<Card>, i: int) -> int
    decreases i,
{
    if i <= 0 {
        0
    } else {
        let prev = max_count_upto(cs, i - 1);
        if count_eq(cs, cs[i - 1]) > prev {
            count_eq(cs, cs[i - 1])
        } else {
            prev
        }
    }
}

/// The shape of a five-card hand, read off the number of different cards
/// and the largest group.
pub open spec fn spec_kind(cs: Seq<Card>) -> Kind {
    let dk = distinct_count(cs);
    let mx = max_count_upto(cs, cs.len() as int);
    if dk == 1 {
        Kind::FiveOf
    } else if dk == 2 {
        if mx == 4 {
            Kind::FourOf
        } else {
            Kind::FullHouse
        }
    } else if dk == 3 {
        if mx == 3 {
            Kind::ThreeOf
        } else {
            Kind::TwoPair
        }
    } else if dk == 4 {
        Kind::OnePair
    } else {
        Kind::HighCard
    }
}

pub struct Hand {
    pub cards: Vec<Card>,
}

impl View for Hand {
    type V = Seq<Card>;

    open spec fn view(&self) -> Seq<Card> {
        self.cards@
    }
}

impl DeepView for Hand {
    type V = Seq<Card>;

    open spec fn deep_view(&self) -> Seq<Card> {
        self.cards@
    }
}

proof fn lemma_count_eq_take(cs: Seq<Card>, c: Card, i: int)
    requires
        0 <= i < cs.len(),
    ensures
        count_eq(cs.take(i + 1), c) == count_eq(cs.take(i), c) + if cs[i] == c {
            1int
        } else {
            0int
        },
{
    assert(cs.take(i + 1).drop_last() =~= cs.take(i));
    assert(cs.take(i + 1).last() == cs[i]);
}

proof fn lemma_distinct_take(cs: Seq<Card>, i: int)
    requires
        0 <= i < cs.len(),
    ensures
        distinct_count(cs.take(i + 1)) == distinct_count(cs.take(i)) + if cs.take(i).contains(
            cs[i],
        ) {
            0int
        } else {
            1int
        },
{
    assert(cs.take(i + 1).drop_last() =~= cs.take(i));
    assert(cs.take(i + 1).last() == cs[i]);
}

impl Hand {
    /// The shape of this five-card hand.
    pub fn kind(&self) -> (k: Kind)
        requires
            self.cards@.len() == 5,
        ensures
            k == spec_kind(self.cards@),
    {
        let ghost cs = self.cards@;
        let n = self.cards.len();
        let mut distinct: u64 = 0;
        let mut maxc: u64 = 0;
        let mut i: usize = 0;
        proof {
            assert(cs.take(0) =~= Seq::<Card>::empty());
        }
        while i < n
            invariant
                i <= n,
                n == cs.len(),
                cs == self.cards@,
                distinct == distinct_count(cs.take(i as int)),
                maxc == max_count_upto(cs, i as int),
                distinct <= i,
                maxc <= n,
            decreases n - i,
        {
            let ci = self.cards[i];
            let mut cnt: u64 = 0;
            let mut j: usize = 0;
            proof {
                assert(cs.take(0) =~= Seq::<Card>::empty());
            }
            while j < n
                invariant
                    j <= n,
                    n == cs.len(),
                    cs == self.cards@,
                    i < n,
                    ci == cs[i as int],
                    cnt == count_eq(cs.take(j as int), ci),
                    cnt <= j,
                decreases n - j,
            {
                proof {
                    lemma_count_eq_take(cs, ci, j as int);
                }
                if self.cards[j] == ci {
                    cnt = cnt + 1;
                }
                j += 1;
            }
            proof {
                assert(cs.take(n as int) =~= cs);
            }
            let mut seen = false;
            let mut j2: usize = 0;
            while j2 < i
                invariant
                    j2 <= i,
                    i < n,
                    n == cs.len(),
                    cs == self.cards@,
                    ci == cs[i as int],
                    seen == exists|m: int| 0 <= m < j2 && cs[m] == ci,
                decreases i - j2,
            {
                if self.cards[j2] == ci {
                    seen = true;
                }
                j2 += 1;
            }
            proof {
                lemma_distinct_take(cs, i as int);
                if seen {
                    let m = choose|m: int| 0 <= m < i && cs[m] == ci;
                    assert(cs.take(i as int)[m] == ci);
                    assert(cs.take(i as int).contains(ci));
                } else {
                    if cs.take(i as int).contains(ci) {
                        let m = choose|m: int|
                            0 <= m < i && cs.take(i as int)[m] == ci;
                        assert(cs[m] == ci);
                    }
                }
            }
            if !seen {
                distinct = distinct + 1;
            }
            if cnt > maxc {
                maxc = cnt;
            }
            i += 1;
        }
        proof {
            assert(cs.take(n as int) =~= cs);
        }
        if distinct == 1 {
            Kind::FiveOf
        } else if distinct == 2 {
            if maxc == 4 {
                Kind::FourOf
            } else {
                Kind::FullHouse
            }
        } else if distinct == 3 {
            if maxc == 3 {
                Kind::ThreeOf
            } else {
                Kind::TwoPair
            }
        } else if distinct == 4 {
            Kind::OnePair
        } else {
            Kind::HighCard
        }
    }
}

/// Lexicographic order on equal-kind hands, card by card.
pub open spec fn lex_lt(a: Seq<Card>, b: Seq<Card>) -> bool
    decreases a.len(),
{
    if a.len() == 0 {
        b.len() > 0
    } else if b.len() == 0 {
        false
    } else if card_rank(a[0]) < card_rank(b[0]) {
        true
    } else if card_rank(a[0]) > card_rank(b[0]) {
        false
    } else {
        lex_lt(a.drop_first(), b.drop_first())
    }
}

/// The sort order of hands: by kind, then by cards.
pub open spec fn hand_lt(a: Seq<Card>, b: Seq<Card>) -> bool {
    let ka = kind_rank(spec_kind(a));
    let kb = kind_rank(spec_kind(b));
    ka < kb || (ka == kb && lex_lt(a, b))
}

fn kind_rank_b(k: Kind) -> (r: u64)
    ensures
        r == kind_rank(k),
{
    match k {
        Kind::HighCard => 0,
        Kind::OnePair => 1,
        Kind::TwoPair => 2,
        Kind::ThreeOf => 3,
        Kind::FullHouse => 4,
        Kind::FourOf => 5,
        Kind::FiveOf => 6,
    }
}

fn card_rank_b(c: Card) -> (r: u64)
    ensures
        r == card_rank(c),
{
    match c {
        Card::C1 => 0,
        Card::C2 => 1,
        Card::C3 => 2,
        Card::C4 => 3,
        Card::C5 => 4,
        Card::C6 => 5,
        Card::C7 => 6,
        Card::C8 => 7,
        Card::C9 => 8,
        Card::T => 9,
        Card::J => 10,
        Card::Q => 11,
        Card::K => 12,
        Card::A => 13,
    }
}

proof fn lemma_lex_at(a: Seq<Card>, b: Seq<Card>, j: int)
    requires
        a.len() == b.len(),
        0 <= j <= a.len(),
        forall|m: int| 0 <= m < j ==> a[m] == b[m],
    ensures
        j == a.len() ==> !lex_lt(a, b),
        j < a.len() && card_rank(a[j]) < card_rank(b[j]) ==> lex_lt(a, b),
        j < a.len() && card_rank(a[j]) > card_rank(b[j]) ==> !lex_lt(a, b),
    decreases j,
{
    if j > 0 {
        assert(card_rank(a[0]) == card_rank(b[0]));
        assert(a.drop_first().len() == b.drop_first().len());
        lemma_lex_at(a.drop_first(), b.drop_first(), j - 1);
    }
}

/// Whether `a` sorts strictly before `b`.
fn hand_lt_b(a: &Hand, b: &Hand) -> (r: bool)
    requires
        a.cards@.len() == 5,
        b.cards@.len() == 5,
    ensures
        r == hand_lt(a.cards@, b.cards@),
{
    let ka = kind_rank_b(a.kind());
    let kb = kind_rank_b(b.kind());
    if ka < kb {
        return true;
    }
    if ka > kb {
        return false;
    }
    let mut j: usize = 0;
    while j < 5
        invariant
            j <= 5,
            a.cards@.len() == 5,
            b.cards@.len() == 5,
            kind_rank(spec_kind(a.cards@)) == kind_rank(spec_kind(b.cards@)),
            forall|m: int| 0 <= m < j ==> a.cards@[m] == b.cards@[m],
        decreases 5 - j,
    {
        let ra = card_rank_b(a.cards[j]);
        let rb = card_rank_b(b.cards[j]);
        if ra < rb {
            proof {
                lemma_lex_at(a.cards@, b.cards@, j as int);
            }
            return true;
        }
        if ra > rb {
            proof {
                lemma_lex_at(a.cards@, b.cards@, j as int);
            }
            return false;
        }
        proof {
            assert(a.cards@[j as int] == b.cards@[j as int]) by {
                let ca = a.cards@[j as int];
                let cb = b.cards@[j as int];
                assert(card_rank(ca) == card_rank(cb));
            }
        }
        j += 1;
    }
    proof {
        lemma_lex_at(a.cards@, b.cards@, 5);
    }
    false
}

/// Where a later-read pair lands among already sorted pairs: after every
/// pair it does not sort strictly before, which keeps equal hands in
/// reading order.
pub open spec fn insert_pair(s: Seq<(Seq<Card>, u64)>, x: (Seq<Card>, u64)) -> Seq<
    (Seq<Card>, u64),
>
    decreases s.len(),
{
    if s.len() == 0 {
        seq![x]
    } else if !hand_lt(x.0, s.last().0) {
        s.push(x)
    } else {
        insert_pair(s.drop_last(), x).push(s.last())
    }
}

/// The pairs sorted by hand, insertion by insertion.
pub open spec fn sort_pairs(s: Seq<(Seq<Card>, u64)>) -> Seq<(Seq<Card>, u64)>
    decreases s.len(),
{
    if s.len() == 0 {
        Seq::empty()
    } else {
        insert_pair(sort_pairs(s.drop_last()), s.last())
    }
}

proof fn lemma_insert_at(s: Seq<(Seq<Card>, u64)>, x: (Seq<Card>, u64), p: int)
    requires
        0 <= p <= s.len(),
        forall|j: int| p <= j < s.len() ==> hand_lt(x.0, (#[trigger] s[j]).0),
        p > 0 ==> !hand_lt(x.0, s[p - 1].0),
    ensures
        insert_pair(s, x) == s.take(p) + seq![x] + s.skip(p),
    decreases s.len(),
{
    if p == s.len() {
        if s.len() == 0 {
            assert(insert_pair(s, x) =~= s.take(p) + seq![x] + s.skip(p));
        } else {
            assert(!hand_lt(x.0, s.last().0));
            assert(s.take(p) =~= s);
            assert(insert_pair(s, x) =~= s.take(p) + seq![x] + s.skip(p));
        }
    } else {
        assert(hand_lt(x.0, s.last().0));
        assert(forall|j: int|
            p <= j < s.len() - 1 ==> (#[trigger] s.drop_last()[j]).0 == s[j].0);
        if p > 0 {
            assert(s.drop_last()[p - 1] == s[p - 1]);
        }
        lemma_insert_at(s.drop_last(), x, p);
        assert(insert_pair(s, x) =~= s.take(p) + seq![x] + s.skip(p));
    }
}

proof fn lemma_sort_step(s: Seq<(Seq<Card>, u64)>, i: int)
    requires
        0 <= i < s.len(),
    ensures
        sort_pairs(s.take(i + 1)) == insert_pair(sort_pairs(s.take(i)), s[i]),
{
    assert(s.take(i + 1).drop_last() =~= s.take(i));
    assert(s.take(i + 1).last() == s[i]);
}

proof fn lemma_insert_len(s: Seq<(Seq<Card>, u64)>, x: (Seq<Card>, u64))
    ensures
        insert_pair(s, x).len() == s.len() + 1,
    decreases s.len(),
{
    if s.len() > 0 && hand_lt(x.0, s.last().0) {
        lemma_insert_len(s.drop_last(), x);
    }
}

fn clone_pair(p: &(Hand, u64)) -> (r: (Hand, u64))
    ensures
        r.0.cards@ == p.0.cards@,
        r.1 == p.1,
{
    let mut cards: Vec<Card> = Vec::new();
    let mut i: usize = 0;
    while i < p.0.cards.len()
        invariant
            i <= p.0.cards@.len(),
            cards@ == p.0.cards@.take(i as int),
        decreases p.0.cards.len() - i,
    {
        cards.push(p.0.cards[i]);
        proof {
            assert(p.0.cards@.take(i + 1) =~= p.0.cards@.take(i as int).push(
                p.0.cards@[i as int],
            ));
        }
        i += 1;
    }
    proof {
        assert(p.0.cards@.take(p.0.cards@.len() as int) =~= p.0.cards@);
    }
    (Hand { cards }, p.1)
}

/// Sorts the hand-bid pairs by hand, equal hands keeping their order.
fn sort_hands(hs: &Vec<(Hand, u64)>) -> (out: Vec<(Hand, u64)>)
    requires
        forall|m: int| 0 <= m < hs@.len() ==> (#[trigger] hs@[m]).0.cards@.len() == 5,
    ensures
        out.deep_view() == sort_pairs(hs.deep_view()),
{
    let ghost hd = hs.deep_view();
    proof {
        assert(hd.len() == hs@.len());
        assert forall|m: int| 0 <= m < hs@.len() implies (#[trigger] hd[m]).0.len() == 5 by {
            assert(hd[m] == hs@[m].deep_view());
        }
    }
    let mut out: Vec<(Hand, u64)> = Vec::new();
    let mut i: usize = 0;
    proof {
        assert(hd.take(0) =~= Seq::<(Seq<Card>, u64)>::empty());
        assert(out.deep_view() =~~= sort_pairs(hd.take(0)));
    }
    while i < hs.len()
        invariant
            i <= hs@.len(),
            hd == hs.deep_view(),
            hd.len() == hs@.len(),
            forall|m: int| 0 <= m < hs@.len() ==> (#[trigger] hs@[m]).0.cards@.len() == 5,
            forall|m: int| 0 <= m < hd.len() ==> (#[trigger] hd[m]).0.len() == 5,
            out.deep_view() == sort_pairs(hd.take(i as int)),
            out@.len() == i,
            forall|m: int| 0 <= m < out@.len() ==> (#[trigger] out@[m]).0.cards@.len() == 5,
        decreases hs.len() - i,
    {
        let x = clone_pair(&hs[i]);
        proof {
            assert(hs@[i as int].deep_view() == hd[i as int]);
            assert(x.deep_view() == hd[i as int]);
        }
        let ghost od = out.deep_view();
        let ghost xd = hd[i as int];
        let mut p: usize = out.len();
        while p > 0 && hand_lt_b(&x.0, &out[p - 1].0)
            invariant
                p <= out@.len(),
                od == out.deep_view(),
                od.len() == out@.len(),
                x.0.cards@.len() == 5,
                x.deep_view() == xd,
                forall|m: int| 0 <= m < out@.len() ==> (#[trigger] out@[m]).0.cards@.len() == 5,
                forall|j: int| p <= j < od.len() ==> hand_lt(xd.0, (#[trigger] od[j]).0),
            decreases p,
        {
            proof {
                assert(out@[p - 1].deep_view() == od[p - 1]);
            }
            p -= 1;
        }
        proof {
            if p > 0 {
                assert(out@[p - 1].deep_view() == od[p - 1]);
                assert(!hand_lt(xd.0, od[p - 1].0));
            }
            lemma_insert_at(od, xd, p as int);
            lemma_sort_step(hd, i as int);
        }
        out.insert(p, x);
        proof {
            assert(out.deep_view() =~~= od.take(p as int) + seq![xd] + od.skip(p as int));
        }
        i += 1;
    }
    proof {
        assert(hd.take(hd.len() as int) =~= hd);
    }
    out
}

/// Total winnings: each bid times the rank of its hand, the weakest hand
/// ranking one.
pub open spec fn score_pairs(s: Seq<(Seq<Card>, u64)>) -> int
    decreases s.len(),
{
    if s.len() == 0 {
        0
    } else {
        score_pairs(s.drop_last()) + s.len() * s.last().1
    }
}

proof fn lemma_score_step(s: Seq<(Seq<Card>, u64)>, i: int)
    requires
        0 <= i < s.len(),
    ensures
        score_pairs(s.take(i + 1)) == score_pairs(s.take(i)) + (i + 1) * s[i].1,
{
    assert(s.take(i + 1).drop_last() =~= s.take(i));
    assert(s.take(i + 1).last() == s[i]);
}

proof fn lemma_score_nonneg(s: Seq<(Seq<Card>, u64)>)
    ensures
        score_pairs(s) >= 0,
    decreases s.len(),
{
    if s.len() > 0 {
        lemma_score_nonneg(s.drop_last());
        let n = s.len() as int;
        let b = s.last().1 as int;
        assert(n * b >= 0) by (nonlinear_arith)
            requires
                n >= 0,
                b >= 0,
        ;
    }
}

proof fn lemma_score_prefix(s: Seq<(Seq<Card>, u64)>, i: int)
    requires
        0 <= i <= s.len(),
    ensures
        0 <= score_pairs(s.take(i)) <= score_pairs(s),
    decreases s.len() - i,
{
    if i == s.len() {
        assert(s.take(i) =~= s);
        lemma_score_nonneg(s);
    } else {
        lemma_score_step(s, i);
        lemma_score_nonneg(s.take(i));
        let b = s[i].1 as int;
        assert((i + 1) * b >= 0) by (nonlinear_arith)
            requires
                i + 1 >= 0,
                b >= 0,
        ;
        lemma_score_prefix(s, i + 1);
    }
}

proof fn lemma_insert_bids(s: Seq<(Seq<Card>, u64)>, x: (Seq<Card>, u64), bound: int)
    requires
        forall|j: int| 0 <= j < s.len() ==> (#[trigger] s[j]).1 <= bound,
        x.1 <= bound,
    ensures
        forall|j: int| 0 <= j < insert_pair(s, x).len() ==> (#[trigger] insert_pair(s, x)[j]).1
            <= bound,
    decreases s.len(),
{
    lemma_insert_len(s, x);
    if s.len() == 0 {
    } else if !hand_lt(x.0, s.last().0) {
    } else {
        assert(forall|j: int|
            0 <= j < s.len() - 1 ==> (#[trigger] s.drop_last()[j]).1 == s[j].1);
        lemma_insert_bids(s.drop_last(), x, bound);
        lemma_insert_len(s.drop_last(), x);
        assert forall|j: int|
            0 <= j < insert_pair(s, x).len() implies (#[trigger] insert_pair(s, x)[j]).1
            <= bound by {
            if j < insert_pair(s.drop_last(), x).len() {
                assert(insert_pair(s, x)[j] == insert_pair(s.drop_last(), x)[j]);
            } else {
                assert(insert_pair(s, x)[j] == s.last());
            }
        }
    }
}

proof fn lemma_sort_bids(s: Seq<(Seq<Card>, u64)>, bound: int)
    requires
        forall|j: int| 0 <= j < s.len() ==> (#[trigger] s[j]).1 <= bound,
    ensures
        forall|j: int| 0 <= j < sort_pairs(s).len() ==> (#[trigger] sort_pairs(s)[j]).1 <= bound,
    decreases s.len(),
{
    if s.len() > 0 {
        assert(forall|j: int|
            0 <= j < s.len() - 1 ==> (#[trigger] s.drop_last()[j]).1 == s[j].1);
        lemma_sort_bids(s.drop_last(), bound);
        lemma_insert_bids(sort_pairs(s.drop_last()), s.last(), bound);
    }
}

pub open spec fn hand_part(line: Seq<u8>) -> Seq<u8> {
    line.take(find_at(line, 32))
}

pub open spec fn bid_part(line: Seq<u8>) -> Seq<u8> {
    line.skip(find_at(line, 32) + 1)
}

pub open spec fn hand_of(h: Seq<u8>) -> Seq<Card> {
    Seq::new(h.len(), |i: int| card_of(h[i]))
}

/// The hand and bid of every card line, in reading order.
pub open spec fn parsed_pairs(s: Seq<u8>) -> Seq<(Seq<Card>, u64)> {
    Seq::new(
        content_lines(s).len(),
        |i: int|
            (
                hand_of(hand_part(content_lines(s)[i])),
                num_of(bid_part(content_lines(s)[i])) as u64,
            ),
    )
}

/// A hand line the solver can read without fault: five card
/// letters, a space, and a bid that fits a machine word.
pub open spec fn wf_hand_line(line: Seq<u8>) -> bool {
    &&& find_at(line, 32) < line.len()
    &&& hand_part(line).len() == 5
    &&& forall|k: int| 0 <= k < 5 ==> is_card(#[trigger] hand_part(line)[k])
    &&& is_digits(bid_part(line))
    &&& num_of(bid_part(line)) <= usize::MAX
}

/// Total winnings of all hands, bids weighted by sorted rank.
pub fn part_one(input: &str) -> (r: usize)
    requires
        forall|i: int|
            0 <= i < content_lines(input.spec_bytes()).len() ==> wf_hand_line(
                #[trigger] content_lines(input.spec_bytes())[i],
            ),
        score_pairs(sort_pairs(parsed_pairs(input.spec_bytes()))) <= usize::MAX,
    ensures
        r == score_pairs(sort_pairs(parsed_pairs(input.spec_bytes()))),
{
    let ghost cl = content_lines(input.spec_bytes());
    let ghost pp = parsed_pairs(input.spec_bytes());
    let flines = content_lines_vec(input.as_bytes());
    let mut pairs: Vec<(Hand, u64)> = Vec::new();
    let mut i: usize = 0;
    while i < flines.len()
        invariant
            i <= flines@.len(),
            flines@.len() == cl.len(),
            flines.deep_view() == cl,
            cl == content_lines(input.spec_bytes()),
            pp == parsed_pairs(input.spec_bytes()),
            pp.len() == cl.len(),
            forall|j: int| 0 <= j < cl.len() ==> wf_hand_line(#[trigger] cl[j]),
            pairs@.len() == i,
            forall|m: int| 0 <= m < i ==> (#[trigger] pairs@[m]).deep_view() == pp[m],
            forall|m: int| 0 <= m < i ==> (#[trigger] pairs@[m]).0.cards@.len() == 5,
        decreases flines.len() - i,
    {
        proof {
            assert(flines@[i as int].deep_view() =~= flines@[i as int]@);
            assert(flines@[i as int]@ == cl[i as int]);
        }
        let line = &flines[i];
        let ghost lv = cl[i as int];
        let hb = crate::text::before_byte(line, 32);
        let bb = crate::text::after_byte(line, 32);
        proof {
            assert(hb@ == hand_part(lv));
            assert(bb@ == bid_part(lv));
            crate::text::lemma_num_of_nonneg(bid_part(lv));
        }
        let mut cards: Vec<Card> = Vec::new();
        let mut k: usize = 0;
        while k < hb.len()
            invariant
                k <= hb@.len(),
                hb@ == hand_part(lv),
                wf_hand_line(lv),
                cards@.len() == k,
                forall|m: int| 0 <= m < k ==> #[trigger] cards@[m] == card_of(hb@[m]),
            decreases hb.len() - k,
        {
            let c = card_of_b(hb[k]);
            cards.push(c);
            k += 1;
        }
        proof {
            assert(cards@ =~= hand_of(hand_part(lv)));
        }
        let bid = parse_u64(&bb);
        let pair = (Hand { cards }, bid);
        proof {
            assert(pair.deep_view() == pp[i as int]);
        }
        pairs.push(pair);
        i += 1;
    }
    proof {
        assert(pairs.deep_view() =~= pp);
    }
    let sorted = sort_hands(&pairs);
    let ghost sp = sort_pairs(pp);
    let mut sum: usize = 0;
    let mut t: usize = 0;
    proof {
        assert(sp.take(0) =~= Seq::<(Seq<Card>, u64)>::empty());
        assert forall|j: int| 0 <= j < pp.len() implies (#[trigger] pp[j]).1 <= usize::MAX by {
            crate::text::lemma_num_of_nonneg(bid_part(cl[j]));
        }
        lemma_sort_bids(pp, usize::MAX as int);
    }
    while t < sorted.len()
        invariant
            t <= sorted@.len(),
            sorted.deep_view() == sp,
            sp.len() == sorted@.len(),
            score_pairs(sp) <= usize::MAX,
            forall|j: int| 0 <= j < sp.len() ==> (#[trigger] sp[j]).1 <= usize::MAX,
            sum == score_pairs(sp.take(t as int)),
        decreases sorted.len() - t,
    {
        proof {
            assert(sorted@[t as int].deep_view() == sp[t as int]);
            lemma_score_step(sp, t as int);
            lemma_score_prefix(sp, t + 1);
            lemma_score_prefix(sp, t as int);
            let b = sp[t as int].1 as int;
            assert((t + 1) * b >= 0) by (nonlinear_arith)
                requires
                    t + 1 >= 0,
                    b >= 0,
            ;
            assert(sum + (t + 1) * b == score_pairs(sp.take(t as int + 1)));
            assert((t + 1) * b <= usize::MAX);
            assert(b * (t + 1) == (t + 1) * b) by (nonlinear_arith);
        }
        let bid = sorted[t].1;
        sum = sum + (bid as usize) * (t + 1);
        t += 1;
    }
    proof {
        assert(sp.take(sp.len() as int) =~= sp);
    }
    sum
}

} // verus!
