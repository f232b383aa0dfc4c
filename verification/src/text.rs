//! Byte-level text helpers shared by the day modules: splitting an input into
//! lines and tokens, trimming whitespace, and reading decimal numbers.
//! Every executable helper is specified against a recursive spec function
//! over the byte sequence.
use vstd::prelude::*;

verus! {

pub open spec fn is_space(b: u8) -> bool {
    b == 32 || b == 9 || b == 10 || b == 11 || b == 12 || b == 13
}

pub open spec fn is_digit(b: u8) -> bool {
    48 <= b <= 57
}

/// True when `s` is a nonempty run of decimal digit bytes.
pub open spec fn is_digits(s: Seq<u8>) -> bool {
    s.len() > 0 && forall|i: int| 0 <= i < s.len() ==> is_digit(#[trigger] s[i])
}

/// True when some byte of `s` is a decimal digit.
pub open spec fn has_digit(s: Seq<u8>) -> bool {
    exists|i: int| 0 <= i < s.len() && is_digit(#[trigger] s[i])
}

pub fn is_space_b(b: u8) -> (r: bool)
    ensures
        r == is_space(b),
{
    b == 32 || b == 9 || b == 10 || b == 11 || b == 12 || b == 13
}

pub fn is_digit_b(b: u8) -> (r: bool)
    ensures
        r == is_digit(b),
{
    48 <= b && b <= 57
}

/// The pieces of `s` delimited by bytes satisfying `p`; there is always at
/// least one piece, and two adjacent delimiters enclose an empty piece.
pub open spec fn split_when(s: Seq<u8>, p: spec_fn(u8) -> bool) -> Seq<Seq<u8>>
    decreases s.len(),
{
    if s.len() == 0 {
        seq![Seq::<u8>::empty()]
    } else if p(s[0]) {
        seq![Seq::<u8>::empty()] + split_when(s.drop_first(), p)
    } else {
        let r = split_when(s.drop_first(), p);
        seq![seq![s[0]] + r[0]] + r.drop_first()
    }
}

pub open spec fn eq_byte(sep: u8) -> spec_fn(u8) -> bool {
    |b: u8| b == sep
}

pub open spec fn split_byte(s: Seq<u8>, sep: u8) -> Seq<Seq<u8>> {
    split_when(s, eq_byte(sep))
}

pub proof fn lemma_split_when_len(s: Seq<u8>, p: spec_fn(u8) -> bool)
    ensures
        split_when(s, p).len() >= 1,
    decreases s.len(),
{
    if s.len() == 0 {
    } else {
        lemma_split_when_len(s.drop_first(), p);
    }
}

/// Extending the input by one byte either starts a fresh empty piece or
/// extends the final piece.
pub proof fn lemma_split_when_push(s: Seq<u8>, b: u8, p: spec_fn(u8) -> bool)
    ensures
        p(b) ==> split_when(s.push(b), p) == split_when(s, p).push(Seq::<u8>::empty()),
        !p(b) ==> split_when(s.push(b), p) == split_when(s, p).update(
            split_when(s, p).len() - 1,
            split_when(s, p).last().push(b),
        ),
    decreases s.len(),
{
    lemma_split_when_len(s, p);
    let t = s.push(b);
    assert(t.len() == s.len() + 1);
    if s.len() == 0 {
        assert(t[0] == b);
        assert(t.drop_first() =~= Seq::<u8>::empty());
        assert(split_when(t.drop_first(), p) == seq![Seq::<u8>::empty()]);
        assert(split_when(s, p) == seq![Seq::<u8>::empty()]);
        if p(b) {
            assert(split_when(t, p) == seq![Seq::<u8>::empty()] + split_when(t.drop_first(), p));
            assert(split_when(t, p) =~~= split_when(s, p).push(Seq::<u8>::empty()));
        } else {
            assert(split_when(t, p) == seq![seq![t[0]] + split_when(t.drop_first(), p)[0]]
                + split_when(t.drop_first(), p).drop_first());
            assert(split_when(t, p) =~~= split_when(s, p).update(
                split_when(s, p).len() - 1,
                split_when(s, p).last().push(b),
            ));
        }
    } else {
        assert(t[0] == s[0]);
        assert(t.drop_first() =~= s.drop_first().push(b));
        lemma_split_when_push(s.drop_first(), b, p);
        lemma_split_when_len(s.drop_first(), p);
        let r = split_when(s.drop_first(), p);
        let r2 = split_when(t.drop_first(), p);
        if p(s[0]) {
            assert(split_when(s, p) == seq![Seq::<u8>::empty()] + r);
            assert(split_when(t, p) == seq![Seq::<u8>::empty()] + r2);
            if p(b) {
                assert(r2 == r.push(Seq::<u8>::empty()));
                assert(split_when(t, p) =~~= split_when(s, p).push(Seq::<u8>::empty()));
            } else {
                assert(r2 == r.update(r.len() - 1, r.last().push(b)));
                assert(split_when(s, p).last() == r.last());
                assert(split_when(t, p) =~~= split_when(s, p).update(
                    split_when(s, p).len() - 1,
                    split_when(s, p).last().push(b),
                ));
            }
        } else {
            assert(split_when(s, p) == seq![seq![s[0]] + r[0]] + r.drop_first());
            assert(split_when(t, p) == seq![seq![t[0]] + r2[0]] + r2.drop_first());
            if p(b) {
                assert(r2 == r.push(Seq::<u8>::empty()));
                assert(r2[0] == r[0]);
                assert(r2.drop_first() =~= r.drop_first().push(Seq::<u8>::empty()));
                assert(split_when(t, p) =~~= split_when(s, p).push(Seq::<u8>::empty()));
            } else {
                assert(r2 == r.update(r.len() - 1, r.last().push(b)));
                if r.len() == 1 {
                    assert(r2[0] == r[0].push(b));
                    assert(r2.drop_first() =~= r.drop_first());
                    assert(split_when(s, p).len() == 1);
                    assert(split_when(s, p).last() == seq![s[0]] + r[0]);
                    assert((seq![s[0]] + r[0]).push(b) =~= seq![s[0]] + r[0].push(b));
                    assert(split_when(t, p) =~~= split_when(s, p).update(
                        split_when(s, p).len() - 1,
                        split_when(s, p).last().push(b),
                    ));
                } else {
                    assert(r2[0] == r[0]);
                    assert(r2.drop_first() =~= r.drop_first().update(
                        r.len() - 2,
                        r.last().push(b),
                    ));
                    assert(split_when(s, p).last() == r.last());
                    assert(split_when(t, p) =~~= split_when(s, p).update(
                        split_when(s, p).len() - 1,
                        split_when(s, p).last().push(b),
                    ));
                }
            }
        }
    }
}

/// Splits `v` at every occurrence of `sep`.
pub fn split_byte_vec(v: &[u8], sep: u8) -> (out: Vec<Vec<u8>>)
    ensures
        out.deep_view() == split_byte(v@, sep),
{
    let ghost p = eq_byte(sep);
    let mut out: Vec<Vec<u8>> = Vec::new();
    let mut cur: Vec<u8> = Vec::new();
    let mut i: usize = 0;
    proof {
        assert(v@.take(0) =~= Seq::<u8>::empty());
        assert(split_when(v@.take(0), p) =~~= out.deep_view().push(cur@));
    }
    while i < v.len()
        invariant
            i <= v.len(),
            p == eq_byte(sep),
            split_when(v@.take(i as int), p) == out.deep_view().push(cur@),
        decreases v.len() - i,
    {
        let ghost pre = v@.take(i as int);
        let ghost odeep = out.deep_view();
        let ghost ocur = cur@;
        proof {
            assert(v@.take(i + 1) =~= pre.push(v@[i as int]));
            assert(p(v@[i as int]) == (v@[i as int] == sep));
            lemma_split_when_push(pre, v@[i as int], p);
        }
        let b = v[i];
        if b == sep {
            out.push(cur);
            cur = Vec::new();
            proof {
                assert(out.deep_view() =~~= odeep.push(ocur));
                assert(split_when(v@.take(i + 1), p) =~~= out.deep_view().push(cur@));
            }
        } else {
            cur.push(b);
            proof {
                assert(odeep.push(ocur).last() == ocur);
                assert(odeep.push(ocur).update(odeep.len() as int, ocur.push(b)) =~~= odeep.push(
                    cur@,
                ));
                assert(split_when(v@.take(i + 1), p) =~~= out.deep_view().push(cur@));
            }
        }
        i += 1;
    }
    proof {
        assert(v@.take(v@.len() as int) =~= v@);
    }
    let ghost odeep = out.deep_view();
    out.push(cur);
    proof {
        assert(out.deep_view() =~~= odeep.push(cur@));
    }
    out
}

pub open spec fn space_fn() -> spec_fn(u8) -> bool {
    |b: u8| is_space(b)
}

/// Splits `v` at every whitespace byte; empty pieces are kept.
pub fn split_space_vec(v: &[u8]) -> (out: Vec<Vec<u8>>)
    ensures
        out.deep_view() == split_when(v@, space_fn()),
{
    let ghost p = space_fn();
    let mut out: Vec<Vec<u8>> = Vec::new();
    let mut cur: Vec<u8> = Vec::new();
    let mut i: usize = 0;
    proof {
        assert(v@.take(0) =~= Seq::<u8>::empty());
        assert(split_when(v@.take(0), p) =~~= out.deep_view().push(cur@));
    }
    while i < v.len()
        invariant
            i <= v.len(),
            p == space_fn(),
            split_when(v@.take(i as int), p) == out.deep_view().push(cur@),
        decreases v.len() - i,
    {
        let ghost pre = v@.take(i as int);
        let ghost odeep = out.deep_view();
        let ghost ocur = cur@;
        proof {
            assert(v@.take(i + 1) =~= pre.push(v@[i as int]));
            assert(p(v@[i as int]) == is_space(v@[i as int]));
            lemma_split_when_push(pre, v@[i as int], p);
        }
        let b = v[i];
        if is_space_b(b) {
            out.push(cur);
            cur = Vec::new();
            proof {
                assert(out.deep_view() =~~= odeep.push(ocur));
                assert(split_when(v@.take(i + 1), p) =~~= out.deep_view().push(cur@));
            }
        } else {
            cur.push(b);
            proof {
                assert(odeep.push(ocur).last() == ocur);
                assert(odeep.push(ocur).update(odeep.len() as int, ocur.push(b)) =~~= odeep.push(
                    cur@,
                ));
                assert(split_when(v@.take(i + 1), p) =~~= out.deep_view().push(cur@));
            }
        }
        i += 1;
    }
    proof {
        assert(v@.take(v@.len() as int) =~= v@);
    }
    let ghost odeep = out.deep_view();
    out.push(cur);
    proof {
        assert(out.deep_view() =~~= odeep.push(cur@));
    }
    out
}

/// A fresh copy of a byte vector.
pub fn copy_vec(v: &Vec<u8>) -> (r: Vec<u8>)
    ensures
        r@ == v@,
{
    let mut r: Vec<u8> = Vec::new();
    let mut i: usize = 0;
    while i < v.len()
        invariant
            i <= v.len(),
            r@ == v@.take(i as int),
        decreases v.len() - i,
    {
        r.push(v[i]);
        proof {
            assert(v@.take(i + 1) =~= v@.take(i as int).push(v@[i as int]));
        }
        i += 1;
    }
    proof {
        assert(v@.take(v@.len() as int) =~= v@);
    }
    r
}

pub fn bytes_eq(a: &Vec<u8>, b: &Vec<u8>) -> (r: bool)
    ensures
        r == (a@ == b@),
{
    if a.len() != b.len() {
        proof {
            assert(a@.len() != b@.len());
        }
        return false;
    }
    let mut i: usize = 0;
    while i < a.len()
        invariant
            i <= a.len(),
            a@.len() == b@.len(),
            forall|j: int| 0 <= j < i ==> a@[j] == b@[j],
        decreases a.len() - i,
    {
        if a[i] != b[i] {
            return false;
        }
        i += 1;
    }
    proof {
        assert(a@ =~= b@);
    }
    true
}

pub open spec fn chomp_cr(s: Seq<u8>) -> Seq<u8> {
    if s.len() > 0 && s.last() == 13 {
        s.drop_last()
    } else {
        s
    }
}

/// The lines of `s`, as `str::lines` yields them: pieces between newline
/// bytes, a carriage return stripped from the end of every piece that was
/// followed by a newline, and one trailing empty piece dropped.
pub open spec fn lines_of(s: Seq<u8>) -> Seq<Seq<u8>> {
    if s.len() == 0 {
        Seq::empty()
    } else {
        let p = split_byte(s, 10);
        let n = if p.last().len() == 0 {
            (p.len() - 1) as nat
        } else {
            p.len()
        };
        Seq::new(n, |i: int| if i < p.len() - 1 { chomp_cr(p[i]) } else { p[i] })
    }
}

/// Splits `v` into lines as `str::lines` does.
pub fn lines_vec(v: &[u8]) -> (out: Vec<Vec<u8>>)
    ensures
        out.deep_view() == lines_of(v@),
{
    let mut out: Vec<Vec<u8>> = Vec::new();
    if v.len() == 0 {
        proof {
            assert(out.deep_view() =~~= lines_of(v@));
        }
        return out;
    }
    let pieces = split_byte_vec(v, 10);
    let ghost p = split_byte(v@, 10);
    proof {
        lemma_split_when_len(v@, eq_byte(10));
        assert(pieces@.len() == p.len());
    }
    let n = pieces.len();
    let mut i: usize = 0;
    while i < n - 1
        invariant
            i <= n - 1,
            n == pieces@.len(),
            n >= 1,
            pieces.deep_view() == p,
            p == split_byte(v@, 10),
            out.deep_view().len() == i,
            forall|j: int| 0 <= j < i ==> out.deep_view()[j] == chomp_cr(p[j]),
        decreases n - i,
    {
        let ghost odeep = out.deep_view();
        let mut piece = copy_vec(&pieces[i]);
        proof {
            assert(pieces@[i as int].deep_view() =~= pieces@[i as int]@);
            assert(piece@ == p[i as int]);
        }
        if piece.len() > 0 && piece[piece.len() - 1] == 13 {
            piece.pop();
        }
        proof {
            assert(piece@ == chomp_cr(p[i as int]));
        }
        out.push(piece);
        proof {
            assert(out.deep_view() =~~= odeep.push(piece@));
        }
        i += 1;
    }
    let last_len = pieces[n - 1].len();
    if last_len > 0 {
        let ghost odeep = out.deep_view();
        let piece = copy_vec(&pieces[n - 1]);
        proof {
            assert(pieces@[n - 1].deep_view() =~= pieces@[n - 1]@);
            assert(piece@ == p[n - 1]);
        }
        out.push(piece);
        proof {
            assert(out.deep_view() =~~= odeep.push(piece@));
        }
    }
    proof {
        assert(pieces@[n - 1].deep_view() =~= pieces@[n - 1]@);
        assert(p.last().len() == 0 <==> last_len == 0);
        assert(out.deep_view() =~~= lines_of(v@));
    }
    out
}

pub open spec fn nonempty_piece() -> spec_fn(Seq<u8>) -> bool {
    |t: Seq<u8>| t.len() > 0
}

/// The whitespace-separated tokens of `s`, as `str::split_whitespace`
/// yields them.
pub open spec fn tokens_of(s: Seq<u8>) -> Seq<Seq<u8>> {
    split_when(s, space_fn()).filter(nonempty_piece())
}

/// Splits `v` into whitespace-separated tokens.
pub fn tokens_vec(v: &[u8]) -> (out: Vec<Vec<u8>>)
    ensures
        out.deep_view() == tokens_of(v@),
{
    let pieces = split_space_vec(v);
    let ghost p = split_when(v@, space_fn());
    proof {
        assert(pieces@.len() == p.len());
    }
    let mut out: Vec<Vec<u8>> = Vec::new();
    let mut i: usize = 0;
    proof {
        reveal(Seq::filter);
        assert(p.take(0) =~= Seq::<Seq<u8>>::empty());
        assert(out.deep_view() =~~= p.take(0).filter(nonempty_piece()));
    }
    while i < pieces.len()
        invariant
            i <= pieces@.len(),
            pieces@.len() == p.len(),
            pieces.deep_view() == p,
            p == split_when(v@, space_fn()),
            out.deep_view() == p.take(i as int).filter(nonempty_piece()),
        decreases pieces.len() - i,
    {
        proof {
            reveal(Seq::filter);
            assert(p.take(i + 1).drop_last() =~= p.take(i as int));
            assert(p.take(i + 1).filter(nonempty_piece()) == if nonempty_piece()(p[i as int]) {
                p.take(i as int).filter(nonempty_piece()).push(p[i as int])
            } else {
                p.take(i as int).filter(nonempty_piece())
            });
            assert(p.take(i + 1).last() == p[i as int]);
            assert(nonempty_piece()(p[i as int]) == (p[i as int].len() > 0));
            assert(pieces@[i as int].deep_view() =~= pieces@[i as int]@);
        }
        let ghost odeep = out.deep_view();
        if pieces[i].len() > 0 {
            let piece = copy_vec(&pieces[i]);
            out.push(piece);
            proof {
                assert(out.deep_view() =~~= odeep.push(p[i as int]));
            }
        }
        i += 1;
    }
    proof {
        assert(p.take(p.len() as int) =~= p);
    }
    out
}

// ---------- trimming ----------

pub open spec fn trim_front(s: Seq<u8>) -> Seq<u8>
    decreases s.len(),
{
    if s.len() > 0 && is_space(s[0]) {
        trim_front(s.drop_first())
    } else {
        s
    }
}

pub open spec fn trim_back(s: Seq<u8>) -> Seq<u8>
    decreases s.len(),
{
    if s.len() > 0 && is_space(s.last()) {
        trim_back(s.drop_last())
    } else {
        s
    }
}

/// `s` without leading and trailing whitespace, as `str::trim` leaves it.
pub open spec fn trim_of(s: Seq<u8>) -> Seq<u8> {
    trim_back(trim_front(s))
}

pub proof fn lemma_trim_front_skip(s: Seq<u8>, k: int)
    requires
        0 <= k <= s.len(),
        forall|j: int| 0 <= j < k ==> is_space(#[trigger] s[j]),
        k < s.len() ==> !is_space(s[k]),
    ensures
        trim_front(s) == s.skip(k),
    decreases k,
{
    if k == 0 {
        assert(trim_front(s) =~= s.skip(0));
    } else {
        assert(is_space(s[0]));
        assert(s.drop_first() =~= s.skip(1));
        lemma_trim_front_skip(s.skip(1), k - 1);
        assert(s.skip(1).skip(k - 1) =~= s.skip(k));
    }
}

pub proof fn lemma_trim_back_take(s: Seq<u8>, k: int)
    requires
        0 <= k <= s.len(),
        forall|j: int| k <= j < s.len() ==> is_space(#[trigger] s[j]),
        k > 0 ==> !is_space(s[k - 1]),
    ensures
        trim_back(s) == s.take(k),
    decreases s.len(),
{
    if k == s.len() {
        assert(trim_back(s) =~= s.take(k));
    } else {
        assert(is_space(s.last()));
        assert(s.drop_last() =~= s.take(s.len() - 1));
        lemma_trim_back_take(s.take(s.len() - 1), k);
        assert(s.take(s.len() - 1).take(k) =~= s.take(k));
    }
}

/// `v` without leading and trailing whitespace.
pub fn trim_vec(v: &[u8]) -> (r: Vec<u8>)
    ensures
        r@ == trim_of(v@),
{
    let mut lo: usize = 0;
    while lo < v.len() && is_space_b(v[lo])
        invariant
            lo <= v.len(),
            forall|j: int| 0 <= j < lo ==> is_space(#[trigger] v@[j]),
        decreases v.len() - lo,
    {
        lo += 1;
    }
    if lo == v.len() {
        proof {
            lemma_trim_front_skip(v@, lo as int);
            assert(v@.skip(lo as int) =~= Seq::<u8>::empty());
            assert(trim_back(Seq::<u8>::empty()) =~= Seq::<u8>::empty());
        }
        let r: Vec<u8> = Vec::new();
        proof {
            assert(r@ =~= trim_of(v@));
        }
        return r;
    }
    let mut hi: usize = v.len();
    while is_space_b(v[hi - 1])
        invariant
            lo < hi <= v.len(),
            lo < v.len(),
            !is_space(v@[lo as int]),
            forall|j: int| hi <= j < v.len() ==> is_space(#[trigger] v@[j]),
        decreases hi,
    {
        hi -= 1;
    }
    proof {
        lemma_trim_front_skip(v@, lo as int);
        lemma_trim_back_take(v@.skip(lo as int), hi - lo as int);
        assert(v@.skip(lo as int).take(hi - lo as int) =~= v@.subrange(lo as int, hi as int));
    }
    let mut r: Vec<u8> = Vec::new();
    let mut j: usize = lo;
    while j < hi
        invariant
            lo <= j <= hi <= v.len(),
            r@ == v@.subrange(lo as int, j as int),
        decreases hi - j,
    {
        r.push(v[j]);
        proof {
            assert(v@.subrange(lo as int, j + 1) =~= v@.subrange(lo as int, j as int).push(
                v@[j as int],
            ));
        }
        j += 1;
    }
    r
}

// ---------- searching ----------

/// Index of the first occurrence of `b` in `s`, or `s.len()` when absent.
pub open spec fn find_at(s: Seq<u8>, b: u8) -> int
    decreases s.len(),
{
    if s.len() == 0 {
        0
    } else if s[0] == b {
        0
    } else {
        1 + find_at(s.drop_first(), b)
    }
}

pub proof fn lemma_find_at_is(s: Seq<u8>, b: u8, k: int)
    requires
        0 <= k <= s.len(),
        forall|j: int| 0 <= j < k ==> s[j] != b,
        k < s.len() ==> s[k] == b,
    ensures
        find_at(s, b) == k,
    decreases s.len(),
{
    if s.len() == 0 {
    } else if s[0] == b {
        assert(k == 0) by {
            if k > 0 {
                assert(s[0] != b);
            }
        }
    } else {
        assert(k > 0) by {
            if k == 0 {
                assert(s[0] == b);
            }
        }
        lemma_find_at_is(s.drop_first(), b, k - 1);
    }
}

/// Index of the first occurrence of `b` in `v`, or `v.len()` when absent.
pub fn find_byte(v: &Vec<u8>, b: u8) -> (r: usize)
    ensures
        r == find_at(v@, b),
        r <= v@.len(),
        forall|j: int| 0 <= j < r ==> v@[j] != b,
        r < v@.len() ==> v@[r as int] == b,
{
    let mut i: usize = 0;
    while i < v.len()
        invariant
            i <= v.len(),
            forall|j: int| 0 <= j < i ==> v@[j] != b,
        decreases v.len() - i,
    {
        if v[i] == b {
            proof {
                lemma_find_at_is(v@, b, i as int);
            }
            return i;
        }
        i += 1;
    }
    proof {
        lemma_find_at_is(v@, b, v@.len() as int);
    }
    i
}

/// The bytes of `v` strictly before the first occurrence of `b`.
pub fn before_byte(v: &Vec<u8>, b: u8) -> (r: Vec<u8>)
    ensures
        r@ == v@.take(find_at(v@, b)),
{
    let k = find_byte(v, b);
    let mut r: Vec<u8> = Vec::new();
    let mut j: usize = 0;
    while j < k
        invariant
            j <= k <= v@.len(),
            r@ == v@.take(j as int),
        decreases k - j,
    {
        r.push(v[j]);
        proof {
            assert(v@.take(j + 1) =~= v@.take(j as int).push(v@[j as int]));
        }
        j += 1;
    }
    r
}

/// The bytes of `v` strictly after the first occurrence of `b`; everything
/// after `v.len()` when `b` is absent, that is, nothing.
pub fn after_byte(v: &Vec<u8>, b: u8) -> (r: Vec<u8>)
    ensures
        r@ == v@.skip(if find_at(v@, b) < v@.len() {
            find_at(v@, b) + 1
        } else {
            v@.len() as int
        }),
{
    let k = find_byte(v, b);
    let start = if k < v.len() {
        k + 1
    } else {
        k
    };
    let mut r: Vec<u8> = Vec::new();
    let mut j: usize = start;
    while j < v.len()
        invariant
            start <= j <= v@.len(),
            r@ == v@.subrange(start as int, j as int),
        decreases v.len() - j,
    {
        r.push(v[j]);
        proof {
            assert(v@.subrange(start as int, j + 1) =~= v@.subrange(start as int, j as int).push(
                v@[j as int],
            ));
        }
        j += 1;
    }
    proof {
        assert(r@ =~= v@.skip(start as int));
    }
    r
}

// ---------- numbers ----------

/// The value of a run of decimal digits, most significant first.
pub open spec fn num_of(s: Seq<u8>) -> int
    decreases s.len(),
{
    if s.len() == 0 {
        0
    } else {
        num_of(s.drop_last()) * 10 + (s.last() - 48)
    }
}

pub proof fn lemma_num_of_nonneg(s: Seq<u8>)
    requires
        forall|i: int| 0 <= i < s.len() ==> is_digit(#[trigger] s[i]),
    ensures
        num_of(s) >= 0,
    decreases s.len(),
{
    if s.len() > 0 {
        lemma_num_of_nonneg(s.drop_last());
    }
}

pub proof fn lemma_num_of_prefix(s: Seq<u8>, i: int)
    requires
        forall|j: int| 0 <= j < s.len() ==> is_digit(#[trigger] s[j]),
        0 <= i <= s.len(),
    ensures
        num_of(s.take(i)) <= num_of(s),
        num_of(s.take(i)) >= 0,
    decreases s.len() - i,
{
    lemma_num_of_nonneg(s.take(i));
    if i == s.len() {
        assert(s.take(i) =~= s);
    } else {
        assert(s.take(i + 1).drop_last() =~= s.take(i));
        assert(s.take(i + 1).last() == s[i]);
        lemma_num_of_prefix(s, i + 1);
    }
}

/// Reads a run of decimal digits as a `u64`.
pub fn parse_u64(v: &Vec<u8>) -> (r: u64)
    requires
        is_digits(v@),
        num_of(v@) <= u64::MAX,
    ensures
        r == num_of(v@),
{
    let mut acc: u64 = 0;
    let mut i: usize = 0;
    while i < v.len()
        invariant
            i <= v.len(),
            is_digits(v@),
            num_of(v@) <= u64::MAX,
            acc == num_of(v@.take(i as int)),
        decreases v.len() - i,
    {
        proof {
            assert(v@.take(i + 1).drop_last() =~= v@.take(i as int));
            assert(v@.take(i + 1).last() == v@[i as int]);
            lemma_num_of_prefix(v@, i + 1);
        }
        let d = v[i] - 48;
        acc = acc * 10 + (d as u64);
        i += 1;
    }
    proof {
        assert(v@.take(v@.len() as int) =~= v@);
    }
    acc
}

/// The value of an optionally `-`-signed run of decimal digits.
pub open spec fn int_of(s: Seq<u8>) -> int {
    if s.len() > 0 && s[0] == 45 {
        -num_of(s.drop_first())
    } else {
        num_of(s)
    }
}

/// True when `s` is a decimal integer with an optional leading minus sign.
pub open spec fn is_int_str(s: Seq<u8>) -> bool {
    is_digits(s) || (s.len() > 1 && s[0] == 45 && is_digits(s.drop_first()))
}

/// Reads an optionally signed run of decimal digits as an `i64`.
pub fn parse_i64(v: &Vec<u8>) -> (r: i64)
    requires
        is_int_str(v@),
        i64::MIN <= int_of(v@) <= i64::MAX,
    ensures
        r == int_of(v@),
{
    if v[0] == 45 {
        let mut mag: Vec<u8> = Vec::new();
        let mut j: usize = 1;
        while j < v.len()
            invariant
                1 <= j <= v@.len(),
                mag@ == v@.subrange(1, j as int),
            decreases v.len() - j,
        {
            mag.push(v[j]);
            proof {
                assert(v@.subrange(1, j + 1) =~= v@.subrange(1, j as int).push(v@[j as int]));
            }
            j += 1;
        }
        proof {
            assert(mag@ =~= v@.drop_first());
            assert(num_of(mag@) <= u64::MAX);
        }
        let m = parse_u64(&mag);
        if m >= 9223372036854775808u64 {
            proof {
                assert(m == 9223372036854775808u64);
            }
            i64::MIN
        } else {
            -(m as i64)
        }
    } else {
        proof {
            assert(is_digits(v@));
            lemma_num_of_nonneg(v@);
        }
        let m = parse_u64(v);
        m as i64
    }
}

pub open spec fn nonblank_fn() -> spec_fn(Seq<u8>) -> bool {
    |s: Seq<u8>| trim_of(s).len() > 0
}

/// The lines of `s` that are not blank.
pub open spec fn content_lines(s: Seq<u8>) -> Seq<Seq<u8>> {
    lines_of(s).filter(nonblank_fn())
}

/// Splits `v` into lines and keeps those that are not blank.
pub fn content_lines_vec(v: &[u8]) -> (out: Vec<Vec<u8>>)
    ensures
        out.deep_view() == content_lines(v@),
{
    let lines = lines_vec(v);
    let ghost p = lines_of(v@);
    let mut out: Vec<Vec<u8>> = Vec::new();
    let mut i: usize = 0;
    proof {
        reveal(Seq::filter);
        assert(p.take(0) =~= Seq::<Seq<u8>>::empty());
        assert(out.deep_view() =~~= p.take(0).filter(nonblank_fn()));
    }
    while i < lines.len()
        invariant
            i <= lines@.len(),
            lines@.len() == p.len(),
            lines.deep_view() == p,
            out.deep_view() == p.take(i as int).filter(nonblank_fn()),
        decreases lines.len() - i,
    {
        proof {
            reveal(Seq::filter);
            assert(p.take(i + 1).drop_last() =~= p.take(i as int));
            assert(p.take(i + 1).last() == p[i as int]);
            assert(lines@[i as int].deep_view() =~= lines@[i as int]@);
        }
        let ghost odeep = out.deep_view();
        let t = trim_vec(lines[i].as_slice());
        if t.len() > 0 {
            let piece = copy_vec(&lines[i]);
            out.push(piece);
            proof {
                assert(out.deep_view() =~~= odeep.push(p[i as int]));
            }
        }
        i += 1;
    }
    proof {
        assert(p.take(p.len() as int) =~= p);
    }
    out
}

} // verus!
