//! Small arithmetic helpers shared by the day modules: summing a function
//! over a sequence, and number-theoretic spec functions.
use vstd::prelude::*;

verus! {

/// Sum of `f` over the elements of `s`.
pub open spec fn sum_map<A>(s: Seq<A>, f: spec_fn(A) -> int) -> int
    decreases s.len(),
{
    if s.len() == 0 {
        0
    } else {
        sum_map(s.drop_last(), f) + f(s.last())
    }
}

pub proof fn lemma_sum_map_step<A>(s: Seq<A>, f: spec_fn(A) -> int, i: int)
    requires
        0 <= i < s.len(),
    ensures
        sum_map(s.take(i + 1), f) == sum_map(s.take(i), f) + f(s[i]),
{
    assert(s.take(i + 1).drop_last() =~= s.take(i));
    assert(s.take(i + 1).last() == s[i]);
}

pub proof fn lemma_sum_map_nonneg<A>(s: Seq<A>, f: spec_fn(A) -> int)
    requires
        forall|j: int| 0 <= j < s.len() ==> f(#[trigger] s[j]) >= 0,
    ensures
        sum_map(s, f) >= 0,
    decreases s.len(),
{
    if s.len() > 0 {
        assert(forall|j: int|
            0 <= j < s.len() - 1 ==> f(#[trigger] s.drop_last()[j]) == f(s[j]));
        lemma_sum_map_nonneg(s.drop_last(), f);
    }
}

pub proof fn lemma_sum_map_prefix<A>(s: Seq<A>, f: spec_fn(A) -> int, i: int)
    requires
        forall|j: int| 0 <= j < s.len() ==> f(#[trigger] s[j]) >= 0,
        0 <= i <= s.len(),
    ensures
        0 <= sum_map(s.take(i), f) <= sum_map(s, f),
    decreases s.len() - i,
{
    if i == s.len() {
        assert(s.take(i) =~= s);
        lemma_sum_map_nonneg(s, f);
    } else {
        lemma_sum_map_step(s, f, i);
        assert(forall|j: int| 0 <= j < i ==> f(#[trigger] s.take(i)[j]) == f(s[j]));
        lemma_sum_map_nonneg(s.take(i), f);
        lemma_sum_map_prefix(s, f, i + 1);
    }
}

/// Greatest common divisor, by Euclid's rule.
pub open spec fn spec_gcd(a: int, b: int) -> int
    decreases b,
{
    if b <= 0 {
        a
    } else {
        spec_gcd(b, a % b)
    }
}

/// Least common multiple of two positive numbers.
pub open spec fn spec_lcm(a: int, b: int) -> int {
    a * (b / spec_gcd(a, b))
}

/// Two to the given power.
pub open spec fn pow2(e: int) -> int
    decreases e,
{
    if e <= 0 {
        1
    } else {
        2 * pow2(e - 1)
    }
}

pub proof fn lemma_sum_map_member<A>(s: Seq<A>, f: spec_fn(A) -> int, i: int)
    requires
        forall|j: int| 0 <= j < s.len() ==> f(#[trigger] s[j]) >= 0,
        0 <= i < s.len(),
    ensures
        f(s[i]) <= sum_map(s, f),
{
    lemma_sum_map_step(s, f, i);
    lemma_sum_map_prefix(s, f, i);
    lemma_sum_map_prefix(s, f, i + 1);
}

pub proof fn lemma_pow2_pos(e: int)
    ensures
        pow2(e) >= 1,
    decreases e,
{
    if e > 0 {
        lemma_pow2_pos(e - 1);
    }
}

pub proof fn lemma_pow2_mono(a: int, b: int)
    requires
        a <= b,
    ensures
        pow2(a) <= pow2(b),
    decreases b,
{
    if a < b && b > 0 {
        lemma_pow2_mono(a, b - 1);
        lemma_pow2_pos(b - 1);
    }
}

/// Product of `f` over the elements of `s`.
pub open spec fn prod_map<A>(s: Seq<A>, f: spec_fn(A) -> int) -> int
    decreases s.len(),
{
    if s.len() == 0 {
        1
    } else {
        prod_map(s.drop_last(), f) * f(s.last())
    }
}

pub proof fn lemma_prod_map_step<A>(s: Seq<A>, f: spec_fn(A) -> int, i: int)
    requires
        0 <= i < s.len(),
    ensures
        prod_map(s.take(i + 1), f) == prod_map(s.take(i), f) * f(s[i]),
{
    assert(s.take(i + 1).drop_last() =~= s.take(i));
    assert(s.take(i + 1).last() == s[i]);
}

pub proof fn lemma_prod_map_nonneg<A>(s: Seq<A>, f: spec_fn(A) -> int)
    requires
        forall|j: int| 0 <= j < s.len() ==> f(#[trigger] s[j]) >= 0,
    ensures
        prod_map(s, f) >= 0,
    decreases s.len(),
{
    if s.len() > 0 {
        assert(forall|j: int|
            0 <= j < s.len() - 1 ==> f(#[trigger] s.drop_last()[j]) == f(s[j]));
        lemma_prod_map_nonneg(s.drop_last(), f);
        let p = prod_map(s.drop_last(), f);
        let v = f(s.last());
        assert(p * v >= 0) by (nonlinear_arith)
            requires
                p >= 0,
                v >= 0,
        ;
    }
}

} // verus!
