//! First puzzle: every line hides a calibration value, ten times its first
//! digit plus its last digit; the answer is the sum over all lines. The
//! second part also accepts the digits spelled out as English words.
use crate::arith::{lemma_sum_map_prefix, lemma_sum_map_step, sum_map};
use crate::text::{has_digit, is_digit, is_digit_b, lines_of, lines_vec};
use vstd::prelude::*;
use vstd::string::StringSliceAdditionalSpecFns;

verus! {

/// Value of the first decimal digit byte of `s`, zero when there is none.
pub open spec fn first_digit(s: Seq<u8>) -> int
    decreases s.len(),
{
    if s.len() == 0 {
        0
    } else if is_digit(s[0]) {
        s[0] - 48
    } else {
        first_digit(s.drop_first())
    }
}

/// Value of the last decimal digit byte of `s`, zero when there is none.
pub open spec fn last_digit(s: Seq<u8>) -> int
    decreases s.len(),
{
    if s.len() == 0 {
        0
    } else if is_digit(s.last()) {
        s.last() - 48
    } else {
        last_digit(s.drop_last())
    }
}

pub open spec fn line_value(s: Seq<u8>) -> int {
    10 * first_digit(s) + last_digit(s)
}

pub open spec fn sum_line_values(ls: Seq<Seq<u8>>) -> int
    decreases ls.len(),
{
    if ls.len() == 0 {
        0
    } else {
        sum_line_values(ls.drop_last()) + line_value(ls.last())
    }
}

proof fn lemma_first_digit_at(s: Seq<u8>, k: int)
    requires
        0 <= k < s.len(),
        is_digit(s[k]),
        forall|j: int| 0 <= j < k ==> !is_digit(#[trigger] s[j]),
    ensures
        first_digit(s) == s[k] - 48,
    decreases k,
{
    if k == 0 {
    } else {
        assert(!is_digit(s[0]));
        lemma_first_digit_at(s.drop_first(), k - 1);
    }
}

proof fn lemma_last_digit_at(s: Seq<u8>, k: int)
    requires
        0 <= k < s.len(),
        is_digit(s[k]),
        forall|j: int| k < j < s.len() ==> !is_digit(#[trigger] s[j]),
    ensures
        last_digit(s) == s[k] - 48,
    decreases s.len(),
{
    if k == s.len() - 1 {
    } else {
        assert(!is_digit(s.last()));
        lemma_last_digit_at(s.drop_last(), k);
    }
}

proof fn lemma_digit_bounds(s: Seq<u8>)
    ensures
        0 <= first_digit(s) <= 9,
        0 <= last_digit(s) <= 9,
        0 <= line_value(s) <= 99,
    decreases s.len(),
{
    if s.len() > 0 {
        lemma_digit_bounds(s.drop_first());
        lemma_digit_bounds(s.drop_last());
    }
}

proof fn lemma_sum_step(ls: Seq<Seq<u8>>, i: int)
    requires
        0 <= i < ls.len(),
    ensures
        sum_line_values(ls.take(i + 1)) == sum_line_values(ls.take(i)) + line_value(ls[i]),
{
    assert(ls.take(i + 1).drop_last() =~= ls.take(i));
    assert(ls.take(i + 1).last() == ls[i]);
}

proof fn lemma_sum_nonneg(ls: Seq<Seq<u8>>)
    ensures
        sum_line_values(ls) >= 0,
    decreases ls.len(),
{
    if ls.len() > 0 {
        lemma_digit_bounds(ls.last());
        lemma_sum_nonneg(ls.drop_last());
    }
}

proof fn lemma_sum_prefix(ls: Seq<Seq<u8>>, i: int)
    requires
        0 <= i <= ls.len(),
    ensures
        0 <= sum_line_values(ls.take(i)) <= sum_line_values(ls),
    decreases ls.len() - i,
{
    if i == ls.len() {
        assert(ls.take(i) =~= ls);
        lemma_sum_nonneg(ls);
    } else {
        lemma_sum_step(ls, i);
        lemma_digit_bounds(ls[i]);
        lemma_sum_nonneg(ls.take(i));
        lemma_sum_prefix(ls, i + 1);
    }
}

fn first_digit_exec(v: &Vec<u8>) -> (r: u8)
    requires
        has_digit(v@),
    ensures
        r == first_digit(v@),
        0 <= r <= 9,
{
    let mut i: usize = 0;
    while i < v.len()
        invariant
            i <= v@.len(),
            has_digit(v@),
            forall|j: int| 0 <= j < i ==> !is_digit(#[trigger] v@[j]),
        decreases v.len() - i,
    {
        if is_digit_b(v[i]) {
            proof {
                lemma_first_digit_at(v@, i as int);
            }
            return v[i] - 48;
        }
        i += 1;
    }
    proof {
        assert(false);
    }
    0
}

fn last_digit_exec(v: &Vec<u8>) -> (r: u8)
    requires
        has_digit(v@),
    ensures
        r == last_digit(v@),
        0 <= r <= 9,
{
    let mut i: usize = v.len();
    while i > 0
        invariant
            i <= v@.len(),
            has_digit(v@),
            forall|j: int| i <= j < v@.len() ==> !is_digit(#[trigger] v@[j]),
        decreases i,
    {
        if is_digit_b(v[i - 1]) {
            proof {
                lemma_last_digit_at(v@, i - 1);
            }
            return v[i - 1] - 48;
        }
        i -= 1;
    }
    proof {
        assert(false);
    }
    0
}

/// Sum over all lines of ten times the first digit plus the last digit.
pub fn part_one(input: &str) -> (r: u32)
    requires
        forall|i: int|
            0 <= i < lines_of(input.spec_bytes()).len() ==> has_digit(
                #[trigger] lines_of(input.spec_bytes())[i],
            ),
        sum_line_values(lines_of(input.spec_bytes())) <= u32::MAX,
    ensures
        r == sum_line_values(lines_of(input.spec_bytes())),
{
    let ghost ls = lines_of(input.spec_bytes());
    let lines = lines_vec(input.as_bytes());
    let mut sum: u32 = 0;
    let mut i: usize = 0;
    proof {
        assert(ls.take(0) =~= Seq::<Seq<u8>>::empty());
        assert(lines@.len() == ls.len());
    }
    while i < lines.len()
        invariant
            i <= lines@.len(),
            lines@.len() == ls.len(),
            lines.deep_view() == ls,
            forall|j: int| 0 <= j < ls.len() ==> has_digit(#[trigger] ls[j]),
            sum_line_values(ls) <= u32::MAX,
            sum == sum_line_values(ls.take(i as int)),
        decreases lines.len() - i,
    {
        proof {
            assert(lines@[i as int].deep_view() =~= lines@[i as int]@);
            assert(lines@[i as int]@ == ls[i as int]);
            lemma_sum_step(ls, i as int);
            lemma_sum_prefix(ls, i + 1);
            lemma_digit_bounds(ls[i as int]);
        }
        let f = first_digit_exec(&lines[i]);
        let l = last_digit_exec(&lines[i]);
        sum = sum + 10 * (f as u32) + (l as u32);
        i += 1;
    }
    proof {
        assert(ls.take(ls.len() as int) =~= ls);
    }
    sum
}

/// True when `s` begins with the word `w`.
pub open spec fn word_at(s: Seq<u8>, w: Seq<u8>) -> bool {
    w.len() <= s.len() && s.take(w.len() as int) == w
}

pub open spec fn one_w() -> Seq<u8> {
    seq![111u8, 110, 101]
}

pub open spec fn two_w() -> Seq<u8> {
    seq![116u8, 119, 111]
}

pub open spec fn three_w() -> Seq<u8> {
    seq![116u8, 104, 114, 101, 101]
}

pub open spec fn four_w() -> Seq<u8> {
    seq![102u8, 111, 117, 114]
}

pub open spec fn five_w() -> Seq<u8> {
    seq![102u8, 105, 118, 101]
}

pub open spec fn six_w() -> Seq<u8> {
    seq![115u8, 105, 120]
}

pub open spec fn seven_w() -> Seq<u8> {
    seq![115u8, 101, 118, 101, 110]
}

pub open spec fn eight_w() -> Seq<u8> {
    seq![101u8, 105, 103, 104, 116]
}

pub open spec fn nine_w() -> Seq<u8> {
    seq![110u8, 105, 110, 101]
}

/// True when `s` begins with a digit byte or a spelled-out digit word.
pub open spec fn has_spelled_digit(s: Seq<u8>) -> bool {
    (s.len() > 0 && is_digit(s[0])) || word_at(s, one_w()) || word_at(s, two_w()) || word_at(
        s,
        three_w(),
    ) || word_at(s, four_w()) || word_at(s, five_w()) || word_at(s, six_w()) || word_at(
        s,
        seven_w(),
    ) || word_at(s, eight_w()) || word_at(s, nine_w())
}

/// The digit that `s` begins with, written as a byte or spelled out.
pub open spec fn spelled_digit(s: Seq<u8>) -> int {
    if s.len() > 0 && is_digit(s[0]) {
        s[0] - 48
    } else if word_at(s, one_w()) {
        1
    } else if word_at(s, two_w()) {
        2
    } else if word_at(s, three_w()) {
        3
    } else if word_at(s, four_w()) {
        4
    } else if word_at(s, five_w()) {
        5
    } else if word_at(s, six_w()) {
        6
    } else if word_at(s, seven_w()) {
        7
    } else if word_at(s, eight_w()) {
        8
    } else if word_at(s, nine_w()) {
        9
    } else {
        0
    }
}

/// The first digit readable at or after position `i`, zero when none is.
pub open spec fn first_spelled(s: Seq<u8>, i: int) -> int
    decreases s.len() - i,
{
    if i < 0 || i >= s.len() {
        0
    } else if has_spelled_digit(s.skip(i)) {
        spelled_digit(s.skip(i))
    } else {
        first_spelled(s, i + 1)
    }
}

/// The last digit readable at or before position `i`, zero when none is.
pub open spec fn last_spelled(s: Seq<u8>, i: int) -> int
    decreases i + 1,
{
    if i < 0 || i >= s.len() {
        0
    } else if has_spelled_digit(s.skip(i)) {
        spelled_digit(s.skip(i))
    } else {
        last_spelled(s, i - 1)
    }
}

pub open spec fn has_any_spelled(s: Seq<u8>) -> bool {
    exists|i: int| 0 <= i < s.len() && has_spelled_digit(s.skip(i))
}

pub open spec fn line_value_spelled(s: Seq<u8>) -> int {
    10 * first_spelled(s, 0) + last_spelled(s, s.len() - 1)
}

pub open spec fn spelled_value_fn() -> spec_fn(Seq<u8>) -> int {
    |s: Seq<u8>| line_value_spelled(s)
}

proof fn lemma_spelled_digit_bounds(s: Seq<u8>)
    ensures
        0 <= spelled_digit(s) <= 9,
{
}

proof fn lemma_first_spelled_bounds(s: Seq<u8>, i: int)
    ensures
        0 <= first_spelled(s, i) <= 9,
    decreases s.len() - i,
{
    if i < 0 || i >= s.len() {
    } else if has_spelled_digit(s.skip(i)) {
    } else {
        lemma_first_spelled_bounds(s, i + 1);
    }
}

proof fn lemma_last_spelled_bounds(s: Seq<u8>, i: int)
    ensures
        0 <= last_spelled(s, i) <= 9,
    decreases i + 1,
{
    if i < 0 || i >= s.len() {
    } else if has_spelled_digit(s.skip(i)) {
    } else {
        lemma_last_spelled_bounds(s, i - 1);
    }
}

proof fn lemma_spelled_value_bounds(s: Seq<u8>)
    ensures
        0 <= line_value_spelled(s) <= 99,
{
    lemma_first_spelled_bounds(s, 0);
    lemma_last_spelled_bounds(s, s.len() - 1);
}

proof fn lemma_first_spelled_from(s: Seq<u8>, j: int, k: int)
    requires
        0 <= j <= k < s.len(),
        forall|m: int| j <= m < k ==> !has_spelled_digit(#[trigger] s.skip(m)),
        has_spelled_digit(s.skip(k)),
    ensures
        first_spelled(s, j) == spelled_digit(s.skip(k)),
    decreases k - j,
{
    if j < k {
        lemma_first_spelled_from(s, j + 1, k);
    }
}

proof fn lemma_last_spelled_from(s: Seq<u8>, j: int, k: int)
    requires
        0 <= k <= j < s.len(),
        forall|m: int| k < m <= j ==> !has_spelled_digit(#[trigger] s.skip(m)),
        has_spelled_digit(s.skip(k)),
    ensures
        last_spelled(s, j) == spelled_digit(s.skip(k)),
    decreases j - k,
{
    if k < j {
        lemma_last_spelled_from(s, j - 1, k);
    }
}

/// True when the suffix of `v` starting at `i` begins with the word `w`.
fn check_word(v: &Vec<u8>, i: usize, w: &Vec<u8>) -> (r: bool)
    requires
        i <= v@.len(),
    ensures
        r == word_at(v@.skip(i as int), w@),
{
    if v.len() - i < w.len() {
        return false;
    }
    let n = v.len();
    let mut j: usize = 0;
    while j < w.len()
        invariant
            j <= w@.len(),
            n == v@.len(),
            i + w@.len() <= n,
            forall|m: int| 0 <= m < j ==> v@[i + m] == w@[m],
        decreases w.len() - j,
    {
        if v[i + j] != w[j] {
            proof {
                assert(v@.skip(i as int)[j as int] != w@[j as int]);
            }
            return false;
        }
        j += 1;
    }
    proof {
        assert(v@.skip(i as int).take(w@.len() as int) =~= w@);
    }
    true
}

/// The digit, plain or spelled out, that begins at position `i` of `v`.
pub fn string_to_digit(v: &Vec<u8>, i: usize) -> (r: Option<u32>)
    requires
        i <= v@.len(),
    ensures
        match r {
            Some(d) => has_spelled_digit(v@.skip(i as int)) && d == spelled_digit(
                v@.skip(i as int),
            ) && d <= 9,
            None => !has_spelled_digit(v@.skip(i as int)),
        },
{
    let ghost s = v@.skip(i as int);
    if i < v.len() && is_digit_b(v[i]) {
        proof {
            assert(s[0] == v@[i as int]);
        }
        return Some(((v[i] - 48) as u32));
    }
    let one: Vec<u8> = vec![111u8, 110, 101];
    let two: Vec<u8> = vec![116u8, 119, 111];
    let three: Vec<u8> = vec![116u8, 104, 114, 101, 101];
    let four: Vec<u8> = vec![102u8, 111, 117, 114];
    let five: Vec<u8> = vec![102u8, 105, 118, 101];
    let six: Vec<u8> = vec![115u8, 105, 120];
    let seven: Vec<u8> = vec![115u8, 101, 118, 101, 110];
    let eight: Vec<u8> = vec![101u8, 105, 103, 104, 116];
    let nine: Vec<u8> = vec![110u8, 105, 110, 101];
    proof {
        assert(one@ =~= one_w());
        assert(two@ =~= two_w());
        assert(three@ =~= three_w());
        assert(four@ =~= four_w());
        assert(five@ =~= five_w());
        assert(six@ =~= six_w());
        assert(seven@ =~= seven_w());
        assert(eight@ =~= eight_w());
        assert(nine@ =~= nine_w());
    }
    if check_word(v, i, &one) {
        return Some(1);
    }
    if check_word(v, i, &two) {
        return Some(2);
    }
    if check_word(v, i, &three) {
        return Some(3);
    }
    if check_word(v, i, &four) {
        return Some(4);
    }
    if check_word(v, i, &five) {
        return Some(5);
    }
    if check_word(v, i, &six) {
        return Some(6);
    }
    if check_word(v, i, &seven) {
        return Some(7);
    }
    if check_word(v, i, &eight) {
        return Some(8);
    }
    if check_word(v, i, &nine) {
        return Some(9);
    }
    None
}

fn first_spelled_exec(v: &Vec<u8>) -> (r: u32)
    requires
        has_any_spelled(v@),
    ensures
        r == first_spelled(v@, 0),
        r <= 9,
{
    let mut i: usize = 0;
    while i < v.len()
        invariant
            i <= v@.len(),
            has_any_spelled(v@),
            forall|j: int| 0 <= j < i ==> !has_spelled_digit(#[trigger] v@.skip(j)),
        decreases v.len() - i,
    {
        if let Some(d) = string_to_digit(v, i) {
            proof {
                lemma_first_spelled_from(v@, 0, i as int);
            }
            return d;
        }
        i += 1;
    }
    proof {
        assert(false);
    }
    0
}

fn last_spelled_exec(v: &Vec<u8>) -> (r: u32)
    requires
        has_any_spelled(v@),
    ensures
        r == last_spelled(v@, v@.len() - 1),
        r <= 9,
{
    let mut i: usize = v.len();
    while i > 0
        invariant
            i <= v@.len(),
            has_any_spelled(v@),
            forall|j: int| i <= j < v@.len() ==> !has_spelled_digit(#[trigger] v@.skip(j)),
        decreases i,
    {
        if let Some(d) = string_to_digit(v, i - 1) {
            proof {
                lemma_last_spelled_from(v@, v@.len() - 1, i - 1);
            }
            return d;
        }
        i -= 1;
    }
    proof {
        assert(false);
    }
    0
}

/// Sum over all lines of ten times the first plain or spelled digit plus
/// the last one.
pub fn part_two(input: &str) -> (r: u32)
    requires
        forall|i: int|
            0 <= i < lines_of(input.spec_bytes()).len() ==> has_any_spelled(
                #[trigger] lines_of(input.spec_bytes())[i],
            ),
        sum_map(lines_of(input.spec_bytes()), spelled_value_fn()) <= u32::MAX,
    ensures
        r == sum_map(lines_of(input.spec_bytes()), spelled_value_fn()),
{
    let ghost ls = lines_of(input.spec_bytes());
    let ghost f = spelled_value_fn();
    let lines = lines_vec(input.as_bytes());
    let mut sum: u32 = 0;
    let mut i: usize = 0;
    proof {
        assert(ls.take(0) =~= Seq::<Seq<u8>>::empty());
        assert(lines@.len() == ls.len());
        assert forall|j: int| 0 <= j < ls.len() implies f(#[trigger] ls[j]) >= 0 by {
            lemma_spelled_value_bounds(ls[j]);
        }
    }
    while i < lines.len()
        invariant
            i <= lines@.len(),
            lines@.len() == ls.len(),
            lines.deep_view() == ls,
            f == spelled_value_fn(),
            forall|j: int| 0 <= j < ls.len() ==> has_any_spelled(#[trigger] ls[j]),
            forall|j: int| 0 <= j < ls.len() ==> f(#[trigger] ls[j]) >= 0,
            sum_map(ls, f) <= u32::MAX,
            sum == sum_map(ls.take(i as int), f),
        decreases lines.len() - i,
    {
        proof {
            assert(lines@[i as int].deep_view() =~= lines@[i as int]@);
            assert(lines@[i as int]@ == ls[i as int]);
            lemma_sum_map_step(ls, f, i as int);
            lemma_sum_map_prefix(ls, f, i + 1);
            lemma_spelled_value_bounds(ls[i as int]);
        }
        let fd = first_spelled_exec(&lines[i]);
        let ld = last_spelled_exec(&lines[i]);
        sum = sum + 10 * fd + ld;
        i += 1;
    }
    proof {
        assert(ls.take(ls.len() as int) =~= ls);
    }
    sum
}

} // verus!
