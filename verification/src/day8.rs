//! Eighth puzzle: a ghost map. The first line gives a cycle of left-right
//! instructions; the rest name nodes with their left and right neighbours.
//! Part one walks from `AAA` until `ZZZ`; part two walks from every node
//! ending in `A` until one ending in `Z` and combines the step counts by
//! least common multiple.
use crate::arith::{spec_gcd, spec_lcm};
use crate::text::{
    bytes_eq, content_lines, content_lines_vec, copy_vec, find_at, trim_of, trim_vec,
};
use vstd::prelude::*;
use vstd::string::StringSliceAdditionalSpecFns;

verus! {

/// The node name on a map line, before the equals sign.
pub open spec fn node_name(line: Seq<u8>) -> Seq<u8> {
    trim_of(line.take(find_at(line, 61)))
}

pub open spec fn adj_part(line: Seq<u8>) -> Seq<u8> {
    trim_of(line.skip(find_at(line, 61) + 1))
}

/// The left neighbour on a map line: inside the parenthesis, before the
/// comma.
pub open spec fn left_of(line: Seq<u8>) -> Seq<u8> {
    trim_of(adj_part(line).take(find_at(adj_part(line), 44)).drop_first())
}

/// The right neighbour on a map line: after the comma, before the closing
/// parenthesis.
pub open spec fn right_of(line: Seq<u8>) -> Seq<u8> {
    trim_of(adj_part(line).skip(find_at(adj_part(line), 44) + 1).drop_last())
}

/// A map line the solver can read without fault.
pub open spec fn wf_node_line(line: Seq<u8>) -> bool {
    let adj = adj_part(line);
    let l = adj.take(find_at(adj, 44));
    let r = adj.skip(find_at(adj, 44) + 1);
    &&& find_at(line, 61) < line.len()
    &&& find_at(adj, 44) < adj.len()
    &&& l.len() > 0 && l[0] == 40
    &&& r.len() > 0 && r.last() == 41
}

/// The node entries of the map, in reading order.
pub open spec fn entries_of(s: Seq<u8>) -> Seq<(Seq<u8>, Seq<u8>, Seq<u8>)> {
    let cl = content_lines(s);
    Seq::new(
        (cl.len() - 1) as nat,
        |i: int| (node_name(cl[i + 1]), left_of(cl[i + 1]), right_of(cl[i + 1])),
    )
}

pub open spec fn seq_of(s: Seq<u8>) -> Seq<u8> {
    content_lines(s)[0]
}

/// What the map holds for a name; a later line with the same name wins.
pub open spec fn lookup(es: Seq<(Seq<u8>, Seq<u8>, Seq<u8>)>, name: Seq<u8>) -> Option<
    (Seq<u8>, Seq<u8>),
>
    decreases es.len(),
{
    if es.len() == 0 {
        None
    } else if es.last().0 == name {
        Some((es.last().1, es.last().2))
    } else {
        lookup(es.drop_last(), name)
    }
}

/// The node reached after `k` steps from `start`, turning as the cycled
/// instruction line says.
pub open spec fn walk(
    es: Seq<(Seq<u8>, Seq<u8>, Seq<u8>)>,
    dirs: Seq<u8>,
    start: Seq<u8>,
    k: int,
) -> Seq<u8>
    decreases k,
{
    if k <= 0 {
        start
    } else {
        let prev = walk(es, dirs, start, k - 1);
        match lookup(es, prev) {
            Some(lr) => if dirs[(k - 1) % (dirs.len() as int)] == 82 {
                lr.1
            } else {
                lr.0
            },
            None => prev,
        }
    }
}

/// Every node passed in the first `k` steps is on the map.
pub open spec fn walk_ok(
    es: Seq<(Seq<u8>, Seq<u8>, Seq<u8>)>,
    dirs: Seq<u8>,
    start: Seq<u8>,
    k: int,
) -> bool {
    forall|m: int| 0 <= m < k ==> lookup(es, #[trigger] walk(es, dirs, start, m)) is Some
}

pub open spec fn aaa() -> Seq<u8> {
    seq![65u8, 65, 65]
}

pub open spec fn zzz() -> Seq<u8> {
    seq![90u8, 90, 90]
}

/// `n` is the first step count at which the walk from `start` satisfies
/// the goal: reaching `ZZZ` when `to_zzz`, else any name ending in `Z`.
pub open spec fn is_least_goal(
    es: Seq<(Seq<u8>, Seq<u8>, Seq<u8>)>,
    dirs: Seq<u8>,
    start: Seq<u8>,
    to_zzz: bool,
    n: int,
) -> bool {
    &&& 1 <= n
    &&& walk_ok(es, dirs, start, n)
    &&& goal_hit(walk(es, dirs, start, n), to_zzz)
    &&& forall|m: int| 1 <= m < n ==> !goal_hit(#[trigger] walk(es, dirs, start, m), to_zzz)
}

pub open spec fn goal_hit(name: Seq<u8>, to_zzz: bool) -> bool {
    if to_zzz {
        name == zzz()
    } else {
        name.len() > 0 && name.last() == 90
    }
}

/// Some step count within machine range first reaches the goal.
pub open spec fn goal_reachable(
    es: Seq<(Seq<u8>, Seq<u8>, Seq<u8>)>,
    dirs: Seq<u8>,
    start: Seq<u8>,
    to_zzz: bool,
) -> bool {
    exists|n: int| n <= usize::MAX && is_least_goal(es, dirs, start, to_zzz, n)
}

pub open spec fn least_goal(
    es: Seq<(Seq<u8>, Seq<u8>, Seq<u8>)>,
    dirs: Seq<u8>,
    start: Seq<u8>,
    to_zzz: bool,
) -> int {
    choose|n: int| is_least_goal(es, dirs, start, to_zzz, n)
}

proof fn lemma_least_goal_unique(
    es: Seq<(Seq<u8>, Seq<u8>, Seq<u8>)>,
    dirs: Seq<u8>,
    start: Seq<u8>,
    to_zzz: bool,
    n: int,
)
    requires
        is_least_goal(es, dirs, start, to_zzz, n),
    ensures
        least_goal(es, dirs, start, to_zzz) == n,
{
    let n2 = least_goal(es, dirs, start, to_zzz);
    assert(is_least_goal(es, dirs, start, to_zzz, n2));
    if n2 < n {
        assert(!goal_hit(walk(es, dirs, start, n2), to_zzz));
    } else if n < n2 {
        assert(!goal_hit(walk(es, dirs, start, n), to_zzz));
    }
}

proof fn lemma_lookup_skip(es: Seq<(Seq<u8>, Seq<u8>, Seq<u8>)>, name: Seq<u8>, i: int)
    requires
        0 <= i <= es.len(),
        forall|j: int| i <= j < es.len() ==> (#[trigger] es[j]).0 != name,
    ensures
        lookup(es, name) == lookup(es.take(i), name),
    decreases es.len() - i,
{
    if i < es.len() {
        assert((#[trigger] es[es.len() - 1]).0 != name);
        assert(es.last().0 != name);
        assert(lookup(es, name) == lookup(es.drop_last(), name));
        assert forall|j: int|
            i <= j < es.drop_last().len() implies (#[trigger] es.drop_last()[j]).0 != name by {
            assert(es.drop_last()[j] == es[j]);
        }
        lemma_lookup_skip(es.drop_last(), name, i);
        assert(es.drop_last().take(i) =~= es.take(i));
    } else {
        assert(es.take(i) =~= es);
    }
}

/// A network of named nodes with left and right neighbours, and the cycle
/// of turn instructions.
pub struct Network {
    pub dirs: Vec<u8>,
    pub nodes: Vec<(Vec<u8>, Vec<u8>, Vec<u8>)>,
}

impl Network {
    pub open spec fn wf(&self, s: Seq<u8>) -> bool {
        &&& self.dirs@ == seq_of(s)
        &&& self.nodes.deep_view() == entries_of(s)
        &&& self.dirs@.len() > 0
    }

    /// Reads the instruction line and the node lines.
    pub fn new(input: &str) -> (r: Network)
        requires
            content_lines(input.spec_bytes()).len() >= 1,
            forall|i: int|
                1 <= i < content_lines(input.spec_bytes()).len() ==> wf_node_line(
                    #[trigger] content_lines(input.spec_bytes())[i],
                ),
        ensures
            r.wf(input.spec_bytes()),
    {
        let ghost cl = content_lines(input.spec_bytes());
        let ghost es = entries_of(input.spec_bytes());
        let flines = content_lines_vec(input.as_bytes());
        proof {
            assert(flines@[0].deep_view() =~= flines@[0]@);
        }
        let dirs = copy_vec(&flines[0]);
        proof {
            // a kept line is not blank, so it holds at least one byte
            Seq::lemma_filter_pred(
                crate::text::lines_of(input.spec_bytes()),
                crate::text::nonblank_fn(),
                0,
            );
            assert(trim_of(cl[0]).len() > 0);
            if cl[0].len() == 0 {
                assert(trim_of(cl[0]) =~= cl[0]);
            }
            assert(dirs@.len() > 0);
        }
        let mut nodes: Vec<(Vec<u8>, Vec<u8>, Vec<u8>)> = Vec::new();
        let mut i: usize = 1;
        while i < flines.len()
            invariant
                1 <= i <= flines@.len(),
                flines@.len() == cl.len(),
                flines.deep_view() == cl,
                cl.len() >= 1,
                es == entries_of(input.spec_bytes()),
                cl == content_lines(input.spec_bytes()),
                es.len() == cl.len() - 1,
                forall|j: int| 1 <= j < cl.len() ==> wf_node_line(#[trigger] cl[j]),
                nodes@.len() == i - 1,
                forall|m: int|
                    0 <= m < i - 1 ==> (#[trigger] nodes@[m]).deep_view() == es[m],
            decreases flines.len() - i,
        {
            proof {
                assert(flines@[i as int].deep_view() =~= flines@[i as int]@);
                assert(flines@[i as int]@ == cl[i as int]);
            }
            let line = &flines[i];
            let ghost lv = cl[i as int];
            let name_raw = crate::text::before_byte(line, 61);
            let name = trim_vec(name_raw.as_slice());
            let adj_raw = crate::text::after_byte(line, 61);
            let adj = trim_vec(adj_raw.as_slice());
            proof {
                assert(name@ == node_name(lv));
                assert(adj@ == adj_part(lv));
            }
            let lpart = crate::text::before_byte(&adj, 44);
            let rpart = crate::text::after_byte(&adj, 44);
            let mut lbody: Vec<u8> = Vec::new();
            let mut t: usize = 1;
            while t < lpart.len()
                invariant
                    1 <= t <= lpart@.len() || (lpart@.len() == 0 && t == 1),
                    lbody@ == lpart@.subrange(1, t as int) || (lpart@.len() == 0 && lbody@
                        == Seq::<u8>::empty()),
                decreases lpart.len() - t,
            {
                lbody.push(lpart[t]);
                proof {
                    assert(lpart@.subrange(1, t + 1) =~= lpart@.subrange(1, t as int).push(
                        lpart@[t as int],
                    ));
                }
                t += 1;
            }
            proof {
                assert(lpart@.len() > 0);
                assert(lbody@ =~= lpart@.drop_first());
            }
            let left = trim_vec(lbody.as_slice());
            let mut rbody: Vec<u8> = Vec::new();
            let rlen = rpart.len();
            proof {
                assert(rpart@.len() > 0);
            }
            let mut t2: usize = 0;
            while t2 < rlen - 1
                invariant
                    t2 <= rlen - 1,
                    rlen == rpart@.len(),
                    rlen >= 1,
                    rbody@ == rpart@.subrange(0, t2 as int),
                decreases rlen - t2,
            {
                rbody.push(rpart[t2]);
                proof {
                    assert(rpart@.subrange(0, t2 + 1) =~= rpart@.subrange(0, t2 as int).push(
                        rpart@[t2 as int],
                    ));
                }
                t2 += 1;
            }
            proof {
                assert(rbody@ =~= rpart@.drop_last());
            }
            let right = trim_vec(rbody.as_slice());
            proof {
                assert(left@ == left_of(lv));
                assert(right@ == right_of(lv));
            }
            let entry = (name, left, right);
            proof {
                assert(entry.deep_view() == es[i - 1]);
            }
            nodes.push(entry);
            i += 1;
        }
        let r = Network { dirs, nodes };
        proof {
            assert(r.nodes.deep_view() =~= es);
        }
        r
    }

    /// The neighbours of a named node; the latest line with the name wins.
    fn lookup_node(&self, name: &Vec<u8>) -> (r: Option<(Vec<u8>, Vec<u8>)>)
        ensures
            match r {
                Some(lr) => lookup(self.nodes.deep_view(), name@) == Some((lr.0@, lr.1@)),
                None => lookup(self.nodes.deep_view(), name@) is None,
            },
    {
        let ghost es = self.nodes.deep_view();
        let mut i: usize = self.nodes.len();
        proof {
            assert(es.len() == self.nodes@.len());
        }
        while i > 0
            invariant
                i <= self.nodes@.len(),
                es == self.nodes.deep_view(),
                es.len() == self.nodes@.len(),
                forall|j: int| i <= j < es.len() ==> (#[trigger] es[j]).0 != name@,
            decreases i,
        {
            proof {
                assert(self.nodes@[i - 1].deep_view() == es[i - 1]);
                assert(self.nodes@[i - 1].0.deep_view() =~= self.nodes@[i - 1].0@);
                assert(self.nodes@[i - 1].1.deep_view() =~= self.nodes@[i - 1].1@);
                assert(self.nodes@[i - 1].2.deep_view() =~= self.nodes@[i - 1].2@);
                assert(es[i - 1].0 == self.nodes@[i - 1].0@);
            }
            if bytes_eq(&self.nodes[i - 1].0, name) {
                let l = copy_vec(&self.nodes[i - 1].1);
                let rr = copy_vec(&self.nodes[i - 1].2);
                proof {
                    lemma_lookup_skip(es, name@, i as int);
                    lemma_lookup_last(es.take(i as int), name@);
                }
                return Some((l, rr));
            }
            i -= 1;
        }
        proof {
            lemma_lookup_skip(es, name@, 0);
            assert(es.take(0) =~= Seq::<(Seq<u8>, Seq<u8>, Seq<u8>)>::empty());
        }
        None
    }
}

proof fn lemma_lookup_last(es: Seq<(Seq<u8>, Seq<u8>, Seq<u8>)>, name: Seq<u8>)
    requires
        es.len() > 0,
        es.last().0 == name,
    ensures
        lookup(es, name) == Some((es.last().1, es.last().2)),
{
}

proof fn lemma_mod_step(s: int, pos: int, n: int)
    requires
        s >= 0,
        n > 0,
        0 <= pos < n,
        s % n == pos,
    ensures
        (s + 1) % n == if pos + 1 == n {
            0int
        } else {
            pos + 1
        },
{
    assert((s + 1) % n == if pos + 1 == n {
        0int
    } else {
        pos + 1
    }) by (nonlinear_arith)
        requires
            s >= 0,
            n > 0,
            0 <= pos < n,
            s % n == pos,
    ;
}

/// Walks from `start`, step by step, until the goal node; returns how many
/// steps that took.
fn walk_until(nw: &Network, start: &Vec<u8>, to_zzz: bool) -> (r: usize)
    requires
        nw.dirs@.len() > 0,
        goal_reachable(nw.nodes.deep_view(), nw.dirs@, start@, to_zzz),
    ensures
        is_least_goal(nw.nodes.deep_view(), nw.dirs@, start@, to_zzz, r as int),
        r as int == least_goal(nw.nodes.deep_view(), nw.dirs@, start@, to_zzz),
        r >= 1,
{
    let ghost es = nw.nodes.deep_view();
    let ghost dirs = nw.dirs@;
    let ghost n0 = choose|n: int|
        n <= usize::MAX && is_least_goal(es, dirs, start@, to_zzz, n);
    let zvec: Vec<u8> = vec![90u8, 90, 90];
    proof {
        assert(zvec@ =~= zzz());
    }
    let mut cur: Vec<u8> = copy_vec(start);
    let mut steps: usize = 0;
    let mut pos: usize = 0;
    let dn = nw.dirs.len();
    loop
        invariant
            dn == nw.dirs@.len(),
            steps <= n0,
            1 <= n0 <= usize::MAX,
            is_least_goal(es, dirs, start@, to_zzz, n0),
            es == nw.nodes.deep_view(),
            dirs == nw.dirs@,
            dirs.len() > 0,
            zvec@ == zzz(),
            pos < nw.dirs@.len(),
            steps as int % (dirs.len() as int) == pos as int,
            cur@ == walk(es, dirs, start@, steps as int),
            forall|m: int| 1 <= m <= steps ==> !goal_hit(walk(es, dirs, start@, m), to_zzz),
        decreases n0 - steps,
    {
        proof {
            if steps as int == n0 {
                assert(goal_hit(walk(es, dirs, start@, n0), to_zzz));
                assert(false);
            }
            assert(lookup(es, walk(es, dirs, start@, steps as int)) is Some);
        }
        let dir = nw.dirs[pos];
        let nxt = nw.lookup_node(&cur);
        if let Some(lr) = nxt {
            if dir == 82 {
                cur = lr.1;
            } else {
                cur = lr.0;
            }
        } else {
            proof {
                assert(false);
            }
        }
        proof {
            assert(cur@ == walk(es, dirs, start@, steps + 1));
            lemma_mod_step(steps as int, pos as int, dirs.len() as int);
        }
        steps = steps + 1;
        pos = if pos + 1 == dn {
            0
        } else {
            pos + 1
        };
        let hit = if to_zzz {
            bytes_eq(&cur, &zvec)
        } else {
            cur.len() > 0 && cur[cur.len() - 1] == 90
        };
        proof {
            assert(hit == goal_hit(cur@, to_zzz));
        }
        if hit {
            proof {
                assert forall|m: int|
                    0 <= m < steps implies lookup(
                    es,
                    #[trigger] walk(es, dirs, start@, m),
                ) is Some by {
                    assert(m < n0);
                }
                assert(is_least_goal(es, dirs, start@, to_zzz, steps as int));
                lemma_least_goal_unique(es, dirs, start@, to_zzz, steps as int);
            }
            return steps;
        }
    }
}

/// Steps from `AAA` to `ZZZ` along the instruction cycle.
pub fn part_one(input: &str) -> (r: u64)
    requires
        content_lines(input.spec_bytes()).len() >= 1,
        forall|i: int|
            1 <= i < content_lines(input.spec_bytes()).len() ==> wf_node_line(
                #[trigger] content_lines(input.spec_bytes())[i],
            ),
        goal_reachable(
            entries_of(input.spec_bytes()),
            seq_of(input.spec_bytes()),
            aaa(),
            true,
        ),
    ensures
        r as int == least_goal(
            entries_of(input.spec_bytes()),
            seq_of(input.spec_bytes()),
            aaa(),
            true,
        ),
{
    let nw = Network::new(input);
    let start: Vec<u8> = vec![65u8, 65, 65];
    proof {
        assert(start@ =~= aaa());
    }
    let s = walk_until(&nw, &start, true);
    s as u64
}

/// Whether entry `i` starts a ghost walk: its name ends in `A` and no
/// earlier entry shares the name.
pub open spec fn is_start_idx(es: Seq<(Seq<u8>, Seq<u8>, Seq<u8>)>, i: int) -> bool {
    es[i].0.len() > 0 && es[i].0.last() == 65 && forall|j: int|
        0 <= j < i ==> (#[trigger] es[j]).0 != es[i].0
}

pub open spec fn starts_upto(es: Seq<(Seq<u8>, Seq<u8>, Seq<u8>)>, i: int) -> Seq<Seq<u8>>
    decreases i,
{
    if i <= 0 {
        Seq::empty()
    } else {
        let p = starts_upto(es, i - 1);
        if is_start_idx(es, i - 1) {
            p.push(es[i - 1].0)
        } else {
            p
        }
    }
}

/// The distinct node names ending in `A`, in reading order.
pub open spec fn start_names(es: Seq<(Seq<u8>, Seq<u8>, Seq<u8>)>) -> Seq<Seq<u8>> {
    starts_upto(es, es.len() as int)
}

/// The first goal step count of each ghost walker.
pub open spec fn goal_steps(es: Seq<(Seq<u8>, Seq<u8>, Seq<u8>)>, dirs: Seq<u8>) -> Seq<int> {
    Seq::new(start_names(es).len(), |k: int| least_goal(es, dirs, start_names(es)[k], false))
}

/// Least common multiple of all the entries, folded up from one.
pub open spec fn lcm_fold(ss: Seq<int>) -> int
    decreases ss.len(),
{
    if ss.len() == 0 {
        1
    } else {
        spec_lcm(lcm_fold(ss.drop_last()), ss.last())
    }
}

proof fn lemma_lcm_fold_step(ss: Seq<int>, k: int)
    requires
        0 <= k < ss.len(),
    ensures
        lcm_fold(ss.take(k + 1)) == spec_lcm(lcm_fold(ss.take(k)), ss[k]),
{
    assert(ss.take(k + 1).drop_last() =~= ss.take(k));
    assert(ss.take(k + 1).last() == ss[k]);
}

/// Relies on num::integer::lcm: for positive operands it returns
/// `a * (b / gcd(a, b))`, the least common multiple, and that is at least
/// either operand.
#[verifier::external_body]
fn lcm_usize(a: usize, b: usize) -> (r: usize)
    requires
        a >= 1,
        b >= 1,
        spec_lcm(a as int, b as int) <= usize::MAX,
    ensures
        r as int == spec_lcm(a as int, b as int),
        r >= a,
        r >= b,
{
    num::integer::lcm(a, b)
}

/// Steps until every ghost walker stands on a `Z` node at once, by the
/// least common multiple of their individual cycle lengths.
pub fn part_two(input: &str) -> (r: u64)
    requires
        content_lines(input.spec_bytes()).len() >= 1,
        forall|i: int|
            1 <= i < content_lines(input.spec_bytes()).len() ==> wf_node_line(
                #[trigger] content_lines(input.spec_bytes())[i],
            ),
        forall|k: int|
            0 <= k < start_names(entries_of(input.spec_bytes())).len() ==> goal_reachable(
                entries_of(input.spec_bytes()),
                seq_of(input.spec_bytes()),
                #[trigger] start_names(entries_of(input.spec_bytes()))[k],
                false,
            ),
        forall|k: int|
            0 <= k <= start_names(entries_of(input.spec_bytes())).len() ==> lcm_fold(
                #[trigger] goal_steps(
                    entries_of(input.spec_bytes()),
                    seq_of(input.spec_bytes()),
                ).take(k),
            ) <= usize::MAX,
    ensures
        r as int == lcm_fold(
            goal_steps(entries_of(input.spec_bytes()), seq_of(input.spec_bytes())),
        ),
{
    let ghost es = entries_of(input.spec_bytes());
    let ghost dirs = seq_of(input.spec_bytes());
    let ghost gs = goal_steps(es, dirs);
    let nw = Network::new(input);
    let mut starts: Vec<Vec<u8>> = Vec::new();
    let n = nw.nodes.len();
    let mut i: usize = 0;
    proof {
        assert(es.len() == nw.nodes@.len());
    }
    while i < n
        invariant
            i <= n,
            n == nw.nodes@.len(),
            es == nw.nodes.deep_view(),
            es.len() == n,
            starts.deep_view() == starts_upto(es, i as int),
        decreases n - i,
    {
        proof {
            assert(nw.nodes@[i as int].deep_view() == es[i as int]);
            assert(nw.nodes@[i as int].0.deep_view() =~= nw.nodes@[i as int].0@);
        }
        let name = &nw.nodes[i].0;
        let ghost od = starts.deep_view();
        let nlen = name.len();
        if nlen > 0 && name[nlen - 1] == 65 {
            let mut dup = false;
            let mut j: usize = 0;
            while j < i
                invariant
                    j <= i,
                    i < n,
                    n == nw.nodes@.len(),
                    es == nw.nodes.deep_view(),
                    es.len() == n,
                    name@ == es[i as int].0,
                    dup == exists|m: int| 0 <= m < j && (#[trigger] es[m]).0 == name@,
                decreases i - j,
            {
                proof {
                    assert(nw.nodes@[j as int].deep_view() == es[j as int]);
                    assert(nw.nodes@[j as int].0.deep_view() =~= nw.nodes@[j as int].0@);
                }
                if bytes_eq(&nw.nodes[j].0, name) {
                    dup = true;
                }
                j += 1;
            }
            if !dup {
                let cp = copy_vec(name);
                starts.push(cp);
                proof {
                    assert(is_start_idx(es, i as int));
                    assert(starts.deep_view() =~= od.push(es[i as int].0));
                }
            } else {
                proof {
                    assert(!is_start_idx(es, i as int));
                }
            }
        } else {
            proof {
                assert(!is_start_idx(es, i as int));
            }
        }
        i += 1;
    }
    proof {
        assert(starts.deep_view() == start_names(es));
        assert(gs.len() == start_names(es).len());
    }
    let mut m: usize = 1;
    let mut k: usize = 0;
    proof {
        assert(gs.take(0) =~= Seq::<int>::empty());
    }
    while k < starts.len()
        invariant
            k <= starts@.len(),
            starts.deep_view() == start_names(es),
            starts@.len() == start_names(es).len(),
            es == nw.nodes.deep_view(),
            dirs == nw.dirs@,
            dirs.len() > 0,
            gs == goal_steps(es, dirs),
            gs.len() == starts@.len(),
            forall|t: int|
                0 <= t < start_names(es).len() ==> goal_reachable(
                    es,
                    dirs,
                    #[trigger] start_names(es)[t],
                    false,
                ),
            forall|t: int|
                0 <= t <= start_names(es).len() ==> lcm_fold(#[trigger] gs.take(t))
                    <= usize::MAX,
            m >= 1,
            m as int == lcm_fold(gs.take(k as int)),
        decreases starts.len() - k,
    {
        proof {
            assert(starts@[k as int].deep_view() =~= starts@[k as int]@);
            assert(starts@[k as int]@ == start_names(es)[k as int]);
            lemma_lcm_fold_step(gs, k as int);
        }
        let s = walk_until(&nw, &starts[k], false);
        proof {
            assert(s as int == gs[k as int]);
            assert(lcm_fold(gs.take(k + 1)) == spec_lcm(m as int, s as int));
        }
        m = lcm_usize(m, s);
        k += 1;
    }
    proof {
        assert(gs.take(gs.len() as int) =~= gs);
    }
    m as u64
}

} // verus!
