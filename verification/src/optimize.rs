//! Greedy weighted set cover: given a pool of candidates (each a bundle of
//! its mirror and inverse variants, see `Candidate`), find a cheap subset
//! that, with duplex pairing between chosen algorithms, solves every target
//! case.
//!
//! Set cover is NP-hard; the standard answer is the greedy approximation:
//! repeatedly pick the unpicked candidate that covers the most *new* cases
//! per unit of cost, until everything is covered or no candidate helps.
//! Coverage is not per candidate here, since a case may only be reached by
//! pairing two chosen candidates, so each round runs the whole search over
//! (chosen algorithms + the trial candidate) and counts the cases that are
//! newly reached.
use vstd::prelude::*;
use std::collections::HashMap;
use crate::alg::{Alg, AlgView, alg_views};
use crate::candidates::Candidate;
use crate::enumerate::Case;
use crate::search::{
    Solution, SolutionView, groups_view, group_view, is_covered, lemma_search_covers_more, max_moves, search,
    search_result, target_set,
};

verus! {

broadcast use vstd::std_specs::hash::group_hash_axioms;

/// The cost of a candidate: `per_alg + per_move * cost_moves`. With
/// `per_move` 1 and `per_alg` 0 the search minimizes the total moves learned;
/// with `per_alg` 1 and `per_move` 0, the number of algorithms. Only the
/// ratio of the weights matters.
#[derive(Clone, Copy)]
pub struct Objective {
    pub per_alg: i32,
    pub per_move: i32,
}

/// A candidate the search picked.
pub struct Picked {
    pub label: String,
    pub cost_moves: usize,
    pub newly_covered: usize,
}

/// What the search found.
pub struct Report {
    pub picked: Vec<Picked>,
    pub covered: usize,
    pub total: usize,
    pub solutions: HashMap<u64, Vec<Solution>>,
}

pub open spec fn cand_cost(obj: Objective, c: Candidate) -> int {
    obj.per_alg as int + obj.per_move as int * c.cost_moves as int
}

/// Covering `g1` cases at cost `c1` is better than covering `g2` at cost
/// `c2`: the ratio of cases to cost is higher, a cost of zero or less
/// standing for a cost smaller than any positive one.
pub open spec fn better(g1: int, c1: int, g2: int, c2: int) -> bool {
    if c1 <= 0 && c2 <= 0 {
        g1 > g2
    } else if c1 <= 0 {
        true
    } else if c2 <= 0 {
        false
    } else {
        g1 * c2 > g2 * c1
    }
}

/// Among candidates with positive costs, the one that covers more new cases
/// per unit of cost is better, and no other: covering `g1` at cost `c1`
/// beats `g2` at `c2` exactly when `g1 / c1 > g2 / c2`. So at one cost more
/// cases win, at one gain the lower cost wins, and scaling a gain and its
/// cost together changes nothing. A candidate of no cost (or less) beats any
/// of positive cost, and among those the larger gain wins.
pub proof fn lemma_better_ratio(g1: int, c1: int, g2: int, c2: int, k: int)
    ensures
        c1 > 0 && c2 > 0 ==> (better(g1, c1, g2, c2) <==> g1 * c2 > g2 * c1),
        c1 > 0 && c2 > 0 ==> (better(g1, c1, g2, c2) <==> (g1 as real) / (c1 as real) > (g2 as real) / (c2 as real)),
        c1 > 0 && c1 == c2 ==> (better(g1, c1, g2, c2) <==> g1 > g2),
        c1 > 0 && c2 > 0 && g1 == g2 && g1 > 0 ==> (better(g1, c1, g2, c2) <==> c1 < c2),
        c1 > 0 && c2 > 0 && k > 0 ==> (better(g1 * k, c1 * k, g2, c2) <==> better(g1, c1, g2, c2)),
        c1 <= 0 && c2 > 0 ==> better(g1, c1, g2, c2),
        c1 <= 0 && c2 <= 0 ==> (better(g1, c1, g2, c2) <==> g1 > g2),
{
    if c1 > 0 && c2 > 0 {
        if c1 == c2 {
            assert(g1 * c2 > g2 * c1 <==> g1 > g2) by (nonlinear_arith)
                requires
                    c1 > 0,
                    c1 == c2,
            ;
        }
        if g1 == g2 && g1 > 0 {
            assert(g1 * c2 > g2 * c1 <==> c1 < c2) by (nonlinear_arith)
                requires
                    g1 > 0,
                    g1 == g2,
            ;
        }
        if k > 0 {
            assert((g1 * k) * c2 > g2 * (c1 * k) <==> g1 * c2 > g2 * c1) by (nonlinear_arith)
                requires
                    k > 0,
            ;
            assert(c1 * k > 0) by (nonlinear_arith)
                requires
                    k > 0,
                    c1 > 0,
            ;
        }
        let r1 = (g1 as real) / (c1 as real);
        let r2 = (g2 as real) / (c2 as real);
        assert(r1 > r2 <==> g1 * c2 > g2 * c1) by (nonlinear_arith)
            requires
                c1 > 0,
                c2 > 0,
                r1 == (g1 as real) / (c1 as real),
                r2 == (g2 as real) / (c2 as real),
        ;
    }
}

/// The distinct indices of the first `k` cases, in order of first occurrence.
pub open spec fn distinct_ll(cases: Seq<Case>, k: nat) -> Seq<u64>
    decreases k,
{
    if k == 0 || k > cases.len() {
        Seq::empty()
    } else {
        let s = distinct_ll(cases, (k - 1) as nat);
        if s.contains(cases[k - 1].ll_index) {
            s
        } else {
            s.push(cases[k - 1].ll_index)
        }
    }
}

/// The distinct indices of the cases: the targets to cover.
pub open spec fn target_list(cases: Seq<Case>) -> Seq<u64> {
    distinct_ll(cases, cases.len())
}

/// The indices of `unc` that no solution in `m` reaches, in order.
pub open spec fn uncovered_in(unc: Seq<u64>, m: Map<u64, Seq<SolutionView>>) -> Seq<u64>
    decreases unc.len(),
{
    if unc.len() == 0 {
        unc
    } else {
        let rest = uncovered_in(unc.drop_last(), m);
        if is_covered(m, unc.last()) {
            rest
        } else {
            rest.push(unc.last())
        }
    }
}

/// How many indices of `unc` the solutions `m` reach.
pub open spec fn gain_in(unc: Seq<u64>, m: Map<u64, Seq<SolutionView>>) -> int {
    unc.len() - uncovered_in(unc, m).len()
}

/// The search setting: (seed variants, candidates, targets, depth,
/// objective, most picks).
pub type GreedyEnv = (Seq<AlgView>, Seq<Candidate>, Set<u64>, int, Objective, Option<usize>);

/// The algorithms chosen: the seed variants, then the variants of each
/// picked candidate in order.
pub open spec fn chosen(seed: Seq<AlgView>, cands: Seq<Candidate>, picks: Seq<int>) -> Seq<AlgView>
    decreases picks.len(),
{
    if picks.len() == 0 {
        seed
    } else {
        chosen(seed, cands, picks.drop_last()) + alg_views(cands[picks.last()].variants@)
    }
}

/// The solutions with candidate `k` tried on top of the chosen algorithms.
pub open spec fn trial(env: GreedyEnv, picks: Seq<int>, k: int) -> Map<u64, Seq<SolutionView>> {
    search_result(chosen(env.0, env.1, picks) + alg_views(env.1[k].variants@), env.2, env.3)
}

/// The best candidate among `0..k` not yet picked that reaches some of
/// `unc`: the first one with the best ratio of newly reached cases to cost.
pub open spec fn best_upto(env: GreedyEnv, picks: Seq<int>, unc: Seq<u64>, k: nat) -> Option<int>
    decreases k,
{
    if k == 0 || k > env.1.len() {
        None
    } else {
        let b = best_upto(env, picks, unc, (k - 1) as nat);
        let i = k - 1;
        let g = gain_in(unc, trial(env, picks, i));
        if picks.contains(i) || g == 0 {
            b
        } else {
            match b {
                None => Some(i),
                Some(j) => if better(g, cand_cost(env.4, env.1[i]), gain_in(unc, trial(env, picks, j)),
                    cand_cost(env.4, env.1[j])) {
                    Some(i)
                } else {
                    b
                },
            }
        }
    }
}

/// Candidate `i` may be picked in a round: it is not picked yet and reaches
/// some of the uncovered cases `unc`.
pub open spec fn eligible(env: GreedyEnv, picks: Seq<int>, unc: Seq<u64>, i: int) -> bool {
    0 <= i < env.1.len() && !picks.contains(i) && gain_in(unc, trial(env, picks, i)) > 0
}

/// How many of `unc` candidate `i` newly reaches.
pub open spec fn gain_of(env: GreedyEnv, picks: Seq<int>, unc: Seq<u64>, i: int) -> int {
    gain_in(unc, trial(env, picks, i))
}

/// The cost of candidate `i`.
pub open spec fn cost_of(env: GreedyEnv, i: int) -> int {
    cand_cost(env.4, env.1[i])
}

proof fn lemma_ratio_trans(g: int, c: int, gb: int, cb: int, gj: int, cj: int)
    requires
        c > 0,
        cb > 0,
        cj > 0,
        g * cb > gb * c,
        gb * cj >= gj * cb,
    ensures
        g * cj > gj * c,
{
    assert(g * cb * cj > gb * c * cj) by (nonlinear_arith)
        requires
            g * cb > gb * c,
            cj > 0,
    ;
    assert(gb * cj * c >= gj * cb * c) by (nonlinear_arith)
        requires
            gb * cj >= gj * cb,
            c > 0,
    ;
    assert(g * cj * cb > gj * c * cb) by (nonlinear_arith)
        requires
            g * cb * cj > gb * c * cj,
            gb * cj * c >= gj * cb * c,
    ;
    assert(g * cj > gj * c) by (nonlinear_arith)
        requires
            g * cj * cb > gj * c * cb,
            cb > 0,
    ;
}

/// What a round picks among the first `k` candidates: nothing exactly when
/// none is eligible; otherwise an eligible candidate `i` such that, when it
/// costs something, every eligible candidate costs something, none covers
/// more new cases per unit of cost (`gain(j) / cost(j) <= gain(i) /
/// cost(i)`), and every one before `i` covers strictly fewer per unit of
/// cost (the first of the best).
pub proof fn lemma_best_ratio(env: GreedyEnv, picks: Seq<int>, unc: Seq<u64>, k: nat)
    requires
        k <= env.1.len(),
    ensures
        best_upto(env, picks, unc, k) is None <==> forall|j: int| 0 <= j < k ==> !#[trigger] eligible(env, picks, unc, j),
        best_upto(env, picks, unc, k) matches Some(i) ==> {
            &&& 0 <= i < k
            &&& eligible(env, picks, unc, i)
            &&& cost_of(env, i) > 0 ==> forall|j: int| 0 <= j < k && #[trigger] eligible(env, picks, unc, j)
                ==> cost_of(env, j) > 0 && gain_of(env, picks, unc, i) * cost_of(env, j) >= gain_of(env, picks, unc, j)
                * cost_of(env, i)
            &&& cost_of(env, i) > 0 ==> forall|j: int| 0 <= j < i && #[trigger] eligible(env, picks, unc, j)
                ==> gain_of(env, picks, unc, i) * cost_of(env, j) > gain_of(env, picks, unc, j) * cost_of(env, i)
        },
    decreases k,
{
    if k > 0 {
        let k1 = (k - 1) as nat;
        lemma_best_ratio(env, picks, unc, k1);
        let n = k - 1;
        let b = best_upto(env, picks, unc, k1);
        let g = gain_of(env, picks, unc, n);
        let c = cost_of(env, n);
        if picks.contains(n) || g == 0 {
            assert(!eligible(env, picks, unc, n));
        } else {
            assert(g > 0) by {
                lemma_uncovered_len(unc, trial(env, picks, n));
            }
            assert(eligible(env, picks, unc, n));
            match b {
                None => {
                    assert(g * c >= g * c);
                },
                Some(jb) => {
                    let gb = gain_of(env, picks, unc, jb);
                    let cb = cost_of(env, jb);
                    if better(g, c, gb, cb) {
                        if c > 0 {
                            assert(cb > 0);
                            assert(g * cb > gb * c);
                            assert forall|j: int| 0 <= j < n && #[trigger] eligible(env, picks, unc, j)
                                implies cost_of(env, j) > 0 && g * cost_of(env, j) > gain_of(env, picks, unc, j) * c by {
                                if j != jb {
                                    lemma_ratio_trans(g, c, gb, cb, gain_of(env, picks, unc, j), cost_of(env, j));
                                }
                            }
                            assert(g * c >= g * c);
                        }
                    } else {
                        if cb > 0 {
                            assert(c > 0);
                            assert(gb * c >= g * cb);
                        }
                    }
                },
            }
        }
    }
}

/// The greedy rounds from a state (picks, gains, uncovered, solutions) to
/// the end: stop when nothing is uncovered, when the most picks are made,
/// when every candidate is picked, or when no candidate reaches an
/// uncovered case; else pick the best candidate and go on.
pub open spec fn greedy_from(
    env: GreedyEnv,
    picks: Seq<int>,
    gains: Seq<int>,
    unc: Seq<u64>,
    m: Map<u64, Seq<SolutionView>>,
) -> (Seq<int>, Seq<int>, Seq<u64>, Map<u64, Seq<SolutionView>>)
    decreases env.1.len() - picks.len(),
{
    if unc.len() == 0 || (env.5 matches Some(max) && gains.len() >= max) || picks.len() >= env.1.len() {
        (picks, gains, unc, m)
    } else {
        match best_upto(env, picks, unc, env.1.len()) {
            None => (picks, gains, unc, m),
            Some(i) => {
                let m2 = trial(env, picks, i);
                greedy_from(env, picks.push(i), gains.push(gain_in(unc, m2)), uncovered_in(unc, m2), m2)
            },
        }
    }
}

/// A picked candidate as plain values: (label, cost in moves, cases newly
/// covered).
pub type PickedView = (Seq<char>, int, int);

pub open spec fn picked_view(p: Picked) -> PickedView {
    (p.label@, p.cost_moves as int, p.newly_covered as int)
}

/// The report of the greedy search: the picks, how many targets they and
/// the seed cover, how many targets there are, and the solutions.
pub open spec fn greedy_result(env: GreedyEnv, cases: Seq<Case>) -> (Seq<PickedView>, int, int, Map<u64, Seq<SolutionView>>) {
    let m0 = search_result(env.0, env.2, env.3);
    let tl = target_list(cases);
    let r = greedy_from(env, Seq::empty(), Seq::empty(), uncovered_in(tl, m0), m0);
    (
        Seq::new(r.0.len(), |k: int| (env.1[r.0[k]].label@, env.1[r.0[k]].cost_moves as int, r.1[k])),
        tl.len() - r.2.len(),
        tl.len() as int,
        r.3,
    )
}

pub open spec fn report_view(r: Report) -> (Seq<PickedView>, int, int, Map<u64, Seq<SolutionView>>) {
    (Seq::new(r.picked@.len(), |k: int| picked_view(r.picked@[k])), r.covered as int, r.total as int, groups_view(r.solutions@))
}

/// Every algorithm's moves can be counted by `search`.
pub open spec fn moves_fit(vs: Seq<AlgView>) -> bool {
    forall|i: int| 0 <= i < vs.len() ==> (#[trigger] vs[i]).1.len() <= max_moves()
}


pub proof fn lemma_uncovered_len(unc: Seq<u64>, m: Map<u64, Seq<SolutionView>>)
    ensures
        uncovered_in(unc, m).len() <= unc.len(),
    decreases unc.len(),
{
    if unc.len() > 0 {
        lemma_uncovered_len(unc.drop_last(), m);
    }
}

pub proof fn lemma_distinct_len(cases: Seq<Case>, k: nat)
    ensures
        distinct_ll(cases, k).len() <= k,
    decreases k,
{
    if k > 0 && k <= cases.len() {
        lemma_distinct_len(cases, (k - 1) as nat);
    }
}

impl Objective {
    /// The cost of `candidate`.
    pub fn cost(&self, candidate: &Candidate) -> (r: i128)
        ensures
            r as int == cand_cost(*self, *candidate),
            -0x8000_0000 - 0x8000_0000 * 0xffff_ffff_ffff_ffff <= r <= 0x7fff_ffff + 0x7fff_ffff * 0xffff_ffff_ffff_ffff,
    {
        assert(-0x8000_0000 * 0xffff_ffff_ffff_ffff <= self.per_move as int * candidate.cost_moves as int
            <= 0x7fff_ffff * 0xffff_ffff_ffff_ffff) by (nonlinear_arith)
            requires
                -0x8000_0000 <= self.per_move <= 0x7fff_ffff,
                0 <= candidate.cost_moves <= 0xffff_ffff_ffff_ffff,
        ;
        self.per_alg as i128 + self.per_move as i128 * candidate.cost_moves as i128
    }
}

/// `g * c` as a high and a low part: `hi * 2^64 + lo`, with `lo < 2^64`.
fn wide_mul(g: usize, c: i128) -> (r: (u128, u128))
    requires
        0 < c < 0x1_0000_0000_0000_0000_0000_0000,
    ensures
        r.1 < 0x1_0000_0000_0000_0000,
        r.0 * 0x1_0000_0000_0000_0000 + r.1 == g as int * c as int,
{
    let cu = c as u128;
    let c_hi = cu / 0x1_0000_0000_0000_0000u128;
    let c_lo = cu % 0x1_0000_0000_0000_0000u128;
    let gu = g as u128;
    assert(gu * c_hi < 0x1_0000_0000_0000_0000_0000_0000) by (nonlinear_arith)
        requires
            gu < 0x1_0000_0000_0000_0000,
            c_hi < 0x1_0000_0000,
    ;
    assert(gu * c_lo < 0x1_0000_0000_0000_0000_0000_0000_0000_0000) by (nonlinear_arith)
        requires
            gu < 0x1_0000_0000_0000_0000,
            c_lo < 0x1_0000_0000_0000_0000,
    ;
    let a = gu * c_hi;
    let b = gu * c_lo;
    let hi = a + b / 0x1_0000_0000_0000_0000u128;
    let lo = b % 0x1_0000_0000_0000_0000u128;
    assert(hi * 0x1_0000_0000_0000_0000 + lo == gu * cu) by (nonlinear_arith)
        requires
            a == gu * c_hi,
            b == gu * c_lo,
            cu == c_hi * 0x1_0000_0000_0000_0000 + c_lo,
            hi == a + b / 0x1_0000_0000_0000_0000,
            lo == b % 0x1_0000_0000_0000_0000,
    ;
    (hi, lo)
}

proof fn lemma_wide_less(h1: int, l1: int, h2: int, l2: int)
    requires
        0 <= l1 < 0x1_0000_0000_0000_0000,
        0 <= l2 < 0x1_0000_0000_0000_0000,
    ensures
        (h1 * 0x1_0000_0000_0000_0000 + l1 > h2 * 0x1_0000_0000_0000_0000 + l2) == (h1 > h2 || (h1 == h2 && l1 > l2)),
{
    if h1 > h2 {
        assert(h1 * 0x1_0000_0000_0000_0000 >= h2 * 0x1_0000_0000_0000_0000 + 0x1_0000_0000_0000_0000) by (nonlinear_arith)
            requires
                h1 > h2,
        ;
    } else if h1 < h2 {
        assert(h2 * 0x1_0000_0000_0000_0000 >= h1 * 0x1_0000_0000_0000_0000 + 0x1_0000_0000_0000_0000) by (nonlinear_arith)
            requires
                h1 < h2,
        ;
    }
}

/// Whether covering `g1` cases at cost `c1` is better than `g2` at `c2`.
fn is_better(g1: usize, c1: i128, g2: usize, c2: i128) -> (r: bool)
    requires
        -0x8000_0000 - 0x8000_0000 * 0xffff_ffff_ffff_ffff <= c1 <= 0x7fff_ffff + 0x7fff_ffff * 0xffff_ffff_ffff_ffff,
        -0x8000_0000 - 0x8000_0000 * 0xffff_ffff_ffff_ffff <= c2 <= 0x7fff_ffff + 0x7fff_ffff * 0xffff_ffff_ffff_ffff,
    ensures
        r == better(g1 as int, c1 as int, g2 as int, c2 as int),
{
    if c1 <= 0 && c2 <= 0 {
        g1 > g2
    } else if c1 <= 0 {
        true
    } else if c2 <= 0 {
        false
    } else {
        let (h1, l1) = wide_mul(g1, c2);
        let (h2, l2) = wide_mul(g2, c1);
        proof {
            lemma_wide_less(h1 as int, l1 as int, h2 as int, l2 as int);
        }
        h1 > h2 || (h1 == h2 && l1 > l2)
    }
}

/// The distinct indices of the cases, in order of first occurrence.
fn distinct_targets(cases: &[Case]) -> (r: Vec<u64>)
    ensures
        r@ == target_list(cases@),
{
    let mut r: Vec<u64> = Vec::new();
    let n = cases.len();
    let mut k: usize = 0;
    while k < n
        invariant
            k <= n,
            n == cases@.len(),
            r@ == distinct_ll(cases@, k as nat),
        decreases n - k,
    {
        let v = cases[k].ll_index;
        let mut seen = false;
        let mut i: usize = 0;
        while i < r.len()
            invariant
                i <= r@.len(),
                seen == (exists|t: int| 0 <= t < i && r@[t] == v),
            decreases r@.len() - i,
        {
            if r[i] == v {
                seen = true;
            }
            i = i + 1;
        }
        proof {
            if seen {
                let t = choose|t: int| 0 <= t < r@.len() && r@[t] == v;
                assert(r@.contains(v));
            } else {
                assert(!r@.contains(v));
            }
        }
        if !seen {
            r.push(v);
        }
        k = k + 1;
    }
    r
}

/// Whether some solution in `m` reaches `t`.
fn covers(m: &HashMap<u64, Vec<Solution>>, t: u64) -> (r: bool)
    ensures
        r == is_covered(groups_view(m@), t),
{
    match m.get(&t) {
        Some(g) => {
            assert(group_view(g@).len() == g@.len());
            g.len() > 0
        },
        None => false,
    }
}

/// The indices of `unc` that no solution in `m` reaches.
fn still_uncovered(unc: &Vec<u64>, m: &HashMap<u64, Vec<Solution>>) -> (r: Vec<u64>)
    ensures
        r@ == uncovered_in(unc@, groups_view(m@)),
{
    let mut r: Vec<u64> = Vec::new();
    let n = unc.len();
    let mut k: usize = 0;
    while k < n
        invariant
            k <= n,
            n == unc@.len(),
            r@ == uncovered_in(unc@.take(k as int), groups_view(m@)),
        decreases n - k,
    {
        let t = unc[k];
        assert(unc@.take(k + 1).drop_last() =~= unc@.take(k as int));
        if !covers(m, t) {
            r.push(t);
        }
        k = k + 1;
    }
    assert(unc@.take(n as int) =~= unc@);
    r
}

/// Copies of `algs`.
fn copy_algs(algs: &[Alg]) -> (r: Vec<Alg>)
    ensures
        alg_views(r@) == alg_views(algs@),
{
    let mut r: Vec<Alg> = Vec::new();
    let n = algs.len();
    let mut k: usize = 0;
    while k < n
        invariant
            k <= n,
            n == algs@.len(),
            r@.len() == k,
            alg_views(r@) == alg_views(algs@.take(k as int)),
        decreases n - k,
    {
        let ghost prev = r@;
        r.push(algs[k].duplicate());
        assert forall|i: int| 0 <= i < k + 1 implies #[trigger] alg_views(r@)[i] == alg_views(algs@.take(k + 1))[i] by {
            if i < k {
                assert(r@[i] == prev[i]);
                assert(alg_views(prev)[i] == alg_views(algs@.take(k as int))[i]);
            }
        }
        assert(alg_views(r@) =~= alg_views(algs@.take(k + 1)));
        k = k + 1;
    }
    assert(algs@.take(n as int) =~= algs@);
    r
}

/// Appends copies of `vs` to `algs`.
fn extend_with(algs: &mut Vec<Alg>, vs: &Vec<Alg>)
    ensures
        alg_views(final(algs)@) == alg_views(old(algs)@) + alg_views(vs@),
{
    let n = vs.len();
    let mut k: usize = 0;
    while k < n
        invariant
            k <= n,
            n == vs@.len(),
            algs@.len() == old(algs)@.len() + k,
            alg_views(algs@) == alg_views(old(algs)@) + alg_views(vs@.take(k as int)),
        decreases n - k,
    {
        let ghost prev = algs@;
        algs.push(vs[k].duplicate());
        let ghost target = alg_views(old(algs)@) + alg_views(vs@.take(k + 1));
        assert forall|i: int| 0 <= i < algs@.len() implies #[trigger] alg_views(algs@)[i] == target[i] by {
            if i < prev.len() {
                assert(algs@[i] == prev[i]);
                assert(alg_views(prev)[i] == (alg_views(old(algs)@) + alg_views(vs@.take(k as int)))[i]);
            }
        }
        assert(alg_views(algs@) =~= target);
        k = k + 1;
    }
    assert(vs@.take(n as int) =~= vs@);
}

proof fn lemma_search_fits(algs: Seq<Alg>)
    requires
        moves_fit(alg_views(algs)),
    ensures
        forall|i: int| 0 <= i < algs.len() ==> (#[trigger] algs[i]).moves@.len() <= max_moves(),
{
    assert forall|i: int| 0 <= i < algs.len() implies (#[trigger] algs[i]).moves@.len() <= max_moves() by {
        assert(alg_views(algs)[i].1 == algs[i].moves@);
    }
}


proof fn lemma_fit_concat(a: Seq<AlgView>, b: Seq<AlgView>)
    requires
        moves_fit(a),
        moves_fit(b),
    ensures
        moves_fit(a + b),
{
    assert forall|i: int| 0 <= i < (a + b).len() implies (#[trigger] (a + b)[i]).1.len() <= max_moves() by {
        if i < a.len() {
            assert((a + b)[i] == a[i]);
        } else {
            assert((a + b)[i] == b[i - a.len()]);
        }
    }
}

/// Picks, greedily, a cheap subset of `candidates` that, with the seed
/// variants (known already and free), solves as many of `cases` as it can:
/// each round tries every unpicked candidate on top of the algorithms
/// chosen so far and picks the one that newly covers the most cases per
/// unit of cost (the first such on a tie), until every case is covered,
/// `max_picks` candidates are picked, or no candidate helps (see
/// `greedy_result`).
pub fn greedy_cover(
    candidates: &[Candidate],
    cases: &[Case],
    depth: usize,
    objective: &Objective,
    max_picks: Option<usize>,
    seed_variants: &[Alg],
) -> (r: Report)
    requires
        moves_fit(alg_views(seed_variants@)),
        forall|k: int| 0 <= k < candidates@.len() ==> moves_fit(alg_views(#[trigger] candidates@[k].variants@)),
    ensures
        report_view(r) == greedy_result(
            (alg_views(seed_variants@), candidates@, target_set(cases@), depth as int, *objective, max_picks),
            cases@,
        ),
{
    let ghost env: GreedyEnv = (alg_views(seed_variants@), candidates@, target_set(cases@), depth as int, *objective, max_picks);
    let target = distinct_targets(cases);
    proof {
        lemma_distinct_len(cases@, cases@.len());
    }
    // algorithms already known going in: free, not counted as picked
    let mut chosen_variants = copy_algs(seed_variants);
    proof {
        lemma_search_fits(chosen_variants@);
    }
    let mut solutions = search(chosen_variants.as_slice(), cases, depth);
    let mut uncovered = still_uncovered(&target, &solutions);
    proof {
        lemma_uncovered_len(target@, groups_view(solutions@));
    }
    let ghost m0 = groups_view(solutions@);
    let ghost unc0 = uncovered@;
    let n = candidates.len();
    let mut flags: Vec<bool> = Vec::new();
    let mut i: usize = 0;
    while i < n
        invariant
            i <= n,
            flags@.len() == i,
            forall|k: int| 0 <= k < i ==> !flags@[k],
        decreases n - i,
    {
        flags.push(false);
        i = i + 1;
    }
    let mut picked: Vec<Picked> = Vec::new();
    let ghost mut picks: Seq<int> = Seq::empty();
    let ghost mut gains: Seq<int> = Seq::empty();
    let mut done = false;
    while !done
        invariant
            env == (alg_views(seed_variants@), candidates@, target_set(cases@), depth as int, *objective, max_picks),
            n == candidates@.len(),
                target@ == target_list(cases@),
            target@.len() <= cases@.len(),
            forall|k: int| 0 <= k < candidates@.len() ==> moves_fit(alg_views(#[trigger] candidates@[k].variants@)),
            flags@.len() == n,
            forall|k: int| 0 <= k < n ==> flags@[k] == picks.contains(k),
            alg_views(chosen_variants@) == chosen(env.0, env.1, picks),
            moves_fit(alg_views(chosen_variants@)),
            picks.len() == gains.len(),
            picked@.len() == picks.len(),
            picks.len() <= n,
            forall|k: int| 0 <= k < picks.len() ==> 0 <= #[trigger] picks[k] < n,
            forall|k: int| 0 <= k < picks.len() ==> #[trigger] picked_view(picked@[k]) == (
                candidates@[picks[k]].label@, candidates@[picks[k]].cost_moves as int, gains[k]),
            uncovered@.len() <= target@.len(),
            greedy_from(env, picks, gains, uncovered@, groups_view(solutions@)) == greedy_from(env, Seq::empty(),
                Seq::empty(), unc0, m0),
            done ==> greedy_from(env, picks, gains, uncovered@, groups_view(solutions@)) == (picks, gains,
                uncovered@, groups_view(solutions@)),
        decreases (n - picks.len()) + (if done { 0int } else { 1int }),
    {
        let at_max = match max_picks {
            Some(max) => picked.len() >= max,
            None => false,
        };
        if uncovered.len() == 0 || at_max || picked.len() >= n {
            done = true;
        } else {
            let mut best: Option<(usize, usize, HashMap<u64, Vec<Solution>>)> = None;
            let mut idx: usize = 0;
            while idx < n
                invariant
                    idx <= n,
                    env == (alg_views(seed_variants@), candidates@, target_set(cases@), depth as int, *objective, max_picks),
                    n == candidates@.len(),
                                uncovered@.len() <= cases@.len(),
                    forall|k: int| 0 <= k < candidates@.len() ==> moves_fit(alg_views(#[trigger] candidates@[k].variants@)),
                    flags@.len() == n,
                    forall|k: int| 0 <= k < n ==> flags@[k] == picks.contains(k),
                    alg_views(chosen_variants@) == chosen(env.0, env.1, picks),
                    moves_fit(alg_views(chosen_variants@)),
                    match best {
                        None => best_upto(env, picks, uncovered@, idx as nat) is None,
                        Some((b, g, ts)) => {
                            &&& best_upto(env, picks, uncovered@, idx as nat) == Some(b as int)
                            &&& b < n
                            &&& g as int == gain_in(uncovered@, trial(env, picks, b as int))
                            &&& groups_view(ts@) == trial(env, picks, b as int)
                        },
                    },
                decreases n - idx,
            {
                if !flags[idx] {
                    let mut trial_algs = copy_algs(chosen_variants.as_slice());
                    extend_with(&mut trial_algs, &candidates[idx].variants);
                    proof {
                        lemma_fit_concat(alg_views(chosen_variants@), alg_views(candidates@[idx as int].variants@));
                        lemma_search_fits(trial_algs@);
                    }
                    let trial_solutions = search(trial_algs.as_slice(), cases, depth);
                    let unc_after = still_uncovered(&uncovered, &trial_solutions);
                    proof {
                        lemma_uncovered_len(uncovered@, groups_view(trial_solutions@));
                        assert(groups_view(trial_solutions@) == trial(env, picks, idx as int));
                    }
                    let gain = uncovered.len() - unc_after.len();
                    if gain > 0 {
                        let cost = objective.cost(&candidates[idx]);
                        let replace = match &best {
                            None => true,
                            Some((b, bg, _)) => is_better(gain, cost, *bg, objective.cost(&candidates[*b])),
                        };
                        if replace {
                            best = Some((idx, gain, trial_solutions));
                        }
                    }
                }
                idx = idx + 1;
            }
            match best {
                None => {
                    done = true;
                },
                Some((b, gain, trial_solutions)) => {
                    let ghost prev_picks = picks;
                    let ghost prev_gains = gains;
                    let ghost prev_unc = uncovered@;
                    let ghost prev_chosen = alg_views(chosen_variants@);
                    flags.set(b, true);
                    extend_with(&mut chosen_variants, &candidates[b].variants);
                    proof {
                        lemma_fit_concat(prev_chosen, alg_views(candidates@[b as int].variants@));
                    }
                    uncovered = still_uncovered(&uncovered, &trial_solutions);
                    proof {
                        lemma_uncovered_len(prev_unc, groups_view(trial_solutions@));
                    }
                    picked.push(Picked {
                        label: candidates[b].label.clone(),
                        cost_moves: candidates[b].cost_moves,
                        newly_covered: gain,
                    });
                    solutions = trial_solutions;
                    proof {
                        picks = prev_picks.push(b as int);
                        gains = prev_gains.push(gain as int);
                        assert(picks.drop_last() =~= prev_picks);
                        assert(picks.last() == b as int);
                        assert(alg_views(chosen_variants@) == chosen(env.0, env.1, picks));
                        assert forall|k: int| 0 <= k < n implies flags@[k] == picks.contains(k) by {
                            if k == b {
                                assert(picks[picks.len() - 1] == k);
                            } else {
                                if picks.contains(k) {
                                    let t = choose|t: int| 0 <= t < picks.len() && picks[t] == k;
                                    assert(prev_picks[t] == k);
                                }
                                if prev_picks.contains(k) {
                                    let t = choose|t: int| 0 <= t < prev_picks.len() && prev_picks[t] == k;
                                    assert(picks[t] == k);
                                }
                            }
                        }
                        assert forall|k: int| 0 <= k < picks.len() implies #[trigger] picked_view(picked@[k]) == (
                            candidates@[picks[k]].label@, candidates@[picks[k]].cost_moves as int, gains[k]) by {
                            if k < prev_picks.len() {
                                assert(picks[k] == prev_picks[k]);
                                assert(gains[k] == prev_gains[k]);
                            }
                        }
                    }
                },
            }
        }
    }
    let covered = target.len() - uncovered.len();
    let r = Report { covered, total: target.len(), picked, solutions };
    assert(Seq::new(r.picked@.len(), |k: int| picked_view(r.picked@[k])) =~= Seq::new(picks.len(),
        |k: int| (candidates@[picks[k]].label@, candidates@[picks[k]].cost_moves as int, gains[k])));
    r
}


// ---------------------------------------------------------------------------
// Laws.

/// The sum of the newly covered counts of picks `0..k`.
pub open spec fn sum_gains(ps: Seq<PickedView>) -> int
    decreases ps.len(),
{
    if ps.len() == 0 {
        0
    } else {
        sum_gains(ps.drop_last()) + ps.last().2
    }
}

pub open spec fn sum_seq(gs: Seq<int>) -> int
    decreases gs.len(),
{
    if gs.len() == 0 {
        0
    } else {
        sum_seq(gs.drop_last()) + gs.last()
    }
}

proof fn lemma_best_upto(env: GreedyEnv, picks: Seq<int>, unc: Seq<u64>, k: nat)
    ensures
        best_upto(env, picks, unc, k) matches Some(i) ==> {
            &&& 0 <= i < k
            &&& i < env.1.len()
            &&& !picks.contains(i)
            &&& gain_in(unc, trial(env, picks, i)) > 0
        },
    decreases k,
{
    if k > 0 && k <= env.1.len() {
        lemma_best_upto(env, picks, unc, (k - 1) as nat);
        lemma_uncovered_len(unc, trial(env, picks, k - 1));
    }
}

/// What the greedy rounds keep: the picks are distinct candidates, each
/// newly covering at least one case, no more than `max_picks` of them, and
/// the counts they newly cover add up to the cases they take off the
/// uncovered list.
proof fn lemma_greedy_from(
    env: GreedyEnv,
    picks: Seq<int>,
    gains: Seq<int>,
    unc: Seq<u64>,
    m: Map<u64, Seq<SolutionView>>,
)
    requires
        picks.len() == gains.len(),
        picks.len() <= env.1.len(),
        forall|k: int| 0 <= k < picks.len() ==> 0 <= #[trigger] picks[k] < env.1.len(),
        forall|k: int, l: int| 0 <= k < l < picks.len() ==> #[trigger] picks[k] != #[trigger] picks[l],
        forall|k: int| 0 <= k < gains.len() ==> #[trigger] gains[k] > 0,
        env.5 matches Some(max) ==> gains.len() <= max,
    ensures
        ({
            let r = greedy_from(env, picks, gains, unc, m);
            &&& r.0.len() == r.1.len()
            &&& r.0.len() <= env.1.len()
            &&& forall|k: int| 0 <= k < r.0.len() ==> 0 <= #[trigger] r.0[k] < env.1.len()
            &&& forall|k: int, l: int| 0 <= k < l < r.0.len() ==> #[trigger] r.0[k] != #[trigger] r.0[l]
            &&& forall|k: int| 0 <= k < r.1.len() ==> #[trigger] r.1[k] > 0
            &&& (env.5 matches Some(max) ==> r.1.len() <= max)
            &&& sum_seq(r.1) - sum_seq(gains) == unc.len() - r.2.len()
            &&& r.2.len() <= unc.len()
        }),
    decreases env.1.len() - picks.len(),
{
    if unc.len() == 0 || (env.5 matches Some(max) && gains.len() >= max) || picks.len() >= env.1.len() {
    } else {
        lemma_best_upto(env, picks, unc, env.1.len());
        match best_upto(env, picks, unc, env.1.len()) {
            None => {},
            Some(i) => {
                let m2 = trial(env, picks, i);
                let g = gain_in(unc, m2);
                let picks2 = picks.push(i);
                let gains2 = gains.push(g);
                lemma_uncovered_len(unc, m2);
                assert forall|k: int, l: int| 0 <= k < l < picks2.len() implies #[trigger] picks2[k] != #[trigger] picks2[l] by {
                    if l == picks.len() {
                        assert(picks2[k] == picks[k]);
                        if picks[k] == i {
                            assert(picks.contains(i));
                        }
                    } else {
                        assert(picks2[k] == picks[k] && picks2[l] == picks[l]);
                    }
                }
                assert(picks2.len() <= env.1.len());
                assert(gains2.drop_last() =~= gains);
                lemma_greedy_from(env, picks2, gains2, uncovered_in(unc, m2), m2);
            },
        }
    }
}

/// Dropping from `s` what `m` covers and then what `m2` covers drops what
/// `m2` covers, when `m2` covers all that `m` does.
proof fn lemma_uncovered_compose(s: Seq<u64>, m: Map<u64, Seq<SolutionView>>, m2: Map<u64, Seq<SolutionView>>)
    requires
        forall|t: u64| #[trigger] is_covered(m, t) ==> is_covered(m2, t),
    ensures
        uncovered_in(uncovered_in(s, m), m2) == uncovered_in(s, m2),
    decreases s.len(),
{
    if s.len() > 0 {
        let init = s.drop_last();
        let t = s.last();
        lemma_uncovered_compose(init, m, m2);
        let u = uncovered_in(init, m);
        if !is_covered(m, t) {
            let u2 = u.push(t);
            assert(u2.drop_last() =~= u);
            assert(u2.last() == t);
        }
    }
}

/// What the greedy rounds leave uncovered is what their last solutions do
/// not reach.
proof fn lemma_greedy_from_cov(env: GreedyEnv, tl: Seq<u64>, picks: Seq<int>, gains: Seq<int>)
    requires
        forall|k: int| 0 <= k < picks.len() ==> 0 <= #[trigger] picks[k] < env.1.len(),
    ensures
        ({
            let m = search_result(chosen(env.0, env.1, picks), env.2, env.3);
            let r = greedy_from(env, picks, gains, uncovered_in(tl, m), m);
            r.2 == uncovered_in(tl, r.3)
        }),
    decreases env.1.len() - picks.len(),
{
    let m = search_result(chosen(env.0, env.1, picks), env.2, env.3);
    let unc = uncovered_in(tl, m);
    if unc.len() == 0 || (env.5 matches Some(max) && gains.len() >= max) || picks.len() >= env.1.len() {
    } else {
        lemma_best_upto(env, picks, unc, env.1.len());
        match best_upto(env, picks, unc, env.1.len()) {
            None => {},
            Some(i) => {
                let m2 = trial(env, picks, i);
                let picks2 = picks.push(i);
                assert(picks2.drop_last() =~= picks);
                assert(chosen(env.0, env.1, picks2) == chosen(env.0, env.1, picks) + alg_views(env.1[i].variants@));
                assert forall|t: u64| #[trigger] is_covered(m, t) implies is_covered(m2, t) by {
                    lemma_search_covers_more(chosen(env.0, env.1, picks), alg_views(env.1[i].variants@), env.2, env.3, t);
                }
                lemma_uncovered_compose(tl, m, m2);
                assert forall|k: int| 0 <= k < picks2.len() implies 0 <= #[trigger] picks2[k] < env.1.len() by {
                    if k < picks.len() {
                        assert(picks2[k] == picks[k]);
                    }
                }
                lemma_greedy_from_cov(env, tl, picks2, gains.push(gain_in(unc, m2)));
            },
        }
    }
}

/// The first candidate among `0..k` not yet picked that newly covers the
/// most of `unc` (and at least one), whatever its cost.
pub open spec fn best_gain_upto(env: GreedyEnv, picks: Seq<int>, unc: Seq<u64>, k: nat) -> Option<int>
    decreases k,
{
    if k == 0 || k > env.1.len() {
        None
    } else {
        let b = best_gain_upto(env, picks, unc, (k - 1) as nat);
        let i = k - 1;
        let g = gain_in(unc, trial(env, picks, i));
        if picks.contains(i) || g == 0 {
            b
        } else {
            match b {
                None => Some(i),
                Some(j) => if g > gain_in(unc, trial(env, picks, j)) {
                    Some(i)
                } else {
                    b
                },
            }
        }
    }
}

/// Every candidate costs the same positive amount: no weight per move and
/// a positive weight per algorithm.
pub open spec fn equal_costs(obj: Objective) -> bool {
    obj.per_move == 0 && obj.per_alg > 0
}

proof fn lemma_best_equal_costs(env: GreedyEnv, picks: Seq<int>, unc: Seq<u64>, k: nat)
    requires
        equal_costs(env.4),
    ensures
        best_upto(env, picks, unc, k) == best_gain_upto(env, picks, unc, k),
    decreases k,
{
    if k > 0 && k <= env.1.len() {
        lemma_best_equal_costs(env, picks, unc, (k - 1) as nat);
        let c = env.4.per_alg as int;
        assert forall|g1: int, g2: int| #[trigger] better(g1, c, g2, c) == (g1 > g2) by {
            assert((g1 * c > g2 * c) == (g1 > g2)) by (nonlinear_arith)
                requires
                    c > 0,
            ;
        }
        assert forall|i: int| 0 <= i < env.1.len() implies #[trigger] cand_cost(env.4, env.1[i]) == c by {}
    }
}

proof fn lemma_greedy_from_equal_costs(
    env1: GreedyEnv,
    env2: GreedyEnv,
    picks: Seq<int>,
    gains: Seq<int>,
    unc: Seq<u64>,
    m: Map<u64, Seq<SolutionView>>,
)
    requires
        equal_costs(env1.4),
        equal_costs(env2.4),
        env1.0 == env2.0 && env1.1 == env2.1 && env1.2 == env2.2 && env1.3 == env2.3 && env1.5 == env2.5,
    ensures
        greedy_from(env1, picks, gains, unc, m) == greedy_from(env2, picks, gains, unc, m),
        best_upto(env1, picks, unc, env1.1.len()) == best_gain_upto(env1, picks, unc, env1.1.len()),
    decreases env1.1.len() - picks.len(),
{
    lemma_best_equal_costs(env1, picks, unc, env1.1.len());
    lemma_best_equal_costs(env2, picks, unc, env2.1.len());
    lemma_best_gain_same(env1, env2, picks, unc, env1.1.len());
    if unc.len() == 0 || (env1.5 matches Some(max) && gains.len() >= max) || picks.len() >= env1.1.len() {
    } else {
        match best_upto(env1, picks, unc, env1.1.len()) {
            None => {},
            Some(i) => {
                lemma_best_upto(env1, picks, unc, env1.1.len());
                assert(trial(env1, picks, i) == trial(env2, picks, i));
                let m2 = trial(env1, picks, i);
                lemma_greedy_from_equal_costs(env1, env2, picks.push(i), gains.push(gain_in(unc, m2)), uncovered_in(unc, m2), m2);
            },
        }
    }
}

proof fn lemma_best_gain_same(env1: GreedyEnv, env2: GreedyEnv, picks: Seq<int>, unc: Seq<u64>, k: nat)
    requires
        env1.0 == env2.0 && env1.1 == env2.1 && env1.2 == env2.2 && env1.3 == env2.3,
    ensures
        best_gain_upto(env1, picks, unc, k) == best_gain_upto(env2, picks, unc, k),
    decreases k,
{
    if k > 0 && k <= env1.1.len() {
        lemma_best_gain_same(env1, env2, picks, unc, (k - 1) as nat);
        assert forall|i: int| #[trigger] trial(env1, picks, i) == trial(env2, picks, i) by {}
    }
}

/// With no weight per move and a positive weight per algorithm, every
/// candidate costs the same, so each round picks, among the candidates not
/// yet picked, the first that newly covers the most cases
/// (`best_gain_upto`), and the report is the same for every such weight,
/// whatever the candidates' move counts: the greedy search for the fewest
/// algorithms.
pub proof fn lemma_greedy_equal_costs(env1: GreedyEnv, env2: GreedyEnv, cases: Seq<Case>, picks: Seq<int>, unc: Seq<u64>)
    requires
        equal_costs(env1.4),
        equal_costs(env2.4),
        env1.0 == env2.0 && env1.1 == env2.1 && env1.2 == env2.2 && env1.3 == env2.3 && env1.5 == env2.5,
    ensures
        best_upto(env1, picks, unc, env1.1.len()) == best_gain_upto(env1, picks, unc, env1.1.len()),
        greedy_result(env1, cases) == greedy_result(env2, cases),
{
    lemma_best_equal_costs(env1, picks, unc, env1.1.len());
    let m0 = search_result(env1.0, env1.2, env1.3);
    let tl = target_list(cases);
    lemma_greedy_from_equal_costs(env1, env2, Seq::empty(), Seq::empty(), uncovered_in(tl, m0), m0);
}

/// What the greedy search reports: it covers between none and all of the
/// targets; it picks each candidate at most once (the rounds' picks are
/// distinct positions in the candidate list) and no more than `max_picks`
/// of them; every pick newly covers at least one case; and the cases that
/// the picks newly cover, added to those the seed covers alone, are the
/// cases covered, which are the targets that the reported solutions reach.
pub proof fn lemma_greedy_result(env: GreedyEnv, cases: Seq<Case>)
    ensures
        ({
            let r = greedy_result(env, cases);
            let m0 = search_result(env.0, env.2, env.3);
            let tl = target_list(cases);
            let rounds = greedy_from(env, Seq::empty(), Seq::empty(), uncovered_in(tl, m0), m0);
            let seed_covered = tl.len() - uncovered_in(tl, m0).len();
            &&& rounds.0.len() == r.0.len()
            &&& forall|k: int| 0 <= k < rounds.0.len() ==> 0 <= #[trigger] rounds.0[k] < env.1.len()
            &&& forall|k: int, l: int| 0 <= k < l < rounds.0.len() ==> #[trigger] rounds.0[k] != #[trigger] rounds.0[l]
            &&& 0 <= r.1 <= r.2
            &&& r.0.len() <= env.1.len()
            &&& (env.5 matches Some(max) ==> r.0.len() <= max)
            &&& forall|k: int| 0 <= k < r.0.len() ==> (#[trigger] r.0[k]).2 > 0
            &&& 0 <= seed_covered
            &&& seed_covered + sum_gains(r.0) == r.1
            &&& r.1 == tl.len() - uncovered_in(tl, r.3).len()
        }),
{
    let m0 = search_result(env.0, env.2, env.3);
    let tl = target_list(cases);
    let unc0 = uncovered_in(tl, m0);
    lemma_uncovered_len(tl, m0);
    lemma_greedy_from(env, Seq::empty(), Seq::empty(), unc0, m0);
    let g = greedy_from(env, Seq::empty(), Seq::empty(), unc0, m0);
    let r = greedy_result(env, cases);
    assert(sum_seq(Seq::<int>::empty()) == 0);
    lemma_sum_gains(r.0, g.1);
    assert(chosen(env.0, env.1, Seq::empty()) == env.0);
    lemma_greedy_from_cov(env, tl, Seq::empty(), Seq::empty());
}

proof fn lemma_sum_gains(ps: Seq<PickedView>, gs: Seq<int>)
    requires
        ps.len() == gs.len(),
        forall|k: int| 0 <= k < ps.len() ==> (#[trigger] ps[k]).2 == gs[k],
    ensures
        sum_gains(ps) == sum_seq(gs),
    decreases ps.len(),
{
    if ps.len() > 0 {
        lemma_sum_gains(ps.drop_last(), gs.drop_last());
    }
}

} // verus!
