//! Search over candidate algorithms, looking for which ones solve which
//! last-layer cases, alone or chained two at a time (a "duplex") with an AUF
//! between them.
//!
//! Rather than setting up each case and making each candidate on it, each
//! candidate is made *backwards* from the solved cube: the state reached is,
//! by construction, one that the candidate solves. Its last-layer indices
//! under the four final AUFs are looked up among the cases' indices.
use vstd::prelude::*;
use std::collections::{HashMap, HashSet};
use crate::alg::{Alg, AlgView, alg_views, full_name, is_alg};
use crate::cube::{
    Cube, pos_after, apply_state, auf_moves, auf_transform, ll_indices, moves_state, solved_state, valid_state,
    lemma_apply_moves, lemma_apply_solved, lemma_moves_state_valid, is_last_layer_state, post_auf, turn,
    lemma_ll_indices, lemma_ll_index_top, lemma_turn_range, lemma_post_auf_moves, lemma_post_auf_last_layer,
    lemma_auf_moves_turn,
};
use crate::enumerate::{
    Case, case_state, is_listed_case, lemma_case_state_valid, lemma_case_state_whole, lemma_moves_state_whole,
    lemma_same_ll_state,
};
use crate::moves::{Layer, Move, inverse_moves, join_moves, lemma_join_front, lemma_read_join, move_text, read_moves};

verus! {

broadcast use vstd::std_specs::hash::group_hash_axioms;

/// One way of solving a case.
#[derive(Debug, Clone)]
pub struct Solution {
    /// Names of the algorithms, in the order in which they are made.
    pub alg_names: Vec<String>,
    /// The whole move sequence, AUFs included, that solves the case.
    pub sequence: String,
    pub move_count: usize,
    /// How many algorithms are chained: 1 for one algorithm, 2 for a duplex.
    pub depth: usize,
}

/// A solution as plain values: (names, sequence, move count, depth).
pub type SolutionView = (Seq<Seq<char>>, Seq<char>, int, int);

pub open spec fn solution_view(s: Solution) -> SolutionView {
    (Seq::new(s.alg_names@.len(), |k: int| s.alg_names@[k]@), s.sequence@, s.move_count as int, s.depth as int)
}

pub open spec fn group_view(g: Seq<Solution>) -> Seq<SolutionView> {
    Seq::new(g.len(), |k: int| solution_view(g[k]))
}

pub open spec fn groups_view(m: Map<u64, Vec<Solution>>) -> Map<u64, Seq<SolutionView>> {
    m.map_values(|g: Vec<Solution>| group_view(g@))
}

/// `a` comes no later than `b`: lower depth first, then fewer moves.
pub open spec fn key_le(a: SolutionView, b: SolutionView) -> bool {
    a.3 < b.3 || (a.3 == b.3 && a.2 <= b.2)
}

/// `g` with `x` inserted after every element that comes no later than it:
/// adding solutions one by one this way orders each group as a stable sort
/// by (depth, move count) of the solutions in the order they were found.
pub open spec fn insert_sorted(g: Seq<SolutionView>, x: SolutionView) -> Seq<SolutionView>
    decreases g.len(),
{
    if g.len() == 0 {
        seq![x]
    } else if key_le(g.last(), x) {
        g.push(x)
    } else {
        insert_sorted(g.drop_last(), x).push(g.last())
    }
}

/// The groups `m` with solution `x` added to the group of index `ll`.
pub open spec fn add_solution(m: Map<u64, Seq<SolutionView>>, ll: u64, x: SolutionView) -> Map<u64, Seq<SolutionView>> {
    let g = if m.contains_key(ll) { m[ll] } else { Seq::empty() };
    m.insert(ll, insert_sorted(g, x))
}

/// The groups `m` with `x` added for each index of `lls` that is a target.
pub open spec fn add_matches(m: Map<u64, Seq<SolutionView>>, lls: Seq<u64>, targets: Set<u64>, x: SolutionView) -> Map<u64, Seq<SolutionView>>
    decreases lls.len(),
{
    if lls.len() == 0 {
        m
    } else {
        let m1 = add_matches(m, lls.drop_last(), targets, x);
        if targets.contains(lls.last()) {
            add_solution(m1, lls.last(), x)
        } else {
            m1
        }
    }
}

/// The AUF that undoes AUF `index` (U and U' swap).
pub open spec fn spec_invert_auf(index: int) -> int {
    if index == 1 {
        3
    } else if index == 3 {
        1
    } else {
        index
    }
}

/// The text put before a sequence for AUF `index`: nothing, or the AUF and
/// a space.
pub open spec fn auf_text(index: int) -> Seq<char> {
    if index == 1 {
        "U "@
    } else if index == 2 {
        "U2 "@
    } else if index == 3 {
        "U' "@
    } else {
        Seq::empty()
    }
}

pub open spec fn bit(b: bool) -> int {
    if b {
        1
    } else {
        0
    }
}

/// The indices of the cases.
pub open spec fn target_set(cases: Seq<Case>) -> Set<u64> {
    Set::new(|v: u64| exists|k: int| 0 <= k < cases.len() && cases[k].ll_index == v)
}

/// The state reached by making algorithm `i` backwards and then AUF `a`.
pub open spec fn state1(algs: Seq<AlgView>, i: int, a: int) -> Seq<int> {
    moves_state(inverse_moves(algs[i].1) + auf_moves(a))
}

/// The solution of that state: AUF `a` undone, then algorithm `i`.
pub open spec fn solution1(algs: Seq<AlgView>, i: int, a: int) -> SolutionView {
    let alg = algs[i];
    let lead = spec_invert_auf(a);
    (
        seq![full_name(alg.0, alg.2, alg.3)],
        auf_text(lead) + join_moves(alg.1),
        alg.1.len() + bit(lead != 0),
        1,
    )
}

/// The state reached by making algorithm `i` backwards, AUF `a`, algorithm
/// `j` backwards and AUF `b`.
pub open spec fn state2(algs: Seq<AlgView>, i: int, a: int, j: int, b: int) -> Seq<int> {
    moves_state(inverse_moves(algs[i].1) + auf_moves(a) + inverse_moves(algs[j].1) + auf_moves(b))
}

/// The solution of that state: AUF `b` undone, algorithm `j`, AUF `a`
/// undone, algorithm `i`.
pub open spec fn solution2(algs: Seq<AlgView>, i: int, a: int, j: int, b: int) -> SolutionView {
    let first = algs[j];
    let second = algs[i];
    let auf1 = spec_invert_auf(b);
    let auf2 = spec_invert_auf(a);
    (
        seq![full_name(first.0, first.2, first.3), full_name(second.0, second.2, second.3)],
        auf_text(auf1) + join_moves(first.1) + " "@ + auf_text(auf2) + join_moves(second.1),
        first.1.len() + second.1.len() + bit(auf1 != 0) + bit(auf2 != 0),
        2,
    )
}

/// The groups after the single-algorithm trials before (algorithm `i`,
/// AUF `a`), in the order algorithm by algorithm, AUF by AUF.
pub open spec fn after_single(algs: Seq<AlgView>, targets: Set<u64>, i: nat, a: nat) -> Map<u64, Seq<SolutionView>>
    decreases i, a,
{
    if a > 0 {
        let m = after_single(algs, targets, i, (a - 1) as nat);
        add_matches(m, ll_indices(state1(algs, i as int, a - 1)), targets, solution1(algs, i as int, a - 1))
    } else if i > 0 {
        after_single(algs, targets, (i - 1) as nat, 4)
    } else {
        Map::empty()
    }
}

/// Duplex trials (`i`, `a`, `j`, 0..b) added to `m0`.
pub open spec fn duplex_b(m0: Map<u64, Seq<SolutionView>>, algs: Seq<AlgView>, targets: Set<u64>, i: int, a: int, j: int, b: nat) -> Map<u64, Seq<SolutionView>>
    decreases b,
{
    if b == 0 {
        m0
    } else {
        let m = duplex_b(m0, algs, targets, i, a, j, (b - 1) as nat);
        add_matches(m, ll_indices(state2(algs, i, a, j, b - 1)), targets, solution2(algs, i, a, j, b - 1))
    }
}

/// Duplex trials (`i`, `a`, 0..j, any AUF) added to `m0`.
pub open spec fn duplex_j(m0: Map<u64, Seq<SolutionView>>, algs: Seq<AlgView>, targets: Set<u64>, i: int, a: int, j: nat) -> Map<u64, Seq<SolutionView>>
    decreases j,
{
    if j == 0 {
        m0
    } else {
        duplex_b(duplex_j(m0, algs, targets, i, a, (j - 1) as nat), algs, targets, i, a, j - 1, 4)
    }
}

/// Duplex trials (`i`, 0..a, any second algorithm) added to `m0`.
pub open spec fn duplex_a(m0: Map<u64, Seq<SolutionView>>, algs: Seq<AlgView>, targets: Set<u64>, i: int, a: nat) -> Map<u64, Seq<SolutionView>>
    decreases a,
{
    if a == 0 {
        m0
    } else {
        duplex_j(duplex_a(m0, algs, targets, i, (a - 1) as nat), algs, targets, i, a - 1, algs.len())
    }
}

/// Duplex trials with first algorithm 0..i added to `m0`.
pub open spec fn duplex_i(m0: Map<u64, Seq<SolutionView>>, algs: Seq<AlgView>, targets: Set<u64>, i: nat) -> Map<u64, Seq<SolutionView>>
    decreases i,
{
    if i == 0 {
        m0
    } else {
        duplex_a(duplex_i(m0, algs, targets, (i - 1) as nat), algs, targets, i - 1, 4)
    }
}

/// What `search` finds: every single-algorithm trial, then (for depth 2 or
/// more) every duplex trial, each solution added to the group of each
/// target index that its state has.
pub open spec fn search_result(algs: Seq<AlgView>, targets: Set<u64>, max_depth: int) -> Map<u64, Seq<SolutionView>> {
    let m1 = after_single(algs, targets, algs.len(), 0);
    if max_depth >= 2 {
        duplex_i(m1, algs, targets, algs.len())
    } else {
        m1
    }
}

/// The longest move list that a candidate may have: two of them, and two
/// AUFs, must be countable.
pub open spec fn max_moves() -> int {
    (usize::MAX - 2) / 2
}

// ---------------------------------------------------------------------------

/// Makes AUF `index` on the cube (1: U, 2: U2, 3: U'; any other: nothing).
pub fn do_auf(cube: &mut Cube, index: usize)
    ensures
        1 <= index <= 3 ==> final(cube)@ == apply_state(old(cube)@, moves_state(auf_moves(index as int))),
        1 <= index <= 3 ==> valid_state(old(cube)@),
        !(1 <= index <= 3) ==> final(cube)@ == old(cube)@,
{
    if 1 <= index && index <= 3 {
        let t = auf_transform(index);
        cube.do_transform(&t);
    }
}

/// The AUF that undoes AUF `index`: once a sequence built backwards is
/// turned around, U and U' swap.
pub fn invert_auf(index: usize) -> (r: usize)
    ensures
        r as int == spec_invert_auf(index as int),
{
    match index {
        1 => 3,
        3 => 1,
        other => other,
    }
}

/// The text put before a sequence for AUF `index`.
pub fn auf_prefix(index: usize) -> (r: String)
    requires
        index < 4,
    ensures
        r@ == auf_text(index as int),
{
    if index == 0 {
        String::new()
    } else if index == 1 {
        String::from_str("U ")
    } else if index == 2 {
        String::from_str("U2 ")
    } else {
        String::from_str("U' ")
    }
}

/// The notation of `moves`, joined by spaces.
pub fn moves_to_string(moves: &[Move]) -> (r: String)
    ensures
        r@ == join_moves(moves@),
{
    let mut r = String::new();
    let n = moves.len();
    let mut i: usize = 0;
    while i < n
        invariant
            i <= n,
            n == moves@.len(),
            r@ == join_moves(moves@.take(i as int)),
        decreases n - i,
    {
        let text = moves[i].text();
        if i > 0 {
            r.append(" ");
        }
        r.append(text.as_str());
        proof {
            let t = moves@.take(i + 1);
            assert(t.drop_last() =~= moves@.take(i as int));
            assert(t.last() == moves@[i as int]);
            if i == 0 {
                assert(t.len() == 1);
                assert(r@ =~= join_moves(t));
            } else {
                assert(r@ =~= join_moves(t));
            }
        }
        i = i + 1;
    }
    assert(moves@.take(n as int) =~= moves@);
    r
}

/// Puts `sol` into `group` after every solution that comes no later than it.
fn insert_by_key(group: &mut Vec<Solution>, sol: Solution)
    ensures
        group_view(final(group)@) == insert_sorted(group_view(old(group)@), solution_view(sol)),
{
    let ghost g = group_view(group@);
    let ghost x = solution_view(sol);
    let mut k = group.len();
    while k > 0 && (group[k - 1].depth > sol.depth || (group[k - 1].depth == sol.depth
        && group[k - 1].move_count > sol.move_count))
        invariant
            k <= group@.len(),
            group@ == old(group)@,
            g == group_view(group@),
            x == solution_view(sol),
            forall|t: int| k <= t < g.len() ==> !key_le(#[trigger] g[t], x),
        decreases k,
    {
        k = k - 1;
    }
    proof {
        lemma_insert_sorted_at(g, x, k as int);
    }
    group.insert(k, sol);
    assert(group_view(group@) =~= g.insert(k as int, x));
}

proof fn lemma_insert_sorted_at(g: Seq<SolutionView>, x: SolutionView, k: int)
    requires
        0 <= k <= g.len(),
        forall|t: int| k <= t < g.len() ==> !key_le(#[trigger] g[t], x),
        k == 0 || key_le(g[k - 1], x),
    ensures
        insert_sorted(g, x) == g.insert(k, x),
    decreases g.len(),
{
    if g.len() == 0 {
        assert(g.insert(k, x) =~= seq![x]);
    } else if k == g.len() {
        assert(key_le(g.last(), x));
        assert(g.insert(k, x) =~= g.push(x));
    } else {
        assert(!key_le(g.last(), x));
        lemma_insert_sorted_at(g.drop_last(), x, k);
        assert(g.insert(k, x) =~= g.drop_last().insert(k, x).push(g.last()));
    }
}

/// Adds `sol` to the group of index `ll`.
fn add_to_group(solutions: &mut HashMap<u64, Vec<Solution>>, ll: u64, sol: Solution)
    ensures
        groups_view(final(solutions)@) == add_solution(groups_view(old(solutions)@), ll, solution_view(sol)),
{
    let ghost before = solutions@;
    let mut group = match solutions.remove(&ll) {
        Some(g) => g,
        None => Vec::new(),
    };
    proof {
        if before.contains_key(ll) {
            assert(group_view(group@) == groups_view(before)[ll]);
        } else {
            assert(group_view(group@) =~= Seq::<SolutionView>::empty());
        }
    }
    insert_by_key(&mut group, sol);
    solutions.insert(ll, group);
    assert(groups_view(solutions@) =~= add_solution(groups_view(before), ll, solution_view(sol)));
}

/// The indices of the cases, as a set.
fn target_indices(cases: &[Case]) -> (r: HashSet<u64>)
    ensures
        r@ == target_set(cases@),
{
    let mut r: HashSet<u64> = HashSet::new();
    let n = cases.len();
    let mut k: usize = 0;
    while k < n
        invariant
            k <= n,
            n == cases@.len(),
            r@ == Set::new(|v: u64| exists|t: int| 0 <= t < k && cases@[t].ll_index == v),
        decreases n - k,
    {
        r.insert(cases[k].ll_index);
        proof {
            assert(r@ =~= Set::new(|v: u64| exists|t: int| 0 <= t < k + 1 && cases@[t].ll_index == v)) by {
                assert forall|v: u64| #[trigger] r@.contains(v) implies exists|t: int| 0 <= t < k + 1 && cases@[t].ll_index == v by {
                    if v == cases@[k as int].ll_index {
                        assert(0 <= k < k + 1 && cases@[k as int].ll_index == v);
                    }
                }
            }
        }
        k = k + 1;
    }
    assert(r@ =~= target_set(cases@));
    r
}

/// Each algorithm inverted.
fn invert_all(algs: &[Alg]) -> (r: Vec<Alg>)
    ensures
        r@.len() == algs@.len(),
        forall|i: int| 0 <= i < algs@.len() ==> is_alg(#[trigger] r@[i], algs@[i].name@,
            inverse_moves(algs@[i].moves@), algs@[i].mirror, !algs@[i].invert),
{
    let mut r: Vec<Alg> = Vec::new();
    let n = algs.len();
    let mut i: usize = 0;
    while i < n
        invariant
            i <= n,
            n == algs@.len(),
            r@.len() == i,
            forall|k: int| 0 <= k < i ==> is_alg(#[trigger] r@[k], algs@[k].name@,
                inverse_moves(algs@[k].moves@), algs@[k].mirror, !algs@[k].invert),
        decreases n - i,
    {
        r.push(algs[i].invert());
        i = i + 1;
    }
    r
}


/// Adds, for each index of `lls` that is a target, the solution of the
/// single-algorithm trial (`i`, `auf`).
fn record_single(
    solutions: &mut HashMap<u64, Vec<Solution>>,
    lls: &Vec<u64>,
    targets: &HashSet<u64>,
    algs: &[Alg],
    inverted: &Vec<Alg>,
    i: usize,
    auf: usize,
)
    requires
        i < algs@.len(),
        inverted@.len() == algs@.len(),
        auf < 4,
        is_alg(inverted@[i as int], algs@[i as int].name@, inverse_moves(algs@[i as int].moves@),
            algs@[i as int].mirror, !algs@[i as int].invert),
        algs@[i as int].moves@.len() <= max_moves(),
    ensures
        groups_view(final(solutions)@) == add_matches(groups_view(old(solutions)@), lls@, targets@,
            solution1(alg_views(algs@), i as int, auf as int)),
{
    let ghost x = solution1(alg_views(algs@), i as int, auf as int);
    let ghost m0 = groups_view(solutions@);
    let n = lls.len();
    let mut k: usize = 0;
    while k < n
        invariant
            k <= n,
            n == lls@.len(),
            i < algs@.len(),
            inverted@.len() == algs@.len(),
            auf < 4,
            is_alg(inverted@[i as int], algs@[i as int].name@, inverse_moves(algs@[i as int].moves@),
                algs@[i as int].mirror, !algs@[i as int].invert),
            algs@[i as int].moves@.len() <= max_moves(),
            x == solution1(alg_views(algs@), i as int, auf as int),
            groups_view(solutions@) == add_matches(m0, lls@.take(k as int), targets@, x),
        decreases n - k,
    {
        let ll = lls[k];
        let ghost before = groups_view(solutions@);
        if targets.contains(&ll) {
            let solved_by = inverted[i].invert();
            proof {
                lemma_inverse_inverse(algs@[i as int].moves@);
            }
            let leading = invert_auf(auf);
            let sequence = auf_prefix(leading).concat(moves_to_string(solved_by.moves.as_slice()).as_str());
            let extra: usize = if leading != 0 { 1 } else { 0 };
            let sol = Solution {
                alg_names: vec![solved_by.get_full_name()],
                sequence,
                move_count: solved_by.moves.len() + extra,
                depth: 1,
            };
            assert(solution_view(sol).0 =~= x.0);
            assert(solution_view(sol) == x);
            add_to_group(solutions, ll, sol);
        }
        proof {
            assert(lls@.take(k + 1).drop_last() =~= lls@.take(k as int));
            assert(lls@.take(k + 1).last() == ll);
        }
        k = k + 1;
    }
    assert(lls@.take(n as int) =~= lls@);
}

/// Adds, for each index of `lls` that is a target, the solution of the
/// duplex trial (`i`, `a`, `j`, `b`).
fn record_duplex(
    solutions: &mut HashMap<u64, Vec<Solution>>,
    lls: &Vec<u64>,
    targets: &HashSet<u64>,
    algs: &[Alg],
    inverted: &Vec<Alg>,
    i: usize,
    a: usize,
    j: usize,
    b: usize,
)
    requires
        i < algs@.len(),
        j < algs@.len(),
        inverted@.len() == algs@.len(),
        a < 4,
        b < 4,
        is_alg(inverted@[i as int], algs@[i as int].name@, inverse_moves(algs@[i as int].moves@),
            algs@[i as int].mirror, !algs@[i as int].invert),
        is_alg(inverted@[j as int], algs@[j as int].name@, inverse_moves(algs@[j as int].moves@),
            algs@[j as int].mirror, !algs@[j as int].invert),
        algs@[i as int].moves@.len() <= max_moves(),
        algs@[j as int].moves@.len() <= max_moves(),
    ensures
        groups_view(final(solutions)@) == add_matches(groups_view(old(solutions)@), lls@, targets@,
            solution2(alg_views(algs@), i as int, a as int, j as int, b as int)),
{
    let ghost x = solution2(alg_views(algs@), i as int, a as int, j as int, b as int);
    let ghost m0 = groups_view(solutions@);
    let n = lls.len();
    let mut k: usize = 0;
    while k < n
        invariant
            k <= n,
            n == lls@.len(),
            i < algs@.len(),
            j < algs@.len(),
            inverted@.len() == algs@.len(),
            a < 4,
            b < 4,
            is_alg(inverted@[i as int], algs@[i as int].name@, inverse_moves(algs@[i as int].moves@),
                algs@[i as int].mirror, !algs@[i as int].invert),
            is_alg(inverted@[j as int], algs@[j as int].name@, inverse_moves(algs@[j as int].moves@),
                algs@[j as int].mirror, !algs@[j as int].invert),
            algs@[i as int].moves@.len() <= max_moves(),
            algs@[j as int].moves@.len() <= max_moves(),
            x == solution2(alg_views(algs@), i as int, a as int, j as int, b as int),
            groups_view(solutions@) == add_matches(m0, lls@.take(k as int), targets@, x),
        decreases n - k,
    {
        let ll = lls[k];
        if targets.contains(&ll) {
            // made in this order to solve the case
            let solved_by_1st = inverted[j].invert();
            let solved_by_2nd = inverted[i].invert();
            proof {
                lemma_inverse_inverse(algs@[i as int].moves@);
                lemma_inverse_inverse(algs@[j as int].moves@);
            }
            let auf_1st = invert_auf(b);
            let auf_2nd = invert_auf(a);
            let first_part = auf_prefix(auf_1st).concat(moves_to_string(solved_by_1st.moves.as_slice()).as_str());
            let second_part = auf_prefix(auf_2nd).concat(moves_to_string(solved_by_2nd.moves.as_slice()).as_str());
            let sequence = first_part.concat(" ").concat(second_part.as_str());
            let extra1: usize = if auf_1st != 0 { 1 } else { 0 };
            let extra2: usize = if auf_2nd != 0 { 1 } else { 0 };
            let sol = Solution {
                alg_names: vec![solved_by_1st.get_full_name(), solved_by_2nd.get_full_name()],
                sequence,
                move_count: solved_by_1st.moves.len() + solved_by_2nd.moves.len() + extra1 + extra2,
                depth: 2,
            };
            assert(solution_view(sol).0 =~= x.0);
            assert(solution_view(sol).1 =~= x.1);
            assert(solution_view(sol) == x);
            add_to_group(solutions, ll, sol);
        }
        proof {
            assert(lls@.take(k + 1).drop_last() =~= lls@.take(k as int));
            assert(lls@.take(k + 1).last() == ll);
        }
        k = k + 1;
    }
    assert(lls@.take(n as int) =~= lls@);
}


/// Searches `algs` (and, when `max_depth >= 2`, every AUF-separated pair of
/// `algs`) for solutions to every case in `cases`. Returns, for each case
/// index that some trial reaches, every solution found, shortest and
/// lowest-depth first (see `search_result`).
pub fn search(algs: &[Alg], cases: &[Case], max_depth: usize) -> (r: HashMap<u64, Vec<Solution>>)
    requires
        forall|i: int| 0 <= i < algs@.len() ==> (#[trigger] algs@[i]).moves@.len() <= max_moves(),
    ensures
        groups_view(r@) == search_result(alg_views(algs@), target_set(cases@), max_depth as int),
        well_grouped(groups_view(r@), target_set(cases@), if max_depth >= 2 { 2 } else { 1 }),
{
    proof {
        lemma_search_grouped(alg_views(algs@), target_set(cases@), max_depth as int);
    }
    let targets = target_indices(cases);
    let ghost tgt = target_set(cases@);
    let inverted = invert_all(algs);
    let mut solutions: HashMap<u64, Vec<Solution>> = HashMap::new();
    let mut cube = Cube::new();
    let n = inverted.len();
    assert(groups_view(solutions@) =~= after_single(alg_views(algs@), tgt, 0, 0));

    // depth 1: a single candidate alg, with a leading AUF
    let mut i: usize = 0;
    while i < n
        invariant
            i <= n,
            n == algs@.len(),
            inverted@.len() == n,
            targets@ == tgt,
            forall|k: int| 0 <= k < algs@.len() ==> (#[trigger] algs@[k]).moves@.len() <= max_moves(),
            forall|k: int| 0 <= k < algs@.len() ==> is_alg(#[trigger] inverted@[k], algs@[k].name@,
                inverse_moves(algs@[k].moves@), algs@[k].mirror, !algs@[k].invert),
            groups_view(solutions@) == after_single(alg_views(algs@), tgt, i as nat, 0),
        decreases n - i,
    {
        let mut auf: usize = 0;
        while auf < 4
            invariant
                i < n,
                auf <= 4,
                n == algs@.len(),
                inverted@.len() == n,
                targets@ == tgt,
                forall|k: int| 0 <= k < algs@.len() ==> (#[trigger] algs@[k]).moves@.len() <= max_moves(),
                forall|k: int| 0 <= k < algs@.len() ==> is_alg(#[trigger] inverted@[k], algs@[k].name@,
                    inverse_moves(algs@[k].moves@), algs@[k].mirror, !algs@[k].invert),
                groups_view(solutions@) == after_single(alg_views(algs@), tgt, i as nat, auf as nat),
            decreases 4 - auf,
        {
            cube.replace(Cube::new());
            cube.do_transform(&inverted[i].transform);
            proof {
                lemma_moves_state_valid(inverse_moves(algs@[i as int].moves@));
                lemma_apply_solved(moves_state(inverse_moves(algs@[i as int].moves@)));
            }
            do_auf(&mut cube, auf);
            proof {
                let inv = inverse_moves(algs@[i as int].moves@);
                lemma_apply_moves(inv, auf_moves(auf as int));
                if auf == 0 {
                    assert(inv + auf_moves(auf as int) =~= inv);
                }
                assert(cube@ == state1(alg_views(algs@), i as int, auf as int));
            }
            let lls = cube.get_ll_indices();
            record_single(&mut solutions, &lls, &targets, algs, &inverted, i, auf);
            auf = auf + 1;
        }
        i = i + 1;
    }

    // depth 2 ("duplex"): two candidate algs chained with an AUF between them
    if max_depth >= 2 {
        let ghost m1 = after_single(alg_views(algs@), tgt, n as nat, 0);
        let mut i: usize = 0;
        while i < n
            invariant
                i <= n,
                n == algs@.len(),
                inverted@.len() == n,
                targets@ == tgt,
                forall|k: int| 0 <= k < algs@.len() ==> (#[trigger] algs@[k]).moves@.len() <= max_moves(),
                forall|k: int| 0 <= k < algs@.len() ==> is_alg(#[trigger] inverted@[k], algs@[k].name@,
                    inverse_moves(algs@[k].moves@), algs@[k].mirror, !algs@[k].invert),
                groups_view(solutions@) == duplex_i(m1, alg_views(algs@), tgt, i as nat),
            decreases n - i,
        {
            let mut first_auf: usize = 0;
            while first_auf < 4
                invariant
                    i < n,
                    first_auf <= 4,
                    n == algs@.len(),
                    inverted@.len() == n,
                    targets@ == tgt,
                    forall|k: int| 0 <= k < algs@.len() ==> (#[trigger] algs@[k]).moves@.len() <= max_moves(),
                    forall|k: int| 0 <= k < algs@.len() ==> is_alg(#[trigger] inverted@[k], algs@[k].name@,
                        inverse_moves(algs@[k].moves@), algs@[k].mirror, !algs@[k].invert),
                    groups_view(solutions@) == duplex_a(duplex_i(m1, alg_views(algs@), tgt, i as nat), alg_views(algs@), tgt,
                        i as int, first_auf as nat),
                decreases 4 - first_auf,
            {
                let ghost ma = duplex_a(duplex_i(m1, alg_views(algs@), tgt, i as nat), alg_views(algs@), tgt, i as int, first_auf as nat);
                let mut j: usize = 0;
                while j < n
                    invariant
                        i < n,
                        first_auf < 4,
                        j <= n,
                        n == algs@.len(),
                        inverted@.len() == n,
                        targets@ == tgt,
                        forall|k: int| 0 <= k < algs@.len() ==> (#[trigger] algs@[k]).moves@.len() <= max_moves(),
                        forall|k: int| 0 <= k < algs@.len() ==> is_alg(#[trigger] inverted@[k], algs@[k].name@,
                            inverse_moves(algs@[k].moves@), algs@[k].mirror, !algs@[k].invert),
                        groups_view(solutions@) == duplex_j(ma, alg_views(algs@), tgt, i as int, first_auf as int, j as nat),
                    decreases n - j,
                {
                    let ghost mj = duplex_j(ma, alg_views(algs@), tgt, i as int, first_auf as int, j as nat);
                    let mut second_auf: usize = 0;
                    while second_auf < 4
                        invariant
                            i < n,
                            first_auf < 4,
                            j < n,
                            second_auf <= 4,
                            n == algs@.len(),
                            inverted@.len() == n,
                            targets@ == tgt,
                            forall|k: int| 0 <= k < algs@.len() ==> (#[trigger] algs@[k]).moves@.len() <= max_moves(),
                            forall|k: int| 0 <= k < algs@.len() ==> is_alg(#[trigger] inverted@[k], algs@[k].name@,
                                inverse_moves(algs@[k].moves@), algs@[k].mirror, !algs@[k].invert),
                            groups_view(solutions@) == duplex_b(mj, alg_views(algs@), tgt, i as int, first_auf as int,
                                j as int, second_auf as nat),
                        decreases 4 - second_auf,
                    {
                        cube.replace(Cube::new());
                        cube.do_transform(&inverted[i].transform);
                        proof {
                            lemma_moves_state_valid(inverse_moves(algs@[i as int].moves@));
                            lemma_apply_solved(moves_state(inverse_moves(algs@[i as int].moves@)));
                        }
                        do_auf(&mut cube, first_auf);
                        let ghost p1 = inverse_moves(algs@[i as int].moves@) + auf_moves(first_auf as int);
                        proof {
                            let inv = inverse_moves(algs@[i as int].moves@);
                            lemma_apply_moves(inv, auf_moves(first_auf as int));
                            if first_auf == 0 {
                                assert(inv + auf_moves(first_auf as int) =~= inv);
                            }
                            assert(cube@ == moves_state(p1));
                        }
                        cube.do_transform(&inverted[j].transform);
                        let ghost p2 = p1 + inverse_moves(algs@[j as int].moves@);
                        proof {
                            lemma_apply_moves(p1, inverse_moves(algs@[j as int].moves@));
                        }
                        do_auf(&mut cube, second_auf);
                        proof {
                            lemma_apply_moves(p2, auf_moves(second_auf as int));
                            if second_auf == 0 {
                                assert(p2 + auf_moves(second_auf as int) =~= p2);
                            }
                            assert(cube@ == state2(alg_views(algs@), i as int, first_auf as int, j as int, second_auf as int));
                        }
                        let lls = cube.get_ll_indices();
                        record_duplex(&mut solutions, &lls, &targets, algs, &inverted, i, first_auf, j, second_auf);
                        second_auf = second_auf + 1;
                    }
                    j = j + 1;
                }
                first_auf = first_auf + 1;
            }
            i = i + 1;
        }
    }
    solutions
}


// ---------------------------------------------------------------------------
// Laws.

/// The solutions of a group come in order: lower depth first, then fewer
/// moves.
pub open spec fn sorted_group(g: Seq<SolutionView>) -> bool {
    forall|i: int, j: int| 0 <= i < j < g.len() ==> key_le(#[trigger] g[i], #[trigger] g[j])
}

/// Every group is in order, holds at least one solution of depth 1..=`hi`,
/// and belongs to a target index.
pub open spec fn well_grouped(m: Map<u64, Seq<SolutionView>>, targets: Set<u64>, hi: int) -> bool {
    forall|k: u64| #[trigger] m.contains_key(k) ==> {
        &&& targets.contains(k)
        &&& m[k].len() > 0
        &&& sorted_group(m[k])
        &&& forall|i: int| 0 <= i < m[k].len() ==> 1 <= (#[trigger] m[k][i]).3 <= hi
    }
}

proof fn lemma_insert_bounded(g: Seq<SolutionView>, x: SolutionView, y: SolutionView, lo: int, hi: int)
    requires
        forall|i: int| 0 <= i < g.len() ==> key_le(#[trigger] g[i], y) && lo <= g[i].3 <= hi,
        key_le(x, y),
        lo <= x.3 <= hi,
    ensures
        forall|i: int| 0 <= i < insert_sorted(g, x).len() ==> key_le(#[trigger] insert_sorted(g, x)[i], y)
            && lo <= insert_sorted(g, x)[i].3 <= hi,
        insert_sorted(g, x).len() == g.len() + 1,
    decreases g.len(),
{
    if g.len() > 0 && !key_le(g.last(), x) {
        lemma_insert_bounded(g.drop_last(), x, y, lo, hi);
    }
}

proof fn lemma_insert_sorted(g: Seq<SolutionView>, x: SolutionView, lo: int, hi: int)
    requires
        sorted_group(g),
        forall|i: int| 0 <= i < g.len() ==> lo <= (#[trigger] g[i]).3 <= hi,
        lo <= x.3 <= hi,
    ensures
        sorted_group(insert_sorted(g, x)),
        forall|i: int| 0 <= i < insert_sorted(g, x).len() ==> lo <= (#[trigger] insert_sorted(g, x)[i]).3 <= hi,
        insert_sorted(g, x).len() == g.len() + 1,
    decreases g.len(),
{
    if g.len() == 0 {
    } else if key_le(g.last(), x) {
        let r = g.push(x);
        assert forall|i: int, j: int| 0 <= i < j < r.len() implies key_le(#[trigger] r[i], #[trigger] r[j]) by {
            if j == g.len() {
                if i < g.len() - 1 {
                    assert(key_le(g[i], g[g.len() - 1]));
                }
            } else {
                assert(key_le(g[i], g[j]));
            }
        }
    } else {
        let h = g.drop_last();
        let l = g.last();
        assert(sorted_group(h)) by {
            assert forall|i: int, j: int| 0 <= i < j < h.len() implies key_le(#[trigger] h[i], #[trigger] h[j]) by {
                assert(key_le(g[i], g[j]));
            }
        }
        lemma_insert_sorted(h, x, lo, hi);
        assert forall|i: int| 0 <= i < h.len() implies key_le(#[trigger] h[i], l) && lo <= h[i].3 <= hi by {
            assert(key_le(g[i], g[g.len() - 1]));
        }
        lemma_insert_bounded(h, x, l, lo, hi);
        let inner = insert_sorted(h, x);
        let r = inner.push(l);
        assert forall|i: int, j: int| 0 <= i < j < r.len() implies key_le(#[trigger] r[i], #[trigger] r[j]) by {
            if j == inner.len() {
                assert(key_le(inner[i], l));
            } else {
                assert(key_le(inner[i], inner[j]));
            }
        }
    }
}

proof fn lemma_add_matches_well_grouped(
    m: Map<u64, Seq<SolutionView>>,
    lls: Seq<u64>,
    targets: Set<u64>,
    x: SolutionView,
    hi: int,
)
    requires
        well_grouped(m, targets, hi),
        1 <= x.3 <= hi,
    ensures
        well_grouped(add_matches(m, lls, targets, x), targets, hi),
    decreases lls.len(),
{
    if lls.len() > 0 {
        lemma_add_matches_well_grouped(m, lls.drop_last(), targets, x, hi);
        let m1 = add_matches(m, lls.drop_last(), targets, x);
        let ll = lls.last();
        if targets.contains(ll) {
            let g = if m1.contains_key(ll) { m1[ll] } else { Seq::empty() };
            lemma_insert_sorted(g, x, 1, hi);
            let m2 = add_solution(m1, ll, x);
            assert forall|k: u64| #[trigger] m2.contains_key(k) implies {
                &&& targets.contains(k)
                &&& m2[k].len() > 0
                &&& sorted_group(m2[k])
                &&& forall|i: int| 0 <= i < m2[k].len() ==> 1 <= (#[trigger] m2[k][i]).3 <= hi
            } by {
                if k != ll {
                    assert(m1.contains_key(k));
                }
            }
        }
    }
}

proof fn lemma_after_single_well_grouped(algs: Seq<AlgView>, targets: Set<u64>, i: nat, a: nat)
    ensures
        well_grouped(after_single(algs, targets, i, a), targets, 1),
    decreases i, a,
{
    if a > 0 {
        lemma_after_single_well_grouped(algs, targets, i, (a - 1) as nat);
        lemma_add_matches_well_grouped(after_single(algs, targets, i, (a - 1) as nat),
            ll_indices(state1(algs, i as int, a - 1)), targets, solution1(algs, i as int, a - 1), 1);
    } else if i > 0 {
        lemma_after_single_well_grouped(algs, targets, (i - 1) as nat, 4);
    }
}

proof fn lemma_well_grouped_widen(m: Map<u64, Seq<SolutionView>>, targets: Set<u64>)
    requires
        well_grouped(m, targets, 1),
    ensures
        well_grouped(m, targets, 2),
{
    assert forall|k: u64| #[trigger] m.contains_key(k) implies forall|i: int| 0 <= i < m[k].len()
        ==> 1 <= (#[trigger] m[k][i]).3 <= 2 by {
        assert forall|i: int| 0 <= i < m[k].len() implies 1 <= (#[trigger] m[k][i]).3 <= 2 by {
            assert(1 <= m[k][i].3 <= 1);
        }
    }
}

proof fn lemma_duplex_well_grouped(m0: Map<u64, Seq<SolutionView>>, algs: Seq<AlgView>, targets: Set<u64>, i: nat)
    requires
        well_grouped(m0, targets, 2),
    ensures
        well_grouped(duplex_i(m0, algs, targets, i), targets, 2),
    decreases i,
{
    if i > 0 {
        lemma_duplex_well_grouped(m0, algs, targets, (i - 1) as nat);
        let mi = duplex_i(m0, algs, targets, (i - 1) as nat);
        lemma_duplex_a_well_grouped(mi, algs, targets, i - 1, 4);
    }
}

proof fn lemma_duplex_a_well_grouped(m0: Map<u64, Seq<SolutionView>>, algs: Seq<AlgView>, targets: Set<u64>, i: int, a: nat)
    requires
        well_grouped(m0, targets, 2),
    ensures
        well_grouped(duplex_a(m0, algs, targets, i, a), targets, 2),
    decreases a,
{
    if a > 0 {
        lemma_duplex_a_well_grouped(m0, algs, targets, i, (a - 1) as nat);
        let ma = duplex_a(m0, algs, targets, i, (a - 1) as nat);
        lemma_duplex_j_well_grouped(ma, algs, targets, i, a - 1, algs.len());
    }
}

proof fn lemma_duplex_j_well_grouped(m0: Map<u64, Seq<SolutionView>>, algs: Seq<AlgView>, targets: Set<u64>, i: int, a: int, j: nat)
    requires
        well_grouped(m0, targets, 2),
    ensures
        well_grouped(duplex_j(m0, algs, targets, i, a, j), targets, 2),
    decreases j,
{
    if j > 0 {
        lemma_duplex_j_well_grouped(m0, algs, targets, i, a, (j - 1) as nat);
        let mj = duplex_j(m0, algs, targets, i, a, (j - 1) as nat);
        lemma_duplex_b_well_grouped(mj, algs, targets, i, a, j - 1, 4);
    }
}

proof fn lemma_duplex_b_well_grouped(m0: Map<u64, Seq<SolutionView>>, algs: Seq<AlgView>, targets: Set<u64>, i: int, a: int, j: int, b: nat)
    requires
        well_grouped(m0, targets, 2),
    ensures
        well_grouped(duplex_b(m0, algs, targets, i, a, j, b), targets, 2),
    decreases b,
{
    if b > 0 {
        lemma_duplex_b_well_grouped(m0, algs, targets, i, a, j, (b - 1) as nat);
        lemma_add_matches_well_grouped(duplex_b(m0, algs, targets, i, a, j, (b - 1) as nat),
            ll_indices(state2(algs, i, a, j, b - 1)), targets, solution2(algs, i, a, j, b - 1), 2);
    }
}

/// What `search` returns is grouped by case index: only the cases' indices
/// have groups, every group holds at least one solution, each group lists
/// lower depths first and then fewer moves, and depths are 1 (one
/// algorithm) or, when `max_depth >= 2`, 2 (a duplex).
pub proof fn lemma_search_grouped(algs: Seq<AlgView>, targets: Set<u64>, max_depth: int)
    ensures
        well_grouped(search_result(algs, targets, max_depth), targets, if max_depth >= 2 { 2 } else { 1 }),
{
    lemma_after_single_well_grouped(algs, targets, algs.len(), 0);
    if max_depth >= 2 {
        let m1 = after_single(algs, targets, algs.len(), 0);
        lemma_well_grouped_widen(m1, targets);
        lemma_duplex_well_grouped(m1, algs, targets, algs.len());
    }
}

/// Undoing an AUF: the AUF `spec_invert_auf(a)` is the inverse of AUF `a`,
/// and inverting twice gives `a` back.
pub proof fn lemma_invert_auf(a: int)
    requires
        0 <= a < 4,
    ensures
        auf_moves(spec_invert_auf(a)) == inverse_moves(auf_moves(a)),
        spec_invert_auf(spec_invert_auf(a)) == a,
        0 <= spec_invert_auf(a) < 4,
{
    assert(auf_moves(spec_invert_auf(a)) =~= inverse_moves(auf_moves(a)));
}

/// `do_auf` with AUF `a` and then with `invert_auf(a)` leaves any cube as
/// it was.
pub proof fn lemma_auf_undone(s: Seq<int>, a: int)
    requires
        valid_state(s),
        0 <= a < 4,
    ensures
        apply_state(apply_state(s, moves_state(auf_moves(a))), moves_state(auf_moves(spec_invert_auf(a)))) == s,
{
    lemma_invert_auf(a);
    crate::cube::lemma_apply_inverse(s, auf_moves(a));
}

/// `do_auf` with AUF `a` and then with `invert_auf(a)` leaves any cube as
/// it was: states `s0`, `s1`, `s2` related as the two calls' contracts say
/// have `s2 == s0`.
pub proof fn lemma_do_auf_undone(s0: Seq<int>, s1: Seq<int>, s2: Seq<int>, a: int)
    requires
        0 <= a,
        1 <= a <= 3 ==> s1 == apply_state(s0, moves_state(auf_moves(a))) && valid_state(s0),
        !(1 <= a <= 3) ==> s1 == s0,
        1 <= spec_invert_auf(a) <= 3 ==> s2 == apply_state(s1, moves_state(auf_moves(spec_invert_auf(a)))),
        !(1 <= spec_invert_auf(a) <= 3) ==> s2 == s1,
    ensures
        s2 == s0,
{
    if 1 <= a <= 3 {
        lemma_auf_undone(s0, a);
    }
}

/// The moves `ms` made on the state that their inverse reaches from solved
/// give the solved cube back: the state reached by running a candidate
/// backwards is one that the candidate solves.
pub proof fn lemma_backwards_then_forward(ms: Seq<Move>)
    ensures
        apply_state(moves_state(inverse_moves(ms)), moves_state(ms)) == solved_state(),
{
    crate::cube::lemma_moves_state_valid(ms);
    assert forall|p: int| 0 <= p < 54 implies #[trigger] apply_state(moves_state(inverse_moves(ms)), moves_state(ms))[p]
        == solved_state()[p] by {
        lemma_inverse_inverse(ms);
        crate::cube::lemma_pos_after_range(inverse_moves(ms), p);
        crate::cube::lemma_pos_after_inverse(inverse_moves(ms), p);
        let q = pos_after(inverse_moves(ms), p);
        assert(moves_state(inverse_moves(ms))[p] == q);
        assert(moves_state(ms)[q] == pos_after(ms, q));
    }
    assert(apply_state(moves_state(inverse_moves(ms)), moves_state(ms)) =~= solved_state());
}

proof fn lemma_cancel_middle(pre: Seq<Move>, mid: Seq<Move>, post: Seq<Move>, p: int)
    requires
        0 <= p < 54,
    ensures
        pos_after(pre + mid + inverse_moves(mid) + post, p) == pos_after(pre + post, p),
{
    let q = pos_after(pre, p);
    crate::cube::lemma_pos_after_range(pre, p);
    crate::cube::lemma_pos_after_concat(pre + mid + inverse_moves(mid), post, p);
    crate::cube::lemma_pos_after_concat(pre + mid, inverse_moves(mid), p);
    crate::cube::lemma_pos_after_concat(pre, mid, p);
    crate::cube::lemma_pos_after_inverse(mid, q);
    crate::cube::lemma_pos_after_concat(pre, post, p);
}

/// The solution recorded for a single-algorithm trial solves the trial's
/// state: undoing AUF `a` and then making algorithm `i` gives the solved
/// cube.
pub proof fn lemma_single_solution_solves(algs: Seq<AlgView>, i: int, a: int)
    requires
        0 <= i < algs.len(),
        0 <= a < 4,
    ensures
        apply_state(state1(algs, i, a), moves_state(auf_moves(spec_invert_auf(a)) + algs[i].1)) == solved_state(),
{
    let m = algs[i].1;
    lemma_invert_auf(a);
    let whole = inverse_moves(m) + auf_moves(a) + (auf_moves(spec_invert_auf(a)) + m);
    crate::cube::lemma_apply_moves(inverse_moves(m) + auf_moves(a), auf_moves(spec_invert_auf(a)) + m);
    assert(whole =~= inverse_moves(m) + auf_moves(a) + inverse_moves(auf_moves(a)) + m);
    assert forall|p: int| 0 <= p < 54 implies #[trigger] moves_state(whole)[p] == moves_state(inverse_moves(m) + m)[p] by {
        lemma_cancel_middle(inverse_moves(m), auf_moves(a), m, p);
    }
    assert(moves_state(whole) =~= moves_state(inverse_moves(m) + m));
    crate::cube::lemma_apply_moves(inverse_moves(m), m);
    lemma_backwards_then_forward(m);
}

proof fn lemma_cancel_state(pre: Seq<Move>, mid: Seq<Move>, post: Seq<Move>)
    ensures
        moves_state(pre + mid + inverse_moves(mid) + post) == moves_state(pre + post),
{
    assert forall|p: int| 0 <= p < 54 implies #[trigger] moves_state(pre + mid + inverse_moves(mid) + post)[p]
        == moves_state(pre + post)[p] by {
        lemma_cancel_middle(pre, mid, post, p);
    }
    assert(moves_state(pre + mid + inverse_moves(mid) + post) =~= moves_state(pre + post));
}

/// The solution recorded for a duplex trial solves the trial's state:
/// undoing AUF `b`, making algorithm `j`, undoing AUF `a` and making
/// algorithm `i` gives the solved cube.
pub proof fn lemma_duplex_solution_solves(algs: Seq<AlgView>, i: int, a: int, j: int, b: int)
    requires
        0 <= i < algs.len(),
        0 <= j < algs.len(),
        0 <= a < 4,
        0 <= b < 4,
    ensures
        apply_state(state2(algs, i, a, j, b), moves_state(auf_moves(spec_invert_auf(b)) + algs[j].1
            + auf_moves(spec_invert_auf(a)) + algs[i].1)) == solved_state(),
{
    let mi = algs[i].1;
    let mj = algs[j].1;
    let ua = auf_moves(a);
    let ub = auf_moves(b);
    lemma_invert_auf(a);
    lemma_invert_auf(b);
    lemma_inverse_inverse(mj);
    let first = inverse_moves(mi) + ua + inverse_moves(mj) + ub;
    let second = inverse_moves(ub) + mj + inverse_moves(ua) + mi;
    crate::cube::lemma_apply_moves(first, second);
    // undo b
    let pre1 = inverse_moves(mi) + ua + inverse_moves(mj);
    let post1 = mj + inverse_moves(ua) + mi;
    assert(first + second =~= pre1 + ub + inverse_moves(ub) + post1);
    lemma_cancel_state(pre1, ub, post1);
    // undo algorithm j
    let pre2 = inverse_moves(mi) + ua;
    let post2 = inverse_moves(ua) + mi;
    assert(pre1 + post1 =~= pre2 + inverse_moves(mj) + inverse_moves(inverse_moves(mj)) + post2);
    lemma_cancel_state(pre2, inverse_moves(mj), post2);
    // undo a
    assert(pre2 + post2 =~= inverse_moves(mi) + ua + inverse_moves(ua) + mi);
    lemma_cancel_state(inverse_moves(mi), ua, mi);
    // undo algorithm i
    crate::cube::lemma_apply_moves(inverse_moves(mi), mi);
    lemma_backwards_then_forward(mi);
}

/// The text of AUF `a` followed by a written sequence `ms` is the written
/// sequence of the AUF's moves followed by `ms`.
proof fn lemma_auf_join(a: int, ms: Seq<Move>)
    requires
        0 <= a < 4,
        ms.len() > 0,
    ensures
        auf_text(a) + join_moves(ms) == join_moves(auf_moves(a) + ms),
{
    if a == 0 {
        assert(auf_moves(a) + ms =~= ms);
        assert(auf_text(a) + join_moves(ms) =~= join_moves(ms));
    } else {
        let whole = auf_moves(a) + ms;
        lemma_join_front(whole);
        assert(whole.drop_first() =~= ms);
        reveal_strlit("U ");
        reveal_strlit("U2 ");
        reveal_strlit("U' ");
        reveal_strlit("U");
        reveal_strlit("'");
        reveal_strlit("2");
        reveal_strlit(" ");
        assert(move_text(whole[0]) + " "@ =~= auf_text(a));
    }
}

/// Two written sequences joined by a space are the written concatenation.
proof fn lemma_join_concat(x: Seq<Move>, y: Seq<Move>)
    requires
        x.len() > 0,
        y.len() > 0,
    ensures
        join_moves(x) + " "@ + join_moves(y) == join_moves(x + y),
    decreases y.len(),
{
    let xy = x + y;
    assert(xy.drop_last() =~= x + y.drop_last());
    assert(xy.last() == y.last());
    if y.len() == 1 {
        assert(x + y.drop_last() =~= x);
    } else {
        lemma_join_concat(x, y.drop_last());
        let a = join_moves(x);
        let b = join_moves(y.drop_last());
        let c = move_text(y.last());
        let sp = " "@;
        assert(join_moves(y) == b + sp + c);
        assert(a + sp + (b + sp + c) =~= a + sp + b + sp + c);
    }
}

/// The sequence recorded for a single-algorithm trial, read back as moves,
/// is the leading AUF and the algorithm, every character read, and those
/// moves solve the trial's state. (An algorithm with no moves is left out:
/// its sequence may end in a space after a suffix, as in `U2 `, which the
/// reader does not take.)
pub proof fn lemma_single_sequence_solves(algs: Seq<AlgView>, i: int, a: int)
    requires
        0 <= i < algs.len(),
        0 <= a < 4,
        algs[i].1.len() > 0,
    ensures
        read_moves(solution1(algs, i, a).1, 0) == (auf_moves(spec_invert_auf(a)) + algs[i].1,
            solution1(algs, i, a).1.len() as int),
        apply_state(state1(algs, i, a), moves_state(read_moves(solution1(algs, i, a).1, 0).0)) == solved_state(),
{
    let lead = spec_invert_auf(a);
    lemma_invert_auf(a);
    lemma_auf_join(lead, algs[i].1);
    lemma_read_join(auf_moves(lead) + algs[i].1);
    lemma_single_solution_solves(algs, i, a);
}

/// The sequence recorded for a duplex trial, read back as moves, is the
/// first AUF, the first algorithm, the second AUF and the second algorithm,
/// every character read, and those moves solve the trial's state (the
/// algorithms having moves, as above).
pub proof fn lemma_duplex_sequence_solves(algs: Seq<AlgView>, i: int, a: int, j: int, b: int)
    requires
        0 <= i < algs.len(),
        0 <= j < algs.len(),
        0 <= a < 4,
        0 <= b < 4,
        algs[i].1.len() > 0,
        algs[j].1.len() > 0,
    ensures
        read_moves(solution2(algs, i, a, j, b).1, 0) == (auf_moves(spec_invert_auf(b)) + algs[j].1
            + auf_moves(spec_invert_auf(a)) + algs[i].1, solution2(algs, i, a, j, b).1.len() as int),
        apply_state(state2(algs, i, a, j, b), moves_state(read_moves(solution2(algs, i, a, j, b).1, 0).0))
            == solved_state(),
{
    let auf1 = spec_invert_auf(b);
    let auf2 = spec_invert_auf(a);
    lemma_invert_auf(a);
    lemma_invert_auf(b);
    let x = auf_moves(auf1) + algs[j].1;
    let y = auf_moves(auf2) + algs[i].1;
    lemma_auf_join(auf1, algs[j].1);
    lemma_auf_join(auf2, algs[i].1);
    lemma_join_concat(x, y);
    assert(solution2(algs, i, a, j, b).1 =~= join_moves(x) + " "@ + join_moves(y));
    assert(x + y =~= auf_moves(auf1) + algs[j].1 + auf_moves(auf2) + algs[i].1);
    lemma_read_join(x + y);
    lemma_duplex_solution_solves(algs, i, a, j, b);
}

/// Solution `x` was recorded under index `t` by some trial: a single
/// algorithm with an AUF, or a duplex, whose state has index `t` under one
/// of the four final AUFs.
pub open spec fn from_trial(algs: Seq<AlgView>, t: u64, x: SolutionView) -> bool {
    ||| exists|i: int, a: int| #![trigger solution1(algs, i, a)]
        0 <= i < algs.len() && 0 <= a < 4 && x == solution1(algs, i, a)
            && ll_indices(state1(algs, i, a)).contains(t)
    ||| exists|i: int, a: int, j: int, b: int| #![trigger solution2(algs, i, a, j, b)]
        0 <= i < algs.len() && 0 <= a < 4 && 0 <= j < algs.len() && 0 <= b < 4
            && x == solution2(algs, i, a, j, b) && ll_indices(state2(algs, i, a, j, b)).contains(t)
}

/// Every solution in the groups `m` was recorded by a trial.
pub open spec fn all_from_trials(m: Map<u64, Seq<SolutionView>>, algs: Seq<AlgView>) -> bool {
    forall|t: u64, k: int| #[trigger] m.contains_key(t) && 0 <= k < m[t].len() ==> from_trial(algs, t, #[trigger] m[t][k])
}

proof fn lemma_insert_sorted_elems(g: Seq<SolutionView>, x: SolutionView, k: int)
    requires
        0 <= k < insert_sorted(g, x).len(),
    ensures
        insert_sorted(g, x)[k] == x || exists|i: int| 0 <= i < g.len() && g[i] == insert_sorted(g, x)[k],
    decreases g.len(),
{
    if g.len() == 0 {
    } else if key_le(g.last(), x) {
        if k < g.len() {
            assert(g[k] == insert_sorted(g, x)[k]);
        }
    } else {
        let h = g.drop_last();
        let inner = insert_sorted(h, x);
        lemma_insert_bounded_len(h, x);
        if k < inner.len() {
            lemma_insert_sorted_elems(h, x, k);
            if insert_sorted(g, x)[k] != x {
                let i = choose|i: int| 0 <= i < h.len() && h[i] == inner[k];
                assert(g[i] == h[i]);
            }
        } else {
            assert(g[g.len() - 1] == insert_sorted(g, x)[k]);
        }
    }
}

proof fn lemma_insert_bounded_len(g: Seq<SolutionView>, x: SolutionView)
    ensures
        insert_sorted(g, x).len() == g.len() + 1,
    decreases g.len(),
{
    if g.len() > 0 && !key_le(g.last(), x) {
        lemma_insert_bounded_len(g.drop_last(), x);
    }
}

proof fn lemma_add_matches_from(
    m: Map<u64, Seq<SolutionView>>,
    lls: Seq<u64>,
    all: Seq<u64>,
    targets: Set<u64>,
    algs: Seq<AlgView>,
    x: SolutionView,
)
    requires
        all_from_trials(m, algs),
        forall|k: int| 0 <= k < lls.len() ==> all.contains(#[trigger] lls[k]),
        forall|t: u64| all.contains(t) ==> from_trial(algs, t, x),
    ensures
        all_from_trials(add_matches(m, lls, targets, x), algs),
    decreases lls.len(),
{
    if lls.len() > 0 {
        let init = lls.drop_last();
        assert forall|k: int| 0 <= k < init.len() implies all.contains(#[trigger] init[k]) by {
            assert(init[k] == lls[k]);
        }
        lemma_add_matches_from(m, init, all, targets, algs, x);
        let m1 = add_matches(m, init, targets, x);
        let ll = lls.last();
        if targets.contains(ll) {
            let g = if m1.contains_key(ll) { m1[ll] } else { Seq::empty() };
            let m2 = add_solution(m1, ll, x);
            assert(all.contains(lls[lls.len() - 1]));
            assert forall|t: u64, k: int| #[trigger] m2.contains_key(t) && 0 <= k < m2[t].len()
                implies from_trial(algs, t, #[trigger] m2[t][k]) by {
                if t == ll {
                    lemma_insert_sorted_elems(g, x, k);
                    if m2[t][k] != x {
                        let i = choose|i: int| 0 <= i < g.len() && g[i] == m2[t][k];
                        assert(m1.contains_key(ll));
                        assert(from_trial(algs, ll, m1[ll][i]));
                    }
                } else {
                    assert(m1.contains_key(t));
                    assert(m2[t] == m1[t]);
                    assert(from_trial(algs, t, m1[t][k]));
                }
            }
        }
    }
}

proof fn lemma_after_single_from(algs: Seq<AlgView>, targets: Set<u64>, i: nat, a: nat)
    requires
        i <= algs.len(),
        a <= 4,
        i == algs.len() ==> a == 0,
    ensures
        all_from_trials(after_single(algs, targets, i, a), algs),
    decreases i, a,
{
    if a > 0 {
        lemma_after_single_from(algs, targets, i, (a - 1) as nat);
        let lls = ll_indices(state1(algs, i as int, a - 1));
        let x = solution1(algs, i as int, a - 1);
        assert forall|t: u64| lls.contains(t) implies from_trial(algs, t, x) by {
            assert(x == solution1(algs, i as int, a - 1));
        }
        assert forall|k: int| 0 <= k < lls.len() implies lls.contains(#[trigger] lls[k]) by {}
        lemma_add_matches_from(after_single(algs, targets, i, (a - 1) as nat), lls, lls, targets, algs, x);
    } else if i > 0 {
        lemma_after_single_from(algs, targets, (i - 1) as nat, 4);
    }
}

proof fn lemma_duplex_b_from(m0: Map<u64, Seq<SolutionView>>, algs: Seq<AlgView>, targets: Set<u64>, i: int, a: int, j: int, b: nat)
    requires
        all_from_trials(m0, algs),
        0 <= i < algs.len(),
        0 <= a < 4,
        0 <= j < algs.len(),
        b <= 4,
    ensures
        all_from_trials(duplex_b(m0, algs, targets, i, a, j, b), algs),
    decreases b,
{
    if b > 0 {
        lemma_duplex_b_from(m0, algs, targets, i, a, j, (b - 1) as nat);
        let lls = ll_indices(state2(algs, i, a, j, b - 1));
        let x = solution2(algs, i, a, j, b - 1);
        assert forall|t: u64| lls.contains(t) implies from_trial(algs, t, x) by {
            assert(x == solution2(algs, i, a, j, b - 1));
        }
        assert forall|k: int| 0 <= k < lls.len() implies lls.contains(#[trigger] lls[k]) by {}
        lemma_add_matches_from(duplex_b(m0, algs, targets, i, a, j, (b - 1) as nat), lls, lls, targets, algs, x);
    }
}

proof fn lemma_duplex_j_from(m0: Map<u64, Seq<SolutionView>>, algs: Seq<AlgView>, targets: Set<u64>, i: int, a: int, j: nat)
    requires
        all_from_trials(m0, algs),
        0 <= i < algs.len(),
        0 <= a < 4,
        j <= algs.len(),
    ensures
        all_from_trials(duplex_j(m0, algs, targets, i, a, j), algs),
    decreases j,
{
    if j > 0 {
        lemma_duplex_j_from(m0, algs, targets, i, a, (j - 1) as nat);
        lemma_duplex_b_from(duplex_j(m0, algs, targets, i, a, (j - 1) as nat), algs, targets, i, a, j - 1, 4);
    }
}

proof fn lemma_duplex_a_from(m0: Map<u64, Seq<SolutionView>>, algs: Seq<AlgView>, targets: Set<u64>, i: int, a: nat)
    requires
        all_from_trials(m0, algs),
        0 <= i < algs.len(),
        a <= 4,
    ensures
        all_from_trials(duplex_a(m0, algs, targets, i, a), algs),
    decreases a,
{
    if a > 0 {
        lemma_duplex_a_from(m0, algs, targets, i, (a - 1) as nat);
        lemma_duplex_j_from(duplex_a(m0, algs, targets, i, (a - 1) as nat), algs, targets, i, a - 1, algs.len());
    }
}

proof fn lemma_duplex_i_from(m0: Map<u64, Seq<SolutionView>>, algs: Seq<AlgView>, targets: Set<u64>, i: nat)
    requires
        all_from_trials(m0, algs),
        i <= algs.len(),
    ensures
        all_from_trials(duplex_i(m0, algs, targets, i), algs),
    decreases i,
{
    if i > 0 {
        lemma_duplex_i_from(m0, algs, targets, (i - 1) as nat);
        lemma_duplex_a_from(duplex_i(m0, algs, targets, (i - 1) as nat), algs, targets, i - 1, 4);
    }
}

/// Every solution that `search` lists under an index was recorded by a
/// trial whose state has that index under one of the four final AUFs.
pub proof fn lemma_search_from_trials(algs: Seq<AlgView>, targets: Set<u64>, max_depth: int)
    ensures
        all_from_trials(search_result(algs, targets, max_depth), algs),
{
    lemma_after_single_from(algs, targets, algs.len(), 0);
    if max_depth >= 2 {
        lemma_duplex_i_from(after_single(algs, targets, algs.len(), 0), algs, targets, algs.len());
    }
}

/// What `search` answers is right: every solution listed under index `t`,
/// read back as moves (every character is read), has as many moves as its
/// move count and solves a state whose index, under one of the four final
/// AUFs, is `t` (the algorithms having moves, as for
/// `lemma_single_sequence_solves`).
pub proof fn lemma_search_solutions_solve(algs: Seq<AlgView>, targets: Set<u64>, max_depth: int, t: u64, k: int)
    requires
        search_result(algs, targets, max_depth).contains_key(t),
        0 <= k < search_result(algs, targets, max_depth)[t].len(),
        forall|i: int| 0 <= i < algs.len() ==> (#[trigger] algs[i]).1.len() > 0,
    ensures
        ({
            let x = search_result(algs, targets, max_depth)[t][k];
            let read = read_moves(x.1, 0);
            &&& read.1 == x.1.len()
            &&& read.0.len() == x.2
            &&& exists|ms: Seq<Move>| #[trigger] ll_indices(moves_state(ms)).contains(t)
                && apply_state(moves_state(ms), moves_state(read.0)) == solved_state()
        }),
{
    let m = search_result(algs, targets, max_depth);
    let x = m[t][k];
    lemma_search_from_trials(algs, targets, max_depth);
    assert(from_trial(algs, t, x));
    if exists|i: int, a: int| #![trigger solution1(algs, i, a)]
        0 <= i < algs.len() && 0 <= a < 4 && x == solution1(algs, i, a) && ll_indices(state1(algs, i, a)).contains(t) {
        let (i, a) = choose|i: int, a: int| #![trigger solution1(algs, i, a)]
            0 <= i < algs.len() && 0 <= a < 4 && x == solution1(algs, i, a) && ll_indices(state1(algs, i, a)).contains(t);
        lemma_single_sequence_solves(algs, i, a);
        let ms = inverse_moves(algs[i].1) + auf_moves(a);
        assert(state1(algs, i, a) == moves_state(ms));
        assert(ll_indices(moves_state(ms)).contains(t));
    } else {
        let (i, a, j, b) = choose|i: int, a: int, j: int, b: int| #![trigger solution2(algs, i, a, j, b)]
            0 <= i < algs.len() && 0 <= a < 4 && 0 <= j < algs.len() && 0 <= b < 4
                && x == solution2(algs, i, a, j, b) && ll_indices(state2(algs, i, a, j, b)).contains(t);
        lemma_duplex_sequence_solves(algs, i, a, j, b);
        let ms = inverse_moves(algs[i].1) + auf_moves(a) + inverse_moves(algs[j].1) + auf_moves(b);
        assert(state2(algs, i, a, j, b) == moves_state(ms));
        assert(ll_indices(moves_state(ms)).contains(t));
    }
}

/// The names `names` are those of algorithm `p` alone, and the moves `read`
/// are AUF `u` followed by that algorithm's moves.
pub open spec fn names_one(algs: Seq<AlgView>, names: Seq<Seq<char>>, read: Seq<Move>, p: int, u: int) -> bool {
    &&& 0 <= p < algs.len()
    &&& 0 <= u < 4
    &&& names == seq![full_name(algs[p].0, algs[p].2, algs[p].3)]
    &&& read == auf_moves(u) + algs[p].1
}

/// The names `names` are those of algorithm `p` and then algorithm `q`, and
/// the moves `read` are AUF `u`, the moves of `p`, AUF `v` and the moves of
/// `q`, in that order.
pub open spec fn names_two(algs: Seq<AlgView>, names: Seq<Seq<char>>, read: Seq<Move>, p: int, q: int, u: int, v: int) -> bool {
    &&& 0 <= p < algs.len()
    &&& 0 <= q < algs.len()
    &&& 0 <= u < 4
    &&& 0 <= v < 4
    &&& names == seq![full_name(algs[p].0, algs[p].2, algs[p].3), full_name(algs[q].0, algs[q].2, algs[q].3)]
    &&& read == auf_moves(u) + algs[p].1 + auf_moves(v) + algs[q].1
}

/// The names of every solution that `search` lists follow its sequence: a
/// solution names one algorithm and its sequence reads back as an AUF and
/// that algorithm's moves, or it names two and its sequence reads back as an
/// AUF, the moves of the first algorithm named, an AUF and the moves of the
/// second. The names give the algorithms in the order they are made (the
/// algorithms having moves, as for `lemma_single_sequence_solves`).
pub proof fn lemma_names_follow_sequence(algs: Seq<AlgView>, targets: Set<u64>, max_depth: int, t: u64, k: int)
    requires
        search_result(algs, targets, max_depth).contains_key(t),
        0 <= k < search_result(algs, targets, max_depth)[t].len(),
        forall|i: int| 0 <= i < algs.len() ==> (#[trigger] algs[i]).1.len() > 0,
    ensures
        ({
            let x = search_result(algs, targets, max_depth)[t][k];
            let read = read_moves(x.1, 0).0;
            ||| exists|p: int, u: int| #[trigger] names_one(algs, x.0, read, p, u)
            ||| exists|p: int, q: int, u: int, v: int| #[trigger] names_two(algs, x.0, read, p, q, u, v)
        }),
{
    let m = search_result(algs, targets, max_depth);
    let x = m[t][k];
    let read = read_moves(x.1, 0).0;
    lemma_search_from_trials(algs, targets, max_depth);
    assert(from_trial(algs, t, x));
    if exists|i: int, a: int| #![trigger solution1(algs, i, a)]
        0 <= i < algs.len() && 0 <= a < 4 && x == solution1(algs, i, a) && ll_indices(state1(algs, i, a)).contains(t) {
        let (i, a) = choose|i: int, a: int| #![trigger solution1(algs, i, a)]
            0 <= i < algs.len() && 0 <= a < 4 && x == solution1(algs, i, a) && ll_indices(state1(algs, i, a)).contains(t);
        lemma_single_sequence_solves(algs, i, a);
        lemma_invert_auf(a);
        assert(names_one(algs, x.0, read, i, spec_invert_auf(a)));
    } else {
        let (i, a, j, b) = choose|i: int, a: int, j: int, b: int| #![trigger solution2(algs, i, a, j, b)]
            0 <= i < algs.len() && 0 <= a < 4 && 0 <= j < algs.len() && 0 <= b < 4
                && x == solution2(algs, i, a, j, b) && ll_indices(state2(algs, i, a, j, b)).contains(t);
        lemma_duplex_sequence_solves(algs, i, a, j, b);
        lemma_invert_auf(a);
        lemma_invert_auf(b);
        assert(names_two(algs, x.0, read, j, i, spec_invert_auf(b), spec_invert_auf(a)));
    }
}

/// Every solution that `search` lists for a case solves that case: its
/// sequence reads back as moves (every character read), and those moves,
/// made on the case, leave the cube one AUF away from solved (the
/// algorithms having moves, as above).
pub proof fn lemma_case_solution_solves(algs: Seq<AlgView>, cases: Seq<Case>, max_depth: int, case: Case, k: int)
    requires
        is_listed_case(case, case.index as int),
        search_result(algs, target_set(cases), max_depth).contains_key(case.ll_index),
        0 <= k < search_result(algs, target_set(cases), max_depth)[case.ll_index].len(),
        forall|i: int| 0 <= i < algs.len() ==> (#[trigger] algs[i]).1.len() > 0,
    ensures
        ({
            let x = search_result(algs, target_set(cases), max_depth)[case.ll_index][k];
            let read = read_moves(x.1, 0);
            &&& read.1 == x.1.len()
            &&& exists|j: int| 0 <= j < 4 && apply_state(case_state(case), moves_state(read.0))
                == #[trigger] moves_state(auf_moves(j))
        }),
{
    let t = case.ll_index;
    let x = search_result(algs, target_set(cases), max_depth)[t][k];
    let read = read_moves(x.1, 0);
    lemma_search_solutions_solve(algs, target_set(cases), max_depth, t, k);
    let ms = choose|ms: Seq<Move>| #[trigger] ll_indices(moves_state(ms)).contains(t)
        && apply_state(moves_state(ms), moves_state(read.0)) == solved_state();
    let st = moves_state(ms);
    lemma_moves_state_valid(ms);
    let j = choose|j: int| 0 <= j < ll_indices(st).len() && ll_indices(st)[j] == t;
    assert(is_last_layer_state(st));
    lemma_ll_indices(st, j);
    let ps = post_auf(st, j as nat);
    lemma_post_auf_moves(ms, j);
    lemma_moves_state_valid(auf_moves(j) + ms);
    lemma_moves_state_whole(auf_moves(j) + ms);
    lemma_post_auf_last_layer(st, j as nat);
    let cs = case_state(case);
    lemma_case_state_valid(case);
    lemma_case_state_whole(case);
    lemma_ll_index_top(ps, cs);
    lemma_same_ll_state(ps, cs);
    let tr = moves_state(read.0);
    lemma_moves_state_valid(read.0);
    let goal = moves_state(auf_moves(j));
    assert forall|l: int| 0 <= l < 54 implies #[trigger] apply_state(cs, tr)[l] == goal[l] by {
        lemma_turn_range(Layer::U, j as nat, l);
        let l2 = turn(Layer::U, j as nat, l);
        assert(cs[l] == ps[l]);
        assert(ps[l] == st[l2]);
        assert(apply_state(st, tr)[l2] == tr[st[l2]]);
        assert(solved_state()[l2] == l2);
        lemma_auf_moves_turn(j, l);
    }
    assert(apply_state(cs, tr) =~= goal);
}

/// Some solution reaches index `t`.
pub open spec fn is_covered(m: Map<u64, Seq<SolutionView>>, t: u64) -> bool {
    m.contains_key(t) && m[t].len() > 0
}

/// The single-algorithm trial (`i`, `a`) reaches index `t`.
pub open spec fn reach1(algs: Seq<AlgView>, t: u64, i: int, a: int) -> bool {
    ll_indices(state1(algs, i, a)).contains(t)
}

/// The duplex trial (`i`, `a`, `j`, `b`) reaches index `t`.
pub open spec fn reach2(algs: Seq<AlgView>, t: u64, i: int, a: int, j: int, b: int) -> bool {
    ll_indices(state2(algs, i, a, j, b)).contains(t)
}

/// Some single-algorithm trial before (`i`, `a`) reaches `t`.
pub open spec fn single_before(algs: Seq<AlgView>, t: u64, i: int, a: int) -> bool {
    exists|i2: int, a2: int| #![trigger reach1(algs, t, i2, a2)]
        0 <= i2 < algs.len() && 0 <= a2 < 4 && (i2 < i || (i2 == i && a2 < a)) && reach1(algs, t, i2, a2)
}

/// Some duplex trial (`i`, `a`, `j`, `b2`) with `b2 < b` reaches `t`.
pub open spec fn duplex_before_b(algs: Seq<AlgView>, t: u64, i: int, a: int, j: int, b: int) -> bool {
    exists|b2: int| #![trigger reach2(algs, t, i, a, j, b2)] 0 <= b2 < b && b2 < 4 && reach2(algs, t, i, a, j, b2)
}

/// Some duplex trial (`i`, `a`, `j2`, any) with `j2 < j` reaches `t`.
pub open spec fn duplex_before_j(algs: Seq<AlgView>, t: u64, i: int, a: int, j: int) -> bool {
    exists|j2: int, b2: int| #![trigger reach2(algs, t, i, a, j2, b2)]
        0 <= j2 < j && j2 < algs.len() && 0 <= b2 < 4 && reach2(algs, t, i, a, j2, b2)
}

/// Some duplex trial (`i`, `a2`, any, any) with `a2 < a` reaches `t`.
pub open spec fn duplex_before_a(algs: Seq<AlgView>, t: u64, i: int, a: int) -> bool {
    exists|a2: int, j2: int, b2: int| #![trigger reach2(algs, t, i, a2, j2, b2)]
        0 <= a2 < a && a2 < 4 && 0 <= j2 < algs.len() && 0 <= b2 < 4 && reach2(algs, t, i, a2, j2, b2)
}

/// Some duplex trial whose first algorithm is before `i` reaches `t`.
pub open spec fn duplex_before_i(algs: Seq<AlgView>, t: u64, i: int) -> bool {
    exists|i2: int, a2: int, j2: int, b2: int| #![trigger reach2(algs, t, i2, a2, j2, b2)]
        0 <= i2 < i && i2 < algs.len() && 0 <= a2 < 4 && 0 <= j2 < algs.len() && 0 <= b2 < 4
            && reach2(algs, t, i2, a2, j2, b2)
}

/// Adding a solution for the indices `lls` covers exactly what was covered
/// and the targets among `lls`.
proof fn lemma_add_matches_cov(m: Map<u64, Seq<SolutionView>>, lls: Seq<u64>, targets: Set<u64>, x: SolutionView, t: u64)
    ensures
        is_covered(add_matches(m, lls, targets, x), t) == (is_covered(m, t) || (lls.contains(t) && targets.contains(t))),
    decreases lls.len(),
{
    if lls.len() > 0 {
        let init = lls.drop_last();
        lemma_add_matches_cov(m, init, targets, x, t);
        let m1 = add_matches(m, init, targets, x);
        let ll = lls.last();
        if targets.contains(ll) {
            let g = if m1.contains_key(ll) { m1[ll] } else { Seq::empty() };
            lemma_insert_bounded_len(g, x);
        }
        if lls.contains(t) && !init.contains(t) {
            let k = choose|k: int| 0 <= k < lls.len() && lls[k] == t;
            if k < init.len() {
                assert(init[k] == t);
            }
            assert(ll == t);
        }
        if init.contains(t) {
            let k = choose|k: int| 0 <= k < init.len() && init[k] == t;
            assert(lls[k] == t);
        }
        if ll == t {
            assert(lls[lls.len() - 1] == t);
        }
    }
}

proof fn lemma_after_single_cov(algs: Seq<AlgView>, targets: Set<u64>, t: u64, i: nat, a: nat)
    requires
        i <= algs.len(),
        a <= 4,
        i == algs.len() ==> a == 0,
    ensures
        is_covered(after_single(algs, targets, i, a), t) == (targets.contains(t) && single_before(algs, t, i as int,
            a as int)),
    decreases i, a,
{
    if a > 0 {
        lemma_after_single_cov(algs, targets, t, i, (a - 1) as nat);
        lemma_add_matches_cov(after_single(algs, targets, i, (a - 1) as nat), ll_indices(state1(algs, i as int, a - 1)),
            targets, solution1(algs, i as int, a - 1), t);
        if single_before(algs, t, i as int, a as int) && !reach1(algs, t, i as int, a - 1) {
            let (i2, a2) = choose|i2: int, a2: int| #![trigger reach1(algs, t, i2, a2)]
                0 <= i2 < algs.len() && 0 <= a2 < 4 && (i2 < i || (i2 == i && a2 < a)) && reach1(algs, t, i2, a2);
            assert(single_before(algs, t, i as int, a - 1));
        }
        if reach1(algs, t, i as int, a - 1) {
            assert(single_before(algs, t, i as int, a as int));
        }
        if single_before(algs, t, i as int, a - 1) {
            let (i2, a2) = choose|i2: int, a2: int| #![trigger reach1(algs, t, i2, a2)]
                0 <= i2 < algs.len() && 0 <= a2 < 4 && (i2 < i || (i2 == i && a2 < a - 1)) && reach1(algs, t, i2, a2);
            assert(single_before(algs, t, i as int, a as int));
        }
    } else if i > 0 {
        lemma_after_single_cov(algs, targets, t, (i - 1) as nat, 4);
        if single_before(algs, t, i as int, 0) {
            let (i2, a2) = choose|i2: int, a2: int| #![trigger reach1(algs, t, i2, a2)]
                0 <= i2 < algs.len() && 0 <= a2 < 4 && (i2 < i || (i2 == i && a2 < 0)) && reach1(algs, t, i2, a2);
            assert(single_before(algs, t, i - 1, 4));
        }
        if single_before(algs, t, i - 1, 4) {
            let (i2, a2) = choose|i2: int, a2: int| #![trigger reach1(algs, t, i2, a2)]
                0 <= i2 < algs.len() && 0 <= a2 < 4 && (i2 < i - 1 || (i2 == i - 1 && a2 < 4)) && reach1(algs, t, i2, a2);
            assert(single_before(algs, t, i as int, 0));
        }
    }
}

proof fn lemma_duplex_b_cov(m0: Map<u64, Seq<SolutionView>>, algs: Seq<AlgView>, targets: Set<u64>, t: u64, i: int, a: int, j: int, b: nat)
    requires
        b <= 4,
    ensures
        is_covered(duplex_b(m0, algs, targets, i, a, j, b), t) == (is_covered(m0, t) || (targets.contains(t)
            && duplex_before_b(algs, t, i, a, j, b as int))),
    decreases b,
{
    if b > 0 {
        lemma_duplex_b_cov(m0, algs, targets, t, i, a, j, (b - 1) as nat);
        lemma_add_matches_cov(duplex_b(m0, algs, targets, i, a, j, (b - 1) as nat), ll_indices(state2(algs, i, a, j, b - 1)),
            targets, solution2(algs, i, a, j, b - 1), t);
        if duplex_before_b(algs, t, i, a, j, b as int) && !reach2(algs, t, i, a, j, b - 1) {
            let b2 = choose|b2: int| #![trigger reach2(algs, t, i, a, j, b2)] 0 <= b2 < b && b2 < 4 && reach2(algs, t, i, a, j, b2);
            assert(duplex_before_b(algs, t, i, a, j, b - 1));
        }
        if reach2(algs, t, i, a, j, b - 1) {
            assert(duplex_before_b(algs, t, i, a, j, b as int));
        }
        if duplex_before_b(algs, t, i, a, j, b - 1) {
            let b2 = choose|b2: int| #![trigger reach2(algs, t, i, a, j, b2)] 0 <= b2 < b - 1 && b2 < 4 && reach2(algs, t, i, a, j, b2);
            assert(duplex_before_b(algs, t, i, a, j, b as int));
        }
    }
}

proof fn lemma_duplex_j_cov(m0: Map<u64, Seq<SolutionView>>, algs: Seq<AlgView>, targets: Set<u64>, t: u64, i: int, a: int, j: nat)
    requires
        j <= algs.len(),
    ensures
        is_covered(duplex_j(m0, algs, targets, i, a, j), t) == (is_covered(m0, t) || (targets.contains(t)
            && duplex_before_j(algs, t, i, a, j as int))),
    decreases j,
{
    if j > 0 {
        lemma_duplex_j_cov(m0, algs, targets, t, i, a, (j - 1) as nat);
        lemma_duplex_b_cov(duplex_j(m0, algs, targets, i, a, (j - 1) as nat), algs, targets, t, i, a, j - 1, 4);
        if duplex_before_j(algs, t, i, a, j as int) && !duplex_before_b(algs, t, i, a, j - 1, 4) {
            let (j2, b2) = choose|j2: int, b2: int| #![trigger reach2(algs, t, i, a, j2, b2)]
                0 <= j2 < j && j2 < algs.len() && 0 <= b2 < 4 && reach2(algs, t, i, a, j2, b2);
            if j2 == j - 1 {
                assert(duplex_before_b(algs, t, i, a, j - 1, 4));
            }
            assert(duplex_before_j(algs, t, i, a, j - 1));
        }
        if duplex_before_b(algs, t, i, a, j - 1, 4) {
            let b2 = choose|b2: int| #![trigger reach2(algs, t, i, a, j - 1, b2)] 0 <= b2 < 4 && b2 < 4
                && reach2(algs, t, i, a, j - 1, b2);
            assert(duplex_before_j(algs, t, i, a, j as int));
        }
        if duplex_before_j(algs, t, i, a, j - 1) {
            let (j2, b2) = choose|j2: int, b2: int| #![trigger reach2(algs, t, i, a, j2, b2)]
                0 <= j2 < j - 1 && j2 < algs.len() && 0 <= b2 < 4 && reach2(algs, t, i, a, j2, b2);
            assert(duplex_before_j(algs, t, i, a, j as int));
        }
    }
}

proof fn lemma_duplex_a_cov(m0: Map<u64, Seq<SolutionView>>, algs: Seq<AlgView>, targets: Set<u64>, t: u64, i: int, a: nat)
    requires
        a <= 4,
    ensures
        is_covered(duplex_a(m0, algs, targets, i, a), t) == (is_covered(m0, t) || (targets.contains(t)
            && duplex_before_a(algs, t, i, a as int))),
    decreases a,
{
    if a > 0 {
        lemma_duplex_a_cov(m0, algs, targets, t, i, (a - 1) as nat);
        lemma_duplex_j_cov(duplex_a(m0, algs, targets, i, (a - 1) as nat), algs, targets, t, i, a - 1, algs.len());
        if duplex_before_a(algs, t, i, a as int) && !duplex_before_j(algs, t, i, a - 1, algs.len() as int) {
            let (a2, j2, b2) = choose|a2: int, j2: int, b2: int| #![trigger reach2(algs, t, i, a2, j2, b2)]
                0 <= a2 < a && a2 < 4 && 0 <= j2 < algs.len() && 0 <= b2 < 4 && reach2(algs, t, i, a2, j2, b2);
            if a2 == a - 1 {
                assert(duplex_before_j(algs, t, i, a - 1, algs.len() as int));
            }
            assert(duplex_before_a(algs, t, i, a - 1));
        }
        if duplex_before_j(algs, t, i, a - 1, algs.len() as int) {
            let (j2, b2) = choose|j2: int, b2: int| #![trigger reach2(algs, t, i, a - 1, j2, b2)]
                0 <= j2 < algs.len() && j2 < algs.len() && 0 <= b2 < 4 && reach2(algs, t, i, a - 1, j2, b2);
            assert(duplex_before_a(algs, t, i, a as int));
        }
        if duplex_before_a(algs, t, i, a - 1) {
            let (a2, j2, b2) = choose|a2: int, j2: int, b2: int| #![trigger reach2(algs, t, i, a2, j2, b2)]
                0 <= a2 < a - 1 && a2 < 4 && 0 <= j2 < algs.len() && 0 <= b2 < 4 && reach2(algs, t, i, a2, j2, b2);
            assert(duplex_before_a(algs, t, i, a as int));
        }
    }
}

proof fn lemma_duplex_i_cov(m0: Map<u64, Seq<SolutionView>>, algs: Seq<AlgView>, targets: Set<u64>, t: u64, i: nat)
    requires
        i <= algs.len(),
    ensures
        is_covered(duplex_i(m0, algs, targets, i), t) == (is_covered(m0, t) || (targets.contains(t)
            && duplex_before_i(algs, t, i as int))),
    decreases i,
{
    if i > 0 {
        lemma_duplex_i_cov(m0, algs, targets, t, (i - 1) as nat);
        lemma_duplex_a_cov(duplex_i(m0, algs, targets, (i - 1) as nat), algs, targets, t, i - 1, 4);
        if duplex_before_i(algs, t, i as int) && !duplex_before_a(algs, t, i - 1, 4) {
            let (i2, a2, j2, b2) = choose|i2: int, a2: int, j2: int, b2: int| #![trigger reach2(algs, t, i2, a2, j2, b2)]
                0 <= i2 < i && i2 < algs.len() && 0 <= a2 < 4 && 0 <= j2 < algs.len() && 0 <= b2 < 4
                    && reach2(algs, t, i2, a2, j2, b2);
            if i2 == i - 1 {
                assert(duplex_before_a(algs, t, i - 1, 4));
            }
            assert(duplex_before_i(algs, t, i - 1));
        }
        if duplex_before_a(algs, t, i - 1, 4) {
            let (a2, j2, b2) = choose|a2: int, j2: int, b2: int| #![trigger reach2(algs, t, i - 1, a2, j2, b2)]
                0 <= a2 < 4 && a2 < 4 && 0 <= j2 < algs.len() && 0 <= b2 < 4 && reach2(algs, t, i - 1, a2, j2, b2);
            assert(duplex_before_i(algs, t, i as int));
        }
        if duplex_before_i(algs, t, i - 1) {
            let (i2, a2, j2, b2) = choose|i2: int, a2: int, j2: int, b2: int| #![trigger reach2(algs, t, i2, a2, j2, b2)]
                0 <= i2 < i - 1 && i2 < algs.len() && 0 <= a2 < 4 && 0 <= j2 < algs.len() && 0 <= b2 < 4
                    && reach2(algs, t, i2, a2, j2, b2);
            assert(duplex_before_i(algs, t, i as int));
        }
    }
}

/// Some single-algorithm trial of `algs` reaches index `t`.
pub open spec fn single_reaches(algs: Seq<AlgView>, t: u64) -> bool {
    single_before(algs, t, algs.len() as int, 0)
}

/// Some duplex trial of `algs` reaches index `t`.
pub open spec fn duplex_reaches(algs: Seq<AlgView>, t: u64) -> bool {
    duplex_before_i(algs, t, algs.len() as int)
}

/// `search` finds a solution for exactly the targets that some trial
/// reaches: a single algorithm with a leading AUF, or, for depth 2 or more,
/// a duplex.
pub proof fn lemma_search_covers(algs: Seq<AlgView>, targets: Set<u64>, max_depth: int, t: u64)
    ensures
        is_covered(search_result(algs, targets, max_depth), t) == (targets.contains(t) && (single_reaches(algs, t)
            || (max_depth >= 2 && duplex_reaches(algs, t)))),
{
    lemma_after_single_cov(algs, targets, t, algs.len(), 0);
    if max_depth >= 2 {
        lemma_duplex_i_cov(after_single(algs, targets, algs.len(), 0), algs, targets, t, algs.len());
    }
}

/// Adding algorithms loses no coverage: whatever `search` covers with
/// `a`, it covers with `a` followed by `b`.
pub proof fn lemma_search_covers_more(a: Seq<AlgView>, b: Seq<AlgView>, targets: Set<u64>, max_depth: int, t: u64)
    requires
        is_covered(search_result(a, targets, max_depth), t),
    ensures
        is_covered(search_result(a + b, targets, max_depth), t),
{
    let ab = a + b;
    lemma_search_covers(a, targets, max_depth, t);
    lemma_search_covers(ab, targets, max_depth, t);
    if single_reaches(a, t) {
        let (i2, a2) = choose|i2: int, a2: int| #![trigger reach1(a, t, i2, a2)]
            0 <= i2 < a.len() && 0 <= a2 < 4 && (i2 < a.len() || (i2 == a.len() && a2 < 0)) && reach1(a, t, i2, a2);
        assert(ab[i2] == a[i2]);
        assert(state1(ab, i2, a2) == state1(a, i2, a2));
        assert(reach1(ab, t, i2, a2));
        assert(single_reaches(ab, t));
    } else {
        let (i2, a2, j2, b2) = choose|i2: int, a2: int, j2: int, b2: int| #![trigger reach2(a, t, i2, a2, j2, b2)]
            0 <= i2 < a.len() && i2 < a.len() && 0 <= a2 < 4 && 0 <= j2 < a.len() && 0 <= b2 < 4
                && reach2(a, t, i2, a2, j2, b2);
        assert(ab[i2] == a[i2] && ab[j2] == a[j2]);
        assert(state2(ab, i2, a2, j2, b2) == state2(a, i2, a2, j2, b2));
        assert(reach2(ab, t, i2, a2, j2, b2));
        assert(duplex_reaches(ab, t));
    }
}

proof fn lemma_add_matches_restrict(
    m: Map<u64, Seq<SolutionView>>,
    lls: Seq<u64>,
    t1: Set<u64>,
    t2: Set<u64>,
    x: SolutionView,
)
    requires
        t1.subset_of(t2),
    ensures
        add_matches(m.restrict(t1), lls, t1, x) == add_matches(m, lls, t2, x).restrict(t1),
    decreases lls.len(),
{
    if lls.len() > 0 {
        let init = lls.drop_last();
        lemma_add_matches_restrict(m, init, t1, t2, x);
        let a = add_matches(m.restrict(t1), init, t1, x);
        let b = add_matches(m, init, t2, x);
        let ll = lls.last();
        if t1.contains(ll) {
            assert(add_solution(a, ll, x) =~= add_solution(b, ll, x).restrict(t1));
        } else if t2.contains(ll) {
            assert(a =~= add_solution(b, ll, x).restrict(t1));
        }
    }
}

proof fn lemma_after_single_restrict(algs: Seq<AlgView>, t1: Set<u64>, t2: Set<u64>, i: nat, a: nat)
    requires
        t1.subset_of(t2),
    ensures
        after_single(algs, t1, i, a) == after_single(algs, t2, i, a).restrict(t1),
    decreases i, a,
{
    if a > 0 {
        lemma_after_single_restrict(algs, t1, t2, i, (a - 1) as nat);
        lemma_add_matches_restrict(after_single(algs, t2, i, (a - 1) as nat), ll_indices(state1(algs, i as int, a - 1)),
            t1, t2, solution1(algs, i as int, a - 1));
    } else if i > 0 {
        lemma_after_single_restrict(algs, t1, t2, (i - 1) as nat, 4);
    } else {
        assert(Map::<u64, Seq<SolutionView>>::empty().restrict(t1) =~= Map::empty());
    }
}

proof fn lemma_duplex_restrict(m: Map<u64, Seq<SolutionView>>, algs: Seq<AlgView>, t1: Set<u64>, t2: Set<u64>, i: nat)
    requires
        t1.subset_of(t2),
    ensures
        duplex_i(m.restrict(t1), algs, t1, i) == duplex_i(m, algs, t2, i).restrict(t1),
    decreases i,
{
    if i > 0 {
        lemma_duplex_restrict(m, algs, t1, t2, (i - 1) as nat);
        lemma_duplex_a_restrict(duplex_i(m, algs, t2, (i - 1) as nat), algs, t1, t2, i - 1, 4);
    }
}

proof fn lemma_duplex_a_restrict(m: Map<u64, Seq<SolutionView>>, algs: Seq<AlgView>, t1: Set<u64>, t2: Set<u64>, i: int, a: nat)
    requires
        t1.subset_of(t2),
    ensures
        duplex_a(m.restrict(t1), algs, t1, i, a) == duplex_a(m, algs, t2, i, a).restrict(t1),
    decreases a,
{
    if a > 0 {
        lemma_duplex_a_restrict(m, algs, t1, t2, i, (a - 1) as nat);
        lemma_duplex_j_restrict(duplex_a(m, algs, t2, i, (a - 1) as nat), algs, t1, t2, i, a - 1, algs.len());
    }
}

proof fn lemma_duplex_j_restrict(m: Map<u64, Seq<SolutionView>>, algs: Seq<AlgView>, t1: Set<u64>, t2: Set<u64>, i: int, a: int, j: nat)
    requires
        t1.subset_of(t2),
    ensures
        duplex_j(m.restrict(t1), algs, t1, i, a, j) == duplex_j(m, algs, t2, i, a, j).restrict(t1),
    decreases j,
{
    if j > 0 {
        lemma_duplex_j_restrict(m, algs, t1, t2, i, a, (j - 1) as nat);
        lemma_duplex_b_restrict(duplex_j(m, algs, t2, i, a, (j - 1) as nat), algs, t1, t2, i, a, j - 1, 4);
    }
}

proof fn lemma_duplex_b_restrict(m: Map<u64, Seq<SolutionView>>, algs: Seq<AlgView>, t1: Set<u64>, t2: Set<u64>, i: int, a: int, j: int, b: nat)
    requires
        t1.subset_of(t2),
    ensures
        duplex_b(m.restrict(t1), algs, t1, i, a, j, b) == duplex_b(m, algs, t2, i, a, j, b).restrict(t1),
    decreases b,
{
    if b > 0 {
        lemma_duplex_b_restrict(m, algs, t1, t2, i, a, j, (b - 1) as nat);
        lemma_add_matches_restrict(duplex_b(m, algs, t2, i, a, j, (b - 1) as nat), ll_indices(state2(algs, i, a, j, b - 1)),
            t1, t2, solution2(algs, i, a, j, b - 1));
    }
}

/// The targets only select: searching for a subset `t1` of the targets
/// `t2` gives the groups of `t2`'s search that belong to `t1`. So `search`
/// depends on the cases only through the set of their indices.
pub proof fn lemma_search_restrict(algs: Seq<AlgView>, t1: Set<u64>, t2: Set<u64>, max_depth: int)
    requires
        t1.subset_of(t2),
    ensures
        search_result(algs, t1, max_depth) == search_result(algs, t2, max_depth).restrict(t1),
{
    lemma_after_single_restrict(algs, t1, t2, algs.len(), 0);
    if max_depth >= 2 {
        lemma_duplex_restrict(after_single(algs, t2, algs.len(), 0), algs, t1, t2, algs.len());
    }
}

/// `m` extends `m1`: every group of `m1` is a group of `m` that starts with
/// it, and what follows has depth 2.
pub open spec fn extends_with_duplexes(m1: Map<u64, Seq<SolutionView>>, m: Map<u64, Seq<SolutionView>>) -> bool {
    forall|t: u64| #[trigger] m1.contains_key(t) ==> {
        &&& m.contains_key(t)
        &&& m[t].len() >= m1[t].len()
        &&& m[t].subrange(0, m1[t].len() as int) == m1[t]
        &&& forall|k: int| m1[t].len() <= k < m[t].len() ==> (#[trigger] m[t][k]).3 == 2
    }
}

proof fn lemma_insert_after_prefix(g: Seq<SolutionView>, x: SolutionView, n: int)
    requires
        0 <= n <= g.len(),
        forall|k: int| 0 <= k < n ==> key_le(#[trigger] g[k], x),
        forall|k: int| n <= k < g.len() ==> (#[trigger] g[k]).3 == 2,
        x.3 == 2,
    ensures
        insert_sorted(g, x).len() == g.len() + 1,
        insert_sorted(g, x).subrange(0, n) == g.subrange(0, n),
        forall|k: int| n <= k < insert_sorted(g, x).len() ==> (#[trigger] insert_sorted(g, x)[k]).3 == 2,
    decreases g.len(),
{
    lemma_insert_bounded_len(g, x);
    if g.len() == 0 {
    } else if key_le(g.last(), x) {
        assert(g.push(x).subrange(0, n) =~= g.subrange(0, n));
    } else {
        let h = g.drop_last();
        assert(g.len() - 1 >= n);
        lemma_insert_after_prefix(h, x, n);
        let inner = insert_sorted(h, x);
        assert(inner.push(g.last()).subrange(0, n) =~= inner.subrange(0, n));
        assert(h.subrange(0, n) =~= g.subrange(0, n));
        assert forall|k: int| n <= k < inner.len() + 1 implies (#[trigger] inner.push(g.last())[k]).3 == 2 by {
            if k < inner.len() {
                assert(inner.push(g.last())[k] == inner[k]);
            }
        }
    }
}

proof fn lemma_add_matches_extends(
    m1: Map<u64, Seq<SolutionView>>,
    m: Map<u64, Seq<SolutionView>>,
    lls: Seq<u64>,
    targets: Set<u64>,
    x: SolutionView,
)
    requires
        extends_with_duplexes(m1, m),
        forall|t: u64, k: int| #[trigger] m1.contains_key(t) && 0 <= k < m1[t].len() ==> (#[trigger] m1[t][k]).3 == 1,
        x.3 == 2,
    ensures
        extends_with_duplexes(m1, add_matches(m, lls, targets, x)),
    decreases lls.len(),
{
    if lls.len() > 0 {
        lemma_add_matches_extends(m1, m, lls.drop_last(), targets, x);
        let ma = add_matches(m, lls.drop_last(), targets, x);
        let ll = lls.last();
        if targets.contains(ll) && m1.contains_key(ll) {
            let g = ma[ll];
            let n = m1[ll].len() as int;
            assert forall|k: int| 0 <= k < n implies key_le(#[trigger] g[k], x) by {
                assert(g.subrange(0, n)[k] == m1[ll][k]);
            }
            lemma_insert_after_prefix(g, x, n);
            let mb = add_solution(ma, ll, x);
            assert forall|t: u64| #[trigger] m1.contains_key(t) implies {
                &&& mb.contains_key(t)
                &&& mb[t].len() >= m1[t].len()
                &&& mb[t].subrange(0, m1[t].len() as int) == m1[t]
                &&& forall|k: int| m1[t].len() <= k < mb[t].len() ==> (#[trigger] mb[t][k]).3 == 2
            } by {
                if t == ll {
                    assert(insert_sorted(g, x).subrange(0, n) == g.subrange(0, n));
                }
            }
        }
    }
}

proof fn lemma_duplex_b_extends(m1: Map<u64, Seq<SolutionView>>, m: Map<u64, Seq<SolutionView>>, algs: Seq<AlgView>, targets: Set<u64>, i: int, a: int, j: int, b: nat)
    requires
        extends_with_duplexes(m1, m),
        forall|t: u64, k: int| #[trigger] m1.contains_key(t) && 0 <= k < m1[t].len() ==> (#[trigger] m1[t][k]).3 == 1,
    ensures
        extends_with_duplexes(m1, duplex_b(m, algs, targets, i, a, j, b)),
    decreases b,
{
    if b > 0 {
        lemma_duplex_b_extends(m1, m, algs, targets, i, a, j, (b - 1) as nat);
        lemma_add_matches_extends(m1, duplex_b(m, algs, targets, i, a, j, (b - 1) as nat), ll_indices(state2(algs, i, a, j, b - 1)),
            targets, solution2(algs, i, a, j, b - 1));
    }
}

proof fn lemma_duplex_j_extends(m1: Map<u64, Seq<SolutionView>>, m: Map<u64, Seq<SolutionView>>, algs: Seq<AlgView>, targets: Set<u64>, i: int, a: int, j: nat)
    requires
        extends_with_duplexes(m1, m),
        forall|t: u64, k: int| #[trigger] m1.contains_key(t) && 0 <= k < m1[t].len() ==> (#[trigger] m1[t][k]).3 == 1,
    ensures
        extends_with_duplexes(m1, duplex_j(m, algs, targets, i, a, j)),
    decreases j,
{
    if j > 0 {
        lemma_duplex_j_extends(m1, m, algs, targets, i, a, (j - 1) as nat);
        lemma_duplex_b_extends(m1, duplex_j(m, algs, targets, i, a, (j - 1) as nat), algs, targets, i, a, j - 1, 4);
    }
}

proof fn lemma_duplex_a_extends(m1: Map<u64, Seq<SolutionView>>, m: Map<u64, Seq<SolutionView>>, algs: Seq<AlgView>, targets: Set<u64>, i: int, a: nat)
    requires
        extends_with_duplexes(m1, m),
        forall|t: u64, k: int| #[trigger] m1.contains_key(t) && 0 <= k < m1[t].len() ==> (#[trigger] m1[t][k]).3 == 1,
    ensures
        extends_with_duplexes(m1, duplex_a(m, algs, targets, i, a)),
    decreases a,
{
    if a > 0 {
        lemma_duplex_a_extends(m1, m, algs, targets, i, (a - 1) as nat);
        lemma_duplex_j_extends(m1, duplex_a(m, algs, targets, i, (a - 1) as nat), algs, targets, i, a - 1, algs.len());
    }
}

proof fn lemma_duplex_i_extends(m1: Map<u64, Seq<SolutionView>>, m: Map<u64, Seq<SolutionView>>, algs: Seq<AlgView>, targets: Set<u64>, i: nat)
    requires
        extends_with_duplexes(m1, m),
        forall|t: u64, k: int| #[trigger] m1.contains_key(t) && 0 <= k < m1[t].len() ==> (#[trigger] m1[t][k]).3 == 1,
    ensures
        extends_with_duplexes(m1, duplex_i(m, algs, targets, i)),
    decreases i,
{
    if i > 0 {
        lemma_duplex_i_extends(m1, m, algs, targets, (i - 1) as nat);
        lemma_duplex_a_extends(m1, duplex_i(m, algs, targets, (i - 1) as nat), algs, targets, i - 1, 4);
    }
}

/// Depths: any depth below 2 searches as depth 1 does, any depth of 2 or
/// more as depth 2 does; and the depth-2 search keeps every group of the
/// depth-1 search as the start of its own group, the solutions after it
/// all duplexes (depth 2).
pub proof fn lemma_depth_prefix(algs: Seq<AlgView>, targets: Set<u64>, max_depth: int)
    ensures
        search_result(algs, targets, max_depth) == (if max_depth >= 2 {
            search_result(algs, targets, 2)
        } else {
            search_result(algs, targets, 1)
        }),
        extends_with_duplexes(search_result(algs, targets, 1), search_result(algs, targets, 2)),
{
    let m1 = search_result(algs, targets, 1);
    lemma_search_grouped(algs, targets, 1);
    assert forall|t: u64, k: int| #[trigger] m1.contains_key(t) && 0 <= k < m1[t].len() implies (#[trigger] m1[t][k]).3
        == 1 by {}
    assert forall|t: u64| #[trigger] m1.contains_key(t) implies m1[t].subrange(0, m1[t].len() as int) == m1[t] by {
        assert(m1[t].subrange(0, m1[t].len() as int) =~= m1[t]);
    }
    lemma_duplex_i_extends(m1, m1, algs, targets, algs.len());
}

/// Every algorithm of `a1` is an algorithm of `a2`.
pub open spec fn algs_within(a1: Seq<AlgView>, a2: Seq<AlgView>) -> bool {
    forall|i: int| 0 <= i < a1.len() ==> exists|i2: int| 0 <= i2 < a2.len() && #[trigger] a2[i2] == #[trigger] a1[i]
}

/// Taking more algorithms loses no case: when every algorithm of `a1` is
/// one of `a2` (a sub-multiset, a reordering, or `a1` followed by more),
/// every index that `search` covers with `a1` it covers with `a2`.
pub proof fn lemma_search_covers_within(a1: Seq<AlgView>, a2: Seq<AlgView>, targets: Set<u64>, max_depth: int, t: u64)
    requires
        algs_within(a1, a2),
        is_covered(search_result(a1, targets, max_depth), t),
    ensures
        is_covered(search_result(a2, targets, max_depth), t),
{
    lemma_search_covers(a1, targets, max_depth, t);
    lemma_search_covers(a2, targets, max_depth, t);
    if single_reaches(a1, t) {
        let (i, a) = choose|i: int, a: int| #![trigger reach1(a1, t, i, a)]
            0 <= i < a1.len() && 0 <= a < 4 && (i < a1.len() || (i == a1.len() && a < 0)) && reach1(a1, t, i, a);
        let i2 = choose|i2: int| 0 <= i2 < a2.len() && #[trigger] a2[i2] == a1[i];
        assert(state1(a2, i2, a) == state1(a1, i, a));
        assert(reach1(a2, t, i2, a));
        assert(single_reaches(a2, t));
    } else {
        let (i, a, j, b) = choose|i: int, a: int, j: int, b: int| #![trigger reach2(a1, t, i, a, j, b)]
            0 <= i < a1.len() && i < a1.len() && 0 <= a < 4 && 0 <= j < a1.len() && 0 <= b < 4 && reach2(a1, t, i, a, j, b);
        let i2 = choose|i2: int| 0 <= i2 < a2.len() && #[trigger] a2[i2] == a1[i];
        let j2 = choose|j2: int| 0 <= j2 < a2.len() && #[trigger] a2[j2] == a1[j];
        assert(state2(a2, i2, a, j2, b) == state2(a1, i, a, j, b));
        assert(reach2(a2, t, i2, a, j2, b));
        assert(duplex_reaches(a2, t));
    }
}

/// Solution `x` is in the group of index `t`.
pub open spec fn has_solution(m: Map<u64, Seq<SolutionView>>, t: u64, x: SolutionView) -> bool {
    m.contains_key(t) && m[t].contains(x)
}

proof fn lemma_insert_contains(g: Seq<SolutionView>, y: SolutionView, x: SolutionView)
    requires
        g.contains(x) || x == y,
    ensures
        insert_sorted(g, y).contains(x),
    decreases g.len(),
{
    lemma_insert_bounded_len(g, y);
    if g.len() == 0 {
        assert(insert_sorted(g, y)[0] == y);
    } else if key_le(g.last(), y) {
        if x == y {
            assert(g.push(y)[g.len() as int] == y);
        } else {
            let k = choose|k: int| 0 <= k < g.len() && g[k] == x;
            assert(g.push(y)[k] == x);
        }
    } else {
        let h = g.drop_last();
        let inner = insert_sorted(h, y);
        if x == g.last() {
            assert(inner.push(g.last())[inner.len() as int] == x);
        } else {
            if x != y {
                let k = choose|k: int| 0 <= k < g.len() && g[k] == x;
                assert(k < h.len() && h[k] == x);
            }
            lemma_insert_contains(h, y, x);
            let k2 = choose|k2: int| 0 <= k2 < inner.len() && inner[k2] == x;
            assert(inner.push(g.last())[k2] == x);
        }
    }
}

proof fn lemma_add_matches_has(m: Map<u64, Seq<SolutionView>>, lls: Seq<u64>, targets: Set<u64>, y: SolutionView, t: u64, x: SolutionView)
    requires
        has_solution(m, t, x) || (x == y && lls.contains(t) && targets.contains(t)),
    ensures
        has_solution(add_matches(m, lls, targets, y), t, x),
    decreases lls.len(),
{
    if lls.len() > 0 {
        let init = lls.drop_last();
        let ll = lls.last();
        if has_solution(m, t, x) || (x == y && init.contains(t) && targets.contains(t)) {
            lemma_add_matches_has(m, init, targets, y, t, x);
        }
        let m1 = add_matches(m, init, targets, y);
        if !(has_solution(m, t, x) || (x == y && init.contains(t) && targets.contains(t))) {
            let k = choose|k: int| 0 <= k < lls.len() && lls[k] == t;
            if k < init.len() {
                assert(init[k] == t);
            }
            assert(ll == t);
        }
        if targets.contains(ll) {
            let g = if m1.contains_key(ll) { m1[ll] } else { Seq::empty() };
            if ll == t {
                lemma_insert_contains(g, y, x);
            }
        }
    }
}

proof fn lemma_after_single_has(algs: Seq<AlgView>, targets: Set<u64>, t: u64, i0: int, a0: int, i: nat, a: nat)
    requires
        0 <= i0 < algs.len(),
        0 <= a0 < 4,
        i0 < i || (i0 == i && a0 < a),
        a <= 4,
        reach1(algs, t, i0, a0),
        targets.contains(t),
    ensures
        has_solution(after_single(algs, targets, i, a), t, solution1(algs, i0, a0)),
    decreases i, a,
{
    if a > 0 {
        let x = solution1(algs, i0, a0);
        if i0 == i && a0 == a - 1 {
            lemma_add_matches_has(after_single(algs, targets, i, (a - 1) as nat), ll_indices(state1(algs, i as int, a - 1)),
                targets, x, t, x);
        } else {
            lemma_after_single_has(algs, targets, t, i0, a0, i, (a - 1) as nat);
            lemma_add_matches_has(after_single(algs, targets, i, (a - 1) as nat), ll_indices(state1(algs, i as int, a - 1)),
                targets, solution1(algs, i as int, a - 1), t, x);
        }
    } else {
        lemma_after_single_has(algs, targets, t, i0, a0, (i - 1) as nat, 4);
    }
}

proof fn lemma_duplex_b_has(m: Map<u64, Seq<SolutionView>>, algs: Seq<AlgView>, targets: Set<u64>, t: u64, x: SolutionView,
    i: int, a: int, j: int, b: nat, b0: int)
    requires
        has_solution(m, t, x) || (0 <= b0 < b && x == solution2(algs, i, a, j, b0) && reach2(algs, t, i, a, j, b0)
            && targets.contains(t)),
    ensures
        has_solution(duplex_b(m, algs, targets, i, a, j, b), t, x),
    decreases b,
{
    if b > 0 {
        if has_solution(m, t, x) || b0 < b - 1 {
            lemma_duplex_b_has(m, algs, targets, t, x, i, a, j, (b - 1) as nat, b0);
        }
        lemma_add_matches_has(duplex_b(m, algs, targets, i, a, j, (b - 1) as nat), ll_indices(state2(algs, i, a, j, b - 1)),
            targets, solution2(algs, i, a, j, b - 1), t, x);
    }
}

proof fn lemma_duplex_j_has(m: Map<u64, Seq<SolutionView>>, algs: Seq<AlgView>, targets: Set<u64>, t: u64, x: SolutionView,
    i: int, a: int, j: nat, j0: int, b0: int)
    requires
        has_solution(m, t, x) || (0 <= j0 < j && 0 <= b0 < 4 && x == solution2(algs, i, a, j0, b0)
            && reach2(algs, t, i, a, j0, b0) && targets.contains(t)),
    ensures
        has_solution(duplex_j(m, algs, targets, i, a, j), t, x),
    decreases j,
{
    if j > 0 {
        let prev = duplex_j(m, algs, targets, i, a, (j - 1) as nat);
        if has_solution(m, t, x) || j0 < j - 1 {
            lemma_duplex_j_has(m, algs, targets, t, x, i, a, (j - 1) as nat, j0, b0);
            lemma_duplex_b_has(prev, algs, targets, t, x, i, a, j - 1, 4, 0);
        } else {
            lemma_duplex_b_has(prev, algs, targets, t, x, i, a, j - 1, 4, b0);
        }
    }
}

proof fn lemma_duplex_a_has(m: Map<u64, Seq<SolutionView>>, algs: Seq<AlgView>, targets: Set<u64>, t: u64, x: SolutionView,
    i: int, a: nat, a0: int, j0: int, b0: int)
    requires
        has_solution(m, t, x) || (0 <= a0 < a && 0 <= j0 < algs.len() && 0 <= b0 < 4 && x == solution2(algs, i, a0, j0, b0)
            && reach2(algs, t, i, a0, j0, b0) && targets.contains(t)),
    ensures
        has_solution(duplex_a(m, algs, targets, i, a), t, x),
    decreases a,
{
    if a > 0 {
        let prev = duplex_a(m, algs, targets, i, (a - 1) as nat);
        if has_solution(m, t, x) || a0 < a - 1 {
            lemma_duplex_a_has(m, algs, targets, t, x, i, (a - 1) as nat, a0, j0, b0);
            lemma_duplex_j_has(prev, algs, targets, t, x, i, a - 1, algs.len(), 0, 0);
        } else {
            lemma_duplex_j_has(prev, algs, targets, t, x, i, a - 1, algs.len(), j0, b0);
        }
    }
}

proof fn lemma_duplex_i_has(m: Map<u64, Seq<SolutionView>>, algs: Seq<AlgView>, targets: Set<u64>, t: u64, x: SolutionView,
    i: nat, i0: int, a0: int, j0: int, b0: int)
    requires
        has_solution(m, t, x) || (0 <= i0 < i && 0 <= a0 < 4 && 0 <= j0 < algs.len() && 0 <= b0 < 4
            && x == solution2(algs, i0, a0, j0, b0) && reach2(algs, t, i0, a0, j0, b0) && targets.contains(t)),
    ensures
        has_solution(duplex_i(m, algs, targets, i), t, x),
    decreases i,
{
    if i > 0 {
        let prev = duplex_i(m, algs, targets, (i - 1) as nat);
        if has_solution(m, t, x) || i0 < i - 1 {
            lemma_duplex_i_has(m, algs, targets, t, x, (i - 1) as nat, i0, a0, j0, b0);
            lemma_duplex_a_has(prev, algs, targets, t, x, i - 1, 4, 0, 0, 0);
        } else {
            lemma_duplex_a_has(prev, algs, targets, t, x, i - 1, 4, a0, j0, b0);
        }
    }
}

/// Taking more algorithms loses no solution: when every algorithm of `a1`
/// is one of `a2`, every solution that `search` lists under an index with
/// `a1` it lists under that index with `a2`.
pub proof fn lemma_search_solutions_within(a1: Seq<AlgView>, a2: Seq<AlgView>, targets: Set<u64>, max_depth: int, t: u64, x: SolutionView)
    requires
        algs_within(a1, a2),
        has_solution(search_result(a1, targets, max_depth), t, x),
    ensures
        has_solution(search_result(a2, targets, max_depth), t, x),
{
    let m = search_result(a1, targets, max_depth);
    let k = choose|k: int| 0 <= k < m[t].len() && m[t][k] == x;
    lemma_search_from_trials(a1, targets, max_depth);
    assert(from_trial(a1, t, m[t][k]));
    lemma_search_grouped(a1, targets, max_depth);
    assert(targets.contains(t));
    let m2s = after_single(a2, targets, a2.len(), 0);
    if exists|i: int, a: int| #![trigger solution1(a1, i, a)]
        0 <= i < a1.len() && 0 <= a < 4 && x == solution1(a1, i, a) && ll_indices(state1(a1, i, a)).contains(t) {
        let (i, a) = choose|i: int, a: int| #![trigger solution1(a1, i, a)]
            0 <= i < a1.len() && 0 <= a < 4 && x == solution1(a1, i, a) && ll_indices(state1(a1, i, a)).contains(t);
        let i2 = choose|i2: int| 0 <= i2 < a2.len() && #[trigger] a2[i2] == a1[i];
        assert(solution1(a2, i2, a) == x);
        assert(state1(a2, i2, a) == state1(a1, i, a));
        lemma_after_single_has(a2, targets, t, i2, a, a2.len(), 0);
        if max_depth >= 2 {
            lemma_duplex_i_has(m2s, a2, targets, t, x, a2.len(), 0, 0, 0, 0);
        }
    } else {
        let (i, a, j, b) = choose|i: int, a: int, j: int, b: int| #![trigger solution2(a1, i, a, j, b)]
            0 <= i < a1.len() && 0 <= a < 4 && 0 <= j < a1.len() && 0 <= b < 4
                && x == solution2(a1, i, a, j, b) && ll_indices(state2(a1, i, a, j, b)).contains(t);
        let i2 = choose|i2: int| 0 <= i2 < a2.len() && #[trigger] a2[i2] == a1[i];
        let j2 = choose|j2: int| 0 <= j2 < a2.len() && #[trigger] a2[j2] == a1[j];
        assert(solution2(a2, i2, a, j2, b) == x);
        assert(state2(a2, i2, a, j2, b) == state2(a1, i, a, j, b));
        assert(max_depth >= 2) by {
            lemma_search_grouped(a1, targets, max_depth);
            if max_depth < 2 {
                assert(m[t][k].3 == 2);
            }
        }
        lemma_duplex_i_has(m2s, a2, targets, t, x, a2.len(), i2, a, j2, b);
    }
}

/// How many solutions the group of `t` holds (0 when there is none).
pub open spec fn group_len(m: Map<u64, Seq<SolutionView>>, t: u64) -> int {
    if m.contains_key(t) {
        m[t].len() as int
    } else {
        0
    }
}

/// How many times `t` occurs in `lls`, when it is a target.
pub open spec fn hits(targets: Set<u64>, lls: Seq<u64>, t: u64) -> int
    decreases lls.len(),
{
    if lls.len() == 0 || !targets.contains(t) {
        0
    } else {
        hits(targets, lls.drop_last(), t) + if lls.last() == t {
            1int
        } else {
            0
        }
    }
}

proof fn lemma_add_matches_len(m: Map<u64, Seq<SolutionView>>, lls: Seq<u64>, targets: Set<u64>, x: SolutionView, t: u64)
    ensures
        group_len(add_matches(m, lls, targets, x), t) == group_len(m, t) + hits(targets, lls, t),
        hits(targets, lls, t) >= 0,
    decreases lls.len(),
{
    if lls.len() > 0 {
        lemma_add_matches_len(m, lls.drop_last(), targets, x, t);
        let m1 = add_matches(m, lls.drop_last(), targets, x);
        let ll = lls.last();
        if targets.contains(ll) {
            let g = if m1.contains_key(ll) { m1[ll] } else { Seq::empty() };
            lemma_insert_bounded_len(g, x);
        }
    }
}

/// The duplex trials (`i`, `a`, `j`, `0..b`) that reach `t`, counted.
pub open spec fn sum_b(algs: Seq<AlgView>, targets: Set<u64>, t: u64, i: int, a: int, j: int, b: nat) -> int
    decreases b,
{
    if b == 0 {
        0
    } else {
        sum_b(algs, targets, t, i, a, j, (b - 1) as nat) + hits(targets, ll_indices(state2(algs, i, a, j, b - 1)), t)
    }
}

pub open spec fn sum_j(algs: Seq<AlgView>, targets: Set<u64>, t: u64, i: int, a: int, j: nat) -> int
    decreases j,
{
    if j == 0 {
        0
    } else {
        sum_j(algs, targets, t, i, a, (j - 1) as nat) + sum_b(algs, targets, t, i, a, j - 1, 4)
    }
}

pub open spec fn sum_a(algs: Seq<AlgView>, targets: Set<u64>, t: u64, i: int, a: nat) -> int
    decreases a,
{
    if a == 0 {
        0
    } else {
        sum_a(algs, targets, t, i, (a - 1) as nat) + sum_j(algs, targets, t, i, a - 1, algs.len())
    }
}

pub open spec fn sum_i(algs: Seq<AlgView>, targets: Set<u64>, t: u64, i: nat) -> int
    decreases i,
{
    if i == 0 {
        0
    } else {
        sum_i(algs, targets, t, (i - 1) as nat) + sum_a(algs, targets, t, i - 1, 4)
    }
}

proof fn lemma_duplex_len(m: Map<u64, Seq<SolutionView>>, algs: Seq<AlgView>, targets: Set<u64>, t: u64, i: nat)
    ensures
        group_len(duplex_i(m, algs, targets, i), t) == group_len(m, t) + sum_i(algs, targets, t, i),
    decreases i,
{
    if i > 0 {
        lemma_duplex_len(m, algs, targets, t, (i - 1) as nat);
        lemma_duplex_a_len(duplex_i(m, algs, targets, (i - 1) as nat), algs, targets, t, i - 1, 4);
    }
}

proof fn lemma_duplex_a_len(m: Map<u64, Seq<SolutionView>>, algs: Seq<AlgView>, targets: Set<u64>, t: u64, i: int, a: nat)
    ensures
        group_len(duplex_a(m, algs, targets, i, a), t) == group_len(m, t) + sum_a(algs, targets, t, i, a),
    decreases a,
{
    if a > 0 {
        lemma_duplex_a_len(m, algs, targets, t, i, (a - 1) as nat);
        lemma_duplex_j_len(duplex_a(m, algs, targets, i, (a - 1) as nat), algs, targets, t, i, a - 1, algs.len());
    }
}

proof fn lemma_duplex_j_len(m: Map<u64, Seq<SolutionView>>, algs: Seq<AlgView>, targets: Set<u64>, t: u64, i: int, a: int, j: nat)
    ensures
        group_len(duplex_j(m, algs, targets, i, a, j), t) == group_len(m, t) + sum_j(algs, targets, t, i, a, j),
    decreases j,
{
    if j > 0 {
        lemma_duplex_j_len(m, algs, targets, t, i, a, (j - 1) as nat);
        lemma_duplex_b_len(duplex_j(m, algs, targets, i, a, (j - 1) as nat), algs, targets, t, i, a, j - 1, 4);
    }
}

proof fn lemma_duplex_b_len(m: Map<u64, Seq<SolutionView>>, algs: Seq<AlgView>, targets: Set<u64>, t: u64, i: int, a: int, j: int, b: nat)
    ensures
        group_len(duplex_b(m, algs, targets, i, a, j, b), t) == group_len(m, t) + sum_b(algs, targets, t, i, a, j, b),
    decreases b,
{
    if b > 0 {
        lemma_duplex_b_len(m, algs, targets, t, i, a, j, (b - 1) as nat);
        lemma_add_matches_len(duplex_b(m, algs, targets, i, a, j, (b - 1) as nat), ll_indices(state2(algs, i, a, j, b - 1)),
            targets, solution2(algs, i, a, j, b - 1), t);
    }
}

// Comparing the counts of `a1` with those of `a1 + a2`.

proof fn lemma_sum_b_same(a1: Seq<AlgView>, a2: Seq<AlgView>, targets: Set<u64>, t: u64, i: int, a: int, j: int, b: nat)
    requires
        0 <= i < a1.len(),
        0 <= j < a1.len(),
    ensures
        sum_b(a1 + a2, targets, t, i, a, j, b) == sum_b(a1, targets, t, i, a, j, b),
        sum_b(a1, targets, t, i, a, j, b) >= 0,
    decreases b,
{
    if b > 0 {
        lemma_sum_b_same(a1, a2, targets, t, i, a, j, (b - 1) as nat);
        assert((a1 + a2)[i] == a1[i] && (a1 + a2)[j] == a1[j]);
        assert(state2(a1 + a2, i, a, j, b - 1) == state2(a1, i, a, j, b - 1));
        lemma_add_matches_len(Map::empty(), ll_indices(state2(a1, i, a, j, b - 1)), targets, solution2(a1, i, a, j, b - 1), t);
    }
}

proof fn lemma_sum_b_nonneg(algs: Seq<AlgView>, targets: Set<u64>, t: u64, i: int, a: int, j: int, b: nat)
    ensures
        sum_b(algs, targets, t, i, a, j, b) >= 0,
    decreases b,
{
    if b > 0 {
        lemma_sum_b_nonneg(algs, targets, t, i, a, j, (b - 1) as nat);
        lemma_add_matches_len(Map::empty(), ll_indices(state2(algs, i, a, j, b - 1)), targets, solution2(algs, i, a, j, b - 1), t);
    }
}

proof fn lemma_sum_j_grows(a1: Seq<AlgView>, a2: Seq<AlgView>, targets: Set<u64>, t: u64, i: int, a: int, j: nat, j2: nat)
    requires
        0 <= i < a1.len(),
        j <= a1.len(),
        j <= j2,
    ensures
        sum_j(a1 + a2, targets, t, i, a, j2) >= sum_j(a1, targets, t, i, a, j),
    decreases j2,
{
    if j2 > j {
        lemma_sum_j_grows(a1, a2, targets, t, i, a, j, (j2 - 1) as nat);
        lemma_sum_b_nonneg(a1 + a2, targets, t, i, a, j2 - 1, 4);
    } else if j > 0 {
        lemma_sum_j_grows(a1, a2, targets, t, i, a, (j - 1) as nat, (j - 1) as nat);
        lemma_sum_b_same(a1, a2, targets, t, i, a, j - 1, 4);
    }
}

proof fn lemma_sum_j_nonneg(algs: Seq<AlgView>, targets: Set<u64>, t: u64, i: int, a: int, j: nat)
    ensures
        sum_j(algs, targets, t, i, a, j) >= 0,
    decreases j,
{
    if j > 0 {
        lemma_sum_j_nonneg(algs, targets, t, i, a, (j - 1) as nat);
        lemma_sum_b_nonneg(algs, targets, t, i, a, j - 1, 4);
    }
}

proof fn lemma_sum_a_grows(a1: Seq<AlgView>, a2: Seq<AlgView>, targets: Set<u64>, t: u64, i: int, a: nat)
    requires
        0 <= i < a1.len(),
    ensures
        sum_a(a1 + a2, targets, t, i, a) >= sum_a(a1, targets, t, i, a),
    decreases a,
{
    if a > 0 {
        lemma_sum_a_grows(a1, a2, targets, t, i, (a - 1) as nat);
        lemma_sum_j_grows(a1, a2, targets, t, i, a - 1, a1.len(), (a1 + a2).len());
    }
}

proof fn lemma_sum_a_nonneg(algs: Seq<AlgView>, targets: Set<u64>, t: u64, i: int, a: nat)
    ensures
        sum_a(algs, targets, t, i, a) >= 0,
    decreases a,
{
    if a > 0 {
        lemma_sum_a_nonneg(algs, targets, t, i, (a - 1) as nat);
        lemma_sum_j_nonneg(algs, targets, t, i, a - 1, algs.len());
    }
}

proof fn lemma_sum_i_grows(a1: Seq<AlgView>, a2: Seq<AlgView>, targets: Set<u64>, t: u64, i: nat, i2: nat)
    requires
        i <= a1.len(),
        i <= i2,
    ensures
        sum_i(a1 + a2, targets, t, i2) >= sum_i(a1, targets, t, i),
    decreases i2,
{
    if i2 > i {
        lemma_sum_i_grows(a1, a2, targets, t, i, (i2 - 1) as nat);
        lemma_sum_a_nonneg(a1 + a2, targets, t, i2 - 1, 4);
    } else if i > 0 {
        lemma_sum_i_grows(a1, a2, targets, t, (i - 1) as nat, (i - 1) as nat);
        lemma_sum_a_grows(a1, a2, targets, t, i - 1, 4);
    }
}

proof fn lemma_after_single_prefix(a1: Seq<AlgView>, a2: Seq<AlgView>, targets: Set<u64>, i: nat, a: nat)
    requires
        i <= a1.len(),
        a <= 4,
        i == a1.len() ==> a == 0,
    ensures
        after_single(a1 + a2, targets, i, a) == after_single(a1, targets, i, a),
    decreases i, a,
{
    if a > 0 {
        lemma_after_single_prefix(a1, a2, targets, i, (a - 1) as nat);
        assert((a1 + a2)[i as int] == a1[i as int]);
        assert(state1(a1 + a2, i as int, a - 1) == state1(a1, i as int, a - 1));
        assert(solution1(a1 + a2, i as int, a - 1) == solution1(a1, i as int, a - 1));
    } else if i > 0 {
        lemma_after_single_prefix(a1, a2, targets, (i - 1) as nat, 4);
    }
}

proof fn lemma_after_single_grows(algs: Seq<AlgView>, targets: Set<u64>, t: u64, i0: nat, i: nat)
    requires
        i0 <= i,
    ensures
        group_len(after_single(algs, targets, i, 0), t) >= group_len(after_single(algs, targets, i0, 0), t),
    decreases i,
{
    if i > i0 {
        lemma_after_single_grows(algs, targets, t, i0, (i - 1) as nat);
        lemma_after_single_grows_a(algs, targets, t, (i - 1) as nat, 4);
    }
}

proof fn lemma_after_single_grows_a(algs: Seq<AlgView>, targets: Set<u64>, t: u64, i: nat, a: nat)
    ensures
        group_len(after_single(algs, targets, i, a), t) >= group_len(after_single(algs, targets, i, 0), t),
    decreases a,
{
    if a > 0 {
        lemma_after_single_grows_a(algs, targets, t, i, (a - 1) as nat);
        lemma_add_matches_len(after_single(algs, targets, i, (a - 1) as nat), ll_indices(state1(algs, i as int, a - 1)),
            targets, solution1(algs, i as int, a - 1), t);
    }
}

/// Appending algorithms only lengthens groups: every group of `search`
/// with `a1` is at most as long as that group with `a1` followed by `a2`.
pub proof fn lemma_search_groups_grow(a1: Seq<AlgView>, a2: Seq<AlgView>, targets: Set<u64>, max_depth: int, t: u64)
    ensures
        group_len(search_result(a1 + a2, targets, max_depth), t) >= group_len(search_result(a1, targets, max_depth), t),
{
    let b = a1 + a2;
    lemma_after_single_prefix(a1, a2, targets, a1.len(), 0);
    lemma_after_single_grows(b, targets, t, a1.len(), b.len());
    if max_depth >= 2 {
        let m1 = after_single(a1, targets, a1.len(), 0);
        let mb = after_single(b, targets, b.len(), 0);
        lemma_duplex_len(m1, a1, targets, t, a1.len());
        lemma_duplex_len(mb, b, targets, t, b.len());
        lemma_sum_i_grows(a1, a2, targets, t, a1.len(), b.len());
    }
}

// Comparing the counts of `a1` with those of an `a2` that holds each
// algorithm of `a1` at a place of its own.

/// The sum of `f(k)` for `k` in `0..n`.
pub open spec fn sum_to(f: spec_fn(int) -> int, n: int) -> int
    decreases n,
{
    if n <= 0 {
        0
    } else {
        sum_to(f, n - 1) + f(n - 1)
    }
}

/// The sum of `f(k)` for the `k` in `0..n` that `s` holds.
pub open spec fn sum_in(f: spec_fn(int) -> int, n: int, s: Set<int>) -> int
    decreases n,
{
    if n <= 0 {
        0
    } else {
        sum_in(f, n - 1, s) + if s.contains(n - 1) {
            f(n - 1)
        } else {
            0
        }
    }
}

/// The places `sigma(i)` for `i` in `0..m`.
pub open spec fn image(sigma: spec_fn(int) -> int, m: int) -> Set<int> {
    Set::new(|k: int| exists|i: int| 0 <= i < m && #[trigger] sigma(i) == k)
}

proof fn lemma_sum_in_agree(f: spec_fn(int) -> int, n: int, s1: Set<int>, s2: Set<int>)
    requires
        forall|k: int| 0 <= k < n ==> (s1.contains(k) <==> s2.contains(k)),
    ensures
        sum_in(f, n, s1) == sum_in(f, n, s2),
    decreases n,
{
    if n > 0 {
        lemma_sum_in_agree(f, n - 1, s1, s2);
    }
}

proof fn lemma_sum_in_empty(f: spec_fn(int) -> int, n: int)
    ensures
        sum_in(f, n, Set::empty()) == 0,
    decreases n,
{
    if n > 0 {
        lemma_sum_in_empty(f, n - 1);
    }
}

proof fn lemma_sum_in_insert(f: spec_fn(int) -> int, n: int, s: Set<int>, x: int)
    requires
        0 <= x < n,
        !s.contains(x),
    ensures
        sum_in(f, n, s.insert(x)) == sum_in(f, n, s) + f(x),
    decreases n,
{
    if n - 1 == x {
        lemma_sum_in_agree(f, n - 1, s.insert(x), s);
    } else {
        lemma_sum_in_insert(f, n - 1, s, x);
    }
}

proof fn lemma_sum_in_le(f: spec_fn(int) -> int, n: int, s: Set<int>)
    requires
        forall|k: int| 0 <= k < n ==> #[trigger] f(k) >= 0,
    ensures
        sum_in(f, n, s) <= sum_to(f, n),
    decreases n,
{
    if n > 0 {
        lemma_sum_in_le(f, n - 1, s);
    }
}

proof fn lemma_sum_mono(g: spec_fn(int) -> int, h: spec_fn(int) -> int, m: int)
    requires
        forall|i: int| 0 <= i < m ==> #[trigger] g(i) <= h(i),
    ensures
        sum_to(g, m) <= sum_to(h, m),
    decreases m,
{
    if m > 0 {
        lemma_sum_mono(g, h, m - 1);
    }
}

proof fn lemma_sum_image(f: spec_fn(int) -> int, sigma: spec_fn(int) -> int, m: int, n: int)
    requires
        0 <= m,
        forall|i: int| 0 <= i < m ==> 0 <= #[trigger] sigma(i) < n,
        forall|i: int, j: int| 0 <= i < j < m ==> #[trigger] sigma(i) != #[trigger] sigma(j),
    ensures
        sum_to(|i: int| f(sigma(i)), m) == sum_in(f, n, image(sigma, m)),
    decreases m,
{
    if m == 0 {
        assert(image(sigma, 0) =~= Set::empty());
        lemma_sum_in_empty(f, n);
    } else {
        lemma_sum_image(f, sigma, m - 1, n);
        assert(image(sigma, m) =~= image(sigma, m - 1).insert(sigma(m - 1)));
        assert(!image(sigma, m - 1).contains(sigma(m - 1)));
        lemma_sum_in_insert(f, n, image(sigma, m - 1), sigma(m - 1));
    }
}

/// A sum over `0..m` whose terms are bounded by those of a sum over `0..n`
/// at distinct places is bounded by that sum, when its terms are not
/// negative.
proof fn lemma_sum_embed(g: spec_fn(int) -> int, f: spec_fn(int) -> int, sigma: spec_fn(int) -> int, m: int, n: int)
    requires
        0 <= m,
        forall|i: int| 0 <= i < m ==> 0 <= #[trigger] sigma(i) < n && g(i) <= f(sigma(i)),
        forall|i: int, j: int| 0 <= i < j < m ==> #[trigger] sigma(i) != #[trigger] sigma(j),
        forall|k: int| 0 <= k < n ==> #[trigger] f(k) >= 0,
    ensures
        sum_to(g, m) <= sum_to(f, n),
{
    let h = |i: int| f(sigma(i));
    assert forall|i: int| 0 <= i < m implies #[trigger] g(i) <= h(i) by {
        assert(0 <= sigma(i) < n);
    }
    lemma_sum_mono(g, h, m);
    lemma_sum_image(f, sigma, m, n);
    lemma_sum_in_le(f, n, image(sigma, m));
}

/// `sigma` puts each algorithm of `a1` at a place of its own in `a2`: `a1`
/// is a sub-multiset of `a2`, in any order.
pub open spec fn embeds(a1: Seq<AlgView>, a2: Seq<AlgView>, sigma: spec_fn(int) -> int) -> bool {
    &&& forall|i: int| 0 <= i < a1.len() ==> 0 <= #[trigger] sigma(i) < a2.len() && a2[sigma(i)] == a1[i]
    &&& forall|i: int, j: int| 0 <= i < j < a1.len() ==> #[trigger] sigma(i) != #[trigger] sigma(j)
}

/// The single trials (`i`, `0..a`) that reach `t`, counted.
pub open spec fn single_upto(algs: Seq<AlgView>, targets: Set<u64>, t: u64, i: int, a: nat) -> int
    decreases a,
{
    if a == 0 {
        0
    } else {
        single_upto(algs, targets, t, i, (a - 1) as nat) + hits(targets, ll_indices(state1(algs, i, a - 1)), t)
    }
}

proof fn lemma_single_upto_nonneg(algs: Seq<AlgView>, targets: Set<u64>, t: u64, i: int, a: nat)
    ensures
        single_upto(algs, targets, t, i, a) >= 0,
    decreases a,
{
    if a > 0 {
        lemma_single_upto_nonneg(algs, targets, t, i, (a - 1) as nat);
        lemma_add_matches_len(Map::empty(), ll_indices(state1(algs, i, a - 1)), targets, solution1(algs, i, a - 1), t);
    }
}

proof fn lemma_single_upto_same(a1: Seq<AlgView>, a2: Seq<AlgView>, targets: Set<u64>, t: u64, i: int, i2: int, a: nat)
    requires
        0 <= i < a1.len(),
        0 <= i2 < a2.len(),
        a2[i2] == a1[i],
    ensures
        single_upto(a1, targets, t, i, a) == single_upto(a2, targets, t, i2, a),
    decreases a,
{
    if a > 0 {
        lemma_single_upto_same(a1, a2, targets, t, i, i2, (a - 1) as nat);
        assert(state1(a1, i, a - 1) == state1(a2, i2, a - 1));
    }
}

proof fn lemma_after_single_len(algs: Seq<AlgView>, targets: Set<u64>, t: u64, i: nat, a: nat)
    requires
        a <= 4,
    ensures
        group_len(after_single(algs, targets, i, a), t) == sum_to(|k: int| single_upto(algs, targets, t, k, 4), i as int)
            + single_upto(algs, targets, t, i as int, a),
    decreases i, a,
{
    if a > 0 {
        lemma_after_single_len(algs, targets, t, i, (a - 1) as nat);
        lemma_add_matches_len(after_single(algs, targets, i, (a - 1) as nat), ll_indices(state1(algs, i as int, a - 1)),
            targets, solution1(algs, i as int, a - 1), t);
    } else if i > 0 {
        lemma_after_single_len(algs, targets, t, (i - 1) as nat, 4);
    }
}

proof fn lemma_sum_j_to(algs: Seq<AlgView>, targets: Set<u64>, t: u64, i: int, a: int, j: nat)
    ensures
        sum_j(algs, targets, t, i, a, j) == sum_to(|k: int| sum_b(algs, targets, t, i, a, k, 4), j as int),
    decreases j,
{
    if j > 0 {
        lemma_sum_j_to(algs, targets, t, i, a, (j - 1) as nat);
    }
}

proof fn lemma_sum_i_to(algs: Seq<AlgView>, targets: Set<u64>, t: u64, i: nat)
    ensures
        sum_i(algs, targets, t, i) == sum_to(|k: int| sum_a(algs, targets, t, k, 4), i as int),
    decreases i,
{
    if i > 0 {
        lemma_sum_i_to(algs, targets, t, (i - 1) as nat);
    }
}

proof fn lemma_sum_b_eq(a1: Seq<AlgView>, a2: Seq<AlgView>, targets: Set<u64>, t: u64, i: int, i2: int, a: int, j: int,
    j2: int, b: nat)
    requires
        0 <= i < a1.len(),
        0 <= j < a1.len(),
        0 <= i2 < a2.len(),
        0 <= j2 < a2.len(),
        a2[i2] == a1[i],
        a2[j2] == a1[j],
    ensures
        sum_b(a1, targets, t, i, a, j, b) == sum_b(a2, targets, t, i2, a, j2, b),
    decreases b,
{
    if b > 0 {
        lemma_sum_b_eq(a1, a2, targets, t, i, i2, a, j, j2, (b - 1) as nat);
        assert(state2(a1, i, a, j, b - 1) == state2(a2, i2, a, j2, b - 1));
    }
}

proof fn lemma_sum_a_embed(a1: Seq<AlgView>, a2: Seq<AlgView>, sigma: spec_fn(int) -> int, targets: Set<u64>, t: u64, i: int,
    a: nat)
    requires
        embeds(a1, a2, sigma),
        0 <= i < a1.len(),
    ensures
        sum_a(a1, targets, t, i, a) <= sum_a(a2, targets, t, sigma(i), a),
    decreases a,
{
    if a > 0 {
        lemma_sum_a_embed(a1, a2, sigma, targets, t, i, (a - 1) as nat);
        let aa = a - 1;
        let i2 = sigma(i);
        let g = |k: int| sum_b(a1, targets, t, i, aa, k, 4);
        let f = |k: int| sum_b(a2, targets, t, i2, aa, k, 4);
        assert forall|k: int| 0 <= k < a1.len() implies 0 <= #[trigger] sigma(k) < a2.len() && g(k) <= f(sigma(k)) by {
            lemma_sum_b_eq(a1, a2, targets, t, i, i2, aa, k, sigma(k), 4);
        }
        assert forall|k: int| 0 <= k < a2.len() implies #[trigger] f(k) >= 0 by {
            lemma_sum_b_nonneg(a2, targets, t, i2, aa, k, 4);
        }
        lemma_sum_embed(g, f, sigma, a1.len() as int, a2.len() as int);
        lemma_sum_j_to(a1, targets, t, i, aa, a1.len());
        lemma_sum_j_to(a2, targets, t, i2, aa, a2.len());
    }
}

/// Taking more algorithms never shortens a group: when `sigma` puts each
/// algorithm of `a1` at a place of its own in `a2` (`a1` a sub-multiset of
/// `a2`: a reordering, a part, or `a1` with more algorithms anywhere), every
/// group of `search` with `a1` is at most as long as that group with `a2`.
pub proof fn lemma_search_groups_grow_within(
    a1: Seq<AlgView>,
    a2: Seq<AlgView>,
    sigma: spec_fn(int) -> int,
    targets: Set<u64>,
    max_depth: int,
    t: u64,
)
    requires
        embeds(a1, a2, sigma),
    ensures
        group_len(search_result(a2, targets, max_depth), t) >= group_len(search_result(a1, targets, max_depth), t),
{
    let g1 = |k: int| single_upto(a1, targets, t, k, 4);
    let f1 = |k: int| single_upto(a2, targets, t, k, 4);
    assert forall|k: int| 0 <= k < a1.len() implies 0 <= #[trigger] sigma(k) < a2.len() && g1(k) <= f1(sigma(k)) by {
        lemma_single_upto_same(a1, a2, targets, t, k, sigma(k), 4);
    }
    assert forall|k: int| 0 <= k < a2.len() implies #[trigger] f1(k) >= 0 by {
        lemma_single_upto_nonneg(a2, targets, t, k, 4);
    }
    lemma_sum_embed(g1, f1, sigma, a1.len() as int, a2.len() as int);
    lemma_after_single_len(a1, targets, t, a1.len(), 0);
    lemma_after_single_len(a2, targets, t, a2.len(), 0);
    if max_depth >= 2 {
        let m1 = after_single(a1, targets, a1.len(), 0);
        let m2 = after_single(a2, targets, a2.len(), 0);
        lemma_duplex_len(m1, a1, targets, t, a1.len());
        lemma_duplex_len(m2, a2, targets, t, a2.len());
        let g2 = |k: int| sum_a(a1, targets, t, k, 4);
        let f2 = |k: int| sum_a(a2, targets, t, k, 4);
        assert forall|k: int| 0 <= k < a1.len() implies 0 <= #[trigger] sigma(k) < a2.len() && g2(k) <= f2(sigma(k)) by {
            lemma_sum_a_embed(a1, a2, sigma, targets, t, k, 4);
        }
        assert forall|k: int| 0 <= k < a2.len() implies #[trigger] f2(k) >= 0 by {
            lemma_sum_a_nonneg(a2, targets, t, k, 4);
        }
        lemma_sum_embed(g2, f2, sigma, a1.len() as int, a2.len() as int);
        lemma_sum_i_to(a1, targets, t, a1.len());
        lemma_sum_i_to(a2, targets, t, a2.len());
    }
}

/// Undoing the inverse of a move sequence gives it back.
pub proof fn lemma_inverse_inverse(ms: Seq<Move>)
    ensures
        inverse_moves(inverse_moves(ms)) == ms,
{
    assert(inverse_moves(inverse_moves(ms)) =~= ms);
}

} // verus!
