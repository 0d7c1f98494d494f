//! The computations behind the command line: which case set to cover, the
//! search depth, and the summaries that are printed and written out.
use vstd::prelude::*;
use std::collections::HashMap;
use crate::cube::Cube;
use crate::enumerate::{Case, case_cube, case_state};
use crate::optimize::Picked;
use crate::search::{Solution, SolutionView, group_view, groups_view, solution_view};
use crate::text::{chars_of, lower_matches, lower_equals};

verus! {

broadcast use vstd::std_specs::hash::group_hash_axioms;

/// Which last-layer cases to cover: ZBLL (edges already oriented) or all
/// of them (1LLL).
#[derive(Clone, Copy, PartialEq, Eq, Structural, Debug)]
pub enum CaseSet {
    Zbll,
    All,
}

pub open spec fn case_set_label(c: CaseSet) -> Seq<char> {
    match c {
        CaseSet::Zbll => "ZBLL"@,
        CaseSet::All => "1LLL"@,
    }
}

/// The cases of `cases` that belong to the set `c`, in order.
pub open spec fn filter_cases(c: CaseSet, cases: Seq<Case>) -> Seq<Case>
    decreases cases.len(),
{
    if cases.len() == 0 {
        cases
    } else {
        let rest = filter_cases(c, cases.drop_last());
        if c == CaseSet::All || cases.last().spec_is_zbll() {
            rest.push(cases.last())
        } else {
            rest
        }
    }
}

/// The case set that a name stands for: `zbll`, or `all` or `1lll`, in any
/// case; none for anything else.
pub open spec fn case_set_named(name: Seq<char>) -> Option<CaseSet> {
    if lower_matches(name, seq!['z', 'b', 'l', 'l']) {
        Some(CaseSet::Zbll)
    } else if lower_matches(name, seq!['a', 'l', 'l']) || lower_matches(name, seq!['1', 'l', 'l', 'l']) {
        Some(CaseSet::All)
    } else {
        None
    }
}

impl CaseSet {
    /// The name under which the set is reported.
    pub fn label(self) -> (r: &'static str)
        ensures
            r@ == case_set_label(self),
    {
        match self {
            CaseSet::Zbll => "ZBLL",
            CaseSet::All => "1LLL",
        }
    }

    /// The cases of `all_cases` that belong to this set.
    pub fn filter(self, all_cases: Vec<Case>) -> (r: Vec<Case>)
        ensures
            r@ == filter_cases(self, all_cases@),
    {
        let mut r: Vec<Case> = Vec::new();
        let mut rest = all_cases;
        let ghost all = rest@;
        let mut taken: Vec<Case> = Vec::new();
        // take the cases out in reverse order, then keep them in order
        while rest.len() > 0
            invariant
                rest@ + taken@.reverse() == all,
            decreases rest@.len(),
        {
            let c = rest.pop().unwrap();
            taken.push(c);
            assert(rest@ + taken@.reverse() =~= all);
        }
        assert(taken@.reverse() =~= all);
        let n = taken.len();
        let mut k: usize = 0;
        while k < n
            invariant
                k <= n,
                taken@.len() == n - k,
                taken@.reverse() == all.skip(k as int),
                r@ == filter_cases(self, all.take(k as int)),
                n == all.len(),
            decreases n - k,
        {
            let ghost old_t = taken@;
            let c = taken.pop().unwrap();
            proof {
                assert(old_t.reverse()[0] == old_t[old_t.len() - 1]);
                assert(all.skip(k as int)[0] == all[k as int]);
                assert(c == all[k as int]);
                assert forall|i: int| 0 <= i < taken@.len() implies #[trigger] taken@.reverse()[i] == all.skip(k + 1)[i] by {
                    assert(taken@.reverse()[i] == taken@[taken@.len() - 1 - i]);
                    assert(taken@[taken@.len() - 1 - i] == old_t[taken@.len() - 1 - i]);
                    assert(old_t.reverse()[i + 1] == old_t[old_t.len() - 1 - (i + 1)]);
                    assert(all.skip(k as int)[i + 1] == all.skip(k + 1)[i]);
                }
                assert(all.take(k + 1).drop_last() =~= all.take(k as int));
                assert(taken@.reverse() =~= all.skip(k + 1));
            }
            let keep = match self {
                CaseSet::All => true,
                CaseSet::Zbll => c.is_zbll(),
            };
            if keep {
                r.push(c);
            }
            k = k + 1;
        }
        assert(all.take(n as int) =~= all);
        r
    }

    /// The case set named `name` (see `case_set_named`).
    pub fn from_name(name: &str) -> (r: Option<CaseSet>)
        ensures
            r == case_set_named(name@),
    {
        let s = chars_of(name);
        let zbll = vec!['z', 'b', 'l', 'l'];
        let all = vec!['a', 'l', 'l'];
        let lll = vec!['1', 'l', 'l', 'l'];
        assert(zbll@ =~= seq!['z', 'b', 'l', 'l']);
        assert(all@ =~= seq!['a', 'l', 'l']);
        assert(lll@ =~= seq!['1', 'l', 'l', 'l']);
        if lower_equals(&s, &zbll) {
            Some(CaseSet::Zbll)
        } else if lower_equals(&s, &all) || lower_equals(&s, &lll) {
            Some(CaseSet::All)
        } else {
            None
        }
    }
}

/// The search depth actually used: `depth` clamped to 1..=2.
pub fn clamp_depth(depth: usize) -> (r: usize)
    ensures
        r == (if depth < 1 { 1 } else if depth > 2 { 2 } else { depth }),
{
    if depth < 1 {
        1
    } else if depth > 2 {
        2
    } else {
        depth
    }
}

/// The cube in the state of `case`.
pub fn case_to_cube(case: &Case) -> (cube: Cube)
    requires
        case.wf(),
    ensures
        cube@ == case_state(*case),
{
    case_cube(case)
}

/// How a case is solved: 0 when some single algorithm solves it, 1 when
/// only duplexes do, 2 when nothing does.
pub open spec fn solved_class(m: Map<u64, Seq<SolutionView>>, ll: u64) -> int {
    if m.contains_key(ll) && exists|i: int| 0 <= i < m[ll].len() && m[ll][i].3 == 1 {
        0
    } else if m.contains_key(ll) && m[ll].len() > 0 {
        1
    } else {
        2
    }
}

/// How many of the first `k` cases fall in class `class`.
pub open spec fn count_class(cases: Seq<Case>, m: Map<u64, Seq<SolutionView>>, class: int, k: nat) -> nat
    decreases k,
{
    if k == 0 || k > cases.len() {
        0
    } else {
        count_class(cases, m, class, (k - 1) as nat) + if solved_class(m, cases[k - 1].ll_index) == class {
            1nat
        } else {
            0nat
        }
    }
}

/// The positions, among the first `k` cases, of those that nothing solves.
pub open spec fn unsolved_positions(cases: Seq<Case>, m: Map<u64, Seq<SolutionView>>, k: nat) -> Seq<usize>
    decreases k,
{
    if k == 0 || k > cases.len() {
        Seq::empty()
    } else {
        let rest = unsolved_positions(cases, m, (k - 1) as nat);
        if solved_class(m, cases[k - 1].ll_index) == 2 {
            rest.push((k - 1) as usize)
        } else {
            rest
        }
    }
}

/// How the cases are covered.
pub struct Coverage {
    pub total: usize,
    /// Cases that some single algorithm solves.
    pub solved_single: usize,
    /// Cases that only a duplex (two algorithms) solves.
    pub solved_duplex_only: usize,
    /// Positions, in the case list, of the cases that nothing solves.
    pub unsolved: Vec<usize>,
}

/// Counts how the solutions cover the cases (see `solved_class`).
pub fn summarize_coverage(cases: &[Case], solutions: &HashMap<u64, Vec<Solution>>) -> (r: Coverage)
    ensures
        r.total == cases@.len(),
        r.solved_single == count_class(cases@, groups_view(solutions@), 0, cases@.len()),
        r.solved_duplex_only == count_class(cases@, groups_view(solutions@), 1, cases@.len()),
        r.unsolved@ == unsolved_positions(cases@, groups_view(solutions@), cases@.len()),
{
    let ghost m = groups_view(solutions@);
    let n = cases.len();
    let mut single: usize = 0;
    let mut duplex: usize = 0;
    let mut unsolved: Vec<usize> = Vec::new();
    let mut k: usize = 0;
    while k < n
        invariant
            k <= n,
            n == cases@.len(),
            m == groups_view(solutions@),
            single == count_class(cases@, m, 0, k as nat),
            duplex == count_class(cases@, m, 1, k as nat),
            single + duplex <= k,
            unsolved@ == unsolved_positions(cases@, m, k as nat),
        decreases n - k,
    {
        let ll = cases[k].ll_index;
        match solutions.get(&ll) {
            Some(sols) => {
                let mut any_single = false;
                let mut i: usize = 0;
                while i < sols.len()
                    invariant
                        i <= sols@.len(),
                        any_single == exists|t: int| 0 <= t < i && sols@[t].depth == 1,
                    decreases sols@.len() - i,
                {
                    if sols[i].depth == 1 {
                        any_single = true;
                    }
                    i = i + 1;
                }
                proof {
                    assert(m[ll] == group_view(sols@));
                    if any_single {
                        let t = choose|t: int| 0 <= t < sols@.len() && sols@[t].depth == 1;
                        assert(m[ll][t].3 == 1);
                    } else {
                        assert forall|t: int| 0 <= t < m[ll].len() implies m[ll][t].3 != 1 by {
                            assert(m[ll][t] == solution_view(sols@[t]));
                        }
                    }
                }
                if any_single {
                    single = single + 1;
                } else if sols.len() > 0 {
                    duplex = duplex + 1;
                } else {
                    unsolved.push(k);
                }
            },
            None => {
                unsolved.push(k);
            },
        }
        k = k + 1;
    }
    Coverage { total: n, solved_single: single, solved_duplex_only: duplex, unsolved }
}

/// A copy of `s`.
pub fn copy_solution(s: &Solution) -> (r: Solution)
    ensures
        solution_view(r) == solution_view(*s),
{
    let mut names: Vec<String> = Vec::new();
    let n = s.alg_names.len();
    let mut i: usize = 0;
    while i < n
        invariant
            i <= n,
            n == s.alg_names@.len(),
            names@.len() == i,
            forall|k: int| 0 <= k < i ==> (#[trigger] names@[k])@ == s.alg_names@[k]@,
        decreases n - i,
    {
        names.push(s.alg_names[i].clone());
        i = i + 1;
    }
    let r = Solution { alg_names: names, sequence: s.sequence.clone(), move_count: s.move_count, depth: s.depth };
    assert(solution_view(r).0 =~= solution_view(*s).0);
    r
}

/// What is reported of one case.
pub struct CaseEntry {
    /// The case's number.
    pub case: usize,
    pub ll_index: u64,
    /// Whether some solution was found.
    pub solved: bool,
    /// The first (shortest, lowest-depth) solution, if any.
    pub best: Option<Solution>,
    /// How many solutions were found.
    pub alternatives: usize,
}

/// The report entry of `case` given the solution groups `m`.
pub open spec fn entry_spec(case: Case, m: Map<u64, Seq<SolutionView>>) -> (int, u64, bool, Option<SolutionView>, int) {
    let has = m.contains_key(case.ll_index);
    let g = m[case.ll_index];
    (
        case.index as int,
        case.ll_index,
        has && g.len() > 0,
        if has && g.len() > 0 { Some(g[0]) } else { None },
        if has { g.len() as int } else { 0 },
    )
}

pub open spec fn entry_view(e: CaseEntry) -> (int, u64, bool, Option<SolutionView>, int) {
    (
        e.case as int,
        e.ll_index,
        e.solved,
        match e.best {
            Some(s) => Some(solution_view(s)),
            None => None,
        },
        e.alternatives as int,
    )
}

/// The report entry of each case (see `entry_spec`).
pub fn case_entries(cases: &[Case], solutions: &HashMap<u64, Vec<Solution>>) -> (r: Vec<CaseEntry>)
    ensures
        r@.len() == cases@.len(),
        forall|k: int| 0 <= k < cases@.len() ==> entry_view(#[trigger] r@[k]) == entry_spec(cases@[k],
            groups_view(solutions@)),
{
    let ghost m = groups_view(solutions@);
    let mut r: Vec<CaseEntry> = Vec::new();
    let n = cases.len();
    let mut k: usize = 0;
    while k < n
        invariant
            k <= n,
            n == cases@.len(),
            m == groups_view(solutions@),
            r@.len() == k,
            forall|t: int| 0 <= t < k ==> entry_view(#[trigger] r@[t]) == entry_spec(cases@[t], m),
        decreases n - k,
    {
        let case = &cases[k];
        let entry = match solutions.get(&case.ll_index) {
            Some(sols) => {
                assert(m[case.ll_index] == group_view(sols@));
                let best = if sols.len() > 0 {
                    Some(copy_solution(&sols[0]))
                } else {
                    None
                };
                CaseEntry {
                    case: case.index,
                    ll_index: case.ll_index,
                    solved: sols.len() > 0,
                    best,
                    alternatives: sols.len(),
                }
            },
            None => CaseEntry { case: case.index, ll_index: case.ll_index, solved: false, best: None, alternatives: 0 },
        };
        r.push(entry);
        k = k + 1;
    }
    r
}

/// The total move count of the picked candidates; none when it does not
/// fit in a `usize`.
pub fn total_moves(picked: &[Picked]) -> (r: Option<usize>)
    ensures
        r matches Some(t) ==> t as int == sum_moves(picked@, picked@.len()),
        r is None ==> sum_moves(picked@, picked@.len()) > usize::MAX,
{
    let mut total: usize = 0;
    let n = picked.len();
    let mut k: usize = 0;
    while k < n
        invariant
            k <= n,
            n == picked@.len(),
            total as int == sum_moves(picked@, k as nat),
        decreases n - k,
    {
        match total.checked_add(picked[k].cost_moves) {
            Some(t) => {
                total = t;
            },
            None => {
                proof {
                    lemma_sum_moves_mono(picked@, (k + 1) as nat, n as nat);
                }
                return None;
            },
        }
        k = k + 1;
    }
    Some(total)
}

/// The sum of the move counts of the first `k` picks.
pub open spec fn sum_moves(picked: Seq<Picked>, k: nat) -> int
    decreases k,
{
    if k == 0 || k > picked.len() {
        0
    } else {
        sum_moves(picked, (k - 1) as nat) + picked[k - 1].cost_moves
    }
}

proof fn lemma_sum_moves_mono(picked: Seq<Picked>, a: nat, b: nat)
    requires
        a <= b <= picked.len(),
    ensures
        sum_moves(picked, a) <= sum_moves(picked, b),
    decreases b,
{
    if b > a {
        lemma_sum_moves_mono(picked, a, (b - 1) as nat);
    }
}


// ---------------------------------------------------------------------------
// Laws.

/// Every case is counted once: solved by a single algorithm, solved only by
/// a duplex, or unsolved.
pub proof fn lemma_coverage_partition(cases: Seq<Case>, m: Map<u64, Seq<SolutionView>>, k: nat)
    requires
        k <= cases.len(),
    ensures
        count_class(cases, m, 0, k) + count_class(cases, m, 1, k) + unsolved_positions(cases, m, k).len() == k,
    decreases k,
{
    if k > 0 {
        lemma_coverage_partition(cases, m, (k - 1) as nat);
    }
}

/// The ZBLL set keeps exactly the ZBLL cases, in order; the full set keeps
/// every case.
pub proof fn lemma_filter_cases(c: CaseSet, cases: Seq<Case>)
    ensures
        c == CaseSet::All ==> filter_cases(c, cases) == cases,
        forall|i: int| 0 <= i < filter_cases(c, cases).len() ==> c == CaseSet::All
            || (#[trigger] filter_cases(c, cases)[i]).spec_is_zbll(),
        filter_cases(c, cases).len() <= cases.len(),
    decreases cases.len(),
{
    if cases.len() > 0 {
        lemma_filter_cases(c, cases.drop_last());
        if c == CaseSet::All {
            assert(cases.drop_last().push(cases.last()) =~= cases);
        }
    }
}

} // verus!
