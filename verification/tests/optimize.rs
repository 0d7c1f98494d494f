use duplex::alg::create_algset;
use duplex::candidates::{load_csv, Candidate};
use duplex::cli::CaseSet;
use duplex::enumerate::get_cases;
use duplex::optimize::{greedy_cover, Objective};

fn pool() -> Vec<Candidate> {
    let (cands, errs) = load_csv(
        "R U R' U R U2 R',no,no\nR U2 R' U' R U' R',no,no\nR U R' U' R' F R2 U' R' U' R U R' F',no,no\n",
    );
    assert!(errs.is_empty());
    cands
}

#[test]
fn greedy_cover_picks_every_helpful_candidate() {
    let cases = CaseSet::Zbll.filter(get_cases());
    let cands = pool();
    let obj = Objective { per_alg: 0, per_move: 1000 };
    let report = greedy_cover(&cands, &cases, 1, &obj, None, &[]);
    assert_eq!(report.total, 493);
    assert_eq!(report.picked.len(), 3);
    // the two seven-move algorithms come before the fourteen-move one
    assert_eq!(report.picked[2].cost_moves, 14);
    assert!(report.picked.iter().all(|p| p.newly_covered == 1));
    assert_eq!(report.covered, 3);
    let gained: usize = report.picked.iter().map(|p| p.newly_covered).sum();
    assert_eq!(gained, report.covered);
}

#[test]
fn greedy_cover_stops_at_max_picks() {
    let cases = CaseSet::Zbll.filter(get_cases());
    let cands = pool();
    let obj = Objective { per_alg: 1, per_move: 0 };
    let report = greedy_cover(&cands, &cases, 1, &obj, Some(1), &[]);
    assert_eq!(report.picked.len(), 1);
    assert_eq!(report.picked[0].label, "R U R' U R U2 R'");
    assert_eq!(report.covered, 1);
}

#[test]
fn greedy_cover_with_seed_skips_known_cases() {
    let cases = CaseSet::Zbll.filter(get_cases());
    let cands = pool();
    let seed = create_algset("sune", "R U R' U R U2 R'", None, false).unwrap();
    let obj = Objective { per_alg: 0, per_move: 1 };
    let report = greedy_cover(&cands, &cases, 1, &obj, None, &seed);
    assert_eq!(report.picked.len(), 2);
    assert!(report.picked.iter().all(|p| p.label != "R U R' U R U2 R'"));
    assert_eq!(report.covered, 3);
}

#[test]
fn greedy_cover_prefers_zero_cost() {
    let cases = CaseSet::Zbll.filter(get_cases());
    let cands = pool();
    // with a negative per-move weight every candidate costs nothing: the
    // first is kept on a tie of newly covered cases
    let obj = Objective { per_alg: 0, per_move: -1 };
    let report = greedy_cover(&cands, &cases, 1, &obj, Some(1), &[]);
    assert_eq!(report.picked[0].label, "R U R' U R U2 R'");
}

#[test]
fn objective_cost_formula() {
    let cands = pool();
    let obj = Objective { per_alg: 500, per_move: 2000 };
    assert_eq!(obj.cost(&cands[0]), 500 + 2000 * 7);
    assert_eq!(obj.cost(&cands[2]), 500 + 2000 * 14);
}

#[test]
fn greedy_cover_duplex_depth() {
    let cases = CaseSet::Zbll.filter(get_cases());
    let cands = pool();
    let obj = Objective { per_alg: 0, per_move: 1 };
    let one = greedy_cover(&cands, &cases, 1, &obj, None, &[]);
    let two = greedy_cover(&cands, &cases, 2, &obj, None, &[]);
    assert!(two.covered > one.covered);
    let gained: usize = two.picked.iter().map(|p| p.newly_covered).sum();
    assert_eq!(gained, two.covered);
}

#[test]
fn greedy_cover_counts_what_its_solutions_reach() {
    let cases = CaseSet::Zbll.filter(get_cases());
    let cands = pool();
    let obj = Objective { per_alg: 0, per_move: 1000 };
    let report = greedy_cover(&cands, &cases, 2, &obj, None, &[]);
    let reached = cases
        .iter()
        .filter(|c| report.solutions.get(&c.ll_index).map(|g| !g.is_empty()).unwrap_or(false))
        .count();
    assert_eq!(report.covered, reached);
}

#[test]
fn greedy_cover_by_count_ignores_move_counts() {
    let cases = CaseSet::Zbll.filter(get_cases());
    let cands = pool();
    let one = greedy_cover(&cands, &cases, 2, &Objective { per_alg: 1000, per_move: 0 }, None, &[]);
    let five = greedy_cover(&cands, &cases, 2, &Objective { per_alg: 5000, per_move: 0 }, None, &[]);
    let labels = |r: &duplex::optimize::Report| r.picked.iter().map(|p| (p.label.clone(), p.newly_covered)).collect::<Vec<_>>();
    assert_eq!(labels(&one), labels(&five));
    assert_eq!(one.covered, five.covered);
}
