use duplex::alg::create_algset;
use duplex::cli::{case_entries, case_to_cube, clamp_depth, summarize_coverage, total_moves, CaseSet};
use duplex::enumerate::get_cases;
use duplex::optimize::Picked;
use duplex::search::search;

#[test]
fn case_set_names() {
    assert_eq!(CaseSet::from_name("zbll"), Some(CaseSet::Zbll));
    assert_eq!(CaseSet::from_name("ZBLL"), Some(CaseSet::Zbll));
    assert_eq!(CaseSet::from_name("All"), Some(CaseSet::All));
    assert_eq!(CaseSet::from_name("1LLL"), Some(CaseSet::All));
    assert_eq!(CaseSet::from_name("zbl"), None);
    assert_eq!(CaseSet::from_name(""), None);
}

#[test]
fn case_set_labels() {
    assert_eq!(CaseSet::Zbll.label(), "ZBLL");
    assert_eq!(CaseSet::All.label(), "1LLL");
}

#[test]
fn case_set_filters() {
    assert_eq!(CaseSet::Zbll.filter(get_cases()).len(), 493);
    assert_eq!(CaseSet::All.filter(get_cases()).len(), 3915);
    assert!(CaseSet::Zbll.filter(get_cases()).iter().all(|c| c.is_zbll()));
}

#[test]
fn depth_is_clamped() {
    assert_eq!(clamp_depth(0), 1);
    assert_eq!(clamp_depth(1), 1);
    assert_eq!(clamp_depth(2), 2);
    assert_eq!(clamp_depth(9), 2);
}

#[test]
fn coverage_summary_counts_every_case() {
    let cases = CaseSet::Zbll.filter(get_cases());
    let algs = create_algset("sune", "R U R' U R U2 R'", None, false).unwrap();
    let sols = search(&algs, &cases, 2);
    let cov = summarize_coverage(&cases, &sols);
    assert_eq!(cov.total, 493);
    assert_eq!(cov.solved_single, 1);
    assert!(cov.solved_duplex_only >= 1);
    assert_eq!(cov.solved_single + cov.solved_duplex_only + cov.unsolved.len(), cov.total);
    for &k in &cov.unsolved {
        assert!(!sols.contains_key(&cases[k].ll_index));
    }
}

#[test]
fn case_entries_report_best_solution() {
    let cases = CaseSet::Zbll.filter(get_cases());
    let algs = create_algset("sune", "R U R' U R U2 R'", None, false).unwrap();
    let sols = search(&algs, &cases, 1);
    let entries = case_entries(&cases, &sols);
    assert_eq!(entries.len(), cases.len());
    let solved: Vec<_> = entries.iter().filter(|e| e.solved).collect();
    assert_eq!(solved.len(), 1);
    let e = solved[0];
    assert_eq!(e.alternatives, 1);
    assert_eq!(e.best.as_ref().unwrap().alg_names, vec!["sune".to_string()]);
    assert!(entries.iter().filter(|e| !e.solved).all(|e| e.best.is_none() && e.alternatives == 0));
}

#[test]
fn total_moves_adds_up() {
    let p = |m: usize| Picked { label: String::new(), cost_moves: m, newly_covered: 1 };
    assert_eq!(total_moves(&[p(7), p(14), p(8)]), Some(29));
    assert_eq!(total_moves(&[]), Some(0));
    assert_eq!(total_moves(&[p(usize::MAX), p(1)]), None);
}

#[test]
fn case_to_cube_gives_the_case_state() {
    let cases = get_cases();
    for case in cases.iter().take(50) {
        let cube = case_to_cube(case);
        assert_eq!(cube.get_ll_indices()[0], case.ll_index);
    }
}
