use duplex::alg::{create_algset, Alg};
use duplex::cube::{Cube, Transform};
use duplex::enumerate::{case_cube, get_cases, Case};
use duplex::moves::parse_moves;
use duplex::search::{auf_prefix, do_auf, invert_auf, search, Solution};
use std::collections::HashMap;

fn algs_of(list: &[(&str, &str)]) -> Vec<Alg> {
    let mut out = Vec::new();
    for (name, moves) in list {
        out.extend(create_algset(name, moves, None, false).unwrap());
    }
    out
}

fn solved_up_to_auf(cube: &Cube) -> bool {
    (0..4).any(|a| {
        let mut c = cube.copy();
        do_auf(&mut c, a);
        (0..54).all(|l| c.sticker(l) == l as u8)
    })
}

fn check_solutions(cases: &[Case], sols: &HashMap<u64, Vec<Solution>>) {
    for case in cases {
        if let Some(group) = sols.get(&case.ll_index) {
            for s in group {
                let mut cube = case_cube(case);
                cube.do_transform(&Transform::from_moves(&parse_moves(&s.sequence).unwrap()));
                assert!(solved_up_to_auf(&cube), "{} does not solve case {}", s.sequence, case.index);
                assert_eq!(s.move_count, parse_moves(&s.sequence).unwrap().len());
            }
        }
    }
}

#[test]
fn sune_solves_one_case() {
    let cases = get_cases();
    let sols = search(&algs_of(&[("sune", "R U R' U R U2 R'")]), &cases, 1);
    assert_eq!(sols.len(), 1);
    let group = sols.values().next().unwrap();
    assert_eq!(group.len(), 1);
    assert_eq!(group[0].alg_names, vec!["sune".to_string()]);
    assert_eq!(group[0].depth, 1);
    assert!(group[0].sequence.ends_with("R U R' U R U2 R'"));
    check_solutions(&cases, &sols);
}

#[test]
fn search_solutions_solve_their_cases() {
    let cases = get_cases();
    let algs = algs_of(&[("sune", "R U R' U R U2 R'"), ("t", "R U R' U' R' F R2 U' R' U' R U R' F'")]);
    let sols = search(&algs, &cases, 2);
    assert!(sols.len() > 2);
    check_solutions(&cases, &sols);
    let targets: std::collections::HashSet<u64> = cases.iter().map(|c| c.ll_index).collect();
    for (k, group) in &sols {
        assert!(targets.contains(k));
        assert!(!group.is_empty());
        for w in group.windows(2) {
            assert!((w[0].depth, w[0].move_count) <= (w[1].depth, w[1].move_count));
        }
        for s in group {
            assert_eq!(s.alg_names.len(), s.depth);
        }
    }
}

#[test]
fn depth_one_finds_only_single_algs() {
    let cases = get_cases();
    let algs = algs_of(&[("sune", "R U R' U R U2 R'"), ("anti", "R U2 R' U' R U' R'")]);
    let sols = search(&algs, &cases, 1);
    assert!(sols.values().flatten().all(|s| s.depth == 1));
    assert_eq!(sols.len(), 2);
}

#[test]
fn duplex_of_sune_and_antisune() {
    let cases = get_cases();
    let algs = algs_of(&[("sune", "R U R' U R U2 R'")]);
    let sols = search(&algs, &cases, 2);
    // a duplex sequence names the algorithm made first, then the second
    let duplexes: Vec<&Solution> = sols.values().flatten().filter(|s| s.depth == 2).collect();
    assert!(!duplexes.is_empty());
    for s in duplexes {
        assert_eq!(s.alg_names, vec!["sune".to_string(), "sune".to_string()]);
    }
    check_solutions(&cases, &sols);
}

#[test]
fn no_cases_no_solutions() {
    let algs = algs_of(&[("sune", "R U R' U R U2 R'")]);
    assert!(search(&algs, &[], 2).is_empty());
    assert!(search(&[], &get_cases(), 2).is_empty());
}

#[test]
fn auf_helpers() {
    assert_eq!(invert_auf(1), 3);
    assert_eq!(invert_auf(3), 1);
    assert_eq!(invert_auf(2), 2);
    assert_eq!(invert_auf(0), 0);
    assert_eq!(auf_prefix(0), "");
    assert_eq!(auf_prefix(1), "U ");
    assert_eq!(auf_prefix(2), "U2 ");
    assert_eq!(auf_prefix(3), "U' ");
}

#[test]
fn auf_then_its_inverse_changes_nothing() {
    let mut start = Cube::new();
    start.do_transform(&Transform::from_moves(&parse_moves("R U R' F2 x").unwrap()));
    for a in 0..4 {
        let mut cube = start.copy();
        do_auf(&mut cube, a);
        do_auf(&mut cube, invert_auf(a));
        assert!((0..54).all(|l| cube.sticker(l) == start.sticker(l)));
    }
}

#[test]
fn depth_one_groups_start_the_depth_two_groups() {
    let cases = get_cases();
    let algs = algs_of(&[("sune", "R U R' U R U2 R'"), ("anti", "R U2 R' U' R U' R'")]);
    let one = search(&algs, &cases, 1);
    let two = search(&algs, &cases, 2);
    let zero = search(&algs, &cases, 0);
    assert_eq!(zero.len(), one.len());
    for (k, g1) in &one {
        let g2 = &two[k];
        assert!(g2.len() >= g1.len());
        for (a, b) in g1.iter().zip(g2.iter()) {
            assert_eq!(a.sequence, b.sequence);
        }
        assert!(g2[g1.len()..].iter().all(|s| s.depth == 2));
    }
}

#[test]
fn fewer_cases_select_groups() {
    let cases = get_cases();
    let algs = algs_of(&[("sune", "R U R' U R U2 R'")]);
    let all = search(&algs, &cases, 2);
    let some: Vec<Case> = cases.iter().filter(|c| c.index % 3 == 0).cloned().collect();
    let part = search(&algs, &some, 2);
    for c in &some {
        match (all.get(&c.ll_index), part.get(&c.ll_index)) {
            (Some(g), Some(h)) => {
                assert_eq!(g.len(), h.len());
                assert!(g.iter().zip(h.iter()).all(|(x, y)| x.sequence == y.sequence));
            }
            (None, None) => {}
            _ => panic!("groups differ for case {}", c.index),
        }
    }
    assert!(part.keys().all(|k| some.iter().any(|c| c.ll_index == *k)));
}

#[test]
fn more_algs_only_add_solutions() {
    let cases = get_cases();
    let few = algs_of(&[("sune", "R U R' U R U2 R'")]);
    let more = algs_of(&[("sune", "R U R' U R U2 R'"), ("anti", "R U2 R' U' R U' R'")]);
    for depth in [1, 2] {
        let r1 = search(&few, &cases, depth);
        let r2 = search(&more, &cases, depth);
        for (k, g1) in &r1 {
            let g2 = &r2[k];
            assert!(g2.len() >= g1.len());
            assert!(g1.iter().all(|s| g2.iter().any(|t| t.sequence == s.sequence)));
        }
    }
}

#[test]
fn reordered_larger_alg_lists_only_lengthen_groups() {
    let cases = get_cases();
    let few = algs_of(&[("anti", "R U2 R' U' R U' R'"), ("sune", "R U R' U R U2 R'")]);
    let more = algs_of(&[
        ("sune", "R U R' U R U2 R'"),
        ("t", "R U R' U' R' F R2 U' R' U' R U R' F'"),
        ("anti", "R U2 R' U' R U' R'"),
    ]);
    for depth in [1, 2] {
        let r1 = search(&few, &cases, depth);
        let r2 = search(&more, &cases, depth);
        assert!(!r1.is_empty());
        for (k, g1) in &r1 {
            assert!(r2[k].len() >= g1.len());
        }
    }
}
