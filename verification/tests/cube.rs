use duplex::cube::{quarter_turn, Cube, Transform};
use duplex::enumerate::{case_cube, get_cases};
use duplex::moves::{invert_moves, parse_moves, Layer};
use duplex::search::do_auf;

fn apply(cube: &mut Cube, text: &str) {
    let ms = parse_moves(text).unwrap();
    cube.do_transform(&Transform::from_moves(&ms));
}

fn same(a: &Cube, b: &Cube) -> bool {
    (0..54).all(|l| a.sticker(l) == b.sticker(l))
}

#[test]
fn solved_cube_ll_indices() {
    let cube = Cube::new();
    assert_eq!(
        cube.get_ll_indices(),
        vec![10887764042646, 8107995696248, 25739555714, 2805507902112]
    );
}

#[test]
fn sune_state_ll_indices() {
    let mut cube = Cube::new();
    apply(&mut cube, "R U R' U R U2 R'");
    assert_eq!(
        cube.get_ll_indices(),
        vec![51053650049051, 2809690886526, 22847175943184, 32176474883084]
    );
}

#[test]
fn non_last_layer_state_has_no_indices() {
    let mut cube = Cube::new();
    apply(&mut cube, "R");
    assert!(cube.get_ll_indices().is_empty());
    assert!(!cube.is_last_layer());
}

#[test]
fn four_quarter_turns_are_identity() {
    let layers = [
        Layer::U, Layer::Uw, Layer::F, Layer::Fw, Layer::R, Layer::Rw, Layer::L, Layer::Lw, Layer::B,
        Layer::Bw, Layer::D, Layer::Dw, Layer::M, Layer::E, Layer::S, Layer::X, Layer::Y, Layer::Z,
    ];
    for l in layers {
        for p in 0..54u8 {
            let mut q = p;
            for _ in 0..4 {
                q = quarter_turn(l, q);
            }
            assert_eq!(q, p);
        }
    }
}

#[test]
fn quarter_turn_moves_front_to_left() {
    // U takes the centre of F's top row to L's top row
    assert_eq!(quarter_turn(Layer::U, 25), 41);
    // R leaves a sticker of the L face alone
    assert_eq!(quarter_turn(Layer::R, 40), 40);
}

#[test]
fn sequence_then_inverse_restores() {
    let ms = parse_moves("R U Rw' F2 M x y' S E2 Dw B'").unwrap();
    let mut cube = Cube::new();
    apply(&mut cube, "F R U");
    let before = cube.copy();
    cube.do_transform(&Transform::from_moves(&ms));
    assert!(!same(&cube, &before));
    cube.do_transform(&Transform::from_moves(&invert_moves(&ms)));
    assert!(same(&cube, &before));
}

#[test]
fn sune_has_order_six() {
    let t = Transform::from_moves(&parse_moves("R U R' U R U2 R'").unwrap());
    let mut cube = Cube::new();
    for k in 1..=6 {
        cube.do_transform(&t);
        assert_eq!(same(&cube, &Cube::new()), k == 6);
    }
}

#[test]
fn do_auf_turns_u() {
    let mut a = Cube::new();
    do_auf(&mut a, 1);
    let mut b = Cube::new();
    apply(&mut b, "U");
    assert!(same(&a, &b));
    do_auf(&mut a, 3);
    assert!(same(&a, &Cube::new()));
    do_auf(&mut a, 7);
    assert!(same(&a, &Cube::new()));
}

#[test]
fn case_counts() {
    let cases = get_cases();
    assert_eq!(cases.len(), 3915);
    let zbll = cases.iter().filter(|c| c.is_zbll()).count();
    assert_eq!(zbll, 493);
}

#[test]
fn cases_are_canonical_last_layer_states() {
    let cases = get_cases();
    let mut seen = std::collections::HashSet::new();
    for (k, case) in cases.iter().enumerate() {
        assert_eq!(case.index, k);
        assert!(seen.insert(case.ll_index));
        let cube = case_cube(case);
        assert!(cube.is_last_layer());
        assert_eq!(cube.get_ll_indices()[0], case.ll_index);
    }
}

#[test]
fn facelets_of_solved_cube_are_the_home_faces() {
    let faces = Cube::new().facelets();
    let expected: Vec<u8> = (0..54u8).map(|p| p / 9).collect();
    assert_eq!(faces, expected);
}

#[test]
fn facelets_after_a_u_turn_move_side_stickers() {
    let mut cube = Cube::new();
    apply(&mut cube, "U");
    let faces = cube.facelets();
    // the U face keeps its colour, the top rows of the sides change
    assert!(faces[0..9].iter().all(|&f| f == 0));
    assert_ne!(faces[9..54], (9..54u8).map(|p| p / 9).collect::<Vec<u8>>()[..]);
    let mut counts = [0usize; 7];
    for &f in &faces {
        counts[f as usize] += 1;
    }
    assert_eq!(counts, [9, 9, 9, 9, 9, 9, 0]);
}

#[test]
fn diagram_of_solved_cube() {
    let text = Cube::new().diagram();
    let expected = [
        "   UUU", "   UUU", "   UUU", "LLLFFFRRRBBB", "LLLFFFRRRBBB", "LLLFFFRRRBBB", "   DDD", "   DDD", "   DDD",
    ]
    .join("\n");
    assert_eq!(text, expected);
}

#[test]
fn diagram_after_u_turn() {
    let mut cube = Cube::new();
    apply(&mut cube, "U");
    let text = cube.diagram();
    let lines: Vec<&str> = text.lines().collect();
    assert_eq!(lines.len(), 9);
    assert_eq!(lines[0], "   UUU");
    assert_eq!(lines[3], "FFFRRRBBBLLL");
    assert_eq!(lines[4], "LLLFFFRRRBBB");
}
