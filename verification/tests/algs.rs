use duplex::alg::{create_algset, Alg, Mirror};
use duplex::candidates::Candidate;
use duplex::cube::Cube;
use duplex::moves::parse_moves;
use duplex::search::moves_to_string;

#[test]
fn create_algset_gives_requested_variants() {
    let algs = create_algset("sexy", "R U R' U'", Some(Mirror::LR), true).unwrap();
    assert_eq!(algs.len(), 4);
    let shown: Vec<(String, bool, bool, String)> = algs
        .iter()
        .map(|a| (moves_to_string(&a.moves), a.mirror, a.invert, a.get_full_name()))
        .collect();
    assert_eq!(shown[0], ("R U R' U'".to_string(), false, false, "sexy".to_string()));
    assert_eq!(shown[1], ("U R U' R'".to_string(), false, true, "sexy (inverse)".to_string()));
    assert_eq!(shown[2], ("L' U' L U".to_string(), true, false, "sexy (mirror)".to_string()));
    assert_eq!(shown[3], ("U' L' U L".to_string(), true, true, "sexy (mirror inverse)".to_string()));
}

#[test]
fn create_algset_without_variants() {
    let algs = create_algset("a", "R U R'", None, false).unwrap();
    assert_eq!(algs.len(), 1);
    let algs = create_algset("a", "R U R'", None, true).unwrap();
    assert_eq!(algs.len(), 2);
    let algs = create_algset("a", "R U R'", Some(Mirror::FB), false).unwrap();
    assert_eq!(algs.len(), 2);
}

#[test]
fn mirror_front_back() {
    let algs = create_algset("f", "F R U R' U' F'", Some(Mirror::FB), false).unwrap();
    assert_eq!(moves_to_string(&algs[1].moves), "B' R' U' R U B");
}

#[test]
fn mirror_left_right_keeps_m_and_x() {
    let algs = create_algset("m", "M' U2 M x Rw", Some(Mirror::LR), false).unwrap();
    assert_eq!(moves_to_string(&algs[1].moves), "M' U2 M x Lw'");
}

#[test]
fn mirror_twice_gives_moves_back() {
    let base = create_algset("t", "R U R' U' R' F R2 U' R' U' R U R' F'", None, false).unwrap();
    let twice = base[0].mirrored(Mirror::LR).mirrored(Mirror::LR);
    assert_eq!(twice.moves, base[0].moves);
    assert!(!twice.mirror);
}

#[test]
fn invert_twice_gives_alg_back() {
    let base = create_algset("sune", "R U R' U R U2 R'", None, false).unwrap();
    let twice = base[0].invert().invert();
    assert_eq!(twice.moves, base[0].moves);
    assert_eq!(twice.get_full_name(), "sune");
    assert_eq!(twice.invert, base[0].invert);
}

#[test]
fn create_algset_reports_unreadable_moves() {
    let err = create_algset("bad", "R Q", None, false).err().unwrap();
    assert_eq!(err, "R Q\n  ^ parse error at position 3");
}

#[test]
fn from_variants_cost_of_plain_variant() {
    let algs = create_algset("a", "R U R' U'", Some(Mirror::LR), true).unwrap();
    let c = Candidate::from_variants("a".to_string(), algs);
    assert_eq!(c.cost_moves, 4);
    assert_eq!(c.label, "a");
    assert_eq!(c.variants.len(), 4);
}

#[test]
fn from_variants_cost_without_plain_variant() {
    let long = Alg::from_moves("l".to_string(), parse_moves("R U R' U' R").unwrap(), true, false);
    let short = Alg::from_moves("s".to_string(), parse_moves("R U").unwrap(), false, true);
    let c = Candidate::from_variants("x".to_string(), vec![long, short]);
    assert_eq!(c.cost_moves, 2);
    let c = Candidate::from_variants("y".to_string(), vec![]);
    assert_eq!(c.cost_moves, 0);
}

/// The position that `p` is reflected to in the mirror `axis`.
fn reflect(axis: Mirror, p: usize) -> usize {
    let (face, row, col) = (p / 9, (p % 9) / 3, p % 3);
    match axis {
        // x flips: the R and L faces swap, the others turn over left-right
        Mirror::LR => match face {
            1 => 36 + row * 3 + col,
            4 => 9 + row * 3 + col,
            _ => face * 9 + row * 3 + (2 - col),
        },
        // z flips: the F and B faces swap, the others turn over front-back
        Mirror::FB => match face {
            2 => 45 + row * 3 + col,
            5 => 18 + row * 3 + col,
            _ => face * 9 + (2 - row) * 3 + col,
        },
    }
}

#[test]
fn mirror_variant_is_the_reflection() {
    for axis in [Mirror::LR, Mirror::FB] {
        for moves in ["R U R' U'", "Rw U2 x' M E' S2 Fw' d l b2", "F R U R' U' F'", "y z2 Bw Dw' Lw"] {
            let algs = create_algset("a", moves, Some(axis), false).unwrap();
            let mut plain = Cube::new();
            plain.do_transform(&algs[0].transform);
            let mut image = Cube::new();
            image.do_transform(&algs[1].transform);
            for p in 0..54 {
                assert_eq!(
                    image.sticker(reflect(axis, p)) as usize,
                    reflect(axis, plain.sticker(p) as usize),
                    "{} mirrored {:?} at {}",
                    moves,
                    axis,
                    p
                );
            }
        }
    }
}
