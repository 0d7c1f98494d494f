use duplex::moves::{invert_moves, parse_moves, Layer, Move, Order};
use duplex::search::moves_to_string;

fn mv(layer: Layer, order: Order) -> Move {
    Move { order, layer }
}

#[test]
fn parse_simple_sequence() {
    let ms = parse_moves("R U R' U'").unwrap();
    assert_eq!(
        ms,
        vec![
            mv(Layer::R, Order::Normal),
            mv(Layer::U, Order::Normal),
            mv(Layer::R, Order::Prime),
            mv(Layer::U, Order::Prime)
        ]
    );
}

#[test]
fn parse_wide_slices_and_rotations() {
    let ms = parse_moves("Rw r M2 x' Uw2 d y z2 E S'").unwrap();
    assert_eq!(
        ms,
        vec![
            mv(Layer::Rw, Order::Normal),
            mv(Layer::Rw, Order::Normal),
            mv(Layer::M, Order::Double),
            mv(Layer::X, Order::Prime),
            mv(Layer::Uw, Order::Double),
            mv(Layer::Dw, Order::Normal),
            mv(Layer::Y, Order::Normal),
            mv(Layer::Z, Order::Double),
            mv(Layer::E, Order::Normal),
            mv(Layer::S, Order::Prime)
        ]
    );
}

#[test]
fn parse_without_spaces() {
    let ms = parse_moves("RUR'U'").unwrap();
    assert_eq!(ms.len(), 4);
    assert_eq!(ms[2], mv(Layer::R, Order::Prime));
}

#[test]
fn parse_space_before_suffix_and_tabs() {
    let ms = parse_moves("\tR '\nU\r\n2").unwrap();
    assert_eq!(ms, vec![mv(Layer::R, Order::Prime), mv(Layer::U, Order::Double)]);
}

#[test]
fn parse_w_after_slice_changes_nothing() {
    let ms = parse_moves("Mw xw").unwrap();
    assert_eq!(ms, vec![mv(Layer::M, Order::Normal), mv(Layer::X, Order::Normal)]);
}

#[test]
fn parse_empty_text() {
    assert_eq!(parse_moves("").unwrap(), vec![]);
}

#[test]
fn parse_space_after_plain_move_is_read_with_it() {
    let ms = parse_moves("R U ").unwrap();
    assert_eq!(ms, vec![mv(Layer::R, Order::Normal), mv(Layer::U, Order::Normal)]);
}

#[test]
fn parse_space_after_suffix_is_an_error() {
    assert_eq!(parse_moves("R' ").unwrap_err(), "R' \n  ^ parse error at position 3");
}

#[test]
fn parse_unknown_letter_is_an_error() {
    assert_eq!(parse_moves("R Q").unwrap_err(), "R Q\n  ^ parse error at position 3");
    assert_eq!(parse_moves("Q").unwrap_err(), "Q\n^ parse error at position 1");
}

#[test]
fn parse_double_suffix_is_an_error() {
    assert_eq!(parse_moves("U2'").unwrap_err(), "U2'\n  ^ parse error at position 3");
}

#[test]
fn parse_error_position_past_nine() {
    assert_eq!(
        parse_moves("R U R' U' #").unwrap_err(),
        "R U R' U' #\n         ^ parse error at position 10"
    );
}

#[test]
fn move_notation() {
    assert_eq!(mv(Layer::Rw, Order::Prime).text(), "Rw'");
    assert_eq!(mv(Layer::X, Order::Double).text(), "x2");
    assert_eq!(mv(Layer::U, Order::Normal).text(), "U");
}

#[test]
fn moves_to_string_joins_with_spaces() {
    let ms = parse_moves("R U2 x'").unwrap();
    assert_eq!(moves_to_string(&ms), "R U2 x'");
    assert_eq!(moves_to_string(&[]), "");
}

#[test]
fn invert_moves_reverses_and_inverts() {
    let ms = parse_moves("R U2 F'").unwrap();
    assert_eq!(invert_moves(&ms), parse_moves("F U2 R'").unwrap());
    assert_eq!(invert_moves(&invert_moves(&ms)), ms);
}

#[test]
fn every_move_written_reads_back() {
    let layers = [
        Layer::U, Layer::Uw, Layer::F, Layer::Fw, Layer::R, Layer::Rw, Layer::L, Layer::Lw, Layer::B,
        Layer::Bw, Layer::D, Layer::Dw, Layer::M, Layer::E, Layer::S, Layer::X, Layer::Y, Layer::Z,
    ];
    let mut all = Vec::new();
    for layer in layers {
        for order in [Order::Normal, Order::Prime, Order::Double] {
            let one = vec![mv(layer, order)];
            assert_eq!(parse_moves(&moves_to_string(&one)).unwrap(), one);
            all.push(mv(layer, order));
        }
    }
    let text = moves_to_string(&all);
    assert_eq!(parse_moves(&text).unwrap(), all);
}

#[test]
fn parsing_distributes_over_a_space() {
    for (a, b) in [("R U", "R' U'"), ("R'", "U2"), ("R ", "x"), ("", "  F"), ("Rw2", "w")] {
        let joined = format!("{} {}", a, b);
        match (parse_moves(a), parse_moves(b)) {
            (Ok(x), Ok(y)) if !y.is_empty() => {
                let mut xy = x.clone();
                xy.extend(y);
                assert_eq!(parse_moves(&joined).unwrap(), xy);
            }
            _ => {}
        }
    }
}

#[test]
fn text_before_an_error_reads_completely() {
    for text in ["R U Q", "R' U2 x #", "F R U R' U' F' ?", "U2'", "R' "] {
        let err = parse_moves(text).unwrap_err();
        let pos: usize = err.rsplit(' ').next().unwrap().parse().unwrap();
        let before: String = text.chars().take(pos - 1).collect();
        let read = parse_moves(&before).unwrap();
        let whole = parse_moves(&moves_to_string(&read));
        assert_eq!(whole.unwrap(), read, "{}", text);
    }
    assert_eq!(
        parse_moves("R U ").unwrap(),
        vec![mv(Layer::R, Order::Normal), mv(Layer::U, Order::Normal)]
    );
}
