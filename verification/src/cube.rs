//! The cube as 54 stickers. Sticker `p` (0..54) has a home position with
//! coordinates in a 7x7x7 grid centred on the cube: one coordinate is ±3
//! (the face it lies on) and the other two are in {-2, 0, 2}. Faces come in
//! the order U, R, F, D, L, B, nine stickers each.
//!
//! A move turns the stickers whose coordinate along the move's axis lies in
//! the move's layer by a quarter of a turn about that axis.
//! A cube state records, for each sticker, the position where it now is.
use vstd::prelude::*;
use crate::moves::{
    Layer, Move, Order, inverse_move, inverse_moves, is_layer_char, layer_for, move_at, read_moves, skip_spaces,
};
use crate::text::push_char;

verus! {

/// Number of stickers.
pub const STICKERS: usize = 54;

/// The three coordinates of a sticker position.
pub type Coord = (int, int, int);

/// Coordinates of sticker position `p`.
pub open spec fn coord(p: int) -> Coord {
    let f = p / 9;
    let u = 2 * (p % 3) - 2;
    let v = 2 * ((p % 9) / 3) - 2;
    if f == 0 {
        (u, 3, v)
    } else if f == 1 {
        (3, u, v)
    } else if f == 2 {
        (u, v, 3)
    } else if f == 3 {
        (u, -3, v)
    } else if f == 4 {
        (-3, u, v)
    } else {
        (u, v, -3)
    }
}

/// The position whose coordinates are `c`.
pub open spec fn index_of(c: Coord) -> int {
    let (x, y, z) = c;
    if y == 3 {
        (z + 2) / 2 * 3 + (x + 2) / 2
    } else if x == 3 {
        9 + (z + 2) / 2 * 3 + (y + 2) / 2
    } else if z == 3 {
        18 + (y + 2) / 2 * 3 + (x + 2) / 2
    } else if y == -3 {
        27 + (z + 2) / 2 * 3 + (x + 2) / 2
    } else if x == -3 {
        36 + (z + 2) / 2 * 3 + (y + 2) / 2
    } else {
        45 + (y + 2) / 2 * 3 + (x + 2) / 2
    }
}

pub open spec fn small(a: int) -> bool {
    a == -2 || a == 0 || a == 2
}

/// The coordinates of a sticker position: one coordinate is ±3, the others
/// are in {-2, 0, 2}.
pub open spec fn valid_coord(c: Coord) -> bool {
    let (x, y, z) = c;
    ||| (y == 3 || y == -3) && small(x) && small(z)
    ||| (x == 3 || x == -3) && small(y) && small(z)
    ||| (z == 3 || z == -3) && small(x) && small(y)
}

/// The axis about which a layer turns: 0 for x, 1 for y, 2 for z.
pub open spec fn layer_axis(l: Layer) -> int {
    match l {
        Layer::R | Layer::Rw | Layer::L | Layer::Lw | Layer::M | Layer::X => 0,
        Layer::U | Layer::Uw | Layer::D | Layer::Dw | Layer::E | Layer::Y => 1,
        _ => 2,
    }
}

/// Whether a layer turns like U, R and F (clockwise seen from the positive
/// end of its axis) rather than like D, L and B.
pub open spec fn layer_positive(l: Layer) -> bool {
    match l {
        Layer::U | Layer::Uw | Layer::Y | Layer::R | Layer::Rw | Layer::X => true,
        Layer::F | Layer::Fw | Layer::S | Layer::Z => true,
        _ => false,
    }
}

/// Lowest coordinate, along the layer's axis, of the stickers it turns.
pub open spec fn layer_lo(l: Layer) -> int {
    match l {
        Layer::U | Layer::R | Layer::F => 1,
        Layer::Uw | Layer::Rw | Layer::Fw => 0,
        Layer::M | Layer::E | Layer::S => 0,
        _ => -3,
    }
}

/// Highest coordinate, along the layer's axis, of the stickers it turns.
pub open spec fn layer_hi(l: Layer) -> int {
    match l {
        Layer::D | Layer::L | Layer::B => -1,
        Layer::Dw | Layer::Lw | Layer::Bw => 0,
        Layer::M | Layer::E | Layer::S => 0,
        _ => 3,
    }
}

pub open spec fn axis_value(a: int, c: Coord) -> int {
    if a == 0 {
        c.0
    } else if a == 1 {
        c.1
    } else {
        c.2
    }
}

pub open spec fn in_layer(l: Layer, c: Coord) -> bool {
    layer_lo(l) <= axis_value(layer_axis(l), c) <= layer_hi(l)
}

/// A quarter turn of the coordinates about the layer's axis, in its sense.
pub open spec fn rotate(l: Layer, c: Coord) -> Coord {
    let (x, y, z) = c;
    let a = layer_axis(l);
    if a == 0 {
        if layer_positive(l) {
            (x, z, -y)
        } else {
            (x, -z, y)
        }
    } else if a == 1 {
        if layer_positive(l) {
            (-z, y, x)
        } else {
            (z, y, -x)
        }
    } else {
        if layer_positive(l) {
            (y, -x, z)
        } else {
            (-y, x, z)
        }
    }
}

/// Where a quarter turn of layer `l` takes the sticker at position `p`.
pub open spec fn quarter(l: Layer, p: int) -> int {
    if in_layer(l, coord(p)) {
        index_of(rotate(l, coord(p)))
    } else {
        p
    }
}

/// Where `k` quarter turns of layer `l` take the sticker at position `p`.
pub open spec fn turn(l: Layer, k: nat, p: int) -> int
    decreases k,
{
    if k == 0 {
        p
    } else {
        quarter(l, turn(l, (k - 1) as nat, p))
    }
}

/// How many quarter turns a move makes.
pub open spec fn order_turns(o: Order) -> nat {
    match o {
        Order::Normal => 1,
        Order::Double => 2,
        Order::Prime => 3,
    }
}

/// Where move `m` takes the sticker at position `p`.
pub open spec fn move_sticker(m: Move, p: int) -> int {
    turn(m.layer, order_turns(m.order), p)
}

/// Where the moves `ms`, made in order, take the sticker at position `p`.
pub open spec fn pos_after(ms: Seq<Move>, p: int) -> int
    decreases ms.len(),
{
    if ms.len() == 0 {
        p
    } else {
        move_sticker(ms.last(), pos_after(ms.drop_last(), p))
    }
}

/// The state after the moves `ms`, made from the solved cube: sticker `p`
/// is at `pos_after(ms, p)`.
pub open spec fn moves_state(ms: Seq<Move>) -> Seq<int> {
    Seq::new(54, |p: int| pos_after(ms, p))
}

/// A cube state: 54 positions, each one of 0..54.
pub open spec fn valid_state(s: Seq<int>) -> bool {
    &&& s.len() == 54
    &&& forall|i: int| 0 <= i < 54 ==> 0 <= #[trigger] s[i] < 54
}

/// The solved cube: every sticker at home.
pub open spec fn solved_state() -> Seq<int> {
    Seq::new(54, |p: int| p)
}

/// The state `s` after the transform `t` (a state reached from solved):
/// each sticker goes where `t` takes the position it is at.
pub open spec fn apply_state(s: Seq<int>, t: Seq<int>) -> Seq<int> {
    Seq::new(s.len(), |l: int| t[s[l]])
}

// ---------------------------------------------------------------------------
// Facts about the coordinates.
pub proof fn lemma_coord(p: int)
    requires
        0 <= p < 54,
    ensures
        valid_coord(coord(p)),
        index_of(coord(p)) == p,
{
    let f = p / 9;
    let r = (p % 9) / 3;
    let c = p % 3;
    assert(p == 9 * f + 3 * r + c);
    assert(0 <= f < 6);
    assert(0 <= r < 3);
    assert(0 <= c < 3);
}

pub proof fn lemma_index(c: Coord)
    requires
        valid_coord(c),
    ensures
        0 <= index_of(c) < 54,
        coord(index_of(c)) == c,
{
}

pub proof fn lemma_rotate(l: Layer, c: Coord)
    requires
        valid_coord(c),
    ensures
        valid_coord(rotate(l, c)),
        axis_value(layer_axis(l), rotate(l, c)) == axis_value(layer_axis(l), c),
        rotate(l, rotate(l, rotate(l, rotate(l, c)))) == c,
{
}

/// A quarter turn keeps positions in range.
pub proof fn lemma_quarter_range(l: Layer, p: int)
    requires
        0 <= p < 54,
    ensures
        0 <= quarter(l, p) < 54,
{
    lemma_coord(p);
    lemma_rotate(l, coord(p));
    lemma_index(rotate(l, coord(p)));
}


/// Four quarter turns of a layer bring every sticker back.
pub proof fn lemma_quarter_four(l: Layer, p: int)
    requires
        0 <= p < 54,
    ensures
        quarter(l, quarter(l, quarter(l, quarter(l, p)))) == p,
{
    let c = coord(p);
    lemma_coord(p);
    if in_layer(l, c) {
        let c1 = rotate(l, c);
        lemma_rotate(l, c);
        lemma_index(c1);
        let c2 = rotate(l, c1);
        lemma_rotate(l, c1);
        lemma_index(c2);
        let c3 = rotate(l, c2);
        lemma_rotate(l, c2);
        lemma_index(c3);
        lemma_rotate(l, c3);
        lemma_index(rotate(l, c3));
    }
}

pub proof fn lemma_turn_range(l: Layer, k: nat, p: int)
    requires
        0 <= p < 54,
    ensures
        0 <= turn(l, k, p) < 54,
    decreases k,
{
    if k > 0 {
        lemma_turn_range(l, (k - 1) as nat, p);
        lemma_quarter_range(l, turn(l, (k - 1) as nat, p));
    }
}

/// Turning `b` quarters and then `a` quarters is turning `a + b` quarters.
pub proof fn lemma_turn_add(l: Layer, a: nat, b: nat, p: int)
    ensures
        turn(l, a, turn(l, b, p)) == turn(l, a + b, p),
    decreases a,
{
    if a > 0 {
        lemma_turn_add(l, (a - 1) as nat, b, p);
    }
}

/// Four quarter turns of a layer are no turn at all.
pub proof fn lemma_turn_four(l: Layer, p: int)
    requires
        0 <= p < 54,
    ensures
        turn(l, 4, p) == p,
{
    assert(turn(l, 4, p) == quarter(l, quarter(l, quarter(l, quarter(l, p))))) by {
        reveal_with_fuel(turn, 5);
    }
    lemma_quarter_four(l, p);
}

pub proof fn lemma_move_range(m: Move, p: int)
    requires
        0 <= p < 54,
    ensures
        0 <= move_sticker(m, p) < 54,
{
    lemma_turn_range(m.layer, order_turns(m.order), p);
}

/// A move followed by its inverse leaves every sticker where it was.
pub proof fn lemma_move_inverse(m: Move, p: int)
    requires
        0 <= p < 54,
    ensures
        move_sticker(inverse_move(m), move_sticker(m, p)) == p,
        move_sticker(m, move_sticker(inverse_move(m), p)) == p,
{
    let l = m.layer;
    lemma_turn_add(l, order_turns(inverse_move(m).order), order_turns(m.order), p);
    lemma_turn_add(l, order_turns(m.order), order_turns(inverse_move(m).order), p);
    lemma_turn_four(l, p);
}

pub proof fn lemma_pos_after_range(ms: Seq<Move>, p: int)
    requires
        0 <= p < 54,
    ensures
        0 <= pos_after(ms, p) < 54,
    decreases ms.len(),
{
    if ms.len() > 0 {
        lemma_pos_after_range(ms.drop_last(), p);
        lemma_move_range(ms.last(), pos_after(ms.drop_last(), p));
    }
}

/// Making `a` and then `b` is making `a + b`.
pub proof fn lemma_pos_after_concat(a: Seq<Move>, b: Seq<Move>, p: int)
    ensures
        pos_after(a + b, p) == pos_after(b, pos_after(a, p)),
    decreases b.len(),
{
    if b.len() == 0 {
        assert(a + b =~= a);
    } else {
        assert((a + b).drop_last() =~= a + b.drop_last());
        assert((a + b).last() == b.last());
        lemma_pos_after_concat(a, b.drop_last(), p);
    }
}

/// The inverse of a sequence of moves undoes it.
pub proof fn lemma_pos_after_inverse(ms: Seq<Move>, p: int)
    requires
        0 <= p < 54,
    ensures
        pos_after(inverse_moves(ms), pos_after(ms, p)) == p,
    decreases ms.len(),
{
    if ms.len() > 0 {
        let init = ms.drop_last();
        let q = pos_after(init, p);
        lemma_pos_after_range(init, p);
        let inv = inverse_moves(ms);
        assert(inv =~= seq![inverse_move(ms.last())] + inverse_moves(init));
        lemma_pos_after_concat(seq![inverse_move(ms.last())], inverse_moves(init), move_sticker(ms.last(), q));
        assert(pos_after(seq![inverse_move(ms.last())], move_sticker(ms.last(), q))
            == move_sticker(inverse_move(ms.last()), move_sticker(ms.last(), q))) by {
            let one = seq![inverse_move(ms.last())];
            assert(one.drop_last() =~= Seq::<Move>::empty());
            assert(one.last() == inverse_move(ms.last()));
            assert(pos_after(one.drop_last(), move_sticker(ms.last(), q)) == move_sticker(ms.last(), q));
        }
        lemma_move_inverse(ms.last(), q);
        lemma_pos_after_inverse(init, p);
    }
}


// ---------------------------------------------------------------------------
// Wide moves.

/// A quarter turn of a layer `w` made of the stickers of two neighbouring
/// layers `o` and `s` of the same axis is a quarter turn of `o` followed by
/// the same quarter turn of `s` (one turn of `s` when it turns in the sense
/// of `w`, three when it turns the other way).
proof fn lemma_quarter_split(w: Layer, o: Layer, s: Layer, p: int)
    requires
        0 <= p < 54,
        layer_axis(w) == layer_axis(o),
        layer_axis(w) == layer_axis(s),
        layer_positive(w) == layer_positive(o),
        (layer_lo(w) == layer_lo(s) && layer_hi(s) + 1 == layer_lo(o) && layer_hi(w) == layer_hi(o)) || (layer_lo(w)
            == layer_lo(o) && layer_hi(o) + 1 == layer_lo(s) && layer_hi(w) == layer_hi(s)),
        layer_lo(o) <= layer_hi(o),
        layer_lo(s) <= layer_hi(s),
    ensures
        quarter(w, p) == (if layer_positive(s) == layer_positive(w) {
            quarter(s, quarter(o, p))
        } else {
            quarter(s, quarter(s, quarter(s, quarter(o, p))))
        }),
{
    let c = coord(p);
    lemma_coord(p);
    if in_layer(o, c) {
        let c1 = rotate(o, c);
        lemma_rotate(o, c);
        lemma_index(c1);
        assert(!in_layer(s, c1));
        assert(rotate(w, c) == c1);
    } else if in_layer(s, c) {
        let c1 = rotate(s, c);
        lemma_rotate(s, c);
        lemma_index(c1);
        if layer_positive(s) != layer_positive(w) {
            let c2 = rotate(s, c1);
            lemma_rotate(s, c1);
            lemma_index(c2);
            let c3 = rotate(s, c2);
            lemma_rotate(s, c2);
            lemma_index(c3);
            assert(c3 == rotate(w, c));
        } else {
            assert(c1 == rotate(w, c));
        }
    } else {
        assert(!in_layer(w, c));
    }
}

/// One quarter turn, and three.
proof fn lemma_turn_small(p: int)
    ensures
        forall|l: Layer, q: int| #[trigger] turn(l, 1, q) == quarter(l, q),
        forall|l: Layer, q: int| #[trigger] turn(l, 3, q) == quarter(l, quarter(l, quarter(l, q))),
{
    assert forall|l: Layer, q: int| #[trigger] turn(l, 1, q) == quarter(l, q) by {
        reveal_with_fuel(turn, 2);
    }
    assert forall|l: Layer, q: int| #[trigger] turn(l, 3, q) == quarter(l, quarter(l, quarter(l, q))) by {
        reveal_with_fuel(turn, 4);
    }
}

/// The wide layer `w` turns as `o` and then `s` (see `lemma_quarter_split`),
/// as moves.
proof fn lemma_wide_split(w: Layer, o: Layer, s: Layer, ord: Order, p: int)
    requires
        0 <= p < 54,
        layer_axis(w) == layer_axis(o),
        layer_axis(w) == layer_axis(s),
        layer_positive(w) == layer_positive(o),
        (layer_lo(w) == layer_lo(s) && layer_hi(s) + 1 == layer_lo(o) && layer_hi(w) == layer_hi(o)) || (layer_lo(w)
            == layer_lo(o) && layer_hi(o) + 1 == layer_lo(s) && layer_hi(w) == layer_hi(s)),
        layer_lo(o) <= layer_hi(o),
        layer_lo(s) <= layer_hi(s),
        ord == (if layer_positive(s) == layer_positive(w) { Order::Normal } else { Order::Prime }),
    ensures
        move_sticker(Move { order: Order::Normal, layer: w }, p) == move_sticker(
            Move { order: ord, layer: s },
            move_sticker(Move { order: Order::Normal, layer: o }, p),
        ),
{
    lemma_turn_small(p);
    lemma_quarter_split(w, o, s, p);
}

/// A wide move turns the outer layer and the middle slice next to it
/// together: `r` (`Rw`) is `R` then `M'`, `l` is `L` then `M`, `u` is `U`
/// then `E'`, `d` is `D` then `E`, `f` is `F` then `S`, and `b` is `B` then
/// `S'`.
pub proof fn lemma_wide_moves(p: int)
    requires
        0 <= p < 54,
    ensures
        move_sticker(Move { order: Order::Normal, layer: Layer::Rw }, p) == move_sticker(
            Move { order: Order::Prime, layer: Layer::M },
            move_sticker(Move { order: Order::Normal, layer: Layer::R }, p),
        ),
        move_sticker(Move { order: Order::Normal, layer: Layer::Lw }, p) == move_sticker(
            Move { order: Order::Normal, layer: Layer::M },
            move_sticker(Move { order: Order::Normal, layer: Layer::L }, p),
        ),
        move_sticker(Move { order: Order::Normal, layer: Layer::Uw }, p) == move_sticker(
            Move { order: Order::Prime, layer: Layer::E },
            move_sticker(Move { order: Order::Normal, layer: Layer::U }, p),
        ),
        move_sticker(Move { order: Order::Normal, layer: Layer::Dw }, p) == move_sticker(
            Move { order: Order::Normal, layer: Layer::E },
            move_sticker(Move { order: Order::Normal, layer: Layer::D }, p),
        ),
        move_sticker(Move { order: Order::Normal, layer: Layer::Fw }, p) == move_sticker(
            Move { order: Order::Normal, layer: Layer::S },
            move_sticker(Move { order: Order::Normal, layer: Layer::F }, p),
        ),
        move_sticker(Move { order: Order::Normal, layer: Layer::Bw }, p) == move_sticker(
            Move { order: Order::Prime, layer: Layer::S },
            move_sticker(Move { order: Order::Normal, layer: Layer::B }, p),
        ),
{
    lemma_wide_split(Layer::Rw, Layer::R, Layer::M, Order::Prime, p);
    lemma_wide_split(Layer::Lw, Layer::L, Layer::M, Order::Normal, p);
    lemma_wide_split(Layer::Uw, Layer::U, Layer::E, Order::Prime, p);
    lemma_wide_split(Layer::Dw, Layer::D, Layer::E, Order::Normal, p);
    lemma_wide_split(Layer::Fw, Layer::F, Layer::S, Order::Normal, p);
    lemma_wide_split(Layer::Bw, Layer::B, Layer::S, Order::Prime, p);
}

/// The single move that the text `s` reads as.
proof fn lemma_read_one_letter(s: Seq<char>)
    requires
        s.len() == 1 || (s.len() == 2 && s[1] == 'w'),
        is_layer_char(s[0]),
    ensures
        read_moves(s, 0) == (seq![Move { order: Order::Normal, layer: layer_for(s[0], s.len() == 2) }], s.len() as int),
{
    reveal_with_fuel(read_moves, 2);
    reveal_with_fuel(skip_spaces, 2);
    assert(skip_spaces(s, 0) == 0);
    assert(skip_spaces(s, s.len() as int) == s.len());
    assert(move_at(s, s.len() as int) is None);
    assert(seq![Move { order: Order::Normal, layer: layer_for(s[0], s.len() == 2) }] + Seq::<Move>::empty()
        =~= seq![Move { order: Order::Normal, layer: layer_for(s[0], s.len() == 2) }]);
}

/// The letter `lo` reads as the move that `up` followed by `w` reads as.
proof fn lemma_letter_as_wide(lo: char, up: char, p: int)
    requires
        is_layer_char(lo),
        is_layer_char(up),
        layer_for(lo, false) == layer_for(up, true),
    ensures
        read_moves(seq![lo], 0).0 == read_moves(seq![up, 'w'], 0).0,
        pos_after(read_moves(seq![lo], 0).0, p) == move_sticker(Move { order: Order::Normal, layer: layer_for(up, true) }, p),
{
    lemma_read_one_letter(seq![lo]);
    lemma_read_one_letter(seq![up, 'w']);
    let m = Move { order: Order::Normal, layer: layer_for(up, true) };
    assert(seq![m].drop_last() =~= Seq::<Move>::empty());
    assert(seq![m].last() == m);
    assert(read_moves(seq![lo], 0).0 == seq![m]);
    reveal_with_fuel(pos_after, 2);
}

/// A lower-case face letter is a wide move: `r` reads as the move that `Rw`
/// reads as, and each such move turns the outer layer and the middle slice
/// next to it together (`r` as `R M'`, `l` as `L M`, `u` as `U E'`, `d` as
/// `D E`, `f` as `F S`, `b` as `B S'`).
pub proof fn lemma_lowercase_wide(p: int)
    requires
        0 <= p < 54,
    ensures
        read_moves(seq!['r'], 0).0 == read_moves(seq!['R', 'w'], 0).0,
        read_moves(seq!['l'], 0).0 == read_moves(seq!['L', 'w'], 0).0,
        read_moves(seq!['u'], 0).0 == read_moves(seq!['U', 'w'], 0).0,
        read_moves(seq!['d'], 0).0 == read_moves(seq!['D', 'w'], 0).0,
        read_moves(seq!['f'], 0).0 == read_moves(seq!['F', 'w'], 0).0,
        read_moves(seq!['b'], 0).0 == read_moves(seq!['B', 'w'], 0).0,
        pos_after(read_moves(seq!['r'], 0).0, p) == move_sticker(
            Move { order: Order::Prime, layer: Layer::M },
            move_sticker(Move { order: Order::Normal, layer: Layer::R }, p),
        ),
        pos_after(read_moves(seq!['l'], 0).0, p) == move_sticker(
            Move { order: Order::Normal, layer: Layer::M },
            move_sticker(Move { order: Order::Normal, layer: Layer::L }, p),
        ),
        pos_after(read_moves(seq!['u'], 0).0, p) == move_sticker(
            Move { order: Order::Prime, layer: Layer::E },
            move_sticker(Move { order: Order::Normal, layer: Layer::U }, p),
        ),
        pos_after(read_moves(seq!['d'], 0).0, p) == move_sticker(
            Move { order: Order::Normal, layer: Layer::E },
            move_sticker(Move { order: Order::Normal, layer: Layer::D }, p),
        ),
        pos_after(read_moves(seq!['f'], 0).0, p) == move_sticker(
            Move { order: Order::Normal, layer: Layer::S },
            move_sticker(Move { order: Order::Normal, layer: Layer::F }, p),
        ),
        pos_after(read_moves(seq!['b'], 0).0, p) == move_sticker(
            Move { order: Order::Prime, layer: Layer::S },
            move_sticker(Move { order: Order::Normal, layer: Layer::B }, p),
        ),
{
    lemma_wide_moves(p);
    lemma_letter_as_wide('r', 'R', p);
    lemma_letter_as_wide('l', 'L', p);
    lemma_letter_as_wide('u', 'U', p);
    lemma_letter_as_wide('d', 'D', p);
    lemma_letter_as_wide('f', 'F', p);
    lemma_letter_as_wide('b', 'B', p);
}

// ---------------------------------------------------------------------------
// Computing positions.

pub open spec fn as_ints(v: Seq<u8>) -> Seq<int> {
    Seq::new(v.len(), |i: int| v[i] as int)
}

proof fn lemma_as_ints_valid(v: Seq<u8>)
    requires
        valid_state(as_ints(v)),
    ensures
        v.len() == 54,
        forall|i: int| 0 <= i < 54 ==> v[i] < 54,
{
    assert forall|i: int| 0 <= i < 54 implies v[i] < 54 by {
        assert(as_ints(v)[i] == v[i] as int);
    }
}

fn coord_of(p: u8) -> (r: (i8, i8, i8))
    requires
        p < 54,
    ensures
        (r.0 as int, r.1 as int, r.2 as int) == coord(p as int),
{
    let f = p / 9;
    let u: i8 = 2 * ((p % 3) as i8) - 2;
    let v: i8 = 2 * (((p % 9) / 3) as i8) - 2;
    if f == 0 {
        (u, 3, v)
    } else if f == 1 {
        (3, u, v)
    } else if f == 2 {
        (u, v, 3)
    } else if f == 3 {
        (u, -3, v)
    } else if f == 4 {
        (-3, u, v)
    } else {
        (u, v, -3)
    }
}

fn index_at(x: i8, y: i8, z: i8) -> (r: u8)
    requires
        valid_coord((x as int, y as int, z as int)),
    ensures
        r as int == index_of((x as int, y as int, z as int)),
{
    proof {
        lemma_index((x as int, y as int, z as int));
    }
    let a: u8 = ((x + 2) / 2) as u8;
    let b: u8 = ((y + 2) / 2) as u8;
    let c: u8 = ((z + 2) / 2) as u8;
    if y == 3 {
        c * 3 + a
    } else if x == 3 {
        9 + c * 3 + b
    } else if z == 3 {
        18 + b * 3 + a
    } else if y == -3 {
        27 + c * 3 + a
    } else if x == -3 {
        36 + c * 3 + b
    } else {
        45 + b * 3 + a
    }
}

fn axis_of(l: Layer) -> (r: u8)
    ensures
        r as int == layer_axis(l),
{
    match l {
        Layer::R | Layer::Rw | Layer::L | Layer::Lw | Layer::M | Layer::X => 0,
        Layer::U | Layer::Uw | Layer::D | Layer::Dw | Layer::E | Layer::Y => 1,
        _ => 2,
    }
}

fn positive_of(l: Layer) -> (r: bool)
    ensures
        r == layer_positive(l),
{
    match l {
        Layer::U | Layer::Uw | Layer::Y | Layer::R | Layer::Rw | Layer::X => true,
        Layer::F | Layer::Fw | Layer::S | Layer::Z => true,
        _ => false,
    }
}

fn range_of(l: Layer) -> (r: (i8, i8))
    ensures
        r.0 as int == layer_lo(l),
        r.1 as int == layer_hi(l),
{
    let lo: i8 = match l {
        Layer::U | Layer::R | Layer::F => 1,
        Layer::Uw | Layer::Rw | Layer::Fw => 0,
        Layer::M | Layer::E | Layer::S => 0,
        _ => -3,
    };
    let hi: i8 = match l {
        Layer::D | Layer::L | Layer::B => -1,
        Layer::Dw | Layer::Lw | Layer::Bw => 0,
        Layer::M | Layer::E | Layer::S => 0,
        _ => 3,
    };
    (lo, hi)
}

/// Where a quarter turn of layer `l` takes the sticker at position `p`.
pub fn quarter_turn(l: Layer, p: u8) -> (r: u8)
    requires
        p < 54,
    ensures
        r as int == quarter(l, p as int),
        r < 54,
{
    proof {
        lemma_coord(p as int);
        lemma_quarter_range(l, p as int);
    }
    let (x, y, z) = coord_of(p);
    let a = axis_of(l);
    let (lo, hi) = range_of(l);
    let along = if a == 0 {
        x
    } else if a == 1 {
        y
    } else {
        z
    };
    if lo <= along && along <= hi {
        let pos = positive_of(l);
        let (nx, ny, nz) = if a == 0 {
            if pos {
                (x, z, -y)
            } else {
                (x, -z, y)
            }
        } else if a == 1 {
            if pos {
                (-z, y, x)
            } else {
                (z, y, -x)
            }
        } else {
            if pos {
                (y, -x, z)
            } else {
                (-y, x, z)
            }
        };
        proof {
            lemma_rotate(l, coord(p as int));
        }
        index_at(nx, ny, nz)
    } else {
        p
    }
}

fn turn_count(o: Order) -> (r: u8)
    ensures
        r as nat == order_turns(o),
{
    match o {
        Order::Normal => 1,
        Order::Double => 2,
        Order::Prime => 3,
    }
}

/// Where move `m` takes the sticker at position `p`.
pub fn move_position(m: Move, p: u8) -> (r: u8)
    requires
        p < 54,
    ensures
        r as int == move_sticker(m, p as int),
        r < 54,
{
    let k = turn_count(m.order);
    let mut q = p;
    let mut i: u8 = 0;
    while i < k
        invariant
            i <= k,
            k as nat == order_turns(m.order),
            q < 54,
            q as int == turn(m.layer, i as nat, p as int),
        decreases k - i,
    {
        q = quarter_turn(m.layer, q);
        i = i + 1;
    }
    q
}


// ---------------------------------------------------------------------------
// Transforms and cubes.

/// Where a sequence of moves, made from the solved cube, takes each sticker.
/// Applying it to a cube state makes those moves on that state.
pub struct Transform {
    perm: Vec<u8>,
}

impl View for Transform {
    type V = Seq<int>;

    closed spec fn view(&self) -> Seq<int> {
        as_ints(self.perm@)
    }
}

impl Transform {
    #[verifier::type_invariant]
    spec fn inv(&self) -> bool {
        valid_state(as_ints(self.perm@))
    }

    /// A transform equal to this one.
    pub fn duplicate(&self) -> (r: Transform)
        ensures
            r@ == self@,
    {
        proof {
            use_type_invariant(self);
        }
        Transform { perm: self.perm.clone() }
    }

    /// The transform of the moves `moves`, made in order.
    pub fn from_moves(moves: &Vec<Move>) -> (t: Transform)
        ensures
            t@ == moves_state(moves@),
    {
        let mut perm: Vec<u8> = Vec::new();
        let mut p: u8 = 0;
        while p < 54
            invariant
                p <= 54,
                perm@.len() == p,
                forall|i: int| 0 <= i < p ==> perm@[i] == i,
            decreases 54 - p,
        {
            perm.push(p);
            p = p + 1;
        }
        let n = moves.len();
        let mut k: usize = 0;
        while k < n
            invariant
                k <= n,
                n == moves@.len(),
                perm@.len() == 54,
                forall|i: int| 0 <= i < 54 ==> perm@[i] < 54,
                forall|i: int| 0 <= i < 54 ==> perm@[i] as int == pos_after(moves@.take(k as int), i),
            decreases n - k,
        {
            let m = moves[k];
            let ghost before = perm@;
            let mut i: usize = 0;
            while i < 54
                invariant
                    i <= 54,
                    perm@.len() == 54,
                    forall|j: int| 0 <= j < 54 ==> perm@[j] < 54,
                    forall|j: int| 0 <= j < i ==> perm@[j] as int == move_sticker(m, before[j] as int),
                    forall|j: int| i <= j < 54 ==> perm@[j] == before[j],
                decreases 54 - i,
            {
                let q = move_position(m, perm[i]);
                perm.set(i, q);
                i = i + 1;
            }
            proof {
                assert(moves@.take(k + 1).drop_last() =~= moves@.take(k as int));
                assert(moves@.take(k + 1).last() == m);
            }
            k = k + 1;
        }
        assert(moves@.take(n as int) =~= moves@);
        let t = Transform { perm };
        assert(t@ =~= moves_state(moves@));
        t
    }
}

/// A cube: for each sticker, the position where it now is.
pub struct Cube {
    stickers: Vec<u8>,
}

impl View for Cube {
    type V = Seq<int>;

    closed spec fn view(&self) -> Seq<int> {
        as_ints(self.stickers@)
    }
}

/// Sticker `l` belongs to the last (U) layer: it lies on the U face, other
/// than its centre, or on the top row of a side face.
pub open spec fn is_last_layer_label(l: int) -> bool {
    coord(l).1 >= 2 && l != 4
}

/// Every sticker outside the last layer is at home.
pub open spec fn is_last_layer_state(s: Seq<int>) -> bool {
    forall|l: int| 0 <= l < 54 && !is_last_layer_label(l) ==> s[l] == l
}

/// The state `s` with its stickers relabelled by `j` quarter turns of U:
/// the state from which `s`'s solution leaves the cube `j` U turns away from
/// solved.
pub open spec fn post_auf(s: Seq<int>, j: nat) -> Seq<int> {
    Seq::new(s.len(), |l: int| s[turn(Layer::U, j, l)])
}

/// The eight non-centre stickers of the U face, `0..9` without `4`.
pub open spec fn top_label(k: int) -> int {
    if k < 4 {
        k
    } else {
        k + 1
    }
}

/// Positions of the U-face stickers `k..8`, as digits in base 54.
pub open spec fn ll_digits(s: Seq<int>, k: int) -> int
    decreases 8 - k,
{
    if k >= 8 {
        0
    } else {
        s[top_label(k)] + 54 * ll_digits(s, k + 1)
    }
}

/// The index of a last-layer state: where its eight U-face stickers are,
/// written in base 54.
pub open spec fn ll_index_of(s: Seq<int>) -> int {
    ll_digits(s, 0)
}

/// The indices of a last-layer state under each of the four final AUFs
/// (none when the state is not a last-layer state).
pub open spec fn ll_indices(s: Seq<int>) -> Seq<u64> {
    if is_last_layer_state(s) {
        Seq::new(4, |j: int| ll_index_of(post_auf(s, j as nat)) as u64)
    } else {
        Seq::empty()
    }
}

pub open spec fn pow54(n: nat) -> int
    decreases n,
{
    if n == 0 {
        1
    } else {
        54 * pow54((n - 1) as nat)
    }
}

pub proof fn lemma_ll_digits_bound(s: Seq<int>, k: int)
    requires
        valid_state(s),
        0 <= k <= 8,
    ensures
        0 <= ll_digits(s, k) < pow54((8 - k) as nat),
    decreases 8 - k,
{
    if k < 8 {
        lemma_ll_digits_bound(s, k + 1);
        assert(0 <= s[top_label(k)] < 54);
    }
}

fn is_last_layer_label_exec(l: u8) -> (r: bool)
    requires
        l < 54,
    ensures
        r == is_last_layer_label(l as int),
{
    let (_, y, _) = coord_of(l);
    y >= 2 && l != 4
}

/// `j` quarter turns of U applied to position `p`.
fn turn_u(j: u8, p: u8) -> (r: u8)
    requires
        p < 54,
    ensures
        r as int == turn(Layer::U, j as nat, p as int),
        r < 54,
{
    let mut q = p;
    let mut i: u8 = 0;
    while i < j
        invariant
            i <= j,
            q < 54,
            q as int == turn(Layer::U, i as nat, p as int),
        decreases j - i,
    {
        q = quarter_turn(Layer::U, q);
        i = i + 1;
    }
    q
}

impl Cube {
    #[verifier::type_invariant]
    spec fn inv(&self) -> bool {
        valid_state(as_ints(self.stickers@))
    }

    /// The solved cube.
    pub fn new() -> (c: Cube)
        ensures
            c@ == solved_state(),
    {
        let mut stickers: Vec<u8> = Vec::new();
        let mut p: u8 = 0;
        while p < 54
            invariant
                p <= 54,
                stickers@.len() == p,
                forall|i: int| 0 <= i < p ==> stickers@[i] == i,
            decreases 54 - p,
        {
            stickers.push(p);
            p = p + 1;
        }
        let c = Cube { stickers };
        assert(c@ =~= solved_state());
        c
    }

    /// A cube in the same state as this one.
    pub fn copy(&self) -> (r: Cube)
        ensures
            r@ == self@,
    {
        proof {
            use_type_invariant(self);
        }
        Cube { stickers: self.stickers.clone() }
    }

    /// The position where sticker `label` is.
    pub fn sticker(&self, label: usize) -> (r: u8)
        requires
            label < 54,
        ensures
            r as int == self@[label as int],
            r < 54,
    {
        proof {
            use_type_invariant(self);
            lemma_as_ints_valid(self.stickers@);
        }
        self.stickers[label]
    }

    /// Moves sticker `label` to position `pos`.
    pub fn set_sticker(&mut self, label: usize, pos: u8)
        requires
            label < 54,
            pos < 54,
        ensures
            final(self)@ == old(self)@.update(label as int, pos as int),
    {
        proof {
            use_type_invariant(&*self);
        }
        let mut stickers = self.stickers.clone();
        stickers.set(label, pos);
        assert(as_ints(stickers@) =~= as_ints(self.stickers@).update(label as int, pos as int));
        self.stickers = stickers;
    }

    /// Makes this cube equal to `other`.
    pub fn replace(&mut self, other: Cube)
        ensures
            final(self)@ == other@,
    {
        *self = other;
    }

    /// Makes on this cube the moves of which `t` is the transform.
    pub fn do_transform(&mut self, t: &Transform)
        ensures
            final(self)@ == apply_state(old(self)@, t@),
            valid_state(old(self)@),
            valid_state(final(self)@),
    {
        proof {
            use_type_invariant(&*self);
            use_type_invariant(t);
            lemma_as_ints_valid(self.stickers@);
            lemma_as_ints_valid(t.perm@);
        }
        let mut next: Vec<u8> = Vec::new();
        let mut l: usize = 0;
        while l < 54
            invariant
                l <= 54,
                self.stickers@.len() == 54,
                t.perm@.len() == 54,
                forall|i: int| 0 <= i < 54 ==> self.stickers@[i] < 54,
                forall|i: int| 0 <= i < 54 ==> t.perm@[i] < 54,
                next@.len() == l,
                forall|i: int| 0 <= i < l ==> next@[i] == t.perm@[self.stickers@[i] as int],
            decreases 54 - l,
        {
            let p = self.stickers[l];
            next.push(t.perm[p as usize]);
            l = l + 1;
        }
        assert(as_ints(next@) =~= apply_state(as_ints(self.stickers@), as_ints(t.perm@)));
        self.stickers = next;
    }

    /// Whether every sticker outside the last layer is at home.
    pub fn is_last_layer(&self) -> (r: bool)
        ensures
            r == is_last_layer_state(self@),
    {
        proof {
            use_type_invariant(self);
            lemma_as_ints_valid(self.stickers@);
        }
        let mut l: u8 = 0;
        while l < 54
            invariant
                l <= 54,
                self.stickers@.len() == 54,
                forall|i: int| 0 <= i < l && !is_last_layer_label(i) ==> self@[i] == i,
            decreases 54 - l,
        {
            if !is_last_layer_label_exec(l) && self.stickers[l as usize] != l {
                return false;
            }
            l = l + 1;
        }
        true
    }

    /// The index of this state, taken as a last-layer state, after `j`
    /// final U turns.
    fn ll_index_after(&self, j: u8) -> (r: u64)
        requires
            j < 4,
        ensures
            r as int == ll_index_of(post_auf(self@, j as nat)),
    {
        proof {
            use_type_invariant(self);
            lemma_as_ints_valid(self.stickers@);
        }
        let ghost ps = post_auf(self@, j as nat);
        proof {
            assert forall|i: int| 0 <= i < 54 implies 0 <= #[trigger] ps[i] < 54 by {
                lemma_turn_range(Layer::U, j as nat, i);
            }
            reveal_with_fuel(pow54, 9);
        }
        let mut acc: u64 = 0;
        let mut k: usize = 8;
        while k > 0
            invariant
                k <= 8,
                valid_state(ps),
                ps == post_auf(self@, j as nat),
                self.stickers@.len() == 54,
                acc as int == ll_digits(ps, k as int),
                pow54(8) == 72301961339136,
            decreases k,
        {
            k = k - 1;
            let label: u8 = if k < 4 {
                k as u8
            } else {
                (k + 1) as u8
            };
            let at = turn_u(j, label);
            let pos = self.stickers[at as usize];
            proof {
                lemma_ll_digits_bound(ps, k as int + 1);
                assert(pow54((8 - (k + 1)) as nat) <= pow54(8)) by {
                    lemma_pow54_mono((8 - (k + 1)) as nat, 8);
                }
            }
            acc = acc * 54 + pos as u64;
        }
        acc
    }

    /// The indices of this last-layer state under each of the four final
    /// AUFs; none when some sticker outside the last layer is not at home.
    pub fn get_ll_indices(&self) -> (r: Vec<u64>)
        ensures
            r@ == ll_indices(self@),
    {
        let mut r: Vec<u64> = Vec::new();
        if !self.is_last_layer() {
            assert(r@ =~= ll_indices(self@));
            return r;
        }
        let mut j: u8 = 0;
        while j < 4
            invariant
                j <= 4,
                is_last_layer_state(self@),
                r@.len() == j,
                forall|i: int| 0 <= i < j ==> r@[i] as int == ll_index_of(post_auf(self@, i as nat)),
            decreases 4 - j,
        {
            let v = self.ll_index_after(j);
            r.push(v);
            j = j + 1;
        }
        assert(r@ =~= ll_indices(self@));
        r
    }

    /// For each position, the face (0..6, in the order U, R, F, D, L, B)
    /// that the sticker lying there belongs to (see `facelets_of`).
    pub fn facelets(&self) -> (r: Vec<u8>)
        ensures
            r@.len() == 54,
            forall|p: int| 0 <= p < 54 ==> r@[p] as int == facelets_of(self@, 54)[p],
    {
        proof {
            use_type_invariant(self);
            lemma_as_ints_valid(self.stickers@);
        }
        let mut r: Vec<u8> = Vec::new();
        let mut p: usize = 0;
        while p < 54
            invariant
                p <= 54,
                r@.len() == p,
                forall|i: int| 0 <= i < p ==> r@[i] == 6,
            decreases 54 - p,
        {
            r.push(6);
            p = p + 1;
        }
        assert(as_ints(r@) =~= facelets_of(self@, 0));
        let mut l: usize = 0;
        while l < 54
            invariant
                l <= 54,
                r@.len() == 54,
                self.stickers@.len() == 54,
                forall|i: int| 0 <= i < 54 ==> self.stickers@[i] < 54,
                as_ints(r@) == facelets_of(self@, l as nat),
            decreases 54 - l,
        {
            let pos = self.stickers[l];
            let face = (l / 9) as u8;
            r.set(pos as usize, face);
            assert(as_ints(r@) =~= facelets_of(self@, l as nat).update(pos as int, (l / 9) as int));
            l = l + 1;
        }
        assert forall|p: int| 0 <= p < 54 implies r@[p] as int == facelets_of(self@, 54)[p] by {
            assert(as_ints(r@)[p] == r@[p] as int);
        }
        r
    }
}

/// For each position, the face of the sticker lying there once stickers
/// `0..k` are laid down in turn (6 where none of them lies); a later sticker
/// covers an earlier one at the same position.
pub open spec fn facelets_of(s: Seq<int>, k: nat) -> Seq<int>
    decreases k,
{
    if k == 0 {
        Seq::new(54, |p: int| 6)
    } else {
        facelets_of(s, (k - 1) as nat).update(s[k - 1], (k - 1) / 9)
    }
}

pub proof fn lemma_pow54_mono(a: nat, b: nat)
    requires
        a <= b,
    ensures
        1 <= pow54(a) <= pow54(b),
    decreases b,
{
    if b > a {
        lemma_pow54_mono(a, (b - 1) as nat);
    } else if a > 0 {
        lemma_pow54_mono((a - 1) as nat, (a - 1) as nat);
    }
}


// ---------------------------------------------------------------------------
// How states compose.

pub proof fn lemma_moves_state_valid(ms: Seq<Move>)
    ensures
        valid_state(moves_state(ms)),
{
    assert forall|i: int| 0 <= i < 54 implies 0 <= #[trigger] moves_state(ms)[i] < 54 by {
        lemma_pos_after_range(ms, i);
    }
}

/// The transform of a sequence, applied to the solved cube, is the state
/// that the sequence reaches.
pub proof fn lemma_apply_solved(t: Seq<int>)
    requires
        t.len() == 54,
    ensures
        apply_state(solved_state(), t) == t,
{
    assert(apply_state(solved_state(), t) =~= t);
}

/// Making `a` and then `b` from the solved cube is making `a + b`.
pub proof fn lemma_apply_moves(a: Seq<Move>, b: Seq<Move>)
    ensures
        apply_state(moves_state(a), moves_state(b)) == moves_state(a + b),
{
    assert forall|l: int| 0 <= l < 54 implies #[trigger] apply_state(moves_state(a), moves_state(b))[l]
        == moves_state(a + b)[l] by {
        lemma_pos_after_range(a, l);
        lemma_pos_after_concat(a, b, l);
    }
    assert(apply_state(moves_state(a), moves_state(b)) =~= moves_state(a + b));
}

/// Making the moves `ms` and then their inverse leaves any cube as it was.
pub proof fn lemma_apply_inverse(s: Seq<int>, ms: Seq<Move>)
    requires
        valid_state(s),
    ensures
        apply_state(apply_state(s, moves_state(ms)), moves_state(inverse_moves(ms))) == s,
{
    assert forall|l: int| 0 <= l < 54 implies #[trigger] apply_state(apply_state(s, moves_state(ms)),
        moves_state(inverse_moves(ms)))[l] == s[l] by {
        lemma_pos_after_range(ms, s[l]);
        lemma_pos_after_inverse(ms, s[l]);
    }
    assert(apply_state(apply_state(s, moves_state(ms)), moves_state(inverse_moves(ms))) =~= s);
}

/// Making transforms one after the other applies their composite.
pub proof fn lemma_apply_assoc(s: Seq<int>, a: Seq<Move>, b: Seq<Move>)
    requires
        valid_state(s),
    ensures
        apply_state(apply_state(s, moves_state(a)), moves_state(b)) == apply_state(s, moves_state(a + b)),
{
    assert forall|l: int| 0 <= l < 54 implies #[trigger] apply_state(apply_state(s, moves_state(a)),
        moves_state(b))[l] == apply_state(s, moves_state(a + b))[l] by {
        lemma_pos_after_range(a, s[l]);
        lemma_pos_after_concat(a, b, s[l]);
    }
    assert(apply_state(apply_state(s, moves_state(a)), moves_state(b)) =~= apply_state(s, moves_state(a + b)));
}

/// The AUF moves numbered 0..4: none, U, U2 and U'.
pub open spec fn auf_moves(index: int) -> Seq<Move> {
    if index == 1 {
        seq![Move { order: Order::Normal, layer: Layer::U }]
    } else if index == 2 {
        seq![Move { order: Order::Double, layer: Layer::U }]
    } else if index == 3 {
        seq![Move { order: Order::Prime, layer: Layer::U }]
    } else {
        Seq::empty()
    }
}

/// The transform of AUF number `index` (1: U, 2: U2, 3: U').
pub fn auf_transform(index: usize) -> (t: Transform)
    requires
        1 <= index <= 3,
    ensures
        t@ == moves_state(auf_moves(index as int)),
{
    let order = if index == 1 {
        Order::Normal
    } else if index == 2 {
        Order::Double
    } else {
        Order::Prime
    };
    let moves = vec![Move { order, layer: Layer::U }];
    assert(moves@ =~= auf_moves(index as int));
    Transform::from_moves(&moves)
}

proof fn lemma_ll_digits_eq(s1: Seq<int>, s2: Seq<int>, k: int)
    requires
        valid_state(s1),
        valid_state(s2),
        0 <= k <= 8,
        ll_digits(s1, k) == ll_digits(s2, k),
    ensures
        forall|q: int| k <= q < 8 ==> s1[top_label(q)] == s2[top_label(q)],
    decreases 8 - k,
{
    if k < 8 {
        let a1 = s1[top_label(k)];
        let a2 = s2[top_label(k)];
        let b1 = ll_digits(s1, k + 1);
        let b2 = ll_digits(s2, k + 1);
        assert(0 <= a1 < 54 && 0 <= a2 < 54);
        assert(a1 + 54 * b1 == a2 + 54 * b2);
        assert(b1 == b2);
        lemma_ll_digits_eq(s1, s2, k + 1);
    }
}

/// The index of a last-layer state tells where its eight U-face stickers
/// are: two states with the same index have them at the same positions.
pub proof fn lemma_ll_index_top(s1: Seq<int>, s2: Seq<int>)
    requires
        valid_state(s1),
        valid_state(s2),
        ll_index_of(s1) == ll_index_of(s2),
    ensures
        forall|q: int| 0 <= q < 8 ==> s1[top_label(q)] == s2[top_label(q)],
{
    lemma_ll_digits_eq(s1, s2, 0);
}

/// The indices of a state under the four final AUFs, without truncation:
/// each is the index of the state relabelled by that AUF, which is again a
/// state.
pub proof fn lemma_ll_indices(s: Seq<int>, j: int)
    requires
        valid_state(s),
        0 <= j < 4,
    ensures
        valid_state(post_auf(s, j as nat)),
        is_last_layer_state(s) ==> ll_indices(s)[j] as int == ll_index_of(post_auf(s, j as nat)),
{
    let ps = post_auf(s, j as nat);
    assert forall|i: int| 0 <= i < 54 implies 0 <= #[trigger] ps[i] < 54 by {
        lemma_turn_range(Layer::U, j as nat, i);
    }
    lemma_ll_digits_bound(ps, 0);
    assert(pow54(8) == 72301961339136) by {
        reveal_with_fuel(pow54, 9);
    }
}

/// AUF `j` takes each sticker where `j` quarter turns of U take it.
pub proof fn lemma_auf_moves_turn(j: int, l: int)
    requires
        0 <= j < 4,
    ensures
        pos_after(auf_moves(j), l) == turn(Layer::U, j as nat, l),
{
    let ms = auf_moves(j);
    if j > 0 {
        assert(ms.drop_last() =~= Seq::<Move>::empty());
        assert(pos_after(ms.drop_last(), l) == l);
        assert(turn(Layer::U, 0, l) == l);
    }
}

/// A state that moves reach, relabelled by a final AUF, is the state that
/// the AUF followed by those moves reaches.
pub proof fn lemma_post_auf_moves(ms: Seq<Move>, j: int)
    requires
        0 <= j < 4,
    ensures
        post_auf(moves_state(ms), j as nat) == moves_state(auf_moves(j) + ms),
{
    assert forall|l: int| 0 <= l < 54 implies #[trigger] post_auf(moves_state(ms), j as nat)[l]
        == moves_state(auf_moves(j) + ms)[l] by {
        lemma_auf_moves_turn(j, l);
        lemma_pos_after_concat(auf_moves(j), ms, l);
        lemma_turn_range(Layer::U, j as nat, l);
    }
    assert(post_auf(moves_state(ms), j as nat) =~= moves_state(auf_moves(j) + ms));
}

/// U turns leave every sticker outside the last layer where it is.
proof fn lemma_turn_u_fixes(j: nat, l: int)
    requires
        0 <= l < 54,
        !is_last_layer_label(l),
    ensures
        turn(Layer::U, j, l) == l,
    decreases j,
{
    if j > 0 {
        lemma_turn_u_fixes((j - 1) as nat, l);
        lemma_coord(l);
        if l == 4 {
            assert(coord(4) == (0int, 3int, 0int));
            assert(rotate(Layer::U, coord(4)) == (0int, 3int, 0int));
        }
    }
}

/// A final AUF keeps a last-layer state a last-layer state.
pub proof fn lemma_post_auf_last_layer(s: Seq<int>, j: nat)
    requires
        s.len() == 54,
        is_last_layer_state(s),
    ensures
        is_last_layer_state(post_auf(s, j)),
{
    assert forall|l: int| 0 <= l < 54 && !is_last_layer_label(l) implies #[trigger] post_auf(s, j)[l] == l by {
        lemma_turn_u_fixes(j, l);
    }
}

// ---------------------------------------------------------------------------
// The cube as an unfolded net.

/// The position shown at row `row` (0..9) and column `col` of the unfolded
/// net (U above F; L, F, R, B side by side; D below F), or -1 for a blank.
pub open spec fn net_position(row: int, col: int) -> int {
    if 0 <= row < 3 && 3 <= col < 6 {
        row * 3 + (col - 3)
    } else if 6 <= row < 9 && 3 <= col < 6 {
        27 + (8 - row) * 3 + (col - 3)
    } else if 3 <= row < 6 && 0 <= col < 3 {
        36 + col * 3 + (5 - row)
    } else if 3 <= row < 6 && 3 <= col < 6 {
        18 + (5 - row) * 3 + (col - 3)
    } else if 3 <= row < 6 && 6 <= col < 9 {
        9 + (8 - col) * 3 + (5 - row)
    } else if 3 <= row < 6 && 9 <= col < 12 {
        45 + (5 - row) * 3 + (11 - col)
    } else {
        -1
    }
}

/// The letter of face `f` (0..6: U, R, F, D, L, B), `.` for anything else.
pub open spec fn face_letter(f: int) -> char {
    if f == 0 {
        'U'
    } else if f == 1 {
        'R'
    } else if f == 2 {
        'F'
    } else if f == 3 {
        'D'
    } else if f == 4 {
        'L'
    } else if f == 5 {
        'B'
    } else {
        '.'
    }
}

/// How many columns row `row` of the net has.
pub open spec fn net_width(row: int) -> int {
    if 3 <= row < 6 {
        12
    } else {
        6
    }
}

/// Row `row` of the net of the facelets `f`.
pub open spec fn net_line(f: Seq<int>, row: int) -> Seq<char> {
    Seq::new(net_width(row) as nat, |col: int| {
        let p = net_position(row, col);
        if p < 0 {
            ' '
        } else {
            face_letter(f[p])
        }
    })
}

/// Rows `0..r` of the net, joined by line feeds.
pub open spec fn net_text(f: Seq<int>, r: int) -> Seq<char>
    decreases r,
{
    if r <= 0 {
        Seq::empty()
    } else if r == 1 {
        net_line(f, 0)
    } else {
        net_text(f, r - 1) + seq!['\n'] + net_line(f, r - 1)
    }
}

fn net_position_exec(row: usize, col: usize) -> (r: Option<usize>)
    requires
        row < 9,
        col < 12,
    ensures
        match r {
            Some(p) => p as int == net_position(row as int, col as int) && p < 54,
            None => net_position(row as int, col as int) < 0,
        },
{
    if row < 3 && 3 <= col && col < 6 {
        Some(row * 3 + (col - 3))
    } else if 6 <= row && 3 <= col && col < 6 {
        Some(27 + (8 - row) * 3 + (col - 3))
    } else if 3 <= row && row < 6 && col < 3 {
        Some(36 + col * 3 + (5 - row))
    } else if 3 <= row && row < 6 && 3 <= col && col < 6 {
        Some(18 + (5 - row) * 3 + (col - 3))
    } else if 3 <= row && row < 6 && 6 <= col && col < 9 {
        Some(9 + (8 - col) * 3 + (5 - row))
    } else if 3 <= row && row < 6 && 9 <= col {
        Some(45 + (5 - row) * 3 + (11 - col))
    } else {
        None
    }
}

fn face_letter_exec(f: u8) -> (c: char)
    ensures
        c == face_letter(f as int),
{
    match f {
        0 => 'U',
        1 => 'R',
        2 => 'F',
        3 => 'D',
        4 => 'L',
        5 => 'B',
        _ => '.',
    }
}

impl Cube {
    /// The cube as an unfolded net, one letter per sticker naming the face
    /// it belongs to (see `net_text`).
    pub fn diagram(&self) -> (r: String)
        ensures
            r@ == net_text(facelets_of(self@, 54), 9),
    {
        let faces = self.facelets();
        let ghost f = facelets_of(self@, 54);
        let mut out = String::new();
        let mut row: usize = 0;
        while row < 9
            invariant
                row <= 9,
                faces@.len() == 54,
                forall|p: int| 0 <= p < 54 ==> faces@[p] as int == f[p],
                out@ == net_text(f, row as int),
            decreases 9 - row,
        {
            let ghost before = out@;
            if row > 0 {
                push_char(&mut out, '\n');
            }
            let width: usize = if 3 <= row && row < 6 { 12 } else { 6 };
            let mut col: usize = 0;
            while col < width
                invariant
                    row < 9,
                    col <= width,
                    width as int == net_width(row as int),
                    faces@.len() == 54,
                    forall|p: int| 0 <= p < 54 ==> faces@[p] as int == f[p],
                    out@ == (if row > 0 { before + seq!['\n'] } else { before }) + net_line(f, row as int).take(col as int),
                decreases width - col,
            {
                let c = match net_position_exec(row, col) {
                    Some(p) => face_letter_exec(faces[p]),
                    None => ' ',
                };
                let ghost prev = out@;
                push_char(&mut out, c);
                proof {
                    let line = net_line(f, row as int);
                    assert(line.take(col + 1) =~= line.take(col as int).push(line[col as int]));
                    assert(out@ =~= prev.push(c));
                }
                col = col + 1;
            }
            proof {
                let line = net_line(f, row as int);
                assert(line.take(width as int) =~= line);
                if row == 0 {
                    assert(before =~= Seq::<char>::empty());
                    assert(out@ =~= net_line(f, 0));
                }
            }
            row = row + 1;
        }
        out
    }
}

} // verus!
