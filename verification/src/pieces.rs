//! Pieces: the stickers of one edge or corner piece move together. A
//! sticker's piece is found by pulling its face coordinate (±3) in to ±2;
//! the other stickers of an edge or corner lie on the same piece, in a
//! fixed turning order for corners. Moves keep these relations, so the
//! positions of a piece's U-face sticker fix where its other stickers are.
use vstd::prelude::*;
use crate::cube::{
    Coord, coord, in_layer, index_of, lemma_coord, lemma_index, lemma_rotate, order_turns, pos_after, quarter, rotate,
    turn, valid_coord,
};
use crate::moves::{Layer, Move};

verus! {

/// A face coordinate (±3) pulled in to the piece (±2).
pub open spec fn shrink(a: int) -> int {
    if a == 3 {
        2
    } else if a == -3 {
        -2
    } else {
        a
    }
}

/// A piece coordinate (±2) pushed out to the face (±3).
pub open spec fn grow(a: int) -> int {
    if a == 2 {
        3
    } else if a == -2 {
        -3
    } else {
        a
    }
}

/// The centre of the piece that a sticker at `c` belongs to.
pub open spec fn piece_of(c: Coord) -> Coord {
    (shrink(c.0), shrink(c.1), shrink(c.2))
}

/// `c` is a sticker of an edge piece: its piece has exactly one coordinate 0.
pub open spec fn is_edge_coord(c: Coord) -> bool {
    let p = piece_of(c);
    &&& valid_coord(c)
    &&& {
        ||| p.0 == 0 && p.1 != 0 && p.2 != 0
        ||| p.0 != 0 && p.1 == 0 && p.2 != 0
        ||| p.0 != 0 && p.1 != 0 && p.2 == 0
    }
}

/// `c` is a sticker of a corner piece: no coordinate of its piece is 0.
pub open spec fn is_corner_coord(c: Coord) -> bool {
    let p = piece_of(c);
    valid_coord(c) && p.0 != 0 && p.1 != 0 && p.2 != 0
}

/// The axis (0, 1, 2 for x, y, z) of the face that a sticker lies on.
pub open spec fn face_axis(c: Coord) -> int {
    if c.0 == 3 || c.0 == -3 {
        0
    } else if c.1 == 3 || c.1 == -3 {
        1
    } else {
        2
    }
}

/// The sticker of piece `p` on the face across axis `a`.
pub open spec fn sticker_on(p: Coord, a: int) -> Coord {
    if a == 0 {
        (grow(p.0), p.1, p.2)
    } else if a == 1 {
        (p.0, grow(p.1), p.2)
    } else {
        (p.0, p.1, grow(p.2))
    }
}

/// The other sticker of the edge piece that sticker `c` belongs to.
pub open spec fn edge_partner_coord(c: Coord) -> Coord {
    let p = piece_of(c);
    let a = face_axis(c);
    let other = if a != 0 && p.0 != 0 {
        0
    } else if a != 1 && p.1 != 0 {
        1
    } else {
        2
    };
    sticker_on(p, other)
}

/// The next sticker, in turning order, of the corner piece that sticker `c`
/// belongs to.
pub open spec fn corner_next_coord(c: Coord) -> Coord {
    let p = piece_of(c);
    let a = face_axis(c);
    // an even number of negative coordinates: the order runs x, z, y
    let even = ((p.0 < 0) != (p.1 < 0)) == (p.2 < 0);
    let next = if even {
        (a + 2) % 3
    } else {
        (a + 1) % 3
    };
    sticker_on(p, next)
}

/// A quarter turn carries a sticker's piece along: the turned sticker's
/// piece is the turned piece, and a sticker lies in a layer just when its
/// piece does.
proof fn lemma_piece_rotate(l: Layer, c: Coord)
    requires
        valid_coord(c),
    ensures
        piece_of(rotate(l, c)) == rotate(l, piece_of(c)),
        in_layer(l, c) == in_layer(l, piece_of(c)),
{
}

/// A quarter turn keeps edge stickers on edges and carries each one's
/// partner along with it.
proof fn lemma_edge_rotate(l: Layer, c: Coord)
    requires
        is_edge_coord(c),
    ensures
        is_edge_coord(rotate(l, c)),
        is_edge_coord(edge_partner_coord(c)),
        edge_partner_coord(rotate(l, c)) == rotate(l, edge_partner_coord(c)),
        in_layer(l, edge_partner_coord(c)) == in_layer(l, c),
{
    lemma_piece_rotate(l, c);
    match l {
        Layer::R | Layer::Rw | Layer::X | Layer::L | Layer::Lw | Layer::M => {},
        Layer::U | Layer::Uw | Layer::Y | Layer::D | Layer::Dw | Layer::E => {},
        _ => {},
    }
}

/// A quarter turn keeps corner stickers on corners and keeps each corner's
/// turning order.
proof fn lemma_corner_rotate(l: Layer, c: Coord)
    requires
        is_corner_coord(c),
    ensures
        is_corner_coord(rotate(l, c)),
        is_corner_coord(corner_next_coord(c)),
        corner_next_coord(rotate(l, c)) == rotate(l, corner_next_coord(c)),
        in_layer(l, corner_next_coord(c)) == in_layer(l, c),
{
    lemma_piece_rotate(l, c);
    match l {
        Layer::R | Layer::Rw | Layer::X | Layer::L | Layer::Lw | Layer::M => {},
        Layer::U | Layer::Uw | Layer::Y | Layer::D | Layer::Dw | Layer::E => {},
        _ => {},
    }
}

/// Position `p` holds a sticker of an edge piece.
pub open spec fn is_edge_pos(p: int) -> bool {
    0 <= p < 54 && is_edge_coord(coord(p))
}

/// Position `p` holds a sticker of a corner piece.
pub open spec fn is_corner_pos(p: int) -> bool {
    0 <= p < 54 && is_corner_coord(coord(p))
}

/// The position of the other sticker of the edge piece at position `p`.
pub open spec fn partner(p: int) -> int {
    index_of(edge_partner_coord(coord(p)))
}

/// The position of the next sticker, in turning order, of the corner piece
/// at position `p`.
pub open spec fn next_sticker(p: int) -> int {
    index_of(corner_next_coord(coord(p)))
}

proof fn lemma_quarter_partner(l: Layer, p: int)
    requires
        is_edge_pos(p),
    ensures
        is_edge_pos(partner(p)),
        is_edge_pos(quarter(l, p)),
        quarter(l, partner(p)) == partner(quarter(l, p)),
{
    let c = coord(p);
    lemma_coord(p);
    let pc = edge_partner_coord(c);
    lemma_edge_rotate(l, c);
    lemma_index(pc);
    let r = rotate(l, c);
    lemma_rotate(l, c);
    lemma_index(r);
    lemma_rotate(l, pc);
    lemma_index(rotate(l, pc));
}

proof fn lemma_quarter_next(l: Layer, p: int)
    requires
        is_corner_pos(p),
    ensures
        is_corner_pos(next_sticker(p)),
        is_corner_pos(quarter(l, p)),
        quarter(l, next_sticker(p)) == next_sticker(quarter(l, p)),
{
    let c = coord(p);
    lemma_coord(p);
    let nc = corner_next_coord(c);
    lemma_corner_rotate(l, c);
    lemma_index(nc);
    let r = rotate(l, c);
    lemma_rotate(l, c);
    lemma_index(r);
    lemma_rotate(l, nc);
    lemma_index(rotate(l, nc));
}

proof fn lemma_turn_pieces(l: Layer, k: nat, p: int)
    ensures
        is_edge_pos(p) ==> is_edge_pos(turn(l, k, p)) && turn(l, k, partner(p)) == partner(turn(l, k, p)),
        is_corner_pos(p) ==> is_corner_pos(turn(l, k, p)) && turn(l, k, next_sticker(p)) == next_sticker(turn(l, k, p)),
    decreases k,
{
    if k > 0 {
        lemma_turn_pieces(l, (k - 1) as nat, p);
        let t = turn(l, (k - 1) as nat, p);
        if is_edge_pos(p) {
            lemma_quarter_partner(l, t);
        }
        if is_corner_pos(p) {
            lemma_quarter_next(l, t);
        }
    }
}

/// Moves carry pieces whole: wherever a sequence of moves takes a sticker
/// of an edge piece, it takes the piece's other sticker to that position's
/// partner; and wherever it takes a corner sticker, it takes the next
/// sticker of that corner to the position next to it, in turning order.
pub proof fn lemma_pos_after_pieces(ms: Seq<Move>, p: int)
    ensures
        is_edge_pos(p) ==> is_edge_pos(pos_after(ms, p)) && pos_after(ms, partner(p)) == partner(pos_after(ms, p)),
        is_corner_pos(p) ==> is_corner_pos(pos_after(ms, p)) && pos_after(ms, next_sticker(p))
            == next_sticker(pos_after(ms, p)),
    decreases ms.len(),
{
    if ms.len() > 0 {
        let init = ms.drop_last();
        lemma_pos_after_pieces(init, p);
        let m = ms.last();
        lemma_turn_pieces(m.layer, order_turns(m.order), pos_after(init, p));
    }
}

} // verus!
