//! Algorithms: named move sequences, their inverses and mirror images, and
//! the set of variants that one entry of an algorithm list stands for.
use vstd::prelude::*;
use crate::cube::{
    Coord, Transform, coord, in_layer, index_of, lemma_coord, lemma_index, lemma_rotate, lemma_turn_add, lemma_turn_four,
    lemma_pos_after_range, lemma_turn_range, move_sticker, moves_state, order_turns, pos_after, quarter, rotate, turn,
    valid_coord,
};
use crate::moves::{Layer, Move, Order, inverse_moves, parse_moves, read_moves, parse_error_message};

verus! {

/// The plane in which an algorithm is mirrored: front-back or left-right.
#[derive(Clone, Copy, PartialEq, Eq, Structural, Debug)]
pub enum Mirror {
    FB,
    LR,
}

/// An algorithm: its name, its moves, where it takes each sticker, and
/// whether it is the mirror image and/or the inverse of the listed one.
pub struct Alg {
    pub name: String,
    pub moves: Vec<Move>,
    pub transform: Transform,
    pub mirror: bool,
    pub invert: bool,
}

/// The turn in the opposite direction.
pub open spec fn reverse_order(o: Order) -> Order {
    match o {
        Order::Normal => Order::Prime,
        Order::Prime => Order::Normal,
        Order::Double => Order::Double,
    }
}

/// The image of a move in the mirror `axis`. Layers that lie across the
/// mirror swap sides (R and L for a left-right mirror, F and B for a
/// front-back one) and the middle slice and rotation on that axis stay;
/// every move on the other two axes turns the other way, and so do the
/// swapped outer layers, seen from their own side.
pub open spec fn mirror_move(axis: Mirror, m: Move) -> Move {
    let rev = reverse_order(m.order);
    match axis {
        Mirror::LR => match m.layer {
            Layer::R => Move { order: rev, layer: Layer::L },
            Layer::L => Move { order: rev, layer: Layer::R },
            Layer::Rw => Move { order: rev, layer: Layer::Lw },
            Layer::Lw => Move { order: rev, layer: Layer::Rw },
            Layer::M | Layer::X => m,
            _ => Move { order: rev, layer: m.layer },
        },
        Mirror::FB => match m.layer {
            Layer::F => Move { order: rev, layer: Layer::B },
            Layer::B => Move { order: rev, layer: Layer::F },
            Layer::Fw => Move { order: rev, layer: Layer::Bw },
            Layer::Bw => Move { order: rev, layer: Layer::Fw },
            Layer::S | Layer::Z => m,
            _ => Move { order: rev, layer: m.layer },
        },
    }
}

/// The mirror image of a move sequence.
pub open spec fn mirror_moves(axis: Mirror, ms: Seq<Move>) -> Seq<Move> {
    Seq::new(ms.len(), |i: int| mirror_move(axis, ms[i]))
}

/// The name shown for an algorithm: its listed name, marked when it is a
/// mirror image or an inverse.
pub open spec fn full_name(name: Seq<char>, mirror: bool, invert: bool) -> Seq<char> {
    if mirror && invert {
        name + " (mirror inverse)"@
    } else if mirror {
        name + " (mirror)"@
    } else if invert {
        name + " (inverse)"@
    } else {
        name
    }
}

/// The variants that one list entry stands for, as (moves, mirror, invert):
/// the listed moves, then their inverse when `invert` is asked for, then
/// their mirror image when a mirror is asked for, then the inverse of that
/// image when both are.
pub open spec fn variant_specs(ms: Seq<Move>, mirror: Option<Mirror>, invert: bool) -> Seq<(Seq<Move>, bool, bool)> {
    let base = seq![(ms, false, false)];
    let inv = if invert { seq![(inverse_moves(ms), false, true)] } else { Seq::empty() };
    let mir = match mirror {
        Some(a) => {
            let mm = mirror_moves(a, ms);
            if invert {
                seq![(mm, true, false), (inverse_moves(mm), true, true)]
            } else {
                seq![(mm, true, false)]
            }
        },
        None => Seq::empty(),
    };
    base + inv + mir
}

/// An algorithm as plain values: (name, moves, mirror, invert).
pub type AlgView = (Seq<char>, Seq<Move>, bool, bool);

pub open spec fn alg_view(a: Alg) -> AlgView {
    (a.name@, a.moves@, a.mirror, a.invert)
}

pub open spec fn alg_views(s: Seq<Alg>) -> Seq<AlgView> {
    Seq::new(s.len(), |i: int| alg_view(s[i]))
}

/// `a` is an algorithm named `name` with moves `ms` and these flags, whose
/// transform is that of its moves.
pub open spec fn is_alg(a: Alg, name: Seq<char>, ms: Seq<Move>, mirror: bool, invert: bool) -> bool {
    &&& a.name@ == name
    &&& a.moves@ == ms
    &&& a.transform@ == moves_state(ms)
    &&& a.mirror == mirror
    &&& a.invert == invert
}

fn reverse_order_exec(o: Order) -> (r: Order)
    ensures
        r == reverse_order(o),
{
    match o {
        Order::Normal => Order::Prime,
        Order::Prime => Order::Normal,
        Order::Double => Order::Double,
    }
}

/// The image of `m` in the mirror `axis`.
pub fn mirror_move_exec(axis: Mirror, m: Move) -> (r: Move)
    ensures
        r == mirror_move(axis, m),
{
    let rev = reverse_order_exec(m.order);
    match axis {
        Mirror::LR => match m.layer {
            Layer::R => Move { order: rev, layer: Layer::L },
            Layer::L => Move { order: rev, layer: Layer::R },
            Layer::Rw => Move { order: rev, layer: Layer::Lw },
            Layer::Lw => Move { order: rev, layer: Layer::Rw },
            Layer::M | Layer::X => m,
            _ => Move { order: rev, layer: m.layer },
        },
        Mirror::FB => match m.layer {
            Layer::F => Move { order: rev, layer: Layer::B },
            Layer::B => Move { order: rev, layer: Layer::F },
            Layer::Fw => Move { order: rev, layer: Layer::Bw },
            Layer::Bw => Move { order: rev, layer: Layer::Fw },
            Layer::S | Layer::Z => m,
            _ => Move { order: rev, layer: m.layer },
        },
    }
}

/// The reflection of coordinates in the mirror `axis`: a left-right mirror
/// flips x, a front-back one flips z.
pub open spec fn mirror_coord(axis: Mirror, c: Coord) -> Coord {
    match axis {
        Mirror::LR => (-c.0, c.1, c.2),
        Mirror::FB => (c.0, c.1, -c.2),
    }
}

/// The position that position `p` is reflected to in the mirror `axis`.
pub open spec fn mirror_position(axis: Mirror, p: int) -> int {
    index_of(mirror_coord(axis, coord(p)))
}

/// The layer that a move of layer `l` is mirrored to.
pub open spec fn mirror_layer(axis: Mirror, l: Layer) -> Layer {
    mirror_move(axis, Move { order: Order::Normal, layer: l }).layer
}

/// Whether the mirror image of a move of layer `l` turns the other way.
pub open spec fn mirror_reverses(axis: Mirror, l: Layer) -> bool {
    mirror_move(axis, Move { order: Order::Normal, layer: l }).order == Order::Prime
}

proof fn lemma_mirror_position(axis: Mirror, p: int)
    requires
        0 <= p < 54,
    ensures
        valid_coord(mirror_coord(axis, coord(p))),
        0 <= mirror_position(axis, p) < 54,
        coord(mirror_position(axis, p)) == mirror_coord(axis, coord(p)),
        mirror_position(axis, mirror_position(axis, p)) == p,
{
    lemma_coord(p);
    let mc = mirror_coord(axis, coord(p));
    lemma_index(mc);
    assert(mirror_coord(axis, mc) == coord(p));
}

/// The reflection of a quarter turn of the coordinates, as the mirror
/// image's layer turns them.
proof fn lemma_mirror_rotate(axis: Mirror, l: Layer, c: Coord)
    ensures
        in_layer(mirror_layer(axis, l), mirror_coord(axis, c)) == in_layer(l, c),
        mirror_reverses(axis, l) ==> rotate(mirror_layer(axis, l), mirror_coord(axis, rotate(l, c)))
            == mirror_coord(axis, c),
        !mirror_reverses(axis, l) ==> rotate(mirror_layer(axis, l), mirror_coord(axis, c))
            == mirror_coord(axis, rotate(l, c)),
{
    match axis {
        Mirror::LR => match l {
            Layer::R | Layer::L | Layer::Rw | Layer::Lw | Layer::M | Layer::X => {},
            Layer::U | Layer::Uw | Layer::D | Layer::Dw | Layer::E | Layer::Y => {},
            _ => {},
        },
        Mirror::FB => match l {
            Layer::F | Layer::B | Layer::Fw | Layer::Bw | Layer::S | Layer::Z => {},
            Layer::U | Layer::Uw | Layer::D | Layer::Dw | Layer::E | Layer::Y => {},
            _ => {},
        },
    }
}

/// One quarter turn, reflected: a layer that the mirror keeps turning the
/// same way is turned by its image the same way, and one that it reverses
/// is turned back by its image.
proof fn lemma_mirror_quarter(axis: Mirror, l: Layer, p: int)
    requires
        0 <= p < 54,
    ensures
        mirror_reverses(axis, l) ==> quarter(mirror_layer(axis, l), mirror_position(axis, quarter(l, p)))
            == mirror_position(axis, p),
        !mirror_reverses(axis, l) ==> quarter(mirror_layer(axis, l), mirror_position(axis, p))
            == mirror_position(axis, quarter(l, p)),
{
    let c = coord(p);
    let l2 = mirror_layer(axis, l);
    let mc = mirror_coord(axis, c);
    let mp = mirror_position(axis, p);
    lemma_coord(p);
    lemma_mirror_position(axis, p);
    assert(coord(mp) == mc);
    lemma_mirror_rotate(axis, l, c);
    if in_layer(l, c) {
        let r = rotate(l, c);
        lemma_rotate(l, c);
        lemma_index(r);
        let q = index_of(r);
        assert(quarter(l, p) == q);
        assert(coord(q) == r);
        lemma_mirror_position(axis, q);
        let mr = mirror_coord(axis, r);
        assert(coord(mirror_position(axis, q)) == mr);
        assert(mirror_position(axis, q) == index_of(mr));
        assert(in_layer(l2, mc));
        if mirror_reverses(axis, l) {
            assert(in_layer(l2, mr)) by {
                lemma_mirror_rotate(axis, l, r);
            }
            assert(quarter(l2, index_of(mr)) == index_of(rotate(l2, mr)));
        } else {
            assert(quarter(l2, mp) == index_of(rotate(l2, mc)));
        }
    } else {
        assert(quarter(l, p) == p);
        assert(!in_layer(l2, mc));
        assert(quarter(l2, mp) == mp);
    }
}

/// `k` quarter turns, reflected: the image layer makes them too, or, when
/// the mirror reverses the layer, three times as many (each undoing one).
proof fn lemma_mirror_turn(axis: Mirror, l: Layer, k: nat, p: int)
    requires
        0 <= p < 54,
    ensures
        !mirror_reverses(axis, l) ==> turn(mirror_layer(axis, l), k, mirror_position(axis, p))
            == mirror_position(axis, turn(l, k, p)),
        mirror_reverses(axis, l) ==> turn(mirror_layer(axis, l), 3 * k, mirror_position(axis, p))
            == mirror_position(axis, turn(l, k, p)),
    decreases k,
{
    if k > 0 {
        let l2 = mirror_layer(axis, l);
        let t = turn(l, (k - 1) as nat, p);
        lemma_turn_range(l, (k - 1) as nat, p);
        lemma_mirror_turn(axis, l, (k - 1) as nat, p);
        lemma_mirror_quarter(axis, l, t);
        if mirror_reverses(axis, l) {
            let y = mirror_position(axis, quarter(l, t));
            lemma_turn_range(l, k, p);
            lemma_mirror_position(axis, quarter(l, t));
            lemma_turn_add(l2, 3, (3 * k - 3) as nat, mirror_position(axis, p));
            assert(turn(l2, 1, y) == quarter(l2, y)) by {
                reveal_with_fuel(turn, 2);
            }
            lemma_turn_add(l2, 3, 1, y);
            lemma_turn_four(l2, y);
        }
    }
}

/// One move, reflected: the mirror image of the move takes the reflection
/// of each position to the reflection of where the move takes it.
proof fn lemma_mirror_move(axis: Mirror, m: Move, p: int)
    requires
        0 <= p < 54,
    ensures
        move_sticker(mirror_move(axis, m), mirror_position(axis, p)) == mirror_position(axis, move_sticker(m, p)),
{
    let l = m.layer;
    let l2 = mirror_layer(axis, l);
    let k = order_turns(m.order);
    let x = mirror_position(axis, p);
    lemma_mirror_position(axis, p);
    lemma_mirror_turn(axis, l, k, p);
    assert(mirror_move(axis, m).layer == l2);
    if mirror_reverses(axis, l) {
        assert(mirror_move(axis, m).order == reverse_order(m.order));
        if k == 2 {
            lemma_turn_add(l2, 2, 4, x);
            lemma_turn_four(l2, x);
        } else if k == 3 {
            lemma_turn_add(l2, 1, 8, x);
            lemma_turn_add(l2, 4, 4, x);
            lemma_turn_four(l2, x);
            lemma_turn_range(l2, 4, x);
            lemma_turn_four(l2, turn(l2, 4, x));
        }
    } else {
        assert(mirror_move(axis, m) == m || mirror_move(axis, m).order == m.order);
    }
}

/// A mirrored move sequence is the reflection of the sequence: it takes
/// the reflection of each sticker position to the reflection of the
/// position where the sequence takes it. So a mirror variant of an
/// algorithm solves the mirror images of the cases the algorithm solves.
pub proof fn lemma_mirror_moves_reflect(axis: Mirror, ms: Seq<Move>, p: int)
    requires
        0 <= p < 54,
    ensures
        pos_after(mirror_moves(axis, ms), mirror_position(axis, p)) == mirror_position(axis, pos_after(ms, p)),
    decreases ms.len(),
{
    if ms.len() > 0 {
        let init = ms.drop_last();
        let mm = mirror_moves(axis, ms);
        assert(mm.drop_last() =~= mirror_moves(axis, init));
        assert(mm.last() == mirror_move(axis, ms.last()));
        lemma_mirror_moves_reflect(axis, init, p);
        lemma_pos_after_range(init, p);
        lemma_mirror_move(axis, ms.last(), pos_after(init, p));
    }
}

impl Alg {
    /// The algorithm named `name` that makes `moves`.
    pub fn from_moves(name: String, moves: Vec<Move>, mirror: bool, invert: bool) -> (a: Alg)
        ensures
            is_alg(a, name@, moves@, mirror, invert),
    {
        let transform = Transform::from_moves(&moves);
        Alg { name, moves, transform, mirror, invert }
    }

    /// An algorithm equal to this one.
    pub fn duplicate(&self) -> (r: Alg)
        ensures
            alg_view(r) == alg_view(*self),
            r.transform@ == self.transform@,
    {
        let mut moves: Vec<Move> = Vec::new();
        let n = self.moves.len();
        let mut i: usize = 0;
        while i < n
            invariant
                i <= n,
                n == self.moves@.len(),
                moves@ == self.moves@.take(i as int),
            decreases n - i,
        {
            moves.push(self.moves[i]);
            assert(moves@ =~= self.moves@.take(i + 1));
            i = i + 1;
        }
        assert(self.moves@.take(n as int) =~= self.moves@);
        Alg {
            name: self.name.clone(),
            moves,
            transform: self.transform.duplicate(),
            mirror: self.mirror,
            invert: self.invert,
        }
    }

    /// The inverse of this algorithm: its moves undone in reverse order,
    /// with the same name and mirror flag and the opposite inverse flag.
    pub fn invert(&self) -> (r: Alg)
        ensures
            is_alg(r, self.name@, inverse_moves(self.moves@), self.mirror, !self.invert),
    {
        let moves = crate::moves::invert_moves(&self.moves);
        Alg::from_moves(self.name.clone(), moves, self.mirror, !self.invert)
    }

    /// The mirror image of this algorithm in `axis`, with the mirror flag
    /// turned over.
    pub fn mirrored(&self, axis: Mirror) -> (r: Alg)
        ensures
            is_alg(r, self.name@, mirror_moves(axis, self.moves@), !self.mirror, self.invert),
    {
        let mut moves: Vec<Move> = Vec::new();
        let n = self.moves.len();
        let mut i: usize = 0;
        while i < n
            invariant
                i <= n,
                n == self.moves@.len(),
                moves@.len() == i,
                forall|k: int| 0 <= k < i ==> moves@[k] == mirror_move(axis, self.moves@[k]),
            decreases n - i,
        {
            moves.push(mirror_move_exec(axis, self.moves[i]));
            i = i + 1;
        }
        assert(moves@ =~= mirror_moves(axis, self.moves@));
        Alg::from_moves(self.name.clone(), moves, !self.mirror, self.invert)
    }

    /// The name shown for this algorithm.
    pub fn get_full_name(&self) -> (r: String)
        ensures
            r@ == full_name(self.name@, self.mirror, self.invert),
    {
        let name = self.name.clone();
        if self.mirror && self.invert {
            name.concat(" (mirror inverse)")
        } else if self.mirror {
            name.concat(" (mirror)")
        } else if self.invert {
            name.concat(" (inverse)")
        } else {
            name
        }
    }
}

/// The algorithms that one list entry stands for: the entry's moves, and
/// the inverse and mirror variants that it asks for (see `variant_specs`),
/// all named `name`. When `moves` cannot be read, the error is the one that
/// `parse_moves` gives.
pub fn create_algset(name: &str, moves: &str, mirror: Option<Mirror>, invert: bool) -> (r: Result<Vec<Alg>, String>)
    ensures
        read_moves(moves@, 0).1 != moves@.len() ==> (r matches Err(msg)
            && msg@ == parse_error_message(moves@, read_moves(moves@, 0).1 as nat)),
        read_moves(moves@, 0).1 == moves@.len() ==> (r matches Ok(algs) && {
            let specs = variant_specs(read_moves(moves@, 0).0, mirror, invert);
            &&& algs@.len() == specs.len()
            &&& forall|i: int| 0 <= i < specs.len() ==> is_alg(#[trigger] algs@[i], name@, specs[i].0, specs[i].1, specs[i].2)
        }),
{
    let ms = match parse_moves(moves) {
        Ok(ms) => ms,
        Err(msg) => {
            return Err(msg);
        },
    };
    let ghost specs = variant_specs(ms@, mirror, invert);
    let base = Alg::from_moves(String::from_str(name), ms, false, false);
    let mut algs: Vec<Alg> = Vec::new();
    if invert {
        let inv = base.invert();
        algs.push(base);
        algs.push(inv);
    } else {
        algs.push(base);
    }
    match mirror {
        Some(axis) => {
            let m = algs[0].mirrored(axis);
            if invert {
                let mi = m.invert();
                algs.push(m);
                algs.push(mi);
            } else {
                algs.push(m);
            }
        },
        None => {},
    }
    assert(algs@.len() == specs.len());
    Ok(algs)
}


// ---------------------------------------------------------------------------
// Laws.

/// Mirroring twice in the same plane gives the moves back.
pub proof fn lemma_mirror_twice(axis: Mirror, ms: Seq<Move>)
    ensures
        mirror_moves(axis, mirror_moves(axis, ms)) == ms,
{
    assert(mirror_moves(axis, mirror_moves(axis, ms)) =~= ms);
}

/// The inverse of a mirror image is the mirror image of the inverse: the
/// mirror-inverse variant does not depend on the order of the two steps.
pub proof fn lemma_mirror_inverse_commute(axis: Mirror, ms: Seq<Move>)
    ensures
        inverse_moves(mirror_moves(axis, ms)) == mirror_moves(axis, inverse_moves(ms)),
{
    assert(inverse_moves(mirror_moves(axis, ms)) =~= mirror_moves(axis, inverse_moves(ms)));
}

/// Inverting an algorithm twice gives back its name, moves and flags, and
/// the transform of its moves.
pub proof fn lemma_invert_twice(a: Alg, r1: Alg, r2: Alg)
    requires
        is_alg(r1, a.name@, inverse_moves(a.moves@), a.mirror, !a.invert),
        is_alg(r2, r1.name@, inverse_moves(r1.moves@), r1.mirror, !r1.invert),
    ensures
        is_alg(r2, a.name@, a.moves@, a.mirror, a.invert),
        full_name(r2.name@, r2.mirror, r2.invert) == full_name(a.name@, a.mirror, a.invert),
{
    assert(inverse_moves(inverse_moves(a.moves@)) =~= a.moves@);
}

} // verus!
