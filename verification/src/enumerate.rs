//! Last-layer cases: states of the cube in which only the U layer is
//! unsolved, one for each class of states that differ by the U turns made
//! before and after solving them.
use vstd::prelude::*;
use std::collections::HashSet;
use crate::search::do_auf;
use crate::pieces::{is_corner_pos, is_edge_pos, lemma_pos_after_pieces, next_sticker, partner};
use crate::moves::Move;
use crate::cube::{
    Cube, apply_state, auf_moves, is_last_layer_label, is_last_layer_state, ll_index_of, ll_indices, moves_state,
    pos_after, solved_state, top_label, valid_state,
};

verus! {

broadcast use vstd::std_specs::hash::group_hash_axioms;

/// The sticker labels of the four last-layer edges: U-face sticker, then
/// side sticker (UB, UL, UR, UF).
pub open spec fn edge_label(k: int) -> int {
    if k == 0 { 1 } else if k == 1 { 52 } else if k == 2 { 3 } else if k == 3 { 41 }
    else if k == 4 { 5 } else if k == 5 { 14 } else if k == 6 { 7 } else { 25 }
}

/// The sticker labels of the four last-layer corners, each U-face sticker
/// first and the other two in turning order (ULB, URB, ULF, URF).
pub open spec fn corner_label(k: int) -> int {
    if k == 0 { 0 } else if k == 1 { 38 } else if k == 2 { 51 }
    else if k == 3 { 2 } else if k == 4 { 53 } else if k == 5 { 11 }
    else if k == 6 { 6 } else if k == 7 { 24 } else if k == 8 { 44 }
    else if k == 9 { 8 } else if k == 10 { 17 } else { 26 }
}

/// A last-layer case.
#[derive(Debug, Clone)]
pub struct Case {
    /// Its number in the case list.
    pub index: usize,
    /// The index of its state (see `crate::cube::ll_index_of`).
    pub ll_index: u64,
    /// Where each of the eight edge stickers of the last layer is
    /// (in the order of `edge_label`).
    pub edges: Vec<u8>,
    /// Where each of the twelve corner stickers of the last layer is
    /// (in the order of `corner_label`).
    pub corners: Vec<u8>,
}

impl Case {
    /// Eight edge positions and twelve corner positions, each a sticker
    /// position.
    pub open spec fn wf(&self) -> bool {
        &&& self.edges@.len() == 8
        &&& self.corners@.len() == 12
        &&& forall|k: int| 0 <= k < 8 ==> self.edges@[k] < 54
        &&& forall|k: int| 0 <= k < 12 ==> self.corners@[k] < 54
    }

    /// The case's stickers sit as whole pieces: each edge's second sticker
    /// is at the partner of its first, and each corner's stickers follow
    /// one another in turning order.
    pub open spec fn rigid(&self) -> bool {
        &&& forall|k: int| 0 <= k < 4 ==> #[trigger] self.edges@[2 * k + 1] == partner(self.edges@[2 * k] as int)
        &&& forall|k: int| 0 <= k < 4 ==> #[trigger] self.corners@[3 * k + 1] == next_sticker(self.corners@[3 * k] as int)
        &&& forall|k: int| 0 <= k < 4 ==> #[trigger] self.corners@[3 * k + 2] == next_sticker(self.corners@[3 * k + 1] as int)
    }

    /// Whether the case belongs to ZBLL: all four edges oriented, that is,
    /// every edge's U-face sticker on the U face.
    pub open spec fn spec_is_zbll(&self) -> bool {
        &&& self.edges@.len() == 8
        &&& forall|k: int| 0 <= k < 4 ==> #[trigger] self.edges@[2 * k] < 9
    }

    /// Whether the case belongs to ZBLL (all edges oriented).
    pub fn is_zbll(&self) -> (r: bool)
        ensures
            r == self.spec_is_zbll(),
    {
        if self.edges.len() != 8 {
            return false;
        }
        let mut k: usize = 0;
        while k < 4
            invariant
                k <= 4,
                self.edges@.len() == 8,
                forall|i: int| 0 <= i < k ==> #[trigger] self.edges@[2 * i] < 9,
            decreases 4 - k,
        {
            if self.edges[2 * k] >= 9 {
                assert(!(self.edges@[2 * (k as int)] < 9));
                return false;
            }
            k = k + 1;
        }
        true
    }
}


/// The two stickers of each last-layer edge are partners.
pub proof fn lemma_edge_labels(k: int)
    requires
        0 <= k < 4,
    ensures
        is_edge_pos(edge_label(2 * k)),
        is_edge_pos(edge_label(2 * k + 1)),
        partner(edge_label(2 * k)) == edge_label(2 * k + 1),
        partner(edge_label(2 * k + 1)) == edge_label(2 * k),
{
    crate::cube::lemma_coord(edge_label(2 * k));
    crate::cube::lemma_coord(edge_label(2 * k + 1));
}

/// The three stickers of each last-layer corner follow one another in
/// turning order.
pub proof fn lemma_corner_labels(k: int, r: int)
    requires
        0 <= k < 4,
        0 <= r < 3,
    ensures
        is_corner_pos(corner_label(3 * k + r)),
        next_sticker(corner_label(3 * k + r)) == corner_label(3 * k + (r + 1) % 3),
{
    crate::cube::lemma_coord(corner_label(3 * k + r));
    crate::cube::lemma_coord(corner_label(3 * k + (r + 1) % 3));
}

/// A corner's stickers taken from any of them follow one another in
/// turning order.
proof fn lemma_corner_turn(k: int, t: int)
    requires
        0 <= k < 4,
        0 <= t < 3,
    ensures
        next_sticker(corner_label(3 * k + t)) == corner_label(3 * k + (1 + t) % 3),
        next_sticker(corner_label(3 * k + (1 + t) % 3)) == corner_label(3 * k + (2 + t) % 3),
{
    lemma_corner_labels(k, t);
    lemma_corner_labels(k, (1 + t) % 3);
    assert(((1 + t) % 3 + 1) % 3 == (2 + t) % 3);
}

/// Which edge sticker of the last layer `l` is (its place in `edge_label`),
/// or -1.
pub open spec fn edge_slot(l: int) -> int {
    if l == 1 { 0 } else if l == 52 { 1 } else if l == 3 { 2 } else if l == 41 { 3 }
    else if l == 5 { 4 } else if l == 14 { 5 } else if l == 7 { 6 } else if l == 25 { 7 } else { -1 }
}

/// Which corner sticker of the last layer `l` is (its place in
/// `corner_label`), or -1.
pub open spec fn corner_slot(l: int) -> int {
    if l == 0 { 0 } else if l == 38 { 1 } else if l == 51 { 2 }
    else if l == 2 { 3 } else if l == 53 { 4 } else if l == 11 { 5 }
    else if l == 6 { 6 } else if l == 24 { 7 } else if l == 44 { 8 }
    else if l == 8 { 9 } else if l == 17 { 10 } else if l == 26 { 11 } else { -1 }
}

/// The cube state of a case: the solved cube with its last-layer stickers
/// where the case puts them.
pub open spec fn case_state(c: Case) -> Seq<int> {
    Seq::new(54, |l: int|
        if edge_slot(l) >= 0 {
            c.edges@[edge_slot(l)] as int
        } else if corner_slot(l) >= 0 {
            c.corners@[corner_slot(l)] as int
        } else {
            l
        })
}

/// The state `s` after AUF `a` made on it (none for `a` outside 1..4).
pub open spec fn pre_auf(s: Seq<int>, a: int) -> Seq<int> {
    if 1 <= a <= 3 {
        apply_state(s, moves_state(auf_moves(a)))
    } else {
        s
    }
}

/// The index of `c` is the least index of the states that differ from its
/// state by AUFs made before or after.
pub open spec fn is_canonical(c: Case) -> bool {
    forall|a: int, j: int| 0 <= a < 4 && 0 <= j < ll_indices(pre_auf(case_state(c), a)).len()
        ==> c.ll_index <= #[trigger] ll_indices(pre_auf(case_state(c), a))[j]
}

pub fn edge_label_exec(k: usize) -> (r: usize)
    requires
        k < 8,
    ensures
        r as int == edge_label(k as int),
        r < 54,
{
    match k {
        0 => 1,
        1 => 52,
        2 => 3,
        3 => 41,
        4 => 5,
        5 => 14,
        6 => 7,
        _ => 25,
    }
}

pub fn corner_label_exec(k: usize) -> (r: usize)
    requires
        k < 12,
    ensures
        r as int == corner_label(k as int),
        r < 54,
{
    match k {
        0 => 0,
        1 => 38,
        2 => 51,
        3 => 2,
        4 => 53,
        5 => 11,
        6 => 6,
        7 => 24,
        8 => 44,
        9 => 8,
        10 => 17,
        _ => 26,
    }
}

/// The cube in the state of case `c`.
pub fn case_cube(c: &Case) -> (cube: Cube)
    requires
        c.wf(),
    ensures
        cube@ == case_state(*c),
{
    let mut cube = Cube::new();
    let mut k: usize = 0;
    while k < 8
        invariant
            k <= 8,
            c.wf(),
            cube@.len() == 54,
            forall|l: int| 0 <= l < 54 ==> #[trigger] cube@[l] == (
                if 0 <= edge_slot(l) < k {
                    c.edges@[edge_slot(l)] as int
                } else {
                    l
                }),
        decreases 8 - k,
    {
        cube.set_sticker(edge_label_exec(k), c.edges[k]);
        k = k + 1;
    }
    let mut k: usize = 0;
    while k < 12
        invariant
            k <= 12,
            c.wf(),
            cube@.len() == 54,
            forall|l: int| 0 <= l < 54 ==> #[trigger] cube@[l] == (
                if edge_slot(l) >= 0 {
                    c.edges@[edge_slot(l)] as int
                } else if 0 <= corner_slot(l) < k {
                    c.corners@[corner_slot(l)] as int
                } else {
                    l
                }),
        decreases 12 - k,
    {
        cube.set_sticker(corner_label_exec(k), c.corners[k]);
        k = k + 1;
    }
    assert(cube@ =~= case_state(*c));
    cube
}


/// The state of a well-formed case is a cube state.
pub proof fn lemma_case_state_valid(c: Case)
    requires
        c.wf(),
    ensures
        valid_state(case_state(c)),
{
    assert forall|l: int| 0 <= l < 54 implies 0 <= #[trigger] case_state(c)[l] < 54 by {
        if edge_slot(l) >= 0 {
            assert(c.edges@[edge_slot(l)] < 54);
        } else if corner_slot(l) >= 0 {
            assert(c.corners@[corner_slot(l)] < 54);
        }
    }
}

/// In state `s` the last-layer pieces are whole: each edge's second sticker
/// is at the partner of its first, and each corner's stickers follow one
/// another in turning order.
pub open spec fn ll_pieces_whole(s: Seq<int>) -> bool {
    &&& forall|k: int| 0 <= k < 4 ==> #[trigger] s[edge_label(2 * k + 1)] == partner(s[edge_label(2 * k)])
    &&& forall|k: int| 0 <= k < 4 ==> #[trigger] s[corner_label(3 * k + 1)] == next_sticker(s[corner_label(3 * k)])
    &&& forall|k: int| 0 <= k < 4 ==> #[trigger] s[corner_label(3 * k + 2)] == next_sticker(s[corner_label(3 * k + 1)])
}

proof fn lemma_moves_state_edge(ms: Seq<Move>, k: int)
    requires
        0 <= k < 4,
    ensures
        moves_state(ms)[edge_label(2 * k + 1)] == partner(moves_state(ms)[edge_label(2 * k)]),
{
    lemma_edge_labels(k);
    lemma_pos_after_pieces(ms, edge_label(2 * k));
    assert(moves_state(ms)[edge_label(2 * k)] == pos_after(ms, edge_label(2 * k)));
    assert(moves_state(ms)[edge_label(2 * k + 1)] == pos_after(ms, edge_label(2 * k + 1)));
}

proof fn lemma_moves_state_corner(ms: Seq<Move>, k: int, r: int)
    requires
        0 <= k < 4,
        0 <= r < 2,
    ensures
        moves_state(ms)[corner_label(3 * k + r + 1)] == next_sticker(moves_state(ms)[corner_label(3 * k + r)]),
{
    let a = corner_label(3 * k + r);
    let b = corner_label(3 * k + r + 1);
    assert((r + 1) % 3 == r + 1);
    lemma_corner_labels(k, r);
    assert(is_corner_pos(a));
    assert(next_sticker(a) == b);
    lemma_pos_after_pieces(ms, a);
    assert(pos_after(ms, b) == next_sticker(pos_after(ms, a)));
    assert(0 <= a < 54 && 0 <= b < 54);
}

/// Any state that moves reach from the solved cube has its last-layer
/// pieces whole.
pub proof fn lemma_moves_state_whole(ms: Seq<Move>)
    ensures
        ll_pieces_whole(moves_state(ms)),
{
    assert forall|k: int| 0 <= k < 4 implies #[trigger] moves_state(ms)[edge_label(2 * k + 1)]
        == partner(moves_state(ms)[edge_label(2 * k)]) by {
        lemma_moves_state_edge(ms, k);
    }
    assert forall|k: int| 0 <= k < 4 implies #[trigger] moves_state(ms)[corner_label(3 * k + 1)]
        == next_sticker(moves_state(ms)[corner_label(3 * k)]) by {
        lemma_moves_state_corner(ms, k, 0);
    }
    assert forall|k: int| 0 <= k < 4 implies #[trigger] moves_state(ms)[corner_label(3 * k + 2)]
        == next_sticker(moves_state(ms)[corner_label(3 * k + 1)]) by {
        lemma_moves_state_corner(ms, k, 1);
    }
}

/// The state of a case made of whole pieces has its last-layer pieces
/// whole.
pub proof fn lemma_case_state_whole(c: Case)
    requires
        c.wf(),
        c.rigid(),
    ensures
        ll_pieces_whole(case_state(c)),
{
    let cs = case_state(c);
    assert forall|k: int| 0 <= k < 4 implies #[trigger] cs[edge_label(2 * k + 1)] == partner(cs[edge_label(2 * k)]) by {
        assert(edge_slot(edge_label(2 * k)) == 2 * k);
        assert(edge_slot(edge_label(2 * k + 1)) == 2 * k + 1);
        assert(c.edges@[2 * k + 1] == partner(c.edges@[2 * k] as int));
    }
    assert forall|k: int| 0 <= k < 4 implies #[trigger] cs[corner_label(3 * k + 1)] == next_sticker(cs[corner_label(3 * k)]) by {
        assert(edge_slot(corner_label(3 * k)) == -1 && corner_slot(corner_label(3 * k)) == 3 * k);
        assert(edge_slot(corner_label(3 * k + 1)) == -1 && corner_slot(corner_label(3 * k + 1)) == 3 * k + 1);
        assert(c.corners@[3 * k + 1] == next_sticker(c.corners@[3 * k] as int));
    }
    assert forall|k: int| 0 <= k < 4 implies #[trigger] cs[corner_label(3 * k + 2)] == next_sticker(cs[corner_label(3 * k + 1)]) by {
        assert(edge_slot(corner_label(3 * k + 1)) == -1 && corner_slot(corner_label(3 * k + 1)) == 3 * k + 1);
        assert(edge_slot(corner_label(3 * k + 2)) == -1 && corner_slot(corner_label(3 * k + 2)) == 3 * k + 2);
        assert(c.corners@[3 * k + 2] == next_sticker(c.corners@[3 * k + 1] as int));
    }
}

/// Two last-layer states whose last-layer pieces are whole, and whose
/// eight U-face stickers are at the same positions, are the same state:
/// where a piece's U-face sticker is fixes where its other stickers are.
pub proof fn lemma_same_ll_state(s1: Seq<int>, s2: Seq<int>)
    requires
        valid_state(s1),
        valid_state(s2),
        is_last_layer_state(s1),
        is_last_layer_state(s2),
        ll_pieces_whole(s1),
        ll_pieces_whole(s2),
        forall|q: int| 0 <= q < 8 ==> s1[top_label(q)] == s2[top_label(q)],
    ensures
        s1 == s2,
{
    assert forall|k: int| 0 <= k < 4 implies s1[#[trigger] edge_label(2 * k)] == s2[edge_label(2 * k)] by {
        let q = if k == 0 { 1int } else if k == 1 { 3int } else if k == 2 { 4int } else { 6int };
        assert(top_label(q) == edge_label(2 * k));
        assert(s1[top_label(q)] == s2[top_label(q)]);
    }
    assert forall|k: int| 0 <= k < 4 implies s1[#[trigger] corner_label(3 * k)] == s2[corner_label(3 * k)] by {
        let q = if k == 0 { 0int } else if k == 1 { 2int } else if k == 2 { 5int } else { 7int };
        assert(top_label(q) == corner_label(3 * k));
        assert(s1[top_label(q)] == s2[top_label(q)]);
    }
    assert forall|l: int| 0 <= l < 54 implies #[trigger] s1[l] == s2[l] by {
        if is_last_layer_label(l) {
            if edge_slot(l) >= 0 {
                let k = edge_slot(l) / 2;
                assert(s1[edge_label(2 * k + 1)] == partner(s1[edge_label(2 * k)]));
                assert(s2[edge_label(2 * k + 1)] == partner(s2[edge_label(2 * k)]));
            } else {
                assert(corner_slot(l) >= 0);
                let k = corner_slot(l) / 3;
                assert(s1[corner_label(3 * k + 1)] == next_sticker(s1[corner_label(3 * k)]));
                assert(s2[corner_label(3 * k + 1)] == next_sticker(s2[corner_label(3 * k)]));
                assert(s1[corner_label(3 * k + 2)] == next_sticker(s1[corner_label(3 * k + 1)]));
                assert(s2[corner_label(3 * k + 2)] == next_sticker(s2[corner_label(3 * k + 1)]));
            }
        }
    }
    assert(s1 =~= s2);
}

/// `c` is case number `k` of the list: well formed, made of whole pieces, a
/// last-layer state whose index it holds, and canonical among its AUF
/// variants.
pub open spec fn is_listed_case(c: Case, k: int) -> bool {
    &&& c.wf()
    &&& c.rigid()
    &&& c.index == k
    &&& is_last_layer_state(case_state(c))
    &&& c.ll_index == ll_index_of(case_state(c))
    &&& is_canonical(c)
}

/// The least of `xs` and `acc`.
pub open spec fn least_of(xs: Seq<u64>, acc: u64) -> u64
    decreases xs.len(),
{
    if xs.len() == 0 {
        acc
    } else {
        let m = least_of(xs.drop_last(), acc);
        if xs.last() < m {
            xs.last()
        } else {
            m
        }
    }
}

/// The least index of the states `s` after AUFs `0..a` made before, under
/// any final AUF; `u64::MAX` when there is none.
pub open spec fn class_least_upto(s: Seq<int>, a: nat) -> u64
    decreases a,
{
    if a == 0 {
        u64::MAX
    } else {
        least_of(ll_indices(pre_auf(s, a - 1)), class_least_upto(s, (a - 1) as nat))
    }
}

/// The least index of the states that differ from `s` by AUFs made before
/// or after; `u64::MAX` when none is a last-layer state.
pub open spec fn class_least(s: Seq<int>) -> u64 {
    class_least_upto(s, 4)
}

proof fn lemma_least_of(xs: Seq<u64>, acc: u64)
    ensures
        least_of(xs, acc) <= acc,
        forall|i: int| 0 <= i < xs.len() ==> least_of(xs, acc) <= #[trigger] xs[i],
    decreases xs.len(),
{
    if xs.len() > 0 {
        lemma_least_of(xs.drop_last(), acc);
        assert forall|i: int| 0 <= i < xs.len() implies least_of(xs, acc) <= #[trigger] xs[i] by {
            if i < xs.len() - 1 {
                assert(xs.drop_last()[i] == xs[i]);
            }
        }
    }
}

proof fn lemma_class_least_upto(s: Seq<int>, a: nat)
    ensures
        forall|b: int, j: int| 0 <= b < a && 0 <= j < ll_indices(pre_auf(s, b)).len()
            ==> class_least_upto(s, a) <= #[trigger] ll_indices(pre_auf(s, b))[j],
    decreases a,
{
    if a > 0 {
        lemma_class_least_upto(s, (a - 1) as nat);
        lemma_least_of(ll_indices(pre_auf(s, a - 1)), class_least_upto(s, (a - 1) as nat));
    }
}

/// The least index of the states that differ from `cube`'s by AUFs made
/// before or after; `u64::MAX` when none is a last-layer state.
fn least_index(cube: &Cube) -> (r: u64)
    ensures
        r == class_least(cube@),
        forall|a: int, j: int| 0 <= a < 4 && 0 <= j < ll_indices(pre_auf(cube@, a)).len()
            ==> r <= #[trigger] ll_indices(pre_auf(cube@, a))[j],
{
    proof {
        lemma_class_least_upto(cube@, 4);
    }
    let mut least: u64 = u64::MAX;
    let mut a: usize = 0;
    while a < 4
        invariant
            a <= 4,
            least == class_least_upto(cube@, a as nat),
        decreases 4 - a,
    {
        let mut variant = cube.copy();
        do_auf(&mut variant, a);
        assert(variant@ == pre_auf(cube@, a as int));
        let lls = variant.get_ll_indices();
        let ghost before = least;
        let mut j: usize = 0;
        while j < lls.len()
            invariant
                a < 4,
                j <= lls@.len(),
                lls@ == ll_indices(pre_auf(cube@, a as int)),
                before == class_least_upto(cube@, a as nat),
                least == least_of(lls@.take(j as int), before),
            decreases lls@.len() - j,
        {
            proof {
                let t = lls@.take(j + 1);
                assert(t.drop_last() =~= lls@.take(j as int));
                assert(t.last() == lls@[j as int]);
            }
            if lls[j] < least {
                least = lls[j];
            }
            j = j + 1;
        }
        assert(lls@.take(lls@.len() as int) =~= lls@);
        a = a + 1;
    }
    least
}

/// The permutation of 0..4 numbered `code` (0..24): its first value is
/// picked from 0..4 by `code / 6`, the second from the rest by
/// `(code % 6) / 2`, the third by `code % 2`, and the last is what remains.
pub open spec fn perm4_spec(code: int) -> Seq<usize> {
    let a0: Seq<usize> = seq![0, 1, 2, 3];
    let a1 = a0.remove(code / 6);
    let a2 = a1.remove((code % 6) / 2);
    let a3 = a2.remove(code % 2);
    seq![a0[code / 6], a1[(code % 6) / 2], a2[code % 2], a3[0]]
}

/// The permutation of 0..4 numbered `code` (see `perm4_spec`).
fn perm4(code: usize) -> (r: Vec<usize>)
    requires
        code < 24,
    ensures
        r@ == perm4_spec(code as int),
        r@.len() == 4,
        forall|i: int| 0 <= i < 4 ==> r@[i] < 4,
{
    let mut avail: Vec<usize> = vec![0, 1, 2, 3];
    let ghost a0 = avail@;
    assert(a0 =~= seq![0usize, 1, 2, 3]);
    let v0 = avail.remove(code / 6);
    let v1 = avail.remove((code % 6) / 2);
    let v2 = avail.remove(code % 2);
    let v3 = avail[0];
    let r = vec![v0, v1, v2, v3];
    assert(r@ =~= perm4_spec(code as int));
    r
}

/// The number of pairs of `p` (four values) out of order.
pub open spec fn inversions(p: Seq<usize>) -> int {
    (if p[0] > p[1] { 1int } else { 0 }) + (if p[0] > p[2] { 1int } else { 0 }) + (if p[0] > p[3] { 1int } else { 0 })
        + (if p[1] > p[2] { 1int } else { 0 }) + (if p[1] > p[3] { 1int } else { 0 }) + (if p[2] > p[3] { 1int } else { 0 })
}

/// Whether the permutation `p` of 0..4 is odd.
fn is_odd(p: &Vec<usize>) -> (r: bool)
    requires
        p@.len() == 4,
    ensures
        r == (inversions(p@) % 2 == 1),
{
    let mut n: usize = 0;
    if p[0] > p[1] {
        n = n + 1;
    }
    if p[0] > p[2] {
        n = n + 1;
    }
    if p[0] > p[3] {
        n = n + 1;
    }
    if p[1] > p[2] {
        n = n + 1;
    }
    if p[1] > p[3] {
        n = n + 1;
    }
    if p[2] > p[3] {
        n = n + 1;
    }
    n % 2 == 1
}

/// The flip of edge `i` given by `flips`: its bits for the first three
/// edges, and for the fourth whatever makes the total even.
pub open spec fn flip_of(flips: int, i: int) -> int {
    if i == 0 {
        flips % 2
    } else if i == 1 {
        (flips / 2) % 2
    } else if i == 2 {
        (flips / 4) % 2
    } else {
        (flips % 2 + (flips / 2) % 2 + (flips / 4) % 2) % 2
    }
}

/// The twist of corner `i` given by `twists`: its base-3 digits for the
/// first three corners, and for the fourth whatever makes the total a
/// multiple of three.
pub open spec fn twist_of(twists: int, i: int) -> int {
    let t0 = twists % 3;
    let t1 = (twists / 3) % 3;
    let t2 = (twists / 9) % 3;
    if i == 0 {
        t0
    } else if i == 1 {
        t1
    } else if i == 2 {
        t2
    } else {
        (6 - t0 - t1 - t2) % 3
    }
}

/// Where the eight edge stickers go: edge `i` to slot `ep[i]`, flipped
/// when its flip is 1.
pub open spec fn built_edges(ep: Seq<usize>, flips: int) -> Seq<int> {
    Seq::new(8, |k: int| {
        let i = k / 2;
        let f = flip_of(flips, i);
        if k % 2 == 0 {
            edge_label(2 * ep[i] + f)
        } else {
            edge_label(2 * ep[i] + (1 + f) % 2)
        }
    })
}

/// Where the twelve corner stickers go: corner `i` to slot `cp[i]`, turned
/// by its twist.
pub open spec fn built_corners(cp: Seq<usize>, twists: int) -> Seq<int> {
    Seq::new(12, |k: int| corner_label(3 * cp[k / 3] + (k % 3 + twist_of(twists, k / 3)) % 3))
}

/// The state with the edge stickers at `es` and the corner stickers at
/// `cs` (in the orders of `edge_label` and `corner_label`), every other
/// sticker at home.
pub open spec fn state_of(es: Seq<int>, cs: Seq<int>) -> Seq<int> {
    Seq::new(54, |l: int|
        if edge_slot(l) >= 0 {
            es[edge_slot(l)]
        } else if corner_slot(l) >= 0 {
            cs[corner_slot(l)]
        } else {
            l
        })
}

proof fn lemma_built_corner(cp: Seq<usize>, twists: int, i: int)
    requires
        0 <= i < 4,
        0 <= twist_of(twists, i) < 3,
    ensures
        built_corners(cp, twists)[3 * i] == corner_label(3 * cp[i] + twist_of(twists, i)),
        built_corners(cp, twists)[3 * i + 1] == corner_label(3 * cp[i] + (1 + twist_of(twists, i)) % 3),
        built_corners(cp, twists)[3 * i + 2] == corner_label(3 * cp[i] + (2 + twist_of(twists, i)) % 3),
{
    let t = twist_of(twists, i);
    assert((3 * i) / 3 == i && (3 * i) % 3 == 0);
    assert((3 * i + 1) / 3 == i && (3 * i + 1) % 3 == 1);
    assert((3 * i + 2) / 3 == i && (3 * i + 2) % 3 == 2);
    assert((0 + t) % 3 == t);
}

/// The last-layer state with edges placed by `ep` and flipped by the bits
/// of `flips`, corners placed by `cp` and twisted by the base-3 digits of
/// `twists`; the fourth flip and twist make the totals whole.
fn build_case(ep: &Vec<usize>, cp: &Vec<usize>, flips: usize, twists: usize, index: usize) -> (c: Case)
    requires
        ep@.len() == 4,
        cp@.len() == 4,
        forall|i: int| 0 <= i < 4 ==> ep@[i] < 4,
        forall|i: int| 0 <= i < 4 ==> cp@[i] < 4,
    ensures
        c.wf(),
        c.rigid(),
        c.index == index,
        case_state(c) == state_of(built_edges(ep@, flips as int), built_corners(cp@, twists as int)),
{
    let f = [flips % 2, (flips / 2) % 2, (flips / 4) % 2, (flips % 2 + (flips / 2) % 2 + (flips / 4) % 2) % 2];
    let t0 = twists % 3;
    let t1 = (twists / 3) % 3;
    let t2 = (twists / 9) % 3;
    let t = [t0, t1, t2, (6 - t0 - t1 - t2) % 3];
    let ghost be = built_edges(ep@, flips as int);
    let ghost bc = built_corners(cp@, twists as int);
    assert(forall|k: int| 0 <= k < 4 ==> f@[k] == flip_of(flips as int, k));
    assert(forall|k: int| 0 <= k < 4 ==> t@[k] == twist_of(twists as int, k));
    let mut edges: Vec<u8> = Vec::new();
    let mut i: usize = 0;
    while i < 4
        invariant
            i <= 4,
            ep@.len() == 4,
            forall|k: int| 0 <= k < 4 ==> ep@[k] < 4,
            forall|k: int| 0 <= k < 4 ==> f@[k] < 2,
            forall|k: int| 0 <= k < 4 ==> f@[k] == flip_of(flips as int, k),
            be == built_edges(ep@, flips as int),
            forall|k: int| 0 <= k < 2 * i ==> edges@[k] as int == be[k],
            edges@.len() == 2 * i,
            forall|k: int| 0 <= k < edges@.len() ==> edges@[k] < 54,
            forall|k: int| 0 <= k < i ==> #[trigger] edges@[2 * k + 1] == partner(edges@[2 * k] as int),
        decreases 4 - i,
    {
        let slot = ep[i];
        proof {
            lemma_edge_labels(slot as int);
        }
        edges.push(edge_label_exec(2 * slot + f[i]) as u8);
        edges.push(edge_label_exec(2 * slot + (1 + f[i]) % 2) as u8);
        assert(edges@[2 * (i as int) + 1] == partner(edges@[2 * (i as int)] as int));
        assert(edges@[2 * (i as int)] as int == be[2 * (i as int)]);
        assert(edges@[2 * (i as int) + 1] as int == be[2 * (i as int) + 1]);
        i = i + 1;
    }
    let mut corners: Vec<u8> = Vec::new();
    let mut i: usize = 0;
    while i < 4
        invariant
            i <= 4,
            cp@.len() == 4,
            forall|k: int| 0 <= k < 4 ==> cp@[k] < 4,
            forall|k: int| 0 <= k < 4 ==> t@[k] < 3,
            forall|k: int| 0 <= k < 4 ==> t@[k] == twist_of(twists as int, k),
            bc == built_corners(cp@, twists as int),
            forall|k: int| 0 <= k < 3 * i ==> corners@[k] as int == bc[k],
            corners@.len() == 3 * i,
            forall|k: int| 0 <= k < corners@.len() ==> corners@[k] < 54,
            forall|k: int| 0 <= k < i ==> #[trigger] corners@[3 * k + 1] == next_sticker(corners@[3 * k] as int)
                && corners@[3 * k + 2] == next_sticker(corners@[3 * k + 1] as int),
        decreases 4 - i,
    {
        let slot = cp[i];
        let ti = t[i];
        let a = corner_label_exec(3 * slot + ti);
        let b = corner_label_exec(3 * slot + (1 + ti) % 3);
        let c = corner_label_exec(3 * slot + (2 + ti) % 3);
        proof {
            lemma_corner_turn(slot as int, ti as int);
        }
        let ghost before = corners@;
        corners.push(a as u8);
        corners.push(b as u8);
        corners.push(c as u8);
        proof {
            assert(corners@[3 * (i as int)] == a && corners@[3 * (i as int) + 1] == b && corners@[3 * (i as int) + 2] == c);
            lemma_built_corner(cp@, twists as int, i as int);
            assert forall|k: int| 0 <= k < 3 * i + 3 implies corners@[k] as int == bc[k] by {
                if k < 3 * i {
                    assert(corners@[k] == before[k]);
                }
            }
            assert forall|k: int| 0 <= k < i implies #[trigger] corners@[3 * k + 1] == next_sticker(corners@[3 * k] as int)
                && corners@[3 * k + 2] == next_sticker(corners@[3 * k + 1] as int) by {
                assert(corners@[3 * k] == before[3 * k]);
                assert(corners@[3 * k + 1] == before[3 * k + 1]);
                assert(corners@[3 * k + 2] == before[3 * k + 2]);
            }
        }
        i = i + 1;
    }
    let c = Case { index, ll_index: 0, edges, corners };
    assert(case_state(c) =~= state_of(be, bc));
    c
}

/// The indices of the cases `cs`.
pub open spec fn listed_indices(cs: Seq<Case>) -> Set<u64> {
    Set::new(|v: u64| exists|k: int| 0 <= k < cs.len() && cs[k].ll_index == v)
}

/// No two of the cases `cs` have the same index.
pub open spec fn distinct_indices(cs: Seq<Case>) -> bool {
    forall|i: int, j: int| 0 <= i < j < cs.len() ==> (#[trigger] cs[i]).ll_index != (#[trigger] cs[j]).ll_index
}

/// The list `cs` so far: each case listed as its position says, no index
/// twice, and `seen` holding their indices.
pub open spec fn listing(cs: Seq<Case>, seen: Set<u64>) -> bool {
    &&& forall|k: int| 0 <= k < cs.len() ==> is_listed_case(#[trigger] cs[k], k)
    &&& distinct_indices(cs)
    &&& seen == listed_indices(cs)
}

/// `a` is the start of `b`.
pub open spec fn is_prefix(a: Seq<Case>, b: Seq<Case>) -> bool {
    a.len() <= b.len() && forall|k: int| 0 <= k < a.len() ==> b[k] == a[k]
}

/// The class of state `st` is listed in `cs` when `st` is a last-layer
/// state that is the canonical state of its class and not an AUF away from
/// solved.
pub open spec fn state_listed(cs: Seq<Case>, st: Seq<int>) -> bool {
    is_last_layer_state(st) && ll_index_of(st) == class_least(st) as int && class_least(st) != class_least(
        solved_state())
        ==> listed_indices(cs).contains(class_least(st))
}

/// The state built from edge permutation `e`, corner permutation `c`, flips
/// `f` and twists `t`.
pub open spec fn tuple_state(e: int, c: int, f: int, t: int) -> Seq<int> {
    state_of(built_edges(perm4_spec(e), f), built_corners(perm4_spec(c), t))
}

/// The edge and corner permutations numbered `e` and `c` have the same
/// parity.
pub open spec fn same_parity(e: int, c: int) -> bool {
    (inversions(perm4_spec(e)) % 2 == 1) == (inversions(perm4_spec(c)) % 2 == 1)
}

/// The place of the choices (`e`, `c`, `f`, `t`) in the order they are
/// tried.
pub open spec fn tuple_code(e: int, c: int, f: int, t: int) -> int {
    ((e * 24 + c) * 8 + f) * 27 + t
}

/// The state of case `c` is built from some choices tried (with
/// permutations of the same parity).
pub open spec fn from_choices(c: Case) -> bool {
    exists|e: int, c2: int, f: int, t: int| #![trigger tuple_state(e, c2, f, t)]
        0 <= e < 24 && 0 <= c2 < 24 && 0 <= f < 8 && 0 <= t < 27 && same_parity(e, c2)
            && case_state(c) == tuple_state(e, c2, f, t)
}

/// Every state built from choices tried before place `n` (with permutations
/// of the same parity) has its class listed in `cs`.
pub open spec fn listed_below(cs: Seq<Case>, n: int) -> bool {
    forall|e: int, c: int, f: int, t: int|
        0 <= e < 24 && 0 <= c < 24 && 0 <= f < 8 && 0 <= t < 27 && tuple_code(e, c, f, t) < n && same_parity(e, c)
            ==> state_listed(cs, #[trigger] tuple_state(e, c, f, t))
}

proof fn lemma_listed_grows(cs: Seq<Case>, cs2: Seq<Case>, n: int)
    requires
        listed_below(cs, n),
        is_prefix(cs, cs2),
    ensures
        listed_below(cs2, n),
{
    assert forall|v: u64| listed_indices(cs).contains(v) implies listed_indices(cs2).contains(v) by {
        let k = choose|k: int| 0 <= k < cs.len() && cs[k].ll_index == v;
        assert(cs2[k] == cs[k]);
    }
}

proof fn lemma_listed_step(cs: Seq<Case>, e: int, c: int, f: int, t: int)
    requires
        0 <= e < 24,
        0 <= c < 24,
        0 <= f < 8,
        0 <= t < 27,
        listed_below(cs, tuple_code(e, c, f, t)),
        state_listed(cs, tuple_state(e, c, f, t)),
    ensures
        listed_below(cs, tuple_code(e, c, f, t) + 1),
{
    assert forall|e2: int, c2: int, f2: int, t2: int|
        0 <= e2 < 24 && 0 <= c2 < 24 && 0 <= f2 < 8 && 0 <= t2 < 27 && tuple_code(e2, c2, f2, t2) < tuple_code(e, c, f, t) + 1
            && same_parity(e2, c2) implies state_listed(cs, #[trigger] tuple_state(e2, c2, f2, t2)) by {
        if tuple_code(e2, c2, f2, t2) == tuple_code(e, c, f, t) {
            assert(e2 == e && c2 == c && f2 == f && t2 == t);
        }
    }
}

proof fn lemma_listed_skip(cs: Seq<Case>, e: int, c: int)
    requires
        0 <= e < 24,
        0 <= c < 24,
        listed_below(cs, tuple_code(e, c, 0, 0)),
        !same_parity(e, c),
    ensures
        listed_below(cs, tuple_code(e, c + 1, 0, 0)),
{
    assert forall|e2: int, c2: int, f2: int, t2: int|
        0 <= e2 < 24 && 0 <= c2 < 24 && 0 <= f2 < 8 && 0 <= t2 < 27 && tuple_code(e2, c2, f2, t2) < tuple_code(e, c + 1, 0, 0)
            && same_parity(e2, c2) implies state_listed(cs, #[trigger] tuple_state(e2, c2, f2, t2)) by {
        if tuple_code(e2, c2, f2, t2) >= tuple_code(e, c, 0, 0) {
            assert(e2 == e && c2 == c);
        }
    }
}

/// The choices (`e`, `c`, `f`, `t`) are among those tried: in range, with
/// permutations of the same parity.
pub open spec fn tried(e: int, c: int, f: int, t: int) -> bool {
    0 <= e < 24 && 0 <= c < 24 && 0 <= f < 8 && 0 <= t < 27 && same_parity(e, c)
}

/// The choices `p` are tried, build the state `st`, and are the first tried
/// that build it.
pub open spec fn first_built(st: Seq<int>, p: (int, int, int, int)) -> bool {
    &&& tried(p.0, p.1, p.2, p.3)
    &&& tuple_state(p.0, p.1, p.2, p.3) == st
    &&& forall|e: int, c: int, f: int, t: int| tried(e, c, f, t) && tuple_code(e, c, f, t) < tuple_code(p.0, p.1, p.2, p.3)
        ==> #[trigger] tuple_state(e, c, f, t) != st
}

/// The cases `cs` come in the order in which their states are first built:
/// case `k` is first built from the choices `p[k]`, and these come in the
/// order they are tried.
pub open spec fn listed_in_order(cs: Seq<Case>, p: Seq<(int, int, int, int)>) -> bool {
    &&& p.len() == cs.len()
    &&& forall|k: int| 0 <= k < cs.len() ==> first_built(case_state(#[trigger] cs[k]), p[k])
    &&& forall|i: int, j: int| 0 <= i < j < cs.len() ==> tuple_code((#[trigger] p[i]).0, p[i].1, p[i].2, p[i].3)
        < tuple_code((#[trigger] p[j]).0, p[j].1, p[j].2, p[j].3)
}

/// The state `st` is one whose class is to be listed, and `cs` does not list
/// it yet.
pub open spec fn unlisted(cs: Seq<Case>, st: Seq<int>) -> bool {
    &&& is_last_layer_state(st)
    &&& ll_index_of(st) == class_least(st) as int
    &&& class_least(st) != class_least(solved_state())
    &&& !listed_indices(cs).contains(class_least(st))
}

/// After the choices (`e`, `c`, `f`, `t`) are considered, the list is still
/// in order, the new case (if any) first built from them.
proof fn lemma_order_step(
    before: Seq<Case>,
    after: Seq<Case>,
    p: Seq<(int, int, int, int)>,
    e: int,
    c: int,
    f: int,
    t: int,
) -> (q: Seq<(int, int, int, int)>)
    requires
        listed_in_order(before, p),
        forall|k: int| 0 <= k < p.len() ==> tuple_code((#[trigger] p[k]).0, p[k].1, p[k].2, p[k].3) < tuple_code(e, c, f, t),
        tried(e, c, f, t),
        listed_below(before, tuple_code(e, c, f, t)),
        is_prefix(before, after),
        after.len() <= before.len() + 1,
        after.len() == before.len() + 1 ==> case_state(after[before.len() as int]) == tuple_state(e, c, f, t)
            && unlisted(before, tuple_state(e, c, f, t)),
    ensures
        listed_in_order(after, q),
        forall|k: int| 0 <= k < q.len() ==> tuple_code((#[trigger] q[k]).0, q[k].1, q[k].2, q[k].3) < tuple_code(e, c, f, t) + 1,
{
    let q = if after.len() > before.len() {
        p.push((e, c, f, t))
    } else {
        p
    };
    let st = tuple_state(e, c, f, t);
    assert forall|k: int| 0 <= k < after.len() implies first_built(case_state(#[trigger] after[k]), q[k]) by {
        if k < before.len() {
            assert(after[k] == before[k]);
            assert(q[k] == p[k]);
        } else {
            assert(q[k] == (e, c, f, t));
            assert forall|e2: int, c2: int, f2: int, t2: int| tried(e2, c2, f2, t2) && tuple_code(e2, c2, f2, t2)
                < tuple_code(e, c, f, t) implies #[trigger] tuple_state(e2, c2, f2, t2) != st by {
                if tuple_state(e2, c2, f2, t2) == st {
                    assert(state_listed(before, tuple_state(e2, c2, f2, t2)));
                }
            }
        }
    }
    assert forall|i: int, j: int| 0 <= i < j < after.len() implies tuple_code((#[trigger] q[i]).0, q[i].1, q[i].2, q[i].3)
        < tuple_code((#[trigger] q[j]).0, q[j].1, q[j].2, q[j].3) by {
        assert(q[i] == p[i]);
        if j < before.len() {
            assert(q[j] == p[j]);
        }
    }
    q
}

/// Adds the state built from these choices to `out` when it is the
/// canonical state of its class, not an AUF away from solved, and not
/// listed yet.
fn consider(
    out: &mut Vec<Case>,
    seen: &mut HashSet<u64>,
    ep: &Vec<usize>,
    cp: &Vec<usize>,
    flips: usize,
    twists: usize,
    solved_least: u64,
)
    requires
        ep@.len() == 4,
        cp@.len() == 4,
        forall|i: int| 0 <= i < 4 ==> ep@[i] < 4,
        forall|i: int| 0 <= i < 4 ==> cp@[i] < 4,
        listing(old(out)@, old(seen)@),
        solved_least == class_least(solved_state()),
    ensures
        listing(final(out)@, final(seen)@),
        is_prefix(old(out)@, final(out)@),
        state_listed(final(out)@, state_of(built_edges(ep@, flips as int), built_corners(cp@, twists as int))),
        forall|k: int| old(out)@.len() <= k < final(out)@.len() ==> case_state(#[trigger] final(out)@[k]) == state_of(
            built_edges(ep@, flips as int), built_corners(cp@, twists as int)),
        final(out)@.len() <= old(out)@.len() + 1,
        final(out)@.len() == old(out)@.len() + 1 ==> unlisted(
            old(out)@,
            state_of(built_edges(ep@, flips as int), built_corners(cp@, twists as int)),
        ),
{
    let mut case = build_case(ep, cp, flips, twists, out.len());
    let cube = case_cube(&case);
    let ghost st = state_of(built_edges(ep@, flips as int), built_corners(cp@, twists as int));
    assert(cube@ == st);
    if !cube.is_last_layer() {
        return;
    }
    let lls = cube.get_ll_indices();
    let own = lls[0];
    proof {
        lemma_case_state_valid(case);
        assert(crate::cube::post_auf(cube@, 0) =~= cube@);
        crate::cube::lemma_ll_digits_bound(cube@, 0);
        reveal_with_fuel(crate::cube::pow54, 9);
        assert(own as int == ll_index_of(cube@));
    }
    let least = least_index(&cube);
    if own == least && least != solved_least && seen.contains(&own) {
        assert(listed_indices(out@).contains(class_least(st)));
    }
    if own == least && least != solved_least && !seen.contains(&own) {
        case.ll_index = own;
        assert(case_state(case) == cube@);
        assert(pre_auf(cube@, 0) == cube@);
        let ghost before = out@;
        assert(unlisted(before, st));
        out.push(case);
        seen.insert(own);
        proof {
            assert forall|i: int, j: int| 0 <= i < j < out@.len() implies (#[trigger] out@[i]).ll_index
                != (#[trigger] out@[j]).ll_index by {
                if j == before.len() {
                    assert(out@[i] == before[i]);
                    if before[i].ll_index == own {
                        assert(listed_indices(before).contains(own));
                    }
                } else {
                    assert(out@[i] == before[i] && out@[j] == before[j]);
                }
            }
            assert forall|k: int| 0 <= k < out@.len() implies is_listed_case(#[trigger] out@[k], k) by {
                if k < before.len() {
                    assert(out@[k] == before[k]);
                }
            }
            assert(seen@ =~= listed_indices(out@)) by {
                assert forall|v: u64| #[trigger] listed_indices(out@).contains(v) implies seen@.contains(v) by {
                    let k = choose|k: int| 0 <= k < out@.len() && out@[k].ll_index == v;
                    if k < before.len() {
                        assert(out@[k] == before[k]);
                        assert(listed_indices(before).contains(v));
                    }
                }
                assert forall|v: u64| #[trigger] seen@.contains(v) implies listed_indices(out@).contains(v) by {
                    if v != own {
                        assert(listed_indices(before).contains(v));
                        let k = choose|k: int| 0 <= k < before.len() && before[k].ll_index == v;
                        assert(out@[k] == before[k]);
                    } else {
                        assert(out@[before.len() as int].ll_index == own);
                    }
                }
            }
            assert(listed_indices(out@).contains(class_least(st)));
        }
    }
}

/// Every last-layer case (ZBLL and beyond), one per class of states that
/// differ by AUFs made before or after solving, the solved class left out.
/// The states tried are built from every edge and corner permutation of the
/// same parity, every flip of the edges with an even total and every twist
/// of the corners with a total that is a multiple of three. Each case is
/// such a state, the state of its class with the least index; every class
/// of such states but the solved one has its case; no two cases have the
/// same index; and cases are numbered in the order they are listed, which
/// is the order in which their states are first built as the choices are
/// tried (edge permutation, corner permutation, flips, twists, each counted
/// up from 0, the last fastest).
pub fn get_cases() -> (r: Vec<Case>)
    ensures
        forall|k: int| 0 <= k < r@.len() ==> is_listed_case(#[trigger] r@[k], k),
        distinct_indices(r@),
        forall|e: int, c: int, f: int, t: int|
            0 <= e < 24 && 0 <= c < 24 && 0 <= f < 8 && 0 <= t < 27 && same_parity(e, c)
                ==> state_listed(r@, #[trigger] tuple_state(e, c, f, t)),
        forall|k: int| 0 <= k < r@.len() ==> from_choices(#[trigger] r@[k]),
        exists|p: Seq<(int, int, int, int)>| listed_in_order(r@, p),
{
    let solved_least = least_index(&Cube::new());
    let mut out: Vec<Case> = Vec::new();
    let mut seen: HashSet<u64> = HashSet::new();
    let ghost mut order: Seq<(int, int, int, int)> = Seq::empty();
    assert(seen@ =~= listed_indices(out@));
    let mut ecode: usize = 0;
    while ecode < 24
        invariant
            ecode <= 24,
            listing(out@, seen@),
            solved_least == class_least(solved_state()),
            listed_below(out@, tuple_code(ecode as int, 0, 0, 0)),
            forall|k: int| 0 <= k < out@.len() ==> from_choices(#[trigger] out@[k]),
            listed_in_order(out@, order),
            forall|k: int| 0 <= k < order.len() ==> tuple_code((#[trigger] order[k]).0, order[k].1, order[k].2,
                order[k].3) < tuple_code(ecode as int, 0, 0, 0),
        decreases 24 - ecode,
    {
        let ep = perm4(ecode);
        let mut ccode: usize = 0;
        while ccode < 24
            invariant
                ecode < 24,
                ccode <= 24,
                ep@ == perm4_spec(ecode as int),
                ep@.len() == 4,
                forall|i: int| 0 <= i < 4 ==> ep@[i] < 4,
                listing(out@, seen@),
                solved_least == class_least(solved_state()),
                listed_below(out@, tuple_code(ecode as int, ccode as int, 0, 0)),
                forall|k: int| 0 <= k < out@.len() ==> from_choices(#[trigger] out@[k]),
                listed_in_order(out@, order),
                forall|k: int| 0 <= k < order.len() ==> tuple_code((#[trigger] order[k]).0, order[k].1, order[k].2,
                    order[k].3) < tuple_code(ecode as int, ccode as int, 0, 0),
            decreases 24 - ccode,
        {
            let cp = perm4(ccode);
            if is_odd(&ep) == is_odd(&cp) {
                let mut flips: usize = 0;
                while flips < 8
                    invariant
                        ecode < 24,
                        ccode < 24,
                        flips <= 8,
                        ep@ == perm4_spec(ecode as int),
                        cp@ == perm4_spec(ccode as int),
                        ep@.len() == 4,
                        cp@.len() == 4,
                        forall|i: int| 0 <= i < 4 ==> ep@[i] < 4,
                        forall|i: int| 0 <= i < 4 ==> cp@[i] < 4,
                        listing(out@, seen@),
                        solved_least == class_least(solved_state()),
                        listed_below(out@, tuple_code(ecode as int, ccode as int, flips as int, 0)),
                        same_parity(ecode as int, ccode as int),
                        forall|k: int| 0 <= k < out@.len() ==> from_choices(#[trigger] out@[k]),
                        listed_in_order(out@, order),
                        forall|k: int| 0 <= k < order.len() ==> tuple_code((#[trigger] order[k]).0, order[k].1,
                            order[k].2, order[k].3) < tuple_code(ecode as int, ccode as int, flips as int, 0),
                    decreases 8 - flips,
                {
                    let mut twists: usize = 0;
                    while twists < 27
                        invariant
                            ecode < 24,
                            ccode < 24,
                            flips < 8,
                            twists <= 27,
                            ep@ == perm4_spec(ecode as int),
                            cp@ == perm4_spec(ccode as int),
                            ep@.len() == 4,
                            cp@.len() == 4,
                            forall|i: int| 0 <= i < 4 ==> ep@[i] < 4,
                            forall|i: int| 0 <= i < 4 ==> cp@[i] < 4,
                            listing(out@, seen@),
                            solved_least == class_least(solved_state()),
                            listed_below(out@, tuple_code(ecode as int, ccode as int, flips as int, twists as int)),
                            same_parity(ecode as int, ccode as int),
                            forall|k: int| 0 <= k < out@.len() ==> from_choices(#[trigger] out@[k]),
                            listed_in_order(out@, order),
                            forall|k: int| 0 <= k < order.len() ==> tuple_code((#[trigger] order[k]).0, order[k].1,
                                order[k].2, order[k].3) < tuple_code(ecode as int, ccode as int, flips as int,
                                twists as int),
                        decreases 27 - twists,
                    {
                        let ghost before = out@;
                        consider(&mut out, &mut seen, &ep, &cp, flips, twists, solved_least);
                        proof {
                            assert(tuple_state(ecode as int, ccode as int, flips as int, twists as int)
                                == state_of(built_edges(ep@, flips as int), built_corners(cp@, twists as int)));
                            order = lemma_order_step(before, out@, order, ecode as int, ccode as int, flips as int,
                                twists as int);
                            lemma_listed_grows(before, out@, tuple_code(ecode as int, ccode as int, flips as int, twists as int));
                            lemma_listed_step(out@, ecode as int, ccode as int, flips as int, twists as int);
                            assert forall|k: int| 0 <= k < out@.len() implies from_choices(#[trigger] out@[k]) by {
                                if k < before.len() {
                                    assert(out@[k] == before[k]);
                                } else {
                                    assert(case_state(out@[k]) == tuple_state(ecode as int, ccode as int, flips as int,
                                        twists as int));
                                }
                            }
                        }
                        twists = twists + 1;
                    }
                    assert(tuple_code(ecode as int, ccode as int, flips as int, 27) == tuple_code(ecode as int,
                        ccode as int, flips + 1, 0));
                    flips = flips + 1;
                }
                assert(tuple_code(ecode as int, ccode as int, 8, 0) == tuple_code(ecode as int, ccode + 1, 0, 0));
            } else {
                proof {
                    lemma_listed_skip(out@, ecode as int, ccode as int);
                }
            }
            ccode = ccode + 1;
        }
        assert(tuple_code(ecode as int, 24, 0, 0) == tuple_code(ecode + 1, 0, 0, 0));
        ecode = ecode + 1;
    }
    assert forall|e: int, c: int, f: int, t: int|
        0 <= e < 24 && 0 <= c < 24 && 0 <= f < 8 && 0 <= t < 27 && same_parity(e, c)
            implies state_listed(out@, #[trigger] tuple_state(e, c, f, t)) by {
        assert(tuple_code(e, c, f, t) < tuple_code(24, 0, 0, 0));
    }
    assert(listed_in_order(out@, order));
    out
}

} // verus!
