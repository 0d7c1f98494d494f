//! Move notation: the layers of the cube, the three turn amounts, and the
//! text form of a move.
use vstd::prelude::*;
use crate::text::{chars_of, decimal, push_decimal, push_spaces, spaces};

verus! {

/// A layer (or the whole cube, for `X`, `Y`, `Z`) that a move turns.
///
/// `Uw`, `Fw`, ... are the wide moves (the outer layer and the slice next to
/// it); `M`, `E`, `S` are the slices; `X`, `Y`, `Z` are whole-cube rotations.
#[derive(Clone, Copy, PartialEq, Eq, Structural, Debug)]
pub enum Layer {
    U,
    Uw,
    F,
    Fw,
    R,
    Rw,
    L,
    Lw,
    B,
    Bw,
    D,
    Dw,
    M,
    E,
    S,
    X,
    Y,
    Z,
}

/// How far a move turns its layer: a quarter turn, a counter-clockwise
/// quarter turn, or a half turn.
#[derive(Clone, Copy, PartialEq, Eq, Structural, Debug)]
pub enum Order {
    Normal,
    Prime,
    Double,
}

/// One move of an algorithm, such as `R'` or `Uw2`.
#[derive(Clone, Copy, PartialEq, Eq, Structural, Debug)]
pub struct Move {
    pub order: Order,
    pub layer: Layer,
}

/// The notation of a layer.
pub open spec fn layer_text(l: Layer) -> Seq<char> {
    match l {
        Layer::U => "U"@,
        Layer::Uw => "Uw"@,
        Layer::F => "F"@,
        Layer::Fw => "Fw"@,
        Layer::R => "R"@,
        Layer::Rw => "Rw"@,
        Layer::L => "L"@,
        Layer::Lw => "Lw"@,
        Layer::B => "B"@,
        Layer::Bw => "Bw"@,
        Layer::D => "D"@,
        Layer::Dw => "Dw"@,
        Layer::M => "M"@,
        Layer::E => "E"@,
        Layer::S => "S"@,
        Layer::X => "x"@,
        Layer::Y => "y"@,
        Layer::Z => "z"@,
    }
}

/// The suffix that writes a turn amount.
pub open spec fn order_text(o: Order) -> Seq<char> {
    match o {
        Order::Normal => Seq::empty(),
        Order::Prime => "'"@,
        Order::Double => "2"@,
    }
}

/// The notation of a move: its layer followed by its turn suffix.
pub open spec fn move_text(m: Move) -> Seq<char> {
    layer_text(m.layer) + order_text(m.order)
}

/// The notation of a move sequence: the moves' notations joined by spaces.
pub open spec fn join_moves(ms: Seq<Move>) -> Seq<char>
    decreases ms.len(),
{
    if ms.len() == 0 {
        Seq::empty()
    } else if ms.len() == 1 {
        move_text(ms[0])
    } else {
        join_moves(ms.drop_last()) + " "@ + move_text(ms.last())
    }
}

/// The move that undoes `m`: a quarter turn becomes a counter-clockwise one
/// and back; a half turn undoes itself.
pub open spec fn inverse_move(m: Move) -> Move {
    Move {
        order: match m.order {
            Order::Normal => Order::Prime,
            Order::Prime => Order::Normal,
            Order::Double => Order::Double,
        },
        layer: m.layer,
    }
}

/// The moves that undo `ms`: each move undone, in reverse order.
pub open spec fn inverse_moves(ms: Seq<Move>) -> Seq<Move> {
    Seq::new(ms.len(), |i: int| inverse_move(ms[ms.len() - 1 - i]))
}

impl Layer {
    /// The notation of this layer.
    pub fn text(&self) -> (r: String)
        ensures
            r@ == layer_text(*self),
    {
        let s: &str = match self {
            Layer::U => "U",
            Layer::Uw => "Uw",
            Layer::F => "F",
            Layer::Fw => "Fw",
            Layer::R => "R",
            Layer::Rw => "Rw",
            Layer::L => "L",
            Layer::Lw => "Lw",
            Layer::B => "B",
            Layer::Bw => "Bw",
            Layer::D => "D",
            Layer::Dw => "Dw",
            Layer::M => "M",
            Layer::E => "E",
            Layer::S => "S",
            Layer::X => "x",
            Layer::Y => "y",
            Layer::Z => "z",
        };
        String::from_str(s)
    }
}

impl Move {
    /// The notation of this move, such as `R'`, `Uw2` or `x`.
    pub fn text(&self) -> (r: String)
        ensures
            r@ == move_text(*self),
    {
        let layer = self.layer.text();
        match self.order {
            Order::Normal => {
                assert(layer@ + order_text(self.order) =~= layer@);
                layer
            },
            Order::Prime => layer.concat("'"),
            Order::Double => layer.concat("2"),
        }
    }

    /// The move that undoes this one.
    pub fn inverse(&self) -> (r: Move)
        ensures
            r == inverse_move(*self),
    {
        Move {
            order: match self.order {
                Order::Normal => Order::Prime,
                Order::Prime => Order::Normal,
                Order::Double => Order::Double,
            },
            layer: self.layer,
        }
    }
}

/// The moves that undo `moves`, in the order in which they are made.
pub fn invert_moves(moves: &Vec<Move>) -> (r: Vec<Move>)
    ensures
        r@ == inverse_moves(moves@),
{
    let mut r: Vec<Move> = Vec::new();
    let n = moves.len();
    let mut k: usize = n;
    while k > 0
        invariant
            k <= n,
            n == moves@.len(),
            r@.len() == n - k,
            forall|i: int| 0 <= i < n - k ==> r@[i] == inverse_move(moves@[n - 1 - i]),
        decreases k,
    {
        k = k - 1;
        r.push(moves[k].inverse());
    }
    assert(r@ =~= inverse_moves(moves@));
    r
}


// ---------------------------------------------------------------------------
// Reading moves from text.
//
// A move is optional spaces, a layer letter (one of `UFRLBDMESufrlbdxyz`),
// an optional `w`, optional spaces, and an optional `'` or `2`. A lower-case
// face letter, or a face letter followed by `w`, is a wide move; `w` after a
// slice or rotation letter is accepted and changes nothing.

/// The spaces that may stand around a move.
pub open spec fn is_space(c: char) -> bool {
    c == ' ' || c == '\t' || c == '\n' || c == '\r'
}

/// The letters that begin a move.
pub open spec fn is_layer_char(c: char) -> bool {
    c == 'U' || c == 'F' || c == 'R' || c == 'L' || c == 'B' || c == 'D' || c == 'M' || c == 'E'
        || c == 'S' || c == 'u' || c == 'f' || c == 'r' || c == 'l' || c == 'b' || c == 'd'
        || c == 'x' || c == 'y' || c == 'z'
}

/// The layer that letter `c`, followed by `w` or not, names.
pub open spec fn layer_for(c: char, wide: bool) -> Layer {
    if c == 'U' {
        if wide { Layer::Uw } else { Layer::U }
    } else if c == 'F' {
        if wide { Layer::Fw } else { Layer::F }
    } else if c == 'R' {
        if wide { Layer::Rw } else { Layer::R }
    } else if c == 'L' {
        if wide { Layer::Lw } else { Layer::L }
    } else if c == 'B' {
        if wide { Layer::Bw } else { Layer::B }
    } else if c == 'D' {
        if wide { Layer::Dw } else { Layer::D }
    } else if c == 'u' {
        Layer::Uw
    } else if c == 'f' {
        Layer::Fw
    } else if c == 'r' {
        Layer::Rw
    } else if c == 'l' {
        Layer::Lw
    } else if c == 'b' {
        Layer::Bw
    } else if c == 'd' {
        Layer::Dw
    } else if c == 'M' {
        Layer::M
    } else if c == 'E' {
        Layer::E
    } else if c == 'S' {
        Layer::S
    } else if c == 'x' {
        Layer::X
    } else if c == 'y' {
        Layer::Y
    } else {
        Layer::Z
    }
}

/// The first position at or after `i` that is not a space.
pub open spec fn skip_spaces(s: Seq<char>, i: int) -> int
    decreases s.len() - i,
{
    if 0 <= i < s.len() && is_space(s[i]) {
        skip_spaces(s, i + 1)
    } else {
        i
    }
}

/// The move that the text `s` holds from position `i`, and the position
/// after it; `None` when no layer letter follows the spaces at `i`.
pub open spec fn move_at(s: Seq<char>, i: int) -> Option<(Move, int)> {
    let a = skip_spaces(s, i);
    if 0 <= a < s.len() && is_layer_char(s[a]) {
        let wide = a + 1 < s.len() && s[a + 1] == 'w';
        let b = if wide { a + 2 } else { a + 1 };
        let c = skip_spaces(s, b);
        let order = if c < s.len() && s[c] == '\'' {
            Order::Prime
        } else if c < s.len() && s[c] == '2' {
            Order::Double
        } else {
            Order::Normal
        };
        let d = if c < s.len() && (s[c] == '\'' || s[c] == '2') { c + 1 } else { c };
        Some((Move { order, layer: layer_for(s[a], wide) }, d))
    } else {
        None
    }
}

/// The moves read from position `i` on, as many as follow one another, and
/// the position where reading stops.
pub open spec fn read_moves(s: Seq<char>, i: int) -> (Seq<Move>, int)
    decreases s.len() - i,
{
    match move_at(s, i) {
        Some((m, j)) => if i < j <= s.len() {
            let (ms, e) = read_moves(s, j);
            (seq![m] + ms, e)
        } else {
            (Seq::empty(), i)
        },
        None => (Seq::empty(), i),
    }
}

/// The message for text `data` that could be read only up to position `pos`.
pub open spec fn parse_error_message(data: Seq<char>, pos: nat) -> Seq<char> {
    data + "\n"@ + spaces(pos) + "^ parse error at position "@ + decimal(pos + 1)
}

pub proof fn lemma_skip_spaces(s: Seq<char>, i: int)
    requires
        0 <= i <= s.len(),
    ensures
        i <= skip_spaces(s, i) <= s.len(),
        forall|k: int| i <= k < skip_spaces(s, i) ==> is_space(s[k]),
    decreases s.len() - i,
{
    if i < s.len() && is_space(s[i]) {
        lemma_skip_spaces(s, i + 1);
    }
}

pub proof fn lemma_move_at(s: Seq<char>, i: int)
    requires
        0 <= i <= s.len(),
    ensures
        move_at(s, i) matches Some((m, j)) ==> i < j <= s.len(),
{
    lemma_skip_spaces(s, i);
    let a = skip_spaces(s, i);
    if 0 <= a < s.len() && is_layer_char(s[a]) {
        let wide = a + 1 < s.len() && s[a + 1] == 'w';
        let b = if wide { a + 2 } else { a + 1 };
        lemma_skip_spaces(s, b);
    }
}

pub proof fn lemma_read_moves(s: Seq<char>, i: int)
    requires
        0 <= i <= s.len(),
    ensures
        i <= read_moves(s, i).1 <= s.len(),
    decreases s.len() - i,
{
    lemma_move_at(s, i);
    if let Some((m, j)) = move_at(s, i) {
        lemma_read_moves(s, j);
    }
}

fn is_space_exec(c: char) -> (r: bool)
    ensures
        r == is_space(c),
{
    c == ' ' || c == '\t' || c == '\n' || c == '\r'
}

fn skip_spaces_exec(s: &Vec<char>, i: usize) -> (r: usize)
    requires
        i <= s@.len(),
    ensures
        r as int == skip_spaces(s@, i as int),
        r <= s@.len(),
{
    let mut k = i;
    while k < s.len() && is_space_exec(s[k])
        invariant
            i <= k <= s@.len(),
            skip_spaces(s@, i as int) == skip_spaces(s@, k as int),
        decreases s@.len() - k,
    {
        k = k + 1;
    }
    k
}

fn layer_letter(c: char, wide: bool) -> (r: Option<Layer>)
    ensures
        r matches Some(l) ==> is_layer_char(c) && l == layer_for(c, wide),
        r is None ==> !is_layer_char(c),
{
    match c {
        'U' => Some(if wide { Layer::Uw } else { Layer::U }),
        'F' => Some(if wide { Layer::Fw } else { Layer::F }),
        'R' => Some(if wide { Layer::Rw } else { Layer::R }),
        'L' => Some(if wide { Layer::Lw } else { Layer::L }),
        'B' => Some(if wide { Layer::Bw } else { Layer::B }),
        'D' => Some(if wide { Layer::Dw } else { Layer::D }),
        'u' => Some(Layer::Uw),
        'f' => Some(Layer::Fw),
        'r' => Some(Layer::Rw),
        'l' => Some(Layer::Lw),
        'b' => Some(Layer::Bw),
        'd' => Some(Layer::Dw),
        'M' => Some(Layer::M),
        'E' => Some(Layer::E),
        'S' => Some(Layer::S),
        'x' => Some(Layer::X),
        'y' => Some(Layer::Y),
        'z' => Some(Layer::Z),
        _ => None,
    }
}

/// Reads the move at position `i`, as `move_at` says.
fn move_at_exec(s: &Vec<char>, i: usize) -> (r: Option<(Move, usize)>)
    requires
        i <= s@.len(),
    ensures
        match r {
            Some((m, j)) => move_at(s@, i as int) == Some((m, j as int)),
            None => move_at(s@, i as int) is None,
        },
{
    let a = skip_spaces_exec(s, i);
    if a >= s.len() {
        return None;
    }
    let wide = a + 1 < s.len() && s[a + 1] == 'w';
    match layer_letter(s[a], wide) {
        None => None,
        Some(layer) => {
            let b = if wide { a + 2 } else { a + 1 };
            let c = skip_spaces_exec(s, b);
            let (order, d) = if c < s.len() && s[c] == '\'' {
                (Order::Prime, c + 1)
            } else if c < s.len() && s[c] == '2' {
                (Order::Double, c + 1)
            } else {
                (Order::Normal, c)
            };
            Some((Move { order, layer }, d))
        },
    }
}

/// Reads the moves written in `data`.
///
/// Moves may be separated by spaces, tabs and line breaks, or not at all.
/// Spaces before a move, and between its letter and its suffix, belong to
/// it; so do the spaces after a move that has no suffix. When text remains
/// that no move can be read from (spaces after a suffix at the end of the
/// text among it), the error is `data`, a line break, as many spaces as
/// characters were read, and `^ parse error at position ` with that count
/// plus one.
pub fn parse_moves(data: &str) -> (r: Result<Vec<Move>, String>)
    ensures
        read_moves(data@, 0).1 == data@.len() ==> (r matches Ok(ms) && ms@ == read_moves(data@, 0).0),
        read_moves(data@, 0).1 != data@.len() ==> (r matches Err(msg)
            && msg@ == parse_error_message(data@, read_moves(data@, 0).1 as nat)),
{
    let s = chars_of(data);
    let mut moves: Vec<Move> = Vec::new();
    let mut i: usize = 0;
    proof {
        lemma_read_moves(s@, 0);
    }
    loop
        invariant
            i <= s@.len(),
            s@ == data@,
            read_moves(s@, i as int).1 == read_moves(s@, 0).1,
            moves@ + read_moves(s@, i as int).0 == read_moves(s@, 0).0,
        ensures
            i <= s@.len(),
            move_at(s@, i as int) is None,
            read_moves(s@, i as int).1 == read_moves(s@, 0).1,
            moves@ + read_moves(s@, i as int).0 == read_moves(s@, 0).0,
        decreases s@.len() - i,
    {
        proof {
            lemma_move_at(s@, i as int);
        }
        match move_at_exec(&s, i) {
            Some((m, j)) => {
                assert(moves@.push(m) + read_moves(s@, j as int).0 =~= moves@ + read_moves(s@, i as int).0);
                moves.push(m);
                i = j;
            },
            None => {
                break;
            },
        }
    }
    assert(moves@ =~= read_moves(s@, 0).0);
    if i == s.len() {
        Ok(moves)
    } else {
        let mut msg = String::from_str(data);
        msg.append("\n");
        push_spaces(&mut msg, i);
        msg.append("^ parse error at position ");
        push_decimal(&mut msg, i + 1);
        Err(msg)
    }
}

// ---------------------------------------------------------------------------
// Reading back what is written.

/// The first letter of a layer's notation begins a move, and the reader
/// takes the notation back to the layer.
proof fn lemma_layer_text(l: Layer)
    ensures
        layer_text(l).len() == 1 || (layer_text(l).len() == 2 && layer_text(l)[1] == 'w'),
        is_layer_char(layer_text(l)[0]),
        layer_for(layer_text(l)[0], layer_text(l).len() == 2) == l,
{
    match l {
        Layer::U => { reveal_strlit("U"); },
        Layer::Uw => { reveal_strlit("Uw"); },
        Layer::F => { reveal_strlit("F"); },
        Layer::Fw => { reveal_strlit("Fw"); },
        Layer::R => { reveal_strlit("R"); },
        Layer::Rw => { reveal_strlit("Rw"); },
        Layer::L => { reveal_strlit("L"); },
        Layer::Lw => { reveal_strlit("Lw"); },
        Layer::B => { reveal_strlit("B"); },
        Layer::Bw => { reveal_strlit("Bw"); },
        Layer::D => { reveal_strlit("D"); },
        Layer::Dw => { reveal_strlit("Dw"); },
        Layer::M => { reveal_strlit("M"); },
        Layer::E => { reveal_strlit("E"); },
        Layer::S => { reveal_strlit("S"); },
        Layer::X => { reveal_strlit("x"); },
        Layer::Y => { reveal_strlit("y"); },
        Layer::Z => { reveal_strlit("z"); },
    }
}

proof fn lemma_order_text(o: Order)
    ensures
        o == Order::Normal ==> order_text(o).len() == 0,
        o == Order::Prime ==> order_text(o).len() == 1 && order_text(o)[0] == '\'',
        o == Order::Double ==> order_text(o).len() == 1 && order_text(o)[0] == '2',
{
    reveal_strlit("'");
    reveal_strlit("2");
}

/// A move sequence, written out, begins with the first move's layer letter.
proof fn lemma_join_first(ms: Seq<Move>)
    requires
        ms.len() > 0,
    ensures
        join_moves(ms).len() > 0,
        join_moves(ms)[0] == layer_text(ms[0].layer)[0],
    decreases ms.len(),
{
    lemma_layer_text(ms[0].layer);
    if ms.len() > 1 {
        lemma_join_first(ms.drop_last());
    }
}

/// A written sequence of two or more moves is the first move, a space and
/// the rest.
pub proof fn lemma_join_front(ms: Seq<Move>)
    requires
        ms.len() >= 2,
    ensures
        join_moves(ms) == move_text(ms[0]) + " "@ + join_moves(ms.drop_first()),
    decreases ms.len(),
{
    let rest = ms.drop_first();
    let sp = " "@;
    if ms.len() == 2 {
        assert(ms.drop_last() =~= seq![ms[0]]);
        assert(rest =~= seq![ms[1]]);
        assert(join_moves(ms.drop_last()) == move_text(ms[0]));
        assert(join_moves(rest) == move_text(ms[1]));
        assert(join_moves(ms) == join_moves(ms.drop_last()) + sp + move_text(ms.last()));
    } else {
        let init = ms.drop_last();
        lemma_join_front(init);
        assert(init.drop_first() =~= rest.drop_last());
        assert(init[0] == ms[0]);
        assert(rest.last() == ms.last());
        let a = move_text(ms[0]);
        let b = join_moves(rest.drop_last());
        let c = move_text(ms.last());
        assert(join_moves(ms) == join_moves(init) + sp + c);
        assert(join_moves(init) == a + sp + b);
        assert(join_moves(rest) == b + sp + c);
        assert(a + sp + b + sp + c =~= a + sp + (b + sp + c));
    }
}

proof fn lemma_skip_shift(a: Seq<char>, b: Seq<char>, j: int)
    requires
        0 <= j <= b.len(),
    ensures
        skip_spaces(a + b, a.len() + j) == a.len() + skip_spaces(b, j),
    decreases b.len() - j,
{
    if j < b.len() {
        assert((a + b)[a.len() + j] == b[j]);
        if is_space(b[j]) {
            lemma_skip_shift(a, b, j + 1);
        }
    }
}

proof fn lemma_move_at_shift(a: Seq<char>, b: Seq<char>, j: int)
    requires
        0 <= j <= b.len(),
    ensures
        move_at(a + b, a.len() + j) == match move_at(b, j) {
            Some((m, e)) => Some((m, a.len() + e)),
            None => None,
        },
{
    let s = a + b;
    lemma_skip_shift(a, b, j);
    lemma_skip_spaces(b, j);
    let x = skip_spaces(b, j);
    if x < b.len() {
        assert(s[a.len() + x] == b[x]);
        if x + 1 < b.len() {
            assert(s[a.len() + x + 1] == b[x + 1]);
        }
        let wide = x + 1 < b.len() && b[x + 1] == 'w';
        let bb = if wide { x + 2 } else { x + 1 };
        lemma_skip_shift(a, b, bb);
        lemma_skip_spaces(b, bb);
        let c = skip_spaces(b, bb);
        if c < b.len() {
            assert(s[a.len() + c] == b[c]);
        }
    }
}

/// Reading from position `a.len() + j` of `a + b` reads what reading `b`
/// from `j` reads.
proof fn lemma_read_shift(a: Seq<char>, b: Seq<char>, j: int)
    requires
        0 <= j <= b.len(),
    ensures
        read_moves(a + b, a.len() + j) == (read_moves(b, j).0, a.len() + read_moves(b, j).1),
    decreases b.len() - j,
{
    lemma_move_at_shift(a, b, j);
    lemma_move_at(b, j);
    if let Some((m, e)) = move_at(b, j) {
        lemma_read_shift(a, b, e);
    }
}

/// A space before a move changes nothing of what is read.
proof fn lemma_read_space(s: Seq<char>, i: int)
    requires
        0 <= i < s.len(),
        is_space(s[i]),
        move_at(s, i + 1) is Some,
    ensures
        read_moves(s, i) == read_moves(s, i + 1),
{
    assert(skip_spaces(s, i) == skip_spaces(s, i + 1));
    assert(move_at(s, i) == move_at(s, i + 1));
    lemma_skip_spaces(s, i + 1);
    lemma_move_at(s, i + 1);
}

/// The notation of move `m`, followed by nothing or by a space and a layer
/// letter, is read as `m`; reading stops right after the notation, or after
/// the space for a move with no suffix.
proof fn lemma_read_one(m: Move, tail: Seq<char>)
    requires
        tail.len() == 0 || (tail.len() >= 2 && tail[0] == ' ' && is_layer_char(tail[1])),
    ensures
        move_at(move_text(m) + tail, 0) == Some((m, move_text(m).len() as int))
            || (m.order == Order::Normal && tail.len() > 0 && move_at(move_text(m) + tail, 0) == Some((m,
            move_text(m).len() + 1 as int))),
{
    let lt = layer_text(m.layer);
    let ot = order_text(m.order);
    let s = lt + ot + tail;
    lemma_layer_text(m.layer);
    lemma_order_text(m.order);
    assert(move_text(m) + tail =~= s);
    assert(s[0] == lt[0]);
    assert(skip_spaces(s, 0) == 0);
    let n = lt.len() as int;
    let wide = 1 < s.len() && s[1] == 'w';
    if n == 2 {
        assert(s[1] == lt[1]);
    } else if 1 < s.len() {
        if ot.len() == 1 {
            assert(s[1] == ot[0]);
        } else {
            assert(s[1] == tail[0]);
        }
    }
    assert(wide == (n == 2));
    let b = if wide { 2int } else { 1int };
    assert(b == n);
    if ot.len() == 1 {
        assert(s[n] == ot[0]);
        assert(skip_spaces(s, n) == n);
    } else if tail.len() > 0 {
        assert(s[n] == ' ');
        assert(s[n + 1] == tail[1]);
        assert(skip_spaces(s, n + 1) == n + 1);
        assert(skip_spaces(s, n) == n + 1);
    } else {
        assert(skip_spaces(s, n) == n);
    }
}

proof fn lemma_read_join_step(ms: Seq<Move>)
    requires
        ms.len() >= 2,
        read_moves(join_moves(ms.drop_first()), 0) == (ms.drop_first(), join_moves(ms.drop_first()).len() as int),
    ensures
        read_moves(join_moves(ms), 0) == (ms, join_moves(ms).len() as int),
{
    let s = join_moves(ms);
    let rest = ms.drop_first();
    let t = move_text(ms[0]);
    let u = join_moves(rest);
    lemma_join_front(ms);
    lemma_join_first(rest);
    lemma_layer_text(rest[0].layer);
    reveal_strlit(" ");
    let head = t + " "@;
    let tail = " "@ + u;
    assert(tail[0] == ' ');
    assert(tail[1] == u[0]);
    assert(s =~= t + tail);
    assert(s =~= head + u);
    let l = t.len() as int;
    assert(head.len() == l + 1);
    // after the space, the rest is read
    lemma_read_shift(head, u, 0);
    assert(read_moves(s, l + 1) == (rest, s.len() as int));
    assert(skip_spaces(u, 0) == 0);
    assert(move_at(u, 0) is Some);
    lemma_move_at_shift(head, u, 0);
    assert(move_at(s, l + 1) is Some);
    // the first move
    lemma_read_one(ms[0], tail);
    assert(s[l] == ' ');
    lemma_read_space(s, l);
    assert(read_moves(s, l) == (rest, s.len() as int));
    let first = move_at(s, 0);
    assert(first == Some((ms[0], l)) || first == Some((ms[0], l + 1)));
    assert(seq![ms[0]] + rest =~= ms);
}

/// The notation of a move sequence reads back as that sequence, every
/// character read.
pub proof fn lemma_read_join(ms: Seq<Move>)
    ensures
        read_moves(join_moves(ms), 0) == (ms, join_moves(ms).len() as int),
    decreases ms.len(),
{
    let s = join_moves(ms);
    if ms.len() == 0 {
        assert(s.len() == 0);
        assert(skip_spaces(s, 0) == 0);
        assert(move_at(s, 0) is None);
        assert(ms =~= Seq::<Move>::empty());
    } else if ms.len() == 1 {
        let t = move_text(ms[0]);
        assert(s == t);
        lemma_read_one(ms[0], Seq::empty());
        assert(t + Seq::<char>::empty() =~= t);
        assert(move_at(t, 0) == Some((ms[0], t.len() as int)));
        assert(skip_spaces(t, t.len() as int) == t.len());
        assert(move_at(t, t.len() as int) is None);
        assert(read_moves(t, t.len() as int) == (Seq::<Move>::empty(), t.len() as int));
        assert(seq![ms[0]] + Seq::<Move>::empty() =~= ms);
    } else {
        lemma_read_join(ms.drop_first());
        lemma_read_join_step(ms);
    }
}

// ---------------------------------------------------------------------------
// Reading text joined by a space.

proof fn lemma_skip_prefix(a: Seq<char>, t: Seq<char>, p: int)
    requires
        0 <= p <= a.len(),
    ensures
        skip_spaces(a + t, p) == (if skip_spaces(a, p) < a.len() {
            skip_spaces(a, p)
        } else {
            a.len() + skip_spaces(t, 0)
        }),
    decreases a.len() - p,
{
    lemma_skip_spaces(a, p);
    if p < a.len() {
        assert((a + t)[p] == a[p]);
        if is_space(a[p]) {
            lemma_skip_prefix(a, t, p + 1);
        }
    } else {
        lemma_skip_shift(a, t, 0);
    }
}

/// Spaces before a move change nothing of what is read.
proof fn lemma_read_from_spaces(t: Seq<char>, p: int)
    requires
        0 <= p <= t.len(),
        move_at(t, p) is Some,
    ensures
        read_moves(t, p) == read_moves(t, skip_spaces(t, p)),
    decreases t.len() - p,
{
    if p < t.len() && is_space(t[p]) {
        assert(skip_spaces(t, p) == skip_spaces(t, p + 1));
        assert(move_at(t, p) == move_at(t, p + 1));
        lemma_read_space(t, p);
        lemma_read_from_spaces(t, p + 1);
    }
}

/// A move read in `a` is read the same in `a + t` when `t` starts with a
/// space and a move follows; only a move with no suffix at the very end of
/// `a` reads on over the spaces of `t`.
proof fn lemma_move_at_prefix(a: Seq<char>, t: Seq<char>, i: int)
    requires
        0 <= i <= a.len(),
        move_at(a, i) is Some,
        t.len() > 0,
        is_space(t[0]),
        move_at(t, 0) is Some,
    ensures
        ({
            let (m, j) = move_at(a, i).unwrap();
            ||| move_at(a + t, i) == Some((m, j))
            ||| (j == a.len() && move_at(a + t, i) == Some((m, a.len() + skip_spaces(t, 0))))
        }),
{
    let s = a + t;
    lemma_skip_prefix(a, t, i);
    lemma_skip_spaces(a, i);
    let x = skip_spaces(a, i);
    assert(x < a.len());
    assert(s[x] == a[x]);
    if x + 1 < a.len() {
        assert(s[x + 1] == a[x + 1]);
    } else {
        assert(s[x + 1] == t[0]);
    }
    let wide = x + 1 < a.len() && a[x + 1] == 'w';
    let b = if wide { x + 2 } else { x + 1 };
    lemma_skip_prefix(a, t, b);
    lemma_skip_spaces(a, b);
    let c = skip_spaces(a, b);
    if c < a.len() {
        assert(s[c] == a[c]);
    } else {
        lemma_skip_spaces(t, 0);
        let k = skip_spaces(t, 0);
        assert(k < t.len());
        assert(s[a.len() + k] == t[k]);
        assert(is_layer_char(t[k]));
    }
}

proof fn lemma_read_prefix(a: Seq<char>, t: Seq<char>, i: int)
    requires
        0 <= i <= a.len(),
        read_moves(a, i).1 == a.len(),
        t.len() > 0,
        is_space(t[0]),
        move_at(t, 0) is Some,
        read_moves(t, 0).1 == t.len(),
    ensures
        read_moves(a + t, i) == (read_moves(a, i).0 + read_moves(t, 0).0, (a.len() + t.len()) as int),
    decreases a.len() - i,
{
    let s = a + t;
    lemma_move_at(a, i);
    match move_at(a, i) {
        None => {
            assert(i == a.len());
            lemma_read_shift(a, t, 0);
            assert(read_moves(a, i).0 + read_moves(t, 0).0 =~= read_moves(t, 0).0);
        },
        Some((m, j)) => {
            lemma_move_at_prefix(a, t, i);
            lemma_read_moves(a, j);
            if move_at(s, i) == Some((m, j)) {
                lemma_read_prefix(a, t, j);
                assert(seq![m] + read_moves(a, j).0 + read_moves(t, 0).0 =~= seq![m] + (read_moves(a, j).0
                    + read_moves(t, 0).0));
            } else {
                let k = skip_spaces(t, 0);
                lemma_skip_spaces(t, 0);
                lemma_read_from_spaces(t, 0);
                lemma_read_shift(a, t, k);
                assert(move_at(a, j) is None) by {
                    assert(skip_spaces(a, j) == j);
                }
                assert(read_moves(a, j).0 =~= Seq::<Move>::empty());
                assert(seq![m] + read_moves(a, j).0 + read_moves(t, 0).0 =~= seq![m] + read_moves(t, 0).0);
            }
        },
    }
}

/// Reading distributes over texts joined by a space: when `a` and `b` are
/// read completely and `b` holds a move, `a`, a space and `b` read as the
/// moves of `a` followed by those of `b`.
pub proof fn lemma_read_concat(a: Seq<char>, b: Seq<char>)
    requires
        read_moves(a, 0).1 == a.len(),
        read_moves(b, 0).1 == b.len(),
        read_moves(b, 0).0.len() > 0,
    ensures
        read_moves(a + " "@ + b, 0) == (read_moves(a, 0).0 + read_moves(b, 0).0, (a + " "@ + b).len() as int),
{
    reveal_strlit(" ");
    let sp = " "@;
    let t = sp + b;
    assert(t[0] == ' ');
    lemma_read_moves(b, 0);
    assert(move_at(b, 0) is Some);
    lemma_move_at_shift(sp, b, 0);
    assert(move_at(t, 1) is Some);
    assert(skip_spaces(t, 0) == skip_spaces(t, 1));
    assert(move_at(t, 0) == move_at(t, 1));
    lemma_read_space(t, 0);
    lemma_read_shift(sp, b, 0);
    assert(read_moves(t, 0) == (read_moves(b, 0).0, t.len() as int));
    lemma_read_prefix(a, t, 0);
    assert(a + sp + b =~= a + t);
}

// ---------------------------------------------------------------------------
// Reading up to where it stops.

proof fn lemma_skip_take(s: Seq<char>, e: int, p: int)
    requires
        0 <= p <= e <= s.len(),
    ensures
        skip_spaces(s.take(e), p) == (if skip_spaces(s, p) < e { skip_spaces(s, p) } else { e }),
    decreases e - p,
{
    lemma_skip_spaces(s, p);
    if p < e {
        assert(s.take(e)[p] == s[p]);
        if is_space(s[p]) {
            lemma_skip_take(s, e, p + 1);
        }
    }
}

/// A move that ends by position `e` is read the same in the text cut at `e`.
proof fn lemma_move_at_take(s: Seq<char>, e: int, i: int)
    requires
        0 <= i <= e <= s.len(),
        move_at(s, i) matches Some((m, j)) && j <= e,
    ensures
        move_at(s.take(e), i) == move_at(s, i),
{
    let t = s.take(e);
    lemma_skip_take(s, e, i);
    lemma_skip_spaces(s, i);
    let a = skip_spaces(s, i);
    let wide = a + 1 < s.len() && s[a + 1] == 'w';
    let b = if wide { a + 2 } else { a + 1 };
    lemma_skip_spaces(s, b);
    assert(b <= e);
    assert(a < e);
    assert(t[a] == s[a]);
    if a + 1 < e {
        assert(t[a + 1] == s[a + 1]);
    }
    lemma_skip_take(s, e, b);
    let c = skip_spaces(s, b);
    if c < e {
        assert(t[c] == s[c]);
    }
}

/// Reading from `i`, when it stops at `e`, reads the same in the text cut at
/// `e`, and there reads to the end.
proof fn lemma_read_take(s: Seq<char>, e: int, i: int)
    requires
        0 <= i <= e <= s.len(),
        read_moves(s, i).1 == e,
    ensures
        read_moves(s.take(e), i) == read_moves(s, i),
    decreases s.len() - i,
{
    let t = s.take(e);
    lemma_move_at(s, i);
    match move_at(s, i) {
        Some((m, j)) => {
            lemma_read_moves(s, j);
            lemma_move_at_take(s, e, i);
            lemma_read_take(s, e, j);
        },
        None => {
            lemma_skip_take(s, e, i);
        },
    }
}

/// Where reading stops, the text before that point reads completely and
/// gives the same moves: for a text that cannot be read to its end, what
/// precedes the error position is read without error.
pub proof fn lemma_read_stops(s: Seq<char>)
    ensures
        read_moves(s.take(read_moves(s, 0).1), 0) == read_moves(s, 0),
        read_moves(s.take(read_moves(s, 0).1), 0).1 == s.take(read_moves(s, 0).1).len(),
{
    lemma_read_moves(s, 0);
    lemma_read_take(s, read_moves(s, 0).1, 0);
}

} // verus!
