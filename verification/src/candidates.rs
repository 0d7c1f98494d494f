//! Candidate algorithm lists. Each row's variants (mirror and inverse) are
//! kept together as one unit: learning one algorithm gives its mirror and
//! inverse "for free", so `optimize` takes or leaves a whole row at once
//! rather than single variants.
use vstd::prelude::*;
use crate::alg::{Alg, AlgView, Mirror, alg_view, alg_views, create_algset, variant_specs};
use crate::cube::moves_state;
use crate::moves::{Move, parse_error_message, read_moves};
use crate::json::{JsonValue, JsonView, json_list_of, json_of, json_view, parse_json, parse_json_list};
use crate::text::{
    chars_of, decimal, lines, lines_of, lower_equals, lower_matches, push_decimal, remove_whitespace, string_of,
    remove_whitespace_chars, split_chars, split_on, string_from, trim, trim_chars, upper_of,
};

verus! {

/// One row of a candidate list.
pub struct Candidate {
    pub label: String,
    /// Move count of the row's own (not mirrored, not inverted) algorithm:
    /// what one would have to learn, and what "shortest subset" is measured
    /// against.
    pub cost_moves: usize,
    /// The row's algorithm and whichever of its inverse, mirror and mirror
    /// inverse variants the row asked for.
    pub variants: Vec<Alg>,
}

/// Why a row of a candidate list was skipped.
pub enum LoadError {
    /// Line number and (trimmed) line of a CSV row with fewer than three
    /// fields.
    Format(usize, String),
    /// Line number and mirror field that is none of `fb`, `lr`, `no` and
    /// empty (in any case).
    UnknownMirror(usize, String),
    /// Line number and invert field that is none of `yes`, `no` and empty
    /// (in any case).
    UnknownInvert(usize, String),
    /// Line number of a CSV row whose moves cannot be read, and the reader's
    /// message.
    BadMoves(usize, String),
    /// Number of a JSON entry whose moves cannot be read, and the reader's
    /// message.
    BadEntry(usize, String),
    /// Number of a JSON entry that is not an object (or not JSON), or whose
    /// `moves`, `mirror` or `invert` field is missing or of the wrong kind,
    /// and what is wrong.
    BadField(usize, String),
}

/// A candidate as plain values: (label, cost, variants).
pub type CandidateView = (Seq<char>, int, Seq<AlgView>);

/// An error as plain values: (kind, number, text), the kinds numbered 0 to 5
/// in the order of `LoadError`'s variants.
pub type ErrorView = (int, int, Seq<char>);

pub open spec fn candidate_view(c: Candidate) -> CandidateView {
    (c.label@, c.cost_moves as int, Seq::new(c.variants@.len(), |i: int| alg_view(c.variants@[i])))
}

pub open spec fn error_view(e: LoadError) -> ErrorView {
    match e {
        LoadError::Format(n, t) => (0, n as int, t@),
        LoadError::UnknownMirror(n, t) => (1, n as int, t@),
        LoadError::UnknownInvert(n, t) => (2, n as int, t@),
        LoadError::BadMoves(n, t) => (3, n as int, t@),
        LoadError::BadEntry(n, t) => (4, n as int, t@),
        LoadError::BadField(n, t) => (5, n as int, t@),
    }
}

/// Every variant of every candidate has the transform of its moves.
pub open spec fn transforms_agree(cs: Seq<Candidate>) -> bool {
    forall|k: int, i: int| 0 <= k < cs.len() && 0 <= i < cs[k].variants@.len()
        ==> (#[trigger] cs[k].variants@[i]).transform@ == moves_state(cs[k].variants@[i].moves@)
}

/// The first variant at or after `k` that is neither mirrored nor inverted
/// (`vs.len()` when there is none).
pub open spec fn first_plain(vs: Seq<Alg>, k: int) -> int
    decreases vs.len() - k,
{
    if k >= vs.len() {
        vs.len() as int
    } else if !vs[k].mirror && !vs[k].invert {
        k
    } else {
        first_plain(vs, k + 1)
    }
}

/// The least move count among `vs` (0 when there are none).
pub open spec fn min_moves(vs: Seq<Alg>) -> int
    decreases vs.len(),
{
    if vs.len() == 0 {
        0
    } else if vs.len() == 1 {
        vs[0].moves@.len() as int
    } else {
        let m = min_moves(vs.drop_last());
        let l = vs.last().moves@.len() as int;
        if l < m {
            l
        } else {
            m
        }
    }
}

/// The cost of a row: the move count of its first plain variant, or else
/// the least move count among its variants.
pub open spec fn base_cost(vs: Seq<Alg>) -> int {
    let f = first_plain(vs, 0);
    if f < vs.len() {
        vs[f].moves@.len() as int
    } else {
        min_moves(vs)
    }
}

impl Candidate {
    /// The candidate labelled `label` whose variants are `variants`.
    pub fn from_variants(label: String, variants: Vec<Alg>) -> (c: Candidate)
        ensures
            c.label == label,
            c.variants@ == variants@,
            c.cost_moves as int == base_cost(variants@),
    {
        let n = variants.len();
        let mut k: usize = 0;
        while k < n && (variants[k].mirror || variants[k].invert)
            invariant
                k <= n,
                n == variants@.len(),
                first_plain(variants@, 0) == first_plain(variants@, k as int),
            decreases n - k,
        {
            k = k + 1;
        }
        let cost_moves = if k < n {
            variants[k].moves.len()
        } else if n == 0 {
            0
        } else {
            let mut m = variants[0].moves.len();
            let mut i: usize = 1;
            while i < n
                invariant
                    1 <= i <= n,
                    n == variants@.len(),
                    m as int == min_moves(variants@.take(i as int)),
                decreases n - i,
            {
                let l = variants[i].moves.len();
                proof {
                    let t = variants@.take(i + 1);
                    assert(t.drop_last() =~= variants@.take(i as int));
                    assert(t.last() == variants@[i as int]);
                }
                if l < m {
                    m = l;
                }
                i = i + 1;
            }
            assert(variants@.take(n as int) =~= variants@);
            m
        };
        Candidate { label, cost_moves, variants }
    }
}

/// What a mirror field asks for: `Some(mirror)` for `fb`, `lr`, `no` or
/// empty (in any case), `None` for anything else.
pub open spec fn mirror_field(f: Seq<char>) -> Option<Option<Mirror>> {
    if lower_matches(f, seq!['f', 'b']) {
        Some(Some(Mirror::FB))
    } else if lower_matches(f, seq!['l', 'r']) {
        Some(Some(Mirror::LR))
    } else if lower_matches(f, seq!['n', 'o']) || f.len() == 0 {
        Some(None)
    } else {
        None
    }
}

/// The mirror field of a CSV row names its axis as a JSON entry's `mirror`
/// does: `fb` in any case is the front-back mirror and `lr` in any case the
/// left-right one, the same as the JSON strings `"FB"` and `"LR"`; `no` in
/// any case, and the empty field, ask for none, as JSON `null` does.
pub proof fn lemma_mirror_field_axes(f: Seq<char>)
    ensures
        f.len() == 2 && (f[0] == 'f' || f[0] == 'F') && (f[1] == 'b' || f[1] == 'B') ==> mirror_field(f) == Some(
            Some(Mirror::FB),
        ),
        f.len() == 2 && (f[0] == 'l' || f[0] == 'L') && (f[1] == 'r' || f[1] == 'R') ==> mirror_field(f) == Some(
            Some(Mirror::LR),
        ),
        f.len() == 2 && (f[0] == 'n' || f[0] == 'N') && (f[1] == 'o' || f[1] == 'O') ==> mirror_field(f) == Some(
            None::<Mirror>,
        ),
        f.len() == 0 ==> mirror_field(f) == Some(None::<Mirror>),
        mirror_field(seq!['F', 'B']) == view_mirror((3int, false, seq!['F', 'B'], Seq::empty(), Seq::empty())),
        mirror_field(seq!['L', 'R']) == view_mirror((3int, false, seq!['L', 'R'], Seq::empty(), Seq::empty())),
        mirror_field(Seq::empty()) == view_mirror((0int, false, Seq::empty(), Seq::empty(), Seq::empty())),
{
    reveal_strlit("FB");
    reveal_strlit("LR");
    assert(upper_of('f') == 'F' && upper_of('b') == 'B' && upper_of('l') == 'L' && upper_of('r') == 'R');
    assert(upper_of('n') == 'N' && upper_of('o') == 'O');
    let fb = seq!['F', 'B'];
    let lr = seq!['L', 'R'];
    assert(lower_matches(fb, seq!['f', 'b']));
    assert(lower_matches(lr, seq!['l', 'r']));
    assert(!lower_matches(lr, seq!['f', 'b']));
    assert(fb =~= "FB"@);
    assert(lr =~= "LR"@);
    if f.len() == 2 && (f[0] == 'l' || f[0] == 'L') && (f[1] == 'r' || f[1] == 'R') {
        assert(!lower_matches(f, seq!['f', 'b']));
        assert(lower_matches(f, seq!['l', 'r']));
    }
    if f.len() == 2 && (f[0] == 'f' || f[0] == 'F') && (f[1] == 'b' || f[1] == 'B') {
        assert(lower_matches(f, seq!['f', 'b']));
    }
    if f.len() == 2 && (f[0] == 'n' || f[0] == 'N') && (f[1] == 'o' || f[1] == 'O') {
        assert(!lower_matches(f, seq!['f', 'b']));
        assert(!lower_matches(f, seq!['l', 'r']));
        assert(lower_matches(f, seq!['n', 'o']));
    }
}

/// What an invert field asks for: `Some(true)` for `yes`, `Some(false)` for
/// `no` or empty (in any case), `None` for anything else.
pub open spec fn invert_field(f: Seq<char>) -> Option<bool> {
    if lower_matches(f, seq!['y', 'e', 's']) {
        Some(true)
    } else if lower_matches(f, seq!['n', 'o']) || f.len() == 0 {
        Some(false)
    } else {
        None
    }
}

/// The variants, as plain values, that a row with these moves and choices
/// stands for, all named `name`.
pub open spec fn variant_views(name: Seq<char>, ms: Seq<Move>, mirror: Option<Mirror>, invert: bool) -> Seq<AlgView> {
    let specs = variant_specs(ms, mirror, invert);
    Seq::new(specs.len(), |i: int| (name, specs[i].0, specs[i].1, specs[i].2))
}

/// The outcome of the first `k` lines of a CSV list: the candidates and the
/// errors, each in line order. A line, trimmed, is skipped when empty;
/// otherwise its comma-separated fields, trimmed, are the moves, the mirror
/// and the invert choice. The candidate is labelled with the moves field and
/// its variants are named with that field without white space.
pub open spec fn csv_outcome(ls: Seq<Seq<char>>, k: nat) -> (Seq<CandidateView>, Seq<ErrorView>)
    decreases k,
{
    if k == 0 || k > ls.len() {
        (Seq::empty(), Seq::empty())
    } else {
        let (cs, es) = csv_outcome(ls, (k - 1) as nat);
        let line = trim(ls[k - 1]);
        let no = k as int;
        let fields = split_on(line, ',');
        if line.len() == 0 {
            (cs, es)
        } else if fields.len() < 3 {
            (cs, es.push((0, no, line)))
        } else {
            let mv = trim(fields[0]);
            let mf = trim(fields[1]);
            let vf = trim(fields[2]);
            match mirror_field(mf) {
                None => (cs, es.push((1, no, mf))),
                Some(mirror) => match invert_field(vf) {
                    None => (cs, es.push((2, no, vf))),
                    Some(invert) => {
                        let parsed = read_moves(mv, 0);
                        if parsed.1 != mv.len() {
                            (cs, es.push((3, no, parse_error_message(mv, parsed.1 as nat))))
                        } else {
                            let name = remove_whitespace(mv);
                            (cs.push((mv, parsed.0.len() as int, variant_views(name, parsed.0, mirror, invert))), es)
                        }
                    },
                },
            }
        }
    }
}

pub open spec fn views_of_candidates(cs: Seq<Candidate>) -> Seq<CandidateView> {
    Seq::new(cs.len(), |i: int| candidate_view(cs[i]))
}

pub open spec fn views_of_errors(es: Seq<LoadError>) -> Seq<ErrorView> {
    Seq::new(es.len(), |i: int| error_view(es[i]))
}

/// The candidate (or error) for an entry with these moves and choices.
fn make_candidate(
    label: String,
    name: &str,
    moves: &str,
    mirror: Option<Mirror>,
    invert: bool,
) -> (r: Result<Candidate, String>)
    ensures
        read_moves(moves@, 0).1 != moves@.len() ==> (r matches Err(msg)
            && msg@ == parse_error_message(moves@, read_moves(moves@, 0).1 as nat)),
        read_moves(moves@, 0).1 == moves@.len() ==> (r matches Ok(c) && {
            &&& candidate_view(c) == (label@, read_moves(moves@, 0).0.len() as int,
                variant_views(name@, read_moves(moves@, 0).0, mirror, invert))
            &&& forall|i: int| 0 <= i < c.variants@.len()
                ==> (#[trigger] c.variants@[i]).transform@ == moves_state(c.variants@[i].moves@)
        }),
{
    match create_algset(name, moves, mirror, invert) {
        Ok(variants) => {
            let ghost specs = variant_specs(read_moves(moves@, 0).0, mirror, invert);
            let c = Candidate::from_variants(label, variants);
            proof {
                assert(specs[0].1 == false && specs[0].2 == false);
                assert(first_plain(c.variants@, 0) == 0);
                assert(Seq::new(c.variants@.len(), |i: int| alg_view(c.variants@[i]))
                    =~= variant_views(name@, read_moves(moves@, 0).0, mirror, invert));
            }
            Ok(c)
        },
        Err(msg) => Err(msg),
    }
}


fn mirror_of(f: &Vec<char>) -> (r: Option<Option<Mirror>>)
    ensures
        r == mirror_field(f@),
{
    let fb = vec!['f', 'b'];
    let lr = vec!['l', 'r'];
    let no = vec!['n', 'o'];
    assert(fb@ =~= seq!['f', 'b']);
    assert(lr@ =~= seq!['l', 'r']);
    assert(no@ =~= seq!['n', 'o']);
    if lower_equals(f, &fb) {
        Some(Some(Mirror::FB))
    } else if lower_equals(f, &lr) {
        Some(Some(Mirror::LR))
    } else if lower_equals(f, &no) || f.len() == 0 {
        Some(None)
    } else {
        None
    }
}

fn invert_of(f: &Vec<char>) -> (r: Option<bool>)
    ensures
        r == invert_field(f@),
{
    let yes = vec!['y', 'e', 's'];
    let no = vec!['n', 'o'];
    assert(yes@ =~= seq!['y', 'e', 's']);
    assert(no@ =~= seq!['n', 'o']);
    if lower_equals(f, &yes) {
        Some(true)
    } else if lower_equals(f, &no) || f.len() == 0 {
        Some(false)
    } else {
        None
    }
}

/// Reads a CSV candidate list: one algorithm per line as
/// `moves,mirror,invert`, mirror one of `fb`, `lr`, `no` and invert one of
/// `yes`, `no` (see `csv_outcome`). Returns the candidates and, for each
/// line that could not be used, why.
pub fn load_csv(content: &str) -> (r: (Vec<Candidate>, Vec<LoadError>))
    ensures
        (views_of_candidates(r.0@), views_of_errors(r.1@)) == csv_outcome(lines_of(content@),
            lines_of(content@).len()),
        transforms_agree(r.0@),
{
    let cs = chars_of(content);
    let ls = lines(&cs);
    let ghost lv = lines_of(content@);
    let mut candidates: Vec<Candidate> = Vec::new();
    let mut errors: Vec<LoadError> = Vec::new();
    let n = ls.len();
    let mut k: usize = 0;
    assert(views_of_candidates(candidates@) =~= Seq::<CandidateView>::empty());
    assert(views_of_errors(errors@) =~= Seq::<ErrorView>::empty());
    while k < n
        invariant
            k <= n,
            n == lv.len(),
            ls@.len() == n,
            forall|t: int| 0 <= t < n ==> (#[trigger] ls@[t])@ == lv[t],
            (views_of_candidates(candidates@), views_of_errors(errors@)) == csv_outcome(lv, k as nat),
            transforms_agree(candidates@),
        decreases n - k,
    {
        let line = trim_chars(&ls[k]);
        let no = k + 1;
        let ghost before_c = candidates@;
        let ghost before_e = errors@;
        if line.len() > 0 {
            let fields = split_chars(&line, ',');
            if fields.len() < 3 {
                errors.push(LoadError::Format(no, string_from(&line)));
                assert(views_of_errors(errors@) =~= views_of_errors(before_e).push((0, no as int, line@)));
            } else {
                let mv = trim_chars(&fields[0]);
                let mf = trim_chars(&fields[1]);
                let vf = trim_chars(&fields[2]);
                match mirror_of(&mf) {
                    None => {
                        errors.push(LoadError::UnknownMirror(no, string_from(&mf)));
                        assert(views_of_errors(errors@) =~= views_of_errors(before_e).push((1, no as int, mf@)));
                    },
                    Some(mirror) => match invert_of(&vf) {
                        None => {
                            errors.push(LoadError::UnknownInvert(no, string_from(&vf)));
                            assert(views_of_errors(errors@) =~= views_of_errors(before_e).push((2, no as int, vf@)));
                        },
                        Some(invert) => {
                            let stripped = remove_whitespace_chars(&mv);
                            let name = string_from(&stripped);
                            let moves = string_from(&mv);
                            let label = string_from(&mv);
                            match make_candidate(label, name.as_str(), moves.as_str(), mirror, invert) {
                                Ok(c) => {
                                    candidates.push(c);
                                    assert(views_of_candidates(candidates@) =~= views_of_candidates(before_c).push(
                                        (mv@, read_moves(mv@, 0).0.len() as int,
                                        variant_views(remove_whitespace(mv@), read_moves(mv@, 0).0, mirror, invert))));
                                },
                                Err(msg) => {
                                    errors.push(LoadError::BadMoves(no, msg));
                                    assert(views_of_errors(errors@) =~= views_of_errors(before_e).push(
                                        (3, no as int, parse_error_message(mv@, read_moves(mv@, 0).1 as nat))));
                                },
                            }
                        },
                    },
                }
            }
        }
        k = k + 1;
    }
    (candidates, errors)
}


/// One entry of a JSON candidate list: `{name, moves, mirror, invert}`,
/// with its number in the list (counted from 1).
pub struct AlgEntry {
    pub number: usize,
    pub name: Option<String>,
    pub moves: String,
    pub mirror: Option<Mirror>,
    pub invert: bool,
}

/// The label of an entry: its name, or `entry ` and its number.
pub open spec fn entry_label(e: AlgEntry) -> Seq<char> {
    match e.name {
        Some(n) => n@,
        None => "entry "@ + decimal(e.number as nat),
    }
}

/// The outcome of the first `k` entries of a JSON list: each entry gives a
/// candidate, labelled as `entry_label` says and with variants of that name,
/// or, when its moves cannot be read, an error with the entry's number.
pub open spec fn entries_outcome(es: Seq<AlgEntry>, k: nat) -> (Seq<CandidateView>, Seq<ErrorView>)
    decreases k,
{
    if k == 0 || k > es.len() {
        (Seq::empty(), Seq::empty())
    } else {
        let (cs, errs) = entries_outcome(es, (k - 1) as nat);
        let e = es[k - 1];
        let label = entry_label(e);
        let parsed = read_moves(e.moves@, 0);
        if parsed.1 != e.moves@.len() {
            (cs, errs.push((4, e.number as int, parse_error_message(e.moves@, parsed.1 as nat))))
        } else {
            (cs.push((label, parsed.0.len() as int, variant_views(label, parsed.0, e.mirror, e.invert))), errs)
        }
    }
}

/// Turns the entries of a JSON candidate list into candidates (see
/// `entries_outcome`). Returns the candidates and, for each entry that could
/// not be used, why.
pub fn load_entries(entries: &Vec<AlgEntry>) -> (r: (Vec<Candidate>, Vec<LoadError>))
    ensures
        (views_of_candidates(r.0@), views_of_errors(r.1@)) == entries_outcome(entries@, entries@.len()),
        transforms_agree(r.0@),
{
    let mut candidates: Vec<Candidate> = Vec::new();
    let mut errors: Vec<LoadError> = Vec::new();
    let n = entries.len();
    let mut k: usize = 0;
    assert(views_of_candidates(candidates@) =~= Seq::<CandidateView>::empty());
    assert(views_of_errors(errors@) =~= Seq::<ErrorView>::empty());
    while k < n
        invariant
            k <= n,
            n == entries@.len(),
            (views_of_candidates(candidates@), views_of_errors(errors@)) == entries_outcome(entries@, k as nat),
            transforms_agree(candidates@),
        decreases n - k,
    {
        let e = &entries[k];
        let label = match &e.name {
            Some(name) => name.clone(),
            None => {
                let mut l = String::from_str("entry ");
                push_decimal(&mut l, e.number);
                l
            },
        };
        let name = label.clone();
        let ghost before_c = candidates@;
        let ghost before_e = errors@;
        match make_candidate(label, name.as_str(), e.moves.as_str(), e.mirror, e.invert) {
            Ok(c) => {
                candidates.push(c);
                assert(views_of_candidates(candidates@) =~= views_of_candidates(before_c).push(
                    (entry_label(*e), read_moves(e.moves@, 0).0.len() as int,
                    variant_views(entry_label(*e), read_moves(e.moves@, 0).0, e.mirror, e.invert))));
            },
            Err(msg) => {
                errors.push(LoadError::BadEntry(e.number, msg));
                assert(views_of_errors(errors@) =~= views_of_errors(before_e).push(
                    (4, e.number as int, parse_error_message(e.moves@, read_moves(e.moves@, 0).1 as nat))));
            },
        }
        k = k + 1;
    }
    (candidates, errors)
}

/// The variants of the candidates `cs`, candidate by candidate.
pub open spec fn variants_of(cs: Seq<Candidate>) -> Seq<AlgView>
    decreases cs.len(),
{
    if cs.len() == 0 {
        Seq::empty()
    } else {
        variants_of(cs.drop_last()) + alg_views(cs.last().variants@)
    }
}

/// Every variant of every candidate, candidate by candidate, each with its
/// transform.
pub fn all_variants(cands: &Vec<Candidate>) -> (r: Vec<Alg>)
    ensures
        alg_views(r@) == variants_of(cands@),
        transforms_agree(cands@) ==> forall|i: int| 0 <= i < r@.len()
            ==> (#[trigger] r@[i]).transform@ == moves_state(r@[i].moves@),
{
    let mut r: Vec<Alg> = Vec::new();
    let n = cands.len();
    let mut k: usize = 0;
    while k < n
        invariant
            k <= n,
            n == cands@.len(),
            alg_views(r@) == variants_of(cands@.take(k as int)),
            transforms_agree(cands@) ==> forall|i: int| 0 <= i < r@.len()
                ==> (#[trigger] r@[i]).transform@ == moves_state(r@[i].moves@),
        decreases n - k,
    {
        let vs = &cands[k].variants;
        let ghost before = r@;
        let m = vs.len();
        let mut i: usize = 0;
        while i < m
            invariant
                k < n,
                n == cands@.len(),
                i <= m,
                m == vs@.len(),
                vs == &cands@[k as int].variants,
                r@.len() == before.len() + i,
                forall|t: int| 0 <= t < before.len() ==> r@[t] == before[t],
                forall|t: int| 0 <= t < i ==> alg_view(#[trigger] r@[before.len() + t]) == alg_view(vs@[t])
                    && r@[before.len() + t].transform@ == vs@[t].transform@,
            decreases m - i,
        {
            r.push(vs[i].duplicate());
            i = i + 1;
        }
        proof {
            let t = cands@.take(k + 1);
            assert(t.drop_last() =~= cands@.take(k as int));
            assert(t.last() == cands@[k as int]);
            assert(alg_views(r@) =~= alg_views(before) + alg_views(vs@)) by {
                assert forall|j: int| 0 <= j < r@.len() implies #[trigger] alg_views(r@)[j]
                    == (alg_views(before) + alg_views(vs@))[j] by {
                    if j >= before.len() {
                        assert(alg_view(r@[before.len() + (j - before.len())]) == alg_view(vs@[j - before.len()]));
                    }
                }
            }
            if transforms_agree(cands@) {
                assert forall|j: int| 0 <= j < r@.len() implies (#[trigger] r@[j]).transform@ == moves_state(r@[j].moves@) by {
                    if j >= before.len() {
                        let q = j - before.len();
                        assert(r@[before.len() + q].transform@ == vs@[q].transform@);
                        assert(alg_view(r@[before.len() + q]) == alg_view(vs@[q]));
                        assert(cands@[k as int].variants@[q].transform@ == moves_state(cands@[k as int].variants@[q].moves@));
                    } else {
                        assert(r@[j] == before[j]);
                    }
                }
            }
        }
        k = k + 1;
    }
    assert(cands@.take(n as int) =~= cands@);
    r
}

// ---------------------------------------------------------------------------
// JSON candidate lists.

/// What an entry numbered `number`, with these fields, gives: a candidate
/// labelled with its name (or `entry ` and its number) whose variants bear
/// that label, or, when its moves cannot be read, the reader's error.
pub open spec fn entry_step(
    number: int,
    name: Option<Seq<char>>,
    moves: Seq<char>,
    mirror: Option<Mirror>,
    invert: bool,
) -> Result<CandidateView, ErrorView> {
    let label = match name {
        Some(n) => n,
        None => "entry "@ + decimal(number as nat),
    };
    let parsed = read_moves(moves, 0);
    if parsed.1 != moves.len() {
        Err((4, number, parse_error_message(moves, parsed.1 as nat)))
    } else {
        Ok((label, parsed.0.len() as int, variant_views(label, parsed.0, mirror, invert)))
    }
}

/// The value of the first member of `fields` at or after `i` whose key is
/// `key`.
pub open spec fn field_from<V>(fields: Seq<(Seq<char>, V)>, key: Seq<char>, i: int) -> Option<V>
    decreases fields.len() - i,
{
    if i < 0 || i >= fields.len() {
        None
    } else if fields[i].0 == key {
        Some(fields[i].1)
    } else {
        field_from(fields, key, i + 1)
    }
}

/// The string that the value `v` is, if it is a string.
pub open spec fn view_str(v: JsonView) -> Option<Seq<char>> {
    if v.0 == 3 {
        Some(v.2)
    } else {
        None
    }
}

/// What a `mirror` field's value asks for: `null` none, `"FB"` or `"LR"`
/// that mirror; `None` for anything else.
pub open spec fn view_mirror(v: JsonView) -> Option<Option<Mirror>> {
    if v.0 == 0 {
        Some(None)
    } else if v.0 == 3 && v.2 == "FB"@ {
        Some(Some(Mirror::FB))
    } else if v.0 == 3 && v.2 == "LR"@ {
        Some(Some(Mirror::LR))
    } else {
        None
    }
}

/// What an `invert` field's value asks for: `null` no, `true` or `false`;
/// `None` for anything else.
pub open spec fn view_invert(v: JsonView) -> Option<bool> {
    if v.0 == 0 {
        Some(false)
    } else if v.0 == 1 {
        Some(v.1)
    } else {
        None
    }
}

/// The fields of an entry whose object has the members `fs`, as (name,
/// moves, mirror, invert), or what is wrong with them: `name` is used when
/// it is a string; `moves` must be a string; `mirror`, when present, `null`,
/// `"FB"` or `"LR"`; `invert`, when present, `null` or a boolean. The first
/// of these that fails gives the error. Of a key given twice, the first
/// member counts.
pub open spec fn members_entry(fs: Seq<(Seq<char>, JsonView)>) -> Result<(Option<Seq<char>>, Seq<char>, Option<Mirror>, bool), Seq<char>> {
    let name = match field_from(fs, "name"@, 0) {
        Some(v) => view_str(v),
        None => None,
    };
    match field_from(fs, "moves"@, 0) {
        None => Err("missing field `moves`"@),
        Some(mv) => match view_str(mv) {
            None => Err("`moves` is not a string"@),
            Some(moves) => {
                let mirror = match field_from(fs, "mirror"@, 0) {
                    Some(v) => view_mirror(v),
                    None => Some(None),
                };
                let invert = match field_from(fs, "invert"@, 0) {
                    Some(v) => view_invert(v),
                    None => Some(false),
                };
                match mirror {
                    None => Err("`mirror` is not \"FB\", \"LR\" or null"@),
                    Some(mi) => match invert {
                        None => Err("`invert` is not true, false or null"@),
                        Some(inv) => Ok((name, moves, mi, inv)),
                    },
                }
            },
        },
    }
}

/// The members `fs` (keys and JSON texts) with each value read as JSON;
/// none when one of the texts is not JSON.
pub open spec fn read_members(fs: Seq<(Seq<char>, Seq<char>)>) -> Option<Seq<(Seq<char>, JsonView)>>
    decreases fs.len(),
{
    if fs.len() == 0 {
        Some(Seq::empty())
    } else {
        match read_members(fs.drop_last()) {
            Some(r) => match json_of(fs.last().1) {
                Some(v) => Some(r.push((fs.last().0, v))),
                None => None,
            },
            None => None,
        }
    }
}

/// The fields of the entry whose JSON text is `item` (see
/// `members_entry`), or what is wrong with it; it must be an object.
pub open spec fn decode_entry(item: Seq<char>) -> Result<(Option<Seq<char>>, Seq<char>, Option<Mirror>, bool), Seq<char>> {
    match json_of(item) {
        None => Err("not JSON"@),
        Some(v) => if v.0 != 5 {
            Err("not an object"@)
        } else {
            match read_members(v.4) {
                None => Err("not JSON"@),
                Some(ms) => members_entry(ms),
            }
        },
    }
}

/// The outcome of the first `k` entries (JSON texts) of a JSON list: the
/// candidates and the errors, each in entry order, entries numbered from 1.
pub open spec fn json_outcome(items: Seq<Seq<char>>, k: nat) -> (Seq<CandidateView>, Seq<ErrorView>)
    decreases k,
{
    if k == 0 || k > items.len() {
        (Seq::empty(), Seq::empty())
    } else {
        let (cs, es) = json_outcome(items, (k - 1) as nat);
        match decode_entry(items[k - 1]) {
            Err(msg) => (cs, es.push((5, k as int, msg))),
            Ok((name, moves, mirror, invert)) => match entry_step(k as int, name, moves, mirror, invert) {
                Ok(c) => (cs.push(c), es),
                Err(e) => (cs, es.push(e)),
            },
        }
    }
}

pub open spec fn opt_view(o: Option<String>) -> Option<Seq<char>> {
    match o {
        Some(s) => Some(s@),
        None => None,
    }
}

/// Members as plain values: each key with the JSON text of its value.
pub open spec fn members_view(fields: Seq<(String, String)>) -> Seq<(Seq<char>, Seq<char>)> {
    Seq::new(fields.len(), |i: int| (fields[i].0@, fields[i].1@))
}

/// Members as plain values: each key with its value.
pub open spec fn members_json_view(fields: Seq<(String, JsonValue)>) -> Seq<(Seq<char>, JsonView)> {
    Seq::new(fields.len(), |i: int| (fields[i].0@, json_view(fields[i].1)))
}

/// An entry's fields as plain values: (name, moves, mirror, invert).
pub open spec fn entry_fields(e: AlgEntry) -> (Option<Seq<char>>, Seq<char>, Option<Mirror>, bool) {
    (opt_view(e.name), e.moves@, e.mirror, e.invert)
}

/// The index of the first member of `fields` whose key is `key`.
fn find_field(fields: &Vec<(String, JsonValue)>, key: &String) -> (r: Option<usize>)
    ensures
        match r {
            Some(i) => i < fields@.len() && field_from(members_json_view(fields@), key@, 0) == Some(
                json_view(fields@[i as int].1)),
            None => field_from(members_json_view(fields@), key@, 0) is None,
        },
{
    let ghost fv = members_json_view(fields@);
    let mut i: usize = 0;
    while i < fields.len()
        invariant
            i <= fields@.len(),
            fv == members_json_view(fields@),
            field_from(fv, key@, 0) == field_from(fv, key@, i as int),
        decreases fields@.len() - i,
    {
        if fields[i].0 == *key {
            return Some(i);
        }
        i = i + 1;
    }
    None
}

fn str_value(v: &JsonValue) -> (r: Option<String>)
    ensures
        opt_view(r) == view_str(json_view(*v)),
{
    match v {
        JsonValue::Str(s) => Some(s.clone()),
        _ => None,
    }
}

fn mirror_value(v: &JsonValue) -> (r: Option<Option<Mirror>>)
    ensures
        r == view_mirror(json_view(*v)),
{
    match v {
        JsonValue::Null => Some(None),
        JsonValue::Str(s) => {
            let fb = String::from_str("FB");
            let lr = String::from_str("LR");
            if *s == fb {
                Some(Some(Mirror::FB))
            } else if *s == lr {
                Some(Some(Mirror::LR))
            } else {
                None
            }
        },
        _ => None,
    }
}

fn invert_value(v: &JsonValue) -> (r: Option<bool>)
    ensures
        r == view_invert(json_view(*v)),
{
    match v {
        JsonValue::Null => Some(false),
        JsonValue::Bool(b) => Some(*b),
        _ => None,
    }
}

/// Reads the entry numbered `number` of a JSON list from the members of its
/// object, already read as JSON values (see `members_entry`): the entry, or
/// a `BadField` error that says what is wrong.
pub fn decode_members(number: usize, members: &Vec<(String, JsonValue)>) -> (r: Result<AlgEntry, LoadError>)
    ensures
        match r {
            Ok(e) => e.number == number && members_entry(members_json_view(members@)) == Ok::<
                (Option<Seq<char>>, Seq<char>, Option<Mirror>, bool),
                Seq<char>,
            >(entry_fields(e)),
            Err(err) => members_entry(members_json_view(members@)) matches Err(msg) && error_view(err) == (
                5int,
                number as int,
                msg,
            ),
        },
{
    let name = match find_field(members, &String::from_str("name")) {
        Some(i) => str_value(&members[i].1),
        None => None,
    };
    let moves = match find_field(members, &String::from_str("moves")) {
        None => {
            return Err(LoadError::BadField(number, String::from_str("missing field `moves`")));
        },
        Some(i) => match str_value(&members[i].1) {
            None => {
                return Err(LoadError::BadField(number, String::from_str("`moves` is not a string")));
            },
            Some(m) => m,
        },
    };
    let mirror = match find_field(members, &String::from_str("mirror")) {
        Some(i) => mirror_value(&members[i].1),
        None => Some(None),
    };
    let invert = match find_field(members, &String::from_str("invert")) {
        Some(i) => invert_value(&members[i].1),
        None => Some(false),
    };
    match mirror {
        None => Err(LoadError::BadField(number, String::from_str("`mirror` is not \"FB\", \"LR\" or null"))),
        Some(mi) => match invert {
            None => Err(LoadError::BadField(number, String::from_str("`invert` is not true, false or null"))),
            Some(inv) => Ok(AlgEntry { number, name, moves, mirror: mi, invert: inv }),
        },
    }
}

/// Once a prefix of the members holds a text that is not JSON, every longer
/// prefix does.
proof fn lemma_members_none(fs: Seq<(Seq<char>, Seq<char>)>, j: int)
    requires
        0 <= j <= fs.len(),
        read_members(fs.take(j)) is None,
    ensures
        read_members(fs.take(fs.len() as int)) is None,
    decreases fs.len() - j,
{
    if j < fs.len() {
        assert(fs.take(j + 1).drop_last() =~= fs.take(j));
        lemma_members_none(fs, j + 1);
    }
}

/// Reads the JSON text of each member's value (see `read_members`).
fn parse_members(fields: &Vec<(String, String)>) -> (r: Option<Vec<(String, JsonValue)>>)
    ensures
        match r {
            Some(ms) => read_members(members_view(fields@)) == Some(members_json_view(ms@)),
            None => read_members(members_view(fields@)) is None,
        },
{
    let ghost fv = members_view(fields@);
    let mut out: Vec<(String, JsonValue)> = Vec::new();
    let mut i: usize = 0;
    assert(fv.take(0) =~= Seq::<(Seq<char>, Seq<char>)>::empty());
    assert(members_json_view(out@) =~= Seq::<(Seq<char>, JsonView)>::empty());
    while i < fields.len()
        invariant
            i <= fields@.len(),
            fv == members_view(fields@),
            read_members(fv.take(i as int)) == Some(members_json_view(out@)),
        decreases fields@.len() - i,
    {
        assert(fv.take(i + 1).drop_last() =~= fv.take(i as int));
        match parse_json(fields[i].1.as_str()) {
            Err(_) => {
                proof {
                    assert(read_members(fv.take(i + 1)) is None);
                    lemma_members_none(fv, i + 1);
                    assert(fv.take(fv.len() as int) =~= fv);
                }
                return None;
            },
            Ok(v) => {
                let ghost before = out@;
                out.push((fields[i].0.clone(), v));
                assert(members_json_view(out@) =~= members_json_view(before).push((fv[i as int].0, json_view(v))));
            },
        }
        i = i + 1;
    }
    assert(fv.take(i as int) =~= fv);
    Some(out)
}

/// Reads the entry numbered `number` from its JSON text (see
/// `decode_entry`).
fn item_entry(number: usize, item: &String) -> (r: Result<AlgEntry, LoadError>)
    ensures
        match r {
            Ok(e) => e.number == number && decode_entry(item@) == Ok::<
                (Option<Seq<char>>, Seq<char>, Option<Mirror>, bool),
                Seq<char>,
            >(entry_fields(e)),
            Err(err) => decode_entry(item@) matches Err(msg) && error_view(err) == (5int, number as int, msg),
        },
{
    let fields = match parse_json(item.as_str()) {
        Err(_) => {
            return Err(LoadError::BadField(number, String::from_str("not JSON")));
        },
        Ok(JsonValue::Object(fields)) => fields,
        Ok(_) => {
            return Err(LoadError::BadField(number, String::from_str("not an object")));
        },
    };
    assert(json_of(item@).unwrap().4 == members_view(fields@));
    match parse_members(&fields) {
        None => Err(LoadError::BadField(number, String::from_str("not JSON"))),
        Some(members) => decode_members(number, &members),
    }
}

/// The entries of a one-entry list give what `entry_step` says.
proof fn lemma_single_entry(e: AlgEntry)
    ensures
        entries_outcome(seq![e], 1) == (match entry_step(e.number as int, opt_view(e.name), e.moves@, e.mirror, e.invert) {
            Ok(c) => (seq![c], Seq::<ErrorView>::empty()),
            Err(x) => (Seq::<CandidateView>::empty(), seq![x]),
        }),
{
    let s = seq![e];
    assert(s[0] == e);
    reveal_with_fuel(entries_outcome, 2);
    match entry_step(e.number as int, opt_view(e.name), e.moves@, e.mirror, e.invert) {
        Ok(c) => {
            assert(Seq::<CandidateView>::empty().push(c) =~= seq![c]);
        },
        Err(x) => {
            assert(Seq::<ErrorView>::empty().push(x) =~= seq![x]);
        },
    }
}

/// Reads a JSON candidate list: an array of `{name, moves, mirror,
/// invert}` objects (see `decode_entry` and `json_outcome`). Fails, with
/// serde_json's message, when the text is not a JSON array; otherwise
/// returns the candidates and, for each entry that could not be used, why.
pub fn load_json(content: &str) -> (r: Result<(Vec<Candidate>, Vec<LoadError>), String>)
    ensures
        r is Err <==> json_list_of(content@) is Err,
        r matches Err(m) ==> json_list_of(content@) == Err::<Seq<Seq<char>>, Seq<char>>(m@),
        r matches Ok(p) ==> json_list_of(content@) matches Ok(items) && (views_of_candidates(p.0@), views_of_errors(
            p.1@,
        )) == json_outcome(items, items.len()) && transforms_agree(p.0@),
{
    let items = match parse_json_list(content) {
        Err(msg) => {
            return Err(msg);
        },
        Ok(items) => items,
    };
    let ghost iv = Seq::new(items@.len(), |i: int| items@[i]@);
    let mut candidates: Vec<Candidate> = Vec::new();
    let mut errors: Vec<LoadError> = Vec::new();
    let n = items.len();
    let mut k: usize = 0;
    assert(views_of_candidates(candidates@) =~= Seq::<CandidateView>::empty());
    assert(views_of_errors(errors@) =~= Seq::<ErrorView>::empty());
    while k < n
        invariant
            k <= n,
            n == items@.len(),
            iv.len() == n,
            forall|t: int| 0 <= t < n ==> (#[trigger] items@[t])@ == iv[t],
            (views_of_candidates(candidates@), views_of_errors(errors@)) == json_outcome(iv, k as nat),
            transforms_agree(candidates@),
        decreases n - k,
    {
        let no = k + 1;
        let ghost before_c = candidates@;
        let ghost before_e = errors@;
        assert(items@[k as int]@ == iv[k as int]);
        match item_entry(no, &items[k]) {
            Err(e) => {
                errors.push(e);
                assert(views_of_errors(errors@) =~= views_of_errors(before_e).push(error_view(e)));
            },
            Ok(entry) => {
                let ghost ev = entry;
                let one = vec![entry];
                let (mut cs, mut es) = load_entries(&one);
                proof {
                    assert(one@ =~= seq![ev]);
                    lemma_single_entry(ev);
                }
                let ghost cs0 = cs@;
                let ghost es0 = es@;
                candidates.append(&mut cs);
                errors.append(&mut es);
                assert(views_of_candidates(candidates@) =~= views_of_candidates(before_c) + views_of_candidates(cs0));
                assert(views_of_errors(errors@) =~= views_of_errors(before_e) + views_of_errors(es0));
                assert forall|j: int, i: int| 0 <= j < candidates@.len() && 0 <= i < candidates@[j].variants@.len()
                    implies (#[trigger] candidates@[j].variants@[i]).transform@ == moves_state(
                    candidates@[j].variants@[i].moves@) by {
                    if j < before_c.len() {
                        assert(candidates@[j] == before_c[j]);
                    } else {
                        assert(candidates@[j] == cs0[j - before_c.len()]);
                    }
                }
            },
        }
        k = k + 1;
    }
    Ok((candidates, errors))
}

/// The position of the last `.` in `s[..k]`, or -1.
pub open spec fn last_dot(s: Seq<char>, k: int) -> int
    decreases k,
{
    if k <= 0 || k > s.len() {
        -1
    } else if s[k - 1] == '.' {
        k - 1
    } else {
        last_dot(s, k - 1)
    }
}

/// A file name names a JSON list: its extension (what follows its last `.`,
/// when that dot is not its first character) is `json`, in any case.
pub open spec fn json_file_name(name: Seq<char>) -> bool {
    let d = last_dot(name, name.len() as int);
    d > 0 && lower_matches(name.subrange(d + 1, name.len() as int), seq!['j', 's', 'o', 'n'])
}

/// Whether the file name `name` names a JSON list (see `json_file_name`).
pub fn is_json_file_name(name: &str) -> (r: bool)
    ensures
        r == json_file_name(name@),
{
    let cs = chars_of(name);
    let mut k = cs.len();
    while k > 0 && cs[k - 1] != '.'
        invariant
            k <= cs@.len(),
            cs@ == name@,
            last_dot(cs@, cs@.len() as int) == last_dot(cs@, k as int),
        decreases k,
    {
        k = k - 1;
    }
    if k <= 1 {
        return false;
    }
    let d = k - 1;
    let ext = string_of(&cs, d + 1, cs.len());
    let ext_chars = chars_of(ext.as_str());
    let json = vec!['j', 's', 'o', 'n'];
    assert(json@ =~= seq!['j', 's', 'o', 'n']);
    lower_equals(&ext_chars, &json)
}

} // verus!
