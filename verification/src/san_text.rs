//! Writing a `Move` back out as SAN, and the laws that tie the written form
//! to `parse_san`.

use vstd::prelude::*;
use crate::text::{find_char, drop_char, trim, trim_start, trim_end, is_ws, string_from_chars};
use crate::san::{
    PieceKind, Square, Disambiguation, CheckState, Move, spec_letter, spec_from_letter,
    file_char, rank_char, file_of, rank_of, square_text, square_printable, valid_square,
    castle_text, castle_normalize, check_of_suffix, spec_parse_san, spec_parse_piece_move,
    spec_square_of, spec_square_from, spec_disambiguation, valid_promotion, is_file_char,
    is_rank_char, push_file,
    push_rank,
};

verus! {

/// The check marker written after a move.
pub open spec fn check_text(c: CheckState) -> Seq<char> {
    match c {
        CheckState::NoCheck => seq![],
        CheckState::Check => seq!['+'],
        CheckState::Checkmate => seq!['#'],
    }
}

pub open spec fn disambiguation_text(d: Disambiguation) -> Seq<char> {
    match d {
        Disambiguation::Unspecified => seq![],
        Disambiguation::File(f) => seq![file_char(f)],
        Disambiguation::Rank(r) => seq![rank_char(r)],
        Disambiguation::Square(sq) => square_text(sq),
    }
}

pub open spec fn piece_prefix(piece: PieceKind) -> Seq<char> {
    if piece == PieceKind::Pawn {
        seq![]
    } else {
        seq![spec_letter(piece)]
    }
}

pub open spec fn capture_text(capture: bool) -> Seq<char> {
    if capture {
        seq!['x']
    } else {
        seq![]
    }
}

pub open spec fn promotion_text(p: Option<PieceKind>) -> Seq<char> {
    match p {
        Some(k) => seq!['=', spec_letter(k)],
        None => seq![],
    }
}

/// The SAN text of a move, as `Move::to_string` writes it.
pub open spec fn move_text(m: Move) -> Seq<char> {
    match m {
        Move::Castle { kingside, check } => castle_text(kingside) + check_text(check),
        Move::Piece { piece, disambiguation, capture, to, promotion, check } => piece_prefix(
            piece,
        ) + disambiguation_text(disambiguation) + capture_text(capture) + square_text(to)
            + promotion_text(promotion) + check_text(check),
    }
}

/// Whether every square, file and rank a move names can be written as a
/// character.
pub open spec fn move_printable(m: Move) -> bool {
    match m {
        Move::Castle { .. } => true,
        Move::Piece { disambiguation, to, .. } => square_printable(to) && match disambiguation {
            Disambiguation::Unspecified => true,
            Disambiguation::File(f) => f <= 158,
            Disambiguation::Rank(r) => r <= 206,
            Disambiguation::Square(sq) => square_printable(sq),
        },
    }
}

/// The moves `parse_san` can produce: squares on the board, a promotion
/// only to a piece other than a pawn and only on a back rank, and a pawn
/// capture that names its origin.
pub open spec fn well_formed_move(m: Move) -> bool {
    match m {
        Move::Castle { .. } => true,
        Move::Piece { piece, disambiguation, capture, to, promotion, .. } => {
            &&& valid_square(to)
            &&& match disambiguation {
                Disambiguation::Unspecified => true,
                Disambiguation::File(f) => f < 8,
                Disambiguation::Rank(r) => r < 8,
                Disambiguation::Square(sq) => valid_square(sq),
            }
            &&& (promotion is Some ==> valid_promotion(promotion) && (to.rank == 0 || to.rank
                == 7))
            &&& (capture && piece == PieceKind::Pawn ==> disambiguation
                != Disambiguation::Unspecified)
        },
    }
}

fn push_check(out: &mut Vec<char>, check: CheckState)
    ensures
        final(out)@ == old(out)@ + check_text(check),
{
    match check {
        CheckState::NoCheck => {},
        CheckState::Check => out.push('+'),
        CheckState::Checkmate => out.push('#'),
    }
    assert(final(out)@ =~= old(out)@ + check_text(check));
}

fn push_disambiguation(out: &mut Vec<char>, d: Disambiguation)
    requires
        match d {
            Disambiguation::Unspecified => true,
            Disambiguation::File(f) => f <= 158,
            Disambiguation::Rank(r) => r <= 206,
            Disambiguation::Square(sq) => square_printable(sq),
        },
    ensures
        final(out)@ == old(out)@ + disambiguation_text(d),
{
    match d {
        Disambiguation::Unspecified => {},
        Disambiguation::File(f) => push_file(out, f),
        Disambiguation::Rank(r) => push_rank(out, r),
        Disambiguation::Square(sq) => {
            push_file(out, sq.file);
            push_rank(out, sq.rank);
        },
    }
    assert(final(out)@ =~= old(out)@ + disambiguation_text(d));
}

fn push_promotion(out: &mut Vec<char>, promotion: Option<PieceKind>)
    ensures
        final(out)@ == old(out)@ + promotion_text(promotion),
{
    match promotion {
        Some(p) => {
            out.push('=');
            out.push(p.to_letter());
        },
        None => {},
    }
    assert(final(out)@ =~= old(out)@ + promotion_text(promotion));
}

fn push_piece_prefix(out: &mut Vec<char>, piece: PieceKind)
    ensures
        final(out)@ == old(out)@ + piece_prefix(piece),
{
    match piece {
        PieceKind::Pawn => {},
        _ => out.push(piece.to_letter()),
    }
    assert(final(out)@ =~= old(out)@ + piece_prefix(piece));
}

fn push_square(out: &mut Vec<char>, sq: Square)
    requires
        square_printable(sq),
    ensures
        final(out)@ == old(out)@ + square_text(sq),
{
    push_file(out, sq.file);
    push_rank(out, sq.rank);
    assert(final(out)@ =~= old(out)@ + square_text(sq));
}

fn push_capture(out: &mut Vec<char>, capture: bool)
    ensures
        final(out)@ == old(out)@ + capture_text(capture),
{
    if capture {
        out.push('x');
    }
    assert(final(out)@ =~= old(out)@ + capture_text(capture));
}

impl Move {
    /// The SAN text of the move, such as `Nbxd7+` or `O-O-O`.
    pub fn to_string(&self) -> (s: String)
        requires
            move_printable(*self),
        ensures
            s@ == move_text(*self),
    {
        let mut v: Vec<char> = Vec::new();
        match *self {
            Move::Castle { kingside, check } => {
                v.push('O');
                v.push('-');
                v.push('O');
                if !kingside {
                    v.push('-');
                    v.push('O');
                }
                assert(v@ =~= castle_text(kingside));
                push_check(&mut v, check);
            },
            Move::Piece { piece, disambiguation, capture, to, promotion, check } => {
                push_piece_prefix(&mut v, piece);
                push_disambiguation(&mut v, disambiguation);
                push_capture(&mut v, capture);
                push_square(&mut v, to);
                push_promotion(&mut v, promotion);
                push_check(&mut v, check);
                assert(v@ =~= move_text(*self));
            },
        }
        string_from_chars(&v)
    }
}

// ----- lemmas about the text helpers -----

proof fn lemma_drop_char_append(a: Seq<char>, b: Seq<char>, c: char)
    ensures
        drop_char(a + b, c) == drop_char(a, c) + drop_char(b, c),
    decreases b.len(),
{
    if b.len() == 0 {
        assert(a + b =~= a);
        assert(drop_char(a, c) + drop_char(b, c) =~= drop_char(a, c));
    } else {
        lemma_drop_char_append(a, b.drop_last(), c);
        assert((a + b).drop_last() =~= a + b.drop_last());
        assert((a + b).last() == b.last());
        if b.last() == c {
        } else {
            assert(drop_char(a, c) + drop_char(b.drop_last(), c).push(b.last()) =~= (drop_char(
                a,
                c,
            ) + drop_char(b.drop_last(), c)).push(b.last()));
        }
    }
}

proof fn lemma_drop_char_absent(s: Seq<char>, c: char)
    requires
        !s.contains(c),
    ensures
        drop_char(s, c) == s,
    decreases s.len(),
{
    if s.len() > 0 {
        assert(s.last() == s[s.len() - 1]);
        assert forall|i: int| 0 <= i < s.drop_last().len() implies s.drop_last()[i] != c by {
            assert(s.drop_last()[i] == s[i]);
        }
        lemma_drop_char_absent(s.drop_last(), c);
        assert(s.drop_last().push(s.last()) =~= s);
    }
}

proof fn lemma_find_char_absent(s: Seq<char>, c: char)
    requires
        !s.contains(c),
    ensures
        find_char(s, c) is None,
    decreases s.len(),
{
    if s.len() > 0 {
        assert(s[0] != c);
        assert forall|i: int| 0 <= i < s.drop_first().len() implies s.drop_first()[i] != c by {
            assert(s.drop_first()[i] == s[i + 1]);
        }
        lemma_find_char_absent(s.drop_first(), c);
    }
}

pub(crate) proof fn lemma_find_char_append(a: Seq<char>, b: Seq<char>, c: char)
    requires
        !a.contains(c),
    ensures
        find_char(a + b, c) == match find_char(b, c) {
            Some(i) => Some(i + a.len()),
            None => None::<int>,
        },
    decreases a.len(),
{
    if a.len() == 0 {
        assert(a + b =~= b);
    } else {
        assert(a[0] != c);
        assert((a + b)[0] == a[0]);
        assert((a + b).drop_first() =~= a.drop_first() + b);
        assert forall|i: int| 0 <= i < a.drop_first().len() implies a.drop_first()[i] != c by {
            assert(a.drop_first()[i] == a[i + 1]);
        }
        lemma_find_char_append(a.drop_first(), b, c);
    }
}

proof fn lemma_trim_nonspace_ends(s: Seq<char>)
    requires
        s.len() > 0,
        !is_ws(s[0]),
        !is_ws(s.last()),
    ensures
        trim(s) == s,
{
    assert(trim_start(s) == s);
    assert(trim_end(s) == s);
}

proof fn lemma_file_char(f: u8)
    requires
        f < 8,
    ensures
        is_file_char(file_char(f)),
        file_of(file_char(f)) == f,
        !is_rank_char(file_char(f)),
        file_char(f) != 'x' && file_char(f) != '=' && file_char(f) != 'O' && file_char(f) != '0',
        file_char(f) != '+' && file_char(f) != '#',
        !is_ws(file_char(f)),
        spec_from_letter(file_char(f)) is None,
{
    assert(file_char(f) as u32 == 97 + f);
}

proof fn lemma_rank_char(r: u8)
    requires
        r < 8,
    ensures
        is_rank_char(rank_char(r)),
        rank_of(rank_char(r)) == r,
        !is_file_char(rank_char(r)),
        rank_char(r) != 'x' && rank_char(r) != '=' && rank_char(r) != 'O' && rank_char(r) != '0',
        rank_char(r) != '+' && rank_char(r) != '#',
        !is_ws(rank_char(r)),
        spec_from_letter(rank_char(r)) is None,
{
    assert(rank_char(r) as u32 == 49 + r);
}

proof fn lemma_letter(k: PieceKind)
    requires
        k != PieceKind::Pawn,
    ensures
        spec_from_letter(spec_letter(k)) == Some(k),
        !is_ws(spec_letter(k)),
        spec_letter(k) != 'x' && spec_letter(k) != '=' && spec_letter(k) != 'O' && spec_letter(k)
            != '0',
        spec_letter(k) != '+' && spec_letter(k) != '#',
{
}

proof fn lemma_square_text(sq: Square)
    requires
        valid_square(sq),
    ensures
        !square_text(sq).contains('x'),
        !square_text(sq).contains('='),
        spec_square_of(square_text(sq)[0], square_text(sq)[1]) == Some(sq),
        square_text(sq).len() == 2,
{
    lemma_file_char(sq.file);
    lemma_rank_char(sq.rank);
}

/// A square on the board is named by a text that `Square::from_str` reads
/// back as that square, and a text `Square::from_str` accepts is exactly
/// the name of the square it gives.
pub proof fn lemma_square_name_round_trip(sq: Square, s: Seq<char>)
    ensures
        valid_square(sq) ==> spec_square_from(square_text(sq)) == Some(sq),
        spec_square_from(s) matches Some(t) ==> valid_square(t) && square_text(t) == s,
{
    if valid_square(sq) {
        lemma_square_text(sq);
    }
    if let Some(t) = spec_square_from(s) {
        assert(s[0] as u32 == 97 + t.file);
        assert(s[1] as u32 == 49 + t.rank);
        assert(file_char(t.file) as u32 == 97 + t.file);
        assert(rank_char(t.rank) as u32 == 49 + t.rank);
        assert(square_text(t) =~= s);
    }
}

proof fn lemma_disambiguation_text(d: Disambiguation, body: Seq<char>)
    requires
        match d {
            Disambiguation::Unspecified => true,
            Disambiguation::File(f) => f < 8,
            Disambiguation::Rank(r) => r < 8,
            Disambiguation::Square(sq) => valid_square(sq),
        },
    ensures
        !disambiguation_text(d).contains('x'),
        !disambiguation_text(d).contains('='),
        spec_disambiguation(disambiguation_text(d), body) == Ok::<Disambiguation, crate::san::ErrorView>(d),
        disambiguation_text(d).len() > 0 ==> {
            let c = disambiguation_text(d)[0];
            &&& c != 'O' && c != '0' && !is_ws(c)
            &&& spec_from_letter(c) is None
        },
{
    match d {
        Disambiguation::Unspecified => {},
        Disambiguation::File(f) => {
            lemma_file_char(f);
        },
        Disambiguation::Rank(r) => {
            lemma_rank_char(r);
        },
        Disambiguation::Square(sq) => {
            lemma_square_text(sq);
            lemma_file_char(sq.file);
        },
    }
}

/// Every move `parse_san` accepts is well formed.
pub proof fn lemma_parsed_move_well_formed(s: Seq<char>)
    ensures
        spec_parse_san(s) matches Ok(m) ==> well_formed_move(m),
{
    let t = trim(s);
    if t.len() > 0 {
        let check = check_of_suffix(t.last());
        let body = if check == CheckState::NoCheck {
            t
        } else {
            t.drop_last()
        };
        if body.len() > 0 && castle_normalize(body) != castle_text(true) && castle_normalize(body)
            != castle_text(false) {
            lemma_piece_move_well_formed(body, check);
        }
    }
}

proof fn lemma_piece_move_well_formed(body: Seq<char>, check: CheckState)
    ensures
        spec_parse_piece_move(body, check) matches Ok(m) ==> well_formed_move(m),
{
}

pub open spec fn piece_body(
    piece: PieceKind,
    disambiguation: Disambiguation,
    capture: bool,
    to: Square,
    promotion: Option<PieceKind>,
) -> Seq<char> {
    piece_prefix(piece) + disambiguation_text(disambiguation) + capture_text(capture)
        + square_text(to) + promotion_text(promotion)
}

proof fn lemma_core_parses(piece: PieceKind, disambiguation: Disambiguation, capture: bool, to: Square, promotion: Option<PieceKind>, check: CheckState, body: Seq<char>)
    requires
        well_formed_move(Move::Piece { piece, disambiguation, capture, to, promotion, check }),
    ensures
        ({
            let m = Move::Piece { piece, disambiguation, capture, to, promotion, check };
            crate::san::spec_piece_core(
                piece,
                disambiguation_text(disambiguation) + capture_text(capture) + square_text(to),
                promotion,
                check,
                body,
            ) == Ok::<Move, crate::san::ErrorView>(m)
        }),
{
    let m = Move::Piece { piece, disambiguation, capture, to, promotion, check };
    let dt = disambiguation_text(disambiguation);
    let xt = capture_text(capture);
    let st = square_text(to);
    lemma_square_text(to);
    lemma_disambiguation_text(disambiguation, body);
    let core = dt + xt + st;
    assert(core.contains('x') == capture) by {
        if capture {
            assert(core[dt.len() as int] == 'x');
        } else {
            assert(core =~= dt + st);
            assert forall|i: int| 0 <= i < core.len() implies core[i] != 'x' by {
                if i < dt.len() {
                    assert(core[i] == dt[i]);
                } else {
                    assert(core[i] == st[i - dt.len()]);
                }
            }
        }
    }
    lemma_drop_char_append(dt + xt, st, 'x');
    lemma_drop_char_append(dt, xt, 'x');
    lemma_drop_char_absent(dt, 'x');
    lemma_drop_char_absent(st, 'x');
    assert(drop_char(xt, 'x') =~= Seq::<char>::empty()) by {
        assert(drop_char(Seq::<char>::empty(), 'x') == Seq::<char>::empty());
        if capture {
            assert(xt.drop_last() =~= Seq::<char>::empty());
        }
    }
    let w = drop_char(core, 'x');
    assert(w =~= dt + st);
    assert(w[w.len() - 2] == st[0] && w[w.len() - 1] == st[1]);
    assert(w.subrange(0, w.len() - 2) =~= dt);
}

proof fn lemma_body_parses(piece: PieceKind, disambiguation: Disambiguation, capture: bool, to: Square, promotion: Option<PieceKind>, check: CheckState)
    requires
        well_formed_move(Move::Piece { piece, disambiguation, capture, to, promotion, check }),
    ensures
        ({
            let m = Move::Piece { piece, disambiguation, capture, to, promotion, check };
            spec_parse_piece_move(piece_body(piece, disambiguation, capture, to, promotion), check)
                == Ok::<Move, crate::san::ErrorView>(m)
        }),
{
    let m = Move::Piece { piece, disambiguation, capture, to, promotion, check };
    let lp = piece_prefix(piece);
    let dt = disambiguation_text(disambiguation);
    let xt = capture_text(capture);
    let st = square_text(to);
    let pt = promotion_text(promotion);
    let body = piece_body(piece, disambiguation, capture, to, promotion);
    lemma_square_text(to);
    lemma_disambiguation_text(disambiguation, Seq::empty());
    lemma_file_char(to.file);
    if piece != PieceKind::Pawn {
        lemma_letter(piece);
    }
    if let Some(p) = promotion {
        lemma_letter(p);
    }
    lemma_core_parses(piece, disambiguation, capture, to, promotion, check, body);
    assert(body[0] == if piece != PieceKind::Pawn { spec_letter(piece) } else if dt.len() > 0 {
        dt[0]
    } else {
        st[0]
    });
    let lead = spec_from_letter(body[0]);
    assert(lead == if piece != PieceKind::Pawn { Some(piece) } else { None::<PieceKind> });
    let start: int = if lead is Some {
        1
    } else {
        0
    };
    assert(start == lp.len());
    let pre = lp + dt + xt + st;
    assert(body =~= pre + pt);
    assert(!pre.contains('=')) by {
        assert forall|i: int| 0 <= i < pre.len() implies pre[i] != '=' by {
            if i < lp.len() {
                assert(pre[i] == lp[i]);
            } else if i < lp.len() + dt.len() {
                assert(pre[i] == dt[i - lp.len()]);
            } else if i < lp.len() + dt.len() + xt.len() {
                assert(pre[i] == xt[i - lp.len() - dt.len()]);
            } else {
                assert(pre[i] == st[i - lp.len() - dt.len() - xt.len()]);
            }
        }
    }
    lemma_find_char_append(pre, pt, '=');
    let core = dt + xt + st;
    assert(pre =~= lp + core);
    if let Some(p) = promotion {
        assert(find_char(pt, '=') == Some(0int));
        assert(find_char(body, '=') == Some(pre.len() as int));
        assert(body[pre.len() + 1int] == spec_letter(p));
        assert(body.subrange(start, pre.len() as int) =~= core);
    } else {
        assert(pt.len() == 0);
        assert(find_char(pt, '=') is None);
        assert(body.subrange(start, body.len() as int) =~= core);
    }
}

proof fn lemma_piece_text_outer(piece: PieceKind, disambiguation: Disambiguation, capture: bool, to: Square, promotion: Option<PieceKind>, check: CheckState)
    requires
        well_formed_move(Move::Piece { piece, disambiguation, capture, to, promotion, check }),
    ensures
        ({
            let m = Move::Piece { piece, disambiguation, capture, to, promotion, check };
            spec_parse_san(move_text(m)) == spec_parse_piece_move(
                piece_body(piece, disambiguation, capture, to, promotion),
                check,
            )
        }),
{
    let m = Move::Piece { piece, disambiguation, capture, to, promotion, check };
    let dt = disambiguation_text(disambiguation);
    let st = square_text(to);
    let ct = check_text(check);
    let body = piece_body(piece, disambiguation, capture, to, promotion);
    let text = move_text(m);
    lemma_square_text(to);
    lemma_disambiguation_text(disambiguation, Seq::empty());
    lemma_file_char(to.file);
    lemma_rank_char(to.rank);
    if piece != PieceKind::Pawn {
        lemma_letter(piece);
    }
    if let Some(p) = promotion {
        lemma_letter(p);
    }
    assert(text =~= body + ct);
    let first = body[0];
    assert(first == if piece != PieceKind::Pawn { spec_letter(piece) } else if dt.len() > 0 {
        dt[0]
    } else {
        st[0]
    });
    assert(!is_ws(first) && first != 'O' && first != '0');
    let lastb = body.last();
    assert(lastb == if promotion is Some { spec_letter(promotion->0) } else { st[1] });
    assert(text.last() == if ct.len() > 0 { ct[0] } else { lastb });
    assert(text[0] == first);
    lemma_trim_nonspace_ends(text);
    assert(check_of_suffix(text.last()) == check);
    let b2 = if check == CheckState::NoCheck {
        text
    } else {
        text.drop_last()
    };
    assert(b2 =~= body);
    assert(castle_normalize(body)[0] == first);
    assert(castle_normalize(body) != castle_text(true));
    assert(castle_normalize(body) != castle_text(false));
}

/// A well-formed move, written out and read back, is the same move.
pub proof fn lemma_move_text_round_trip(m: Move)
    requires
        well_formed_move(m),
    ensures
        spec_parse_san(move_text(m)) == Ok::<Move, crate::san::ErrorView>(m),
{
    let text = move_text(m);
    match m {
        Move::Castle { kingside, check } => {
            let ct = castle_text(kingside);
            assert(text[0] == 'O');
            assert(text.last() == if check == CheckState::NoCheck { 'O' } else {
                check_text(check)[0]
            });
            lemma_trim_nonspace_ends(text);
            assert(check_of_suffix(text.last()) == check);
            let body = if check == CheckState::NoCheck {
                text
            } else {
                text.drop_last()
            };
            assert(body =~= ct);
            assert(castle_normalize(ct) =~= ct);
            if !kingside {
                assert(castle_normalize(ct).len() != castle_text(true).len());
            }
        },
        Move::Piece { piece, disambiguation, capture, to, promotion, check } => {
            lemma_piece_text_outer(piece, disambiguation, capture, to, promotion, check);
            lemma_body_parses(piece, disambiguation, capture, to, promotion, check);
        },
    }
}

/// Whatever `parse_san` accepts, written out with `Move::to_string` and
/// parsed again, gives back the same move.
pub proof fn lemma_parse_print_parse(s: Seq<char>)
    ensures
        spec_parse_san(s) matches Ok(m) ==> spec_parse_san(move_text(m)) == Ok::<
            Move,
            crate::san::ErrorView,
        >(m),
{
    lemma_parsed_move_well_formed(s);
    if let Ok(m) = spec_parse_san(s) {
        lemma_move_text_round_trip(m);
    }
}


proof fn lemma_trim_end_prefix(s: Seq<char>)
    ensures
        exists|k: int| 0 <= k <= s.len() && #[trigger] trim_end(s) == s.subrange(0, k),
        trim_end(s).len() > 0 ==> !is_ws(trim_end(s).last()),
    decreases s.len(),
{
    if s.len() > 0 && is_ws(s.last()) {
        lemma_trim_end_prefix(s.drop_last());
        let k = choose|k: int|
            0 <= k <= s.drop_last().len() && #[trigger] trim_end(s.drop_last()) == s.drop_last().subrange(
                0,
                k,
            );
        assert(s.drop_last().subrange(0, k) =~= s.subrange(0, k));
    } else {
        assert(s.subrange(0, s.len() as int) =~= s);
    }
}

proof fn lemma_trim_start_clean(s: Seq<char>)
    ensures
        trim_start(s).len() > 0 ==> !is_ws(trim_start(s)[0]),
    decreases s.len(),
{
    if s.len() > 0 && is_ws(s[0]) {
        lemma_trim_start_clean(s.drop_first());
    }
}

/// Trimming twice is trimming once.
pub proof fn lemma_trim_idempotent(s: Seq<char>)
    ensures
        trim(trim(s)) == trim(s),
{
    let t = trim_start(s);
    let u = trim_end(t);
    lemma_trim_start_clean(s);
    lemma_trim_end_prefix(t);
    let k = choose|k: int| 0 <= k <= t.len() && #[trigger] trim_end(t) == t.subrange(0, k);
    if u.len() > 0 {
        assert(u[0] == t[0]);
        assert(trim_start(u) == u);
        assert(trim_end(u) == u);
    } else {
        assert(trim_start(u) == u);
        assert(trim_end(u) == u);
    }
}

/// `parse_san` ignores whitespace around the move: the input reads the
/// same as the input trimmed.
pub proof fn lemma_parse_san_ignores_surrounding_whitespace(s: Seq<char>)
    ensures
        spec_parse_san(trim(s)) == spec_parse_san(s),
{
    lemma_trim_idempotent(s);
}
} // verus!
