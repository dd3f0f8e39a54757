//! Resolving a parsed SAN `Move` against a `Position`: finding which piece
//! on the board a move refers to.
//!
//! This checks piece movement geometry, blocking pieces on sliding moves,
//! whether a disambiguation narrows the candidates to exactly one piece,
//! whether a capture or non-capture matches what stands on the destination
//! square, and whether making the move would leave the mover's own king in
//! check (including a king castling out of, through, or into check).

use vstd::prelude::*;
use crate::text::{string_from_chars, decimal};
use crate::message::{push_str, push_count};
use crate::san::{PieceKind, Square, Disambiguation, Move, valid_square, square_printable, square_text};
use crate::fen::{Color, Piece, Position, PositionView};
use crate::attack::{
    on_board, at, attacked, other, square_attacked_by, clear_between, on_line, path_clear,
    abs_int,
};

verus! {

/// Why a move could not be resolved.
#[derive(Debug, Clone, Copy, PartialEq, Eq, Structural)]
pub enum ResolveErrorKind {
    NoCastlingRights,
    NoKingToCastle,
    NoRookToCastle,
    CastlingPathBlocked,
    CastlingThroughAttackedSquare,
    OccupiedByOwnPiece,
    OccupiedNeedsCapture,
    NothingToCapture,
    NoPieceCanReach,
    LeavesKingInCheck,
    Ambiguous,
}

#[derive(Debug, Clone, PartialEq, Eq)]
pub struct ResolveError {
    pub kind: ResolveErrorKind,
    pub message: String,
}

/// The content of a `ResolveError`: its kind and its message text.
pub struct ResolveErrorView {
    pub kind: ResolveErrorKind,
    pub message: Seq<char>,
}

impl View for ResolveError {
    type V = ResolveErrorView;

    open spec fn view(&self) -> ResolveErrorView {
        ResolveErrorView { kind: self.kind, message: self.message@ }
    }
}

/// A refusal of kind `k` whose text is `message`.
pub open spec fn refusal(k: ResolveErrorKind, message: Seq<char>) -> ResolveErrorView {
    ResolveErrorView { kind: k, message }
}

impl ResolveError {
    /// An error of kind `kind` with the message text `message`.
    pub fn with_message(kind: ResolveErrorKind, message: String) -> (e: ResolveError)
        ensures
            e@ == refusal(kind, message@),
    {
        ResolveError { kind, message }
    }

    /// The error message.
    pub fn to_string(&self) -> (s: String)
        ensures
            s@ == self.message@,
    {
        self.message.clone()
    }
}

/// The squares a resolved move touches. `from` is the moving piece's
/// origin; for castling it is the king's home square.
#[derive(Debug, Clone, Copy, PartialEq, Eq, Structural)]
pub struct ResolvedMove {
    pub from: Square,
    pub to: Square,
}

pub open spec fn sq(f: int, r: int) -> Square {
    Square { file: f as u8, rank: r as u8 }
}

pub open spec fn index_square(i: int) -> Square {
    sq(i % 8, i / 8)
}

pub open spec fn idx(s: Square) -> int {
    s.rank * 8 + s.file
}

/// The name of a square as messages write it (nothing when its letters
/// cannot be written).
pub open spec fn square_name(s: Square) -> Seq<char> {
    if square_printable(s) {
        square_text(s)
    } else {
        Seq::empty()
    }
}

/// The names of `squares` in order, with `sep` between each two.
pub open spec fn square_list(squares: Seq<Square>, sep: Seq<char>) -> Seq<char>
    decreases squares.len(),
{
    if squares.len() == 0 {
        Seq::empty()
    } else if squares.len() == 1 {
        square_name(squares[0])
    } else {
        square_list(squares.drop_last(), sep) + sep + square_name(squares.last())
    }
}

/// The name of a piece kind in messages.
pub open spec fn kind_word(k: PieceKind) -> Seq<char> {
    match k {
        PieceKind::Pawn => "Pawn"@,
        PieceKind::Knight => "Knight"@,
        PieceKind::Bishop => "Bishop"@,
        PieceKind::Rook => "Rook"@,
        PieceKind::Queen => "Queen"@,
        PieceKind::King => "King"@,
    }
}

pub open spec fn color_word(c: Color) -> Seq<char> {
    match c {
        Color::White => "white"@,
        Color::Black => "black"@,
    }
}

pub open spec fn own_piece_refusal(to: Square) -> ResolveErrorView {
    refusal(ResolveErrorKind::OccupiedByOwnPiece, square_name(to) + " is occupied by your own piece"@)
}

pub open spec fn needs_capture_refusal(to: Square) -> ResolveErrorView {
    refusal(
        ResolveErrorKind::OccupiedNeedsCapture,
        square_name(to) + " is occupied; the move must be written as a capture"@,
    )
}

pub open spec fn nothing_to_capture_refusal(to: Square) -> ResolveErrorView {
    refusal(ResolveErrorKind::NothingToCapture, "no piece to capture on "@ + square_name(to))
}

pub open spec fn spec_matches_disambiguation(from: Square, d: Disambiguation) -> bool {
    match d {
        Disambiguation::Unspecified => true,
        Disambiguation::File(f) => from.file == f,
        Disambiguation::Rank(r) => from.rank == r,
        Disambiguation::Square(s) => from == s,
    }
}

/// Whether a `piece` on `from` could move to `to` on board `b`, judged by
/// its movement alone (and, for sliders, by the squares in between).
pub open spec fn spec_reaches(b: Seq<Option<Piece>>, piece: PieceKind, from: Square, to: Square) -> bool {
    let df = to.file - from.file;
    let dr = to.rank - from.rank;
    let clear = clear_between(b, from.file as int, from.rank as int, to.file as int, to.rank as int);
    match piece {
        PieceKind::Knight => (abs_int(df) == 1 && abs_int(dr) == 2) || (abs_int(df) == 2 && abs_int(
            dr,
        ) == 1),
        PieceKind::King => abs_int(df) <= 1 && abs_int(dr) <= 1,
        PieceKind::Bishop => abs_int(df) == abs_int(dr) && clear,
        PieceKind::Rook => (df == 0 || dr == 0) && clear,
        PieceKind::Queen => (abs_int(df) == abs_int(dr) || df == 0 || dr == 0) && clear,
        PieceKind::Pawn => false,
    }
}

/// The board after moving what stands on `from` to `to`, also clearing
/// `captured` when an en passant capture takes a pawn that is not on `to`.
pub open spec fn board_after(
    b: Seq<Option<Piece>>,
    from: Square,
    to: Square,
    captured: Option<Square>,
) -> Seq<Option<Piece>> {
    let moved = b.update(idx(to), b[idx(from)]).update(idx(from), None);
    match captured {
        Some(c) => moved.update(idx(c), None),
        None => moved,
    }
}

/// The first index from `i` on where `b` holds `p`.
pub open spec fn find_from(b: Seq<Option<Piece>>, p: Piece, i: int) -> Option<int>
    decreases 64 - i,
{
    if i >= 64 || i < 0 {
        None
    } else if b[i] == Some(p) {
        Some(i)
    } else {
        find_from(b, p, i + 1)
    }
}

/// Whether making the move leaves the mover's king attacked. A board with
/// no king of the mover's color counts as not in check.
pub open spec fn leaves_in_check(
    p: PositionView,
    from: Square,
    to: Square,
    captured: Option<Square>,
) -> bool {
    let b = board_after(p.board, from, to, captured);
    let mover = p.side_to_move;
    match find_from(b, Piece { kind: PieceKind::King, color: mover }, 0) {
        Some(k) => attacked(b, k % 8, k / 8, other(mover)),
        None => false,
    }
}

/// The squares `index_square(i)`, for `i < n` in increasing order, where
/// `pred` holds.
pub open spec fn select(n: int, pred: spec_fn(int) -> bool) -> Seq<Square>
    decreases n,
{
    if n <= 0 {
        Seq::empty()
    } else if pred(n - 1) {
        select(n - 1, pred).push(index_square(n - 1))
    } else {
        select(n - 1, pred)
    }
}

/// A piece of the right kind and color, matching the disambiguation, that
/// can move to `to` by its geometry.
pub open spec fn is_candidate(
    p: PositionView,
    piece: PieceKind,
    d: Disambiguation,
    to: Square,
    i: int,
) -> bool {
    let from = index_square(i);
    &&& from != to
    &&& p.board[i] == Some(Piece { kind: piece, color: p.side_to_move })
    &&& spec_matches_disambiguation(from, d)
    &&& spec_reaches(p.board, piece, from, to)
}

pub open spec fn is_legal(p: PositionView, piece: PieceKind, d: Disambiguation, to: Square, i: int) -> bool {
    is_candidate(p, piece, d, to, i) && !leaves_in_check(p, index_square(i), to, None)
}

/// The outcome once the pieces that can reach `to` are known: `legal` are
/// those whose move keeps the king safe.
pub open spec fn spec_finish(
    reachable: Seq<Square>,
    legal: Seq<Square>,
    piece: PieceKind,
    to: Square,
) -> Result<ResolvedMove, ResolveErrorView> {
    if legal.len() == 0 {
        if reachable.len() == 0 {
            Err(
                refusal(
                    ResolveErrorKind::NoPieceCanReach,
                    "no "@ + kind_word(piece) + " can reach "@ + square_name(to),
                ),
            )
        } else {
            Err(
                refusal(
                    ResolveErrorKind::LeavesKingInCheck,
                    "moving "@ + square_list(reachable, " or "@) + " to "@ + square_name(to)
                        + " would leave the king in check"@,
                ),
            )
        }
    } else if legal.len() == 1 {
        Ok(ResolvedMove { from: legal[0], to })
    } else {
        Err(
            refusal(
                ResolveErrorKind::Ambiguous,
                "ambiguous move: "@ + decimal(legal.len()) + " pieces can reach "@ + square_name(to)
                    + " ("@ + square_list(legal, ", "@) + ")"@,
            ),
        )
    }
}

/// What the destination square says about a piece move.
pub open spec fn destination_error(p: PositionView, capture: bool, to: Square) -> Option<
    ResolveErrorView,
> {
    match p.board[idx(to)] {
        Some(o) => if o.color == p.side_to_move {
            Some(own_piece_refusal(to))
        } else if !capture {
            Some(needs_capture_refusal(to))
        } else {
            None
        },
        None => if capture {
            Some(nothing_to_capture_refusal(to))
        } else {
            None
        },
    }
}

pub open spec fn spec_resolve_piece(
    p: PositionView,
    piece: PieceKind,
    d: Disambiguation,
    capture: bool,
    to: Square,
) -> Result<ResolvedMove, ResolveErrorView> {
    match destination_error(p, capture, to) {
        Some(e) => Err(e),
        None => spec_finish(
            select(64, |i: int| is_candidate(p, piece, d, to, i)),
            select(64, |i: int| is_legal(p, piece, d, to, i)),
            piece,
            to,
        ),
    }
}

pub open spec fn home_rank(c: Color) -> int {
    match c {
        Color::White => 0,
        Color::Black => 7,
    }
}

pub open spec fn has_castling_right(p: PositionView, kingside: bool) -> bool {
    match (p.side_to_move, kingside) {
        (Color::White, true) => p.castling.white_kingside,
        (Color::White, false) => p.castling.white_queenside,
        (Color::Black, true) => p.castling.black_kingside,
        (Color::Black, false) => p.castling.black_queenside,
    }
}

/// The first file of the squares strictly between the king and the rook.
pub open spec fn path_low(kingside: bool) -> int {
    if kingside {
        5
    } else {
        1
    }
}

/// The file just past the squares strictly between the king and the rook.
pub open spec fn path_high(kingside: bool) -> int {
    if kingside {
        7
    } else {
        4
    }
}

/// The files strictly between the king and the rook must be empty.
pub open spec fn castle_path_blocked(p: PositionView, kingside: bool) -> bool {
    let home = home_rank(p.side_to_move);
    exists|f: int|
        path_low(kingside) <= f < path_high(kingside) && (#[trigger] at(p.board, f, home)) is Some
}

/// The first file from `f` on, below `high`, whose square on rank `r` is
/// occupied.
pub open spec fn first_occupied(b: Seq<Option<Piece>>, f: int, high: int, r: int) -> Option<int>
    decreases high - f,
{
    if f >= high {
        None
    } else if at(b, f, r) is Some {
        Some(f)
    } else {
        first_occupied(b, f + 1, high, r)
    }
}

/// The file of the first occupied square between the king and the rook.
pub open spec fn blocked_file(p: PositionView, kingside: bool) -> int {
    match first_occupied(p.board, path_low(kingside), path_high(kingside), home_rank(p.side_to_move)) {
        Some(f) => f,
        None => path_low(kingside),
    }
}

/// The file of the `k`-th square the king crosses (its home square first).
pub open spec fn king_path_file(kingside: bool, k: int) -> int {
    if kingside {
        4 + k
    } else {
        4 - k
    }
}

pub open spec fn king_step_attacked(p: PositionView, kingside: bool, k: int) -> bool {
    attacked(p.board, king_path_file(kingside, k), home_rank(p.side_to_move), other(p.side_to_move))
}

/// The king may not castle out of, through, or into check.
pub open spec fn castle_crosses_attack(p: PositionView, kingside: bool) -> bool {
    exists|k: int| 0 <= k < 3 && #[trigger] king_step_attacked(p, kingside, k)
}

/// The first step from `k` on, below 3, on which the king would stand
/// attacked.
pub open spec fn first_attacked_step(p: PositionView, kingside: bool, k: int) -> Option<int>
    decreases 3 - k,
{
    if k >= 3 {
        None
    } else if king_step_attacked(p, kingside, k) {
        Some(k)
    } else {
        first_attacked_step(p, kingside, k + 1)
    }
}

/// The file of the first attacked square the king would cross.
pub open spec fn attacked_file(p: PositionView, kingside: bool) -> int {
    match first_attacked_step(p, kingside, 0) {
        Some(k) => king_path_file(kingside, k),
        None => 4,
    }
}

pub open spec fn side_word(kingside: bool) -> Seq<char> {
    if kingside {
        "kingside"@
    } else {
        "queenside"@
    }
}

pub open spec fn spec_resolve_castle(p: PositionView, kingside: bool) -> Result<
    ResolvedMove,
    ResolveErrorView,
> {
    let color = p.side_to_move;
    let home = home_rank(color);
    let rook_file: int = if kingside {
        7
    } else {
        0
    };
    if !has_castling_right(p, kingside) {
        Err(
            refusal(
                ResolveErrorKind::NoCastlingRights,
                color_word(color) + " has no "@ + side_word(kingside) + " castling rights"@,
            ),
        )
    } else if at(p.board, 4, home) != Some(Piece { kind: PieceKind::King, color }) {
        Err(
            refusal(
                ResolveErrorKind::NoKingToCastle,
                "no king on "@ + square_name(sq(4, home)) + " to castle"@,
            ),
        )
    } else if at(p.board, rook_file, home) != Some(Piece { kind: PieceKind::Rook, color }) {
        Err(
            refusal(
                ResolveErrorKind::NoRookToCastle,
                "no rook on "@ + square_name(sq(rook_file, home)) + " to castle with"@,
            ),
        )
    } else if castle_path_blocked(p, kingside) {
        Err(
            refusal(
                ResolveErrorKind::CastlingPathBlocked,
                "castling path is blocked on "@ + square_name(sq(blocked_file(p, kingside), home)),
            ),
        )
    } else if castle_crosses_attack(p, kingside) {
        Err(
            refusal(
                ResolveErrorKind::CastlingThroughAttackedSquare,
                "cannot castle through an attacked square ("@ + square_name(
                    sq(attacked_file(p, kingside), home),
                ) + ")"@,
            ),
        )
    } else {
        Ok(
            ResolvedMove {
                from: sq(4, home),
                to: sq(
                    if kingside {
                        6
                    } else {
                        2
                    },
                    home,
                ),
            },
        )
    }
}

pub open spec fn start_rank(c: Color) -> int {
    match c {
        Color::White => 1,
        Color::Black => 6,
    }
}

pub open spec fn opt_seq(o: Option<Square>) -> Seq<Square> {
    match o {
        Some(s) => seq![s],
        None => seq![],
    }
}

/// The en passant victim when a pawn on `from` captures onto `to`.
pub open spec fn en_passant_victim(p: PositionView, from: Square, to: Square) -> Option<Square> {
    if p.en_passant == Some(to) {
        Some(sq(to.file as int, from.rank as int))
    } else {
        None
    }
}

/// A pawn of the side to move that could capture onto `to` from file
/// offset `df`.
pub open spec fn pawn_capturer(p: PositionView, d: Disambiguation, to: Square, df: int) -> Option<
    Square,
> {
    let f = to.file + df;
    let r = to.rank - crate::attack::pawn_dir(p.side_to_move);
    if crate::attack::holds(p.board, f, r, PieceKind::Pawn, p.side_to_move)
        && spec_matches_disambiguation(sq(f, r), d) {
        Some(sq(f, r))
    } else {
        None
    }
}

pub open spec fn keep_capture(p: PositionView, o: Option<Square>, to: Square) -> Seq<Square> {
    match o {
        Some(s) => if !leaves_in_check(p, s, to, en_passant_victim(p, s, to)) {
            seq![s]
        } else {
            seq![]
        },
        None => seq![],
    }
}

pub open spec fn keep_push(p: PositionView, o: Option<Square>, to: Square) -> Seq<Square> {
    match o {
        Some(s) => if !leaves_in_check(p, s, to, None) {
            seq![s]
        } else {
            seq![]
        },
        None => seq![],
    }
}

/// A pawn of the side to move one square behind `to`.
pub open spec fn single_pusher(p: PositionView, d: Disambiguation, to: Square) -> Option<Square> {
    let r = to.rank - crate::attack::pawn_dir(p.side_to_move);
    if crate::attack::holds(p.board, to.file as int, r, PieceKind::Pawn, p.side_to_move)
        && spec_matches_disambiguation(sq(to.file as int, r), d) {
        Some(sq(to.file as int, r))
    } else {
        None
    }
}

/// A pawn of the side to move on its starting rank two squares behind `to`,
/// with the square it passes over empty.
pub open spec fn double_pusher(p: PositionView, d: Disambiguation, to: Square) -> Option<Square> {
    let dir = crate::attack::pawn_dir(p.side_to_move);
    let start = start_rank(p.side_to_move);
    if to.rank - 2 * dir == start && crate::attack::holds(
        p.board,
        to.file as int,
        start,
        PieceKind::Pawn,
        p.side_to_move,
    ) && at(p.board, to.file as int, to.rank - dir) is None && spec_matches_disambiguation(
        sq(to.file as int, start),
        d,
    ) {
        Some(sq(to.file as int, start))
    } else {
        None
    }
}

pub open spec fn spec_resolve_pawn(p: PositionView, d: Disambiguation, capture: bool, to: Square) -> Result<
    ResolvedMove,
    ResolveErrorView,
> {
    if capture {
        let left = pawn_capturer(p, d, to, -1);
        let right = pawn_capturer(p, d, to, 1);
        let finished = spec_finish(
            opt_seq(left) + opt_seq(right),
            keep_capture(p, left, to) + keep_capture(p, right, to),
            PieceKind::Pawn,
            to,
        );
        match p.board[idx(to)] {
            Some(o) => if o.color == p.side_to_move {
                Err(own_piece_refusal(to))
            } else {
                finished
            },
            None => if p.en_passant == Some(to) {
                finished
            } else {
                Err(nothing_to_capture_refusal(to))
            },
        }
    } else if p.board[idx(to)] is Some {
        Err(needs_capture_refusal(to))
    } else {
        let one = single_pusher(p, d, to);
        let two = double_pusher(p, d, to);
        spec_finish(
            opt_seq(one) + opt_seq(two),
            keep_push(p, one, to) + keep_push(p, two, to),
            PieceKind::Pawn,
            to,
        )
    }
}

/// What `resolve_move` gives for a move in a position.
pub open spec fn spec_resolve(p: PositionView, mv: Move) -> Result<ResolvedMove, ResolveErrorView> {
    match mv {
        Move::Castle { kingside, .. } => spec_resolve_castle(p, kingside),
        Move::Piece { piece, disambiguation, capture, to, .. } => if piece == PieceKind::Pawn {
            spec_resolve_pawn(p, disambiguation, capture, to)
        } else {
            spec_resolve_piece(p, piece, disambiguation, capture, to)
        },
    }
}

// ----- executable resolution -----

// ----- error messages -----

fn push_square_name(out: &mut Vec<char>, s: Square)
    ensures
        final(out)@ == old(out)@ + square_name(s),
{
    let ghost base = out@;
    if s.file <= 158 && s.rank <= 206 {
        crate::san::push_file(out, s.file);
        crate::san::push_rank(out, s.rank);
        assert(out@ =~= base + square_text(s));
    } else {
        assert(out@ =~= base + square_name(s));
    }
}

/// `prefix`, then the name of `s`, then `suffix`.
fn square_message(prefix: &str, s: Square, suffix: &str) -> (m: String)
    ensures
        m@ == prefix@ + square_name(s) + suffix@,
{
    let mut m: Vec<char> = Vec::new();
    push_str(&mut m, prefix);
    push_square_name(&mut m, s);
    push_str(&mut m, suffix);
    assert(m@ =~= prefix@ + square_name(s) + suffix@);
    string_from_chars(&m)
}

/// `prefix`, then the name of `s`.
fn square_after(prefix: &str, s: Square) -> (m: String)
    ensures
        m@ == prefix@ + square_name(s),
{
    let mut m: Vec<char> = Vec::new();
    push_str(&mut m, prefix);
    push_square_name(&mut m, s);
    assert(m@ =~= prefix@ + square_name(s));
    string_from_chars(&m)
}

/// The name of `s`, then `suffix`.
fn square_then(s: Square, suffix: &str) -> (m: String)
    ensures
        m@ == square_name(s) + suffix@,
{
    let mut m: Vec<char> = Vec::new();
    push_square_name(&mut m, s);
    push_str(&mut m, suffix);
    assert(m@ =~= square_name(s) + suffix@);
    string_from_chars(&m)
}

fn push_square_list(out: &mut Vec<char>, squares: &Vec<Square>, sep: &str)
    ensures
        final(out)@ == old(out)@ + square_list(squares@, sep@),
{
    let ghost base = out@;
    let mut i: usize = 0;
    assert(base + square_list(squares@.take(0), sep@) =~= base);
    while i < squares.len()
        invariant
            i <= squares.len(),
            out@ == base + square_list(squares@.take(i as int), sep@),
        decreases squares.len() - i,
    {
        if i > 0 {
            push_str(out, sep);
        }
        push_square_name(out, squares[i]);
        proof {
            let t = squares@.take(i + 1);
            assert(t.drop_last() =~= squares@.take(i as int));
            assert(t.last() == squares@[i as int]);
            if i == 0 {
                assert(t.len() == 1 && t[0] == squares@[0]);
                assert(out@ =~= base + square_list(t, sep@));
            } else {
                assert(out@ =~= base + square_list(t, sep@));
            }
        }
        i += 1;
    }
    assert(squares@.take(squares.len() as int) =~= squares@);
}

fn kind_name(k: PieceKind) -> (s: &'static str)
    ensures
        s@ == kind_word(k),
{
    match k {
        PieceKind::Pawn => "Pawn",
        PieceKind::Knight => "Knight",
        PieceKind::Bishop => "Bishop",
        PieceKind::Rook => "Rook",
        PieceKind::Queen => "Queen",
        PieceKind::King => "King",
    }
}

fn other_color(c: Color) -> (o: Color)
    ensures
        o == other(c),
{
    match c {
        Color::White => Color::Black,
        Color::Black => Color::White,
    }
}

fn color_name(c: Color) -> (s: &'static str)
    ensures
        s@ == color_word(c),
{
    match c {
        Color::White => "white",
        Color::Black => "black",
    }
}

fn matches_disambiguation(from: Square, d: Disambiguation) -> (b: bool)
    ensures
        b == spec_matches_disambiguation(from, d),
{
    match d {
        Disambiguation::Unspecified => true,
        Disambiguation::File(f) => from.file == f,
        Disambiguation::Rank(r) => from.rank == r,
        Disambiguation::Square(s) => from.file == s.file && from.rank == s.rank,
    }
}

fn abs_i8(x: i8) -> (a: i8)
    requires
        -100 <= x <= 100,
    ensures
        a as int == abs_int(x as int),
{
    if x < 0 {
        -x
    } else {
        x
    }
}

fn reaches(b: &[Option<Piece>; 64], piece: PieceKind, from: Square, to: Square) -> (res: bool)
    requires
        valid_square(from),
        valid_square(to),
        from != to,
    ensures
        res == spec_reaches(b@, piece, from, to),
{
    let df = to.file as i8 - from.file as i8;
    let dr = to.rank as i8 - from.rank as i8;
    let adf = abs_i8(df);
    let adr = abs_i8(dr);
    let (ff, fr, tf, tr) = (from.file as i8, from.rank as i8, to.file as i8, to.rank as i8);
    match piece {
        PieceKind::Knight => (adf == 1 && adr == 2) || (adf == 2 && adr == 1),
        PieceKind::King => adf <= 1 && adr <= 1,
        PieceKind::Bishop => adf == adr && path_clear(b, ff, fr, tf, tr),
        PieceKind::Rook => (df == 0 || dr == 0) && path_clear(b, ff, fr, tf, tr),
        PieceKind::Queen => (adf == adr || df == 0 || dr == 0) && path_clear(b, ff, fr, tf, tr),
        PieceKind::Pawn => false,
    }
}

proof fn lemma_find_from_bound(b: Seq<Option<Piece>>, p: Piece, i: int)
    ensures
        find_from(b, p, i) matches Some(k) ==> 0 <= k < 64 && b[k] == Some(p),
    decreases 64 - i,
{
    if 0 <= i < 64 && b[i] != Some(p) {
        lemma_find_from_bound(b, p, i + 1);
    }
}

fn find_king(b: &[Option<Piece>; 64], color: Color) -> (r: Option<usize>)
    ensures
        match find_from(b@, Piece { kind: PieceKind::King, color }, 0) {
            Some(k) => r == Some(k as usize) && 0 <= k < 64,
            None => r is None,
        },
{
    let ghost king = Piece { kind: PieceKind::King, color };
    proof {
        lemma_find_from_bound(b@, king, 0);
    }
    let mut i: usize = 0;
    while i < 64
        invariant
            i <= 64,
            king == (Piece { kind: PieceKind::King, color }),
            find_from(b@, king, 0) == find_from(b@, king, i as int),
        decreases 64 - i,
    {
        let cell = b[i];
        assert(cell == b@[i as int]);
        match cell {
            Some(p) => {
                if p.kind == PieceKind::King && p.color == color {
                    return Some(i);
                }
            },
            None => {},
        }
        i += 1;
    }
    None
}

/// Whether making the move from `from` to `to` (also removing the pawn on
/// `captured`, for an en passant capture) leaves the mover's king attacked.
fn leaves_king_in_check(pos: &Position, from: Square, to: Square, captured: Option<Square>) -> (res:
    bool)
    requires
        valid_square(from),
        valid_square(to),
        captured matches Some(c) ==> valid_square(c),
    ensures
        res == leaves_in_check(pos@, from, to, captured),
{
    let mover = pos.side_to_move;
    let mut board = pos.board;
    let fi = from.rank as usize * 8 + from.file as usize;
    let ti = to.rank as usize * 8 + to.file as usize;
    board[ti] = board[fi];
    board[fi] = None;
    if let Some(c) = captured {
        board[c.rank as usize * 8 + c.file as usize] = None;
    }
    assert(board@ =~= board_after(pos@.board, from, to, captured));
    let opponent = other_color(mover);
    match find_king(&board, mover) {
        Some(k) => square_attacked_by(&board, (k % 8) as i8, (k / 8) as i8, opponent),
        None => false,
    }
}

fn finish(reachable: Vec<Square>, legal: Vec<Square>, piece: PieceKind, to: Square) -> (r: Result<
    ResolvedMove,
    ResolveError,
>)
    ensures
        match spec_finish(reachable@, legal@, piece, to) {
            Ok(m) => r == Ok::<ResolvedMove, ResolveError>(m),
            Err(ev) => r matches Err(e) && e@ == ev,
        },
{
    if legal.len() == 0 {
        if reachable.len() == 0 {
            let mut m: Vec<char> = Vec::new();
            push_str(&mut m, "no ");
            push_str(&mut m, kind_name(piece));
            push_str(&mut m, " can reach ");
            push_square_name(&mut m, to);
            assert(m@ =~= "no "@ + kind_word(piece) + " can reach "@ + square_name(to));
            Err(ResolveError::with_message(ResolveErrorKind::NoPieceCanReach, string_from_chars(&m)))
        } else {
            let mut m: Vec<char> = Vec::new();
            push_str(&mut m, "moving ");
            push_square_list(&mut m, &reachable, " or ");
            push_str(&mut m, " to ");
            push_square_name(&mut m, to);
            push_str(&mut m, " would leave the king in check");
            assert(m@ =~= "moving "@ + square_list(reachable@, " or "@) + " to "@ + square_name(to)
                + " would leave the king in check"@);
            Err(
                ResolveError::with_message(
                    ResolveErrorKind::LeavesKingInCheck,
                    string_from_chars(&m),
                ),
            )
        }
    } else if legal.len() == 1 {
        Ok(ResolvedMove { from: legal[0], to })
    } else {
        let mut m: Vec<char> = Vec::new();
        push_str(&mut m, "ambiguous move: ");
        push_count(&mut m, legal.len());
        push_str(&mut m, " pieces can reach ");
        push_square_name(&mut m, to);
        push_str(&mut m, " (");
        push_square_list(&mut m, &legal, ", ");
        push_str(&mut m, ")");
        assert(m@ =~= "ambiguous move: "@ + decimal(legal@.len()) + " pieces can reach "@
            + square_name(to) + " ("@ + square_list(legal@, ", "@) + ")"@);
        Err(ResolveError::with_message(ResolveErrorKind::Ambiguous, string_from_chars(&m)))
    }
}

fn check_destination(pos: &Position, capture: bool, to: Square) -> (r: Result<(), ResolveError>)
    requires
        valid_square(to),
    ensures
        match destination_error(pos@, capture, to) {
            Some(ev) => r matches Err(e) && e@ == ev,
            None => r is Ok,
        },
{
    match pos.piece_at(to) {
        Some(occupant) => {
            if occupant.color == pos.side_to_move {
                Err(
                    ResolveError::with_message(
                        ResolveErrorKind::OccupiedByOwnPiece,
                        square_then(to, " is occupied by your own piece"),
                    ),
                )
            } else if !capture {
                Err(
                    ResolveError::with_message(
                        ResolveErrorKind::OccupiedNeedsCapture,
                        square_then(to, " is occupied; the move must be written as a capture"),
                    ),
                )
            } else {
                Ok(())
            }
        },
        None => {
            if capture {
                Err(
                    ResolveError::with_message(
                        ResolveErrorKind::NothingToCapture,
                        square_after("no piece to capture on ", to),
                    ),
                )
            } else {
                Ok(())
            }
        },
    }
}

fn resolve_piece_move(
    pos: &Position,
    piece: PieceKind,
    disambiguation: Disambiguation,
    capture: bool,
    to: Square,
) -> (r: Result<ResolvedMove, ResolveError>)
    requires
        valid_square(to),
        piece != PieceKind::Pawn,
    ensures
        match spec_resolve_piece(pos@, piece, disambiguation, capture, to) {
            Ok(m) => r == Ok::<ResolvedMove, ResolveError>(m),
            Err(ev) => r matches Err(e) && e@ == ev,
        },
{
    check_destination(pos, capture, to)?;
    let color = pos.side_to_move;
    let ghost cand = |i: int| is_candidate(pos@, piece, disambiguation, to, i);
    let ghost leg = |i: int| is_legal(pos@, piece, disambiguation, to, i);
    let mut reachable: Vec<Square> = Vec::new();
    let mut legal: Vec<Square> = Vec::new();
    let mut i: usize = 0;
    while i < 64
        invariant
            i <= 64,
            valid_square(to),
            color == pos.side_to_move,
            cand == (|i: int| is_candidate(pos@, piece, disambiguation, to, i)),
            leg == (|i: int| is_legal(pos@, piece, disambiguation, to, i)),
            reachable@ == select(i as int, cand),
            legal@ == select(i as int, leg),
        decreases 64 - i,
    {
        let from = Square { file: (i % 8) as u8, rank: (i / 8) as u8 };
        assert(from == index_square(i as int));
        assert(i == idx(from));
        let same = from.file == to.file && from.rank == to.rank;
        let right_piece = match pos.board[i] {
            Some(p) => p.kind == piece && p.color == color,
            None => false,
        };
        if !same && right_piece && matches_disambiguation(from, disambiguation) && reaches(
            &pos.board,
            piece,
            from,
            to,
        ) {
            reachable.push(from);
            if !leaves_king_in_check(pos, from, to, None) {
                legal.push(from);
            }
        }
        i += 1;
    }
    finish(reachable, legal, piece, to)
}

/// A pawn of the mover standing on `(f, r)` that matches the
/// disambiguation.
fn pawn_at(pos: &Position, f: i8, r: i8, d: Disambiguation) -> (res: bool)
    requires
        -3 <= f <= 10,
        -3 <= r <= 10,
    ensures
        res == (crate::attack::holds(pos@.board, f as int, r as int, PieceKind::Pawn, pos.side_to_move)
            && spec_matches_disambiguation(sq(f as int, r as int), d)),
{
    if 0 <= f && f < 8 && 0 <= r && r < 8 {
        let here = Square { file: f as u8, rank: r as u8 };
        match pos.board[r as usize * 8 + f as usize] {
            Some(p) => p.kind == PieceKind::Pawn && p.color == pos.side_to_move
                && matches_disambiguation(here, d),
            None => false,
        }
    } else {
        false
    }
}

fn resolve_pawn_move(pos: &Position, disambiguation: Disambiguation, capture: bool, to: Square) -> (r:
    Result<ResolvedMove, ResolveError>)
    requires
        valid_square(to),
    ensures
        match spec_resolve_pawn(pos@, disambiguation, capture, to) {
            Ok(m) => r == Ok::<ResolvedMove, ResolveError>(m),
            Err(ev) => r matches Err(e) && e@ == ev,
        },
{
    let color = pos.side_to_move;
    let dir: i8 = match color {
        Color::White => 1,
        Color::Black => -1,
    };
    let start_rank: i8 = match color {
        Color::White => 1,
        Color::Black => 6,
    };
    let tf = to.file as i8;
    let tr = to.rank as i8;
    let mut reachable: Vec<Square> = Vec::new();
    let mut legal: Vec<Square> = Vec::new();
    if capture {
        let is_en_passant = match pos.en_passant {
            Some(e) => e.file == to.file && e.rank == to.rank,
            None => false,
        };
        match pos.piece_at(to) {
            Some(occupant) => {
                if occupant.color == color {
                    return Err(
                        ResolveError::with_message(
                            ResolveErrorKind::OccupiedByOwnPiece,
                            square_then(to, " is occupied by your own piece"),
                        ),
                    );
                }
            },
            None => {
                if !is_en_passant {
                    return Err(
                        ResolveError::with_message(
                            ResolveErrorKind::NothingToCapture,
                            square_after("no piece to capture on ", to),
                        ),
                    );
                }
            },
        }
        let ghost left = pawn_capturer(pos@, disambiguation, to, -1);
        let ghost right = pawn_capturer(pos@, disambiguation, to, 1);
        let mut k: usize = 0;
        while k < 2
            invariant
                k <= 2,
                valid_square(to),
                tf == to.file,
                tr == to.rank,
                dir as int == crate::attack::pawn_dir(pos.side_to_move),
                color == pos.side_to_move,
                is_en_passant == (pos.en_passant == Some(to)),
                left == pawn_capturer(pos@, disambiguation, to, -1),
                right == pawn_capturer(pos@, disambiguation, to, 1),
                k == 0 ==> reachable@ == Seq::<Square>::empty() && legal@ == Seq::<Square>::empty(),
                k == 1 ==> reachable@ == opt_seq(left) && legal@ == keep_capture(pos@, left, to),
                k == 2 ==> reachable@ == opt_seq(left) + opt_seq(right) && legal@ == keep_capture(
                    pos@,
                    left,
                    to,
                ) + keep_capture(pos@, right, to),
            decreases 2 - k,
        {
            let df: i8 = if k == 0 {
                -1
            } else {
                1
            };
            let f = tf + df;
            let r = tr - dir;
            let ghost before_r = reachable@;
            let ghost before_l = legal@;
            if pawn_at(pos, f, r, disambiguation) {
                let from = Square { file: f as u8, rank: r as u8 };
                reachable.push(from);
                let victim = if is_en_passant {
                    Some(Square { file: to.file, rank: from.rank })
                } else {
                    None
                };
                if !leaves_king_in_check(pos, from, to, victim) {
                    legal.push(from);
                }
            }
            proof {
                let o = pawn_capturer(pos@, disambiguation, to, df as int);
                assert(reachable@ =~= before_r + opt_seq(o));
                assert(legal@ =~= before_l + keep_capture(pos@, o, to));
                if k == 0 {
                    assert(before_r + opt_seq(o) =~= opt_seq(o));
                    assert(before_l + keep_capture(pos@, o, to) =~= keep_capture(pos@, o, to));
                }
            }
            k += 1;
        }
    } else {
        if pos.piece_at(to).is_some() {
            return Err(
                ResolveError::with_message(
                    ResolveErrorKind::OccupiedNeedsCapture,
                    square_then(to, " is occupied; the move must be written as a capture"),
                ),
            );
        }
        let one_back = tr - dir;
        if pawn_at(pos, tf, one_back, disambiguation) {
            let from = Square { file: to.file, rank: one_back as u8 };
            reachable.push(from);
            if !leaves_king_in_check(pos, from, to, None) {
                legal.push(from);
            }
        }
        let ghost one = single_pusher(pos@, disambiguation, to);
        assert(reachable@ =~= opt_seq(one));
        assert(legal@ =~= keep_push(pos@, one, to));
        let two_back = tr - 2 * dir;
        if two_back == start_rank {
            let mid = Square { file: to.file, rank: one_back as u8 };
            if pawn_at(pos, tf, start_rank, disambiguation) && pos.piece_at(mid).is_none() {
                let from = Square { file: to.file, rank: start_rank as u8 };
                reachable.push(from);
                if !leaves_king_in_check(pos, from, to, None) {
                    legal.push(from);
                }
            }
        }
        let ghost two = double_pusher(pos@, disambiguation, to);
        assert(reachable@ =~= opt_seq(one) + opt_seq(two));
        assert(legal@ =~= keep_push(pos@, one, to) + keep_push(pos@, two, to));
    }
    finish(reachable, legal, PieceKind::Pawn, to)
}

#[verifier::loop_isolation(false)]
fn resolve_castle(pos: &Position, kingside: bool) -> (r: Result<ResolvedMove, ResolveError>)
    ensures
        match spec_resolve_castle(pos@, kingside) {
            Ok(m) => r == Ok::<ResolvedMove, ResolveError>(m),
            Err(ev) => r matches Err(e) && e@ == ev,
        },
{
    let color = pos.side_to_move;
    let home: u8 = match color {
        Color::White => 0,
        Color::Black => 7,
    };
    let has_right = match (color, kingside) {
        (Color::White, true) => pos.castling.white_kingside,
        (Color::White, false) => pos.castling.white_queenside,
        (Color::Black, true) => pos.castling.black_kingside,
        (Color::Black, false) => pos.castling.black_queenside,
    };
    if !has_right {
        let mut m: Vec<char> = Vec::new();
        push_str(&mut m, color_name(color));
        push_str(&mut m, " has no ");
        push_str(
            &mut m,
            if kingside {
                "kingside"
            } else {
                "queenside"
            },
        );
        push_str(&mut m, " castling rights");
        assert(m@ =~= color_word(color) + " has no "@ + side_word(kingside) + " castling rights"@);
        return Err(
            ResolveError::with_message(ResolveErrorKind::NoCastlingRights, string_from_chars(&m)),
        );
    }
    let king_from = Square { file: 4, rank: home };
    let rook_file: u8 = if kingside {
        7
    } else {
        0
    };
    let rook_from = Square { file: rook_file, rank: home };
    let king_to = Square {
        file: if kingside {
            6
        } else {
            2
        },
        rank: home,
    };
    let king_ok = match pos.piece_at(king_from) {
        Some(p) => p.kind == PieceKind::King && p.color == color,
        None => false,
    };
    if !king_ok {
        return Err(
            ResolveError::with_message(
                ResolveErrorKind::NoKingToCastle,
                square_message("no king on ", king_from, " to castle"),
            ),
        );
    }
    let rook_ok = match pos.piece_at(rook_from) {
        Some(p) => p.kind == PieceKind::Rook && p.color == color,
        None => false,
    };
    if !rook_ok {
        return Err(
            ResolveError::with_message(
                ResolveErrorKind::NoRookToCastle,
                square_message("no rook on ", rook_from, " to castle with"),
            ),
        );
    }
    // The squares strictly between king and rook must be empty.
    let (low, high): (u8, u8) = if rook_file < 4 {
        (rook_file + 1, 4)
    } else {
        (5, rook_file)
    };
    let mut file = low;
    while file < high
        invariant
            low <= file <= high <= 7,
            home as int == home_rank(pos.side_to_move),
            low as int == path_low(kingside),
            high as int == path_high(kingside),
            forall|f: int|
                low <= f < file ==> (#[trigger] at(pos@.board, f, home_rank(pos@.side_to_move))) is None,
            first_occupied(pos@.board, low as int, high as int, home as int) == first_occupied(
                pos@.board,
                file as int,
                high as int,
                home as int,
            ),
        decreases high - file,
    {
        let here = Square { file, rank: home };
        if pos.piece_at(here).is_some() {
            assert(at(pos@.board, file as int, home_rank(pos@.side_to_move)) is Some);
            assert(blocked_file(pos@, kingside) == file);
            return Err(
                ResolveError::with_message(
                    ResolveErrorKind::CastlingPathBlocked,
                    square_after("castling path is blocked on ", here),
                ),
            );
        }
        file += 1;
    }
    // Only the squares the king crosses matter, not the rook's side of the
    // path.
    let opponent = other_color(color);
    let mut k: i8 = 0;
    while k < 3
        invariant
            0 <= k <= 3,
            home as int == home_rank(pos.side_to_move),
            opponent == other(pos.side_to_move),
            forall|j: int| 0 <= j < k ==> !#[trigger] king_step_attacked(pos@, kingside, j),
            first_attacked_step(pos@, kingside, 0) == first_attacked_step(pos@, kingside, k as int),
        decreases 3 - k,
    {
        let f: i8 = if kingside {
            4 + k
        } else {
            4 - k
        };
        if square_attacked_by(&pos.board, f, home as i8, opponent) {
            assert(king_step_attacked(pos@, kingside, k as int));
            assert(attacked_file(pos@, kingside) == f);
            return Err(
                ResolveError::with_message(
                    ResolveErrorKind::CastlingThroughAttackedSquare,
                    square_message(
                        "cannot castle through an attacked square (",
                        Square { file: f as u8, rank: home },
                        ")",
                    ),
                ),
            );
        }
        k += 1;
    }
    Ok(ResolvedMove { from: king_from, to: king_to })
}

/// Find which piece on `pos` a parsed SAN move refers to, using the side to
/// move recorded on `pos`.
pub fn resolve_move(pos: &Position, mv: &Move) -> (r: Result<ResolvedMove, ResolveError>)
    requires
        *mv matches Move::Piece { to, .. } ==> valid_square(to),
    ensures
        match spec_resolve(pos@, *mv) {
            Ok(m) => r == Ok::<ResolvedMove, ResolveError>(m),
            Err(ev) => r matches Err(e) && e@ == ev,
        },
{
    match *mv {
        Move::Castle { kingside, .. } => resolve_castle(pos, kingside),
        Move::Piece { piece, disambiguation, capture, to, .. } => {
            if piece == PieceKind::Pawn {
                resolve_pawn_move(pos, disambiguation, capture, to)
            } else {
                resolve_piece_move(pos, piece, disambiguation, capture, to)
            }
        },
    }
}

// ----- laws -----

proof fn lemma_select(n: int, pred: spec_fn(int) -> bool)
    requires
        0 <= n <= 64,
    ensures
        forall|k: int|
            0 <= k < select(n, pred).len() ==> exists|i: int|
                0 <= i < n && pred(i) && #[trigger] select(n, pred)[k] == index_square(i),
        forall|i: int| 0 <= i < n && pred(i) ==> select(n, pred).contains(#[trigger] index_square(i)),
    decreases n,
{
    if n > 0 {
        lemma_select(n - 1, pred);
        let prev = select(n - 1, pred);
        let cur = select(n, pred);
        if pred(n - 1) {
            assert(cur == prev.push(index_square(n - 1)));
        } else {
            assert(cur == prev);
        }
        assert forall|k: int| 0 <= k < cur.len() implies exists|i: int|
            0 <= i < n && pred(i) && #[trigger] cur[k] == index_square(i) by {
            if k < prev.len() {
                assert(cur[k] == prev[k]);
                let i = choose|i: int| 0 <= i < n - 1 && pred(i) && prev[k] == index_square(i);
                assert(0 <= i < n && pred(i) && cur[k] == index_square(i));
            } else {
                assert(pred(n - 1) && cur[k] == index_square(n - 1));
            }
        }
        assert forall|i: int| 0 <= i < n && pred(i) implies cur.contains(
            #[trigger] index_square(i),
        ) by {
            if i < n - 1 {
                assert(prev.contains(index_square(i)));
                let k = choose|k: int| 0 <= k < prev.len() && prev[k] == index_square(i);
                assert(cur[k] == prev[k]);
            } else {
                assert(cur[cur.len() - 1] == index_square(i));
            }
        }
    }
}

proof fn lemma_index_square(i: int)
    requires
        0 <= i < 64,
    ensures
        idx(index_square(i)) == i,
        valid_square(index_square(i)),
{
}

/// A resolved move of a piece other than a pawn starts from a square that
/// holds the mover's piece of that kind and matches the disambiguation,
/// ends on the destination, follows the piece's movement, and does not
/// leave the mover's king in check; no other square does all of that.
pub proof fn lemma_resolved_piece_move_is_the_unique_legal_one(p: PositionView, mv: Move)
    requires
        p.board.len() == 64,
        mv matches Move::Piece { piece, to, .. } && piece != PieceKind::Pawn && valid_square(to),
        spec_resolve(p, mv) is Ok,
    ensures
        ({
            let piece = mv->piece;
            let disambiguation = mv->disambiguation;
            let to = mv->to;
            let rm = spec_resolve(p, mv)->Ok_0;
            &&& rm.to == to
            &&& valid_square(rm.from)
            &&& p.board[idx(rm.from)] == Some(Piece { kind: piece, color: p.side_to_move })
            &&& spec_matches_disambiguation(rm.from, disambiguation)
            &&& spec_reaches(p.board, piece, rm.from, to)
            &&& !leaves_in_check(p, rm.from, to, None)
            &&& forall|i: int|
                0 <= i < 64 && #[trigger] is_legal(p, piece, disambiguation, to, i) ==> i == idx(
                    rm.from,
                )
        }),
{
    let piece = mv->piece;
    let disambiguation = mv->disambiguation;
    let to = mv->to;
    let leg = |i: int| is_legal(p, piece, disambiguation, to, i);
    let legal = select(64, leg);
    lemma_select(64, leg);
    assert(legal.len() == 1);
    let i0 = choose|i: int| 0 <= i < 64 && leg(i) && #[trigger] legal[0] == index_square(i);
    lemma_index_square(i0);
    assert forall|i: int| 0 <= i < 64 && #[trigger] is_legal(p, piece, disambiguation, to, i) implies i
        == i0 by {
        assert(leg(i));
        assert(legal.contains(index_square(i)));
        let k = choose|k: int| 0 <= k < legal.len() && legal[k] == index_square(i);
        lemma_index_square(i);
    }
}

/// A resolved pawn move ends on the destination and starts from a pawn of
/// the side to move that matches the disambiguation: diagonally behind the
/// destination for a capture, straight behind it (or two squares behind,
/// from the starting rank, over an empty square) for a push; and it does
/// not leave the mover's king in check, counting the pawn an en passant
/// capture removes.
pub proof fn lemma_resolved_pawn_move(p: PositionView, mv: Move)
    requires
        p.board.len() == 64,
        mv matches Move::Piece { piece, to, .. } && piece == PieceKind::Pawn && valid_square(to),
        spec_resolve(p, mv) is Ok,
    ensures
        ({
            let disambiguation = mv->disambiguation;
            let capture = mv->capture;
            let to = mv->to;
            let rm = spec_resolve(p, mv)->Ok_0;
            let dir = crate::attack::pawn_dir(p.side_to_move);
            &&& rm.to == to
            &&& valid_square(rm.from)
            &&& p.board[idx(rm.from)] == Some(Piece { kind: PieceKind::Pawn, color: p.side_to_move })
            &&& spec_matches_disambiguation(rm.from, disambiguation)
            &&& if capture {
                &&& rm.from.rank == to.rank - dir
                &&& abs_int(rm.from.file - to.file) == 1
                &&& !leaves_in_check(p, rm.from, to, en_passant_victim(p, rm.from, to))
            } else {
                &&& rm.from.file == to.file
                &&& (rm.from.rank == to.rank - dir || (rm.from.rank == start_rank(p.side_to_move)
                    && to.rank == rm.from.rank + 2 * dir && at(p.board, to.file as int, to.rank - dir)
                    is None))
                &&& !leaves_in_check(p, rm.from, to, None)
            }
        }),
{
}

/// A resolved castling move takes the king from its home square two files
/// toward the rook, with the castling right held, king and rook in place,
/// the squares between them empty, and none of the squares the king stands
/// on, crosses or lands on attacked: files e, f, g of the home rank for
/// kingside castling, e, d, c for queenside.
pub proof fn lemma_resolved_castle(p: PositionView, mv: Move)
    requires
        mv is Castle,
        spec_resolve(p, mv) is Ok,
    ensures
        ({
            let kingside = mv->kingside;
            let rm = spec_resolve(p, mv)->Ok_0;
            let home = home_rank(p.side_to_move);
            &&& has_castling_right(p, kingside)
            &&& rm.from == sq(4, home)
            &&& rm.to == sq(if kingside { 6 } else { 2 }, home)
            &&& at(p.board, 4, home) == Some(Piece { kind: PieceKind::King, color: p.side_to_move })
            &&& at(p.board, if kingside { 7 } else { 0 }, home) == Some(
                Piece { kind: PieceKind::Rook, color: p.side_to_move },
            )
            &&& forall|f: int|
                (if kingside { 5 <= f < 7 } else { 1 <= f < 4 }) ==> (#[trigger] at(
                    p.board,
                    f,
                    home,
                )) is None
            &&& !attacked(p.board, 4, home, other(p.side_to_move))
            &&& !attacked(p.board, if kingside { 5 } else { 3 }, home, other(p.side_to_move))
            &&& !attacked(p.board, if kingside { 6 } else { 2 }, home, other(p.side_to_move))
        }),
{
    let kingside = mv->kingside;
    let home = home_rank(p.side_to_move);
    assert(!king_step_attacked(p, kingside, 0));
    assert(!king_step_attacked(p, kingside, 1));
    assert(!king_step_attacked(p, kingside, 2));
    assert forall|f: int| (if kingside { 5 <= f < 7 } else { 1 <= f < 4 }) implies (#[trigger] at(
        p.board,
        f,
        home,
    )) is None by {
        assert(path_low(kingside) <= f < path_high(kingside));
    }
}
/// Castling is granted whenever the side to move holds the right, king and
/// rook stand on their home squares, the squares between them are empty,
/// and none of the squares the king stands on, crosses or lands on (files
/// e, f, g for kingside castling, e, d, c for queenside) is attacked.
pub proof fn lemma_castle_allowed(p: PositionView, mv: Move)
    requires
        mv is Castle,
        ({
            let kingside = mv->kingside;
            let home = home_rank(p.side_to_move);
            &&& has_castling_right(p, kingside)
            &&& at(p.board, 4, home) == Some(Piece { kind: PieceKind::King, color: p.side_to_move })
            &&& at(p.board, if kingside { 7 } else { 0 }, home) == Some(
                Piece { kind: PieceKind::Rook, color: p.side_to_move },
            )
            &&& forall|f: int|
                (if kingside { 5 <= f < 7 } else { 1 <= f < 4 }) ==> (#[trigger] at(
                    p.board,
                    f,
                    home,
                )) is None
            &&& !attacked(p.board, 4, home, other(p.side_to_move))
            &&& !attacked(p.board, if kingside { 5 } else { 3 }, home, other(p.side_to_move))
            &&& !attacked(p.board, if kingside { 6 } else { 2 }, home, other(p.side_to_move))
        }),
    ensures
        spec_resolve(p, mv) == Ok::<ResolvedMove, ResolveErrorView>(
            ResolvedMove {
                from: sq(4, home_rank(p.side_to_move)),
                to: sq(
                    if mv->kingside {
                        6
                    } else {
                        2
                    },
                    home_rank(p.side_to_move),
                ),
            },
        ),
{
    let kingside = mv->kingside;
    let home = home_rank(p.side_to_move);
    assert(!castle_path_blocked(p, kingside)) by {
        if castle_path_blocked(p, kingside) {
            let f = choose|f: int|
                path_low(kingside) <= f < path_high(kingside) && (#[trigger] at(p.board, f, home)) is Some;
            assert(at(p.board, f, home) is None);
        }
    }
    assert(!castle_crosses_attack(p, kingside)) by {
        if castle_crosses_attack(p, kingside) {
            let k = choose|k: int| 0 <= k < 3 && #[trigger] king_step_attacked(p, kingside, k);
            assert(k == 0 || k == 1 || k == 2);
        }
    }
}
} // verus!
