//! Forsyth-Edwards Notation (FEN), the standard record of a chess position:
//! piece placement, side to move, castling rights, the en passant target
//! square, and the two move counters.

use vstd::prelude::*;
use crate::message::{quoted, with_char, with_count, push_str, push_range};
use crate::text::{string_from_chars, decimal, chars_of, is_digit, digit_value, words, split_on, spec_parse_u32, parse_u32};
use crate::split::{split_bounds, word_bounds};
use crate::san::{
    PieceKind, Square, ParseError, ParseErrorKind, ErrorView, failure, failure_with,
    spec_square_from, square_at, spec_letter, spec_from_letter,
};

verus! {

#[derive(Debug, Clone, Copy, PartialEq, Eq, Structural)]
pub enum Color {
    White,
    Black,
}

#[derive(Debug, Clone, Copy, PartialEq, Eq, Structural)]
pub struct Piece {
    pub kind: PieceKind,
    pub color: Color,
}

/// Which castling moves each side still has rights to, independent of
/// whether that move is legal in the current position.
#[derive(Debug, Clone, Copy, PartialEq, Eq, Structural)]
pub struct CastlingRights {
    pub white_kingside: bool,
    pub white_queenside: bool,
    pub black_kingside: bool,
    pub black_queenside: bool,
}

pub open spec fn no_castling() -> CastlingRights {
    CastlingRights {
        white_kingside: false,
        white_queenside: false,
        black_kingside: false,
        black_queenside: false,
    }
}

impl Default for CastlingRights {
    fn default() -> (r: CastlingRights)
        ensures
            r == no_castling(),
    {
        CastlingRights::none()
    }
}

impl CastlingRights {
    fn none() -> (r: CastlingRights)
        ensures
            r == no_castling(),
    {
        CastlingRights {
            white_kingside: false,
            white_queenside: false,
            black_kingside: false,
            black_queenside: false,
        }
    }

    pub open spec fn spec_any(&self) -> bool {
        self.white_kingside || self.white_queenside || self.black_kingside || self.black_queenside
    }

    pub(crate) fn any(&self) -> (b: bool)
        ensures
            b == self.spec_any(),
    {
        self.white_kingside || self.white_queenside || self.black_kingside || self.black_queenside
    }
}

/// A parsed chess position. `board` is indexed by `rank * 8 + file`, the
/// convention `Square` uses.
#[derive(Debug, Clone, PartialEq, Eq)]
pub struct Position {
    pub board: [Option<Piece>; 64],
    pub side_to_move: Color,
    pub castling: CastlingRights,
    pub en_passant: Option<Square>,
    pub halfmove_clock: u32,
    pub fullmove_number: u32,
}

/// The mathematical content of a `Position`.
pub struct PositionView {
    pub board: Seq<Option<Piece>>,
    pub side_to_move: Color,
    pub castling: CastlingRights,
    pub en_passant: Option<Square>,
    pub halfmove_clock: u32,
    pub fullmove_number: u32,
}

impl View for Position {
    type V = PositionView;

    open spec fn view(&self) -> PositionView {
        PositionView {
            board: self.board@,
            side_to_move: self.side_to_move,
            castling: self.castling,
            en_passant: self.en_passant,
            halfmove_clock: self.halfmove_clock,
            fullmove_number: self.fullmove_number,
        }
    }
}

pub open spec fn square_index(sq: Square) -> int {
    sq.rank * 8 + sq.file
}

impl Position {
    /// The piece on `sq`, if any.
    pub fn piece_at(&self, sq: Square) -> (r: Option<Piece>)
        requires
            square_index(sq) < 64,
        ensures
            r == self.board@[square_index(sq)],
    {
        self.board[sq.rank as usize * 8 + sq.file as usize]
    }
}

/// The piece a FEN letter stands for: upper case for white, lower case for
/// black.
pub open spec fn spec_piece_from_fen_letter(c: char) -> Option<Piece> {
    let white = Color::White;
    let black = Color::Black;
    if c == 'P' {
        Some(Piece { kind: PieceKind::Pawn, color: white })
    } else if c == 'N' {
        Some(Piece { kind: PieceKind::Knight, color: white })
    } else if c == 'B' {
        Some(Piece { kind: PieceKind::Bishop, color: white })
    } else if c == 'R' {
        Some(Piece { kind: PieceKind::Rook, color: white })
    } else if c == 'Q' {
        Some(Piece { kind: PieceKind::Queen, color: white })
    } else if c == 'K' {
        Some(Piece { kind: PieceKind::King, color: white })
    } else if c == 'p' {
        Some(Piece { kind: PieceKind::Pawn, color: black })
    } else if c == 'n' {
        Some(Piece { kind: PieceKind::Knight, color: black })
    } else if c == 'b' {
        Some(Piece { kind: PieceKind::Bishop, color: black })
    } else if c == 'r' {
        Some(Piece { kind: PieceKind::Rook, color: black })
    } else if c == 'q' {
        Some(Piece { kind: PieceKind::Queen, color: black })
    } else if c == 'k' {
        Some(Piece { kind: PieceKind::King, color: black })
    } else {
        None
    }
}

/// The FEN letter of a piece.
pub open spec fn spec_fen_letter(p: Piece) -> char {
    match (p.color, p.kind) {
        (Color::White, PieceKind::Pawn) => 'P',
        (Color::White, PieceKind::Knight) => 'N',
        (Color::White, PieceKind::Bishop) => 'B',
        (Color::White, PieceKind::Rook) => 'R',
        (Color::White, PieceKind::Queen) => 'Q',
        (Color::White, PieceKind::King) => 'K',
        (Color::Black, PieceKind::Pawn) => 'p',
        (Color::Black, PieceKind::Knight) => 'n',
        (Color::Black, PieceKind::Bishop) => 'b',
        (Color::Black, PieceKind::Rook) => 'r',
        (Color::Black, PieceKind::Queen) => 'q',
        (Color::Black, PieceKind::King) => 'k',
    }
}

fn piece_from_fen_letter(c: char) -> (r: Option<Piece>)
    ensures
        r == spec_piece_from_fen_letter(c),
{
    let (kind, color) = if c == 'P' || c == 'p' {
        (PieceKind::Pawn, c == 'P')
    } else if c == 'N' || c == 'n' {
        (PieceKind::Knight, c == 'N')
    } else if c == 'B' || c == 'b' {
        (PieceKind::Bishop, c == 'B')
    } else if c == 'R' || c == 'r' {
        (PieceKind::Rook, c == 'R')
    } else if c == 'Q' || c == 'q' {
        (PieceKind::Queen, c == 'Q')
    } else if c == 'K' || c == 'k' {
        (PieceKind::King, c == 'K')
    } else {
        return None;
    };
    Some(Piece { kind, color: if color { Color::White } else { Color::Black } })
}

pub(crate) fn piece_to_fen_letter(p: Piece) -> (c: char)
    ensures
        c == spec_fen_letter(p),
{
    let letter = p.kind.to_letter();
    match p.color {
        Color::White => letter,
        Color::Black => match p.kind {
            PieceKind::Pawn => 'p',
            PieceKind::Knight => 'n',
            PieceKind::Bishop => 'b',
            PieceKind::Rook => 'r',
            PieceKind::Queen => 'q',
            PieceKind::King => 'k',
        },
    }
}

/// FEN writes a piece by the letter SAN uses for its kind (`P` for the
/// pawn), upper case for White and lower case for Black, and reading a
/// letter gives back exactly the piece written with it.
pub proof fn lemma_fen_letters(c: char, p: Piece)
    ensures
        (spec_piece_from_fen_letter(c) == Some(p)) == (spec_fen_letter(p) == c),
        p.color == Color::White ==> spec_fen_letter(p) == spec_letter(p.kind),
        p.color == Color::Black ==> spec_fen_letter(p) as u32 == spec_letter(p.kind) as u32 + 32,
        (p.kind == PieceKind::Pawn) == (spec_letter(p.kind) == 'P'),
        p.kind != PieceKind::Pawn ==> spec_from_letter(spec_letter(p.kind)) == Some(p.kind),
{
}

/// One character of a rank description, applied to the squares read so
/// far (from the a-file on).
/// A failure is reported with the character that caused it.
pub open spec fn rank_step(cells: Seq<Option<Piece>>, c: char) -> Result<
    Seq<Option<Piece>>,
    (ParseErrorKind, char),
> {
    if is_digit(c) {
        let n = digit_value(c);
        if n == 0 || n > 8 {
            Err((ParseErrorKind::InvalidEmptySquareCount, c))
        } else if cells.len() + n > 8 {
            Err((ParseErrorKind::RankTooLong, c))
        } else {
            Ok(cells + Seq::new(n, |i: int| None::<Piece>))
        }
    } else {
        match spec_piece_from_fen_letter(c) {
            None => Err((ParseErrorKind::InvalidPieceLetter, c)),
            Some(p) => if cells.len() >= 8 {
                Err((ParseErrorKind::RankTooLong, c))
            } else {
                Ok(cells.push(Some(p)))
            },
        }
    }
}

/// The squares filled after reading `s`, starting from the squares `cells`
/// already filled.
pub open spec fn rank_scan_from(cells: Seq<Option<Piece>>, s: Seq<char>) -> Result<
    Seq<Option<Piece>>,
    (ParseErrorKind, char),
>
    decreases s.len(),
{
    if s.len() == 0 {
        Ok(cells)
    } else {
        match rank_scan_from(cells, s.drop_last()) {
            Err(e) => Err(e),
            Ok(c) => rank_step(c, s.last()),
        }
    }
}

/// The squares a rank description fills, read left to right from the
/// a-file.
pub open spec fn rank_scan(s: Seq<char>) -> Result<Seq<Option<Piece>>, (ParseErrorKind, char)> {
    rank_scan_from(Seq::empty(), s)
}

/// The eight squares of a rank, a-file first.
pub open spec fn spec_parse_rank(s: Seq<char>) -> Result<Seq<Option<Piece>>, ErrorView> {
    match rank_scan(s) {
        Err((kind, c)) => Err(
            failure_with(
                kind,
                if kind == ParseErrorKind::InvalidEmptySquareCount {
                    "invalid empty-square count '"@.push(c) + "'"@
                } else if kind == ParseErrorKind::InvalidPieceLetter {
                    "invalid piece letter '"@.push(c) + "'"@
                } else {
                    "rank '"@ + s + "' has more than 8 files"@
                },
            ),
        ),
        Ok(cells) => if cells.len() != 8 {
            Err(
                failure_with(
                    ParseErrorKind::RankTooShort,
                    "rank '"@ + s + "' does not account for exactly 8 files"@,
                ),
            )
        } else {
            Ok(cells)
        },
    }
}

/// The ranks of a placement field, in the order they are written (rank 8
/// first); the first bad rank decides the error.
pub open spec fn spec_rows(ranks: Seq<Seq<char>>) -> Result<
    Seq<Seq<Option<Piece>>>,
    ErrorView,
>
    decreases ranks.len(),
{
    if ranks.len() == 0 {
        Ok(Seq::empty())
    } else {
        match spec_rows(ranks.drop_last()) {
            Err(e) => Err(e),
            Ok(rows) => match spec_parse_rank(ranks.last()) {
                Err(e) => Err(e),
                Ok(cells) => Ok(rows.push(cells)),
            },
        }
    }
}

/// The board, indexed by `rank * 8 + file`, of rows written rank 8 first.
pub open spec fn board_of_rows(rows: Seq<Seq<Option<Piece>>>) -> Seq<Option<Piece>> {
    Seq::new(64, |i: int| rows[7 - i / 8][i % 8])
}

pub open spec fn spec_parse_placement(field: Seq<char>) -> Result<
    Seq<Option<Piece>>,
    ErrorView,
> {
    let ranks = split_on(field, '/');
    if ranks.len() != 8 {
        Err(
            failure_with(
                ParseErrorKind::WrongRankCount,
                "piece placement must have 8 ranks, found "@ + decimal(ranks.len()),
            ),
        )
    } else {
        match spec_rows(ranks) {
            Err(e) => Err(e),
            Ok(rows) => Ok(board_of_rows(rows)),
        }
    }
}

pub open spec fn spec_parse_side(field: Seq<char>) -> Result<Color, ErrorView> {
    if field == seq!['w'] {
        Ok(Color::White)
    } else if field == seq!['b'] {
        Ok(Color::Black)
    } else {
        Err(
            failure_with(ParseErrorKind::InvalidSideToMove, "invalid side to move '"@ + field + "'"@),
        )
    }
}

pub open spec fn is_castling_letter(c: char) -> bool {
    c == 'K' || c == 'Q' || c == 'k' || c == 'q'
}

/// `-` for no rights, otherwise any of the letters `KQkq`.
pub open spec fn spec_parse_castling(field: Seq<char>) -> Result<CastlingRights, ErrorView> {
    if field == seq!['-'] {
        Ok(no_castling())
    } else if forall|i: int| 0 <= i < field.len() ==> is_castling_letter(#[trigger] field[i]) {
        Ok(
            CastlingRights {
                white_kingside: field.contains('K'),
                white_queenside: field.contains('Q'),
                black_kingside: field.contains('k'),
                black_queenside: field.contains('q'),
            },
        )
    } else {
        Err(
            failure_with(
                ParseErrorKind::InvalidCastling,
                "invalid castling availability '"@ + field + "'"@,
            ),
        )
    }
}

/// The rank (0-based) the en passant target square must be on: behind the
/// pawn that has just made a double step.
pub open spec fn en_passant_rank(side: Color) -> u8 {
    match side {
        Color::White => 5,
        Color::Black => 2,
    }
}

pub open spec fn side_letter(side: Color) -> char {
    match side {
        Color::White => 'w',
        Color::Black => 'b',
    }
}

pub open spec fn spec_parse_en_passant(field: Seq<char>, side: Color) -> Result<
    Option<Square>,
    ErrorView,
> {
    if field == seq!['-'] {
        Ok(None)
    } else {
        match spec_square_from(field) {
            None => Err(
                failure_with(
                    ParseErrorKind::InvalidEnPassantSquare,
                    "invalid en passant square '"@ + field + "'"@,
                ),
            ),
            Some(sq) => if sq.rank != en_passant_rank(side) {
                Err(
                    failure_with(
                        ParseErrorKind::EnPassantWrongRank,
                        "en passant square '"@ + field + "' is not on the expected rank for '"@.push(
                            side_letter(side),
                        ) + "' to move"@,
                    ),
                )
            } else {
                Ok(Some(sq))
            },
        }
    }
}

/// What `parse_fen` makes of `input`.
pub open spec fn spec_parse_fen(input: Seq<char>) -> Result<PositionView, ErrorView> {
    let f = words(input);
    if f.len() != 6 {
        Err(
            failure_with(
                ParseErrorKind::WrongFieldCount,
                "FEN must have 6 space-separated fields, found "@ + decimal(f.len()),
            ),
        )
    } else {
        match spec_parse_placement(f[0]) {
            Err(e) => Err(e),
            Ok(board) => match spec_parse_side(f[1]) {
                Err(e) => Err(e),
                Ok(side_to_move) => match spec_parse_castling(f[2]) {
                    Err(e) => Err(e),
                    Ok(castling) => match spec_parse_en_passant(f[3], side_to_move) {
                        Err(e) => Err(e),
                        Ok(en_passant) => match spec_parse_u32(f[4]) {
                            None => Err(
                                failure_with(
                                    ParseErrorKind::InvalidHalfmoveClock,
                                    "invalid halfmove clock '"@ + f[4] + "'"@,
                                ),
                            ),
                            Some(halfmove_clock) => match spec_parse_u32(f[5]) {
                                None => Err(
                                    failure_with(
                                        ParseErrorKind::InvalidFullmoveNumber,
                                        "invalid fullmove number '"@ + f[5] + "'"@,
                                    ),
                                ),
                                Some(fullmove_number) => if fullmove_number == 0 {
                                    Err(failure(ParseErrorKind::ZeroFullmoveNumber))
                                } else {
                                    Ok(
                                        PositionView {
                                            board,
                                            side_to_move,
                                            castling,
                                            en_passant,
                                            halfmove_clock,
                                            fullmove_number,
                                        },
                                    )
                                },
                            },
                        },
                    },
                },
            },
        }
    }
}

proof fn lemma_rank_scan_err(s: Seq<char>, k: int)
    requires
        0 <= k <= s.len(),
        rank_scan_from(Seq::empty(), s.take(k)) is Err,
    ensures
        rank_scan_from(Seq::empty(), s) == rank_scan_from(Seq::empty(), s.take(k)),
    decreases s.len(),
{
    if k < s.len() {
        assert(s.drop_last().take(k) =~= s.take(k));
        lemma_rank_scan_err(s.drop_last(), k);
    } else {
        assert(s.take(k) =~= s);
    }
}

proof fn lemma_rows_err(r: Seq<Seq<char>>, k: int)
    requires
        0 <= k <= r.len(),
        spec_rows(r.take(k)) is Err,
    ensures
        spec_rows(r) == spec_rows(r.take(k)),
    decreases r.len(),
{
    if k < r.len() {
        assert(r.drop_last().take(k) =~= r.take(k));
        lemma_rows_err(r.drop_last(), k);
    } else {
        assert(r.take(k) =~= r);
    }
}

fn parse_rank(v: &Vec<char>, lo: usize, hi: usize) -> (r: Result<Vec<Option<Piece>>, ParseError>)
    requires
        lo <= hi <= v.len(),
    ensures
        match spec_parse_rank(v@.subrange(lo as int, hi as int)) {
            Ok(cells) => r matches Ok(out) && out@ == cells,
            Err(ev) => r matches Err(e) && e@ == ev,
        },
{
    let mut cells: Vec<Option<Piece>> = Vec::new();
    let mut i = lo;
    while i < hi
        invariant
            lo <= i <= hi <= v.len(),
            rank_scan(v@.subrange(lo as int, i as int)) == Ok::<
                Seq<Option<Piece>>,
                (ParseErrorKind, char),
            >(cells@),
            cells@.len() <= 8,
        decreases hi - i,
    {
        let ghost s = v@.subrange(lo as int, i + 1);
        assert(s.drop_last() =~= v@.subrange(lo as int, i as int));
        assert(s.last() == v@[i as int]);
        proof {
            let full = v@.subrange(lo as int, hi as int);
            assert(full.take(i + 1 - lo) =~= s);
            if rank_scan(s) is Err {
                lemma_rank_scan_err(full, i + 1 - lo);
            }
        }
        let c = v[i];
        if '0' <= c && c <= '9' {
            let n = (c as u32 - 48) as usize;
            if n == 0 || n > 8 {
                return Err(
                    ParseError::with_message(
                        ParseErrorKind::InvalidEmptySquareCount,
                        with_char("invalid empty-square count '", c, "'"),
                    ),
                );
            }
            if cells.len() + n > 8 {
                return Err(
                    ParseError::with_message(
                        ParseErrorKind::RankTooLong,
                        quoted("rank '", v, lo, hi, "' has more than 8 files"),
                    ),
                );
            }
            let ghost before = cells@;
            let mut k: usize = 0;
            while k < n
                invariant
                    k <= n,
                    cells@ == before + Seq::new(k as nat, |j: int| None::<Piece>),
                decreases n - k,
            {
                cells.push(None);
                k += 1;
                assert(cells@ =~= before + Seq::new(k as nat, |j: int| None::<Piece>));
            }
        } else {
            match piece_from_fen_letter(c) {
                None => {
                    return Err(
                        ParseError::with_message(
                            ParseErrorKind::InvalidPieceLetter,
                            with_char("invalid piece letter '", c, "'"),
                        ),
                    );
                },
                Some(p) => {
                    if cells.len() >= 8 {
                        return Err(
                            ParseError::with_message(
                                ParseErrorKind::RankTooLong,
                                quoted("rank '", v, lo, hi, "' has more than 8 files"),
                            ),
                        );
                    }
                    cells.push(Some(p));
                },
            }
        }
        i += 1;
    }
    if cells.len() != 8 {
        return Err(
            ParseError::with_message(
                ParseErrorKind::RankTooShort,
                quoted("rank '", v, lo, hi, "' does not account for exactly 8 files"),
            ),
        );
    }
    Ok(cells)
}

fn parse_placement(v: &Vec<char>, lo: usize, hi: usize) -> (r: Result<
    [Option<Piece>; 64],
    ParseError,
>)
    requires
        lo <= hi <= v.len(),
    ensures
        match spec_parse_placement(v@.subrange(lo as int, hi as int)) {
            Ok(board) => r matches Ok(b) && b@ == board,
            Err(ev) => r matches Err(e) && e@ == ev,
        },
{
    let ranks = split_bounds(v, lo, hi, '/');
    let ghost parts = split_on(v@.subrange(lo as int, hi as int), '/');
    if ranks.len() != 8 {
        return Err(
            ParseError::with_message(
                ParseErrorKind::WrongRankCount,
                with_count("piece placement must have 8 ranks, found ", ranks.len()),
            ),
        );
    }
    let mut rows: Vec<Vec<Option<Piece>>> = Vec::new();
    let mut i: usize = 0;
    assert(parts.take(0) =~= Seq::<Seq<char>>::empty());
    assert(Seq::new(0, |k: int| rows@[k]@) =~= Seq::<Seq<Option<Piece>>>::empty());
    while i < 8
        invariant
            i <= 8,
            ranks@.len() == 8,
            parts.len() == 8,
            crate::split::bounds_of(v@, ranks@, parts),
            forall|k: int| 0 <= k < 8 ==> lo <= (#[trigger] ranks@[k]).0 && ranks@[k].1 <= hi,
            hi <= v.len(),
            rows@.len() == i,
            parts == split_on(v@.subrange(lo as int, hi as int), '/'),
            forall|k: int| 0 <= k < i ==> (#[trigger] rows@[k])@.len() == 8,
            spec_rows(parts.take(i as int)) == Ok::<Seq<Seq<Option<Piece>>>, ErrorView>(
                Seq::new(i as nat, |k: int| rows@[k]@),
            ),
        decreases 8 - i,
    {
        let (a, b) = ranks[i];
        assert(parts.take(i + 1).drop_last() =~= parts.take(i as int));
        assert(parts.take(i + 1).last() == parts[i as int]);
        let cells = match parse_rank(v, a, b) {
            Ok(c) => c,
            Err(e) => {
                proof {
                    lemma_rows_err(parts, i + 1);
                }
                return Err(e);
            },
        };
        let ghost old_rows = rows@;
        rows.push(cells);
        assert(Seq::new((i + 1) as nat, |k: int| rows@[k]@) =~= Seq::new(
            i as nat,
            |k: int| old_rows[k]@,
        ).push(cells@));
        i += 1;
    }
    assert(parts.take(8) =~= parts);
    let ghost rv = Seq::new(8, |k: int| rows@[k]@);
    let mut board: [Option<Piece>; 64] = [None;64];
    let mut idx: usize = 0;
    while idx < 64
        invariant
            idx <= 64,
            rows@.len() == 8,
            forall|k: int| 0 <= k < 8 ==> (#[trigger] rows@[k])@.len() == 8,
            rv == Seq::new(8, |k: int| rows@[k]@),
            forall|j: int| 0 <= j < idx ==> board@[j] == board_of_rows(rv)[j],
        decreases 64 - idx,
    {
        let cell = rows[7 - idx / 8][idx % 8];
        board[idx] = cell;
        idx += 1;
    }
    assert(board@ =~= board_of_rows(rv));
    Ok(board)
}

fn field_is(v: &Vec<char>, a: usize, b: usize, c: char) -> (r: bool)
    requires
        a <= b <= v.len(),
    ensures
        r == (v@.subrange(a as int, b as int) == seq![c]),
{
    if b - a == 1 && v[a] == c {
        assert(v@.subrange(a as int, b as int) =~= seq![c]);
        true
    } else {
        proof {
            let sub = v@.subrange(a as int, b as int);
            let one: Seq<char> = seq![c];
            assert(one.len() == 1 && one[0] == c);
            if b - a == 1 {
                assert(sub[0] == v@[a as int]);
                assert(sub[0] != one[0]);
            } else {
                assert(sub.len() != one.len());
            }
        }
        false
    }
}

fn parse_side_to_move(v: &Vec<char>, a: usize, b: usize) -> (r: Result<Color, ParseError>)
    requires
        a <= b <= v.len(),
    ensures
        match spec_parse_side(v@.subrange(a as int, b as int)) {
            Ok(c) => r == Ok::<Color, ParseError>(c),
            Err(ev) => r matches Err(e) && e@ == ev,
        },
{
    if field_is(v, a, b, 'w') {
        Ok(Color::White)
    } else if field_is(v, a, b, 'b') {
        Ok(Color::Black)
    } else {
        Err(
            ParseError::with_message(
                ParseErrorKind::InvalidSideToMove,
                quoted("invalid side to move '", v, a, b, "'"),
            ),
        )
    }
}

proof fn lemma_push_contains(p: Seq<char>, c: char, x: char)
    ensures
        p.push(c).contains(x) == (p.contains(x) || c == x),
{
    let q = p.push(c);
    if q.contains(x) && c != x {
        let j = choose|j: int| 0 <= j < q.len() && q[j] == x;
        assert(p[j] == x);
    }
    if p.contains(x) {
        let j = choose|j: int| 0 <= j < p.len() && p[j] == x;
        assert(q[j] == x);
    }
    if c == x {
        assert(q[p.len() as int] == x);
    }
}

fn parse_castling(v: &Vec<char>, a: usize, b: usize) -> (r: Result<CastlingRights, ParseError>)
    requires
        a <= b <= v.len(),
    ensures
        match spec_parse_castling(v@.subrange(a as int, b as int)) {
            Ok(c) => r == Ok::<CastlingRights, ParseError>(c),
            Err(ev) => r matches Err(e) && e@ == ev,
        },
{
    let ghost f = v@.subrange(a as int, b as int);
    if field_is(v, a, b, '-') {
        return Ok(CastlingRights::none());
    }
    let mut rights = CastlingRights::none();
    let mut i = a;
    while i < b
        invariant
            a <= i <= b <= v.len(),
            f == v@.subrange(a as int, b as int),
            f != seq!['-'],
            forall|k: int| a <= k < i ==> is_castling_letter(#[trigger] v@[k]),
            rights.white_kingside == f.subrange(0, i - a).contains('K'),
            rights.white_queenside == f.subrange(0, i - a).contains('Q'),
            rights.black_kingside == f.subrange(0, i - a).contains('k'),
            rights.black_queenside == f.subrange(0, i - a).contains('q'),
        decreases b - i,
    {
        let c = v[i];
        let ghost p = f.subrange(0, i - a);
        assert(f.subrange(0, i + 1 - a) =~= p.push(c));
        if c == 'K' {
            rights.white_kingside = true;
        } else if c == 'Q' {
            rights.white_queenside = true;
        } else if c == 'k' {
            rights.black_kingside = true;
        } else if c == 'q' {
            rights.black_queenside = true;
        } else {
            assert(f[i - a] == c);
            return Err(
                ParseError::with_message(
                    ParseErrorKind::InvalidCastling,
                    quoted("invalid castling availability '", v, a, b, "'"),
                ),
            );
        }
        proof {
            lemma_push_contains(p, c, 'K');
            lemma_push_contains(p, c, 'Q');
            lemma_push_contains(p, c, 'k');
            lemma_push_contains(p, c, 'q');
        }
        i += 1;
    }
    assert(f.subrange(0, b - a) =~= f);
    assert forall|k: int| 0 <= k < f.len() implies is_castling_letter(#[trigger] f[k]) by {
        assert(f[k] == v@[a + k]);
    }
    Ok(rights)
}

fn parse_en_passant(v: &Vec<char>, a: usize, b: usize, side: Color) -> (r: Result<
    Option<Square>,
    ParseError,
>)
    requires
        a <= b <= v.len(),
    ensures
        match spec_parse_en_passant(v@.subrange(a as int, b as int), side) {
            Ok(s) => r == Ok::<Option<Square>, ParseError>(s),
            Err(ev) => r matches Err(e) && e@ == ev,
        },
{
    if field_is(v, a, b, '-') {
        return Ok(None);
    }
    if b - a != 2 {
        return Err(
            ParseError::with_message(
                ParseErrorKind::InvalidEnPassantSquare,
                quoted("invalid en passant square '", v, a, b, "'"),
            ),
        );
    }
    assert(v@.subrange(a as int, b as int)[0] == v@[a as int]);
    assert(v@.subrange(a as int, b as int)[1] == v@[a + 1]);
    let sq = match square_at(v, a) {
        Some(sq) => sq,
        None => {
            return Err(
                ParseError::with_message(
                    ParseErrorKind::InvalidEnPassantSquare,
                    quoted("invalid en passant square '", v, a, b, "'"),
                ),
            );
        },
    };
    let expected: u8 = match side {
        Color::White => 5,
        Color::Black => 2,
    };
    if sq.rank != expected {
        let mut m: Vec<char> = Vec::new();
        push_str(&mut m, "en passant square '");
        push_range(&mut m, v, a, b);
        push_str(&mut m, "' is not on the expected rank for '");
        m.push(
            match side {
                Color::White => 'w',
                Color::Black => 'b',
            },
        );
        push_str(&mut m, "' to move");
        return Err(
            ParseError::with_message(ParseErrorKind::EnPassantWrongRank, string_from_chars(&m)),
        );
    }
    Ok(Some(sq))
}

/// Parse a FEN record, such as the starting position
/// `rnbqkbnr/pppppppp/8/8/8/8/PPPPPPPP/RNBQKBNR w KQkq - 0 1`.
pub fn parse_fen(input: &str) -> (r: Result<Position, ParseError>)
    ensures
        match spec_parse_fen(input@) {
            Ok(p) => r matches Ok(pos) && pos@ == p,
            Err(ev) => r matches Err(e) && e@ == ev,
        },
{
    let v = chars_of(input);
    assert(v@.subrange(0, v@.len() as int) =~= input@);
    let fields = word_bounds(&v, 0, v.len());
    if fields.len() != 6 {
        return Err(
            ParseError::with_message(
                ParseErrorKind::WrongFieldCount,
                with_count("FEN must have 6 space-separated fields, found ", fields.len()),
            ),
        );
    }
    let board = parse_placement(&v, fields[0].0, fields[0].1)?;
    let side_to_move = parse_side_to_move(&v, fields[1].0, fields[1].1)?;
    let castling = parse_castling(&v, fields[2].0, fields[2].1)?;
    let en_passant = parse_en_passant(&v, fields[3].0, fields[3].1, side_to_move)?;
    let halfmove_clock = match parse_u32(&v, fields[4].0, fields[4].1) {
        Some(n) => n,
        None => {
            return Err(
                ParseError::with_message(
                    ParseErrorKind::InvalidHalfmoveClock,
                    quoted("invalid halfmove clock '", &v, fields[4].0, fields[4].1, "'"),
                ),
            );
        },
    };
    let fullmove_number = match parse_u32(&v, fields[5].0, fields[5].1) {
        Some(n) => n,
        None => {
            return Err(
                ParseError::with_message(
                    ParseErrorKind::InvalidFullmoveNumber,
                    quoted("invalid fullmove number '", &v, fields[5].0, fields[5].1, "'"),
                ),
            );
        },
    };
    if fullmove_number == 0 {
        return Err(ParseError::new(ParseErrorKind::ZeroFullmoveNumber));
    }
    Ok(Position { board, side_to_move, castling, en_passant, halfmove_clock, fullmove_number })
}

} // verus!
