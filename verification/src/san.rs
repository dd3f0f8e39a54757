//! Standard Algebraic Notation (SAN): the move notation of published games
//! and PGN files (`e4`, `Nbxd7+`, `exd8=Q`, `O-O-O#`).
//!
//! Only the *shape* of a move is understood here: piece, disambiguation,
//! capture, destination, promotion and check marker. Whether a move is
//! legal in some position is the business of `resolve`.

use vstd::prelude::*;
use crate::message::{quoted, with_char};
use crate::text::{lemma_find_char_bound, chars_of, drop_char, find_char, find_in, contains_char, without_char, trim, trim_bounds, string_from_chars, string_from_str};

verus! {

#[derive(Debug, Clone, Copy, PartialEq, Eq, Structural)]
pub enum PieceKind {
    Pawn,
    Knight,
    Bishop,
    Rook,
    Queen,
    King,
}

/// The piece a SAN letter names. SAN never writes the pawn letter.
pub open spec fn spec_from_letter(c: char) -> Option<PieceKind> {
    if c == 'N' {
        Some(PieceKind::Knight)
    } else if c == 'B' {
        Some(PieceKind::Bishop)
    } else if c == 'R' {
        Some(PieceKind::Rook)
    } else if c == 'Q' {
        Some(PieceKind::Queen)
    } else if c == 'K' {
        Some(PieceKind::King)
    } else {
        None
    }
}

/// The upper-case letter of a piece kind, `P` for the pawn.
pub open spec fn spec_letter(k: PieceKind) -> char {
    match k {
        PieceKind::Pawn => 'P',
        PieceKind::Knight => 'N',
        PieceKind::Bishop => 'B',
        PieceKind::Rook => 'R',
        PieceKind::Queen => 'Q',
        PieceKind::King => 'K',
    }
}

impl PieceKind {
    pub(crate) fn from_letter(c: char) -> (r: Option<PieceKind>)
        ensures
            r == spec_from_letter(c),
    {
        if c == 'N' {
            Some(PieceKind::Knight)
        } else if c == 'B' {
            Some(PieceKind::Bishop)
        } else if c == 'R' {
            Some(PieceKind::Rook)
        } else if c == 'Q' {
            Some(PieceKind::Queen)
        } else if c == 'K' {
            Some(PieceKind::King)
        } else {
            None
        }
    }

    /// SAN never spells out the pawn letter, but FEN does; keeping the
    /// mapping total means no caller has to special-case the pawn.
    pub(crate) fn to_letter(&self) -> (c: char)
        ensures
            c == spec_letter(*self),
    {
        match self {
            PieceKind::Pawn => 'P',
            PieceKind::Knight => 'N',
            PieceKind::Bishop => 'B',
            PieceKind::Rook => 'R',
            PieceKind::Queen => 'Q',
            PieceKind::King => 'K',
        }
    }
}

/// A square on the board, zero-indexed from the a1 corner: `file` 0 is the
/// a-file, `rank` 0 is the first rank.
#[derive(Debug, Clone, Copy, PartialEq, Eq, Structural)]
pub struct Square {
    pub file: u8,
    pub rank: u8,
}

pub open spec fn is_file_char(c: char) -> bool {
    'a' <= c && c <= 'h'
}

pub open spec fn is_rank_char(c: char) -> bool {
    '1' <= c && c <= '8'
}

pub open spec fn file_of(c: char) -> u8 {
    (c as u32 - 97) as u8
}

pub open spec fn rank_of(c: char) -> u8 {
    (c as u32 - 49) as u8
}

/// The square named by a file letter and a rank digit.
pub open spec fn spec_square_of(f: char, r: char) -> Option<Square> {
    if is_file_char(f) && is_rank_char(r) {
        Some(Square { file: file_of(f), rank: rank_of(r) })
    } else {
        None
    }
}

/// The square a two-character name such as `e4` denotes.
pub open spec fn spec_square_from(s: Seq<char>) -> Option<Square> {
    if s.len() == 2 {
        spec_square_of(s[0], s[1])
    } else {
        None
    }
}

/// Whether the letters of a square can be written (the file and rank
/// offsets from `a` and `1` stay within a byte).
pub open spec fn square_printable(sq: Square) -> bool {
    sq.file <= 158 && sq.rank <= 206
}

pub open spec fn file_char(f: u8) -> char {
    ((97 + f) as u8) as char
}

pub open spec fn rank_char(r: u8) -> char {
    ((49 + r) as u8) as char
}

/// The name of a square, such as `e4`.
pub open spec fn square_text(sq: Square) -> Seq<char> {
    seq![file_char(sq.file), rank_char(sq.rank)]
}

pub open spec fn valid_square(sq: Square) -> bool {
    sq.file < 8 && sq.rank < 8
}

pub fn square_at(v: &Vec<char>, i: usize) -> (r: Option<Square>)
    requires
        i + 1 < v.len(),
    ensures
        r == spec_square_of(v@[i as int], v@[i + 1]),
{
    let f = v[i];
    let r = v[i + 1];
    if 'a' <= f && f <= 'h' && '1' <= r && r <= '8' {
        Some(Square { file: (f as u32 - 97) as u8, rank: (r as u32 - 49) as u8 })
    } else {
        None
    }
}

pub fn push_file(out: &mut Vec<char>, f: u8)
    requires
        f <= 158,
    ensures
        final(out)@ == old(out)@.push(file_char(f)),
{
    out.push((97 + f) as char);
}

pub fn push_rank(out: &mut Vec<char>, r: u8)
    requires
        r <= 206,
    ensures
        final(out)@ == old(out)@.push(rank_char(r)),
{
    out.push((49 + r) as char);
}

impl Square {
    /// The square named by `s`, such as `e4`; `None` unless `s` is exactly a
    /// file letter `a`-`h` followed by a rank digit `1`-`8`.
    pub fn from_str(s: &str) -> (r: Option<Square>)
        ensures
            r == spec_square_from(s@),
    {
        let v = chars_of(s);
        if v.len() != 2 {
            return None;
        }
        square_at(&v, 0)
    }

    /// The name of the square, such as `e4`.
    pub fn to_string(&self) -> (s: String)
        requires
            square_printable(*self),
        ensures
            s@ == square_text(*self),
    {
        let mut v: Vec<char> = Vec::new();
        push_file(&mut v, self.file);
        push_rank(&mut v, self.rank);
        assert(v@ =~= square_text(*self));
        string_from_chars(&v)
    }
}

/// How the origin square of a piece move is narrowed down, when more than
/// one piece of that kind could otherwise reach the destination.
#[derive(Debug, Clone, Copy, PartialEq, Eq, Structural)]
pub enum Disambiguation {
    Unspecified,
    File(u8),
    Rank(u8),
    Square(Square),
}

#[derive(Debug, Clone, Copy, PartialEq, Eq, Structural)]
pub enum CheckState {
    NoCheck,
    Check,
    Checkmate,
}

#[derive(Debug, Clone, Copy, PartialEq, Eq, Structural)]
pub enum Move {
    Castle { kingside: bool, check: CheckState },
    Piece {
        piece: PieceKind,
        disambiguation: Disambiguation,
        capture: bool,
        to: Square,
        promotion: Option<PieceKind>,
        check: CheckState,
    },
}

/// What went wrong while reading SAN, FEN or PGN text.
#[derive(Debug, Clone, Copy, PartialEq, Eq, Structural)]
pub enum ParseErrorKind {
    EmptyMove,
    MoveHasNoBody,
    MissingPromotionPiece,
    InvalidPromotionPiece,
    MalformedMove,
    NoDestination,
    CannotParseDestination,
    InvalidDestination,
    InvalidDisambiguation,
    InvalidDisambiguationSquare,
    TooManyDisambiguationChars,
    PawnCaptureWithoutFile,
    PromotionNotOnLastRank,
    WrongFieldCount,
    WrongRankCount,
    InvalidEmptySquareCount,
    InvalidPieceLetter,
    RankTooLong,
    RankTooShort,
    InvalidSideToMove,
    InvalidCastling,
    InvalidEnPassantSquare,
    EnPassantWrongRank,
    InvalidHalfmoveClock,
    InvalidFullmoveNumber,
    ZeroFullmoveNumber,
    MalformedTagPair,
    TagMissingQuotedValue,
    TagMissingName,
    InvalidTagName,
    UnterminatedTagValue,
    TrailingTagContent,
    UnmatchedCloseParen,
    UnterminatedVariation,
    VariationWithoutMove,
    UnterminatedComment,
    NagWithoutMove,
    NagWithoutNumber,
    InvalidNag,
    UnrecognizedToken,
}

/// The fixed text of an error of kind `k`.
pub open spec fn kind_text(k: ParseErrorKind) -> Seq<char> {
    match k {
        ParseErrorKind::EmptyMove => "empty move"@,
        ParseErrorKind::MoveHasNoBody => "move has no body"@,
        ParseErrorKind::MissingPromotionPiece => "missing promotion piece"@,
        ParseErrorKind::InvalidPromotionPiece => "invalid promotion piece"@,
        ParseErrorKind::MalformedMove => "malformed move"@,
        ParseErrorKind::NoDestination => "move has no destination square"@,
        ParseErrorKind::CannotParseDestination => "cannot parse destination"@,
        ParseErrorKind::InvalidDestination => "invalid destination square"@,
        ParseErrorKind::InvalidDisambiguation => "invalid disambiguation"@,
        ParseErrorKind::InvalidDisambiguationSquare => "invalid disambiguation square"@,
        ParseErrorKind::TooManyDisambiguationChars => "too many disambiguation characters"@,
        ParseErrorKind::PawnCaptureWithoutFile => "pawn capture must specify the origin file"@,
        ParseErrorKind::PromotionNotOnLastRank => "promotion is only legal on the last rank"@,
        ParseErrorKind::WrongFieldCount => "FEN must have 6 space-separated fields"@,
        ParseErrorKind::WrongRankCount => "piece placement must have 8 ranks"@,
        ParseErrorKind::InvalidEmptySquareCount => "invalid empty-square count"@,
        ParseErrorKind::InvalidPieceLetter => "invalid piece letter"@,
        ParseErrorKind::RankTooLong => "rank has more than 8 files"@,
        ParseErrorKind::RankTooShort => "rank does not account for exactly 8 files"@,
        ParseErrorKind::InvalidSideToMove => "invalid side to move"@,
        ParseErrorKind::InvalidCastling => "invalid castling availability"@,
        ParseErrorKind::InvalidEnPassantSquare => "invalid en passant square"@,
        ParseErrorKind::EnPassantWrongRank => "en passant square is not on the expected rank for the side to move"@,
        ParseErrorKind::InvalidHalfmoveClock => "invalid halfmove clock"@,
        ParseErrorKind::InvalidFullmoveNumber => "invalid fullmove number"@,
        ParseErrorKind::ZeroFullmoveNumber => "fullmove number must be at least 1"@,
        ParseErrorKind::MalformedTagPair => "malformed tag pair"@,
        ParseErrorKind::TagMissingQuotedValue => "tag pair missing quoted value"@,
        ParseErrorKind::TagMissingName => "tag pair missing name"@,
        ParseErrorKind::InvalidTagName => "invalid tag name"@,
        ParseErrorKind::UnterminatedTagValue => "unterminated tag value"@,
        ParseErrorKind::TrailingTagContent => "trailing content after tag value"@,
        ParseErrorKind::UnmatchedCloseParen => "unmatched ')' in move text"@,
        ParseErrorKind::UnterminatedVariation => "unterminated variation, missing ')'"@,
        ParseErrorKind::VariationWithoutMove => "variation must follow a move"@,
        ParseErrorKind::UnterminatedComment => "unterminated comment, missing '}'"@,
        ParseErrorKind::NagWithoutMove => "NAG must follow a move"@,
        ParseErrorKind::NagWithoutNumber => "'$' NAG marker must be followed by a number"@,
        ParseErrorKind::InvalidNag => "invalid NAG"@,
        ParseErrorKind::UnrecognizedToken => "unrecognized token"@,
    }
}

impl ParseErrorKind {
    /// A human-readable description of the error.
    pub(crate) fn description(&self) -> (s: &'static str)
        ensures
            s@ == kind_text(*self),
    {
        match self {
            ParseErrorKind::EmptyMove => "empty move",
            ParseErrorKind::MoveHasNoBody => "move has no body",
            ParseErrorKind::MissingPromotionPiece => "missing promotion piece",
            ParseErrorKind::InvalidPromotionPiece => "invalid promotion piece",
            ParseErrorKind::MalformedMove => "malformed move",
            ParseErrorKind::NoDestination => "move has no destination square",
            ParseErrorKind::CannotParseDestination => "cannot parse destination",
            ParseErrorKind::InvalidDestination => "invalid destination square",
            ParseErrorKind::InvalidDisambiguation => "invalid disambiguation",
            ParseErrorKind::InvalidDisambiguationSquare => "invalid disambiguation square",
            ParseErrorKind::TooManyDisambiguationChars => "too many disambiguation characters",
            ParseErrorKind::PawnCaptureWithoutFile => "pawn capture must specify the origin file",
            ParseErrorKind::PromotionNotOnLastRank => "promotion is only legal on the last rank",
            ParseErrorKind::WrongFieldCount => "FEN must have 6 space-separated fields",
            ParseErrorKind::WrongRankCount => "piece placement must have 8 ranks",
            ParseErrorKind::InvalidEmptySquareCount => "invalid empty-square count",
            ParseErrorKind::InvalidPieceLetter => "invalid piece letter",
            ParseErrorKind::RankTooLong => "rank has more than 8 files",
            ParseErrorKind::RankTooShort => "rank does not account for exactly 8 files",
            ParseErrorKind::InvalidSideToMove => "invalid side to move",
            ParseErrorKind::InvalidCastling => "invalid castling availability",
            ParseErrorKind::InvalidEnPassantSquare => "invalid en passant square",
            ParseErrorKind::EnPassantWrongRank =>
                "en passant square is not on the expected rank for the side to move",
            ParseErrorKind::InvalidHalfmoveClock => "invalid halfmove clock",
            ParseErrorKind::InvalidFullmoveNumber => "invalid fullmove number",
            ParseErrorKind::ZeroFullmoveNumber => "fullmove number must be at least 1",
            ParseErrorKind::MalformedTagPair => "malformed tag pair",
            ParseErrorKind::TagMissingQuotedValue => "tag pair missing quoted value",
            ParseErrorKind::TagMissingName => "tag pair missing name",
            ParseErrorKind::InvalidTagName => "invalid tag name",
            ParseErrorKind::UnterminatedTagValue => "unterminated tag value",
            ParseErrorKind::TrailingTagContent => "trailing content after tag value",
            ParseErrorKind::UnmatchedCloseParen => "unmatched ')' in move text",
            ParseErrorKind::UnterminatedVariation => "unterminated variation, missing ')'",
            ParseErrorKind::VariationWithoutMove => "variation must follow a move",
            ParseErrorKind::UnterminatedComment => "unterminated comment, missing '}'",
            ParseErrorKind::NagWithoutMove => "NAG must follow a move",
            ParseErrorKind::NagWithoutNumber => "'$' NAG marker must be followed by a number",
            ParseErrorKind::InvalidNag => "invalid NAG",
            ParseErrorKind::UnrecognizedToken => "unrecognized token",
        }
    }
}

#[derive(Debug, Clone, PartialEq, Eq)]
pub struct ParseError {
    pub kind: ParseErrorKind,
    pub message: String,
}

/// The content of a `ParseError`: its kind and its message text.
pub struct ErrorView {
    pub kind: ParseErrorKind,
    pub message: Seq<char>,
}

impl View for ParseError {
    type V = ErrorView;

    open spec fn view(&self) -> ErrorView {
        ErrorView { kind: self.kind, message: self.message@ }
    }
}

/// An error of kind `k` with its fixed text.
pub open spec fn failure(k: ParseErrorKind) -> ErrorView {
    ErrorView { kind: k, message: kind_text(k) }
}

/// An error of kind `k` whose text is `message`.
pub open spec fn failure_with(k: ParseErrorKind, message: Seq<char>) -> ErrorView {
    ErrorView { kind: k, message }
}

impl ParseError {
    pub fn new(kind: ParseErrorKind) -> (e: ParseError)
        ensures
            e@ == failure(kind),
    {
        ParseError { kind, message: string_from_str(kind.description()) }
    }

    /// An error of kind `kind` with its own message text.
    pub fn with_message(kind: ParseErrorKind, message: String) -> (e: ParseError)
        ensures
            e@ == failure_with(kind, message@),
    {
        ParseError { kind, message }
    }

    /// The error message.
    pub fn to_string(&self) -> (s: String)
        ensures
            s@ == self.message@,
    {
        self.message.clone()
    }
}

/// The check state a trailing character marks.
pub open spec fn check_of_suffix(c: char) -> CheckState {
    if c == '#' {
        CheckState::Checkmate
    } else if c == '+' {
        CheckState::Check
    } else {
        CheckState::NoCheck
    }
}

/// Castling written with the digit zero in place of the letter O reads the
/// same as with the letter.
pub open spec fn castle_normalize(s: Seq<char>) -> Seq<char> {
    s.map_values(|c: char| if c == '0' { 'O' } else { c })
}

pub open spec fn castle_text(kingside: bool) -> Seq<char> {
    if kingside {
        seq!['O', '-', 'O']
    } else {
        seq!['O', '-', 'O', '-', 'O']
    }
}

/// What `parse_san` makes of `input`.
pub open spec fn spec_parse_san(input: Seq<char>) -> Result<Move, ErrorView> {
    let t = trim(input);
    if t.len() == 0 {
        Err(failure(ParseErrorKind::EmptyMove))
    } else {
        let check = check_of_suffix(t.last());
        let body = if check == CheckState::NoCheck {
            t
        } else {
            t.drop_last()
        };
        if body.len() == 0 {
            Err(failure(ParseErrorKind::MoveHasNoBody))
        } else if castle_normalize(body) == castle_text(true) {
            Ok(Move::Castle { kingside: true, check })
        } else if castle_normalize(body) == castle_text(false) {
            Ok(Move::Castle { kingside: false, check })
        } else {
            spec_parse_piece_move(body, check)
        }
    }
}

pub open spec fn valid_promotion(p: Option<PieceKind>) -> bool {
    p is Some && p->0 != PieceKind::Pawn
}

/// The disambiguation written by the characters `d` between the piece
/// letter and the destination square of the move body `body`.
pub open spec fn spec_disambiguation(d: Seq<char>, body: Seq<char>) -> Result<
    Disambiguation,
    ErrorView,
> {
    if d.len() == 0 {
        Ok(Disambiguation::Unspecified)
    } else if d.len() == 1 {
        if is_file_char(d[0]) {
            Ok(Disambiguation::File(file_of(d[0])))
        } else if is_rank_char(d[0]) {
            Ok(Disambiguation::Rank(rank_of(d[0])))
        } else {
            Err(
                failure_with(
                    ParseErrorKind::InvalidDisambiguation,
                    "invalid disambiguation '"@.push(d[0]) + "'"@,
                ),
            )
        }
    } else if d.len() == 2 {
        match spec_square_of(d[0], d[1]) {
            Some(sq) => Ok(Disambiguation::Square(sq)),
            None => Err(
                failure_with(
                    ParseErrorKind::InvalidDisambiguationSquare,
                    "invalid disambiguation square '"@ + d + "'"@,
                ),
            ),
        }
    } else {
        Err(
            failure_with(
                ParseErrorKind::TooManyDisambiguationChars,
                "too many disambiguation characters in '"@ + body + "'"@,
            ),
        )
    }
}

/// The part of the piece move `body` after the promotion has been split
/// off: `core` is what lies between the piece letter and the `=`.
pub open spec fn spec_piece_core(
    piece: PieceKind,
    core: Seq<char>,
    promotion: Option<PieceKind>,
    check: CheckState,
    body: Seq<char>,
) -> Result<Move, ErrorView> {
    if core.len() == 0 {
        Err(failure(ParseErrorKind::NoDestination))
    } else {
        let capture = core.contains('x');
        let w = drop_char(core, 'x');
        if w.len() < 2 {
            Err(
                failure_with(
                    ParseErrorKind::CannotParseDestination,
                    "cannot parse destination from '"@ + body + "'"@,
                ),
            )
        } else {
            match spec_square_of(w[w.len() - 2], w[w.len() - 1]) {
                None => Err(
                    failure_with(
                        ParseErrorKind::InvalidDestination,
                        "invalid destination square '"@ + w.subrange(w.len() - 2, w.len() as int)
                            + "'"@,
                    ),
                ),
                Some(to) => match spec_disambiguation(w.subrange(0, w.len() - 2), body) {
                    Err(e) => Err(e),
                    Ok(disambiguation) => if capture && piece == PieceKind::Pawn
                        && disambiguation == Disambiguation::Unspecified {
                        Err(failure(ParseErrorKind::PawnCaptureWithoutFile))
                    } else if promotion is Some && !(to.rank == 0 || to.rank == 7) {
                        Err(failure(ParseErrorKind::PromotionNotOnLastRank))
                    } else {
                        Ok(
                            Move::Piece {
                                piece,
                                disambiguation,
                                capture,
                                to,
                                promotion,
                                check,
                            },
                        )
                    },
                },
            }
        }
    }
}

/// What a non-castling move body reads as.
pub open spec fn spec_parse_piece_move(body: Seq<char>, check: CheckState) -> Result<
    Move,
    ErrorView,
> {
    let lead = if body.len() > 0 {
        spec_from_letter(body[0])
    } else {
        None
    };
    let piece = match lead {
        Some(p) => p,
        None => PieceKind::Pawn,
    };
    let start: int = if lead is Some {
        1
    } else {
        0
    };
    match find_char(body, '=') {
        Some(eq) => if eq + 1 >= body.len() {
            Err(failure(ParseErrorKind::MissingPromotionPiece))
        } else if !valid_promotion(spec_from_letter(body[eq + 1])) {
            Err(
                failure_with(
                    ParseErrorKind::InvalidPromotionPiece,
                    "invalid promotion piece '"@.push(body[eq + 1]) + "'"@,
                ),
            )
        } else if start > eq {
            Err(failure_with(ParseErrorKind::MalformedMove, "malformed move '"@ + body + "'"@))
        } else {
            spec_piece_core(
                piece,
                body.subrange(start, eq),
                spec_from_letter(body[eq + 1]),
                check,
                body,
            )
        },
        None => spec_piece_core(piece, body.subrange(start, body.len() as int), None, check, body),
    }
}

/// Whether `v[lo..hi]` reads as the castling text, with `0` allowed for `O`.
fn is_castle_text(v: &Vec<char>, lo: usize, hi: usize, kingside: bool) -> (b: bool)
    requires
        lo <= hi <= v.len(),
    ensures
        b == (castle_normalize(v@.subrange(lo as int, hi as int)) == castle_text(kingside)),
{
    let ghost s = v@.subrange(lo as int, hi as int);
    let ghost t = castle_text(kingside);
    let n: usize = if kingside {
        3
    } else {
        5
    };
    if hi - lo != n {
        assert(castle_normalize(s).len() != t.len());
        return false;
    }
    let mut i: usize = 0;
    while i < n
        invariant
            lo + n == hi <= v.len(),
            i <= n,
            s == v@.subrange(lo as int, hi as int),
            t == castle_text(kingside),
            n == t.len(),
            forall|k: int| 0 <= k < i ==> castle_normalize(s)[k] == t[k],
        decreases n - i,
    {
        let c = v[lo + i];
        let ok = if i % 2 == 0 {
            c == 'O' || c == '0'
        } else {
            c == '-'
        };
        assert(s[i as int] == c);
        assert(castle_normalize(s)[i as int] == if c == '0' { 'O' } else { c });
        if !ok {
            assert(castle_normalize(s)[i as int] != t[i as int]);
            return false;
        }
        i += 1;
    }
    assert(castle_normalize(s) =~= t);
    true
}

/// The non-castling part of `parse_san`, on the body `v[lo..hi]`.
fn parse_piece_move(v: &Vec<char>, lo: usize, hi: usize, check: CheckState) -> (r: Result<
    Move,
    ParseError,
>)
    requires
        lo <= hi <= v.len(),
    ensures
        match spec_parse_piece_move(v@.subrange(lo as int, hi as int), check) {
            Ok(m) => r == Ok::<Move, ParseError>(m),
            Err(ev) => r matches Err(e) && e@ == ev,
        },
{
    let ghost body = v@.subrange(lo as int, hi as int);
    let lead = if lo < hi {
        PieceKind::from_letter(v[lo])
    } else {
        None
    };
    let piece = match lead {
        Some(p) => p,
        None => PieceKind::Pawn,
    };
    let start = if lead.is_some() {
        lo + 1
    } else {
        lo
    };
    let eq = find_in(v, lo, hi, '=');
    proof {
        lemma_find_char_bound(body, '=');
    }
    let mut promotion: Option<PieceKind> = None;
    let mut end = hi;
    if let Some(k) = eq {
        if lo + k + 1 >= hi {
            return Err(ParseError::new(ParseErrorKind::MissingPromotionPiece));
        }
        let promo = PieceKind::from_letter(v[lo + k + 1]);
        assert(body[k + 1] == v@[lo + k + 1]);
        let valid = match promo {
            Some(p) => p != PieceKind::Pawn,
            None => false,
        };
        if !valid {
            return Err(
                ParseError::with_message(
                    ParseErrorKind::InvalidPromotionPiece,
                    with_char("invalid promotion piece '", v[lo + k + 1], "'"),
                ),
            );
        }
        promotion = promo;
        end = lo + k;
    }
    if start > end {
        return Err(
            ParseError::with_message(
                ParseErrorKind::MalformedMove,
                quoted("malformed move '", v, lo, hi, "'"),
            ),
        );
    }
    assert(body.subrange(start - lo, end - lo) =~= v@.subrange(start as int, end as int));
    if start == end {
        return Err(ParseError::new(ParseErrorKind::NoDestination));
    }
    let capture = contains_char(v, start, end, 'x');
    let w = without_char(v, start, end, 'x');
    let n = w.len();
    if n < 2 {
        return Err(
            ParseError::with_message(
                ParseErrorKind::CannotParseDestination,
                quoted("cannot parse destination from '", v, lo, hi, "'"),
            ),
        );
    }
    let to = match square_at(&w, n - 2) {
        Some(sq) => sq,
        None => {
            return Err(
                ParseError::with_message(
                    ParseErrorKind::InvalidDestination,
                    quoted("invalid destination square '", &w, n - 2, n, "'"),
                ),
            );
        },
    };
    let ghost d = w@.subrange(0, n - 2);
    let disambiguation = if n == 2 {
        Disambiguation::Unspecified
    } else if n == 3 {
        let c = w[0];
        assert(d[0] == c);
        if 'a' <= c && c <= 'h' {
            Disambiguation::File((c as u32 - 97) as u8)
        } else if '1' <= c && c <= '8' {
            Disambiguation::Rank((c as u32 - 49) as u8)
        } else {
            return Err(
                ParseError::with_message(
                    ParseErrorKind::InvalidDisambiguation,
                    with_char("invalid disambiguation '", c, "'"),
                ),
            );
        }
    } else if n == 4 {
        assert(d[0] == w@[0] && d[1] == w@[1]);
        match square_at(&w, 0) {
            Some(sq) => Disambiguation::Square(sq),
            None => {
                return Err(
                    ParseError::with_message(
                        ParseErrorKind::InvalidDisambiguationSquare,
                        quoted("invalid disambiguation square '", &w, 0, 2, "'"),
                    ),
                );
            },
        }
    } else {
        return Err(
            ParseError::with_message(
                ParseErrorKind::TooManyDisambiguationChars,
                quoted("too many disambiguation characters in '", v, lo, hi, "'"),
            ),
        );
    };
    let is_pawn = match piece {
        PieceKind::Pawn => true,
        _ => false,
    };
    let no_dis = match disambiguation {
        Disambiguation::Unspecified => true,
        _ => false,
    };
    if capture && is_pawn && no_dis {
        return Err(ParseError::new(ParseErrorKind::PawnCaptureWithoutFile));
    }
    if promotion.is_some() && !(to.rank == 0 || to.rank == 7) {
        return Err(ParseError::new(ParseErrorKind::PromotionNotOnLastRank));
    }
    Ok(Move::Piece { piece, disambiguation, capture, to, promotion, check })
}

/// Parse a single SAN move, such as `e4`, `Nbxd7+`, `exd8=Q` or `O-O-O#`.
/// Surrounding whitespace is ignored, and castling may be written with the
/// digit zero (`0-0`).
pub fn parse_san(input: &str) -> (r: Result<Move, ParseError>)
    ensures
        match spec_parse_san(input@) {
            Ok(m) => r == Ok::<Move, ParseError>(m),
            Err(ev) => r matches Err(e) && e@ == ev,
        },
{
    let v = chars_of(input);
    assert(v@.subrange(0, v@.len() as int) =~= input@);
    parse_san_chars(&v, 0, v.len())
}

/// `parse_san` on the characters `v[lo..hi]`.
pub fn parse_san_chars(v: &Vec<char>, lo: usize, hi: usize) -> (r: Result<Move, ParseError>)
    requires
        lo <= hi <= v.len(),
    ensures
        match spec_parse_san(v@.subrange(lo as int, hi as int)) {
            Ok(m) => r == Ok::<Move, ParseError>(m),
            Err(ev) => r matches Err(e) && e@ == ev,
        },
{
    let (a, b) = trim_bounds(v, lo, hi);
    let ghost t = v@.subrange(a as int, b as int);
    if a == b {
        return Err(ParseError::new(ParseErrorKind::EmptyMove));
    }
    assert(t.last() == v@[b - 1]);
    let last = v[b - 1];
    let (body_hi, check) = if last == '#' {
        (b - 1, CheckState::Checkmate)
    } else if last == '+' {
        (b - 1, CheckState::Check)
    } else {
        (b, CheckState::NoCheck)
    };
    assert(t.drop_last() =~= v@.subrange(a as int, b - 1));
    if a == body_hi {
        return Err(ParseError::new(ParseErrorKind::MoveHasNoBody));
    }
    if is_castle_text(v, a, body_hi, true) {
        return Ok(Move::Castle { kingside: true, check });
    }
    if is_castle_text(v, a, body_hi, false) {
        return Ok(Move::Castle { kingside: false, check });
    }
    parse_piece_move(v, a, body_hi, check)
}

} // verus!
