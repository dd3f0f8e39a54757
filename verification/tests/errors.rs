use chess_notation::{
    parse_fen, parse_movetext, parse_san, parse_tag_pairs, resolve_move, ParseErrorKind,
    ResolveErrorKind,
};

fn san_kind(s: &str) -> ParseErrorKind {
    parse_san(s).unwrap_err().kind
}

#[test]
fn san_error_kinds() {
    let cases = [
        ("", ParseErrorKind::EmptyMove),
        (" \n ", ParseErrorKind::EmptyMove),
        ("+", ParseErrorKind::MoveHasNoBody),
        ("e8=", ParseErrorKind::MissingPromotionPiece),
        ("e8=P", ParseErrorKind::InvalidPromotionPiece),
        ("e8=\u{e7}", ParseErrorKind::InvalidPromotionPiece),
        ("N", ParseErrorKind::NoDestination),
        ("Nx", ParseErrorKind::CannotParseDestination),
        ("e9", ParseErrorKind::InvalidDestination),
        ("\u{e9}4", ParseErrorKind::InvalidDestination),
        ("Nzd7", ParseErrorKind::InvalidDisambiguation),
        ("Nz9d7", ParseErrorKind::InvalidDisambiguationSquare),
        ("Qh4d5xe1", ParseErrorKind::TooManyDisambiguationChars),
        ("xe4", ParseErrorKind::PawnCaptureWithoutFile),
        ("e4=Q", ParseErrorKind::PromotionNotOnLastRank),
    ];
    for (input, kind) in cases {
        assert_eq!(san_kind(input), kind, "kind for '{}'", input);
    }
}

#[test]
fn san_error_messages() {
    assert_eq!(parse_san("e8=P").unwrap_err().to_string(), "invalid promotion piece 'P'");
    assert_eq!(parse_san("e9").unwrap_err().to_string(), "invalid destination square 'e9'");
    assert_eq!(
        parse_san("Qh4d5xe1").unwrap_err().to_string(),
        "too many disambiguation characters in 'Qh4d5xe1'"
    );
    assert_eq!(parse_san("").unwrap_err().to_string(), "empty move");
}

fn fen_kind(s: &str) -> ParseErrorKind {
    parse_fen(s).unwrap_err().kind
}

#[test]
fn fen_error_kinds() {
    let start = "rnbqkbnr/pppppppp/8/8/8/8/PPPPPPPP/RNBQKBNR";
    let cases = [
        (format!("{} w KQkq -", start), ParseErrorKind::WrongFieldCount),
        ("8/8/8/8/8/8/8 w - - 0 1".to_string(), ParseErrorKind::WrongRankCount),
        ("8/8/8/8/8/8/8/9 w - - 0 1".to_string(), ParseErrorKind::InvalidEmptySquareCount),
        ("8/8/8/8/8/8/8/0 w - - 0 1".to_string(), ParseErrorKind::InvalidEmptySquareCount),
        ("8/8/8/8/8/8/8/X7 w - - 0 1".to_string(), ParseErrorKind::InvalidPieceLetter),
        ("8/8/8/8/8/8/8/ppppppppp w - - 0 1".to_string(), ParseErrorKind::RankTooLong),
        ("8/8/8/8/8/8/8/44p w - - 0 1".to_string(), ParseErrorKind::RankTooLong),
        ("8/8/8/8/8/8/8/7 w - - 0 1".to_string(), ParseErrorKind::RankTooShort),
        (format!("{} x KQkq - 0 1", start), ParseErrorKind::InvalidSideToMove),
        (format!("{} w KQkqx - 0 1", start), ParseErrorKind::InvalidCastling),
        (format!("{} w - z9 0 1", start), ParseErrorKind::InvalidEnPassantSquare),
        (format!("{} w - e3 0 1", start), ParseErrorKind::EnPassantWrongRank),
        (format!("{} w - - -1 1", start), ParseErrorKind::InvalidHalfmoveClock),
        (format!("{} w - - 4294967296 1", start), ParseErrorKind::InvalidHalfmoveClock),
        (format!("{} w - - 0 +", start), ParseErrorKind::InvalidFullmoveNumber),
        (format!("{} w - - 0 0", start), ParseErrorKind::ZeroFullmoveNumber),
    ];
    for (input, kind) in cases {
        assert_eq!(fen_kind(&input), kind, "kind for '{}'", input);
    }
}

#[test]
fn fen_error_messages() {
    assert_eq!(
        parse_fen("8/8/8/8 w - - 0 1").unwrap_err().to_string(),
        "piece placement must have 8 ranks, found 4"
    );
    assert_eq!(
        parse_fen("8/8/8/8/8/8/8/8 b - e6 0 1").unwrap_err().to_string(),
        "en passant square 'e6' is not on the expected rank for 'b' to move"
    );
    assert_eq!(parse_fen("x").unwrap_err().to_string(), "FEN must have 6 space-separated fields, found 1");
}

#[test]
fn tag_error_kinds() {
    let cases = [
        ("[Event \"x\"", ParseErrorKind::MalformedTagPair),
        ("[Event]", ParseErrorKind::TagMissingQuotedValue),
        ("[\"noname\"]", ParseErrorKind::TagMissingName),
        ("[Ev ent \"x\"]", ParseErrorKind::InvalidTagName),
        ("[Event \"unterminated]", ParseErrorKind::UnterminatedTagValue),
        ("[Event \"value\" garbage]", ParseErrorKind::TrailingTagContent),
        ("[A \"1\"]\n[Event]", ParseErrorKind::TagMissingQuotedValue),
    ];
    for (input, kind) in cases {
        assert_eq!(parse_tag_pairs(input).unwrap_err().kind, kind, "kind for '{}'", input);
    }
    assert_eq!(
        parse_tag_pairs("[Ev ent \"x\"]").unwrap_err().to_string(),
        "invalid tag name 'Ev ent'"
    );
}

#[test]
fn movetext_error_kinds() {
    let cases = [
        ("1. e4)", ParseErrorKind::UnmatchedCloseParen),
        ("1. e4 (2. d4", ParseErrorKind::UnterminatedVariation),
        ("(1. e4)", ParseErrorKind::VariationWithoutMove),
        ("1. e4 {x", ParseErrorKind::UnterminatedComment),
        ("$5 1. e4", ParseErrorKind::NagWithoutMove),
        ("1. e4 $", ParseErrorKind::NagWithoutNumber),
        ("1. e4 $99999999999", ParseErrorKind::InvalidNag),
        ("1. e4 2-3", ParseErrorKind::UnrecognizedToken),
        ("1. e4 }", ParseErrorKind::EmptyMove),
        ("1. e4 e9", ParseErrorKind::InvalidDestination),
    ];
    for (input, kind) in cases {
        assert_eq!(parse_movetext(input).unwrap_err().kind, kind, "kind for '{}'", input);
    }
    assert_eq!(parse_movetext("1. e4 2-3").unwrap_err().to_string(), "unrecognized token '2-3'");
}

fn resolve_kind(fen: &str, mv: &str) -> ResolveErrorKind {
    let pos = parse_fen(fen).unwrap();
    resolve_move(&pos, &parse_san(mv).unwrap()).unwrap_err().kind
}

#[test]
fn resolve_error_kinds() {
    let cases = [
        ("r3k2r/8/8/8/8/8/8/R3K2R w kq - 0 1", "O-O", ResolveErrorKind::NoCastlingRights),
        ("r3k2r/8/8/8/8/8/8/R4K1R w KQkq - 0 1", "O-O", ResolveErrorKind::NoKingToCastle),
        ("r3k2r/8/8/8/8/8/8/R3K3 w KQkq - 0 1", "O-O", ResolveErrorKind::NoRookToCastle),
        ("r3k2r/8/8/8/8/8/8/R2NK2R w KQkq - 0 1", "O-O-O", ResolveErrorKind::CastlingPathBlocked),
        ("5r1k/8/8/8/8/8/8/R3K2R w KQ - 0 1", "O-O", ResolveErrorKind::CastlingThroughAttackedSquare),
        ("8/8/8/8/8/8/8/R2NK2k w - - 0 1", "Rxd1", ResolveErrorKind::OccupiedByOwnPiece),
        ("8/8/8/8/8/8/8/R2nK2k w - - 0 1", "Rd1", ResolveErrorKind::OccupiedNeedsCapture),
        ("8/8/8/8/8/8/8/R3K2k w - - 0 1", "Rxd1", ResolveErrorKind::NothingToCapture),
        ("8/8/8/8/8/8/8/R3K2k w - - 0 1", "Nd2", ResolveErrorKind::NoPieceCanReach),
        ("4r2k/8/8/8/8/8/4R3/4K3 w - - 0 1", "Rd2", ResolveErrorKind::LeavesKingInCheck),
        ("8/8/8/8/8/8/8/N1N1K2k w - - 0 1", "Nb3", ResolveErrorKind::Ambiguous),
        ("8/8/8/8/8/8/8/4K2k w - - 0 1", "e4", ResolveErrorKind::NoPieceCanReach),
        ("8/8/8/3p4/8/8/8/4K2k w - - 0 1", "exd5", ResolveErrorKind::NoPieceCanReach),
    ];
    for (fen, mv, kind) in cases {
        assert_eq!(resolve_kind(fen, mv), kind, "kind for '{}' in '{}'", mv, fen);
    }
}

#[test]
fn resolve_error_messages() {
    let pos = parse_fen("8/8/8/8/8/8/8/N1N1K2k w - - 0 1").unwrap();
    let e = resolve_move(&pos, &parse_san("Nb3").unwrap()).unwrap_err();
    assert_eq!(e.to_string(), "ambiguous move: 2 pieces can reach b3 (a1, c1)");
    let pos = parse_fen("4r2k/8/8/8/8/8/4R3/4K3 w - - 0 1").unwrap();
    let e = resolve_move(&pos, &parse_san("Rd2").unwrap()).unwrap_err();
    assert_eq!(e.to_string(), "moving e2 to d2 would leave the king in check");
    let pos = parse_fen("r3k2r/8/8/8/8/8/8/R3K2R w kq - 0 1").unwrap();
    let e = resolve_move(&pos, &parse_san("O-O").unwrap()).unwrap_err();
    assert_eq!(e.to_string(), "white has no kingside castling rights");
    let cases = [
        ("r3k2r/8/8/8/8/8/8/R4K1R w KQkq - 0 1", "O-O", "no king on e1 to castle"),
        ("r3k2r/8/8/8/8/8/8/R3K3 w KQkq - 0 1", "O-O", "no rook on h1 to castle with"),
        ("r3k2r/8/8/8/8/8/8/R2NK2R w KQkq - 0 1", "O-O-O", "castling path is blocked on d1"),
        ("5r1k/8/8/8/8/8/8/R3K2R w KQ - 0 1", "O-O", "cannot castle through an attacked square (f1)"),
        ("r3k2r/8/8/8/8/8/8/R3K2R b Qk - 0 1", "O-O-O", "black has no queenside castling rights"),
        ("8/8/8/8/8/8/8/R2NK2k w - - 0 1", "Rxd1", "d1 is occupied by your own piece"),
        ("8/8/8/8/8/8/8/R2nK2k w - - 0 1", "Rd1", "d1 is occupied; the move must be written as a capture"),
        ("8/8/8/8/8/8/8/R3K2k w - - 0 1", "Rxd1", "no piece to capture on d1"),
        ("8/8/8/8/8/8/8/R3K2k w - - 0 1", "Nd2", "no Knight can reach d2"),
        ("8/8/8/8/8/8/8/4K2k w - - 0 1", "e4", "no Pawn can reach e4"),
        ("8/8/8/8/8/8/8/4K2k w - - 0 1", "exd5", "no piece to capture on d5"),
        ("8/8/8/8/8/8/8/4K2k w - - 0 1", "d4", "no Pawn can reach d4"),
        ("4r2k/8/8/8/8/8/8/1N2KN2 w - - 0 1", "Nd2", "moving b1 or f1 to d2 would leave the king in check"),
    ];
    for (fen, mv, text) in cases {
        let pos = parse_fen(fen).unwrap();
        let e = resolve_move(&pos, &parse_san(mv).unwrap()).unwrap_err();
        assert_eq!(e.to_string(), text, "message for '{}' in '{}'", mv, fen);
    }
}
