use chess_notation::{parse_fen, parse_movetext, parse_san, parse_tag_pairs, Move, PieceKind, Square};

#[test]
fn readme_san_example() {
    let mv = parse_san("Nbxd7+").unwrap();
    match mv {
        Move::Piece { piece, capture, .. } => {
            assert_eq!(piece, PieceKind::Knight);
            assert!(capture);
        }
        Move::Castle { .. } => panic!("not a castle"),
    }
    assert_eq!(mv.to_string(), "Nbxd7+");
}

#[test]
fn readme_tag_pairs_example() {
    let pgn = "[Event \"F/S Return Match\"]\n[Site \"Belgrade, Serbia JUG\"]\n\n1. e4 e5 ...";
    let tags = parse_tag_pairs(pgn).unwrap();
    assert_eq!(tags.len(), 2);
    assert_eq!(tags[0].name, "Event");
    assert_eq!(tags[0].value, "F/S Return Match");
}

#[test]
fn readme_movetext_example() {
    let body = "1. e4 e5 2. Nf3 {developing} Nc6 (2... d6 3. d4) 3. Bb5 a6 1-0";
    let game = parse_movetext(body).unwrap();
    assert_eq!(game.moves.len(), 6);
    assert_eq!(game.moves[2].comment.as_deref(), Some("developing"));
    assert_eq!(game.moves[3].variations.len(), 1);
    assert_eq!(game.result.as_deref(), Some("1-0"));
}

#[test]
fn readme_fen_example() {
    let pos = parse_fen("rnbqkbnr/pppppppp/8/8/4P3/8/PPPP1PPP/RNBQKBNR b KQkq e3 0 1").unwrap();
    let e4 = pos.piece_at(Square::from_str("e4").unwrap()).unwrap();
    assert_eq!(e4.kind, PieceKind::Pawn);
    assert_eq!(pos.en_passant, Some(Square::from_str("e3").unwrap()));
}

#[test]
fn movetext_with_crlf_and_line_comment_at_end() {
    let game = parse_movetext("1. e4 ; note\r\n1... e5 * trailing").unwrap();
    assert_eq!(game.moves.len(), 2);
    assert_eq!(game.moves[0].comment.as_deref(), Some("note"));
    assert_eq!(game.result.as_deref(), Some("*"));
}

#[test]
fn tags_with_crlf_lines() {
    let tags = parse_tag_pairs("[White \"A\"]\r\n[Black \"B\"]\r\n\r\n1. e4").unwrap();
    assert_eq!(tags.len(), 2);
    assert_eq!(tags[1].value, "B");
}
