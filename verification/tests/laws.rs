use chess_notation::{
    parse_fen, parse_san, parse_tag_pairs, resolve_move, CastlingRights, CheckState, Color, Disambiguation, Move,
    Piece, PieceKind, Position, Square,
};

fn sq(s: &str) -> Square {
    Square::from_str(s).expect("valid square literal in test")
}

#[test]
fn well_formed_moves_read_back_from_their_text() {
    let moves = [
        Move::Piece {
            piece: PieceKind::Queen,
            disambiguation: Disambiguation::Square(sq("h4")),
            capture: true,
            to: sq("e1"),
            promotion: None,
            check: CheckState::Checkmate,
        },
        Move::Piece {
            piece: PieceKind::Pawn,
            disambiguation: Disambiguation::Rank(2),
            capture: false,
            to: sq("e4"),
            promotion: None,
            check: CheckState::Check,
        },
        Move::Piece {
            piece: PieceKind::Pawn,
            disambiguation: Disambiguation::File(3),
            capture: true,
            to: sq("e1"),
            promotion: Some(PieceKind::King),
            check: CheckState::NoCheck,
        },
        Move::Castle { kingside: false, check: CheckState::Check },
        Move::Castle { kingside: true, check: CheckState::NoCheck },
    ];
    for mv in moves {
        let text = mv.to_string();
        assert_eq!(parse_san(&text).unwrap(), mv, "round trip through '{}'", text);
    }
}

#[test]
fn move_text_is_exact() {
    let mv = Move::Piece {
        piece: PieceKind::Knight,
        disambiguation: Disambiguation::File(1),
        capture: true,
        to: sq("d7"),
        promotion: None,
        check: CheckState::Check,
    };
    assert_eq!(mv.to_string(), "Nbxd7+");
    assert_eq!(Move::Castle { kingside: false, check: CheckState::Checkmate }.to_string(), "O-O-O#");
    assert_eq!(sq("h8").to_string(), "h8");
}

#[test]
fn accepted_inputs_print_in_canonical_form() {
    // Surrounding whitespace, the digit-zero castling spelling and trailing
    // characters after the promotion letter do not survive printing.
    let cases = [("  e4\t", "e4"), ("0-0-0+", "O-O-O+"), ("e8=QQ", "e8=Q"), ("\u{3000}Nf3\u{a0}", "Nf3")];
    for (input, printed) in cases {
        let mv = parse_san(input).unwrap();
        assert_eq!(mv.to_string(), printed);
        assert_eq!(parse_san(printed).unwrap(), mv);
    }
}

#[test]
fn positions_read_back_from_their_fen() {
    let mut board = [None; 64];
    board[4] = Some(Piece { kind: PieceKind::King, color: Color::White });
    board[60] = Some(Piece { kind: PieceKind::King, color: Color::Black });
    board[27] = Some(Piece { kind: PieceKind::Queen, color: Color::Black });
    board[33] = Some(Piece { kind: PieceKind::Pawn, color: Color::White });
    let pos = Position {
        board,
        side_to_move: Color::Black,
        castling: CastlingRights {
            white_kingside: false,
            white_queenside: true,
            black_kingside: true,
            black_queenside: false,
        },
        en_passant: Some(sq("b3")),
        halfmove_clock: 4294967295,
        fullmove_number: 120,
    };
    let text = pos.to_string();
    assert_eq!(text, "4k3/8/8/1P6/3q4/8/8/4K3 b Qk b3 4294967295 120");
    assert_eq!(parse_fen(&text).unwrap(), pos);
}

#[test]
fn parsed_positions_print_in_canonical_form() {
    let pos = parse_fen("  8/8/8/8/8/8/8/8   w  -  -  +07  1 ").unwrap();
    assert_eq!(pos.halfmove_clock, 7);
    let text = pos.to_string();
    assert_eq!(text, "8/8/8/8/8/8/8/8 w - - 7 1");
    assert_eq!(parse_fen(&text).unwrap(), pos);
}

#[test]
fn resolved_piece_move_is_the_only_legal_candidate() {
    let pos = parse_fen("8/8/8/8/8/8/8/N1N1K2k w - - 0 1").unwrap();
    let mv = parse_san("Ncb3").unwrap();
    let r = resolve_move(&pos, &mv).unwrap();
    assert_eq!(r.from, sq("c1"));
    assert_eq!(r.to, sq("b3"));
    assert_eq!(pos.piece_at(r.from), Some(Piece { kind: PieceKind::Knight, color: Color::White }));
}

#[test]
fn resolved_pawn_capture_en_passant_keeps_king_safe() {
    let pos = parse_fen("7k/8/8/3pP3/8/8/8/4K3 w - d6 0 1").unwrap();
    let r = resolve_move(&pos, &parse_san("exd6").unwrap()).unwrap();
    assert_eq!((r.from, r.to), (sq("e5"), sq("d6")));
}

#[test]
fn resolved_castle_moves_king_two_files() {
    let pos = parse_fen("r3k2r/8/8/8/8/8/8/R3K2R b KQkq - 0 1").unwrap();
    let r = resolve_move(&pos, &parse_san("O-O-O").unwrap()).unwrap();
    assert_eq!((r.from, r.to), (sq("e8"), sq("c8")));
    let r = resolve_move(&pos, &parse_san("0-0").unwrap()).unwrap();
    assert_eq!((r.from, r.to), (sq("e8"), sq("g8")));
}

#[test]
fn pawn_double_push_from_starting_rank() {
    let pos = parse_fen("rnbqkbnr/pppppppp/8/8/8/8/PPPPPPPP/RNBQKBNR b KQkq - 0 1").unwrap();
    let r = resolve_move(&pos, &parse_san("d5").unwrap()).unwrap();
    assert_eq!((r.from, r.to), (sq("d7"), sq("d5")));
}

#[test]
fn text_after_the_header_is_not_read() {
    let tags = chess_notation::parse_tag_pairs("[A \"b\"]\n\n[Bad tag line\n1. e4").unwrap();
    assert_eq!(tags.len(), 1);
    assert_eq!(tags[0].name, "A");
    assert_eq!(tags[0].value, "b");
}

#[test]
fn square_names_read_back() {
    for rank in 0..8u8 {
        for file in 0..8u8 {
            let s = Square { file, rank };
            let name = s.to_string();
            assert_eq!(Square::from_str(&name), Some(s), "round trip through '{}'", name);
        }
    }
    for name in ["a1", "h8", "e4"] {
        assert_eq!(Square::from_str(name).unwrap().to_string(), name);
    }
    for bad in ["i1", "a9", "a0", "e44", "", "E4"] {
        assert_eq!(Square::from_str(bad), None, "'{}' is no square", bad);
    }
}

#[test]
fn escaped_tag_values_read_back() {
    let values = ["plain", "", "say \"hi\"", "back\\slash", "\\\"", "a b  c"];
    for v in values {
        let esc: String = v.chars().flat_map(|c| {
            if c == '\\' || c == '"' { vec!['\\', c] } else { vec![c] }
        }).collect();
        let line = format!("[Some_Tag9 \"{}\"]", esc);
        let tags = parse_tag_pairs(&line).unwrap();
        assert_eq!(tags.len(), 1);
        assert_eq!(tags[0].name, "Some_Tag9");
        assert_eq!(tags[0].value, v, "value read from '{}'", line);
    }
}
