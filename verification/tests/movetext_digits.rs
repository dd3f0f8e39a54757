use chess_notation::{parse_movetext, CheckState, Move};

#[test]
fn castling_with_zeros_is_a_move() {
    let t = parse_movetext("1. e4 e5 2. Nf3 Nc6 3. Bc4 Bc5 4. 0-0").unwrap();
    assert_eq!(t.moves.len(), 7);
    assert_eq!(t.moves[6].mv, Move::Castle { kingside: true, check: CheckState::NoCheck });
    assert_eq!(t.result, None);

    let t = parse_movetext("0-0-0+ {long} $1 0-1").unwrap();
    assert_eq!(t.moves.len(), 1);
    assert_eq!(t.moves[0].mv, Move::Castle { kingside: false, check: CheckState::Check });
    assert_eq!(t.moves[0].comment.as_deref(), Some("long"));
    assert_eq!(t.moves[0].nags, vec![1]);
    assert_eq!(t.result.as_deref(), Some("0-1"));
}

#[test]
fn digit_tokens_that_are_neither_result_nor_move_are_refused() {
    assert_eq!(parse_movetext("1. e4 2-3").unwrap_err().to_string(), "unrecognized token '2-3'");
    assert_eq!(parse_movetext("1. e4 0-0-0-0").unwrap_err().to_string(), "unrecognized token '0-0-0-0'");
    assert_eq!(parse_movetext("1/2").unwrap_err().to_string(), "unrecognized token '1/2'");
}

#[test]
fn move_text_values_clone() {
    let t = parse_movetext("1. e4 {a} (1. d4 $2) e5 1-0").unwrap();
    let c = t.clone();
    assert_eq!(c, t);
    assert_eq!(t.moves[0].clone(), t.moves[0]);
}
