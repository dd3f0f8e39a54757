# chess_notation

Parsing and formatting for chess notation, verified with Verus:

- SAN moves (`e4`, `Nbxd7+`, `exd8=Q`, `O-O-O#`): `parse_san` and `Move::to_string`;
- FEN positions: `parse_fen` and `Position::to_string`;
- PGN tag pairs (`parse_tag_pairs`) and move text with comments, NAGs and
  variations (`parse_movetext`);
- resolving a SAN move against a position (`resolve_move`), with piece
  geometry, blocking pieces, disambiguation, captures, en passant, castling
  rules and the mover's king safety.

Each parser is specified by a spec function over `Seq<char>` (`spec_parse_san`,
`spec_parse_fen`, `spec_parse_tag_pairs`, `spec_parse_movetext`, `spec_resolve`)
and proved to return exactly what it describes, error kinds and message texts
included.

Laws proved in `src/`:

- `san_text::lemma_move_text_round_trip`, `san_text::lemma_parse_print_parse`:
  a well-formed move prints to text that parses back to it, so a move
  `parse_san` accepts, printed and parsed again, is the same move;
- `san_text::lemma_parsed_move_well_formed`: `parse_san` only produces squares
  on the board, promotions on a back rank and pawn captures naming their file;
- `fen_text::lemma_fen_round_trip`, `fen_text::lemma_fen_parse_print_parse`,
  `fen_text::lemma_parsed_position_well_formed`: the same for positions and FEN;
- `san_text::lemma_square_name_round_trip`: square names and `Square::from_str`
  agree in both directions;
- `text::lemma_decimal_parses`: the decimal form of a number reads back as it;
- `san_text::lemma_parse_san_ignores_surrounding_whitespace`;
- `resolve::lemma_resolved_piece_move_is_the_unique_legal_one`,
  `resolve::lemma_resolved_pawn_move`, `resolve::lemma_resolved_castle`: a
  resolved move is made by the mover's piece, follows its movement and does not
  leave the king in check, and for pieces no other square qualifies;
- `pgn::lemma_tags_ignore_text_after_header`;
- `pgn::lemma_tag_line_round_trip`: a tag line `[name "value"]` with an escaped
  value reads back as that name and value.

Layout: `src/` is the library (`text` and `split` hold the character-level
helpers, `attack` the attack and line geometry); `tests/` its tests; `app/` the
command-line program that prints each move argument, its canonical form and its
structure.
