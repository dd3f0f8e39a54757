//! Writing a `Position` back out as a FEN record, and the law that the
//! written record reads back as the same position.

use vstd::prelude::*;
use crate::text::{
    is_ws, is_digit, digit_value, digit_char, decimal, decimal_chars, lemma_decimal_parses,
    lemma_decimal_u32, words, words_state, split_on, split_state, spec_parse_u32,
    string_from_chars,
};
use crate::san::{Square, square_text, valid_square, square_printable, spec_square_from};
use crate::fen::{
    Color, Piece, CastlingRights, Position, PositionView, no_castling, spec_fen_letter,
    spec_piece_from_fen_letter, rank_step, rank_scan_from, spec_parse_rank, spec_rows,
    board_of_rows, spec_parse_placement, spec_parse_side, spec_parse_castling,
    is_castling_letter, en_passant_rank, spec_parse_en_passant, spec_parse_fen,
};

verus! {

/// The digit for a run of empty squares, if the run is not empty.
pub open spec fn run_text(run: nat) -> Seq<char> {
    if run > 0 {
        seq![digit_char(run)]
    } else {
        seq![]
    }
}

/// The FEN text of the squares `cells`, with `run` empty squares pending
/// before them.
pub open spec fn rle(cells: Seq<Option<Piece>>, run: nat) -> Seq<char>
    decreases cells.len(),
{
    if cells.len() == 0 {
        run_text(run)
    } else {
        match cells[0] {
            Some(p) => run_text(run) + seq![spec_fen_letter(p)] + rle(cells.drop_first(), 0),
            None => rle(cells.drop_first(), run + 1),
        }
    }
}

/// The eight squares of a rank (0-based) of a board indexed by
/// `rank * 8 + file`.
pub open spec fn row(board: Seq<Option<Piece>>, rank: int) -> Seq<Option<Piece>> {
    board.subrange(rank * 8, rank * 8 + 8)
}

pub open spec fn rank_text(board: Seq<Option<Piece>>, rank: int) -> Seq<char> {
    rle(row(board, rank), 0)
}

/// The first `n` ranks of the placement field, rank 8 first, joined by `/`.
pub open spec fn top_text(board: Seq<Option<Piece>>, n: int) -> Seq<char>
    decreases n,
{
    if n <= 0 {
        seq![]
    } else if n == 1 {
        rank_text(board, 7)
    } else {
        top_text(board, n - 1) + seq!['/'] + rank_text(board, 8 - n)
    }
}

pub open spec fn placement_text(board: Seq<Option<Piece>>) -> Seq<char> {
    top_text(board, 8)
}

pub open spec fn side_text(c: Color) -> Seq<char> {
    match c {
        Color::White => seq!['w'],
        Color::Black => seq!['b'],
    }
}

pub open spec fn flag_text(b: bool, c: char) -> Seq<char> {
    if b {
        seq![c]
    } else {
        seq![]
    }
}

pub open spec fn castling_text(c: CastlingRights) -> Seq<char> {
    if c.spec_any() {
        flag_text(c.white_kingside, 'K') + flag_text(c.white_queenside, 'Q') + flag_text(
            c.black_kingside,
            'k',
        ) + flag_text(c.black_queenside, 'q')
    } else {
        seq!['-']
    }
}

pub open spec fn en_passant_text(e: Option<Square>) -> Seq<char> {
    match e {
        Some(sq) => square_text(sq),
        None => seq!['-'],
    }
}

/// The FEN record of a position, as `Position::to_string` writes it.
pub open spec fn fen_text(p: PositionView) -> Seq<char> {
    placement_text(p.board) + seq![' '] + side_text(p.side_to_move) + seq![' '] + castling_text(
        p.castling,
    ) + seq![' '] + en_passant_text(p.en_passant) + seq![' '] + decimal(p.halfmove_clock as nat)
        + seq![' '] + decimal(p.fullmove_number as nat)
}

/// The positions `parse_fen` can produce: an en passant square on the rank
/// the side to move implies, and a fullmove number of at least 1.
pub open spec fn well_formed_position(p: PositionView) -> bool {
    &&& p.board.len() == 64
    &&& match p.en_passant {
        Some(sq) => valid_square(sq) && sq.rank == en_passant_rank(p.side_to_move),
        None => true,
    }
    &&& p.fullmove_number >= 1
}

fn push_rank_text(v: &mut Vec<char>, board: &[Option<Piece>; 64], rank: usize)
    requires
        rank < 8,
    ensures
        final(v)@ == old(v)@ + rank_text(board@, rank as int),
{
    let ghost cells = row(board@, rank as int);
    let ghost base = v@;
    let mut empty_run: u8 = 0;
    let mut file: usize = 0;
    assert(cells.subrange(0, 8) =~= cells);
    while file < 8
        invariant
            rank < 8,
            file <= 8,
            empty_run <= file,
            cells == row(board@, rank as int),
            v@ + rle(cells.subrange(file as int, 8), empty_run as nat) == base + rle(cells, 0),
        decreases 8 - file,
    {
        let ghost rest = cells.subrange(file as int, 8);
        assert(rest.drop_first() =~= cells.subrange(file + 1, 8));
        assert(rest[0] == board@[rank * 8 + file]);
        match board[rank * 8 + file] {
            Some(piece) => {
                if empty_run > 0 {
                    v.push((48 + empty_run) as char);
                    empty_run = 0;
                }
                v.push(crate::fen::piece_to_fen_letter(piece));
            },
            None => {
                empty_run += 1;
            },
        }
        proof {
            assert(v@ + rle(cells.subrange(file + 1, 8), empty_run as nat) =~= base + rle(cells, 0));
        }
        file += 1;
    }
    assert(cells.subrange(8, 8) =~= Seq::<Option<Piece>>::empty());
    if empty_run > 0 {
        v.push((48 + empty_run) as char);
    }
    assert(v@ =~= base + rle(cells, 0));
}

fn push_castling(v: &mut Vec<char>, c: CastlingRights)
    ensures
        final(v)@ == old(v)@ + castling_text(c),
{
    if c.any() {
        if c.white_kingside {
            v.push('K');
        }
        if c.white_queenside {
            v.push('Q');
        }
        if c.black_kingside {
            v.push('k');
        }
        if c.black_queenside {
            v.push('q');
        }
    } else {
        v.push('-');
    }
    assert(final(v)@ =~= old(v)@ + castling_text(c));
}

fn push_all(v: &mut Vec<char>, w: &Vec<char>)
    ensures
        final(v)@ == old(v)@ + w@,
{
    let mut i: usize = 0;
    let ghost base = v@;
    while i < w.len()
        invariant
            i <= w.len(),
            v@ == base + w@.subrange(0, i as int),
        decreases w.len() - i,
    {
        v.push(w[i]);
        i += 1;
        assert(v@ =~= base + w@.subrange(0, i as int));
    }
    assert(w@.subrange(0, w@.len() as int) =~= w@);
}

impl Position {
    /// The FEN record of the position.
    pub fn to_string(&self) -> (s: String)
        requires
            match self.en_passant {
                Some(sq) => square_printable(sq),
                None => true,
            },
        ensures
            s@ == fen_text(self@),
    {
        let mut v: Vec<char> = Vec::new();
        let mut n: usize = 0;
        while n < 8
            invariant
                n <= 8,
                v@ == top_text(self.board@, n as int),
            decreases 8 - n,
        {
            if n > 0 {
                v.push('/');
            }
            push_rank_text(&mut v, &self.board, 7 - n);
            n += 1;
            assert(v@ =~= top_text(self.board@, n as int));
        }
        v.push(' ');
        match self.side_to_move {
            Color::White => v.push('w'),
            Color::Black => v.push('b'),
        }
        v.push(' ');
        push_castling(&mut v, self.castling);
        v.push(' ');
        match self.en_passant {
            Some(sq) => {
                crate::san::push_file(&mut v, sq.file);
                crate::san::push_rank(&mut v, sq.rank);
            },
            None => v.push('-'),
        }
        v.push(' ');
        let h = decimal_chars(self.halfmove_clock);
        push_all(&mut v, &h);
        v.push(' ');
        let f = decimal_chars(self.fullmove_number);
        push_all(&mut v, &f);
        assert(v@ =~= fen_text(self@));
        string_from_chars(&v)
    }
}


// ----- splitting the written record back into its parts -----

pub open spec fn no_ws(t: Seq<char>) -> bool {
    forall|i: int| 0 <= i < t.len() ==> !is_ws(#[trigger] t[i])
}

pub open spec fn no_char(t: Seq<char>, c: char) -> bool {
    forall|i: int| 0 <= i < t.len() ==> (#[trigger] t[i]) != c
}

proof fn lemma_words_state_append(s: Seq<char>, t: Seq<char>)
    requires
        no_ws(t),
    ensures
        words_state(s + t) == (words_state(s).0, words_state(s).1 + t),
    decreases t.len(),
{
    if t.len() == 0 {
        assert(s + t =~= s);
        assert(words_state(s).1 + t =~= words_state(s).1);
    } else {
        assert((s + t).drop_last() =~= s + t.drop_last());
        assert((s + t).last() == t.last());
        assert(no_ws(t.drop_last())) by {
            assert forall|i: int| 0 <= i < t.drop_last().len() implies !is_ws(
                #[trigger] t.drop_last()[i],
            ) by {
                assert(t.drop_last()[i] == t[i]);
            }
        }
        assert(!is_ws(t[t.len() - 1]));
        lemma_words_state_append(s, t.drop_last());
        assert((words_state(s).1 + t.drop_last()).push(t.last()) =~= words_state(s).1 + t);
    }
}

/// `words_state` after a space and then a word.
proof fn lemma_words_state_next(s: Seq<char>, t: Seq<char>)
    requires
        no_ws(t),
        words_state(s).1.len() > 0,
    ensures
        words_state(s + seq![' '] + t) == (words_state(s).0.push(words_state(s).1), t),
{
    let sp = s.push(' ');
    assert(sp.drop_last() =~= s);
    assert(is_ws(' '));
    assert(s + seq![' '] + t =~= sp + t);
    lemma_words_state_append(sp, t);
    assert(Seq::<char>::empty() + t =~= t);
}

proof fn lemma_split_state_append(s: Seq<char>, t: Seq<char>, sep: char)
    requires
        no_char(t, sep),
    ensures
        split_state(s + t, sep) == (split_state(s, sep).0, split_state(s, sep).1 + t),
    decreases t.len(),
{
    if t.len() == 0 {
        assert(s + t =~= s);
        assert(split_state(s, sep).1 + t =~= split_state(s, sep).1);
    } else {
        assert((s + t).drop_last() =~= s + t.drop_last());
        assert((s + t).last() == t.last());
        assert(no_char(t.drop_last(), sep)) by {
            assert forall|i: int| 0 <= i < t.drop_last().len() implies (
            #[trigger] t.drop_last()[i]) != sep by {
                assert(t.drop_last()[i] == t[i]);
            }
        }
        assert(t[t.len() - 1] != sep);
        lemma_split_state_append(s, t.drop_last(), sep);
        assert((split_state(s, sep).1 + t.drop_last()).push(t.last()) =~= split_state(s, sep).1
            + t);
    }
}

// ----- the characters of the written record -----

proof fn lemma_fen_letter(p: Piece)
    ensures
        spec_piece_from_fen_letter(spec_fen_letter(p)) == Some(p),
        !is_digit(spec_fen_letter(p)),
        !is_ws(spec_fen_letter(p)),
        spec_fen_letter(p) != '/',
{
}

proof fn lemma_run_digit(run: nat)
    requires
        1 <= run <= 8,
    ensures
        is_digit(digit_char(run)),
        digit_value(digit_char(run)) == run,
        !is_ws(digit_char(run)),
        digit_char(run) != '/',
{
    assert(digit_char(run) as nat == run + 48);
}

proof fn lemma_rle_chars(cells: Seq<Option<Piece>>, run: nat)
    requires
        run + cells.len() <= 8,
    ensures
        no_ws(rle(cells, run)),
        no_char(rle(cells, run), '/'),
        rle(cells, run).len() > 0 <== run + cells.len() > 0,
    decreases cells.len(),
{
    if run > 0 {
        lemma_run_digit(run);
    }
    if cells.len() > 0 {
        lemma_rle_chars(cells.drop_first(), if cells[0] is Some { 0 } else { run + 1 });
        match cells[0] {
            Some(p) => {
                lemma_fen_letter(p);
                let a = run_text(run) + seq![spec_fen_letter(p)];
                let b = rle(cells.drop_first(), 0);
                assert forall|i: int| 0 <= i < (a + b).len() implies !is_ws(#[trigger] (a + b)[i])
                    && (a + b)[i] != '/' by {
                    if i < a.len() {
                        assert((a + b)[i] == a[i]);
                    } else {
                        assert((a + b)[i] == b[i - a.len()]);
                    }
                }
            },
            None => {},
        }
    }
}

// ----- reading a written rank back -----

proof fn lemma_scan_append(c: Seq<Option<Piece>>, a: Seq<char>, b: Seq<char>)
    ensures
        rank_scan_from(c, a + b) == match rank_scan_from(c, a) {
            Ok(c2) => rank_scan_from(c2, b),
            Err(e) => Err(e),
        },
    decreases b.len(),
{
    if b.len() == 0 {
        assert(a + b =~= a);
    } else {
        assert((a + b).drop_last() =~= a + b.drop_last());
        assert((a + b).last() == b.last());
        lemma_scan_append(c, a, b.drop_last());
    }
}

proof fn lemma_scan_run(c: Seq<Option<Piece>>, run: nat)
    requires
        c.len() + run <= 8,
    ensures
        rank_scan_from(c, run_text(run)) == Ok::<Seq<Option<Piece>>, (crate::san::ParseErrorKind, char)>(
            c + Seq::new(run, |i: int| None::<Piece>),
        ),
{
    if run > 0 {
        lemma_run_digit(run);
        let t = run_text(run);
        assert(t.drop_last() =~= Seq::<char>::empty());
        assert(t.last() == digit_char(run));
        assert(rank_scan_from(c, Seq::<char>::empty()) == Ok::<
            Seq<Option<Piece>>,
            (crate::san::ParseErrorKind, char),
        >(c));
        assert(rank_scan_from(c, t) == rank_step(c, digit_char(run)));
    } else {
        assert(c + Seq::new(run, |i: int| None::<Piece>) =~= c);
    }
}

proof fn lemma_rle_scan(cells: Seq<Option<Piece>>, f: int, run: int)
    requires
        cells.len() == 8,
        0 <= run <= f <= 8,
        forall|j: int| f - run <= j < f ==> cells[j] is None,
    ensures
        rank_scan_from(cells.take(f - run), rle(cells.subrange(f, 8), run as nat)) == Ok::<
            Seq<Option<Piece>>,
            (crate::san::ParseErrorKind, char),
        >(cells),
    decreases 8 - f,
{
    let rest = cells.subrange(f, 8);
    lemma_scan_run(cells.take(f - run), run as nat);
    assert(cells.take(f - run) + Seq::new(run as nat, |i: int| None::<Piece>) =~= cells.take(f));
    if f == 8 {
        assert(rest.len() == 0);
        assert(cells.take(8) =~= cells);
    } else {
        assert(rest.drop_first() =~= cells.subrange(f + 1, 8));
        assert(rest[0] == cells[f]);
        match cells[f] {
            Some(p) => {
                lemma_fen_letter(p);
                let l = seq![spec_fen_letter(p)];
                let tail = rle(cells.subrange(f + 1, 8), 0);
                assert(rle(rest, run as nat) == run_text(run as nat) + l + tail);
                lemma_scan_append(cells.take(f - run), run_text(run as nat) + l, tail);
                lemma_scan_append(cells.take(f - run), run_text(run as nat), l);
                assert(l.drop_last() =~= Seq::<char>::empty());
                assert(rank_scan_from(cells.take(f), Seq::<char>::empty()) == Ok::<
                    Seq<Option<Piece>>,
                    (crate::san::ParseErrorKind, char),
                >(cells.take(f)));
                assert(rank_scan_from(cells.take(f), l) == rank_step(cells.take(f), l.last()));
                assert(cells.take(f).push(Some(p)) =~= cells.take(f + 1));
                lemma_rle_scan(cells, f + 1, 0);
            },
            None => {
                lemma_rle_scan(cells, f + 1, run + 1);
            },
        }
    }
}

proof fn lemma_rank_round_trip(cells: Seq<Option<Piece>>)
    requires
        cells.len() == 8,
    ensures
        spec_parse_rank(rle(cells, 0)) == Ok::<Seq<Option<Piece>>, crate::san::ErrorView>(
            cells,
        ),
{
    lemma_rle_scan(cells, 0, 0);
    assert(cells.take(0) =~= Seq::<Option<Piece>>::empty());
    assert(cells.subrange(0, 8) =~= cells);
}

// ----- reading the placement field back -----

proof fn lemma_rank_text_chars(board: Seq<Option<Piece>>, r: int)
    requires
        board.len() == 64,
        0 <= r < 8,
    ensures
        no_ws(rank_text(board, r)),
        no_char(rank_text(board, r), '/'),
        rank_text(board, r).len() > 0,
{
    lemma_rle_chars(row(board, r), 0);
}

pub open spec fn rank_texts(board: Seq<Option<Piece>>, n: int) -> Seq<Seq<char>> {
    Seq::new(n as nat, |k: int| rank_text(board, 7 - k))
}

proof fn lemma_top_text_split(board: Seq<Option<Piece>>, n: int)
    requires
        board.len() == 64,
        1 <= n <= 8,
    ensures
        split_state(top_text(board, n), '/') == (rank_texts(board, n - 1), rank_text(board, 8 - n)),
        no_ws(top_text(board, n)),
    decreases n,
{
    lemma_rank_text_chars(board, 8 - n);
    if n == 1 {
        lemma_split_state_append(Seq::empty(), rank_text(board, 7), '/');
        assert(Seq::<char>::empty() + rank_text(board, 7) =~= rank_text(board, 7));
        assert(rank_texts(board, 0) =~= Seq::<Seq<char>>::empty());
        assert(Seq::<char>::empty() + rank_text(board, 7) =~= rank_text(board, 7));
    } else {
        lemma_top_text_split(board, n - 1);
        let prev = top_text(board, n - 1);
        let sp = prev.push('/');
        assert(sp.drop_last() =~= prev);
        assert(prev + seq!['/'] + rank_text(board, 8 - n) =~= sp + rank_text(board, 8 - n));
        lemma_split_state_append(sp, rank_text(board, 8 - n), '/');
        assert(rank_texts(board, n - 2).push(rank_text(board, 9 - n)) =~= rank_texts(board, n - 1));
        assert(Seq::<char>::empty() + rank_text(board, 8 - n) =~= rank_text(board, 8 - n));
        let t = top_text(board, n);
        assert forall|i: int| 0 <= i < t.len() implies !is_ws(#[trigger] t[i]) by {
            if i < prev.len() {
                assert(t[i] == prev[i]);
            } else if i == prev.len() {
                assert(t[i] == '/');
            } else {
                assert(t[i] == rank_text(board, 8 - n)[i - prev.len() - 1]);
            }
        }
    }
}

proof fn lemma_rows_of_texts(texts: Seq<Seq<char>>, rows: Seq<Seq<Option<Piece>>>)
    requires
        texts.len() == rows.len(),
        forall|k: int|
            0 <= k < texts.len() ==> spec_parse_rank(#[trigger] texts[k]) == Ok::<
                Seq<Option<Piece>>,
                crate::san::ErrorView,
            >(rows[k]),
    ensures
        spec_rows(texts) == Ok::<Seq<Seq<Option<Piece>>>, crate::san::ErrorView>(rows),
    decreases texts.len(),
{
    if texts.len() > 0 {
        assert(spec_parse_rank(texts[texts.len() - 1]) == Ok::<
            Seq<Option<Piece>>,
            crate::san::ErrorView,
        >(rows[rows.len() - 1]));
        lemma_rows_of_texts(texts.drop_last(), rows.drop_last());
        assert(rows.drop_last().push(rows.last()) =~= rows);
    } else {
        assert(rows =~= Seq::<Seq<Option<Piece>>>::empty());
    }
}

proof fn lemma_placement_round_trip(board: Seq<Option<Piece>>)
    requires
        board.len() == 64,
    ensures
        spec_parse_placement(placement_text(board)) == Ok::<
            Seq<Option<Piece>>,
            crate::san::ErrorView,
        >(board),
        no_ws(placement_text(board)),
        placement_text(board).len() > 0,
{
    lemma_top_text_split(board, 8);
    lemma_rank_text_chars(board, 7);
    assert(placement_text(board).len() > 0);
    let texts = rank_texts(board, 8);
    assert(split_on(placement_text(board), '/') =~= texts);
    let rows = Seq::new(8, |k: int| row(board, 7 - k));
    assert forall|k: int| 0 <= k < 8 implies spec_parse_rank(#[trigger] texts[k]) == Ok::<
        Seq<Option<Piece>>,
        crate::san::ErrorView,
    >(rows[k]) by {
        lemma_rank_round_trip(row(board, 7 - k));
    }
    lemma_rows_of_texts(texts, rows);
    assert forall|i: int| 0 <= i < 64 implies #[trigger] board_of_rows(rows)[i] == board[i] by {
        assert((i / 8) * 8 + i % 8 == i);
        assert(rows[7 - i / 8] == row(board, i / 8));
    }
    assert(board_of_rows(rows) =~= board);
}

// ----- the other fields -----

proof fn lemma_singleton_contains(x: char, c: char)
    ensures
        seq![x].contains(c) == (x == c),
{
    if x == c {
        assert(seq![x][0] == c);
    }
}

proof fn lemma_contains_concat(a: Seq<char>, b: Seq<char>, c: char)
    ensures
        (a + b).contains(c) == (a.contains(c) || b.contains(c)),
{
    if (a + b).contains(c) {
        let i = choose|i: int| 0 <= i < (a + b).len() && (a + b)[i] == c;
        if i < a.len() {
            assert(a[i] == c);
        } else {
            assert(b[i - a.len()] == c);
        }
    }
    if a.contains(c) {
        let i = choose|i: int| 0 <= i < a.len() && a[i] == c;
        assert((a + b)[i] == c);
    }
    if b.contains(c) {
        let i = choose|i: int| 0 <= i < b.len() && b[i] == c;
        assert((a + b)[i + a.len()] == c);
    }
}

proof fn lemma_flag_text(b: bool, x: char, c: char)
    ensures
        flag_text(b, x).contains(c) == (b && x == c),
        forall|i: int| 0 <= i < flag_text(b, x).len() ==> #[trigger] flag_text(b, x)[i] == x,
{
    if b {
        lemma_singleton_contains(x, c);
    }
}

proof fn lemma_castling_round_trip(c: CastlingRights)
    ensures
        spec_parse_castling(castling_text(c)) == Ok::<CastlingRights, crate::san::ErrorView>(
            c,
        ),
        no_ws(castling_text(c)),
        castling_text(c).len() > 0,
{
    if c.spec_any() {
        let a = flag_text(c.white_kingside, 'K');
        let b = flag_text(c.white_queenside, 'Q');
        let d = flag_text(c.black_kingside, 'k');
        let e = flag_text(c.black_queenside, 'q');
        let t = castling_text(c);
        assert(t == a + b + d + e);
        assert forall|x: char| #[trigger] t.contains(x) == (a.contains(x) || b.contains(x)
            || d.contains(x) || e.contains(x)) by {
            lemma_contains_concat(a + b + d, e, x);
            lemma_contains_concat(a + b, d, x);
            lemma_contains_concat(a, b, x);
        }
        lemma_flag_text(c.white_kingside, 'K', 'K');
        lemma_flag_text(c.white_queenside, 'Q', 'K');
        lemma_flag_text(c.black_kingside, 'k', 'K');
        lemma_flag_text(c.black_queenside, 'q', 'K');
        lemma_flag_text(c.white_kingside, 'K', 'Q');
        lemma_flag_text(c.white_queenside, 'Q', 'Q');
        lemma_flag_text(c.black_kingside, 'k', 'Q');
        lemma_flag_text(c.black_queenside, 'q', 'Q');
        lemma_flag_text(c.white_kingside, 'K', 'k');
        lemma_flag_text(c.white_queenside, 'Q', 'k');
        lemma_flag_text(c.black_kingside, 'k', 'k');
        lemma_flag_text(c.black_queenside, 'q', 'k');
        lemma_flag_text(c.white_kingside, 'K', 'q');
        lemma_flag_text(c.white_queenside, 'Q', 'q');
        lemma_flag_text(c.black_kingside, 'k', 'q');
        lemma_flag_text(c.black_queenside, 'q', 'q');
        assert(t.contains('K') || t.contains('Q') || t.contains('k') || t.contains('q'));
        assert(t.len() > 0);
        assert forall|i: int| 0 <= i < t.len() implies is_castling_letter(#[trigger] t[i])
            && !is_ws(t[i]) by {
            let ab = a + b;
            let abd = a + b + d;
            if i < a.len() {
                assert(t[i] == a[i]);
            } else if i < ab.len() {
                assert(t[i] == b[i - a.len()]);
            } else if i < abd.len() {
                assert(t[i] == d[i - ab.len()]);
            } else {
                assert(t[i] == e[i - abd.len()]);
            }
        }
        assert(t != seq!['-']) by {
            if t == seq!['-'] {
                assert(is_castling_letter(t[0]));
            }
        }
    } else {
        assert(c == no_castling());
    }
}

proof fn lemma_en_passant_round_trip(e: Option<Square>, side: Color)
    requires
        match e {
            Some(sq) => valid_square(sq) && sq.rank == en_passant_rank(side),
            None => true,
        },
    ensures
        spec_parse_en_passant(en_passant_text(e), side) == Ok::<
            Option<Square>,
            crate::san::ErrorView,
        >(e),
        no_ws(en_passant_text(e)),
        en_passant_text(e).len() > 0,
{
    if let Some(sq) = e {
        let t = square_text(sq);
        assert(t.len() == 2);
        assert(t != seq!['-']);
        assert(crate::san::file_char(sq.file) as u32 == 97 + sq.file);
        assert(crate::san::rank_char(sq.rank) as u32 == 49 + sq.rank);
        assert(spec_square_from(t) == Some(sq));
    }
}

proof fn lemma_decimal_field(n: u32)
    ensures
        spec_parse_u32(decimal(n as nat)) == Some(n),
        no_ws(decimal(n as nat)),
        decimal(n as nat).len() > 0,
{
    lemma_decimal_parses(n as nat);
    lemma_decimal_u32(n);
}

/// A well-formed position, written out as FEN and read back, is the same
/// position.
pub proof fn lemma_fen_round_trip(p: PositionView)
    requires
        well_formed_position(p),
    ensures
        spec_parse_fen(fen_text(p)) == Ok::<PositionView, crate::san::ErrorView>(p),
{
    let f0 = placement_text(p.board);
    let f1 = side_text(p.side_to_move);
    let f2 = castling_text(p.castling);
    let f3 = en_passant_text(p.en_passant);
    let f4 = decimal(p.halfmove_clock as nat);
    let f5 = decimal(p.fullmove_number as nat);
    lemma_placement_round_trip(p.board);
    lemma_castling_round_trip(p.castling);
    lemma_en_passant_round_trip(p.en_passant, p.side_to_move);
    lemma_decimal_field(p.halfmove_clock);
    lemma_decimal_field(p.fullmove_number);
    assert(no_ws(f1));
    let sp = seq![' '];
    let t1 = f0 + sp + f1;
    let t2 = t1 + sp + f2;
    let t3 = t2 + sp + f3;
    let t4 = t3 + sp + f4;
    let t5 = t4 + sp + f5;
    assert(t5 =~= fen_text(p));
    let e = Seq::<Seq<char>>::empty();
    lemma_words_state_append(Seq::empty(), f0);
    assert(Seq::<char>::empty() + f0 =~= f0);
    assert(words_state(f0) == (e, f0));
    lemma_words_state_next(f0, f1);
    lemma_words_state_next(t1, f2);
    lemma_words_state_next(t2, f3);
    lemma_words_state_next(t3, f4);
    lemma_words_state_next(t4, f5);
    assert(words(t5) =~= seq![f0, f1, f2, f3, f4, f5]);
    assert(spec_parse_side(f1) == Ok::<Color, crate::san::ErrorView>(p.side_to_move));
}

/// Whatever `parse_fen` accepts, written out with `Position::to_string` and
/// parsed again, gives back the same position.
pub proof fn lemma_fen_parse_print_parse(s: Seq<char>)
    ensures
        spec_parse_fen(s) matches Ok(p) ==> spec_parse_fen(fen_text(p)) == Ok::<
            PositionView,
            crate::san::ErrorView,
        >(p),
{
    if let Ok(p) = spec_parse_fen(s) {
        lemma_fen_round_trip(p);
    }
}


/// Every position `parse_fen` accepts is well formed: a full board, an en
/// passant square on the rank the side to move implies, and a fullmove
/// number of at least 1.
pub proof fn lemma_parsed_position_well_formed(s: Seq<char>)
    ensures
        spec_parse_fen(s) matches Ok(p) ==> well_formed_position(p),
{
}
} // verus!
