//! The move-text body of a PGN game: move numbers, SAN moves, `{...}` and
//! `;...` comments, `$n` NAGs, `(...)` variations and the result marker.

use vstd::prelude::*;
use crate::message::quoted;
use crate::text::{
    chars_of, is_ws, is_digit, is_whitespace, trim, trim_bounds, find_char, find_in,
    spec_parse_u32, parse_u32, push_char, string_from_range,
};
use crate::san::{
    Move, ParseError, ParseErrorKind, ErrorView, failure, failure_with, spec_parse_san,
    parse_san_chars,
};

verus! {

/// One parsed move plus the annotations PGN allows to trail it: a comment,
/// Numeric Annotation Glyphs, and variations (alternatives to this move,
/// each itself a move sequence).
#[derive(Debug, PartialEq, Eq)]
pub struct MoveTextEntry {
    pub mv: Move,
    pub comment: Option<String>,
    pub nags: Vec<u32>,
    pub variations: Vec<Vec<MoveTextEntry>>,
}

/// The parsed move-text body of a PGN game: the moves, a comment before
/// the first move (a preamble rather than an annotation of any move), and
/// the game termination marker (`1-0`, `0-1`, `1/2-1/2` or `*`) if the
/// input reached one.
#[derive(Debug, PartialEq, Eq)]
pub struct MoveText {
    pub preamble_comment: Option<String>,
    pub moves: Vec<MoveTextEntry>,
    pub result: Option<String>,
}

impl Default for MoveText {
    fn default() -> (m: MoveText)
        ensures
            m.preamble_comment is None,
            m.moves@.len() == 0,
            m.result is None,
    {
        MoveText { preamble_comment: None, moves: Vec::new(), result: None }
    }
}

/// Whether `a` and `b` hold the same move, comment, NAGs and variations.
pub open spec fn same_entry(a: MoveTextEntry, b: MoveTextEntry) -> bool
    decreases a,
{
    &&& a.mv == b.mv
    &&& opt_view(a.comment) == opt_view(b.comment)
    &&& a.nags@ == b.nags@
    &&& a.variations@.len() == b.variations@.len()
    &&& forall|i: int|
        #![trigger a.variations@[i]]
        0 <= i < a.variations@.len() ==> {
            &&& a.variations@[i]@.len() == b.variations@[i]@.len()
            &&& forall|j: int|
                #![trigger a.variations@[i]@[j]]
                0 <= j < a.variations@[i]@.len() ==> same_entry(
                    a.variations@[i]@[j],
                    b.variations@[i]@[j],
                )
        }
}

fn clone_comment(c: &Option<String>) -> (r: Option<String>)
    ensures
        opt_view(r) == opt_view(*c),
{
    match c {
        Some(t) => Some(t.clone()),
        None => None,
    }
}

fn clone_entry(e: &MoveTextEntry) -> (r: MoveTextEntry)
    ensures
        same_entry(r, *e),
    decreases e,
{
    let mut variations: Vec<Vec<MoveTextEntry>> = Vec::new();
    let mut i: usize = 0;
    while i < e.variations.len()
        invariant
            i <= e.variations@.len(),
            variations@.len() == i,
            forall|k: int|
                #![trigger variations@[k]]
                0 <= k < i ==> {
                    &&& variations@[k]@.len() == e.variations@[k]@.len()
                    &&& forall|j: int|
                        #![trigger variations@[k]@[j]]
                        0 <= j < variations@[k]@.len() ==> same_entry(
                            variations@[k]@[j],
                            e.variations@[k]@[j],
                        )
                },
        decreases e.variations@.len() - i,
    {
        let line = &e.variations[i];
        let mut copy: Vec<MoveTextEntry> = Vec::new();
        let mut j: usize = 0;
        while j < line.len()
            invariant
                j <= line@.len(),
                i < e.variations@.len(),
                *line == e.variations@[i as int],
                copy@.len() == j,
                forall|k: int| #![trigger copy@[k]] 0 <= k < j ==> same_entry(copy@[k], line@[k]),
            decreases line@.len() - j,
        {
            proof {
                assert(decreases_to!(*e => e.variations));
                assert(decreases_to!(e.variations => e.variations@));
                assert(decreases_to!(e.variations@ => e.variations@[i as int]));
                assert(decreases_to!(e.variations@[i as int] => e.variations@[i as int]@));
                assert(decreases_to!(e.variations@[i as int]@ => e.variations@[i as int]@[j as int]));
            }
            let x = clone_entry(&line[j]);
            copy.push(x);
            j += 1;
        }
        variations.push(copy);
        i += 1;
    }
    MoveTextEntry {
        mv: e.mv,
        comment: clone_comment(&e.comment),
        nags: e.nags.clone(),
        variations,
    }
}

impl Clone for MoveTextEntry {
    fn clone(&self) -> (r: MoveTextEntry)
        ensures
            same_entry(r, *self),
    {
        clone_entry(self)
    }
}

impl Clone for MoveText {
    fn clone(&self) -> (r: MoveText)
        ensures
            opt_view(r.preamble_comment) == opt_view(self.preamble_comment),
            opt_view(r.result) == opt_view(self.result),
            r.moves@.len() == self.moves@.len(),
            forall|k: int| #![trigger r.moves@[k]] 0 <= k < r.moves@.len() ==> same_entry(
                r.moves@[k],
                self.moves@[k],
            ),
    {
        let mut moves: Vec<MoveTextEntry> = Vec::new();
        let mut j: usize = 0;
        while j < self.moves.len()
            invariant
                j <= self.moves@.len(),
                moves@.len() == j,
                forall|k: int| #![trigger moves@[k]] 0 <= k < j ==> same_entry(
                    moves@[k],
                    self.moves@[k],
                ),
            decreases self.moves@.len() - j,
        {
            moves.push(clone_entry(&self.moves[j]));
            j += 1;
        }
        MoveText {
            preamble_comment: clone_comment(&self.preamble_comment),
            moves,
            result: clone_comment(&self.result),
        }
    }
}

/// The mathematical content of a `MoveTextEntry`.
pub struct EntryView {
    pub mv: Move,
    pub comment: Option<Seq<char>>,
    pub nags: Seq<u32>,
    pub variations: Seq<Seq<EntryView>>,
}

/// The mathematical content of a `MoveText`.
pub struct MoveTextView {
    pub preamble_comment: Option<Seq<char>>,
    pub moves: Seq<EntryView>,
    pub result: Option<Seq<char>>,
}

pub open spec fn opt_view(o: Option<String>) -> Option<Seq<char>> {
    match o {
        Some(s) => Some(s@),
        None => None,
    }
}

/// Whether the entry `e` holds the content `v`.
pub open spec fn entry_matches(e: MoveTextEntry, v: EntryView) -> bool
    decreases v,
{
    &&& e.mv == v.mv
    &&& opt_view(e.comment) == v.comment
    &&& e.nags@ == v.nags
    &&& e.variations@.len() == v.variations.len()
    &&& forall|i: int|
        #![trigger e.variations@[i]]
        0 <= i < v.variations.len() ==> {
            &&& e.variations@[i]@.len() == v.variations[i].len()
            &&& forall|j: int|
                #![trigger e.variations@[i]@[j]]
                0 <= j < v.variations[i].len() ==> entry_matches(
                    e.variations@[i]@[j],
                    v.variations[i][j],
                )
        }
}

pub open spec fn seq_matches(es: Seq<MoveTextEntry>, vs: Seq<EntryView>) -> bool {
    &&& es.len() == vs.len()
    &&& forall|j: int| #![trigger es[j]] 0 <= j < vs.len() ==> entry_matches(es[j], vs[j])
}

/// Whether the move text `m` holds the content `v`.
pub open spec fn movetext_matches(m: MoveText, v: MoveTextView) -> bool {
    &&& opt_view(m.preamble_comment) == v.preamble_comment
    &&& seq_matches(m.moves@, v.moves)
    &&& opt_view(m.result) == v.result
}

/// What a move sequence has read so far.
pub struct SeqState {
    pub entries: Seq<EntryView>,
    pub preamble: Option<Seq<char>>,
    pub result: Option<Seq<char>>,
}

pub open spec fn empty_state() -> SeqState {
    SeqState { entries: Seq::empty(), preamble: None, result: None }
}

/// `c` added to a comment slot: joined to an existing comment with a space.
pub open spec fn append_comment(slot: Option<Seq<char>>, c: Seq<char>) -> Option<Seq<char>> {
    match slot {
        Some(x) => Some(x.push(' ') + c),
        None => Some(c),
    }
}

pub open spec fn with_comment(e: EntryView, c: Seq<char>) -> EntryView {
    EntryView { comment: append_comment(e.comment, c), ..e }
}

pub open spec fn with_nag(e: EntryView, n: u32) -> EntryView {
    EntryView { nags: e.nags.push(n), ..e }
}

pub open spec fn with_variation(e: EntryView, var: Seq<EntryView>) -> EntryView {
    EntryView { variations: e.variations.push(var), ..e }
}

/// A comment attaches to the move it follows, or to the preamble before
/// the first move.
pub open spec fn attach_comment(st: SeqState, c: Seq<char>) -> SeqState {
    if st.entries.len() > 0 {
        SeqState {
            entries: st.entries.update(
                st.entries.len() - 1,
                with_comment(st.entries.last(), c),
            ),
            ..st
        }
    } else {
        SeqState { preamble: append_comment(st.preamble, c), ..st }
    }
}

pub open spec fn push_move(st: SeqState, m: Move) -> SeqState {
    SeqState {
        entries: st.entries.push(
            EntryView { mv: m, comment: None, nags: Seq::empty(), variations: Seq::empty() },
        ),
        ..st
    }
}

pub open spec fn is_delimiter(c: char) -> bool {
    c == '(' || c == ')' || c == '{' || c == '}' || c == ';' || c == '$'
}

pub open spec fn is_result_token(t: Seq<char>) -> bool {
    ||| t == seq!['1', '-', '0']
    ||| t == seq!['0', '-', '1']
    ||| t == seq!['1', '/', '2', '-', '1', '/', '2']
    ||| t == seq!['*']
}

/// The character classes the cursor skips over.
pub enum Skip {
    Whitespace,
    Digits,
    Dots,
    TokenChars,
    LineChars,
}

pub open spec fn keeps(k: Skip, c: char) -> bool {
    match k {
        Skip::Whitespace => is_ws(c),
        Skip::Digits => is_digit(c),
        Skip::Dots => c == '.',
        Skip::TokenChars => !is_ws(c) && !is_delimiter(c),
        Skip::LineChars => c != '\n',
    }
}

/// The first position from `p` on whose character is not of class `k`.
pub open spec fn advance(s: Seq<char>, p: int, k: Skip) -> int
    decreases s.len() - p,
{
    if 0 <= p < s.len() && keeps(k, s[p]) {
        advance(s, p + 1, k)
    } else {
        p
    }
}

pub open spec fn progress(p: int, np: int, len: int) -> bool {
    p < np <= len
}

/// Reading a move sequence from position `p` at variation depth `depth`,
/// having read `st` so far: the sequence read and the position where it
/// stopped (at a `)`, at the end, or after the result marker). The position
/// only moves forward; the branches that guard this (`progress`) are never
/// taken from a position inside the input, as `parse_sequence` shows.
pub open spec fn parse_seq(s: Seq<char>, p: int, depth: nat, st: SeqState) -> Result<
    (SeqState, int),
    ErrorView,
>
    decreases s.len() - p,
{
    let q = advance(s, p, Skip::Whitespace);
    if !(0 <= p <= q) {
        Err(failure(ParseErrorKind::UnrecognizedToken))
    } else if q >= s.len() {
        Ok((st, q))
    } else {
        let c = s[q];
        if c == ')' {
            if depth == 0 {
                Err(failure(ParseErrorKind::UnmatchedCloseParen))
            } else {
                Ok((st, q))
            }
        } else if c == '(' {
            match parse_seq(s, q + 1, depth + 1, empty_state()) {
                Err(e) => Err(e),
                Ok((sub, q2)) => {
                    let q3 = advance(s, q2, Skip::Whitespace);
                    if !(0 <= q3 < s.len() && s[q3] == ')') {
                        Err(failure(ParseErrorKind::UnterminatedVariation))
                    } else if st.entries.len() == 0 {
                        Err(failure(ParseErrorKind::VariationWithoutMove))
                    } else if progress(p, q3 + 1, s.len() as int) {
                        parse_seq(
                            s,
                            q3 + 1,
                            depth,
                            SeqState {
                                entries: st.entries.update(
                                    st.entries.len() - 1,
                                    with_variation(st.entries.last(), sub.entries),
                                ),
                                ..st
                            },
                        )
                    } else {
                        Err(failure(ParseErrorKind::UnrecognizedToken))
                    }
                },
            }
        } else if c == '{' {
            let rest = s.subrange(q + 1, s.len() as int);
            match find_char(rest, '}') {
                None => Err(failure(ParseErrorKind::UnterminatedComment)),
                Some(k) => if progress(p, q + 1 + k + 1, s.len() as int) {
                    parse_seq(
                        s,
                        q + 1 + k + 1,
                        depth,
                        attach_comment(st, trim(s.subrange(q + 1, q + 1 + k))),
                    )
                } else {
                    Err(failure(ParseErrorKind::UnrecognizedToken))
                },
            }
        } else if c == ';' {
            let e = advance(s, q + 1, Skip::LineChars);
            if progress(p, e, s.len() as int) && q + 1 <= e {
                parse_seq(s, e, depth, attach_comment(st, trim(s.subrange(q + 1, e))))
            } else {
                Err(failure(ParseErrorKind::UnrecognizedToken))
            }
        } else if c == '$' {
            let e = advance(s, q + 1, Skip::Digits);
            if e == q + 1 {
                Err(failure(ParseErrorKind::NagWithoutNumber))
            } else if !(q + 1 <= e) {
                Err(failure(ParseErrorKind::UnrecognizedToken))
            } else {
                match spec_parse_u32(s.subrange(q + 1, e)) {
                    None => Err(
                        failure_with(
                            ParseErrorKind::InvalidNag,
                            "invalid NAG '$"@ + s.subrange(q + 1, e) + "'"@,
                        ),
                    ),
                    Some(n) => if st.entries.len() == 0 {
                        Err(failure(ParseErrorKind::NagWithoutMove))
                    } else if progress(p, e, s.len() as int) {
                        parse_seq(
                            s,
                            e,
                            depth,
                            SeqState {
                                entries: st.entries.update(
                                    st.entries.len() - 1,
                                    with_nag(st.entries.last(), n),
                                ),
                                ..st
                            },
                        )
                    } else {
                        Err(failure(ParseErrorKind::UnrecognizedToken))
                    },
                }
            }
        } else if is_digit(c) {
            let e = advance(s, q, Skip::Digits);
            if e < s.len() && (s[e] == '-' || s[e] == '/') {
                let t = advance(s, e, Skip::TokenChars);
                if q <= t && is_result_token(s.subrange(q, t)) {
                    Ok((SeqState { result: Some(s.subrange(q, t)), ..st }, t))
                } else if q <= t {
                    // Castling may be written with zeros (`0-0`), a SAN
                    // move that starts with a digit.
                    match spec_parse_san(s.subrange(q, t)) {
                        Ok(m) => if progress(p, t, s.len() as int) {
                            parse_seq(s, t, depth, push_move(st, m))
                        } else {
                            Err(failure(ParseErrorKind::UnrecognizedToken))
                        },
                        Err(_) => Err(
                            failure_with(
                                ParseErrorKind::UnrecognizedToken,
                                "unrecognized token '"@ + s.subrange(q, t) + "'"@,
                            ),
                        ),
                    }
                } else {
                    Err(failure(ParseErrorKind::UnrecognizedToken))
                }
            } else {
                let d = advance(s, e, Skip::Dots);
                if progress(p, d, s.len() as int) {
                    parse_seq(s, d, depth, st)
                } else {
                    Err(failure(ParseErrorKind::UnrecognizedToken))
                }
            }
        } else {
            let t = advance(s, q, Skip::TokenChars);
            if !(q <= t) {
                Err(failure(ParseErrorKind::UnrecognizedToken))
            } else if is_result_token(s.subrange(q, t)) {
                Ok((SeqState { result: Some(s.subrange(q, t)), ..st }, t))
            } else {
                match spec_parse_san(s.subrange(q, t)) {
                    Err(e) => Err(e),
                    Ok(m) => if progress(p, t, s.len() as int) {
                        parse_seq(s, t, depth, push_move(st, m))
                    } else {
                        Err(failure(ParseErrorKind::UnrecognizedToken))
                    },
                }
            }
        }
    }
}

/// What `parse_movetext` makes of `input`.
pub open spec fn spec_parse_movetext(input: Seq<char>) -> Result<MoveTextView, ErrorView> {
    match parse_seq(input, 0, 0, empty_state()) {
        Err(e) => Err(e),
        Ok((st, _)) => Ok(
            MoveTextView { preamble_comment: st.preamble, moves: st.entries, result: st.result },
        ),
    }
}


// ----- facts about the spec -----

proof fn lemma_advance(s: Seq<char>, p: int, k: Skip)
    requires
        0 <= p <= s.len(),
    ensures
        p <= advance(s, p, k) <= s.len(),
        advance(s, p, k) < s.len() ==> !keeps(k, s[advance(s, p, k)]),
        p < s.len() && keeps(k, s[p]) ==> advance(s, p, k) > p,
    decreases s.len() - p,
{
    if p < s.len() && keeps(k, s[p]) {
        lemma_advance(s, p + 1, k);
    }
}

proof fn lemma_parse_seq_pos(s: Seq<char>, p: int, depth: nat, st: SeqState)
    requires
        0 <= p <= s.len(),
    ensures
        parse_seq(s, p, depth, st) matches Ok((_, e)) ==> p <= e <= s.len(),
    decreases s.len() - p,
{
    let q = advance(s, p, Skip::Whitespace);
    lemma_advance(s, p, Skip::Whitespace);
    if q < s.len() {
        let c = s[q];
        if c == '(' {
            lemma_parse_seq_pos(s, q + 1, depth + 1, empty_state());
            if let Ok((sub, q2)) = parse_seq(s, q + 1, depth + 1, empty_state()) {
                let q3 = advance(s, q2, Skip::Whitespace);
                lemma_advance(s, q2, Skip::Whitespace);
                if 0 <= q3 < s.len() && s[q3] == ')' && st.entries.len() > 0 && progress(
                    p,
                    q3 + 1,
                    s.len() as int,
                ) {
                    lemma_parse_seq_pos(
                        s,
                        q3 + 1,
                        depth,
                        SeqState {
                            entries: st.entries.update(
                                st.entries.len() - 1,
                                with_variation(st.entries.last(), sub.entries),
                            ),
                            ..st
                        },
                    );
                }
            }
        } else if c == '{' {
            let rest = s.subrange(q + 1, s.len() as int);
            if let Some(k) = find_char(rest, '}') {
                if progress(p, q + 1 + k + 1, s.len() as int) {
                    lemma_parse_seq_pos(
                        s,
                        q + 1 + k + 1,
                        depth,
                        attach_comment(st, trim(s.subrange(q + 1, q + 1 + k))),
                    );
                }
            }
        } else if c == ';' {
            let e = advance(s, q + 1, Skip::LineChars);
            if progress(p, e, s.len() as int) && q + 1 <= e {
                lemma_parse_seq_pos(s, e, depth, attach_comment(st, trim(s.subrange(q + 1, e))));
            }
        } else if c == '$' {
            let e = advance(s, q + 1, Skip::Digits);
            if e != q + 1 && q + 1 <= e {
                if let Some(n) = spec_parse_u32(s.subrange(q + 1, e)) {
                    if st.entries.len() != 0 && progress(p, e, s.len() as int) {
                        lemma_parse_seq_pos(
                            s,
                            e,
                            depth,
                            SeqState {
                                entries: st.entries.update(
                                    st.entries.len() - 1,
                                    with_nag(st.entries.last(), n),
                                ),
                                ..st
                            },
                        );
                    }
                }
            }
        } else if is_digit(c) {
            let e = advance(s, q, Skip::Digits);
            lemma_advance(s, q, Skip::Digits);
            if e < s.len() && (s[e] == '-' || s[e] == '/') {
                lemma_advance(s, e, Skip::TokenChars);
                let t = advance(s, e, Skip::TokenChars);
                if q <= t && !is_result_token(s.subrange(q, t)) {
                    if let Ok(m) = spec_parse_san(s.subrange(q, t)) {
                        if progress(p, t, s.len() as int) {
                            lemma_parse_seq_pos(s, t, depth, push_move(st, m));
                        }
                    }
                }
            } else {
                let d = advance(s, e, Skip::Dots);
                if progress(p, d, s.len() as int) {
                    lemma_parse_seq_pos(s, d, depth, st);
                }
            }
        } else {
            let t = advance(s, q, Skip::TokenChars);
            lemma_advance(s, q, Skip::TokenChars);
            if q <= t && !is_result_token(s.subrange(q, t)) {
                if let Ok(m) = spec_parse_san(s.subrange(q, t)) {
                    if progress(p, t, s.len() as int) {
                        lemma_parse_seq_pos(s, t, depth, push_move(st, m));
                    }
                }
            }
        }
    }
}


/// A parenthesised variation that follows a move is added to that move
/// after the variations already attached to it, which stay as they were;
/// nothing else read so far changes, and reading goes on after the `)`.
pub proof fn lemma_variation_kept_in_order(s: Seq<char>, p: int, depth: nat, st: SeqState)
    requires
        0 <= p <= s.len(),
        st.entries.len() > 0,
        advance(s, p, Skip::Whitespace) < s.len(),
        s[advance(s, p, Skip::Whitespace)] == '(',
        parse_seq(s, advance(s, p, Skip::Whitespace) + 1, depth + 1, empty_state()) is Ok,
        ({
            let q2 = parse_seq(s, advance(s, p, Skip::Whitespace) + 1, depth + 1, empty_state())->Ok_0.1;
            let q3 = advance(s, q2, Skip::Whitespace);
            q3 < s.len() && s[q3] == ')'
        }),
    ensures
        ({
            let q = advance(s, p, Skip::Whitespace);
            let (sub, q2) = parse_seq(s, q + 1, depth + 1, empty_state())->Ok_0;
            let q3 = advance(s, q2, Skip::Whitespace);
            let last = st.entries.last();
            parse_seq(s, p, depth, st) == parse_seq(
                s,
                q3 + 1,
                depth,
                SeqState {
                    entries: st.entries.update(
                        st.entries.len() - 1,
                        EntryView {
                            mv: last.mv,
                            comment: last.comment,
                            nags: last.nags,
                            variations: last.variations.push(sub.entries),
                        },
                    ),
                    preamble: st.preamble,
                    result: st.result,
                },
            )
        }),
{
    let q = advance(s, p, Skip::Whitespace);
    lemma_advance(s, p, Skip::Whitespace);
    lemma_parse_seq_pos(s, q + 1, depth + 1, empty_state());
    let q2 = parse_seq(s, q + 1, depth + 1, empty_state())->Ok_0.1;
    lemma_advance(s, q2, Skip::Whitespace);
    let q3 = advance(s, q2, Skip::Whitespace);
    assert(progress(p, q3 + 1, s.len() as int));
}

// ----- executable parsing -----

fn keeps_exec(k: &Skip, c: char) -> (b: bool)
    ensures
        b == keeps(*k, c),
{
    match k {
        Skip::Whitespace => is_whitespace(c),
        Skip::Digits => '0' <= c && c <= '9',
        Skip::Dots => c == '.',
        Skip::TokenChars => !is_whitespace(c) && !(c == '(' || c == ')' || c == '{' || c == '}'
            || c == ';' || c == '$'),
        Skip::LineChars => c != '\n',
    }
}

fn advance_exec(v: &Vec<char>, p: usize, k: &Skip) -> (r: usize)
    requires
        p <= v.len(),
    ensures
        r as int == advance(v@, p as int, *k),
        p <= r <= v.len(),
{
    proof {
        lemma_advance(v@, p as int, *k);
    }
    let mut i = p;
    while i < v.len() && keeps_exec(k, v[i])
        invariant
            p <= i <= v.len(),
            advance(v@, p as int, *k) == advance(v@, i as int, *k),
        decreases v.len() - i,
    {
        i += 1;
    }
    i
}

fn is_result_exec(v: &Vec<char>, a: usize, b: usize) -> (r: bool)
    requires
        a <= b <= v.len(),
    ensures
        r == is_result_token(v@.subrange(a as int, b as int)),
{
    let ghost t = v@.subrange(a as int, b as int);
    let n = b - a;
    let r = if n == 3 {
        (v[a] == '1' && v[a + 1] == '-' && v[a + 2] == '0') || (v[a] == '0' && v[a + 1] == '-' && v[a
            + 2] == '1')
    } else if n == 7 {
        v[a] == '1' && v[a + 1] == '/' && v[a + 2] == '2' && v[a + 3] == '-' && v[a + 4] == '1'
            && v[a + 5] == '/' && v[a + 6] == '2'
    } else if n == 1 {
        v[a] == '*'
    } else {
        false
    };
    proof {
        assert(seq!['1', '-', '0'].len() == 3);
        assert(seq!['0', '-', '1'].len() == 3);
        assert(seq!['1', '/', '2', '-', '1', '/', '2'].len() == 7);
        assert(seq!['*'].len() == 1);
        if n == 3 {
            assert(t[0] == v@[a as int] && t[1] == v@[a + 1] && t[2] == v@[a + 2]);
            if r {
                if v@[a as int] == '1' {
                    assert(t =~= seq!['1', '-', '0']);
                } else {
                    assert(t =~= seq!['0', '-', '1']);
                }
            } else {
                assert(t != seq!['1', '-', '0']) by {
                    if t == seq!['1', '-', '0'] {
                        assert(t[0] == '1' && t[1] == '-' && t[2] == '0');
                    }
                }
                assert(t != seq!['0', '-', '1']) by {
                    if t == seq!['0', '-', '1'] {
                        assert(t[0] == '0' && t[1] == '-' && t[2] == '1');
                    }
                }
            }
        } else if n == 7 {
            assert(t[0] == v@[a as int] && t[1] == v@[a + 1] && t[2] == v@[a + 2] && t[3] == v@[a
                + 3] && t[4] == v@[a + 4] && t[5] == v@[a + 5] && t[6] == v@[a + 6]);
            if r {
                assert(t =~= seq!['1', '/', '2', '-', '1', '/', '2']);
            } else {
                assert(t != seq!['1', '/', '2', '-', '1', '/', '2']) by {
                    if t == seq!['1', '/', '2', '-', '1', '/', '2'] {
                        assert(t[0] == '1' && t[1] == '/' && t[2] == '2' && t[3] == '-' && t[4]
                            == '1' && t[5] == '/' && t[6] == '2');
                    }
                }
            }
        } else if n == 1 {
            assert(t[0] == v@[a as int]);
            if r {
                assert(t =~= seq!['*']);
            } else {
                assert(t != seq!['*']) by {
                    if t == seq!['*'] {
                        assert(t[0] == '*');
                    }
                }
            }
        } else {
            assert(t.len() != 3 && t.len() != 7 && t.len() != 1);
        }
    }
    r
}

fn append_comment_exec(slot: &mut Option<String>, c: String)
    ensures
        opt_view(*final(slot)) == append_comment(opt_view(*old(slot)), c@),
{
    match slot.take() {
        Some(mut existing) => {
            push_char(&mut existing, ' ');
            existing.append(c.as_str());
            *slot = Some(existing);
        },
        None => {
            *slot = Some(c);
        },
    }
}

pub open spec fn state_matches(
    entries: Seq<MoveTextEntry>,
    preamble: Option<String>,
    result: Option<String>,
    st: SeqState,
) -> bool {
    &&& seq_matches(entries, st.entries)
    &&& opt_view(preamble) == st.preamble
    &&& opt_view(result) == st.result
}

fn attach_comment_exec(
    entries: &mut Vec<MoveTextEntry>,
    preamble: &mut Option<String>,
    c: String,
    Ghost(st): Ghost<SeqState>,
)
    requires
        seq_matches(old(entries)@, st.entries),
        opt_view(*old(preamble)) == st.preamble,
    ensures
        seq_matches(final(entries)@, attach_comment(st, c@).entries),
        opt_view(*final(preamble)) == attach_comment(st, c@).preamble,
{
    if entries.len() > 0 {
        let mut last = entries.pop().unwrap();
        let ghost lv = st.entries.last();
        assert(entry_matches(last, lv)) by {
            assert(old(entries)@[old(entries)@.len() - 1] == last);
        }
        append_comment_exec(&mut last.comment, c);
        let ghost nv = with_comment(lv, c@);
        assert(entry_matches(last, nv));
        entries.push(last);
        proof {
            let target = st.entries.update(st.entries.len() - 1, nv);
            assert forall|j: int| #![trigger entries@[j]] 0 <= j < target.len() implies entry_matches(
                entries@[j],
                target[j],
            ) by {
                if j < target.len() - 1 {
                    assert(entries@[j] == old(entries)@[j]);
                }
            }
        }
    } else {
        append_comment_exec(preamble, c);
    }
}

fn add_to_last(
    entries: &mut Vec<MoveTextEntry>,
    nag: Option<u32>,
    variation: Option<Vec<MoveTextEntry>>,
    Ghost(st): Ghost<SeqState>,
    Ghost(var_view): Ghost<Seq<EntryView>>,
)
    requires
        old(entries)@.len() > 0,
        seq_matches(old(entries)@, st.entries),
        variation matches Some(var) ==> seq_matches(var@, var_view),
    ensures
        seq_matches(
            final(entries)@,
            st.entries.update(
                st.entries.len() - 1,
                if nag is Some {
                    with_nag(st.entries.last(), nag->0)
                } else if variation is Some {
                    with_variation(st.entries.last(), var_view)
                } else {
                    st.entries.last()
                },
            ),
        ),
{
    let mut last = entries.pop().unwrap();
    let ghost lv = st.entries.last();
    assert(entry_matches(last, lv)) by {
        assert(old(entries)@[old(entries)@.len() - 1] == last);
    }
    let ghost nv = if nag is Some {
        with_nag(lv, nag->0)
    } else if variation is Some {
        with_variation(lv, var_view)
    } else {
        lv
    };
    match nag {
        Some(n) => {
            last.nags.push(n);
            assert(entry_matches(last, nv));
        },
        None => match variation {
            Some(var) => {
                let ghost old_vars = last.variations@;
                let ghost var_s = var@;
                last.variations.push(var);
                proof {
                    assert(last.variations@[old_vars.len() as int]@ == var_s);
                    assert forall|i: int|
                        #![trigger last.variations@[i]]
                        0 <= i < nv.variations.len() implies {
                        &&& last.variations@[i]@.len() == nv.variations[i].len()
                        &&& forall|j: int|
                            #![trigger last.variations@[i]@[j]]
                            0 <= j < nv.variations[i].len() ==> entry_matches(
                                last.variations@[i]@[j],
                                nv.variations[i][j],
                            )
                    } by {
                        if i < old_vars.len() {
                            assert(last.variations@[i] == old_vars[i]);
                        } else {
                            assert forall|j: int|
                                #![trigger last.variations@[i]@[j]]
                                0 <= j < nv.variations[i].len() implies entry_matches(
                                last.variations@[i]@[j],
                                nv.variations[i][j],
                            ) by {
                                assert(last.variations@[i]@[j] == var_s[j]);
                            }
                        }
                    }
                }
                assert(entry_matches(last, nv));
            },
            None => {},
        },
    }
    entries.push(last);
    proof {
        let target = st.entries.update(st.entries.len() - 1, nv);
        assert forall|j: int| #![trigger entries@[j]] 0 <= j < target.len() implies entry_matches(
            entries@[j],
            target[j],
        ) by {
            if j < target.len() - 1 {
                assert(entries@[j] == old(entries)@[j]);
            }
        }
    }
}

/// Appends an entry for the move `m`, with no annotations.
fn push_move_exec(entries: &mut Vec<MoveTextEntry>, m: Move, Ghost(st): Ghost<SeqState>)
    requires
        seq_matches(old(entries)@, st.entries),
    ensures
        seq_matches(final(entries)@, push_move(st, m).entries),
{
    entries.push(MoveTextEntry { mv: m, comment: None, nags: Vec::new(), variations: Vec::new() });
    proof {
        let target = push_move(st, m).entries;
        assert forall|j: int| #![trigger entries@[j]] 0 <= j < target.len() implies entry_matches(
            entries@[j],
            target[j],
        ) by {
            if j < st.entries.len() {
                assert(target[j] == st.entries[j]);
                assert(entries@[j] == old(entries)@[j]);
            }
        }
    }
}

/// A `{...}` comment whose `{` is at `q`: its trimmed text and the position
/// just after the closing `}`.
fn parse_comment(v: &Vec<char>, q: usize) -> (r: Result<(String, usize), ParseError>)
    requires
        q < v.len(),
    ensures
        match find_char(v@.subrange(q + 1, v@.len() as int), '}') {
            Some(k) => r matches Ok((text, e)) && text@ == trim(v@.subrange(q + 1, q + 1 + k))
                && e == q + 1 + k + 1,
            None => r matches Err(x) && x@ == failure(ParseErrorKind::UnterminatedComment),
        },
{
    let k = match find_in(v, q + 1, v.len(), '}') {
        Some(k) => k,
        None => {
            return Err(ParseError::new(ParseErrorKind::UnterminatedComment));
        },
    };
    proof {
        crate::text::lemma_find_char_bound(v@.subrange(q + 1, v@.len() as int), '}');
    }
    let (a, b) = trim_bounds(v, q + 1, q + 1 + k);
    Ok((string_from_range(v, a, b), q + 1 + k + 1))
}

/// A `;` comment whose `;` is at `q`: its trimmed text, which runs to the
/// end of the line, and the position of the line's end.
fn read_line_comment(v: &Vec<char>, q: usize) -> (r: (String, usize))
    requires
        q < v.len(),
    ensures
        r.1 as int == advance(v@, q + 1, Skip::LineChars),
        q + 1 <= r.1 <= v.len(),
        r.0@ == trim(v@.subrange(q + 1, r.1 as int)),
{
    let e = advance_exec(v, q + 1, &Skip::LineChars);
    let (a, b) = trim_bounds(v, q + 1, e);
    (string_from_range(v, a, b), e)
}

/// A NAG whose `$` is at `q`: its number and the position after its digits.
fn parse_nag(v: &Vec<char>, q: usize) -> (r: Result<(u32, usize), ParseError>)
    requires
        q < v.len(),
    ensures
        ({
            let e = advance(v@, q + 1, Skip::Digits);
            if e == q + 1 {
                r matches Err(x) && x@ == failure(ParseErrorKind::NagWithoutNumber)
            } else {
                match spec_parse_u32(v@.subrange(q + 1, e)) {
                    Some(n) => r == Ok::<(u32, usize), ParseError>((n, e as usize)),
                    None => r matches Err(x) && x@ == failure_with(
                        ParseErrorKind::InvalidNag,
                        "invalid NAG '$"@ + v@.subrange(q + 1, e) + "'"@,
                    ),
                }
            }
        }),
{
    let e = advance_exec(v, q + 1, &Skip::Digits);
    if e == q + 1 {
        return Err(ParseError::new(ParseErrorKind::NagWithoutNumber));
    }
    match parse_u32(v, q + 1, e) {
        Some(n) => Ok((n, e)),
        None => Err(
            ParseError::with_message(
                ParseErrorKind::InvalidNag,
                quoted("invalid NAG '$", v, q + 1, e, "'"),
            ),
        ),
    }
}

/// What a token starting with a digit turned out to be.
enum DigitToken {
    /// A move number such as `12.` or `12...`, ending at the position given.
    MoveNumber(usize),
    /// A result marker and the position after it.
    GameResult(String, usize),
    /// A SAN move written with digits (castling as `0-0`) and the position
    /// after it.
    SanMove(Move, usize),
}

/// A token starting with the digit at `q`: a move number (digits, then any
/// dots), or else, when a `-` or `/` follows the digits, a result marker or
/// a SAN move such as `0-0`.
fn read_digit_token(v: &Vec<char>, q: usize) -> (r: Result<DigitToken, ParseError>)
    requires
        q < v.len(),
    ensures
        ({
            let s = v@;
            let e = advance(s, q as int, Skip::Digits);
            if e < s.len() && (s[e] == '-' || s[e] == '/') {
                let t = advance(s, e, Skip::TokenChars);
                if q <= t && is_result_token(s.subrange(q as int, t)) {
                    r matches Ok(DigitToken::GameResult(tok, end)) && tok@ == s.subrange(
                        q as int,
                        t,
                    ) && end == t
                } else {
                    match spec_parse_san(s.subrange(q as int, t)) {
                        Ok(m) => r matches Ok(DigitToken::SanMove(mv, end)) && mv == m && end == t,
                        Err(_) => r matches Err(x) && x@ == failure_with(
                            ParseErrorKind::UnrecognizedToken,
                            "unrecognized token '"@ + s.subrange(q as int, t) + "'"@,
                        ),
                    }
                }
            } else {
                r matches Ok(DigitToken::MoveNumber(end)) && end == advance(s, e, Skip::Dots)
            }
        }),
{
    let e = advance_exec(v, q, &Skip::Digits);
    if e < v.len() && (v[e] == '-' || v[e] == '/') {
        let t = read_token(v, e);
        if is_result_exec(v, q, t) {
            return Ok(DigitToken::GameResult(string_from_range(v, q, t), t));
        }
        if let Ok(m) = parse_san_chars(v, q, t) {
            return Ok(DigitToken::SanMove(m, t));
        }
        return Err(
            ParseError::with_message(
                ParseErrorKind::UnrecognizedToken,
                quoted("unrecognized token '", v, q, t, "'"),
            ),
        );
    }
    Ok(DigitToken::MoveNumber(advance_exec(v, e, &Skip::Dots)))
}

/// The end of the token starting at `q`: the first whitespace or delimiter.
fn read_token(v: &Vec<char>, q: usize) -> (t: usize)
    requires
        q <= v.len(),
    ensures
        t as int == advance(v@, q as int, Skip::TokenChars),
        q <= t <= v.len(),
{
    advance_exec(v, q, &Skip::TokenChars)
}

struct Sequence {
    entries: Vec<MoveTextEntry>,
    preamble: Option<String>,
    result: Option<String>,
    end: usize,
}

proof fn lemma_trim_empty()
    ensures
        trim(Seq::<char>::empty()).len() == 0,
{
    assert(crate::text::trim_start(Seq::<char>::empty()) == Seq::<char>::empty());
    assert(crate::text::trim_end(Seq::<char>::empty()) == Seq::<char>::empty());
}

/// Reads a move sequence from `pos` at variation depth `depth`, up to a
/// `)` that closes it, the end of the input, or the result marker.
fn parse_sequence(v: &Vec<char>, pos: usize, depth: usize) -> (r: Result<Sequence, ParseError>)
    requires
        pos <= v.len(),
        depth <= pos,
    ensures
        match parse_seq(v@, pos as int, depth as nat, empty_state()) {
            Ok((st, e)) => r matches Ok(sq) && sq.end == e && state_matches(
                sq.entries@,
                sq.preamble,
                sq.result,
                st,
            ),
            Err(ev) => r matches Err(x) && x@ == ev,
        },
    decreases v.len() - pos,
{
    let ghost s = v@;
    let mut entries: Vec<MoveTextEntry> = Vec::new();
    let mut preamble: Option<String> = None;
    let mut result: Option<String> = None;
    let ghost mut st = empty_state();
    let mut cur = pos;
    loop
        invariant
            s == v@,
            pos <= cur <= v.len(),
            depth <= pos,
            state_matches(entries@, preamble, result, st),
            parse_seq(s, pos as int, depth as nat, empty_state()) == parse_seq(
                s,
                cur as int,
                depth as nat,
                st,
            ),
        decreases v.len() - cur,
    {
        let q = advance_exec(v, cur, &Skip::Whitespace);
        if q >= v.len() {
            return Ok(Sequence { entries, preamble, result, end: q });
        }
        let c = v[q];
        if c == ')' {
            if depth == 0 {
                return Err(ParseError::new(ParseErrorKind::UnmatchedCloseParen));
            }
            return Ok(Sequence { entries, preamble, result, end: q });
        } else if c == '(' {
            proof {
                lemma_parse_seq_pos(s, q + 1, (depth + 1) as nat, empty_state());
            }
            let sub = parse_sequence(v, q + 1, depth + 1)?;
            let ghost sub_st = parse_seq(s, q + 1, (depth + 1) as nat, empty_state())->Ok_0.0;
            let q3 = advance_exec(v, sub.end, &Skip::Whitespace);
            if !(q3 < v.len() && v[q3] == ')') {
                return Err(ParseError::new(ParseErrorKind::UnterminatedVariation));
            }
            if entries.len() == 0 {
                return Err(ParseError::new(ParseErrorKind::VariationWithoutMove));
            }
            add_to_last(&mut entries, None, Some(sub.entries), Ghost(st), Ghost(sub_st.entries));
            proof {
                st = SeqState {
                    entries: st.entries.update(
                        st.entries.len() - 1,
                        with_variation(st.entries.last(), sub_st.entries),
                    ),
                    ..st
                };
            }
            cur = q3 + 1;
        } else if c == '{' {
            let (text, e) = parse_comment(v, q)?;
            proof {
                crate::text::lemma_find_char_bound(s.subrange(q + 1, s.len() as int), '}');
            }
            attach_comment_exec(&mut entries, &mut preamble, text, Ghost(st));
            proof {
                st = attach_comment(st, text@);
            }
            cur = e;
        } else if c == ';' {
            let (text, e) = read_line_comment(v, q);
            attach_comment_exec(&mut entries, &mut preamble, text, Ghost(st));
            proof {
                st = attach_comment(st, text@);
            }
            cur = e;
        } else if c == '$' {
            proof {
                lemma_advance(s, q + 1, Skip::Digits);
            }
            let (n, e) = parse_nag(v, q)?;
            if entries.len() == 0 {
                return Err(ParseError::new(ParseErrorKind::NagWithoutMove));
            }
            add_to_last(&mut entries, Some(n), None, Ghost(st), Ghost(Seq::empty()));
            proof {
                st = SeqState {
                    entries: st.entries.update(
                        st.entries.len() - 1,
                        with_nag(st.entries.last(), n),
                    ),
                    ..st
                };
            }
            cur = e;
        } else if '0' <= c && c <= '9' {
            proof {
                lemma_advance(s, q as int, Skip::Digits);
                lemma_advance(s, advance(s, q as int, Skip::Digits), Skip::Dots);
                lemma_advance(s, advance(s, q as int, Skip::Digits), Skip::TokenChars);
            }
            match read_digit_token(v, q)? {
                DigitToken::GameResult(token, t) => {
                    result = Some(token);
                    proof {
                        st = SeqState { result: Some(s.subrange(q as int, t as int)), ..st };
                    }
                    return Ok(Sequence { entries, preamble, result, end: t });
                },
                DigitToken::MoveNumber(d) => {
                    cur = d;
                },
                DigitToken::SanMove(m, t) => {
                    push_move_exec(&mut entries, m, Ghost(st));
                    proof {
                        st = push_move(st, m);
                    }
                    cur = t;
                },
            }
        } else {
            let t = read_token(v, q);
            if is_result_exec(v, q, t) {
                result = Some(string_from_range(v, q, t));
                proof {
                    st = SeqState { result: Some(s.subrange(q as int, t as int)), ..st };
                }
                return Ok(Sequence { entries, preamble, result, end: t });
            }
            let m = parse_san_chars(v, q, t)?;
            proof {
                if t == q {
                    assert(s.subrange(q as int, t as int) =~= Seq::<char>::empty());
                    lemma_trim_empty();
                }
            }
            push_move_exec(&mut entries, m, Ghost(st));
            proof {
                st = push_move(st, m);
            }
            cur = t;
        }
    }
}

/// Parse the move-text body of a PGN game record (everything after the tag
/// pairs). Move numbers (`1.`, `12...`) are recognized and discarded,
/// comments and NAGs attach to the move they follow, and `(...)`
/// variations attach to the move they are an alternative to.
pub fn parse_movetext(input: &str) -> (r: Result<MoveText, ParseError>)
    ensures
        match spec_parse_movetext(input@) {
            Ok(mt) => r matches Ok(m) && movetext_matches(m, mt),
            Err(ev) => r matches Err(e) && e@ == ev,
        },
{
    let v = chars_of(input);
    let seq = parse_sequence(&v, 0, 0)?;
    Ok(MoveText { preamble_comment: seq.preamble, moves: seq.entries, result: seq.result })
}
} // verus!
