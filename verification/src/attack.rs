//! Which squares a side attacks on a board, and whether the squares
//! between two others on a line are empty.

use vstd::prelude::*;
use crate::san::PieceKind;
use crate::fen::{Color, Piece};

verus! {

pub open spec fn on_board(f: int, r: int) -> bool {
    0 <= f < 8 && 0 <= r < 8
}

/// What stands on file `f`, rank `r` of a board indexed by `rank * 8 + file`.
pub open spec fn at(b: Seq<Option<Piece>>, f: int, r: int) -> Option<Piece> {
    b[r * 8 + f]
}

/// Whether the square `(f, r)` is on the board and holds a `kind` of `color`.
pub open spec fn holds(b: Seq<Option<Piece>>, f: int, r: int, kind: PieceKind, color: Color) -> bool {
    on_board(f, r) && at(b, f, r) == Some(Piece { kind, color })
}

pub open spec fn other(c: Color) -> Color {
    match c {
        Color::White => Color::Black,
        Color::Black => Color::White,
    }
}

/// The rank direction in which a side's pawns advance.
pub open spec fn pawn_dir(c: Color) -> int {
    match c {
        Color::White => 1,
        Color::Black => -1,
    }
}

pub open spec fn knight_df(i: int) -> int {
    if i == 0 {
        1
    } else if i == 1 {
        2
    } else if i == 2 {
        -1
    } else if i == 3 {
        -2
    } else if i == 4 {
        1
    } else if i == 5 {
        2
    } else if i == 6 {
        -1
    } else {
        -2
    }
}

pub open spec fn knight_dr(i: int) -> int {
    if i == 0 {
        2
    } else if i == 1 {
        1
    } else if i == 2 {
        2
    } else if i == 3 {
        1
    } else if i == 4 {
        -2
    } else if i == 5 {
        -1
    } else if i == 6 {
        -2
    } else {
        -1
    }
}

/// The eight sliding directions; the first four are the diagonals.
pub open spec fn dir_df(i: int) -> int {
    if i == 0 || i == 1 || i == 4 {
        1
    } else if i == 2 || i == 3 || i == 5 {
        -1
    } else {
        0
    }
}

pub open spec fn dir_dr(i: int) -> int {
    if i == 0 || i == 2 || i == 6 {
        1
    } else if i == 1 || i == 3 || i == 7 {
        -1
    } else {
        0
    }
}

pub open spec fn slides(kind: PieceKind, diagonal: bool) -> bool {
    if diagonal {
        kind == PieceKind::Bishop || kind == PieceKind::Queen
    } else {
        kind == PieceKind::Rook || kind == PieceKind::Queen
    }
}

pub open spec fn unit(d: int) -> bool {
    -1 <= d <= 1
}

/// Steps left before a walk from `(f, r)` in direction `(df, dr)` leaves
/// the board.
pub open spec fn steps_left(f: int, r: int, df: int, dr: int) -> int {
    (if df == 1 {
        7 - f
    } else if df == -1 {
        f
    } else {
        0
    }) + (if dr == 1 {
        7 - r
    } else if dr == -1 {
        r
    } else {
        0
    })
}

/// Whether walking from `(f, r)` in direction `(df, dr)`, the first piece
/// met belongs to `att` and slides that way.
pub open spec fn ray_attacks(
    b: Seq<Option<Piece>>,
    f: int,
    r: int,
    df: int,
    dr: int,
    att: Color,
    diagonal: bool,
) -> bool
    decreases steps_left(f, r, df, dr),
{
    let nf = f + df;
    let nr = r + dr;
    if !(unit(df) && unit(dr) && (df != 0 || dr != 0)) || !on_board(nf, nr) {
        false
    } else {
        match at(b, nf, nr) {
            Some(p) => p.color == att && slides(p.kind, diagonal),
            None => if steps_left(nf, nr, df, dr) < steps_left(f, r, df, dr) {
                ray_attacks(b, nf, nr, df, dr, att, diagonal)
            } else {
                false
            },
        }
    }
}

pub open spec fn pawn_attack(b: Seq<Option<Piece>>, f: int, r: int, att: Color) -> bool {
    holds(b, f - 1, r - pawn_dir(att), PieceKind::Pawn, att) || holds(
        b,
        f + 1,
        r - pawn_dir(att),
        PieceKind::Pawn,
        att,
    )
}

pub open spec fn knight_hit(b: Seq<Option<Piece>>, f: int, r: int, att: Color, i: int) -> bool {
    holds(b, f + knight_df(i), r + knight_dr(i), PieceKind::Knight, att)
}

pub open spec fn king_hit(b: Seq<Option<Piece>>, f: int, r: int, att: Color, df: int, dr: int) -> bool {
    unit(df) && unit(dr) && !(df == 0 && dr == 0) && holds(b, f + df, r + dr, PieceKind::King, att)
}

pub open spec fn slider_hit(b: Seq<Option<Piece>>, f: int, r: int, att: Color, i: int) -> bool {
    ray_attacks(b, f, r, dir_df(i), dir_dr(i), att, i < 4)
}

/// Whether a piece of `att` attacks the square `(f, r)` on board `b`: a
/// pawn diagonally behind it (from `att`'s side), a knight a knight's move
/// away, an adjacent king, or a slider with a clear line to it.
pub open spec fn attacked(b: Seq<Option<Piece>>, f: int, r: int, att: Color) -> bool {
    ||| pawn_attack(b, f, r, att)
    ||| exists|i: int| 0 <= i < 8 && #[trigger] knight_hit(b, f, r, att, i)
    ||| exists|df: int, dr: int| #[trigger] king_hit(b, f, r, att, df, dr)
    ||| exists|i: int| 0 <= i < 8 && #[trigger] slider_hit(b, f, r, att, i)
}

/// The board square `(f, r)`, for coordinates known to be on the board.
fn piece_on(b: &[Option<Piece>; 64], f: i8, r: i8) -> (p: Option<Piece>)
    requires
        on_board(f as int, r as int),
    ensures
        p == at(b@, f as int, r as int),
{
    b[(r as usize) * 8 + (f as usize)]
}

fn holds_exec(b: &[Option<Piece>; 64], f: i8, r: i8, kind: PieceKind, color: Color) -> (res: bool)
    requires
        -3 <= f <= 10,
        -3 <= r <= 10,
    ensures
        res == holds(b@, f as int, r as int, kind, color),
{
    if 0 <= f && f < 8 && 0 <= r && r < 8 {
        match piece_on(b, f, r) {
            Some(p) => p.kind == kind && p.color == color,
            None => false,
        }
    } else {
        false
    }
}

fn knight_step(i: usize) -> (d: (i8, i8))
    requires
        i < 8,
    ensures
        d.0 as int == knight_df(i as int),
        d.1 as int == knight_dr(i as int),
{
    if i == 0 {
        (1, 2)
    } else if i == 1 {
        (2, 1)
    } else if i == 2 {
        (-1, 2)
    } else if i == 3 {
        (-2, 1)
    } else if i == 4 {
        (1, -2)
    } else if i == 5 {
        (2, -1)
    } else if i == 6 {
        (-1, -2)
    } else {
        (-2, -1)
    }
}

fn direction(i: usize) -> (d: (i8, i8))
    requires
        i < 8,
    ensures
        d.0 as int == dir_df(i as int),
        d.1 as int == dir_dr(i as int),
{
    if i == 0 {
        (1, 1)
    } else if i == 1 {
        (1, -1)
    } else if i == 2 {
        (-1, 1)
    } else if i == 3 {
        (-1, -1)
    } else if i == 4 {
        (1, 0)
    } else if i == 5 {
        (-1, 0)
    } else if i == 6 {
        (0, 1)
    } else {
        (0, -1)
    }
}

/// Whether the first piece met walking from `(f, r)` along `(df, dr)`
/// belongs to `att` and slides along that line.
fn ray_exec(b: &[Option<Piece>; 64], f: i8, r: i8, df: i8, dr: i8, att: Color, diagonal: bool) -> (res:
    bool)
    requires
        on_board(f as int, r as int),
        unit(df as int),
        unit(dr as int),
        df != 0 || dr != 0,
    ensures
        res == ray_attacks(b@, f as int, r as int, df as int, dr as int, att, diagonal),
{
    let mut cf = f;
    let mut cr = r;
    loop
        invariant
            on_board(cf as int, cr as int),
            unit(df as int),
            unit(dr as int),
            df != 0 || dr != 0,
            ray_attacks(b@, f as int, r as int, df as int, dr as int, att, diagonal)
                == ray_attacks(b@, cf as int, cr as int, df as int, dr as int, att, diagonal),
        decreases steps_left(cf as int, cr as int, df as int, dr as int),
    {
        let nf = cf + df;
        let nr = cr + dr;
        if !(0 <= nf && nf < 8 && 0 <= nr && nr < 8) {
            return false;
        }
        match piece_on(b, nf, nr) {
            Some(p) => {
                let slides_this_way = if diagonal {
                    match p.kind {
                        PieceKind::Bishop | PieceKind::Queen => true,
                        _ => false,
                    }
                } else {
                    match p.kind {
                        PieceKind::Rook | PieceKind::Queen => true,
                        _ => false,
                    }
                };
                return p.color == att && slides_this_way;
            },
            None => {
                cf = nf;
                cr = nr;
            },
        }
    }
}

/// Whether `(f, r)` is attacked by any piece of `att` on `b`.
pub fn square_attacked_by(b: &[Option<Piece>; 64], f: i8, r: i8, att: Color) -> (res: bool)
    requires
        on_board(f as int, r as int),
    ensures
        res == attacked(b@, f as int, r as int, att),
{
    // Pawns attack diagonally forward, so look one rank behind the square
    // from the attacker's point of view.
    let pawn_dir: i8 = match att {
        Color::White => 1,
        Color::Black => -1,
    };
    if holds_exec(b, f - 1, r - pawn_dir, PieceKind::Pawn, att) || holds_exec(
        b,
        f + 1,
        r - pawn_dir,
        PieceKind::Pawn,
        att,
    ) {
        return true;
    }
    let mut i: usize = 0;
    while i < 8
        invariant
            i <= 8,
            on_board(f as int, r as int),
            forall|j: int| 0 <= j < i ==> !knight_hit(b@, f as int, r as int, att, j),
        decreases 8 - i,
    {
        let (df, dr) = knight_step(i);
        if holds_exec(b, f + df, r + dr, PieceKind::Knight, att) {
            assert(knight_hit(b@, f as int, r as int, att, i as int));
            return true;
        }
        i += 1;
    }
    let mut df: i8 = -1;
    while df <= 1
        invariant
            -1 <= df <= 2,
            on_board(f as int, r as int),
            forall|x: int, y: int| -1 <= x < df && -1 <= y <= 1 ==> !#[trigger] king_hit(b@, f as int, r as int, att, x, y),
        decreases 2 - df,
    {
        let mut dr: i8 = -1;
        while dr <= 1
            invariant
                -1 <= df <= 1,
                -1 <= dr <= 2,
                on_board(f as int, r as int),
                forall|x: int, y: int| -1 <= x < df && -1 <= y <= 1 ==> !#[trigger] king_hit(b@, f as int, r as int, att, x, y),
                forall|y: int| -1 <= y < dr ==> !#[trigger] king_hit(b@, f as int, r as int, att, df as int, y),
            decreases 2 - dr,
        {
            if !(df == 0 && dr == 0) && holds_exec(b, f + df, r + dr, PieceKind::King, att) {
                assert(king_hit(b@, f as int, r as int, att, df as int, dr as int));
                return true;
            }
            dr += 1;
        }
        df += 1;
    }
    assert forall|x: int, y: int| !#[trigger] king_hit(b@, f as int, r as int, att, x, y) by {
        if unit(x) && unit(y) {
        }
    }
    let mut i: usize = 0;
    while i < 8
        invariant
            i <= 8,
            on_board(f as int, r as int),
            forall|j: int| 0 <= j < i ==> !slider_hit(b@, f as int, r as int, att, j),
        decreases 8 - i,
    {
        let (df, dr) = direction(i);
        if ray_exec(b, f, r, df, dr, att, i < 4) {
            assert(slider_hit(b@, f as int, r as int, att, i as int));
            return true;
        }
        i += 1;
    }
    false
}

/// Squares strictly between `(f, r)` and `(tf, tr)`, walking one step at a
/// time toward the target, are all empty.
pub open spec fn clear_between(b: Seq<Option<Piece>>, f: int, r: int, tf: int, tr: int) -> bool
    decreases abs_int(tf - f) + abs_int(tr - r),
{
    let nf = f + sgn(tf - f);
    let nr = r + sgn(tr - r);
    if f == tf && r == tr {
        true
    } else if nf == tf && nr == tr {
        true
    } else {
        at(b, nf, nr) is None && clear_between(b, nf, nr, tf, tr)
    }
}

pub open spec fn abs_int(x: int) -> int {
    if x < 0 {
        -x
    } else {
        x
    }
}

pub open spec fn sgn(x: int) -> int {
    if x > 0 {
        1
    } else if x < 0 {
        -1
    } else {
        0
    }
}

/// Two distinct squares on one rank, file or diagonal.
pub open spec fn on_line(f: int, r: int, tf: int, tr: int) -> bool {
    (f != tf || r != tr) && (f == tf || r == tr || abs_int(tf - f) == abs_int(tr - r))
}

fn sgn_i8(x: i8) -> (s: i8)
    ensures
        s as int == sgn(x as int),
{
    if x > 0 {
        1
    } else if x < 0 {
        -1
    } else {
        0
    }
}

/// Whether every square strictly between `(f, r)` and `(tf, tr)` is empty;
/// the two squares must lie on one line.
pub fn path_clear(b: &[Option<Piece>; 64], f: i8, r: i8, tf: i8, tr: i8) -> (res: bool)
    requires
        on_board(f as int, r as int),
        on_board(tf as int, tr as int),
        on_line(f as int, r as int, tf as int, tr as int),
    ensures
        res == clear_between(b@, f as int, r as int, tf as int, tr as int),
{
    let sf = sgn_i8(tf - f);
    let sr = sgn_i8(tr - r);
    let mut cf = f;
    let mut cr = r;
    loop
        invariant
            on_board(cf as int, cr as int),
            on_board(tf as int, tr as int),
            on_line(cf as int, cr as int, tf as int, tr as int),
            sf as int == sgn(tf - cf),
            sr as int == sgn(tr - cr),
            clear_between(b@, f as int, r as int, tf as int, tr as int) == clear_between(
                b@,
                cf as int,
                cr as int,
                tf as int,
                tr as int,
            ),
        decreases abs_int(tf - cf) + abs_int(tr - cr),
    {
        let nf = cf + sf;
        let nr = cr + sr;
        if nf == tf && nr == tr {
            return true;
        }
        if piece_on(b, nf, nr).is_some() {
            return false;
        }
        cf = nf;
        cr = nr;
    }
}

// ----- laws -----

/// A pawn attacks the two squares diagonally in front of it, in the
/// direction it advances: toward higher ranks for White, lower for Black.
pub proof fn lemma_pawn_attacks_forward(b: Seq<Option<Piece>>, f: int, r: int, c: Color)
    requires
        holds(b, f, r, PieceKind::Pawn, c),
    ensures
        ({
            let d: int = if c == Color::White {
                1
            } else {
                -1
            };
            &&& attacked(b, f - 1, r + d, c)
            &&& attacked(b, f + 1, r + d, c)
        }),
{
}

/// With nothing on the board but pieces that slide neither way, no ray
/// from any square meets an attacking slider.
proof fn lemma_no_slider_ray(
    b: Seq<Option<Piece>>,
    f: int,
    r: int,
    df: int,
    dr: int,
    att: Color,
    diagonal: bool,
)
    requires
        b.len() == 64,
        forall|i: int| 0 <= i < 64 && (#[trigger] b[i]) is Some ==> b[i]->0.kind == PieceKind::Pawn,
    ensures
        !ray_attacks(b, f, r, df, dr, att, diagonal),
    decreases steps_left(f, r, df, dr),
{
    let nf = f + df;
    let nr = r + dr;
    if unit(df) && unit(dr) && (df != 0 || dr != 0) && on_board(nf, nr) {
        assert(0 <= nr * 8 + nf < 64);
        if at(b, nf, nr) is None && steps_left(nf, nr, df, dr) < steps_left(f, r, df, dr) {
            lemma_no_slider_ray(b, nf, nr, df, dr, att, diagonal);
        }
    }
}

/// On a board that holds a single pawn, the squares it attacks are exactly
/// the two diagonally in front of it (toward higher ranks for White, lower
/// for Black): never a square beside or behind it.
pub proof fn lemma_lone_pawn_attacks(b: Seq<Option<Piece>>, f: int, r: int, c: Color, tf: int, tr: int)
    requires
        b.len() == 64,
        on_board(f, r),
        at(b, f, r) == Some(Piece { kind: PieceKind::Pawn, color: c }),
        forall|i: int| 0 <= i < 64 && i != r * 8 + f ==> (#[trigger] b[i]) is None,
        on_board(tf, tr),
    ensures
        attacked(b, tf, tr, c) <==> ({
            let d: int = if c == Color::White {
                1
            } else {
                -1
            };
            tr == r + d && (tf == f - 1 || tf == f + 1)
        }),
{
    assert forall|i: int| 0 <= i < 64 && (#[trigger] b[i]) is Some implies b[i]->0.kind
        == PieceKind::Pawn by {
        if i != r * 8 + f {
            assert(b[i] is None);
        }
    }
    assert forall|x: int, y: int, k: PieceKind| #[trigger] holds(b, x, y, k, c) implies x == f && y == r
        && k == PieceKind::Pawn by {
        assert(0 <= y * 8 + x < 64);
        if y * 8 + x != r * 8 + f {
            assert(b[y * 8 + x] is None);
        } else {
            assert(x == f && y == r) by (nonlinear_arith)
                requires
                    y * 8 + x == r * 8 + f,
                    0 <= x < 8,
                    0 <= f < 8,
            ;
        }
    }
    assert forall|i: int| 0 <= i < 8 implies !#[trigger] knight_hit(b, tf, tr, c, i) by {
        if holds(b, tf + knight_df(i), tr + knight_dr(i), PieceKind::Knight, c) {
        }
    }
    assert forall|df: int, dr: int| !#[trigger] king_hit(b, tf, tr, c, df, dr) by {
        if holds(b, tf + df, tr + dr, PieceKind::King, c) {
        }
    }
    assert forall|i: int| 0 <= i < 8 implies !#[trigger] slider_hit(b, tf, tr, c, i) by {
        lemma_no_slider_ray(b, tf, tr, dir_df(i), dir_dr(i), c, i < 4);
    }
    if tr == r + pawn_dir(c) && tf == f - 1 {
        assert(holds(b, tf + 1, tr - pawn_dir(c), PieceKind::Pawn, c));
    }
    if tr == r + pawn_dir(c) && tf == f + 1 {
        assert(holds(b, tf - 1, tr - pawn_dir(c), PieceKind::Pawn, c));
    }
}

} // verus!
