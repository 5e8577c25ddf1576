use vstd::prelude::*;
use super::board::{Board, BoardView};
use super::piece::Piece;
use super::types::{Color, PieceType, Position};

verus! {

/// The material value of a kind.
pub open spec fn material(kind: PieceType) -> int {
    match kind {
        PieceType::King => 0,
        PieceType::Queen => 9,
        PieceType::Rook => 5,
        PieceType::Bishop => 3,
        PieceType::Knight => 3,
        PieceType::Pawn => 1,
        PieceType::Custom(v) => v as int,
    }
}

/// The distance between two coordinates.
pub open spec fn gap(a: int, b: int) -> int {
    if a >= b {
        a - b
    } else {
        b - a
    }
}

/// The bonus for standing in the centre: 1 less the distance to the cell
/// `(width / 2, height / 2)` counted in steps along rows and columns, and
/// never below 0.
pub open spec fn center_bonus(b: BoardView, pos: Position) -> int {
    let away = gap(pos.0 as int, b.width / 2) + gap(pos.1 as int, b.height / 2);
    if 1 - away > 0 {
        1 - away
    } else {
        0
    }
}

/// The cell lies in the first or last column or row.
pub open spec fn on_edge(b: BoardView, pos: Position) -> bool {
    pos.0 == 0 || pos.1 == 0 || pos.0 == b.width - 1 || pos.1 == b.height - 1
}

/// What a king gains by where it stands: 1 on an edge, -1 elsewhere. Other
/// kinds gain nothing.
pub open spec fn king_bonus(b: BoardView, piece: Piece) -> int {
    if piece.kind == PieceType::King {
        if on_edge(b, piece.pos) {
            1
        } else {
            -1
        }
    } else {
        0
    }
}

/// The worth of a piece to its owner.
pub open spec fn piece_value(b: BoardView, piece: Piece) -> int {
    material(piece.kind) + center_bonus(b, piece.pos) + king_bonus(b, piece)
}

/// The worth of a piece to White: counted for a white piece, against for a
/// black one.
pub open spec fn signed_value(b: BoardView, piece: Piece) -> int {
    match piece.color {
        Color::White => piece_value(b, piece),
        Color::Black => -piece_value(b, piece),
    }
}

/// The sum of the signed values of the first `n` pieces.
pub open spec fn score_upto(b: BoardView, n: int) -> int
    decreases n,
{
    if n <= 0 {
        0
    } else {
        score_upto(b, n - 1) + signed_value(b, b.pieces[n - 1])
    }
}

/// The static score of a board: the sum of the signed values of its pieces.
/// Positive favours White.
pub open spec fn score(b: BoardView) -> int {
    score_upto(b, b.pieces.len() as int)
}

/// The most that a single piece can be worth either way.
pub open spec fn value_limit() -> int {
    257
}

/// The board on which every piece has changed sides and nothing else.
pub open spec fn colors_swapped(b: BoardView) -> BoardView {
    b.with_pieces(
        Seq::new(
            b.pieces.len(),
            |i: int|
                Piece {
                    id: b.pieces[i].id,
                    kind: b.pieces[i].kind,
                    color: b.pieces[i].color.other(),
                    pos: b.pieces[i].pos,
                },
        ),
    )
}

/// A piece is worth at most `value_limit()` either way, so the score of the
/// first `n` pieces lies within `n` times that.
pub proof fn lemma_score_bounds(b: BoardView, n: int)
    requires
        0 <= n <= b.pieces.len(),
    ensures
        -value_limit() * n <= score_upto(b, n) <= value_limit() * n,
    decreases n,
{
    if n > 0 {
        lemma_score_bounds(b, n - 1);
        assert(-value_limit() * (n - 1) - value_limit() == -value_limit() * n) by (nonlinear_arith);
        assert(value_limit() * (n - 1) + value_limit() == value_limit() * n) by (nonlinear_arith);
    }
}

/// The score of a valid board fits well within 64 bits.
pub proof fn lemma_score_range(b: BoardView)
    requires
        b.wf(),
    ensures
        -value_limit() * 0x1_0000_0000 <= score(b) <= value_limit() * 0x1_0000_0000,
{
    let n = b.pieces.len() as int;
    lemma_score_bounds(b, n);
    if n > 0 {
        b.lemma_population_bound(0);
    }
    assert(value_limit() * n <= value_limit() * 0x1_0000_0000) by (nonlinear_arith)
        requires
            0 <= n <= 0x1_0000_0000,
    ;
    assert(-value_limit() * n >= -value_limit() * 0x1_0000_0000) by (nonlinear_arith)
        requires
            0 <= n <= 0x1_0000_0000,
    ;
}

proof fn lemma_swap_negates_upto(b: BoardView, n: int)
    requires
        0 <= n <= b.pieces.len(),
    ensures
        score_upto(colors_swapped(b), n) == -score_upto(b, n),
    decreases n,
{
    if n > 0 {
        lemma_swap_negates_upto(b, n - 1);
    }
}

/// The score is anti-symmetric: when every piece changes sides and stays
/// where it stands, the score changes its sign.
pub proof fn lemma_score_antisymmetric(b: BoardView)
    ensures
        score(colors_swapped(b)) == -score(b),
{
    lemma_swap_negates_upto(b, b.pieces.len() as int);
}

/// The distance between two coordinates.
fn distance(a: usize, b: usize) -> (r: usize)
    ensures
        r == gap(a as int, b as int),
{
    if a >= b {
        a - b
    } else {
        b - a
    }
}

/// The material value of a kind: king 0, queen 9, rook 5, bishop 3, knight 3,
/// pawn 1, and for a custom kind the value that it carries.
pub fn material_value(kind: PieceType) -> (r: i64)
    ensures
        r == material(kind),
        0 <= r <= 255,
{
    match kind {
        PieceType::King => 0,
        PieceType::Queen => 9,
        PieceType::Rook => 5,
        PieceType::Bishop => 3,
        PieceType::Knight => 3,
        PieceType::Pawn => 1,
        PieceType::Custom(v) => v as i64,
    }
}

/// The bonus for standing in the centre: 1 on the cell
/// `(width / 2, height / 2)` and 0 on every other.
pub fn positional_bonus(board: &Board, pos: Position) -> (r: i64)
    ensures
        r == center_bonus(board@, pos),
        0 <= r <= 1,
{
    let dist_x: usize = distance(pos.0, board.width / 2);
    let dist_y: usize = distance(pos.1, board.height / 2);
    if dist_x == 0 && dist_y == 0 {
        1
    } else {
        0
    }
}

/// What a king gains by where it stands: 1 on an edge of the board, -1
/// elsewhere; 0 for every other kind.
pub fn king_safety_bonus(board: &Board, piece: &Piece) -> (r: i64)
    ensures
        r == king_bonus(board@, *piece),
        -1 <= r <= 1,
{
    match piece.kind {
        PieceType::King => {
            let near_edge = piece.pos.0 == 0 || piece.pos.1 == 0 || (board.width > 0 && piece.pos.0
                == board.width - 1) || (board.height > 0 && piece.pos.1 == board.height - 1);
            if near_edge {
                1
            } else {
                -1
            }
        },
        _ => 0,
    }
}

/// The worth of one piece of the board to White: its material value and its
/// two bonuses, counted for a white piece and against for a black one.
pub fn evaluate_piece(board: &Board, piece: &Piece) -> (r: i64)
    ensures
        r == signed_value(board@, *piece),
        -value_limit() <= r <= value_limit(),
{
    let total_value: i64 = material_value(piece.kind) + positional_bonus(board, piece.pos)
        + king_safety_bonus(board, piece);
    match piece.color {
        Color::White => total_value,
        Color::Black => -total_value,
    }
}

/// The static score of the board: for each piece its material value, plus 1
/// on the central cell, plus for a king 1 on an edge and -1 elsewhere; added
/// for White and subtracted for Black.
pub fn evaluate_board(board: &Board) -> (r: i64)
    requires
        board.wf(),
    ensures
        r == score(board@),
{
    let mut total: i64 = 0;
    let mut i: usize = 0;
    proof {
        if board@.pieces.len() > 0 {
            board@.lemma_population_bound(0);
        }
    }
    while i < board.pieces.len()
        invariant
            board.wf(),
            i <= board.pieces@.len() <= 0x1_0000_0000,
            total == score_upto(board@, i as int),
        decreases board.pieces@.len() - i,
    {
        proof {
            lemma_score_bounds(board@, i as int);
            assert(value_limit() * i <= value_limit() * 0x1_0000_0000) by (nonlinear_arith)
                requires
                    0 <= i <= 0x1_0000_0000,
            ;
            assert(-value_limit() * i >= -value_limit() * 0x1_0000_0000) by (nonlinear_arith)
                requires
                    0 <= i <= 0x1_0000_0000,
            ;
        }
        let value: i64 = evaluate_piece(board, &board.pieces[i]);
        total = total + value;
        i += 1;
    }
    total
}

} // verus!
