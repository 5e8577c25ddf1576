use vstd::prelude::*;
use super::board::{Board, BoardView};
use super::evaluator::{evaluate_board, lemma_score_bounds, score, value_limit};
use super::piece::Piece;
use super::types::{Color, PieceType, Position};
use super::utils::{choose_kind, random_below};

verus! {

/// The kinds that a generated army is drawn from besides its king.
pub open spec fn pool_kinds() -> Seq<PieceType> {
    seq![
        PieceType::Queen,
        PieceType::Rook,
        PieceType::Bishop,
        PieceType::Knight,
        PieceType::Pawn,
    ]
}

/// How many pieces a side gets: as many as asked for, and its king in any
/// case.
pub open spec fn army_size(asked: int) -> int {
    if asked >= 1 {
        asked
    } else {
        1
    }
}

/// The colour of the piece placed as number `i`: the white king, the black
/// king, the rest of White's army, then the rest of Black's.
pub open spec fn army_color(i: int, num_white: int) -> Color {
    if i == 0 {
        Color::White
    } else if i == 1 {
        Color::Black
    } else if i < 1 + army_size(num_white) {
        Color::White
    } else {
        Color::Black
    }
}

/// The pieces stand in the order of a generated board: the two kings first,
/// then pieces of the pool, in the colours that `army_color` gives.
pub open spec fn armies_in_order(pieces: Seq<Piece>, num_white: int) -> bool {
    forall|i: int|
        0 <= i < pieces.len() ==> {
            &&& (#[trigger] pieces[i]).color == army_color(i, num_white)
            &&& (i < 2 ==> pieces[i].kind == PieceType::King)
            &&& (i >= 2 ==> pool_kinds().contains(pieces[i].kind))
        }
}

/// The identifiers count up from 1 in the order of placement.
pub open spec fn ids_from_one(pieces: Seq<Piece>) -> bool {
    forall|i: int| 0 <= i < pieces.len() ==> (#[trigger] pieces[i]).id == i + 1
}

/// `holes` lists each hole of the board once, there are at most `asked` of
/// them, and fewer only where the whole grid is holes.
pub open spec fn holes_are(b: BoardView, holes: Seq<Position>, asked: int) -> bool {
    &&& holes.no_duplicates()
    &&& holes.len() <= asked
    &&& forall|pos: Position| #[trigger]
        b.in_bounds(pos) ==> (holes.contains(pos) <==> !b.accessible(pos))
    &&& forall|i: int| 0 <= i < holes.len() ==> b.in_bounds(#[trigger] holes[i])
    &&& (holes.len() < asked ==> forall|pos: Position| !#[trigger] b.accessible(pos))
}

/// What holds of every generated board: the size asked for; as many holes as
/// asked for, unless the grid has fewer cells; no piece on a hole; the white
/// king placed first, the black king second, then White's and Black's other
/// pieces, each of a kind of the pool; identifiers that count up from 1 in
/// that order; and as many pieces as asked for, unless no free cell (or no
/// identifier) was left for the next one.
pub open spec fn is_generated(
    b: BoardView,
    width: int,
    height: int,
    num_white: int,
    num_black: int,
    num_blocked: int,
) -> bool {
    &&& b.wf()
    &&& b.well_placed()
    &&& b.width == width
    &&& b.height == height
    &&& b.next_id == b.pieces.len() + 1
    &&& ids_from_one(b.pieces)
    &&& exists|holes: Seq<Position>| holes_are(b, holes, num_blocked)
    &&& armies_in_order(b.pieces, num_white)
    &&& b.pieces.len() <= army_size(num_white) + army_size(num_black)
    &&& (b.pieces.len() < army_size(num_white) + army_size(num_black) ==> b.next_id == u32::MAX
        || forall|pos: Position| !#[trigger] b.free(pos))
}

/// The holes of a board are those of its grid, whatever stands on it.
pub proof fn lemma_holes_carry(a: BoardView, b: BoardView, holes: Seq<Position>, asked: int)
    requires
        holes_are(a, holes, asked),
        a.width == b.width,
        a.height == b.height,
        a.tiles == b.tiles,
    ensures
        holes_are(b, holes, asked),
{
    assert forall|pos: Position| #[trigger] b.in_bounds(pos) implies (holes.contains(pos)
        <==> !b.accessible(pos)) by {
        assert(a.in_bounds(pos));
    }
    assert forall|i: int| 0 <= i < holes.len() implies b.in_bounds(#[trigger] holes[i]) by {
        assert(a.in_bounds(holes[i]));
    }
    if holes.len() < asked {
        assert forall|pos: Position| !#[trigger] b.accessible(pos) by {
            assert(!a.accessible(pos));
        }
    }
}

/// The cell `a` comes before the cell `b` when the grid is read column by
/// column.
pub open spec fn comes_before(a: Position, b: Position) -> bool {
    a.0 < b.0 || (a.0 == b.0 && a.1 < b.1)
}

/// The cells of the board that can be entered, each once and column by
/// column; with `free_only`, those of them on which nothing stands.
pub fn open_cells(board: &Board, free_only: bool) -> (cells: Vec<Position>)
    requires
        board.wf(),
    ensures
        forall|i: int|
            0 <= i < cells@.len() ==> board@.accessible(#[trigger] cells@[i]) && (free_only
                ==> board@.free(cells@[i])),
        forall|pos: Position|
            board@.accessible(pos) && (free_only ==> board@.free(pos)) ==> cells@.contains(pos),
        forall|i: int, j: int|
            #![trigger cells@[i], cells@[j]]
            0 <= i < j < cells@.len() ==> comes_before(cells@[i], cells@[j]),
{
    let mut cells: Vec<Position> = Vec::new();
    let mut x: usize = 0;
    while x < board.width
        invariant
            board.wf(),
            x <= board.width,
            forall|i: int|
                0 <= i < cells@.len() ==> board@.accessible(#[trigger] cells@[i]) && (free_only
                    ==> board@.free(cells@[i])),
            forall|pos: Position|
                pos.0 < x && board@.accessible(pos) && (free_only ==> board@.free(pos))
                    ==> cells@.contains(pos),
            forall|i: int| 0 <= i < cells@.len() ==> (#[trigger] cells@[i]).0 < x,
            forall|i: int, j: int|
                #![trigger cells@[i], cells@[j]]
                0 <= i < j < cells@.len() ==> comes_before(cells@[i], cells@[j]),
        decreases board.width - x,
    {
        let mut y: usize = 0;
        while y < board.height
            invariant
                board.wf(),
                x < board.width,
                y <= board.height,
                forall|i: int|
                    0 <= i < cells@.len() ==> board@.accessible(#[trigger] cells@[i]) && (free_only
                        ==> board@.free(cells@[i])),
                forall|pos: Position|
                    (pos.0 < x || (pos.0 == x && pos.1 < y)) && board@.accessible(pos) && (free_only
                        ==> board@.free(pos)) ==> cells@.contains(pos),
                forall|i: int|
                    0 <= i < cells@.len() ==> comes_before(#[trigger] cells@[i], (x, y)),
                forall|i: int, j: int|
                    #![trigger cells@[i], cells@[j]]
                    0 <= i < j < cells@.len() ==> comes_before(cells@[i], cells@[j]),
            decreases board.height - y,
        {
            let wanted = if free_only {
                board.is_tile_free((x, y))
            } else {
                board.is_tile_accessible((x, y))
            };
            let ghost before = cells@;
            if wanted {
                cells.push((x, y));
                assert(cells@[cells@.len() - 1] == (x, y));
            }
            proof {
                assert forall|pos: Position|
                    (pos.0 < x || (pos.0 == x && pos.1 < y + 1)) && board@.accessible(pos) && (
                    free_only ==> board@.free(pos)) implies cells@.contains(pos) by {
                    if pos.0 == x && pos.1 == y {
                        assert(pos == (x, y));
                    } else {
                        assert(before.contains(pos));
                        let i = before.index_of(pos);
                        assert(cells@[i] == pos);
                    }
                }
            }
            y += 1;
        }
        x += 1;
    }
    cells
}

/// Places a piece of the given kind and colour on a free cell drawn at
/// random. Returns whether it was placed: it is not where no cell is free or
/// no identifier is left, and the board is then unchanged.
pub fn place_random(board: &mut Board, kind: PieceType, color: Color) -> (placed: bool)
    requires
        old(board).wf(),
    ensures
        final(board).wf(),
        placed ==> exists|pos: Position|
            old(board)@.free(pos) && #[trigger] final(board)@ == old(board)@.with_placed(
                Piece { id: 0, kind: kind, color: color, pos: pos },
            ),
        placed ==> old(board)@.next_id < u32::MAX,
        !placed ==> *final(board) == *old(board),
        !placed ==> old(board)@.next_id == u32::MAX || forall|pos: Position|
            !#[trigger] old(board)@.free(pos),
        old(board)@.well_placed() ==> final(board)@.well_placed(),
        ids_from_one(old(board)@.pieces) && old(board)@.next_id == old(board)@.pieces.len() + 1
            ==> ids_from_one(final(board)@.pieces),
{
    let cells = open_cells(board, true);
    if cells.len() == 0 || board.next_id == u32::MAX {
        proof {
            if cells@.len() == 0 {
                assert forall|pos: Position| !#[trigger] board@.free(pos) by {
                    if board@.free(pos) {
                        assert(cells@.contains(pos));
                    }
                }
            }
        }
        return false;
    }
    let pos: Position = cells[random_below(cells.len())];
    let piece = Piece { id: 0, kind: kind, color: color, pos: pos };
    board.add_piece(piece);
    proof {
        let before = old(board)@;
        if ids_from_one(before.pieces) && before.next_id == before.pieces.len() + 1 {
            assert forall|i: int| 0 <= i < board@.pieces.len() implies (
            #[trigger] board@.pieces[i]).id == i + 1 by {
                if i < before.pieces.len() {
                    assert(board@.pieces[i] == before.pieces[i]);
                }
            }
        }
    }
    true
}

/// A random board of the given size: first `num_blocked` holes on cells drawn
/// at random, then the white king, the black king, `num_white - 1` further
/// white pieces and `num_black - 1` further black pieces of kinds drawn from
/// the pool, each on a free cell drawn at random. Where the grid runs out of
/// cells the board is returned as far as it got: see [`is_generated`].
pub fn generate_random_board(
    width: usize,
    height: usize,
    num_white: usize,
    num_black: usize,
    num_blocked: usize,
) -> (board: Board)
    ensures
        is_generated(
            board@,
            width as int,
            height as int,
            num_white as int,
            num_black as int,
            num_blocked as int,
        ),
{
    let mut board = Board::new(width, height);
    let ghost mut holes: Seq<Position> = Seq::empty();
    let mut blocked_count: usize = 0;
    while blocked_count < num_blocked
        invariant_except_break
            holes.len() == blocked_count,
        invariant
            board.wf(),
            board@.width == width,
            board@.height == height,
            board@.pieces == Seq::<Piece>::empty(),
            board@.next_id == 1,
            blocked_count <= num_blocked,
            holes.no_duplicates(),
            holes.len() <= num_blocked,
            forall|pos: Position| #[trigger]
                board@.in_bounds(pos) ==> (holes.contains(pos) <==> !board@.accessible(pos)),
            forall|i: int| 0 <= i < holes.len() ==> board@.in_bounds(#[trigger] holes[i]),
        ensures
            holes_are(board@, holes, num_blocked as int),
        decreases num_blocked - blocked_count,
    {
        let cells = open_cells(&board, false);
        if cells.len() == 0 {
            proof {
                assert forall|pos: Position| !#[trigger] board@.accessible(pos) by {
                    if board@.accessible(pos) {
                        assert(cells@.contains(pos));
                    }
                }
            }
            break ;
        }
        let pos: Position = cells[random_below(cells.len())];
        let ghost before = board@;
        let ghost listed = holes;
        board.set_blocked(pos);
        blocked_count += 1;
        proof {
            holes = listed.push(pos);
            assert(before.accessible(pos));
            assert(!listed.contains(pos));
            assert forall|q: Position| #[trigger]
                board@.in_bounds(q) implies (holes.contains(q) <==> !board@.accessible(q)) by {
                assert(before.in_bounds(q));
                if q == pos {
                    assert(holes[listed.len() as int] == pos);
                } else {
                    assert(board@.accessible(q) == before.accessible(q));
                    if listed.contains(q) {
                        let i = listed.index_of(q);
                        assert(holes[i] == q);
                    }
                    if holes.contains(q) {
                        let i = holes.index_of(q);
                        assert(listed[i] == q);
                    }
                }
            }
            assert forall|i: int| 0 <= i < holes.len() implies board@.in_bounds(
                #[trigger] holes[i],
            ) by {
                if i < listed.len() {
                    assert(before.in_bounds(listed[i]));
                }
            }
        }
    }
    let ghost grid = board@;
    if !place_random(&mut board, PieceType::King, Color::White) {
        return board;
    }
    if !place_random(&mut board, PieceType::King, Color::Black) {
        proof {
            lemma_holes_carry(grid, board@, holes, num_blocked as int);
        }
        return board;
    }
    let piece_pool: Vec<PieceType> = vec![
        PieceType::Queen,
        PieceType::Rook,
        PieceType::Bishop,
        PieceType::Knight,
        PieceType::Pawn,
    ];
    assert(piece_pool@ =~= pool_kinds());
    let mut placed: usize = 1;
    while placed < num_white
        invariant
            board.wf(),
            board@.well_placed(),
            grid.width == width,
            grid.height == height,
            board@.width == grid.width,
            board@.height == grid.height,
            board@.tiles == grid.tiles,
            holes_are(grid, holes, num_blocked as int),
            board@.next_id == board@.pieces.len() + 1,
            piece_pool@ == pool_kinds(),
            1 <= placed <= army_size(num_white as int),
            board@.pieces.len() == 1 + placed,
            armies_in_order(board@.pieces, num_white as int),
            ids_from_one(board@.pieces),
        decreases num_white - placed,
    {
        let kind = match choose_kind(&piece_pool) {
            Some(k) => k,
            None => PieceType::Pawn,
        };
        let ghost before = board@;
        if !place_random(&mut board, kind, Color::White) {
            proof {
                lemma_holes_carry(grid, board@, holes, num_blocked as int);
            }
            return board;
        }
        placed += 1;
        proof {
            assert forall|i: int| 0 <= i < board@.pieces.len() implies {
                &&& (#[trigger] board@.pieces[i]).color == army_color(i, num_white as int)
                &&& (i < 2 ==> board@.pieces[i].kind == PieceType::King)
                &&& (i >= 2 ==> pool_kinds().contains(board@.pieces[i].kind))
            } by {
                if i < before.pieces.len() {
                    assert(board@.pieces[i] == before.pieces[i]);
                }
            }
        }
    }
    let mut placed: usize = 1;
    let ghost whites = army_size(num_white as int);
    while placed < num_black
        invariant
            board.wf(),
            board@.well_placed(),
            grid.width == width,
            grid.height == height,
            board@.width == grid.width,
            board@.height == grid.height,
            board@.tiles == grid.tiles,
            holes_are(grid, holes, num_blocked as int),
            board@.next_id == board@.pieces.len() + 1,
            piece_pool@ == pool_kinds(),
            whites == army_size(num_white as int),
            1 <= placed <= army_size(num_black as int),
            board@.pieces.len() == whites + placed,
            armies_in_order(board@.pieces, num_white as int),
            ids_from_one(board@.pieces),
        decreases num_black - placed,
    {
        let kind = match choose_kind(&piece_pool) {
            Some(k) => k,
            None => PieceType::Pawn,
        };
        let ghost before = board@;
        if !place_random(&mut board, kind, Color::Black) {
            proof {
                lemma_holes_carry(grid, board@, holes, num_blocked as int);
            }
            return board;
        }
        placed += 1;
        proof {
            assert forall|i: int| 0 <= i < board@.pieces.len() implies {
                &&& (#[trigger] board@.pieces[i]).color == army_color(i, num_white as int)
                &&& (i < 2 ==> board@.pieces[i].kind == PieceType::King)
                &&& (i >= 2 ==> pool_kinds().contains(board@.pieces[i].kind))
            } by {
                if i < before.pieces.len() {
                    assert(board@.pieces[i] == before.pieces[i]);
                }
            }
        }
    }
    proof {
        lemma_holes_carry(grid, board@, holes, num_blocked as int);
    }
    board
}

/// Whether the board is hard enough for White: its score is at most
/// `threshold`.
pub fn meets_difficulty(board: &Board, threshold: i64) -> (r: bool)
    requires
        board.wf(),
    ensures
        r == (score(board@) <= threshold),
{
    evaluate_board(board) <= threshold
}

/// The score that no generated board of armies of the given sizes exceeds
/// either way: the most that a piece can be worth, for every piece.
pub open spec fn score_ceiling(num_white: int, num_black: int) -> int {
    value_limit() * (army_size(num_white) + army_size(num_black))
}

/// Every generated board meets the threshold, whatever is drawn.
pub open spec fn always_hard_enough(
    width: int,
    height: int,
    num_white: int,
    num_black: int,
    num_blocked: int,
    threshold: int,
) -> bool {
    forall|b: BoardView| #[trigger]
        is_generated(b, width, height, num_white, num_black, num_blocked) ==> score(b)
            <= threshold
}

/// The score of a generated board lies within the ceiling of its armies.
pub proof fn lemma_generated_score_bound(
    b: BoardView,
    width: int,
    height: int,
    num_white: int,
    num_black: int,
    num_blocked: int,
)
    requires
        is_generated(b, width, height, num_white, num_black, num_blocked),
    ensures
        -score_ceiling(num_white, num_black) <= score(b) <= score_ceiling(num_white, num_black),
{
    let n = b.pieces.len() as int;
    let most = army_size(num_white) + army_size(num_black);
    let v = value_limit();
    lemma_score_bounds(b, n);
    assert(v * n <= v * most && -v * n >= -(v * most)) by (nonlinear_arith)
        requires
            0 <= n <= most,
            v >= 0,
    ;
}

/// A threshold at or above the ceiling is met by every generated board.
pub proof fn lemma_ceiling_is_always_hard_enough(
    width: int,
    height: int,
    num_white: int,
    num_black: int,
    num_blocked: int,
    threshold: int,
)
    requires
        threshold >= score_ceiling(num_white, num_black),
    ensures
        always_hard_enough(width, height, num_white, num_black, num_blocked, threshold),
{
    assert forall|b: BoardView| #[trigger]
        is_generated(b, width, height, num_white, num_black, num_blocked) implies score(b)
        <= threshold by {
        lemma_generated_score_bound(b, width, height, num_white, num_black, num_blocked);
    }
}

/// Generates random boards until one has a score of at most `threshold`, and
/// returns the first that has; `None` if none of `attempts` boards had. A
/// board is returned whenever at least one is tried and the threshold is one
/// that every generated board meets, as a threshold at or above
/// [`score_ceiling`] is; below that the draws decide.
pub fn generate_by_difficulty(
    width: usize,
    height: usize,
    num_white: usize,
    num_black: usize,
    num_blocked: usize,
    threshold: i64,
    attempts: usize,
) -> (r: Option<Board>)
    ensures
        match r {
            Some(board) => {
                &&& is_generated(
                    board@,
                    width as int,
                    height as int,
                    num_white as int,
                    num_black as int,
                    num_blocked as int,
                )
                &&& score(board@) <= threshold
            },
            None => true,
        },
        attempts == 0 ==> r.is_none(),
        attempts > 0 && always_hard_enough(
            width as int,
            height as int,
            num_white as int,
            num_black as int,
            num_blocked as int,
            threshold as int,
        ) ==> r.is_some(),
        attempts > 0 && threshold >= score_ceiling(num_white as int, num_black as int)
            ==> r.is_some(),
{
    let mut tried: usize = 0;
    while tried < attempts
        invariant
            tried <= attempts,
            tried > 0 ==> !always_hard_enough(
                width as int,
                height as int,
                num_white as int,
                num_black as int,
                num_blocked as int,
                threshold as int,
            ),
        decreases attempts - tried,
    {
        let board = generate_random_board(width, height, num_white, num_black, num_blocked);
        if meets_difficulty(&board, threshold) {
            return Some(board);
        }
        assert(is_generated(
            board@,
            width as int,
            height as int,
            num_white as int,
            num_black as int,
            num_blocked as int,
        ) && score(board@) > threshold);
        tried += 1;
    }
    proof {
        if attempts > 0 && threshold >= score_ceiling(num_white as int, num_black as int) {
            lemma_ceiling_is_always_hard_enough(
                width as int,
                height as int,
                num_white as int,
                num_black as int,
                num_blocked as int,
                threshold as int,
            );
        }
    }
    None
}

} // verus!
