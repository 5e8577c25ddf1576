use vstd::prelude::*;
use super::board::{Board, BoardView};
use super::piece::Piece;
use super::types::{Color, PieceType, Position};

verus! {

/// A step on the grid: the change of the column, then of the row.
pub type Step = (i8, i8);

/// The coordinate `p` moved by `d`, where that is a coordinate.
pub open spec fn shifted(p: usize, d: int) -> Option<usize> {
    if 0 <= p + d <= usize::MAX {
        Some((p + d) as usize)
    } else {
        None
    }
}

/// The cell one step `d` away from `pos`, where both coordinates exist.
pub open spec fn target(pos: Position, d: Step) -> Option<Position> {
    match (shifted(pos.0, d.0 as int), shifted(pos.1, d.1 as int)) {
        (Some(x), Some(y)) => Some((x, y)),
        _ => None,
    }
}

/// A piece of the other colour stands on the cell.
pub open spec fn holds_enemy(b: BoardView, color: Color, pos: Position) -> bool {
    match b.piece_at(pos) {
        Some(q) => q.color != color,
        None => false,
    }
}

/// A piece of `color` may end a jump on the cell: it is free, or a piece of
/// the other colour stands on it and is captured.
pub open spec fn may_land(b: BoardView, color: Color, pos: Position) -> bool {
    b.free(pos) || holds_enemy(b, color, pos)
}

/// What one jump by `d` contributes: its target, if the piece may land there.
pub open spec fn jump_target(b: BoardView, piece: Piece, d: Step) -> Seq<Position> {
    match target(piece.pos, d) {
        Some(t) => if may_land(b, piece.color, t) {
            seq![t]
        } else {
            Seq::empty()
        },
        None => Seq::empty(),
    }
}

/// The targets of the jumps `deltas`, in their order.
pub open spec fn jump_targets(b: BoardView, piece: Piece, deltas: Seq<Step>) -> Seq<Position>
    decreases deltas.len(),
{
    if deltas.len() == 0 {
        Seq::empty()
    } else {
        jump_targets(b, piece, deltas.drop_last()) + jump_target(b, piece, deltas.last())
    }
}

/// A step of one cell along a row, a column or a diagonal.
pub open spec fn unit_step(d: Step) -> bool {
    -1 <= d.0 <= 1 && -1 <= d.1 <= 1 && (d.0 != 0 || d.1 != 0)
}

/// How many cells lie between `pos` and the edge that the step `d` leads to,
/// along the first coordinate that `d` changes.
pub open spec fn room(b: BoardView, pos: Position, d: Step) -> int {
    if d.0 > 0 {
        b.width - pos.0
    } else if d.0 < 0 {
        pos.0 as int
    } else if d.1 > 0 {
        b.height - pos.1
    } else {
        pos.1 as int
    }
}

/// The cells that a sliding piece of `color` reaches from `from` along `d`:
/// the walk goes on over free cells, ends before the edge, a hole or a piece
/// of its own colour, and ends on a piece of the other colour.
pub open spec fn ray(b: BoardView, color: Color, from: Position, d: Step) -> Seq<Position>
    decreases room(b, from, d),
{
    if !unit_step(d) {
        Seq::empty()
    } else {
        match target(from, d) {
            None => Seq::empty(),
            Some(t) => if !b.accessible(t) {
                Seq::empty()
            } else if b.occupied(t) {
                if holds_enemy(b, color, t) {
                    seq![t]
                } else {
                    Seq::empty()
                }
            } else {
                seq![t] + ray(b, color, t, d)
            },
        }
    }
}

/// The cells reached along each of `dirs`, in their order.
pub open spec fn line_targets(b: BoardView, piece: Piece, dirs: Seq<Step>) -> Seq<Position>
    decreases dirs.len(),
{
    if dirs.len() == 0 {
        Seq::empty()
    } else {
        line_targets(b, piece, dirs.drop_last()) + ray(b, piece.color, piece.pos, dirs.last())
    }
}

/// The eight jumps of a knight, in the order in which they are tried.
pub open spec fn knight_steps() -> Seq<Step> {
    seq![
        (2i8, 1i8),
        (1i8, 2i8),
        (-1i8, 2i8),
        (-2i8, 1i8),
        (-2i8, -1i8),
        (-1i8, -2i8),
        (1i8, -2i8),
        (2i8, -1i8),
    ]
}

/// The eight steps of a king, in the order in which they are tried.
pub open spec fn king_steps() -> Seq<Step> {
    seq![
        (-1i8, -1i8),
        (-1i8, 0i8),
        (-1i8, 1i8),
        (0i8, -1i8),
        (0i8, 1i8),
        (1i8, -1i8),
        (1i8, 0i8),
        (1i8, 1i8),
    ]
}

/// The row direction in which a pawn of `color` advances: White towards
/// row 0, Black away from it.
pub open spec fn pawn_step(color: Color) -> int {
    match color {
        Color::White => -1,
        Color::Black => 1,
    }
}

/// The capture of a pawn on the column `dx` beside it in the row `ny`: only
/// onto a piece of the other colour.
pub open spec fn pawn_capture(b: BoardView, piece: Piece, ny: usize, dx: int) -> Seq<Position> {
    match shifted(piece.pos.0, dx) {
        Some(nx) => if nx < b.width && holds_enemy(b, piece.color, (nx, ny)) {
            seq![(nx, ny)]
        } else {
            Seq::empty()
        },
        None => Seq::empty(),
    }
}

/// The moves of a pawn: one step ahead if that cell is free, then the
/// captures on the left and on the right diagonal.
pub open spec fn pawn_targets(b: BoardView, piece: Piece) -> Seq<Position> {
    match shifted(piece.pos.1, pawn_step(piece.color)) {
        Some(ny) => if ny < b.height {
            let ahead = (piece.pos.0, ny);
            (if b.free(ahead) {
                seq![ahead]
            } else {
                Seq::empty()
            }) + pawn_capture(b, piece, ny, -1) + pawn_capture(b, piece, ny, 1)
        } else {
            Seq::empty()
        },
        None => Seq::empty(),
    }
}

/// The moves of a rook: its walks to the right, to the left, down the rows
/// and up the rows, in this order.
pub open spec fn rook_targets(b: BoardView, piece: Piece) -> Seq<Position> {
    ray(b, piece.color, piece.pos, (1i8, 0i8)) + ray(b, piece.color, piece.pos, (-1i8, 0i8)) + ray(
        b,
        piece.color,
        piece.pos,
        (0i8, 1i8),
    ) + ray(b, piece.color, piece.pos, (0i8, -1i8))
}

/// The moves of a bishop: its walks along the four diagonals.
pub open spec fn bishop_targets(b: BoardView, piece: Piece) -> Seq<Position> {
    ray(b, piece.color, piece.pos, (1i8, 1i8)) + ray(b, piece.color, piece.pos, (1i8, -1i8)) + ray(
        b,
        piece.color,
        piece.pos,
        (-1i8, 1i8),
    ) + ray(b, piece.color, piece.pos, (-1i8, -1i8))
}

/// The destinations of `piece` on the board, in the fixed order of its kind.
/// Neither the turn nor the safety of a king is looked at.
pub open spec fn legal_moves(b: BoardView, piece: Piece) -> Seq<Position> {
    match piece.kind {
        PieceType::Knight => jump_targets(b, piece, knight_steps()),
        PieceType::King => jump_targets(b, piece, king_steps()),
        PieceType::Rook => rook_targets(b, piece),
        PieceType::Bishop => bishop_targets(b, piece),
        PieceType::Queen => rook_targets(b, piece) + bishop_targets(b, piece),
        PieceType::Pawn => pawn_targets(b, piece),
        PieceType::Custom(_) => Seq::empty(),
    }
}

/// The moves of a queen are those that it would have as a rook, followed by
/// those that it would have as a bishop.
pub proof fn lemma_queen_is_rook_then_bishop(b: BoardView, piece: Piece)
    requires
        piece.kind == PieceType::Queen,
    ensures
        legal_moves(b, piece) == legal_moves(
            b,
            Piece { id: piece.id, kind: PieceType::Rook, color: piece.color, pos: piece.pos },
        ) + legal_moves(
            b,
            Piece { id: piece.id, kind: PieceType::Bishop, color: piece.color, pos: piece.pos },
        ),
{
}

/// The walks along four directions, written out.
pub proof fn lemma_four_lines(b: BoardView, piece: Piece, dirs: Seq<Step>)
    requires
        dirs.len() == 4,
    ensures
        line_targets(b, piece, dirs) == ray(b, piece.color, piece.pos, dirs[0]) + ray(
            b,
            piece.color,
            piece.pos,
            dirs[1],
        ) + ray(b, piece.color, piece.pos, dirs[2]) + ray(b, piece.color, piece.pos, dirs[3]),
{
    let three = dirs.drop_last();
    let two = three.drop_last();
    let one = two.drop_last();
    assert(line_targets(b, piece, one.drop_last()) =~= Seq::<Position>::empty());
    assert(line_targets(b, piece, one) =~= ray(b, piece.color, piece.pos, dirs[0]));
    assert(line_targets(b, piece, two) =~= line_targets(b, piece, one) + ray(
        b,
        piece.color,
        piece.pos,
        dirs[1],
    ));
    assert(line_targets(b, piece, three) =~= line_targets(b, piece, two) + ray(
        b,
        piece.color,
        piece.pos,
        dirs[2],
    ));
    assert(line_targets(b, piece, dirs) =~= line_targets(b, piece, three) + ray(
        b,
        piece.color,
        piece.pos,
        dirs[3],
    ));
}

/// A piece of `color` may land on every cell of `s`, and every one lies on
/// the grid; none is a hole if no piece of the board stands on one.
pub open spec fn sound_targets(b: BoardView, color: Color, s: Seq<Position>) -> bool {
    forall|i: int|
        0 <= i < s.len() ==> {
            &&& may_land(b, color, #[trigger] s[i])
            &&& b.in_bounds(s[i])
            &&& (b.well_placed() ==> b.accessible(s[i]))
        }
}

/// A cell on which a piece may land, or on which a piece of the other colour
/// stands, lies on the grid of a valid board.
pub proof fn lemma_landing_on_grid(b: BoardView, color: Color, pos: Position)
    requires
        b.wf(),
        may_land(b, color, pos),
    ensures
        b.in_bounds(pos),
        b.well_placed() ==> b.accessible(pos),
{
    if !b.free(pos) {
        let i = b.index_at(pos);
        assert(b.in_bounds(b.pieces[i].pos));
    }
}

/// Along a direction a sliding piece never passes a piece or a hole: each
/// cell of the walk is one step from the cell before it and can be entered,
/// every cell before it is free, and a cell on which a piece stands is the
/// last of the walk and holds a piece of the other colour.
pub proof fn lemma_ray_stops_at_first_obstacle(
    b: BoardView,
    color: Color,
    from: Position,
    d: Step,
    k: int,
)
    requires
        0 <= k < ray(b, color, from, d).len(),
    ensures
        unit_step(d),
        Some(ray(b, color, from, d)[k]) == target(
            if k == 0 {
                from
            } else {
                ray(b, color, from, d)[k - 1]
            },
            d,
        ),
        b.accessible(ray(b, color, from, d)[k]),
        forall|j: int| 0 <= j < k ==> b.free(#[trigger] ray(b, color, from, d)[j]),
        b.occupied(ray(b, color, from, d)[k]) ==> k == ray(b, color, from, d).len() - 1
            && holds_enemy(b, color, ray(b, color, from, d)[k]),
    decreases k,
{
    let t = target(from, d).unwrap();
    if !b.occupied(t) {
        let rest = ray(b, color, t, d);
        assert(ray(b, color, from, d) =~= seq![t] + rest);
        if k > 0 {
            lemma_ray_stops_at_first_obstacle(b, color, t, d, k - 1);
            assert forall|j: int| 0 <= j < k implies b.free(#[trigger] ray(b, color, from, d)[j]) by {
                if j > 0 {
                    assert(ray(b, color, from, d)[j] == rest[j - 1]);
                }
            }
        }
    }
}

/// The cell `n` steps `d` away from `from`, as a pair of numbers that may lie
/// off every grid.
pub open spec fn cell_along(from: Position, d: Step, n: int) -> (int, int) {
    (from.0 + n * d.0, from.1 + n * d.1)
}

/// The cell `n` steps `d` away from `from` is a free cell of the board.
pub open spec fn free_along(b: BoardView, from: Position, d: Step, n: int) -> bool {
    let c = cell_along(from, d, n);
    &&& 0 <= c.0 <= usize::MAX
    &&& 0 <= c.1 <= usize::MAX
    &&& b.free((c.0 as usize, c.1 as usize))
}

/// A sliding piece of `color` on `from` reaches `dest` along `d`: `dest` lies
/// `k >= 1` unit steps away, every cell between the two is free, and `dest`
/// itself can be entered and is free or holds a piece of the other colour.
pub open spec fn reaches(b: BoardView, color: Color, from: Position, d: Step, dest: Position) -> bool {
    &&& unit_step(d)
    &&& b.accessible(dest)
    &&& may_land(b, color, dest)
    &&& exists|k: int|
        {
            &&& k >= 1
            &&& #[trigger] cell_along(from, d, k) == (dest.0 as int, dest.1 as int)
            &&& forall|m: int| 1 <= m < k ==> #[trigger] free_along(b, from, d, m)
        }
}

/// The cell of a walk at index `k` lies `k + 1` steps from the start.
pub proof fn lemma_ray_cell(b: BoardView, color: Color, from: Position, d: Step, k: int)
    requires
        0 <= k < ray(b, color, from, d).len(),
    ensures
        cell_along(from, d, k + 1) == (
            ray(b, color, from, d)[k].0 as int,
            ray(b, color, from, d)[k].1 as int,
        ),
    decreases k,
{
    lemma_ray_stops_at_first_obstacle(b, color, from, d, k);
    let dx = d.0 as int;
    let dy = d.1 as int;
    assert((k + 1) * dx == k * dx + dx && (k + 1) * dy == k * dy + dy) by (nonlinear_arith);
    if k > 0 {
        lemma_ray_cell(b, color, from, d, k - 1);
    } else {
        assert(0 * dx == 0 && 0 * dy == 0);
    }
}

/// No destination of a walk lies beyond the first piece or hole on its line:
/// every cell of the walk is reached over free cells only.
pub proof fn lemma_ray_reaches(b: BoardView, color: Color, from: Position, d: Step, k: int)
    requires
        0 <= k < ray(b, color, from, d).len(),
    ensures
        reaches(b, color, from, d, ray(b, color, from, d)[k]),
{
    let r = ray(b, color, from, d);
    lemma_ray_stops_at_first_obstacle(b, color, from, d, k);
    lemma_ray_cell(b, color, from, d, k);
    assert forall|m: int| 1 <= m < k + 1 implies #[trigger] free_along(b, from, d, m) by {
        lemma_ray_cell(b, color, from, d, m - 1);
        assert(b.free(r[m - 1]));
    }
    if b.occupied(r[k]) {
        assert(holds_enemy(b, color, r[k]));
    }
    assert(cell_along(from, d, k + 1) == (r[k].0 as int, r[k].1 as int));
}

/// A walk takes every cell that it can reach: a cell `k` steps away, with
/// free cells only before it, that can be entered and is free or holds a
/// piece of the other colour, is the cell of the walk at index `k - 1`.
pub proof fn lemma_ray_covers(
    b: BoardView,
    color: Color,
    from: Position,
    d: Step,
    k: int,
    dest: Position,
)
    requires
        unit_step(d),
        k >= 1,
        cell_along(from, d, k) == (dest.0 as int, dest.1 as int),
        forall|m: int| 1 <= m < k ==> #[trigger] free_along(b, from, d, m),
        b.accessible(dest),
        may_land(b, color, dest),
    ensures
        k <= ray(b, color, from, d).len(),
        ray(b, color, from, d)[k - 1] == dest,
    decreases k,
{
    let dx = d.0 as int;
    let dy = d.1 as int;
    assert(1 * dx == dx && 1 * dy == dy);
    if k == 1 {
        assert(target(from, d) == Some(dest));
        if !b.occupied(dest) {
            assert(ray(b, color, from, d) =~= seq![dest] + ray(b, color, dest, d));
        }
    } else {
        assert(free_along(b, from, d, 1));
        let c = cell_along(from, d, 1);
        let t: Position = (c.0 as usize, c.1 as usize);
        assert(target(from, d) == Some(t));
        assert forall|m: int| 1 <= m < k - 1 implies #[trigger] free_along(b, t, d, m) by {
            assert((m + 1) * dx == m * dx + dx && (m + 1) * dy == m * dy + dy)
                by (nonlinear_arith);
            assert(free_along(b, from, d, m + 1));
            assert(cell_along(t, d, m) == cell_along(from, d, m + 1));
        }
        assert(k * dx == (k - 1) * dx + dx && k * dy == (k - 1) * dy + dy) by (nonlinear_arith);
        assert(cell_along(t, d, k - 1) == cell_along(from, d, k));
        lemma_ray_covers(b, color, t, d, k - 1, dest);
        let rest = ray(b, color, t, d);
        assert(ray(b, color, from, d) =~= seq![t] + rest);
        assert(ray(b, color, from, d)[k - 1] == rest[k - 2]);
    }
}

/// The cells of a walk are exactly the cells that the piece reaches along
/// its direction: none beyond the first piece or hole, and that first
/// obstacle itself exactly when it is a piece of the other colour on a cell
/// that can be entered.
pub proof fn lemma_ray_is_what_is_reached(
    b: BoardView,
    color: Color,
    from: Position,
    d: Step,
    dest: Position,
)
    ensures
        ray(b, color, from, d).contains(dest) <==> reaches(b, color, from, d, dest),
{
    let r = ray(b, color, from, d);
    if r.contains(dest) {
        let i = r.index_of(dest);
        lemma_ray_reaches(b, color, from, d, i);
    }
    if reaches(b, color, from, d, dest) {
        let k = choose|k: int|
            {
                &&& k >= 1
                &&& #[trigger] cell_along(from, d, k) == (dest.0 as int, dest.1 as int)
                &&& forall|m: int| 1 <= m < k ==> #[trigger] free_along(b, from, d, m)
            };
        lemma_ray_covers(b, color, from, d, k, dest);
        assert(r[k - 1] == dest);
    }
}

/// A rook of `piece`'s colour on its cell reaches `dest` along a row or a
/// column.
pub open spec fn reaches_straight(b: BoardView, piece: Piece, dest: Position) -> bool {
    ||| reaches(b, piece.color, piece.pos, (1i8, 0i8), dest)
    ||| reaches(b, piece.color, piece.pos, (-1i8, 0i8), dest)
    ||| reaches(b, piece.color, piece.pos, (0i8, 1i8), dest)
    ||| reaches(b, piece.color, piece.pos, (0i8, -1i8), dest)
}

/// A bishop of `piece`'s colour on its cell reaches `dest` along a diagonal.
pub open spec fn reaches_diagonally(b: BoardView, piece: Piece, dest: Position) -> bool {
    ||| reaches(b, piece.color, piece.pos, (1i8, 1i8), dest)
    ||| reaches(b, piece.color, piece.pos, (1i8, -1i8), dest)
    ||| reaches(b, piece.color, piece.pos, (-1i8, 1i8), dest)
    ||| reaches(b, piece.color, piece.pos, (-1i8, -1i8), dest)
}

proof fn lemma_concat_contains(s: Seq<Position>, t: Seq<Position>, x: Position)
    ensures
        (s + t).contains(x) <==> s.contains(x) || t.contains(x),
{
    if (s + t).contains(x) {
        let i = (s + t).index_of(x);
        if i < s.len() {
            assert(s[i] == x);
        } else {
            assert(t[i - s.len()] == x);
        }
    }
    if s.contains(x) {
        let i = s.index_of(x);
        assert((s + t)[i] == x);
    }
    if t.contains(x) {
        let i = t.index_of(x);
        assert((s + t)[s.len() + i] == x);
    }
}

proof fn lemma_four_rays_contain(
    b: BoardView,
    color: Color,
    from: Position,
    d0: Step,
    d1: Step,
    d2: Step,
    d3: Step,
    dest: Position,
)
    ensures
        (ray(b, color, from, d0) + ray(b, color, from, d1) + ray(b, color, from, d2) + ray(
            b,
            color,
            from,
            d3,
        )).contains(dest) <==> reaches(b, color, from, d0, dest) || reaches(
            b,
            color,
            from,
            d1,
            dest,
        ) || reaches(b, color, from, d2, dest) || reaches(b, color, from, d3, dest),
{
    let r0 = ray(b, color, from, d0);
    let r1 = ray(b, color, from, d1);
    let r2 = ray(b, color, from, d2);
    let r3 = ray(b, color, from, d3);
    lemma_concat_contains(r0, r1, dest);
    lemma_concat_contains(r0 + r1, r2, dest);
    lemma_concat_contains(r0 + r1 + r2, r3, dest);
    lemma_ray_is_what_is_reached(b, color, from, d0, dest);
    lemma_ray_is_what_is_reached(b, color, from, d1, dest);
    lemma_ray_is_what_is_reached(b, color, from, d2, dest);
    lemma_ray_is_what_is_reached(b, color, from, d3, dest);
}

/// The moves of a rook, a bishop and a queen are exactly the cells that they
/// reach along their lines: a queen's those of a rook and of a bishop.
pub proof fn lemma_sliding_moves_are_what_is_reached(b: BoardView, piece: Piece, dest: Position)
    ensures
        piece.kind == PieceType::Rook ==> (legal_moves(b, piece).contains(dest)
            <==> reaches_straight(b, piece, dest)),
        piece.kind == PieceType::Bishop ==> (legal_moves(b, piece).contains(dest)
            <==> reaches_diagonally(b, piece, dest)),
        piece.kind == PieceType::Queen ==> (legal_moves(b, piece).contains(dest)
            <==> reaches_straight(b, piece, dest) || reaches_diagonally(b, piece, dest)),
{
    lemma_four_rays_contain(
        b,
        piece.color,
        piece.pos,
        (1i8, 0i8),
        (-1i8, 0i8),
        (0i8, 1i8),
        (0i8, -1i8),
        dest,
    );
    lemma_four_rays_contain(
        b,
        piece.color,
        piece.pos,
        (1i8, 1i8),
        (1i8, -1i8),
        (-1i8, 1i8),
        (-1i8, -1i8),
        dest,
    );
    lemma_concat_contains(rook_targets(b, piece), bishop_targets(b, piece), dest);
}

/// Every destination along some directions is reached along one of them.
pub proof fn lemma_line_target_reaches(b: BoardView, piece: Piece, dirs: Seq<Step>, i: int)
    requires
        0 <= i < line_targets(b, piece, dirs).len(),
    ensures
        exists|j: int|
            0 <= j < dirs.len() && reaches(
                b,
                piece.color,
                piece.pos,
                #[trigger] dirs[j],
                line_targets(b, piece, dirs)[i],
            ),
    decreases dirs.len(),
{
    let before = line_targets(b, piece, dirs.drop_last());
    if i < before.len() {
        lemma_line_target_reaches(b, piece, dirs.drop_last(), i);
        let j = choose|j: int|
            0 <= j < dirs.drop_last().len() && reaches(
                b,
                piece.color,
                piece.pos,
                #[trigger] dirs.drop_last()[j],
                before[i],
            );
        assert(dirs[j] == dirs.drop_last()[j]);
    } else {
        let j = dirs.len() - 1;
        lemma_ray_reaches(b, piece.color, piece.pos, dirs[j], i - before.len());
    }
}

/// A walk ends only at an obstacle: the cell one step past the last cell of
/// the walk (past the start, if the walk is empty) is off the grid or a hole,
/// or a piece of the walker's own colour stands on it, unless the walk ended
/// on a capture.
pub proof fn lemma_ray_runs_to_obstacle(b: BoardView, color: Color, from: Position, d: Step)
    requires
        unit_step(d),
    ensures
        ({
            let r = ray(b, color, from, d);
            let end = if r.len() == 0 {
                from
            } else {
                r.last()
            };
            (r.len() > 0 && b.occupied(end)) || match target(end, d) {
                None => true,
                Some(t) => !b.accessible(t) || (b.occupied(t) && !holds_enemy(b, color, t)),
            }
        }),
    decreases room(b, from, d),
{
    match target(from, d) {
        None => {},
        Some(t) => {
            if b.accessible(t) && !b.occupied(t) {
                lemma_ray_runs_to_obstacle(b, color, t, d);
                let rest = ray(b, color, t, d);
                assert(ray(b, color, from, d) =~= seq![t] + rest);
            }
        },
    }
}

proof fn lemma_jump_targets_sound(b: BoardView, piece: Piece, deltas: Seq<Step>)
    requires
        b.wf(),
    ensures
        sound_targets(b, piece.color, jump_targets(b, piece, deltas)),
    decreases deltas.len(),
{
    if deltas.len() > 0 {
        lemma_jump_targets_sound(b, piece, deltas.drop_last());
        match target(piece.pos, deltas.last()) {
            Some(t) => {
                if may_land(b, piece.color, t) {
                    lemma_landing_on_grid(b, piece.color, t);
                }
            },
            None => {},
        }
    }
}

proof fn lemma_ray_sound(b: BoardView, color: Color, from: Position, d: Step)
    requires
        b.wf(),
    ensures
        sound_targets(b, color, ray(b, color, from, d)),
    decreases room(b, from, d),
{
    if unit_step(d) {
        match target(from, d) {
            None => {},
            Some(t) => {
                if b.accessible(t) && !b.occupied(t) {
                    lemma_ray_sound(b, color, t, d);
                }
            },
        }
    }
}

proof fn lemma_sound_concat(b: BoardView, color: Color, s: Seq<Position>, t: Seq<Position>)
    requires
        sound_targets(b, color, s),
        sound_targets(b, color, t),
    ensures
        sound_targets(b, color, s + t),
{
    assert forall|i: int| 0 <= i < (s + t).len() implies {
        &&& may_land(b, color, #[trigger] (s + t)[i])
        &&& b.in_bounds((s + t)[i])
        &&& (b.well_placed() ==> b.accessible((s + t)[i]))
    } by {
        if i < s.len() {
            assert((s + t)[i] == s[i]);
        } else {
            assert((s + t)[i] == t[i - s.len()]);
        }
    }
}

proof fn lemma_four_rays_sound(
    b: BoardView,
    color: Color,
    from: Position,
    d0: Step,
    d1: Step,
    d2: Step,
    d3: Step,
)
    requires
        b.wf(),
    ensures
        sound_targets(
            b,
            color,
            ray(b, color, from, d0) + ray(b, color, from, d1) + ray(b, color, from, d2) + ray(
                b,
                color,
                from,
                d3,
            ),
        ),
{
    lemma_ray_sound(b, color, from, d0);
    lemma_ray_sound(b, color, from, d1);
    lemma_ray_sound(b, color, from, d2);
    lemma_ray_sound(b, color, from, d3);
    let r0 = ray(b, color, from, d0);
    let r1 = ray(b, color, from, d1);
    let r2 = ray(b, color, from, d2);
    let r3 = ray(b, color, from, d3);
    lemma_sound_concat(b, color, r0, r1);
    lemma_sound_concat(b, color, r0 + r1, r2);
    lemma_sound_concat(b, color, r0 + r1 + r2, r3);
}

proof fn lemma_pawn_targets_sound(b: BoardView, piece: Piece)
    requires
        b.wf(),
    ensures
        sound_targets(b, piece.color, pawn_targets(b, piece)),
{
    match shifted(piece.pos.1, pawn_step(piece.color)) {
        Some(ny) => {
            if ny < b.height {
                match shifted(piece.pos.0, -1) {
                    Some(nx) => {
                        if nx < b.width && holds_enemy(b, piece.color, (nx, ny)) {
                            lemma_landing_on_grid(b, piece.color, (nx, ny));
                        }
                    },
                    None => {},
                }
                match shifted(piece.pos.0, 1) {
                    Some(nx) => {
                        if nx < b.width && holds_enemy(b, piece.color, (nx, ny)) {
                            lemma_landing_on_grid(b, piece.color, (nx, ny));
                        }
                    },
                    None => {},
                }
            }
        },
        None => {},
    }
}

/// On a valid board every move of a piece ends on a cell of the grid that is
/// free or holds a piece of the other colour, and on no hole if no piece of
/// the board stands on one.
pub proof fn lemma_legal_moves_sound(b: BoardView, piece: Piece)
    requires
        b.wf(),
    ensures
        sound_targets(b, piece.color, legal_moves(b, piece)),
{
    match piece.kind {
        PieceType::Knight => {
            lemma_jump_targets_sound(b, piece, knight_steps());
        },
        PieceType::King => {
            lemma_jump_targets_sound(b, piece, king_steps());
        },
        PieceType::Rook => {
            lemma_four_rays_sound(
                b,
                piece.color,
                piece.pos,
                (1i8, 0i8),
                (-1i8, 0i8),
                (0i8, 1i8),
                (0i8, -1i8),
            );
        },
        PieceType::Bishop => {
            lemma_four_rays_sound(
                b,
                piece.color,
                piece.pos,
                (1i8, 1i8),
                (1i8, -1i8),
                (-1i8, 1i8),
                (-1i8, -1i8),
            );
        },
        PieceType::Queen => {
            lemma_four_rays_sound(
                b,
                piece.color,
                piece.pos,
                (1i8, 0i8),
                (-1i8, 0i8),
                (0i8, 1i8),
                (0i8, -1i8),
            );
            lemma_four_rays_sound(
                b,
                piece.color,
                piece.pos,
                (1i8, 1i8),
                (1i8, -1i8),
                (-1i8, 1i8),
                (-1i8, -1i8),
            );
            lemma_sound_concat(b, piece.color, rook_targets(b, piece), bishop_targets(b, piece));
        },
        PieceType::Pawn => {
            lemma_pawn_targets_sound(b, piece);
        },
        PieceType::Custom(_) => {},
    }
}

/// A piece that stands on a valid board has no move onto its own cell.
pub proof fn lemma_no_move_in_place(b: BoardView, i: int)
    requires
        b.wf(),
        0 <= i < b.pieces.len(),
    ensures
        !legal_moves(b, b.pieces[i]).contains(b.pieces[i].pos),
{
    let piece = b.pieces[i];
    lemma_legal_moves_sound(b, piece);
    b.lemma_piece_at_index(i);
}

/// The coordinate `p` moved by `d`, or `None` where that leaves the range of
/// coordinates.
pub fn shift(p: usize, d: i8) -> (r: Option<usize>)
    ensures
        r == shifted(p, d as int),
{
    if d >= 0 {
        let m: usize = d as usize;
        if p <= usize::MAX - m {
            Some(p + m)
        } else {
            None
        }
    } else {
        let m: usize = (0 - (d as i16)) as usize;
        if p >= m {
            Some(p - m)
        } else {
            None
        }
    }
}

/// The cell one step `d` away from `pos`.
pub fn step_from(pos: Position, d: Step) -> (r: Option<Position>)
    ensures
        r == target(pos, d),
{
    match shift(pos.0, d.0) {
        Some(x) => match shift(pos.1, d.1) {
            Some(y) => Some((x, y)),
            None => None,
        },
        None => None,
    }
}

/// Whether a piece of the other colour than `color` stands on the cell.
pub fn is_enemy_at(board: &Board, color: Color, pos: Position) -> (r: bool)
    requires
        board.wf(),
    ensures
        r == holds_enemy(board@, color, pos),
{
    match board.get_piece_at(pos) {
        Some(q) => q.color != color,
        None => false,
    }
}

/// Whether a piece of `color` may land on the cell.
pub fn can_land(board: &Board, color: Color, pos: Position) -> (r: bool)
    requires
        board.wf(),
    ensures
        r == may_land(board@, color, pos),
{
    board.is_tile_free(pos) || is_enemy_at(board, color, pos)
}

/// The targets of the jumps `deltas` of `piece`, in their order.
fn jump_moves(board: &Board, piece: &Piece, deltas: &Vec<Step>) -> (moves: Vec<Position>)
    requires
        board.wf(),
    ensures
        moves@ == jump_targets(board@, *piece, deltas@),
        sound_targets(board@, piece.color, moves@),
{
    let mut moves: Vec<Position> = Vec::new();
    let mut k: usize = 0;
    assert(deltas@.take(0) =~= Seq::<Step>::empty());
    while k < deltas.len()
        invariant
            board.wf(),
            k <= deltas@.len(),
            moves@ == jump_targets(board@, *piece, deltas@.take(k as int)),
            sound_targets(board@, piece.color, moves@),
        decreases deltas@.len() - k,
    {
        let d = deltas[k];
        let ghost before = moves@;
        match step_from(piece.pos, d) {
            Some(pos) => {
                if can_land(board, piece.color, pos) {
                    moves.push(pos);
                    proof {
                        lemma_landing_on_grid(board@, piece.color, pos);
                    }
                }
            },
            None => {},
        }
        k += 1;
        proof {
            assert(deltas@.take(k as int).drop_last() =~= deltas@.take(k - 1));
            assert(deltas@.take(k as int).last() == d);
            assert(moves@ =~= before + jump_target(board@, *piece, d));
        }
    }
    assert(deltas@.take(k as int) =~= deltas@);
    moves
}

/// Appends to `moves` the walk of `piece` along `d`.
fn slide(board: &Board, piece: &Piece, d: Step, moves: &mut Vec<Position>)
    requires
        board.wf(),
        unit_step(d),
        sound_targets(board@, piece.color, old(moves)@),
    ensures
        final(moves)@ == old(moves)@ + ray(board@, piece.color, piece.pos, d),
        sound_targets(board@, piece.color, final(moves)@),
{
    let mut cur: Position = piece.pos;
    let ghost goal = old(moves)@ + ray(board@, piece.color, piece.pos, d);
    loop
        invariant_except_break
            goal == moves@ + ray(board@, piece.color, cur, d),
        invariant
            board.wf(),
            unit_step(d),
            sound_targets(board@, piece.color, moves@),
        ensures
            moves@ == goal,
            sound_targets(board@, piece.color, moves@),
        decreases room(board@, cur, d),
    {
        let ghost before = moves@;
        match step_from(cur, d) {
            None => {
                assert(moves@ + Seq::<Position>::empty() =~= moves@);
                break ;
            },
            Some(t) => {
                if !board.is_tile_accessible(t) {
                    assert(moves@ + Seq::<Position>::empty() =~= moves@);
                    break ;
                }
                match board.get_piece_at(t) {
                    Some(q) => {
                        if q.color != piece.color {
                            moves.push(t);
                            assert(moves@ =~= before + seq![t]);
                        } else {
                            assert(moves@ + Seq::<Position>::empty() =~= moves@);
                        }
                        break ;
                    },
                    None => {
                        moves.push(t);
                        proof {
                            let rest = ray(board@, piece.color, t, d);
                            assert(before + (seq![t] + rest) =~= moves@ + rest);
                        }
                        cur = t;
                    },
                }
            },
        }
    }
}

/// The walks of `piece` along each of `directions`, in their order. Each
/// direction is a step of one cell.
pub fn straight_line_moves(board: &Board, piece: &Piece, directions: &Vec<Step>) -> (moves: Vec<
    Position,
>)
    requires
        board.wf(),
        forall|k: int| 0 <= k < directions@.len() ==> unit_step(#[trigger] directions@[k]),
    ensures
        moves@ == line_targets(board@, *piece, directions@),
        sound_targets(board@, piece.color, moves@),
{
    let mut moves: Vec<Position> = Vec::new();
    let mut k: usize = 0;
    assert(directions@.take(0) =~= Seq::<Step>::empty());
    while k < directions.len()
        invariant
            board.wf(),
            k <= directions@.len(),
            forall|j: int| 0 <= j < directions@.len() ==> unit_step(#[trigger] directions@[j]),
            moves@ == line_targets(board@, *piece, directions@.take(k as int)),
            sound_targets(board@, piece.color, moves@),
        decreases directions@.len() - k,
    {
        let d = directions[k];
        slide(board, piece, d, &mut moves);
        k += 1;
        proof {
            assert(directions@.take(k as int).drop_last() =~= directions@.take(k - 1));
            assert(directions@.take(k as int).last() == d);
        }
    }
    assert(directions@.take(k as int) =~= directions@);
    moves
}

/// The moves of a knight: its eight jumps, each onto a free cell or onto a
/// piece of the other colour.
fn knight_moves(board: &Board, piece: &Piece) -> (moves: Vec<Position>)
    requires
        board.wf(),
    ensures
        moves@ == jump_targets(board@, *piece, knight_steps()),
        sound_targets(board@, piece.color, moves@),
{
    let deltas: Vec<Step> = vec![
        (2i8, 1i8),
        (1i8, 2i8),
        (-1i8, 2i8),
        (-2i8, 1i8),
        (-2i8, -1i8),
        (-1i8, -2i8),
        (1i8, -2i8),
        (2i8, -1i8),
    ];
    assert(deltas@ =~= knight_steps());
    jump_moves(board, piece, &deltas)
}

/// The moves of a king: its eight steps, each onto a free cell or onto a
/// piece of the other colour. Whether the king would stand in check is not
/// looked at.
fn king_moves(board: &Board, piece: &Piece) -> (moves: Vec<Position>)
    requires
        board.wf(),
    ensures
        moves@ == jump_targets(board@, *piece, king_steps()),
        sound_targets(board@, piece.color, moves@),
{
    let deltas: Vec<Step> = vec![
        (-1i8, -1i8),
        (-1i8, 0i8),
        (-1i8, 1i8),
        (0i8, -1i8),
        (0i8, 1i8),
        (1i8, -1i8),
        (1i8, 0i8),
        (1i8, 1i8),
    ];
    assert(deltas@ =~= king_steps());
    jump_moves(board, piece, &deltas)
}

/// The moves of a rook: its walks along the row and the column.
fn rook_moves(board: &Board, piece: &Piece) -> (moves: Vec<Position>)
    requires
        board.wf(),
    ensures
        moves@ == rook_targets(board@, *piece),
        sound_targets(board@, piece.color, moves@),
{
    let directions: Vec<Step> = vec![(1i8, 0i8), (-1i8, 0i8), (0i8, 1i8), (0i8, -1i8)];
    proof {
        lemma_four_lines(board@, *piece, directions@);
    }
    straight_line_moves(board, piece, &directions)
}

/// The moves of a bishop: its walks along the diagonals.
fn bishop_moves(board: &Board, piece: &Piece) -> (moves: Vec<Position>)
    requires
        board.wf(),
    ensures
        moves@ == bishop_targets(board@, *piece),
        sound_targets(board@, piece.color, moves@),
{
    let directions: Vec<Step> = vec![(1i8, 1i8), (1i8, -1i8), (-1i8, 1i8), (-1i8, -1i8)];
    proof {
        lemma_four_lines(board@, *piece, directions@);
    }
    straight_line_moves(board, piece, &directions)
}

/// The moves of a queen: those of a rook, then those of a bishop.
fn queen_moves(board: &Board, piece: &Piece) -> (moves: Vec<Position>)
    requires
        board.wf(),
    ensures
        moves@ == rook_targets(board@, *piece) + bishop_targets(board@, *piece),
        sound_targets(board@, piece.color, moves@),
{
    let mut moves = rook_moves(board, piece);
    let diagonal = bishop_moves(board, piece);
    let ghost straight = moves@;
    let mut k: usize = 0;
    while k < diagonal.len()
        invariant
            k <= diagonal@.len(),
            moves@ == straight + diagonal@.take(k as int),
            sound_targets(board@, piece.color, moves@),
            sound_targets(board@, piece.color, diagonal@),
        decreases diagonal@.len() - k,
    {
        moves.push(diagonal[k]);
        k += 1;
        assert(moves@ =~= straight + diagonal@.take(k as int));
    }
    assert(diagonal@.take(k as int) =~= diagonal@);
    moves
}

/// Appends to `moves` the capture of the pawn `piece` on the column `dx`
/// beside it, in the row `ny`.
fn pawn_capture_into(board: &Board, piece: &Piece, ny: usize, dx: i8, moves: &mut Vec<Position>)
    requires
        board.wf(),
        sound_targets(board@, piece.color, old(moves)@),
    ensures
        final(moves)@ == old(moves)@ + pawn_capture(board@, *piece, ny, dx as int),
        sound_targets(board@, piece.color, final(moves)@),
{
    match shift(piece.pos.0, dx) {
        Some(nx) => {
            if nx < board.width && is_enemy_at(board, piece.color, (nx, ny)) {
                moves.push((nx, ny));
                proof {
                    lemma_landing_on_grid(board@, piece.color, (nx, ny));
                    assert(moves@ =~= old(moves)@ + seq![(nx, ny)]);
                }
            } else {
                assert(moves@ =~= old(moves)@ + Seq::<Position>::empty());
            }
        },
        None => {
            assert(moves@ =~= old(moves)@ + Seq::<Position>::empty());
        },
    }
}

/// The moves of a pawn: one step ahead onto a free cell, and the two
/// diagonal captures.
fn pawn_moves(board: &Board, piece: &Piece) -> (moves: Vec<Position>)
    requires
        board.wf(),
    ensures
        moves@ == pawn_targets(board@, *piece),
        sound_targets(board@, piece.color, moves@),
{
    let mut moves: Vec<Position> = Vec::new();
    let direction: i8 = match piece.color {
        Color::White => -1,
        Color::Black => 1,
    };
    match shift(piece.pos.1, direction) {
        Some(ny) => {
            if ny < board.height {
                let ahead = (piece.pos.0, ny);
                if board.is_tile_free(ahead) {
                    moves.push(ahead);
                    assert(moves@ =~= seq![ahead]);
                }
                pawn_capture_into(board, piece, ny, -1, &mut moves);
                pawn_capture_into(board, piece, ny, 1, &mut moves);
            }
        },
        None => {},
    }
    moves
}

/// The destinations of `piece` on the board, in the fixed order of its kind:
/// exactly [`legal_moves`]. Every one of them lies on the grid.
pub fn get_legal_moves(board: &Board, piece: &Piece) -> (moves: Vec<Position>)
    requires
        board.wf(),
    ensures
        moves@ == legal_moves(board@, *piece),
        sound_targets(board@, piece.color, moves@),
{
    match piece.kind {
        PieceType::Knight => knight_moves(board, piece),
        PieceType::Rook => rook_moves(board, piece),
        PieceType::Pawn => pawn_moves(board, piece),
        PieceType::Bishop => bishop_moves(board, piece),
        PieceType::Queen => queen_moves(board, piece),
        PieceType::King => king_moves(board, piece),
        PieceType::Custom(_) => Vec::new(),
    }
}

/// Whether `to` is among `moves`.
pub fn contains_position(moves: &Vec<Position>, to: Position) -> (r: bool)
    ensures
        r == moves@.contains(to),
{
    let mut k: usize = 0;
    while k < moves.len()
        invariant
            k <= moves@.len(),
            forall|j: int| 0 <= j < k ==> moves@[j] != to,
        decreases moves@.len() - k,
    {
        if moves[k].0 == to.0 && moves[k].1 == to.1 {
            return true;
        }
        k += 1;
    }
    false
}

} // verus!
