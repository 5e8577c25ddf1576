use vstd::prelude::*;
use super::board::{Board, BoardView};
use super::evaluator::{evaluate_board, lemma_score_range, score};
use super::movement::{get_legal_moves, legal_moves, lemma_legal_moves_sound};
use super::types::{Color, Position};

verus! {

/// A move that a side may make: the index of the piece among the pieces of
/// the board, and the destination.
pub type Candidate = (usize, Position);

/// The moves of the piece at index `i`, in the order of its kind.
pub open spec fn piece_candidates(b: BoardView, i: int) -> Seq<Candidate> {
    Seq::new(
        legal_moves(b, b.pieces[i]).len(),
        |k: int| (i as usize, legal_moves(b, b.pieces[i])[k]),
    )
}

/// The moves of the pieces of `color` among the first `n` pieces.
pub open spec fn candidates_upto(b: BoardView, color: Color, n: int) -> Seq<Candidate>
    decreases n,
{
    if n <= 0 {
        Seq::empty()
    } else {
        candidates_upto(b, color, n - 1) + (if b.pieces[n - 1].color == color {
            piece_candidates(b, n - 1)
        } else {
            Seq::empty()
        })
    }
}

/// Every move that `color` may make, piece by piece in placement order and
/// for each piece in the order of its kind.
pub open spec fn candidates(b: BoardView, color: Color) -> Seq<Candidate> {
    candidates_upto(b, color, b.pieces.len() as int)
}

/// The candidate is a move of a piece of `color` to a cell of the grid.
pub open spec fn sound(b: BoardView, color: Color, c: Candidate) -> bool {
    &&& c.0 < b.pieces.len()
    &&& b.pieces[c.0 as int].color == color
    &&& legal_moves(b, b.pieces[c.0 as int]).contains(c.1)
    &&& b.in_bounds(c.1)
    &&& (b.well_placed() ==> b.accessible(c.1))
}

/// The board after the candidate has been played.
pub open spec fn child(b: BoardView, c: Candidate) -> BoardView {
    b.after_move(b.pieces[c.0 as int].id, c.1)
}

/// The candidate as a pair of cells: from, to.
pub open spec fn move_of(b: BoardView, c: Candidate) -> (Position, Position) {
    (b.pieces[c.0 as int].pos, c.1)
}

/// The value of a position in which the side to move has no move: the worst
/// for that side.
pub open spec fn worst(color: Color) -> int {
    match color {
        Color::White => i64::MIN as int,
        Color::Black => i64::MAX as int,
    }
}

/// The one of two values that `color` prefers: White the greater, Black the
/// smaller.
pub open spec fn preferred(color: Color, a: int, b: int) -> int {
    match color {
        Color::White => if a >= b {
            a
        } else {
            b
        },
        Color::Black => if a <= b {
            a
        } else {
            b
        },
    }
}

/// `v` is strictly better for `color` than `over`.
pub open spec fn improves(color: Color, v: int, over: int) -> bool {
    match color {
        Color::White => v > over,
        Color::Black => v < over,
    }
}

/// The value of the position for the side `color` to move, searched `depth`
/// plies deep over the first `n` of its candidates: at depth 0 the static
/// score; else the value that `color` prefers among the values of the
/// positions after each candidate, searched one ply less with the other
/// side to move, and the worst value for `color` where there is none.
#[verifier::opaque]
pub open spec fn search_value(b: BoardView, depth: nat, color: Color, n: nat) -> int
    decreases depth, n,
{
    if depth == 0 {
        score(b)
    } else if n == 0 {
        worst(color)
    } else {
        let c = candidates(b, color)[n - 1];
        let next = child(b, c);
        let reply = search_value(
            next,
            (depth - 1) as nat,
            color.other(),
            candidates(next, color.other()).len(),
        );
        preferred(color, search_value(b, depth, color, (n - 1) as nat), reply)
    }
}

/// The minimax value of the position for the side `color` to move, searched
/// `depth` plies deep.
pub open spec fn minimax(b: BoardView, depth: nat, color: Color) -> int {
    search_value(b, depth, color, candidates(b, color).len())
}

/// The minimax value of the position after the candidate at index `k`, with
/// one ply less to search.
pub open spec fn reply_value(b: BoardView, color: Color, depth: nat, k: int) -> int {
    minimax(child(b, candidates(b, color)[k]), (depth - 1) as nat, color.other())
}

/// The candidate at index `k` is the one to play: its value is strictly
/// better than that of every candidate before it, and no candidate has a
/// better one.
pub open spec fn is_choice(b: BoardView, color: Color, depth: nat, k: int) -> bool {
    &&& 0 <= k < candidates(b, color).len()
    &&& forall|j: int|
        0 <= j < k ==> improves(
            color,
            reply_value(b, color, depth, k),
            #[trigger] reply_value(b, color, depth, j),
        )
    &&& forall|j: int|
        0 <= j < candidates(b, color).len() ==> !improves(
            color,
            #[trigger] reply_value(b, color, depth, j),
            reply_value(b, color, depth, k),
        )
}

/// The move that the search chooses for `color`: the first candidate with the
/// best value. There is one whenever `color` has a move.
pub open spec fn best_move(b: BoardView, color: Color, depth: nat) -> Option<
    (Position, Position),
> {
    if exists|k: int| is_choice(b, color, depth, k) {
        Some(move_of(b, candidates(b, color)[choose|k: int| is_choice(b, color, depth, k)]))
    } else {
        None
    }
}

/// What a search within the window from `alpha` to `beta` tells of the true
/// value `m`: a result inside the window is the value; one at or below
/// `alpha` is an upper bound of it, one at or above `beta` a lower bound.
pub open spec fn within(v: int, m: int, alpha: int, beta: int) -> bool {
    &&& v <= alpha ==> m <= v
    &&& v >= beta ==> m >= v
    &&& alpha < v < beta ==> m == v
}

/// How the value over one more candidate comes from the value before it.
pub proof fn lemma_search_step(b: BoardView, depth: nat, color: Color, k: int)
    requires
        depth > 0,
        k >= 0,
    ensures
        search_value(b, depth, color, (k + 1) as nat) == preferred(
            color,
            search_value(b, depth, color, k as nat),
            reply_value(b, color, depth, k),
        ),
        search_value(b, depth, color, 0) == worst(color),
{
    reveal(search_value);
}

/// At depth 0 the value of a position is its static score.
pub proof fn lemma_search_leaf(b: BoardView, color: Color, n: nat)
    ensures
        search_value(b, 0, color, n) == score(b),
{
    reveal(search_value);
}

proof fn lemma_candidates_upto_sound(b: BoardView, color: Color, n: int, k: int)
    requires
        b.wf(),
        0 <= n <= b.pieces.len(),
        0 <= k < candidates_upto(b, color, n).len(),
    ensures
        sound(b, color, candidates_upto(b, color, n)[k]),
    decreases n,
{
    let before = candidates_upto(b, color, n - 1);
    b.lemma_population_bound(0);
    if k < before.len() {
        lemma_candidates_upto_sound(b, color, n - 1, k);
    } else {
        let piece = b.pieces[n - 1];
        lemma_legal_moves_sound(b, piece);
        let j = k - before.len();
        assert(candidates_upto(b, color, n)[k] == piece_candidates(b, n - 1)[j]);
        assert(legal_moves(b, piece)[j] == candidates_upto(b, color, n)[k].1);
    }
}

/// On a valid board every candidate is a move of a piece of the side to a
/// cell of the grid, and the board after it is valid.
pub proof fn lemma_candidate_sound(b: BoardView, color: Color, k: int)
    requires
        b.wf(),
        0 <= k < candidates(b, color).len(),
    ensures
        sound(b, color, candidates(b, color)[k]),
        child(b, candidates(b, color)[k]).wf(),
        b.well_placed() ==> child(b, candidates(b, color)[k]).well_placed(),
{
    lemma_candidates_upto_sound(b, color, b.pieces.len() as int, k);
    let c = candidates(b, color)[k];
    b.lemma_after_move_wf(c.0 as int, c.1);
}

/// The value of a search on a valid board fits in 64 bits.
pub proof fn lemma_search_range(b: BoardView, depth: nat, color: Color, n: nat)
    requires
        b.wf(),
        n <= candidates(b, color).len(),
    ensures
        i64::MIN <= search_value(b, depth, color, n) <= i64::MAX,
    decreases depth, n,
{
    reveal(search_value);
    if depth == 0 {
        lemma_score_range(b);
    } else if n > 0 {
        lemma_search_range(b, depth, color, (n - 1) as nat);
        lemma_candidate_sound(b, color, n - 1);
        let next = child(b, candidates(b, color)[n - 1]);
        lemma_search_range(
            next,
            (depth - 1) as nat,
            color.other(),
            candidates(next, color.other()).len(),
        );
    }
}

/// More candidates never make the value worse for the side to move.
pub proof fn lemma_search_monotone(b: BoardView, depth: nat, color: Color, n: nat, m: nat)
    requires
        depth > 0,
        n <= m,
    ensures
        !improves(color, search_value(b, depth, color, n), search_value(b, depth, color, m)),
    decreases m,
{
    if n < m {
        lemma_search_monotone(b, depth, color, n, (m - 1) as nat);
        lemma_search_step(b, depth, color, m - 1);
    }
}

/// One ply deep, the value of the position after a candidate is the static
/// score of that position.
pub proof fn lemma_reply_one_ply(b: BoardView, color: Color, k: int)
    ensures
        reply_value(b, color, 1, k) == score(child(b, candidates(b, color)[k])),
{
    let next = child(b, candidates(b, color)[k]);
    lemma_search_leaf(next, color.other(), candidates(next, color.other()).len());
}

proof fn lemma_single_move_value(b: BoardView, color: Color)
    requires
        b.wf(),
        candidates(b, color).len() == 1,
    ensures
        minimax(b, 1, color) == score(child(b, candidates(b, color)[0])),
{
    let next = child(b, candidates(b, color)[0]);
    lemma_candidate_sound(b, color, 0);
    lemma_score_range(next);
    lemma_reply_one_ply(b, color, 0);
    lemma_search_step(b, 1, color, 0);
}

/// The candidate that stands first among the best of the first `n`.
pub open spec fn first_best(b: BoardView, color: Color, depth: nat, n: int) -> int
    decreases n,
{
    if n <= 1 {
        0
    } else {
        let p = first_best(b, color, depth, n - 1);
        if improves(color, reply_value(b, color, depth, n - 1), reply_value(b, color, depth, p)) {
            n - 1
        } else {
            p
        }
    }
}

proof fn lemma_first_best(b: BoardView, color: Color, depth: nat, n: int)
    requires
        n >= 1,
    ensures
        0 <= first_best(b, color, depth, n) < n,
        forall|j: int|
            0 <= j < first_best(b, color, depth, n) ==> improves(
                color,
                reply_value(b, color, depth, first_best(b, color, depth, n)),
                #[trigger] reply_value(b, color, depth, j),
            ),
        forall|j: int|
            0 <= j < n ==> !improves(
                color,
                #[trigger] reply_value(b, color, depth, j),
                reply_value(b, color, depth, first_best(b, color, depth, n)),
            ),
    decreases n,
{
    if n > 1 {
        lemma_first_best(b, color, depth, n - 1);
    }
}

/// At most one candidate is the one to play.
pub proof fn lemma_choice_is_unique(b: BoardView, color: Color, depth: nat, j: int, k: int)
    requires
        is_choice(b, color, depth, j),
        is_choice(b, color, depth, k),
    ensures
        j == k,
{
    if j < k {
        assert(improves(color, reply_value(b, color, depth, k), reply_value(b, color, depth, j)));
    } else if k < j {
        assert(improves(color, reply_value(b, color, depth, j), reply_value(b, color, depth, k)));
    }
}

/// The search chooses a move exactly when the side has one, and then the
/// first of its best candidates.
pub proof fn lemma_best_move_exists(b: BoardView, color: Color, depth: nat)
    ensures
        best_move(b, color, depth).is_none() <==> candidates(b, color).len() == 0,
        candidates(b, color).len() > 0 ==> best_move(b, color, depth) == Some(
            move_of(
                b,
                candidates(b, color)[first_best(b, color, depth, candidates(b, color).len() as int)],
            ),
        ),
{
    let n = candidates(b, color).len() as int;
    if n > 0 {
        lemma_first_best(b, color, depth, n);
        let p = first_best(b, color, depth, n);
        assert(is_choice(b, color, depth, p));
        let k = choose|k: int| is_choice(b, color, depth, k);
        lemma_choice_is_unique(b, color, depth, p, k);
    }
}

/// Where a side has exactly one move and the search goes one ply deep, that
/// move is chosen, and the value of the position is the static score of the
/// board after it.
pub proof fn lemma_single_move(b: BoardView, color: Color)
    requires
        b.wf(),
        candidates(b, color).len() == 1,
    ensures
        best_move(b, color, 1) == Some(move_of(b, candidates(b, color)[0])),
        minimax(b, 1, color) == score(child(b, candidates(b, color)[0])),
{
    lemma_single_move_value(b, color);
    lemma_best_move_exists(b, color, 1);
}

proof fn lemma_candidates_upto_empty(b: BoardView, color: Color, n: int)
    requires
        0 <= n <= b.pieces.len(),
    ensures
        candidates_upto(b, color, n).len() == 0 <==> forall|i: int|
            0 <= i < n && (#[trigger] b.pieces[i]).color == color ==> legal_moves(
                b,
                b.pieces[i],
            ).len() == 0,
    decreases n,
{
    if n > 0 {
        lemma_candidates_upto_empty(b, color, n - 1);
        if candidates_upto(b, color, n).len() == 0 {
            assert forall|i: int|
                0 <= i < n && (#[trigger] b.pieces[i]).color == color implies legal_moves(
                b,
                b.pieces[i],
            ).len() == 0 by {}
        } else {
            if candidates_upto(b, color, n - 1).len() == 0 {
                assert(b.pieces[n - 1].color == color);
                assert(legal_moves(b, b.pieces[n - 1]).len() > 0);
            } else {
                let i = choose|i: int|
                    0 <= i < n - 1 && (#[trigger] b.pieces[i]).color == color && legal_moves(
                        b,
                        b.pieces[i],
                    ).len() != 0;
                assert(b.pieces[i].color == color);
            }
        }
    }
}

/// A side has no candidate exactly when none of its pieces has a move, and
/// so also when it has no piece.
pub proof fn lemma_no_candidates(b: BoardView, color: Color)
    ensures
        candidates(b, color).len() == 0 <==> forall|i: int|
            0 <= i < b.pieces.len() && (#[trigger] b.pieces[i]).color == color ==> legal_moves(
                b,
                b.pieces[i],
            ).len() == 0,
{
    lemma_candidates_upto_empty(b, color, b.pieces.len() as int);
}

/// Every move that `color` may make on the board: [`candidates`].
pub fn collect_moves(board: &Board, color: Color) -> (out: Vec<Candidate>)
    requires
        board.wf(),
    ensures
        out@ == candidates(board@, color),
{
    let mut out: Vec<Candidate> = Vec::new();
    let mut i: usize = 0;
    while i < board.pieces.len()
        invariant
            board.wf(),
            i <= board.pieces@.len(),
            out@ == candidates_upto(board@, color, i as int),
        decreases board.pieces@.len() - i,
    {
        let piece = &board.pieces[i];
        let ghost base = out@;
        if piece.color == color {
            let moves = get_legal_moves(board, piece);
            let mut k: usize = 0;
            assert(out@ =~= base + piece_candidates(board@, i as int).take(0));
            while k < moves.len()
                invariant
                    i < board.pieces@.len(),
                    k <= moves@.len(),
                    moves@ == legal_moves(board@, board@.pieces[i as int]),
                    out@ == base + piece_candidates(board@, i as int).take(k as int),
                decreases moves@.len() - k,
            {
                out.push((i, moves[k]));
                k += 1;
                assert(out@ =~= base + piece_candidates(board@, i as int).take(k as int));
            }
            assert(piece_candidates(board@, i as int).take(k as int) =~= piece_candidates(
                board@,
                i as int,
            ));
        } else {
            assert(out@ =~= base + Seq::<Candidate>::empty());
        }
        i += 1;
    }
    out
}

/// A copy of the board on which the candidate has been played: what stood on
/// the destination is taken off, then the piece is set down there.
pub fn play(board: &Board, c: Candidate) -> (next: Board)
    requires
        board.wf(),
        c.0 < board@.pieces.len(),
        board@.in_bounds(c.1),
    ensures
        next.wf(),
        next@ == child(board@, c),
{
    let id: u32 = board.pieces[c.0].id;
    let mut next = board.duplicate();
    next.remove_piece_at(c.1);
    next.move_piece(id, c.1);
    next
}

/// Searches the position `depth` plies deep for the side `color` to move,
/// within the window from `alpha` to `beta`: White takes the greatest value
/// of its candidates, Black the smallest, and the rest of the candidates is
/// left out as soon as the window is empty. At depth 0 the result is the
/// static score of the board, whatever the window. Deeper, the result stands
/// to the minimax value as [`within`] says; with the widest window it is the
/// minimax value.
pub fn minimax_ab(board: &Board, depth: usize, current_color: Color, alpha: i64, beta: i64) -> (v:
    i64)
    requires
        board.wf(),
        depth == 0 || alpha < beta,
    ensures
        depth == 0 ==> v == score(board@),
        within(v as int, minimax(board@, depth as nat, current_color), alpha as int, beta as int),
        alpha == i64::MIN && beta == i64::MAX ==> v == minimax(
            board@,
            depth as nat,
            current_color,
        ),
    decreases depth,
{
    proof {
        lemma_search_range(
            board@,
            depth as nat,
            current_color,
            candidates(board@, current_color).len(),
        );
    }
    if depth == 0 {
        proof {
            lemma_search_leaf(board@, current_color, candidates(board@, current_color).len());
        }
        return evaluate_board(board);
    }
    let moves = collect_moves(board, current_color);
    let ghost b = board@;
    let ghost d = depth as nat;
    let mut best_score: i64 = match current_color {
        Color::White => i64::MIN,
        Color::Black => i64::MAX,
    };
    let mut lo: i64 = alpha;
    let mut hi: i64 = beta;
    let mut k: usize = 0;
    proof {
        lemma_search_step(b, d, current_color, 0);
    }
    while k < moves.len()
        invariant_except_break
            lo < hi,
            within(
                best_score as int,
                search_value(b, d, current_color, k as nat),
                alpha as int,
                beta as int,
            ),
        invariant
            board.wf(),
            b == board@,
            d == depth as nat,
            depth > 0,
            alpha < beta,
            k <= moves@.len(),
            moves@ == candidates(b, current_color),
            current_color == Color::White ==> hi == beta && lo == preferred(
                Color::White,
                alpha as int,
                best_score as int,
            ),
            current_color == Color::Black ==> lo == alpha && hi == preferred(
                Color::Black,
                beta as int,
                best_score as int,
            ),
        ensures
            within(best_score as int, minimax(b, d, current_color), alpha as int, beta as int),
        decreases moves@.len() - k,
    {
        let c = moves[k];
        proof {
            lemma_candidate_sound(b, current_color, k as int);
        }
        let next = play(board, c);
        let reply = minimax_ab(&next, depth - 1, current_color.opposite(), lo, hi);
        proof {
            lemma_search_step(b, d, current_color, k as int);
        }
        match current_color {
            Color::White => {
                if reply > best_score {
                    best_score = reply;
                }
                if reply > lo {
                    lo = reply;
                }
            },
            Color::Black => {
                if reply < best_score {
                    best_score = reply;
                }
                if reply < hi {
                    hi = reply;
                }
            },
        }
        k += 1;
        if hi <= lo {
            proof {
                lemma_search_monotone(b, d, current_color, k as nat, moves@.len());
            }
            break ;
        }
    }
    best_score
}

/// The move that the search chooses for `color`, as the cells from and to:
/// each candidate is played on a copy of the board and the position after it
/// is searched `depth - 1` plies deep with the other side to move. The first
/// candidate with the best value is returned, and `None` exactly where
/// `color` has no move at all.
pub fn choose_best_move(board: &Board, color: Color, depth: usize) -> (r: Option<
    (Position, Position),
>)
    requires
        board.wf(),
        depth >= 1,
    ensures
        r == best_move(board@, color, depth as nat),
        r.is_none() <==> candidates(board@, color).len() == 0,
{
    let moves = collect_moves(board, color);
    let ghost b = board@;
    let ghost d = depth as nat;
    let mut best_score: i64 = match color {
        Color::White => i64::MIN,
        Color::Black => i64::MAX,
    };
    let mut chosen: Option<(Position, Position)> = None;
    let ghost mut pick: int = -1;
    let mut k: usize = 0;
    while k < moves.len()
        invariant
            board.wf(),
            b == board@,
            d == depth as nat,
            depth >= 1,
            k <= moves@.len(),
            moves@ == candidates(b, color),
            -1 <= pick < k,
            pick == -1 <==> k == 0,
            pick == -1 ==> chosen.is_none(),
            pick >= 0 ==> chosen == Some(move_of(b, moves@[pick])),
            pick >= 0 ==> best_score == reply_value(b, color, d, pick),
            pick >= 0 ==> forall|j: int|
                0 <= j < pick ==> improves(
                    color,
                    reply_value(b, color, d, pick),
                    #[trigger] reply_value(b, color, d, j),
                ),
            pick >= 0 ==> forall|j: int|
                0 <= j < k ==> !improves(
                    color,
                    #[trigger] reply_value(b, color, d, j),
                    reply_value(b, color, d, pick),
                ),
        decreases moves@.len() - k,
    {
        let c = moves[k];
        proof {
            lemma_candidate_sound(b, color, k as int);
        }
        let next = play(board, c);
        let reply = minimax_ab(&next, depth - 1, color.opposite(), i64::MIN, i64::MAX);
        assert(reply == reply_value(b, color, d, k as int));
        let better = chosen.is_none() || match color {
            Color::White => reply > best_score,
            Color::Black => reply < best_score,
        };
        if better {
            best_score = reply;
            chosen = Some((board.pieces[c.0].pos, c.1));
            proof {
                pick = k as int;
            }
        }
        k += 1;
    }
    proof {
        if pick >= 0 {
            assert(is_choice(b, color, d, pick));
            let other = choose|j: int| is_choice(b, color, d, j);
            lemma_choice_is_unique(b, color, d, pick, other);
        }
    }
    chosen
}

} // verus!
