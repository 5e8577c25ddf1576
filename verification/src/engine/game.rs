use vstd::prelude::*;
use super::board::{Board, BoardView};
use super::minmax::{best_move, candidates, choose_best_move, is_choice, lemma_candidate_sound};
use super::movement::{contains_position, get_legal_moves, legal_moves, lemma_no_move_in_place};
use super::piece::Piece;
use super::types::{Color, PieceType, Position};

verus! {

/// Whose move it is.
#[derive(Debug, Clone, Copy, PartialEq, Eq, Structural)]
pub enum TurnState {
    White,
    Black,
}

impl TurnState {
    /// The turn after this one.
    pub open spec fn flipped(self) -> TurnState {
        match self {
            TurnState::White => TurnState::Black,
            TurnState::Black => TurnState::White,
        }
    }

    /// The colour that is to move.
    pub open spec fn color(self) -> Color {
        match self {
            TurnState::White => Color::White,
            TurnState::Black => Color::Black,
        }
    }

    /// The turn after this one.
    pub fn switch(self) -> (r: TurnState)
        ensures
            r == self.flipped(),
    {
        match self {
            TurnState::White => TurnState::Black,
            TurnState::Black => TurnState::White,
        }
    }

    /// The colour that is to move.
    pub fn as_color(self) -> (r: Color)
        ensures
            r == self.color(),
    {
        match self {
            TurnState::White => Color::White,
            TurnState::Black => Color::Black,
        }
    }
}

/// Why a requested move was turned down.
#[derive(Debug, Clone, Copy, PartialEq, Eq, Structural)]
pub enum MoveError {
    /// No piece stands on the source cell.
    NoPieceAtSource,
    /// The piece on the source cell belongs to the side that is not to move.
    WrongTurn,
    /// The destination is not among the moves of the piece.
    IllegalDestination,
}

/// How a game stands, judged by the kings that are left.
#[derive(Debug, Clone, Copy, PartialEq, Eq, Structural)]
pub enum GameOutcome {
    /// Both kings stand.
    Ongoing,
    /// Only the white king stands.
    WhiteWins,
    /// Only the black king stands.
    BlackWins,
    /// Neither king stands.
    NoKings,
}

/// A king of `color` stands on the board.
pub open spec fn has_king(b: BoardView, color: Color) -> bool {
    exists|i: int|
        0 <= i < b.pieces.len() && (#[trigger] b.pieces[i]).kind == PieceType::King
            && b.pieces[i].color == color
}

/// The outcome that the kings on the board give.
pub open spec fn outcome(b: BoardView) -> GameOutcome {
    if has_king(b, Color::White) {
        if has_king(b, Color::Black) {
            GameOutcome::Ongoing
        } else {
            GameOutcome::WhiteWins
        }
    } else {
        if has_king(b, Color::Black) {
            GameOutcome::BlackWins
        } else {
            GameOutcome::NoKings
        }
    }
}

/// The judgement on a requested move: the piece that moves, or the reason
/// why none does. The checks come in this order: a piece on the source cell,
/// its colour against the turn, the destination among its moves.
pub open spec fn move_check(b: BoardView, turn: TurnState, from: Position, to: Position) -> Result<
    Piece,
    MoveError,
> {
    match b.piece_at(from) {
        None => Err(MoveError::NoPieceAtSource),
        Some(p) => if p.color != turn.color() {
            Err(MoveError::WrongTurn)
        } else if !legal_moves(b, p).contains(to) {
            Err(MoveError::IllegalDestination)
        } else {
            Ok(p)
        },
    }
}

/// The move that the computer makes: the choice of the search for Black when
/// it is Black's turn, and none when it is White's.
pub open spec fn computer_choice(b: BoardView, turn: TurnState, depth: nat) -> Option<
    (Position, Position),
> {
    if turn == TurnState::Black {
        best_move(b, Color::Black, depth)
    } else {
        None
    }
}

/// A live game: the board and whose move it is.
pub struct GameState {
    pub board: Board,
    pub turn: TurnState,
}

impl GameState {
    /// A game on `board` with White to move.
    pub fn new(board: Board) -> (g: GameState)
        ensures
            g.board == board,
            g.turn == TurnState::White,
    {
        GameState { board, turn: TurnState::White }
    }

    /// Moves the piece on `from` to `to` for the side whose turn it is. A
    /// move that [`move_check`] turns down changes nothing and returns the
    /// reason. Otherwise whatever stood on `to` is captured, the piece is set
    /// down there, and the turn passes to the other side.
    pub fn try_move(&mut self, from: Position, to: Position) -> (r: Result<(), MoveError>)
        requires
            old(self).board.wf(),
        ensures
            final(self).board.wf(),
            match move_check(old(self).board@, old(self).turn, from, to) {
                Ok(p) => {
                    &&& r == Ok::<(), MoveError>(())
                    &&& final(self).board@ == old(self).board@.after_move(p.id, to)
                    &&& final(self).board@.piece_at(to) == Some(p.moved_to(to))
                    &&& final(self).turn == old(self).turn.flipped()
                },
                Err(e) => r == Err::<(), MoveError>(e) && *final(self) == *old(self),
            },
            old(self).board@.well_placed() ==> final(self).board@.well_placed(),
    {
        let piece: Piece = match self.board.get_piece_at(from) {
            Some(p) => *p,
            None => {
                return Err(MoveError::NoPieceAtSource);
            },
        };
        if piece.color != self.turn.as_color() {
            return Err(MoveError::WrongTurn);
        }
        let moves = get_legal_moves(&self.board, &piece);
        if !contains_position(&moves, to) {
            return Err(MoveError::IllegalDestination);
        }
        proof {
            let b = old(self).board@;
            let i = b.index_at(from);
            let k = moves@.index_of(to);
            assert(moves@[k] == to);
            b.lemma_piece_at_index(i);
            b.lemma_after_move_wf(i, to);
        }
        self.board.remove_piece_at(to);
        self.board.move_piece(piece.id, to);
        self.turn = self.turn.switch();
        Ok(())
    }

    /// Lets the computer move for Black: [`computer_choice`] is played as
    /// `try_move` would play it and returned, and the turn passes to White.
    /// On White's turn, whatever the depth, and where Black has no move,
    /// nothing changes and `None` is returned. On Black's turn the search
    /// needs a depth of at least 1.
    pub fn try_ai_move(&mut self, depth: usize) -> (r: Option<(Position, Position)>)
        requires
            old(self).board.wf(),
            old(self).turn == TurnState::White || depth >= 1,
        ensures
            final(self).board.wf(),
            r == computer_choice(old(self).board@, old(self).turn, depth as nat),
            r.is_none() <==> old(self).turn == TurnState::White || candidates(
                old(self).board@,
                Color::Black,
            ).len() == 0,
            match r {
                Some((from, to)) => {
                    &&& old(self).board@.piece_at(from).is_some()
                    &&& final(self).board@ == old(self).board@.after_move(
                        old(self).board@.piece_at(from).unwrap().id,
                        to,
                    )
                    &&& final(self).board@.piece_at(to) == Some(
                        old(self).board@.piece_at(from).unwrap().moved_to(to),
                    )
                    &&& final(self).turn == old(self).turn.flipped()
                },
                None => *final(self) == *old(self),
            },
            old(self).board@.well_placed() ==> final(self).board@.well_placed(),
    {
        match self.turn {
            TurnState::White => {
                return None;
            },
            TurnState::Black => {},
        }
        let (from, to) = match choose_best_move(&self.board, Color::Black, depth) {
            Some(m) => m,
            None => {
                return None;
            },
        };
        proof {
            let b = old(self).board@;
            let k = choose|k: int| is_choice(b, Color::Black, depth as nat, k);
            assert(is_choice(b, Color::Black, depth as nat, k));
            lemma_candidate_sound(b, Color::Black, k);
            let c = candidates(b, Color::Black)[k];
            b.lemma_piece_at_index(c.0 as int);
            b.lemma_after_move_wf(c.0 as int, to);
            lemma_no_move_in_place(b, c.0 as int);
        }
        let id: u32 = match self.board.get_piece_at(from) {
            Some(p) => p.id,
            None => {
                return None;
            },
        };
        self.board.remove_piece_at(to);
        self.board.move_piece(id, to);
        self.turn = self.turn.switch();
        Some((from, to))
    }
}

/// The outcome of the game on `board`: ongoing while both kings stand, won by
/// the side whose king alone is left, and `NoKings` when neither is.
pub fn check_game_end(board: &Board) -> (r: GameOutcome)
    ensures
        r == outcome(board@),
{
    let mut white_king_exists = false;
    let mut black_king_exists = false;
    let mut i: usize = 0;
    while i < board.pieces.len()
        invariant
            i <= board.pieces@.len(),
            white_king_exists == has_king(board@.with_pieces(board@.pieces.take(i as int)), Color::White),
            black_king_exists == has_king(board@.with_pieces(board@.pieces.take(i as int)), Color::Black),
        decreases board.pieces@.len() - i,
    {
        let piece = &board.pieces[i];
        let ghost before = board@.with_pieces(board@.pieces.take(i as int));
        let ghost after = board@.with_pieces(board@.pieces.take(i + 1));
        match piece.kind {
            PieceType::King => {
                match piece.color {
                    Color::White => {
                        white_king_exists = true;
                    },
                    Color::Black => {
                        black_king_exists = true;
                    },
                }
            },
            _ => {},
        }
        proof {
            assert(after.pieces[i as int] == *piece);
            assert forall|c: Color| has_king(after, c) <==> (has_king(before, c) || (piece.kind
                == PieceType::King && piece.color == c)) by {
                if has_king(before, c) {
                    let k = choose|k: int|
                        0 <= k < before.pieces.len() && (#[trigger] before.pieces[k]).kind
                            == PieceType::King && before.pieces[k].color == c;
                    assert(after.pieces[k] == before.pieces[k]);
                }
                if has_king(after, c) {
                    let k = choose|k: int|
                        0 <= k < after.pieces.len() && (#[trigger] after.pieces[k]).kind
                            == PieceType::King && after.pieces[k].color == c;
                    if k < i {
                        assert(before.pieces[k] == after.pieces[k]);
                    }
                }
            }
        }
        i += 1;
    }
    assert(board@.pieces.take(i as int) =~= board@.pieces);
    match (white_king_exists, black_king_exists) {
        (true, true) => GameOutcome::Ongoing,
        (false, true) => GameOutcome::BlackWins,
        (true, false) => GameOutcome::WhiteWins,
        (false, false) => GameOutcome::NoKings,
    }
}

} // verus!
