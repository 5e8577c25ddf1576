use vstd::prelude::*;
use super::types::{Color, PieceType, Position};

verus! {

/// One piece on a board. The board assigns `id` when the piece is placed.
#[derive(Debug, Clone, Copy)]
pub struct Piece {
    pub id: u32,
    pub kind: PieceType,
    pub color: Color,
    pub pos: Position,
}

impl Piece {
    /// This piece standing on `to`.
    pub open spec fn moved_to(self, to: Position) -> Piece {
        Piece { id: self.id, kind: self.kind, color: self.color, pos: to }
    }

    /// This piece under the identifier `id`.
    pub open spec fn with_id(self, id: u32) -> Piece {
        Piece { id: id, kind: self.kind, color: self.color, pos: self.pos }
    }
}

} // verus!
