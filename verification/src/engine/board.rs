use vstd::prelude::*;
use super::piece::Piece;
use super::types::{Color, PieceType, Position, Tile};

verus! {

/// The mathematical value of a board: its dimensions, the topology of every
/// cell by column and row, the pieces in the order in which they were placed,
/// and the next identifier to hand out.
pub struct BoardView {
    pub width: int,
    pub height: int,
    pub tiles: Seq<Seq<Tile>>,
    pub pieces: Seq<Piece>,
    pub next_id: int,
}

impl BoardView {
    /// The cell lies on the grid.
    pub open spec fn in_bounds(self, pos: Position) -> bool {
        pos.0 < self.width && pos.1 < self.height
    }

    /// The cell lies on the grid and is no hole.
    pub open spec fn accessible(self, pos: Position) -> bool {
        self.in_bounds(pos) && self.tiles[pos.0 as int][pos.1 as int] != Tile::Blocked
    }

    /// Some piece stands on the cell.
    pub open spec fn occupied(self, pos: Position) -> bool {
        exists|i: int| 0 <= i < self.pieces.len() && (#[trigger] self.pieces[i]).pos == pos
    }

    /// The index of a piece that stands on the cell, where there is one.
    pub open spec fn index_at(self, pos: Position) -> int {
        choose|i: int| 0 <= i < self.pieces.len() && (#[trigger] self.pieces[i]).pos == pos
    }

    /// The piece that stands on the cell.
    pub open spec fn piece_at(self, pos: Position) -> Option<Piece> {
        if self.occupied(pos) {
            Some(self.pieces[self.index_at(pos)])
        } else {
            None
        }
    }

    /// The cell can be entered and nothing stands on it.
    pub open spec fn free(self, pos: Position) -> bool {
        self.accessible(pos) && !self.occupied(pos)
    }

    /// Some piece carries the identifier.
    pub open spec fn has_id(self, id: u32) -> bool {
        exists|i: int| 0 <= i < self.pieces.len() && (#[trigger] self.pieces[i]).id == id
    }

    /// The index of a piece that carries the identifier, where there is one.
    pub open spec fn index_of(self, id: u32) -> int {
        choose|i: int| 0 <= i < self.pieces.len() && (#[trigger] self.pieces[i]).id == id
    }

    /// The grid has `width` columns of `height` cells each.
    pub open spec fn grid_ok(self) -> bool {
        &&& self.width >= 0
        &&& self.height >= 0
        &&& self.tiles.len() == self.width
        &&& forall|x: int| 0 <= x < self.width ==> (#[trigger] self.tiles[x]).len() == self.height
    }

    /// Validity of a board: a rectangular grid; every piece on the grid; no
    /// two pieces on one cell; identifiers strictly increasing in placement
    /// order and all below the next identifier.
    pub open spec fn wf(self) -> bool {
        &&& self.grid_ok()
        &&& 0 <= self.next_id <= u32::MAX
        &&& forall|i: int| 0 <= i < self.pieces.len() ==> self.in_bounds((#[trigger] self.pieces[i]).pos)
        &&& forall|i: int| 0 <= i < self.pieces.len() ==> (#[trigger] self.pieces[i]).id < self.next_id
        &&& forall|i: int, j: int|
            #![trigger self.pieces[i], self.pieces[j]]
            0 <= i < j < self.pieces.len() ==> self.pieces[i].pos != self.pieces[j].pos
        &&& forall|i: int, j: int|
            #![trigger self.pieces[i], self.pieces[j]]
            0 <= i < j < self.pieces.len() ==> self.pieces[i].id < self.pieces[j].id
    }

    /// No piece stands on a hole.
    pub open spec fn well_placed(self) -> bool {
        forall|i: int| 0 <= i < self.pieces.len() ==> self.accessible((#[trigger] self.pieces[i]).pos)
    }

    /// The board with other pieces.
    pub open spec fn with_pieces(self, pieces: Seq<Piece>) -> BoardView {
        BoardView {
            width: self.width,
            height: self.height,
            tiles: self.tiles,
            pieces: pieces,
            next_id: self.next_id,
        }
    }

    /// The board with another grid.
    pub open spec fn with_tiles(self, tiles: Seq<Seq<Tile>>) -> BoardView {
        BoardView {
            width: self.width,
            height: self.height,
            tiles: tiles,
            pieces: self.pieces,
            next_id: self.next_id,
        }
    }

    /// The board without the piece that carries `id`.
    pub open spec fn without_id(self, id: u32) -> BoardView {
        if self.has_id(id) {
            self.with_pieces(self.pieces.remove(self.index_of(id)))
        } else {
            self
        }
    }

    /// The board without the piece that stands on `pos`.
    pub open spec fn without_at(self, pos: Position) -> BoardView {
        if self.occupied(pos) {
            self.with_pieces(self.pieces.remove(self.index_at(pos)))
        } else {
            self
        }
    }

    /// The board on which the piece that carries `id` stands on `to`.
    pub open spec fn with_moved(self, id: u32, to: Position) -> BoardView {
        if self.has_id(id) {
            let i = self.index_of(id);
            self.with_pieces(self.pieces.update(i, self.pieces[i].moved_to(to)))
        } else {
            self
        }
    }

    /// The board after the piece `id` has gone to `to`: what stood there is
    /// taken off, then the piece is set down.
    pub open spec fn after_move(self, id: u32, to: Position) -> BoardView {
        self.without_at(to).with_moved(id, to)
    }

    /// The board with the cell `pos` turned into a hole.
    pub open spec fn with_hole(self, pos: Position) -> BoardView {
        if self.in_bounds(pos) {
            self.with_tiles(
                self.tiles.update(
                    pos.0 as int,
                    self.tiles[pos.0 as int].update(pos.1 as int, Tile::Blocked),
                ),
            )
        } else {
            self
        }
    }

    /// The board with `piece` placed under the next identifier.
    pub open spec fn with_placed(self, piece: Piece) -> BoardView {
        BoardView {
            width: self.width,
            height: self.height,
            tiles: self.tiles,
            pieces: self.pieces.push(piece.with_id(self.next_id as u32)),
            next_id: self.next_id + 1,
        }
    }

    /// Whether `piece` can be placed: its cell is free and an identifier is
    /// left to give.
    pub open spec fn can_place(self, piece: Piece) -> bool {
        self.free(piece.pos) && self.next_id < u32::MAX
    }

    /// On a valid board at most one piece stands on a cell, so the piece
    /// found at an index is the piece at its position.
    pub proof fn lemma_piece_at_index(self, i: int)
        requires
            self.wf(),
            0 <= i < self.pieces.len(),
        ensures
            self.occupied(self.pieces[i].pos),
            self.index_at(self.pieces[i].pos) == i,
            self.piece_at(self.pieces[i].pos) == Some(self.pieces[i]),
    {
        let pos = self.pieces[i].pos;
        let j = self.index_at(pos);
        assert(self.pieces[j].pos == pos);
        if j < i {
            assert(self.pieces[j].pos != self.pieces[i].pos);
        } else if i < j {
            assert(self.pieces[i].pos != self.pieces[j].pos);
        }
    }

    /// On a valid board on which no piece was left standing on a hole, every
    /// piece stands on a cell of the grid that is no hole, no two pieces
    /// stand on one cell, and the piece found on a cell is the only one there.
    pub proof fn lemma_one_piece_per_open_cell(self, i: int, j: int)
        requires
            self.wf(),
            self.well_placed(),
            0 <= i < self.pieces.len(),
            0 <= j < self.pieces.len(),
        ensures
            self.in_bounds(self.pieces[i].pos),
            self.accessible(self.pieces[i].pos),
            self.pieces[i].pos == self.pieces[j].pos ==> i == j,
            self.piece_at(self.pieces[i].pos) == Some(self.pieces[i]),
    {
        self.lemma_piece_at_index(i);
        self.lemma_piece_at_index(j);
    }

    /// On a valid board identifiers are unique, so the piece found at an
    /// index is the piece of its identifier.
    pub proof fn lemma_index_of_id(self, i: int)
        requires
            self.wf(),
            0 <= i < self.pieces.len(),
        ensures
            self.has_id(self.pieces[i].id),
            self.index_of(self.pieces[i].id) == i,
    {
        let id = self.pieces[i].id;
        let j = self.index_of(id);
        assert(self.pieces[j].id == id);
        if j < i {
            assert(self.pieces[j].id < self.pieces[i].id);
        } else if i < j {
            assert(self.pieces[i].id < self.pieces[j].id);
        }
    }

    /// Identifiers grow with the index, so a valid board holds fewer pieces
    /// than identifiers were handed out.
    pub proof fn lemma_population_bound(self, i: int)
        requires
            self.wf(),
            0 <= i < self.pieces.len(),
        ensures
            self.pieces[i].id >= i,
            self.pieces.len() <= self.next_id,
    {
        self.lemma_id_at_least_index(i);
        self.lemma_id_at_least_index(self.pieces.len() - 1);
    }

    proof fn lemma_id_at_least_index(self, i: int)
        requires
            self.wf(),
            0 <= i < self.pieces.len(),
        ensures
            self.pieces[i].id >= i,
        decreases i,
    {
        if i > 0 {
            self.lemma_id_at_least_index(i - 1);
            assert(self.pieces[i - 1].id < self.pieces[i].id);
        }
    }

    /// Taking a piece off a valid board leaves a valid board.
    pub proof fn lemma_remove_keeps_wf(self, i: int)
        requires
            self.wf(),
            0 <= i < self.pieces.len(),
        ensures
            self.with_pieces(self.pieces.remove(i)).wf(),
            self.well_placed() ==> self.with_pieces(self.pieces.remove(i)).well_placed(),
            forall|pos: Position|
                self.with_pieces(self.pieces.remove(i)).occupied(pos) <==> (self.occupied(pos)
                    && pos != self.pieces[i].pos),
    {
        let after = self.with_pieces(self.pieces.remove(i));
        assert forall|k: int| 0 <= k < after.pieces.len() implies #[trigger] after.pieces[k]
            == self.pieces[if k < i { k } else { k + 1 }] by {}
        assert forall|pos: Position| after.occupied(pos) <==> (self.occupied(pos) && pos
            != self.pieces[i].pos) by {
            if after.occupied(pos) {
                let k = after.index_at(pos);
                let k0 = if k < i { k } else { k + 1 };
                assert(after.pieces[k] == self.pieces[k0]);
                assert(self.pieces[k0].pos == pos);
                if k0 < i {
                    assert(self.pieces[k0].pos != self.pieces[i].pos);
                } else {
                    assert(self.pieces[i].pos != self.pieces[k0].pos);
                }
            }
            if self.occupied(pos) && pos != self.pieces[i].pos {
                let k0 = self.index_at(pos);
                let k = if k0 < i { k0 } else { k0 - 1 };
                assert(after.pieces[k] == self.pieces[k0]);
            }
        }
    }

    /// Setting a piece of a valid board down on an unoccupied cell of the
    /// grid leaves a valid board.
    pub proof fn lemma_move_keeps_wf(self, i: int, to: Position)
        requires
            self.wf(),
            0 <= i < self.pieces.len(),
            self.in_bounds(to),
            !self.occupied(to),
        ensures
            self.with_pieces(self.pieces.update(i, self.pieces[i].moved_to(to))).wf(),
            self.well_placed() && self.accessible(to) ==> self.with_pieces(
                self.pieces.update(i, self.pieces[i].moved_to(to)),
            ).well_placed(),
    {
        let after = self.with_pieces(self.pieces.update(i, self.pieces[i].moved_to(to)));
        assert forall|a: int, b: int|
            #![trigger after.pieces[a], after.pieces[b]]
            0 <= a < b < after.pieces.len() implies after.pieces[a].pos != after.pieces[b].pos by {
            assert(self.pieces[a].pos != self.pieces[b].pos);
            assert(self.pieces[a].pos != to);
            assert(self.pieces[b].pos != to);
        }
        assert forall|a: int, b: int|
            #![trigger after.pieces[a], after.pieces[b]]
            0 <= a < b < after.pieces.len() implies after.pieces[a].id < after.pieces[b].id by {
            assert(self.pieces[a].id < self.pieces[b].id);
        }
        assert forall|a: int| 0 <= a < after.pieces.len() implies after.in_bounds(
            (#[trigger] after.pieces[a]).pos,
        ) by {
            assert(self.in_bounds(self.pieces[a].pos));
        }
        assert forall|a: int| 0 <= a < after.pieces.len() implies (#[trigger] after.pieces[a]).id
            < after.next_id by {
            assert(self.pieces[a].id < self.next_id);
        }
        if self.well_placed() && self.accessible(to) {
            assert forall|a: int| 0 <= a < after.pieces.len() implies after.accessible(
                (#[trigger] after.pieces[a]).pos,
            ) by {
                assert(self.accessible(self.pieces[a].pos));
            }
        }
    }

    /// A move to a cell of the grid leaves a valid board, and on it exactly
    /// the moved piece stands on the destination.
    pub proof fn lemma_after_move_wf(self, i: int, to: Position)
        requires
            self.wf(),
            0 <= i < self.pieces.len(),
            self.in_bounds(to),
        ensures
            self.after_move(self.pieces[i].id, to).wf(),
            self.after_move(self.pieces[i].id, to).pieces.len() <= self.pieces.len(),
            self.well_placed() && self.accessible(to) ==> self.after_move(
                self.pieces[i].id,
                to,
            ).well_placed(),
            to != self.pieces[i].pos ==> self.after_move(self.pieces[i].id, to).piece_at(to)
                == Some(self.pieces[i].moved_to(to)),
    {
        let id = self.pieces[i].id;
        let mid = self.without_at(to);
        if self.occupied(to) {
            let k = self.index_at(to);
            self.lemma_remove_keeps_wf(k);
        }
        assert(mid.wf());
        assert(!mid.occupied(to));
        if to != self.pieces[i].pos {
            if self.occupied(to) {
                let k = self.index_at(to);
                let j = if i < k {
                    i
                } else {
                    i - 1
                };
                assert(mid.pieces[j] == self.pieces[i]);
            } else {
                assert(mid.pieces[i].id == id);
            }
            assert(mid.has_id(id));
        }
        if mid.has_id(id) {
            let j = mid.index_of(id);
            mid.lemma_move_keeps_wf(j, to);
            let after = mid.with_moved(id, to);
            assert(after.pieces[j].pos == to);
            after.lemma_piece_at_index(j);
            if to != self.pieces[i].pos {
                if self.occupied(to) {
                    let k = self.index_at(to);
                    assert(mid.pieces[j] == self.pieces[if j < k { j } else { j + 1 }]);
                    let j0 = if j < k { j } else { j + 1 };
                    if j0 < i {
                        assert(self.pieces[j0].id < self.pieces[i].id);
                    } else if i < j0 {
                        assert(self.pieces[i].id < self.pieces[j0].id);
                    }
                } else {
                    if j < i {
                        assert(self.pieces[j].id < self.pieces[i].id);
                    } else if i < j {
                        assert(self.pieces[i].id < self.pieces[j].id);
                    }
                }
            }
        }
    }
}

/// The letter of a kind.
pub open spec fn kind_letter(kind: PieceType) -> char {
    match kind {
        PieceType::King => 'K',
        PieceType::Queen => 'Q',
        PieceType::Rook => 'R',
        PieceType::Bishop => 'B',
        PieceType::Knight => 'N',
        PieceType::Pawn => 'P',
        PieceType::Custom(_) => '?',
    }
}

/// The lower-case form of the letter of a kind.
pub open spec fn kind_letter_lower(kind: PieceType) -> char {
    match kind {
        PieceType::King => 'k',
        PieceType::Queen => 'q',
        PieceType::Rook => 'r',
        PieceType::Bishop => 'b',
        PieceType::Knight => 'n',
        PieceType::Pawn => 'p',
        PieceType::Custom(_) => '?',
    }
}

/// The character that stands for a piece: the letter of its kind, in upper
/// case for White and in lower case for Black.
pub open spec fn symbol_of(piece: Piece) -> char {
    match piece.color {
        Color::White => kind_letter(piece.kind),
        Color::Black => kind_letter_lower(piece.kind),
    }
}

/// The character that stands for a cell: `#` for a hole and for a cell off
/// the grid, else the symbol of the piece on it, else `.`.
pub open spec fn cell_char(b: BoardView, pos: Position) -> char {
    if !b.accessible(pos) {
        '#'
    } else {
        match b.piece_at(pos) {
            Some(p) => symbol_of(p),
            None => '.',
        }
    }
}

/// The character that stands for a piece: the letter of its kind, in upper
/// case for White and in lower case for Black.
pub fn piece_symbol(piece: &Piece) -> (c: char)
    ensures
        c == symbol_of(*piece),
{
    match piece.color {
        Color::White => match piece.kind {
            PieceType::King => 'K',
            PieceType::Queen => 'Q',
            PieceType::Rook => 'R',
            PieceType::Bishop => 'B',
            PieceType::Knight => 'N',
            PieceType::Pawn => 'P',
            PieceType::Custom(_) => '?',
        },
        Color::Black => match piece.kind {
            PieceType::King => 'k',
            PieceType::Queen => 'q',
            PieceType::Rook => 'r',
            PieceType::Bishop => 'b',
            PieceType::Knight => 'n',
            PieceType::Pawn => 'p',
            PieceType::Custom(_) => '?',
        },
    }
}

/// A rectangular board with holes and the pieces that stand on it.
pub struct Board {
    pub width: usize,
    pub height: usize,
    /// The topology of each cell, by column and then row.
    pub tiles: Vec<Vec<Tile>>,
    /// The pieces, in the order in which they were placed.
    pub pieces: Vec<Piece>,
    /// The identifier that the next placed piece receives.
    pub next_id: u32,
}

impl View for Board {
    type V = BoardView;

    open spec fn view(&self) -> BoardView {
        BoardView {
            width: self.width as int,
            height: self.height as int,
            tiles: Seq::new(self.tiles@.len(), |x: int| self.tiles@[x]@),
            pieces: self.pieces@,
            next_id: self.next_id as int,
        }
    }
}

/// The grid of the given size on which every cell is open.
pub open spec fn open_grid(width: int, height: int) -> Seq<Seq<Tile>> {
    Seq::new(width as nat, |x: int| Seq::new(height as nat, |y: int| Tile::Empty))
}

impl Board {
    /// Validity of the board: see [`BoardView::wf`].
    pub open spec fn wf(&self) -> bool {
        self@.wf()
    }

    /// An empty board of the given size: every cell open, no piece, and 1 as
    /// the first identifier.
    pub fn new(width: usize, height: usize) -> (b: Board)
        ensures
            b.wf(),
            b@.width == width,
            b@.height == height,
            b@.tiles == open_grid(width as int, height as int),
            b@.pieces == Seq::<Piece>::empty(),
            b@.next_id == 1,
            b@.well_placed(),
    {
        let mut tiles: Vec<Vec<Tile>> = Vec::new();
        let mut x: usize = 0;
        while x < width
            invariant
                x <= width,
                tiles@.len() == x,
                forall|k: int| 0 <= k < x ==> (#[trigger] tiles@[k])@ == Seq::new(height as nat, |y: int| Tile::Empty),
            decreases width - x,
        {
            let mut column: Vec<Tile> = Vec::new();
            let mut y: usize = 0;
            while y < height
                invariant
                    y <= height,
                    column@ == Seq::new(y as nat, |k: int| Tile::Empty),
                decreases height - y,
            {
                column.push(Tile::Empty);
                y += 1;
                assert(column@ =~= Seq::new(y as nat, |k: int| Tile::Empty));
            }
            tiles.push(column);
            x += 1;
        }
        let b = Board { width, height, tiles, pieces: Vec::new(), next_id: 1 };
        assert(b@.tiles =~= open_grid(width as int, height as int));
        b
    }

    /// Turns the cell into a hole. A cell off the grid is ignored. Whatever
    /// stands on the cell stays there.
    pub fn set_blocked(&mut self, pos: Position)
        requires
            old(self).wf(),
        ensures
            final(self).wf(),
            final(self)@ == old(self)@.with_hole(pos),
            old(self)@.well_placed() && !old(self)@.occupied(pos) ==> final(self)@.well_placed(),
    {
        if self.in_bounds(pos) {
            assert(self@.tiles[pos.0 as int] == self.tiles@[pos.0 as int]@);
            self.tiles[pos.0][pos.1] = Tile::Blocked;
            proof {
                assert(self@.tiles =~= old(self)@.with_hole(pos).tiles);
                assert(self@ == old(self)@.with_hole(pos));
                assert forall|i: int| 0 <= i < self@.pieces.len() implies self@.in_bounds(
                    (#[trigger] self@.pieces[i]).pos,
                ) by {
                    assert(old(self)@.in_bounds(old(self)@.pieces[i].pos));
                }
                if old(self)@.well_placed() && !old(self)@.occupied(pos) {
                    assert forall|i: int| 0 <= i < self@.pieces.len() implies self@.accessible(
                        (#[trigger] self@.pieces[i]).pos,
                    ) by {
                        assert(old(self)@.accessible(old(self)@.pieces[i].pos));
                        assert(old(self)@.pieces[i].pos != pos);
                    }
                }
            }
        }
    }

    /// Opens every cell again. The pieces are not touched.
    pub fn clear_tiles(&mut self)
        requires
            old(self).wf(),
        ensures
            final(self).wf(),
            final(self)@ == old(self)@.with_tiles(open_grid(old(self)@.width, old(self)@.height)),
            final(self)@.well_placed(),
    {
        let mut x: usize = 0;
        while x < self.width
            invariant
                x <= self.width,
                self.width == old(self).width,
                self.height == old(self).height,
                self.pieces == old(self).pieces,
                self.next_id == old(self).next_id,
                self@.grid_ok(),
                forall|k: int| 0 <= k < x ==> (#[trigger] self@.tiles[k]) == Seq::new(self.height as nat, |y: int| Tile::Empty),
            decreases self.width - x,
        {
            let mut y: usize = 0;
            while y < self.height
                invariant
                    x < self.width,
                    y <= self.height,
                    self.width == old(self).width,
                    self.height == old(self).height,
                    self.pieces == old(self).pieces,
                    self.next_id == old(self).next_id,
                    self@.grid_ok(),
                    forall|k: int| 0 <= k < x ==> (#[trigger] self@.tiles[k]) == Seq::new(self.height as nat, |y: int| Tile::Empty),
                    forall|k: int| 0 <= k < y ==> (#[trigger] self@.tiles[x as int][k]) == Tile::Empty,
                decreases self.height - y,
            {
                let ghost before = self@;
                assert(self@.tiles[x as int] == self.tiles@[x as int]@);
                self.tiles[x][y] = Tile::Empty;
                assert(self@.tiles =~= before.tiles.update(x as int, before.tiles[x as int].update(y as int, Tile::Empty)));
                y += 1;
            }
            assert(self@.tiles[x as int] =~= Seq::new(self.height as nat, |y: int| Tile::Empty));
            x += 1;
        }
        assert(self@.tiles =~= open_grid(old(self)@.width, old(self)@.height));
        assert(self@ == old(self)@.with_tiles(open_grid(old(self)@.width, old(self)@.height)));
        assert forall|i: int| 0 <= i < self@.pieces.len() implies self@.accessible(
            (#[trigger] self@.pieces[i]).pos,
        ) by {
            assert(old(self)@.in_bounds(old(self)@.pieces[i].pos));
        }
    }

    /// Places `piece` on its cell under the next identifier, which is
    /// returned. The placement fails, with `u32::MAX` returned and the board
    /// unchanged, if the cell is occupied, a hole or off the grid, or if no
    /// identifier below `u32::MAX` is left. The identifier that `piece`
    /// came with is ignored.
    pub fn add_piece(&mut self, piece: Piece) -> (id: u32)
        requires
            old(self).wf(),
        ensures
            final(self).wf(),
            old(self)@.can_place(piece) ==> id == old(self)@.next_id && final(self)@ == old(self)@.with_placed(piece),
            !old(self)@.can_place(piece) ==> id == u32::MAX && final(self)@ == old(self)@,
            old(self)@.well_placed() ==> final(self)@.well_placed(),
    {
        if !self.is_tile_free(piece.pos) || self.next_id == u32::MAX {
            return u32::MAX;
        }
        let id: u32 = self.next_id;
        let placed = Piece { id: id, kind: piece.kind, color: piece.color, pos: piece.pos };
        self.pieces.push(placed);
        self.next_id = id + 1;
        proof {
            let before = old(self)@;
            assert(self@.tiles =~= before.tiles);
            assert(self@ == before.with_placed(piece));
            let n = before.pieces.len() as int;
            assert forall|i: int, j: int|
                #![trigger self@.pieces[i], self@.pieces[j]]
                0 <= i < j < self@.pieces.len() implies self@.pieces[i].pos != self@.pieces[j].pos
                && self@.pieces[i].id < self@.pieces[j].id by {
                if j < n {
                    assert(before.pieces[i].pos != before.pieces[j].pos);
                    assert(before.pieces[i].id < before.pieces[j].id);
                } else {
                    assert(before.pieces[i].id < before.next_id);
                    assert(before.pieces[i].pos != piece.pos);
                }
            }
            assert forall|i: int| 0 <= i < self@.pieces.len() implies self@.in_bounds(
                (#[trigger] self@.pieces[i]).pos,
            ) && self@.pieces[i].id < self@.next_id by {
                if i < n {
                    assert(before.in_bounds(before.pieces[i].pos));
                    assert(before.pieces[i].id < before.next_id);
                }
            }
            if before.well_placed() {
                assert forall|i: int| 0 <= i < self@.pieces.len() implies self@.accessible(
                    (#[trigger] self@.pieces[i]).pos,
                ) by {
                    if i < n {
                        assert(before.accessible(before.pieces[i].pos));
                    }
                }
            }
        }
        id
    }

    /// The index of the piece that stands on `pos`.
    pub fn find_index_at(&self, pos: Position) -> (r: Option<usize>)
        requires
            self.wf(),
        ensures
            r.is_some() == self@.occupied(pos),
            r.is_some() ==> r.unwrap() == self@.index_at(pos) && r.unwrap() < self.pieces@.len(),
    {
        let mut i: usize = 0;
        while i < self.pieces.len()
            invariant
                i <= self.pieces@.len(),
                self.wf(),
                forall|k: int| 0 <= k < i ==> (#[trigger] self.pieces@[k]).pos != pos,
            decreases self.pieces@.len() - i,
        {
            let p = &self.pieces[i];
            if p.pos.0 == pos.0 && p.pos.1 == pos.1 {
                proof {
                    self@.lemma_piece_at_index(i as int);
                }
                return Some(i);
            }
            i += 1;
        }
        None
    }

    /// The index of the piece that carries `id`.
    pub fn find_index_of(&self, id: u32) -> (r: Option<usize>)
        requires
            self.wf(),
        ensures
            r.is_some() == self@.has_id(id),
            r.is_some() ==> r.unwrap() == self@.index_of(id) && r.unwrap() < self.pieces@.len(),
    {
        let mut i: usize = 0;
        while i < self.pieces.len()
            invariant
                i <= self.pieces@.len(),
                self.wf(),
                forall|k: int| 0 <= k < i ==> (#[trigger] self.pieces@[k]).id != id,
            decreases self.pieces@.len() - i,
        {
            if self.pieces[i].id == id {
                proof {
                    self@.lemma_index_of_id(i as int);
                }
                return Some(i);
            }
            i += 1;
        }
        None
    }

    /// Takes the piece that carries `id` off the board, if there is one.
    pub fn remove_piece(&mut self, id: u32)
        requires
            old(self).wf(),
        ensures
            final(self).wf(),
            final(self)@ == old(self)@.without_id(id),
            old(self)@.well_placed() ==> final(self)@.well_placed(),
    {
        match self.find_index_of(id) {
            Some(i) => {
                self.pieces.remove(i);
                proof {
                    old(self)@.lemma_remove_keeps_wf(i as int);
                    assert(self@.tiles =~= old(self)@.tiles);
                    assert(self@ == old(self)@.without_id(id));
                }
            },
            None => {},
        }
    }

    /// Takes the piece that stands on `pos` off the board, if there is one.
    pub fn remove_piece_at(&mut self, pos: Position)
        requires
            old(self).wf(),
        ensures
            final(self).wf(),
            final(self)@ == old(self)@.without_at(pos),
            !final(self)@.occupied(pos),
            old(self)@.well_placed() ==> final(self)@.well_placed(),
    {
        match self.find_index_at(pos) {
            Some(i) => {
                self.pieces.remove(i);
                proof {
                    old(self)@.lemma_remove_keeps_wf(i as int);
                    assert(self@.tiles =~= old(self)@.tiles);
                    assert(self@ == old(self)@.without_at(pos));
                }
            },
            None => {},
        }
    }

    /// Sets the piece that carries `id` down on `to`; its identifier and kind
    /// stay. The destination must lie on the grid with nothing standing on
    /// it, or the board would no longer be valid.
    pub fn move_piece(&mut self, id: u32, to: Position)
        requires
            old(self).wf(),
            old(self)@.in_bounds(to),
            !old(self)@.occupied(to),
        ensures
            final(self).wf(),
            final(self)@ == old(self)@.with_moved(id, to),
            old(self)@.well_placed() && old(self)@.accessible(to) ==> final(self)@.well_placed(),
    {
        match self.find_index_of(id) {
            Some(i) => {
                let p = self.pieces[i];
                self.pieces[i] = Piece { id: p.id, kind: p.kind, color: p.color, pos: to };
                proof {
                    old(self)@.lemma_move_keeps_wf(i as int, to);
                    assert(self@.tiles =~= old(self)@.tiles);
                    assert(self@.pieces =~= old(self)@.pieces.update(i as int, old(self)@.pieces[i as int].moved_to(to)));
                    assert(self@ == old(self)@.with_moved(id, to));
                }
            },
            None => {},
        }
    }

    /// The piece that stands on `pos`, found by a scan over the pieces.
    pub fn get_piece_at(&self, pos: Position) -> (r: Option<&Piece>)
        requires
            self.wf(),
        ensures
            match r {
                Some(p) => self@.piece_at(pos) == Some(*p),
                None => self@.piece_at(pos).is_none(),
            },
    {
        match self.find_index_at(pos) {
            Some(i) => Some(&self.pieces[i]),
            None => None,
        }
    }

    /// Whether the cell lies on the grid.
    pub fn in_bounds(&self, pos: Position) -> (r: bool)
        ensures
            r == self@.in_bounds(pos),
    {
        pos.0 < self.width && pos.1 < self.height
    }

    /// Whether the cell can be entered: it lies on the grid and is no hole.
    /// A piece may stand on it.
    pub fn is_tile_accessible(&self, pos: Position) -> (r: bool)
        requires
            self.wf(),
        ensures
            r == self@.accessible(pos),
    {
        if !self.in_bounds(pos) {
            return false;
        }
        assert(self@.tiles[pos.0 as int] == self.tiles@[pos.0 as int]@);
        self.tiles[pos.0][pos.1] != Tile::Blocked
    }

    /// Whether the cell is free: it can be entered and nothing stands on it.
    pub fn is_tile_free(&self, pos: Position) -> (r: bool)
        requires
            self.wf(),
        ensures
            r == self@.free(pos),
    {
        self.is_tile_accessible(pos) && self.find_index_at(pos).is_none()
    }

    /// Takes every piece off the board and starts the identifiers at 1 again.
    pub fn clear_pieces(&mut self)
        requires
            old(self).wf(),
        ensures
            final(self).wf(),
            final(self)@.width == old(self)@.width,
            final(self)@.height == old(self)@.height,
            final(self)@.tiles == old(self)@.tiles,
            final(self)@.pieces == Seq::<Piece>::empty(),
            final(self)@.next_id == 1,
            final(self)@.well_placed(),
    {
        self.pieces.clear();
        self.next_id = 1;
        assert(self@.tiles =~= old(self)@.tiles);
    }

    /// The character that stands for the cell `pos`: `#` for a hole and for a
    /// cell off the grid, else the symbol of the piece on it, else `.`.
    pub fn cell_symbol(&self, pos: Position) -> (c: char)
        requires
            self.wf(),
        ensures
            c == cell_char(self@, pos),
    {
        if !self.is_tile_accessible(pos) {
            '#'
        } else {
            match self.get_piece_at(pos) {
                Some(p) => piece_symbol(p),
                None => '.',
            }
        }
    }

    /// The board as text: one row after the other from row 0, and in each
    /// row the characters of its cells from column 0.
    pub fn symbols(&self) -> (rows: Vec<Vec<char>>)
        requires
            self.wf(),
        ensures
            rows@.len() == self@.height,
            forall|y: int| 0 <= y < rows@.len() ==> (#[trigger] rows@[y])@.len() == self@.width,
            forall|x: int, y: int|
                0 <= x < self@.width && 0 <= y < self@.height ==> #[trigger] rows@[y]@[x]
                    == cell_char(self@, (x as usize, y as usize)),
    {
        let mut rows: Vec<Vec<char>> = Vec::new();
        let mut y: usize = 0;
        while y < self.height
            invariant
                self.wf(),
                y <= self.height,
                rows@.len() == y,
                forall|j: int| 0 <= j < rows@.len() ==> (#[trigger] rows@[j])@.len() == self@.width,
                forall|i: int, j: int|
                    0 <= i < self@.width && 0 <= j < y ==> #[trigger] rows@[j]@[i] == cell_char(
                        self@,
                        (i as usize, j as usize),
                    ),
            decreases self.height - y,
        {
            let mut row: Vec<char> = Vec::new();
            let mut x: usize = 0;
            while x < self.width
                invariant
                    self.wf(),
                    y < self.height,
                    x <= self.width,
                    row@.len() == x,
                    forall|i: int|
                        0 <= i < x ==> #[trigger] row@[i] == cell_char(
                            self@,
                            (i as usize, y as usize),
                        ),
                decreases self.width - x,
            {
                row.push(self.cell_symbol((x, y)));
                x += 1;
            }
            rows.push(row);
            y += 1;
        }
        rows
    }

    /// Whether the board is valid. A board that was made by `new` and changed
    /// only through the methods of this type is; one whose fields were set by
    /// hand may not be.
    pub fn is_valid(&self) -> (r: bool)
        ensures
            r == self.wf(),
    {
        if self.tiles.len() != self.width {
            return false;
        }
        let mut x: usize = 0;
        while x < self.width
            invariant
                x <= self.width,
                self.tiles@.len() == self.width,
                forall|k: int| 0 <= k < x ==> (#[trigger] self@.tiles[k]).len() == self.height,
            decreases self.width - x,
        {
            if self.tiles[x].len() != self.height {
                assert(self@.tiles[x as int].len() != self.height);
                return false;
            }
            assert(self@.tiles[x as int] == self.tiles@[x as int]@);
            x += 1;
        }
        assert(self@.grid_ok());
        let mut j: usize = 0;
        while j < self.pieces.len()
            invariant
                j <= self.pieces@.len(),
                self@.grid_ok(),
                forall|k: int|
                    0 <= k < j ==> self@.in_bounds((#[trigger] self@.pieces[k]).pos)
                        && self@.pieces[k].id < self.next_id,
                forall|a: int, b: int|
                    #![trigger self@.pieces[a], self@.pieces[b]]
                    0 <= a < b < j ==> self@.pieces[a].pos != self@.pieces[b].pos
                        && self@.pieces[a].id < self@.pieces[b].id,
            decreases self.pieces@.len() - j,
        {
            let q = self.pieces[j];
            if !self.in_bounds(q.pos) || q.id >= self.next_id {
                assert(!(self@.in_bounds(self@.pieces[j as int].pos) && self@.pieces[j as int].id
                    < self.next_id));
                return false;
            }
            let mut i: usize = 0;
            while i < j
                invariant
                    i <= j < self.pieces@.len(),
                    q == self@.pieces[j as int],
                    forall|a: int|
                        0 <= a < i ==> (#[trigger] self@.pieces[a]).pos != q.pos
                            && self@.pieces[a].id < q.id,
                decreases j - i,
            {
                let p = self.pieces[i];
                if (p.pos.0 == q.pos.0 && p.pos.1 == q.pos.1) || p.id >= q.id {
                    assert(!(self@.pieces[i as int].pos != self@.pieces[j as int].pos
                        && self@.pieces[i as int].id < self@.pieces[j as int].id));
                    return false;
                }
                i += 1;
            }
            j += 1;
        }
        true
    }

    /// An independent copy of the board.
    pub fn duplicate(&self) -> (r: Board)
        requires
            self.wf(),
        ensures
            r@ == self@,
    {
        let mut tiles: Vec<Vec<Tile>> = Vec::new();
        let mut x: usize = 0;
        while x < self.width
            invariant
                self.wf(),
                x <= self.width,
                tiles@.len() == x,
                forall|k: int| 0 <= k < x ==> (#[trigger] tiles@[k])@ == self@.tiles[k],
            decreases self.width - x,
        {
            let mut column: Vec<Tile> = Vec::new();
            let mut y: usize = 0;
            assert(self@.tiles[x as int] == self.tiles@[x as int]@);
            while y < self.height
                invariant
                    self.wf(),
                    x < self.width,
                    y <= self.height,
                    self@.tiles[x as int] == self.tiles@[x as int]@,
                    column@ == self@.tiles[x as int].take(y as int),
                decreases self.height - y,
            {
                column.push(self.tiles[x][y]);
                y += 1;
                assert(column@ =~= self@.tiles[x as int].take(y as int));
            }
            assert(column@ =~= self@.tiles[x as int]);
            tiles.push(column);
            x += 1;
        }
        let mut pieces: Vec<Piece> = Vec::new();
        let mut i: usize = 0;
        while i < self.pieces.len()
            invariant
                i <= self.pieces@.len(),
                pieces@ == self.pieces@.take(i as int),
            decreases self.pieces@.len() - i,
        {
            pieces.push(self.pieces[i]);
            i += 1;
            assert(pieces@ =~= self.pieces@.take(i as int));
        }
        assert(pieces@ =~= self.pieces@);
        let r = Board { width: self.width, height: self.height, tiles, pieces, next_id: self.next_id };
        assert(r@.tiles =~= self@.tiles);
        r
    }
}

} // verus!
