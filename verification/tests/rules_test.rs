use variant_chess::engine::board::Board;
use variant_chess::engine::movement::{
    contains_position, get_legal_moves, shift, step_from, straight_line_moves,
};
use variant_chess::engine::piece::Piece;
use variant_chess::engine::types::{Color, PieceType, Tile};

fn put(board: &mut Board, kind: PieceType, color: Color, pos: (usize, usize)) -> u32 {
    board.add_piece(Piece { id: 0, kind, color, pos })
}

fn moves_at(board: &Board, pos: (usize, usize)) -> Vec<(usize, usize)> {
    let piece = *board.get_piece_at(pos).unwrap();
    get_legal_moves(board, &piece)
}

#[test]
fn new_board_is_open_and_empty() {
    let board = Board::new(3, 2);
    assert_eq!(board.tiles.len(), 3);
    for column in board.tiles.iter() {
        assert_eq!(column.len(), 2);
        for tile in column.iter() {
            assert_eq!(*tile, Tile::Empty);
        }
    }
    assert!(board.pieces.is_empty());
    assert_eq!(board.next_id, 1);
}

#[test]
fn identifiers_count_up_from_one() {
    let mut board = Board::new(4, 4);
    assert_eq!(put(&mut board, PieceType::Pawn, Color::White, (0, 0)), 1);
    assert_eq!(put(&mut board, PieceType::Pawn, Color::White, (1, 0)), 2);
    assert_eq!(put(&mut board, PieceType::Pawn, Color::Black, (2, 0)), 3);
    assert_eq!(board.next_id, 4);
    assert_eq!(board.get_piece_at((1, 0)).unwrap().id, 2);
}

#[test]
fn placement_fails_on_occupied_blocked_and_outside_cells() {
    let mut board = Board::new(4, 4);
    put(&mut board, PieceType::Rook, Color::White, (1, 1));
    board.set_blocked((2, 2));
    assert_eq!(put(&mut board, PieceType::Pawn, Color::Black, (1, 1)), u32::MAX);
    assert_eq!(put(&mut board, PieceType::Pawn, Color::Black, (2, 2)), u32::MAX);
    assert_eq!(put(&mut board, PieceType::Pawn, Color::Black, (4, 0)), u32::MAX);
    assert_eq!(put(&mut board, PieceType::Pawn, Color::Black, (0, 4)), u32::MAX);
    assert_eq!(board.pieces.len(), 1);
    assert_eq!(board.next_id, 2);
    assert_eq!(board.get_piece_at((1, 1)).unwrap().kind, PieceType::Rook);
}

#[test]
fn placement_fails_when_identifiers_run_out() {
    let mut board = Board::new(2, 2);
    board.next_id = u32::MAX;
    assert_eq!(put(&mut board, PieceType::Pawn, Color::Black, (0, 0)), u32::MAX);
    assert!(board.pieces.is_empty());
}

#[test]
fn set_blocked_outside_the_grid_changes_nothing() {
    let mut board = Board::new(2, 2);
    board.set_blocked((2, 0));
    board.set_blocked((0, 2));
    for column in board.tiles.iter() {
        for tile in column.iter() {
            assert_eq!(*tile, Tile::Empty);
        }
    }
}

#[test]
fn bounds_and_accessibility() {
    let mut board = Board::new(3, 2);
    board.set_blocked((1, 1));
    put(&mut board, PieceType::Pawn, Color::White, (0, 0));
    assert!(board.in_bounds((2, 1)));
    assert!(!board.in_bounds((3, 0)));
    assert!(!board.in_bounds((0, 2)));
    assert!(board.is_tile_accessible((0, 0)));
    assert!(!board.is_tile_accessible((1, 1)));
    assert!(!board.is_tile_accessible((3, 1)));
    assert!(!board.is_tile_free((0, 0)));
    assert!(!board.is_tile_free((1, 1)));
    assert!(board.is_tile_free((2, 1)));
    assert!(!board.is_tile_free((2, 2)));
}

#[test]
fn removing_pieces_by_identifier_and_by_cell() {
    let mut board = Board::new(4, 4);
    let a = put(&mut board, PieceType::Rook, Color::White, (0, 0));
    let b = put(&mut board, PieceType::Rook, Color::Black, (1, 0));
    let c = put(&mut board, PieceType::Rook, Color::Black, (2, 0));
    board.remove_piece(b);
    assert!(board.get_piece_at((1, 0)).is_none());
    assert_eq!(board.pieces.len(), 2);
    board.remove_piece(b);
    assert_eq!(board.pieces.len(), 2);
    board.remove_piece_at((0, 0));
    assert_eq!(board.pieces.len(), 1);
    assert_eq!(board.pieces[0].id, c);
    board.remove_piece_at((3, 3));
    assert_eq!(board.pieces.len(), 1);
    assert_ne!(a, c);
    assert_eq!(board.next_id, 4);
}

#[test]
fn move_piece_keeps_identifier_and_kind() {
    let mut board = Board::new(4, 4);
    let id = put(&mut board, PieceType::Bishop, Color::Black, (0, 0));
    board.move_piece(id, (3, 2));
    assert!(board.get_piece_at((0, 0)).is_none());
    let moved = board.get_piece_at((3, 2)).unwrap();
    assert_eq!(moved.id, id);
    assert_eq!(moved.kind, PieceType::Bishop);
    assert_eq!(moved.color, Color::Black);
    board.move_piece(99, (1, 1));
    assert!(board.get_piece_at((1, 1)).is_none());
}

#[test]
fn clear_pieces_restarts_identifiers_and_keeps_holes() {
    let mut board = Board::new(4, 4);
    board.set_blocked((1, 1));
    put(&mut board, PieceType::Rook, Color::White, (0, 0));
    put(&mut board, PieceType::Rook, Color::White, (2, 0));
    board.clear_pieces();
    assert!(board.pieces.is_empty());
    assert_eq!(board.next_id, 1);
    assert_eq!(board.tiles[1][1], Tile::Blocked);
    assert_eq!(put(&mut board, PieceType::Rook, Color::White, (0, 0)), 1);
}

#[test]
fn clear_tiles_opens_holes_and_keeps_pieces() {
    let mut board = Board::new(3, 3);
    board.set_blocked((1, 1));
    board.set_blocked((2, 0));
    put(&mut board, PieceType::Rook, Color::White, (0, 0));
    board.clear_tiles();
    assert_eq!(board.tiles[1][1], Tile::Empty);
    assert_eq!(board.tiles[2][0], Tile::Empty);
    assert_eq!(board.pieces.len(), 1);
    assert_eq!(board.width, 3);
    assert_eq!(board.height, 3);
}

#[test]
fn duplicate_is_independent() {
    let mut board = Board::new(3, 3);
    board.set_blocked((1, 1));
    put(&mut board, PieceType::Rook, Color::White, (0, 0));
    let mut copy = board.duplicate();
    assert_eq!(copy.tiles, board.tiles);
    assert_eq!(copy.pieces.len(), 1);
    assert_eq!(copy.next_id, board.next_id);
    copy.remove_piece_at((0, 0));
    copy.set_blocked((2, 2));
    assert_eq!(board.pieces.len(), 1);
    assert_eq!(board.tiles[2][2], Tile::Empty);
}

#[test]
fn shift_stays_within_coordinates() {
    assert_eq!(shift(3, 2), Some(5));
    assert_eq!(shift(3, -2), Some(1));
    assert_eq!(shift(1, -2), None);
    assert_eq!(shift(0, 0), Some(0));
    assert_eq!(shift(usize::MAX, 1), None);
    assert_eq!(shift(usize::MAX, -128), Some(usize::MAX - 128));
    assert_eq!(step_from((2, 0), (1, -1)), None);
    assert_eq!(step_from((2, 1), (-2, 1)), Some((0, 2)));
}

#[test]
fn king_in_the_corner_has_three_moves() {
    let mut board = Board::new(8, 8);
    put(&mut board, PieceType::King, Color::White, (0, 0));
    assert_eq!(moves_at(&board, (0, 0)), vec![(0, 1), (1, 0), (1, 1)]);
}

#[test]
fn king_moves_in_order_and_captures() {
    let mut board = Board::new(8, 8);
    put(&mut board, PieceType::King, Color::White, (4, 4));
    put(&mut board, PieceType::Pawn, Color::Black, (5, 5));
    put(&mut board, PieceType::Pawn, Color::White, (3, 4));
    board.set_blocked((4, 3));
    assert_eq!(
        moves_at(&board, (4, 4)),
        vec![(3, 3), (3, 5), (4, 5), (5, 3), (5, 4), (5, 5)]
    );
}

#[test]
fn rook_on_an_empty_board() {
    let mut board = Board::new(8, 8);
    put(&mut board, PieceType::Rook, Color::White, (4, 4));
    let moves = moves_at(&board, (4, 4));
    assert!(contains_position(&moves, (4, 0)));
    assert!(contains_position(&moves, (4, 7)));
    assert!(contains_position(&moves, (0, 4)));
    assert!(contains_position(&moves, (7, 4)));
    assert!(!contains_position(&moves, (5, 5)));
    assert!(!contains_position(&moves, (4, 4)));
    assert_eq!(moves.len(), 14);
    assert_eq!(
        moves,
        vec![
            (5, 4), (6, 4), (7, 4),
            (3, 4), (2, 4), (1, 4), (0, 4),
            (4, 5), (4, 6), (4, 7),
            (4, 3), (4, 2), (4, 1), (4, 0),
        ]
    );
}

#[test]
fn rook_stops_at_the_first_obstacle() {
    let mut board = Board::new(8, 8);
    put(&mut board, PieceType::Rook, Color::White, (4, 4));
    put(&mut board, PieceType::Pawn, Color::Black, (6, 4));
    put(&mut board, PieceType::Pawn, Color::White, (2, 4));
    board.set_blocked((4, 6));
    put(&mut board, PieceType::Pawn, Color::Black, (4, 7));
    assert_eq!(
        moves_at(&board, (4, 4)),
        vec![(5, 4), (6, 4), (3, 4), (4, 5), (4, 3), (4, 2), (4, 1), (4, 0)]
    );
}

#[test]
fn bishop_walks_the_diagonals_in_order() {
    let mut board = Board::new(4, 4);
    put(&mut board, PieceType::Bishop, Color::Black, (1, 1));
    put(&mut board, PieceType::Pawn, Color::White, (3, 3));
    assert_eq!(
        moves_at(&board, (1, 1)),
        vec![(2, 2), (3, 3), (2, 0), (0, 2), (0, 0)]
    );
}

#[test]
fn queen_is_rook_then_bishop() {
    let mut board = Board::new(5, 5);
    board.set_blocked((3, 2));
    put(&mut board, PieceType::Pawn, Color::Black, (1, 1));
    put(&mut board, PieceType::Queen, Color::White, (2, 2));
    let queen = *board.get_piece_at((2, 2)).unwrap();
    let as_rook = Piece { kind: PieceType::Rook, ..queen };
    let as_bishop = Piece { kind: PieceType::Bishop, ..queen };
    let mut expected = get_legal_moves(&board, &as_rook);
    expected.extend(get_legal_moves(&board, &as_bishop));
    assert_eq!(get_legal_moves(&board, &queen), expected);
    assert_eq!(expected.len(), 6 + 7);
}

#[test]
fn knight_jumps_in_order_and_over_pieces() {
    let mut board = Board::new(8, 8);
    put(&mut board, PieceType::Knight, Color::White, (3, 3));
    put(&mut board, PieceType::Pawn, Color::White, (3, 4));
    put(&mut board, PieceType::Pawn, Color::White, (5, 4));
    put(&mut board, PieceType::Pawn, Color::Black, (4, 5));
    board.set_blocked((2, 5));
    assert_eq!(
        moves_at(&board, (3, 3)),
        vec![(4, 5), (1, 4), (1, 2), (2, 1), (4, 1), (5, 2)]
    );
}

#[test]
fn white_pawn_steps_and_captures() {
    let mut board = Board::new(8, 8);
    put(&mut board, PieceType::Pawn, Color::White, (3, 3));
    put(&mut board, PieceType::Knight, Color::Black, (2, 2));
    put(&mut board, PieceType::Knight, Color::Black, (4, 2));
    assert_eq!(moves_at(&board, (3, 3)), vec![(3, 2), (2, 2), (4, 2)]);
}

#[test]
fn pawn_never_captures_ahead_nor_moves_onto_empty_diagonals() {
    let mut board = Board::new(8, 8);
    put(&mut board, PieceType::Pawn, Color::Black, (3, 3));
    put(&mut board, PieceType::Knight, Color::White, (3, 4));
    put(&mut board, PieceType::Knight, Color::Black, (2, 4));
    assert_eq!(moves_at(&board, (3, 3)), Vec::<(usize, usize)>::new());
    board.remove_piece_at((3, 4));
    assert_eq!(moves_at(&board, (3, 3)), vec![(3, 4)]);
    put(&mut board, PieceType::Knight, Color::White, (4, 4));
    assert_eq!(moves_at(&board, (3, 3)), vec![(3, 4), (4, 4)]);
}

#[test]
fn pawn_on_its_last_row_has_no_move() {
    let mut board = Board::new(3, 3);
    put(&mut board, PieceType::Pawn, Color::White, (1, 0));
    put(&mut board, PieceType::Pawn, Color::Black, (1, 2));
    put(&mut board, PieceType::Pawn, Color::Black, (0, 0));
    assert!(moves_at(&board, (1, 0)).is_empty());
    assert!(moves_at(&board, (1, 2)).is_empty());
    assert_eq!(moves_at(&board, (0, 0)), vec![(0, 1)]);
}

#[test]
fn custom_piece_has_no_move() {
    let mut board = Board::new(8, 8);
    put(&mut board, PieceType::Custom(7), Color::White, (3, 3));
    assert!(moves_at(&board, (3, 3)).is_empty());
}

#[test]
fn piece_on_a_cell_is_unique() {
    let mut board = Board::new(4, 4);
    put(&mut board, PieceType::Rook, Color::White, (1, 1));
    put(&mut board, PieceType::Queen, Color::Black, (1, 1));
    let here: Vec<&Piece> = board.pieces.iter().filter(|p| p.pos == (1, 1)).collect();
    assert_eq!(here.len(), 1);
    assert_eq!(board.get_piece_at((1, 1)).unwrap().kind, PieceType::Rook);
    for p in board.pieces.iter() {
        assert!(board.in_bounds(p.pos));
        assert!(board.is_tile_accessible(p.pos));
    }
}

#[test]
fn walks_follow_the_given_directions_in_order() {
    let mut board = Board::new(5, 5);
    put(&mut board, PieceType::Rook, Color::White, (2, 2));
    put(&mut board, PieceType::Pawn, Color::Black, (4, 4));
    put(&mut board, PieceType::Pawn, Color::White, (2, 0));
    board.set_blocked((0, 2));
    let piece = *board.get_piece_at((2, 2)).unwrap();
    assert_eq!(
        straight_line_moves(&board, &piece, &vec![(1, 1), (0, -1), (-1, 0)]),
        vec![(3, 3), (4, 4), (2, 1), (1, 2)]
    );
    assert!(straight_line_moves(&board, &piece, &Vec::new()).is_empty());
}
