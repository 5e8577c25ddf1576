use variant_chess::engine::board::Board;
use variant_chess::engine::piece::Piece;
use variant_chess::engine::types::{Color, PieceType, Tile};

#[test]
fn test_piece_not_on_blocked_tile() {
    let mut board = Board::new(8, 8);

    board.set_blocked((3, 3));
    assert_eq!(board.tiles[3][3], Tile::Blocked);
    assert!(!board.is_tile_free((3, 3)));

    let piece = Piece {
        id: 0,
        kind: PieceType::Knight,
        color: Color::White,
        pos: (3, 3),
    };
    let _placed_id = board.add_piece(piece);

    let placed_piece = board.get_piece_at((3, 3));
    if placed_piece.is_some() {
        panic!("棋子不應該被放置在禁區！");
    }
}
