use variant_chess::engine::board::{piece_symbol, Board};
use variant_chess::engine::evaluator::{
    evaluate_board, evaluate_piece, king_safety_bonus, material_value, positional_bonus,
};
use variant_chess::engine::generator::{
    generate_by_difficulty, generate_random_board, meets_difficulty, open_cells, place_random,
};
use variant_chess::engine::piece::Piece;
use variant_chess::engine::types::{Color, PieceType, Tile};
use variant_chess::engine::utils::{index_to_pos, random_position};

fn show(board: &Board) {
    for row in board.symbols() {
        let line: Vec<String> = row.iter().map(|c| format!("{}", c)).collect();
        println!("{}", line.join(" "));
    }
}

fn holes(board: &Board) -> usize {
    board
        .tiles
        .iter()
        .map(|column| column.iter().filter(|t| **t == Tile::Blocked).count())
        .sum()
}

#[test]
fn test_random_generation_and_evaluation() {
    let board = generate_random_board(8, 8, 5, 5, 5);

    show(&board);

    let score = evaluate_board(&board);

    println!("[評分結果] 該殘局分數為：{}", score);

    assert!(true);
}

#[test]
fn test_generate_by_difficulty() {
    let difficulty_threshold = -5;
    let board = generate_by_difficulty(8, 8, 5, 5, 5, difficulty_threshold, 1_000_000).unwrap();

    println!("[根據難度閾值生成殘局，白方分數 <= {}]", difficulty_threshold);
    show(&board);

    let score = evaluate_board(&board);
    println!("[評分結果] 該殘局分數為：{}", score);

    assert!(score <= difficulty_threshold, "評分應符合難度閾值");
}

#[test]
fn generated_board_has_what_was_asked_for() {
    for _ in 0..50 {
        let board = generate_random_board(8, 8, 5, 4, 6);
        assert!(board.is_valid());
        assert_eq!(board.width, 8);
        assert_eq!(board.height, 8);
        assert_eq!(holes(&board), 6);
        assert_eq!(board.pieces.len(), 9);
        assert_eq!(board.next_id, 10);
        for (i, p) in board.pieces.iter().enumerate() {
            assert_eq!(p.id as usize, i + 1);
            assert!(board.is_tile_accessible(p.pos));
            let color = if i == 0 {
                Color::White
            } else if i == 1 {
                Color::Black
            } else if i < 6 {
                Color::White
            } else {
                Color::Black
            };
            assert_eq!(p.color, color);
            assert_eq!(p.kind == PieceType::King, i < 2);
            assert!(!matches!(p.kind, PieceType::Custom(_)));
        }
    }
}

#[test]
fn generation_stops_when_the_grid_is_full() {
    let board = generate_random_board(2, 2, 3, 3, 1);
    assert!(board.is_valid());
    assert_eq!(holes(&board), 1);
    assert_eq!(board.pieces.len(), 3);
    assert_eq!(board.pieces[0].kind, PieceType::King);
    assert_eq!(board.pieces[0].color, Color::White);
    assert_eq!(board.pieces[1].kind, PieceType::King);
    assert_eq!(board.pieces[1].color, Color::Black);
    assert_eq!(board.pieces[2].color, Color::White);
    assert_ne!(board.pieces[2].kind, PieceType::King);

    let holes_only = generate_random_board(3, 3, 2, 2, 20);
    assert_eq!(holes(&holes_only), 9);
    assert!(holes_only.pieces.is_empty());

    let nothing = generate_random_board(0, 0, 2, 2, 2);
    assert!(nothing.is_valid());
    assert!(nothing.tiles.is_empty());
    assert!(nothing.pieces.is_empty());
}

#[test]
fn both_kings_are_placed_even_when_none_is_asked_for() {
    let board = generate_random_board(4, 4, 0, 0, 0);
    assert_eq!(board.pieces.len(), 2);
    assert_eq!(board.pieces[0].kind, PieceType::King);
    assert_eq!(board.pieces[1].kind, PieceType::King);
    assert_eq!(board.pieces[0].color, Color::White);
    assert_eq!(board.pieces[1].color, Color::Black);
}

#[test]
fn difficulty_needs_an_attempt() {
    assert!(generate_by_difficulty(8, 8, 5, 5, 5, 1000, 0).is_none());
    assert!(generate_by_difficulty(8, 8, 5, 5, 5, -100_000, 20).is_none());
    let board = generate_by_difficulty(8, 8, 5, 5, 5, 1000, 1).unwrap();
    assert_eq!(board.pieces.len(), 10);
    assert!(meets_difficulty(&board, 1000));
    assert!(meets_difficulty(&board, evaluate_board(&board)));
    assert!(!meets_difficulty(&board, evaluate_board(&board) - 1));
}

#[test]
fn random_position_lies_on_the_grid() {
    assert_eq!(random_position(1, 1), (0, 0));
    for _ in 0..200 {
        let (x, y) = random_position(3, 7);
        assert!(x < 3);
        assert!(y < 7);
    }
}

#[test]
fn open_cells_come_column_by_column() {
    let mut board = Board::new(2, 2);
    board.set_blocked((0, 1));
    board.add_piece(Piece { id: 0, kind: PieceType::Pawn, color: Color::White, pos: (1, 0) });
    assert_eq!(open_cells(&board, false), vec![(0, 0), (1, 0), (1, 1)]);
    assert_eq!(open_cells(&board, true), vec![(0, 0), (1, 1)]);
}

#[test]
fn place_random_fills_the_last_free_cell() {
    let mut board = Board::new(2, 1);
    board.set_blocked((0, 0));
    assert!(place_random(&mut board, PieceType::Rook, Color::Black));
    let placed = board.get_piece_at((1, 0)).unwrap();
    assert_eq!(placed.kind, PieceType::Rook);
    assert_eq!(placed.color, Color::Black);
    assert_eq!(placed.id, 1);
    assert!(!place_random(&mut board, PieceType::Rook, Color::Black));
    assert_eq!(board.pieces.len(), 1);
}

#[test]
fn index_counts_row_by_row() {
    assert_eq!(index_to_pos(0, 8), (0, 0));
    assert_eq!(index_to_pos(7, 8), (7, 0));
    assert_eq!(index_to_pos(8, 8), (0, 1));
    assert_eq!(index_to_pos(63, 8), (7, 7));
    assert_eq!(index_to_pos(5, 3), (2, 1));
}

#[test]
fn symbols_of_pieces_and_cells() {
    let kinds = vec![
        (PieceType::King, 'K', 'k'),
        (PieceType::Queen, 'Q', 'q'),
        (PieceType::Rook, 'R', 'r'),
        (PieceType::Bishop, 'B', 'b'),
        (PieceType::Knight, 'N', 'n'),
        (PieceType::Pawn, 'P', 'p'),
        (PieceType::Custom(3), '?', '?'),
    ];
    for (kind, white, black) in kinds {
        let piece = Piece { id: 1, kind, color: Color::White, pos: (0, 0) };
        assert_eq!(piece_symbol(&piece), white);
        let piece = Piece { id: 1, kind, color: Color::Black, pos: (0, 0) };
        assert_eq!(piece_symbol(&piece), black);
    }
    let mut board = Board::new(3, 2);
    board.set_blocked((1, 0));
    board.add_piece(Piece { id: 0, kind: PieceType::Queen, color: Color::Black, pos: (2, 1) });
    board.add_piece(Piece { id: 0, kind: PieceType::Knight, color: Color::White, pos: (0, 0) });
    assert_eq!(board.cell_symbol((1, 0)), '#');
    assert_eq!(board.cell_symbol((2, 1)), 'q');
    assert_eq!(board.cell_symbol((1, 1)), '.');
    assert_eq!(
        board.symbols(),
        vec![vec!['N', '#', '.'], vec!['.', '.', 'q']]
    );
}

#[test]
fn parts_of_a_piece_value() {
    let board = Board::new(8, 8);
    assert_eq!(material_value(PieceType::King), 0);
    assert_eq!(material_value(PieceType::Queen), 9);
    assert_eq!(material_value(PieceType::Rook), 5);
    assert_eq!(material_value(PieceType::Bishop), 3);
    assert_eq!(material_value(PieceType::Knight), 3);
    assert_eq!(material_value(PieceType::Pawn), 1);
    assert_eq!(material_value(PieceType::Custom(42)), 42);
    assert_eq!(positional_bonus(&board, (4, 4)), 1);
    assert_eq!(positional_bonus(&board, (4, 3)), 0);
    assert_eq!(positional_bonus(&board, (0, 0)), 0);
    let king = Piece { id: 1, kind: PieceType::King, color: Color::Black, pos: (7, 2) };
    assert_eq!(king_safety_bonus(&board, &king), 1);
    assert_eq!(evaluate_piece(&board, &king), -1);
    let inner = Piece { id: 1, kind: PieceType::King, color: Color::Black, pos: (6, 2) };
    assert_eq!(king_safety_bonus(&board, &inner), -1);
    let rook = Piece { id: 1, kind: PieceType::Rook, color: Color::White, pos: (0, 0) };
    assert_eq!(king_safety_bonus(&board, &rook), 0);
    assert_eq!(evaluate_piece(&board, &rook), 5);
}

#[test]
fn boards_set_by_hand_are_checked() {
    let mut board = Board::new(3, 3);
    assert!(board.is_valid());
    board.add_piece(Piece { id: 0, kind: PieceType::Pawn, color: Color::White, pos: (1, 1) });
    assert!(board.is_valid());
    let mut twice = board.duplicate();
    twice.pieces.push(Piece { id: 5, kind: PieceType::Pawn, color: Color::White, pos: (1, 1) });
    twice.next_id = 6;
    assert!(!twice.is_valid());
    let mut outside = board.duplicate();
    outside.pieces.push(Piece { id: 2, kind: PieceType::Pawn, color: Color::White, pos: (3, 0) });
    outside.next_id = 3;
    assert!(!outside.is_valid());
    let mut stale = board.duplicate();
    stale.next_id = 1;
    assert!(!stale.is_valid());
    let mut ragged = board.duplicate();
    ragged.tiles[1].pop();
    assert!(!ragged.is_valid());
    let mut wide = board.duplicate();
    wide.width = 4;
    assert!(!wide.is_valid());
}

#[test]
fn a_board_is_owed_at_the_score_ceiling() {
    for _ in 0..20 {
        let board = generate_by_difficulty(8, 8, 5, 5, 5, 257 * 10, 1).unwrap();
        assert_eq!(board.pieces.len(), 10);
        assert!(evaluate_board(&board) <= 257 * 10);
        let kings = generate_by_difficulty(4, 4, 0, 0, 0, 257 * 2, 1).unwrap();
        assert_eq!(kings.pieces.len(), 2);
    }
    assert!(generate_by_difficulty(8, 8, 5, 5, 5, 257 * 10, 0).is_none());
}

#[test]
fn generated_identifiers_count_up_from_one() {
    for _ in 0..20 {
        let board = generate_random_board(5, 4, 3, 4, 2);
        assert_eq!(board.pieces.len(), 7);
        for (i, p) in board.pieces.iter().enumerate() {
            assert_eq!(p.id as usize, i + 1);
        }
        assert_eq!(board.pieces[0].id, 1);
        assert_eq!(board.pieces[0].kind, PieceType::King);
        assert_eq!(board.pieces[1].id, 2);
        assert_eq!(board.pieces[1].kind, PieceType::King);
        assert_eq!(board.next_id, 8);
    }
}
