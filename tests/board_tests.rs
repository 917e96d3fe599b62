use tsjess::{Board, Piece, PieceColor, PieceType};

fn sorted(mut v: Vec<isize>) -> Vec<isize> {
    v.sort();
    v
}

#[test]
fn to_coords_test() {
    assert_eq!((0, 0), Board::index_to_coords(0));
    assert_eq!((0, 1), Board::index_to_coords(8));
    assert_eq!((1, 1), Board::index_to_coords(9));
    assert_eq!((7, 7), Board::index_to_coords(63));
}

#[test]
fn to_index_test() {
    assert_eq!(0, Board::coords_to_index(0, 0));
    assert_eq!(8, Board::coords_to_index(0, 1));
    assert_eq!(9, Board::coords_to_index(1, 1));
    assert_eq!(63, Board::coords_to_index(7, 7));
}

#[test]
fn coords_round_trip_on_every_square() {
    for i in 0..64usize {
        let (f, r) = Board::index_to_coords(i);
        assert_eq!(i, Board::coords_to_index(f, r));
    }
    for f in 0..8usize {
        for r in 0..8usize {
            assert_eq!((f, r), Board::index_to_coords(Board::coords_to_index(f, r)));
        }
    }
}

#[test]
fn rook_on_empty_board_from_a1() {
    let board = Board::new("8/8/8/8/8/8/8/R7");
    let rook = Piece::new(PieceType::Rook, PieceColor::WHITE);
    let moves = board.get_moves(rook, 0, 0);
    assert_eq!(vec![8, 16, 24, 32, 40, 48, 56, 1, 2, 3, 4, 5, 6, 7], moves);
    assert_eq!(
        sorted(vec![8, 16, 24, 32, 40, 48, 56, 1, 2, 3, 4, 5, 6, 7]),
        sorted(moves)
    );
}

#[test]
fn rook_ray_stops_before_own_piece() {
    let board = Board::new("8/8/8/8/P7/8/8/R7");
    let rook = Piece::new(PieceType::Rook, PieceColor::WHITE);
    let moves = board.get_moves(rook, 0, 0);
    assert_eq!(vec![8, 16, 1, 2, 3, 4, 5, 6, 7], moves);
    assert!(!moves.contains(&24));
}

#[test]
fn rook_ray_captures_opposing_piece() {
    let board = Board::new("8/8/8/8/p7/8/8/R7");
    let rook = Piece::new(PieceType::Rook, PieceColor::WHITE);
    let moves = board.get_moves(rook, 0, 0);
    assert_eq!(vec![8, 16, 24, 1, 2, 3, 4, 5, 6, 7], moves);
    assert!(!moves.contains(&32));
}

#[test]
fn knight_in_corner_keeps_jumps_on_board() {
    let board = Board::new("8/8/8/8/8/8/8/N7");
    let knight = Piece::new(PieceType::Knight, PieceColor::WHITE);
    assert_eq!(vec![17, 10], board.get_moves(knight, 0, 0));
}

#[test]
fn knight_skips_occupied_squares() {
    let knight = Piece::new(PieceType::Knight, PieceColor::WHITE);
    let own = Board::new("8/8/8/8/8/8/2P5/N7");
    assert_eq!(vec![17], own.get_moves(knight, 0, 0));
    let other = Board::new("8/8/8/8/8/8/2p5/N7");
    assert_eq!(vec![17], other.get_moves(knight, 0, 0));
}

#[test]
fn king_offsets_ignore_edges() {
    let board = Board::new("8/8/8/8/8/8/8/K7");
    let king = Piece::new(PieceType::King, PieceColor::WHITE);
    assert_eq!(vec![8, -8, -1, 1, 9, -9, 7, -7], board.get_moves(king, 0, 0));
}

#[test]
fn pawn_steps_forward_by_color() {
    let board = Board::new("8/8/8/8/8/8/8/8");
    let white = Piece::new(PieceType::Pawn, PieceColor::WHITE);
    let black = Piece::new(PieceType::Pawn, PieceColor::BLACK);
    assert_eq!(vec![8], board.get_moves(white, 3, 1));
    assert_eq!(vec![-8], board.get_moves(black, 3, 6));
}

#[test]
fn bishop_uses_diagonals_only() {
    let board = Board::new("8/8/8/8/8/8/8/2B5");
    let bishop = Piece::new(PieceType::Bishop, PieceColor::WHITE);
    assert_eq!(vec![9, 18, 27, 36, 45, 7, 14], board.get_moves(bishop, 2, 0));
}

#[test]
fn queen_in_the_middle() {
    let board = Board::new("8/8/8/8/3q4/8/8/8");
    let queen = Piece::new(PieceType::Queen, PieceColor::BLACK);
    let moves = board.get_moves(queen, 3, 3);
    assert_eq!(27, moves.len());
    assert_eq!(
        vec![8, 16, 24, 32, -8, -16, -24, -1, -2, -3, 1, 2, 3, 4, 9, 18, 27, 36, -9, -18, -27, 7, 14, 21, -7, -14, -21],
        moves
    );
}

#[test]
fn king_targets_drop_squares_off_the_board() {
    let board = Board::new("8/8/8/8/8/8/8/K7");
    let king = Piece::new(PieceType::King, PieceColor::WHITE);
    assert_eq!(vec![8, 1, 9, 7], board.move_targets(king, 0, 0));
}

#[test]
fn rook_targets_are_squares() {
    let board = Board::new("8/8/8/8/P7/8/8/R7");
    let rook = Piece::new(PieceType::Rook, PieceColor::WHITE);
    assert_eq!(vec![8, 16, 1, 2, 3, 4, 5, 6, 7], board.move_targets(rook, 0, 0));
}

#[test]
fn sliding_moves_stay_on_the_board_from_every_square() {
    let board = Board::new("8/8/2p5/8/4P3/8/8/8");
    for kind in [PieceType::Queen, PieceType::Rook, PieceType::Bishop] {
        let piece = Piece::new(kind, PieceColor::WHITE);
        for i in 0..64usize {
            let (file, rank) = Board::index_to_coords(i);
            for m in board.get_moves(piece, file, rank) {
                let target = i as isize + m;
                assert!((0..64).contains(&target));
                let (tf, tr) = Board::index_to_coords(target as usize);
                let df = tf as isize - file as isize;
                let dr = tr as isize - rank as isize;
                assert!(df == 0 || dr == 0 || df.abs() == dr.abs());
            }
        }
    }
}
