use tsjess::{Board, Piece, PieceColor, PieceType};

#[test]
fn no_pieces() {
    let pieces = Piece::from_fen("8/8/8/8/8/8/8/8");
    for &piece in pieces.iter() {
        assert_eq!(None, piece);
    }
}

#[test]
fn one_piece() {
    let pieces = Piece::from_fen("8/8/7q/8/8/8/8/8");
    let piece = pieces[47];

    assert_ne!(None, piece);
    assert_eq!(PieceType::Queen, piece.unwrap().piece_type)
}

#[test]
fn one_piece_is_black_queen_alone() {
    let pieces = Piece::from_fen("8/8/7q/8/8/8/8/8");
    for (i, &piece) in pieces.iter().enumerate() {
        if i == 47 {
            assert_eq!(Some(Piece::new(PieceType::Queen, PieceColor::BLACK)), piece);
        } else {
            assert_eq!(None, piece);
        }
    }
}

#[test]
fn default_board() {
    let pieces = Piece::from_fen("rnbqkbnr/pppppppp/8/8/8/8/PPPPPPPP/RNBQKBNR w KQkq - 0 1");
    assert_eq!(Piece { piece_type: PieceType::Rook, piece_color: PieceColor::WHITE }, pieces[0].unwrap());
    assert_eq!(Piece { piece_type: PieceType::Knight, piece_color: PieceColor::WHITE }, pieces[1].unwrap());
    assert_eq!(Piece { piece_type: PieceType::Queen, piece_color: PieceColor::WHITE }, pieces[3].unwrap());
    assert_eq!(Piece { piece_type: PieceType::Pawn, piece_color: PieceColor::WHITE }, pieces[8].unwrap());
    assert_eq!(None, pieces[16]);
    assert_eq!(Piece { piece_type: PieceType::Pawn, piece_color: PieceColor::BLACK }, pieces[48].unwrap());
    assert_eq!(Piece { piece_type: PieceType::Rook, piece_color: PieceColor::BLACK }, pieces[56].unwrap());
    assert_eq!(Piece { piece_type: PieceType::Queen, piece_color: PieceColor::BLACK }, pieces[59].unwrap());
    assert_eq!(Piece { piece_type: PieceType::Knight, piece_color: PieceColor::BLACK }, pieces[62].unwrap());
    assert_eq!(Piece { piece_type: PieceType::Rook, piece_color: PieceColor::BLACK }, pieces[63].unwrap());
}

#[test]
fn default_board_counts_thirty_two_pieces() {
    let board = Board::default_board();
    assert_eq!(32, board.pieces.iter().filter(|p| p.is_some()).count());
    assert_eq!(Some(Piece::new(PieceType::King, PieceColor::WHITE)), board.pieces[4]);
    assert_eq!(Some(Piece::new(PieceType::King, PieceColor::BLACK)), board.pieces[60]);
    assert_eq!(PieceColor::WHITE, board.moving_color);
    assert_eq!(None, board.selected);
}

#[test]
fn unknown_letters_are_skipped() {
    let pieces = Piece::from_fen("8/8/8/8/8/8/8/xK6");
    assert_eq!(Some(Piece::new(PieceType::King, PieceColor::WHITE)), pieces[0]);
    assert_eq!(1, pieces.iter().filter(|p| p.is_some()).count());
}

#[test]
fn field_ends_at_first_space() {
    let pieces = Piece::from_fen("8/8/8/8/8/8/8/8 K");
    assert!(pieces.iter().all(|p| p.is_none()));
}

#[test]
fn too_many_ranks_write_nothing_below_the_board() {
    let pieces = Piece::from_fen("8/8/8/8/8/8/8/8/8/K");
    assert!(pieces.iter().all(|p| p.is_none()));
}

#[test]
fn long_run_spills_into_the_next_rank() {
    let pieces = Piece::from_fen("8/9K");
    assert_eq!(Some(Piece::new(PieceType::King, PieceColor::WHITE)), pieces[57]);
    let past_end = Piece::from_fen("9K");
    assert!(past_end.iter().all(|p| p.is_none()));
}

#[test]
fn empty_string_gives_empty_board() {
    let pieces = Piece::from_fen("");
    assert!(pieces.iter().all(|p| p.is_none()));
}
