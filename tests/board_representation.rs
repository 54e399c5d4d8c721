use rookie::bitboard::BitBoard;
use rookie::board_representation::Square::{
    A8, B8, C8, D8, E8, F8, G8, H8,
    A7, B7, C7, D7, E7, F7, G7, H7,
    A6, B6, C6, D6, E6, F6, G6, H6,
    A5, B5, C5, D5, E5, F5, G5, H5,
    A4, B4, C4, D4, E4, F4, G4, H4,
    A3, B3, C3, D3, E3, F3, G3, H3,
    A2, B2, C2, D2, E2, F2, G2, H2,
    A1, B1, C1, D1, E1, F1, G1, H1,
};
use rookie::board_representation::Square;
use rookie::board_representation::{
    squares, Board, Color, ColoredPiece, Piece, BLACK_BISHOP, BLACK_KING, BLACK_KNIGHT,
    BLACK_PAWN, BLACK_QUEEN, BLACK_ROOK, WHITE_BISHOP, WHITE_KING, WHITE_KNIGHT, WHITE_PAWN,
    WHITE_QUEEN, WHITE_ROOK,
};
use rookie::errors::Error;

fn expected_piece_on_square(square: &Square) -> Option<ColoredPiece> {
    match *square {
        A8 => Some(BLACK_ROOK), B8 => Some(BLACK_KNIGHT), C8 => Some(BLACK_BISHOP), D8 => Some(BLACK_QUEEN), E8 => Some(BLACK_KING), F8 => Some(BLACK_BISHOP), G8 => Some(BLACK_KNIGHT), H8 => Some(BLACK_ROOK),
        A7 => Some(BLACK_PAWN), B7 => Some(BLACK_PAWN), C7 => Some(BLACK_PAWN), D7 => Some(BLACK_PAWN), E7 => Some(BLACK_PAWN), F7 => Some(BLACK_PAWN), G7 => Some(BLACK_PAWN), H7 => Some(BLACK_PAWN),
        A6 => None, B6 => None, C6 => None, D6 => None, E6 => None, F6 => None, G6 => None, H6 => None,
        A5 => None, B5 => None, C5 => None, D5 => None, E5 => None, F5 => None, G5 => None, H5 => None,
        A4 => None, B4 => None, C4 => None, D4 => None, E4 => None, F4 => None, G4 => None, H4 => None,
        A3 => None, B3 => None, C3 => None, D3 => None, E3 => None, F3 => None, G3 => None, H3 => None,
        A2 => Some(WHITE_PAWN), B2 => Some(WHITE_PAWN), C2 => Some(WHITE_PAWN), D2 => Some(WHITE_PAWN), E2 => Some(WHITE_PAWN), F2 => Some(WHITE_PAWN), G2 => Some(WHITE_PAWN), H2 => Some(WHITE_PAWN),
        A1 => Some(WHITE_ROOK), B1 => Some(WHITE_KNIGHT), C1 => Some(WHITE_BISHOP), D1 => Some(WHITE_QUEEN), E1 => Some(WHITE_KING), F1 => Some(WHITE_BISHOP), G1 => Some(WHITE_KNIGHT), H1 => Some(WHITE_ROOK),
    }
}

fn expected_offset(sq: &Square) -> u8 {
    match *sq {
        A8 => 0, B8 => 1, C8 => 2, D8 => 3, E8 => 4, F8 => 5, G8 => 6, H8 => 7,
        A7 => 8, B7 => 9, C7 => 10, D7 => 11, E7 => 12, F7 => 13, G7 => 14, H7 => 15,
        A6 => 16, B6 => 17, C6 => 18, D6 => 19, E6 => 20, F6 => 21, G6 => 22, H6 => 23,
        A5 => 24, B5 => 25, C5 => 26, D5 => 27, E5 => 28, F5 => 29, G5 => 30, H5 => 31,
        A4 => 32, B4 => 33, C4 => 34, D4 => 35, E4 => 36, F4 => 37, G4 => 38, H4 => 39,
        A3 => 40, B3 => 41, C3 => 42, D3 => 43, E3 => 44, F3 => 45, G3 => 46, H3 => 47,
        A2 => 48, B2 => 49, C2 => 50, D2 => 51, E2 => 52, F2 => 53, G2 => 54, H2 => 55,
        A1 => 56, B1 => 57, C1 => 58, D1 => 59, E1 => 60, F1 => 61, G1 => 62, H1 => 63,
    }
}

#[test]
fn test_init() {
    let board = Board::new_starting();
    assert_eq!(board.piece_bitboards.len(), 12);
    for square in squares().iter() {
        assert_eq!(board.piece_on_square(square), expected_piece_on_square(square));
    }
}

#[test]
fn test_square_offsets() {
    for square in squares().iter() {
        let (row, col) = square.row_col();
        let offset = BitBoard::offset(row, col).unwrap();
        assert_eq!(offset, expected_offset(square));
    }
}

#[test]
fn starting_layout_scenario() {
    let board = Board::new_starting();
    assert_eq!(board.piece_on_square(&A1), Some((Color::White, Piece::Rook)));
    assert_eq!(board.piece_on_square(&H8), Some((Color::Black, Piece::Rook)));
    assert_eq!(board.piece_on_square(&E1), Some((Color::White, Piece::King)));
    assert_eq!(board.piece_on_square(&A6), None);
    assert_eq!(board.piece_bitboards.len(), 12);
    assert_eq!(board.current_player, Color::White);
}

#[test]
fn starting_sets_partition_the_board() {
    let board = Board::new_starting();
    for row in 0u8..8 {
        for col in 0u8..8 {
            let mut holders = 0;
            for b in board.piece_bitboards.iter() {
                if b.get(row, col).unwrap() {
                    holders += 1;
                }
            }
            if board.empty_bitboard.get(row, col).unwrap() {
                holders += 1;
            }
            assert_eq!(holders, 1);
        }
    }
    let mut union = board.empty_bitboard;
    for b in board.piece_bitboards.iter() {
        union = union.or(b);
    }
    assert!(union.is_full());
    assert_eq!(board.empty_bitboard.raw(), 0x0000_ffff_ffff_0000);
    assert_eq!(board.bitboard_of(&WHITE_ROOK).raw(), (1u64 << 56) | (1u64 << 63));
    assert_eq!(board.bitboard_of(&BLACK_PAWN).raw(), 0xff00);
    assert_eq!(board.bitboard_of(&BLACK_KING).raw(), 1u64 << 4);
    assert_eq!(board.bitboard_of(&WHITE_QUEEN).raw(), 1u64 << 59);
}

#[test]
fn piece_on_row_col_checks_its_range() {
    let board = Board::new_starting();
    assert_eq!(board.piece_on_row_col(0, 4).unwrap(), Some(BLACK_KING));
    assert_eq!(board.piece_on_row_col(7, 3).unwrap(), Some(WHITE_QUEEN));
    assert_eq!(board.piece_on_row_col(4, 4).unwrap(), None);
    assert_eq!(board.piece_on_row_col(8, 0), Err(Error::OutOfRange));
    assert_eq!(board.piece_on_row_col(0, 8), Err(Error::OutOfRange));
}

#[test]
fn square_offsets_scenario() {
    let offset_of = |s: Square| {
        let (row, col) = s.row_col();
        BitBoard::offset(row, col).unwrap()
    };
    assert_eq!(offset_of(A8), 0);
    assert_eq!(offset_of(H8), 7);
    assert_eq!(offset_of(A1), 56);
    assert_eq!(offset_of(H1), 63);
    let all = squares();
    assert_eq!(all.len(), 64);
    for (i, s) in all.iter().enumerate() {
        assert_eq!(offset_of(*s) as usize, i);
    }
    assert_eq!(all[0], A8);
    assert_eq!(all[63], H1);
}

#[test]
fn row_col_corners() {
    assert_eq!(A8.row_col(), (0, 0));
    assert_eq!(H8.row_col(), (0, 7));
    assert_eq!(A1.row_col(), (7, 0));
    assert_eq!(H1.row_col(), (7, 7));
    assert_eq!(E4.row_col(), (4, 4));
}

#[test]
fn square_names_parse() {
    assert_eq!(Square::from_str("e4"), Ok(E4));
    assert_eq!(Square::from_str("E4"), Ok(E4));
    assert_eq!(Square::from_str("e4"), Square::from_str("E4"));
    assert_eq!(Square::from_str("a1"), Ok(A1));
    assert_eq!(Square::from_str("H8"), Ok(H8));
    assert_eq!(Square::from_str("Z9"), Err(Error::InvalidSquare));
    assert_eq!(Square::from_str("e"), Err(Error::InvalidSquare));
    assert_eq!(Square::from_str(""), Err(Error::InvalidSquare));
    assert_eq!(Square::from_str("e44"), Err(Error::InvalidSquare));
    assert_eq!(Square::from_str("i4"), Err(Error::InvalidSquare));
    assert_eq!(Square::from_str("e0"), Err(Error::InvalidSquare));
    assert_eq!(Square::from_str("e9"), Err(Error::InvalidSquare));
    assert_eq!(Square::from_str("4e"), Err(Error::InvalidSquare));
}

#[test]
fn squares_round_trip_through_coordinates() {
    for s in squares().iter() {
        let (row, col) = s.row_col();
        assert_eq!(Square::from_row_col(row, col), Ok(*s));
    }
    assert_eq!(Square::from_row_col(8, 0), Err(Error::OutOfRange));
    assert_eq!(Square::from_row_col(0, 8), Err(Error::OutOfRange));
}

#[test]
fn starting_table_constants() {
    assert_eq!(BLACK_BISHOP, (Color::Black, Piece::Bishop));
    assert_eq!(BLACK_KNIGHT, (Color::Black, Piece::Knight));
    assert_eq!(BLACK_QUEEN, (Color::Black, Piece::Queen));
    assert_eq!(WHITE_BISHOP, (Color::White, Piece::Bishop));
    assert_eq!(WHITE_KING, (Color::White, Piece::King));
    assert_eq!(WHITE_KNIGHT, (Color::White, Piece::Knight));
    assert_eq!(WHITE_PAWN, (Color::White, Piece::Pawn));
}
