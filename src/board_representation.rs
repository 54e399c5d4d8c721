use crate::bitboard::{offset_of, BitBoard};
use crate::errors::Error;
use vstd::prelude::*;

verus! {

/// A side of the game.
#[derive(Debug, Hash, Clone, Copy, PartialEq, Eq, Structural)]
pub enum Color {
    Black,
    White,
}

/// A kind of piece.
#[derive(Debug, Hash, Clone, Copy, PartialEq, Eq, Structural)]
pub enum Piece {
    Rook,
    Knight,
    Bishop,
    Queen,
    King,
    Pawn,
}

/// One of the sixty-four squares, named by file letter and rank digit.
#[derive(Debug, Hash, Clone, Copy, PartialEq, Eq, Structural)]
pub enum Square {
    A1, B1, C1, D1, E1, F1, G1, H1,
    A2, B2, C2, D2, E2, F2, G2, H2,
    A3, B3, C3, D3, E3, F3, G3, H3,
    A4, B4, C4, D4, E4, F4, G4, H4,
    A5, B5, C5, D5, E5, F5, G5, H5,
    A6, B6, C6, D6, E6, F6, G6, H6,
    A7, B7, C7, D7, E7, F7, G7, H7,
    A8, B8, C8, D8, E8, F8, G8, H8,
}

/// The file (`0` for A) and rank (`1` to `8`) of a square.
pub open spec fn file_rank(s: Square) -> (int, int) {
    match s {
            Square::A8 => (0, 8), Square::B8 => (1, 8), Square::C8 => (2, 8), Square::D8 => (3, 8), Square::E8 => (4, 8), Square::F8 => (5, 8), Square::G8 => (6, 8), Square::H8 => (7, 8),
            Square::A7 => (0, 7), Square::B7 => (1, 7), Square::C7 => (2, 7), Square::D7 => (3, 7), Square::E7 => (4, 7), Square::F7 => (5, 7), Square::G7 => (6, 7), Square::H7 => (7, 7),
            Square::A6 => (0, 6), Square::B6 => (1, 6), Square::C6 => (2, 6), Square::D6 => (3, 6), Square::E6 => (4, 6), Square::F6 => (5, 6), Square::G6 => (6, 6), Square::H6 => (7, 6),
            Square::A5 => (0, 5), Square::B5 => (1, 5), Square::C5 => (2, 5), Square::D5 => (3, 5), Square::E5 => (4, 5), Square::F5 => (5, 5), Square::G5 => (6, 5), Square::H5 => (7, 5),
            Square::A4 => (0, 4), Square::B4 => (1, 4), Square::C4 => (2, 4), Square::D4 => (3, 4), Square::E4 => (4, 4), Square::F4 => (5, 4), Square::G4 => (6, 4), Square::H4 => (7, 4),
            Square::A3 => (0, 3), Square::B3 => (1, 3), Square::C3 => (2, 3), Square::D3 => (3, 3), Square::E3 => (4, 3), Square::F3 => (5, 3), Square::G3 => (6, 3), Square::H3 => (7, 3),
            Square::A2 => (0, 2), Square::B2 => (1, 2), Square::C2 => (2, 2), Square::D2 => (3, 2), Square::E2 => (4, 2), Square::F2 => (5, 2), Square::G2 => (6, 2), Square::H2 => (7, 2),
            Square::A1 => (0, 1), Square::B1 => (1, 1), Square::C1 => (2, 1), Square::D1 => (3, 1), Square::E1 => (4, 1), Square::F1 => (5, 1), Square::G1 => (6, 1), Square::H1 => (7, 1),
    }
}

/// The column of a file letter, in either case; `-1` for any other character.
pub open spec fn file_of_char(c: char) -> int {
    if 'a' <= c <= 'h' {
        c as int - 'a' as int
    } else if 'A' <= c <= 'H' {
        c as int - 'A' as int
    } else {
        -1
    }
}

/// The rank of a rank digit; `-1` for any other character.
pub open spec fn rank_of_char(c: char) -> int {
    if '1' <= c <= '8' {
        c as int - '0' as int
    } else {
        -1
    }
}

/// Whether `s` is the name of a square: a file letter then a rank digit.
pub open spec fn is_square_name(s: Seq<char>) -> bool {
    s.len() == 2 && file_of_char(s[0]) >= 0 && rank_of_char(s[1]) >= 0
}

impl Square {
    /// The `(row, col)` of the square: row 0 is rank 8, column 0 is file A.
    pub open spec fn row_col_spec(self) -> (u8, u8) {
        ((8 - file_rank(self).1) as u8, file_rank(self).0 as u8)
    }

    /// The linear offset of the square.
    pub open spec fn offset_spec(self) -> int {
        offset_of(self.row_col_spec().0 as int, self.row_col_spec().1 as int)
    }

    /// The square at (0, 0) when the board is laid out with the white side
    /// down is A8 and the square at (7, 7) is H1: ranks run bottom to top.
    pub fn row_col(&self) -> (r: (u8, u8))
        ensures
            r == self.row_col_spec(),
            r.0 <= 7 && r.1 <= 7,
    {
        match self {
            Square::A8 => (0, 0), Square::B8 => (0, 1), Square::C8 => (0, 2), Square::D8 => (0, 3), Square::E8 => (0, 4), Square::F8 => (0, 5), Square::G8 => (0, 6), Square::H8 => (0, 7),
            Square::A7 => (1, 0), Square::B7 => (1, 1), Square::C7 => (1, 2), Square::D7 => (1, 3), Square::E7 => (1, 4), Square::F7 => (1, 5), Square::G7 => (1, 6), Square::H7 => (1, 7),
            Square::A6 => (2, 0), Square::B6 => (2, 1), Square::C6 => (2, 2), Square::D6 => (2, 3), Square::E6 => (2, 4), Square::F6 => (2, 5), Square::G6 => (2, 6), Square::H6 => (2, 7),
            Square::A5 => (3, 0), Square::B5 => (3, 1), Square::C5 => (3, 2), Square::D5 => (3, 3), Square::E5 => (3, 4), Square::F5 => (3, 5), Square::G5 => (3, 6), Square::H5 => (3, 7),
            Square::A4 => (4, 0), Square::B4 => (4, 1), Square::C4 => (4, 2), Square::D4 => (4, 3), Square::E4 => (4, 4), Square::F4 => (4, 5), Square::G4 => (4, 6), Square::H4 => (4, 7),
            Square::A3 => (5, 0), Square::B3 => (5, 1), Square::C3 => (5, 2), Square::D3 => (5, 3), Square::E3 => (5, 4), Square::F3 => (5, 5), Square::G3 => (5, 6), Square::H3 => (5, 7),
            Square::A2 => (6, 0), Square::B2 => (6, 1), Square::C2 => (6, 2), Square::D2 => (6, 3), Square::E2 => (6, 4), Square::F2 => (6, 5), Square::G2 => (6, 6), Square::H2 => (6, 7),
            Square::A1 => (7, 0), Square::B1 => (7, 1), Square::C1 => (7, 2), Square::D1 => (7, 3), Square::E1 => (7, 4), Square::F1 => (7, 5), Square::G1 => (7, 6), Square::H1 => (7, 7),
        }
    }

    pub fn from_row_col(row: u8, col: u8) -> (r: Result<Square, Error>)
        ensures
            row <= 7 && col <= 7 ==> r is Ok && r->Ok_0.row_col_spec() == (row, col),
            !(row <= 7 && col <= 7) ==> r == Err::<Square, Error>(Error::OutOfRange),
    {
        match (row, col) {
            (0, 0) => Ok(Square::A8), (0, 1) => Ok(Square::B8), (0, 2) => Ok(Square::C8), (0, 3) => Ok(Square::D8), (0, 4) => Ok(Square::E8), (0, 5) => Ok(Square::F8), (0, 6) => Ok(Square::G8), (0, 7) => Ok(Square::H8),
            (1, 0) => Ok(Square::A7), (1, 1) => Ok(Square::B7), (1, 2) => Ok(Square::C7), (1, 3) => Ok(Square::D7), (1, 4) => Ok(Square::E7), (1, 5) => Ok(Square::F7), (1, 6) => Ok(Square::G7), (1, 7) => Ok(Square::H7),
            (2, 0) => Ok(Square::A6), (2, 1) => Ok(Square::B6), (2, 2) => Ok(Square::C6), (2, 3) => Ok(Square::D6), (2, 4) => Ok(Square::E6), (2, 5) => Ok(Square::F6), (2, 6) => Ok(Square::G6), (2, 7) => Ok(Square::H6),
            (3, 0) => Ok(Square::A5), (3, 1) => Ok(Square::B5), (3, 2) => Ok(Square::C5), (3, 3) => Ok(Square::D5), (3, 4) => Ok(Square::E5), (3, 5) => Ok(Square::F5), (3, 6) => Ok(Square::G5), (3, 7) => Ok(Square::H5),
            (4, 0) => Ok(Square::A4), (4, 1) => Ok(Square::B4), (4, 2) => Ok(Square::C4), (4, 3) => Ok(Square::D4), (4, 4) => Ok(Square::E4), (4, 5) => Ok(Square::F4), (4, 6) => Ok(Square::G4), (4, 7) => Ok(Square::H4),
            (5, 0) => Ok(Square::A3), (5, 1) => Ok(Square::B3), (5, 2) => Ok(Square::C3), (5, 3) => Ok(Square::D3), (5, 4) => Ok(Square::E3), (5, 5) => Ok(Square::F3), (5, 6) => Ok(Square::G3), (5, 7) => Ok(Square::H3),
            (6, 0) => Ok(Square::A2), (6, 1) => Ok(Square::B2), (6, 2) => Ok(Square::C2), (6, 3) => Ok(Square::D2), (6, 4) => Ok(Square::E2), (6, 5) => Ok(Square::F2), (6, 6) => Ok(Square::G2), (6, 7) => Ok(Square::H2),
            (7, 0) => Ok(Square::A1), (7, 1) => Ok(Square::B1), (7, 2) => Ok(Square::C1), (7, 3) => Ok(Square::D1), (7, 4) => Ok(Square::E1), (7, 5) => Ok(Square::F1), (7, 6) => Ok(Square::G1), (7, 7) => Ok(Square::H1),
            _ => Err(Error::OutOfRange),
        }
    }

    /// Parses a square name such as `e4` or `E4`.
    pub fn from_str(s: &str) -> (r: Result<Square, Error>)
        ensures
            is_square_name(s@) ==> r is Ok && file_rank(r->Ok_0) == (
                file_of_char(s@[0]),
                rank_of_char(s@[1]),
            ),
            !is_square_name(s@) ==> r == Err::<Square, Error>(Error::InvalidSquare),
    {
        if s.unicode_len() != 2 {
            return Err(Error::InvalidSquare);
        }
        let f = s.get_char(0);
        let d = s.get_char(1);
        let col: u8 = if 'a' <= f && f <= 'h' {
            (f as u32 - 'a' as u32) as u8
        } else if 'A' <= f && f <= 'H' {
            (f as u32 - 'A' as u32) as u8
        } else {
            return Err(Error::InvalidSquare);
        };
        if !('1' <= d && d <= '8') {
            return Err(Error::InvalidSquare);
        }
        let row: u8 = ('8' as u32 - d as u32) as u8;
        match Square::from_row_col(row, col) {
            Ok(sq) => Ok(sq),
            Err(e) => Err(e),
        }
    }
}

/// Every square, row by row from row 0, each row from column 0: A8, B8, ...,
/// H8, A7, ..., H1. The square at index `i` has offset `i`.
pub fn squares() -> (r: Vec<Square>)
    ensures
        r@.len() == 64,
        forall|i: int| 0 <= i < 64 ==> (#[trigger] r@[i]).offset_spec() == i,
{
    let mut r: Vec<Square> = Vec::new();
    let mut i: u8 = 0;
    while i < 64
        invariant
            i <= 64,
            r@.len() == i,
            forall|j: int| 0 <= j < i ==> (#[trigger] r@[j]).offset_spec() == j,
        decreases 64 - i,
    {
        match BitBoard::deconstruct_offset(i) {
            Ok((row, col)) => match Square::from_row_col(row, col) {
                Ok(sq) => {
                    r.push(sq);
                },
                Err(_) => {},
            },
            Err(_) => {},
        }
        i = i + 1;
    }
    r
}

/// Distinct squares have distinct coordinates, so `from_row_col` applied to
/// the coordinates of a square gives back that square.
pub proof fn lemma_row_col_injective(s: Square, t: Square)
    requires
        s.row_col_spec() == t.row_col_spec(),
    ensures
        s == t,
{
}

/// A side together with a kind of piece.
pub type ColoredPiece = (Color, Piece);

pub const WHITE_ROOK: ColoredPiece = (Color::White, Piece::Rook);
pub const WHITE_KNIGHT: ColoredPiece = (Color::White, Piece::Knight);
pub const WHITE_BISHOP: ColoredPiece = (Color::White, Piece::Bishop);
pub const WHITE_QUEEN: ColoredPiece = (Color::White, Piece::Queen);
pub const WHITE_KING: ColoredPiece = (Color::White, Piece::King);
pub const WHITE_PAWN: ColoredPiece = (Color::White, Piece::Pawn);
pub const BLACK_ROOK: ColoredPiece = (Color::Black, Piece::Rook);
pub const BLACK_KNIGHT: ColoredPiece = (Color::Black, Piece::Knight);
pub const BLACK_BISHOP: ColoredPiece = (Color::Black, Piece::Bishop);
pub const BLACK_QUEEN: ColoredPiece = (Color::Black, Piece::Queen);
pub const BLACK_KING: ColoredPiece = (Color::Black, Piece::King);
pub const BLACK_PAWN: ColoredPiece = (Color::Black, Piece::Pawn);

/// The place of a coloured piece among the twelve: black first, then white,
/// each in the order rook, knight, bishop, queen, king, pawn.
pub open spec fn ordinal_spec(p: ColoredPiece) -> int {
    (match p.0 {
        Color::Black => 0int,
        Color::White => 6int,
    }) + match p.1 {
        Piece::Rook => 0int,
        Piece::Knight => 1int,
        Piece::Bishop => 2int,
        Piece::Queen => 3int,
        Piece::King => 4int,
        Piece::Pawn => 5int,
    }
}

/// The coloured piece with ordinal `k`, for `k` in `0..12`.
pub open spec fn piece_with_ordinal(k: int) -> ColoredPiece {
    (
        if k < 6 {
            Color::Black
        } else {
            Color::White
        },
        if k % 6 == 0 {
            Piece::Rook
        } else if k % 6 == 1 {
            Piece::Knight
        } else if k % 6 == 2 {
            Piece::Bishop
        } else if k % 6 == 3 {
            Piece::Queen
        } else if k % 6 == 4 {
            Piece::King
        } else {
            Piece::Pawn
        },
    )
}

/// Ordinals number the twelve coloured pieces one to one.
pub proof fn lemma_ordinal_bijective(p: ColoredPiece, k: int)
    ensures
        0 <= ordinal_spec(p) < 12,
        piece_with_ordinal(ordinal_spec(p)) == p,
        0 <= k < 12 ==> ordinal_spec(piece_with_ordinal(k)) == k,
{
}

/// The ordinal of a coloured piece.
pub fn ordinal(p: &ColoredPiece) -> (r: usize)
    ensures
        r == ordinal_spec(*p),
{
    let c: usize = match p.0 {
        Color::Black => 0,
        Color::White => 6,
    };
    let k: usize = match p.1 {
        Piece::Rook => 0,
        Piece::Knight => 1,
        Piece::Bishop => 2,
        Piece::Queen => 3,
        Piece::King => 4,
        Piece::Pawn => 5,
    };
    c + k
}

/// The coloured piece with ordinal `k`.
pub fn piece_of_ordinal(k: usize) -> (r: ColoredPiece)
    requires
        k < 12,
    ensures
        r == piece_with_ordinal(k as int),
{
    let c = if k < 6 {
        Color::Black
    } else {
        Color::White
    };
    let m: usize = k % 6;
    let p = if m == 0 {
        Piece::Rook
    } else if m == 1 {
        Piece::Knight
    } else if m == 2 {
        Piece::Bishop
    } else if m == 3 {
        Piece::Queen
    } else if m == 4 {
        Piece::King
    } else {
        Piece::Pawn
    };
    (c, p)
}

/// The piece that starts on column `col` of either back row.
pub open spec fn back_row_piece(col: int) -> Piece {
    if col == 0 || col == 7 {
        Piece::Rook
    } else if col == 1 || col == 6 {
        Piece::Knight
    } else if col == 2 || col == 5 {
        Piece::Bishop
    } else if col == 3 {
        Piece::Queen
    } else {
        Piece::King
    }
}

/// What stands on `offset` in the starting position: black on rows 0 and 1,
/// white on rows 6 and 7, nothing between.
pub open spec fn starting_occupant(offset: int) -> Option<ColoredPiece> {
    let row = offset / 8;
    let col = offset % 8;
    if row == 0 {
        Some((Color::Black, back_row_piece(col)))
    } else if row == 1 {
        Some((Color::Black, Piece::Pawn))
    } else if row == 6 {
        Some((Color::White, Piece::Pawn))
    } else if row == 7 {
        Some((Color::White, back_row_piece(col)))
    } else {
        None
    }
}

/// What stands on `(row, col)` in the starting position.
pub fn starting_occupant_at(row: u8, col: u8) -> (r: Option<ColoredPiece>)
    requires
        row <= 7,
        col <= 7,
    ensures
        r == starting_occupant(offset_of(row as int, col as int)),
{
    let back = if col == 0 || col == 7 {
        Piece::Rook
    } else if col == 1 || col == 6 {
        Piece::Knight
    } else if col == 2 || col == 5 {
        Piece::Bishop
    } else if col == 3 {
        Piece::Queen
    } else {
        Piece::King
    };
    assert(offset_of(row as int, col as int) / 8 == row as int && offset_of(row as int, col as int)
        % 8 == col as int);
    if row == 0 {
        Some((Color::Black, back))
    } else if row == 1 {
        Some((Color::Black, Piece::Pawn))
    } else if row == 6 {
        Some((Color::White, Piece::Pawn))
    } else if row == 7 {
        Some((Color::White, back))
    } else {
        None
    }
}

/// A position: one bitboard per coloured piece, indexed by ordinal, one for
/// the empty squares, and the side to move.
pub struct Board {
    pub piece_bitboards: [BitBoard; 12],
    /// Empty squares.
    pub empty_bitboard: BitBoard,
    pub current_player: Color,
}

impl Board {
    /// Whether set `k` holds `offset`: sets `0..12` are the pieces' sets by
    /// ordinal, set 12 the empty squares.
    pub open spec fn holds(self, k: int, offset: int) -> bool {
        if k < 12 {
            self.piece_bitboards[k]@.contains(offset)
        } else {
            self.empty_bitboard@.contains(offset)
        }
    }

    /// Whether some set holds `offset`.
    pub open spec fn is_covered(self, offset: int) -> bool {
        exists|k: int| 0 <= k < 13 && #[trigger] self.holds(k, offset)
    }

    /// Every square lies in exactly one of the thirteen sets.
    pub open spec fn is_partition(self) -> bool {
        &&& forall|offset: int| 0 <= offset < 64 ==> #[trigger] self.is_covered(offset)
        &&& forall|offset: int, k: int, j: int|
            0 <= offset < 64 && 0 <= k < 13 && 0 <= j < 13 && #[trigger] self.holds(k, offset)
                && #[trigger] self.holds(j, offset) ==> k == j
    }

    /// The first coloured piece, by ordinal from `k` on, whose set holds
    /// `offset`.
    pub open spec fn occupant_from(self, k: int, offset: int) -> Option<ColoredPiece>
        decreases 12 - k,
    {
        if k >= 12 {
            None
        } else if self.piece_bitboards[k]@.contains(offset) {
            Some(piece_with_ordinal(k))
        } else {
            self.occupant_from(k + 1, offset)
        }
    }

    /// What stands on `offset`.
    pub open spec fn occupant(self, offset: int) -> Option<ColoredPiece> {
        self.occupant_from(0, offset)
    }

    /// The sets of the starting position: each piece's set holds the
    /// squares where it starts, the empty set the squares where none does.
    pub open spec fn is_starting_layout(self) -> bool {
        &&& forall|k: int|
            0 <= k < 12 ==> #[trigger] self.piece_bitboards[k]@ == Set::new(
                |o: int| 0 <= o < 64 && starting_occupant(o) == Some(piece_with_ordinal(k)),
            )
        &&& self.empty_bitboard@ == Set::new(|o: int| 0 <= o < 64 && starting_occupant(o) is None)
    }

    proof fn lemma_starting_occupant_from(self, k: int, offset: int)
        requires
            self.is_starting_layout(),
            0 <= k <= 12,
            0 <= offset < 64,
        ensures
            self.occupant_from(k, offset) == (match starting_occupant(offset) {
                Some(p) => if ordinal_spec(p) >= k {
                    Some(p)
                } else {
                    None
                },
                None => None,
            }),
        decreases 12 - k,
    {
        if k < 12 {
            self.lemma_starting_occupant_from(k + 1, offset);
            assert(self.piece_bitboards[k]@.contains(offset) == (starting_occupant(offset) == Some(
                piece_with_ordinal(k),
            )));
            if let Some(p) = starting_occupant(offset) {
                lemma_ordinal_bijective(p, k);
            }
        }
    }

    proof fn lemma_starting_partition(self)
        requires
            self.is_starting_layout(),
        ensures
            self.is_partition(),
            forall|offset: int|
                0 <= offset < 64 ==> #[trigger] self.occupant(offset) == starting_occupant(offset),
    {
        assert forall|offset: int| 0 <= offset < 64 implies #[trigger] self.is_covered(offset) by {
            match starting_occupant(offset) {
                Some(p) => {
                    lemma_ordinal_bijective(p, 0);
                    assert(self.piece_bitboards[ordinal_spec(p)]@.contains(offset));
                    assert(self.holds(ordinal_spec(p), offset));
                },
                None => {
                    assert(self.holds(12, offset));
                },
            }
        }
        assert forall|offset: int, k: int, j: int|
            0 <= offset < 64 && 0 <= k < 13 && 0 <= j < 13 && #[trigger] self.holds(k, offset)
                && #[trigger] self.holds(j, offset) implies k == j by {
            lemma_ordinal_bijective(piece_with_ordinal(k), k);
            lemma_ordinal_bijective(piece_with_ordinal(j), j);
            if k < 12 {
                assert(self.piece_bitboards[k]@.contains(offset));
            }
            if j < 12 {
                assert(self.piece_bitboards[j]@.contains(offset));
            }
        }
        assert forall|offset: int| 0 <= offset < 64 implies #[trigger] self.occupant(offset)
            == starting_occupant(offset) by {
            self.lemma_starting_occupant_from(0, offset);
            if let Some(p) = starting_occupant(offset) {
                lemma_ordinal_bijective(p, 0);
            }
        }
    }

    /// The starting position, white to move.
    pub fn new_starting() -> (r: Board)
        ensures
            r.is_starting_layout(),
            r.is_partition(),
            forall|offset: int|
                0 <= offset < 64 ==> #[trigger] r.occupant(offset) == starting_occupant(offset),
            r.current_player == Color::White,
    {
        let mut boards: [BitBoard; 12] = [BitBoard::empty(); 12];
        let mut empty = BitBoard::empty();
        let mut idx: u8 = 0;
        while idx < 64
            invariant
                idx <= 64,
                forall|k: int|
                    0 <= k < 12 ==> #[trigger] boards[k]@ == Set::new(
                        |o: int| 0 <= o < idx && starting_occupant(o) == Some(piece_with_ordinal(k)),
                    ),
                empty@ == Set::new(|o: int| 0 <= o < idx && starting_occupant(o) is None),
            decreases 64 - idx,
        {
            let ghost before = boards;
            let ghost before_empty = empty;
            if let Ok((row, col)) = BitBoard::deconstruct_offset(idx) {
                match starting_occupant_at(row, col) {
                    Some(p) => {
                        let k = ordinal(&p);
                        proof {
                            lemma_ordinal_bijective(p, 0);
                        }
                        let mut b = boards[k];
                        let _ = b.set(row, col);
                        boards[k] = b;
                        proof {
                            assert forall|j: int| 0 <= j < 12 implies #[trigger] boards[j]@
                                == Set::new(
                                |o: int|
                                    0 <= o < idx + 1 && starting_occupant(o) == Some(
                                        piece_with_ordinal(j),
                                    ),
                            ) by {
                                lemma_ordinal_bijective(p, j);
                                assert(boards[j]@ =~= Set::new(
                                    |o: int|
                                        0 <= o < idx + 1 && starting_occupant(o) == Some(
                                            piece_with_ordinal(j),
                                        ),
                                ));
                            }
                            assert(empty@ =~= Set::new(
                                |o: int| 0 <= o < idx + 1 && starting_occupant(o) is None,
                            ));
                        }
                    },
                    None => {
                        let _ = empty.set(row, col);
                        proof {
                            assert forall|j: int| 0 <= j < 12 implies #[trigger] boards[j]@
                                == Set::new(
                                |o: int|
                                    0 <= o < idx + 1 && starting_occupant(o) == Some(
                                        piece_with_ordinal(j),
                                    ),
                            ) by {
                                assert(boards[j]@ =~= Set::new(
                                    |o: int|
                                        0 <= o < idx + 1 && starting_occupant(o) == Some(
                                            piece_with_ordinal(j),
                                        ),
                                ));
                            }
                            assert(empty@ =~= Set::new(
                                |o: int| 0 <= o < idx + 1 && starting_occupant(o) is None,
                            ));
                        }
                    },
                }
            }
            idx = idx + 1;
        }
        let r = Board { piece_bitboards: boards, empty_bitboard: empty, current_player: Color::White };
        proof {
            assert forall|k: int| 0 <= k < 12 implies #[trigger] r.piece_bitboards[k]@ == Set::new(
                |o: int| 0 <= o < 64 && starting_occupant(o) == Some(piece_with_ordinal(k)),
            ) by {
                assert(boards[k]@ == Set::new(
                    |o: int| 0 <= o < 64 && starting_occupant(o) == Some(piece_with_ordinal(k)),
                ));
            }
            r.lemma_starting_partition();
        }
        r
    }

    /// The coloured piece on `(row, col)`, if any; the sets are searched in
    /// ordinal order, twelve at most.
    pub fn piece_on_row_col(&self, row: u8, col: u8) -> (r: Result<Option<ColoredPiece>, Error>)
        ensures
            r == (if row <= 7 && col <= 7 {
                Ok::<Option<ColoredPiece>, Error>(self.occupant(offset_of(row as int, col as int)))
            } else {
                Err(Error::OutOfRange)
            }),
    {
        let ghost offset = offset_of(row as int, col as int);
        let mut k: usize = 0;
        while k < 12
            invariant
                k <= 12,
                k > 0 ==> row <= 7 && col <= 7,
                offset == offset_of(row as int, col as int),
                self.occupant(offset) == self.occupant_from(k as int, offset),
            decreases 12 - k,
        {
            let found = self.piece_bitboards[k].get(row, col);
            proof {
                if row <= 7 && col <= 7 {
                    assert(self.occupant_from(k as int, offset) == if self.piece_bitboards[k as int]@.contains(
                        offset,
                    ) {
                        Some(piece_with_ordinal(k as int))
                    } else {
                        self.occupant_from(k + 1, offset)
                    });
                }
            }
            match found {
                Err(e) => {
                    return Err(e);
                },
                Ok(true) => {
                    return Ok(Some(piece_of_ordinal(k)));
                },
                Ok(false) => {},
            }
            k = k + 1;
        }
        Ok(None)
    }

    /// The coloured piece on `square`, if any.
    pub fn piece_on_square(&self, square: &Square) -> (r: Option<ColoredPiece>)
        ensures
            r == self.occupant(square.offset_spec()),
    {
        let (row, col) = square.row_col();
        match self.piece_on_row_col(row, col) {
            Ok(p) => p,
            Err(_) => None,
        }
    }

    /// The set of squares that hold `piece`.
    pub fn bitboard_of(&self, piece: &ColoredPiece) -> (r: BitBoard)
        ensures
            r == self.piece_bitboards[ordinal_spec(*piece)],
    {
        self.piece_bitboards[ordinal(piece)]
    }

    /// On a partitioned board a square holds a piece exactly when that
    /// piece's set holds it, and holds none exactly when the empty set does.
    pub proof fn lemma_occupant_of_partition(self, offset: int, p: ColoredPiece)
        requires
            self.is_partition(),
            0 <= offset < 64,
        ensures
            (self.occupant(offset) == Some(p)) == self.piece_bitboards[ordinal_spec(
                p,
            )]@.contains(offset),
            (self.occupant(offset) is None) == self.empty_bitboard@.contains(offset),
    {
        lemma_ordinal_bijective(p, 0);
        self.lemma_occupant_from_partition(0, offset);
        assert(self.is_covered(offset));
        let k = choose|k: int| 0 <= k < 13 && #[trigger] self.holds(k, offset);
        if k < 12 {
            lemma_ordinal_bijective(piece_with_ordinal(k), k);
            assert(self.holds(k, offset));
            if self.empty_bitboard@.contains(offset) {
                assert(self.holds(12, offset));
            }
            if self.piece_bitboards[ordinal_spec(p)]@.contains(offset) {
                assert(self.holds(ordinal_spec(p), offset));
            }
        } else {
            if self.piece_bitboards[ordinal_spec(p)]@.contains(offset) {
                assert(self.holds(ordinal_spec(p), offset));
            }
        }
    }

    proof fn lemma_occupant_from_partition(self, k: int, offset: int)
        requires
            self.is_partition(),
            0 <= k <= 12,
            0 <= offset < 64,
        ensures
            self.occupant_from(k, offset) == (if exists|j: int|
                k <= j < 12 && #[trigger] self.holds(j, offset) {
                Some(piece_with_ordinal(choose|j: int| k <= j < 12 && #[trigger] self.holds(j, offset)))
            } else {
                None
            }),
        decreases 12 - k,
    {
        if k < 12 {
            self.lemma_occupant_from_partition(k + 1, offset);
            if self.holds(k, offset) {
                let j = choose|j: int| k <= j < 12 && #[trigger] self.holds(j, offset);
                assert(j == k);
            } else if exists|j: int| k <= j < 12 && #[trigger] self.holds(j, offset) {
                let j = choose|j: int| k <= j < 12 && #[trigger] self.holds(j, offset);
                assert(k + 1 <= j < 12 && self.holds(j, offset));
                let i = choose|i: int| k + 1 <= i < 12 && #[trigger] self.holds(i, offset);
                assert(i == j);
            }
        }
    }
}

} // verus!
