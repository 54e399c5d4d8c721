use crate::errors::Error;
use vstd::prelude::*;

verus! {

/// Whether bit `i` of `x` is set.
pub open spec fn has_bit(x: u64, i: u64) -> bool {
    (x >> i) & 1u64 == 1u64
}

/// The offsets in `0..64` whose bit is set in `x`.
pub open spec fn bit_set(x: u64) -> Set<int> {
    Set::new(|i: int| 0 <= i < 64 && has_bit(x, i as u64))
}

/// All sixty-four offsets of the board.
pub open spec fn all_offsets() -> Set<int> {
    Set::new(|i: int| 0 <= i < 64)
}

/// The linear offset of the square at `(row, col)`.
pub open spec fn offset_of(row: int, col: int) -> int {
    row * 8 + col
}

/// What `BitBoard::offset` returns.
pub open spec fn offset_result(row: u8, col: u8) -> Result<u8, Error> {
    if row <= 7 && col <= 7 {
        Ok(offset_of(row as int, col as int) as u8)
    } else {
        Err(Error::OutOfRange)
    }
}

/// What `BitBoard::deconstruct_offset` returns.
pub open spec fn deconstruct_result(offset: u8) -> Result<(u8, u8), Error> {
    if offset <= 63 {
        Ok(((offset / 8) as u8, (offset % 8) as u8))
    } else {
        Err(Error::OutOfRange)
    }
}

/// The text of one cell of the grid: its mark, then a space, or a line break
/// after the last column.
pub open spec fn cell_text(marked: Set<int>, i: int) -> Seq<char> {
    seq![if marked.contains(i) { 'x' } else { '.' }, if i % 8 == 7 { '\n' } else { ' ' }]
}

/// The text of the first `n` cells of the grid, in offset order.
pub open spec fn grid_text(marked: Set<int>, n: int) -> Seq<char>
    decreases n,
{
    if n <= 0 {
        Seq::empty()
    } else {
        grid_text(marked, n - 1) + cell_text(marked, n - 1)
    }
}

/// A set of board offsets, one bit per offset.
#[derive(Debug, Clone, Copy, PartialEq, Eq, Structural)]
pub struct BitBoard {
    board: u64,
}

impl View for BitBoard {
    type V = Set<int>;

    open spec fn view(&self) -> Set<int> {
        bit_set(self.bits())
    }
}

proof fn lemma_bit_and(x: u64, y: u64, i: u64)
    requires
        i < 64,
    ensures
        has_bit(x & y, i) == (has_bit(x, i) && has_bit(y, i)),
{
    assert(((x & y) >> i) & 1u64 == 1u64 <==> ((x >> i) & 1u64 == 1u64 && (y >> i) & 1u64 == 1u64))
        by (bit_vector);
}

proof fn lemma_bit_or(x: u64, y: u64, i: u64)
    requires
        i < 64,
    ensures
        has_bit(x | y, i) == (has_bit(x, i) || has_bit(y, i)),
{
    assert(((x | y) >> i) & 1u64 == 1u64 <==> ((x >> i) & 1u64 == 1u64 || (y >> i) & 1u64 == 1u64))
        by (bit_vector);
}

proof fn lemma_bit_xor(x: u64, y: u64, i: u64)
    requires
        i < 64,
    ensures
        has_bit(x ^ y, i) == (has_bit(x, i) != has_bit(y, i)),
{
    assert(((x ^ y) >> i) & 1u64 == 1u64 <==> ((x >> i) & 1u64 == 1u64) != ((y >> i) & 1u64
        == 1u64)) by (bit_vector);
}

proof fn lemma_bit_not(x: u64, i: u64)
    requires
        i < 64,
    ensures
        has_bit(!x, i) == !has_bit(x, i),
{
    assert(((!x) >> i) & 1u64 == 1u64 <==> !((x >> i) & 1u64 == 1u64)) by (bit_vector)
        requires
            i < 64,
    ;
}

proof fn lemma_bit_single(x: u64, o: u64, i: u64)
    requires
        i < 64,
        o < 64,
    ensures
        has_bit(x | (1u64 << o), i) == (has_bit(x, i) || i == o),
{
    assert(((x | (1u64 << o)) >> i) & 1u64 == 1u64 <==> ((x >> i) & 1u64 == 1u64 || i == o))
        by (bit_vector)
        requires
            i < 64,
            o < 64,
    ;
}

proof fn lemma_bit_zero(i: u64)
    ensures
        !has_bit(0u64, i),
{
    assert((0u64 >> i) & 1u64 != 1u64) by (bit_vector);
}

/// If no bit from `n` upwards is set, shifting right by `n` leaves nothing.
proof fn lemma_high_bits_clear(x: u64, n: u64)
    requires
        n <= 63,
        forall|i: u64| n <= i < 64 ==> !#[trigger] has_bit(x, i),
    ensures
        x >> n == 0,
    decreases 63 - n,
{
    if n == 63 {
        assert(!has_bit(x, 63));
        assert((x >> 63u64) & 1u64 != 1u64 ==> x >> 63u64 == 0) by (bit_vector);
    } else {
        let m: u64 = (n + 1) as u64;
        lemma_high_bits_clear(x, m);
        assert(!has_bit(x, n));
        assert(x >> n == 0) by (bit_vector)
            requires
                n < 63,
                m == n + 1,
                x >> m == 0,
                (x >> n) & 1u64 != 1u64,
        ;
    }
}

/// A word is zero exactly when it holds no offset.
proof fn lemma_zero_iff_no_bits(x: u64)
    ensures
        (x == 0) == (bit_set(x) =~= Set::<int>::empty()),
{
    if x == 0 {
        assert forall|i: u64| !has_bit(x, i) by {
            lemma_bit_zero(i);
        }
    } else if bit_set(x) =~= Set::<int>::empty() {
        assert forall|i: u64| 0 <= i < 64 implies !#[trigger] has_bit(x, i) by {
            assert(!bit_set(x).contains(i as int));
        }
        lemma_high_bits_clear(x, 0);
        assert(x >> 0u64 == x) by (bit_vector);
    }
}

impl BitBoard {
    /// The underlying word.
    pub closed spec fn bits(self) -> u64 {
        self.board
    }

    /// The board whose word is `b`.
    pub closed spec fn from_bits(b: u64) -> BitBoard {
        BitBoard { board: b }
    }

    /// The board with no square marked.
    pub open spec fn empty_spec() -> BitBoard {
        BitBoard::from_bits(0)
    }

    /// The board with every square marked.
    pub open spec fn full_spec() -> BitBoard {
        BitBoard::from_bits(0xffff_ffff_ffff_ffff)
    }

    /// The squares marked on both boards.
    pub open spec fn and_spec(self, other: BitBoard) -> BitBoard {
        BitBoard::from_bits(self.bits() & other.bits())
    }

    /// The squares marked on either board.
    pub open spec fn or_spec(self, other: BitBoard) -> BitBoard {
        BitBoard::from_bits(self.bits() | other.bits())
    }

    /// The squares marked on exactly one of the boards.
    pub open spec fn xor_spec(self, other: BitBoard) -> BitBoard {
        BitBoard::from_bits(self.bits() ^ other.bits())
    }

    /// The squares not marked on the board.
    pub open spec fn complement_spec(self) -> BitBoard {
        BitBoard::from_bits(!self.bits())
    }

    /// The word of the board built from `b` is `b`.
    pub proof fn lemma_from_bits(b: u64)
        ensures
            #[trigger] BitBoard::from_bits(b).bits() == b,
    {
    }

    /// Boards with the same word are the same board.
    pub proof fn lemma_bits_ext(a: BitBoard, b: BitBoard)
        requires
            a.bits() == b.bits(),
        ensures
            a == b,
    {
    }

    /// Returns a bitboard with no bit set.
    pub fn empty() -> (r: BitBoard)
        ensures
            r == BitBoard::empty_spec(),
            r@ == Set::<int>::empty(),
    {
        proof {
            lemma_zero_iff_no_bits(0);
        }
        BitBoard { board: 0u64 }
    }

    /// Returns a bitboard with all bits set.
    pub fn full() -> (r: BitBoard)
        ensures
            r == BitBoard::full_spec(),
            r@ == all_offsets(),
    {
        let r = BitBoard { board: u64::MAX };
        proof {
            assert forall|i: int| 0 <= i < 64 implies #[trigger] r@.contains(i) by {
                let j = i as u64;
                assert((0xffff_ffff_ffff_ffffu64 >> j) & 1u64 == 1u64) by (bit_vector)
                    requires
                        j < 64,
                ;
            }
            assert(r@ =~= all_offsets());
        }
        r
    }
    pub fn is_empty(&self) -> (r: bool)
        ensures
            r == (*self == BitBoard::empty_spec()),
            r == (self@ == Set::<int>::empty()),
    {
        proof {
            lemma_zero_iff_no_bits(self.board);
        }
        self.board == 0u64
    }

    pub fn is_full(&self) -> (r: bool)
        ensures
            r == (*self == BitBoard::full_spec()),
            r == (self@ == all_offsets()),
    {
        proof {
            let x = self.board;
            lemma_zero_iff_no_bits(!x);
            assert(!x == 0 <==> x == 0xffff_ffff_ffff_ffffu64) by (bit_vector);
            assert forall|i: int| 0 <= i < 64 implies bit_set(!x).contains(i) == !self@.contains(i) by {
                lemma_bit_not(x, i as u64);
            }
            if self@ == all_offsets() {
                assert forall|i: int| !bit_set(!x).contains(i) by {
                    if 0 <= i < 64 {
                        assert(all_offsets().contains(i));
                    }
                }
                assert(bit_set(!x) =~= Set::<int>::empty());
            }
            if x == 0xffff_ffff_ffff_ffffu64 {
                assert(self@ =~= all_offsets());
            }
        }
        self.board == u64::MAX
    }

    /// Marks the square at `(row, col)`; out of range, nothing changes.
    pub fn set(&mut self, row: u8, col: u8) -> (r: Result<(), Error>)
        ensures
            row <= 7 && col <= 7 ==> r is Ok && final(self)@ == old(self)@.insert(
                offset_of(row as int, col as int),
            ),
            !(row <= 7 && col <= 7) ==> r == Err::<(), Error>(Error::OutOfRange) && *final(self)
                == *old(self),
    {
        let offset = match BitBoard::offset(row, col) {
            Ok(o) => o,
            Err(e) => {
                return Err(e);
            },
        };
        let ghost before = self.board;
        self.board = self.board | (1u64 << offset);
        proof {
            let o = offset as u64;
            assert forall|i: int| #[trigger] self@.contains(i) == bit_set(before).insert(
                offset as int,
            ).contains(i) by {
                if 0 <= i < 64 {
                    lemma_bit_single(before, o, i as u64);
                }
            }
            assert(self@ =~= bit_set(before).insert(offset as int));
        }
        Ok(())
    }

    /// Whether the square at `(row, col)` is marked.
    pub fn get(&self, row: u8, col: u8) -> (r: Result<bool, Error>)
        ensures
            r == (if row <= 7 && col <= 7 {
                Ok::<bool, Error>(self@.contains(offset_of(row as int, col as int)))
            } else {
                Err(Error::OutOfRange)
            }),
    {
        let offset = match BitBoard::offset(row, col) {
            Ok(o) => o,
            Err(e) => {
                return Err(e);
            },
        };
        Ok(((self.board >> offset) & 1) == 1)
    }

    pub fn raw(&self) -> (r: u64)
        ensures
            r == self.bits(),
    {
        self.board
    }

    pub fn and(&self, other: &BitBoard) -> (r: BitBoard)
        ensures
            r == self.and_spec(*other),
            r@ == self@.intersect(other@),
    {
        let r = BitBoard { board: self.board & other.board };
        proof {
            assert forall|i: int| 0 <= i < 64 implies r@.contains(i) == (self@.contains(i)
                && other@.contains(i)) by {
                lemma_bit_and(self.board, other.board, i as u64);
            }
            assert(r@ =~= self@.intersect(other@));
        }
        r
    }

    pub fn or(&self, other: &BitBoard) -> (r: BitBoard)
        ensures
            r == self.or_spec(*other),
            r@ == self@.union(other@),
    {
        let r = BitBoard { board: self.board | other.board };
        proof {
            assert forall|i: int| 0 <= i < 64 implies r@.contains(i) == (self@.contains(i)
                || other@.contains(i)) by {
                lemma_bit_or(self.board, other.board, i as u64);
            }
            assert(r@ =~= self@.union(other@));
        }
        r
    }

    pub fn complement(&self) -> (r: BitBoard)
        ensures
            r == self.complement_spec(),
            r@ == all_offsets().difference(self@),
    {
        let r = BitBoard { board: !self.board };
        proof {
            assert forall|i: int| 0 <= i < 64 implies r@.contains(i) == !self@.contains(i) by {
                lemma_bit_not(self.board, i as u64);
            }
            assert(r@ =~= all_offsets().difference(self@));
        }
        r
    }

    pub fn xor(&self, other: &BitBoard) -> (r: BitBoard)
        ensures
            r == self.xor_spec(*other),
            r@ == self@.difference(other@).union(other@.difference(self@)),
    {
        let r = BitBoard { board: self.board ^ other.board };
        proof {
            assert forall|i: int| 0 <= i < 64 implies r@.contains(i) == (self@.contains(i)
                != other@.contains(i)) by {
                lemma_bit_xor(self.board, other.board, i as u64);
            }
            assert(r@ =~= self@.difference(other@).union(other@.difference(self@)));
        }
        r
    }

    /// The board as eight lines of eight cells, `x` for a marked square and
    /// `.` for an unmarked one, top row first.
    pub fn render(&self) -> (r: String)
        ensures
            r@ == grid_text(self@, 64),
    {
        let mut out = String::new();
        let mut row: u8 = 0;
        while row < 8
            invariant
                row <= 8,
                out@ == grid_text(self@, row * 8),
            decreases 8 - row,
        {
            let mut col: u8 = 0;
            while col < 8
                invariant
                    row < 8,
                    col <= 8,
                    out@ == grid_text(self@, row * 8 + col),
                decreases 8 - col,
            {
                let marked = match self.get(row, col) {
                    Ok(b) => b,
                    Err(_) => false,
                };
                let ghost before = out@;
                proof {
                    reveal_strlit("x");
                    reveal_strlit(".");
                    reveal_strlit("\n");
                    reveal_strlit(" ");
                }
                out.append(if marked { "x" } else { "." });
                out.append(if col == 7 { "\n" } else { " " });
                proof {
                    let i = row * 8 + col;
                    assert(out@ =~= before + cell_text(self@, i));
                }
                col = col + 1;
            }
            row = row + 1;
        }
        out
    }

    /// The linear offset `row * 8 + col` of a square.
    pub fn offset(row: u8, col: u8) -> (r: Result<u8, Error>)
        ensures
            r == offset_result(row, col),
    {
        if row > 7 || col > 7 {
            Err(Error::OutOfRange)
        } else {
            assert(((row << 3u8) | col) == row * 8 + col) by (bit_vector)
                requires
                    row <= 7,
                    col <= 7,
            ;
            Ok((row << 3) | col)
        }
    }

    /// The `(row, col)` of a linear offset.
    pub fn deconstruct_offset(offset: u8) -> (r: Result<(u8, u8), Error>)
        ensures
            r == deconstruct_result(offset),
    {
        if offset > 0b111111 {
            Err(Error::OutOfRange)
        } else {
            assert(offset >> 3u8 == offset / 8 && offset & 7u8 == offset % 8) by (bit_vector);
            Ok((offset >> 3, offset & 0b111))
        }
    }
}

/// Offsets and coordinates are inverse to each other: a square's offset leads
/// back to the square, and an offset's square leads back to the offset.
pub proof fn lemma_offset_round_trip(row: u8, col: u8, offset: u8)
    ensures
        row <= 7 && col <= 7 ==> {
            &&& offset_result(row, col) is Ok
            &&& deconstruct_result(offset_result(row, col)->Ok_0) == Ok::<(u8, u8), Error>(
                (row, col),
            )
        },
        offset <= 63 ==> {
            &&& deconstruct_result(offset) is Ok
            &&& offset_result(deconstruct_result(offset)->Ok_0.0, deconstruct_result(offset)->Ok_0.1)
                == Ok::<u8, Error>(offset)
        },
{
}

/// The laws of the set operations: identities, complements, double
/// complement, commutativity, associativity, idempotence and De Morgan.
pub proof fn lemma_set_algebra(a: BitBoard, b: BitBoard, c: BitBoard)
    ensures
        a.and_spec(BitBoard::full_spec()) == a,
        a.or_spec(BitBoard::empty_spec()) == a,
        a.and_spec(a.complement_spec()) == BitBoard::empty_spec(),
        a.or_spec(a.complement_spec()) == BitBoard::full_spec(),
        a.complement_spec().complement_spec() == a,
        a.and_spec(b) == b.and_spec(a),
        a.or_spec(b) == b.or_spec(a),
        a.and_spec(b).and_spec(c) == a.and_spec(b.and_spec(c)),
        a.or_spec(b).or_spec(c) == a.or_spec(b.or_spec(c)),
        a.and_spec(a) == a,
        a.or_spec(a) == a,
        a.or_spec(b).complement_spec() == a.complement_spec().and_spec(b.complement_spec()),
        a.and_spec(b).complement_spec() == a.complement_spec().or_spec(b.complement_spec()),
{
    let (x, y, z) = (a.bits(), b.bits(), c.bits());
    let full = 0xffff_ffff_ffff_ffffu64;
    BitBoard::lemma_from_bits(0);
    BitBoard::lemma_from_bits(full);
    BitBoard::lemma_from_bits(x & y);
    BitBoard::lemma_from_bits(y & z);
    BitBoard::lemma_from_bits(x | y);
    BitBoard::lemma_from_bits(y | z);
    BitBoard::lemma_from_bits(!x);
    BitBoard::lemma_from_bits(!y);
    BitBoard::lemma_from_bits(!!x);
    BitBoard::lemma_from_bits(x & full);
    BitBoard::lemma_from_bits(x | 0);
    assert(x & full == x && x | 0 == x && x & !x == 0 && x | !x == full && !!x == x) by (bit_vector)
        requires
            full == 0xffff_ffff_ffff_ffffu64,
    ;
    assert(x & y == y & x && x | y == y | x && (x & y) & z == x & (y & z) && (x | y) | z == x | (y
        | z) && x & x == x && x | x == x && !(x | y) == !x & !y && !(x & y) == !x | !y)
        by (bit_vector);
    BitBoard::lemma_bits_ext(a.and_spec(BitBoard::full_spec()), a);
    BitBoard::lemma_bits_ext(a.or_spec(BitBoard::empty_spec()), a);
    BitBoard::lemma_bits_ext(a.complement_spec().complement_spec(), a);
    BitBoard::lemma_bits_ext(a.and_spec(a), a);
    BitBoard::lemma_bits_ext(a.or_spec(a), a);
}

} // verus!
