//! The 7x7 grid as a bit set.
//!
//! A [`Board`] keeps one bit per cell, row by row, in the low 49 bits of a
//! `u64`. Its view is the set of `(row, col)` cells whose bit is set. A board
//! is well formed when no bit above the grid is set; every operation here
//! keeps well-formed boards well formed, and on such boards the view decides
//! the value.
use crate::bits::{
    bit_is_set, lemma_bits_below, lemma_bits_determine, lemma_bits_of_and, lemma_bits_of_and_not,
    lemma_bits_of_not, lemma_bits_of_or, lemma_bits_of_single, lemma_bits_of_zero,
};
use vstd::prelude::*;

verus! {

/// Number of rows of the grid.
pub const BOARD_ROWS: usize = 7;

/// Number of columns of the grid.
pub const BOARD_COLS: usize = 7;

/// The 49 bits that stand for cells of the grid.
pub const BOARD_MASK: u64 = 0x1_ffff_ffff_ffff;

/// A subset of the cells of the grid.
#[derive(Clone, Copy, Debug, Hash, PartialEq, Eq, Structural)]
pub struct Board(pub u64);

/// All cells of the grid.
pub open spec fn grid() -> Set<(int, int)> {
    Set::new(|c: (int, int)| 0 <= c.0 < 7 && 0 <= c.1 < 7)
}

/// The six cells that are never in play.
pub open spec fn excluded_cells() -> Set<(int, int)> {
    set![(0, 6), (1, 6), (6, 3), (6, 4), (6, 5), (6, 6)]
}

/// The cell whose bit has index `i`.
pub open spec fn cell_of(i: int) -> (int, int) {
    (i / 7, i % 7)
}

/// The cell that names a month, counted from zero.
pub open spec fn month_cell(month: int) -> (int, int) {
    (month / 6, month % 6)
}

/// The cell that names a day of the month, counted from zero.
pub open spec fn day_cell(day: int) -> (int, int) {
    (2 + day / 7, day % 7)
}

impl View for Board {
    type V = Set<(int, int)>;

    /// The cells of the grid that the board holds.
    open spec fn view(&self) -> Set<(int, int)> {
        Set::new(|c: (int, int)| self.has(c.0, c.1))
    }
}

impl Board {
    /// No bit outside the grid is set.
    pub open spec fn wf(self) -> bool {
        self.0 <= BOARD_MASK
    }

    /// Whether the cell at `(row, col)` is held. Cells outside the grid never are.
    pub open spec fn has(self, row: int, col: int) -> bool {
        0 <= row < 7 && 0 <= col < 7 && bit_is_set(self.0, row * 7 + col)
    }

    /// The board that holds the one cell `(row, col)`.
    pub open spec fn single(row: int, col: int) -> Board {
        Board(1u64 << ((row * 7 + col) as u64))
    }

    /// The cells of either board.
    pub open spec fn union(self, other: Board) -> Board {
        Board(self.0 | other.0)
    }

    /// The cells of `self` that `other` does not hold.
    pub open spec fn minus(self, other: Board) -> Board {
        Board(self.0 & !other.0)
    }

    /// The two boards share no bit.
    pub open spec fn disjoint(self, other: Board) -> bool {
        self.0 & other.0 == 0
    }

    /// Every bit of `self` is a bit of `other`.
    pub open spec fn subset_of(self, other: Board) -> bool {
        self.0 & other.0 == self.0
    }

    /// The number of cells held.
    pub open spec fn population(self) -> nat {
        self@.len()
    }

    /// The cells of a board lie in the grid, so they are finitely many.
    pub proof fn lemma_view_in_grid(self)
        ensures
            self@.subset_of(grid()),
            self@.finite(),
            grid().finite(),
            grid().len() == 49,
    {
        lemma_grid_size();
        vstd::set_lib::lemma_len_subset(self@, grid());
    }

    /// The board with value zero holds no cell.
    pub proof fn lemma_zero_is_empty()
        ensures
            Board(0)@ == Set::<(int, int)>::empty(),
            Board(0).wf(),
    {
        lemma_bits_of_zero();
        assert(Board(0)@ =~= Set::<(int, int)>::empty());
    }

    /// A one-cell board holds exactly its cell.
    pub proof fn lemma_single_view(row: int, col: int)
        requires
            0 <= row < 7,
            0 <= col < 7,
        ensures
            Board::single(row, col)@ == set![(row, col)],
            Board::single(row, col).wf(),
    {
        let k: u64 = (row * 7 + col) as u64;
        lemma_bits_of_single(k);
        assert(Board::single(row, col)@ =~= set![(row, col)]);
        assert((1u64 << k) <= 0x1_ffff_ffff_ffffu64) by (bit_vector)
            requires
                k < 49,
        ;
    }

    /// The view of a union is the union of the views.
    pub proof fn lemma_union_view(self, other: Board)
        ensures
            self.union(other)@ == self@.union(other@),
            self.wf() && other.wf() ==> self.union(other).wf(),
    {
        lemma_bits_of_or(self.0, other.0);
        assert(self.union(other)@ =~= self@.union(other@));
        let a: u64 = self.0;
        let b: u64 = other.0;
        assert(a <= 0x1_ffff_ffff_ffffu64 && b <= 0x1_ffff_ffff_ffffu64 ==> (a | b)
            <= 0x1_ffff_ffff_ffffu64) by (bit_vector);
    }

    /// The view of a difference is the difference of the views.
    pub proof fn lemma_minus_view(self, other: Board)
        ensures
            self.minus(other)@ == self@.difference(other@),
            self.wf() ==> self.minus(other).wf(),
    {
        lemma_bits_of_and_not(self.0, other.0);
        assert(self.minus(other)@ =~= self@.difference(other@));
        let a: u64 = self.0;
        let b: u64 = other.0;
        assert((a & !b) <= a) by (bit_vector);
    }

    /// Boards that share no bit share no cell; where one of the two is well
    /// formed the converse holds too.
    pub proof fn lemma_disjoint_view(self, other: Board)
        ensures
            self.disjoint(other) ==> self@.disjoint(other@),
            (self.wf() || other.wf()) && self@.disjoint(other@) ==> self.disjoint(other),
    {
        lemma_bits_of_and(self.0, other.0);
        lemma_bits_of_zero();
        if self.disjoint(other) {
            assert forall|c: (int, int)| !(self@.contains(c) && other@.contains(c)) by {
                assert(!bit_is_set(self.0 & other.0, c.0 * 7 + c.1));
            }
        }
        if (self.wf() || other.wf()) && self@.disjoint(other@) {
            assert forall|i: int| 0 <= i < 64 implies bit_is_set(self.0 & other.0, i)
                == bit_is_set(0, i) by {
                if bit_is_set(self.0 & other.0, i) {
                    if self.wf() {
                        self.lemma_bit_is_cell(i);
                    } else {
                        other.lemma_bit_is_cell(i);
                    }
                    assert((i / 7) * 7 + i % 7 == i);
                    assert(self@.contains(cell_of(i)));
                    assert(other@.contains(cell_of(i)));
                }
            }
            lemma_bits_determine(self.0 & other.0, 0);
        }
    }

    /// Sharing no bit does not depend on the order of the two boards.
    pub proof fn lemma_disjoint_symmetric(self, other: Board)
        ensures
            self.disjoint(other) == other.disjoint(self),
    {
        let a: u64 = self.0;
        let b: u64 = other.0;
        assert((a & b == 0) == (b & a == 0)) by (bit_vector);
    }

    /// On a well-formed board a set bit is the bit of a cell of the grid.
    pub proof fn lemma_bit_is_cell(self, i: int)
        requires
            self.wf(),
            bit_is_set(self.0, i),
        ensures
            0 <= i < 49,
            self.has(cell_of(i).0, cell_of(i).1),
    {
        lemma_bits_below(self.0, 49);
        assert((1u64 << 49) == 0x2_0000_0000_0000u64) by (bit_vector);
        assert((i / 7) * 7 + i % 7 == i);
    }

    /// Two well-formed boards that hold the same cells are the same board.
    pub proof fn lemma_view_determines(self, other: Board)
        requires
            self.wf(),
            other.wf(),
            self@ == other@,
        ensures
            self == other,
    {
        assert forall|i: int| 0 <= i < 64 implies bit_is_set(self.0, i) == bit_is_set(
            other.0,
            i,
        ) by {
            if bit_is_set(self.0, i) {
                self.lemma_bit_is_cell(i);
                assert(self@.contains(cell_of(i)));
                assert(other@.contains(cell_of(i)));
                assert((i / 7) * 7 + i % 7 == i);
            }
            if bit_is_set(other.0, i) {
                other.lemma_bit_is_cell(i);
                assert(other@.contains(cell_of(i)));
                assert(self@.contains(cell_of(i)));
                assert((i / 7) * 7 + i % 7 == i);
            }
        }
        lemma_bits_determine(self.0, other.0);
    }

    /// Marks the cell at `(row, col)` as held.
    pub fn set(&mut self, row: usize, col: usize)
        requires
            row < BOARD_ROWS,
            col < BOARD_COLS,
        ensures
            *final(self) == old(self).union(Board::single(row as int, col as int)),
            final(self)@ == old(self)@.insert((row as int, col as int)),
            old(self).wf() ==> final(self).wf(),
    {
        let index: u64 = (row * BOARD_COLS + col) as u64;
        proof {
            Board::lemma_single_view(row as int, col as int);
            self.lemma_union_view(Board::single(row as int, col as int));
            assert(self@.union(set![(row as int, col as int)]) =~= self@.insert(
                (row as int, col as int),
            ));
        }
        self.0 = self.0 | (1u64 << index);
    }

    /// Reads the cell at `(row, col)`: 1 when it is held, 0 when it is not.
    pub fn get(&self, row: usize, col: usize) -> (bit: usize)
        requires
            row < BOARD_ROWS,
            col < BOARD_COLS,
        ensures
            bit == if self@.contains((row as int, col as int)) {
                1usize
            } else {
                0usize
            },
    {
        let index: u64 = (row * BOARD_COLS + col) as u64;
        let bits: u64 = self.0;
        let bit: u64 = (bits >> index) & 1;
        assert(bit == 0 || bit == 1) by (bit_vector)
            requires
                bit == (bits >> index) & 1,
        ;
        bit as usize
    }

    /// Whether `other` can be laid on top of `self` without overlap.
    pub fn can_add(&self, other: &Self) -> (free: bool)
        ensures
            free == self.disjoint(*other),
            self.wf() && other.wf() ==> free == self@.disjoint(other@),
    {
        proof {
            self.lemma_disjoint_view(*other);
        }
        (self.0 & other.0) == 0
    }

    /// The cells of both boards.
    pub fn add(&self, other: &Self) -> (sum: Self)
        ensures
            sum == self.union(*other),
            sum@ == self@.union(other@),
            self.wf() && other.wf() ==> sum.wf(),
    {
        proof {
            self.lemma_union_view(*other);
        }
        Board(self.0 | other.0)
    }

    /// The cells of `self` with those of `other` cleared.
    pub fn remove(&self, other: &Self) -> (rest: Self)
        ensures
            rest == self.minus(*other),
            rest@ == self@.difference(other@),
            self.wf() ==> rest.wf(),
    {
        proof {
            self.lemma_minus_view(*other);
        }
        Board(self.0 & !other.0)
    }

    /// The board before any date is chosen: the six excluded cells, held.
    pub fn build_empty_board() -> (board: Self)
        ensures
            board.wf(),
            board@ == excluded_cells(),
    {
        let mut start_board = Board(0);
        proof {
            Board::lemma_zero_is_empty();
        }
        start_board.set(0, 6);
        start_board.set(1, 6);
        start_board.set(6, 3);
        start_board.set(6, 4);
        start_board.set(6, 5);
        start_board.set(6, 6);
        assert(start_board@ =~= excluded_cells());
        start_board
    }

    /// The cells that the pieces must cover for the given month and day,
    /// both counted from zero: the whole grid but the excluded cells and
    /// the two cells that name the date.
    pub fn build_target_board(month: usize, day: usize) -> (board: Self)
        requires
            month < 12,
            day < 31,
        ensures
            board.wf(),
            board@ == grid().difference(
                excluded_cells().insert(month_cell(month as int)).insert(day_cell(day as int)),
            ),
    {
        let mut board = Self::build_empty_board();
        let (m_row, m_col) = (month / 6, month % 6);
        let (d_row, d_col) = (2 + (day / 7), day % 7);

        board.set(m_row, m_col);
        board.set(d_row, d_col);

        let ghost blocked = board;
        board.0 = !board.0;
        board.0 = board.0 & BOARD_MASK;
        proof {
            lemma_bits_of_not(blocked.0);
            lemma_bits_of_and(!blocked.0, BOARD_MASK);
            lemma_bits_of_mask();
            let free: u64 = !blocked.0;
            assert((free & 0x1_ffff_ffff_ffffu64) <= 0x1_ffff_ffff_ffffu64) by (bit_vector);
            assert forall|c: (int, int)| board@.contains(c) == (grid().contains(c)
                && !blocked@.contains(c)) by {
                if grid().contains(c) {
                    let i = c.0 * 7 + c.1;
                    assert(bit_is_set(BOARD_MASK, i));
                    assert(bit_is_set(!blocked.0, i) == !bit_is_set(blocked.0, i));
                    assert(bit_is_set(board.0, i) == (bit_is_set(!blocked.0, i) && bit_is_set(
                        BOARD_MASK,
                        i,
                    )));
                }
            }
            assert(board@ =~= grid().difference(blocked@));
        }
        board
    }
}

/// The mask has the bit of every cell set.
proof fn lemma_bits_of_mask()
    ensures
        forall|i: int| 0 <= i < 49 ==> #[trigger] bit_is_set(BOARD_MASK, i),
{
    assert forall|i: int| 0 <= i < 49 implies #[trigger] bit_is_set(BOARD_MASK, i) by {
        let k: u64 = i as u64;
        assert((0x1_ffff_ffff_ffffu64 >> k) & 1 == 1) by (bit_vector)
            requires
                k < 49,
        ;
    }
}

/// The grid has 49 cells.
pub proof fn lemma_grid_size()
    ensures
        grid().finite(),
        grid().len() == 49,
{
    let range = vstd::set_lib::set_int_range(0, 49);
    vstd::set_lib::lemma_int_range(0, 49);
    let g = |i: int| (i / 7, i % 7);
    assert(range.map(g) =~= grid()) by {
        assert forall|c: (int, int)| grid().contains(c) implies range.map(g).contains(c) by {
            let i = c.0 * 7 + c.1;
            assert(range.contains(i));
            assert(g(i) == c);
        }
    }
    assert(vstd::relations::injective_on(g, range));
    vstd::set_lib::lemma_map_size(range, grid(), g);
}

} // verus!
