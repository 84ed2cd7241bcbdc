//! The pieces of the puzzle.
//!
//! A [`Piece`] is a name and a list of `(row, col)` offsets. Its view is that
//! list over the integers, a shape; what each operation computes is said
//! over shapes.
use crate::board::Board;
use crate::shape::{
    flipped, is_min_col, is_min_row, lemma_min_unique, lemma_mirror_spans,
    lemma_normalize_transformable, lemma_turn_spans, mirror, normalize, on_grid, rotated,
    spans_fit, transformable, translate, turn,
};
use vstd::prelude::*;

verus! {

/// A named polyomino: the offsets of its cells.
#[derive(Clone, Debug)]
pub struct Piece {
    pub pos: Vec<(i64, i64)>,
    pub name: &'static str,
}

impl View for Piece {
    type V = Seq<(int, int)>;

    /// The offsets of the piece, in order.
    open spec fn view(&self) -> Seq<(int, int)> {
        self.pos@.map_values(|p: (i64, i64)| (p.0 as int, p.1 as int))
    }
}

/// The two-by-three rectangle.
pub open spec fn rectangle_shape() -> Seq<(int, int)> {
    seq![(0, 0), (0, 1), (0, 2), (1, 0), (1, 1), (1, 2)]
}

/// The Z pentomino.
pub open spec fn z_shape() -> Seq<(int, int)> {
    seq![(0, 0), (1, 0), (1, 1), (1, 2), (2, 2)]
}

/// The L pentomino.
pub open spec fn l_shape() -> Seq<(int, int)> {
    seq![(0, 0), (0, 1), (0, 2), (0, 3), (1, 0)]
}

/// The pentomino with a stub on its second cell.
pub open spec fn t_shape() -> Seq<(int, int)> {
    seq![(0, 0), (0, 1), (0, 2), (0, 3), (1, 1)]
}

/// The skewed pentomino.
pub open spec fn tetris_shape() -> Seq<(int, int)> {
    seq![(0, 0), (0, 1), (0, 2), (1, 2), (1, 3)]
}

/// The U pentomino.
pub open spec fn u_shape() -> Seq<(int, int)> {
    seq![(0, 0), (0, 1), (0, 2), (1, 0), (1, 2)]
}

/// The two-by-two square with an antenna.
pub open spec fn walkie_talkie_shape() -> Seq<(int, int)> {
    seq![(0, 0), (0, 1), (0, 2), (1, 0), (1, 1)]
}

/// The pentomino with two arms of three.
pub open spec fn big_l_shape() -> Seq<(int, int)> {
    seq![(0, 0), (0, 1), (0, 2), (1, 0), (2, 0)]
}

/// The shapes of the eight pieces, in the order in which they are placed.
pub open spec fn catalogue() -> Seq<Seq<(int, int)>> {
    seq![
        rectangle_shape(),
        z_shape(),
        l_shape(),
        t_shape(),
        u_shape(),
        big_l_shape(),
        walkie_talkie_shape(),
        tetris_shape(),
    ]
}

/// How many cells each piece of the catalogue has.
pub open spec fn catalogue_sizes() -> Seq<nat> {
    seq![6, 5, 5, 5, 5, 5, 5, 5]
}

/// The names of the pieces of the catalogue.
pub open spec fn catalogue_names() -> Seq<Seq<char>> {
    seq![
        "rectangle"@,
        "Z"@,
        "L"@,
        "T"@,
        "U"@,
        "big L"@,
        "walkie talkie"@,
        "tetris"@,
    ]
}

/// A shape that lists no offset twice has as many cells as offsets.
proof fn lemma_distinct_cells(s: Seq<(int, int)>)
    requires
        s.no_duplicates(),
    ensures
        s.to_set().len() == s.len(),
{
    s.unique_seq_to_set();
}

/// The pieces of the catalogue have the cells that [`catalogue_sizes`] counts:
/// the rectangle six, every other piece five.
pub proof fn lemma_catalogue_sizes()
    ensures
        catalogue().len() == 8,
        catalogue_sizes().len() == 8,
        forall|k: int|
            0 <= k < 8 ==> (#[trigger] catalogue()[k]).to_set().len() == catalogue_sizes()[k]
                && catalogue()[k].len() > 0,
{
    lemma_distinct_cells(rectangle_shape());
    lemma_distinct_cells(z_shape());
    lemma_distinct_cells(l_shape());
    lemma_distinct_cells(t_shape());
    lemma_distinct_cells(u_shape());
    lemma_distinct_cells(big_l_shape());
    lemma_distinct_cells(walkie_talkie_shape());
    lemma_distinct_cells(tetris_shape());
}

impl Piece {
    /// The two-by-three rectangle.
    pub fn build_rectangle() -> (piece: Piece)
        ensures
            piece@ == rectangle_shape(),
            piece.name@ == "rectangle"@,
    {
        let pos: Vec<(i64, i64)> = vec![(0, 0), (0, 1), (0, 2), (1, 0), (1, 1), (1, 2)];
        let piece = Piece { pos, name: "rectangle" };
        assert(piece@ =~= rectangle_shape());
        piece
    }

    /// The Z pentomino.
    pub fn build_z() -> (piece: Piece)
        ensures
            piece@ == z_shape(),
            piece.name@ == "Z"@,
    {
        let pos: Vec<(i64, i64)> = vec![(0, 0), (1, 0), (1, 1), (1, 2), (2, 2)];
        let piece = Piece { pos, name: "Z" };
        assert(piece@ =~= z_shape());
        piece
    }

    /// The L pentomino.
    pub fn build_l() -> (piece: Piece)
        ensures
            piece@ == l_shape(),
            piece.name@ == "L"@,
    {
        let pos: Vec<(i64, i64)> = vec![(0, 0), (0, 1), (0, 2), (0, 3), (1, 0)];
        let piece = Piece { pos, name: "L" };
        assert(piece@ =~= l_shape());
        piece
    }

    /// The pentomino with a stub on its second cell.
    pub fn build_t() -> (piece: Piece)
        ensures
            piece@ == t_shape(),
            piece.name@ == "T"@,
    {
        let pos: Vec<(i64, i64)> = vec![(0, 0), (0, 1), (0, 2), (0, 3), (1, 1)];
        let piece = Piece { pos, name: "T" };
        assert(piece@ =~= t_shape());
        piece
    }

    /// The skewed pentomino.
    pub fn build_tetris() -> (piece: Piece)
        ensures
            piece@ == tetris_shape(),
            piece.name@ == "tetris"@,
    {
        let pos: Vec<(i64, i64)> = vec![(0, 0), (0, 1), (0, 2), (1, 2), (1, 3)];
        let piece = Piece { pos, name: "tetris" };
        assert(piece@ =~= tetris_shape());
        piece
    }

    /// The U pentomino.
    pub fn build_u() -> (piece: Piece)
        ensures
            piece@ == u_shape(),
            piece.name@ == "U"@,
    {
        let pos: Vec<(i64, i64)> = vec![(0, 0), (0, 1), (0, 2), (1, 0), (1, 2)];
        let piece = Piece { pos, name: "U" };
        assert(piece@ =~= u_shape());
        piece
    }

    /// The two-by-two square with an antenna.
    pub fn build_walkie_talkie() -> (piece: Piece)
        ensures
            piece@ == walkie_talkie_shape(),
            piece.name@ == "walkie talkie"@,
    {
        let pos: Vec<(i64, i64)> = vec![(0, 0), (0, 1), (0, 2), (1, 0), (1, 1)];
        let piece = Piece { pos, name: "walkie talkie" };
        assert(piece@ =~= walkie_talkie_shape());
        piece
    }

    /// The pentomino with two arms of three.
    pub fn build_big_l() -> (piece: Piece)
        ensures
            piece@ == big_l_shape(),
            piece.name@ == "big L"@,
    {
        let pos: Vec<(i64, i64)> = vec![(0, 0), (0, 1), (0, 2), (1, 0), (2, 0)];
        let piece = Piece { pos, name: "big L" };
        assert(piece@ =~= big_l_shape());
        piece
    }

    /// The eight pieces of the puzzle, in the order in which they are placed.
    pub fn build_all_pieces() -> (pieces: Vec<Piece>)
        ensures
            pieces@.len() == 8,
            forall|k: int|
                0 <= k < 8 ==> (#[trigger] pieces@[k])@ == catalogue()[k] && pieces@[k].name@
                    == catalogue_names()[k],
    {
        vec![
            Piece::build_rectangle(),
            Piece::build_z(),
            Piece::build_l(),
            Piece::build_t(),
            Piece::build_u(),
            Piece::build_big_l(),
            Piece::build_walkie_talkie(),
            Piece::build_tetris(),
        ]
    }

    /// The same shape moved so that its least row and least column are zero.
    pub fn normalized(self) -> (piece: Piece)
        requires
            self@.len() > 0,
            spans_fit(self@),
        ensures
            piece@ == normalize(self@),
            piece.name@ == self.name@,
            transformable(piece@),
    {
        let n: usize = self.pos.len();
        let mut min_row: Option<i64> = None;
        let mut min_col: Option<i64> = None;
        let mut i: usize = 0;
        while i < n
            invariant
                n == self.pos.len(),
                i <= n,
                i == 0 ==> min_row is None && min_col is None,
                i > 0 ==> min_row is Some && is_min_row(
                    self@.take(i as int),
                    min_row.unwrap() as int,
                ),
                i > 0 ==> min_col is Some && is_min_col(
                    self@.take(i as int),
                    min_col.unwrap() as int,
                ),
            decreases n - i,
        {
            let (r, c) = self.pos[i];
            let ghost before = self@.take(i as int);
            let ghost after = self@.take(i + 1);
            proof {
                assert(after[i as int] == (r as int, c as int));
                assert(forall|j: int| 0 <= j < i ==> after[j] == before[j]);
                if i > 0 {
                    let wr = choose|j: int|
                        0 <= j < before.len() && (#[trigger] before[j]).0 == min_row.unwrap();
                    assert(after[wr].0 == min_row.unwrap());
                    let wc = choose|j: int|
                        0 <= j < before.len() && (#[trigger] before[j]).1 == min_col.unwrap();
                    assert(after[wc].1 == min_col.unwrap());
                }
            }
            min_row =
            match min_row {
                None => Some(r),
                Some(rr) => if rr > r {
                    Some(r)
                } else {
                    Some(rr)
                },
            };
            min_col =
            match min_col {
                None => Some(c),
                Some(cc) => if cc > c {
                    Some(c)
                } else {
                    Some(cc)
                },
            };
            i += 1;
        }
        let (min_row, min_col) = (min_row.unwrap(), min_col.unwrap());
        proof {
            assert(self@.take(n as int) =~= self@);
            lemma_min_unique(self@, min_row as int, min_col as int);
        }
        let mut pos: Vec<(i64, i64)> = Vec::new();
        let mut j: usize = 0;
        while j < n
            invariant
                n == self.pos.len(),
                j <= n,
                spans_fit(self@),
                is_min_row(self@, min_row as int),
                is_min_col(self@, min_col as int),
                pos@.len() == j,
                forall|k: int|
                    0 <= k < j ==> (#[trigger] pos@[k]).0 == self.pos@[k].0 - min_row && pos@[k].1
                        == self.pos@[k].1 - min_col,
            decreases n - j,
        {
            let (r, c) = self.pos[j];
            proof {
                let wr = choose|k: int| 0 <= k < self@.len() && (#[trigger] self@[k]).0 == min_row;
                let wc = choose|k: int| 0 <= k < self@.len() && (#[trigger] self@[k]).1 == min_col;
                assert(self@[j as int] == (r as int, c as int));
                assert(self@[j as int].0 - self@[wr].0 <= i64::MAX);
                assert(self@[j as int].1 - self@[wc].1 <= i64::MAX);
            }
            pos.push((r - min_row, c - min_col));
            j += 1;
        }
        let piece = Piece { pos, name: self.name };
        proof {
            assert(piece@ =~= normalize(self@));
            lemma_normalize_transformable(self@);
        }
        piece
    }

    /// The piece turned by a quarter: each offset `(r, c)` goes to `(c, -r)`,
    /// and the result is moved back against the origin.
    pub fn rotate_cw(&self) -> (piece: Piece)
        requires
            self@.len() > 0,
            spans_fit(self@),
            forall|i: int| 0 <= i < self@.len() ==> (#[trigger] self@[i]).0 > i64::MIN,
        ensures
            piece@ == rotated(self@),
            piece.name@ == self.name@,
            transformable(piece@),
    {
        let n: usize = self.pos.len();
        let mut pos: Vec<(i64, i64)> = Vec::new();
        let mut i: usize = 0;
        while i < n
            invariant
                n == self.pos.len(),
                i <= n,
                forall|k: int| 0 <= k < self@.len() ==> (#[trigger] self@[k]).0 > i64::MIN,
                pos@.len() == i,
                forall|k: int|
                    0 <= k < i ==> (#[trigger] pos@[k]).0 == self.pos@[k].1 && pos@[k].1
                        == -self.pos@[k].0,
            decreases n - i,
        {
            let (r, c) = self.pos[i];
            assert(self@[i as int] == (r as int, c as int));
            pos.push((c, -r));
            i += 1;
        }
        let turned = Piece { pos, name: self.name };
        proof {
            assert(turned@ =~= turn(self@));
            lemma_turn_spans(self@);
        }
        turned.normalized()
    }

    /// The piece reflected: each offset `(r, c)` goes to `(r, -c)`, and the
    /// result is moved back against the origin.
    pub fn flip(&self) -> (piece: Piece)
        requires
            self@.len() > 0,
            spans_fit(self@),
            forall|i: int| 0 <= i < self@.len() ==> (#[trigger] self@[i]).1 > i64::MIN,
        ensures
            piece@ == flipped(self@),
            piece.name@ == self.name@,
            transformable(piece@),
    {
        let n: usize = self.pos.len();
        let mut pos: Vec<(i64, i64)> = Vec::new();
        let mut i: usize = 0;
        while i < n
            invariant
                n == self.pos.len(),
                i <= n,
                forall|k: int| 0 <= k < self@.len() ==> (#[trigger] self@[k]).1 > i64::MIN,
                pos@.len() == i,
                forall|k: int|
                    0 <= k < i ==> (#[trigger] pos@[k]).0 == self.pos@[k].0 && pos@[k].1
                        == -self.pos@[k].1,
            decreases n - i,
        {
            let (r, c) = self.pos[i];
            assert(self@[i as int] == (r as int, c as int));
            pos.push((r, -c));
            i += 1;
        }
        let mirrored = Piece { pos, name: self.name };
        proof {
            assert(mirrored@ =~= mirror(self@));
            lemma_mirror_spans(self@);
        }
        mirrored.normalized()
    }

    /// The piece moved by `(row, col)`, if every cell then lies on the grid.
    pub fn shifted(&self, row: i64, col: i64) -> (moved: Option<Piece>)
        ensures
            moved is Some <==> on_grid(translate(self@, row as int, col as int)),
            moved matches Some(piece) ==> piece@ == translate(self@, row as int, col as int)
                && piece.name@ == self.name@,
    {
        let ghost target = translate(self@, row as int, col as int);
        let n: usize = self.pos.len();
        let mut pos: Vec<(i64, i64)> = Vec::new();
        let mut i: usize = 0;
        while i < n
            invariant
                n == self.pos.len(),
                i <= n,
                target == translate(self@, row as int, col as int),
                pos@.len() == i,
                forall|k: int|
                    0 <= k < i ==> (#[trigger] pos@[k]).0 == target[k].0 && pos@[k].1
                        == target[k].1,
                forall|k: int| 0 <= k < i ==> 0 <= (#[trigger] target[k]).0 < 7 && 0 <= target[k].1 < 7,
            decreases n - i,
        {
            let (r, c) = self.pos[i];
            assert(target[i as int] == (r + row, c + col));
            let new_row: i64 = match r.checked_add(row) {
                Some(sum) => sum,
                None => {
                    return None;
                },
            };
            let new_col: i64 = match c.checked_add(col) {
                Some(sum) => sum,
                None => {
                    return None;
                },
            };
            if new_row < 0 || new_row >= 7 || new_col < 0 || new_col >= 7 {
                return None;
            }
            pos.push((new_row, new_col));
            i += 1;
        }
        let piece = Piece { pos, name: self.name };
        assert(piece@ =~= target);
        Some(piece)
    }

    /// The cells of the piece as a board.
    pub fn on_board(&self) -> (board: Board)
        requires
            on_grid(self@),
        ensures
            board.wf(),
            board@ == self@.to_set(),
    {
        let n: usize = self.pos.len();
        let mut b = Board(0);
        let mut i: usize = 0;
        proof {
            Board::lemma_zero_is_empty();
            assert(self@.take(0).to_set() =~= Set::<(int, int)>::empty());
        }
        while i < n
            invariant
                n == self.pos.len(),
                i <= n,
                on_grid(self@),
                b.wf(),
                b@ == self@.take(i as int).to_set(),
            decreases n - i,
        {
            let (row, col) = self.pos[i];
            proof {
                assert(self@[i as int] == (row as int, col as int));
                assert(self@.take(i + 1) =~= self@.take(i as int).push(self@[i as int]));
                self@.take(i as int).lemma_push_to_set_commute(self@[i as int]);
            }
            b.set(row as usize, col as usize);
            i += 1;
        }
        assert(self@.take(n as int) =~= self@);
        b
    }
}

} // verus!
