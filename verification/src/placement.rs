//! Every way to lay one piece on the grid.
//!
//! A placement is a board: one of the eight symmetry variants of a piece,
//! moved to some origin, where it stays on the grid and clear of the
//! forbidden cells. Variants that fall together give the same boards, so a
//! list of distinct boards holds each placement once.
use crate::bits::lemma_bits_of_zero;
use crate::board::Board;
use crate::board_set::BoardSet;
use crate::piece::Piece;
use crate::shape::{
    lemma_translate_cell_count, lemma_variant_cell_count, on_grid, transformable, translate,
    variant,
};
use vstd::prelude::*;

verus! {

/// A piece together with its placements on the grid.
pub struct PieceBoards {
    pub piece: Piece,
    pub boards: Vec<Board>,
}

/// `board` is `shape` moved by `(row, col)`, on the grid and clear of the
/// cells of `forbidden`.
pub open spec fn translation_at(
    shape: Seq<(int, int)>,
    forbidden: Set<(int, int)>,
    board: Board,
    row: int,
    col: int,
) -> bool {
    &&& 0 <= row < 7
    &&& 0 <= col < 7
    &&& on_grid(translate(shape, row, col))
    &&& board.wf()
    &&& board@ == translate(shape, row, col).to_set()
    &&& board@.disjoint(forbidden)
}

/// `board` is `shape` moved by some origin of the grid, on the grid and
/// clear of `forbidden`.
pub open spec fn is_translation(
    shape: Seq<(int, int)>,
    forbidden: Set<(int, int)>,
    board: Board,
) -> bool {
    exists|row: int, col: int| #[trigger] translation_at(shape, forbidden, board, row, col)
}

/// `board` is a placement of `shape`: one of its eight symmetry variants,
/// moved by some origin of the grid, on the grid and clear of `forbidden`.
pub open spec fn is_placement(
    shape: Seq<(int, int)>,
    forbidden: Set<(int, int)>,
    board: Board,
) -> bool {
    exists|k: int| 0 <= k < 8 && #[trigger] is_translation(variant(shape, k), forbidden, board)
}

/// `list` holds each placement of `shape` clear of `forbidden` once.
pub open spec fn is_placement_list(
    shape: Seq<(int, int)>,
    forbidden: Set<(int, int)>,
    list: Seq<Board>,
) -> bool {
    &&& list.no_duplicates()
    &&& forall|b: Board| #[trigger] list.contains(b) <==> is_placement(shape, forbidden, b)
}

/// A placement of a shape that has a cell is a well-formed board that holds
/// a cell, shares none with the forbidden cells, and has as many cells as the
/// shape has distinct offsets.
pub proof fn lemma_placement_population(
    shape: Seq<(int, int)>,
    forbidden: Set<(int, int)>,
    board: Board,
)
    requires
        shape.len() > 0,
        is_placement(shape, forbidden, board),
    ensures
        board.wf(),
        board.0 != 0,
        board@.disjoint(forbidden),
        board.population() == shape.to_set().len(),
{
    let k = choose|k: int|
        0 <= k < 8 && #[trigger] is_translation(variant(shape, k), forbidden, board);
    let (row, col) = choose|row: int, col: int| #[trigger]
        translation_at(variant(shape, k), forbidden, board, row, col);
    let moved = translate(variant(shape, k), row, col);
    lemma_variant_cell_count(shape, k);
    lemma_translate_cell_count(variant(shape, k), row, col);
    assert(board@.contains(moved[0]));
    lemma_bits_of_zero();
}

impl PieceBoards {
    /// No placement is listed twice, and each is a well-formed board that
    /// holds a cell.
    pub open spec fn wf(&self) -> bool {
        &&& self.boards@.no_duplicates()
        &&& forall|i: int|
            0 <= i < self.boards@.len() ==> (#[trigger] self.boards@[i]).wf() && self.boards@[i].0
                != 0
    }
}

/// The origin `(row, col)` comes before `(next_row, next_col)` when the grid
/// is walked row by row.
spec fn origin_before(row: int, col: int, next_row: int, next_col: int) -> bool {
    row < next_row || (row == next_row && col < next_col)
}

/// `board` is a translation of `shape` by an origin that comes before
/// `(next_row, next_col)`.
spec fn translated_before(
    shape: Seq<(int, int)>,
    forbidden: Set<(int, int)>,
    board: Board,
    next_row: int,
    next_col: int,
) -> bool {
    exists|row: int, col: int|
        #[trigger] translation_at(shape, forbidden, board, row, col) && origin_before(
            row,
            col,
            next_row,
            next_col,
        )
}

/// Walking one origin further adds the translation by that origin.
proof fn lemma_next_origin(
    shape: Seq<(int, int)>,
    forbidden: Set<(int, int)>,
    board: Board,
    row: int,
    col: int,
)
    ensures
        translated_before(shape, forbidden, board, row, col + 1) <==> translated_before(
            shape,
            forbidden,
            board,
            row,
            col,
        ) || translation_at(shape, forbidden, board, row, col),
{
    if translated_before(shape, forbidden, board, row, col + 1) {
        let (r, c) = choose|r: int, c: int|
            #[trigger] translation_at(shape, forbidden, board, r, c) && origin_before(
                r,
                c,
                row,
                col + 1,
            );
        if !(r == row && c == col) {
            assert(translation_at(shape, forbidden, board, r, c) && origin_before(r, c, row, col));
        }
    }
    if translated_before(shape, forbidden, board, row, col) {
        let (r, c) = choose|r: int, c: int|
            #[trigger] translation_at(shape, forbidden, board, r, c) && origin_before(
                r,
                c,
                row,
                col,
            );
        assert(translation_at(shape, forbidden, board, r, c) && origin_before(r, c, row, col + 1));
    }
    if translation_at(shape, forbidden, board, row, col) {
        assert(origin_before(row, col, row, col + 1));
    }
}

/// The end of one row is the start of the next; nothing comes before the
/// first origin, and every origin of the grid comes before the end.
proof fn lemma_row_ends(
    shape: Seq<(int, int)>,
    forbidden: Set<(int, int)>,
    board: Board,
    row: int,
)
    ensures
        translated_before(shape, forbidden, board, row, 7) <==> translated_before(
            shape,
            forbidden,
            board,
            row + 1,
            0,
        ),
        !translated_before(shape, forbidden, board, 0, 0),
        translated_before(shape, forbidden, board, 7, 0) <==> is_translation(
            shape,
            forbidden,
            board,
        ),
{
    if translated_before(shape, forbidden, board, row, 7) {
        let (r, c) = choose|r: int, c: int|
            #[trigger] translation_at(shape, forbidden, board, r, c) && origin_before(r, c, row, 7);
        assert(translation_at(shape, forbidden, board, r, c) && origin_before(r, c, row + 1, 0));
    }
    if translated_before(shape, forbidden, board, row + 1, 0) {
        let (r, c) = choose|r: int, c: int|
            #[trigger] translation_at(shape, forbidden, board, r, c) && origin_before(
                r,
                c,
                row + 1,
                0,
            );
        assert(translation_at(shape, forbidden, board, r, c) && origin_before(r, c, row, 7));
    }
    if is_translation(shape, forbidden, board) {
        let (r, c) = choose|r: int, c: int|
            #[trigger] translation_at(shape, forbidden, board, r, c);
        assert(translation_at(shape, forbidden, board, r, c) && origin_before(r, c, 7, 0));
    }
}

/// Adds to `found` every translation of `shape` that lies on the grid and
/// is clear of `forbidden`.
fn collect_translations(shape: &Piece, forbidden: &Board, found: &mut BoardSet)
    requires
        old(found).wf(),
    ensures
        final(found).wf(),
        forall|b: Board|
            #[trigger] final(found)@.contains(b) <==> old(found)@.contains(b) || is_translation(
                shape@,
                forbidden@,
                b,
            ),
{
    let ghost start = found@;
    let mut row: usize = 0;
    proof {
        assert forall|b: Board| !translated_before(shape@, forbidden@, b, 0, 0) by {
            lemma_row_ends(shape@, forbidden@, b, 0);
        }
    }
    while row < 7
        invariant
            row <= 7,
            found.wf(),
            forall|b: Board|
                #[trigger] found@.contains(b) <==> start.contains(b) || translated_before(
                    shape@,
                    forbidden@,
                    b,
                    row as int,
                    0,
                ),
        decreases 7 - row,
    {
        let mut col: usize = 0;
        while col < 7
            invariant
                row < 7,
                col <= 7,
                found.wf(),
                forall|b: Board|
                    #[trigger] found@.contains(b) <==> start.contains(b) || translated_before(
                        shape@,
                        forbidden@,
                        b,
                        row as int,
                        col as int,
                    ),
            decreases 7 - col,
        {
            let ghost before = found@;
            let ghost here = translate(shape@, row as int, col as int);
            match shape.shifted(row as i64, col as i64) {
                None => {},
                Some(piece) => {
                    let board = piece.on_board();
                    proof {
                        forbidden.lemma_disjoint_symmetric(board);
                        board.lemma_disjoint_view(*forbidden);
                        assert forall|b: Board|
                            translation_at(
                                shape@,
                                forbidden@,
                                b,
                                row as int,
                                col as int,
                            ) implies b == board by {
                            b.lemma_view_determines(board);
                        }
                    }
                    if forbidden.can_add(&board) {
                        found.insert(board);
                        proof {
                            assert(translation_at(
                                shape@,
                                forbidden@,
                                board,
                                row as int,
                                col as int,
                            ));
                        }
                    }
                },
            }
            proof {
                assert forall|b: Board|
                    #[trigger] found@.contains(b) <==> start.contains(b) || translated_before(
                        shape@,
                        forbidden@,
                        b,
                        row as int,
                        col + 1,
                    ) by {
                    lemma_next_origin(shape@, forbidden@, b, row as int, col as int);
                }
            }
            col += 1;
        }
        proof {
            assert forall|b: Board|
                #[trigger] found@.contains(b) <==> start.contains(b) || translated_before(
                    shape@,
                    forbidden@,
                    b,
                    row + 1,
                    0,
                ) by {
                lemma_row_ends(shape@, forbidden@, b, row as int);
            }
        }
        row += 1;
    }
    proof {
        assert forall|b: Board|
            #[trigger] found@.contains(b) <==> start.contains(b) || is_translation(
                shape@,
                forbidden@,
                b,
            ) by {
            lemma_row_ends(shape@, forbidden@, b, 0);
        }
    }
}

impl PieceBoards {
    /// Every placement of `piece` on the grid that is clear of `empty_board`:
    /// each of the eight symmetry variants, moved by every origin of the grid,
    /// kept when it stays on the grid and shares no cell with `empty_board`.
    /// No placement is listed twice. The piece itself is moved from where it
    /// stands; its turns and reflections are moved from the origin.
    pub fn from(piece: Piece, empty_board: &Board) -> (placed: PieceBoards)
        requires
            transformable(piece@),
        ensures
            placed.piece == piece,
            placed.wf(),
            is_placement_list(piece@, empty_board@, placed.boards@),
            forall|i: int|
                0 <= i < placed.boards@.len() ==> (#[trigger] placed.boards@[i]).disjoint(
                    *empty_board,
                ) && placed.boards@[i].population() == piece@.to_set().len(),
    {
        let mut boards = BoardSet::new();
        let turned_once = piece.rotate_cw();
        let turned_twice = turned_once.rotate_cw();
        let turned_thrice = turned_twice.rotate_cw();
        let mirrored = piece.flip();
        let mirrored_once = mirrored.rotate_cw();
        let mirrored_twice = mirrored_once.rotate_cw();
        let mirrored_thrice = mirrored_twice.rotate_cw();
        collect_translations(&piece, empty_board, &mut boards);
        collect_translations(&turned_once, empty_board, &mut boards);
        collect_translations(&turned_twice, empty_board, &mut boards);
        collect_translations(&turned_thrice, empty_board, &mut boards);
        collect_translations(&mirrored, empty_board, &mut boards);
        collect_translations(&mirrored_once, empty_board, &mut boards);
        collect_translations(&mirrored_twice, empty_board, &mut boards);
        collect_translations(&mirrored_thrice, empty_board, &mut boards);
        proof {
            boards.lemma_distinct();
            assert forall|b: Board| #[trigger]
                boards@.contains(b) <==> is_placement(piece@, empty_board@, b) by {
                if is_placement(piece@, empty_board@, b) {
                    let k = choose|k: int|
                        0 <= k < 8 && #[trigger] is_translation(
                            variant(piece@, k),
                            empty_board@,
                            b,
                        );
                    assert(is_translation(variant(piece@, k), empty_board@, b));
                }
                if boards@.contains(b) {
                    assert(is_translation(variant(piece@, 0), empty_board@, b) || is_translation(
                        variant(piece@, 1),
                        empty_board@,
                        b,
                    ) || is_translation(variant(piece@, 2), empty_board@, b) || is_translation(
                        variant(piece@, 3),
                        empty_board@,
                        b,
                    ) || is_translation(variant(piece@, 4), empty_board@, b) || is_translation(
                        variant(piece@, 5),
                        empty_board@,
                        b,
                    ) || is_translation(variant(piece@, 6), empty_board@, b) || is_translation(
                        variant(piece@, 7),
                        empty_board@,
                        b,
                    ));
                }
            }
            assert forall|i: int| 0 <= i < boards@.len() implies (#[trigger] boards@[i]).wf()
                && boards@[i].0 != 0 && boards@[i].disjoint(*empty_board)
                && boards@[i].population() == piece@.to_set().len() by {
                let b = boards@[i];
                assert(boards@.contains(b));
                lemma_placement_population(piece@, empty_board@, b);
                b.lemma_disjoint_view(*empty_board);
            }
        }
        PieceBoards { piece, boards: boards.into_vec() }
    }
}

} // verus!
