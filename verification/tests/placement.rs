use calendar_puzzle::board::{Board, BOARD_MASK};
use calendar_puzzle::piece::Piece;
use calendar_puzzle::placement::PieceBoards;

fn has_duplicates(boards: &[Board]) -> bool {
    let mut bits: Vec<u64> = boards.iter().map(|b| b.0).collect();
    bits.sort();
    bits.windows(2).any(|w| w[0] == w[1])
}

fn date_board(month: usize, day: usize) -> Board {
    let mut b = Board::build_empty_board();
    b.set((month - 1) / 6, (month - 1) % 6);
    b.set(2 + (day - 1) / 7, (day - 1) % 7);
    b
}

#[test]
fn placements_on_a_board_without_forbidden_cells() {
    let counts: Vec<usize> = Piece::build_all_pieces()
        .into_iter()
        .map(|p| PieceBoards::from(p, &Board(0)).boards.len())
        .collect();
    assert_eq!(counts, vec![60, 100, 192, 192, 120, 100, 240, 192]);
}

#[test]
fn placements_clear_of_the_excluded_cells() {
    let forbidden = Board::build_empty_board();
    let counts: Vec<usize> = Piece::build_all_pieces()
        .into_iter()
        .map(|p| PieceBoards::from(p, &forbidden).boards.len())
        .collect();
    assert_eq!(counts, vec![48, 82, 151, 154, 96, 80, 196, 154]);
}

#[test]
fn placements_for_the_sixth_of_october() {
    let forbidden = date_board(10, 6);
    let counts: Vec<usize> = Piece::build_all_pieces()
        .into_iter()
        .map(|p| PieceBoards::from(p, &forbidden).boards.len())
        .collect();
    assert_eq!(counts, vec![32, 59, 107, 107, 70, 59, 139, 108]);
}

#[test]
fn no_placement_overlaps_the_forbidden_board() {
    for (month, day) in [(1, 1), (6, 15), (12, 31), (10, 6)] {
        let forbidden = date_board(month, day);
        for p in Piece::build_all_pieces() {
            let placed = PieceBoards::from(p, &forbidden);
            assert!(!placed.boards.is_empty());
            for b in &placed.boards {
                assert!(b.can_add(&forbidden));
                assert!(forbidden.can_add(b));
                assert_eq!(b.0 & forbidden.0, 0);
            }
        }
    }
}

#[test]
fn no_placement_is_listed_twice() {
    let forbidden = Board::build_empty_board();
    for p in Piece::build_all_pieces() {
        let placed = PieceBoards::from(p, &forbidden);
        assert!(!has_duplicates(&placed.boards));
    }
}

#[test]
fn every_placement_has_the_cells_of_its_piece_and_stays_on_the_grid() {
    let forbidden = Board::build_empty_board();
    for p in Piece::build_all_pieces() {
        let cells = p.pos.len() as u32;
        let placed = PieceBoards::from(p, &forbidden);
        for b in &placed.boards {
            assert_eq!(b.0.count_ones(), cells);
            assert!(b.0 <= BOARD_MASK);
        }
    }
}

#[test]
fn the_piece_is_kept_with_its_placements() {
    let placed = PieceBoards::from(Piece::build_t(), &Board(0));
    assert_eq!(placed.piece.name, "T");
    assert_eq!(placed.piece.pos, Piece::build_t().pos);
}

#[test]
fn placements_come_in_the_order_of_variant_row_and_column() {
    let placed = PieceBoards::from(Piece::build_rectangle(), &Board(0));
    // The rectangle lying flat, at the origins (0, 0), (0, 1) and (1, 0).
    assert_eq!(placed.boards[0], Board(0b111 | (0b111 << 7)));
    assert_eq!(placed.boards[1], Board((0b111 << 1) | (0b111 << 8)));
    assert_eq!(placed.boards[5], Board((0b111 << 7) | (0b111 << 14)));
    // Then the rectangle standing up.
    assert_eq!(placed.boards[30], Board(0b11 | (0b11 << 7) | (0b11 << 14)));
}

#[test]
fn a_domino_has_every_translation_of_both_orientations() {
    let domino = Piece { pos: vec![(0, 0), (0, 1)], name: "domino" };
    let placed = PieceBoards::from(domino, &Board(0));
    // 7 rows of 6 lying flat, 6 rows of 7 standing up.
    assert_eq!(placed.boards.len(), 84);
    assert!(!has_duplicates(&placed.boards));
}

#[test]
fn a_single_cell_has_one_placement_for_each_free_cell() {
    let cell = Piece { pos: vec![(0, 0)], name: "cell" };
    assert_eq!(PieceBoards::from(cell.clone(), &Board(0)).boards.len(), 49);
    let forbidden = Board::build_empty_board();
    assert_eq!(PieceBoards::from(cell.clone(), &forbidden).boards.len(), 43);
    assert_eq!(PieceBoards::from(cell, &date_board(3, 3)).boards.len(), 41);
}

#[test]
fn a_piece_with_no_free_place_has_no_placement() {
    let full = Board(BOARD_MASK);
    for p in Piece::build_all_pieces() {
        assert!(PieceBoards::from(p, &full).boards.is_empty());
    }
}

#[test]
fn a_piece_too_long_for_the_grid_has_no_placement() {
    let bar = Piece { pos: (0..8).map(|c| (0, c)).collect(), name: "bar" };
    assert!(PieceBoards::from(bar, &Board(0)).boards.is_empty());
}

#[test]
fn a_piece_away_from_the_origin_is_placed_from_where_it_stands() {
    // The piece itself is moved only down and right; its turns are moved
    // back against the origin first.
    let cell = Piece { pos: vec![(6, 6)], name: "corner" };
    let placed = PieceBoards::from(cell, &Board(0));
    assert_eq!(placed.boards.len(), 49);
    assert_eq!(placed.boards[0], Board(1 << 48));
}
