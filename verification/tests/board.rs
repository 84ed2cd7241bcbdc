use calendar_puzzle::board::{Board, BOARD_COLS, BOARD_MASK, BOARD_ROWS};

#[test]
fn a_fresh_board_holds_no_cell() {
    let b = Board(0);
    for row in 0..BOARD_ROWS {
        for col in 0..BOARD_COLS {
            assert_eq!(b.get(row, col), 0);
        }
    }
}

#[test]
fn set_marks_one_cell_and_no_other() {
    let mut b = Board(0);
    b.set(2, 3);
    assert_eq!(b, Board(1 << 17));
    for row in 0..BOARD_ROWS {
        for col in 0..BOARD_COLS {
            let expected = if (row, col) == (2, 3) { 1 } else { 0 };
            assert_eq!(b.get(row, col), expected);
        }
    }
}

#[test]
fn set_twice_is_set_once() {
    let mut b = Board(0);
    b.set(4, 4);
    let once = b;
    b.set(4, 4);
    assert_eq!(b, once);
}

#[test]
fn corner_cells_use_the_first_and_the_last_bit() {
    let mut first = Board(0);
    first.set(0, 0);
    assert_eq!(first.0, 1);
    let mut last = Board(0);
    last.set(6, 6);
    assert_eq!(last.0, 1 << 48);
    assert!(last.0 <= BOARD_MASK);
}

#[test]
fn rows_are_seven_bits_apart() {
    let mut b = Board(0);
    b.set(1, 0);
    assert_eq!(b.0, 128);
    let mut c = Board(0);
    c.set(0, 6);
    assert_eq!(c.0, 64);
}

#[test]
fn add_is_the_union() {
    let a = Board(0b0110);
    let b = Board(0b1100);
    assert_eq!(a.add(&b), Board(0b1110));
    assert_eq!(b.add(&a), Board(0b1110));
    assert_eq!(a.add(&Board(0)), a);
}

#[test]
fn remove_clears_the_cells_of_the_other_board() {
    let a = Board(0b0110);
    let b = Board(0b1100);
    assert_eq!(a.remove(&b), Board(0b0010));
    assert_eq!(b.remove(&a), Board(0b1000));
    assert_eq!(a.remove(&a), Board(0));
    assert_eq!(a.remove(&Board(0)), a);
}

#[test]
fn can_add_tells_overlap() {
    let a = Board(0b0110);
    assert!(!a.can_add(&Board(0b1100)));
    assert!(a.can_add(&Board(0b1001)));
    assert!(a.can_add(&Board(0)));
    assert!(!a.can_add(&a));
    assert!(Board(0).can_add(&Board(0)));
}

#[test]
fn union_then_difference_gives_back_a_disjoint_board() {
    let a = Board(0b0011_0000);
    let b = Board(0b0000_1010);
    assert!(a.can_add(&b));
    assert_eq!(a.add(&b).remove(&b), a);
}

#[test]
fn the_empty_board_holds_the_six_excluded_cells() {
    let b = Board::build_empty_board();
    assert_eq!(b.0, 527765581340736);
    let excluded = [(0, 6), (1, 6), (6, 3), (6, 4), (6, 5), (6, 6)];
    for row in 0..BOARD_ROWS {
        for col in 0..BOARD_COLS {
            let expected = if excluded.contains(&(row, col)) { 1 } else { 0 };
            assert_eq!(b.get(row, col), expected);
        }
    }
}

#[test]
fn the_target_of_the_first_day_of_the_year() {
    let b = Board::build_target_board(0, 0);
    assert_eq!(b.0, 35184372064190);
    assert_eq!(b.get(0, 0), 0);
    assert_eq!(b.get(2, 0), 0);
    assert_eq!(b.get(0, 1), 1);
    assert_eq!(b.get(0, 6), 0);
}

#[test]
fn the_target_of_the_last_day_of_the_year() {
    let b = Board::build_target_board(11, 30);
    assert_eq!(b.0, 17592186032063);
    assert_eq!(b.get(1, 5), 0);
    assert_eq!(b.get(6, 2), 0);
    assert_eq!(b.get(6, 1), 1);
}

#[test]
fn every_target_has_forty_one_cells_and_no_bit_above_the_grid() {
    for month in 0..12 {
        for day in 0..31 {
            let b = Board::build_target_board(month, day);
            assert_eq!(b.0.count_ones(), 41);
            assert!(b.0 <= BOARD_MASK);
            assert!(b.can_add(&Board::build_empty_board()));
            assert_eq!(b.get(month / 6, month % 6), 0);
            assert_eq!(b.get(2 + day / 7, day % 7), 0);
        }
    }
}

#[test]
fn the_cells_of_a_date() {
    // July is the first month of the second row, the eighth the first day
    // of the second row of days.
    let b = Board::build_target_board(6, 7);
    assert_eq!(b.get(1, 0), 0);
    assert_eq!(b.get(3, 0), 0);
    assert_eq!(b.get(0, 0), 1);
    assert_eq!(b.get(2, 0), 1);
    // June ends the first row of months, the seventh the first row of days.
    let c = Board::build_target_board(5, 6);
    assert_eq!(c.get(0, 5), 0);
    assert_eq!(c.get(2, 6), 0);
    // The thirty-first is the third day of the last row.
    let d = Board::build_target_board(11, 30);
    assert_eq!(d.get(1, 5), 0);
    assert_eq!(d.get(6, 2), 0);
}

#[test]
fn boards_are_equal_by_their_bits() {
    let mut a = Board(0);
    a.set(3, 3);
    a.set(0, 1);
    let mut b = Board(0);
    b.set(0, 1);
    b.set(3, 3);
    assert_eq!(a, b);
    assert_ne!(a, Board(0));
}
