use calendar_puzzle::board::Board;
use calendar_puzzle::board_set::BoardSet;
use calendar_puzzle::piece::Piece;
use calendar_puzzle::placement::PieceBoards;
use calendar_puzzle::provenance::Provenance;
use calendar_puzzle::search::{combine, place_piece};
use calendar_puzzle::solution::{count_solutions, get_solutions, Solution};

fn boards(bits: &[u64]) -> Vec<Board> {
    bits.iter().map(|b| Board(*b)).collect()
}

fn lists(all: &[&[u64]]) -> Vec<PieceBoards> {
    all.iter()
        .map(|l| PieceBoards { piece: Piece { pos: vec![(0, 0)], name: "test" }, boards: boards(l) })
        .collect()
}

fn bits(sols: &[Solution]) -> Vec<Vec<u64>> {
    sols.iter().map(|s| s.0.iter().map(|b| b.0).collect()).collect()
}

#[test]
fn a_board_set_keeps_the_first_of_each_board() {
    let mut set = BoardSet::new();
    assert_eq!(set.len(), 0);
    assert!(set.insert(Board(5)));
    assert!(set.insert(Board(3)));
    assert!(!set.insert(Board(5)));
    assert!(set.insert(Board(0)));
    assert_eq!(set.len(), 3);
    assert_eq!(set.get(0), Board(5));
    assert_eq!(set.get(1), Board(3));
    assert_eq!(set.get(2), Board(0));
    assert_eq!(set.into_vec(), boards(&[5, 3, 0]));
}

#[test]
fn a_provenance_lists_placements_in_the_order_recorded() {
    let mut parent = Provenance::new();
    assert!(parent.get(&Board(3)).is_none());
    parent.record(Board(3), Board(1));
    parent.record(Board(3), Board(2));
    parent.record(Board(5), Board(4));
    assert_eq!(parent.get(&Board(3)), Some(&boards(&[1, 2])));
    assert_eq!(parent.get(&Board(5)), Some(&boards(&[4])));
    assert!(parent.get(&Board(1)).is_none());
    assert!(parent.get(&Board(0)).is_none());
}

#[test]
fn with_no_piece_only_the_empty_board_is_reached() {
    let state = combine(&Vec::new());
    assert_eq!(state.reachable, boards(&[0]));
    assert!(state.parent.get(&Board(0)).is_none());
    assert_eq!(bits(&get_solutions(&Board(0), &state.parent)), vec![Vec::<u64>::new()]);
}

#[test]
fn one_piece_reaches_each_of_its_placements() {
    let state = combine(&lists(&[&[0b001, 0b010, 0b100]]));
    assert_eq!(state.reachable, boards(&[0b001, 0b010, 0b100]));
    assert_eq!(state.parent.get(&Board(0b010)), Some(&boards(&[0b010])));
    assert_eq!(bits(&get_solutions(&Board(0b010), &state.parent)), vec![vec![0b010]]);
}

#[test]
fn each_piece_is_laid_on_the_boards_it_does_not_overlap() {
    let state = combine(&lists(&[&[0b0011, 0b0110], &[0b1100, 0b1000]]));
    // 0011 + 1100, 0011 + 1000, 0110 + 1000; 0110 overlaps 1100.
    assert_eq!(state.reachable, boards(&[0b1111, 0b1011, 0b1110]));
    assert_eq!(state.parent.get(&Board(0b1111)), Some(&boards(&[0b1100])));
    assert_eq!(state.parent.get(&Board(0b1011)), Some(&boards(&[0b1000])));
    assert_eq!(state.parent.get(&Board(0b1110)), Some(&boards(&[0b1000])));
    // Boards of the first piece alone are not carried on, but stay recorded.
    assert_eq!(state.parent.get(&Board(0b0011)), Some(&boards(&[0b0011])));
    assert!(!state.reachable.contains(&Board(0b0011)));
}

#[test]
fn a_board_reached_in_two_ways_is_listed_once_with_both_placements() {
    let state = combine(&lists(&[&[0b01, 0b10], &[0b10, 0b01]]));
    assert_eq!(state.reachable, boards(&[0b11]));
    assert_eq!(state.parent.get(&Board(0b11)), Some(&boards(&[0b10, 0b01])));
    let sols = get_solutions(&Board(0b11), &state.parent);
    assert_eq!(bits(&sols), vec![vec![0b01, 0b10], vec![0b10, 0b01]]);
    assert_eq!(count_solutions(&Board(0b11), &state.parent), Some(2));
}

#[test]
fn a_piece_without_placements_leaves_nothing_reached() {
    let state = combine(&lists(&[&[0b01, 0b10], &[], &[0b100]]));
    assert!(state.reachable.is_empty());
    assert_eq!(state.parent.get(&Board(0b01)), Some(&boards(&[0b01])));
    assert!(state.parent.get(&Board(0b101)).is_none());
    assert!(get_solutions(&Board(0b101), &state.parent).is_empty());
    assert_eq!(count_solutions(&Board(0b101), &state.parent), Some(0));
}

#[test]
fn a_piece_that_overlaps_everything_leaves_nothing_reached() {
    let state = combine(&lists(&[&[0b011], &[0b110, 0b001]]));
    assert!(state.reachable.is_empty());
}

#[test]
fn one_step_of_the_fold() {
    let mut options = BoardSet::new();
    options.insert(Board(0b001));
    options.insert(Board(0b010));
    let mut parent = Provenance::new();
    let next = place_piece(&options, &boards(&[0b100, 0b011, 0b110]), &mut parent);
    assert_eq!(next.into_vec(), boards(&[0b101, 0b110, 0b111]));
    assert_eq!(parent.get(&Board(0b101)), Some(&boards(&[0b100])));
    assert_eq!(parent.get(&Board(0b110)), Some(&boards(&[0b100])));
    assert_eq!(parent.get(&Board(0b111)), Some(&boards(&[0b110])));
    assert!(parent.get(&Board(0b011)).is_none());
}

#[test]
fn three_pieces_with_several_covers() {
    // Three dominoes on a strip of six cells.
    let a: &[u64] = &[0b000011, 0b001100, 0b110000];
    let state = combine(&lists(&[a, a, a]));
    assert_eq!(state.reachable, boards(&[0b111111]));
    let sols = get_solutions(&Board(0b111111), &state.parent);
    assert_eq!(sols.len(), 6);
    assert_eq!(count_solutions(&Board(0b111111), &state.parent), Some(6));
    assert_eq!(
        bits(&sols),
        vec![
            vec![0b110000, 0b001100, 0b000011],
            vec![0b001100, 0b110000, 0b000011],
            vec![0b110000, 0b000011, 0b001100],
            vec![0b000011, 0b110000, 0b001100],
            vec![0b001100, 0b000011, 0b110000],
            vec![0b000011, 0b001100, 0b110000],
        ]
    );
    for s in &sols {
        let mut union = Board(0);
        for b in &s.0 {
            assert!(union.can_add(b));
            union = union.add(b);
        }
        assert_eq!(union, Board(0b111111));
    }
}
