use calendar_puzzle::board::Board;
use calendar_puzzle::provenance::Provenance;
use calendar_puzzle::solution::{count_solutions, get_solutions, Solution};

fn bits(sols: &[Solution]) -> Vec<Vec<u64>> {
    sols.iter().map(|s| s.0.iter().map(|b| b.0).collect()).collect()
}

fn diamond() -> Provenance {
    let mut parent = Provenance::new();
    parent.record(Board(0b01), Board(0b01));
    parent.record(Board(0b10), Board(0b10));
    parent.record(Board(0b11), Board(0b10));
    parent.record(Board(0b11), Board(0b01));
    parent.record(Board(0b111), Board(0b100));
    parent
}

#[test]
fn the_empty_board_has_the_empty_solution() {
    let parent = Provenance::new();
    assert_eq!(bits(&get_solutions(&Board(0), &parent)), vec![Vec::<u64>::new()]);
    assert_eq!(count_solutions(&Board(0), &parent), Some(1));
    assert_eq!(bits(&get_solutions(&Board(0), &diamond())), vec![Vec::<u64>::new()]);
}

#[test]
fn a_board_that_was_never_reached_has_no_solution() {
    let parent = diamond();
    assert!(get_solutions(&Board(0b100), &parent).is_empty());
    assert_eq!(count_solutions(&Board(0b100), &parent), Some(0));
    assert!(get_solutions(&Board(0b1000), &Provenance::new()).is_empty());
}

#[test]
fn a_branch_that_leads_nowhere_gives_no_solution() {
    let mut parent = Provenance::new();
    parent.record(Board(0b110), Board(0b100));
    assert!(get_solutions(&Board(0b110), &parent).is_empty());
    assert_eq!(count_solutions(&Board(0b110), &parent), Some(0));
}

#[test]
fn solutions_list_the_placements_in_the_order_laid() {
    let parent = diamond();
    assert_eq!(bits(&get_solutions(&Board(0b01), &parent)), vec![vec![0b01]]);
    assert_eq!(
        bits(&get_solutions(&Board(0b11), &parent)),
        vec![vec![0b01, 0b10], vec![0b10, 0b01]]
    );
    assert_eq!(
        bits(&get_solutions(&Board(0b111), &parent)),
        vec![vec![0b01, 0b10, 0b100], vec![0b10, 0b01, 0b100]]
    );
}

#[test]
fn counting_agrees_with_listing() {
    let parent = diamond();
    for target in 0..8u64 {
        let listed = get_solutions(&Board(target), &parent).len() as u64;
        assert_eq!(count_solutions(&Board(target), &parent), Some(listed));
    }
}

#[test]
fn every_solution_rebuilds_its_board_without_overlap() {
    let parent = diamond();
    for target in 0..8u64 {
        for s in get_solutions(&Board(target), &parent) {
            let mut union = Board(0);
            for b in &s.0 {
                assert!(union.can_add(b));
                union = union.add(b);
            }
            assert_eq!(union, Board(target));
        }
    }
}

#[test]
fn counts_multiply_along_a_chain() {
    // Each of twenty cells can be laid in three recorded ways.
    let mut parent = Provenance::new();
    let mut board = 0u64;
    for cell in 0..20 {
        let placement = Board(1 << cell);
        board |= 1 << cell;
        for _ in 0..3 {
            parent.record(Board(board), placement);
        }
    }
    assert_eq!(count_solutions(&Board(board), &parent), Some(3486784401));
    assert_eq!(count_solutions(&Board(0b111), &parent), Some(27));
    assert_eq!(get_solutions(&Board(0b111), &parent).len(), 27);
}

#[test]
fn a_count_beyond_the_integer_range_is_refused() {
    // 65536 ways for each of four cells: 2^64 solutions in all.
    let mut parent = Provenance::new();
    let mut board = 0u64;
    for cell in 0..4 {
        let placement = Board(1 << cell);
        board |= 1 << cell;
        for _ in 0..65536 {
            parent.record(Board(board), placement);
        }
    }
    assert_eq!(count_solutions(&Board(0b0111), &parent), Some(1 << 48));
    assert_eq!(count_solutions(&Board(board), &parent), None);
}

#[test]
fn piece_at_finds_the_first_placement_that_holds_the_cell() {
    let mut a = Board(0);
    a.set(0, 0);
    a.set(0, 1);
    let mut b = Board(0);
    b.set(3, 4);
    let mut c = Board(0);
    c.set(0, 1);
    c.set(6, 6);
    let s = Solution(vec![a, b, c]);
    assert_eq!(s.piece_at(0, 0), Some(0));
    assert_eq!(s.piece_at(0, 1), Some(0));
    assert_eq!(s.piece_at(3, 4), Some(1));
    assert_eq!(s.piece_at(6, 6), Some(2));
    assert_eq!(s.piece_at(1, 1), None);
    assert_eq!(Solution(Vec::new()).piece_at(0, 0), None);
}
