use calendar_puzzle::board::Board;
use calendar_puzzle::search::combine;
use calendar_puzzle::solution::{count_solutions, get_solutions, Solution};
use calendar_puzzle::solve::{check_date, place_all, solve, solve_count, SolveError};

fn check_solutions(month: usize, day: usize, sols: &[Solution]) {
    let target = Board::build_target_board(month - 1, day - 1);
    let placed = place_all(month, day).unwrap();
    for s in sols {
        assert_eq!(s.0.len(), 8);
        let mut union = Board(0);
        for (k, b) in s.0.iter().enumerate() {
            assert!(placed[k].boards.contains(b));
            assert!(union.can_add(b));
            union = union.add(b);
        }
        assert_eq!(union, target);
        assert_eq!(union.remove(&target), Board(0));
        assert_eq!(target.remove(&union), Board(0));
    }
    for (i, s) in sols.iter().enumerate() {
        for t in &sols[..i] {
            assert_ne!(s.0, t.0);
        }
    }
}

fn search_reaches_the_target(month: usize, day: usize, solutions: u64) {
    let placed = place_all(month, day).unwrap();
    let state = combine(&placed);
    let target = Board::build_target_board(month - 1, day - 1);
    assert_eq!(state.reachable, vec![target]);
    assert_eq!(count_solutions(&target, &state.parent), Some(solutions));
    let sols = get_solutions(&target, &state.parent);
    assert_eq!(sols.len() as u64, solutions);
    check_solutions(month, day, &sols);
}

#[test]
fn the_first_of_january_can_be_solved() {
    search_reaches_the_target(1, 1, 64);
}

#[test]
fn the_fifteenth_of_june_can_be_solved() {
    search_reaches_the_target(6, 15, 57);
}

#[test]
fn the_last_of_december_can_be_solved() {
    search_reaches_the_target(12, 31, 77);
}

#[test]
fn the_sixth_of_october_has_seven_solutions() {
    let sols = solve(10, 6).unwrap();
    assert_eq!(sols.len(), 7);
    check_solutions(10, 6, &sols);
    let first: Vec<u64> = sols[0].0.iter().map(|b| b.0).collect();
    assert_eq!(
        first,
        vec![
            49539,
            13264469622784,
            4156,
            2216405499904,
            461312,
            34642853888,
            1662185897984,
            18006667165696
        ]
    );
}

#[test]
fn the_sixth_of_october_counts_seven_solutions() {
    assert_eq!(solve_count(10, 6), Ok(7));
}

#[test]
fn the_leap_day_can_be_solved() {
    assert_eq!(solve_count(2, 29), Ok(64));
}

#[test]
fn the_twenty_fifth_of_january_has_the_most_solutions_known() {
    assert_eq!(solve_count(1, 25), Ok(216));
}

#[test]
fn every_piece_has_placements_on_a_date() {
    let placed = place_all(10, 6).unwrap();
    assert_eq!(placed.len(), 8);
    let names: Vec<&str> = placed.iter().map(|p| p.piece.name).collect();
    assert_eq!(
        names,
        vec!["rectangle", "Z", "L", "T", "U", "big L", "walkie talkie", "tetris"]
    );
    let counts: Vec<usize> = placed.iter().map(|p| p.boards.len()).collect();
    assert_eq!(counts, vec![32, 59, 107, 107, 70, 59, 139, 108]);
}

#[test]
fn a_month_out_of_range_is_refused() {
    assert_eq!(check_date(0, 1), Err(SolveError::InvalidMonth));
    assert_eq!(check_date(13, 1), Err(SolveError::InvalidMonth));
    assert_eq!(check_date(0, 0), Err(SolveError::InvalidMonth));
    assert_eq!(check_date(usize::MAX, 1), Err(SolveError::InvalidMonth));
    assert_eq!(solve_count(13, 1), Err(SolveError::InvalidMonth));
    assert!(matches!(solve(0, 5), Err(SolveError::InvalidMonth)));
    assert!(matches!(place_all(13, 40), Err(SolveError::InvalidMonth)));
}

#[test]
fn a_day_that_the_month_lacks_is_refused() {
    assert_eq!(check_date(1, 0), Err(SolveError::InvalidDay));
    assert_eq!(check_date(1, 32), Err(SolveError::InvalidDay));
    assert_eq!(check_date(2, 30), Err(SolveError::InvalidDay));
    assert_eq!(check_date(4, 31), Err(SolveError::InvalidDay));
    assert_eq!(check_date(6, 31), Err(SolveError::InvalidDay));
    assert_eq!(check_date(9, 31), Err(SolveError::InvalidDay));
    assert_eq!(check_date(11, 31), Err(SolveError::InvalidDay));
    assert_eq!(check_date(12, usize::MAX), Err(SolveError::InvalidDay));
    assert_eq!(solve_count(2, 30), Err(SolveError::InvalidDay));
    assert!(matches!(solve(4, 31), Err(SolveError::InvalidDay)));
    assert!(matches!(place_all(1, 0), Err(SolveError::InvalidDay)));
}

#[test]
fn the_last_day_of_each_month_is_accepted() {
    let days = [31, 29, 31, 30, 31, 30, 31, 31, 30, 31, 30, 31];
    for month in 1..=12 {
        assert_eq!(check_date(month, 1), Ok(()));
        assert_eq!(check_date(month, days[month - 1]), Ok(()));
        assert_eq!(check_date(month, days[month - 1] + 1), Err(SolveError::InvalidDay));
    }
}
