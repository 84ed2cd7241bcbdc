//! The puzzle itself: the eight pieces on the grid of a given date.
use crate::board::{day_cell, excluded_cells, grid, lemma_grid_size, month_cell, Board};
use crate::cover::{
    is_cover, lemma_cover_front, lemma_cover_is_reachable, lemma_cover_population,
    lemma_reachable_has_cover, lemma_solutions_are_covers, lemma_total_grows, total, uniform,
};
use crate::piece::{catalogue, catalogue_names, catalogue_sizes, lemma_catalogue_sizes, Piece};
use crate::placement::{
    is_placement, is_placement_list, lemma_placement_population, PieceBoards,
};
use crate::search::{combine, placement_lists, reachable};
use crate::solution::{
    count_solutions, get_solutions, lemma_count_is_length, non_overlapping, solution_views,
    solutions, union_all, Solution,
};
use vstd::prelude::*;

verus! {

/// Why a date was not solved.
#[derive(Clone, Copy, Debug, PartialEq, Eq, Structural)]
pub enum SolveError {
    /// The month is not one of 1 to 12.
    InvalidMonth,
    /// The month has no such day.
    InvalidDay,
    /// The number of solutions does not fit in a `u64`.
    TooManySolutions,
}

/// The number of days of a month, February taken with its leap day.
pub open spec fn days_in_month(month: int) -> int {
    if month == 2 {
        29
    } else if month == 4 || month == 6 || month == 9 || month == 11 {
        30
    } else {
        31
    }
}

/// The month is one of 1 to 12 and has the day.
pub open spec fn valid_date(month: int, day: int) -> bool {
    1 <= month <= 12 && 1 <= day <= days_in_month(month)
}

/// The cells that no piece may cover on a date: the six excluded cells, the
/// cell of the month and the cell of the day.
pub open spec fn forbidden_cells(month: int, day: int) -> Set<(int, int)> {
    excluded_cells().insert(month_cell(month - 1)).insert(day_cell(day - 1))
}

/// The cells that the pieces must cover on a date.
pub open spec fn target_cells(month: int, day: int) -> Set<(int, int)> {
    grid().difference(forbidden_cells(month, day))
}

/// `lists` holds, for each piece of the catalogue in order, its placements
/// on the given date.
pub open spec fn is_puzzle(month: int, day: int, lists: Seq<Seq<Board>>) -> bool {
    &&& lists.len() == 8
    &&& forall|k: int|
        0 <= k < 8 ==> is_placement_list(
            catalogue()[k],
            forbidden_cells(month, day),
            #[trigger] lists[k],
        )
}

/// The outcome is an error exactly for an invalid date, and the error then
/// says which part of the date is wrong: the month where it is not one of 1
/// to 12, else the day.
pub open spec fn check_date_result<T>(
    month: usize,
    day: usize,
    outcome: Result<T, SolveError>,
) -> bool {
    &&& outcome is Ok <==> valid_date(month as int, day as int)
    &&& outcome is Err ==> outcome->Err_0 == if 1 <= month <= 12 {
        SolveError::InvalidDay
    } else {
        SolveError::InvalidMonth
    }
}

/// Accepts a month from 1 to 12 and a day that the month has.
pub fn check_date(month: usize, day: usize) -> (checked: Result<(), SolveError>)
    ensures
        check_date_result(month, day, checked),
{
    if month < 1 || month > 12 {
        return Err(SolveError::InvalidMonth);
    }
    let days: usize = if month == 2 {
        29
    } else if month == 4 || month == 6 || month == 9 || month == 11 {
        30
    } else {
        31
    };
    if day < 1 || day > days {
        return Err(SolveError::InvalidDay);
    }
    Ok(())
}

/// The placements of each piece of the catalogue on a date.
pub fn place_all(month: usize, day: usize) -> (placed: Result<Vec<PieceBoards>, SolveError>)
    ensures
        check_date_result(month, day, placed),
        placed matches Ok(all) ==> is_puzzle(month as int, day as int, placement_lists(all@))
            && forall|k: int|
            0 <= k < 8 ==> (#[trigger] all@[k]).wf() && all@[k].piece@ == catalogue()[k]
                && all@[k].piece.name@ == catalogue_names()[k],
{
    match check_date(month, day) {
        Err(e) => {
            return Err(e);
        },
        Ok(_) => {},
    }
    // The cells are counted from zero.
    let month0: usize = month - 1;
    let day0: usize = day - 1;

    let pieces = Piece::build_all_pieces();
    let mut empty_board = Board::build_empty_board();
    empty_board.set(month0 / 6, month0 % 6);
    empty_board.set(2 + (day0 / 7), day0 % 7);
    assert(empty_board@ == forbidden_cells(month as int, day as int));
    let mut all_piece_boards: Vec<PieceBoards> = Vec::new();
    let ghost shapes = catalogue();
    for piece in it: pieces
        invariant
            it.seq().len() == 8,
            forall|k: int|
                0 <= k < 8 ==> (#[trigger] it.seq()[k])@ == shapes[k] && it.seq()[k].name@
                    == catalogue_names()[k],
            all_piece_boards@.len() == it.index(),
            empty_board@ == forbidden_cells(month as int, day as int),
            shapes == catalogue(),
            forall|k: int|
                0 <= k < all_piece_boards@.len() ==> (#[trigger] all_piece_boards@[k]).wf()
                    && all_piece_boards@[k].piece@ == shapes[k]
                    && all_piece_boards@[k].piece.name@ == catalogue_names()[k]
                    && is_placement_list(
                    shapes[k],
                    forbidden_cells(month as int, day as int),
                    all_piece_boards@[k].boards@,
                ),
    {
        all_piece_boards.push(PieceBoards::from(piece, &empty_board));
    }
    Ok(all_piece_boards)
}

/// `s` solves the puzzle for a date: it lays one placement of each piece of
/// the catalogue, in order, clear of the forbidden cells; no two placements
/// overlap; and together they cover the target cells and nothing else.
pub open spec fn is_exact_cover(month: int, day: int, s: Seq<Board>) -> bool {
    &&& s.len() == 8
    &&& forall|k: int|
        0 <= k < 8 ==> is_placement(catalogue()[k], forbidden_cells(month, day), #[trigger] s[k])
    &&& non_overlapping(s)
    &&& union_all(s)@ == target_cells(month, day)
}

/// All solutions of the puzzle for a date.
pub open spec fn exact_covers(month: int, day: int) -> Set<Seq<Board>> {
    Set::new(|s: Seq<Board>| is_exact_cover(month, day, s))
}

/// On a valid date eight cells of the grid are forbidden and 41 are left to cover.
pub proof fn lemma_cells_of_date(month: int, day: int)
    requires
        valid_date(month, day),
    ensures
        forbidden_cells(month, day).subset_of(grid()),
        forbidden_cells(month, day).finite(),
        forbidden_cells(month, day).len() == 8,
        target_cells(month, day).finite(),
        target_cells(month, day).len() == 41,
{
    broadcast use vstd::set::group_set_axioms;

    let forbidden = forbidden_cells(month, day);
    let target = target_cells(month, day);
    lemma_grid_size();
    assert(excluded_cells().len() == 6);
    assert(!excluded_cells().contains(month_cell(month - 1)));
    assert(!excluded_cells().insert(month_cell(month - 1)).contains(day_cell(day - 1)));
    vstd::set_lib::lemma_len_subset(target, grid());
    vstd::set_lib::lemma_set_disjoint_lens(target, forbidden);
    assert(target + forbidden =~= grid());
}

/// The placement lists of the puzzle are uniform: every placement of a piece
/// is a well-formed board with as many cells as the piece has.
pub proof fn lemma_puzzle_is_uniform(month: int, day: int, lists: Seq<Seq<Board>>)
    requires
        is_puzzle(month, day, lists),
    ensures
        uniform(lists, catalogue_sizes()),
        forall|k: int| 0 <= k < lists.len() ==> (#[trigger] lists[k]).no_duplicates(),
{
    lemma_catalogue_sizes();
    assert forall|k: int, i: int| 0 <= k < lists.len() && 0 <= i < lists[k].len() implies (
    #[trigger] lists[k][i]).wf() && lists[k][i].population() == catalogue_sizes()[k] by {
        let list = lists[k];
        assert(is_placement_list(catalogue()[k], forbidden_cells(month, day), list));
        assert(list.contains(list[i]));
        lemma_placement_population(catalogue()[k], forbidden_cells(month, day), list[i]);
    }
    assert forall|k: int| 0 <= k < lists.len() implies (#[trigger] lists[k]).no_duplicates() by {
        assert(is_placement_list(catalogue()[k], forbidden_cells(month, day), lists[k]));
    }
}

/// A cover of the puzzle stays clear of the forbidden cells.
pub proof fn lemma_cover_is_clear(month: int, day: int, lists: Seq<Seq<Board>>, s: Seq<Board>)
    requires
        is_puzzle(month, day, lists),
        is_cover(lists, s),
    ensures
        union_all(s)@.disjoint(forbidden_cells(month, day)),
    decreases s.len(),
{
    if s.len() == 0 {
        Board::lemma_zero_is_empty();
    } else {
        let k = s.len() - 1;
        lemma_cover_front(lists, s);
        lemma_cover_is_clear(month, day, lists, s.drop_last());
        union_all(s.drop_last()).lemma_union_view(s.last());
        assert(is_placement_list(catalogue()[k], forbidden_cells(month, day), lists[k]));
        lemma_catalogue_sizes();
        lemma_placement_population(catalogue()[k], forbidden_cells(month, day), s.last());
    }
}

/// The pieces have as many cells as the target: a cover of the puzzle that
/// lays all eight pieces covers the target cells exactly, and a cover whose
/// union is the target lays all eight.
pub proof fn lemma_cover_is_exact(month: int, day: int, lists: Seq<Seq<Board>>, s: Seq<Board>)
    requires
        valid_date(month, day),
        is_puzzle(month, day, lists),
        is_cover(lists, s),
    ensures
        s.len() == 8 <==> union_all(s)@ == target_cells(month, day),
        s.len() == 8 ==> is_exact_cover(month, day, s),
{
    let board = union_all(s);
    let sizes = catalogue_sizes();
    lemma_puzzle_is_uniform(month, day, lists);
    lemma_cover_population(lists, sizes, s);
    lemma_cover_is_clear(month, day, lists, s);
    lemma_cells_of_date(month, day);
    lemma_catalogue_sizes();
    assert(total(sizes, 8) == 41) by {
        reveal_with_fuel(total, 9);
    }
    board.lemma_view_in_grid();
    if s.len() == 8 {
        assert(board@.subset_of(target_cells(month, day)));
        vstd::set_lib::lemma_subset_equality(board@, target_cells(month, day));
        assert forall|k: int| 0 <= k < 8 implies is_placement(
            catalogue()[k],
            forbidden_cells(month, day),
            #[trigger] s[k],
        ) by {
            assert(is_placement_list(catalogue()[k], forbidden_cells(month, day), lists[k]));
        }
    } else {
        lemma_total_grows(sizes, s.len(), 8);
    }
}

/// The solutions of the puzzle are the covers whose union is the target board.
pub proof fn lemma_exact_cover_is_cover(
    month: int,
    day: int,
    lists: Seq<Seq<Board>>,
    target: Board,
    s: Seq<Board>,
)
    requires
        valid_date(month, day),
        is_puzzle(month, day, lists),
        target.wf(),
        target@ == target_cells(month, day),
    ensures
        is_exact_cover(month, day, s) <==> is_cover(lists, s) && union_all(s) == target,
{
    if is_exact_cover(month, day, s) {
        assert forall|k: int| 0 <= k < s.len() implies lists[k].contains(#[trigger] s[k]) by {
            assert(is_placement_list(catalogue()[k], forbidden_cells(month, day), lists[k]));
        }
        lemma_puzzle_is_uniform(month, day, lists);
        lemma_cover_population(lists, catalogue_sizes(), s);
        union_all(s).lemma_view_determines(target);
    }
    if is_cover(lists, s) && union_all(s) == target {
        lemma_cover_is_exact(month, day, lists, s);
    }
}

/// The boards that the search reaches after all eight pieces are the
/// target board and no other, and there is one exactly when the puzzle has a
/// solution for the date.
pub proof fn lemma_reachable_iff_solvable(month: int, day: int, lists: Seq<Seq<Board>>)
    requires
        valid_date(month, day),
        is_puzzle(month, day, lists),
    ensures
        forall|b: Board| #[trigger]
            reachable(lists, 8).contains(b) ==> b.wf() && b@ == target_cells(month, day),
        reachable(lists, 8) != Set::<Board>::empty() <==> exact_covers(month, day)
            != Set::<Seq<Board>>::empty(),
{
    assert forall|b: Board| #[trigger] reachable(lists, 8).contains(b) implies b.wf() && b@
        == target_cells(month, day) by {
        let s = lemma_reachable_has_cover(lists, 8, b);
        lemma_cover_is_exact(month, day, lists, s);
        lemma_puzzle_is_uniform(month, day, lists);
        lemma_cover_population(lists, catalogue_sizes(), s);
    }
    if reachable(lists, 8) != Set::<Board>::empty() {
        assert(!(reachable(lists, 8) =~= Set::<Board>::empty()));
        let b = choose|b: Board| reachable(lists, 8).contains(b);
        let s = lemma_reachable_has_cover(lists, 8, b);
        lemma_cover_is_exact(month, day, lists, s);
        assert(exact_covers(month, day).contains(s));
    }
    if exact_covers(month, day) != Set::<Seq<Board>>::empty() {
        assert(!(exact_covers(month, day) =~= Set::<Seq<Board>>::empty()));
        let s = choose|s: Seq<Board>| exact_covers(month, day).contains(s);
        assert forall|k: int| 0 <= k < s.len() implies lists[k].contains(#[trigger] s[k]) by {
            assert(is_placement_list(catalogue()[k], forbidden_cells(month, day), lists[k]));
        }
        lemma_cover_is_reachable(lists, s);
        assert(reachable(lists, 8).contains(union_all(s)));
    }
}

/// Every solution of the puzzle for a date, each once: see [`is_exact_cover`].
/// There may be none. A date that does not exist is refused.
pub fn solve(month: usize, day: usize) -> (outcome: Result<Vec<Solution>, SolveError>)
    ensures
        check_date_result(month, day, outcome),
        outcome matches Ok(sols) ==> solution_views(sols@).no_duplicates() && forall|
            s: Seq<Board>,
        | #[trigger]
            solution_views(sols@).contains(s) <==> is_exact_cover(month as int, day as int, s),
{
    let all_piece_boards = match place_all(month, day) {
        Ok(all) => all,
        Err(e) => {
            return Err(e);
        },
    };
    let state = combine(&all_piece_boards);
    let target = Board::build_target_board(month - 1, day - 1);
    let sols = get_solutions(&target, &state.parent);
    proof {
        let lists = placement_lists(all_piece_boards@);
        lemma_puzzle_is_uniform(month as int, day as int, lists);
        lemma_solutions_are_covers(lists, catalogue_sizes(), target);
        assert forall|s: Seq<Board>| #[trigger]
            solution_views(sols@).contains(s) <==> is_exact_cover(
                month as int,
                day as int,
                s,
            ) by {
            lemma_exact_cover_is_cover(month as int, day as int, lists, target, s);
        }
    }
    Ok(sols)
}

/// The number of solutions of the puzzle for a date, counted without
/// listing them. A date that does not exist is refused, and so is a count
/// that does not fit in a `u64`.
pub fn solve_count(month: usize, day: usize) -> (outcome: Result<u64, SolveError>)
    ensures
        match outcome {
            Ok(n) => valid_date(month as int, day as int) && exact_covers(
                month as int,
                day as int,
            ).finite() && n == exact_covers(month as int, day as int).len(),
            Err(SolveError::InvalidMonth) => !(1 <= month <= 12),
            Err(SolveError::InvalidDay) => 1 <= month <= 12 && !valid_date(
                month as int,
                day as int,
            ),
            Err(SolveError::TooManySolutions) => valid_date(month as int, day as int)
                && exact_covers(month as int, day as int).finite() && exact_covers(
                month as int,
                day as int,
            ).len() > u64::MAX,
        },
{
    let all_piece_boards = match place_all(month, day) {
        Ok(all) => all,
        Err(e) => {
            return Err(e);
        },
    };
    let state = combine(&all_piece_boards);
    let target = Board::build_target_board(month - 1, day - 1);
    proof {
        let lists = placement_lists(all_piece_boards@);
        let listed = solutions(target, state.parent@);
        lemma_puzzle_is_uniform(month as int, day as int, lists);
        lemma_solutions_are_covers(lists, catalogue_sizes(), target);
        lemma_count_is_length(target, state.parent@);
        assert forall|s: Seq<Board>| #[trigger]
            listed.contains(s) <==> is_exact_cover(month as int, day as int, s) by {
            lemma_exact_cover_is_cover(month as int, day as int, lists, target, s);
        }
        assert(listed.to_set() =~= exact_covers(month as int, day as int));
        vstd::seq_lib::seq_to_set_is_finite(listed);
        listed.unique_seq_to_set();
    }
    match count_solutions(&target, &state.parent) {
        Some(n) => Ok(n),
        None => Err(SolveError::TooManySolutions),
    }
}

} // verus!
