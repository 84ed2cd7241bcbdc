//! Reading solutions back out of a provenance.
use crate::board::{Board, BOARD_COLS, BOARD_ROWS};
use crate::provenance::{well_formed, Provenance};
use std::collections::HashMap;
use vstd::prelude::*;

verus! {

broadcast use vstd::std_specs::hash::group_hash_axioms;

/// One placement per piece, in the order in which the pieces were laid.
#[derive(Clone, Debug)]
pub struct Solution(pub Vec<Board>);

impl View for Solution {
    type V = Seq<Board>;

    /// The placements, in order.
    open spec fn view(&self) -> Seq<Board> {
        self.0@
    }
}

/// The views of a list of solutions.
pub open spec fn solution_views(sols: Seq<Solution>) -> Seq<Seq<Board>> {
    sols.map_values(|s: Solution| s@)
}

/// Each list of `lists` with `placement` added at its end.
pub open spec fn extend_each(lists: Seq<Seq<Board>>, placement: Board) -> Seq<Seq<Board>> {
    lists.map_values(|s: Seq<Board>| s.push(placement))
}

/// The solutions of `target`: every list of placements that the provenance
/// records as a way to build it.
///
/// The empty board has one solution, the empty list. Another board that is no
/// key has none. Otherwise each placement recorded for `target`, in order,
/// gives the solutions of `target` without that placement, each with the
/// placement added at its end.
pub open spec fn solutions(target: Board, parent: Map<Board, Seq<Board>>) -> Seq<Seq<Board>>
    decreases target.0, 1nat, 0nat,
{
    if target.0 == 0 {
        seq![Seq::<Board>::empty()]
    } else if !parent.contains_key(target) {
        Seq::<Seq<Board>>::empty()
    } else {
        branch_solutions(target, parent, parent[target].len())
    }
}

/// The solutions of `target` that end in one of the first `n` placements
/// recorded for it. A placement that shares no cell with `target` gives none.
pub open spec fn branch_solutions(
    target: Board,
    parent: Map<Board, Seq<Board>>,
    n: nat,
) -> Seq<Seq<Board>>
    decreases target.0, 0nat, n,
{
    if n == 0 || !parent.contains_key(target) || n > parent[target].len() {
        Seq::<Seq<Board>>::empty()
    } else {
        let placement = parent[target][n - 1];
        let rest = target.minus(placement);
        let earlier = branch_solutions(target, parent, (n - 1) as nat);
        if rest.0 < target.0 {
            earlier + extend_each(solutions(rest, parent), placement)
        } else {
            earlier
        }
    }
}

/// The number of solutions of `target`, summed branch by branch.
pub open spec fn solution_count(target: Board, parent: Map<Board, Seq<Board>>) -> nat
    decreases target.0, 1nat, 0nat,
{
    if target.0 == 0 {
        1
    } else if !parent.contains_key(target) {
        0
    } else {
        branch_count(target, parent, parent[target].len())
    }
}

/// The number of solutions of `target` that end in one of the first `n`
/// placements recorded for it.
pub open spec fn branch_count(target: Board, parent: Map<Board, Seq<Board>>, n: nat) -> nat
    decreases target.0, 0nat, n,
{
    if n == 0 || !parent.contains_key(target) || n > parent[target].len() {
        0
    } else {
        let placement = parent[target][n - 1];
        let rest = target.minus(placement);
        let earlier = branch_count(target, parent, (n - 1) as nat);
        if rest.0 < target.0 {
            earlier + solution_count(rest, parent)
        } else {
            earlier
        }
    }
}

/// Taking away a placement that holds a cell of the board makes the board smaller.
pub proof fn lemma_minus_shrinks(board: Board, placement: Board)
    requires
        placement.0 != 0,
        placement.subset_of(board),
    ensures
        board.minus(placement).0 < board.0,
{
    let b: u64 = board.0;
    let p: u64 = placement.0;
    assert((b & !p) < b) by (bit_vector)
        requires
            p != 0,
            p & b == p,
    ;
}

/// Every way to build `board` that `parent` records: see [`solutions`].
pub fn get_solutions(board: &Board, parent: &Provenance) -> (sols: Vec<Solution>)
    requires
        parent.wf(),
    ensures
        solution_views(sols@) == solutions(*board, parent@),
    decreases board.0,
{
    if board.0 == 0 {
        let sols = vec![Solution(Vec::new())];
        assert(solution_views(sols@) =~= solutions(*board, parent@));
        return sols;
    }
    match parent.get(board) {
        None => {
            let sols: Vec<Solution> = Vec::new();
            assert(solution_views(sols@) =~= solutions(*board, parent@));
            sols
        },
        Some(prev_boards) => {
            let mut sols: Vec<Solution> = Vec::new();
            let n: usize = prev_boards.len();
            let mut i: usize = 0;
            assert(solution_views(sols@) =~= branch_solutions(*board, parent@, 0));
            while i < n
                invariant
                    i <= n,
                    n == prev_boards@.len(),
                    board.0 != 0,
                    parent.wf(),
                    parent@.contains_key(*board),
                    prev_boards@ == parent@[*board],
                    solution_views(sols@) == branch_solutions(*board, parent@, i as nat),
                decreases n - i,
            {
                let prev_board = prev_boards[i];
                let rest = board.remove(&prev_board);
                proof {
                    lemma_minus_shrinks(*board, prev_board);
                }
                let tails = get_solutions(&rest, parent);
                let ghost before = solution_views(sols@);
                let m: usize = tails.len();
                let mut j: usize = 0;
                while j < m
                    invariant
                        j <= m,
                        m == tails@.len(),
                        solution_views(sols@) == before + extend_each(
                            solution_views(tails@).take(j as int),
                            prev_board,
                        ),
                    decreases m - j,
                {
                    let mut placements = tails[j].0.clone();
                    placements.push(prev_board);
                    let ghost old_views = solution_views(sols@);
                    sols.push(Solution(placements));
                    proof {
                        let taken = solution_views(tails@).take(j as int);
                        let more = solution_views(tails@).take(j + 1);
                        assert(more =~= taken.push(tails@[j as int]@));
                        assert(placements@ =~= tails@[j as int]@.push(prev_board));
                        assert(solution_views(sols@) =~= old_views.push(placements@));
                        assert(extend_each(more, prev_board) =~= extend_each(
                            taken,
                            prev_board,
                        ).push(placements@));
                        assert(solution_views(sols@) =~= before + extend_each(more, prev_board));
                    }
                    j += 1;
                }
                proof {
                    assert(solution_views(tails@).take(m as int) =~= solution_views(tails@));
                }
                i += 1;
            }
            sols
        },
    }
}

/// A count as the counting functions give it: itself where it fits in a
/// `u64`, nothing where it does not.
pub open spec fn capped(count: nat) -> Option<u64> {
    if count <= u64::MAX {
        Some(count as u64)
    } else {
        None
    }
}

/// Every count remembered is the count of the solutions of its board.
pub open spec fn remembers(
    memo: Map<u64, Option<u64>>,
    parent: Map<Board, Seq<Board>>,
) -> bool {
    forall|bits: u64| #[trigger]
        memo.contains_key(bits) ==> memo[bits] == capped(solution_count(Board(bits), parent))
}

/// The number of ways to build `board` that `parent` records, counted
/// without listing them: the count of each board met on the way is worked
/// out once and remembered. `None` when the number does not fit in a `u64`.
pub fn count_solutions(board: &Board, parent: &Provenance) -> (count: Option<u64>)
    requires
        parent.wf(),
    ensures
        count == capped(solution_count(*board, parent@)),
{
    let mut memo: HashMap<u64, Option<u64>> = HashMap::new();
    count_remembering(board, parent, &mut memo)
}

/// Counts the solutions of `board`, looking up and filling `memo`.
fn count_remembering(
    board: &Board,
    parent: &Provenance,
    memo: &mut HashMap<u64, Option<u64>>,
) -> (count: Option<u64>)
    requires
        parent.wf(),
        remembers(old(memo)@, parent@),
    ensures
        remembers(final(memo)@, parent@),
        count == capped(solution_count(*board, parent@)),
    decreases board.0,
{
    if board.0 == 0 {
        return Some(1);
    }
    match memo.get(&board.0) {
        Some(known) => {
            return *known;
        },
        None => {},
    }
    let total: Option<u64> = match parent.get(board) {
        None => Some(0),
        Some(prev_boards) => {
            let mut total: Option<u64> = Some(0);
            let n: usize = prev_boards.len();
            let mut i: usize = 0;
            while i < n
                invariant
                    i <= n,
                    n == prev_boards@.len(),
                    board.0 != 0,
                    parent.wf(),
                    parent@.contains_key(*board),
                    prev_boards@ == parent@[*board],
                    remembers(memo@, parent@),
                    total == capped(branch_count(*board, parent@, i as nat)),
                decreases n - i,
            {
                let prev_board = prev_boards[i];
                let rest = board.remove(&prev_board);
                proof {
                    lemma_minus_shrinks(*board, prev_board);
                }
                let tails = count_remembering(&rest, parent, memo);
                total =
                match (total, tails) {
                    (Some(so_far), Some(more)) => so_far.checked_add(more),
                    _ => None,
                };
                i += 1;
            }
            total
        },
    };
    memo.insert(board.0, total);
    total
}

/// Counting and listing agree: the count of the solutions of a board is the
/// length of the list of its solutions.
pub proof fn lemma_count_is_length(target: Board, parent: Map<Board, Seq<Board>>)
    ensures
        solution_count(target, parent) == solutions(target, parent).len(),
    decreases target.0, 1nat, 0nat,
{
    if target.0 != 0 && parent.contains_key(target) {
        lemma_branch_count_is_length(target, parent, parent[target].len());
    }
}

/// Counting and listing agree on the first `n` branches of a board.
pub proof fn lemma_branch_count_is_length(
    target: Board,
    parent: Map<Board, Seq<Board>>,
    n: nat,
)
    ensures
        branch_count(target, parent, n) == branch_solutions(target, parent, n).len(),
    decreases target.0, 0nat, n,
{
    if n == 0 || !parent.contains_key(target) || n > parent[target].len() {
    } else {
        let rest = target.minus(parent[target][n - 1]);
        lemma_branch_count_is_length(target, parent, (n - 1) as nat);
        if rest.0 < target.0 {
            lemma_count_is_length(rest, parent);
        }
    }
}

/// A solution among the first `n` branches of `target` ends in one of the
/// first `n` placements recorded for it, and what comes before is a solution
/// of `target` without that placement. Returns the place of the placement.
pub proof fn lemma_branch_member(
    target: Board,
    parent: Map<Board, Seq<Board>>,
    n: nat,
    solution: Seq<Board>,
) -> (idx: int)
    requires
        branch_solutions(target, parent, n).contains(solution),
    ensures
        parent.contains_key(target),
        0 <= idx < n <= parent[target].len(),
        solution.len() > 0,
        solution.last() == parent[target][idx],
        target.minus(parent[target][idx]).0 < target.0,
        solutions(target.minus(parent[target][idx]), parent).contains(solution.drop_last()),
    decreases n,
{
    let placement = parent[target][n - 1];
    let rest = target.minus(placement);
    let earlier = branch_solutions(target, parent, (n - 1) as nat);
    if rest.0 < target.0 {
        let tails = solutions(rest, parent);
        let extended = extend_each(tails, placement);
        let k = choose|k: int|
            0 <= k < (earlier + extended).len() && (earlier + extended)[k] == solution;
        if k < earlier.len() {
            assert(earlier[k] == solution);
            lemma_branch_member(target, parent, (n - 1) as nat, solution)
        } else {
            let tail = tails[k - earlier.len()];
            assert(solution == tail.push(placement));
            assert(solution.drop_last() =~= tail);
            n - 1
        }
    } else {
        lemma_branch_member(target, parent, (n - 1) as nat, solution)
    }
}

/// A solution of `target` without one of the placements recorded for it,
/// with that placement added at its end, is a solution among the branches of
/// `target` up to that placement and beyond.
pub proof fn lemma_branch_holds(
    target: Board,
    parent: Map<Board, Seq<Board>>,
    idx: int,
    tail: Seq<Board>,
    n: nat,
)
    requires
        parent.contains_key(target),
        0 <= idx < n <= parent[target].len(),
        target.minus(parent[target][idx]).0 < target.0,
        solutions(target.minus(parent[target][idx]), parent).contains(tail),
    ensures
        branch_solutions(target, parent, n).contains(tail.push(parent[target][idx])),
    decreases n,
{
    let placement = parent[target][n - 1];
    let rest = target.minus(placement);
    let earlier = branch_solutions(target, parent, (n - 1) as nat);
    let wanted = tail.push(parent[target][idx]);
    if idx == n - 1 {
        let tails = solutions(rest, parent);
        let extended = extend_each(tails, placement);
        let j = choose|j: int| 0 <= j < tails.len() && tails[j] == tail;
        assert(extended[j] == wanted);
        assert((earlier + extended)[earlier.len() + j] == wanted);
    } else {
        lemma_branch_holds(target, parent, idx, tail, (n - 1) as nat);
        let k = choose|k: int| 0 <= k < earlier.len() && earlier[k] == wanted;
        if rest.0 < target.0 {
            let extended = extend_each(solutions(rest, parent), placement);
            assert((earlier + extended)[k] == wanted);
        }
    }
}

/// The cells of all boards of the list together.
pub open spec fn union_all(s: Seq<Board>) -> Board
    decreases s.len(),
{
    if s.len() == 0 {
        Board(0)
    } else {
        union_all(s.drop_last()).union(s.last())
    }
}

/// No two boards of the list share a bit.
pub open spec fn non_overlapping(s: Seq<Board>) -> bool {
    forall|i: int, j: int| 0 <= i < j < s.len() ==> (#[trigger] s[i]).disjoint(#[trigger] s[j])
}

/// Every board of a list lies within the union of the list.
pub proof fn lemma_union_all_holds_each(s: Seq<Board>, i: int)
    requires
        0 <= i < s.len(),
    ensures
        s[i].subset_of(union_all(s)),
    decreases s.len(),
{
    let front = union_all(s.drop_last()).0;
    let last = s.last().0;
    if i == s.len() - 1 {
        assert(last & (front | last) == last) by (bit_vector);
    } else {
        lemma_union_all_holds_each(s.drop_last(), i);
        let x = s[i].0;
        assert(x & (front | last) == x) by (bit_vector)
            requires
                x & front == x,
        ;
    }
}

/// A solution rebuilds its board: the placements of any solution of
/// `target` share no bit with one another, and together they are `target`,
/// with nothing left over.
pub proof fn lemma_solution_rebuilds(
    target: Board,
    parent: Map<Board, Seq<Board>>,
    solution: Seq<Board>,
)
    requires
        well_formed(parent),
        solutions(target, parent).contains(solution),
    ensures
        union_all(solution) == target,
        non_overlapping(solution),
    decreases target.0, 1nat, 0nat,
{
    if target.0 == 0 {
        assert(solution =~= Seq::<Board>::empty());
    } else {
        lemma_branch_rebuilds(target, parent, parent[target].len(), solution);
    }
}

/// The same for a solution among the first `n` branches of `target`.
pub proof fn lemma_branch_rebuilds(
    target: Board,
    parent: Map<Board, Seq<Board>>,
    n: nat,
    solution: Seq<Board>,
)
    requires
        well_formed(parent),
        branch_solutions(target, parent, n).contains(solution),
    ensures
        union_all(solution) == target,
        non_overlapping(solution),
    decreases target.0, 0nat, n,
{
    if n == 0 || !parent.contains_key(target) || n > parent[target].len() {
    } else {
        let placement = parent[target][n - 1];
        let rest = target.minus(placement);
        let earlier = branch_solutions(target, parent, (n - 1) as nat);
        lemma_minus_shrinks(target, placement);
        let tails = solutions(rest, parent);
        let extended = extend_each(tails, placement);
        let k = choose|k: int|
            0 <= k < (earlier + extended).len() && (earlier + extended)[k] == solution;
        if k < earlier.len() {
            assert(earlier[k] == solution);
            lemma_branch_rebuilds(target, parent, (n - 1) as nat, solution);
        } else {
            let tail = tails[k - earlier.len()];
            assert(solution == tail.push(placement));
            assert(solution.drop_last() =~= tail);
            lemma_solution_rebuilds(rest, parent, tail);
            let t: u64 = target.0;
            let p: u64 = placement.0;
            assert(((t & !p) | p) == t) by (bit_vector)
                requires
                    p & t == p,
            ;
            assert forall|i: int, j: int| 0 <= i < j < solution.len() implies (
            #[trigger] solution[i]).disjoint(#[trigger] solution[j]) by {
                if j < tail.len() {
                    assert(tail[i].disjoint(tail[j]));
                } else {
                    lemma_union_all_holds_each(tail, i);
                    let x: u64 = tail[i].0;
                    assert(x & p == 0) by (bit_vector)
                        requires
                            x & (t & !p) == x,
                    ;
                }
            }
        }
    }
}

impl Solution {
    /// Which piece covers the cell at `(row, col)`: the place in the list of
    /// the first placement that holds the cell, if any does.
    pub fn piece_at(&self, row: usize, col: usize) -> (found: Option<usize>)
        requires
            row < BOARD_ROWS,
            col < BOARD_COLS,
        ensures
            match found {
                Some(k) => k < self@.len() && self@[k as int]@.contains((row as int, col as int))
                    && forall|j: int|
                    0 <= j < k ==> !(#[trigger] self@[j])@.contains((row as int, col as int)),
                None => forall|j: int|
                    0 <= j < self@.len() ==> !(#[trigger] self@[j])@.contains(
                        (row as int, col as int),
                    ),
            },
    {
        let n: usize = self.0.len();
        let mut k: usize = 0;
        while k < n
            invariant
                k <= n,
                n == self@.len(),
                row < BOARD_ROWS,
                col < BOARD_COLS,
                forall|j: int|
                    0 <= j < k ==> !(#[trigger] self@[j])@.contains((row as int, col as int)),
            decreases n - k,
        {
            if self.0[k].get(row, col) == 1 {
                return Some(k);
            }
            k += 1;
        }
        None
    }
}

} // verus!
