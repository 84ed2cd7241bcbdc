//! What the search finds, said without the search: the boards reached are
//! the boards covered by one placement of each piece, and the solutions read
//! back from the provenance are exactly those covers.
use crate::board::Board;
use crate::search::{extends, lemma_lay, provenance_of, reachable, recorded, step_entries};
use crate::solution::{
    branch_solutions, extend_each, lemma_branch_holds, lemma_branch_member, lemma_minus_shrinks,
    lemma_union_all_holds_each, non_overlapping, solutions, union_all,
};
use vstd::prelude::*;

verus! {

/// `s` lays one placement of each of the first `s.len()` pieces, in order,
/// and no two of them overlap.
pub open spec fn is_cover(lists: Seq<Seq<Board>>, s: Seq<Board>) -> bool {
    &&& s.len() <= lists.len()
    &&& forall|i: int| 0 <= i < s.len() ==> lists[i].contains(#[trigger] s[i])
    &&& non_overlapping(s)
}

/// Every placement of piece `k` is a well-formed board of `sizes[k]` cells,
/// and no piece is without cells.
pub open spec fn uniform(lists: Seq<Seq<Board>>, sizes: Seq<nat>) -> bool {
    &&& sizes.len() == lists.len()
    &&& forall|k: int| 0 <= k < sizes.len() ==> #[trigger] sizes[k] > 0
    &&& forall|k: int, i: int|
        0 <= k < lists.len() && 0 <= i < lists[k].len() ==> (#[trigger] lists[k][i]).wf()
            && lists[k][i].population() == sizes[k]
}

/// The cells of the first `k` pieces together.
pub open spec fn total(sizes: Seq<nat>, k: nat) -> nat
    decreases k,
{
    if k == 0 || k > sizes.len() {
        0
    } else {
        total(sizes, (k - 1) as nat) + sizes[k - 1]
    }
}

/// The union of a list with one more board is the union of the list, and
/// that board.
pub proof fn lemma_union_all_push(s: Seq<Board>, last: Board)
    ensures
        union_all(s.push(last)) == union_all(s).union(last),
{
    assert(s.push(last).drop_last() =~= s);
}

/// A board that shares no bit with any board of a list shares none with
/// their union.
pub proof fn lemma_union_all_disjoint(s: Seq<Board>, other: Board)
    requires
        forall|i: int| 0 <= i < s.len() ==> (#[trigger] s[i]).disjoint(other),
    ensures
        union_all(s).disjoint(other),
    decreases s.len(),
{
    let p: u64 = other.0;
    if s.len() == 0 {
        assert(0u64 & p == 0) by (bit_vector);
    } else {
        lemma_union_all_disjoint(s.drop_last(), other);
        let front: u64 = union_all(s.drop_last()).0;
        let last: u64 = s.last().0;
        assert(s.last().disjoint(other));
        assert((front | last) & p == 0) by (bit_vector)
            requires
                front & p == 0,
                last & p == 0,
        ;
    }
}

/// A cover without its last placement is a cover, and its last placement
/// shares no bit with the rest.
pub proof fn lemma_cover_front(lists: Seq<Seq<Board>>, s: Seq<Board>)
    requires
        is_cover(lists, s),
        s.len() > 0,
    ensures
        is_cover(lists, s.drop_last()),
        union_all(s.drop_last()).disjoint(s.last()),
        union_all(s) == union_all(s.drop_last()).union(s.last()),
        lists[s.len() - 1].contains(s.last()),
{
    let front = s.drop_last();
    assert forall|i: int| 0 <= i < front.len() implies lists[i].contains(#[trigger] front[i]) by {
        assert(front[i] == s[i]);
    }
    assert forall|i: int, j: int| 0 <= i < j < front.len() implies (#[trigger] front[i]).disjoint(
        #[trigger] front[j],
    ) by {
        assert(s[i].disjoint(s[j]));
    }
    assert forall|i: int| 0 <= i < front.len() implies (#[trigger] front[i]).disjoint(
        s.last(),
    ) by {
        assert(s[i].disjoint(s[s.len() - 1]));
    }
    lemma_union_all_disjoint(front, s.last());
}

/// A cover with one more placement, of the next piece and clear of the
/// cover, is a cover.
pub proof fn lemma_cover_push(lists: Seq<Seq<Board>>, s: Seq<Board>, placement: Board)
    requires
        is_cover(lists, s),
        s.len() < lists.len(),
        lists[s.len() as int].contains(placement),
        union_all(s).disjoint(placement),
    ensures
        is_cover(lists, s.push(placement)),
        union_all(s.push(placement)) == union_all(s).union(placement),
{
    let longer = s.push(placement);
    lemma_union_all_push(s, placement);
    assert forall|i: int| 0 <= i < longer.len() implies lists[i].contains(
        #[trigger] longer[i],
    ) by {
        if i < s.len() {
            assert(longer[i] == s[i]);
        }
    }
    assert forall|i: int, j: int| 0 <= i < j < longer.len() implies (
    #[trigger] longer[i]).disjoint(#[trigger] longer[j]) by {
        if j < s.len() {
            assert(s[i].disjoint(s[j]));
        } else {
            lemma_union_all_holds_each(s, i);
            let x: u64 = s[i].0;
            let u: u64 = union_all(s).0;
            let p: u64 = placement.0;
            assert(x & p == 0) by (bit_vector)
                requires
                    x & u == x,
                    u & p == 0,
            ;
        }
    }
}

/// The union of a cover is a board that the search reaches after as many
/// pieces as the cover lays.
pub proof fn lemma_cover_is_reachable(lists: Seq<Seq<Board>>, s: Seq<Board>)
    requires
        is_cover(lists, s),
    ensures
        reachable(lists, s.len()).contains(union_all(s)),
    decreases s.len(),
{
    if s.len() > 0 {
        let front = s.drop_last();
        let k = s.len();
        lemma_cover_front(lists, s);
        lemma_cover_is_reachable(lists, front);
        lemma_lay(union_all(front), s.last(), union_all(s));
        let list = lists[k - 1];
        let i = choose|i: int| 0 <= i < list.len() && list[i] == s.last();
        assert(extends(reachable(lists, (k - 1) as nat), list[i], union_all(s)));
    }
}

/// A board that the search reaches after `k` pieces is the union of a cover
/// that lays `k` pieces.
pub proof fn lemma_reachable_has_cover(lists: Seq<Seq<Board>>, k: nat, board: Board) -> (s: Seq<
    Board,
>)
    requires
        k <= lists.len(),
        reachable(lists, k).contains(board),
    ensures
        s.len() == k,
        is_cover(lists, s),
        union_all(s) == board,
    decreases k,
{
    if k == 0 {
        Seq::empty()
    } else {
        let prev = reachable(lists, (k - 1) as nat);
        let i = choose|i: int|
            0 <= i < lists[k - 1].len() && extends(prev, #[trigger] lists[k - 1][i], board);
        let placement = lists[k - 1][i];
        let rest = board.minus(placement);
        let front = lemma_reachable_has_cover(lists, (k - 1) as nat, rest);
        let b: u64 = board.0;
        let p: u64 = placement.0;
        assert((b & !p) & p == 0) by (bit_vector);
        assert(((b & !p) | p) == b) by (bit_vector)
            requires
                p & b == p,
        ;
        lemma_cover_push(lists, front, placement);
        front.push(placement)
    }
}

/// Laying more pieces covers more cells.
pub proof fn lemma_total_grows(sizes: Seq<nat>, fewer: nat, more: nat)
    requires
        fewer < more <= sizes.len(),
        forall|k: int| 0 <= k < sizes.len() ==> #[trigger] sizes[k] > 0,
    ensures
        total(sizes, fewer) < total(sizes, more),
    decreases more,
{
    assert(sizes[more - 1] > 0);
    if fewer < more - 1 {
        lemma_total_grows(sizes, fewer, (more - 1) as nat);
    }
}

/// A board with a cell is not the board with value zero.
pub proof fn lemma_populated_is_nonzero(board: Board)
    requires
        board.population() > 0,
    ensures
        board.0 != 0,
{
    Board::lemma_zero_is_empty();
}

/// The union of a cover is a well-formed board with as many cells as the
/// pieces laid have together.
pub proof fn lemma_cover_population(lists: Seq<Seq<Board>>, sizes: Seq<nat>, s: Seq<Board>)
    requires
        uniform(lists, sizes),
        is_cover(lists, s),
    ensures
        union_all(s).wf(),
        union_all(s).population() == total(sizes, s.len()),
    decreases s.len(),
{
    if s.len() == 0 {
        Board::lemma_zero_is_empty();
    } else {
        let front = union_all(s.drop_last());
        let last = s.last();
        let list = lists[s.len() - 1];
        lemma_cover_front(lists, s);
        lemma_cover_population(lists, sizes, s.drop_last());
        let i = choose|i: int| 0 <= i < list.len() && list[i] == last;
        assert(lists[s.len() - 1][i].wf());
        front.lemma_union_view(last);
        front.lemma_disjoint_view(last);
        front.lemma_view_in_grid();
        last.lemma_view_in_grid();
        vstd::set_lib::lemma_set_disjoint_lens(front@, last@);
    }
}

/// Two covers of one board lay the same number of pieces.
pub proof fn lemma_cover_length(
    lists: Seq<Seq<Board>>,
    sizes: Seq<nat>,
    s1: Seq<Board>,
    s2: Seq<Board>,
)
    requires
        uniform(lists, sizes),
        is_cover(lists, s1),
        is_cover(lists, s2),
        union_all(s1) == union_all(s2),
    ensures
        s1.len() == s2.len(),
{
    lemma_cover_population(lists, sizes, s1);
    lemma_cover_population(lists, sizes, s2);
    if s1.len() < s2.len() {
        lemma_total_grows(sizes, s1.len(), s2.len());
    }
    if s2.len() < s1.len() {
        lemma_total_grows(sizes, s2.len(), s1.len());
    }
}

/// A placement recorded for a board while the first `k` pieces were laid is
/// a placement of one of those pieces, and reaches the board from a board
/// covered by the pieces before it. Returns the number of that piece,
/// counted from one.
pub proof fn lemma_recorded_entry(lists: Seq<Seq<Board>>, k: nat, board: Board, entry: Board) -> (g:
    nat)
    requires
        k <= lists.len(),
        recorded(lists, k, board).contains(entry),
    ensures
        1 <= g <= k,
        lists[g - 1].contains(entry),
        extends(reachable(lists, (g - 1) as nat), entry, board),
    decreases k,
{
    let earlier = recorded(lists, (k - 1) as nat, board);
    let prev = reachable(lists, (k - 1) as nat);
    let step = step_entries(prev, lists[k - 1], board);
    let i = choose|i: int| 0 <= i < (earlier + step).len() && (earlier + step)[i] == entry;
    if i < earlier.len() {
        assert(earlier[i] == entry);
        lemma_recorded_entry(lists, (k - 1) as nat, board, entry)
    } else {
        let pred = |p: Board| extends(prev, p, board);
        assert(step[i - earlier.len()] == entry);
        lists[k - 1].lemma_filter_contains_rev(pred, entry);
        lists[k - 1].lemma_filter_pred(pred, i - earlier.len());
        k
    }
}

/// A placement of piece `g` that reaches a board from a board covered by
/// the pieces before it is recorded for that board.
pub proof fn lemma_entry_is_recorded(
    lists: Seq<Seq<Board>>,
    k: nat,
    g: nat,
    board: Board,
    entry: Board,
)
    requires
        1 <= g <= k <= lists.len(),
        lists[g - 1].contains(entry),
        extends(reachable(lists, (g - 1) as nat), entry, board),
    ensures
        recorded(lists, k, board).contains(entry),
    decreases k,
{
    let earlier = recorded(lists, (k - 1) as nat, board);
    let prev = reachable(lists, (k - 1) as nat);
    let step = step_entries(prev, lists[k - 1], board);
    if g == k {
        let list = lists[k - 1];
        let pred = |p: Board| extends(prev, p, board);
        let i = choose|i: int| 0 <= i < list.len() && list[i] == entry;
        list.lemma_filter_contains(pred, i);
        let j = choose|j: int| 0 <= j < step.len() && step[j] == entry;
        assert((earlier + step)[earlier.len() + j] == entry);
    } else {
        lemma_entry_is_recorded(lists, (k - 1) as nat, g, board, entry);
        let j = choose|j: int| 0 <= j < earlier.len() && earlier[j] == entry;
        assert((earlier + step)[j] == entry);
    }
}

/// Every cover is listed: a cover is a solution of its union.
pub proof fn lemma_cover_is_solution(lists: Seq<Seq<Board>>, sizes: Seq<nat>, s: Seq<Board>)
    requires
        uniform(lists, sizes),
        is_cover(lists, s),
    ensures
        solutions(union_all(s), provenance_of(lists, lists.len())).contains(s),
    decreases s.len(),
{
    let parent = provenance_of(lists, lists.len());
    let board = union_all(s);
    if s.len() == 0 {
        assert(s =~= Seq::<Board>::empty());
        assert(solutions(board, parent)[0] == s);
    } else {
        let front = s.drop_last();
        let last = s.last();
        let k = s.len();
        lemma_cover_front(lists, s);
        lemma_cover_is_solution(lists, sizes, front);
        lemma_cover_is_reachable(lists, front);
        lemma_lay(union_all(front), last, board);
        lemma_entry_is_recorded(lists, lists.len(), k, board, last);
        let list = lists[k - 1];
        let i = choose|i: int| 0 <= i < list.len() && list[i] == last;
        assert(lists[k - 1][i].population() == sizes[k - 1]);
        assert(sizes[k - 1] > 0);
        lemma_populated_is_nonzero(last);
        lemma_minus_shrinks(board, last);
        let entries = recorded(lists, lists.len(), board);
        let idx = choose|idx: int| 0 <= idx < entries.len() && entries[idx] == last;
        assert(parent.contains_key(board));
        assert(parent[board] == entries);
        lemma_branch_holds(board, parent, idx, front, entries.len());
        assert(s =~= front.push(last));
    }
}

/// Only covers are listed: a solution of a board is a cover, and its union
/// is the board.
pub proof fn lemma_solution_is_cover(
    lists: Seq<Seq<Board>>,
    sizes: Seq<nat>,
    target: Board,
    s: Seq<Board>,
)
    requires
        uniform(lists, sizes),
        solutions(target, provenance_of(lists, lists.len())).contains(s),
    ensures
        is_cover(lists, s),
        union_all(s) == target,
    decreases target.0,
{
    let parent = provenance_of(lists, lists.len());
    if target.0 == 0 {
        assert(s =~= Seq::<Board>::empty());
    } else {
        let idx = lemma_branch_member(target, parent, parent[target].len(), s);
        let placement = parent[target][idx];
        let rest = target.minus(placement);
        let tail = s.drop_last();
        lemma_solution_is_cover(lists, sizes, rest, tail);
        assert(recorded(lists, lists.len(), target).contains(placement));
        let g = lemma_recorded_entry(lists, lists.len(), target, placement);
        let other = lemma_reachable_has_cover(lists, (g - 1) as nat, rest);
        lemma_cover_length(lists, sizes, tail, other);
        let t: u64 = target.0;
        let p: u64 = placement.0;
        assert((t & !p) & p == 0) by (bit_vector);
        assert(((t & !p) | p) == t) by (bit_vector)
            requires
                p & t == p,
        ;
        lemma_cover_push(lists, tail, placement);
        assert(s =~= tail.push(placement));
    }
}

/// Keeping some items of a list without duplicates makes no duplicates.
pub proof fn lemma_filter_distinct(list: Seq<Board>, pred: spec_fn(Board) -> bool)
    requires
        list.no_duplicates(),
    ensures
        list.filter(pred).no_duplicates(),
    decreases list.len(),
{
    reveal(Seq::filter);
    if list.len() > 0 {
        let front = list.drop_last();
        lemma_filter_distinct(front, pred);
        if front.filter(pred).contains(list.last()) {
            front.lemma_filter_contains_rev(pred, list.last());
            let i = choose|i: int| 0 <= i < front.len() && front[i] == list.last();
            assert(list[i] == list[list.len() - 1]);
        }
    }
}

/// No placement is recorded twice for one board.
pub proof fn lemma_recorded_distinct(
    lists: Seq<Seq<Board>>,
    sizes: Seq<nat>,
    k: nat,
    board: Board,
)
    requires
        uniform(lists, sizes),
        forall|i: int| 0 <= i < lists.len() ==> (#[trigger] lists[i]).no_duplicates(),
        k <= lists.len(),
    ensures
        recorded(lists, k, board).no_duplicates(),
    decreases k,
{
    if k > 0 {
        let earlier = recorded(lists, (k - 1) as nat, board);
        let prev = reachable(lists, (k - 1) as nat);
        let step = step_entries(prev, lists[k - 1], board);
        lemma_recorded_distinct(lists, sizes, (k - 1) as nat, board);
        lemma_filter_distinct(lists[k - 1], |p: Board| extends(prev, p, board));
        assert forall|i: int, j: int| 0 <= i < earlier.len() && 0 <= j < step.len() implies earlier[i]
            != step[j] by {
            if earlier[i] == step[j] {
                let entry = earlier[i];
                assert(earlier.contains(entry));
                assert(step.contains(entry));
                let g = lemma_recorded_entry(lists, (k - 1) as nat, board, entry);
                lists[k - 1].lemma_filter_pred(|p: Board| extends(prev, p, board), j);
                let rest = board.minus(entry);
                let one = lemma_reachable_has_cover(lists, (g - 1) as nat, rest);
                let other = lemma_reachable_has_cover(lists, (k - 1) as nat, rest);
                lemma_cover_length(lists, sizes, one, other);
            }
        }
        vstd::seq_lib::lemma_no_dup_in_concat(earlier, step);
    }
}

/// No solution is listed twice.
pub proof fn lemma_solutions_distinct(lists: Seq<Seq<Board>>, sizes: Seq<nat>, target: Board)
    requires
        uniform(lists, sizes),
        forall|i: int| 0 <= i < lists.len() ==> (#[trigger] lists[i]).no_duplicates(),
    ensures
        solutions(target, provenance_of(lists, lists.len())).no_duplicates(),
    decreases target.0, 1nat, 0nat,
{
    let parent = provenance_of(lists, lists.len());
    if target.0 != 0 && parent.contains_key(target) {
        lemma_branch_distinct(lists, sizes, target, parent[target].len());
    }
}

/// No solution is listed twice among the first `n` branches of a board.
pub proof fn lemma_branch_distinct(
    lists: Seq<Seq<Board>>,
    sizes: Seq<nat>,
    target: Board,
    n: nat,
)
    requires
        uniform(lists, sizes),
        forall|i: int| 0 <= i < lists.len() ==> (#[trigger] lists[i]).no_duplicates(),
    ensures
        branch_solutions(target, provenance_of(lists, lists.len()), n).no_duplicates(),
    decreases target.0, 0nat, n,
{
    let parent = provenance_of(lists, lists.len());
    if n == 0 || !parent.contains_key(target) || n > parent[target].len() {
    } else {
        let placement = parent[target][n - 1];
        let rest = target.minus(placement);
        let earlier = branch_solutions(target, parent, (n - 1) as nat);
        lemma_branch_distinct(lists, sizes, target, (n - 1) as nat);
        if rest.0 < target.0 {
            lemma_solutions_distinct(lists, sizes, rest);
            let tails = solutions(rest, parent);
            let extended = extend_each(tails, placement);
            assert forall|i: int, j: int|
                0 <= i < extended.len() && 0 <= j < extended.len() && i != j implies extended[i]
                != extended[j] by {
                if extended[i] == extended[j] {
                    assert(tails[i].push(placement).drop_last() =~= tails[i]);
                    assert(tails[j].push(placement).drop_last() =~= tails[j]);
                }
            }
            lemma_recorded_distinct(lists, sizes, lists.len(), target);
            assert forall|i: int, j: int|
                0 <= i < earlier.len() && 0 <= j < extended.len() implies earlier[i]
                != extended[j] by {
                if earlier[i] == extended[j] {
                    assert(earlier.contains(earlier[i]));
                    let idx = lemma_branch_member(target, parent, (n - 1) as nat, earlier[i]);
                    assert(extended[j].last() == placement);
                    assert(parent[target][idx] == parent[target][n - 1]);
                }
            }
            vstd::seq_lib::lemma_no_dup_in_concat(earlier, extended);
        }
    }
}

/// What the solutions of a board are: exactly the covers whose union is the
/// board, each listed once.
pub proof fn lemma_solutions_are_covers(lists: Seq<Seq<Board>>, sizes: Seq<nat>, target: Board)
    requires
        uniform(lists, sizes),
        forall|i: int| 0 <= i < lists.len() ==> (#[trigger] lists[i]).no_duplicates(),
    ensures
        solutions(target, provenance_of(lists, lists.len())).no_duplicates(),
        forall|s: Seq<Board>| #[trigger]
            solutions(target, provenance_of(lists, lists.len())).contains(s) <==> is_cover(
                lists,
                s,
            ) && union_all(s) == target,
{
    lemma_solutions_distinct(lists, sizes, target);
    assert forall|s: Seq<Board>| #[trigger]
        solutions(target, provenance_of(lists, lists.len())).contains(s) <==> is_cover(lists, s)
            && union_all(s) == target by {
        if solutions(target, provenance_of(lists, lists.len())).contains(s) {
            lemma_solution_is_cover(lists, sizes, target, s);
        }
        if is_cover(lists, s) && union_all(s) == target {
            lemma_cover_is_solution(lists, sizes, s);
        }
    }
}

/// What the search reaches: a board is reached after `k` pieces exactly
/// when it is the union of a cover that lays `k` pieces. The set of boards
/// reached after all pieces is not empty exactly when such a cover of all
/// pieces exists.
pub proof fn lemma_reachable_are_covers(lists: Seq<Seq<Board>>, k: nat, board: Board)
    requires
        k <= lists.len(),
    ensures
        reachable(lists, k).contains(board) <==> exists|s: Seq<Board>|
            s.len() == k && #[trigger] is_cover(lists, s) && union_all(s) == board,
{
    if reachable(lists, k).contains(board) {
        let s = lemma_reachable_has_cover(lists, k, board);
        assert(s.len() == k && is_cover(lists, s) && union_all(s) == board);
    }
    if exists|s: Seq<Board>| s.len() == k && #[trigger] is_cover(lists, s) && union_all(s) == board {
        let s = choose|s: Seq<Board>|
            s.len() == k && #[trigger] is_cover(lists, s) && union_all(s) == board;
        lemma_cover_is_reachable(lists, s);
    }
}

} // verus!
