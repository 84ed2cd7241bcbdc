//! The fold over the pieces: which boards can be covered by the pieces laid
//! so far, and by which placement each was reached.
use crate::board::Board;
use crate::board_set::BoardSet;
use crate::placement::PieceBoards;
use crate::provenance::{entries_of, Provenance};
use vstd::prelude::*;

verus! {

/// Laying `placement` on a board of `prev`, clear of it, gives `board`.
pub open spec fn extends(prev: Set<Board>, placement: Board, board: Board) -> bool {
    placement.subset_of(board) && prev.contains(board.minus(placement))
}

/// The boards made by laying one placement of `list` on a board of `prev`
/// that it does not overlap.
pub open spec fn step_set(prev: Set<Board>, list: Seq<Board>) -> Set<Board> {
    Set::new(
        |b: Board| exists|i: int| 0 <= i < list.len() && extends(prev, #[trigger] list[i], b),
    )
}

/// The placements of `list`, in order, that reach `board` from a board of `prev`.
pub open spec fn step_entries(prev: Set<Board>, list: Seq<Board>, board: Board) -> Seq<Board> {
    list.filter(|p: Board| extends(prev, p, board))
}

/// The boards covered by the first `k` pieces: one placement from each of
/// the first `k` lists, none overlapping another. With no piece laid, only
/// the empty board.
pub open spec fn reachable(lists: Seq<Seq<Board>>, k: nat) -> Set<Board>
    decreases k,
{
    if k == 0 {
        set![Board(0)]
    } else {
        step_set(reachable(lists, (k - 1) as nat), lists[k - 1])
    }
}

/// The placements recorded for `board` while the first `k` pieces are laid:
/// for each piece in turn, its placements that reach `board` from a board
/// covered by the pieces before it.
pub open spec fn recorded(lists: Seq<Seq<Board>>, k: nat, board: Board) -> Seq<Board>
    decreases k,
{
    if k == 0 {
        Seq::empty()
    } else {
        recorded(lists, (k - 1) as nat, board) + step_entries(
            reachable(lists, (k - 1) as nat),
            lists[k - 1],
            board,
        )
    }
}

/// The provenance after the first `k` pieces are laid.
pub open spec fn provenance_of(lists: Seq<Seq<Board>>, k: nat) -> Map<Board, Seq<Board>> {
    Map::new(|b: Board| recorded(lists, k, b).len() > 0, |b: Board| recorded(lists, k, b))
}

/// The placement lists of the pieces.
pub open spec fn placement_lists(all: Seq<PieceBoards>) -> Seq<Seq<Board>> {
    all.map_values(|pb: PieceBoards| pb.boards@)
}

/// `placement` lies in `board`, and one of the first `j` boards of `options`
/// is `board` without it.
spec fn hit_so_far(options: Seq<Board>, j: int, placement: Board, board: Board) -> bool {
    placement.subset_of(board) && options.take(j).contains(board.minus(placement))
}

/// The entry that `placement` has added for `board` so far.
spec fn hit_entry(options: Seq<Board>, j: int, placement: Board, board: Board) -> Seq<
    Board,
> {
    if hit_so_far(options, j, placement, board) {
        seq![placement]
    } else {
        Seq::empty()
    }
}

/// Laying `placement` on `option` gives their union when they share no bit,
/// and nothing when they do.
pub proof fn lemma_lay(option: Board, placement: Board, board: Board)
    ensures
        option.disjoint(placement) ==> ((placement.subset_of(board) && board.minus(placement)
            == option) <==> board == option.union(placement)),
        !option.disjoint(placement) ==> !(placement.subset_of(board) && board.minus(placement)
            == option),
{
    let o: u64 = option.0;
    let p: u64 = placement.0;
    let b: u64 = board.0;
    assert(o & p == 0 ==> ((p & b == p && (b & !p) == o) <==> b == (o | p))) by (bit_vector);
    assert(o & p != 0 ==> !(p & b == p && (b & !p) == o)) by (bit_vector);
}

/// Looking at one more option adds the boards that it reaches.
proof fn lemma_hit_next(options: Seq<Board>, j: int, placement: Board, board: Board)
    requires
        0 <= j < options.len(),
    ensures
        hit_so_far(options, j + 1, placement, board) <==> hit_so_far(options, j, placement, board)
            || (placement.subset_of(board) && board.minus(placement) == options[j]),
{
    let rest = board.minus(placement);
    let shorter = options.take(j);
    let longer = options.take(j + 1);
    assert(longer =~= shorter.push(options[j]));
    if shorter.contains(rest) {
        let i = choose|i: int| 0 <= i < shorter.len() && shorter[i] == rest;
        assert(longer[i] == rest);
    }
    if options[j] == rest {
        assert(longer[j] == rest);
    }
}

/// Before any option is looked at nothing is hit; after all of them, every
/// board that the placement reaches.
proof fn lemma_hit_ends(options: Seq<Board>, placement: Board, board: Board)
    ensures
        !hit_so_far(options, 0, placement, board),
        hit_so_far(options, options.len() as int, placement, board) <==> extends(
            options.to_set(),
            placement,
            board,
        ),
{
    assert(options.take(options.len() as int) =~= options);
}

/// One more placement adds the boards that it reaches, and an entry for each.
proof fn lemma_step_next(prev: Set<Board>, list: Seq<Board>, i: int, board: Board)
    requires
        0 <= i < list.len(),
    ensures
        step_set(prev, list.take(i + 1)).contains(board) <==> step_set(prev, list.take(i)).contains(
            board,
        ) || extends(prev, list[i], board),
        step_entries(prev, list.take(i + 1), board) == if extends(prev, list[i], board) {
            step_entries(prev, list.take(i), board).push(list[i])
        } else {
            step_entries(prev, list.take(i), board)
        },
{
    let shorter = list.take(i);
    let longer = list.take(i + 1);
    assert(longer =~= shorter.push(list[i]));
    shorter.lemma_filter_push(list[i], |p: Board| extends(prev, p, board));
    if step_set(prev, longer).contains(board) {
        let k = choose|k: int| 0 <= k < longer.len() && extends(prev, #[trigger] longer[k], board);
        if k < i {
            assert(extends(prev, shorter[k], board));
        }
    }
    if step_set(prev, shorter).contains(board) {
        let k = choose|k: int|
            0 <= k < shorter.len() && extends(prev, #[trigger] shorter[k], board);
        assert(extends(prev, longer[k], board));
    }
    if extends(prev, list[i], board) {
        assert(extends(prev, longer[i], board));
    }
}

/// With no placement tried, no board is reached and no entry made; with all
/// of them tried, the whole step is done.
proof fn lemma_step_ends(prev: Set<Board>, list: Seq<Board>, board: Board)
    ensures
        !step_set(prev, list.take(0)).contains(board),
        step_entries(prev, list.take(0), board) == Seq::<Board>::empty(),
        list.take(list.len() as int) == list,
{
    reveal(Seq::filter);
    assert(list.take(0) =~= Seq::<Board>::empty());
    assert(list.take(list.len() as int) =~= list);
}

/// Lays every placement of one piece on every board reached so far that it
/// does not overlap. Returns the boards reached that way, each once, and
/// records for each of them every placement that reached it.
pub fn place_piece(options: &BoardSet, placements: &Vec<Board>, parent: &mut Provenance) -> (next:
    BoardSet)
    requires
        options.wf(),
        old(parent).wf(),
        forall|i: int| 0 <= i < placements@.len() ==> (#[trigger] placements@[i]).0 != 0,
    ensures
        next.wf(),
        next@.to_set() == step_set(options@.to_set(), placements@),
        final(parent).wf(),
        forall|b: Board| #[trigger]
            entries_of(final(parent)@, b) == entries_of(old(parent)@, b) + step_entries(
                options@.to_set(),
                placements@,
                b,
            ),
{
    let ghost start = parent@;
    let ghost prev = options@.to_set();
    let mut next = BoardSet::new();
    let n: usize = placements.len();
    let m: usize = options.len();
    let mut i: usize = 0;
    proof {
        options.lemma_distinct();
        assert forall|b: Board| #[trigger]
            next@.contains(b) <==> step_set(prev, placements@.take(0)).contains(b) by {
            lemma_step_ends(prev, placements@, b);
        }
        assert forall|b: Board| #[trigger]
            entries_of(parent@, b) == entries_of(start, b) + step_entries(
                prev,
                placements@.take(0),
                b,
            ) by {
            lemma_step_ends(prev, placements@, b);
            assert(entries_of(start, b) + Seq::<Board>::empty() =~= entries_of(start, b));
        }
    }
    while i < n
        invariant
            i <= n,
            n == placements@.len(),
            m == options@.len(),
            options.wf(),
            options@.no_duplicates(),
            prev == options@.to_set(),
            forall|k: int| 0 <= k < placements@.len() ==> (#[trigger] placements@[k]).0 != 0,
            next.wf(),
            parent.wf(),
            forall|b: Board| #[trigger]
                next@.contains(b) <==> step_set(prev, placements@.take(i as int)).contains(b),
            forall|b: Board| #[trigger]
                entries_of(parent@, b) == entries_of(start, b) + step_entries(
                    prev,
                    placements@.take(i as int),
                    b,
                ),
        decreases n - i,
    {
        let board = placements[i];
        let ghost done = placements@.take(i as int);
        let mut j: usize = 0;
        proof {
            assert forall|b: Board| #[trigger]
                next@.contains(b) <==> step_set(prev, done).contains(b) || hit_so_far(
                    options@,
                    0,
                    board,
                    b,
                ) by {
                lemma_hit_ends(options@, board, b);
            }
            assert forall|b: Board| #[trigger]
                entries_of(parent@, b) == entries_of(start, b) + step_entries(prev, done, b)
                    + hit_entry(options@, 0, board, b) by {
                lemma_hit_ends(options@, board, b);
                assert(entries_of(start, b) + step_entries(prev, done, b) + Seq::<Board>::empty()
                    =~= entries_of(start, b) + step_entries(prev, done, b));
            }
        }
        while j < m
            invariant
                j <= m,
                i < n,
                n == placements@.len(),
                m == options@.len(),
                options.wf(),
                options@.no_duplicates(),
                prev == options@.to_set(),
                board == placements@[i as int],
                board.0 != 0,
                done == placements@.take(i as int),
                next.wf(),
                parent.wf(),
                forall|b: Board| #[trigger]
                    next@.contains(b) <==> step_set(prev, done).contains(b) || hit_so_far(
                        options@,
                        j as int,
                        board,
                        b,
                    ),
                forall|b: Board| #[trigger]
                    entries_of(parent@, b) == entries_of(start, b) + step_entries(prev, done, b)
                        + hit_entry(options@, j as int, board, b),
            decreases m - j,
        {
            let option = options.get(j);
            let ghost next_before = next@;
            let ghost parent_before = parent@;
            if option.can_add(&board) {
                let combined = option.add(&board);
                next.insert(combined);
                parent.record(combined, board);
                proof {
                    lemma_lay(option, board, combined);
                    assert(!hit_so_far(options@, j as int, board, combined)) by {
                        if options@.take(j as int).contains(option) {
                            let k = choose|k: int|
                                0 <= k < j && options@.take(j as int)[k] == option;
                            assert(options@[k] == options@[j as int]);
                        }
                    }
                    assert forall|b: Board| #[trigger]
                        next@.contains(b) <==> step_set(prev, done).contains(b) || hit_so_far(
                            options@,
                            j + 1,
                            board,
                            b,
                        ) by {
                        lemma_hit_next(options@, j as int, board, b);
                        lemma_lay(option, board, b);
                        assert(next_before.contains(b) <==> step_set(prev, done).contains(b)
                            || hit_so_far(options@, j as int, board, b));
                    }
                    assert forall|b: Board| #[trigger]
                        entries_of(parent@, b) == entries_of(start, b) + step_entries(
                            prev,
                            done,
                            b,
                        ) + hit_entry(options@, j + 1, board, b) by {
                        lemma_hit_next(options@, j as int, board, b);
                        lemma_lay(option, board, b);
                        let base = entries_of(start, b) + step_entries(prev, done, b);
                        assert(entries_of(parent_before, b) == base + hit_entry(
                            options@,
                            j as int,
                            board,
                            b,
                        ));
                        if b == combined {
                            assert((base + Seq::<Board>::empty()).push(board) =~= base
                                + seq![board]);
                        }
                    }
                }
            } else {
                proof {
                    assert forall|b: Board| #[trigger]
                        next@.contains(b) <==> step_set(prev, done).contains(b) || hit_so_far(
                            options@,
                            j + 1,
                            board,
                            b,
                        ) by {
                        lemma_hit_next(options@, j as int, board, b);
                        lemma_lay(option, board, b);
                    }
                    assert forall|b: Board| #[trigger]
                        entries_of(parent@, b) == entries_of(start, b) + step_entries(
                            prev,
                            done,
                            b,
                        ) + hit_entry(options@, j + 1, board, b) by {
                        lemma_hit_next(options@, j as int, board, b);
                        lemma_lay(option, board, b);
                    }
                }
            }
            j += 1;
        }
        proof {
            assert forall|b: Board| #[trigger]
                next@.contains(b) <==> step_set(prev, placements@.take(i + 1)).contains(b) by {
                lemma_hit_ends(options@, board, b);
                lemma_step_next(prev, placements@, i as int, b);
            }
            assert forall|b: Board| #[trigger]
                entries_of(parent@, b) == entries_of(start, b) + step_entries(
                    prev,
                    placements@.take(i + 1),
                    b,
                ) by {
                lemma_hit_ends(options@, board, b);
                lemma_step_next(prev, placements@, i as int, b);
                let base = entries_of(start, b);
                let old_step = step_entries(prev, done, b);
                assert(base + old_step + seq![board] =~= base + old_step.push(board));
                assert(base + old_step + Seq::<Board>::empty() =~= base + old_step);
            }
        }
        i += 1;
    }
    proof {
        assert(placements@.take(n as int) =~= placements@);
        assert(next@.to_set() =~= step_set(prev, placements@));
    }
    next
}

/// What the fold over the pieces leaves behind.
pub struct ReachableState {
    /// The boards covered by all the pieces, each once.
    pub reachable: Vec<Board>,
    /// For each board reached on the way, the placements laid last to reach it.
    pub parent: Provenance,
}

/// Lays the pieces one after another, starting from the empty board: after
/// each piece, the boards reached are those made by laying one of its
/// placements on a board reached before, clear of it. Boards that hold fewer
/// pieces are not carried on. A piece without placements leaves no board.
/// Every placement must hold a cell.
pub fn combine(all_piece_boards: &Vec<PieceBoards>) -> (state: ReachableState)
    requires
        forall|k: int, i: int|
            0 <= k < all_piece_boards@.len() && 0 <= i < all_piece_boards@[k].boards@.len() ==> (
            #[trigger] all_piece_boards@[k].boards@[i]).0 != 0,
    ensures
        state.reachable@.no_duplicates(),
        state.reachable@.to_set() == reachable(
            placement_lists(all_piece_boards@),
            all_piece_boards@.len(),
        ),
        state.parent@ == provenance_of(placement_lists(all_piece_boards@), all_piece_boards@.len()),
        state.parent.wf(),
{
    let ghost lists = placement_lists(all_piece_boards@);
    let mut options = BoardSet::new();
    options.insert(Board(0));
    let mut parent = Provenance::new();
    let n: usize = all_piece_boards.len();
    let mut k: usize = 0;
    proof {
        assert(options@ =~= seq![Board(0)]);
        assert(options@.to_set() =~= set![Board(0)]) by {
            assert(options@[0] == Board(0));
        }
        assert forall|b: Board| #[trigger] entries_of(parent@, b) == recorded(lists, 0, b) by {}
    }
    while k < n
        invariant
            k <= n,
            n == all_piece_boards@.len(),
            lists == placement_lists(all_piece_boards@),
            forall|j: int, i: int|
                0 <= j < all_piece_boards@.len() && 0 <= i < all_piece_boards@[j].boards@.len()
                    ==> (#[trigger] all_piece_boards@[j].boards@[i]).0 != 0,
            options.wf(),
            options@.to_set() == reachable(lists, k as nat),
            parent.wf(),
            forall|b: Board| #[trigger] entries_of(parent@, b) == recorded(lists, k as nat, b),
        decreases n - k,
    {
        let ghost before = parent@;
        assert(lists[k as int] == all_piece_boards@[k as int].boards@);
        assert forall|i: int| 0 <= i < all_piece_boards@[k as int].boards@.len() implies (
        #[trigger] all_piece_boards@[k as int].boards@[i]).0 != 0 by {}
        let next = place_piece(&options, &all_piece_boards[k].boards, &mut parent);
        proof {
            assert forall|b: Board| #[trigger]
                entries_of(parent@, b) == recorded(lists, (k + 1) as nat, b) by {
                assert(entries_of(before, b) == recorded(lists, k as nat, b));
            }
        }
        options = next;
        k += 1;
    }
    proof {
        options.lemma_distinct();
        assert(parent@ =~= provenance_of(lists, n as nat)) by {
            assert forall|b: Board| parent@.contains_key(b) <==> provenance_of(
                lists,
                n as nat,
            ).contains_key(b) by {
                assert(entries_of(parent@, b) == recorded(lists, n as nat, b));
            }
            assert forall|b: Board| parent@.contains_key(b) implies parent@[b] == provenance_of(
                lists,
                n as nat,
            )[b] by {
                assert(entries_of(parent@, b) == recorded(lists, n as nat, b));
            }
        }
    }
    ReachableState { reachable: options.into_vec(), parent }
}

} // verus!
