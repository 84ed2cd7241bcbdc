//! A set of boards that remembers the order in which they came.
use crate::board::Board;
use std::collections::HashSet;
use vstd::prelude::*;

verus! {

broadcast use vstd::std_specs::hash::group_hash_axioms;

/// Distinct boards, in the order of their first insertion.
///
/// The view is the sequence of the boards held. A hash set of their values
/// answers whether a board is already there.
pub struct BoardSet {
    seen: HashSet<u64>,
    items: Vec<Board>,
}

impl View for BoardSet {
    type V = Seq<Board>;

    closed spec fn view(&self) -> Seq<Board> {
        self.items@
    }
}

impl BoardSet {
    /// No board is held twice, and the hash set knows exactly the boards held.
    pub closed spec fn wf(&self) -> bool {
        &&& self.items@.no_duplicates()
        &&& forall|bits: u64| self.seen@.contains(bits) <==> self.items@.contains(Board(bits))
    }

    /// A well-formed set lists no board twice.
    pub proof fn lemma_distinct(&self)
        requires
            self.wf(),
        ensures
            self@.no_duplicates(),
    {
    }

    /// The set that holds no board.
    pub fn new() -> (set: BoardSet)
        ensures
            set.wf(),
            set@ == Seq::<Board>::empty(),
    {
        BoardSet { seen: HashSet::new(), items: Vec::new() }
    }

    /// Adds `board` at the end unless it is already held. Says whether it was added.
    pub fn insert(&mut self, board: Board) -> (added: bool)
        requires
            old(self).wf(),
        ensures
            final(self).wf(),
            added == !old(self)@.contains(board),
            final(self)@ == if added {
                old(self)@.push(board)
            } else {
                old(self)@
            },
            forall|b: Board|
                #[trigger] final(self)@.contains(b) <==> old(self)@.contains(b) || b == board,
    {
        let ghost before = self.items@;
        let added = self.seen.insert(board.0);
        if added {
            self.items.push(board);
            proof {
                assert forall|b: Board| #[trigger]
                    self.items@.contains(b) <==> before.contains(b) || b == board by {
                    if before.contains(b) {
                        let i = choose|i: int| 0 <= i < before.len() && before[i] == b;
                        assert(self.items@[i] == b);
                    }
                    assert(self.items@[before.len() as int] == board);
                }
                assert forall|bits: u64|
                    self.seen@.contains(bits) <==> self.items@.contains(Board(bits)) by {
                    if before.contains(Board(bits)) {
                        let i = choose|i: int| 0 <= i < before.len() && before[i] == Board(bits);
                        assert(self.items@[i] == Board(bits));
                    }
                    if bits == board.0 {
                        assert(self.items@[before.len() as int] == board);
                    }
                }
            }
        }
        added
    }

    /// The number of boards held.
    pub fn len(&self) -> (n: usize)
        ensures
            n == self@.len(),
    {
        self.items.len()
    }

    /// The board that came `i`-th.
    pub fn get(&self, i: usize) -> (board: Board)
        requires
            i < self@.len(),
        ensures
            board == self@[i as int],
    {
        self.items[i]
    }

    /// The boards held, in the order in which they came.
    pub fn into_vec(self) -> (boards: Vec<Board>)
        ensures
            boards@ == self@,
    {
        self.items
    }
}

} // verus!
