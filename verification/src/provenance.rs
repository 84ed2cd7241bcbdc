//! How each reachable board was made, and the solutions that this records.
//!
//! A [`Provenance`] maps a board to the placements that were laid last to
//! reach it. Walking it backward from a board, one placement at a time, gives
//! every list of placements that builds the board.
use crate::board::Board;
use std::collections::HashMap;
use vstd::prelude::*;

verus! {

broadcast use vstd::std_specs::hash::group_hash_axioms;

/// For each board reached, the placements laid last to reach it.
///
/// The view maps a board to its placements in the order in which they were
/// recorded. A board that was never reached is no key of it.
pub struct Provenance {
    map: HashMap<u64, Vec<Board>>,
}

impl View for Provenance {
    type V = Map<Board, Seq<Board>>;

    closed spec fn view(&self) -> Map<Board, Seq<Board>> {
        Map::new(|b: Board| self.map@.contains_key(b.0), |b: Board| self.map@[b.0]@)
    }
}

/// The placements recorded for `board`; none where it is no key.
pub open spec fn entries_of(parent: Map<Board, Seq<Board>>, board: Board) -> Seq<Board> {
    if parent.contains_key(board) {
        parent[board]
    } else {
        Seq::empty()
    }
}

/// Every placement recorded for a board holds a cell and lies within that
/// board, and every key has a placement.
pub open spec fn well_formed(parent: Map<Board, Seq<Board>>) -> bool {
    &&& forall|b: Board| #[trigger] parent.contains_key(b) ==> parent[b].len() > 0
    &&& forall|b: Board, i: int|
        parent.contains_key(b) && 0 <= i < parent[b].len() ==> (#[trigger] parent[b][i]).0 != 0
            && parent[b][i].subset_of(b)
}

impl Provenance {
    /// The invariant of the type: see [`well_formed`].
    pub open spec fn wf(&self) -> bool {
        well_formed(self@)
    }

    /// The provenance of a search that has reached nothing yet.
    pub fn new() -> (parent: Provenance)
        ensures
            parent@ == Map::<Board, Seq<Board>>::empty(),
            parent.wf(),
    {
        let parent = Provenance { map: HashMap::new() };
        assert(parent@ =~= Map::<Board, Seq<Board>>::empty());
        parent
    }

    /// Records that `combined` was reached by laying `placement` last.
    pub fn record(&mut self, combined: Board, placement: Board)
        ensures
            final(self)@ == old(self)@.insert(
                combined,
                entries_of(old(self)@, combined).push(placement),
            ),
            old(self).wf() && placement.0 != 0 && placement.subset_of(combined) ==> final(self).wf(),
    {
        let ghost before = self.map@;
        let entry = self.map.entry(combined.0).or_insert(Vec::new());
        entry.push(placement);
        proof {
            assert(self@ =~= old(self)@.insert(
                combined,
                entries_of(old(self)@, combined).push(placement),
            ));
        }
    }

    /// The placements recorded for `board`, if it was reached.
    pub fn get(&self, board: &Board) -> (found: Option<&Vec<Board>>)
        ensures
            found is Some <==> self@.contains_key(*board),
            found matches Some(placements) ==> placements@ == self@[*board],
    {
        self.map.get(&board.0)
    }
}

} // verus!
