//! Shapes: lists of `(row, col)` offsets over the integers, and what turning,
//! reflecting and moving does to them.
use vstd::prelude::*;

verus! {

/// `m` is the least row of the shape.
pub open spec fn is_min_row(s: Seq<(int, int)>, m: int) -> bool {
    &&& forall|i: int| 0 <= i < s.len() ==> m <= (#[trigger] s[i]).0
    &&& exists|i: int| 0 <= i < s.len() && (#[trigger] s[i]).0 == m
}

/// `m` is the least column of the shape.
pub open spec fn is_min_col(s: Seq<(int, int)>, m: int) -> bool {
    &&& forall|i: int| 0 <= i < s.len() ==> m <= (#[trigger] s[i]).1
    &&& exists|i: int| 0 <= i < s.len() && (#[trigger] s[i]).1 == m
}

/// `m` is the greatest row of the shape.
pub open spec fn is_max_row(s: Seq<(int, int)>, m: int) -> bool {
    &&& forall|i: int| 0 <= i < s.len() ==> (#[trigger] s[i]).0 <= m
    &&& exists|i: int| 0 <= i < s.len() && (#[trigger] s[i]).0 == m
}

/// `m` is the greatest column of the shape.
pub open spec fn is_max_col(s: Seq<(int, int)>, m: int) -> bool {
    &&& forall|i: int| 0 <= i < s.len() ==> (#[trigger] s[i]).1 <= m
    &&& exists|i: int| 0 <= i < s.len() && (#[trigger] s[i]).1 == m
}

/// The least row of a shape that has a cell.
pub open spec fn min_row(s: Seq<(int, int)>) -> int {
    s.map_values(|p: (int, int)| p.0).min()
}

/// The least column of a shape that has a cell.
pub open spec fn min_col(s: Seq<(int, int)>) -> int {
    s.map_values(|p: (int, int)| p.1).min()
}

/// The greatest row of a shape that has a cell.
pub open spec fn max_row(s: Seq<(int, int)>) -> int {
    s.map_values(|p: (int, int)| p.0).max()
}

/// The greatest column of a shape that has a cell.
pub open spec fn max_col(s: Seq<(int, int)>) -> int {
    s.map_values(|p: (int, int)| p.1).max()
}

/// The shape moved by `(dr, dc)`.
pub open spec fn translate(s: Seq<(int, int)>, dr: int, dc: int) -> Seq<(int, int)> {
    s.map_values(|p: (int, int)| (p.0 + dr, p.1 + dc))
}

/// The shape moved so that its least row and least column are zero.
pub open spec fn normalize(s: Seq<(int, int)>) -> Seq<(int, int)> {
    translate(s, -min_row(s), -min_col(s))
}

/// Each offset `(r, c)` taken to `(c, -r)`: a quarter turn about the origin.
pub open spec fn turn(s: Seq<(int, int)>) -> Seq<(int, int)> {
    s.map_values(|p: (int, int)| (p.1, -p.0))
}

/// Each offset `(r, c)` taken to `(r, -c)`: a reflection in the column axis.
pub open spec fn mirror(s: Seq<(int, int)>) -> Seq<(int, int)> {
    s.map_values(|p: (int, int)| (p.0, -p.1))
}

/// A quarter turn, moved back against the origin.
pub open spec fn rotated(s: Seq<(int, int)>) -> Seq<(int, int)> {
    normalize(turn(s))
}

/// A reflection, moved back against the origin.
pub open spec fn flipped(s: Seq<(int, int)>) -> Seq<(int, int)> {
    normalize(mirror(s))
}

/// The eight symmetry variants of a shape, numbered from zero: the shape
/// itself and its three successive quarter turns, then its reflection and the
/// three successive quarter turns of that.
pub open spec fn variant(s: Seq<(int, int)>, k: int) -> Seq<(int, int)> {
    if k == 0 {
        s
    } else if k == 1 {
        rotated(s)
    } else if k == 2 {
        rotated(rotated(s))
    } else if k == 3 {
        rotated(rotated(rotated(s)))
    } else if k == 4 {
        flipped(s)
    } else if k == 5 {
        rotated(flipped(s))
    } else if k == 6 {
        rotated(rotated(flipped(s)))
    } else {
        rotated(rotated(rotated(flipped(s))))
    }
}

/// Every offset names a cell of the grid.
pub open spec fn on_grid(s: Seq<(int, int)>) -> bool {
    forall|i: int| 0 <= i < s.len() ==> 0 <= (#[trigger] s[i]).0 < 7 && 0 <= s[i].1 < 7
}

/// The least row and the least column are both zero.
pub open spec fn is_normalized(s: Seq<(int, int)>) -> bool {
    is_min_row(s, 0) && is_min_col(s, 0)
}

/// The height and the width of the shape both fit in an `i64`.
pub open spec fn spans_fit(s: Seq<(int, int)>) -> bool {
    forall|i: int, j: int|
        0 <= i < s.len() && 0 <= j < s.len() ==> (#[trigger] s[i]).0 - (#[trigger] s[j]).0
            <= i64::MAX && s[i].1 - s[j].1 <= i64::MAX
}

/// The shape has a cell, and each of its turns and reflections can be
/// computed in `i64`: no offset is `i64::MIN`, and the spans fit.
pub open spec fn transformable(s: Seq<(int, int)>) -> bool {
    &&& s.len() > 0
    &&& spans_fit(s)
    &&& forall|i: int| 0 <= i < s.len() ==> (#[trigger] s[i]).0 > i64::MIN && s[i].1 > i64::MIN
}

/// The least row of a shape with a cell is its least row.
pub proof fn lemma_min_row(s: Seq<(int, int)>)
    requires
        s.len() > 0,
    ensures
        is_min_row(s, min_row(s)),
{
    let rows = s.map_values(|p: (int, int)| p.0);
    rows.min_ensures();
    let i = choose|i: int| 0 <= i < rows.len() && rows[i] == rows.min();
    assert(s[i].0 == min_row(s));
    assert forall|j: int| 0 <= j < s.len() implies min_row(s) <= (#[trigger] s[j]).0 by {
        assert(rows[j] == s[j].0);
    }
}

/// The least column of a shape with a cell is its least column.
pub proof fn lemma_min_col(s: Seq<(int, int)>)
    requires
        s.len() > 0,
    ensures
        is_min_col(s, min_col(s)),
{
    let cols = s.map_values(|p: (int, int)| p.1);
    cols.min_ensures();
    let i = choose|i: int| 0 <= i < cols.len() && cols[i] == cols.min();
    assert(s[i].1 == min_col(s));
    assert forall|j: int| 0 <= j < s.len() implies min_col(s) <= (#[trigger] s[j]).1 by {
        assert(cols[j] == s[j].1);
    }
}

/// A shape has one least row and one least column.
pub proof fn lemma_min_unique(s: Seq<(int, int)>, row: int, col: int)
    requires
        is_min_row(s, row),
        is_min_col(s, col),
    ensures
        row == min_row(s),
        col == min_col(s),
{
    lemma_min_row(s);
    lemma_min_col(s);
}

/// A shape whose spans fit, once normalized, lies between zero and its
/// spans, so all of its turns and reflections can be computed.
pub proof fn lemma_normalize_transformable(s: Seq<(int, int)>)
    requires
        s.len() > 0,
        spans_fit(s),
    ensures
        transformable(normalize(s)),
        is_normalized(normalize(s)),
{
    let t = normalize(s);
    lemma_min_row(s);
    lemma_min_col(s);
    let wr = choose|i: int| 0 <= i < s.len() && (#[trigger] s[i]).0 == min_row(s);
    let wc = choose|i: int| 0 <= i < s.len() && (#[trigger] s[i]).1 == min_col(s);
    assert forall|i: int| 0 <= i < t.len() implies 0 <= (#[trigger] t[i]).0 <= i64::MAX && 0
        <= t[i].1 <= i64::MAX by {
        assert(s[i].0 - s[wr].0 <= i64::MAX);
        assert(s[i].1 - s[wc].1 <= i64::MAX);
    }
    assert(t[wr].0 == 0);
    assert(t[wc].1 == 0);
    assert forall|i: int, j: int| 0 <= i < t.len() && 0 <= j < t.len() implies (#[trigger] t[i]).0
        - (#[trigger] t[j]).0 <= i64::MAX && t[i].1 - t[j].1 <= i64::MAX by {
        assert(0 <= t[i].0 <= i64::MAX && 0 <= t[j].0);
        assert(0 <= t[i].1 <= i64::MAX && 0 <= t[j].1);
    }
}

/// Turning a shape swaps its spans, so they still fit.
pub proof fn lemma_turn_spans(s: Seq<(int, int)>)
    requires
        spans_fit(s),
    ensures
        spans_fit(turn(s)),
{
    let t = turn(s);
    assert forall|i: int, j: int| 0 <= i < t.len() && 0 <= j < t.len() implies (#[trigger] t[i]).0
        - (#[trigger] t[j]).0 <= i64::MAX && t[i].1 - t[j].1 <= i64::MAX by {
        assert(s[i].1 - s[j].1 <= i64::MAX);
        assert(s[j].0 - s[i].0 <= i64::MAX);
    }
}

/// Reflecting a shape keeps its spans.
pub proof fn lemma_mirror_spans(s: Seq<(int, int)>)
    requires
        spans_fit(s),
    ensures
        spans_fit(mirror(s)),
{
    let t = mirror(s);
    assert forall|i: int, j: int| 0 <= i < t.len() && 0 <= j < t.len() implies (#[trigger] t[i]).0
        - (#[trigger] t[j]).0 <= i64::MAX && t[i].1 - t[j].1 <= i64::MAX by {
        assert(s[i].0 - s[j].0 <= i64::MAX);
        assert(s[j].1 - s[i].1 <= i64::MAX);
    }
}

/// The greatest row and column of a shape with a cell are its greatest.
pub proof fn lemma_max(s: Seq<(int, int)>)
    requires
        s.len() > 0,
    ensures
        is_max_row(s, max_row(s)),
        is_max_col(s, max_col(s)),
{
    let rows = s.map_values(|p: (int, int)| p.0);
    rows.max_ensures();
    let i = choose|i: int| 0 <= i < rows.len() && rows[i] == rows.max();
    assert(s[i].0 == max_row(s));
    assert forall|j: int| 0 <= j < s.len() implies (#[trigger] s[j]).0 <= max_row(s) by {
        assert(rows[j] == s[j].0);
    }
    let cols = s.map_values(|p: (int, int)| p.1);
    cols.max_ensures();
    let k = choose|k: int| 0 <= k < cols.len() && cols[k] == cols.max();
    assert(s[k].1 == max_col(s));
    assert forall|j: int| 0 <= j < s.len() implies (#[trigger] s[j]).1 <= max_col(s) by {
        assert(cols[j] == s[j].1);
    }
}

/// A shape has one greatest row and one greatest column.
pub proof fn lemma_max_unique(s: Seq<(int, int)>, row: int, col: int)
    requires
        is_max_row(s, row),
        is_max_col(s, col),
    ensures
        row == max_row(s),
        col == max_col(s),
{
    lemma_max(s);
}

/// What a quarter turn does to each offset, and the bounds of the result:
/// `(r, c)` goes to `(c - min_col, max_row - r)`.
pub proof fn lemma_rotated_cells(s: Seq<(int, int)>)
    requires
        s.len() > 0,
    ensures
        rotated(s).len() == s.len(),
        forall|i: int|
            0 <= i < s.len() ==> (#[trigger] rotated(s)[i]) == (
                s[i].1 - min_col(s),
                max_row(s) - s[i].0,
            ),
        is_normalized(rotated(s)),
        is_max_row(rotated(s), max_col(s) - min_col(s)),
        is_max_col(rotated(s), max_row(s) - min_row(s)),
{
    let t = turn(s);
    let r = rotated(s);
    lemma_min_row(s);
    lemma_min_col(s);
    lemma_max(s);
    let i_min_r = choose|i: int| 0 <= i < s.len() && (#[trigger] s[i]).0 == min_row(s);
    let i_max_r = choose|i: int| 0 <= i < s.len() && (#[trigger] s[i]).0 == max_row(s);
    let i_min_c = choose|i: int| 0 <= i < s.len() && (#[trigger] s[i]).1 == min_col(s);
    let i_max_c = choose|i: int| 0 <= i < s.len() && (#[trigger] s[i]).1 == max_col(s);
    assert(is_min_row(t, min_col(s))) by {
        assert(t[i_min_c].0 == min_col(s));
        assert forall|i: int| 0 <= i < t.len() implies min_col(s) <= (#[trigger] t[i]).0 by {
            assert(t[i].0 == s[i].1);
        }
    }
    assert(is_min_col(t, -max_row(s))) by {
        assert(t[i_max_r].1 == -max_row(s));
        assert forall|i: int| 0 <= i < t.len() implies -max_row(s) <= (#[trigger] t[i]).1 by {
            assert(t[i].1 == -s[i].0);
        }
    }
    lemma_min_unique(t, min_col(s), -max_row(s));
    assert forall|i: int| 0 <= i < s.len() implies (#[trigger] r[i]) == (
        s[i].1 - min_col(s),
        max_row(s) - s[i].0,
    ) by {
        assert(r[i] == (t[i].0 - min_row(t), t[i].1 - min_col(t)));
    }
    assert(r[i_min_c].0 == 0);
    assert(r[i_max_r].1 == 0);
    assert(r[i_max_c].0 == max_col(s) - min_col(s));
    assert(r[i_min_r].1 == max_row(s) - min_row(s));
    assert forall|i: int| 0 <= i < r.len() implies 0 <= (#[trigger] r[i]).0 <= max_col(s)
        - min_col(s) && 0 <= r[i].1 <= max_row(s) - min_row(s) by {
        assert(r[i] == (s[i].1 - min_col(s), max_row(s) - s[i].0));
    }
}

/// What a reflection does to each offset, and the bounds of the result:
/// `(r, c)` goes to `(r - min_row, max_col - c)`.
pub proof fn lemma_flipped_cells(s: Seq<(int, int)>)
    requires
        s.len() > 0,
    ensures
        flipped(s).len() == s.len(),
        forall|i: int|
            0 <= i < s.len() ==> (#[trigger] flipped(s)[i]) == (
                s[i].0 - min_row(s),
                max_col(s) - s[i].1,
            ),
        is_normalized(flipped(s)),
        is_max_row(flipped(s), max_row(s) - min_row(s)),
        is_max_col(flipped(s), max_col(s) - min_col(s)),
{
    let t = mirror(s);
    let r = flipped(s);
    lemma_min_row(s);
    lemma_min_col(s);
    lemma_max(s);
    let i_min_r = choose|i: int| 0 <= i < s.len() && (#[trigger] s[i]).0 == min_row(s);
    let i_max_r = choose|i: int| 0 <= i < s.len() && (#[trigger] s[i]).0 == max_row(s);
    let i_min_c = choose|i: int| 0 <= i < s.len() && (#[trigger] s[i]).1 == min_col(s);
    let i_max_c = choose|i: int| 0 <= i < s.len() && (#[trigger] s[i]).1 == max_col(s);
    assert(is_min_row(t, min_row(s))) by {
        assert(t[i_min_r].0 == min_row(s));
        assert forall|i: int| 0 <= i < t.len() implies min_row(s) <= (#[trigger] t[i]).0 by {
            assert(t[i].0 == s[i].0);
        }
    }
    assert(is_min_col(t, -max_col(s))) by {
        assert(t[i_max_c].1 == -max_col(s));
        assert forall|i: int| 0 <= i < t.len() implies -max_col(s) <= (#[trigger] t[i]).1 by {
            assert(t[i].1 == -s[i].1);
        }
    }
    lemma_min_unique(t, min_row(s), -max_col(s));
    assert forall|i: int| 0 <= i < s.len() implies (#[trigger] r[i]) == (
        s[i].0 - min_row(s),
        max_col(s) - s[i].1,
    ) by {
        assert(r[i] == (t[i].0 - min_row(t), t[i].1 - min_col(t)));
    }
    assert(r[i_min_r].0 == 0);
    assert(r[i_max_c].1 == 0);
    assert(r[i_max_r].0 == max_row(s) - min_row(s));
    assert(r[i_min_c].1 == max_col(s) - min_col(s));
    assert forall|i: int| 0 <= i < r.len() implies 0 <= (#[trigger] r[i]).0 <= max_row(s)
        - min_row(s) && 0 <= r[i].1 <= max_col(s) - min_col(s) by {
        assert(r[i] == (s[i].0 - min_row(s), max_col(s) - s[i].1));
    }
}

/// Turning, reflecting or normalizing a shape without cells gives that shape.
proof fn lemma_no_cells(s: Seq<(int, int)>)
    requires
        s.len() == 0,
    ensures
        normalize(s) == s,
        rotated(s) == s,
        flipped(s) == s,
{
    assert(turn(s) =~= s);
    assert(mirror(s) =~= s);
    assert(normalize(s) =~= s);
}

/// Four quarter turns bring a shape back to where it was, moved against the
/// origin; a normalized shape comes back unchanged.
pub proof fn lemma_four_turns(s: Seq<(int, int)>)
    ensures
        rotated(rotated(rotated(rotated(s)))) == normalize(s),
        is_normalized(s) ==> rotated(rotated(rotated(rotated(s)))) == s,
{
    if s.len() == 0 {
        lemma_no_cells(s);
    } else {
        lemma_four_turns_of_cells(s);
    }
}

/// Four quarter turns of a shape that has a cell.
proof fn lemma_four_turns_of_cells(s: Seq<(int, int)>)
    requires
        s.len() > 0,
    ensures
        rotated(rotated(rotated(rotated(s)))) == normalize(s),
        is_normalized(s) ==> rotated(rotated(rotated(rotated(s)))) == s,
{
    let s1 = rotated(s);
    let s2 = rotated(s1);
    let s3 = rotated(s2);
    let s4 = rotated(s3);
    lemma_min_row(s);
    lemma_min_col(s);
    lemma_max(s);
    lemma_rotated_cells(s);
    lemma_min_unique(s1, 0, 0);
    lemma_max_unique(s1, max_col(s) - min_col(s), max_row(s) - min_row(s));
    lemma_rotated_cells(s1);
    lemma_min_unique(s2, 0, 0);
    lemma_max_unique(s2, max_row(s) - min_row(s), max_col(s) - min_col(s));
    lemma_rotated_cells(s2);
    lemma_min_unique(s3, 0, 0);
    lemma_max_unique(s3, max_col(s) - min_col(s), max_row(s) - min_row(s));
    lemma_rotated_cells(s3);
    assert forall|i: int| 0 <= i < s.len() implies s4[i] == normalize(s)[i] by {
        assert(s1[i] == (s[i].1 - min_col(s), max_row(s) - s[i].0));
        assert(s2[i] == (s1[i].1 - min_col(s1), max_row(s1) - s1[i].0));
        assert(s3[i] == (s2[i].1 - min_col(s2), max_row(s2) - s2[i].0));
        assert(s4[i] == (s3[i].1 - min_col(s3), max_row(s3) - s3[i].0));
    }
    assert(s4 =~= normalize(s));
    if is_normalized(s) {
        lemma_normalized_is_fixed(s);
    }
}

/// Two reflections bring a shape back to where it was, moved against the
/// origin; a normalized shape comes back unchanged.
pub proof fn lemma_two_flips(s: Seq<(int, int)>)
    ensures
        flipped(flipped(s)) == normalize(s),
        is_normalized(s) ==> flipped(flipped(s)) == s,
{
    if s.len() == 0 {
        lemma_no_cells(s);
    } else {
        lemma_two_flips_of_cells(s);
    }
}

/// Two reflections of a shape that has a cell.
proof fn lemma_two_flips_of_cells(s: Seq<(int, int)>)
    requires
        s.len() > 0,
    ensures
        flipped(flipped(s)) == normalize(s),
        is_normalized(s) ==> flipped(flipped(s)) == s,
{
    let s1 = flipped(s);
    let s2 = flipped(s1);
    lemma_min_row(s);
    lemma_min_col(s);
    lemma_max(s);
    lemma_flipped_cells(s);
    lemma_min_unique(s1, 0, 0);
    lemma_max_unique(s1, max_row(s) - min_row(s), max_col(s) - min_col(s));
    lemma_flipped_cells(s1);
    assert forall|i: int| 0 <= i < s.len() implies s2[i] == normalize(s)[i] by {
        assert(s1[i] == (s[i].0 - min_row(s), max_col(s) - s[i].1));
        assert(s2[i] == (s1[i].0 - min_row(s1), max_col(s1) - s1[i].1));
    }
    assert(s2 =~= normalize(s));
    if is_normalized(s) {
        lemma_normalized_is_fixed(s);
    }
}

/// Normalizing a normalized shape changes nothing.
pub proof fn lemma_normalized_is_fixed(s: Seq<(int, int)>)
    requires
        is_normalized(s),
    ensures
        normalize(s) == s,
{
    lemma_min_unique(s, 0, 0);
    assert(normalize(s) =~= s);
}

/// A quarter turn keeps the number of distinct cells.
pub proof fn lemma_rotated_cell_count(s: Seq<(int, int)>)
    requires
        s.len() > 0,
    ensures
        rotated(s).to_set().finite(),
        rotated(s).to_set().len() == s.to_set().len(),
{
    let a = min_col(s);
    let b = max_row(s);
    let f = |p: (int, int)| (p.1 - a, b - p.0);
    lemma_rotated_cells(s);
    assert(rotated(s) =~= s.map_values(f));
    s.lemma_to_set_map_commutes(f);
    vstd::seq_lib::seq_to_set_is_finite(s);
    assert(vstd::relations::injective_on(f, s.to_set()));
    vstd::set_lib::lemma_map_size(s.to_set(), rotated(s).to_set(), f);
}

/// A reflection keeps the number of distinct cells.
pub proof fn lemma_flipped_cell_count(s: Seq<(int, int)>)
    requires
        s.len() > 0,
    ensures
        flipped(s).to_set().finite(),
        flipped(s).to_set().len() == s.to_set().len(),
{
    let a = min_row(s);
    let b = max_col(s);
    let f = |p: (int, int)| (p.0 - a, b - p.1);
    lemma_flipped_cells(s);
    assert(flipped(s) =~= s.map_values(f));
    s.lemma_to_set_map_commutes(f);
    vstd::seq_lib::seq_to_set_is_finite(s);
    assert(vstd::relations::injective_on(f, s.to_set()));
    vstd::set_lib::lemma_map_size(s.to_set(), flipped(s).to_set(), f);
}

/// Moving a shape keeps the number of distinct cells.
pub proof fn lemma_translate_cell_count(s: Seq<(int, int)>, dr: int, dc: int)
    ensures
        translate(s, dr, dc).len() == s.len(),
        translate(s, dr, dc).to_set().finite(),
        translate(s, dr, dc).to_set().len() == s.to_set().len(),
{
    let f = |p: (int, int)| (p.0 + dr, p.1 + dc);
    s.lemma_to_set_map_commutes(f);
    vstd::seq_lib::seq_to_set_is_finite(s);
    assert(vstd::relations::injective_on(f, s.to_set()));
    vstd::set_lib::lemma_map_size(s.to_set(), translate(s, dr, dc).to_set(), f);
}

/// Each of the eight symmetry variants of a shape has as many offsets, and as
/// many distinct cells, as the shape itself. On the grid the number of
/// distinct cells is the population of the board that the variant makes.
pub proof fn lemma_variant_cell_count(s: Seq<(int, int)>, k: int)
    requires
        0 <= k < 8,
    ensures
        variant(s, k).len() == s.len(),
        variant(s, k).to_set().len() == s.to_set().len(),
{
    if s.len() == 0 {
        lemma_no_cells(s);
    } else if 1 <= k <= 3 {
        lemma_rotated_cell_count(s);
        lemma_rotated_cells(s);
        if k >= 2 {
            lemma_rotated_cell_count(rotated(s));
            lemma_rotated_cells(rotated(s));
        }
        if k >= 3 {
            lemma_rotated_cell_count(rotated(rotated(s)));
            lemma_rotated_cells(rotated(rotated(s)));
        }
    } else if k >= 4 {
        let m = flipped(s);
        lemma_flipped_cell_count(s);
        lemma_flipped_cells(s);
        if k >= 5 {
            lemma_rotated_cell_count(m);
            lemma_rotated_cells(m);
        }
        if k >= 6 {
            lemma_rotated_cell_count(rotated(m));
            lemma_rotated_cells(rotated(m));
        }
        if k >= 7 {
            lemma_rotated_cell_count(rotated(rotated(m)));
            lemma_rotated_cells(rotated(rotated(m)));
        }
    }
}

} // verus!
