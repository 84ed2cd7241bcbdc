use calendar_puzzle::piece::Piece;

fn piece(pos: Vec<(i64, i64)>) -> Piece {
    Piece { pos, name: "test" }
}

fn sorted(p: &Piece) -> Vec<(i64, i64)> {
    let mut cells = p.pos.clone();
    cells.sort();
    cells
}

fn variants(p: &Piece) -> Vec<Piece> {
    vec![
        p.clone(),
        p.rotate_cw(),
        p.rotate_cw().rotate_cw(),
        p.rotate_cw().rotate_cw().rotate_cw(),
        p.flip(),
        p.flip().rotate_cw(),
        p.flip().rotate_cw().rotate_cw(),
        p.flip().rotate_cw().rotate_cw().rotate_cw(),
    ]
}

#[test]
fn the_catalogue_has_eight_pieces_in_order() {
    let names: Vec<&str> = Piece::build_all_pieces().iter().map(|p| p.name).collect();
    assert_eq!(
        names,
        vec!["rectangle", "Z", "L", "T", "U", "big L", "walkie talkie", "tetris"]
    );
}

#[test]
fn the_catalogue_has_forty_one_cells() {
    let sizes: Vec<usize> = Piece::build_all_pieces().iter().map(|p| p.pos.len()).collect();
    assert_eq!(sizes, vec![6, 5, 5, 5, 5, 5, 5, 5]);
    assert_eq!(sizes.iter().sum::<usize>(), 41);
}

#[test]
fn the_shapes_of_the_catalogue() {
    assert_eq!(
        Piece::build_rectangle().pos,
        vec![(0, 0), (0, 1), (0, 2), (1, 0), (1, 1), (1, 2)]
    );
    assert_eq!(Piece::build_z().pos, vec![(0, 0), (1, 0), (1, 1), (1, 2), (2, 2)]);
    assert_eq!(Piece::build_l().pos, vec![(0, 0), (0, 1), (0, 2), (0, 3), (1, 0)]);
    assert_eq!(Piece::build_t().pos, vec![(0, 0), (0, 1), (0, 2), (0, 3), (1, 1)]);
    assert_eq!(Piece::build_tetris().pos, vec![(0, 0), (0, 1), (0, 2), (1, 2), (1, 3)]);
    assert_eq!(Piece::build_u().pos, vec![(0, 0), (0, 1), (0, 2), (1, 0), (1, 2)]);
    assert_eq!(
        Piece::build_walkie_talkie().pos,
        vec![(0, 0), (0, 1), (0, 2), (1, 0), (1, 1)]
    );
    assert_eq!(Piece::build_big_l().pos, vec![(0, 0), (0, 1), (0, 2), (1, 0), (2, 0)]);
}

#[test]
fn rotate_takes_each_offset_to_column_and_negated_row() {
    let z = Piece::build_z();
    assert_eq!(z.rotate_cw().pos, vec![(0, 2), (0, 1), (1, 1), (2, 1), (2, 0)]);
    assert_eq!(z.rotate_cw().name, "Z");
    let l = Piece::build_l();
    assert_eq!(l.rotate_cw().pos, vec![(0, 1), (1, 1), (2, 1), (3, 1), (0, 0)]);
}

#[test]
fn flip_negates_each_column() {
    let l = Piece::build_l();
    assert_eq!(l.flip().pos, vec![(0, 3), (0, 2), (0, 1), (0, 0), (1, 3)]);
    assert_eq!(l.flip().name, "L");
    let big_l = Piece::build_big_l();
    assert_eq!(big_l.flip().pos, vec![(0, 2), (0, 1), (0, 0), (1, 2), (2, 2)]);
}

#[test]
fn normalized_moves_the_least_row_and_column_to_zero() {
    let p = piece(vec![(3, -2), (4, -2), (4, -1)]);
    assert_eq!(p.normalized().pos, vec![(0, 0), (1, 0), (1, 1)]);
    let q = piece(vec![(-5, 7)]);
    assert_eq!(q.normalized().pos, vec![(0, 0)]);
    let r = piece(vec![(2, 0), (0, 2)]);
    assert_eq!(r.normalized().pos, vec![(2, 0), (0, 2)]);
}

#[test]
fn normalized_works_at_the_ends_of_the_integer_range() {
    let p = piece(vec![(i64::MAX, i64::MIN), (i64::MAX - 1, i64::MIN + 2)]);
    assert_eq!(p.normalized().pos, vec![(1, 0), (0, 2)]);
}

#[test]
fn four_turns_bring_every_piece_back() {
    for p in Piece::build_all_pieces() {
        let back = p.rotate_cw().rotate_cw().rotate_cw().rotate_cw();
        assert_eq!(back.pos, p.pos);
        assert_eq!(back.on_board(), p.on_board());
    }
}

#[test]
fn four_turns_normalize_a_piece_away_from_the_origin() {
    let p = piece(vec![(3, 4), (3, 5), (4, 4)]);
    let back = p.rotate_cw().rotate_cw().rotate_cw().rotate_cw();
    assert_eq!(back.pos, vec![(0, 0), (0, 1), (1, 0)]);
}

#[test]
fn two_flips_bring_every_piece_back() {
    for p in Piece::build_all_pieces() {
        let back = p.flip().flip();
        assert_eq!(back.pos, p.pos);
        assert_eq!(back.on_board(), p.on_board());
    }
}

#[test]
fn every_variant_has_the_cells_of_its_piece() {
    for p in Piece::build_all_pieces() {
        let cells = p.on_board().0.count_ones();
        assert_eq!(cells as usize, p.pos.len());
        for v in variants(&p) {
            assert_eq!(v.pos.len(), p.pos.len());
            assert_eq!(v.on_board().0.count_ones(), cells);
        }
    }
}

#[test]
fn every_turned_or_flipped_piece_touches_both_axes() {
    for p in Piece::build_all_pieces() {
        for v in variants(&p) {
            assert_eq!(v.pos.iter().map(|c| c.0).min(), Some(0));
            assert_eq!(v.pos.iter().map(|c| c.1).min(), Some(0));
        }
    }
}

#[test]
fn the_rectangle_has_two_distinct_variants() {
    let p = Piece::build_rectangle();
    let mut shapes: Vec<Vec<(i64, i64)>> = variants(&p).iter().map(sorted).collect();
    shapes.sort();
    shapes.dedup();
    assert_eq!(shapes.len(), 2);
}

#[test]
fn the_number_of_distinct_variants_of_each_piece() {
    let counts: Vec<usize> = Piece::build_all_pieces()
        .iter()
        .map(|p| {
            let mut shapes: Vec<Vec<(i64, i64)>> = variants(p).iter().map(sorted).collect();
            shapes.sort();
            shapes.dedup();
            shapes.len()
        })
        .collect();
    assert_eq!(counts, vec![2, 4, 8, 8, 4, 4, 8, 8]);
}

#[test]
fn shifted_moves_every_offset() {
    let z = Piece::build_z();
    let moved = z.shifted(4, 3).unwrap();
    assert_eq!(moved.pos, vec![(4, 3), (5, 3), (5, 4), (5, 5), (6, 5)]);
    assert_eq!(moved.name, "Z");
    assert_eq!(z.shifted(0, 0).unwrap().pos, z.pos);
}

#[test]
fn shifted_refuses_what_leaves_the_grid() {
    let z = Piece::build_z();
    assert!(z.shifted(4, 4).is_some());
    assert!(z.shifted(5, 4).is_none());
    assert!(z.shifted(4, 5).is_none());
    assert!(z.shifted(7, 0).is_none());
    assert!(z.shifted(0, 7).is_none());
}

#[test]
fn shifted_refuses_negative_cells() {
    let z = Piece::build_z();
    assert!(z.shifted(-1, 0).is_none());
    assert!(z.shifted(0, -1).is_none());
    let p = piece(vec![(2, 3), (2, 4)]);
    assert_eq!(p.shifted(-2, -3).unwrap().pos, vec![(0, 0), (0, 1)]);
    assert!(p.shifted(-3, 0).is_none());
}

#[test]
fn shifted_refuses_what_overflows() {
    let z = Piece::build_z();
    assert!(z.shifted(i64::MAX, 0).is_none());
    assert!(z.shifted(0, i64::MAX).is_none());
    assert!(z.shifted(i64::MIN, i64::MIN).is_none());
    let far = piece(vec![(i64::MIN, i64::MIN)]);
    assert!(far.shifted(i64::MIN, 0).is_none());
}

#[test]
fn shifted_of_a_piece_without_cells_is_that_piece() {
    let none = piece(vec![]);
    let moved = none.shifted(100, -100).unwrap();
    assert!(moved.pos.is_empty());
}

#[test]
fn on_board_sets_one_bit_for_each_offset() {
    let z = Piece::build_z();
    let b = z.on_board();
    assert_eq!(b.0, 1 | (1 << 7) | (1 << 8) | (1 << 9) | (1 << 16));
    assert_eq!(b.0, 66433);
    assert_eq!(b.get(2, 2), 1);
    assert_eq!(b.get(0, 1), 0);
}

#[test]
fn on_board_of_a_piece_in_the_last_corner() {
    let p = piece(vec![(6, 6), (6, 5)]);
    assert_eq!(p.on_board().0, (1 << 48) | (1 << 47));
}

#[test]
fn on_board_counts_a_repeated_offset_once() {
    let p = piece(vec![(1, 1), (1, 1), (0, 0)]);
    assert_eq!(p.on_board().0, 1 | (1 << 8));
}
