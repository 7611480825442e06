use sudoku::board_index::BoardIndex;

fn indexes(values: &[u8]) -> Vec<BoardIndex> {
    values.iter().map(|i| BoardIndex::new(*i).unwrap()).collect()
}

#[test]
fn test_entangled_row_indexes_at_row_0() {
    let index = BoardIndex::new(5).unwrap();
    assert_eq!(index.board_row(), 0);
    let row_indexes = index.entangled_row_indexes();
    let expected_row_indexes: Vec<BoardIndex> = indexes(&[0, 1, 2, 3, 4, 6, 7, 8]);
    assert_eq!(row_indexes, expected_row_indexes);
}

#[test]
fn test_entangled_row_indexes_at_row_1() {
    let index = BoardIndex::new(10).unwrap();
    assert_eq!(index.board_row(), 1);
    let row_indexes = index.entangled_row_indexes();
    let expected_row_indexes: Vec<BoardIndex> = indexes(&[9, 11, 12, 13, 14, 15, 16, 17]);
    assert_eq!(row_indexes, expected_row_indexes);
}

#[test]
fn test_entangled_row_indexes_at_row_7() {
    let index = BoardIndex::new(66).unwrap();
    assert_eq!(index.board_row(), 7);
    let row_indexes = index.entangled_row_indexes();
    let expected_row_indexes: Vec<BoardIndex> = indexes(&[63, 64, 65, 67, 68, 69, 70, 71]);
    assert_eq!(row_indexes, expected_row_indexes);
}

#[test]
fn test_entangled_col_indexes_at_col_0() {
    let index = BoardIndex::new(0).unwrap();
    assert_eq!(index.board_col(), 0);
    let col_indexes = index.entangled_col_indexes();
    let expected_col_indexes: Vec<BoardIndex> = indexes(&[9, 18, 27, 36, 45, 54, 63, 72]);
    assert_eq!(col_indexes, expected_col_indexes);
}

#[test]
fn test_entangled_col_indexes_at_col_8() {
    let index = BoardIndex::new(17).unwrap();
    assert_eq!(index.board_col(), 8);
    let col_indexes = index.entangled_col_indexes();
    let expected_col_indexes: Vec<BoardIndex> = indexes(&[8, 26, 35, 44, 53, 62, 71, 80]);
    assert_eq!(col_indexes, expected_col_indexes);
}

#[test]
fn test_entangled_box_indexes_at_box_0() {
    let index = BoardIndex::new(10).unwrap();
    assert_eq!(index.board_box(), 0);
    let col_indexes = index.entangled_box_indexes();
    let expected_col_indexes: Vec<BoardIndex> = indexes(&[0, 1, 2, 9, 11, 18, 19, 20]);
    assert_eq!(col_indexes, expected_col_indexes);
}

#[test]
fn test_entangled_box_indexes_at_box_2() {
    let index = BoardIndex::new(8).unwrap();
    assert_eq!(index.board_box(), 2);
    let col_indexes = index.entangled_box_indexes();
    let expected_col_indexes: Vec<BoardIndex> = indexes(&[6, 7, 15, 16, 17, 24, 25, 26]);
    assert_eq!(col_indexes, expected_col_indexes);
}

#[test]
fn test_entangled_box_indexes_at_box_7() {
    let index = BoardIndex::new(57).unwrap();
    assert_eq!(index.board_box(), 7);
    let col_indexes = index.entangled_box_indexes();
    let expected_col_indexes: Vec<BoardIndex> = indexes(&[58, 59, 66, 67, 68, 75, 76, 77]);
    assert_eq!(col_indexes, expected_col_indexes);
}

#[test]
fn new_accepts_exactly_the_grid_indexes() {
    for i in 0..=255u8 {
        let r = BoardIndex::new(i);
        if i <= 80 {
            assert_eq!(r, Some(BoardIndex { value: i }));
        } else {
            assert_eq!(r, None);
        }
    }
    assert!(BoardIndex::new(80).is_some());
    assert!(BoardIndex::new(81).is_none());
}

#[test]
fn row_col_box_of_positions() {
    let p = BoardIndex::new(40).unwrap();
    assert_eq!((p.board_row(), p.board_col(), p.board_box()), (4, 4, 4));
    let p = BoardIndex::new(80).unwrap();
    assert_eq!((p.board_row(), p.board_col(), p.board_box()), (8, 8, 8));
    let p = BoardIndex::new(29).unwrap();
    assert_eq!((p.board_row(), p.board_col(), p.board_box()), (3, 2, 3));
    let p = BoardIndex::new(8).unwrap();
    assert_eq!((p.board_row(), p.board_col(), p.board_box()), (0, 8, 2));
}

#[test]
fn neighbours_stop_at_the_edges() {
    let corner = BoardIndex::new(0).unwrap();
    assert_eq!(corner.index_above(), None);
    assert_eq!(corner.index_left(), None);
    assert_eq!(corner.index_below(), BoardIndex::new(9));
    assert_eq!(corner.index_right(), BoardIndex::new(1));

    let far = BoardIndex::new(80).unwrap();
    assert_eq!(far.index_below(), None);
    assert_eq!(far.index_right(), None);
    assert_eq!(far.index_above(), BoardIndex::new(71));
    assert_eq!(far.index_left(), BoardIndex::new(79));

    let edge = BoardIndex::new(9).unwrap();
    assert_eq!(edge.index_left(), None);
    assert_eq!(edge.index_right(), BoardIndex::new(10));
    let edge = BoardIndex::new(17).unwrap();
    assert_eq!(edge.index_right(), None);
    assert_eq!(edge.index_above(), BoardIndex::new(8));
}

#[test]
fn row_mates_are_eight_distinct_on_the_row() {
    for i in 0..=80u8 {
        let p = BoardIndex::new(i).unwrap();
        let mates = p.entangled_row_indexes();
        assert_eq!(mates.len(), 8);
        for (k, m) in mates.iter().enumerate() {
            assert_ne!(*m, p);
            assert_eq!(m.board_row(), p.board_row());
            for other in &mates[k + 1..] {
                assert!(m.value < other.value);
            }
        }
    }
}

#[test]
fn col_mates_examples() {
    let mates = BoardIndex::new(0).unwrap().entangled_col_indexes();
    assert_eq!(mates, indexes(&[9, 18, 27, 36, 45, 54, 63, 72]));
    let mates = BoardIndex::new(17).unwrap().entangled_col_indexes();
    assert_eq!(mates, indexes(&[8, 26, 35, 44, 53, 62, 71, 80]));
}

#[test]
fn entangled_has_twenty_distinct_positions() {
    for i in 0..=80u8 {
        let p = BoardIndex::new(i).unwrap();
        let all = p.entangled_indexes();
        assert_eq!(all.len(), 20);
        for w in all.windows(2) {
            assert!(w[0].value < w[1].value);
        }
        assert!(!all.contains(&p));
        let mut union: Vec<BoardIndex> = Vec::new();
        union.extend(p.entangled_row_indexes());
        union.extend(p.entangled_col_indexes());
        union.extend(p.entangled_box_indexes());
        union.sort();
        union.dedup();
        assert_eq!(all, union);
    }
}

#[test]
fn entangled_of_the_first_position() {
    let all = BoardIndex::new(0).unwrap().entangled_indexes();
    assert_eq!(
        all,
        indexes(&[1, 2, 3, 4, 5, 6, 7, 8, 9, 10, 11, 18, 19, 20, 27, 36, 45, 54, 63, 72])
    );
}
