use sudoku::board_index::BoardIndex;
use sudoku::board_index::BoardLocation;
use sudoku::cell::Cell;
use sudoku::cell::CellFragment;
use sudoku::cell::CellFragmentBuilder;
use sudoku::diff::PatchDiff;
use sudoku::diff::PatchFragment;

fn at(i: u8) -> BoardIndex {
    BoardIndex::new(i).unwrap()
}

fn sorted(v: &[u8]) -> Vec<u8> {
    let mut v = v.to_vec();
    v.sort();
    v
}

#[test]
fn blank_cell_has_all_candidates() {
    let c = Cell::new(at(4), 0, false);
    assert_eq!(c.value, None);
    assert_eq!(c.options, vec![1, 2, 3, 4, 5, 6, 7, 8, 9]);
    assert!(!c.initial);
    assert_eq!(*c.board_index(), at(4));
}

#[test]
fn given_cell_has_no_candidates() {
    let c = Cell::new(at(80), 7, true);
    assert_eq!(c.value, Some(7));
    assert!(c.options.is_empty());
    assert!(c.initial);
}

#[test]
fn fragment_round_trip_on_a_commit() {
    let start = Cell::new(at(0), 0, false);
    let mut cell = start.clone();
    let fragment = CellFragment::builder()
        .changed_value(None, Some(3))
        .removed_options(vec![1, 2, 3, 4, 5, 6, 7, 8, 9])
        .finalize();
    cell.apply_fragment(&fragment);
    assert_eq!(cell.value, Some(3));
    assert!(cell.options.is_empty());
    cell.revert_fragment(&fragment);
    assert_eq!(cell.value, start.value);
    assert_eq!(sorted(&cell.options), sorted(&start.options));
}

#[test]
fn fragment_swaps_candidates() {
    let mut cell = Cell::new(at(0), 0, false);
    cell.options = vec![1, 2];
    let mut builder = CellFragmentBuilder::new();
    builder.added_options(vec![5]);
    builder.removed_options(vec![2]);
    let fragment = builder.finalize();
    cell.apply_fragment(&fragment);
    assert_eq!(cell.options, vec![1, 5]);
    assert_eq!(cell.value, None);
    cell.revert_fragment(&fragment);
    assert_eq!(cell.options, vec![1, 2]);
}

#[test]
fn empty_fragment_changes_nothing() {
    let mut cell = Cell::new(at(3), 0, false);
    let fragment = CellFragment::new(None, None);
    cell.apply_fragment(&fragment);
    assert_eq!(cell.options, vec![1, 2, 3, 4, 5, 6, 7, 8, 9]);
    assert_eq!(cell.value, None);
    let fragment = CellFragmentBuilder::default().finalize();
    cell.revert_fragment(&fragment);
    assert_eq!(cell.options, vec![1, 2, 3, 4, 5, 6, 7, 8, 9]);
}

#[test]
fn cell_diff_round_trip() {
    let start = Cell::new(at(12), 0, false);
    let mut cell = start.clone();
    let mut builder = Cell::diff_builder();
    builder.add_fragment(|| CellFragment::new(None, Some([vec![9, 8], vec![]])));
    builder.add_fragment(|| CellFragment::new(Some([None, Some(4)]), Some([vec![1, 2, 3, 4, 5, 6, 7], vec![]])));
    let diff = builder.finalize();
    assert_eq!(diff.fragments().len(), 2);
    cell.apply_diff(&diff);
    assert_eq!(cell.value, Some(4));
    assert!(cell.options.is_empty());
    cell.revert_diff(&diff);
    assert_eq!(cell.value, None);
    assert_eq!(sorted(&cell.options), sorted(&start.options));
    cell.apply_diff(&diff);
    assert_eq!(cell.value, Some(4));
}

#[test]
fn well_formed_cells() {
    assert!(Cell::new(at(0), 0, false).is_well_formed());
    assert!(Cell::new(at(0), 9, true).is_well_formed());
    let mut c = Cell::new(at(0), 0, false);
    c.options = vec![1, 2, 1];
    assert!(!c.is_well_formed());
    c.options = vec![0, 2];
    assert!(!c.is_well_formed());
    c.options = vec![];
    assert!(c.is_well_formed());
    let mut c = Cell::new(at(0), 3, false);
    c.options = vec![3];
    assert!(!c.is_well_formed());
    c.options = vec![];
    c.value = Some(10);
    assert!(!c.is_well_formed());
    c.value = Some(3);
    c.index = BoardIndex { value: 81 };
    assert!(!c.is_well_formed());
}

#[test]
fn a_position_locates_itself() {
    let p = at(33);
    assert_eq!(*BoardLocation::board_index(&p), p);
}
