use sudoku::board::Board;
use sudoku::board::SolveError;
use sudoku::board_index::BoardIndex;
use sudoku::cell::Cell;

const EASY: &str = "040602031000001609600540827002760080506000074087005062160080050820007090700006200";

fn at(i: u8) -> BoardIndex {
    BoardIndex::new(i).unwrap()
}

fn board_from(digits: &str) -> Board {
    let d: Vec<u8> = digits.bytes().map(|b| b - b'0').collect();
    assert_eq!(d.len(), 81);
    let cells: [Cell; 81] = std::array::from_fn(|k| Cell::new(at(k as u8), d[k], d[k] != 0));
    Board::new(cells)
}

fn value(b: &Board, i: u8) -> Option<u8> {
    b.get_cell(&at(i)).value
}

fn each_digit_once(b: &Board, positions: &[u8]) -> bool {
    let mut seen: Vec<u8> = positions.iter().map(|p| value(b, *p).unwrap()).collect();
    seen.sort();
    seen == vec![1, 2, 3, 4, 5, 6, 7, 8, 9]
}

#[test]
fn easy_puzzle_is_solved_within_ten_passes() {
    let mut b = board_from(EASY);
    assert_eq!(b.unsolved_indexes().len(), 43);
    assert!(matches!(b.solve(10), Ok(true)));
    assert!(b.unsolved_indexes().is_empty());
    for r in 0..9u8 {
        let row: Vec<u8> = (0..9).map(|c| r * 9 + c).collect();
        assert!(each_digit_once(&b, &row));
        let col: Vec<u8> = (0..9).map(|k| k * 9 + r).collect();
        assert!(each_digit_once(&b, &col));
        let start = (r / 3) * 27 + (r % 3) * 3;
        let bx: Vec<u8> = (0..9).map(|m| start + (m / 3) * 9 + m % 3).collect();
        assert!(each_digit_once(&b, &bx));
    }
    let given: Vec<u8> = EASY.bytes().map(|c| c - b'0').collect();
    for i in 0..81u8 {
        if given[i as usize] != 0 {
            assert_eq!(value(&b, i), Some(given[i as usize]));
            assert!(b.get_cell(&at(i)).initial);
        }
    }
}

#[test]
fn contradiction_is_reported_not_hidden() {
    // Row 0 holds 5 twice and, with 8 and 9 below in the last column,
    // leaves nothing for position 8.
    let mut digits = String::from("123456750");
    digits.push_str("000000008");
    digits.push_str("000000009");
    digits.push_str(&"0".repeat(54));
    let mut b = board_from(&digits);
    match b.solve(10) {
        Err(SolveError::EliminationContradiction { index, candidates, taken }) => {
            assert_eq!(index, at(8));
            assert_eq!(candidates, vec![1, 2, 3, 4, 5, 6, 7, 8, 9]);
            let mut t = taken.clone();
            t.sort();
            t.dedup();
            assert_eq!(t, vec![1, 2, 3, 4, 5, 6, 7, 8, 9]);
        }
        other => panic!("expected a contradiction, got {:?}", other),
    }
    assert_eq!(value(&b, 8), None);
}

#[test]
fn collapse_commits_and_propagates() {
    let mut b = board_from(EASY);
    assert_eq!(b.get_cell(&at(2)).options, vec![1, 2, 3, 4, 5, 6, 7, 8, 9]);
    assert!(b.collapse_cell(&at(0)).is_ok());
    assert_eq!(value(&b, 0), Some(9));
    assert!(b.get_cell(&at(0)).options.is_empty());
    assert!(!b.get_cell(&at(0)).initial);
    assert_eq!(b.get_cell(&at(2)).options, vec![1, 2, 3, 4, 5, 6, 7, 8]);
    assert_eq!(b.get_cell(&at(9)).options, vec![1, 2, 3, 4, 5, 6, 7, 8]);
    assert_eq!(b.get_cell(&at(4)).options, vec![1, 2, 3, 4, 5, 6, 7, 8]);
    assert_eq!(b.get_cell(&at(13)).options, vec![1, 2, 3, 4, 5, 6, 7, 8, 9]);
}

#[test]
fn collapse_narrows_when_several_remain() {
    let mut b = board_from(EASY);
    // Position 2: row 0 holds 4 6 2 3 1, column 2 holds 2 6 7, box 0 holds 4 6.
    assert!(b.collapse_cell(&at(2)).is_ok());
    assert_eq!(value(&b, 2), None);
    assert_eq!(b.get_cell(&at(2)).options, vec![5, 8, 9]);
}

#[test]
fn collapse_on_a_solved_cell_changes_nothing() {
    let mut b = board_from(EASY);
    let before: Vec<(Option<u8>, Vec<u8>)> =
        (0..81u8).map(|i| (value(&b, i), b.get_cell(&at(i)).options.clone())).collect();
    assert!(b.collapse_cell(&at(1)).is_ok());
    let after: Vec<(Option<u8>, Vec<u8>)> =
        (0..81u8).map(|i| (value(&b, i), b.get_cell(&at(i)).options.clone())).collect();
    assert_eq!(before, after);
}

#[test]
fn repeated_collapse_never_grows_candidates() {
    let mut b = board_from(EASY);
    let mut last: Vec<Vec<u8>> = (0..81u8).map(|i| b.get_cell(&at(i)).options.clone()).collect();
    for _ in 0..3 {
        for idx in b.unsolved_indexes() {
            b.collapse_cell(&idx).unwrap();
        }
        for i in 0..81usize {
            let now = &b.get_cell(&at(i as u8)).options;
            assert!(now.iter().all(|d| last[i].contains(d)));
            last[i] = now.clone();
        }
    }
}

#[test]
fn unsolved_indexes_are_ascending_blanks() {
    let b = board_from(EASY);
    let unsolved = b.unsolved_indexes();
    let expected: Vec<BoardIndex> = EASY
        .bytes()
        .enumerate()
        .filter(|(_, c)| *c == b'0')
        .map(|(k, _)| at(k as u8))
        .collect();
    assert_eq!(unsolved, expected);
}

#[test]
fn get_cell_mut_changes_one_cell() {
    let mut b = board_from(EASY);
    b.get_cell_mut(&at(0)).options = vec![2, 9];
    assert_eq!(b.get_cell(&at(0)).options, vec![2, 9]);
    assert_eq!(b.get_cell(&at(2)).options, vec![1, 2, 3, 4, 5, 6, 7, 8, 9]);
}

#[test]
fn zero_passes_reports_unsolved() {
    let mut b = board_from(EASY);
    assert!(matches!(b.solve(0), Ok(false)));
    assert_eq!(b.unsolved_indexes().len(), 43);
}

#[test]
fn well_formed_boards() {
    let b = board_from(EASY);
    assert!(b.is_well_formed());
    let mut swapped = board_from(EASY);
    swapped.get_cell_mut(&at(5)).index = at(6);
    assert!(!swapped.is_well_formed());
    let mut repeated = board_from(EASY);
    repeated.get_cell_mut(&at(0)).options = vec![4, 4];
    assert!(!repeated.is_well_formed());
}

#[test]
fn one_solve_pass_matches_one_manual_pass() {
    let mut by_solve = board_from(EASY);
    let mut by_hand = board_from(EASY);
    assert!(matches!(by_solve.solve(1), Ok(false)));
    for idx in by_hand.unsolved_indexes() {
        by_hand.collapse_cell(&idx).unwrap();
    }
    for i in 0..81u8 {
        assert_eq!(value(&by_solve, i), value(&by_hand, i));
        assert_eq!(by_solve.get_cell(&at(i)).options, by_hand.get_cell(&at(i)).options);
    }
    assert!(by_solve.unsolved_indexes().len() < 43);
}
