use sudoku::diff::Diff;
use sudoku::diff::DiffBuilder;
use sudoku::diff::PatchDiff;
use sudoku::diff::ScalarDiff;
use sudoku::diff::ScalarDiffFragment;

#[test]
fn creates_diff_for_u8() {
    let mut start: u8 = 1;

    let diff = start.mut_and_diff(2u8);
    assert_eq!(start, 2u8);

    start.revert_diff(&diff);
    assert_eq!(start, 1u8);

    start.apply_diff(&diff);
    assert_eq!(start, 2u8);
}

#[test]
fn creates_diff_for_i32() {
    let mut start: i32 = 9001;

    let diff = start.mut_and_diff(123);
    assert_eq!(start, 123);

    start.revert_diff(&diff);
    assert_eq!(start, 9001);

    start.apply_diff(&diff);
    assert_eq!(start, 123);
}

#[test]
fn creates_diff_for_str() {
    let mut start: &str = "foo bar baz";

    let diff = start.mut_and_diff("qux corge");
    assert_eq!(start, "qux corge");

    start.revert_diff(&diff);
    assert_eq!(start, "foo bar baz");

    start.apply_diff(&diff);
    assert_eq!(start, "qux corge");
}

#[test]
fn scalar_fragment_keeps_both_sides() {
    let f = ScalarDiffFragment::new(3u64, 4u64);
    assert_eq!(*f.before(), 3);
    assert_eq!(*f.after(), 4);
}

#[test]
fn multi_fragment_diff_reverts_last_to_first() {
    let diff = Diff::new(vec![
        ScalarDiffFragment::new(1u8, 2u8),
        ScalarDiffFragment::new(2u8, 3u8),
        ScalarDiffFragment::new(3u8, 4u8),
    ]);
    let mut v: u8 = 1;
    v.apply_diff(&diff);
    assert_eq!(v, 4);
    v.revert_diff(&diff);
    assert_eq!(v, 1);
}

#[test]
fn empty_diff_changes_nothing() {
    let diff: Diff<ScalarDiffFragment<bool>> = Diff::new(vec![]);
    let mut v = true;
    v.apply_diff(&diff);
    assert!(v);
    v.revert_diff(&diff);
    assert!(v);
}

#[test]
fn builder_keeps_fragment_order_and_empties_on_finalize() {
    let mut builder: DiffBuilder<ScalarDiffFragment<char>> = Diff::builder();
    builder
        .add_fragment(|| ScalarDiffFragment::new('a', 'b'))
        .add_fragment(|| ScalarDiffFragment::new('b', 'c'));
    let diff = builder.finalize();
    assert_eq!(diff.fragments().len(), 2);
    assert_eq!(*diff.fragments()[0].after(), 'b');
    assert_eq!(*diff.fragments()[1].after(), 'c');
    let mut c = 'a';
    c.apply_diff(&diff);
    assert_eq!(c, 'c');
    let again = builder.finalize();
    assert!(again.fragments().is_empty());
    let fresh: DiffBuilder<ScalarDiffFragment<char>> = DiffBuilder::default();
    let mut fresh = fresh;
    assert!(fresh.finalize().fragments().is_empty());
}

#[test]
fn mut_and_diff_on_other_scalars() {
    let mut n: usize = 7;
    let d = n.mut_and_diff(8);
    assert_eq!(n, 8);
    assert_eq!(*d.fragments()[0].before(), 7);
    n.revert_diff(&d);
    assert_eq!(n, 7);

    let mut x: i64 = -5;
    let d = x.mut_and_diff(5);
    x.revert_diff(&d);
    assert_eq!(x, -5);

    let mut y: u32 = 0;
    let d = y.mut_and_diff(u32::MAX);
    assert_eq!(y, u32::MAX);
    y.revert_diff(&d);
    assert_eq!(y, 0);

    let mut z: u64 = 10;
    let d = z.mut_and_diff(10);
    z.apply_diff(&d);
    assert_eq!(z, 10);
}
