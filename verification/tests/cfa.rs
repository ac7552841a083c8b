use rawfuse::cfa;
use rawfuse::multizip::DynMultiZip;

#[test]
fn block_to_indices() {
    let width: usize = 6;

    assert_eq!(cfa::block_to_indices(width, 0), [0, 1, 6, 7]);
    assert_eq!(cfa::block_to_indices(width, 1), [2, 3, 8, 9]);
    assert_eq!(cfa::block_to_indices(width, 3), [12, 13, 18, 19]);
}

#[test]
fn is_saturated_boundary() {
    // A value exactly at the white level counts as saturated.
    let data: Vec<u16> = vec![10, 999, 1000, 5];
    assert!(cfa::is_saturated(&data, [0, 1, 2, 3], 1000));
    // All four strictly below: not saturated.
    let data: Vec<u16> = vec![10, 999, 999, 5];
    assert!(!cfa::is_saturated(&data, [0, 1, 2, 3], 1000));
    // A single value above suffices.
    let data: Vec<u16> = vec![10, 1001, 5, 5];
    assert!(cfa::is_saturated(&data, [0, 1, 2, 3], 1000));
}

#[test]
fn multizip_columns() {
    let rows: Vec<Vec<u32>> = vec![vec![1, 2, 3], vec![4, 5, 6]];
    let mut zip = DynMultiZip::new(rows);
    assert_eq!(zip.next(), Some(vec![1, 4]));
    assert_eq!(zip.next(), Some(vec![2, 5]));
    assert_eq!(zip.next(), Some(vec![3, 6]));
    assert_eq!(zip.next(), None);
}

#[test]
fn multizip_ragged_stops_early() {
    let rows: Vec<Vec<u32>> = vec![vec![1, 2], vec![3]];
    let mut zip = DynMultiZip::new(rows);
    assert_eq!(zip.next(), Some(vec![1, 3]));
    assert_eq!(zip.next(), None);
}
