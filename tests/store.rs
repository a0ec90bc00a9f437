use relatepy::store::{HaplotypeStore, StoreError};

#[test]
fn store_rejects_row_count_mismatch() {
    let r = HaplotypeStore::new(vec![vec![0, 1], vec![1, 0]], 3, 2);
    assert!(matches!(r, Err(StoreError::FormatError)));
}

#[test]
fn store_rejects_ragged_rows() {
    let r = HaplotypeStore::new(vec![vec![0, 1], vec![1]], 2, 2);
    assert!(matches!(r, Err(StoreError::FormatError)));
}

#[test]
fn store_rejects_unknown_alleles() {
    let r = HaplotypeStore::new(vec![vec![0, 1], vec![1, 3]], 2, 2);
    assert!(matches!(r, Err(StoreError::FormatError)));
}

#[test]
fn store_slices_rows_and_columns() {
    let s = HaplotypeStore::new(vec![vec![0, 1, 2, 1], vec![1, 1, 0, 0], vec![2, 0, 0, 1]], 3, 4)
        .unwrap();
    assert_eq!(s.n_haps(), 3);
    assert_eq!(s.n_sites(), 4);
    assert_eq!(s.row_slice(0, 1, 3), vec![1, 2]);
    assert_eq!(s.row_slice(2, 0, 4), vec![2, 0, 0, 1]);
    assert_eq!(s.row_slice(1, 2, 2), Vec::<u8>::new());
    assert_eq!(s.column(0), vec![0, 1, 2]);
    assert_eq!(s.column(3), vec![1, 0, 1]);
}
