use block_shuffle::errors::ShuffleError;
use block_shuffle::partition::partition;

#[test]
fn partition_splits_with_short_tail() {
    let chunks = partition(&vec![1, 2, 3, 4, 5], 2).unwrap();
    assert_eq!(chunks, vec![vec![1, 2], vec![3, 4], vec![5]]);
}

#[test]
fn partition_of_exact_multiple_has_equal_chunks() {
    let chunks = partition(&vec![7, 8, 9, 10], 2).unwrap();
    assert_eq!(chunks, vec![vec![7, 8], vec![9, 10]]);
}

#[test]
fn partition_rejects_zero_chunk_size() {
    assert_eq!(
        partition(&vec![1, 2, 3], 0),
        Err(ShuffleError::InvalidConfig)
    );
}

#[test]
fn partition_of_empty_input_has_no_chunks() {
    let chunks = partition(&Vec::new(), 3).unwrap();
    assert_eq!(chunks, Vec::<Vec<usize>>::new());
}
