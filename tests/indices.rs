use zarrs::array_subset::{ArraySubset, ArraySubsetError};
use zarrs::bytes::ByteRange;
use zarrs::chunk_grid::RegularChunkGrid;
use zarrs::indices::{checked_num_elements, ravel_indices, unravel_index};

#[test]
fn ravel_and_unravel() {
    assert_eq!(ravel_indices(&[1, 2, 3], &[2, 3, 4]), 1 * 12 + 2 * 4 + 3);
    assert_eq!(unravel_index(23, &[2, 3, 4]), vec![1, 2, 3]);
    // Indices outside the shape still linearise, as long as the result fits.
    assert_eq!(ravel_indices(&[5, 1], &[3, 4]), 21);
    assert_eq!(unravel_index(0, &[]), Vec::<u64>::new());
    for k in 0..24 {
        assert_eq!(ravel_indices(&unravel_index(k, &[2, 3, 4]), &[2, 3, 4]), k);
    }
    assert_eq!(checked_num_elements(&[2, 3, 4]), Some(24));
    assert_eq!(checked_num_elements(&[u64::MAX, 2]), None);
    assert_eq!(checked_num_elements(&[u64::MAX, 2, 0]), Some(0));
}

#[test]
fn subset_algebra() {
    let a = ArraySubset::new_with_start_shape(vec![1, 1], vec![4, 2]).unwrap();
    let b = ArraySubset::new_with_start_shape(vec![3, 0], vec![5, 5]).unwrap();
    let i = a.intersect(&b).unwrap();
    assert_eq!(i.start(), &vec![3, 1]);
    assert_eq!(i.shape(), &vec![2, 2]);
    assert_eq!(a.end_exc(), vec![5, 3]);
    assert_eq!(a.end_inc(), Some(vec![4, 2]));
    assert_eq!(ArraySubset::new_with_shape(vec![0, 3]).end_inc(), None);
    assert!(a.contains(&[4, 2]));
    assert!(!a.contains(&[5, 2]));
    assert_eq!(a.num_elements(), Some(8));
    let bounded = b.bound(&vec![4, 4]).unwrap();
    assert_eq!(bounded.shape(), &vec![1, 4]);
    assert!(matches!(
        ArraySubset::new_with_start_shape(vec![1], vec![1, 2]),
        Err(ArraySubsetError::IncompatibleDimensionality(_))
    ));
    assert_eq!(
        ArraySubset::new_with_start_shape(vec![u64::MAX], vec![1]),
        Err(ArraySubsetError::OutOfRange)
    );
    let disjoint = ArraySubset::new_with_start_shape(vec![6, 6], vec![1, 1]).unwrap();
    assert_eq!(a.intersect(&disjoint).unwrap().num_elements(), Some(0));
}

#[test]
fn subset_byte_ranges() {
    let s = ArraySubset::new_with_start_shape(vec![0, 1, 0], vec![2, 1, 1]).unwrap();
    assert_eq!(
        s.byte_ranges(&[2, 2, 2], 2).unwrap(),
        vec![ByteRange::FromStart(4, Some(2)), ByteRange::FromStart(12, Some(2))]
    );
    assert!(s.byte_ranges(&[2, 1, 2], 2).is_err());
}

#[test]
fn regular_chunk_grid() {
    let grid = RegularChunkGrid::new(vec![4, 3]).unwrap();
    assert!(RegularChunkGrid::new(vec![4, 0]).is_none());
    assert_eq!(grid.grid_shape(&[10, 9]).unwrap(), vec![3, 3]);
    assert_eq!(grid.chunk_indices(&[9, 8], &[10, 9]).unwrap(), Some(vec![2, 2]));
    assert_eq!(grid.chunk_indices(&[10, 8], &[10, 9]).unwrap(), None);
    assert_eq!(grid.chunk_shape_at(&[2, 2], &[10, 9]).unwrap(), Some(vec![4, 3]));
    assert_eq!(grid.chunk_shape_at(&[3, 0], &[10, 9]).unwrap(), None);
    let s = grid.subset(&[2, 1], &[10, 9]).unwrap().unwrap();
    assert_eq!(s.start(), &vec![8, 3]);
    assert_eq!(s.shape(), &vec![4, 3]);
    assert!(grid.grid_shape(&[10]).is_err());
}
