use rust_annie::errors::RustAnnError;
use rust_annie::index::{AnnIndex, Point};
use rust_annie::metrics::{Distance, Metric};

fn v(values: &[f32]) -> Point {
    let sq: f32 = values.iter().map(|x| x * x).sum();
    Point { coords: values.iter().map(|x| x.to_bits()).collect(), sq_norm: sq.to_bits() }
}

fn l1(_metric: Metric, q: &Point, s: &Point) -> u32 {
    let d: f32 = q
        .coords
        .iter()
        .zip(s.coords.iter())
        .map(|(x, y)| (f32::from_bits(*x) - f32::from_bits(*y)).abs())
        .sum();
    d.to_bits()
}

fn line() -> AnnIndex {
    let mut index = AnnIndex::new(1, Distance::Manhattan).unwrap();
    index.add((0..6).map(|i| v(&[i as f32 * 10.0])).collect(), (100..106).collect()).unwrap();
    index
}

#[test]
fn batch_rows_are_the_single_answers() {
    let index = line();
    let queries = vec![v(&[1.0]), v(&[52.0]), v(&[24.0])];
    let table = index.search_batch(&queries, 2, &l1).unwrap();
    assert_eq!(table.shape(), (3, 2));
    assert_eq!(table.ids(), vec![100, 101, 105, 104, 102, 103]);
    let dists: Vec<f32> = table.distances().iter().map(|b| f32::from_bits(*b)).collect();
    assert_eq!(dists, vec![1.0, 9.0, 2.0, 12.0, 4.0, 6.0]);
    for (i, q) in queries.iter().enumerate() {
        let (ids, dists) = index.search(q, 2, &l1).unwrap();
        assert_eq!(&table.ids()[2 * i..2 * i + 2], &ids[..]);
        assert_eq!(&table.distances()[2 * i..2 * i + 2], &dists[..]);
    }
}

#[test]
fn batch_with_k_equal_to_the_count_fills_the_table() {
    let index = line();
    let table = index.search_batch(&vec![v(&[100.0])], 6, &l1).unwrap();
    assert_eq!(table.shape(), (1, 6));
    assert_eq!(table.ids(), vec![105, 104, 103, 102, 101, 100]);
}

#[test]
fn batch_with_k_above_the_count_cannot_be_laid_out() {
    let index = line();
    let r = index.search_batch(&vec![v(&[1.0]), v(&[2.0])], 7, &l1);
    assert_eq!(r.err(), Some(RustAnnError::ReshapeError));
    let empty = AnnIndex::new(1, Distance::Manhattan).unwrap();
    assert_eq!(empty.search_batch(&vec![v(&[1.0])], 1, &l1).err(), Some(RustAnnError::ReshapeError));
}

#[test]
fn batch_without_queries_is_an_empty_table() {
    let index = line();
    let table = index.search_batch(&vec![], 3, &l1).unwrap();
    assert_eq!(table.shape(), (0, 3));
    assert!(table.ids().is_empty());
    assert!(table.distances().is_empty());
    // no rows: the table is laid out whatever `k` is, within the limits of a layout
    let table = index.search_batch(&vec![], 10, &l1).unwrap();
    assert_eq!(table.shape(), (0, 10));
    assert_eq!(index.search_batch(&vec![], usize::MAX, &l1).err(), Some(RustAnnError::ReshapeError));
}

#[test]
fn batch_with_k_zero_is_a_table_without_columns() {
    let index = line();
    let table = index.search_batch(&vec![v(&[1.0]), v(&[2.0])], 0, &l1).unwrap();
    assert_eq!(table.shape(), (2, 0));
    assert!(table.ids().is_empty());
}

#[test]
fn batch_refuses_the_first_query_of_wrong_length() {
    let index = line();
    let r = index.search_batch(&vec![v(&[1.0]), v(&[1.0, 2.0, 3.0]), v(&[])], 2, &l1);
    assert_eq!(r.err(), Some(RustAnnError::DimensionMismatch { expected: 1, found: 3 }));
    // a wrong length is reported before a shape that cannot be laid out
    let r = index.search_batch(&vec![v(&[1.0, 2.0])], 100, &l1);
    assert_eq!(r.err(), Some(RustAnnError::DimensionMismatch { expected: 1, found: 2 }));
}
