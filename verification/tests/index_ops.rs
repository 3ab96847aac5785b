use rust_annie::errors::RustAnnError;
use rust_annie::index::{AnnIndex, Entry, Point};
use rust_annie::metrics::{Distance, Metric};

fn pt(values: &[f32]) -> Point {
    let sq: f32 = values.iter().map(|x| x * x).sum();
    Point { coords: values.iter().map(|x| x.to_bits()).collect(), sq_norm: sq.to_bits() }
}

fn stored_ids(index: &AnnIndex) -> Vec<i64> {
    index.entries().iter().map(|e| e.id).collect()
}

#[test]
fn construct_succeeds_for_every_positive_dimension_and_metric() {
    for dim in [1usize, 2, 3, 128, 4096, usize::MAX] {
        for metric in
            [Distance::Euclidean, Distance::Cosine, Distance::Manhattan, Distance::Chebyshev]
        {
            let index = AnnIndex::new(dim, metric).unwrap();
            assert_eq!(index.dim(), dim);
            assert_eq!(index.metric(), metric);
            assert_eq!(index.minkowski_p(), None);
            assert_eq!(index.len(), 0);
        }
    }
}

#[test]
fn construct_fails_for_dimension_zero() {
    for metric in [Distance::Euclidean, Distance::Cosine, Distance::Manhattan, Distance::Chebyshev]
    {
        assert_eq!(AnnIndex::new(0, metric), Err(RustAnnError::InvalidDimension));
    }
    assert_eq!(AnnIndex::new_minkowski(0, 2.0f32.to_bits()), Err(RustAnnError::InvalidDimension));
    assert_eq!(AnnIndex::new_minkowski(0, 0.0f32.to_bits()), Err(RustAnnError::InvalidDimension));
}

#[test]
fn minkowski_exponent_must_be_positive() {
    for p in [0.0f32, -0.0, -1.0, -0.5, f32::NEG_INFINITY, -f32::MIN_POSITIVE] {
        assert_eq!(AnnIndex::new_minkowski(3, p.to_bits()), Err(RustAnnError::InvalidParameter));
    }
    for p in [1.0f32, 0.5, 2.0, 3.5, f32::MIN_POSITIVE, f32::INFINITY] {
        let index = AnnIndex::new_minkowski(3, p.to_bits()).unwrap();
        assert_eq!(index.minkowski_p(), Some(p.to_bits()));
        assert_eq!(index.metric_in_force(), Metric::Minkowski(p.to_bits()));
        assert_eq!(index.dim(), 3);
    }
}

#[test]
fn metric_in_force_without_exponent_is_the_selected_one() {
    assert_eq!(
        AnnIndex::new(2, Distance::Euclidean).unwrap().metric_in_force(),
        Metric::Euclidean
    );
    assert_eq!(AnnIndex::new(2, Distance::Cosine).unwrap().metric_in_force(), Metric::Cosine);
    assert_eq!(
        AnnIndex::new(2, Distance::Manhattan).unwrap().metric_in_force(),
        Metric::Manhattan
    );
    assert_eq!(
        AnnIndex::new(2, Distance::Chebyshev).unwrap().metric_in_force(),
        Metric::Chebyshev
    );
}

#[test]
fn add_appends_in_order_without_deduplication() {
    let mut index = AnnIndex::new(2, Distance::Euclidean).unwrap();
    index.add(vec![pt(&[1.0, 2.0]), pt(&[3.0, 4.0])], vec![5, 5]).unwrap();
    index.add(vec![pt(&[1.0, 2.0])], vec![-7]).unwrap();
    assert_eq!(index.len(), 3);
    assert_eq!(
        index.entries(),
        &vec![
            Entry { id: 5, point: pt(&[1.0, 2.0]) },
            Entry { id: 5, point: pt(&[3.0, 4.0]) },
            Entry { id: -7, point: pt(&[1.0, 2.0]) },
        ]
    );
    assert_eq!(f32::from_bits(index.entries()[1].point.sq_norm), 25.0);
}

#[test]
fn add_of_an_empty_batch_changes_nothing() {
    let mut index = AnnIndex::new(2, Distance::Euclidean).unwrap();
    index.add(vec![pt(&[1.0, 2.0])], vec![1]).unwrap();
    let before = index.clone();
    index.add(vec![], vec![]).unwrap();
    assert_eq!(index, before);
}

#[test]
fn add_refuses_unequal_counts() {
    let mut index = AnnIndex::new(2, Distance::Euclidean).unwrap();
    index.add(vec![pt(&[1.0, 2.0])], vec![1]).unwrap();
    let before = index.clone();
    assert_eq!(
        index.add(vec![pt(&[1.0, 2.0]), pt(&[3.0, 4.0])], vec![1]),
        Err(RustAnnError::InputMismatch)
    );
    assert_eq!(index.add(vec![], vec![1]), Err(RustAnnError::InputMismatch));
    // the count is looked at before the lengths of the points
    assert_eq!(index.add(vec![pt(&[1.0])], vec![1, 2]), Err(RustAnnError::InputMismatch));
    assert_eq!(index, before);
}

#[test]
fn add_refuses_the_whole_batch_for_one_wrong_length() {
    let mut index = AnnIndex::new(2, Distance::Euclidean).unwrap();
    index.add(vec![pt(&[1.0, 2.0])], vec![1]).unwrap();
    let before = index.clone();
    let r = index.add(
        vec![pt(&[1.0, 2.0]), pt(&[1.0, 2.0, 3.0]), pt(&[1.0]), pt(&[5.0, 6.0])],
        vec![2, 3, 4, 5],
    );
    assert_eq!(r, Err(RustAnnError::DimensionMismatch { expected: 2, found: 3 }));
    assert_eq!(index, before);
    let r = index.add(vec![pt(&[])], vec![2]);
    assert_eq!(r, Err(RustAnnError::DimensionMismatch { expected: 2, found: 0 }));
    assert_eq!(index, before);
}

#[test]
fn remove_takes_out_every_entry_with_a_listed_id() {
    let mut index = AnnIndex::new(1, Distance::Euclidean).unwrap();
    index
        .add(
            vec![pt(&[1.0]), pt(&[2.0]), pt(&[3.0]), pt(&[4.0]), pt(&[5.0])],
            vec![1, 2, 1, 3, 2],
        )
        .unwrap();
    index.remove(&vec![2, 9, 2]);
    assert_eq!(stored_ids(&index), vec![1, 1, 3]);
    assert_eq!(index.entries()[1].point, pt(&[3.0]));
    index.remove(&vec![1]);
    assert_eq!(stored_ids(&index), vec![3]);
    assert_eq!(index.dim(), 1);
}

#[test]
fn remove_twice_is_remove_once() {
    let mut once = AnnIndex::new(1, Distance::Cosine).unwrap();
    once.add((0..20).map(|i| pt(&[i as f32])).collect(), (0..20).map(|i| i % 7).collect()).unwrap();
    let mut twice = once.clone();
    let ids = vec![3, 5, 100];
    once.remove(&ids);
    twice.remove(&ids);
    twice.remove(&ids);
    assert_eq!(once, twice);
    assert_eq!(once.len(), 14);
}

#[test]
fn remove_of_absent_or_no_ids_changes_nothing() {
    let mut index = AnnIndex::new(1, Distance::Euclidean).unwrap();
    index.add(vec![pt(&[1.0]), pt(&[2.0])], vec![1, 2]).unwrap();
    let before = index.clone();
    index.remove(&vec![]);
    assert_eq!(index, before);
    index.remove(&vec![7, 8, 9]);
    assert_eq!(index, before);
}

#[test]
fn remove_everything_leaves_an_empty_index() {
    let mut index = AnnIndex::new(1, Distance::Euclidean).unwrap();
    index.add(vec![pt(&[1.0]), pt(&[2.0])], vec![1, 2]).unwrap();
    index.remove(&vec![2, 1]);
    assert_eq!(index.len(), 0);
    assert_eq!(index, AnnIndex::new(1, Distance::Euclidean).unwrap());
}

#[test]
fn add_item_tags_with_the_position() {
    let mut index = AnnIndex::new(2, Distance::Euclidean).unwrap();
    assert_eq!(index.add_item(pt(&[1.0, 1.0])), Ok(0));
    assert_eq!(index.add_item(pt(&[2.0, 2.0])), Ok(1));
    assert_eq!(
        index.add_item(pt(&[2.0])),
        Err(RustAnnError::DimensionMismatch { expected: 2, found: 1 })
    );
    assert_eq!(index.add_item(pt(&[3.0, 3.0])), Ok(2));
    assert_eq!(stored_ids(&index), vec![0, 1, 2]);
    assert_eq!(index.entries()[2].point, pt(&[3.0, 3.0]));
}

#[test]
fn build_changes_nothing() {
    let mut index = AnnIndex::new(2, Distance::Euclidean).unwrap();
    index.add(vec![pt(&[1.0, 2.0])], vec![1]).unwrap();
    let before = index.clone();
    index.build();
    assert_eq!(index, before);
}
