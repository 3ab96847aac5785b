use rust_annie::errors::RustAnnError;
use rust_annie::hnsw_index::{GraphParams, HnswIndex, UNKNOWN_ID};
use rust_annie::metrics::Distance;

#[test]
fn adapter_hands_out_dense_internal_ids() {
    let mut index = HnswIndex::new(4, Distance::Euclidean);
    assert_eq!(index.dims(), 4);
    assert_eq!(index.len(), 0);
    assert_eq!(index.insert(500), 0);
    assert_eq!(index.insert(-3), 1);
    assert_eq!(index.insert(500), 2);
    assert_eq!(index.len(), 3);
    assert_eq!(index.get_user_id(0), 500);
    assert_eq!(index.get_user_id(1), -3);
    assert_eq!(index.get_user_id(2), 500);
}

#[test]
fn unknown_internal_id_maps_to_minus_one() {
    let mut index = HnswIndex::new(4, Distance::Cosine);
    assert_eq!(index.get_user_id(0), -1);
    index.insert(9);
    assert_eq!(index.get_user_id(1), UNKNOWN_ID);
    assert_eq!(index.get_user_id(usize::MAX), -1);
}

#[test]
fn add_item_uses_the_internal_id_as_user_id() {
    let mut index = HnswIndex::new(2, Distance::Euclidean);
    index.insert(77);
    assert_eq!(index.add_item(), 1);
    assert_eq!(index.add_item(), 2);
    assert_eq!(index.get_user_id(1), 1);
    assert_eq!(index.get_user_id(2), 2);
    assert_eq!(index.get_user_id(0), 77);
}

#[test]
fn batch_add_checks_shape_then_count() {
    let mut index = HnswIndex::new(3, Distance::Euclidean);
    index.insert(1);
    assert_eq!(
        index.add(2, 4, &vec![5, 6]),
        Err(RustAnnError::DimensionMismatch { expected: 3, found: 4 })
    );
    assert_eq!(
        index.add(2, 4, &vec![5]),
        Err(RustAnnError::DimensionMismatch { expected: 3, found: 4 })
    );
    assert_eq!(index.add(2, 3, &vec![5]), Err(RustAnnError::InputMismatch));
    assert_eq!(index.add(1, 3, &vec![5, 6]), Err(RustAnnError::InputMismatch));
    assert_eq!(index.len(), 1);
    assert_eq!(index.add(2, 3, &vec![5, 6]), Ok(1));
    assert_eq!(index.add(0, 3, &vec![]), Ok(3));
    assert_eq!(index.add(1, 3, &vec![-8]), Ok(3));
    assert_eq!(index.len(), 4);
    assert_eq!(
        (0..5).map(|i| index.get_user_id(i)).collect::<Vec<i64>>(),
        vec![1, 5, 6, -8, -1]
    );
}

#[test]
fn search_gives_the_callers_ids() {
    let mut index = HnswIndex::new(3, Distance::Euclidean);
    index.add(3, 3, &vec![30, 20, 10]).unwrap();
    let answer = vec![(2usize, 0.5f32.to_bits()), (0, 1.5f32.to_bits()), (9, 2.0f32.to_bits())];
    let (ids, dists) = index.search(&answer);
    assert_eq!(ids, vec![10, 30, -1]);
    assert_eq!(dists, vec![0.5f32.to_bits(), 1.5f32.to_bits(), 2.0f32.to_bits()]);
    let (ids, dists) = index.search(&vec![]);
    assert!(ids.is_empty() && dists.is_empty());
}

#[test]
fn graph_backend_has_no_snapshot() {
    let mut index = HnswIndex::new(3, Distance::Euclidean);
    index.insert(1);
    assert_eq!(index.save().err(), Some(RustAnnError::NotImplemented));
    assert_eq!(HnswIndex::load(&vec![]).err(), Some(RustAnnError::NotImplemented));
    assert_eq!(HnswIndex::load(&vec![1, 2, 3]).err(), Some(RustAnnError::NotImplemented));
}

#[test]
fn graph_build_changes_nothing() {
    let mut index = HnswIndex::new(3, Distance::Euclidean);
    index.insert(4);
    index.build();
    assert_eq!(index.len(), 1);
    assert_eq!(index.get_user_id(0), 4);
    assert_eq!(index.dims(), 3);
}

#[test]
fn graph_settings() {
    assert_eq!(
        HnswIndex::params(),
        GraphParams {
            max_nb_connection: 16,
            max_elements: 10_000,
            max_layer: 16,
            ef_construction: 200,
            ef_search: 50,
        }
    );
}
