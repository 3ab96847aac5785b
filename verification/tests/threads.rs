use rayon::prelude::{IntoParallelIterator, ParallelIterator};
use rust_annie::concurrency::ThreadSafeAnnIndex;
use rust_annie::errors::RustAnnError;
use rust_annie::index::{AnnIndex, Point};
use rust_annie::metrics::{Distance, Metric};

fn plain(values: &[f32]) -> Point {
    let sq: f32 = values.iter().map(|x| x * x).sum();
    Point { coords: values.iter().map(|x| x.to_bits()).collect(), sq_norm: sq.to_bits() }
}

fn manhattan(_metric: Metric, q: &Point, v: &Point) -> u32 {
    let d: f32 = q
        .coords
        .iter()
        .zip(v.coords.iter())
        .map(|(x, y)| (f32::from_bits(*x) - f32::from_bits(*y)).abs())
        .sum();
    d.to_bits()
}

#[test]
fn concurrent_searches_agree() {
    let shared = ThreadSafeAnnIndex::new(1, Distance::Manhattan).unwrap();
    let points: Vec<Point> = (0..100).map(|i| plain(&[i as f32])).collect();
    shared.add(points, (0..100).collect()).unwrap();
    let expected = shared.search(&plain(&[41.3]), 5, &manhattan).unwrap();
    let results: Vec<(Vec<i64>, Vec<u32>)> = (0..8)
        .into_par_iter()
        .map(|_| shared.search(&plain(&[41.3]), 5, &manhattan).unwrap())
        .collect();
    assert_eq!(results.len(), 8);
    for r in results {
        assert_eq!(r, expected);
    }
    assert_eq!(expected.0, vec![41, 42, 40, 43, 39]);
}

#[test]
fn guarded_index_behaves_as_the_index_does() {
    let shared = ThreadSafeAnnIndex::new(2, Distance::Manhattan).unwrap();
    assert!(ThreadSafeAnnIndex::new(0, Distance::Manhattan).is_err());
    shared.add(vec![plain(&[0.0, 0.0]), plain(&[3.0, 4.0]), plain(&[1.0, 1.0])], vec![1, 2, 3]).unwrap();
    assert_eq!(
        shared.add(vec![plain(&[0.0])], vec![4]),
        Err(RustAnnError::DimensionMismatch { expected: 2, found: 1 })
    );
    assert_eq!(shared.add(vec![plain(&[0.0, 1.0])], vec![]), Err(RustAnnError::InputMismatch));
    let (ids, dists) = shared.search(&plain(&[0.0, 0.0]), 2, &manhattan).unwrap();
    assert_eq!(ids, vec![1, 3]);
    assert_eq!(dists, vec![0.0f32.to_bits(), 2.0f32.to_bits()]);
    shared.remove(&vec![1]);
    let (ids, _) = shared.search(&plain(&[0.0, 0.0]), 5, &manhattan).unwrap();
    assert_eq!(ids, vec![3, 2]);
    assert_eq!(
        shared.search(&plain(&[0.0]), 5, &manhattan),
        Err(RustAnnError::DimensionMismatch { expected: 2, found: 1 })
    );
    let table = shared.search_batch(&vec![plain(&[3.0, 3.0])], 2, &manhattan).unwrap();
    assert_eq!(table.shape(), (1, 2));
    assert_eq!(table.ids(), vec![2, 3]);
}

#[test]
fn handles_share_one_index() {
    let first = ThreadSafeAnnIndex::new(1, Distance::Manhattan).unwrap();
    let second = first.share();
    first.add(vec![plain(&[1.0])], vec![1]).unwrap();
    second.add(vec![plain(&[2.0])], vec![2]).unwrap();
    let (ids, _) = first.search(&plain(&[1.8]), 5, &manhattan).unwrap();
    assert_eq!(ids, vec![2, 1]);
    second.remove(&vec![2]);
    let (ids, _) = first.search(&plain(&[1.8]), 5, &manhattan).unwrap();
    assert_eq!(ids, vec![1]);
}

#[test]
fn guarded_snapshot_round_trip() {
    let shared = ThreadSafeAnnIndex::new(1, Distance::Chebyshev).unwrap();
    shared.add(vec![plain(&[1.0]), plain(&[2.0])], vec![8, 9]).unwrap();
    let bytes = shared.save();
    let restored = ThreadSafeAnnIndex::load(&bytes).unwrap();
    assert_eq!(restored.save(), bytes);
    let (ids, _) = restored.search(&plain(&[5.0]), 2, &manhattan).unwrap();
    assert_eq!(ids, vec![9, 8]);
    assert_eq!(AnnIndex::load(&bytes).unwrap().len(), 2);
    assert!(ThreadSafeAnnIndex::load(&bytes[..bytes.len() - 1].to_vec()).is_err());
}
