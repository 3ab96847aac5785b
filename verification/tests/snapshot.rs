use rust_annie::errors::RustAnnError;
use rust_annie::index::{AnnIndex, Point};
use rust_annie::metrics::Distance;
use rust_annie::storage::{decode, encode, records_fill, snapshot_path};

fn p(values: &[f32]) -> Point {
    let sq: f32 = values.iter().map(|x| x * x).sum();
    Point { coords: values.iter().map(|x| x.to_bits()).collect(), sq_norm: sq.to_bits() }
}

fn sample() -> AnnIndex {
    let mut index = AnnIndex::new(3, Distance::Manhattan).unwrap();
    index
        .add(
            vec![p(&[1.0, -2.0, 3.5]), p(&[0.0, 0.0, 0.0]), p(&[f32::MAX, f32::MIN_POSITIVE, -0.0])],
            vec![7, -1, i64::MIN],
        )
        .unwrap();
    index
}

#[test]
fn save_then_load_gives_the_index_back() {
    let index = sample();
    let restored = AnnIndex::load(&index.save()).unwrap();
    assert_eq!(restored, index);
    assert_eq!(restored.dim(), 3);
    assert_eq!(restored.metric(), Distance::Manhattan);
    assert_eq!(restored.entries(), index.entries());
}

#[test]
fn save_then_load_keeps_every_metric_and_exponent() {
    for metric in [Distance::Euclidean, Distance::Cosine, Distance::Manhattan, Distance::Chebyshev]
    {
        let mut index = AnnIndex::new(2, metric).unwrap();
        index.add(vec![p(&[1.0, 2.0])], vec![i64::MAX]).unwrap();
        assert_eq!(AnnIndex::load(&index.save()).unwrap(), index);
    }
    let mut index = AnnIndex::new_minkowski(2, 2.5f32.to_bits()).unwrap();
    index.add(vec![p(&[1.0, 2.0])], vec![3]).unwrap();
    let restored = AnnIndex::load(&index.save()).unwrap();
    assert_eq!(restored, index);
    assert_eq!(restored.minkowski_p(), Some(2.5f32.to_bits()));
}

#[test]
fn save_then_load_of_an_empty_index() {
    let index = AnnIndex::new(usize::MAX, Distance::Cosine).unwrap();
    let bytes = index.save();
    assert_eq!(bytes.len(), 30);
    assert_eq!(AnnIndex::load(&bytes).unwrap(), index);
}

#[test]
fn snapshot_bytes_are_as_documented() {
    let mut index = AnnIndex::new_minkowski(2, 1.0f32.to_bits()).unwrap();
    index
        .add(vec![Point { coords: vec![0x0102_0304, 0xa0b0_c0d0], sq_norm: 0x1122_3344 }], vec![-2])
        .unwrap();
    let expected: Vec<u8> = vec![
        0x41, 0x4e, 0x4e, 0x58, // magic
        1, 0, 0, 0, // version
        2, 0, 0, 0, 0, 0, 0, 0, // dimension
        0, // metric
        1, // exponent present
        0x00, 0x00, 0x80, 0x3f, // exponent 1.0
        1, 0, 0, 0, 0, 0, 0, 0, // count
        0xfe, 0xff, 0xff, 0xff, 0xff, 0xff, 0xff, 0xff, // id -2
        0x44, 0x33, 0x22, 0x11, // squared norm
        0x04, 0x03, 0x02, 0x01, 0xd0, 0xc0, 0xb0, 0xa0, // coordinates
    ];
    assert_eq!(index.save(), expected);
    assert_eq!(AnnIndex::load(&expected).unwrap(), index);
}

#[test]
fn truncated_snapshot_is_corrupt() {
    let bytes = sample().save();
    for cut in [0, 1, 29, 30, 31, bytes.len() - 1] {
        assert_eq!(AnnIndex::load(&bytes[..cut].to_vec()), Err(RustAnnError::CorruptData));
    }
}

#[test]
fn snapshot_with_trailing_bytes_is_corrupt() {
    let mut bytes = sample().save();
    bytes.push(0);
    assert_eq!(AnnIndex::load(&bytes), Err(RustAnnError::CorruptData));
}

#[test]
fn snapshot_of_another_version_is_corrupt() {
    let mut bytes = sample().save();
    bytes[4] = 2;
    assert_eq!(AnnIndex::load(&bytes), Err(RustAnnError::CorruptData));
    bytes[4] = 0;
    assert_eq!(AnnIndex::load(&bytes), Err(RustAnnError::CorruptData));
}

#[test]
fn snapshot_with_a_wrong_header_field_is_corrupt() {
    let good = sample().save();
    // magic
    let mut bytes = good.clone();
    bytes[0] = 0x42;
    assert_eq!(AnnIndex::load(&bytes), Err(RustAnnError::CorruptData));
    // metric tag
    let mut bytes = good.clone();
    bytes[16] = 4;
    assert_eq!(AnnIndex::load(&bytes), Err(RustAnnError::CorruptData));
    // exponent flag
    let mut bytes = good.clone();
    bytes[17] = 2;
    assert_eq!(AnnIndex::load(&bytes), Err(RustAnnError::CorruptData));
    // exponent set without flag
    let mut bytes = good.clone();
    bytes[18] = 1;
    assert_eq!(AnnIndex::load(&bytes), Err(RustAnnError::CorruptData));
    // flag with an exponent of zero
    let mut bytes = good.clone();
    bytes[17] = 1;
    assert_eq!(AnnIndex::load(&bytes), Err(RustAnnError::CorruptData));
    // dimension zero
    let mut bytes = good.clone();
    bytes[8] = 0;
    assert_eq!(AnnIndex::load(&bytes), Err(RustAnnError::CorruptData));
    // dimension that does not match the records
    let mut bytes = good.clone();
    bytes[8] = 2;
    assert_eq!(AnnIndex::load(&bytes), Err(RustAnnError::CorruptData));
    // count that does not match the records
    let mut bytes = good.clone();
    bytes[22] = 4;
    assert_eq!(AnnIndex::load(&bytes), Err(RustAnnError::CorruptData));
    // huge count and dimension
    let mut bytes = good.clone();
    for b in bytes[8..16].iter_mut() {
        *b = 0xff;
    }
    for b in bytes[22..30].iter_mut() {
        *b = 0xff;
    }
    assert_eq!(AnnIndex::load(&bytes), Err(RustAnnError::CorruptData));
    assert!(AnnIndex::load(&good).is_ok());
}

#[test]
fn changed_record_loads_as_another_index() {
    let index = sample();
    let mut bytes = index.save();
    bytes[30] = 8;
    let other = AnnIndex::load(&bytes).unwrap();
    assert_eq!(other.entries()[0].id, 8);
    assert_eq!(other.entries()[0].point, index.entries()[0].point);
    assert_eq!(other.entries()[1], index.entries()[1]);
}

#[test]
fn encode_and_decode_work_on_parts() {
    let index = sample();
    let bytes = encode(3, Distance::Manhattan, None, index.entries());
    assert_eq!(bytes, index.save());
    let parts = decode(&bytes).unwrap();
    assert_eq!(parts.dim, 3);
    assert_eq!(parts.metric, Distance::Manhattan);
    assert_eq!(parts.minkowski_p, None);
    assert_eq!(&parts.entries, index.entries());
    assert_eq!(decode(&vec![1, 2, 3]).err(), Some(RustAnnError::CorruptData));
}

#[test]
fn records_fill_counts_exactly() {
    assert!(records_fill(3, 2, 48));
    assert!(!records_fill(3, 2, 47));
    assert!(!records_fill(3, 2, 49));
    assert!(records_fill(1, 0, 0));
    assert!(records_fill(usize::MAX, 0, 0));
    assert!(!records_fill(usize::MAX, 1, 8));
    assert!(!records_fill(1, usize::MAX, usize::MAX));
    assert!(!records_fill(3, 0, 24));
}

#[test]
fn snapshot_file_name_has_the_suffix() {
    assert_eq!(snapshot_path("my_index"), "my_index.bin");
    assert_eq!(snapshot_path(""), ".bin");
    assert_eq!(snapshot_path("dir/a.bin"), "dir/a.bin.bin");
}
