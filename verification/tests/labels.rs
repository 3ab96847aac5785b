use rust_annie::errors::RustAnnError;
use rust_annie::metrics::{resolve_metric, Distance, Metric};

#[test]
fn error_labels() {
    assert_eq!(RustAnnError::InvalidDimension.label(), "Invalid Dimension");
    assert_eq!(RustAnnError::InvalidParameter.label(), "Minkowski Error");
    assert_eq!(RustAnnError::InputMismatch.label(), "Input Mismatch");
    assert_eq!(
        RustAnnError::DimensionMismatch { expected: 1, found: 2 }.label(),
        "Dimension Error"
    );
    assert_eq!(RustAnnError::ReshapeError.label(), "Reshape Error");
    assert_eq!(RustAnnError::StorageError.label(), "Storage Error");
    assert_eq!(RustAnnError::CorruptData.label(), "Corrupt Data");
    assert_eq!(RustAnnError::NotImplemented.label(), "Not Implemented");
}

#[test]
fn metric_names() {
    assert_eq!(Distance::Euclidean.repr(), "Distance.EUCLIDEAN");
    assert_eq!(Distance::Cosine.repr(), "Distance.COSINE");
    assert_eq!(Distance::Manhattan.repr(), "Distance.MANHATTAN");
    assert_eq!(Distance::Chebyshev.repr(), "Distance.CHEBYSHEV");
}

#[test]
fn an_exponent_overrides_the_selected_metric() {
    assert_eq!(resolve_metric(Distance::Cosine, None), Metric::Cosine);
    assert_eq!(resolve_metric(Distance::Cosine, Some(7)), Metric::Minkowski(7));
    assert_eq!(resolve_metric(Distance::Euclidean, Some(0)), Metric::Minkowski(0));
    assert_eq!(resolve_metric(Distance::Euclidean, None), Metric::Euclidean);
    assert_eq!(resolve_metric(Distance::Manhattan, None), Metric::Manhattan);
    assert_eq!(resolve_metric(Distance::Chebyshev, None), Metric::Chebyshev);
}
