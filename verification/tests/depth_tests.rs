use cst_view::depth::{DepthRange, Endpoint, RangeError};

#[test]
fn test_single_number() {
    let range: DepthRange = DepthRange::from_str("3").unwrap();
    assert!(matches!(range.start, Endpoint::Inclusive(3)));
    assert!(matches!(range.end, Endpoint::Inclusive(3)));
}

#[test]
fn test_exclusive_range() {
    let range: DepthRange = DepthRange::from_str("1..3").unwrap();
    assert!(matches!(range.start, Endpoint::Inclusive(1)));
    assert!(matches!(range.end, Endpoint::Exclusive(3)));
}

#[test]
fn test_inclusive_range() {
    let range: DepthRange = DepthRange::from_str("1..=3").unwrap();
    assert!(matches!(range.start, Endpoint::Inclusive(1)));
    assert!(matches!(range.end, Endpoint::Inclusive(3)));
}

#[test]
fn test_from_zero() {
    let range: DepthRange = DepthRange::from_str("..3").unwrap();
    assert!(matches!(range.start, Endpoint::Inclusive(0)));
    assert!(matches!(range.end, Endpoint::Exclusive(3)));
}

#[test]
fn test_from_zero_inclusive() {
    let range: DepthRange = DepthRange::from_str("..=3").unwrap();
    assert!(matches!(range.start, Endpoint::Inclusive(0)));
    assert!(matches!(range.end, Endpoint::Inclusive(3)));
}

#[test]
fn test_to_max() {
    let range: DepthRange = DepthRange::from_str("3..").unwrap();
    assert!(matches!(range.start, Endpoint::Inclusive(3)));
    assert!(matches!(range.end, Endpoint::Inclusive(usize::MAX)));
}

#[test]
fn test_invalid_range() {
    assert!(DepthRange::from_str("3...5").is_err());
    assert!(DepthRange::from_str("a").is_err());
    assert!(DepthRange::from_str("1,2").is_err());
}

#[test]
fn test_invalid_start_greater_than_end() {
    assert!(DepthRange::from_str("5..3").is_err());
    assert!(DepthRange::from_str("5..=3").is_err());
}

#[test]
fn cli_test_single_number() {
    let range: DepthRange = DepthRange::from_str("3").unwrap();
    assert!(!range.contains(2));
    assert!(range.contains(3));
    assert!(!range.contains(4));
}

#[test]
fn cli_test_exclusive_range() {
    let range: DepthRange = DepthRange::from_str("1..3").unwrap();
    assert!(!range.contains(0));
    assert!(range.contains(1));
    assert!(range.contains(2));
    assert!(!range.contains(3));
}

#[test]
fn cli_test_inclusive_range() {
    let range: DepthRange = DepthRange::from_str("1..=3").unwrap();
    assert!(!range.contains(0));
    assert!(range.contains(1));
    assert!(range.contains(2));
    assert!(range.contains(3));
    assert!(!range.contains(4));
}

#[test]
fn cli_test_from_zero() {
    let range: DepthRange = DepthRange::from_str("..3").unwrap();
    assert!(range.contains(0));
    assert!(range.contains(1));
    assert!(range.contains(2));
    assert!(!range.contains(3));
}

#[test]
fn cli_test_to_max() {
    let range: DepthRange = DepthRange::from_str("100").unwrap();
    assert!(range.contains(100));
    let range: DepthRange = DepthRange::from_str("3..").unwrap();
    assert!(!range.contains(2));
    assert!(range.contains(3));
    assert!(range.contains(100));
    assert!(range.contains(usize::MAX));
}

#[test]
fn error_variants() {
    assert_eq!(DepthRange::from_str("a").unwrap_err(), RangeError::InvalidFormat);
    assert_eq!(DepthRange::from_str("1,2").unwrap_err(), RangeError::InvalidFormat);
    assert_eq!(DepthRange::from_str("").unwrap_err(), RangeError::InvalidFormat);
    assert_eq!(DepthRange::from_str("x..3").unwrap_err(), RangeError::InvalidStartNumber);
    assert_eq!(DepthRange::from_str("3..y").unwrap_err(), RangeError::InvalidEndNumber);
    assert_eq!(DepthRange::from_str("..").unwrap_err(), RangeError::InvalidEndNumber);
    assert_eq!(DepthRange::from_str("3...5").unwrap_err(), RangeError::InvalidEndNumber);
    assert_eq!(DepthRange::from_str("5..3").unwrap_err(), RangeError::StartGreaterThanEnd);
    assert_eq!(DepthRange::from_str("5..=3").unwrap_err(), RangeError::StartGreaterThanEnd);
}

#[test]
fn error_messages() {
    assert_eq!(RangeError::InvalidFormat.message(), "Invalid range format");
    assert_eq!(RangeError::InvalidStartNumber.message(), "Invalid start number");
    assert_eq!(RangeError::InvalidEndNumber.message(), "Invalid end number");
    assert_eq!(
        RangeError::StartGreaterThanEnd.message(),
        "Start must be less than or equal to end"
    );
}

#[test]
fn open_start_equals_explicit_zero() {
    let open = DepthRange::from_str("..7").unwrap();
    let explicit = DepthRange::from_str("0..7").unwrap();
    assert_eq!(open, explicit);
    let open = DepthRange::from_str("..=7").unwrap();
    let explicit = DepthRange::from_str("0..=7").unwrap();
    assert_eq!(open, explicit);
}

#[test]
fn single_number_zero() {
    let range = DepthRange::from_str("0").unwrap();
    assert!(range.contains(0));
    assert!(!range.contains(1));
}

#[test]
fn equal_bounds_allowed() {
    let range = DepthRange::from_str("4..=4").unwrap();
    assert!(range.contains(4));
    assert!(!range.contains(3));
    assert!(!range.contains(5));
    let range = DepthRange::from_str("4..4").unwrap();
    assert!(!range.contains(4));
}

#[test]
fn oversized_number_is_rejected() {
    // more than usize::MAX: no longer a single number, and no separator
    assert_eq!(
        DepthRange::from_str("99999999999999999999999999").unwrap_err(),
        RangeError::InvalidFormat
    );
    // leading zeros do not overflow
    let range = DepthRange::from_str("000005").unwrap();
    assert!(range.contains(5));
}

#[test]
fn leading_plus_accepted() {
    let range = DepthRange::from_str("+3").unwrap();
    assert!(matches!(range.start, Endpoint::Inclusive(3)));
    assert!(matches!(range.end, Endpoint::Inclusive(3)));
    let range = DepthRange::from_str("+1..+3").unwrap();
    assert!(matches!(range.start, Endpoint::Inclusive(1)));
    assert!(matches!(range.end, Endpoint::Exclusive(3)));
    let range = DepthRange::from_str("..=+9").unwrap();
    assert!(matches!(range.end, Endpoint::Inclusive(9)));
    assert_eq!(DepthRange::from_str("+").unwrap_err(), RangeError::InvalidFormat);
    assert_eq!(DepthRange::from_str("++3").unwrap_err(), RangeError::InvalidFormat);
}
