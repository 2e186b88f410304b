use hft_service::error::bad_request;
use hft_service::node::{canonicalize, is_nan, is_negative, NEG_ZERO_BITS, POS_INF_BITS};
use hft_service::service::{check_batch, window_for_exponent, MAX_BATCH_SIZE};
use hft_service::store::to_samples;
use hft_service::AppError;

#[test]
fn exponent_bounds() {
    let msg = "exponent must be an integer between 1 and 8";
    assert_eq!(window_for_exponent(0), Err(AppError::BadRequest(msg.to_string())));
    assert_eq!(window_for_exponent(9), Err(AppError::BadRequest(msg.to_string())));
    assert_eq!(window_for_exponent(1), Ok(10));
    assert_eq!(window_for_exponent(8), Ok(100_000_000));
    assert_eq!(window_for_exponent(3), Ok(1000));
    assert_eq!(window_for_exponent(9).err().unwrap().status_code(), 400);
}

#[test]
fn batch_rules_in_order() {
    assert_eq!(
        check_batch(&[]),
        Err(AppError::BadRequest("Cannot add an empty batch of values".to_string()))
    );
    let too_many = vec![(-1.0f64).to_bits(); MAX_BATCH_SIZE + 1];
    assert_eq!(
        check_batch(&too_many),
        Err(AppError::BadRequest("Batch size cannot exceed 10000 values.".to_string()))
    );
    assert_eq!(
        check_batch(&[1.0f64.to_bits(), (-2.0f64).to_bits()]),
        Err(AppError::BadRequest("Negative trading prices are not allowed".to_string()))
    );
    assert_eq!(check_batch(&vec![0.5f64.to_bits(); MAX_BATCH_SIZE]), Ok(()));
}

#[test]
fn sign_and_nan_tests_follow_binary64() {
    assert!(!is_negative((-0.0f64).to_bits()));
    assert!(is_negative((-1e-6f64).to_bits()));
    assert!(is_negative(f64::NEG_INFINITY.to_bits()));
    assert!(is_negative(f64::MIN.to_bits()));
    assert!(!is_negative(0.0f64.to_bits()));
    assert!(!is_negative(f64::INFINITY.to_bits()));
    assert!(is_nan(f64::NAN.to_bits()));
    assert!(is_nan((-f64::NAN).to_bits()));
    assert!(!is_negative((-f64::NAN).to_bits()));
    assert!(!is_nan(f64::INFINITY.to_bits()));
    assert_eq!(POS_INF_BITS, f64::INFINITY.to_bits());
    assert_eq!(NEG_ZERO_BITS, (-0.0f64).to_bits());
}

#[test]
fn negative_zero_is_stored_as_zero() {
    assert_eq!(canonicalize((-0.0f64).to_bits()), 0);
    assert_eq!(canonicalize(2.5f64.to_bits()), 2.5f64.to_bits());
    let samples = to_samples(&[(-0.0f64).to_bits(), 3.0f64.to_bits()]);
    assert_eq!(samples, vec![0.0f64.to_bits(), 3.0f64.to_bits()]);
}

#[test]
fn error_messages_and_statuses() {
    let e = bad_request("nope");
    assert_eq!(e, AppError::BadRequest("nope".to_string()));
    assert_eq!(e.message(), "nope");
    assert_eq!(e.status_code(), 400);
    assert_eq!(AppError::SymbolNotFound("X".to_string()).status_code(), 404);
    assert_eq!(AppError::NotEnoughData.status_code(), 400);
}
