use pkg::build_time::{unix_timestamp, BuildTimeError};

#[test]
fn timestamp_after_the_epoch() {
    assert_eq!(unix_timestamp(Ok(0)), Ok(0));
    assert_eq!(unix_timestamp(Ok(1_700_000_000)), Ok(1_700_000_000));
    assert_eq!(unix_timestamp(Ok(i64::MAX as u64)), Ok(i64::MAX));
}

#[test]
fn timestamp_before_the_epoch() {
    assert_eq!(unix_timestamp(Err(0)), Ok(0));
    assert_eq!(unix_timestamp(Err(86_400)), Ok(-86_400));
    assert_eq!(unix_timestamp(Err(1u64 << 63)), Ok(i64::MIN));
}

#[test]
fn timestamp_too_far_after_the_epoch() {
    assert_eq!(
        unix_timestamp(Ok(1u64 << 63)),
        Err(BuildTimeError::Overflow(9_223_372_036_854_775_808))
    );
    assert_eq!(
        unix_timestamp(Ok(u64::MAX)),
        Err(BuildTimeError::Overflow(18_446_744_073_709_551_615))
    );
}

#[test]
fn timestamp_too_far_before_the_epoch() {
    assert_eq!(
        unix_timestamp(Err((1u64 << 63) + 1)),
        Err(BuildTimeError::Overflow(-9_223_372_036_854_775_809))
    );
    assert_eq!(
        unix_timestamp(Err(u64::MAX)),
        Err(BuildTimeError::Overflow(-18_446_744_073_709_551_615))
    );
}
