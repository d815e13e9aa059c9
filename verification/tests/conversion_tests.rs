use gasbot::gwei_to_wei;
use gasbot::WEI_PER_GWEI;

#[test]
fn one_gwei_is_a_billion_wei() {
    assert_eq!(WEI_PER_GWEI, 1_000_000_000);
    assert_eq!(gwei_to_wei(1), 1_000_000_000);
}

#[test]
fn conversion_scales_exactly() {
    assert_eq!(gwei_to_wei(0), 0);
    assert_eq!(gwei_to_wei(50), 50_000_000_000);
    assert_eq!(
        gwei_to_wei(u64::MAX),
        (u64::MAX as u128) * 1_000_000_000
    );
}
