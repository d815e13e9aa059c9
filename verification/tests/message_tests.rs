use gasbot::messages::alert_set_message;
use gasbot::messages::check_gas_message;
use gasbot::messages::gas_alert_message;

#[test]
fn check_gas_truncates_to_whole_gwei() {
    // 12000000000 wei is exactly 12 gwei; shown without decimals.
    assert_eq!(
        check_gas_message(12_000_000_000),
        b"Current gas price: 12 gwei".to_vec()
    );
    // 12999999999 wei truncates down to 12 gwei, not 13.
    assert_eq!(
        check_gas_message(12_999_999_999),
        b"Current gas price: 12 gwei".to_vec()
    );
    assert_eq!(
        check_gas_message(999_999_999),
        b"Current gas price: 0 gwei".to_vec()
    );
}

#[test]
fn alert_set_echoes_gwei_value() {
    assert_eq!(
        alert_set_message(50),
        b"Gas alert threshold set to 50 gwei".to_vec()
    );
    assert_eq!(
        alert_set_message(0),
        b"Gas alert threshold set to 0 gwei".to_vec()
    );
}

#[test]
fn gas_alert_shows_threshold_in_gwei() {
    assert_eq!(
        gas_alert_message(50_000_000_000),
        b"Gas price is below 50 gwei!".to_vec()
    );
    assert_eq!(
        gas_alert_message(100_000_000),
        b"Gas price is below 0 gwei!".to_vec()
    );
}
