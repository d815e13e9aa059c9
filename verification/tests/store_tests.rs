use gasbot::store::handle_set_alert;
use gasbot::store::read_thresholds;
use gasbot::store::startup_thresholds;
use gasbot::store::DEFAULT_THRESHOLD_WEI;

#[test]
fn read_missing_file_yields_empty() {
    assert_eq!(read_thresholds(None), Vec::<u128>::new());
}

#[test]
fn read_corrupt_file_yields_empty() {
    // A read failure is swallowed: every malformed input reads as the
    // empty list, never as an error.
    for bad in [
        &b""[..],
        &b"garbage"[..],
        &b"[1,"[..],
        &b"[1, 2]"[..],
        &b"{\"thresholds\":[1]}"[..],
        &b"\xff\xfe"[..],
    ] {
        assert_eq!(read_thresholds(Some(bad.to_vec())), Vec::<u128>::new());
    }
}

#[test]
fn read_well_formed_file() {
    assert_eq!(
        read_thresholds(Some(b"[100000000,50000000000]".to_vec())),
        vec![100000000, 50000000000]
    );
}

#[test]
fn startup_with_no_file_seeds_one_default() {
    let out = startup_thresholds(None);
    assert_eq!(out.thresholds, vec![DEFAULT_THRESHOLD_WEI]);
    assert_eq!(out.file_update, Some(b"[100000000]".to_vec()));
}

#[test]
fn startup_with_empty_list_seeds_one_default() {
    let out = startup_thresholds(Some(b"[]".to_vec()));
    assert_eq!(out.thresholds, vec![DEFAULT_THRESHOLD_WEI]);
    assert_eq!(out.file_update, Some(b"[100000000]".to_vec()));
}

#[test]
fn startup_with_existing_thresholds_writes_nothing() {
    let out = startup_thresholds(Some(b"[5,6]".to_vec()));
    assert_eq!(out.thresholds, vec![5, 6]);
    assert_eq!(out.file_update, None);
}

#[test]
fn set_alert_appends_converted_threshold() {
    // 50 gwei becomes 50000000000 wei and is appended after what the
    // file already held.
    let out = handle_set_alert(Some(b"[100000000]".to_vec()), 50);
    assert_eq!(out.new_contents, b"[100000000,50000000000]".to_vec());
    assert_eq!(
        out.reply,
        b"Gas alert threshold set to 50 gwei".to_vec()
    );
}

#[test]
fn set_alert_on_missing_file_starts_fresh() {
    let out = handle_set_alert(None, 1);
    assert_eq!(out.new_contents, b"[1000000000]".to_vec());
    assert_eq!(out.reply, b"Gas alert threshold set to 1 gwei".to_vec());
}

#[test]
fn set_alert_keeps_duplicates_and_order() {
    let first = handle_set_alert(None, 2);
    let second = handle_set_alert(Some(first.new_contents), 2);
    assert_eq!(second.new_contents, b"[2000000000,2000000000]".to_vec());
}

#[test]
fn set_alert_largest_gwei_value() {
    let out = handle_set_alert(None, u64::MAX);
    assert_eq!(
        out.new_contents,
        format!("[{}]", (u64::MAX as u128) * 1_000_000_000).into_bytes()
    );
}
