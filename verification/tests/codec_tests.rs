use gasbot::codec::encode_thresholds;
use gasbot::codec::parse_thresholds;

#[test]
fn encode_empty_list() {
    assert_eq!(encode_thresholds(&vec![]), b"[]".to_vec());
}

#[test]
fn encode_single_and_many() {
    assert_eq!(encode_thresholds(&vec![100000000]), b"[100000000]".to_vec());
    assert_eq!(encode_thresholds(&vec![1, 2, 3]), b"[1,2,3]".to_vec());
    assert_eq!(encode_thresholds(&vec![0, 0]), b"[0,0]".to_vec());
}

#[test]
fn encode_largest_value() {
    let top = u128::MAX;
    assert_eq!(
        encode_thresholds(&vec![top]),
        format!("[{}]", top).into_bytes()
    );
}

#[test]
fn parse_accepts_encodings() {
    assert_eq!(parse_thresholds(&b"[]".to_vec()), Some(vec![]));
    assert_eq!(parse_thresholds(&b"[0]".to_vec()), Some(vec![0]));
    assert_eq!(
        parse_thresholds(&b"[100000000,50000000000]".to_vec()),
        Some(vec![100000000, 50000000000])
    );
}

#[test]
fn round_trip_many_lists() {
    let lists: Vec<Vec<u128>> = vec![
        vec![],
        vec![0],
        vec![7, 7, 7],
        vec![100000000],
        vec![1, u128::MAX, 42],
    ];
    for l in lists {
        assert_eq!(parse_thresholds(&encode_thresholds(&l)), Some(l));
    }
}

#[test]
fn parse_rejects_non_encodings() {
    assert_eq!(parse_thresholds(&b"".to_vec()), None);
    assert_eq!(parse_thresholds(&b"[".to_vec()), None);
    assert_eq!(parse_thresholds(&b"]".to_vec()), None);
    assert_eq!(parse_thresholds(&b"[1,]".to_vec()), None);
    assert_eq!(parse_thresholds(&b"[,1]".to_vec()), None);
    assert_eq!(parse_thresholds(&b"[1 2]".to_vec()), None);
    assert_eq!(parse_thresholds(&b"[1,2] ".to_vec()), None);
    assert_eq!(parse_thresholds(&b"[01]".to_vec()), None);
    assert_eq!(parse_thresholds(&b"[-1]".to_vec()), None);
    assert_eq!(parse_thresholds(&b"not json".to_vec()), None);
    assert_eq!(parse_thresholds(&b"{\"a\":1}".to_vec()), None);
}

#[test]
fn parse_rejects_values_above_u128() {
    // One more than u128::MAX.
    assert_eq!(
        parse_thresholds(&b"[340282366920938463463374607431768211456]".to_vec()),
        None
    );
    assert_eq!(
        parse_thresholds(&b"[340282366920938463463374607431768211455]".to_vec()),
        Some(vec![u128::MAX])
    );
}
