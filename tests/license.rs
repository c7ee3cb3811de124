use menu_flow::license::{game_key_in, license_decision, license_granted, license_url, LicenseResponse};

fn received(status: u16, body: &str) -> LicenseResponse {
    LicenseResponse::Received { status, body: body.as_bytes().to_vec() }
}

#[test]
fn license_holds_for_200_with_game_key() {
    assert!(license_granted(&received(200, r#"{"gameKey": "ABCD-1234"}"#)));
}

#[test]
fn license_refused_for_404() {
    assert!(!license_granted(&received(404, r#"{"gameKey": "ABCD-1234"}"#)));
    assert!(!license_granted(&received(404, "Not Found")));
}

#[test]
fn license_refused_for_200_with_empty_object() {
    assert!(!license_granted(&received(200, "{}")));
}

#[test]
fn license_refused_when_unreachable() {
    assert!(!license_granted(&LicenseResponse::Unreachable));
}

#[test]
fn license_holds_for_any_2xx_and_any_key_value() {
    assert!(license_granted(&received(204, r#"{"gameKey": null}"#)));
    assert!(license_granted(&received(299, r#"{"other": 1, "gameKey": 7}"#)));
    assert!(!license_granted(&received(300, r#"{"gameKey": 7}"#)));
    assert!(!license_granted(&received(199, r#"{"gameKey": 7}"#)));
}

#[test]
fn license_refused_for_bodies_without_the_field() {
    assert!(!license_granted(&received(200, "")));
    assert!(!license_granted(&received(200, "not json")));
    assert!(!license_granted(&received(200, r#"["gameKey"]"#)));
    assert!(!license_granted(&received(200, r#""gameKey""#)));
    assert!(!license_granted(&received(200, r#"{"gamekey": 1}"#)));
    assert!(!license_granted(&received(200, r#"{"data": {"gameKey": 1}}"#)));
}

#[test]
fn game_key_lookup_reads_the_object() {
    assert_eq!(game_key_in(&br#"{"gameKey": "x"}"#.to_vec()), Some(true));
    assert_eq!(game_key_in(&br#"{"user": 1}"#.to_vec()), Some(false));
    assert_eq!(game_key_in(&b"{}".to_vec()), Some(false));
    assert_eq!(game_key_in(&b"[1, 2]".to_vec()), None);
    assert_eq!(game_key_in(&b"{\"gameKey\": 1".to_vec()), None);
    assert_eq!(game_key_in(&Vec::new()), None);
}

#[test]
fn decision_table() {
    assert!(license_decision(200, Some(true)));
    assert!(license_decision(250, Some(true)));
    assert!(!license_decision(200, Some(false)));
    assert!(!license_decision(200, None));
    assert!(!license_decision(404, Some(true)));
    assert!(!license_decision(500, None));
}

#[test]
fn url_for_ids() {
    assert_eq!(license_url(1, 1), "http://localhost:3000/api/games/library/verify/1/1");
    assert_eq!(license_url(0, 10), "http://localhost:3000/api/games/library/verify/0/10");
    assert_eq!(
        license_url(-42, 1234567890),
        "http://localhost:3000/api/games/library/verify/-42/1234567890"
    );
    assert_eq!(
        license_url(i32::MIN, i32::MAX),
        "http://localhost:3000/api/games/library/verify/-2147483648/2147483647"
    );
}
