use which_nightly::calendar::{available_dates, calendar_dates, calendar_url, read_response, FetchError, Response};
use which_nightly::date::{is_date, nightly_toolchain, Date};

fn texts(dates: &[Date]) -> Vec<String> {
    dates.iter().map(|d| d.as_str().to_string()).collect()
}

#[test]
fn well_formed_dates_are_accepted() {
    assert!(is_date("2024-01-01"));
    assert!(is_date("0000-00-00"));
    assert!(is_date("1999-12-31"));
}

#[test]
fn malformed_dates_are_rejected() {
    assert!(!is_date(""));
    assert!(!is_date("2024-1-01"));
    assert!(!is_date("2024-01-011"));
    assert!(!is_date("2024/01/01"));
    assert!(!is_date("20240-1-01"));
    assert!(!is_date("----------"));
    assert!(!is_date("abcd-ef-gh"));
    assert!(!is_date("2024-01-0\u{e9}"));
    assert!(!is_date("latest"));
}

#[test]
fn date_parse_keeps_text() {
    let d = Date::parse("2023-11-05").unwrap();
    assert_eq!(d.as_str(), "2023-11-05");
    assert!(Date::parse("2023-11-5").is_none());
}

#[test]
fn date_order_is_chronological() {
    let a = Date::parse("2024-01-02").unwrap();
    let b = Date::parse("2024-01-01").unwrap();
    let c = Date::parse("2023-12-31").unwrap();
    assert!(a.is_later_than(&b));
    assert!(!b.is_later_than(&a));
    assert!(b.is_later_than(&c));
    assert!(a.is_later_than(&c));
    assert!(!a.is_later_than(&a.clone()));
    assert!(a == a.clone());
    assert!(a != b);
}

#[test]
fn toolchain_name_of_a_date() {
    let d = Date::parse("2024-03-09").unwrap();
    assert_eq!(nightly_toolchain(&d), "nightly-2024-03-09");
}

#[test]
fn address_of_a_calendar() {
    assert_eq!(
        calendar_url("x86_64-unknown-linux-gnu", "miri"),
        "https://rust-lang.github.io/rustup-components-history/x86_64-unknown-linux-gnu/miri.json"
    );
}

#[test]
fn available_dates_keep_only_true_dates() {
    let entries = vec![
        ("2024-01-01".to_string(), Some(true)),
        ("2024-01-02".to_string(), Some(false)),
        ("2024-01-03".to_string(), None),
        ("bogus".to_string(), Some(true)),
        ("2024-01-04".to_string(), Some(true)),
    ];
    assert_eq!(texts(&available_dates(&entries)), vec!["2024-01-01", "2024-01-04"]);
}

#[test]
fn available_dates_of_empty_calendar() {
    assert!(available_dates(&Vec::new()).is_empty());
}

#[test]
fn non_true_values_are_unavailable() {
    let body = r#"{"2024-01-01": true, "2024-01-02": false, "2024-01-03": "true", "2024-01-04": 1, "2024-01-05": null, "2024-01-06": [true]}"#;
    let dates = calendar_dates(body).unwrap();
    assert_eq!(texts(&dates), vec!["2024-01-01"]);
}

#[test]
fn malformed_keys_are_dropped() {
    let body = r#"{"2024-01-01": true, "2024-1-2": true, "yesterday": true, "2024-01-031": true}"#;
    let dates = calendar_dates(body).unwrap();
    assert_eq!(texts(&dates), vec!["2024-01-01"]);
}

#[test]
fn empty_calendar_has_no_dates() {
    assert!(calendar_dates("{}").unwrap().is_empty());
}

#[test]
fn calendar_that_is_not_an_object_is_refused() {
    assert!(calendar_dates("[true]").is_none());
    assert!(calendar_dates("not json").is_none());
    assert!(calendar_dates("").is_none());
}

#[test]
fn unreachable_server_is_a_transport_error() {
    let r = read_response("http://a/b.json", Response::Unreachable { message: "timed out".to_string() });
    match r {
        Err(FetchError::Transport { url, message }) => {
            assert_eq!(url, "http://a/b.json");
            assert_eq!(message, "timed out");
        }
        other => panic!("unexpected {:?}", other),
    }
}

#[test]
fn failing_status_is_a_remote_error() {
    let r = read_response(
        "http://a/b.json",
        Response::Received { status: 404, body: "{\"2024-01-01\": true}".to_string() },
    );
    match r {
        Err(FetchError::Remote { url, status }) => {
            assert_eq!(url, "http://a/b.json");
            assert_eq!(status, 404);
        }
        other => panic!("unexpected {:?}", other),
    }
}

#[test]
fn unreadable_body_is_a_decode_error() {
    let r = read_response("http://a/b.json", Response::Received { status: 200, body: "<html>".to_string() });
    match r {
        Err(FetchError::Decode { url }) => assert_eq!(url, "http://a/b.json"),
        other => panic!("unexpected {:?}", other),
    }
}

#[test]
fn successful_response_gives_its_dates() {
    let r = read_response(
        "http://a/b.json",
        Response::Received { status: 200, body: "{\"2024-01-01\": true, \"2024-01-02\": false}".to_string() },
    );
    assert_eq!(texts(&r.unwrap()), vec!["2024-01-01"]);
}
