use which_nightly::calendar::{calendar_url, read_response, FetchError, Response};
use which_nightly::date::Date;
use which_nightly::resolve::{calendar_urls, latest_common_date, latest_common_nightly, ResolveError};

fn dates(texts: &[&str]) -> Vec<Date> {
    texts.iter().map(|t| Date::parse(t).unwrap()).collect()
}

fn ok(body: &str) -> Response {
    Response::Received { status: 200, body: body.to_string() }
}

#[test]
fn latest_date_shared_by_both() {
    let urls = calendar_urls(&vec!["a".to_string(), "b".to_string()], "t").unwrap();
    let fetched = vec![
        read_response(&urls[0], ok(r#"{"2024-01-01": true, "2024-01-02": true}"#)),
        read_response(&urls[1], ok(r#"{"2024-01-01": true, "2024-01-02": false}"#)),
    ];
    let d = latest_common_nightly(fetched).unwrap();
    assert_eq!(d.as_str(), "2024-01-01");
}

#[test]
fn disjoint_calendars_have_no_common_date() {
    let urls = calendar_urls(&vec!["a".to_string(), "b".to_string()], "t").unwrap();
    let fetched = vec![
        read_response(&urls[0], ok(r#"{"2024-01-05": true}"#)),
        read_response(&urls[1], ok(r#"{"2024-01-01": true}"#)),
    ];
    assert!(matches!(latest_common_nightly(fetched), Err(ResolveError::NoCommonDate)));
}

#[test]
fn no_components_is_refused_before_fetching() {
    assert!(matches!(calendar_urls(&Vec::new(), "t"), Err(ResolveError::NoComponents)));
    assert!(matches!(latest_common_nightly(Vec::new()), Err(ResolveError::NoComponents)));
}

#[test]
fn one_address_per_component_in_order() {
    let comps = vec!["clippy".to_string(), "miri".to_string(), "clippy".to_string()];
    let urls = calendar_urls(&comps, "aarch64-apple-darwin").unwrap();
    assert_eq!(urls.len(), 3);
    assert_eq!(urls[0], calendar_url("aarch64-apple-darwin", "clippy"));
    assert_eq!(urls[1], calendar_url("aarch64-apple-darwin", "miri"));
    assert_eq!(urls[2], urls[0]);
}

#[test]
fn failing_status_fails_the_resolution() {
    let urls = calendar_urls(&vec!["a".to_string(), "b".to_string()], "t").unwrap();
    let fetched = vec![
        read_response(&urls[0], ok(r#"{"2024-01-01": true}"#)),
        read_response(&urls[1], Response::Received { status: 503, body: String::new() }),
    ];
    match latest_common_nightly(fetched) {
        Err(ResolveError::Fetch(FetchError::Remote { url, status })) => {
            assert_eq!(url, calendar_url("t", "b"));
            assert_eq!(status, 503);
        }
        other => panic!("unexpected {:?}", other),
    }
}

#[test]
fn first_failure_by_position_is_reported() {
    let fetched = vec![
        Ok(dates(&["2024-01-01"])),
        Err(FetchError::Decode { url: "first".to_string() }),
        Err(FetchError::Remote { url: "second".to_string(), status: 500 }),
    ];
    match latest_common_nightly(fetched) {
        Err(ResolveError::Fetch(FetchError::Decode { url })) => assert_eq!(url, "first"),
        other => panic!("unexpected {:?}", other),
    }
}

#[test]
fn single_component_gives_its_latest_date() {
    let sets = vec![dates(&["2024-01-03", "2024-02-01", "2023-12-30"])];
    assert_eq!(latest_common_date(&sets).unwrap().as_str(), "2024-02-01");
    let fetched = vec![Ok(dates(&["2021-05-05", "2022-01-01"]))];
    assert_eq!(latest_common_nightly(fetched).unwrap().as_str(), "2022-01-01");
}

#[test]
fn empty_component_leaves_no_common_date() {
    let sets = vec![dates(&["2024-01-01", "2024-01-02"]), Vec::new()];
    assert!(latest_common_date(&sets).is_none());
    let fetched = vec![Ok(Vec::new()), Ok(dates(&["2024-01-01"]))];
    assert!(matches!(latest_common_nightly(fetched), Err(ResolveError::NoCommonDate)));
}

#[test]
fn latest_of_the_intersection_is_chosen() {
    let sets = vec![
        dates(&["2024-01-01", "2024-03-01", "2024-02-01", "2024-04-01"]),
        dates(&["2024-04-01", "2024-02-01", "2024-01-01"]),
        dates(&["2024-02-01", "2024-01-01", "2024-03-01"]),
    ];
    assert_eq!(latest_common_date(&sets).unwrap().as_str(), "2024-02-01");
}

#[test]
fn duplicate_components_change_nothing() {
    let a = ["2024-01-01", "2024-01-09", "2024-01-05"];
    let b = ["2024-01-05", "2024-01-01"];
    let once = vec![dates(&a), dates(&b)];
    let twice = vec![dates(&a), dates(&b), dates(&a), dates(&b), dates(&b)];
    assert_eq!(latest_common_date(&once).unwrap().as_str(), "2024-01-05");
    assert_eq!(latest_common_date(&twice).unwrap().as_str(), "2024-01-05");
}

#[test]
fn no_sets_give_no_date() {
    assert!(latest_common_date(&Vec::new()).is_none());
}
