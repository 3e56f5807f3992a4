use rtrtr::payload::{PackBuilder, PayloadSet, Update};
use rtrtr::rtr::{Payload, Prefix, RouteOrigin};
use rtrtr::http::{route, Route};
use rtrtr::targets::http::{respond, SourceData, TargetResponse};
use rtrtr::targets::rtr::State;
use rtrtr::units::json::{file_modified, parse_etag, parse_last_modified};
use rtrtr::utils::http::{format_http_date, parse_http_date, EtagsIter};
use rtrtr::utils::time::Timestamp;

fn update() -> Update {
    let mut pack = PackBuilder::empty();
    pack.insert_unchecked(Payload::Origin(
        RouteOrigin::new(Prefix::new_v4(0x0a00_0000, 8).unwrap(), None, 64496).unwrap(),
    ));
    Update::new(0, PayloadSet::from_pack(pack.finalize()), None)
}

fn data(created: Timestamp) -> SourceData {
    let mut state = State::from_parts(0x1f, 5);
    SourceData::new(&update(), &mut state, created)
}

fn values(items: &[Option<&str>]) -> Vec<Option<String>> {
    items.iter().map(|v| v.map(String::from)).collect()
}

#[test]
fn etag_from_state() {
    let mut state = State::from_parts(0xbeef, 12);
    let data = SourceData::new(&update(), &mut state, Timestamp { secs: 1, nanos: 2 });
    assert_eq!(data.etag(), "\"beef-12\"");
    assert_eq!(state, State::from_parts(0xbeef, 13));
    assert_eq!(data.set().len(), 1);
    assert_eq!(data.created(), Timestamp { secs: 1, nanos: 2 });

    let mut state = State::from_parts(0, u32::MAX);
    let data = SourceData::new(&update(), &mut state, Timestamp { secs: 1, nanos: 2 });
    assert_eq!(data.etag(), "\"0-4294967295\"");
    assert_eq!(state.serial, 0);
}

#[test]
fn not_modified_by_etag() {
    let data = data(Timestamp { secs: 100, nanos: 0 });
    assert!(data.is_not_modified(&values(&[Some("\"1f-5\"")]), None));
    assert!(data.is_not_modified(&values(&[Some(" W/\"x\", \"1f-5\" ")]), None));
    assert!(data.is_not_modified(&values(&[Some("\"a\""), Some("\"b\",\"1f-5\"")]), None));
    assert!(data.is_not_modified(&values(&[Some("*")]), None));
    assert!(data.is_not_modified(&values(&[Some("  *\t")]), None));
    assert!(data.is_not_modified(&values(&[None, Some("\"1f-5\"")]), None));
    assert!(!data.is_not_modified(&values(&[Some("\"1f-6\"")]), None));
    assert!(!data.is_not_modified(&values(&[Some("\"1f-5")]), None));
    // Garbage stops the tags.
    assert!(!data.is_not_modified(&values(&[Some("x, \"1f-5\"")]), None));
    // If-None-Match present: If-Modified-Since is ignored.
    assert!(!data.is_not_modified(&values(&[Some("\"other\"")]), Some(Some("Thu, 01 Jan 1970 00:03:20 GMT"))));
    assert!(!data.is_not_modified(&values(&[None]), Some(Some("Thu, 01 Jan 1970 00:03:20 GMT"))));
}

#[test]
fn not_modified_by_date() {
    let data = data(Timestamp { secs: 100, nanos: 0 });
    assert!(data.is_not_modified(&values(&[]), Some(Some("Thu, 01 Jan 1970 00:01:40 GMT"))));
    assert!(data.is_not_modified(&values(&[]), Some(Some("Thursday, 01-Jan-70 00:01:41 GMT"))));
    assert!(!data.is_not_modified(&values(&[]), Some(Some("Thu Jan  1 00:01:39 1970"))));
    assert!(!data.is_not_modified(&values(&[]), Some(None)));
    assert!(!data.is_not_modified(&values(&[]), Some(Some("yesterday"))));
    assert!(!data.is_not_modified(&values(&[]), None));

    let data = data_with_nanos();
    assert!(!data.is_not_modified(&values(&[]), Some(Some("Thu, 01 Jan 1970 00:01:40 GMT"))));
    assert!(data.is_not_modified(&values(&[]), Some(Some("Thursday, 01-Jan-70 00:01:41 GMT"))));
}

fn data_with_nanos() -> SourceData {
    data(Timestamp { secs: 100, nanos: 5 })
}

#[test]
fn etags_iter_tags() {
    let mut iter = EtagsIter::new(" \"a\" , W/\"b c\",\"\" x");
    assert_eq!(iter.next(), Some("\"a\""));
    assert_eq!(iter.next(), Some("W/\"b c\""));
    assert_eq!(iter.next(), Some("\"\""));
    assert_eq!(iter.next(), None);
}

fn bytes(items: &[&str]) -> Vec<Vec<u8>> {
    items.iter().map(|v| v.as_bytes().to_vec()).collect()
}

#[test]
fn response_etag() {
    assert_eq!(parse_etag(&bytes(&["\"abc\""])), Some(b"\"abc\"".to_vec()));
    assert_eq!(parse_etag(&bytes(&["W/\"abc\""])), Some(b"W/\"abc\"".to_vec()));
    assert_eq!(parse_etag(&bytes(&["\"\""])), Some(b"\"\"".to_vec()));
    assert_eq!(parse_etag(&bytes(&["W/\"\""])), Some(b"W/\"\"".to_vec()));
    assert_eq!(parse_etag(&bytes(&["\""])), None);
    assert_eq!(parse_etag(&bytes(&["W/\""])), None);
    assert_eq!(parse_etag(&bytes(&["w/\"a\""])), None);
    assert_eq!(parse_etag(&bytes(&["abc"])), None);
    assert_eq!(parse_etag(&bytes(&["\"abc"])), None);
    assert_eq!(parse_etag(&bytes(&[])), None);
    assert_eq!(parse_etag(&bytes(&["\"a\"", "\"b\""])), None);
}

#[test]
fn response_last_modified() {
    let date = || Some(String::from("Sun, 06 Nov 1994 08:49:37 GMT"));
    assert_eq!(parse_last_modified(&vec![date()]), Some(784111777));
    assert_eq!(parse_last_modified(&vec![None]), None);
    assert_eq!(parse_last_modified(&vec![Some(String::from("no date"))]), None);
    assert_eq!(parse_last_modified(&vec![]), None);
    assert_eq!(parse_last_modified(&vec![date(), date()]), None);
}

#[test]
fn file_modification() {
    let t = |secs, nanos| Timestamp { secs, nanos };
    assert!(file_modified(None, None));
    assert!(file_modified(Some(t(1, 0)), None));
    assert!(file_modified(None, Some(t(1, 0))));
    assert!(!file_modified(Some(t(1, 0)), Some(t(1, 0))));
    assert!(!file_modified(Some(t(1, 0)), Some(t(2, 0))));
    assert!(file_modified(Some(t(1, 5)), Some(t(1, 4))));
    assert!(file_modified(Some(t(2, 0)), Some(t(1, 999))));
}

#[test]
fn server_routes() {
    assert_eq!(route(false, "/metrics"), Route::MethodNotAllowed);
    assert_eq!(route(true, "/metrics"), Route::Metrics);
    assert_eq!(route(true, "/status"), Route::Status);
    assert_eq!(route(true, "/status/"), Route::Resources);
    assert_eq!(route(true, "/json"), Route::Resources);
    assert_eq!(route(true, ""), Route::Resources);
}

#[test]
fn target_responses() {
    let data = data(Timestamp { secs: 100, nanos: 0 });
    let none = values(&[]);
    assert_eq!(respond("/json", false, "/json", Some(&data), &none, None), None);
    assert_eq!(respond("/json", true, "/other", Some(&data), &none, None), None);
    assert_eq!(
        respond("/json", true, "/json", None, &none, None),
        Some(TargetResponse::Unavailable)
    );
    assert_eq!(
        respond("/json", true, "/json", Some(&data), &none, None),
        Some(TargetResponse::Full)
    );
    assert_eq!(
        respond("/json", true, "/json", Some(&data), &values(&[Some("\"1f-5\"")]), None),
        Some(TargetResponse::NotModified)
    );
    assert_eq!(
        respond("/json", true, "/json", Some(&data), &none, Some(Some("Thu, 01 Jan 1970 00:01:40 GMT"))),
        Some(TargetResponse::NotModified)
    );
}

#[test]
fn http_dates_are_parsed() {
    assert_eq!(parse_http_date("Sun, 06 Nov 1994 08:49:37 GMT"), Some(784111777));
    assert_eq!(parse_http_date("  Sun ,  06 Nov 1994 08:49:37 GMT  "), Some(784111777));
    assert_eq!(parse_http_date("Sunday, 06-Nov-94 08:49:37 GMT"), Some(784111777));
    assert_eq!(parse_http_date("Sun Nov  6 08:49:37 1994"), Some(784111777));
    assert_eq!(parse_http_date("Thu, 01 Jan 1970 00:00:00 GMT"), Some(0));
    // A wrong weekday gives no date.
    assert_eq!(parse_http_date("Mon, 06 Nov 1994 08:49:37 GMT"), None);
    assert_eq!(parse_http_date("Sun, 06 Nov 1994 08:49:37"), None);
    assert_eq!(parse_http_date("1994-11-06T08:49:37Z"), None);
    assert_eq!(parse_http_date(""), None);
}

#[test]
fn http_dates_are_written() {
    let date = format_http_date(Timestamp { secs: 784111777, nanos: 0 }).unwrap();
    assert_eq!(date, "Sun, 06 Nov 1994 08:49:37 GMT");
    assert_eq!(parse_http_date(&date), Some(784111777));
    assert_eq!(
        format_http_date(Timestamp { secs: 0, nanos: 500 }).as_deref(),
        Some("Thu, 01 Jan 1970 00:00:00 GMT")
    );
    assert_eq!(format_http_date(Timestamp { secs: i64::MAX, nanos: 0 }), None);
}
