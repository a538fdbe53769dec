use pr_timeline::BuildError;
use pr_timeline::cursor::PageCursor;
use pr_timeline::cursor::RawPage;

fn full_page(count: u64, token: &str) -> Option<RawPage> {
    Some(RawPage {
        record_count: Some(count),
        end_cursor: Some(token.to_owned()),
        has_next_page: Some(true),
    })
}

#[test]
fn total_of_250_issues_three_requests_with_limits_100_100_50() {
    let mut cursor = PageCursor::new(250);

    let first = cursor.next_request().expect("first page expected");
    assert_eq!(first.limit, 100);
    assert_eq!(first.cursor, None);
    cursor.advance(full_page(100, "c1")).expect("page accepted");

    let second = cursor.next_request().expect("second page expected");
    assert_eq!(second.limit, 100);
    assert_eq!(second.cursor, Some("c1".to_owned()));
    cursor.advance(full_page(100, "c2")).expect("page accepted");

    let third = cursor.next_request().expect("third page expected");
    assert_eq!(third.limit, 50);
    assert_eq!(third.cursor, Some("c2".to_owned()));
    cursor.advance(full_page(50, "c3")).expect("page accepted");

    assert!(cursor.next_request().is_none());
}

#[test]
fn target_of_zero_issues_no_request() {
    let cursor = PageCursor::new(0);
    assert!(cursor.next_request().is_none());
}

#[test]
fn limits_never_exceed_100_or_remaining_target() {
    let mut cursor = PageCursor::new(321);
    let mut granted: u64 = 0;
    loop {
        match cursor.next_request() {
            None => break,
            Some(req) => {
                assert!(req.limit <= 100);
                assert!(granted + req.limit <= 321);
                granted += req.limit;
                cursor.advance(full_page(req.limit, "tok")).expect("page accepted");
            },
        }
    }
    assert_eq!(granted, 321);
}

#[test]
fn stops_when_source_reports_no_further_page() {
    let mut cursor = PageCursor::new(500);
    let req = cursor.next_request().expect("first page expected");
    assert_eq!(req.limit, 100);
    cursor
        .advance(Some(RawPage {
            record_count: Some(40),
            end_cursor: None,
            has_next_page: Some(false),
        }))
        .expect("page accepted");
    assert!(cursor.next_request().is_none());
}

#[test]
fn missing_response_halts_with_fetch_failed() {
    let mut cursor = PageCursor::new(300);
    cursor.next_request().expect("first page expected");
    let err = cursor.advance(None).expect_err("failure expected");
    assert!(matches!(err, BuildError::FetchFailed));
    assert!(cursor.next_request().is_none());
}

#[test]
fn response_without_page_flag_halts_with_fetch_failed() {
    let mut cursor = PageCursor::new(300);
    cursor.next_request().expect("first page expected");
    let err = cursor
        .advance(Some(RawPage {
            record_count: Some(100),
            end_cursor: Some("c1".to_owned()),
            has_next_page: None,
        }))
        .expect_err("failure expected");
    assert!(matches!(err, BuildError::FetchFailed));
    assert!(cursor.next_request().is_none());
}

#[test]
fn response_without_records_halts_with_fetch_failed() {
    let mut cursor = PageCursor::new(300);
    cursor.next_request().expect("first page expected");
    let err = cursor
        .advance(Some(RawPage {
            record_count: None,
            end_cursor: Some("c1".to_owned()),
            has_next_page: Some(true),
        }))
        .expect_err("failure expected");
    assert!(matches!(err, BuildError::FetchFailed));
    assert!(cursor.next_request().is_none());
}
