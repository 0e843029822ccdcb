use wow_tools::client::http::{body_of, classify, range_body, range_header, retry_delay, Attempt, StatusClass};

#[test]
fn statuses_are_classified() {
    assert_eq!(classify(200), StatusClass::Body);
    assert_eq!(classify(206), StatusClass::Body);
    for s in [403, 404, 410] {
        assert_eq!(classify(s), StatusClass::NotFound);
    }
    for s in [429, 500, 503, 599] {
        assert_eq!(classify(s), StatusClass::Retry);
    }
    for s in [301, 400, 418, 600] {
        assert_eq!(classify(s), StatusClass::Fatal);
    }
}

#[test]
fn backoff_doubles_then_gives_up() {
    let delays: Vec<Option<u64>> = (1..=5).map(retry_delay).collect();
    assert_eq!(delays, vec![Some(1), Some(2), Some(4), Some(8), None]);
}

#[test]
fn range_requests() {
    assert_eq!(range_header(10, 19), "bytes=10-19");
    let ok = Attempt::Body { status: 206, content_range: Some("bytes 10-13/100".to_owned()), body: vec![1, 2, 3, 4] };
    assert_eq!(range_body("u", 10, 13, ok).unwrap(), vec![1, 2, 3, 4]);
    let no_header = Attempt::Body { status: 206, content_range: None, body: vec![1, 2] };
    assert_eq!(range_body("u", 0, 1, no_header).unwrap(), vec![1, 2]);
    let wrong = Attempt::Body { status: 206, content_range: Some("bytes 0-3/100".to_owned()), body: vec![1, 2, 3, 4] };
    assert_eq!(
        range_body("u", 10, 13, wrong).unwrap_err(),
        "u: unexpected Content-Range \"bytes 0-3/100\""
    );
    let short = Attempt::Body { status: 206, content_range: None, body: vec![1, 2, 3] };
    assert_eq!(range_body("u", 10, 13, short).unwrap_err(), "u: range returned 3 bytes, expected 4");
    let whole = Attempt::Body { status: 200, content_range: None, body: (0u8..20).collect() };
    assert_eq!(range_body("u", 10, 13, whole).unwrap(), vec![10, 11, 12, 13]);
    let too_short = Attempt::Body { status: 200, content_range: None, body: vec![0; 12] };
    assert_eq!(range_body("u", 10, 13, too_short).unwrap_err(), "u: file shorter than the requested range");
    assert_eq!(range_body("u", 0, 0, Attempt::NotFound(404)).unwrap_err(), "u: HTTP 404");
}

#[test]
fn bodies_and_missing_files() {
    assert_eq!(body_of(Attempt::Body { status: 200, content_range: None, body: vec![7] }), Some(vec![7]));
    assert_eq!(body_of(Attempt::NotFound(410)), None);
}
