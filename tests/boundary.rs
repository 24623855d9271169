use goker_ledger::error::ApiError;
use goker_ledger::pagination::{next_page, PageStep, MAX_ITEMS_PER_REQUEST};

#[test]
fn short_page_is_the_last() {
    assert_eq!(next_page(0, None), PageStep::Stop);
    assert_eq!(next_page(499, Some(1_000)), PageStep::Stop);
}

#[test]
fn full_page_continues_after_last_record() {
    assert_eq!(MAX_ITEMS_PER_REQUEST, 500);
    assert_eq!(next_page(500, Some(1_000)), PageStep::Next(1_001));
    assert_eq!(next_page(500, None), PageStep::Stop);
    assert_eq!(next_page(500, Some(i64::MAX)), PageStep::Stop);
}

#[test]
fn error_replies() {
    let r = ApiError::NotFound("no wallet".to_string()).reply();
    assert_eq!((r.status, r.message.as_str()), (404, "no wallet"));
    let r = ApiError::ValidationError("bad wallet".to_string()).reply();
    assert_eq!((r.status, r.message.as_str()), (400, "bad wallet"));
    let r = ApiError::ExternalApiError("upstream down".to_string()).reply();
    assert_eq!((r.status, r.message.as_str()), (502, "upstream down"));
    let r = ApiError::RequestError.reply();
    assert_eq!((r.status, r.message.as_str()), (502, "External request failed"));
    let r = ApiError::SerializationError.reply();
    assert_eq!((r.status, r.message.as_str()), (500, "Serialization error"));
    let r = ApiError::InternalError("oops".to_string()).reply();
    assert_eq!((r.status, r.message.as_str()), (500, "oops"));
}
