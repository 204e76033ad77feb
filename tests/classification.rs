use lsp_inspector::classify::{classify, classify_fields, summarise_message, Classification};

#[test]
fn classify_request() {
    assert_eq!(
        classify("{\"id\": 1, \"method\": \"x\"}"),
        Classification::Request { id: "1".to_string(), method: "x".to_string() }
    );
}

#[test]
fn classify_response() {
    assert_eq!(classify("{\"id\": 1}"), Classification::Response { id: "1".to_string() });
}

#[test]
fn classify_notification() {
    assert_eq!(classify("{\"method\": \"x\"}"), Classification::Notification { method: "x".to_string() });
}

#[test]
fn classify_unknown() {
    assert_eq!(classify("{}"), Classification::Unknown);
    assert_eq!(classify("[1, 2]"), Classification::Unknown);
    assert_eq!(classify("42"), Classification::Unknown);
    assert_eq!(classify("not json"), Classification::Unknown);
    assert_eq!(classify(""), Classification::Unknown);
}

#[test]
fn classify_ignores_mistyped_fields() {
    assert_eq!(classify("{\"id\": \"a\", \"method\": 3}"), Classification::Unknown);
    assert_eq!(
        classify("{\"id\": 12, \"method\": 3}"),
        Classification::Response { id: "12".to_string() }
    );
}

#[test]
fn classify_fields_by_presence() {
    assert_eq!(
        classify_fields(Some("3".to_string()), Some("m".to_string())),
        Classification::Request { id: "3".to_string(), method: "m".to_string() }
    );
    assert_eq!(classify_fields(Some("3".to_string()), None), Classification::Response { id: "3".to_string() });
    assert_eq!(classify_fields(None, Some("m".to_string())), Classification::Notification { method: "m".to_string() });
    assert_eq!(classify_fields(None, None), Classification::Unknown);
}

#[test]
fn summaries() {
    assert_eq!(summarise_message("{\"id\": 1, \"method\": \"x\"}"), "Request\nid: 1\nmethod: x");
    assert_eq!(summarise_message("{\"id\": 1}"), "Response\nid: 1");
    assert_eq!(summarise_message("{\"method\": \"initialized\"}"), "Notification\nmethod: initialized");
    assert_eq!(summarise_message("{}"), "ERROR: Unknown message type");
    assert_eq!(summarise_message("garbage"), "ERROR: Unknown message type");
}
