//! What requests ask for and how they are answered.

use h2core::api::{ask_of, is_blank, status_code, Ask, Outcome, Verb};

#[test]
fn requests_are_routed() {
    assert!(matches!(ask_of(Verb::Get, "/health"), Ask::Health));
    assert!(matches!(ask_of(Verb::Get, "/health?x=1?y"), Ask::Health));
    assert!(matches!(ask_of(Verb::Get, "/connections"), Ask::Connections));
    assert!(matches!(ask_of(Verb::Get, "/"), Ask::Index));
    assert!(matches!(ask_of(Verb::Post, "/captures"), Ask::Start));
    assert!(matches!(ask_of(Verb::Delete, "/captures"), Ask::StopAny));
    assert!(matches!(ask_of(Verb::Delete, "/captures/c1"), Ask::Stop(id) if id == "c1"));
    assert!(matches!(ask_of(Verb::Delete, "/captures/"), Ask::Stop(id) if id.is_empty()));
}

#[test]
fn anything_else_is_not_there() {
    for (v, url) in [
        (Verb::Get, "/captures"),
        (Verb::Get, "/healthy"),
        (Verb::Get, ""),
        (Verb::Post, "/"),
        (Verb::Delete, "/health"),
        (Verb::Delete, "/capture"),
        (Verb::Other, "/health"),
    ] {
        assert!(matches!(ask_of(v, url), Ask::Nothing), "{v:?} {url}");
    }
}

#[test]
fn a_blank_body_is_white_space_only() {
    assert!(is_blank(""));
    assert!(is_blank(" \t\r\n\u{a0}"));
    assert!(!is_blank(" {} "));
}

#[test]
fn outcomes_have_status_codes() {
    assert_eq!(status_code(Outcome::Done), 200);
    assert_eq!(status_code(Outcome::BadBody), 400);
    assert_eq!(status_code(Outcome::NotFound), 404);
    assert_eq!(status_code(Outcome::Refused), 409);
    assert_eq!(status_code(Outcome::Gone), 503);
    assert_eq!(status_code(Outcome::Late), 504);
}
