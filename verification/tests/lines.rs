//! The input-line gate, the decode-failure policy and name decomposition.

use buildkite_test_collector::input::{
    classify_line, is_event_candidate, DecodeMode, Event, LineAction, TestEvent,
};
use buildkite_test_collector::names::split_name;

#[test]
fn candidate_lines_start_with_a_brace() {
    assert!(is_event_candidate("{\"type\":\"suite\"}"));
    assert!(is_event_candidate("   {\"a\":1}"));
    assert!(is_event_candidate("\t\t{"));
    assert!(!is_event_candidate("running 6 tests"));
    assert!(!is_event_candidate(""));
    assert!(!is_event_candidate("   "));
    assert!(!is_event_candidate("x {"));
}

#[test]
fn strict_mode_is_the_default() {
    assert!(matches!(DecodeMode::default(), DecodeMode::Strict));
}

#[test]
fn non_candidate_lines_are_skipped() {
    assert!(matches!(
        classify_line(false, None, DecodeMode::Strict),
        LineAction::Skip
    ));
    assert!(matches!(
        classify_line(false, None, DecodeMode::Permissive),
        LineAction::Skip
    ));
}

#[test]
fn decoded_events_are_applied() {
    let event = Event::Test { event: TestEvent::Started { name: "m::t".to_string() } };
    match classify_line(true, Some(event), DecodeMode::Strict) {
        LineAction::Apply(Event::Test { event: TestEvent::Started { name } }) => {
            assert_eq!(name.as_str(), "m::t");
        }
        _ => panic!("expected the decoded event to be applied"),
    }
}

#[test]
fn malformed_candidates_follow_the_mode() {
    assert!(matches!(
        classify_line(true, None, DecodeMode::Strict),
        LineAction::Error
    ));
    assert!(matches!(
        classify_line(true, None, DecodeMode::Permissive),
        LineAction::Skip
    ));
}

#[test]
fn split_name_decomposes_on_the_final_separator() {
    assert_eq!(split_name("case"), ("".to_string(), "case".to_string()));
    assert_eq!(split_name("mod::case"), ("mod".to_string(), "case".to_string()));
    assert_eq!(split_name("a::b::c"), ("a::b".to_string(), "c".to_string()));
    assert_eq!(split_name("::x"), ("".to_string(), "x".to_string()));
    assert_eq!(split_name("x::"), ("x".to_string(), "".to_string()));
    assert_eq!(split_name(""), ("".to_string(), "".to_string()));
}

#[test]
fn split_name_scans_separators_left_to_right() {
    // The scan does not overlap: in `a:::b` the separator is the first
    // colon pair, and the leftover colon stays with the leaf.
    assert_eq!(split_name("a:::b"), ("a".to_string(), ":b".to_string()));
    assert_eq!(split_name(":::"), ("".to_string(), ":".to_string()));
    assert_eq!(split_name("::::"), ("::".to_string(), "".to_string()));
}
