//! Feeding decoded event streams into the aggregation session.

use buildkite_test_collector::input::{Event, SuiteEvent, SuiteResults, TestEvent};
use buildkite_test_collector::payload::{Payload, TestResult};
use buildkite_test_collector::run_env::RuntimeEnvironment;

fn start_event(name: &str) -> Event {
    Event::Test { event: TestEvent::Started { name: name.to_string() } }
}

fn pass_event(name: &str, exec_time: u64) -> Event {
    Event::Test { event: TestEvent::Passed { name: name.to_string(), exec_time } }
}

fn fail_event(name: &str, exec_time: u64, stdout: Option<&str>, stderr: Option<&str>) -> Event {
    Event::Test {
        event: TestEvent::Failed {
            name: name.to_string(),
            exec_time,
            stdout: stdout.map(|s| s.to_string()),
            stderr: stderr.map(|s| s.to_string()),
        },
    }
}

fn nanos(secs: f64) -> u64 {
    (secs * 1e9).round() as u64
}

fn suite_results(v: &serde_json::Value) -> Option<SuiteResults> {
    Some(SuiteResults {
        passed: v.get("passed")?.as_u64()? as usize,
        failed: v.get("failed")?.as_u64()? as usize,
        ignored: v.get("ignored")?.as_u64()? as usize,
        measured: v.get("measured")?.as_u64()? as usize,
        filtered_out: v.get("filtered_out")?.as_u64()? as usize,
        exec_time: nanos(v.get("exec_time")?.as_f64()?),
    })
}

fn decode_event(line: &str) -> Option<Event> {
    let v: serde_json::Value = serde_json::from_str(line).ok()?;
    let typ = v.get("type")?.as_str()?.to_string();
    let ev = v.get("event")?.as_str()?.to_string();
    match (typ.as_str(), ev.as_str()) {
        ("suite", "started") => Some(Event::Suite {
            event: SuiteEvent::Started { test_count: v.get("test_count")?.as_u64()? as usize },
        }),
        ("suite", "ok") => {
            Some(Event::Suite { event: SuiteEvent::Passed { results: suite_results(&v)? } })
        }
        ("suite", "failed") => {
            Some(Event::Suite { event: SuiteEvent::Failed { results: suite_results(&v)? } })
        }
        ("test", "started") => Some(start_event(v.get("name")?.as_str()?)),
        ("test", "ok") => Some(pass_event(
            v.get("name")?.as_str()?,
            nanos(v.get("exec_time")?.as_f64()?),
        )),
        ("test", "failed") => Some(fail_event(
            v.get("name")?.as_str()?,
            nanos(v.get("exec_time")?.as_f64()?),
            v.get("stdout").and_then(|s| s.as_str()),
            v.get("stderr").and_then(|s| s.as_str()),
        )),
        ("test", "ignored") => Some(Event::Test {
            event: TestEvent::Ignored { name: v.get("name")?.as_str()?.to_string() },
        }),
        ("test", "timeout") => Some(Event::Test {
            event: TestEvent::Timeout { name: v.get("name")?.as_str()?.to_string() },
        }),
        _ => None,
    }
}

#[test]
fn single_test_stream_produces_one_complete_record() {
    let lines = [
        r#"{"type":"suite","event":"started","test_count":1}"#,
        r#"{"type":"test","event":"started","name":"mod::case"}"#,
        r#"{"type":"test","event":"ok","name":"mod::case","exec_time":0.01}"#,
        r#"{"type":"suite","event":"ok","passed":1,"failed":0,"ignored":0,"measured":0,"filtered_out":0,"exec_time":0.01}"#,
    ];
    let mut payload = Payload::new(RuntimeEnvironment::generic());
    let mut now: u64 = 0;
    for line in lines.iter() {
        if buildkite_test_collector::input::is_event_candidate(line) {
            if let Some(event) = decode_event(line) {
                payload.push(event, now);
            }
        }
        now += 1_000_000;
    }
    assert_eq!(payload.records().len(), 1);
    let closed = payload.closed_data();
    assert_eq!(closed.len(), 1);
    let td = &closed[0];
    assert!(td.is_finished());
    assert_eq!(td.scope().as_str(), "mod");
    assert_eq!(td.name().as_str(), "case");
    assert!(matches!(td.result(), TestResult::Passed));
    assert_eq!(td.history().duration(), Some(10_000_000));
}

#[test]
fn failed_event_keeps_stdout_and_discards_stderr() {
    let mut payload = Payload::new(RuntimeEnvironment::generic());
    payload.push(start_event("t::x"), 10);
    payload.push(fail_event("t::x", nanos(0.5), Some("panic"), Some("other noise")), 20);
    let closed = payload.closed_data();
    assert_eq!(closed.len(), 1);
    match closed[0].result() {
        TestResult::Failed { failure_reason } => {
            assert_eq!(failure_reason.as_deref(), Some("panic"));
        }
        TestResult::Passed => panic!("expected a failed outcome"),
    }
    assert_eq!(closed[0].history().duration(), Some(nanos(0.5)));
}

#[test]
fn ignored_and_timeout_never_complete_a_record() {
    let mut payload = Payload::new(RuntimeEnvironment::generic());
    payload.push(start_event("a"), 0);
    payload.push(
        Event::Test { event: TestEvent::Ignored { name: "a".to_string() } },
        1,
    );
    assert_eq!(payload.closed_data().len(), 0);
    payload.push(
        Event::Test { event: TestEvent::Timeout { name: "a".to_string() } },
        2,
    );
    assert_eq!(payload.closed_data().len(), 0);
    payload.push(pass_event("a", 7), 3);
    assert_eq!(payload.closed_data().len(), 1);
}

#[test]
fn terminal_event_without_start_is_dropped() {
    let mut payload = Payload::new(RuntimeEnvironment::generic());
    payload.push(pass_event("never::started", 7), 0);
    payload.push(fail_event("nor::this", 7, None, None), 1);
    assert_eq!(payload.records().len(), 0);
    assert_eq!(payload.closed_data().len(), 0);
}

#[test]
fn records_get_fresh_ids_and_decomposed_names() {
    let mut payload = Payload::new(RuntimeEnvironment::generic());
    payload.push(start_event("alpha::beta::gamma"), 0);
    payload.push(start_event("solo"), 1);
    let records = payload.records();
    assert_eq!(records.len(), 2);
    assert_eq!(records[0].0.as_str(), "alpha::beta::gamma");
    assert_eq!(records[0].1.scope().as_str(), "alpha::beta");
    assert_eq!(records[0].1.name().as_str(), "gamma");
    assert_eq!(records[1].0.as_str(), "solo");
    assert_eq!(records[1].1.scope().as_str(), "");
    assert_eq!(records[1].1.name().as_str(), "solo");
    assert_eq!(records[0].1.id().len(), 36);
    assert_eq!(records[1].1.id().len(), 36);
    assert_ne!(records[0].1.id(), records[1].1.id());
}

#[test]
fn start_offsets_are_relative_to_suite_start() {
    let lines = [
        r#"{"type":"suite","event":"started","test_count":1}"#,
        r#"{"type":"test","event":"started","name":"m::t"}"#,
    ];
    let mut payload = Payload::new(RuntimeEnvironment::generic());
    let mut now: u64 = 5_000;
    for line in lines.iter() {
        if let Some(event) = decode_event(line) {
            payload.push(event, now);
        }
        now += 1_000;
    }
    assert_eq!(payload.started_at(), Some(5_000));
    assert_eq!(payload.records()[0].1.history().start_at(), Some(1_000));
    assert_eq!(payload.records()[0].1.history().end_at(), None);
}

#[test]
fn restarting_a_test_reopens_a_single_record() {
    let mut payload = Payload::new(RuntimeEnvironment::generic());
    payload.push(start_event("m::t"), 0);
    payload.push(pass_event("m::t", 5), 1);
    assert_eq!(payload.closed_data().len(), 1);
    let first_id = payload.records()[0].1.id().clone();

    // A later start for the same name re-opens the record: still one
    // record under that name, incomplete again, with a fresh identity.
    payload.push(start_event("m::t"), 2);
    assert_eq!(payload.records().len(), 1);
    assert_eq!(payload.closed_data().len(), 0);
    assert_ne!(payload.records()[0].1.id(), &first_id);

    payload.push(pass_event("m::t", 9), 3);
    assert_eq!(payload.closed_data().len(), 1);
    assert_eq!(payload.closed_data()[0].history().duration(), Some(9));
}
