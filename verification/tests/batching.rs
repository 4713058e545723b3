//! Splitting a session into size-bounded upload batches.

use buildkite_test_collector::input::{Event, TestEvent};
use buildkite_test_collector::payload::{Payload, TestData};
use buildkite_test_collector::run_env::RuntimeEnvironment;

fn push_started(payload: &mut Payload, name: &str, now: u64) {
    payload.push(
        Event::Test { event: TestEvent::Started { name: name.to_string() } },
        now,
    );
}

fn push_passed(payload: &mut Payload, name: &str, now: u64) {
    payload.push(
        Event::Test { event: TestEvent::Passed { name: name.to_string(), exec_time: 42 } },
        now,
    );
}

fn push_complete(payload: &mut Payload, name: &str, now: u64) {
    push_started(payload, name, now);
    push_passed(payload, name, now + 1);
}

#[test]
fn batchify_works_as_expected() {
    let mut payload = Payload::new(RuntimeEnvironment::generic());

    let batch_size: usize = rand::random_range(10..100);
    let finished_size = (batch_size as f32 * 1.5) as usize;
    let unfinished_size = (batch_size as f32 * 0.25) as usize;

    let mut now: u64 = 0;
    for _ in 0..finished_size {
        let name = uuid::Uuid::new_v4().to_string();
        push_complete(&mut payload, &name, now);
        now += 10;
    }
    for _ in 0..unfinished_size {
        let name = uuid::Uuid::new_v4().to_string();
        push_started(&mut payload, &name, now);
        now += 10;
    }

    let payloads = payload.batchify(batch_size);

    assert_eq!(payloads.len(), 2);
    assert_eq!(payloads[0].records().len(), batch_size);

    for (_name, td) in payloads[0].records().iter() {
        assert!(td.is_finished());
    }

    assert_eq!(
        payloads[1].records().len(),
        finished_size + unfinished_size - batch_size
    );

    let (finished, unfinished): (Vec<&(String, TestData)>, Vec<&(String, TestData)>) =
        payloads[1].records().iter().partition(|(_name, td)| td.is_finished());

    assert_eq!(finished.len(), finished_size - batch_size);
    assert_eq!(unfinished.len(), unfinished_size);
}

#[test]
fn underfull_final_chunk_carries_the_incomplete_records() {
    let mut payload = Payload::new(RuntimeEnvironment::generic());
    push_complete(&mut payload, "A", 0);
    push_complete(&mut payload, "B", 10);
    push_complete(&mut payload, "C", 20);
    push_started(&mut payload, "D", 30);

    let batches = payload.batchify(2);

    assert_eq!(batches.len(), 2);
    let first: Vec<&str> = batches[0].records().iter().map(|e| e.0.as_str()).collect();
    assert_eq!(first, vec!["A", "B"]);
    for (_name, td) in batches[0].records().iter() {
        assert!(td.is_finished());
    }
    let second: Vec<&str> = batches[1].records().iter().map(|e| e.0.as_str()).collect();
    assert_eq!(second, vec!["C", "D"]);
    assert!(batches[1].records()[0].1.is_finished());
    assert!(!batches[1].records()[1].1.is_finished());
}

#[test]
fn no_batch_without_a_complete_record() {
    let mut payload = Payload::new(RuntimeEnvironment::generic());
    push_started(&mut payload, "only::incomplete", 0);
    let batches = payload.batchify(2);
    assert_eq!(batches.len(), 0);
}

#[test]
fn full_chunks_leave_incomplete_records_behind() {
    let mut payload = Payload::new(RuntimeEnvironment::generic());
    push_complete(&mut payload, "A", 0);
    push_complete(&mut payload, "B", 10);
    push_complete(&mut payload, "C", 20);
    push_complete(&mut payload, "D", 30);
    push_started(&mut payload, "E", 40);
    push_started(&mut payload, "F", 50);

    let batches = payload.batchify(2);

    assert_eq!(batches.len(), 2);
    for batch in batches.iter() {
        assert_eq!(batch.records().len(), 2);
        for (_name, td) in batch.records().iter() {
            assert!(td.is_finished());
        }
    }
}

#[test]
fn incomplete_records_ride_whole_on_an_underfull_chunk() {
    // The whole set of incomplete records is appended to an underfull
    // chunk, even past the ceiling: the ceiling bounds complete records.
    let mut payload = Payload::new(RuntimeEnvironment::generic());
    push_complete(&mut payload, "A", 0);
    push_started(&mut payload, "x", 10);
    push_started(&mut payload, "y", 20);
    push_started(&mut payload, "z", 30);

    let batches = payload.batchify(2);

    assert_eq!(batches.len(), 1);
    assert_eq!(batches[0].records().len(), 4);
    assert!(batches[0].records()[0].1.is_finished());
}

#[test]
fn split_is_read_only() {
    let mut payload = Payload::new(RuntimeEnvironment::generic());
    push_complete(&mut payload, "one::a", 0);
    push_complete(&mut payload, "two::b", 10);
    push_started(&mut payload, "three::c", 20);

    let before: Vec<String> =
        payload.closed_data().iter().map(|td| td.id().clone()).collect();
    let batches = payload.batchify(1);
    let after: Vec<String> =
        payload.closed_data().iter().map(|td| td.id().clone()).collect();

    assert_eq!(before, after);
    assert_eq!(batches.len(), 2);

    let mut carried: Vec<String> = Vec::new();
    for batch in batches.iter() {
        for td in batch.closed_data().iter() {
            carried.push(td.id().clone());
        }
    }
    assert_eq!(carried, before);
}

#[test]
fn batches_carry_the_identity_record_unchanged() {
    let env = RuntimeEnvironment::generic();
    let key = env.key().clone();
    let mut payload = Payload::new(env);
    push_complete(&mut payload, "a", 0);
    let batches = payload.batchify(5);
    assert_eq!(batches.len(), 1);
    assert_eq!(batches[0].run_env().key(), &key);
    assert_eq!(batches[0].run_env().ci().as_str(), "generic");
}
