//! The aggregation session: one record per observed test, built from the
//! event stream, and the partition of the complete records into
//! size-bounded upload batches.
//!
//! All timing is in nanoseconds.  The clock is injected: every event is
//! applied together with the caller's reading of `now`, so the transition
//! logic itself is pure and fully specified by `spec_apply`.

use vstd::prelude::*;
use vstd::string::StringExecFns;

use crate::ids;
use crate::input::{Event, SuiteEvent, TestEvent};
use crate::names;
use crate::run_env::{RunEnvView, RuntimeEnvironment};

verus! {

/// Mathematical image of the timing history of one test.
#[verifier::ext_equal]
pub ghost struct TestHistoryView {
    pub section: Seq<char>,
    pub start_at: Option<u64>,
    pub end_at: Option<u64>,
    pub duration: Option<u64>,
}

/// Mathematical image of a test's outcome.
pub ghost enum TestResultView {
    Passed,
    Failed { failure_reason: Option<Seq<char>> },
}

/// Mathematical image of one test record.
#[verifier::ext_equal]
pub ghost struct TestDataView {
    pub id: Seq<char>,
    pub scope: Seq<char>,
    pub name: Seq<char>,
    pub result: TestResultView,
    pub history: TestHistoryView,
}

/// One stored record with the full test name it is keyed by.
pub type EntryV = (Seq<char>, TestDataView);

/// Mathematical image of a whole aggregation session.
#[verifier::ext_equal]
pub ghost struct PayloadView {
    pub run_env: RunEnvView,
    pub data: Seq<EntryV>,
    pub started_at: Option<u64>,
    pub finished_at: Option<u64>,
}

/// Timing information about one test.  `children` is reserved for nested
/// timing sections and stays empty in every record this library builds.
pub struct TestHistory {
    section: String,
    start_at: Option<u64>,
    end_at: Option<u64>,
    duration: Option<u64>,
    children: Vec<TestHistory>,
}

/// Did the test pass, and if not, why not?
pub enum TestResult {
    Passed,
    Failed { failure_reason: Option<String> },
}

/// Everything recorded about one test: identity, decomposed name and
/// outcome, plus its timing history.
pub struct TestData {
    id: String,
    scope: String,
    name: String,
    result: TestResult,
    history: TestHistory,
}

/// The aggregation session: the identity record it was created with, one
/// record per observed test keyed by the full test name, and the suite's
/// relative-time origin.
pub struct Payload {
    run_env: RuntimeEnvironment,
    data: Vec<(String, TestData)>,
    started_at: Option<u64>,
    finished_at: Option<u64>,
}

impl View for TestHistory {
    type V = TestHistoryView;

    closed spec fn view(&self) -> TestHistoryView {
        TestHistoryView {
            section: self.section@,
            start_at: self.start_at,
            end_at: self.end_at,
            duration: self.duration,
        }
    }
}

impl View for TestResult {
    type V = TestResultView;

    closed spec fn view(&self) -> TestResultView {
        match self {
            TestResult::Passed => TestResultView::Passed,
            TestResult::Failed { failure_reason } => TestResultView::Failed {
                failure_reason: failure_reason.deep_view(),
            },
        }
    }
}

impl View for TestData {
    type V = TestDataView;

    closed spec fn view(&self) -> TestDataView {
        TestDataView {
            id: self.id@,
            scope: self.scope@,
            name: self.name@,
            result: self.result@,
            history: self.history@,
        }
    }
}

/// The stored entries, seen as key/record pairs of mathematical values.
pub open spec fn entries_view(d: Seq<(String, TestData)>) -> Seq<EntryV> {
    d.map_values(|e: (String, TestData)| (e.0@, e.1@))
}

impl View for Payload {
    type V = PayloadView;

    closed spec fn view(&self) -> PayloadView {
        PayloadView {
            run_env: self.run_env@,
            data: entries_view(self.data@),
            started_at: self.started_at,
            finished_at: self.finished_at,
        }
    }
}

/// Some stored record is keyed by `k`.
pub open spec fn v_has_key(d: Seq<EntryV>, k: Seq<char>) -> bool {
    exists|i: int| 0 <= i < d.len() && d[i].0 == k
}

/// The index of the record keyed by `k`.
pub open spec fn v_idx(d: Seq<EntryV>, k: Seq<char>) -> int {
    choose|i: int| 0 <= i < d.len() && d[i].0 == k
}

/// The record keyed by `k`.
pub open spec fn v_rec(d: Seq<EntryV>, k: Seq<char>) -> TestDataView {
    d[v_idx(d, k)].1
}

/// A record that has received its terminal event: its end offset is set.
pub open spec fn v_complete(r: TestDataView) -> bool {
    r.history.end_at is Some
}

/// Replace the record keyed by `k`, or append it under `k` when no record
/// carries that key yet.
pub open spec fn upsert(d: Seq<EntryV>, k: Seq<char>, r: TestDataView) -> Seq<EntryV> {
    if v_has_key(d, k) {
        d.update(v_idx(d, k), (k, r))
    } else {
        d.push((k, r))
    }
}

/// The suite-start origin used when applying an event: the recorded one, or
/// `now` itself when no suite start has been seen (an implicit suite start).
pub open spec fn implicit_start(started_at: Option<u64>, now: u64) -> u64 {
    if started_at is Some {
        started_at->0
    } else {
        now
    }
}

/// Offset of `now` from the suite origin, clamped at zero.
pub open spec fn offset_from(start: u64, now: u64) -> u64 {
    if now >= start {
        (now - start) as u64
    } else {
        0
    }
}

/// The record created for a newly started test: a fresh identity, the
/// decomposed name, a passing outcome by default, and an open history.
pub open spec fn fresh_record(full: Seq<char>, id: Seq<char>, off: u64) -> TestDataView {
    TestDataView {
        id: id,
        scope: names::scope_of(full),
        name: names::leaf_of(full),
        result: TestResultView::Passed,
        history: TestHistoryView {
            section: "top"@,
            start_at: Some(off),
            end_at: None,
            duration: None,
        },
    }
}

/// A record after its terminal event: the end offset and duration are set,
/// everything else is kept.
pub open spec fn close_record(r: TestDataView, off: u64, dur: u64, result: TestResultView)
    -> TestDataView {
    TestDataView {
        id: r.id,
        scope: r.scope,
        name: r.name,
        result: result,
        history: TestHistoryView {
            section: r.history.section,
            start_at: r.history.start_at,
            end_at: Some(off),
            duration: Some(dur),
        },
    }
}

/// The whole effect of applying one event to a session, given the clock
/// reading `now` and the identity `id` a newly created record would get.
///
/// A suite start records the relative-time origin; a suite end records the
/// finish time.  A test start creates (or re-creates) the record under the
/// full test name.  A test pass or failure closes the record looked up
/// under that name, and is dropped when no record carries the name.
/// Ignored and timed-out tests change nothing.
pub open spec fn spec_apply(p: PayloadView, event: Event, now: u64, id: Seq<char>) -> PayloadView {
    match event {
        Event::Suite { event: se } => match se {
            SuiteEvent::Started { .. } => PayloadView {
                run_env: p.run_env,
                data: p.data,
                started_at: Some(now),
                finished_at: p.finished_at,
            },
            _ => PayloadView {
                run_env: p.run_env,
                data: p.data,
                started_at: p.started_at,
                finished_at: Some(now),
            },
        },
        Event::Test { event: te } => match te {
            TestEvent::Started { name } => {
                let st = implicit_start(p.started_at, now);
                PayloadView {
                    run_env: p.run_env,
                    data: upsert(p.data, name@, fresh_record(name@, id, offset_from(st, now))),
                    started_at: Some(st),
                    finished_at: p.finished_at,
                }
            },
            TestEvent::Passed { name, exec_time } => {
                if v_has_key(p.data, name@) {
                    let st = implicit_start(p.started_at, now);
                    let r = v_rec(p.data, name@);
                    PayloadView {
                        run_env: p.run_env,
                        data: p.data.update(
                            v_idx(p.data, name@),
                            (name@, close_record(r, offset_from(st, now), exec_time, r.result)),
                        ),
                        started_at: Some(st),
                        finished_at: p.finished_at,
                    }
                } else {
                    p
                }
            },
            TestEvent::Failed { name, exec_time, stdout, .. } => {
                if v_has_key(p.data, name@) {
                    let st = implicit_start(p.started_at, now);
                    let r = v_rec(p.data, name@);
                    PayloadView {
                        run_env: p.run_env,
                        data: p.data.update(
                            v_idx(p.data, name@),
                            (
                                name@,
                                close_record(
                                    r,
                                    offset_from(st, now),
                                    exec_time,
                                    TestResultView::Failed { failure_reason: stdout.deep_view() },
                                ),
                            ),
                        ),
                        started_at: Some(st),
                        finished_at: p.finished_at,
                    }
                } else {
                    p
                }
            },
            _ => p,
        },
    }
}

/// The stored-entry invariant: pairwise distinct keys; every record's scope
/// and leaf name are the decomposition of its key, its start offset is set,
/// and its nested timing sections are empty.
spec fn data_wf(d: Seq<(String, TestData)>) -> bool {
    &&& forall|i: int, j: int| 0 <= i < j < d.len() ==> d[i].0@ != d[j].0@
    &&& forall|i: int|
        0 <= i < d.len() ==> (#[trigger] d[i]).1@.name == names::leaf_of(d[i].0@)
            && d[i].1@.scope == names::scope_of(d[i].0@) && d[i].1@.history.start_at is Some
            && d[i].1.history.children@.len() == 0
}

impl Payload {
    /// Stored records carry pairwise distinct keys; every record's scope and
    /// leaf name are the decomposition of its key, its start offset is set,
    /// and its nested timing sections are empty.
    pub closed spec fn wf(&self) -> bool {
        data_wf(self.data@)
    }

    /// A fresh session: the identity record it will carry, and no records.
    pub fn new(run_env: RuntimeEnvironment) -> (r: Payload)
        ensures
            r.wf(),
            r@.run_env == run_env@,
            r@.data.len() == 0,
            r@.started_at is None,
            r@.finished_at is None,
    {
        Payload { run_env, data: Vec::new(), started_at: None, finished_at: None }
    }

    /// Index of the record keyed by the full name `key`, if any.
    fn find_index(&self, key: &String) -> (r: Option<usize>)
        ensures
            match r {
                Some(i) => i < self.data@.len() && self.data@[i as int].0@ == key@,
                None => forall|j: int| 0 <= j < self.data@.len() ==> self.data@[j].0@ != key@,
            },
    {
        let n = self.data.len();
        let mut i: usize = 0;
        while i < n
            invariant
                n == self.data@.len(),
                i <= n,
                forall|j: int| 0 <= j < i ==> self.data@[j].0@ != key@,
            decreases n - i,
        {
            if self.data[i].0 == *key {
                return Some(i);
            }
            i = i + 1;
        }
        None
    }

    /// Apply one event to the session, under the clock reading `now`.
    /// The effect is exactly `spec_apply`, for the (random) identity a new
    /// record received.
    #[verifier::rlimit(50)]
    pub fn push(&mut self, event: Event, now: u64)
        requires
            old(self).wf(),
        ensures
            final(self).wf(),
            exists|id: Seq<char>| final(self)@ == spec_apply(old(self)@, event, now, id),
    {
        let ghost pre = self@;
        let ghost ev = event;
        match event {
            Event::Suite { event: se } => {
                match se {
                    SuiteEvent::Started { .. } => {
                        self.started_at = Some(now);
                    },
                    _ => {
                        self.finished_at = Some(now);
                    },
                }
                proof {
                    assert(self@ =~= spec_apply(pre, ev, now, Seq::<char>::empty()));
                    assert(exists|id: Seq<char>| self@ == spec_apply(pre, ev, now, id));
                }
            },
            Event::Test { event: te } => match te {
                TestEvent::Started { name } => {
                    let st: u64 = match self.started_at {
                        Some(s) => s,
                        None => now,
                    };
                    self.started_at = Some(st);
                    let off: u64 = if now >= st {
                        now - st
                    } else {
                        0
                    };
                    let (scope, leaf) = names::split_name(name.as_str());
                    let id = ids::new_uuid_string();
                    let ghost idv = id@;
                    let rec = TestData {
                        id,
                        scope,
                        name: leaf,
                        result: TestResult::Passed,
                        history: TestHistory {
                            section: String::from_str("top"),
                            start_at: Some(off),
                            end_at: None,
                            duration: None,
                            children: Vec::new(),
                        },
                    };
                    let found = self.find_index(&name);
                    proof {
                        assert(rec@ =~= fresh_record(name@, idv, off));
                    }
                    match found {
                        Some(i) => {
                            proof {
                                lemma_key_index(self.data@, i as int, name@);
                            }
                            self.data.set(i, (name, rec));
                            proof {
                                lemma_view_update(old(self).data@, i as int, self.data@[i as int]);
                                lemma_wf_update(old(self).data@, i as int, self.data@[i as int]);
                            }
                        },
                        None => {
                            proof {
                                assert(self.data@ == old(self).data@);
                                assert forall|k: int| 0 <= k < pre.data.len() implies (
                                #[trigger] pre.data[k]).0 != name@ by {
                                    lemma_view_index(self.data@, k);
                                }
                                assert(!v_has_key(pre.data, name@));
                            }
                            self.data.push((name, rec));
                            proof {
                                lemma_view_push(old(self).data@, self.data@[self.data@.len() - 1]);
                                lemma_wf_push(old(self).data@, self.data@[self.data@.len() - 1]);
                            }
                        },
                    }
                    proof {
                        assert(self.wf());
                        assert(self@ =~= spec_apply(pre, ev, now, idv));
                        assert(exists|id: Seq<char>| self@ == spec_apply(pre, ev, now, id));
                    }
                },
                TestEvent::Passed { name, exec_time } => {
                    let found = self.find_index(&name);
                    match found {
                        Some(i) => {
                            self.close_at(i, now, None, exec_time);
                            proof {
                                lemma_view_index(old(self).data@, i as int);
                                assert(v_has_key(pre.data, name@));
                                lemma_key_index(old(self).data@, i as int, name@);
                                assert(self@ =~= spec_apply(pre, ev, now, Seq::<char>::empty()));
                                assert(exists|id: Seq<char>| self@ == spec_apply(pre, ev, now, id));
                            }
                        },
                        None => {
                            proof {
                                assert forall|k: int| 0 <= k < pre.data.len() implies (
                                #[trigger] pre.data[k]).0 != name@ by {
                                    lemma_view_index(old(self).data@, k);
                                }
                                assert(!v_has_key(pre.data, name@));
                                assert(self@ =~= spec_apply(pre, ev, now, Seq::<char>::empty()));
                                assert(exists|id: Seq<char>| self@ == spec_apply(pre, ev, now, id));
                            }
                        },
                    }
                },
                TestEvent::Failed { name, exec_time, stdout, stderr: _ } => {
                    let found = self.find_index(&name);
                    match found {
                        Some(i) => {
                            self.close_at(i, now, Some(stdout), exec_time);
                            proof {
                                lemma_view_index(old(self).data@, i as int);
                                assert(v_has_key(pre.data, name@));
                                lemma_key_index(old(self).data@, i as int, name@);
                                assert(self@ =~= spec_apply(pre, ev, now, Seq::<char>::empty()));
                                assert(exists|id: Seq<char>| self@ == spec_apply(pre, ev, now, id));
                            }
                        },
                        None => {
                            proof {
                                assert forall|k: int| 0 <= k < pre.data.len() implies (
                                #[trigger] pre.data[k]).0 != name@ by {
                                    lemma_view_index(old(self).data@, k);
                                }
                                assert(!v_has_key(pre.data, name@));
                                assert(self@ =~= spec_apply(pre, ev, now, Seq::<char>::empty()));
                                assert(exists|id: Seq<char>| self@ == spec_apply(pre, ev, now, id));
                            }
                        },
                    }
                },
                TestEvent::Ignored { .. } => {
                    proof {
                        assert(self@ =~= spec_apply(pre, ev, now, Seq::<char>::empty()));
                        assert(exists|id: Seq<char>| self@ == spec_apply(pre, ev, now, id));
                    }
                },
                TestEvent::Timeout { .. } => {
                    proof {
                        assert(self@ =~= spec_apply(pre, ev, now, Seq::<char>::empty()));
                        assert(exists|id: Seq<char>| self@ == spec_apply(pre, ev, now, id));
                    }
                },
            },
        }
    }

    /// Close the record at index `i`: set its end offset and duration.
    /// With `failure` present the outcome becomes a failure carrying the
    /// given reason; without it the outcome is kept.
    fn close_at(&mut self, i: usize, now: u64, failure: Option<Option<String>>, exec_time: u64)
        requires
            old(self).wf(),
            i < old(self).data@.len(),
        ensures
            final(self).wf(),
            final(self)@.started_at == Some(implicit_start(old(self)@.started_at, now)),
            final(self)@.finished_at == old(self)@.finished_at,
            final(self)@.run_env == old(self)@.run_env,
            final(self)@.data == old(self)@.data.update(
                i as int,
                (
                    old(self)@.data[i as int].0,
                    close_record(
                        old(self)@.data[i as int].1,
                        offset_from(implicit_start(old(self)@.started_at, now), now),
                        exec_time,
                        match failure {
                            Some(reason) => TestResultView::Failed {
                                failure_reason: reason.deep_view(),
                            },
                            None => old(self)@.data[i as int].1.result,
                        },
                    ),
                ),
            ),
    {
        let st: u64 = match self.started_at {
            Some(s) => s,
            None => now,
        };
        self.started_at = Some(st);
        let off: u64 = if now >= st {
            now - st
        } else {
            0
        };
        let key = self.data[i].0.clone();
        let old_rec = &self.data[i].1;
        let result = match failure {
            Some(reason) => TestResult::Failed { failure_reason: reason },
            None => clone_result(&old_rec.result),
        };
        let new_rec = TestData {
            id: old_rec.id.clone(),
            scope: old_rec.scope.clone(),
            name: old_rec.name.clone(),
            result,
            history: TestHistory {
                section: old_rec.history.section.clone(),
                start_at: old_rec.history.start_at,
                end_at: Some(off),
                duration: Some(exec_time),
                children: Vec::new(),
            },
        };
        self.data.set(i, (key, new_rec));
        proof {
            lemma_view_index(old(self).data@, i as int);
            lemma_view_update(old(self).data@, i as int, self.data@[i as int]);
            lemma_wf_update(old(self).data@, i as int, self.data@[i as int]);
            assert(self.wf());
            assert(self@.data =~= old(self)@.data.update(
                i as int,
                (self.data@[i as int].0@, self.data@[i as int].1@),
            ));
        }
    }
}

/// A copy of an outcome, equal in value to the original.
fn clone_result(r: &TestResult) -> (c: TestResult)
    ensures
        c@ == r@,
{
    match r {
        TestResult::Passed => TestResult::Passed,
        TestResult::Failed { failure_reason } => TestResult::Failed {
            failure_reason: crate::run_env::clone_opt_string(failure_reason),
        },
    }
}

/// Entry views index through the element views.
proof fn lemma_view_index(d: Seq<(String, TestData)>, i: int)
    requires
        0 <= i < d.len(),
    ensures
        entries_view(d)[i] == (d[i].0@, d[i].1@),
{
}

/// Updating one entry updates its view pointwise.
proof fn lemma_view_update(d: Seq<(String, TestData)>, i: int, e: (String, TestData))
    requires
        0 <= i < d.len(),
    ensures
        entries_view(d.update(i, e)) =~= entries_view(d).update(i, (e.0@, e.1@)),
{
}

/// Appending one entry appends its view.
proof fn lemma_view_push(d: Seq<(String, TestData)>, e: (String, TestData))
    ensures
        entries_view(d.push(e)) =~= entries_view(d).push((e.0@, e.1@)),
{
}

/// With pairwise distinct keys, the chosen index of a present key is the
/// index where it was found.
proof fn lemma_key_index(d: Seq<(String, TestData)>, i: int, k: Seq<char>)
    requires
        0 <= i < d.len(),
        d[i].0@ == k,
        forall|a: int, b: int| 0 <= a < b < d.len() ==> d[a].0@ != d[b].0@,
    ensures
        v_has_key(entries_view(d), k),
        v_idx(entries_view(d), k) == i,
        v_rec(entries_view(d), k) == d[i].1@,
{
    lemma_view_index(d, i);
    assert(entries_view(d)[i].0 == k);
    let j = v_idx(entries_view(d), k);
    assert(0 <= j < d.len() && entries_view(d)[j].0 == k);
    lemma_view_index(d, j);
    if i < j {
        assert(d[i].0@ != d[j].0@);
    } else if j < i {
        assert(d[j].0@ != d[i].0@);
    }
}

/// The entry invariant survives replacing the record at `i` by one that is
/// keyed alike and itself satisfies the record conditions.
proof fn lemma_wf_update(d: Seq<(String, TestData)>, i: int, e: (String, TestData))
    requires
        data_wf(d),
        0 <= i < d.len(),
        e.0@ == d[i].0@,
        e.1@.name == names::leaf_of(e.0@),
        e.1@.scope == names::scope_of(e.0@),
        e.1@.history.start_at is Some,
        e.1.history.children@.len() == 0,
    ensures
        data_wf(d.update(i, e)),
{
    let d2 = d.update(i, e);
    assert forall|a: int, b: int| 0 <= a < b < d2.len() implies d2[a].0@ != d2[b].0@ by {
        assert(d2[a].0@ == d[a].0@);
        assert(d2[b].0@ == d[b].0@);
    }
    assert forall|a: int|
        0 <= a < d2.len() implies (#[trigger] d2[a]).1@.name == names::leaf_of(d2[a].0@)
        && d2[a].1@.scope == names::scope_of(d2[a].0@) && d2[a].1@.history.start_at is Some
        && d2[a].1.history.children@.len() == 0 by {
        if a != i {
            assert(d2[a] == d[a]);
            assert((#[trigger] d[a]).1@.name == names::leaf_of(d[a].0@));
        }
    }
}

/// The entry invariant survives appending a record under a key not yet
/// stored, when the record satisfies the record conditions.
proof fn lemma_wf_push(d: Seq<(String, TestData)>, e: (String, TestData))
    requires
        data_wf(d),
        forall|j: int| 0 <= j < d.len() ==> d[j].0@ != e.0@,
        e.1@.name == names::leaf_of(e.0@),
        e.1@.scope == names::scope_of(e.0@),
        e.1@.history.start_at is Some,
        e.1.history.children@.len() == 0,
    ensures
        data_wf(d.push(e)),
{
    let d2 = d.push(e);
    assert forall|a: int, b: int| 0 <= a < b < d2.len() implies d2[a].0@ != d2[b].0@ by {
        if b < d.len() {
            assert(d[a].0@ != d[b].0@);
        } else {
            assert(d2[a] == d[a]);
            assert(d[a].0@ != e.0@);
        }
    }
    assert forall|a: int|
        0 <= a < d2.len() implies (#[trigger] d2[a]).1@.name == names::leaf_of(d2[a].0@)
        && d2[a].1@.scope == names::scope_of(d2[a].0@) && d2[a].1@.history.start_at is Some
        && d2[a].1.history.children@.len() == 0 by {
        if a < d.len() {
            assert(d2[a] == d[a]);
            assert((#[trigger] d[a]).1@.name == names::leaf_of(d[a].0@));
        }
    }
}


/// The complete stored entries, in storage order.
pub open spec fn complete_entries(d: Seq<EntryV>) -> Seq<EntryV>
    decreases d.len(),
{
    if d.len() == 0 {
        Seq::empty()
    } else if v_complete(d.last().1) {
        complete_entries(d.drop_last()).push(d.last())
    } else {
        complete_entries(d.drop_last())
    }
}

/// The incomplete stored entries, in storage order.
pub open spec fn incomplete_entries(d: Seq<EntryV>) -> Seq<EntryV>
    decreases d.len(),
{
    if d.len() == 0 {
        Seq::empty()
    } else if !v_complete(d.last().1) {
        incomplete_entries(d.drop_last()).push(d.last())
    } else {
        incomplete_entries(d.drop_last())
    }
}

/// The records of the complete stored entries.
pub open spec fn complete_records(d: Seq<EntryV>) -> Seq<TestDataView> {
    complete_entries(d).map_values(|e: EntryV| e.1)
}

/// The groups of entries that splitting yields: consecutive chunks of the
/// complete entries, at most `bs` long, with every incomplete entry
/// appended to a final chunk that is strictly under `bs`.  No complete
/// entries means no groups at all.
pub open spec fn chunk_batches(cs: Seq<EntryV>, inc: Seq<EntryV>, bs: int) -> Seq<Seq<EntryV>>
    decreases cs.len(),
        when bs >= 1
{
    if cs.len() == 0 {
        Seq::empty()
    } else if cs.len() > bs {
        seq![cs.take(bs)] + chunk_batches(cs.skip(bs), inc, bs)
    } else if cs.len() < bs {
        seq![cs + inc]
    } else {
        seq![cs]
    }
}

/// The groups of entries that splitting this session must yield.
pub open spec fn batches_of(p: PayloadView, bs: int) -> Seq<Seq<EntryV>> {
    chunk_batches(complete_entries(p.data), incomplete_entries(p.data), bs)
}

/// Every element of `a` is one of the elements of `d`.
pub open spec fn sub_of(a: Seq<EntryV>, d: Seq<EntryV>) -> bool {
    forall|i: int|
        0 <= i < a.len() ==> exists|j: int| 0 <= j < d.len() && #[trigger] a[i] == d[j]
}

/// The entries of `a` carry pairwise distinct keys.
pub open spec fn keys_distinct(a: Seq<EntryV>) -> bool {
    forall|i: int, j: int| 0 <= i < j < a.len() ==> a[i].0 != a[j].0
}

/// No key of `a` is a key of `b`.
pub open spec fn keys_disjoint(a: Seq<EntryV>, b: Seq<EntryV>) -> bool {
    forall|i: int, j: int| 0 <= i < a.len() && 0 <= j < b.len() ==> a[i].0 != b[j].0
}

/// Partitioning entries with pairwise distinct keys yields two sides whose
/// elements all come from the original, with pairwise distinct keys within
/// each side and none shared across the two.
pub proof fn lemma_partition(d: Seq<EntryV>)
    requires
        keys_distinct(d),
    ensures
        sub_of(complete_entries(d), d),
        sub_of(incomplete_entries(d), d),
        keys_distinct(complete_entries(d)),
        keys_distinct(incomplete_entries(d)),
        keys_disjoint(complete_entries(d), incomplete_entries(d)),
    decreases d.len(),
{
    if d.len() > 0 {
        let dp = d.drop_last();
        let last = d.last();
        assert(keys_distinct(dp)) by {
            assert forall|i: int, j: int| 0 <= i < j < dp.len() implies dp[i].0 != dp[j].0 by {
                assert(d[i].0 != d[j].0);
            }
        }
        lemma_partition(dp);
        let cs = complete_entries(d);
        let inc = incomplete_entries(d);
        let csp = complete_entries(dp);
        let incp = incomplete_entries(dp);
        assert forall|i: int| 0 <= i < dp.len() implies #[trigger] dp[i] == d[i] by {}
        assert forall|i: int| 0 <= i < dp.len() implies #[trigger] dp[i].0 != last.0 by {
            assert(d[i].0 != d[d.len() - 1].0);
        }
        assert forall|i: int| 0 <= i < csp.len() implies #[trigger] csp[i].0 != last.0 by {
            let j = choose|j: int| 0 <= j < dp.len() && csp[i] == dp[j];
            assert(dp[j].0 != last.0);
        }
        assert forall|i: int| 0 <= i < incp.len() implies #[trigger] incp[i].0 != last.0 by {
            let j = choose|j: int| 0 <= j < dp.len() && incp[i] == dp[j];
            assert(dp[j].0 != last.0);
        }
        assert(sub_of(csp, d)) by {
            assert forall|i: int|
                0 <= i < csp.len() implies exists|j: int|
                0 <= j < d.len() && #[trigger] csp[i] == d[j] by {
                let j = choose|j: int| 0 <= j < dp.len() && csp[i] == dp[j];
                assert(csp[i] == d[j]);
            }
        }
        assert(sub_of(incp, d)) by {
            assert forall|i: int|
                0 <= i < incp.len() implies exists|j: int|
                0 <= j < d.len() && #[trigger] incp[i] == d[j] by {
                let j = choose|j: int| 0 <= j < dp.len() && incp[i] == dp[j];
                assert(incp[i] == d[j]);
            }
        }
        if v_complete(last.1) {
            assert(cs == csp.push(last));
            assert(inc == incp);
            assert(last == d[d.len() - 1]);
            assert(sub_of(cs, d)) by {
                assert forall|i: int|
                    0 <= i < cs.len() implies exists|j: int|
                    0 <= j < d.len() && #[trigger] cs[i] == d[j] by {
                    if i < csp.len() {
                        assert(cs[i] == csp[i]);
                        let j = choose|j: int| 0 <= j < d.len() && csp[i] == d[j];
                        assert(cs[i] == d[j]);
                    } else {
                        assert(cs[i] == d[d.len() - 1]);
                    }
                }
            }
            assert(keys_distinct(cs)) by {
                assert forall|i: int, j: int| 0 <= i < j < cs.len() implies cs[i].0 != cs[j].0 by {
                    if j < csp.len() {
                        assert(csp[i].0 != csp[j].0);
                    } else {
                        assert(cs[i] == csp[i]);
                        assert(csp[i].0 != last.0);
                    }
                }
            }
            assert(keys_disjoint(cs, inc)) by {
                assert forall|i: int, j: int|
                    0 <= i < cs.len() && 0 <= j < inc.len() implies cs[i].0 != inc[j].0 by {
                    if i < csp.len() {
                        assert(cs[i] == csp[i]);
                        assert(csp[i].0 != incp[j].0);
                    } else {
                        assert(cs[i] == last);
                        assert(incp[j].0 != last.0);
                    }
                }
            }
        } else {
            assert(cs == csp);
            assert(inc == incp.push(last));
            assert(sub_of(inc, d)) by {
                assert forall|i: int|
                    0 <= i < inc.len() implies exists|j: int|
                    0 <= j < d.len() && #[trigger] inc[i] == d[j] by {
                    if i < incp.len() {
                        assert(inc[i] == incp[i]);
                        let j = choose|j: int| 0 <= j < d.len() && incp[i] == d[j];
                        assert(inc[i] == d[j]);
                    } else {
                        assert(inc[i] == d[d.len() - 1]);
                    }
                }
            }
            assert(keys_distinct(inc)) by {
                assert forall|i: int, j: int|
                    0 <= i < j < inc.len() implies inc[i].0 != inc[j].0 by {
                    if j < incp.len() {
                        assert(incp[i].0 != incp[j].0);
                    } else {
                        assert(inc[i] == incp[i]);
                        assert(incp[i].0 != last.0);
                    }
                }
            }
            assert(keys_disjoint(cs, inc)) by {
                assert forall|i: int, j: int|
                    0 <= i < cs.len() && 0 <= j < inc.len() implies cs[i].0 != inc[j].0 by {
                    if j < incp.len() {
                        assert(csp[i].0 != incp[j].0);
                    } else {
                        assert(inc[j] == last);
                        assert(csp[i].0 != last.0);
                    }
                }
            }
        }
    }
}

/// A copy of a record, equal in view to the original; its nested timing
/// sections are empty, as they are in every record the session stores.
fn copy_record(r: &TestData) -> (c: TestData)
    ensures
        c@ == r@,
        c.history.children@.len() == 0,
{
    TestData {
        id: r.id.clone(),
        scope: r.scope.clone(),
        name: r.name.clone(),
        result: clone_result(&r.result),
        history: TestHistory {
            section: r.history.section.clone(),
            start_at: r.history.start_at,
            end_at: r.history.end_at,
            duration: r.history.duration,
            children: Vec::new(),
        },
    }
}

/// A copy of a stored entry, equal in view to the original.
fn clone_entry(e: &(String, TestData)) -> (c: (String, TestData))
    ensures
        c.0@ == e.0@,
        c.1@ == e.1@,
        c.1.history.children@.len() == 0,
{
    (e.0.clone(), copy_record(&e.1))
}

/// The stored batch groups of a run of payloads.
spec fn out_data(s: Seq<Payload>) -> Seq<Seq<EntryV>> {
    s.map_values(|p: Payload| p@.data)
}

impl Payload {
    /// The stored entries: full test name and record, in storage order.
    pub fn records(&self) -> (r: &Vec<(String, TestData)>)
        ensures
            entries_view(r@) == self@.data,
    {
        &self.data
    }

    /// The identity record the session was created with.
    pub fn run_env(&self) -> (r: &RuntimeEnvironment)
        ensures
            r@ == self@.run_env,
    {
        &self.run_env
    }

    /// The recorded suite start, if a suite start has been seen.
    pub fn started_at(&self) -> (r: Option<u64>)
        ensures
            r == self@.started_at,
    {
        self.started_at
    }

    /// The recorded suite finish, if a suite end has been seen.
    pub fn finished_at(&self) -> (r: Option<u64>)
        ensures
            r == self@.finished_at,
    {
        self.finished_at
    }

    /// Copies of all complete records, in storage order.  Incomplete
    /// records are excluded: this is the upload view of the session.
    pub fn closed_data(&self) -> (r: Vec<TestData>)
        ensures
            r@.map_values(|t: TestData| t@) == complete_records(self@.data),
    {
        let n = self.data.len();
        let mut r: Vec<TestData> = Vec::new();
        let mut i: usize = 0;
        proof {
            assert(self@.data.take(0) =~= Seq::<EntryV>::empty());
            assert(r@.map_values(|t: TestData| t@) =~= complete_records(self@.data.take(0)));
        }
        while i < n
            invariant
                n == self.data@.len(),
                i <= n,
                r@.map_values(|t: TestData| t@) == complete_records(self@.data.take(i as int)),
            decreases n - i,
        {
            let ghost prev = r@;
            let ghost dv = self@.data;
            if self.data[i].1.history.end_at.is_some() {
                let c = copy_record(&self.data[i].1);
                r.push(c);
                proof {
                    lemma_view_index(self.data@, i as int);
                    assert(dv.take(i + 1).drop_last() =~= dv.take(i as int));
                    assert(dv.take(i + 1).last() == dv[i as int]);
                    assert(v_complete(dv[i as int].1));
                    assert(complete_entries(dv.take(i + 1)) == complete_entries(
                        dv.take(i as int),
                    ).push(dv[i as int]));
                    assert(complete_records(dv.take(i + 1)) =~= complete_records(
                        dv.take(i as int),
                    ).push(dv[i as int].1));
                    assert(c@ == dv[i as int].1);
                    assert(r@.map_values(|t: TestData| t@) =~= prev.map_values(
                        |t: TestData| t@,
                    ).push(c@));
                }
            } else {
                proof {
                    lemma_view_index(self.data@, i as int);
                    assert(dv.take(i + 1).drop_last() =~= dv.take(i as int));
                    assert(dv.take(i + 1).last() == dv[i as int]);
                    assert(!v_complete(dv[i as int].1));
                    assert(complete_entries(dv.take(i + 1)) == complete_entries(dv.take(i as int)));
                }
            }
            i = i + 1;
        }
        proof {
            assert(self@.data.take(n as int) =~= self@.data);
        }
        r
    }

    /// Split the session into upload batches of at most `batch_size`
    /// records each, as `batches_of` describes: the complete records are
    /// chunked in storage order, and every incomplete record rides along on
    /// a final chunk that is strictly under the ceiling.  The session
    /// itself is left untouched.
    #[verifier::rlimit(50)]
    pub fn batchify(&self, batch_size: usize) -> (r: Vec<Payload>)
        requires
            self.wf(),
            batch_size >= 1,
        ensures
            r@.len() == batches_of(self@, batch_size as int).len(),
            forall|i: int|
                0 <= i < r@.len() ==> (#[trigger] r@[i])@.data == batches_of(
                    self@,
                    batch_size as int,
                )[i],
            forall|i: int|
                0 <= i < r@.len() ==> (#[trigger] r@[i]).wf() && r@[i]@.run_env == self@.run_env
                    && r@[i]@.started_at == self@.started_at && r@[i]@.finished_at
                    == self@.finished_at,
    {
        let ghost dv = self@.data;
        let n = self.data.len();
        let mut complete: Vec<(String, TestData)> = Vec::new();
        let mut incomplete: Vec<(String, TestData)> = Vec::new();
        let mut i: usize = 0;
        proof {
            assert(dv.take(0) =~= Seq::<EntryV>::empty());
            assert(entries_view(complete@) =~= complete_entries(dv.take(0)));
            assert(entries_view(incomplete@) =~= incomplete_entries(dv.take(0)));
        }
        while i < n
            invariant
                n == self.data@.len(),
                dv == self@.data,
                i <= n,
                entries_view(complete@) == complete_entries(dv.take(i as int)),
                entries_view(incomplete@) == incomplete_entries(dv.take(i as int)),
                forall|k: int|
                    0 <= k < complete@.len() ==> (#[trigger] complete@[k]).1.history.children@.len()
                        == 0,
                forall|k: int|
                    0 <= k < incomplete@.len() ==> (
                    #[trigger] incomplete@[k]).1.history.children@.len() == 0,
            decreases n - i,
        {
            let ghost prevc = complete@;
            let ghost previ = incomplete@;
            let e = clone_entry(&self.data[i]);
            proof {
                lemma_view_index(self.data@, i as int);
                assert(dv.take(i + 1).drop_last() =~= dv.take(i as int));
                assert(dv.take(i + 1).last() == dv[i as int]);
                assert((e.0@, e.1@) == dv[i as int]);
            }
            if e.1.history.end_at.is_some() {
                proof {
                    assert(v_complete(dv[i as int].1));
                }
                complete.push(e);
                proof {
                    lemma_view_push(prevc, complete@[complete@.len() - 1]);
                    assert(entries_view(complete@) =~= entries_view(prevc).push(dv[i as int]));
                }
            } else {
                proof {
                    assert(!v_complete(dv[i as int].1));
                }
                incomplete.push(e);
                proof {
                    lemma_view_push(previ, incomplete@[incomplete@.len() - 1]);
                    assert(entries_view(incomplete@) =~= entries_view(previ).push(dv[i as int]));
                }
            }
            i = i + 1;
        }
        proof {
            assert(dv.take(n as int) =~= dv);
        }
        let ghost cs = entries_view(complete@);
        let ghost inc = entries_view(incomplete@);
        let ghost bs = batch_size as int;
        proof {
            assert forall|a: int, b: int| 0 <= a < b < dv.len() implies dv[a].0 != dv[b].0 by {
                lemma_view_index(self.data@, a);
                lemma_view_index(self.data@, b);
            }
            lemma_partition(dv);
            assert forall|k: int|
                0 <= k < dv.len() implies (#[trigger] dv[k]).1.name == names::leaf_of(dv[k].0)
                && dv[k].1.scope == names::scope_of(dv[k].0)
                && dv[k].1.history.start_at is Some by {
                lemma_view_index(self.data@, k);
            }
        }
        let cs_len = complete.len();
        let mut out: Vec<Payload> = Vec::new();
        let mut lo: usize = 0;
        proof {
            assert(cs.skip(0) =~= cs);
            assert(chunk_batches(cs, inc, bs) =~= out_data(out@) + chunk_batches(
                cs.skip(0),
                inc,
                bs,
            ));
        }
        while lo < cs_len
            invariant
                self.wf(),
                batch_size >= 1,
                bs == batch_size as int,
                dv == self@.data,
                cs == entries_view(complete@),
                inc == entries_view(incomplete@),
                cs == complete_entries(dv),
                inc == incomplete_entries(dv),
                cs_len == complete@.len(),
                lo <= cs_len,
                keys_distinct(cs),
                keys_distinct(inc),
                keys_disjoint(cs, inc),
                forall|k: int|
                    0 <= k < dv.len() ==> (#[trigger] dv[k]).1.name == names::leaf_of(dv[k].0)
                        && dv[k].1.scope == names::scope_of(dv[k].0)
                        && dv[k].1.history.start_at is Some,
                sub_of(cs, dv),
                sub_of(inc, dv),
                forall|k: int|
                    0 <= k < complete@.len() ==> (#[trigger] complete@[k]).1.history.children@.len()
                        == 0,
                forall|k: int|
                    0 <= k < incomplete@.len() ==> (
                    #[trigger] incomplete@[k]).1.history.children@.len() == 0,
                chunk_batches(cs, inc, bs) == out_data(out@) + chunk_batches(
                    cs.skip(lo as int),
                    inc,
                    bs,
                ),
                forall|k: int|
                    0 <= k < out@.len() ==> (#[trigger] out@[k]).wf() && out@[k]@.run_env
                        == self@.run_env && out@[k]@.started_at == self@.started_at
                        && out@[k]@.finished_at == self@.finished_at,
            decreases cs_len - lo,
        {
            let hi = if cs_len - lo > batch_size {
                lo + batch_size
            } else {
                cs_len
            };
            let mut bdata: Vec<(String, TestData)> = Vec::new();
            let mut j = lo;
            proof {
                assert(cs.subrange(lo as int, lo as int) =~= Seq::<EntryV>::empty());
                assert(entries_view(bdata@) =~= cs.subrange(lo as int, lo as int));
            }
            while j < hi
                invariant
                    lo <= j <= hi <= cs_len,
                    cs_len == complete@.len(),
                    cs == entries_view(complete@),
                    entries_view(bdata@) == cs.subrange(lo as int, j as int),
                    forall|k: int|
                        0 <= k < complete@.len() ==> (
                        #[trigger] complete@[k]).1.history.children@.len() == 0,
                    forall|k: int|
                        0 <= k < bdata@.len() ==> (#[trigger] bdata@[k]).1.history.children@.len()
                            == 0,
                decreases hi - j,
            {
                let ghost prevb = bdata@;
                let e = clone_entry(&complete[j]);
                proof {
                    lemma_view_index(complete@, j as int);
                    assert((e.0@, e.1@) == cs[j as int]);
                }
                bdata.push(e);
                proof {
                    lemma_view_push(prevb, bdata@[bdata@.len() - 1]);
                    assert(entries_view(bdata@) =~= cs.subrange(lo as int, j + 1));
                }
                j = j + 1;
            }
            if hi - lo < batch_size {
                let m = incomplete.len();
                let mut k: usize = 0;
                proof {
                    assert(inc.take(0) =~= Seq::<EntryV>::empty());
                    assert(entries_view(bdata@) =~= cs.subrange(lo as int, hi as int) + inc.take(
                        0,
                    ));
                }
                while k < m
                    invariant
                        k <= m,
                        m == incomplete@.len(),
                        inc == entries_view(incomplete@),
                        entries_view(bdata@) == cs.subrange(lo as int, hi as int) + inc.take(
                            k as int,
                        ),
                        forall|q: int|
                            0 <= q < incomplete@.len() ==> (
                            #[trigger] incomplete@[q]).1.history.children@.len() == 0,
                        forall|q: int|
                            0 <= q < bdata@.len() ==> (
                            #[trigger] bdata@[q]).1.history.children@.len() == 0,
                    decreases m - k,
                {
                    let ghost prevb = bdata@;
                    let e = clone_entry(&incomplete[k]);
                    proof {
                        lemma_view_index(incomplete@, k as int);
                        assert((e.0@, e.1@) == inc[k as int]);
                    }
                    bdata.push(e);
                    proof {
                        lemma_view_push(prevb, bdata@[bdata@.len() - 1]);
                        assert(inc.take(k + 1) =~= inc.take(k as int).push(inc[k as int]));
                        assert(entries_view(bdata@) =~= cs.subrange(lo as int, hi as int)
                            + inc.take(k + 1));
                    }
                    k = k + 1;
                }
                proof {
                    assert(inc.take(m as int) =~= inc);
                }
            }
            let ghost bd = entries_view(bdata@);
            proof {
                if hi - lo < batch_size {
                    assert(bd == cs.subrange(lo as int, hi as int) + inc);
                } else {
                    assert(bd == cs.subrange(lo as int, hi as int));
                    assert(bd =~= cs.subrange(lo as int, hi as int) + Seq::<EntryV>::empty());
                }
                // The new group is exactly the next one that chunk_batches yields.
                let rest = cs.skip(lo as int);
                assert(rest.len() == cs_len - lo);
                if cs_len - lo > batch_size {
                    assert(rest.take(bs) =~= cs.subrange(lo as int, hi as int));
                    assert(rest.skip(bs) =~= cs.skip(hi as int));
                    assert(chunk_batches(rest, inc, bs) == seq![rest.take(bs)] + chunk_batches(
                        cs.skip(hi as int),
                        inc,
                        bs,
                    ));
                    assert(bd == rest.take(bs));
                } else {
                    assert(rest =~= cs.subrange(lo as int, hi as int));
                    assert(cs.skip(hi as int).len() == 0);
                    assert(chunk_batches(cs.skip(hi as int), inc, bs) =~= Seq::<
                        Seq<EntryV>,
                    >::empty());
                    if cs_len - lo < batch_size {
                        assert(chunk_batches(rest, inc, bs) == seq![rest + inc]);
                        assert(bd == rest + inc);
                    } else {
                        assert(chunk_batches(rest, inc, bs) == seq![rest]);
                        assert(bd == rest);
                    }
                    assert(chunk_batches(rest, inc, bs) =~= seq![bd] + chunk_batches(
                        cs.skip(hi as int),
                        inc,
                        bs,
                    ));
                }
                assert(chunk_batches(rest, inc, bs) == seq![bd] + chunk_batches(
                    cs.skip(hi as int),
                    inc,
                    bs,
                ));
                // The new group satisfies the entry invariant.
                assert forall|a: int, b: int| 0 <= a < b < bd.len() implies bd[a].0 != bd[b].0 by {
                    let c_len = hi - lo;
                    if b < c_len {
                        assert(bd[a] == cs[lo + a]);
                        assert(bd[b] == cs[lo + b]);
                        assert(cs[lo + a].0 != cs[lo + b].0);
                    } else if a < c_len {
                        assert(bd[a] == cs[lo + a]);
                        assert(bd[b] == inc[b - c_len]);
                        assert(cs[lo + a].0 != inc[b - c_len].0);
                    } else {
                        assert(bd[a] == inc[a - c_len]);
                        assert(bd[b] == inc[b - c_len]);
                        assert(inc[a - c_len].0 != inc[b - c_len].0);
                    }
                }
                assert forall|a: int|
                    0 <= a < bd.len() implies (#[trigger] bd[a]).1.name == names::leaf_of(bd[a].0)
                    && bd[a].1.scope == names::scope_of(bd[a].0)
                    && bd[a].1.history.start_at is Some by {
                    let c_len = hi - lo;
                    if a < c_len {
                        assert(bd[a] == cs[lo + a]);
                        let w = choose|w: int| 0 <= w < dv.len() && cs[lo + a] == dv[w];
                        assert(dv[w].1.name == names::leaf_of(dv[w].0));
                    } else {
                        assert(bd[a] == inc[a - c_len]);
                        let w = choose|w: int| 0 <= w < dv.len() && inc[a - c_len] == dv[w];
                        assert(dv[w].1.name == names::leaf_of(dv[w].0));
                    }
                }
            }
            let b = Payload {
                run_env: self.run_env.clone(),
                data: bdata,
                started_at: self.started_at,
                finished_at: self.finished_at,
            };
            proof {
                assert(b@.data == bd);
                assert forall|a: int, c: int|
                    0 <= a < c < b.data@.len() implies b.data@[a].0@ != b.data@[c].0@ by {
                    lemma_view_index(b.data@, a);
                    lemma_view_index(b.data@, c);
                    assert(bd[a].0 != bd[c].0);
                }
                assert forall|a: int|
                    0 <= a < b.data@.len() implies (#[trigger] b.data@[a]).1@.name
                    == names::leaf_of(b.data@[a].0@) && b.data@[a].1@.scope == names::scope_of(
                    b.data@[a].0@,
                ) && b.data@[a].1@.history.start_at is Some
                    && b.data@[a].1.history.children@.len() == 0 by {
                    lemma_view_index(b.data@, a);
                    assert(bd[a].1.name == names::leaf_of(bd[a].0));
                }
                assert(b.wf());
            }
            let ghost prevout = out@;
            out.push(b);
            proof {
                assert(out_data(out@) =~= out_data(prevout).push(bd));
                assert(out_data(prevout).push(bd) + chunk_batches(cs.skip(hi as int), inc, bs)
                    =~= out_data(prevout) + (seq![bd] + chunk_batches(cs.skip(hi as int), inc, bs)));
                assert(chunk_batches(cs, inc, bs) == out_data(out@) + chunk_batches(
                    cs.skip(hi as int),
                    inc,
                    bs,
                ));
            }
            lo = hi;
        }
        proof {
            assert(cs.skip(lo as int).len() == 0);
            assert(chunk_batches(cs.skip(lo as int), inc, bs) =~= Seq::<Seq<EntryV>>::empty());
            assert(chunk_batches(cs, inc, bs) =~= out_data(out@));
            assert(batches_of(self@, bs) == chunk_batches(cs, inc, bs));
            assert forall|q: int|
                0 <= q < out@.len() implies (#[trigger] out@[q])@.data == batches_of(self@, bs)[q] by {
                assert(out_data(out@)[q] == out@[q]@.data);
            }
        }
        out
    }
}

/// Every stored record's scope and leaf name are exactly the decomposition
/// of the full test name it is keyed by, and those keys are pairwise
/// distinct: one record per observed test, its identity fixed by its
/// originating start event.
pub proof fn lemma_record_identity(p: &Payload)
    requires
        p.wf(),
    ensures
        keys_distinct(p@.data),
        forall|i: int|
            0 <= i < p@.data.len() ==> (#[trigger] p@.data[i]).1.name == names::leaf_of(
                p@.data[i].0,
            ) && p@.data[i].1.scope == names::scope_of(p@.data[i].0),
{
    assert forall|a: int, b: int|
        0 <= a < b < p@.data.len() implies p@.data[a].0 != p@.data[b].0 by {
        lemma_view_index(p.data@, a);
        lemma_view_index(p.data@, b);
    }
    assert forall|i: int|
        0 <= i < p@.data.len() implies (#[trigger] p@.data[i]).1.name == names::leaf_of(
        p@.data[i].0,
    ) && p@.data[i].1.scope == names::scope_of(p@.data[i].0) by {
        lemma_view_index(p.data@, i);
    }
}

impl TestHistory {
    /// Has this history received its finishing event?
    pub fn is_finished(&self) -> (r: bool)
        ensures
            r == (self@.end_at is Some),
    {
        self.end_at.is_some()
    }

    /// The name of this timing section.
    pub fn section(&self) -> (r: &String)
        ensures
            r@ == self@.section,
    {
        &self.section
    }

    /// Offset of the test's start from the suite start, in nanoseconds.
    pub fn start_at(&self) -> (r: Option<u64>)
        ensures
            r == self@.start_at,
    {
        self.start_at
    }

    /// Offset of the test's end from the suite start, in nanoseconds.
    pub fn end_at(&self) -> (r: Option<u64>)
        ensures
            r == self@.end_at,
    {
        self.end_at
    }

    /// The test's reported execution time, in nanoseconds.
    pub fn duration(&self) -> (r: Option<u64>)
        ensures
            r == self@.duration,
    {
        self.duration
    }
}

impl TestData {
    /// Have we received a finishing event for this record?  A record can
    /// sit in an intermediate state once started but not yet finished.
    pub fn is_finished(&self) -> (r: bool)
        ensures
            r == v_complete(self@),
    {
        self.history.is_finished()
    }

    /// The record's opaque identity, assigned at first observation.
    pub fn id(&self) -> (r: &String)
        ensures
            r@ == self@.id,
    {
        &self.id
    }

    /// The qualifying path portion of the test name.
    pub fn scope(&self) -> (r: &String)
        ensures
            r@ == self@.scope,
    {
        &self.scope
    }

    /// The leaf portion of the test name.
    pub fn name(&self) -> (r: &String)
        ensures
            r@ == self@.name,
    {
        &self.name
    }

    /// The test's outcome.
    pub fn result(&self) -> (r: &TestResult)
        ensures
            r@ == self@.result,
    {
        &self.result
    }

    /// The test's timing history.
    pub fn history(&self) -> (r: &TestHistory)
        ensures
            r@ == self@.history,
    {
        &self.history
    }
}
} // verus!
