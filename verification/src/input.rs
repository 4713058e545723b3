//! The event model: the two families of lifecycle events emitted by the test
//! runner, and the triage of one input line into an action.
//!
//! A line of input is a candidate event only when its first non-whitespace
//! character is `{`; every other line is passed through untouched.  A
//! candidate line that does not decode into a known event shape is dropped
//! in permissive mode and reported in strict mode; strict is the default.
//! Decoding itself happens outside the library: triage receives the decoded
//! event, or nothing when decoding failed.

use vstd::prelude::*;
use vstd::string::StrSliceExecFns;

verus! {

/// Counts reported when a whole suite finishes.  `exec_time` is in
/// nanoseconds.
pub struct SuiteResults {
    pub passed: usize,
    pub failed: usize,
    pub ignored: usize,
    pub measured: usize,
    pub filtered_out: usize,
    pub exec_time: u64,
}

/// An event about the whole test suite.
pub enum SuiteEvent {
    Started { test_count: usize },
    Passed { results: SuiteResults },
    Failed { results: SuiteResults },
}

/// An event about one test.  `exec_time` is in nanoseconds.
pub enum TestEvent {
    Started { name: String },
    Passed { name: String, exec_time: u64 },
    Failed { name: String, exec_time: u64, stdout: Option<String>, stderr: Option<String> },
    Ignored { name: String },
    Timeout { name: String },
}

/// One decoded unit of input: either a suite event or a test event.
pub enum Event {
    Suite { event: SuiteEvent },
    Test { event: TestEvent },
}

/// How a candidate line that fails to decode is treated: reported in
/// strict mode, silently dropped in permissive mode.
#[derive(Clone, Copy)]
pub enum DecodeMode {
    Strict,
    Permissive,
}

impl Default for DecodeMode {
    /// Strict is the default: a malformed candidate line is reported.
    fn default() -> (r: Self)
        ensures
            r is Strict,
    {
        DecodeMode::Strict
    }
}

/// What to do with one line of input.
pub enum LineAction {
    /// Not an event, or dropped in permissive mode: pass the line through.
    Skip,
    /// A decoded event to feed to the aggregation session.
    Apply(Event),
    /// A candidate line that failed to decode, under strict mode.
    Error,
}

/// A character with the Unicode `White_Space` property.
pub open spec fn is_space(c: char) -> bool {
    let u = c as u32;
    ||| u == 0x20
    ||| (0x09 <= u && u <= 0x0D)
    ||| u == 0x85
    ||| u == 0xA0
    ||| u == 0x1680
    ||| (0x2000 <= u && u <= 0x200A)
    ||| u == 0x2028
    ||| u == 0x2029
    ||| u == 0x202F
    ||| u == 0x205F
    ||| u == 0x3000
}

/// A candidate line: some `{` preceded only by whitespace.
pub open spec fn candidate_line(s: Seq<char>) -> bool {
    exists|i: int|
        0 <= i < s.len() && s[i] == '{' && (forall|j: int| 0 <= j < i ==> is_space(s[j]))
}

fn char_is_space(c: char) -> (r: bool)
    ensures
        r == is_space(c),
{
    let u = c as u32;
    u == 0x20 || (0x09 <= u && u <= 0x0D) || u == 0x85 || u == 0xA0 || u == 0x1680 || (0x2000 <= u
        && u <= 0x200A) || u == 0x2028 || u == 0x2029 || u == 0x202F || u == 0x205F || u == 0x3000
}

/// Is this line a candidate event: is its first non-whitespace character `{`?
pub fn is_event_candidate(line: &str) -> (r: bool)
    ensures
        r == candidate_line(line@),
{
    let n = line.unicode_len();
    let mut i: usize = 0;
    while i < n
        invariant
            n == line@.len(),
            i <= n,
            forall|j: int| 0 <= j < i ==> is_space(line@[j]),
        decreases n - i,
    {
        let c = line.get_char(i);
        if !char_is_space(c) {
            if c == '{' {
                proof {
                    let w = i as int;
                    assert(0 <= w < line@.len() && line@[w] == '{' && (forall|j: int|
                        0 <= j < w ==> is_space(line@[j])));
                }
                return true;
            } else {
                proof {
                    assert forall|k: int|
                        0 <= k < line@.len() && line@[k] == '{' implies !(forall|j: int|
                        0 <= j < k ==> is_space(line@[j])) by {
                        if k < i {
                            assert(is_space(line@[k]));
                        } else {
                            assert(!is_space(line@[i as int]));
                        }
                    }
                    assert(!candidate_line(line@));
                }
                return false;
            }
        }
        i = i + 1;
    }
    proof {
        assert forall|k: int| 0 <= k < line@.len() implies line@[k] != '{' by {
            assert(is_space(line@[k]));
        }
        assert(!candidate_line(line@));
    }
    false
}

/// Triage one line: pass through what is not an event, apply what decoded,
/// and report or drop a malformed candidate according to the mode.
pub fn classify_line(candidate: bool, decoded: Option<Event>, mode: DecodeMode) -> (r: LineAction)
    ensures
        !candidate ==> r is Skip,
        candidate && decoded is Some ==> (r matches LineAction::Apply(e) && e == decoded->0),
        candidate && decoded is None && mode is Strict ==> r is Error,
        candidate && decoded is None && mode is Permissive ==> r is Skip,
{
    if !candidate {
        return LineAction::Skip;
    }
    match decoded {
        Some(event) => LineAction::Apply(event),
        None => match mode {
            DecodeMode::Strict => LineAction::Error,
            DecodeMode::Permissive => LineAction::Skip,
        },
    }
}

} // verus!
