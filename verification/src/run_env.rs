//! Detection of the CI environment from a snapshot of environment
//! variables, handed in as plain name/value pairs.
//!
//! The surrounding program reads the process environment and passes it in;
//! the selection rules and the shape of the resulting identity record are
//! decided and proved here.

use vstd::prelude::*;
use vstd::string::StringExecFns;

use crate::ids;

verus! {

/// The collector identifier attached to every identity record.
pub open spec fn collector_id() -> Seq<char> {
    "rust-buildkite-test-collector"@
}

/// The collector version attached to every identity record.
pub open spec fn collector_version() -> Seq<char> {
    "0.1.2"@
}

/// Mathematical image of an identity record.
#[verifier::ext_equal]
pub ghost struct RunEnvView {
    pub ci: Seq<char>,
    pub key: Seq<char>,
    pub number: Option<Seq<char>>,
    pub job_id: Option<Seq<char>>,
    pub branch: Option<Seq<char>>,
    pub commit_sha: Option<Seq<char>>,
    pub message: Option<Seq<char>>,
    pub url: Option<Seq<char>>,
    pub collector: Seq<char>,
    pub version: Seq<char>,
}

/// Information about the detected CI environment, attached unchanged to
/// every upload batch.
pub struct RuntimeEnvironment {
    ci: String,
    key: String,
    number: Option<String>,
    job_id: Option<String>,
    branch: Option<String>,
    commit_sha: Option<String>,
    message: Option<String>,
    url: Option<String>,
    collector: String,
    version: String,
}

impl View for RuntimeEnvironment {
    type V = RunEnvView;

    closed spec fn view(&self) -> RunEnvView {
        RunEnvView {
            ci: self.ci@,
            key: self.key@,
            number: self.number.deep_view(),
            job_id: self.job_id.deep_view(),
            branch: self.branch.deep_view(),
            commit_sha: self.commit_sha.deep_view(),
            message: self.message.deep_view(),
            url: self.url.deep_view(),
            collector: self.collector@,
            version: self.version@,
        }
    }
}

/// The value bound to name `k` in an environment snapshot: the first
/// matching pair wins.
pub open spec fn var_of(vars: Seq<(String, String)>, k: Seq<char>) -> Option<Seq<char>>
    decreases vars.len(),
{
    if vars.len() == 0 {
        None
    } else if vars[0].0@ == k {
        Some(vars[0].1@)
    } else {
        var_of(vars.skip(1), k)
    }
}

/// Look a name up in the environment snapshot.
pub fn maybe_var(vars: &Vec<(String, String)>, key: &str) -> (r: Option<String>)
    ensures
        r.deep_view() == var_of(vars@, key@),
{
    let k = String::from_str(key);
    let n = vars.len();
    let mut i: usize = 0;
    proof {
        assert(vars@.skip(0) =~= vars@);
    }
    while i < n
        invariant
            n == vars@.len(),
            i <= n,
            k@ == key@,
            var_of(vars@, key@) == var_of(vars@.skip(i as int), key@),
        decreases n - i,
    {
        if vars[i].0 == k {
            let v = vars[i].1.clone();
            proof {
                assert(vars@.skip(i as int)[0] == vars@[i as int]);
            }
            return Some(v);
        }
        proof {
            assert(vars@.skip(i as int)[0] == vars@[i as int]);
            assert(vars@.skip(i as int).skip(1) =~= vars@.skip(i + 1));
        }
        i = i + 1;
    }
    proof {
        assert(vars@.skip(n as int).len() == 0);
    }
    None
}

/// The identity record that a Buildkite environment snapshot yields.
pub open spec fn buildkite_view(vars: Seq<(String, String)>) -> RunEnvView {
    RunEnvView {
        ci: "buildkite"@,
        key: var_of(vars, "BUILDKITE_BUILD_ID"@)->0,
        number: var_of(vars, "BUILDKITE_BUILD_NUMBER"@),
        job_id: var_of(vars, "BUILDKITE_JOB_ID"@),
        branch: var_of(vars, "BUILDKITE_BRANCH"@),
        commit_sha: var_of(vars, "BUILDKITE_COMMIT"@),
        message: var_of(vars, "BUILDKITE_MESSAGE"@),
        url: var_of(vars, "BUILDKITE_BUILD_URL"@),
        collector: collector_id(),
        version: collector_version(),
    }
}

/// Build the identity record for a Buildkite run, when the build id is set.
pub fn buildkite_env(vars: &Vec<(String, String)>) -> (r: Option<RuntimeEnvironment>)
    ensures
        r is Some <==> var_of(vars@, "BUILDKITE_BUILD_ID"@) is Some,
        r is Some ==> r->0@ == buildkite_view(vars@),
{
    let build_id = match maybe_var(vars, "BUILDKITE_BUILD_ID") {
        Some(v) => v,
        None => {
            return None;
        },
    };
    Some(
        RuntimeEnvironment {
            ci: String::from_str("buildkite"),
            key: build_id,
            number: maybe_var(vars, "BUILDKITE_BUILD_NUMBER"),
            job_id: maybe_var(vars, "BUILDKITE_JOB_ID"),
            branch: maybe_var(vars, "BUILDKITE_BRANCH"),
            commit_sha: maybe_var(vars, "BUILDKITE_COMMIT"),
            message: maybe_var(vars, "BUILDKITE_MESSAGE"),
            url: maybe_var(vars, "BUILDKITE_BUILD_URL"),
            collector: String::from_str("rust-buildkite-test-collector"),
            version: String::from_str("0.1.2"),
        },
    )
}

/// The identity record that a GitHub Actions environment snapshot yields.
pub open spec fn github_actions_view(vars: Seq<(String, String)>) -> RunEnvView {
    RunEnvView {
        ci: "github_actions"@,
        key: var_of(vars, "GITHUB_ACTION"@)->0 + "-"@ + var_of(vars, "GITHUB_RUN_NUMBER"@)->0
            + "-"@ + var_of(vars, "GITHUB_RUN_ATTEMPT"@)->0,
        number: var_of(vars, "GITHUB_RUN_NUMBER"@),
        job_id: None,
        branch: var_of(vars, "GITHUB_REF"@),
        commit_sha: var_of(vars, "GITHUB_SHA"@),
        message: None,
        url: if var_of(vars, "GITHUB_REPOSITORY"@) is Some && var_of(vars, "GITHUB_RUN_ID"@)
            is Some {
            Some(
                "https://github.com/"@ + var_of(vars, "GITHUB_REPOSITORY"@)->0
                    + "/actions/runs/"@ + var_of(vars, "GITHUB_RUN_ID"@)->0,
            )
        } else {
            None
        },
        collector: collector_id(),
        version: collector_version(),
    }
}

/// Build the identity record for a GitHub Actions run, when the action
/// name, run number and run attempt are all set.
pub fn github_actions_env(vars: &Vec<(String, String)>) -> (r: Option<RuntimeEnvironment>)
    ensures
        r is Some <==> (var_of(vars@, "GITHUB_ACTION"@) is Some && var_of(
            vars@,
            "GITHUB_RUN_NUMBER"@,
        ) is Some && var_of(vars@, "GITHUB_RUN_ATTEMPT"@) is Some),
        r is Some ==> r->0@ == github_actions_view(vars@),
{
    let action = match maybe_var(vars, "GITHUB_ACTION") {
        Some(v) => v,
        None => {
            return None;
        },
    };
    let run_number = match maybe_var(vars, "GITHUB_RUN_NUMBER") {
        Some(v) => v,
        None => {
            return None;
        },
    };
    let run_attempt = match maybe_var(vars, "GITHUB_RUN_ATTEMPT") {
        Some(v) => v,
        None => {
            return None;
        },
    };
    let key = action.concat("-").concat(run_number.as_str()).concat("-").concat(
        run_attempt.as_str(),
    );
    let url = match (maybe_var(vars, "GITHUB_REPOSITORY"), maybe_var(vars, "GITHUB_RUN_ID")) {
        (Some(repo), Some(run_id)) => Some(
            String::from_str("https://github.com/").concat(repo.as_str()).concat(
                "/actions/runs/",
            ).concat(run_id.as_str()),
        ),
        _ => None,
    };
    Some(
        RuntimeEnvironment {
            ci: String::from_str("github_actions"),
            key,
            number: Some(run_number),
            job_id: None,
            branch: maybe_var(vars, "GITHUB_REF"),
            commit_sha: maybe_var(vars, "GITHUB_SHA"),
            message: None,
            url,
            collector: String::from_str("rust-buildkite-test-collector"),
            version: String::from_str("0.1.2"),
        },
    )
}

/// The identity record that a CircleCI environment snapshot yields.
pub open spec fn circle_ci_view(vars: Seq<(String, String)>) -> RunEnvView {
    RunEnvView {
        ci: "circleci"@,
        key: var_of(vars, "CIRCLE_WORKFLOW_ID"@)->0 + "-"@ + var_of(vars, "CIRCLE_BUILD_NUM"@)->0,
        number: var_of(vars, "CIRCLE_BUILD_NUM"@),
        job_id: None,
        branch: var_of(vars, "CIRCLE_BRANCH"@),
        commit_sha: var_of(vars, "CIRCLE_SHA1"@),
        message: None,
        url: var_of(vars, "CIRCLE_BUILD_URL"@),
        collector: collector_id(),
        version: collector_version(),
    }
}

/// Build the identity record for a CircleCI run, when the build number and
/// workflow id are both set.
pub fn circle_ci_env(vars: &Vec<(String, String)>) -> (r: Option<RuntimeEnvironment>)
    ensures
        r is Some <==> (var_of(vars@, "CIRCLE_BUILD_NUM"@) is Some && var_of(
            vars@,
            "CIRCLE_WORKFLOW_ID"@,
        ) is Some),
        r is Some ==> r->0@ == circle_ci_view(vars@),
{
    let build_num = match maybe_var(vars, "CIRCLE_BUILD_NUM") {
        Some(v) => v,
        None => {
            return None;
        },
    };
    let workflow_id = match maybe_var(vars, "CIRCLE_WORKFLOW_ID") {
        Some(v) => v,
        None => {
            return None;
        },
    };
    let key = workflow_id.concat("-").concat(build_num.as_str());
    Some(
        RuntimeEnvironment {
            ci: String::from_str("circleci"),
            key,
            number: Some(build_num),
            job_id: None,
            branch: maybe_var(vars, "CIRCLE_BRANCH"),
            commit_sha: maybe_var(vars, "CIRCLE_SHA1"),
            message: None,
            url: maybe_var(vars, "CIRCLE_BUILD_URL"),
            collector: String::from_str("rust-buildkite-test-collector"),
            version: String::from_str("0.1.2"),
        },
    )
}

/// Every field of a generic identity record apart from its random key.
pub open spec fn generic_shape(e: RunEnvView) -> bool {
    &&& e.ci == "generic"@
    &&& e.key.len() == 36
    &&& e.number is None
    &&& e.job_id is None
    &&& e.branch is None
    &&& e.commit_sha is None
    &&& e.message is None
    &&& e.url is None
    &&& e.collector == collector_id()
    &&& e.version == collector_version()
}

fn generic_record() -> (r: RuntimeEnvironment)
    ensures
        generic_shape(r@),
{
    RuntimeEnvironment {
        ci: String::from_str("generic"),
        key: ids::new_uuid_string(),
        number: None,
        job_id: None,
        branch: None,
        commit_sha: None,
        message: None,
        url: None,
        collector: String::from_str("rust-buildkite-test-collector"),
        version: String::from_str("0.1.2"),
    }
}

/// Build a generic identity record, when any `CI` variable is set.  Its key
/// is a fresh random identifier.
pub fn generic_env(vars: &Vec<(String, String)>) -> (r: Option<RuntimeEnvironment>)
    ensures
        r is Some <==> var_of(vars@, "CI"@) is Some,
        r is Some ==> generic_shape(r->0@),
{
    match maybe_var(vars, "CI") {
        Some(_) => Some(generic_record()),
        None => None,
    }
}

impl RuntimeEnvironment {
    /// Detect the runtime environment from an environment snapshot, trying
    /// Buildkite, GitHub Actions, CircleCI and the generic fallback in that
    /// order.  Nothing is detected when none of their markers is set.
    pub fn detect(vars: &Vec<(String, String)>) -> (r: Option<RuntimeEnvironment>)
        ensures
            r is Some <==> (var_of(vars@, "BUILDKITE_BUILD_ID"@) is Some || (var_of(
                vars@,
                "GITHUB_ACTION"@,
            ) is Some && var_of(vars@, "GITHUB_RUN_NUMBER"@) is Some && var_of(
                vars@,
                "GITHUB_RUN_ATTEMPT"@,
            ) is Some) || (var_of(vars@, "CIRCLE_BUILD_NUM"@) is Some && var_of(
                vars@,
                "CIRCLE_WORKFLOW_ID"@,
            ) is Some) || var_of(vars@, "CI"@) is Some),
            r is Some ==> (if spec_detected_generic(vars@) {
                generic_shape(r->0@)
            } else {
                r->0@ == spec_detected(vars@)
            }),
    {
        match Self::detect_known(vars) {
            Some(e) => Some(e),
            None => generic_env(vars),
        }
    }

    fn detect_known(vars: &Vec<(String, String)>) -> (r: Option<RuntimeEnvironment>)
        ensures
            r is Some <==> (var_of(vars@, "BUILDKITE_BUILD_ID"@) is Some || (var_of(
                vars@,
                "GITHUB_ACTION"@,
            ) is Some && var_of(vars@, "GITHUB_RUN_NUMBER"@) is Some && var_of(
                vars@,
                "GITHUB_RUN_ATTEMPT"@,
            ) is Some) || (var_of(vars@, "CIRCLE_BUILD_NUM"@) is Some && var_of(
                vars@,
                "CIRCLE_WORKFLOW_ID"@,
            ) is Some)),
            r is Some ==> !spec_detected_generic(vars@) && r->0@ == spec_detected(vars@),
    {
        match buildkite_env(vars) {
            Some(e) => Some(e),
            None => match github_actions_env(vars) {
                Some(e) => Some(e),
                None => circle_ci_env(vars),
            },
        }
    }

    /// A generic identity record, independent of any environment snapshot.
    pub fn generic() -> (r: RuntimeEnvironment)
        ensures
            generic_shape(r@),
    {
        generic_record()
    }

    pub fn ci(&self) -> (r: &String)
        ensures
            r@ == self@.ci,
    {
        &self.ci
    }

    pub fn key(&self) -> (r: &String)
        ensures
            r@ == self@.key,
    {
        &self.key
    }

    pub fn number(&self) -> (r: &Option<String>)
        ensures
            r.deep_view() == self@.number,
    {
        &self.number
    }

    pub fn job_id(&self) -> (r: &Option<String>)
        ensures
            r.deep_view() == self@.job_id,
    {
        &self.job_id
    }

    pub fn branch(&self) -> (r: &Option<String>)
        ensures
            r.deep_view() == self@.branch,
    {
        &self.branch
    }

    pub fn commit_sha(&self) -> (r: &Option<String>)
        ensures
            r.deep_view() == self@.commit_sha,
    {
        &self.commit_sha
    }

    pub fn message(&self) -> (r: &Option<String>)
        ensures
            r.deep_view() == self@.message,
    {
        &self.message
    }

    pub fn url(&self) -> (r: &Option<String>)
        ensures
            r.deep_view() == self@.url,
    {
        &self.url
    }

    pub fn collector(&self) -> (r: &String)
        ensures
            r@ == self@.collector,
    {
        &self.collector
    }

    pub fn version(&self) -> (r: &String)
        ensures
            r@ == self@.version,
    {
        &self.version
    }
}

/// Which known provider an environment snapshot selects, in detection order.
pub open spec fn spec_detected(vars: Seq<(String, String)>) -> RunEnvView {
    if var_of(vars, "BUILDKITE_BUILD_ID"@) is Some {
        buildkite_view(vars)
    } else if var_of(vars, "GITHUB_ACTION"@) is Some && var_of(vars, "GITHUB_RUN_NUMBER"@) is Some
        && var_of(vars, "GITHUB_RUN_ATTEMPT"@) is Some {
        github_actions_view(vars)
    } else {
        circle_ci_view(vars)
    }
}

/// The snapshot falls through to the generic fallback: no known provider
/// marker is set.
pub open spec fn spec_detected_generic(vars: Seq<(String, String)>) -> bool {
    &&& var_of(vars, "BUILDKITE_BUILD_ID"@) is None
    &&& !(var_of(vars, "GITHUB_ACTION"@) is Some && var_of(vars, "GITHUB_RUN_NUMBER"@) is Some
        && var_of(vars, "GITHUB_RUN_ATTEMPT"@) is Some)
    &&& !(var_of(vars, "CIRCLE_BUILD_NUM"@) is Some && var_of(vars, "CIRCLE_WORKFLOW_ID"@)
        is Some)
}

impl Clone for RuntimeEnvironment {
    /// A field-for-field copy of the identity record.
    fn clone(&self) -> (r: Self)
        ensures
            r == *self,
    {
        RuntimeEnvironment {
            ci: self.ci.clone(),
            key: self.key.clone(),
            number: clone_opt_string(&self.number),
            job_id: clone_opt_string(&self.job_id),
            branch: clone_opt_string(&self.branch),
            commit_sha: clone_opt_string(&self.commit_sha),
            message: clone_opt_string(&self.message),
            url: clone_opt_string(&self.url),
            collector: self.collector.clone(),
            version: self.version.clone(),
        }
    }
}

/// A copy of an optional string, equal to the original.
pub(crate) fn clone_opt_string(o: &Option<String>) -> (r: Option<String>)
    ensures
        r == *o,
{
    match o {
        Some(s) => Some(s.clone()),
        None => None,
    }
}

} // verus!
