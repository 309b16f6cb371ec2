//! What the build service reports of its tasks.

use vstd::prelude::*;
use vstd::std_specs::convert::FromSpecImpl;

verus! {

/// The state of a build task.
#[derive(Clone, Copy, Debug, PartialEq, Eq, Structural)]
pub enum BuildStatus {
    /// Freshly created task.
    New,
    /// The build stays blocked until what blocks it has been mended.
    Blocked,
    /// The task is building.
    Building,
    /// The task is publishing its result.
    Publishing,
    /// The task has completed.
    Completed,
    /// The task failed to run or to evaluate.
    Failed,
    /// A newer task has taken the place of this one.
    Superseded,
    /// The task was cancelled.
    Cancelled,
}

/// The state that a number stands for. A number that stands for no state
/// counts as `Failed`.
pub open spec fn status_of(value: i32) -> BuildStatus {
    if value == 0 {
        BuildStatus::New
    } else if value == 1 {
        BuildStatus::Blocked
    } else if value == 2 {
        BuildStatus::Building
    } else if value == 3 {
        BuildStatus::Publishing
    } else if value == 4 {
        BuildStatus::Completed
    } else if value == 6 {
        BuildStatus::Superseded
    } else if value == 7 {
        BuildStatus::Cancelled
    } else {
        BuildStatus::Failed
    }
}

/// The number that stands for a state.
pub open spec fn code_of(status: BuildStatus) -> i32 {
    match status {
        BuildStatus::New => 0,
        BuildStatus::Blocked => 1,
        BuildStatus::Building => 2,
        BuildStatus::Publishing => 3,
        BuildStatus::Completed => 4,
        BuildStatus::Failed => 5,
        BuildStatus::Superseded => 6,
        BuildStatus::Cancelled => 7,
    }
}

impl From<i32> for BuildStatus {
    fn from(value: i32) -> (status: Self) {
        match value {
            0 => BuildStatus::New,
            1 => BuildStatus::Blocked,
            2 => BuildStatus::Building,
            3 => BuildStatus::Publishing,
            4 => BuildStatus::Completed,
            5 => BuildStatus::Failed,
            6 => BuildStatus::Superseded,
            7 => BuildStatus::Cancelled,
            _ => BuildStatus::Failed,
        }
    }
}

impl FromSpecImpl<i32> for BuildStatus {
    open spec fn obeys_from_spec() -> bool {
        true
    }

    open spec fn from_spec(value: i32) -> BuildStatus {
        status_of(value)
    }
}

impl BuildStatus {
    /// The number that stands for the state.
    pub fn code(self) -> (code: i32)
        ensures
            code == code_of(self),
            status_of(code) == self,
    {
        match self {
            BuildStatus::New => 0,
            BuildStatus::Blocked => 1,
            BuildStatus::Building => 2,
            BuildStatus::Publishing => 3,
            BuildStatus::Completed => 4,
            BuildStatus::Failed => 5,
            BuildStatus::Superseded => 6,
            BuildStatus::Cancelled => 7,
        }
    }
}

/// The number of a state stands for that state.
pub proof fn lemma_status_round_trip(status: BuildStatus)
    ensures
        status_of(code_of(status)) == status,
        0 <= code_of(status) <= 7,
{
}

/// One build task.
#[derive(Clone, Debug, PartialEq, Eq)]
pub struct Task {
    pub id: i64,
    pub project_id: i64,
    pub repo_id: i64,
    pub profile_id: i64,
    pub slug: String,
    pub pkg_id: String,
    pub architecture: String,
    pub build_id: String,
    pub description: String,
    pub commit_ref: String,
    pub source_path: String,
    pub status: BuildStatus,
    pub ts_started: i64,
    pub ts_updated: i64,
    pub ts_ended: i64,
    pub blocked_by: Vec<String>,
    pub allocated_builder: String,
    pub log_path: String,
}

/// One page of the list of build tasks.
#[derive(Clone, Debug, PartialEq, Eq)]
pub struct TaskEnumerateResponse {
    pub items: Vec<Task>,
    pub num_pages: i32,
    pub page: i32,
    pub has_previous: bool,
    pub has_next: bool,
}

} // verus!
