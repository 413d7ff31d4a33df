//! The flat task record and its domain field types.
use vstd::prelude::*;

use crate::dates::parse_rfc3339;
use crate::dates::rfc3339_instant;

verus! {

/// Priority of a task as the remote service encodes it: the further down the
/// list, the more urgent the task.
#[derive(Debug, Clone, Copy, PartialEq, Eq, Structural)]
pub enum Priority {
    /// Least urgent (shown as p4).
    Normal,
    /// Shown as p3.
    High,
    /// Shown as p2.
    VeryHigh,
    /// Most urgent (shown as p1).
    Urgent,
}

impl Priority {
    /// Numeric rank of the priority, matching the service's wire encoding:
    /// 1 for Normal up to 4 for Urgent.
    pub open spec fn rank(self) -> int {
        match self {
            Priority::Normal => 1,
            Priority::High => 2,
            Priority::VeryHigh => 3,
            Priority::Urgent => 4,
        }
    }

    /// Wire value of the priority.
    pub fn value(self) -> (v: u8)
        ensures
            v as int == self.rank(),
    {
        match self {
            Priority::Normal => 1,
            Priority::High => 2,
            Priority::VeryHigh => 3,
            Priority::Urgent => 4,
        }
    }
}

/// Unit of a task duration.
#[derive(Debug, Clone, Copy, PartialEq, Eq, Structural)]
pub enum DurationUnit {
    /// Time unit in minutes.
    Minute,
    /// Time unit in days.
    Day,
}

/// Duration of a task: an amount of minutes or days.
#[derive(Debug, Clone, Copy, PartialEq, Eq, Structural)]
pub struct Duration {
    /// Amount of time the task will take.
    pub amount: u32,
    /// Unit of time.
    pub unit: DurationUnit,
}

impl Duration {
    /// The duration normalized to minutes, for comparison only: a day counts
    /// as 1440 minutes.
    pub open spec fn spec_minutes(self) -> int {
        match self.unit {
            DurationUnit::Minute => self.amount as int,
            DurationUnit::Day => self.amount as int * 1440,
        }
    }

    /// Computes the duration in minutes; a day counts as 1440 minutes.
    pub fn minutes(self) -> (m: u64)
        ensures
            m as int == self.spec_minutes(),
    {
        match self.unit {
            DurationUnit::Minute => self.amount as u64,
            DurationUnit::Day => self.amount as u64 * 1440,
        }
    }
}

/// Due information of a task, kept in the human- and machine-readable forms
/// the remote service hands out.
#[derive(Debug, Clone)]
pub struct DueDate {
    /// Human-readable form of the due date.
    pub string: String,
    /// The date on which the task is due, as the service formats it:
    /// `YYYY-MM-DD`, `YYYY-MM-DDTHH:MM:SS`, or an RFC 3339 timestamp.
    pub date: String,
    /// Timezone name for fixed dates; absent for full-day or floating dates.
    pub timezone: Option<String>,
    /// Language code for parsing the human-readable string.
    pub lang: String,
    /// Whether the task reopens after being closed.
    pub is_recurring: bool,
}

impl DueDate {
    /// The exact instant this due date names, in milliseconds since the
    /// Unix epoch, when its date string is a full RFC 3339 timestamp
    /// rather than a bare date.
    pub fn exact_datetime(&self) -> (r: Option<i64>)
        ensures
            r == rfc3339_instant(self.date@),
    {
        match parse_rfc3339(self.date.as_str()) {
            Some(p) => Some(p.0),
            None => None,
        }
    }
}

/// The language code the service assumes when none is given.
pub fn default_lang() -> (s: String)
    ensures
        s@ == "en"@,
{
    "en".to_owned()
}

/// A flat task record as fetched from the remote service, reduced to the
/// fields the hierarchy engine reads: identity, the optional parent link, and
/// the sort and filter keys.
#[derive(Debug, Clone)]
pub struct Record {
    /// Unique, opaque identifier of the task.
    pub id: String,
    /// Identifier of the parent task, if this is a subtask.
    pub parent_id: Option<String>,
    /// Identifier of the project the task belongs to.
    pub project_id: String,
    /// Identifier of the section within the project, if any.
    pub section_id: Option<String>,
    /// Names of the labels attached to the task.
    pub labels: Vec<String>,
    /// How urgent the task is.
    pub priority: Priority,
    /// Due information, if the task has any.
    pub due: Option<DueDate>,
    /// Duration, if the task has one.
    pub duration: Option<Duration>,
    /// When the task was created, in milliseconds since the Unix epoch.
    pub created_at: i64,
    /// Manual order of the task within its siblings.
    pub order: i64,
}

} // verus!
