//! Verified core of a grade-report watcher.
//!
//! The library covers the three stages that carry the logic: unwrapping the
//! portal's escaped envelope and walking the report table into `Course`
//! records, diffing a fresh course list against the persisted snapshot, and
//! rendering the resulting changes as a notification message.  Network and
//! file access stay outside; callers hand in plain values.

pub mod diff;
pub mod envelope;
pub mod error;
pub mod extract;
pub mod fetch;
pub mod format;
pub mod models;
pub mod snapshot;
pub mod text;

pub use error::Credential;
pub use error::GradeError;
pub use models::Course;
pub use models::CourseModel;
pub use models::Grade;
pub use models::GradeDiff;
pub use models::GradeDiffModel;
pub use models::GradeModel;
