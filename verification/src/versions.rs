//! Saved versions of a project, as they are listed.

use vstd::prelude::*;

use crate::processing::Processing;
use crate::storage::StoredVersion;

verus! {

/// What is told where versions cannot be changed.
pub const BUSY: &'static str = "project versions cannot be changed while processing is running";

/// A saved version, as it is listed.
#[derive(Debug)]
pub struct ProjectVersion {
    pub id: u128,
    pub name: String,
    pub created_at_ms: u64,
    pub revision: u64,
}

impl ProjectVersion {
    /// What is listed of a saved version.
    pub fn of(version: &StoredVersion) -> (result: ProjectVersion)
        ensures
            result.id == version.id,
            result.name@ == version.name@,
            result.created_at_ms == version.created_at_ms,
            result.revision == version.state.revision,
    {
        ProjectVersion {
            id: version.id,
            name: version.name.clone(),
            created_at_ms: version.created_at_ms,
            revision: version.state.revision,
        }
    }
}

/// Checks that versions can be changed: while a job runs they cannot.
pub fn ensure_idle(processing: &Processing) -> (result: Result<(), &'static str>)
    ensures
        processing.running is None ==> result is Ok,
        processing.running is Some ==> (result matches Err(message) && message@ == BUSY@),
{
    processing.ensure_idle(BUSY)
}

} // verus!
