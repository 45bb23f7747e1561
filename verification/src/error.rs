//! What can go wrong in the catalog, and how a failure reads at the boundary.

use vstd::prelude::*;
use crate::text::joined;

verus! {

/// The kinds of failure of a catalog operation.
#[derive(Debug, Clone, PartialEq, Eq)]
pub enum StoreError {
    /// An operation was requested before the handle reached the ready state.
    NotInitialized,
    /// Exclusive access to the catalog could not be had; the text says why.
    LockFailure(String),
    /// A nested field could not be written as text; the text says why.
    EncodeFailure(String),
    /// A stored row holds text that is not the stored text of any value.
    DecodeFailure,
    /// The storage engine reported a failure; the text says which.
    StorageEngine(String),
}

/// What went wrong, without the kind of the failure.
pub open spec fn detail_text(e: StoreError) -> Seq<char> {
    match e {
        StoreError::NotInitialized => "Database not initialized"@,
        StoreError::LockFailure(reason) => reason@,
        StoreError::EncodeFailure(reason) => reason@,
        StoreError::DecodeFailure => "a stored field is not valid"@,
        StoreError::StorageEngine(reason) => reason@,
    }
}

/// The one line that the caller at the boundary is given for a failure.
pub open spec fn message_text(e: StoreError) -> Seq<char> {
    match e {
        StoreError::NotInitialized => "Database not initialized"@,
        StoreError::LockFailure(reason) => "Failed to lock database: "@ + reason@,
        _ => "Database error: "@ + detail_text(e),
    }
}

/// The one line that the caller at the boundary is given where the catalog
/// could not be opened.
pub open spec fn open_failure_text(e: StoreError) -> Seq<char> {
    "Failed to initialize database: "@ + detail_text(e)
}

impl StoreError {
    /// What went wrong, without the kind of the failure.
    pub fn detail(&self) -> (m: String)
        ensures
            m@ == detail_text(*self),
    {
        match self {
            StoreError::NotInitialized => "Database not initialized".to_string(),
            StoreError::LockFailure(reason) => reason.clone(),
            StoreError::EncodeFailure(reason) => reason.clone(),
            StoreError::DecodeFailure => "a stored field is not valid".to_string(),
            StoreError::StorageEngine(reason) => reason.clone(),
        }
    }

    /// The one line that the caller at the boundary is given for this
    /// failure.
    pub fn message(&self) -> (m: String)
        ensures
            m@ == message_text(*self),
    {
        match self {
            StoreError::NotInitialized => "Database not initialized".to_string(),
            StoreError::LockFailure(reason) => joined("Failed to lock database: ", reason.as_str()),
            _ => {
                let detail = self.detail();
                joined("Database error: ", detail.as_str())
            },
        }
    }

    /// The one line that the caller at the boundary is given where opening
    /// the catalog failed with this failure.
    pub fn open_failure_message(&self) -> (m: String)
        ensures
            m@ == open_failure_text(*self),
    {
        let detail = self.detail();
        joined("Failed to initialize database: ", detail.as_str())
    }
}

/// The operations that answer with a line of text.
#[derive(Debug, Clone, Copy, PartialEq, Eq)]
pub enum Operation {
    SaveTemplate,
    ImportTemplates,
    DeleteTemplate,
    ToggleFavorite,
    SaveTag,
    ResetTags,
    ClearTemplates,
}

/// The line that tells the caller that an operation succeeded.
pub open spec fn success_text(op: Operation) -> Seq<char> {
    match op {
        Operation::SaveTemplate => "Template saved successfully"@,
        Operation::ImportTemplates => "Templates saved successfully"@,
        Operation::DeleteTemplate => "Template deleted successfully"@,
        Operation::ToggleFavorite => "Template favorite status toggled successfully"@,
        Operation::SaveTag => "Tag saved successfully"@,
        Operation::ResetTags => "Tags reset successfully"@,
        Operation::ClearTemplates => "Templates cleared successfully"@,
    }
}

/// The line that tells the caller that an operation succeeded.
pub fn success_message(op: Operation) -> (m: String)
    ensures
        m@ == success_text(op),
{
    match op {
        Operation::SaveTemplate => "Template saved successfully".to_string(),
        Operation::ImportTemplates => "Templates saved successfully".to_string(),
        Operation::DeleteTemplate => "Template deleted successfully".to_string(),
        Operation::ToggleFavorite => "Template favorite status toggled successfully".to_string(),
        Operation::SaveTag => "Tag saved successfully".to_string(),
        Operation::ResetTags => "Tags reset successfully".to_string(),
        Operation::ClearTemplates => "Templates cleared successfully".to_string(),
    }
}

/// The answer at the boundary to an operation that returns data: the data,
/// or the line for the failure.
pub fn report<T>(outcome: Result<T, StoreError>) -> (r: Result<T, String>)
    ensures
        match outcome {
            Ok(value) => r == Ok::<T, String>(value),
            Err(e) => r matches Err(m) && m@ == message_text(e),
        },
{
    match outcome {
        Ok(value) => Ok(value),
        Err(e) => Err(e.message()),
    }
}

/// The answer at the boundary to an operation that returns no data: the
/// line for its success, or the line for the failure.
pub fn acknowledge(outcome: Result<(), StoreError>, op: Operation) -> (r: Result<String, String>)
    ensures
        match outcome {
            Ok(_) => r matches Ok(m) && m@ == success_text(op),
            Err(e) => r matches Err(m) && m@ == message_text(e),
        },
{
    match outcome {
        Ok(_) => Ok(success_message(op)),
        Err(e) => Err(e.message()),
    }
}

/// The answer at the boundary to the request to open the catalog.
pub fn report_opening(outcome: Result<(), StoreError>) -> (r: Result<(), String>)
    ensures
        match outcome {
            Ok(_) => r is Ok,
            Err(e) => r matches Err(m) && m@ == open_failure_text(e),
        },
{
    match outcome {
        Ok(_) => Ok(()),
        Err(e) => Err(e.open_failure_message()),
    }
}

} // verus!
