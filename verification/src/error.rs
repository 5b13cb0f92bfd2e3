//! What can go wrong during a sort.
use vstd::prelude::*;

verus! {

/// A failure of the sort, with the message of the layer that reported it.
#[derive(Debug, Clone, PartialEq, Eq)]
pub enum SortError {
    /// Opening, seeking, reading, writing or creating a run in the workspace failed.
    StorageIo(String),
    /// A record could not be serialized or deserialized.
    Encoding(String),
    /// The temporary workspace could not be allocated.
    WorkspaceCreation(String),
}

impl SortError {
    /// The message of the layer that reported the failure.
    pub fn message(&self) -> (text: &String)
        ensures
            *text == match *self {
                SortError::StorageIo(m) => m,
                SortError::Encoding(m) => m,
                SortError::WorkspaceCreation(m) => m,
            },
    {
        match self {
            SortError::StorageIo(m) => m,
            SortError::Encoding(m) => m,
            SortError::WorkspaceCreation(m) => m,
        }
    }
}

} // verus!
