//! Data-only intents for printing, transfers and updates.
use vstd::prelude::*;
use crate::services::ExtraFields;

verus! {

#[derive(Clone, Debug, PartialEq, Eq)]
pub enum PrintIntent {
    Document { id: String },
    Selection { text: String },
}

#[derive(Clone, Debug, PartialEq, Eq)]
pub enum TransferIntent {
    Import { format: String },
    Export { format: String },
}

#[derive(Clone, Debug, PartialEq, Eq)]
pub enum UpdateState {
    Unknown,
    Available { version: String },
    Verified { version: String },
    Rejected,
}

/// Update metadata; unknown JSON fields are kept in `extra`.
pub struct UpdateMetadata {
    pub version: String,
    pub digest: String,
    pub signature: Option<String>,
    pub extra: ExtraFields,
}

} // verus!
