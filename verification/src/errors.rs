//! The error type shared by every module.

use vstd::prelude::*;

verus! {

/// Everything that can go wrong while decoding, validating or storing data.
#[derive(Debug)]
pub enum QueryError {
    /// Stored bytes do not have the expected shape.
    Decode(&'static str),
    /// A block handed to ingest contradicts itself.
    InvalidBlock(&'static str),
    /// The backing store failed or answered something unusable.
    Backend(String),
    /// A row that must exist is absent.
    MissingData(&'static str),
    /// A sealed page's stream inventory names a page artifact that is absent.
    SealedPageMissingArtifact { stream_id: String, page_start: u64 },
}

/// Result of a fallible operation of this crate.
pub type Result<T> = core::result::Result<T, QueryError>;

impl QueryError {
    /// The human-readable text an error carries.
    pub open spec fn spec_detail(self) -> Seq<char> {
        match self {
            QueryError::Decode(text) => text@,
            QueryError::InvalidBlock(text) => text@,
            QueryError::Backend(text) => text@,
            QueryError::MissingData(text) => text@,
            QueryError::SealedPageMissingArtifact { stream_id, .. } => stream_id@,
        }
    }

    /// The human-readable text this error carries: the message, or the id of
    /// the stream whose sealed page is missing.
    pub fn detail(&self) -> (text: &str)
        ensures
            text@ == self.spec_detail(),
    {
        match self {
            QueryError::Decode(text) => text,
            QueryError::InvalidBlock(text) => text,
            QueryError::Backend(text) => text.as_str(),
            QueryError::MissingData(text) => text,
            QueryError::SealedPageMissingArtifact { stream_id, .. } => stream_id.as_str(),
        }
    }
}

} // verus!
