//! Errors surfaced by the TSM file writer and reader. None is recovered
//! locally: the caller owns the file-lifecycle decision.

use vstd::prelude::*;

verus! {

#[derive(Debug)]
pub enum Error {
    /// An underlying write failed while building a file; carries the cause.
    WriteTsmErr { reason: String },
    /// A block's stored checksum does not match its payload.
    CorruptionErr,
    /// The footer offset or an index record points outside the file: the
    /// whole file is rejected as truncated or foreign.
    LayoutErr,
}

impl Error {
    /// True of the corruption variant; contracts select on it.
    pub open spec fn is_corruption(self) -> bool {
        self is CorruptionErr
    }

    /// True of the layout variant; contracts select on it.
    pub open spec fn is_layout(self) -> bool {
        self is LayoutErr
    }
}

} // verus!
