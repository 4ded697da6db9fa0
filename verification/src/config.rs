use vstd::prelude::*;

verus! {

/// The most bytes that the fields of one record may hold together; a longer
/// record is skipped to its end and reported as malformed.
pub const MAX_RECORD_BYTES: usize = 65536;

} // verus!
