//! An append-only record store: records are framed into a fixed-layout
//! binary encoding, appended to capped segment files, and located again
//! through an in-memory offset index keyed by record ID.

use vstd::prelude::*;

mod codec;
pub mod meta;
pub mod record;

verus! {

/// Number of records a single segment file may hold; part of the on-disk
/// format, so writer and reader must agree on it.
pub const MAX_SEGMENT_RECORDS: u64 = 100;

/// The segment a 1-based record ID belongs to.
pub open spec fn spec_segment_of(id: u64) -> int
    recommends
        id >= 1,
{
    (id - 1) / (MAX_SEGMENT_RECORDS as int)
}

/// A record's 0-based position within its segment.
pub open spec fn spec_position_of(id: u64) -> int
    recommends
        id >= 1,
{
    (id - 1) % (MAX_SEGMENT_RECORDS as int)
}

} // verus!
