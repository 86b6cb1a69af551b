//! Convenience constructors for encoded positions.

pub use crate::fid::CompactAbsolutePosition;
pub use crate::fid::StandardAbsolutePosition;

use crate::fid::AbsolutePosition;
use crate::fid::FileId;
use crate::fid::RelativePosition;
use crate::fid::SourceFilePosition;
use vstd::prelude::*;

verus! {

/// Packs a file identifier and the four span fields into an absolute
/// position. Decoding the result recovers every field exactly.
pub fn create_absolute_position<Id: FileId>(
    file_id: Id,
    start_line: u16,
    start_col: u8,
    end_line: u16,
    end_col: u8,
) -> (r: AbsolutePosition<Id>)
    ensures
        r.raw() == Id::spec_encode(file_id.id_u64(), start_line, start_col, end_line, end_col),
        r.spec_file_id_u64() == file_id.id_u64(),
        r.spec_source_file_id() == Some(file_id.id_u64() as u16),
        r.spec_start_line() == start_line,
        r.spec_start_column() == start_col,
        r.spec_end_line() == end_line,
        r.spec_end_column() == end_col,
{
    AbsolutePosition::new(file_id, start_line, start_col, end_line, end_col)
}

/// Packs the four span fields into a relative position. Decoding the result
/// recovers every field exactly.
pub fn create_relative_position(
    start_line: u16,
    start_col: u8,
    end_line: u16,
    end_col: u8,
) -> (r: RelativePosition)
    ensures
        r.raw() == crate::fid::rel_encode(start_line, start_col, end_line, end_col),
        r.spec_source_file_id() is None,
        r.spec_start_line() == start_line,
        r.spec_start_column() == start_col,
        r.spec_end_line() == end_line,
        r.spec_end_column() == end_col,
{
    RelativePosition::new(start_line, start_col, end_line, end_col)
}

} // verus!
