//! Compact source positions: a bit-packed span codec, a file registry that
//! hands out small deterministic file IDs, and a line-offset index that maps
//! spans back to the underlying bytes.

pub mod clo;
pub mod fid;
pub mod ord;
pub mod sfm;
pub mod sfp;

pub use fid::AbsolutePosition;
pub use fid::CompactAbsolutePosition;
pub use fid::FileId;
pub use fid::RelativePosition;
pub use fid::SourceFilePosition;
pub use fid::StandardAbsolutePosition;
pub use sfm::RuntimeFeedback;
pub use sfm::SourceFilesMap;
pub use sfp::create_absolute_position;
pub use sfp::create_relative_position;
