//! Naming conventions of comparable image sets: from a few file names that
//! are shown side by side, the shared radix and one pattern per cell are
//! inferred; the patterns then find the other radixes of a directory listing
//! and the files that belong to one radix.

pub mod text;
pub mod matcher;
pub mod order;
pub mod extract;
pub mod scan;
pub mod resolve;

pub use extract::{extract_patterns, CellPattern, ExtractionResult};
pub use resolve::resolve_files_for_radix;
pub use scan::scan_radixes;
