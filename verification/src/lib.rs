//! Verified core of a device file-puller: it turns the loosely structured
//! text of a recursive directory listing into absolute remote paths, filters
//! them against a skip list and include/exclude regular expressions, and
//! re-roots each survivor under a local destination folder, keeping the
//! source and destination collections paired by index throughout.

pub mod bridge;
pub mod filters;
pub mod listing;
pub mod paths;
pub mod plan;
pub mod presets;
pub mod resolve;
pub mod text;
