//! Reader and writer for the FAR archive container: a fixed header, a region
//! of concatenated file bytes and a trailing manifest of file records.

pub mod codec;
pub mod format;
pub mod farlib;
pub mod laws;
