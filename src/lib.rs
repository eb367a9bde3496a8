//! Columnar encoding of mass-spectrometry scans: the record model, the
//! definition/repetition level encoder and its inverse, the long layout with
//! scan-reference resolution, and the chunked row-group policy.
pub mod levels;
pub mod model;
pub mod wide;
pub mod reader;
pub mod long;
pub mod schema;
