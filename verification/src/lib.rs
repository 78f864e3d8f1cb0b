//! The verified core of a finder of similar lines of text.
//!
//! The lines of a file pass a scan, which decides what of them is compared. The corpus holds the
//! lines of all files. Once each line was compared with all others, a report groups the similar
//! lines by file, and its binary form is what is written.

pub mod corpus;
pub mod encoding;
pub mod files;
pub mod layout;
pub mod pool;
pub mod progress;
pub mod report;
pub mod scan;
pub mod setup;
pub mod text;
