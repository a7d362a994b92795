//! Turns the text of a long directory listing (`ls -lpa`) into sorted lists
//! of files, with their sizes, and of folders.
//!
//! Symbolic links and block and character devices are left out of both
//! lists, as are the `.` and `..` entries. The first malformed line fails the
//! whole parse, with that line attached to the error.

pub mod error;
pub mod line;
pub mod listing;
pub mod name;
pub mod sort;
pub mod text;

pub use error::{Error, ErrorKind};
pub use listing::{LsOutput, LsOutputFile};
