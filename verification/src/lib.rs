//! A large text file viewer core: encoding detection, a line index over a
//! memory-mapped file, line decoding, keyword search with staged refinement,
//! keyword highlighting and the viewer's search session state.

pub mod bindings;
pub mod encoding;
pub mod line_index;
pub mod file_handler;
pub mod format;
pub mod search;
pub mod highlight;
pub mod session;
