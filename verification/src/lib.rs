//! A small note store: notes are kept in memory, mirrored in a single
//! append-only text log, and amended by a background archiver. The codec
//! between the note sequence and the log text, the store operations, the
//! link substitution done at creation time, and the archiver's repair step
//! are all verified here; file and network I/O live outside the library.

pub mod links;
pub mod store;
pub mod outside;
pub mod codec;
pub mod text;
pub mod text_laws;
