//! Metadata payload structures found inside MP4 / QuickTime style container
//! atoms: a typed value codec (`Data`) that decodes and encodes the raw bytes
//! of a leaf payload according to the well-known type-code table, and a
//! recursive content tree (`Content` / `Atom`) that tracks exact byte-length
//! budgets across nesting levels.
//!
//! All reading and writing happens on in-memory byte cursors (`Reader`,
//! `Writer`); opening files or sockets is the caller's business.

pub mod content;
pub mod data;
pub mod error;
pub mod stream;
pub mod utf16;

pub use content::Atom;
pub use content::Content;
pub use data::Data;
pub use error::Error;
pub use error::ErrorKind;
pub use stream::Reader;
pub use stream::Writer;
