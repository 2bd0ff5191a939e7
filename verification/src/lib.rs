//! An in-memory mirror of text buffers synchronized through incremental
//! range-based edits, as an editor sends them to a language server.
//!
//! Each document tracks its content as UTF-8 bytes together with a table of
//! line-start byte offsets, and converts between byte offsets and
//! (line, UTF-16 code unit) positions without rescanning the whole buffer
//! on every edit.

mod chars;
mod lines;
mod text_document;
mod text_documents;
mod types;

pub use text_document::FullTextDocument;
pub use text_documents::DocumentEntry;
pub use text_documents::DocumentEvent;
pub use text_documents::TextDocuments;
pub use types::ContractViolation;
pub use types::Position;
pub use types::Range;
pub use types::TextDocumentContentChangeEvent;
