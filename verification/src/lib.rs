//! Streaming line and byte processing for three classic text tools:
//! concatenation with optional line numbering, truncation to a leading
//! number of lines or bytes, and counting of lines, words, bytes and
//! characters.
//!
//! Every function here is pure: sources arrive as byte buffers that the
//! caller has already read, and what a tool would print comes back as text.
pub mod cat;
pub mod config;
pub mod format;
pub mod head;
pub mod lines;
pub mod report;
pub mod text;
pub mod wc;

