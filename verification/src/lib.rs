//! Locates one transaction in an automated-teller electronic journal and
//! selects a bounded window of successful cash withdrawals around it.
//!
//! The journal is a stream of text lines. Lines of 55 asterisks separate
//! transaction records ("sessions"). A scan splits the stream into
//! sessions, classifies each one, and keeps the sessions from the N-th
//! successful withdrawal before the wanted transaction up to the N-th one
//! after it.

pub mod engine;
pub mod files;
pub mod predicates;
pub mod scan;
pub mod session;
pub mod splitter;
pub mod window;
