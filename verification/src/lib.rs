//! Verified cores of three small system tools: a file-name index kept current from a
//! change journal, a minimal HTTP server, and an open-handle finder.
pub mod dospath;
pub mod http;
pub mod index;
pub mod journal;
pub mod output;
pub mod process;
pub mod query;
pub mod rebuild;
pub mod report;
pub mod resolve;
pub mod scan;
pub mod search;
pub mod seqs;
pub mod server;
pub mod snapshot;
pub mod sort;
pub mod text;
pub mod update;
pub mod usn;
pub mod volume;
pub mod wide;
