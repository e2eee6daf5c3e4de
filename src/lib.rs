//! A single-process kernel simulator, verified: a first-fit memory allocator
//! over a flat address space (`memory`), processes and their table
//! (`process`), a CPU scheduler with round-robin, priority and
//! shortest-job-first policies (`scheduler`), and a system-call dispatcher over
//! all three (`kernel`).
//!
//! Beside it stand smaller verified companions: fresh identifiers (`ids`),
//! containers (`list`, `heap`, `tree`, `hash_map`), text statistics and
//! rewriting (`text`, `words`, `files`), a response envelope (`api`) and a few
//! language-level helpers (`basics`).

pub mod api;
pub mod basics;
pub mod files;
pub mod hash_map;
pub mod heap;
pub mod ids;
pub mod kernel;
pub mod list;
pub mod memory;
pub mod process;
pub mod scheduler;
pub mod text;
pub mod tree;
pub mod words;

pub use words::word_count;

