//! Follow new data in every file that a pattern matches.
//!
//! `watch` turns an operand into what is to be watched, `walk` finds the files, and `engine` reads
//! what is new in them and writes it out. None of them performs a system call: they say what to do
//! next, and are told what came of it. `event` and `schedule` say when to look at the files again.

pub mod engine;
pub mod error;
pub mod event;
pub mod follow;
pub mod glob;
pub mod laws;
pub mod order;
pub mod passes;
pub mod path;
pub mod prefix;
pub mod report;
pub mod rounds;
pub mod schedule;
pub mod table;
pub mod text;
pub mod tree;
pub mod walk;
pub mod watch;

pub use error::Error;
pub use follow::OutputMode;
