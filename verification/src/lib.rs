//! Scanning a directory of text files for lines that match any of a set of
//! regular expressions, and gathering those lines in one output file.
//!
//! The library decides; it performs no input or output of its own. Each part
//! that has to wait for the outside world (the directory walk, the reader of
//! one file, the writer of the output, the run as a whole) is a state machine
//! that is told what happened and answers what to do next.
pub mod cli;
pub mod engine;
pub mod logger;
pub mod matcher;
pub mod run_course;
pub mod run_laws;
pub mod scan;
pub mod stamp;
pub mod text;
pub mod walk;
pub mod walk_laws;
pub mod writer;
