//! Transport bridge for a language-analysis server that speaks a
//! length-prefixed message protocol over its standard streams.
//!
//! The verified core is the wire logic: building a framed payload around a
//! message body, classifying header lines, the reader state machine that
//! turns a byte stream into message and log events, and the send-path
//! decision that refuses to write while no process is running.  Process
//! spawning, pipes, and background threads are ordinary I/O and live in the
//! surrounding application, which drives these functions.

pub mod channel;
pub mod framing;
pub mod reader;
pub mod text;
