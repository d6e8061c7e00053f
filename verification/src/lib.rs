//! Streams, buffering, object framing and indented logging, with their
//! behaviour stated in contracts and proved.

pub mod containers;
pub mod control;
pub mod dev;
pub mod io;
pub mod log;
pub mod tester;
pub mod text;
