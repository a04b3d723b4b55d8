//! A text sink that forwards at most a fixed number of bytes and never cuts
//! a UTF-8 character in two.

pub mod boundary;
pub mod model;
pub mod writer;

pub use writer::{LimitedWriter, LimitedWriter2};
