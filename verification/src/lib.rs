//! A hex-dump library: render a byte buffer as lines of little-endian
//! 16-bit words, and parse the command-line forms `PROGRAM FILE` and
//! `PROGRAM -n LEN FILE`.
//!
//! Every executable function carries a contract, and the library proves
//! the central properties of the text format: line count, line offsets,
//! and that the original bytes can be recovered from the dump.

pub mod args;
pub mod dump;
pub mod recover;

pub use args::parse_args;
pub use args::parse_len;
pub use args::ArgError;
pub use dump::hexdump;
