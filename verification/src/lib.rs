//! Exomizer crunched-data formats: verified decrunching in two flavours and
//! the option sets used to crunch and decrunch in "raw" mode.
//!
//! - [original]: the full decruncher for every proto, the option builders,
//!   the encoding tables, the match finder and the stream writer of the
//!   cruncher, with the proofs that written streams decrunch back.
//! - [simple]: a fast decruncher for the protos 9, 13, 25, 29, 41, 45, 57
//!   and 61, writing into a caller-supplied buffer.

pub mod simple;
pub mod original;
