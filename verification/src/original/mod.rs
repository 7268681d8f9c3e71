//! Decrunching for every proto, the options of crunching and decrunching,
//! and the encoding tables that a crunched stream starts with.

pub mod flags;

pub use crate::original::flags::{ProtoFlags, TraitFlags};
pub mod crunch_options;
pub use crate::original::crunch_options::{CrunchOptions, CrunchOptionsBuilder, CrunchOptionsError};
pub mod decrunch_options;
pub use crate::original::decrunch_options::{DecrunchOptions, DecrunchOptionsBuilder, DecrunchOptionsError};
pub mod bitstream;
pub mod encoding;
pub mod exodec;
pub mod decrunch;
pub use crate::original::decrunch::{decrunch_raw, decrunch_raw_checked};
mod crunch;
pub use crate::original::crunch::{arrange_output, CrunchInfo, Crunched, CrunchedMulti};
mod output;
pub use crate::original::output::{Level, Logger, LoggerDump};
pub mod stream;
pub mod matches;
pub mod roundtrip;
pub mod optimal;
