//! Simple (and specialized) decrunch routines.
//!
//! Only a subset of all protos are supported: 9, 13, 25, 29, 41, 45, 57 and 61.
//!
//! Or by flag:
//! - `Impl1Literal`, `FourOffsetTables` and `ReuseOffset` can be chosen at will
//! - `OrderBe` and `AlignStart` must be enabled
//! - `CopyGt7` must be disabled
//!
//! The data must be crunched backwards and fed reversed into the routine:
//! either write the crunched data reversed (`write_reverse(true)`) or reverse
//! the bytes before handing them over (the routines take a byte slice, so a
//! stream written forwards is collected in reverse order first, as with
//! `data.iter().rev().copied().collect::<Vec<u8>>()`).
//!
//! A stream must not hold a sequence whose gamma code is 68 or more (see
//! [`common::decrunch_bad_code`]): no table entry codes one.
//!
//! It comes in two flavours: [`dynamic`] and [`generic`]. [`readback`]
//! shows that they decrunch what the cruncher writes.

pub mod common;
pub mod dynamic;
mod error;
pub mod generic;
pub mod readback;

pub use crate::simple::error::DecrunchError;
