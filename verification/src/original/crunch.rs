//! What crunching gives back.
use crate::original::encoding::reverse_buffer;
use crate::original::flags::TraitFlags;
use crate::original::roundtrip::crunch_arranged;
use vstd::prelude::*;

verus! {

/// Result of a single-file crunch.
pub struct Crunched {
    pub output: Vec<u8>,
    pub enc_bytes: Vec<u8>,
    pub enc_string: String,
    pub crunch_info: CrunchInfo,
}

/// Result of a multi-file crunch.
pub struct CrunchedMulti {
    pub outputs: Vec<Vec<u8>>,
    pub enc_bytes: Vec<u8>,
    pub enc_string: String,
    pub crunch_info: CrunchInfo,
}

/// Information about the crunch process.
#[derive(Clone, Copy, Debug)]
pub struct CrunchInfo {
    pub traits_used: TraitFlags,
    pub max_len: usize,
    pub max_offset: usize,
    pub needed_safety_offset: usize,
}

impl CrunchInfo {
    /// What two crunches used together: the traits of either, and the
    /// larger of each maximum.
    pub fn merge(self, other: CrunchInfo) -> (r: CrunchInfo)
        ensures
            r.traits_used == TraitFlags::of_num(self.traits_used.num() | other.traits_used.num()),
            r.max_len == (if self.max_len >= other.max_len {
                self.max_len
            } else {
                other.max_len
            }),
            r.max_offset == (if self.max_offset >= other.max_offset {
                self.max_offset
            } else {
                other.max_offset
            }),
            r.needed_safety_offset == (if self.needed_safety_offset >= other.needed_safety_offset {
                self.needed_safety_offset
            } else {
                other.needed_safety_offset
            }),
    {
        CrunchInfo {
            traits_used: self.traits_used.union(other.traits_used),
            max_len: if self.max_len >= other.max_len {
                self.max_len
            } else {
                other.max_len
            },
            max_offset: if self.max_offset >= other.max_offset {
                self.max_offset
            } else {
                other.max_offset
            },
            needed_safety_offset: if self.needed_safety_offset >= other.needed_safety_offset {
                self.needed_safety_offset
            } else {
                other.needed_safety_offset
            },
        }
    }
}

/// Arranges a written stream as a crunch hands it out (see
/// [`crunch_arranged`]): reversed when crunching forwards, and reversed
/// once more with `write_reverse`.
pub fn arrange_output(out: &mut Vec<u8>, forward: bool, write_reverse: bool)
    ensures
        final(out)@ == crunch_arranged(forward, write_reverse, old(out)@),
{
    if forward {
        reverse_buffer(out);
    }
    if write_reverse {
        reverse_buffer(out);
    }
}

} // verus!
