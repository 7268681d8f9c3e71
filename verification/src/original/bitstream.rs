//! The bit writer of the cruncher: bits are gathered into a byte that is
//! appended once full, whole bytes go straight into the output.
use vstd::prelude::*;

verus! {

/// The writer's state: the bytes written so far, and `bitcount` bits
/// gathered in `bitbuf`.
pub struct WState {
    pub out: Seq<u8>,
    pub bitbuf: u8,
    pub bitcount: u8,
}

/// Adds one bit: with big-endian order (`be`) bits enter at the top of the
/// byte, else at the bottom; a full byte is appended.
pub open spec fn put_bit(s: WState, be: bool, bit: bool) -> WState {
    let b: u8 = if be {
        ((s.bitbuf >> 1u8) | (if bit {
            0x80u8
        } else {
            0u8
        })) as u8
    } else {
        (((s.bitbuf << 1u8) as u8) | (if bit {
            1u8
        } else {
            0u8
        })) as u8
    };
    if s.bitcount + 1 == 8 {
        WState { out: s.out.push(b), bitbuf: 0, bitcount: 0 }
    } else {
        WState { out: s.out, bitbuf: b, bitcount: (s.bitcount + 1) as u8 }
    }
}

/// Writes the `count` low bits of `val`, least significant first; with
/// `copy_gt7`, whole low bytes are appended first while more than 7 bits
/// are left.
pub open spec fn put_bits(s: WState, be: bool, copy_gt7: bool, count: nat, val: nat) -> WState
    decreases count,
{
    if copy_gt7 && count > 7 {
        put_bits(
            WState { out: s.out.push((val % 256) as u8), ..s },
            be,
            copy_gt7,
            (count - 8) as nat,
            val / 256,
        )
    } else if count == 0 {
        s
    } else {
        put_bits(put_bit(s, be, val % 2 == 1), be, copy_gt7, (count - 1) as nat, val / 2)
    }
}

/// Writes `code` as a 1 bit followed by `code` 0 bits.
pub open spec fn put_gamma(s: WState, be: bool, code: nat) -> WState
    decreases code,
{
    if code == 0 {
        put_bit(s, be, true)
    } else {
        put_bit(put_gamma(s, be, (code - 1) as nat), be, false)
    }
}

/// Appends the gathered bits as a byte, after a 1 marker bit when `marker`.
pub open spec fn flush(s: WState, be: bool, marker: bool) -> WState {
    let (b, cnt): (u8, nat) = if marker {
        (
            if be {
                (s.bitbuf | ((0x80u8 >> s.bitcount) as u8)) as u8
            } else {
                (s.bitbuf | ((1u8 << s.bitcount) as u8)) as u8
            },
            (s.bitcount + 1) as nat,
        )
    } else {
        (s.bitbuf, s.bitcount as nat)
    };
    if cnt > 0 {
        WState { out: s.out.push(b), bitbuf: 0, bitcount: 0 }
    } else {
        WState { out: s.out, bitbuf: b, bitcount: 0 }
    }
}

/// The number of 0 bits that make the gathered bits a whole byte.
pub open spec fn alignment(s: WState) -> nat {
    ((8 - s.bitcount) % 8) as nat
}

/// The bit writer.
pub struct OutputCtx {
    pub buf: Vec<u8>,
    pub bitbuf: u8,
    pub bitcount: u8,
    pub be: bool,
    pub copy_gt7: bool,
}

impl OutputCtx {
    pub open spec fn state(&self) -> WState {
        WState { out: self.buf@, bitbuf: self.bitbuf, bitcount: self.bitcount }
    }

    pub open spec fn wf(&self) -> bool {
        self.bitcount < 8
    }

    /// A writer for proto `flags_proto` that appends to `buf`.
    pub fn new(buf: Vec<u8>, flags_proto: u8) -> (r: Self)
        ensures
            r.wf(),
            r.state() == (WState { out: buf@, bitbuf: 0, bitcount: 0 }),
            r.be == (flags_proto & 1 != 0),
            r.copy_gt7 == (flags_proto & 2 != 0),
    {
        OutputCtx { buf, bitbuf: 0, bitcount: 0, be: flags_proto & 1 != 0, copy_gt7: flags_proto & 2 != 0 }
    }

    pub fn output_byte(&mut self, byte: u8)
        ensures
            final(self).state() == (WState { out: old(self).buf@.push(byte), ..old(self).state() }),
            final(self).be == old(self).be,
            final(self).copy_gt7 == old(self).copy_gt7,
    {
        self.buf.push(byte);
    }

    fn bit(&mut self, bit: bool)
        requires
            old(self).wf(),
        ensures
            final(self).wf(),
            final(self).state() == put_bit(old(self).state(), old(self).be, bit),
            final(self).be == old(self).be,
            final(self).copy_gt7 == old(self).copy_gt7,
    {
        if self.be {
            self.bitbuf = (self.bitbuf >> 1) | (if bit {
                0x80u8
            } else {
                0u8
            });
        } else {
            self.bitbuf = (self.bitbuf << 1) | (if bit {
                1u8
            } else {
                0u8
            });
        }
        self.bitcount = self.bitcount + 1;
        if self.bitcount == 8 {
            let b = self.bitbuf;
            self.buf.push(b);
            self.bitbuf = 0;
            self.bitcount = 0;
        }
    }

    /// Writes the `count` low bits of `val` (see [`put_bits`]).
    pub fn output_bits(&mut self, count: u32, val: u32)
        requires
            old(self).wf(),
        ensures
            final(self).wf(),
            final(self).state() == put_bits(old(self).state(), old(self).be, old(self).copy_gt7, count as nat, val as nat),
            final(self).be == old(self).be,
            final(self).copy_gt7 == old(self).copy_gt7,
    {
        let mut count = count;
        let mut val = val;
        let ghost target = put_bits(self.state(), self.be, self.copy_gt7, count as nat, val as nat);
        if self.copy_gt7 {
            while count > 7
                invariant
                    self.wf(),
                    self.copy_gt7,
                    self.be == old(self).be,
                    put_bits(self.state(), self.be, self.copy_gt7, count as nat, val as nat) == target,
                decreases count,
            {
                self.buf.push((val % 256) as u8);
                count = count - 8;
                val = val / 256;
            }
        }
        while count > 0
            invariant
                self.wf(),
                self.copy_gt7 == old(self).copy_gt7,
                self.be == old(self).be,
                self.copy_gt7 ==> count <= 7,
                put_bits(self.state(), self.be, self.copy_gt7, count as nat, val as nat) == target,
            decreases count,
        {
            self.bit(val % 2 == 1);
            count = count - 1;
            val = val / 2;
        }
    }

    /// Writes a 1 bit and then `code` 0 bits.
    pub fn output_gamma_code(&mut self, code: u32)
        requires
            old(self).wf(),
        ensures
            final(self).wf(),
            final(self).state() == put_gamma(old(self).state(), old(self).be, code as nat),
            final(self).be == old(self).be,
            final(self).copy_gt7 == old(self).copy_gt7,
    {
        self.bit(true);
        let mut k: u32 = 0;
        while k < code
            invariant
                k <= code,
                self.wf(),
                self.be == old(self).be,
                self.copy_gt7 == old(self).copy_gt7,
                self.state() == put_gamma(old(self).state(), old(self).be, k as nat),
            decreases code - k,
        {
            self.bit(false);
            k = k + 1;
        }
    }

    /// Appends the gathered bits (see [`flush`]).
    pub fn output_bits_flush(&mut self, marker: bool)
        requires
            old(self).wf(),
        ensures
            final(self).wf(),
            final(self).state() == flush(old(self).state(), old(self).be, marker),
            final(self).be == old(self).be,
            final(self).copy_gt7 == old(self).copy_gt7,
    {
        let mut cnt = self.bitcount;
        if marker {
            if self.be {
                self.bitbuf = self.bitbuf | (0x80u8 >> self.bitcount);
            } else {
                self.bitbuf = self.bitbuf | (1u8 << self.bitcount);
            }
            cnt = cnt + 1;
        }
        if cnt > 0 {
            let b = self.bitbuf;
            self.buf.push(b);
            self.bitbuf = 0;
        }
        self.bitcount = 0;
    }

    /// The number of 0 bits that would make the gathered bits a whole byte.
    pub fn output_bits_alignment(&self) -> (r: u32)
        requires
            self.wf(),
        ensures
            r as nat == alignment(self.state()),
    {
        ((8 - self.bitcount) % 8) as u32
    }
}

} // verus!
