//! The decruncher for every proto: its model of the stream and its loop.
//!
//! Bits are taken from a byte that holds a marker bit: a byte is shifted out
//! bit by bit (from the top with `OrderBe`, else from the bottom) until only
//! the marker is left, then the next byte is taken and a new marker shifted
//! in behind it.
use crate::simple::DecrunchError;
use vstd::arithmetic::power2::*;
use vstd::bits::*;
use vstd::prelude::*;

verus! {

/// The reader's place: `pos` bytes taken, and the byte being shifted out.
pub struct RState {
    pub pos: nat,
    pub bitbuf: u8,
}

/// The bit-stream format flags that the reader acts on.
pub struct Flags {
    pub be: bool,
    pub copy_gt7: bool,
    pub impl1literal: bool,
    pub align_start: bool,
    pub four: bool,
    pub reuse: bool,
}

pub open spec fn flags_of(p: u8) -> Flags {
    Flags {
        be: p & 1 != 0,
        copy_gt7: p & 2 != 0,
        impl1literal: p & 4 != 0,
        align_start: p & 8 != 0,
        four: p & 16 != 0,
        reuse: p & 32 != 0,
    }
}

/// Shifts `b` by one, shifting in `carry`: the bit shifted out and the new byte.
pub open spec fn rotate(b: u8, carry: bool, be: bool) -> (bool, u8) {
    if be {
        (
            (b & 0x80u8) != 0,
            if carry {
                (((b << 1u8) as u8) | 1u8) as u8
            } else {
                (b << 1u8) as u8
            },
        )
    } else {
        (
            (b & 1u8) != 0,
            if carry {
                ((b >> 1u8) | 0x80u8) as u8
            } else {
                (b >> 1u8) as u8
            },
        )
    }
}

/// Reads one bit; when the byte is used up the next one is taken.
pub open spec fn read_bit(src: Seq<u8>, be: bool, s: RState) -> Option<(bool, RState)> {
    let (c, b2) = rotate(s.bitbuf, false, be);
    if b2 == 0 {
        if s.pos < src.len() {
            let (c2, b3) = rotate(src[s.pos as int], true, be);
            Some((c2, RState { pos: s.pos + 1, bitbuf: b3 }))
        } else {
            None
        }
    } else {
        Some((c, RState { pos: s.pos, bitbuf: b2 }))
    }
}

/// Reads `n` bits onto `acc`, first bit most significant.
pub open spec fn read_plain(src: Seq<u8>, be: bool, s: RState, n: nat, acc: nat) -> Option<(nat, RState)>
    decreases n,
{
    if n == 0 {
        Some((acc, s))
    } else {
        match read_bit(src, be, s) {
            None => None,
            Some((b, s2)) => read_plain(
                src,
                be,
                s2,
                (n - 1) as nat,
                acc * 2 + (if b {
                    1nat
                } else {
                    0nat
                }),
            ),
        }
    }
}

/// Reads `n` whole bytes onto `acc`.
pub open spec fn read_bytes(src: Seq<u8>, s: RState, n: nat, acc: nat) -> Option<(nat, RState)>
    decreases n,
{
    if n == 0 {
        Some((acc, s))
    } else if s.pos < src.len() {
        read_bytes(src, RState { pos: s.pos + 1, ..s }, (n - 1) as nat, (acc * 256 + src[s.pos as int]) as nat)
    } else {
        None
    }
}

/// Reads a `count`-bit value; with `CopyGt7` a value of more than 7 bits
/// is its low `count % 8` bits as bits, then whole bytes.
pub open spec fn get_bits(src: Seq<u8>, f: Flags, s: RState, count: nat) -> Option<(nat, RState)> {
    let (bits, bytes): (nat, nat) = if f.copy_gt7 && count > 7 {
        (count % 8, count / 8)
    } else {
        (count, 0)
    };
    match read_plain(src, f.be, s, bits, 0) {
        None => None,
        Some((v, s2)) => read_bytes(src, s2, bytes, v),
    }
}

/// How many more bits the byte being shifted out gives before it is used up.
pub open spec fn bits_in(b: u8, be: bool) -> u8 {
    if b == 0 {
        0
    } else if be {
        if b & 0x7fu8 == 0 {
            1
        } else if b & 0x3fu8 == 0 {
            2
        } else if b & 0x1fu8 == 0 {
            3
        } else if b & 0x0fu8 == 0 {
            4
        } else if b & 0x07u8 == 0 {
            5
        } else if b & 0x03u8 == 0 {
            6
        } else if b & 0x01u8 == 0 {
            7
        } else {
            8
        }
    } else {
        if b < 2 {
            1
        } else if b < 4 {
            2
        } else if b < 8 {
            3
        } else if b < 16 {
            4
        } else if b < 32 {
            5
        } else if b < 64 {
            6
        } else if b < 128 {
            7
        } else {
            8
        }
    }
}

/// A bound on the bits still to be read.
pub open spec fn rmeasure(src: Seq<u8>, be: bool, s: RState) -> nat {
    (if s.pos <= src.len() {
        ((src.len() - s.pos) * 9) as nat
    } else {
        0nat
    }) + bits_in(s.bitbuf, be) as nat
}

pub proof fn lemma_rotate_bits_in(b: u8, x: u8)
    ensures
        (((b << 1u8) as u8) != 0 ==> bits_in((b << 1u8) as u8, true) + 1 == bits_in(b, true)),
        (((b >> 1u8) as u8) != 0 ==> bits_in((b >> 1u8) as u8, false) + 1 == bits_in(b, false)),
        bits_in((((x << 1u8) as u8) | 1u8) as u8, true) == 8,
        bits_in(((x >> 1u8) | 0x80u8) as u8, false) == 8,
        bits_in(b, true) <= 8,
        bits_in(b, false) <= 8,
{
    assert(((b << 1u8) as u8) != 0 ==> bits_in((b << 1u8) as u8, true) + 1 == bits_in(b, true)) by (bit_vector);
    assert(((b >> 1u8) as u8) != 0 ==> bits_in((b >> 1u8) as u8, false) + 1 == bits_in(b, false)) by (bit_vector);
    assert(bits_in((((x << 1u8) as u8) | 1u8) as u8, true) == 8) by (bit_vector);
    assert(bits_in(((x >> 1u8) | 0x80u8) as u8, false) == 8) by (bit_vector);
}

pub proof fn lemma_read_bit(src: Seq<u8>, be: bool, s: RState)
    requires
        s.pos <= src.len(),
    ensures
        read_bit(src, be, s) matches Some((b, s2)) ==> rmeasure(src, be, s2) < rmeasure(src, be, s)
            && s2.pos <= src.len() && s.pos <= s2.pos,
{
    lemma_rotate_bits_in(s.bitbuf, if s.pos < src.len() {
        src[s.pos as int]
    } else {
        0
    });
}

pub proof fn lemma_read_plain(src: Seq<u8>, be: bool, s: RState, n: nat, acc: nat)
    requires
        s.pos <= src.len(),
    ensures
        read_plain(src, be, s, n, acc) matches Some((v, s2)) ==> rmeasure(src, be, s2) + n <= rmeasure(
            src,
            be,
            s,
        ) && s2.pos <= src.len() && v < (acc + 1) * pow2(n),
    decreases n,
{
    if n == 0 {
        lemma2_to64();
        assert((acc + 1) * pow2(0) == acc + 1);
    } else {
        lemma_read_bit(src, be, s);
        if let Some((b, s2)) = read_bit(src, be, s) {
            let acc2 = acc * 2 + (if b {
                1nat
            } else {
                0nat
            });
            lemma_read_plain(src, be, s2, (n - 1) as nat, acc2);
            lemma_pow2_unfold(n);
            assert(acc2 <= acc * 2 + 1);
            assert((acc2 + 1) * pow2((n - 1) as nat) <= (acc + 1) * pow2(n)) by (nonlinear_arith)
                requires
                    acc2 <= acc * 2 + 1,
                    pow2(n) == 2 * pow2((n - 1) as nat),
            ;
        }
    }
}

pub proof fn lemma_read_bytes(src: Seq<u8>, s: RState, n: nat, acc: nat)
    requires
        s.pos <= src.len(),
    ensures
        read_bytes(src, s, n, acc) matches Some((v, s2)) ==> s2.pos == s.pos + n && s2.bitbuf == s.bitbuf
            && s2.pos <= src.len() && v < (acc + 1) * pow2(8 * n),
    decreases n,
{
    if n == 0 {
        lemma2_to64();
        assert((acc + 1) * pow2(0) == acc + 1);
    } else if s.pos < src.len() {
        let acc2 = (acc * 256 + src[s.pos as int]) as nat;
        lemma_read_bytes(src, RState { pos: s.pos + 1, ..s }, (n - 1) as nat, acc2);
        lemma_pow2_adds(8, (8 * (n - 1)) as nat);
        lemma2_to64();
        assert((acc2 + 1) * pow2((8 * (n - 1)) as nat) <= (acc + 1) * pow2(8 * n)) by (nonlinear_arith)
            requires
                acc2 <= acc * 256 + 255,
                pow2(8 * n) == 256 * pow2((8 * (n - 1)) as nat),
        ;
    }
}

pub proof fn lemma_get_bits(src: Seq<u8>, f: Flags, s: RState, count: nat)
    requires
        s.pos <= src.len(),
    ensures
        get_bits(src, f, s, count) matches Some((v, s2)) ==> rmeasure(src, f.be, s2) <= rmeasure(
            src,
            f.be,
            s,
        ) && s2.pos <= src.len() && v < pow2(count),
{
    let (bits, bytes): (nat, nat) = if f.copy_gt7 && count > 7 {
        (count % 8, count / 8)
    } else {
        (count, 0)
    };
    lemma_read_plain(src, f.be, s, bits, 0);
    if let Some((v, s2)) = read_plain(src, f.be, s, bits, 0) {
        lemma_read_bytes(src, s2, bytes, v);
        assert(v < pow2(bits)) by (nonlinear_arith)
            requires
                v < (0nat + 1) * pow2(bits),
        ;
        if let Some((w, s3)) = read_bytes(src, s2, bytes, v) {
            lemma_pow2_adds(bits, 8 * bytes);
            assert(bits + 8 * bytes == count);
            assert(w < pow2(count)) by (nonlinear_arith)
                requires
                    w < (v + 1) * pow2(8 * bytes),
                    v + 1 <= pow2(bits),
                    pow2(count) == pow2(bits) * pow2(8 * bytes),
            ;
        }
    }
}

/// Counts the 0 bits before the next 1 bit (which is read too).
pub open spec fn read_gamma(src: Seq<u8>, be: bool, s: RState, zeros: nat) -> Option<(nat, RState)>
    decreases rmeasure(src, be, s),
{
    if s.pos > src.len() {
        None
    } else {
        match read_bit(src, be, s) {
            None => None,
            Some((b, s2)) => {
                proof {
                    lemma_read_bit(src, be, s);
                }
                if b {
                    Some((zeros, s2))
                } else {
                    read_gamma(src, be, s2, zeros + 1)
                }
            },
        }
    }
}

pub proof fn lemma_read_gamma(src: Seq<u8>, be: bool, s: RState, zeros: nat)
    requires
        s.pos <= src.len(),
    ensures
        read_gamma(src, be, s, zeros) matches Some((v, s2)) ==> rmeasure(src, be, s2) < rmeasure(src, be, s)
            && s2.pos <= src.len() && zeros <= v,
    decreases rmeasure(src, be, s),
{
    lemma_read_bit(src, be, s);
    if let Some((b, s2)) = read_bit(src, be, s) {
        if !b {
            lemma_read_gamma(src, be, s2, zeros + 1);
        }
    }
}

/// The decoding tables: entry `i` codes the values from `base[i]` to
/// `base[i] + 2^bi[i] - 1`; entries past those read stay 0.
pub struct DTables {
    pub bi: Seq<u8>,
    pub base: Seq<u16>,
}

pub open spec fn empty_dtables() -> DTables {
    DTables { bi: Seq::new(100, |i: int| 0u8), base: Seq::new(100, |i: int| 0u16) }
}

/// Reads the width of one table entry: 4 bits, or with `CopyGt7` 3 bits and
/// then the top bit.
pub open spec fn read_width(src: Seq<u8>, f: Flags, s: RState) -> Option<(nat, RState)> {
    if f.copy_gt7 {
        match get_bits(src, f, s, 3) {
            None => None,
            Some((lo, s2)) => match get_bits(src, f, s2, 1) {
                None => None,
                Some((hi, s3)) => Some((lo + hi * 8, s3)),
            },
        }
    } else {
        get_bits(src, f, s, 4)
    }
}

/// Reads table entries `i..end`; each group of 16 entries starts at 1 and
/// each entry starts where the one before it ended.
pub open spec fn read_dtables(src: Seq<u8>, f: Flags, s: RState, i: nat, end: nat, a: nat, b: nat, t: DTables) -> Option<
    (DTables, RState),
>
    decreases end - i,
{
    if i >= end {
        Some((t, s))
    } else {
        let a2: nat = if i % 16 != 0 {
            a + pow2(b)
        } else {
            1
        };
        match read_width(src, f, s) {
            None => None,
            Some((b2, s2)) => read_dtables(
                src,
                f,
                s2,
                i + 1,
                end,
                a2,
                b2,
                DTables { bi: t.bi.update(i as int, b2 as u8), base: t.base.update(i as int, (a2 % 65536) as u16) },
            ),
        }
    }
}

pub open spec fn dtables_wf(t: DTables) -> bool {
    &&& t.bi.len() == 100
    &&& t.base.len() == 100
    &&& forall|i: int| 0 <= i < 100 ==> t.bi[i] < 16
}

/// The value coded by table entry `i`.
pub open spec fn cooked(src: Seq<u8>, f: Flags, s: RState, t: DTables, i: nat) -> Option<(nat, RState)> {
    match get_bits(src, f, s, t.bi[i as int] as nat) {
        None => None,
        Some((v, s2)) => Some(((t.base[i as int] + v) as nat, s2)),
    }
}

/// The first entry of the offset table used for a sequence of length
/// index `k` (0 for length 1, 1 for length 2, ...), and the bits that pick an
/// entry of it.
pub open spec fn offset_table(four: bool, k: nat) -> (nat, nat) {
    if four {
        if k == 0 {
            (64, 2)
        } else if k == 1 {
            (48, 4)
        } else if k == 2 {
            (32, 4)
        } else {
            (16, 4)
        }
    } else {
        if k == 0 {
            (48, 2)
        } else if k == 1 {
            (32, 4)
        } else {
            (16, 4)
        }
    }
}

/// The state between two sequences: the output so far, whether the last
/// sequence was literal, the last two such flags, the last offset, and
/// whether the next sequence is a literal byte without a flag bit.
pub struct XState {
    pub rs: RState,
    pub out: Seq<u8>,
    pub literal: bool,
    pub reuse_state: nat,
    pub offset: nat,
    pub lit_next: bool,
}

pub enum XCmd {
    Literal { len: nat, rs: RState, reuse_state: nat },
    Match { len: nat, offset: nat, rs: RState, reuse_state: nat },
    End,
    Fail { err: DecrunchError },
}

/// The offset of a sequence of length `len`: the last one when the reuse
/// bit says so, else read through the offset tables.
pub open spec fn read_offset(src: Seq<u8>, f: Flags, t: DTables, s: RState, len: nat, reuse_state: nat, prev: nat) -> Result<(nat, RState), DecrunchError> {
    let reuse: Option<(nat, RState)> = if f.reuse && reuse_state == 1 {
        get_bits(src, f, s, 1)
    } else {
        Some((0, s))
    };
    match reuse {
        None => Err(DecrunchError::EndOfInput),
        Some((r, s2)) => if r != 0 {
            Ok((prev, s2))
        } else if len == 0 {
            Err(DecrunchError::DecodingError)
        } else {
            let th: nat = if f.four {
                4
            } else {
                3
            };
            let k: nat = ((if len > th {
                th
            } else {
                len
            }) - 1) as nat;
            let (table, width) = offset_table(f.four, k);
            match get_bits(src, f, s2, width) {
                None => Err(DecrunchError::EndOfInput),
                Some((v, s3)) => match cooked(src, f, s3, t, table + v) {
                    None => Err(DecrunchError::EndOfInput),
                    Some((o, s4)) => Ok((o, s4)),
                },
            }
        },
    }
}

/// What the next sequence asks for.
pub open spec fn xcommand(src: Seq<u8>, f: Flags, t: DTables, s: XState) -> XCmd {
    if s.lit_next {
        XCmd::Literal { len: 1, rs: s.rs, reuse_state: s.reuse_state }
    } else {
        let rstate: nat = ((s.reuse_state * 2 + (if s.literal {
            1nat
        } else {
            0nat
        })) % 4) as nat;
        match read_bit(src, f.be, s.rs) {
            None => XCmd::Fail { err: DecrunchError::EndOfInput },
            Some((true, r2)) => XCmd::Literal { len: 1, rs: r2, reuse_state: rstate },
            Some((false, r2)) => match read_gamma(src, f.be, r2, 0) {
                None => XCmd::Fail { err: DecrunchError::EndOfInput },
                Some((val, r3)) => if val == 16 {
                    XCmd::End
                } else if val == 17 {
                    match get_bits(src, f, r3, 16) {
                        None => XCmd::Fail { err: DecrunchError::EndOfInput },
                        Some((len, r4)) => XCmd::Literal { len, rs: r4, reuse_state: rstate },
                    }
                } else if val >= 100 {
                    XCmd::Fail { err: DecrunchError::DecodingError }
                } else {
                    match cooked(src, f, r3, t, val) {
                        None => XCmd::Fail { err: DecrunchError::EndOfInput },
                        Some((len, r4)) => match read_offset(src, f, t, r4, len, rstate, s.offset) {
                            Err(e) => XCmd::Fail { err: e },
                            Ok((o, r5)) => XCmd::Match { len, offset: o, rs: r5, reuse_state: rstate },
                        },
                    }
                },
            },
        }
    }
}

/// Appends `n` bytes, each a copy of the byte at `from`, `from + 1`, ...
/// (which may have just been appended).
pub open spec fn copy_forward(out: Seq<u8>, from: nat, n: nat) -> Seq<u8>
    decreases n,
{
    if n == 0 {
        out
    } else {
        copy_forward(out.push(out[from as int]), from + 1, (n - 1) as nat)
    }
}

pub enum XStep {
    Next(XState),
    Done(Result<Seq<u8>, DecrunchError>),
}

/// The number of bytes a sequence of length `len` writes: at least one.
pub open spec fn copy_count(len: nat) -> nat {
    if len == 0 {
        1
    } else {
        len
    }
}

/// One sequence of the decrunch loop.
pub open spec fn xstep(src: Seq<u8>, f: Flags, t: DTables, s: XState) -> XStep {
    match xcommand(src, f, t, s) {
        XCmd::Fail { err } => XStep::Done(Err(err)),
        XCmd::End => XStep::Done(Ok(s.out)),
        XCmd::Literal { len, rs, reuse_state } => {
            let n = copy_count(len);
            if src.len() - rs.pos < n {
                XStep::Done(Err(DecrunchError::EndOfInput))
            } else {
                XStep::Next(
                    XState {
                        rs: RState { pos: rs.pos + n, ..rs },
                        out: s.out + src.subrange(rs.pos as int, (rs.pos + n) as int),
                        literal: true,
                        reuse_state,
                        offset: s.offset,
                        lit_next: false,
                    },
                )
            }
        },
        XCmd::Match { len, offset, rs, reuse_state } => {
            if offset == 0 || offset > s.out.len() {
                XStep::Done(Err(DecrunchError::DecodingError))
            } else {
                XStep::Next(
                    XState {
                        rs,
                        out: copy_forward(s.out, (s.out.len() - offset) as nat, copy_count(len)),
                        literal: false,
                        reuse_state,
                        offset,
                        lit_next: false,
                    },
                )
            }
        },
    }
}

pub open spec fn xmeasure(src: Seq<u8>, f: Flags, s: XState) -> nat {
    rmeasure(src, f.be, s.rs) + (if s.lit_next {
        1nat
    } else {
        0nat
    })
}

pub proof fn lemma_cooked(src: Seq<u8>, f: Flags, s: RState, t: DTables, i: nat)
    requires
        s.pos <= src.len(),
        dtables_wf(t),
        i < 100,
    ensures
        cooked(src, f, s, t, i) matches Some((v, s2)) ==> rmeasure(src, f.be, s2) <= rmeasure(src, f.be, s)
            && s2.pos <= src.len() && v < 98304,
{
    lemma_get_bits(src, f, s, t.bi[i as int] as nat);
    lemma2_to64();
    if t.bi[i as int] < 15 {
        lemma_pow2_strictly_increases(t.bi[i as int] as nat, 15);
    }
}

pub proof fn lemma_xcommand(src: Seq<u8>, f: Flags, t: DTables, s: XState)
    requires
        s.rs.pos <= src.len(),
        dtables_wf(t),
    ensures
        xcommand(src, f, t, s) matches XCmd::Literal { len, rs, .. } ==> rs.pos <= src.len() && (if s.lit_next {
            rs == s.rs
        } else {
            rmeasure(src, f.be, rs) < rmeasure(src, f.be, s.rs)
        }) && len < 65536,
        xcommand(src, f, t, s) matches XCmd::Match { len, offset, rs, .. } ==> rs.pos <= src.len() && !s.lit_next
            && rmeasure(src, f.be, rs) < rmeasure(src, f.be, s.rs) && len < 98304 && (offset < 98304
            || offset == s.offset),
{
    lemma_read_bit(src, f.be, s.rs);
    if let Some((false, r2)) = read_bit(src, f.be, s.rs) {
        lemma_read_gamma(src, f.be, r2, 0);
        if let Some((val, r3)) = read_gamma(src, f.be, r2, 0) {
            lemma_get_bits(src, f, r3, 16);
            lemma2_to64();
            if val < 100 && val != 16 && val != 17 {
                lemma_cooked(src, f, r3, t, val);
                if let Some((len, r4)) = cooked(src, f, r3, t, val) {
                    let rstate: nat = ((s.reuse_state * 2 + (if s.literal {
                        1nat
                    } else {
                        0nat
                    })) % 4) as nat;
                    lemma_get_bits(src, f, r4, 1);
                    let reuse: Option<(nat, RState)> = if f.reuse && rstate == 1 {
                        get_bits(src, f, r4, 1)
                    } else {
                        Some((0, r4))
                    };
                    if let Some((r, s2)) = reuse {
                        if r == 0 && len != 0 {
                            let th: nat = if f.four {
                                4
                            } else {
                                3
                            };
                            let k: nat = ((if len > th {
                                th
                            } else {
                                len
                            }) - 1) as nat;
                            let (table, width) = offset_table(f.four, k);
                            lemma_get_bits(src, f, s2, width);
                            if let Some((v, s3)) = get_bits(src, f, s2, width) {
                                lemma_cooked(src, f, s3, t, table + v);
                            }
                        }
                    }
                }
            }
        }
    }
}

pub proof fn lemma_copy_forward_len(out: Seq<u8>, from: nat, n: nat)
    ensures
        copy_forward(out, from, n).len() == out.len() + n,
    decreases n,
{
    if n > 0 {
        lemma_copy_forward_len(out.push(out[from as int]), from + 1, (n - 1) as nat);
    }
}

pub open spec fn xstate_wf(src: Seq<u8>, s: XState) -> bool {
    &&& s.rs.pos <= src.len()
    &&& s.offset < 98304
}

pub proof fn lemma_xstep(src: Seq<u8>, f: Flags, t: DTables, s: XState)
    requires
        xstate_wf(src, s),
        dtables_wf(t),
    ensures
        xstep(src, f, t, s) matches XStep::Next(s2) ==> xstate_wf(src, s2) && xmeasure(src, f, s2) < xmeasure(
            src,
            f,
            s,
        ),
{
    lemma_xcommand(src, f, t, s);
}

/// Runs the decrunch loop from `s` to its end.
pub open spec fn xrun(src: Seq<u8>, f: Flags, t: DTables, s: XState) -> Result<Seq<u8>, DecrunchError>
    decreases xmeasure(src, f, s),
{
    if !xstate_wf(src, s) || !dtables_wf(t) {
        Err(DecrunchError::DecodingError)
    } else {
        match xstep(src, f, t, s) {
            XStep::Done(r) => r,
            XStep::Next(s2) => {
                proof {
                    lemma_xstep(src, f, t, s);
                }
                xrun(src, f, t, s2)
            },
        }
    }
}

/// The reader at the start of a stream: with `AlignStart` nothing is taken
/// yet, else the first byte is (and its lowest 1 bit, or highest without
/// `OrderBe`, ends it).
pub open spec fn start_state(src: Seq<u8>, f: Flags) -> Option<RState> {
    if f.align_start {
        Some(RState { pos: 0, bitbuf: 0 })
    } else if src.len() > 0 {
        Some(RState { pos: 1, bitbuf: src[0] })
    } else {
        None
    }
}

/// Decrunches `data` with proto `p`; the decoding tables are read from
/// `enc` when it is given, else from the start of `data`.
pub open spec fn exo_decrunch(p: u8, enc: Option<Seq<u8>>, data: Seq<u8>) -> Result<Seq<u8>, DecrunchError> {
    let f = flags_of(p);
    let tsrc = match enc {
        Some(e) => e,
        None => data,
    };
    let end: nat = if f.four {
        68
    } else {
        52
    };
    match start_state(tsrc, f) {
        None => Err(DecrunchError::EndOfInput),
        Some(s0) => match read_dtables(tsrc, f, s0, 0, end, 0, 0, empty_dtables()) {
            None => Err(DecrunchError::EndOfInput),
            Some((t, s1)) => {
                let main: Option<RState> = if enc is Some {
                    start_state(data, f)
                } else {
                    Some(s1)
                };
                match main {
                    None => Err(DecrunchError::EndOfInput),
                    Some(rs) => xrun(
                        data,
                        f,
                        t,
                        XState {
                            rs,
                            out: Seq::empty(),
                            literal: true,
                            reuse_state: 1,
                            offset: 0,
                            lit_next: f.impl1literal,
                        },
                    ),
                }
            },
        },
    }
}


// ---------------------------------------------------------------------------
// The decruncher
// ---------------------------------------------------------------------------
/// A bit reader over a crunched stream (see [`read_bit`]).
pub struct DecCtx<'a> {
    pub src: &'a [u8],
    pub pos: usize,
    pub bitbuf: u8,
    pub be: bool,
    pub copy_gt7: bool,
}

impl<'a> DecCtx<'a> {
    pub open spec fn state(&self) -> RState {
        RState { pos: self.pos as nat, bitbuf: self.bitbuf }
    }

    pub open spec fn wf(&self) -> bool {
        self.pos <= self.src@.len()
    }

    /// A reader at the start of `src` (see [`start_state`]).
    fn start(src: &'a [u8], p: u8) -> (r: Result<Self, DecrunchError>)
        ensures
            match start_state(src@, flags_of(p)) {
                None => r == Err::<Self, DecrunchError>(DecrunchError::EndOfInput),
                Some(s) => r matches Ok(c) && c.state() == s && c.wf() && c.src@ == src@ && c.be == flags_of(p).be
                    && c.copy_gt7 == flags_of(p).copy_gt7,
            },
    {
        let be = p & 1 != 0;
        let copy_gt7 = p & 2 != 0;
        if p & 8 != 0 {
            Ok(DecCtx { src, pos: 0, bitbuf: 0, be, copy_gt7 })
        } else if src.len() > 0 {
            Ok(DecCtx { src, pos: 1, bitbuf: src[0], be, copy_gt7 })
        } else {
            Err(DecrunchError::EndOfInput)
        }
    }

    fn rotate_exec(b: u8, carry: bool, be: bool) -> (r: (bool, u8))
        ensures
            r == rotate(b, carry, be),
    {
        if be {
            ((b & 0x80) != 0, if carry {
                (b << 1) | 1
            } else {
                b << 1
            })
        } else {
            ((b & 1) != 0, if carry {
                (b >> 1) | 0x80
            } else {
                b >> 1
            })
        }
    }

    fn read_bit_exec(&mut self) -> (r: Result<bool, DecrunchError>)
        requires
            old(self).wf(),
        ensures
            final(self).wf(),
            final(self).src == old(self).src,
            final(self).be == old(self).be,
            final(self).copy_gt7 == old(self).copy_gt7,
            match read_bit(old(self).src@, old(self).be, old(self).state()) {
                None => r == Err::<bool, DecrunchError>(DecrunchError::EndOfInput),
                Some((b, s2)) => r == Ok::<bool, DecrunchError>(b) && final(self).state() == s2,
            },
    {
        let (c, b2) = Self::rotate_exec(self.bitbuf, false, self.be);
        if b2 == 0 {
            if self.pos < self.src.len() {
                let (c2, b3) = Self::rotate_exec(self.src[self.pos], true, self.be);
                self.pos = self.pos + 1;
                self.bitbuf = b3;
                Ok(c2)
            } else {
                Err(DecrunchError::EndOfInput)
            }
        } else {
            self.bitbuf = b2;
            Ok(c)
        }
    }

    /// Reads a `count`-bit value (see [`get_bits`]).
    fn get_bits_exec(&mut self, count: u32) -> (r: Result<u32, DecrunchError>)
        requires
            old(self).wf(),
            count <= 16,
        ensures
            final(self).wf(),
            final(self).src == old(self).src,
            final(self).be == old(self).be,
            final(self).copy_gt7 == old(self).copy_gt7,
            match get_bits(old(self).src@, Flags { be: old(self).be, copy_gt7: old(self).copy_gt7, ..arbitrary() }, old(self).state(), count as nat) {
                None => r == Err::<u32, DecrunchError>(DecrunchError::EndOfInput),
                Some((v, s2)) => r == Ok::<u32, DecrunchError>(v as u32) && v < 65536 && final(self).state() == s2,
            },
    {
        let ghost f = Flags { be: self.be, copy_gt7: self.copy_gt7, ..arbitrary() };
        let ghost src = self.src@;
        let ghost s0 = self.state();
        let (bits, bytes): (u32, u32) = if self.copy_gt7 && count > 7 {
            (count % 8, count / 8)
        } else {
            (count, 0)
        };
        proof {
            lemma_get_bits(src, f, s0, count as nat);
            lemma2_to64();
            if count < 16 {
                lemma_pow2_strictly_increases(count as nat, 16);
            }
        }
        let mut acc: u32 = 0;
        let mut k: u32 = 0;
        while k < bits
            invariant
                self.wf(),
                self.src@ == src,
                self.be == f.be,
                self.copy_gt7 == f.copy_gt7,
                self.be == old(self).be,
                self.copy_gt7 == old(self).copy_gt7,
                self.src == old(self).src,
                f == (Flags { be: old(self).be, copy_gt7: old(self).copy_gt7, ..arbitrary() }),
                s0 == old(self).state(),
                src == old(self).src@,
                k <= bits,
                get_bits(src, f, s0, count as nat) == (match read_plain(src, f.be, s0, bits as nat, 0) {
                    None => None,
                    Some((v, s2)) => read_bytes(src, s2, bytes as nat, v),
                }),
                bits <= 16,
                acc < pow2(k as nat),
                read_plain(src, f.be, s0, bits as nat, 0) == read_plain(src, f.be, self.state(), (bits - k) as nat, acc as nat),
            decreases bits - k,
        {
            let b = match self.read_bit_exec() {
                Ok(b) => b,
                Err(e) => {
                    return Err(e);
                },
            };
            proof {
                lemma_pow2_unfold((k + 1) as nat);
                lemma_u32_pow2_no_overflow(16);
                if k + 1 < 16 {
                    lemma_pow2_strictly_increases((k + 1) as nat, 16);
                }
            }
            acc = acc * 2 + (if b {
                1u32
            } else {
                0u32
            });
            k = k + 1;
        }
        let mut j: u32 = 0;
        while j < bytes
            invariant
                self.wf(),
                self.src@ == src,
                self.be == f.be,
                self.copy_gt7 == f.copy_gt7,
                self.be == old(self).be,
                self.copy_gt7 == old(self).copy_gt7,
                self.src == old(self).src,
                f == (Flags { be: old(self).be, copy_gt7: old(self).copy_gt7, ..arbitrary() }),
                s0 == old(self).state(),
                src == old(self).src@,
                j <= bytes,
                bytes <= 2,
                get_bits(src, f, s0, count as nat) == read_bytes(src, self.state(), (bytes - j) as nat, acc as nat),
                (get_bits(src, f, s0, count as nat) matches Some((v, s2)) ==> v < 65536),
                acc < pow2((bits + 8 * j) as nat),
                bits + 8 * bytes == count,
                count <= 16,
            decreases bytes - j,
        {
            if self.pos >= self.src.len() {
                return Err(DecrunchError::EndOfInput);
            }
            proof {
                lemma_pow2_adds((bits + 8 * j) as nat, 8);
                lemma2_to64();
                if bits + 8 * j + 8 < 16 {
                    lemma_pow2_strictly_increases((bits + 8 * j + 8) as nat, 16);
                }
                assert(acc * 256 + self.src@[self.pos as int] < pow2((bits + 8 * j + 8) as nat)) by (nonlinear_arith)
                    requires
                        acc < pow2((bits + 8 * j) as nat),
                        self.src@[self.pos as int] < 256,
                        pow2((bits + 8 * j + 8) as nat) == pow2((bits + 8 * j) as nat) * 256,
                ;
            }
            acc = acc * 256 + self.src[self.pos] as u32;
            self.pos = self.pos + 1;
            j = j + 1;
        }
        Ok(acc)
    }

    /// Counts the 0 bits up to the next 1 bit (see [`read_gamma`]); counts of
    /// 100 and more are reported as 100.
    fn get_gamma_code(&mut self) -> (r: Result<u32, DecrunchError>)
        requires
            old(self).wf(),
        ensures
            final(self).wf(),
            final(self).src == old(self).src,
            final(self).be == old(self).be,
            final(self).copy_gt7 == old(self).copy_gt7,
            match read_gamma(old(self).src@, old(self).be, old(self).state(), 0) {
                None => r == Err::<u32, DecrunchError>(DecrunchError::EndOfInput),
                Some((v, s2)) => r == Ok::<u32, DecrunchError>(if v < 100 {
                    v as u32
                } else {
                    100u32
                }) && final(self).state() == s2,
            },
    {
        let ghost src = self.src@;
        let ghost s0 = self.state();
        let ghost mut zeros: nat = 0;
        let mut count: u32 = 0;
        loop
            invariant
                self.wf(),
                self.src == old(self).src,
                self.be == old(self).be,
                self.copy_gt7 == old(self).copy_gt7,
                src == old(self).src@,
                s0 == old(self).state(),
                read_gamma(src, self.be, self.state(), zeros) == read_gamma(src, self.be, s0, 0),
                count as nat == (if zeros < 100 {
                    zeros
                } else {
                    100
                }),
            decreases rmeasure(src, self.be, self.state()),
        {
            proof {
                lemma_read_bit(src, self.be, self.state());
            }
            let b = self.read_bit_exec()?;
            if b {
                return Ok(count);
            }
            proof {
                zeros = zeros + 1;
            }
            if count < 100 {
                count = count + 1;
            }
        }
    }
}

/// Reads the decoding tables (see [`read_dtables`]).
fn read_dtables_exec(ctx: &mut DecCtx, p: u8) -> (r: Result<(Vec<u8>, Vec<u16>), DecrunchError>)
    requires
        old(ctx).wf(),
        old(ctx).be == flags_of(p).be,
        old(ctx).copy_gt7 == flags_of(p).copy_gt7,
    ensures
        final(ctx).wf(),
        final(ctx).src == old(ctx).src,
        final(ctx).be == old(ctx).be,
        final(ctx).copy_gt7 == old(ctx).copy_gt7,
        match read_dtables(old(ctx).src@, flags_of(p), old(ctx).state(), 0, if flags_of(p).four { 68 } else { 52 }, 0, 0, empty_dtables()) {
            None => r == Err::<(Vec<u8>, Vec<u16>), DecrunchError>(DecrunchError::EndOfInput),
            Some((t, s2)) => r matches Ok((bi, base)) && bi@ == t.bi && base@ == t.base && final(ctx).state() == s2
                && dtables_wf(t),
        },
{
    let ghost f = flags_of(p);
    let ghost src = ctx.src@;
    let ghost s0 = ctx.state();
    let end: usize = if p & 16 != 0 {
        68
    } else {
        52
    };
    let mut bi: Vec<u8> = Vec::new();
    let mut base: Vec<u16> = Vec::new();
    let mut k: usize = 0;
    while k < 100
        invariant
            k <= 100,
            bi@.len() == k,
            base@.len() == k,
            forall|j: int| 0 <= j < k ==> bi@[j] == 0u8 && base@[j] == 0u16,
        decreases 100 - k,
    {
        bi.push(0);
        base.push(0);
        k = k + 1;
    }
    assert(bi@ =~= empty_dtables().bi);
    assert(base@ =~= empty_dtables().base);
    let mut a: u32 = 0;
    let mut b: u32 = 0;
    let mut i: usize = 0;
    while i < end
        invariant
            ctx.wf(),
            ctx.src == old(ctx).src,
            ctx.be == old(ctx).be,
            ctx.copy_gt7 == old(ctx).copy_gt7,
            f == flags_of(p),
            ctx.be == f.be,
            ctx.copy_gt7 == f.copy_gt7,
            src == old(ctx).src@,
            s0 == old(ctx).state(),
            end == (if f.four { 68nat } else { 52nat }),
            i <= end,
            b < 16,
            a <= 32768 * (i as nat) + 1,
            dtables_wf(DTables { bi: bi@, base: base@ }),
            read_dtables(src, f, s0, 0, end as nat, 0, 0, empty_dtables()) == read_dtables(
                src,
                f,
                ctx.state(),
                i as nat,
                end as nat,
                a as nat,
                b as nat,
                DTables { bi: bi@, base: base@ },
            ),
        decreases end - i,
    {
        proof {
            lemma_u32_pow2_no_overflow(b as nat);
            lemma_u32_shl_is_mul(1, b);
            lemma2_to64();
            if b < 15 {
                lemma_pow2_strictly_increases(b as nat, 15);
            }
            assert((1u32 << b) <= 32768);
        }
        if i % 16 != 0 {
            a = a + (1u32 << b);
        } else {
            a = 1;
        }
        let ghost sb = ctx.state();
        let w: u32 = if ctx.copy_gt7 {
            let lo = ctx.get_bits_exec(3)?;
            let ghost sm = ctx.state();
            let hi = ctx.get_bits_exec(1)?;
            proof {
                lemma_get_bits(src, f, sb, 3);
                lemma_get_bits(src, f, sm, 1);
            }
            lo + hi * 8
        } else {
            let v = ctx.get_bits_exec(4)?;
            proof {
                lemma_get_bits(src, f, sb, 4);
            }
            v
        };
        bi.set(i, w as u8);
        base.set(i, (a % 65536) as u16);
        b = w;
        i = i + 1;
    }
    Ok((bi, base))
}


/// What the decrunch loop reads for one sequence.
pub enum XCmdExec {
    Literal { len: usize, reuse_state: u8 },
    Match { len: usize, offset: usize, reuse_state: u8 },
    End,
    Fail(DecrunchError),
}

/// Reads the value coded by table entry `i` (see [`cooked`]).
fn cooked_exec(ctx: &mut DecCtx, p: u8, bi: &Vec<u8>, base: &Vec<u16>, i: usize) -> (r: Result<usize, DecrunchError>)
    requires
        old(ctx).wf(),
        old(ctx).be == flags_of(p).be,
        old(ctx).copy_gt7 == flags_of(p).copy_gt7,
        dtables_wf(DTables { bi: bi@, base: base@ }),
        i < 100,
    ensures
        final(ctx).wf(),
        final(ctx).src == old(ctx).src,
        final(ctx).be == old(ctx).be,
        final(ctx).copy_gt7 == old(ctx).copy_gt7,
        match cooked(old(ctx).src@, flags_of(p), old(ctx).state(), DTables { bi: bi@, base: base@ }, i as nat) {
            None => r == Err::<usize, DecrunchError>(DecrunchError::EndOfInput),
            Some((v, s2)) => r == Ok::<usize, DecrunchError>(v as usize) && final(ctx).state() == s2 && v < 98304,
        },
{
    proof {
        lemma_cooked(old(ctx).src@, flags_of(p), old(ctx).state(), DTables { bi: bi@, base: base@ }, i as nat);
    }
    let v = ctx.get_bits_exec(bi[i] as u32)?;
    Ok(base[i] as usize + v as usize)
}

/// Reads the offset of a sequence (see [`read_offset`]).
fn read_offset_exec(ctx: &mut DecCtx, p: u8, bi: &Vec<u8>, base: &Vec<u16>, len: usize, rstate: u8, prev: usize) -> (r: Result<usize, DecrunchError>)
    requires
        old(ctx).wf(),
        old(ctx).be == flags_of(p).be,
        old(ctx).copy_gt7 == flags_of(p).copy_gt7,
        dtables_wf(DTables { bi: bi@, base: base@ }),
        prev < 98304,
    ensures
        final(ctx).wf(),
        final(ctx).src == old(ctx).src,
        final(ctx).be == old(ctx).be,
        final(ctx).copy_gt7 == old(ctx).copy_gt7,
        match read_offset(old(ctx).src@, flags_of(p), DTables { bi: bi@, base: base@ }, old(ctx).state(), len as nat, rstate as nat, prev as nat) {
            Err(e) => r == Err::<usize, DecrunchError>(e),
            Ok((o, s2)) => r == Ok::<usize, DecrunchError>(o as usize) && final(ctx).state() == s2 && o < 98304,
        },
{
    let ghost src = ctx.src@;
    let ghost f = flags_of(p);
    let reuse: u32 = if p & 32 != 0 && rstate == 1 {
        ctx.get_bits_exec(1)?
    } else {
        0
    };
    if reuse != 0 {
        return Ok(prev);
    }
    if len == 0 {
        return Err(DecrunchError::DecodingError);
    }
    let th: usize = if p & 16 != 0 {
        4
    } else {
        3
    };
    let k: usize = (if len > th {
        th
    } else {
        len
    }) - 1;
    let (table, width): (usize, u32) = if p & 16 != 0 {
        if k == 0 {
            (64, 2)
        } else if k == 1 {
            (48, 4)
        } else if k == 2 {
            (32, 4)
        } else {
            (16, 4)
        }
    } else {
        if k == 0 {
            (48, 2)
        } else if k == 1 {
            (32, 4)
        } else {
            (16, 4)
        }
    };
    let ghost sw = ctx.state();
    let v = ctx.get_bits_exec(width)?;
    proof {
        lemma_get_bits(src, f, sw, width as nat);
        lemma2_to64();
    }
    cooked_exec(ctx, p, bi, base, table + v as usize)
}

/// Reads what the next sequence asks for (see [`xcommand`]).
#[verifier::rlimit(60)]
fn xcommand_exec(
    ctx: &mut DecCtx,
    p: u8,
    bi: &Vec<u8>,
    base: &Vec<u16>,
    literal: bool,
    reuse_state: u8,
    offset: usize,
    lit_next: bool,
) -> (c: XCmdExec)
    requires
        old(ctx).wf(),
        old(ctx).be == flags_of(p).be,
        old(ctx).copy_gt7 == flags_of(p).copy_gt7,
        dtables_wf(DTables { bi: bi@, base: base@ }),
        reuse_state < 4,
        offset < 98304,
    ensures
        final(ctx).wf(),
        final(ctx).src == old(ctx).src,
        final(ctx).be == old(ctx).be,
        final(ctx).copy_gt7 == old(ctx).copy_gt7,
        ({
            let s = XState {
                rs: old(ctx).state(),
                out: Seq::empty(),
                literal,
                reuse_state: reuse_state as nat,
                offset: offset as nat,
                lit_next,
            };
            match xcommand(old(ctx).src@, flags_of(p), DTables { bi: bi@, base: base@ }, s) {
                XCmd::Literal { len, rs, reuse_state: r } => c matches XCmdExec::Literal { len: l2, reuse_state: r2 }
                    && l2 == len && r2 == r && rs == final(ctx).state() && r2 < 4,
                XCmd::Match { len, offset: o, rs, reuse_state: r } => c matches XCmdExec::Match {
                    len: l2,
                    offset: o2,
                    reuse_state: r2,
                } && l2 == len && o2 == o && r2 == r && rs == final(ctx).state() && r2 < 4 && o2 < 98304,
                XCmd::End => c is End,
                XCmd::Fail { err } => c == XCmdExec::Fail(err),
            }
        }),
{
    let ghost src = ctx.src@;
    let ghost f = flags_of(p);
    let ghost t = DTables { bi: bi@, base: base@ };
    let ghost s0 = ctx.state();
    proof {
        lemma_xcommand(src, f, t, XState {
            rs: s0,
            out: Seq::empty(),
            literal,
            reuse_state: reuse_state as nat,
            offset: offset as nat,
            lit_next,
        });
    }
    if lit_next {
        return XCmdExec::Literal { len: 1, reuse_state };
    }
    let rstate: u8 = (reuse_state * 2 + (if literal {
        1u8
    } else {
        0u8
    })) % 4;
    let bit = match ctx.read_bit_exec() {
        Ok(b) => b,
        Err(e) => {
            return XCmdExec::Fail(e);
        },
    };
    if bit {
        return XCmdExec::Literal { len: 1, reuse_state: rstate };
    }
    let val = match ctx.get_gamma_code() {
        Ok(v) => v,
        Err(e) => {
            return XCmdExec::Fail(e);
        },
    };
    if val == 16 {
        return XCmdExec::End;
    }
    if val == 17 {
        let len = match ctx.get_bits_exec(16) {
            Ok(v) => v,
            Err(e) => {
                return XCmdExec::Fail(e);
            },
        };
        return XCmdExec::Literal { len: len as usize, reuse_state: rstate };
    }
    if val >= 100 {
        return XCmdExec::Fail(DecrunchError::DecodingError);
    }
    let len = match cooked_exec(ctx, p, bi, base, val as usize) {
        Ok(v) => v,
        Err(e) => {
            return XCmdExec::Fail(e);
        },
    };
    match read_offset_exec(ctx, p, bi, base, len, rstate, offset) {
        Err(e) => XCmdExec::Fail(e),
        Ok(o) => XCmdExec::Match { len, offset: o, reuse_state: rstate },
    }
}

/// Appends `n` input bytes from `pos` (the literal part of [`xstep`]).
fn copy_literal_exec(out: &mut Vec<u8>, data: &[u8], pos: usize, n: usize)
    requires
        pos + n <= data.len(),
    ensures
        final(out)@ == old(out)@ + data@.subrange(pos as int, pos + n),
{
    let mut k: usize = 0;
    while k < n
        invariant
            k <= n,
            pos + n <= data.len(),
            out@ == old(out)@ + data@.subrange(pos as int, pos + k),
        decreases n - k,
    {
        out.push(data[pos + k]);
        k = k + 1;
        assert(out@ =~= old(out)@ + data@.subrange(pos as int, pos + k));
    }
}

/// Appends `n` bytes copied from `from` on (see [`copy_forward`]).
fn copy_match_exec(out: &mut Vec<u8>, from: usize, n: usize)
    requires
        from < old(out)@.len(),
    ensures
        final(out)@ == copy_forward(old(out)@, from as nat, n as nat),
{
    let mut k: usize = 0;
    let mut i: usize = from;
    let ghost start = out@.len();
    while k < n
        invariant
            k <= n,
            i == from + k,
            i < out.len(),
            copy_forward(out@, i as nat, (n - k) as nat) == copy_forward(old(out)@, from as nat, n as nat),
        decreases n - k,
    {
        let v = out[i];
        out.push(v);
        k = k + 1;
        i = i + 1;
    }
}

/// Decrunches `data` with proto `p` (see [`exo_decrunch`]) from a stream
/// that holds all the bits it is read for: the decoding tables and every
/// sequence up to the end code.
pub fn exo_decrunch_exec(p: u8, enc: Option<&[u8]>, data: &[u8]) -> (r: Result<Vec<u8>, DecrunchError>)
    requires
        !(exo_decrunch(p, match enc {
            Some(e) => Some(e@),
            None => None,
        }, data@) matches Err(DecrunchError::EndOfInput)),
    ensures
        match exo_decrunch(p, match enc {
            Some(e) => Some(e@),
            None => None,
        }, data@) {
            Ok(v) => r matches Ok(w) && w@ == v,
            Err(e) => r == Err::<Vec<u8>, DecrunchError>(e),
        },
{
    exo_decrunch_run(p, enc, data)
}

/// Decrunches `data` with proto `p` (see [`exo_decrunch`]), from any
/// stream: one that is cut short gives [`DecrunchError::EndOfInput`].
pub(crate) fn exo_decrunch_run(p: u8, enc: Option<&[u8]>, data: &[u8]) -> (r: Result<Vec<u8>, DecrunchError>)
    ensures
        match exo_decrunch(p, match enc {
            Some(e) => Some(e@),
            None => None,
        }, data@) {
            Ok(v) => r matches Ok(w) && w@ == v,
            Err(e) => r == Err::<Vec<u8>, DecrunchError>(e),
        },
{
    let ghost f = flags_of(p);
    let tsrc: &[u8] = match enc {
        Some(e) => e,
        None => data,
    };
    let mut tctx = DecCtx::start(tsrc, p)?;
    let (bi, base) = read_dtables_exec(&mut tctx, p)?;
    let ghost t = DTables { bi: bi@, base: base@ };
    let mut ctx = match enc {
        Some(_) => DecCtx::start(data, p)?,
        None => tctx,
    };
    let ghost init = XState {
        rs: ctx.state(),
        out: Seq::empty(),
        literal: true,
        reuse_state: 1,
        offset: 0,
        lit_next: f.impl1literal,
    };
    let mut out: Vec<u8> = Vec::new();
    let mut literal = true;
    let mut reuse_state: u8 = 1;
    let mut offset: usize = 0;
    let mut lit_next = p & 4 != 0;
    loop
        invariant
            ctx.wf(),
            ctx.src@ == data@,
            ctx.be == f.be,
            ctx.copy_gt7 == f.copy_gt7,
            f == flags_of(p),
            t == (DTables { bi: bi@, base: base@ }),
            dtables_wf(t),
            reuse_state < 4,
            offset < 98304,
            exo_decrunch(p, match enc {
                Some(e) => Some(e@),
                None => None,
            }, data@) == xrun(data@, f, t, init),
            ({
                let s = XState {
                    rs: ctx.state(),
                    out: out@,
                    literal,
                    reuse_state: reuse_state as nat,
                    offset: offset as nat,
                    lit_next,
                };
                xrun(data@, f, t, s) == xrun(data@, f, t, init) && xstate_wf(data@, s)
            }),
        decreases xmeasure(
            data@,
            f,
            XState {
                rs: ctx.state(),
                out: out@,
                literal,
                reuse_state: reuse_state as nat,
                offset: offset as nat,
                lit_next,
            },
        ),
    {
        let ghost s = XState {
            rs: ctx.state(),
            out: out@,
            literal,
            reuse_state: reuse_state as nat,
            offset: offset as nat,
            lit_next,
        };
        proof {
            lemma_xstep(data@, f, t, s);
        }
        let cmd = xcommand_exec(&mut ctx, p, &bi, &base, literal, reuse_state, offset, lit_next);
        match cmd {
            XCmdExec::Fail(e) => {
                return Err(e);
            },
            XCmdExec::End => {
                return Ok(out);
            },
            XCmdExec::Literal { len, reuse_state: rs } => {
                let n = if len == 0 {
                    1
                } else {
                    len
                };
                if data.len() - ctx.pos < n {
                    return Err(DecrunchError::EndOfInput);
                }
                copy_literal_exec(&mut out, data, ctx.pos, n);
                ctx.pos = ctx.pos + n;
                literal = true;
                reuse_state = rs;
                lit_next = false;
            },
            XCmdExec::Match { len, offset: o, reuse_state: rs } => {
                if o == 0 || o > out.len() {
                    return Err(DecrunchError::DecodingError);
                }
                let n = if len == 0 {
                    1
                } else {
                    len
                };
                let from = out.len() - o;
                copy_match_exec(&mut out, from, n);
                literal = false;
                reuse_state = rs;
                offset = o;
                lit_next = false;
            },
        }
    }
}

} // verus!
