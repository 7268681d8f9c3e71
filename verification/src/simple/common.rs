//! The bit stream shared by the simple decrunchers: its model, a reader for
//! it, and the decrunch loop.
use crate::simple::DecrunchError;
use vstd::arithmetic::power2::*;
use vstd::bits::*;
use vstd::prelude::*;

verus! {

// ---------------------------------------------------------------------------
// Model of the stream
// ---------------------------------------------------------------------------
/// Where a reader stands in a crunched stream: `pos` bytes have been taken,
/// and `cnt` of their bits have not been used yet; they form the number
/// `acc`, whose most significant bit is the next one to be read.
pub struct BitCursor {
    pub pos: nat,
    pub acc: nat,
    pub cnt: nat,
}

pub open spec fn cursor_wf(c: BitCursor) -> bool {
    c.acc < pow2(c.cnt)
}

/// The bits that are still to be read from `src` at `c`.
pub open spec fn bits_left(src: Seq<u8>, c: BitCursor) -> nat {
    (if c.pos <= src.len() {
        ((src.len() - c.pos) * 8) as nat
    } else {
        0nat
    }) + c.cnt
}

/// Reads `n` bits, most significant first; bytes are taken from `src` as
/// they are needed. `None` when the stream ends first.
pub open spec fn read_bits(src: Seq<u8>, c: BitCursor, n: nat) -> Option<(nat, BitCursor)>
    decreases (if c.cnt < n {
        n - c.cnt
    } else {
        0
    }),
{
    if n <= c.cnt {
        let rest = (c.cnt - n) as nat;
        Some((c.acc / pow2(rest), BitCursor { pos: c.pos, acc: c.acc % pow2(rest), cnt: rest }))
    } else if c.pos < src.len() {
        read_bits(
            src,
            BitCursor { pos: c.pos + 1, acc: (c.acc * 256 + src[c.pos as int]) as nat, cnt: c.cnt + 8 },
            n,
        )
    } else {
        None
    }
}

/// The cursor after taking every byte that is left in `src` into the bits
/// to be read.
pub open spec fn take_rest(src: Seq<u8>, c: BitCursor) -> BitCursor
    decreases (if c.pos < src.len() {
        src.len() - c.pos
    } else {
        0
    }),
{
    if c.pos < src.len() {
        take_rest(src, BitCursor { pos: c.pos + 1, acc: (c.acc * 256 + src[c.pos as int]) as nat, cnt: c.cnt + 8 })
    } else {
        c
    }
}

pub proof fn lemma_read_bits(src: Seq<u8>, c: BitCursor, n: nat)
    requires
        cursor_wf(c),
    ensures
        read_bits(src, c, n) matches Some((v, c2)) ==> {
            &&& cursor_wf(c2)
            &&& v < pow2(n)
            &&& bits_left(src, c2) + n == bits_left(src, c)
            &&& c.pos <= c2.pos
            &&& (c.pos <= src.len() ==> c2.pos <= src.len())
        },
    decreases (if c.cnt < n {
        n - c.cnt
    } else {
        0
    }),
{
    if n <= c.cnt {
        let rest = (c.cnt - n) as nat;
        lemma_pow2_pos(rest);
        lemma_pow2_adds(rest, n);
        vstd::arithmetic::div_mod::lemma_multiply_divide_lt(c.acc as int, pow2(rest) as int, pow2(n) as int);
        vstd::arithmetic::div_mod::lemma_mod_bound(c.acc as int, pow2(rest) as int);
    } else if c.pos < src.len() {
        let c2 = BitCursor { pos: c.pos + 1, acc: (c.acc * 256 + src[c.pos as int]) as nat, cnt: c.cnt + 8 };
        lemma_pow2_adds(c.cnt, 8);
        lemma2_to64();
        assert(c2.acc < pow2(c2.cnt)) by (nonlinear_arith)
            requires
                c.acc < pow2(c.cnt),
                c2.acc == c.acc * 256 + src[c.pos as int],
                pow2(c2.cnt) == pow2(c.cnt) * 256,
                src[c.pos as int] < 256,
        ;
        lemma_read_bits(src, c2, n);
    }
}

/// Counts the 0 bits before the next 1 bit, and reads that 1 too.
pub open spec fn read_unary(src: Seq<u8>, c: BitCursor, zeros: nat) -> Option<(nat, BitCursor)>
    decreases bits_left(src, c),
{
    if !cursor_wf(c) {
        None
    } else {
        match read_bits(src, c, 1) {
            None => None,
            Some((b, c2)) => {
                proof {
                    lemma_read_bits(src, c, 1);
                }
                if b != 0 {
                    Some((zeros, c2))
                } else {
                    read_unary(src, c2, zeros + 1)
                }
            },
        }
    }
}

pub proof fn lemma_read_unary(src: Seq<u8>, c: BitCursor, zeros: nat)
    requires
        cursor_wf(c),
    ensures
        read_unary(src, c, zeros) matches Some((v, c2)) ==> {
            &&& cursor_wf(c2)
            &&& zeros <= v
            &&& bits_left(src, c2) < bits_left(src, c)
            &&& c.pos <= c2.pos
            &&& (c.pos <= src.len() ==> c2.pos <= src.len())
        },
    decreases bits_left(src, c),
{
    lemma_read_bits(src, c, 1);
    if let Some((b, c2)) = read_bits(src, c, 1) {
        if b == 0 {
            lemma_read_unary(src, c2, zeros + 1);
        }
    }
}

/// The flags of a proto that the simple decrunchers act on.
pub struct ProtoBits {
    pub impl1literal: bool,
    pub four_offset_tables: bool,
    pub reuse_offset: bool,
}

pub open spec fn proto_bits(p: u8) -> ProtoBits {
    ProtoBits {
        impl1literal: p & 4 != 0,
        four_offset_tables: p & 16 != 0,
        reuse_offset: p & 32 != 0,
    }
}

/// The number of table entries that the stream starts with.
pub open spec fn table_entries(pb: ProtoBits) -> nat {
    if pb.four_offset_tables {
        68
    } else {
        52
    }
}

/// The decoding tables: entry `i` codes the values from `base[i]` to
/// `base[i] + 2^bits[i] - 1`. Entries past those read stay 0.
pub struct Tables {
    pub base: Seq<u16>,
    pub bits: Seq<u8>,
}

/// Reads the table entries `i..n`: each is 4 bits giving the width of its
/// interval, and each group of 16 entries starts at 1. An interval that
/// would end past 65535 is an error.
pub open spec fn read_tables(src: Seq<u8>, c: BitCursor, i: nat, n: nat, next_base: nat, t: Tables) -> Result<
    (Tables, BitCursor),
    DecrunchError,
>
    decreases n - i,
{
    if i >= n {
        Ok((t, c))
    } else {
        let b2: nat = if i % 16 == 0 {
            1
        } else {
            next_base
        };
        match read_bits(src, c, 4) {
            None => Err(DecrunchError::EndOfInput),
            Some((b1, c2)) => if b2 + pow2(b1) > 65535 {
                Err(DecrunchError::DecodingError)
            } else {
                read_tables(
                    src,
                    c2,
                    i + 1,
                    n,
                    b2 + pow2(b1),
                    Tables {
                        base: t.base.update(i as int, b2 as u16),
                        bits: t.bits.update(i as int, b1 as u8),
                    },
                )
            },
        }
    }
}

pub open spec fn empty_tables() -> Tables {
    Tables { base: Seq::new(68, |i: int| 0u16), bits: Seq::new(68, |i: int| 0u8) }
}

pub open spec fn start_cursor() -> BitCursor {
    BitCursor { pos: 0, acc: 0, cnt: 0 }
}

/// The state between two sequences of the decrunch loop: the output buffer
/// `out` is filled from its end, `written` bytes so far.
pub struct DecState {
    pub cur: BitCursor,
    pub out: Seq<u8>,
    pub written: nat,
    pub literal: bool,
    pub first: bool,
    pub reuse: nat,
    pub offset: nat,
}

/// What one sequence of the stream asks for.
pub enum Command {
    /// Copy `len` bytes: from the input when `literal`, else from `offset`
    /// bytes further on in the output.
    Copy { literal: bool, len: nat, offset: nat, reuse: nat, cur: BitCursor },
    /// The end marker: stop here.
    End { cur: BitCursor },
    Fail { err: DecrunchError },
}

/// Offset table index for a sequence of length `len`: the table picked by the
/// length, then 2 or 4 bits that select the entry in it.
pub open spec fn offset_index(src: Seq<u8>, c: BitCursor, four: bool, len: nat) -> Option<(nat, BitCursor)> {
    let (width, table): (nat, nat) = if four {
        if len == 1 {
            (2, 64)
        } else if len == 2 {
            (4, 48)
        } else if len == 3 {
            (4, 32)
        } else {
            (4, 16)
        }
    } else {
        if len == 1 {
            (2, 48)
        } else if len == 2 {
            (4, 32)
        } else {
            (4, 16)
        }
    };
    match read_bits(src, c, width) {
        None => None,
        Some((v, c2)) => Some((v + table, c2)),
    }
}

/// A value coded by table entry `i`: its base plus `bits[i]` more bits.
pub open spec fn read_coded(src: Seq<u8>, c: BitCursor, t: Tables, i: nat) -> Option<(nat, BitCursor)> {
    match read_bits(src, c, t.bits[i as int] as nat) {
        None => None,
        Some((v, c2)) => Some(((t.base[i as int] + v) as nat, c2)),
    }
}

/// The offset of a copied sequence, read after its length.
pub open spec fn read_offset(src: Seq<u8>, c: BitCursor, t: Tables, pb: ProtoBits, len: nat, reuse: nat, prev: nat) -> Option<(nat, BitCursor)> {
    let reuse_bit: Option<(bool, BitCursor)> = if pb.reuse_offset && reuse == 1 {
        match read_bits(src, c, 1) {
            None => None,
            Some((b, c2)) => Some((b != 0, c2)),
        }
    } else {
        Some((false, c))
    };
    match reuse_bit {
        None => None,
        Some((true, c2)) => Some((prev, c2)),
        Some((false, c2)) => match offset_index(src, c2, pb.four_offset_tables, len) {
            None => None,
            Some((i, c3)) => read_coded(src, c3, t, i),
        },
    }
}

/// Reads what the next sequence asks for.
pub open spec fn next_command(src: Seq<u8>, t: Tables, pb: ProtoBits, s: DecState) -> Command {
    let reuse: nat = ((s.reuse * 2 + (if s.literal { 1nat } else { 0nat })) % 4) as nat;
    let flag: Option<(bool, BitCursor)> = if s.first {
        Some((true, s.cur))
    } else {
        match read_bits(src, s.cur, 1) {
            None => None,
            Some((b, c2)) => Some((b != 0, c2)),
        }
    };
    match flag {
        None => Command::Fail { err: DecrunchError::EndOfInput },
        Some((true, c)) => Command::Copy { literal: true, len: 1, offset: s.offset, reuse, cur: c },
        Some((false, c)) => match read_unary(src, c, 0) {
            None => Command::Fail { err: DecrunchError::EndOfInput },
            Some((index, c2)) => if index == 16 {
                Command::End { cur: c2 }
            } else if index == 17 {
                match read_bits(src, c2, 16) {
                    None => Command::Fail { err: DecrunchError::EndOfInput },
                    Some((len, c3)) => Command::Copy {
                        literal: true,
                        len,
                        offset: s.offset,
                        reuse,
                        cur: c3,
                    },
                }
            } else if index >= 68 {
                Command::Fail { err: DecrunchError::DecodingError }
            } else {
                match read_coded(src, c2, t, index) {
                    None => Command::Fail { err: DecrunchError::EndOfInput },
                    Some((len, c3)) => match read_offset(src, c3, t, pb, len, reuse, s.offset) {
                        None => Command::Fail { err: DecrunchError::EndOfInput },
                        Some((offset, c4)) => Command::Copy {
                            literal: false,
                            len,
                            offset,
                            reuse,
                            cur: c4,
                        },
                    },
                }
            },
        },
    }
}

/// Writes `n` input bytes, starting at `src[pos]`, backwards from position `p` of `out`.
pub open spec fn copy_literal(out: Seq<u8>, p: nat, src: Seq<u8>, pos: nat, n: nat) -> Seq<u8>
    decreases n,
{
    if n == 0 || p == 0 {
        out
    } else {
        copy_literal(out.update(p - 1, src[pos as int]), (p - 1) as nat, src, pos + 1, (n - 1) as nat)
    }
}

/// Writes `n` bytes backwards from position `p` of `out`, each a copy of the
/// byte `offset` places after it (which may itself have just been written).
pub open spec fn copy_match(out: Seq<u8>, p: nat, offset: nat, n: nat) -> Seq<u8>
    decreases n,
{
    if n == 0 || p == 0 {
        out
    } else {
        let q = (p - 1) as nat;
        copy_match(out.update(q as int, out[(q + offset) as int]), q, offset, (n - 1) as nat)
    }
}

pub enum Step {
    Next(DecState),
    Done(Result<DecState, DecrunchError>),
}

/// One sequence of the decrunch loop.
pub open spec fn step(src: Seq<u8>, t: Tables, pb: ProtoBits, s: DecState) -> Step {
    match next_command(src, t, pb, s) {
        Command::Fail { err } => Step::Done(Err(err)),
        Command::End { cur } => if cur.pos < src.len() {
            Step::Done(Err(DecrunchError::UnusedInput))
        } else {
            Step::Done(Ok(DecState { cur, ..s }))
        },
        Command::Copy { literal, len, offset, reuse, cur } => {
            let free = s.out.len() - s.written;
            if free < len {
                Step::Done(Err(DecrunchError::BufferOverflow))
            } else if !literal && offset > s.written {
                Step::Done(Err(DecrunchError::DecodingError))
            } else if literal && src.len() - cur.pos < len {
                Step::Done(Err(DecrunchError::EndOfInput))
            } else {
                let p = (s.out.len() - s.written) as nat;
                let out = if literal {
                    copy_literal(s.out, p, src, cur.pos, len)
                } else {
                    copy_match(s.out, p, offset, len)
                };
                let cur2 = if literal {
                    BitCursor { pos: cur.pos + len, ..cur }
                } else {
                    cur
                };
                Step::Next(
                    DecState {
                        cur: cur2,
                        out,
                        written: s.written + len,
                        literal,
                        first: false,
                        reuse,
                        offset,
                    },
                )
            }
        },
    }
}

pub open spec fn step_measure(src: Seq<u8>, s: DecState) -> nat {
    bits_left(src, s.cur) + (if s.first {
        1nat
    } else {
        0nat
    })
}

pub open spec fn state_wf(src: Seq<u8>, s: DecState) -> bool {
    &&& cursor_wf(s.cur)
    &&& s.cur.pos <= src.len()
    &&& s.written <= s.out.len()
}

pub proof fn lemma_read_coded(src: Seq<u8>, c: BitCursor, t: Tables, i: nat)
    requires
        cursor_wf(c),
    ensures
        read_coded(src, c, t, i) matches Some((v, c2)) ==> {
            &&& cursor_wf(c2)
            &&& bits_left(src, c2) <= bits_left(src, c)
            &&& c.pos <= c2.pos
            &&& (c.pos <= src.len() ==> c2.pos <= src.len())
        },
{
    lemma_read_bits(src, c, t.bits[i as int] as nat);
}

pub proof fn lemma_read_offset(src: Seq<u8>, c: BitCursor, t: Tables, pb: ProtoBits, len: nat, reuse: nat, prev: nat)
    requires
        cursor_wf(c),
    ensures
        read_offset(src, c, t, pb, len, reuse, prev) matches Some((v, c2)) ==> {
            &&& cursor_wf(c2)
            &&& bits_left(src, c2) <= bits_left(src, c)
            &&& (c.pos <= src.len() ==> c2.pos <= src.len())
        },
{
    lemma_read_bits(src, c, 1);
    let reuse_bit: Option<(bool, BitCursor)> = if pb.reuse_offset && reuse == 1 {
        match read_bits(src, c, 1) {
            None => None,
            Some((b, c2)) => Some((b != 0, c2)),
        }
    } else {
        Some((false, c))
    };
    if let Some((false, c2)) = reuse_bit {
        let four = pb.four_offset_tables;
        lemma_read_bits(src, c2, 2);
        lemma_read_bits(src, c2, 4);
        if let Some((i, c3)) = offset_index(src, c2, four, len) {
            lemma_read_coded(src, c3, t, i);
        }
    }
}

pub proof fn lemma_next_command(src: Seq<u8>, t: Tables, pb: ProtoBits, s: DecState)
    requires
        state_wf(src, s),
    ensures
        next_command(src, t, pb, s) matches Command::Copy { literal, len, cur, .. } ==> {
            &&& cursor_wf(cur)
            &&& cur.pos <= src.len()
            &&& (s.first ==> cur == s.cur && literal && len == 1)
            &&& (!s.first ==> bits_left(src, cur) < bits_left(src, s.cur))
        },
        next_command(src, t, pb, s) matches Command::End { cur } ==> cursor_wf(cur),
{
    lemma_read_bits(src, s.cur, 1);
    if !s.first {
        if let Some((b, c)) = read_bits(src, s.cur, 1) {
            if b == 0 {
                lemma_read_unary(src, c, 0);
                if let Some((index, c2)) = read_unary(src, c, 0) {
                    lemma_read_bits(src, c2, 16);
                    lemma_read_coded(src, c2, t, index);
                    if let Some((len, c3)) = read_coded(src, c2, t, index) {
                        lemma_read_offset(src, c3, t, pb, len, (((s.reuse * 2 + (if s.literal { 1nat } else { 0nat })) % 4) as nat), s.offset);
                    }
                }
            }
        }
    }
}

pub proof fn lemma_step(src: Seq<u8>, t: Tables, pb: ProtoBits, s: DecState)
    requires
        state_wf(src, s),
    ensures
        step(src, t, pb, s) matches Step::Next(s2) ==> {
            &&& state_wf(src, s2)
            &&& step_measure(src, s2) < step_measure(src, s)
            &&& s2.out.len() == s.out.len()
        },
{
    lemma_next_command(src, t, pb, s);
    match next_command(src, t, pb, s) {
        Command::Copy { literal, len, offset, reuse, cur } => {
            let p = (s.out.len() - s.written) as nat;
            if literal {
                lemma_copy_literal_len(s.out, p, src, cur.pos, len);
            } else {
                lemma_copy_match_len(s.out, p, offset, len);
            }
        },
        _ => {},
    }
}

pub proof fn lemma_copy_literal_len(out: Seq<u8>, p: nat, src: Seq<u8>, pos: nat, n: nat)
    requires
        p <= out.len(),
    ensures
        copy_literal(out, p, src, pos, n).len() == out.len(),
    decreases n,
{
    if n > 0 && p > 0 {
        lemma_copy_literal_len(out.update(p - 1, src[pos as int]), (p - 1) as nat, src, pos + 1, (n - 1) as nat);
    }
}

pub proof fn lemma_copy_match_len(out: Seq<u8>, p: nat, offset: nat, n: nat)
    requires
        p <= out.len(),
    ensures
        copy_match(out, p, offset, n).len() == out.len(),
    decreases n,
{
    if n > 0 && p > 0 {
        let q = (p - 1) as nat;
        lemma_copy_match_len(out.update(q as int, out[(q + offset) as int]), q, offset, (n - 1) as nat);
    }
}

/// Runs the decrunch loop from `s` to its end.
pub open spec fn run(src: Seq<u8>, t: Tables, pb: ProtoBits, s: DecState) -> Result<DecState, DecrunchError>
    decreases step_measure(src, s),
{
    if !state_wf(src, s) {
        Err(DecrunchError::DecodingError)
    } else {
        match step(src, t, pb, s) {
            Step::Done(r) => r,
            Step::Next(s2) => {
                proof {
                    lemma_step(src, t, pb, s);
                }
                run(src, t, pb, s2)
            },
        }
    }
}

/// Copying literals backwards from `p` leaves the bytes below `p - n` as
/// they were.
proof fn lemma_copy_literal_frame(out: Seq<u8>, p: nat, src: Seq<u8>, pos: nat, n: nat)
    requires
        n <= p <= out.len(),
    ensures
        forall|k: int| 0 <= k < p - n ==> #[trigger] copy_literal(out, p, src, pos, n)[k] == out[k],
    decreases n,
{
    if n > 0 {
        let out2 = out.update(p - 1, src[pos as int]);
        lemma_copy_literal_frame(out2, (p - 1) as nat, src, pos + 1, (n - 1) as nat);
        assert(copy_literal(out, p, src, pos, n) == copy_literal(out2, (p - 1) as nat, src, pos + 1, (n - 1) as nat));
        assert forall|k: int| 0 <= k < p - n implies #[trigger] copy_literal(out, p, src, pos, n)[k] == out[k] by {
            assert(out2[k] == out[k]);
        }
    }
}

/// Copying a match backwards from `p` leaves the bytes below `p - n` as
/// they were.
proof fn lemma_copy_match_frame(out: Seq<u8>, p: nat, offset: nat, n: nat)
    requires
        n <= p <= out.len(),
    ensures
        forall|k: int| 0 <= k < p - n ==> #[trigger] copy_match(out, p, offset, n)[k] == out[k],
    decreases n,
{
    if n > 0 {
        let q = (p - 1) as nat;
        let out2 = out.update(q as int, out[(q + offset) as int]);
        lemma_copy_match_frame(out2, q, offset, (n - 1) as nat);
        assert(copy_match(out, p, offset, n) == copy_match(out2, q, offset, (n - 1) as nat));
        assert forall|k: int| 0 <= k < p - n implies #[trigger] copy_match(out, p, offset, n)[k] == out[k] by {
            assert(out2[k] == out[k]);
        }
    }
}

/// The run writes only below the part it has written: the bytes in front
/// of its output are those of the state it starts from.
proof fn lemma_run_keeps_head(src: Seq<u8>, t: Tables, pb: ProtoBits, s: DecState)
    ensures
        run(src, t, pb, s) matches Ok(s2) ==> s2.out.len() == s.out.len() && s.written <= s2.written
            <= s2.out.len() && forall|k: int| 0 <= k < s2.out.len() - s2.written ==> #[trigger] s2.out[k] == s.out[k],
    decreases step_measure(src, s),
{
    if state_wf(src, s) {
        lemma_step(src, t, pb, s);
        match step(src, t, pb, s) {
            Step::Done(r) => {},
            Step::Next(s2) => {
                lemma_run_keeps_head(src, t, pb, s2);
                let p = (s.out.len() - s.written) as nat;
                match next_command(src, t, pb, s) {
                    Command::Copy { literal, len, offset, reuse, cur } => {
                        if literal {
                            lemma_copy_literal_frame(s.out, p, src, cur.pos, len);
                        } else {
                            lemma_copy_match_frame(s.out, p, offset, len);
                        }
                    },
                    _ => {},
                }
            },
        }
    }
}

/// Decrunching writes the data into the end of the buffer, and the bytes in
/// front of it stay as they were.
pub proof fn law_decrunch_keeps_head(p: u8, src: Seq<u8>, dst: Seq<u8>)
    ensures
        decrunch_buffer(p, src, dst) matches Ok((out, n)) ==> out.len() == dst.len() && n <= out.len()
            && out.subrange(0, out.len() - n) == dst.subrange(0, dst.len() - n),
{
    let pb = proto_bits(p);
    if let Ok((t, c)) = read_tables(src, start_cursor(), 0, table_entries(pb), 1, empty_tables()) {
        let s = DecState {
            cur: c,
            out: dst,
            written: 0,
            literal: true,
            first: pb.impl1literal,
            reuse: 0,
            offset: 0,
        };
        lemma_run_keeps_head(src, t, pb, s);
        if let Ok(s2) = run(src, t, pb, s) {
            assert(s2.out.subrange(0, s2.out.len() - s2.written) =~= dst.subrange(0, dst.len() - s2.written));
        }
    }
}

/// Copying literals into the end of a longer buffer does to that end what
/// it does to the shorter one.
proof fn lemma_copy_literal_suffix(o1: Seq<u8>, o2: Seq<u8>, p: nat, src: Seq<u8>, pos: nat, n: nat)
    requires
        n <= p <= o1.len() <= o2.len(),
        o1 == o2.subrange(o2.len() - o1.len(), o2.len() as int),
    ensures
        copy_literal(o1, p, src, pos, n) == copy_literal(o2, (p + o2.len() - o1.len()) as nat, src, pos, n).subrange(
            o2.len() - o1.len(),
            o2.len() as int,
        ),
        copy_literal(o2, (p + o2.len() - o1.len()) as nat, src, pos, n).len() == o2.len(),
    decreases n,
{
    let d = o2.len() - o1.len();
    lemma_copy_literal_len(o2, (p + d) as nat, src, pos, n);
    if n > 0 {
        let a = o1.update(p - 1, src[pos as int]);
        let b = o2.update(p + d - 1, src[pos as int]);
        assert(a =~= b.subrange(d, o2.len() as int));
        lemma_copy_literal_suffix(a, b, (p - 1) as nat, src, pos + 1, (n - 1) as nat);
        assert((p + d) as nat - 1 == ((p - 1) as nat + b.len() - a.len()) as nat);
    }
}

/// Copying a match into the end of a longer buffer does to that end what
/// it does to the shorter one, as long as it reads inside the shorter one.
proof fn lemma_copy_match_suffix(o1: Seq<u8>, o2: Seq<u8>, p: nat, offset: nat, n: nat)
    requires
        n <= p <= o1.len() <= o2.len(),
        p + offset <= o1.len(),
        o1 == o2.subrange(o2.len() - o1.len(), o2.len() as int),
    ensures
        copy_match(o1, p, offset, n) == copy_match(o2, (p + o2.len() - o1.len()) as nat, offset, n).subrange(
            o2.len() - o1.len(),
            o2.len() as int,
        ),
        copy_match(o2, (p + o2.len() - o1.len()) as nat, offset, n).len() == o2.len(),
    decreases n,
{
    let d = o2.len() - o1.len();
    lemma_copy_match_len(o2, (p + d) as nat, offset, n);
    if n > 0 {
        let q = (p - 1) as nat;
        let q2 = (p + d - 1) as nat;
        assert(o1[(q + offset) as int] == o2[(q2 + offset) as int]);
        let a = o1.update(q as int, o1[(q + offset) as int]);
        let b = o2.update(q2 as int, o2[(q2 + offset) as int]);
        assert(a =~= b.subrange(d, o2.len() as int));
        lemma_copy_match_suffix(a, b, q, offset, (n - 1) as nat);
        assert(q2 == (q + b.len() - a.len()) as nat);
    }
}

/// A run into the end of a longer buffer, whose end holds the same bytes,
/// ends as the run into the shorter one does when that one succeeds.
proof fn lemma_run_suffix(src: Seq<u8>, t: Tables, pb: ProtoBits, s1: DecState, s2: DecState)
    requires
        s1 == (DecState { out: s1.out, ..s2 }),
        s1.out.len() <= s2.out.len(),
        s1.out == s2.out.subrange(s2.out.len() - s1.out.len(), s2.out.len() as int),
    ensures
        run(src, t, pb, s1) matches Ok(r1) ==> run(src, t, pb, s2) matches Ok(r2) && r1.written == r2.written
            && r1.out.len() == s1.out.len() && r2.out.len() == s2.out.len() && r1.out == r2.out.subrange(
            r2.out.len() - r1.out.len(),
            r2.out.len() as int,
        ),
    decreases step_measure(src, s1),
{
    if state_wf(src, s1) {
        assert(state_wf(src, s2));
        lemma_step(src, t, pb, s1);
        lemma_step(src, t, pb, s2);
        let d = s2.out.len() - s1.out.len();
        match next_command(src, t, pb, s1) {
            Command::Copy { literal, len, offset, reuse, cur } => {
                let p1 = (s1.out.len() - s1.written) as nat;
                if s1.out.len() - s1.written >= len && !(!literal && offset > s1.written) && !(literal
                    && src.len() - cur.pos < len) {
                    if literal {
                        lemma_copy_literal_suffix(s1.out, s2.out, p1, src, cur.pos, len);
                    } else {
                        lemma_copy_match_suffix(s1.out, s2.out, p1, offset, len);
                    }
                    assert((p1 + d) as nat == (s2.out.len() - s2.written) as nat);
                    if let Step::Next(n1) = step(src, t, pb, s1) {
                        if let Step::Next(n2) = step(src, t, pb, s2) {
                            lemma_run_suffix(src, t, pb, n1, n2);
                        }
                    }
                }
            },
            _ => {},
        }
    }
}

/// A buffer that ends with the bytes of a shorter one gives the same data
/// as the shorter one, whenever the shorter one holds it.
pub proof fn law_decrunch_longer_buffer(p: u8, src: Seq<u8>, d1: Seq<u8>, d2: Seq<u8>)
    requires
        d1.len() <= d2.len(),
        d1 == d2.subrange(d2.len() - d1.len(), d2.len() as int),
    ensures
        decrunched(p, src, d1) matches Ok(data) ==> decrunched(p, src, d2) == Ok::<Seq<u8>, DecrunchError>(data),
{
    let pb = proto_bits(p);
    if let Ok((t, c)) = read_tables(src, start_cursor(), 0, table_entries(pb), 1, empty_tables()) {
        let s1 = DecState {
            cur: c,
            out: d1,
            written: 0,
            literal: true,
            first: pb.impl1literal,
            reuse: 0,
            offset: 0,
        };
        let s2 = DecState { out: d2, ..s1 };
        lemma_run_suffix(src, t, pb, s1, s2);
        lemma_run_keeps_head(src, t, pb, s1);
        if let Ok(r1) = run(src, t, pb, s1) {
            let r2 = run(src, t, pb, s2).unwrap();
            let w = r1.written;
            let l1 = r1.out.len();
            let l2 = r2.out.len();
            assert(r1.out.subrange(l1 - w, l1 as int) =~= r2.out.subrange(l2 - w, l2 as int));
        }
    }
}

/// The buffer after a step that stops the run with an error: as it was,
/// but for a literal run that the input cuts short, whose bytes that are
/// there are written first.
pub open spec fn failed_buffer(src: Seq<u8>, t: Tables, pb: ProtoBits, s: DecState) -> Seq<u8> {
    match next_command(src, t, pb, s) {
        Command::Copy { literal, len, cur, .. } => if literal && s.out.len() - s.written >= len && src.len() - cur.pos
            < len {
            copy_literal(s.out, (s.out.len() - s.written) as nat, src, cur.pos, (src.len() - cur.pos) as nat)
        } else {
            s.out
        },
        _ => s.out,
    }
}

/// The buffer when the run from `s` stops, whether it ends well or not.
pub open spec fn run_buffer(src: Seq<u8>, t: Tables, pb: ProtoBits, s: DecState) -> Seq<u8>
    decreases step_measure(src, s),
{
    if !state_wf(src, s) {
        s.out
    } else {
        match step(src, t, pb, s) {
            Step::Done(Ok(s2)) => s2.out,
            Step::Done(Err(_)) => failed_buffer(src, t, pb, s),
            Step::Next(s2) => {
                proof {
                    lemma_step(src, t, pb, s);
                }
                run_buffer(src, t, pb, s2)
            },
        }
    }
}

/// A run that ends well leaves the buffer of its last state.
pub proof fn lemma_run_buffer_ok(src: Seq<u8>, t: Tables, pb: ProtoBits, s: DecState)
    ensures
        run(src, t, pb, s) matches Ok(s2) ==> run_buffer(src, t, pb, s) == s2.out,
    decreases step_measure(src, s),
{
    if state_wf(src, s) {
        lemma_step(src, t, pb, s);
        if let Step::Next(s2) = step(src, t, pb, s) {
            lemma_run_buffer_ok(src, t, pb, s2);
        }
    }
}

/// The buffer `dst` after decrunching `src` with proto `p` into it, whether
/// that ends well or not: untouched when the tables cannot be read.
pub open spec fn decrunch_final_buffer(p: u8, src: Seq<u8>, dst: Seq<u8>) -> Seq<u8> {
    let pb = proto_bits(p);
    match read_tables(src, start_cursor(), 0, table_entries(pb), 1, empty_tables()) {
        Err(_) => dst,
        Ok((t, c)) => run_buffer(
            src,
            t,
            pb,
            DecState {
                cur: c,
                out: dst,
                written: 0,
                literal: true,
                first: pb.impl1literal,
                reuse: 0,
                offset: 0,
            },
        ),
    }
}

/// The run into another buffer, from the same place: where the run into
/// `s1.out` ends well after writing more than `s2.out` holds, the run into
/// `s2.out` runs out of room; where the two buffers are as long, the runs
/// end alike, with as many bytes written.
proof fn lemma_run_other_buffer(src: Seq<u8>, t: Tables, pb: ProtoBits, s1: DecState, s2: DecState)
    requires
        s2 == (DecState { out: s2.out, ..s1 }),
        s2.written <= s2.out.len(),
    ensures
        run(src, t, pb, s1) matches Ok(f1) && f1.written > s2.out.len() ==> run(src, t, pb, s2) == Err::<
            DecState,
            DecrunchError,
        >(DecrunchError::BufferOverflow),
        s1.out.len() == s2.out.len() ==> match run(src, t, pb, s1) {
            Ok(f1) => run(src, t, pb, s2) matches Ok(f2) && f2.written == f1.written,
            Err(e) => run(src, t, pb, s2) == Err::<DecState, DecrunchError>(e),
        },
    decreases step_measure(src, s1),
{
    if state_wf(src, s1) {
        assert(state_wf(src, s2));
        lemma_step(src, t, pb, s1);
        lemma_step(src, t, pb, s2);
        assert(next_command(src, t, pb, s1) == next_command(src, t, pb, s2));
        match next_command(src, t, pb, s1) {
            Command::Copy { literal, len, offset, reuse, cur } => {
                let p2 = (s2.out.len() - s2.written) as nat;
                if let Step::Next(n1) = step(src, t, pb, s1) {
                    if let Step::Next(n2) = step(src, t, pb, s2) {
                        if literal {
                            lemma_copy_literal_len(s2.out, p2, src, cur.pos, len);
                        } else {
                            lemma_copy_match_len(s2.out, p2, offset, len);
                        }
                        lemma_run_other_buffer(src, t, pb, n1, n2);
                    }
                }
            },
            _ => {},
        }
    } else {
        if s1.out.len() == s2.out.len() {
            assert(!state_wf(src, s2));
        }
    }
}

/// Decrunching into a buffer shorter than the data it gives in a buffer
/// that holds it runs out of room.
pub proof fn law_decrunch_short_buffer(p: u8, src: Seq<u8>, d1: Seq<u8>, d2: Seq<u8>)
    requires
        decrunched(p, src, d1) matches Ok(data) && d2.len() < data.len(),
    ensures
        decrunched(p, src, d2) == Err::<Seq<u8>, DecrunchError>(DecrunchError::BufferOverflow),
{
    let pb = proto_bits(p);
    law_decrunch_keeps_head(p, src, d1);
    let (t, c) = read_tables(src, start_cursor(), 0, table_entries(pb), 1, empty_tables()).unwrap();
    let s1 = DecState { cur: c, out: d1, written: 0, literal: true, first: pb.impl1literal, reuse: 0, offset: 0 };
    let s2 = DecState { out: d2, ..s1 };
    lemma_run_other_buffer(src, t, pb, s1, s2);
}

/// Into buffers of the same length, decrunching ends alike whatever the
/// buffers hold: with the same error, or well with as many bytes written.
pub proof fn law_decrunch_same_length(p: u8, src: Seq<u8>, d1: Seq<u8>, d2: Seq<u8>)
    requires
        d1.len() == d2.len(),
    ensures
        match decrunch_buffer(p, src, d1) {
            Ok((o1, n1)) => decrunch_buffer(p, src, d2) matches Ok((o2, n2)) && n2 == n1,
            Err(e) => decrunch_buffer(p, src, d2) == Err::<(Seq<u8>, nat), DecrunchError>(e),
        },
{
    let pb = proto_bits(p);
    if let Ok((t, c)) = read_tables(src, start_cursor(), 0, table_entries(pb), 1, empty_tables()) {
        let s1 = DecState { cur: c, out: d1, written: 0, literal: true, first: pb.impl1literal, reuse: 0, offset: 0 };
        let s2 = DecState { out: d2, ..s1 };
        lemma_run_other_buffer(src, t, pb, s1, s2);
    }
}

/// Whether two buffers of the same length hold the same bytes from `lo` on.
pub open spec fn agree_from(o1: Seq<u8>, o2: Seq<u8>, lo: int) -> bool {
    &&& o1.len() == o2.len()
    &&& forall|k: int| lo <= k < o1.len() ==> #[trigger] o1[k] == o2[k]
}

/// Whether the run from `s` copies a sequence from offset 0, which copies
/// the bytes that the buffer holds where it writes.
pub open spec fn run_copies_self(src: Seq<u8>, t: Tables, pb: ProtoBits, s: DecState) -> bool
    decreases step_measure(src, s),
{
    if !state_wf(src, s) {
        false
    } else {
        match step(src, t, pb, s) {
            Step::Done(_) => false,
            Step::Next(s2) => {
                proof {
                    lemma_step(src, t, pb, s);
                }
                (s2.offset == 0 && !s2.literal) || run_copies_self(src, t, pb, s2)
            },
        }
    }
}

proof fn lemma_copy_literal_agree(o1: Seq<u8>, o2: Seq<u8>, p: nat, src: Seq<u8>, pos: nat, n: nat)
    requires
        n <= p <= o1.len(),
        agree_from(o1, o2, p as int),
    ensures
        agree_from(copy_literal(o1, p, src, pos, n), copy_literal(o2, p, src, pos, n), p - n),
    decreases n,
{
    lemma_copy_literal_len(o1, p, src, pos, n);
    lemma_copy_literal_len(o2, p, src, pos, n);
    if n > 0 {
        let a = o1.update(p - 1, src[pos as int]);
        let b = o2.update(p - 1, src[pos as int]);
        lemma_copy_literal_agree(a, b, (p - 1) as nat, src, pos + 1, (n - 1) as nat);
    }
}

proof fn lemma_copy_match_agree(o1: Seq<u8>, o2: Seq<u8>, p: nat, offset: nat, n: nat)
    requires
        n <= p <= o1.len(),
        1 <= offset,
        p + offset <= o1.len(),
        agree_from(o1, o2, p as int),
    ensures
        agree_from(copy_match(o1, p, offset, n), copy_match(o2, p, offset, n), p - n),
    decreases n,
{
    lemma_copy_match_len(o1, p, offset, n);
    lemma_copy_match_len(o2, p, offset, n);
    if n > 0 {
        let q = (p - 1) as nat;
        assert(o1[(q + offset) as int] == o2[(q + offset) as int]);
        let a = o1.update(q as int, o1[(q + offset) as int]);
        let b = o2.update(q as int, o2[(q + offset) as int]);
        lemma_copy_match_agree(a, b, q, offset, (n - 1) as nat);
    }
}

/// Runs into buffers of the same length that hold the same written bytes
/// write the same bytes, unless they copy a sequence from offset 0.
proof fn lemma_run_agree(src: Seq<u8>, t: Tables, pb: ProtoBits, s1: DecState, s2: DecState)
    requires
        s2 == (DecState { out: s2.out, ..s1 }),
        s1.written <= s1.out.len(),
        agree_from(s1.out, s2.out, s1.out.len() - s1.written),
        !run_copies_self(src, t, pb, s1),
    ensures
        run(src, t, pb, s1) matches Ok(r1) ==> run(src, t, pb, s2) matches Ok(r2) && r1.written == r2.written
            && r1.written <= r1.out.len() && agree_from(r1.out, r2.out, r1.out.len() - r1.written),
    decreases step_measure(src, s1),
{
    if state_wf(src, s1) {
        assert(state_wf(src, s2));
        lemma_step(src, t, pb, s1);
        lemma_step(src, t, pb, s2);
        assert(next_command(src, t, pb, s1) == next_command(src, t, pb, s2));
        match next_command(src, t, pb, s1) {
            Command::Copy { literal, len, offset, reuse, cur } => {
                let p1 = (s1.out.len() - s1.written) as nat;
                if let Step::Next(n1) = step(src, t, pb, s1) {
                    if let Step::Next(n2) = step(src, t, pb, s2) {
                        if literal {
                            lemma_copy_literal_agree(s1.out, s2.out, p1, src, cur.pos, len);
                        } else {
                            lemma_copy_match_agree(s1.out, s2.out, p1, offset, len);
                        }
                        lemma_run_agree(src, t, pb, n1, n2);
                    }
                }
            },
            Command::End { cur } => {},
            Command::Fail { err } => {},
        }
    }
}

/// Whether the run from `s` meets a sequence whose gamma code is 68 or
/// more, beyond every table entry.
pub open spec fn run_bad_code(src: Seq<u8>, t: Tables, pb: ProtoBits, s: DecState) -> bool
    decreases step_measure(src, s),
{
    if !state_wf(src, s) {
        false
    } else if next_command(src, t, pb, s) == (Command::Fail { err: DecrunchError::DecodingError }) {
        true
    } else {
        match step(src, t, pb, s) {
            Step::Done(_) => false,
            Step::Next(s2) => {
                proof {
                    lemma_step(src, t, pb, s);
                }
                run_bad_code(src, t, pb, s2)
            },
        }
    }
}

/// Whether decrunching `src` with proto `p` into a buffer like `dst` meets
/// a sequence whose gamma code is 68 or more, which no table entry codes.
pub open spec fn decrunch_bad_code(p: u8, src: Seq<u8>, dst: Seq<u8>) -> bool {
    let pb = proto_bits(p);
    match read_tables(src, start_cursor(), 0, table_entries(pb), 1, empty_tables()) {
        Err(e) => false,
        Ok((t, c)) => run_bad_code(
            src,
            t,
            pb,
            DecState { cur: c, out: dst, written: 0, literal: true, first: pb.impl1literal, reuse: 0, offset: 0 },
        ),
    }
}

/// Whether decrunching `src` into a buffer like `dst` copies a sequence
/// from offset 0 (which copies the buffer's own bytes).
pub open spec fn decrunch_copies_self(p: u8, src: Seq<u8>, dst: Seq<u8>) -> bool {
    let pb = proto_bits(p);
    match read_tables(src, start_cursor(), 0, table_entries(pb), 1, empty_tables()) {
        Err(e) => false,
        Ok((t, c)) => run_copies_self(
            src,
            t,
            pb,
            DecState { cur: c, out: dst, written: 0, literal: true, first: pb.impl1literal, reuse: 0, offset: 0 },
        ),
    }
}

/// Into buffers of the same length, decrunching gives the same result
/// whatever the buffers hold, unless the stream copies a sequence from
/// offset 0, which copies the buffer's own bytes.
pub proof fn law_decrunch_contents(p: u8, src: Seq<u8>, d1: Seq<u8>, d2: Seq<u8>)
    requires
        d1.len() == d2.len(),
        !decrunch_copies_self(p, src, d1),
    ensures
        decrunched(p, src, d1) == decrunched(p, src, d2),
{
    law_decrunch_same_length(p, src, d1, d2);
    let pb = proto_bits(p);
    if let Ok((t, c)) = read_tables(src, start_cursor(), 0, table_entries(pb), 1, empty_tables()) {
        let s1 = DecState { cur: c, out: d1, written: 0, literal: true, first: pb.impl1literal, reuse: 0, offset: 0 };
        let s2 = DecState { out: d2, ..s1 };
        lemma_run_agree(src, t, pb, s1, s2);
        if let Ok(r1) = run(src, t, pb, s1) {
            let r2 = run(src, t, pb, s2).unwrap();
            let l = r1.out.len();
            assert(r1.out.subrange(l - r1.written, l as int) =~= r2.out.subrange(l - r2.written, l as int));
        }
    }
}

/// A run into the end of a shorter buffer, whose bytes are those at the end
/// of the longer one, ends as the run into the longer one does when that
/// one writes no more than the shorter one holds, and copies from offset 0
/// as that one does.
proof fn lemma_run_shorter(src: Seq<u8>, t: Tables, pb: ProtoBits, s1: DecState, s2: DecState)
    requires
        s2 == (DecState { out: s2.out, ..s1 }),
        s2.out.len() <= s1.out.len(),
        s1.written <= s2.out.len(),
        s2.out == s1.out.subrange(s1.out.len() - s2.out.len(), s1.out.len() as int),
    ensures
        run(src, t, pb, s1) matches Ok(r1) ==> r1.written >= s1.written,
        run(src, t, pb, s1) matches Ok(r1) ==> (r1.written <= s2.out.len() ==> {
            &&& run(src, t, pb, s2) matches Ok(r2)
            &&& r2.written == r1.written
            &&& r2.out == r1.out.subrange(r1.out.len() - s2.out.len(), r1.out.len() as int)
            &&& r1.out.len() == s1.out.len()
            &&& run_copies_self(src, t, pb, s2) == run_copies_self(src, t, pb, s1)
        }),
    decreases step_measure(src, s1),
{
    if state_wf(src, s1) {
        assert(state_wf(src, s2));
        lemma_step(src, t, pb, s1);
        lemma_step(src, t, pb, s2);
        assert(next_command(src, t, pb, s1) == next_command(src, t, pb, s2));
        match next_command(src, t, pb, s1) {
            Command::Copy { literal, len, offset, reuse, cur } => {
                if let Step::Next(n1) = step(src, t, pb, s1) {
                    let p1 = (s1.out.len() - s1.written) as nat;
                    let p2 = (s2.out.len() - s2.written) as nat;
                    if literal {
                        lemma_copy_literal_len(s1.out, p1, src, cur.pos, len);
                    } else {
                        lemma_copy_match_len(s1.out, p1, offset, len);
                    }
                    if n1.written <= s2.out.len() {
                        let n2 = DecState { out: if literal {
                            copy_literal(s2.out, p2, src, cur.pos, len)
                        } else {
                            copy_match(s2.out, p2, offset, len)
                        }, ..n1 };
                        assert(step(src, t, pb, s2) == Step::Next(n2));
                        if literal {
                            lemma_copy_literal_suffix(s2.out, s1.out, p2, src, cur.pos, len);
                            lemma_copy_literal_len(s2.out, p2, src, cur.pos, len);
                        } else {
                            lemma_copy_match_suffix(s2.out, s1.out, p2, offset, len);
                            lemma_copy_match_len(s2.out, p2, offset, len);
                        }
                        assert((p2 + s1.out.len() - s2.out.len()) as nat == p1);
                        lemma_run_shorter(src, t, pb, n1, n2);
                    } else {
                        lemma_run_written_grows(src, t, pb, n1);
                    }
                }
            },
            _ => {},
        }
    }
}

/// A run that ends well has written at least what it had written.
proof fn lemma_run_written_grows(src: Seq<u8>, t: Tables, pb: ProtoBits, s: DecState)
    ensures
        run(src, t, pb, s) matches Ok(r) ==> r.written >= s.written,
    decreases step_measure(src, s),
{
    if state_wf(src, s) {
        lemma_step(src, t, pb, s);
        if let Step::Next(n) = step(src, t, pb, s) {
            lemma_run_written_grows(src, t, pb, n);
        }
    }
}

/// Decrunching into any buffer gives what decrunching into another gave:
/// the same data where the buffer holds it, else a buffer overflow; unless
/// the stream copies a sequence from offset 0, which copies the buffer's
/// own bytes.
pub proof fn law_decrunch_any_buffer(p: u8, src: Seq<u8>, d1: Seq<u8>, d2: Seq<u8>)
    requires
        decrunched(p, src, d1) is Ok,
        !decrunch_copies_self(p, src, d1),
    ensures
        decrunched(p, src, d2) == (if d2.len() < decrunched(p, src, d1)->Ok_0.len() {
            Err::<Seq<u8>, DecrunchError>(DecrunchError::BufferOverflow)
        } else {
            decrunched(p, src, d1)
        }),
{
    let data = decrunched(p, src, d1)->Ok_0;
    if d2.len() < data.len() {
        law_decrunch_short_buffer(p, src, d1, d2);
    } else {
        let pb = proto_bits(p);
        let (t, c) = read_tables(src, start_cursor(), 0, table_entries(pb), 1, empty_tables()).unwrap();
        let m: int = if d1.len() < d2.len() {
            d1.len() as int
        } else {
            d2.len() as int
        };
        let e1 = d1.subrange(d1.len() - m, d1.len() as int);
        let e2 = d2.subrange(d2.len() - m, d2.len() as int);
        let s1 = DecState { cur: c, out: d1, written: 0, literal: true, first: pb.impl1literal, reuse: 0, offset: 0 };
        let se = DecState { out: e1, ..s1 };
        lemma_run_shorter(src, t, pb, s1, se);
        let r1 = run(src, t, pb, s1).unwrap();
        let re = run(src, t, pb, se).unwrap();
        lemma_run_keeps_head(src, t, pb, s1);
        assert(r1.out.len() == d1.len());
        assert(re.out.subrange(re.out.len() - re.written, re.out.len() as int) =~= r1.out.subrange(
            r1.out.len() - r1.written,
            r1.out.len() as int,
        ));
        assert(decrunched(p, src, e1) == decrunched(p, src, d1));
        law_decrunch_contents(p, src, e1, e2);
        assert(e2 =~= d2.subrange(d2.len() - e2.len(), d2.len() as int));
        law_decrunch_longer_buffer(p, src, e2, d2);
    }
}

/// The whole decrunch of `src` into a buffer that holds `dst` at the start:
/// the buffer at the end and the number of bytes written into its tail.
pub open spec fn decrunch_buffer(p: u8, src: Seq<u8>, dst: Seq<u8>) -> Result<(Seq<u8>, nat), DecrunchError> {
    let pb = proto_bits(p);
    match read_tables(src, start_cursor(), 0, table_entries(pb), 1, empty_tables()) {
        Err(e) => Err(e),
        Ok((t, c)) => match run(
            src,
            t,
            pb,
            DecState {
                cur: c,
                out: dst,
                written: 0,
                literal: true,
                first: pb.impl1literal,
                reuse: 0,
                offset: 0,
            },
        ) {
            Err(e) => Err(e),
            Ok(s) => Ok((s.out, s.written)),
        },
    }
}

/// The decrunched data of `src` for proto `p` into a buffer like `dst`.
pub open spec fn decrunched(p: u8, src: Seq<u8>, dst: Seq<u8>) -> Result<Seq<u8>, DecrunchError> {
    match decrunch_buffer(p, src, dst) {
        Err(e) => Err(e),
        Ok((out, n)) => Ok(out.subrange(out.len() - n, out.len() as int)),
    }
}


// ---------------------------------------------------------------------------
// The reader
// ---------------------------------------------------------------------------
/// A bit reader over a crunched stream.
pub struct Input<'a> {
    pub src: &'a [u8],
    pub pos: usize,
    pub bit_buffer: u32,
    pub bit_buffer_length: u32,
}

impl<'a> Input<'a> {
    pub open spec fn cursor(&self) -> BitCursor {
        BitCursor { pos: self.pos as nat, acc: self.bit_buffer as nat, cnt: self.bit_buffer_length as nat }
    }

    pub open spec fn wf(&self) -> bool {
        &&& cursor_wf(self.cursor())
        &&& self.bit_buffer_length <= 7
        &&& self.pos <= self.src@.len()
    }

    pub fn new(src: &'a [u8]) -> (r: Self)
        ensures
            r.wf(),
            r.src@ == src@,
            r.cursor() == start_cursor(),
    {
        proof {
            lemma2_to64();
        }
        Input { src, pos: 0, bit_buffer: 0, bit_buffer_length: 0 }
    }

    /// Reads `bits` bits, most significant first.
    pub fn read_bits(&mut self, bits: u32) -> (r: Result<u32, DecrunchError>)
        requires
            old(self).wf(),
            bits <= 16,
        ensures
            final(self).src@ == old(self).src@,
            r is Ok ==> final(self).wf(),
            match r {
                Ok(v) => read_bits(old(self).src@, old(self).cursor(), bits as nat) == Some(
                    (v as nat, final(self).cursor()),
                ),
                Err(e) => e == DecrunchError::EndOfInput && read_bits(
                    old(self).src@,
                    old(self).cursor(),
                    bits as nat,
                ) is None && final(self).cursor() == take_rest(old(self).src@, old(self).cursor()),
            },
            r matches Ok(v) ==> v < pow2(bits as nat),
    {
        proof {
            lemma_read_bits(old(self).src@, old(self).cursor(), bits as nat);
        }
        let ghost start = self.cursor();
        let ghost src = self.src@;
        while self.bit_buffer_length < bits
            invariant
                self.src@ == src,
                src == old(self).src@,
                start == old(self).cursor(),
                cursor_wf(self.cursor()),
                self.bit_buffer_length < bits + 8,
                bits <= 16,
                self.pos <= src.len(),
                read_bits(src, self.cursor(), bits as nat) == read_bits(src, start, bits as nat),
                take_rest(src, self.cursor()) == take_rest(src, start),
            decreases bits + 8 - self.bit_buffer_length,
        {
            if self.pos >= self.src.len() {
                return Err(DecrunchError::EndOfInput);
            }
            let b = self.src[self.pos];
            proof {
                lemma2_to64();
                if self.bit_buffer_length < 15 {
                    lemma_pow2_strictly_increases(self.bit_buffer_length as nat, 15);
                }
                lemma_pow2_adds(self.bit_buffer_length as nat, 8);
                assert((self.bit_buffer * 256 + b) < pow2(self.bit_buffer_length as nat) * 256) by (nonlinear_arith)
                    requires
                        self.bit_buffer < pow2(self.bit_buffer_length as nat),
                        b < 256,
                ;
            }
            self.bit_buffer = self.bit_buffer * 256 + b as u32;
            self.bit_buffer_length = self.bit_buffer_length + 8;
            self.pos = self.pos + 1;
        }
        let rest = self.bit_buffer_length - bits;
        proof {
            lemma_u32_pow2_no_overflow(rest as nat);
            lemma_u32_shl_is_mul(1, rest);
        }
        let m: u32 = 1u32 << rest;
        let v = self.bit_buffer / m;
        self.bit_buffer = self.bit_buffer % m;
        self.bit_buffer_length = rest;
        proof {
            lemma_pow2_pos(rest as nat);
            vstd::arithmetic::div_mod::lemma_mod_bound(self.bit_buffer as int, m as int);
            lemma2_to64();
            if rest < 7 {
                lemma_pow2_strictly_increases(rest as nat, 7);
            }
        }
        Ok(v)
    }

    /// Reads one bit.
    pub fn read_bool(&mut self) -> (r: Result<bool, DecrunchError>)
        requires
            old(self).wf(),
        ensures
            final(self).src@ == old(self).src@,
            r is Ok ==> final(self).wf(),
            match r {
                Ok(b) => read_bits(old(self).src@, old(self).cursor(), 1) matches Some((v, c)) && c
                    == final(self).cursor() && b == (v != 0),
                Err(e) => e == DecrunchError::EndOfInput && read_bits(
                    old(self).src@,
                    old(self).cursor(),
                    1,
                ) is None && final(self).cursor() == take_rest(old(self).src@, old(self).cursor()),
            },
    {
        let v = self.read_bits(1)?;
        Ok(v != 0)
    }

    /// Counts the 0 bits up to the next 1 bit (which is read too); counts
    /// above 68 are reported as 68.
    pub fn read_next_one(&mut self) -> (r: Result<usize, DecrunchError>)
        requires
            old(self).wf(),
        ensures
            final(self).src@ == old(self).src@,
            r is Ok ==> final(self).wf(),
            match r {
                Ok(k) => read_unary(old(self).src@, old(self).cursor(), 0) matches Some((z, c)) && c
                    == final(self).cursor() && k as nat == (if z < 68 {
                    z
                } else {
                    68
                }),
                Err(e) => e == DecrunchError::EndOfInput && read_unary(
                    old(self).src@,
                    old(self).cursor(),
                    0,
                ) is None,
            },
    {
        let ghost start = self.cursor();
        let ghost src = self.src@;
        let ghost mut zeros: nat = 0;
        let mut result: usize = 0;
        loop
            invariant
                self.src@ == src,
                src == old(self).src@,
                start == old(self).cursor(),
                self.wf(),
                read_unary(src, self.cursor(), zeros) == read_unary(src, start, 0),
                result as nat == (if zeros < 68 {
                    zeros
                } else {
                    68
                }),
            decreases bits_left(src, self.cursor()),
        {
            let ghost before = self.cursor();
            proof {
                lemma_read_bits(src, before, 1);
            }
            let b = self.read_bool()?;
            if b {
                return Ok(result);
            }
            proof {
                zeros = zeros + 1;
            }
            if result < 68 {
                result = result + 1;
            }
        }
    }
}

// ---------------------------------------------------------------------------
// The decrunch loop
// ---------------------------------------------------------------------------
/// Reads the decoding tables at the start of the stream.
pub fn read_tables_exec(input: &mut Input, entries: usize) -> (r: Result<(Vec<u16>, Vec<u8>), DecrunchError>)
    requires
        old(input).wf(),
        entries <= 68,
    ensures
        final(input).src@ == old(input).src@,
        r is Ok ==> final(input).wf(),
        match r {
            Ok((base, bits)) => read_tables(old(input).src@, old(input).cursor(), 0, entries as nat, 1, empty_tables())
                == Ok::<(Tables, BitCursor), DecrunchError>((Tables { base: base@, bits: bits@ }, final(input).cursor())),
            Err(e) => read_tables(old(input).src@, old(input).cursor(), 0, entries as nat, 1, empty_tables())
                == Err::<(Tables, BitCursor), DecrunchError>(e),
        },
{
    let ghost src = input.src@;
    let ghost start = input.cursor();
    let mut base: Vec<u16> = Vec::new();
    let mut bits: Vec<u8> = Vec::new();
    let mut k: usize = 0;
    while k < 68
        invariant
            k <= 68,
            base@.len() == k,
            bits@.len() == k,
            forall|j: int| 0 <= j < k ==> base@[j] == 0u16 && bits@[j] == 0u8,
        decreases 68 - k,
    {
        base.push(0);
        bits.push(0);
        k = k + 1;
    }
    assert(base@ =~= empty_tables().base);
    assert(bits@ =~= empty_tables().bits);
    let mut b2: u32 = 1;
    let mut i: usize = 0;
    while i < entries
        invariant
            input.src@ == src,
            src == old(input).src@,
            start == old(input).cursor(),
            input.wf(),
            i <= entries,
            entries <= 68,
            base@.len() == 68,
            bits@.len() == 68,
            b2 <= 65535,
            read_tables(src, input.cursor(), i as nat, entries as nat, b2 as nat, Tables { base: base@, bits: bits@ })
                == read_tables(src, start, 0, entries as nat, 1, empty_tables()),
        decreases entries - i,
    {
        if i % 16 == 0 {
            b2 = 1;
        }
        let ghost before = input.cursor();
        let b1 = input.read_bits(4)?;
        proof {
            lemma_read_bits(src, before, 4);
            lemma2_to64();
            lemma_u32_pow2_no_overflow(b1 as nat);
            lemma_u32_shl_is_mul(1, b1);
        }
        let step: u32 = 1u32 << b1;
        if b2 + step > 65535 {
            return Err(DecrunchError::DecodingError);
        }
        base.set(i, b2 as u16);
        bits.set(i, b1 as u8);
        b2 = b2 + step;
        i = i + 1;
    }
    Ok((base, bits))
}


/// What the decrunch loop reads for one sequence.
pub enum Cmd {
    Copy { literal: bool, len: usize, offset: usize, reuse: u8 },
    End,
    Fail(DecrunchError),
}

pub open spec fn tables_wf(base: Seq<u16>, bits: Seq<u8>) -> bool {
    &&& base.len() == 68
    &&& bits.len() == 68
    &&& forall|j: int| 0 <= j < 68 ==> bits[j] <= 15
}

/// Reads the value coded by table entry `i`.
fn read_coded_exec(input: &mut Input, base: &Vec<u16>, bits: &Vec<u8>, i: usize) -> (r: Result<usize, DecrunchError>)
    requires
        old(input).wf(),
        tables_wf(base@, bits@),
        i < 68,
    ensures
        final(input).src@ == old(input).src@,
        r is Ok ==> final(input).wf(),
        match r {
            Ok(v) => v < 98304 && read_coded(old(input).src@, old(input).cursor(), Tables { base: base@, bits: bits@ }, i as nat)
                == Some((v as nat, final(input).cursor())),
            Err(e) => e == DecrunchError::EndOfInput && read_coded(old(input).src@, old(input).cursor(), Tables { base: base@, bits: bits@ }, i as nat) is None,
        },
{
    let ghost before = input.cursor();
    let v = input.read_bits(bits[i] as u32)?;
    proof {
        lemma_read_bits(input.src@, before, bits@[i as int] as nat);
        lemma2_to64();
        if bits@[i as int] < 15 {
            lemma_pow2_strictly_increases(bits@[i as int] as nat, 15);
        }
    }
    Ok(base[i] as usize + v as usize)
}

/// Reads the next command of the stream (see [`next_command`]).
fn read_command(
    input: &mut Input,
    base: &Vec<u16>,
    bits: &Vec<u8>,
    p: u8,
    literal: bool,
    first: bool,
    reuse: u8,
    offset: usize,
) -> (c: Cmd)
    requires
        old(input).wf(),
        tables_wf(base@, bits@),
        reuse < 4,
        offset < 98304,
    ensures
        final(input).src@ == old(input).src@,
        ({
            let s = DecState {
                cur: old(input).cursor(),
                out: Seq::empty(),
                written: 0,
                literal,
                first,
                reuse: reuse as nat,
                offset: offset as nat,
            };
            match next_command(old(input).src@, Tables { base: base@, bits: bits@ }, proto_bits(p), s) {
                Command::Copy { literal: l, len, offset: o, reuse: r, cur } => c matches Cmd::Copy {
                    literal: l2,
                    len: len2,
                    offset: o2,
                    reuse: r2,
                } && l2 == l && len2 == len && o2 == o && r2 == r && cur == final(input).cursor()
                    && final(input).wf() && o2 < 98304 && len2 < 98304,
                Command::End { cur } => c is End && cur == final(input).cursor() && final(input).wf(),
                Command::Fail { err } => c == Cmd::Fail(err),
            }
        }),
{
    let ghost src = input.src@;
    let ghost c0 = input.cursor();
    let ghost t = Tables { base: base@, bits: bits@ };
    let ghost pb = proto_bits(p);
    let new_reuse: u8 = (reuse * 2 + (if literal { 1u8 } else { 0u8 })) % 4;
    let lit = if first {
        true
    } else {
        match input.read_bool() {
            Ok(b) => b,
            Err(e) => {
                return Cmd::Fail(e);
            },
        }
    };
    if lit {
        return Cmd::Copy { literal: true, len: 1, offset, reuse: new_reuse };
    }
    let index = match input.read_next_one() {
        Ok(i) => i,
        Err(e) => {
            return Cmd::Fail(e);
        },
    };
    if index == 16 {
        return Cmd::End;
    }
    if index == 17 {
        let ghost c1 = input.cursor();
        let len = match input.read_bits(16) {
            Ok(v) => v,
            Err(e) => {
                return Cmd::Fail(e);
            },
        };
        proof {
            lemma_read_bits(src, c1, 16);
            lemma2_to64();
        }
        return Cmd::Copy { literal: true, len: len as usize, offset, reuse: new_reuse };
    }
    if index >= 68 {
        return Cmd::Fail(DecrunchError::DecodingError);
    }
    let len = match read_coded_exec(input, base, bits, index) {
        Ok(v) => v,
        Err(e) => {
            return Cmd::Fail(e);
        },
    };
    let reuse_offset = if p & 32 != 0 && new_reuse == 1 {
        match input.read_bool() {
            Ok(b) => b,
            Err(e) => {
                return Cmd::Fail(e);
            },
        }
    } else {
        false
    };
    if reuse_offset {
        return Cmd::Copy { literal: false, len, offset, reuse: new_reuse };
    }
    let ghost c3 = input.cursor();
    let (width, table): (u32, usize) = if p & 16 != 0 {
        if len == 1 {
            (2, 64)
        } else if len == 2 {
            (4, 48)
        } else if len == 3 {
            (4, 32)
        } else {
            (4, 16)
        }
    } else {
        if len == 1 {
            (2, 48)
        } else if len == 2 {
            (4, 32)
        } else {
            (4, 16)
        }
    };
    let v = match input.read_bits(width) {
        Ok(v) => v,
        Err(e) => {
            return Cmd::Fail(e);
        },
    };
    proof {
        lemma_read_bits(src, c3, width as nat);
        lemma2_to64();
    }
    let idx = table + v as usize;
    let off = match read_coded_exec(input, base, bits, idx) {
        Ok(v) => v,
        Err(e) => {
            return Cmd::Fail(e);
        },
    };
    Cmd::Copy { literal: false, len, offset: off, reuse: new_reuse }
}

/// Writes `len` input bytes backwards from position `p` (see [`copy_literal`]).
fn copy_literal_exec(dst: &mut [u8], p: usize, src: &[u8], pos: usize, len: usize)
    requires
        len <= p <= old(dst)@.len(),
        pos + len <= src.len(),
    ensures
        final(dst)@ == copy_literal(old(dst)@, p as nat, src@, pos as nat, len as nat),
{
    let mut k: usize = 0;
    while k < len
        invariant
            k <= len,
            len <= p <= dst@.len(),
            dst@.len() == old(dst)@.len(),
            pos + len <= src.len(),
            copy_literal(dst@, (p - k) as nat, src@, (pos + k) as nat, (len - k) as nat)
                == copy_literal(old(dst)@, p as nat, src@, pos as nat, len as nat),
        decreases len - k,
    {
        dst[p - 1 - k] = src[pos + k];
        k = k + 1;
    }
}

/// Copies `len` bytes backwards from position `p`, each from `offset`
/// places further on (see [`copy_match`]).
fn copy_match_exec(dst: &mut [u8], p: usize, offset: usize, len: usize)
    requires
        len <= p,
        p + offset <= old(dst).len(),
    ensures
        final(dst)@ == copy_match(old(dst)@, p as nat, offset as nat, len as nat),
{
    let mut k: usize = 0;
    while k < len
        invariant
            k <= len,
            len <= p,
            p + offset <= dst.len(),
            dst@.len() == old(dst)@.len(),
            copy_match(dst@, (p - k) as nat, offset as nat, (len - k) as nat)
                == copy_match(old(dst)@, p as nat, offset as nat, len as nat),
        decreases len - k,
    {
        let q = p - 1 - k;
        let v = dst[q + offset];
        dst[q] = v;
        k = k + 1;
    }
}

/// Decrunches `src` with proto `p` into the tail of `dst`; returns that tail.
pub fn decr<'a>(p: u8, src: &[u8], dst: &'a mut [u8]) -> (r: Result<&'a mut [u8], DecrunchError>)
    requires
        !decrunch_bad_code(p, src@, old(dst)@),
    ensures
        match r {
            Ok(tail) => decrunch_buffer(p, src@, old(dst)@) matches Ok((out, n)) && out.len() == old(
                dst,
            )@.len() && n <= out.len() && tail@ == out.subrange(out.len() - n, out.len() as int)
                && final(dst)@ == out.subrange(0, out.len() - n) + final(tail)@ && out == decrunch_final_buffer(
                p,
                src@,
                old(dst)@,
            ),
            Err(e) => decrunch_buffer(p, src@, old(dst)@) == Err::<(Seq<u8>, nat), DecrunchError>(e),
        },
        r is Err ==> final(dst)@ == decrunch_final_buffer(p, src@, old(dst)@),
{
    let ghost pb = proto_bits(p);
    let mut input = Input::new(src);
    let entries: usize = if p & 16 != 0 {
        68
    } else {
        52
    };
    let (base, bits) = read_tables_exec(&mut input, entries)?;
    let ghost t = Tables { base: base@, bits: bits@ };
    proof {
        lemma_read_tables_wf(src@, start_cursor(), 0, entries as nat, 1, empty_tables());
    }
    let ghost init = DecState {
        cur: input.cursor(),
        out: dst@,
        written: 0,
        literal: true,
        first: pb.impl1literal,
        reuse: 0,
        offset: 0,
    };
    proof {
        lemma_run_buffer_ok(src@, t, pb, init);
    }
    let len = dst.len();
    let mut written: usize = 0;
    let mut literal = true;
    let mut first = p & 4 != 0;
    let mut reuse: u8 = 0;
    let mut offset: usize = 0;
    loop
        invariant
            input.wf(),
            input.src@ == src@,
            tables_wf(base@, bits@),
            t == (Tables { base: base@, bits: bits@ }),
            pb == proto_bits(p),
            dst@.len() == len,
            len == old(dst)@.len(),
            written <= len,
            reuse < 4,
            offset < 98304,
            init.out == old(dst)@,
            decrunch_buffer(p, src@, old(dst)@) == (match run(src@, t, pb, init) {
                Err(e) => Err(e),
                Ok(s) => Ok((s.out, s.written)),
            }),
            decrunch_final_buffer(p, src@, old(dst)@) == run_buffer(src@, t, pb, init),
            ({
                let s = DecState {
                    cur: input.cursor(),
                    out: dst@,
                    written: written as nat,
                    literal,
                    first,
                    reuse: reuse as nat,
                    offset: offset as nat,
                };
                run(src@, t, pb, s) == run(src@, t, pb, init) && state_wf(src@, s) && run_buffer(src@, t, pb, s)
                    == run_buffer(src@, t, pb, init)
            }),
        decreases step_measure(
            src@,
            DecState {
                cur: input.cursor(),
                out: dst@,
                written: written as nat,
                literal,
                first,
                reuse: reuse as nat,
                offset: offset as nat,
            },
        ),
    {
        let ghost s = DecState {
            cur: input.cursor(),
            out: dst@,
            written: written as nat,
            literal,
            first,
            reuse: reuse as nat,
            offset: offset as nat,
        };
        proof {
            lemma_step(src@, t, pb, s);
        }
        let cmd = read_command(&mut input, &base, &bits, p, literal, first, reuse, offset);
        match cmd {
            Cmd::Fail(e) => {
                return Err(e);
            },
            Cmd::End => {
                if input.pos < src.len() {
                    return Err(DecrunchError::UnusedInput);
                }
                let (_, tail) = dst.split_at_mut(len - written);
                return Ok(tail);
            },
            Cmd::Copy { literal: lit, len: n, offset: off, reuse: ru } => {
                if len - written < n {
                    return Err(DecrunchError::BufferOverflow);
                }
                if !lit && off > written {
                    return Err(DecrunchError::DecodingError);
                }
                if lit && src.len() - input.pos < n {
                    let avail = src.len() - input.pos;
                    copy_literal_exec(dst, len - written, src, input.pos, avail);
                    return Err(DecrunchError::EndOfInput);
                }
                let at = len - written;
                if lit {
                    copy_literal_exec(dst, at, src, input.pos, n);
                    input.pos = input.pos + n;
                } else {
                    copy_match_exec(dst, at, off, n);
                }
                written = written + n;
                literal = lit;
                first = false;
                reuse = ru;
                offset = off;
            },
        }
    }
}

pub proof fn lemma_read_tables_wf(src: Seq<u8>, c: BitCursor, i: nat, n: nat, next_base: nat, t: Tables)
    requires
        tables_wf(t.base, t.bits),
        cursor_wf(c),
        n <= 68,
    ensures
        read_tables(src, c, i, n, next_base, t) matches Ok((t2, c2)) ==> tables_wf(t2.base, t2.bits),
    decreases n - i,
{
    if i < n {
        let b2: nat = if i % 16 == 0 {
            1
        } else {
            next_base
        };
        lemma_read_bits(src, c, 4);
        lemma2_to64();
        if let Some((b1, c2)) = read_bits(src, c, 4) {
            if b2 + pow2(b1) <= 65535 {
                let t2 = Tables {
                    base: t.base.update(i as int, b2 as u16),
                    bits: t.bits.update(i as int, b1 as u8),
                };
                assert(tables_wf(t2.base, t2.bits));
                lemma_read_tables_wf(src, c2, i + 1, n, b2 + pow2(b1), t2);
            }
        }
    }
}

} // verus!
