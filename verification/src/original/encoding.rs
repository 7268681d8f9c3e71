//! Encoding strings and the encoding header of a crunched stream.
//!
//! An encoding string lists, table by table, the width in bits of each
//! interval as one hexadecimal digit; tables are separated by commas and come
//! in the order lengths (16 entries), offsets of 1-byte sequences (4), of
//! 2-byte sequences (16), of 3-byte sequences (16, only with four offset
//! tables) and of longer sequences (16).
use crate::original::bitstream::{alignment, flush, put_bits, OutputCtx, WState};
use crate::original::crunch_options::{encoding_len, is_encoding, is_hex_digit};
use vstd::prelude::*;

verus! {

/// The value of a hexadecimal digit.
pub open spec fn hex_value(c: u8) -> u8 {
    if c <= 57 {
        (c - 48) as u8
    } else {
        ((c & 0xdfu8) - 55) as u8
    }
}

/// The table that starts at byte `i`: its digits, where the next one starts,
/// and whether a comma ended it (else the text did). `None` for a byte that
/// is neither a digit nor a comma.
pub open spec fn parse_table(b: Seq<u8>, i: nat) -> Option<(Seq<u8>, nat, bool)>
    decreases b.len() - i,
{
    if i >= b.len() {
        Some((Seq::empty(), i, false))
    } else if b[i as int] == 44 {
        Some((Seq::empty(), i + 1, true))
    } else if !is_hex_digit(b[i as int]) {
        None
    } else {
        match parse_table(b, i + 1) {
            None => None,
            Some((rest, j, comma)) => Some((seq![hex_value(b[i as int])] + rest, j, comma)),
        }
    }
}

/// The `n` tables that start at byte `i`; all but the last must end with a
/// comma, and none may have more than 255 entries.
pub open spec fn parse_tables(b: Seq<u8>, i: nat, n: nat) -> Option<Seq<Seq<u8>>>
    decreases n,
{
    if n == 0 {
        Some(Seq::empty())
    } else {
        match parse_table(b, i) {
            None => None,
            Some((t, j, comma)) => if t.len() > 255 || (n > 1 && !comma) {
                None
            } else {
                match parse_tables(b, j, (n - 1) as nat) {
                    None => None,
                    Some(rest) => Some(seq![t] + rest),
                }
            },
        }
    }
}

/// The number of tables of an encoding.
pub open spec fn table_count(four_offset_tables: bool) -> nat {
    if four_offset_tables {
        5
    } else {
        4
    }
}

/// The tables of an encoding string (see the module documentation); text
/// after the last table's comma is not read.
pub open spec fn parse_encoding(b: Seq<u8>, four_offset_tables: bool) -> Option<Seq<Seq<u8>>> {
    parse_tables(b, 0, table_count(four_offset_tables))
}

/// Entry `k` (counting from 1) of a table, 0 past its end.
pub open spec fn table_entry(t: Seq<u8>, k: nat) -> u8 {
    if 1 <= k <= t.len() {
        t[k - 1]
    } else {
        0
    }
}

/// Writes one table entry: as 4 bits, or with `copy_gt7` as its top bit and
/// then its 3 low bits.
pub open spec fn put_entry(s: WState, be: bool, copy_gt7: bool, v: u8) -> WState {
    if copy_gt7 {
        put_bits(put_bits(s, be, copy_gt7, 1, (v >> 3u8) as nat), be, copy_gt7, 3, (v & 7u8) as nat)
    } else {
        put_bits(s, be, copy_gt7, 4, v as nat)
    }
}

/// Writes entries `k` down to 1 of a table.
pub open spec fn put_table(s: WState, be: bool, copy_gt7: bool, t: Seq<u8>, k: nat) -> WState
    decreases k,
{
    if k == 0 {
        s
    } else {
        put_table(put_entry(s, be, copy_gt7, table_entry(t, k)), be, copy_gt7, t, (k - 1) as nat)
    }
}

/// Writes the encoding header: the offset tables (4 entries, then 16 each)
/// and last the length table (16 entries). The stream is written backwards,
/// so a reader meets the length table first.
pub open spec fn put_header(s: WState, be: bool, copy_gt7: bool, four: bool, tabs: Seq<Seq<u8>>) -> WState {
    let s1 = put_table(s, be, copy_gt7, tabs[1], 4);
    let s2 = put_table(s1, be, copy_gt7, tabs[2], 16);
    let s3 = if four {
        put_table(s2, be, copy_gt7, tabs[3], 16)
    } else {
        s2
    };
    let s4 = put_table(s3, be, copy_gt7, tabs[if four {
        4int
    } else {
        3int
    }], 16);
    put_table(s4, be, copy_gt7, tabs[0], 16)
}

/// The header bytes of an encoding on their own, in reading order: with
/// `AlignStart` the header is preceded by the 0 bits that make it end on a
/// byte boundary, else it is closed with a marker bit.
pub open spec fn header_bytes(flags_proto: u8, tabs: Seq<Seq<u8>>) -> Seq<u8> {
    let be = flags_proto & 1 != 0;
    let gt7 = flags_proto & 2 != 0;
    let align_start = flags_proto & 8 != 0;
    let four = flags_proto & 16 != 0;
    let empty = WState { out: Seq::empty(), bitbuf: 0, bitcount: 0 };
    let align = if align_start {
        alignment(put_header(empty, be, gt7, four, tabs))
    } else {
        0
    };
    let s = put_header(put_bits(empty, be, gt7, align, 0), be, gt7, four, tabs);
    flush(s, be, !align_start).out.reverse()
}

/// The values of hexadecimal digits.
pub open spec fn digit_values(d: Seq<u8>) -> Seq<u8> {
    d.map_values(|c: u8| hex_value(c))
}

/// Digits from byte `i` up to a comma at byte `j`, or up to the end of the
/// text, are read as one table.
proof fn lemma_parse_table_digits(b: Seq<u8>, i: nat, j: nat)
    requires
        i <= j <= b.len(),
        forall|k: int| i <= k < j ==> is_hex_digit(#[trigger] b[k]),
        j < b.len() ==> b[j as int] == 44,
    ensures
        parse_table(b, i) == Some(
            (digit_values(b.subrange(i as int, j as int)), if j < b.len() {
                j + 1
            } else {
                j
            }, j < b.len()),
        ),
    decreases j - i,
{
    if i < j {
        lemma_parse_table_digits(b, i + 1, j);
        assert(digit_values(b.subrange(i as int, j as int)) =~= seq![hex_value(b[i as int])] + digit_values(
            b.subrange((i + 1) as int, j as int),
        ));
    } else {
        assert(digit_values(b.subrange(i as int, j as int)) =~= Seq::<u8>::empty());
    }
}

/// The value of a hexadecimal digit fits a table entry.
proof fn lemma_hex_value_small(c: u8)
    requires
        is_hex_digit(c),
    ensures
        hex_value(c) < 16,
{
    assert(((65u8 <= c && c <= 70u8) || (97u8 <= c && c <= 102u8)) ==> (c & 0xdfu8) >= 65 && (c & 0xdfu8)
        <= 70) by (bit_vector);
}

/// The tables of an encoding string with tables at fixed places: the
/// values of its digits from bytes 0, 17, 22, 39 and (with four offset
/// tables) 56 on.
pub open spec fn fixed_tables(b: Seq<u8>, four: bool) -> Seq<Seq<u8>> {
    let t0 = digit_values(b.subrange(0, 16));
    let t1 = digit_values(b.subrange(17, 21));
    let t2 = digit_values(b.subrange(22, 38));
    let t3 = digit_values(b.subrange(39, 55));
    if four {
        seq![t0, t1, t2, t3, digit_values(b.subrange(56, 72))]
    } else {
        seq![t0, t1, t2, t3]
    }
}

/// The tables of an encoding string that the crunch options accept: as many
/// as the proto asks for, with 16 entries each but 4 in the second, and
/// every entry below 16.
pub proof fn law_accepted_encoding_parses(b: Seq<u8>, four: bool)
    requires
        is_encoding(b, four),
    ensures
        parse_encoding(b, four) == Some(fixed_tables(b, four)),
        parse_encoding(b, four) matches Some(tabs) && tabs.len() == table_count(four) && (forall|k: int|
            0 <= k < tabs.len() ==> (#[trigger] tabs[k]).len() == (if k == 1 {
                4int
            } else {
                16int
            })) && (forall|k: int, e: int|
            0 <= k < tabs.len() && 0 <= e < tabs[k].len() ==> #[trigger] tabs[k][e] < 16),
{
    assert forall|k: int| 0 <= k < b.len() && b[k] != 44 implies is_hex_digit(#[trigger] b[k]) by {
        if !(k == 16 || k == 21 || k == 38 || k == 55) {
        }
    }
    assert forall|k: int| 0 <= k < b.len() && is_hex_digit(#[trigger] b[k]) implies hex_value(b[k]) < 16 by {
        lemma_hex_value_small(b[k]);
    }
    lemma_parse_table_digits(b, 0, 16);
    lemma_parse_table_digits(b, 17, 21);
    lemma_parse_table_digits(b, 22, 38);
    lemma_parse_table_digits(b, 39, 55);
    let t0 = digit_values(b.subrange(0, 16));
    let t1 = digit_values(b.subrange(17, 21));
    let t2 = digit_values(b.subrange(22, 38));
    let t3 = digit_values(b.subrange(39, 55));
    if four {
        lemma_parse_table_digits(b, 56, 72);
        let t4 = digit_values(b.subrange(56, 72));
        assert(parse_tables(b, 72, 0) == Some(Seq::<Seq<u8>>::empty()));
        assert(parse_tables(b, 56, 1) == Some(seq![t4]));
        assert(parse_tables(b, 39, 2) == Some(seq![t3] + seq![t4]));
        assert(parse_tables(b, 22, 3) == Some(seq![t2] + (seq![t3] + seq![t4])));
        assert(parse_tables(b, 17, 4) == Some(seq![t1] + (seq![t2] + (seq![t3] + seq![t4]))));
        assert(parse_tables(b, 0, 5) == Some(seq![t0] + (seq![t1] + (seq![t2] + (seq![t3] + seq![t4])))));
        let tabs = seq![t0] + (seq![t1] + (seq![t2] + (seq![t3] + seq![t4])));
        assert(tabs =~= seq![t0, t1, t2, t3, t4]);
    } else {
        assert(parse_tables(b, 55, 0) == Some(Seq::<Seq<u8>>::empty()));
        assert(parse_tables(b, 39, 1) == Some(seq![t3]));
        assert(parse_tables(b, 22, 2) == Some(seq![t2] + seq![t3]));
        assert(parse_tables(b, 17, 3) == Some(seq![t1] + (seq![t2] + seq![t3])));
        assert(parse_tables(b, 0, 4) == Some(seq![t0] + (seq![t1] + (seq![t2] + seq![t3]))));
        let tabs = seq![t0] + (seq![t1] + (seq![t2] + seq![t3]));
        assert(tabs =~= seq![t0, t1, t2, t3]);
    }
}

/// The tables held in a vector of vectors.
pub open spec fn tables_view(v: Seq<Vec<u8>>) -> Seq<Seq<u8>> {
    v.map_values(|t: Vec<u8>| t@)
}

/// Reads one table of an encoding string from byte `i`.
fn parse_table_exec(b: &[u8], i: usize) -> (r: Option<(Vec<u8>, usize, bool)>)
    requires
        i <= b@.len(),
    ensures
        match parse_table(b@, i as nat) {
            None => r is None,
            Some((t, j, comma)) => r matches Some((t2, j2, c2)) && t2@ == t && j2 == j && c2 == comma && j2
                <= b@.len(),
        },
{
    let mut t: Vec<u8> = Vec::new();
    let mut k: usize = i;
    while k < b.len() && b[k] != 44
        invariant
            i <= k <= b@.len(),
            parse_table(b@, i as nat) == (match parse_table(b@, k as nat) {
                None => None,
                Some((rest, j, comma)) => Some((t@ + rest, j, comma)),
            }),
        decreases b@.len() - k,
    {
        if !is_hex_digit_exec(b[k]) {
            return None;
        }
        let c = b[k];
        proof {
            assert((48u8 <= c && c <= 57u8) || (65u8 <= c && c <= 70u8) || (97u8 <= c && c <= 102u8));
            assert(((65u8 <= c && c <= 70u8) || (97u8 <= c && c <= 102u8)) ==> (c & 0xdfu8) >= 65) by (bit_vector);
        }
        let v: u8 = if c <= 57 {
            c - 48
        } else {
            (c & 0xdf) - 55
        };
        proof {
            let rest = parse_table(b@, (k + 1) as nat);
            if let Some((r2, j, comma)) = rest {
                assert(t@ + (seq![v] + r2) =~= t@.push(v) + r2);
            }
        }
        t.push(v);
        k = k + 1;
    }
    if k < b.len() {
        proof {
            assert(t@ + Seq::<u8>::empty() =~= t@);
        }
        Some((t, k + 1, true))
    } else {
        proof {
            assert(t@ + Seq::<u8>::empty() =~= t@);
        }
        Some((t, k, false))
    }
}

fn is_hex_digit_exec(c: u8) -> (r: bool)
    ensures
        r == is_hex_digit(c),
{
    (48u8 <= c && c <= 57u8) || (65u8 <= c && c <= 70u8) || (97u8 <= c && c <= 102u8)
}

/// Reads the tables of an encoding string (see [`parse_encoding`]).
pub fn parse_encoding_exec(b: &[u8], four_offset_tables: bool) -> (r: Option<Vec<Vec<u8>>>)
    ensures
        match parse_encoding(b@, four_offset_tables) {
            None => r is None,
            Some(tabs) => r matches Some(v) && tables_view(v@) == tabs,
        },
{
    let n: usize = if four_offset_tables {
        5
    } else {
        4
    };
    let mut tabs: Vec<Vec<u8>> = Vec::new();
    let mut i: usize = 0;
    let mut k: usize = 0;
    while k < n
        invariant
            k <= n,
            n == table_count(four_offset_tables),
            i <= b@.len(),
            parse_encoding(b@, four_offset_tables) == (match parse_tables(b@, i as nat, (n - k) as nat) {
                None => None,
                Some(rest) => Some(tables_view(tabs@) + rest),
            }),
        decreases n - k,
    {
        let (t, j, comma) = match parse_table_exec(b, i) {
            None => {
                return None;
            },
            Some(x) => x,
        };
        if t.len() > 255 || (n - k > 1 && !comma) {
            return None;
        }
        proof {
            let ghost old_tabs = tables_view(tabs@);
            if let Some(rest) = parse_tables(b@, j as nat, (n - k - 1) as nat) {
                assert(old_tabs + (seq![t@] + rest) =~= old_tabs.push(t@) + rest);
            }
        }
        let ghost before = tables_view(tabs@);
        tabs.push(t);
        proof {
            assert(tables_view(tabs@) =~= before.push(t@));
        }
        i = j;
        k = k + 1;
    }
    proof {
        assert(tables_view(tabs@) + Seq::<Seq<u8>>::empty() =~= tables_view(tabs@));
    }
    Some(tabs)
}


/// Reverses the bytes of `buf`.
pub fn reverse_buffer(buf: &mut Vec<u8>)
    ensures
        final(buf)@ == old(buf)@.reverse(),
{
    let n = buf.len();
    let mut r: Vec<u8> = Vec::new();
    let mut k: usize = 0;
    while k < n
        invariant
            k <= n,
            n == buf@.len(),
            buf@ == old(buf)@,
            r@.len() == k,
            forall|j: int| 0 <= j < k ==> r@[j] == buf@[n - 1 - j],
        decreases n - k,
    {
        r.push(buf[n - 1 - k]);
        k = k + 1;
    }
    assert(r@ =~= old(buf)@.reverse());
    *buf = r;
}

/// Writes entries `k` down to 1 of table `t` (see [`put_table`]).
fn write_table(out: &mut OutputCtx, t: &Vec<u8>, size: usize)
    requires
        old(out).wf(),
        t@.len() <= 255,
    ensures
        final(out).wf(),
        final(out).be == old(out).be,
        final(out).copy_gt7 == old(out).copy_gt7,
        final(out).state() == put_table(old(out).state(), old(out).be, old(out).copy_gt7, t@, size as nat),
{
    let mut k = size;
    while k > 0
        invariant
            out.wf(),
            out.be == old(out).be,
            out.copy_gt7 == old(out).copy_gt7,
            t@.len() <= 255,
            put_table(out.state(), out.be, out.copy_gt7, t@, k as nat) == put_table(
                old(out).state(),
                old(out).be,
                old(out).copy_gt7,
                t@,
                size as nat,
            ),
        decreases k,
    {
        let v: u8 = if k <= t.len() {
            t[k - 1]
        } else {
            0
        };
        if out.copy_gt7 {
            out.output_bits(1, (v >> 3) as u32);
            out.output_bits(3, (v & 7) as u32);
        } else {
            out.output_bits(4, v as u32);
        }
        k = k - 1;
    }
}

/// Writes the encoding header (see [`put_header`]).
pub fn write_header(out: &mut OutputCtx, four: bool, tabs: &Vec<Vec<u8>>)
    requires
        old(out).wf(),
        tabs@.len() == table_count(four),
        forall|i: int| 0 <= i < tabs@.len() ==> (#[trigger] tabs@[i])@.len() <= 255,
    ensures
        final(out).wf(),
        final(out).be == old(out).be,
        final(out).copy_gt7 == old(out).copy_gt7,
        final(out).state() == put_header(old(out).state(), old(out).be, old(out).copy_gt7, four, tables_view(tabs@)),
{
    let ghost tv = tables_view(tabs@);
    assert(tv[1] == tabs@[1]@);
    assert(tv[2] == tabs@[2]@);
    assert(tv[0] == tabs@[0]@);
    assert(tv[3] == tabs@[3]@);
    write_table(out, &tabs[1], 4);
    write_table(out, &tabs[2], 16);
    if four {
        assert(tv[4] == tabs@[4]@);
        write_table(out, &tabs[3], 16);
        write_table(out, &tabs[4], 16);
    } else {
        write_table(out, &tabs[3], 16);
    }
    write_table(out, &tabs[0], 16);
}

/// The header bytes of an encoding on their own (see [`header_bytes`]).
pub fn encoding_header(flags_proto: u8, tabs: &Vec<Vec<u8>>) -> (r: Vec<u8>)
    requires
        tabs@.len() == table_count(flags_proto & 16 != 0),
        forall|i: int| 0 <= i < tabs@.len() ==> (#[trigger] tabs@[i])@.len() <= 255,
    ensures
        r@ == header_bytes(flags_proto, tables_view(tabs@)),
{
    let four = flags_proto & 16 != 0;
    let align_start = flags_proto & 8 != 0;
    let align: u32 = if align_start {
        let mut probe = OutputCtx::new(Vec::new(), flags_proto);
        write_header(&mut probe, four, tabs);
        probe.output_bits_alignment()
    } else {
        0
    };
    let mut out = OutputCtx::new(Vec::new(), flags_proto);
    out.output_bits(align, 0);
    write_header(&mut out, four, tabs);
    out.output_bits_flush(!align_start);
    let mut bytes = out.buf;
    reverse_buffer(&mut bytes);
    bytes
}

/// The uppercase hexadecimal digit of a value below 16.
pub open spec fn hex_digit(v: u8) -> u8 {
    if v < 10 {
        (48 + v) as u8
    } else {
        (55 + v) as u8
    }
}

/// A table as text: one digit per entry, then `0` up to `size` entries.
pub open spec fn table_text(t: Seq<u8>, size: nat) -> Seq<u8> {
    t.map_values(|v: u8| hex_digit(v)) + Seq::new(
        if t.len() < size {
            (size - t.len()) as nat
        } else {
            0
        },
        |i: int| 48u8,
    )
}

/// The encoding string of the tables `tabs` (see the module documentation).
pub open spec fn encoding_text(four: bool, tabs: Seq<Seq<u8>>) -> Seq<u8> {
    let last = if four {
        4int
    } else {
        3int
    };
    table_text(tabs[0], 16) + seq![44u8] + table_text(tabs[1], 4) + seq![44u8] + table_text(tabs[2], 16) + (if four {
        seq![44u8] + table_text(tabs[3], 16)
    } else {
        Seq::<u8>::empty()
    }) + seq![44u8] + table_text(tabs[last], 16)
}

fn hex_digit_exec(v: u8) -> (c: u8)
    requires
        v < 16,
    ensures
        c == hex_digit(v),
{
    if v < 10 {
        48 + v
    } else {
        55 + v
    }
}

/// Appends a table as text (see [`table_text`]).
fn push_table_text(out: &mut Vec<u8>, t: &Vec<u8>, size: usize)
    requires
        forall|i: int| 0 <= i < t@.len() ==> #[trigger] t@[i] < 16,
    ensures
        final(out)@ == old(out)@ + table_text(t@, size as nat),
{
    let ghost start = out@;
    let mut k: usize = 0;
    while k < t.len()
        invariant
            k <= t@.len(),
            forall|i: int| 0 <= i < t@.len() ==> #[trigger] t@[i] < 16,
            out@ == start + t@.subrange(0, k as int).map_values(|v: u8| hex_digit(v)),
        decreases t@.len() - k,
    {
        let c = hex_digit_exec(t[k]);
        proof {
            assert(t@.subrange(0, (k + 1) as int).map_values(|v: u8| hex_digit(v)) =~= t@.subrange(0, k as int).map_values(
                |v: u8| hex_digit(v),
            ).push(c));
        }
        out.push(c);
        k = k + 1;
    }
    assert(t@.subrange(0, t@.len() as int) =~= t@);
    let ghost mid = out@;
    let mut m: usize = t.len();
    while m < size
        invariant
            t@.len() <= m <= size || (m == t@.len() && m >= size),
            out@ == mid + Seq::new((m - t@.len()) as nat, |i: int| 48u8),
        decreases size - m,
    {
        proof {
            assert(Seq::new((m + 1 - t@.len()) as nat, |i: int| 48u8) =~= Seq::new((m - t@.len()) as nat, |i: int| 48u8).push(
                48u8,
            ));
        }
        out.push(48);
        m = m + 1;
    }
    proof {
        if t@.len() < size {
            assert(m == size);
        } else {
            assert(m == t@.len());
        }
        assert(out@ =~= start + table_text(t@, size as nat));
    }
}

/// The encoding string of the tables `tabs`, as bytes (see
/// [`encoding_text`]).
pub fn encoding_text_exec(four: bool, tabs: &Vec<Vec<u8>>) -> (r: Vec<u8>)
    requires
        tabs@.len() == table_count(four),
        forall|k: int, e: int| 0 <= k < tabs@.len() && 0 <= e < tabs@[k]@.len() ==> #[trigger] tabs@[k]@[e] < 16,
    ensures
        r@ == encoding_text(four, tables_view(tabs@)),
{
    let ghost tv = tables_view(tabs@);
    assert(tv[0] == tabs@[0]@ && tv[1] == tabs@[1]@ && tv[2] == tabs@[2]@ && tv[3] == tabs@[3]@);
    let mut out: Vec<u8> = Vec::new();
    push_table_text(&mut out, &tabs[0], 16);
    out.push(44);
    push_table_text(&mut out, &tabs[1], 4);
    out.push(44);
    push_table_text(&mut out, &tabs[2], 16);
    let ghost before = out@;
    if four {
        out.push(44);
        push_table_text(&mut out, &tabs[3], 16);
    }
    let ghost mid = out@;
    proof {
        if four {
            assert(mid =~= before + (seq![44u8] + table_text(tv[3], 16)));
        } else {
            assert(mid =~= before + Seq::<u8>::empty());
        }
    }
    out.push(44);
    let last: usize = if four {
        4
    } else {
        3
    };
    proof {
        if four {
            assert(tv[4] == tabs@[4]@);
        }
    }
    push_table_text(&mut out, &tabs[last], 16);
    proof {
        assert(out@ =~= encoding_text(four, tv));
    }
    out
}

/// Entries 1 to `size` of a table, 0 past its end.
pub open spec fn padded_table(t: Seq<u8>, size: nat) -> Seq<u8> {
    Seq::new(size, |i: int| table_entry(t, (i + 1) as nat))
}

/// The tables of an encoding filled up to their full sizes.
pub open spec fn padded_tables(four: bool, tabs: Seq<Seq<u8>>) -> Seq<Seq<u8>> {
    Seq::new(
        tabs.len(),
        |k: int|
            padded_table(
                tabs[k],
                if k == 1 {
                    4
                } else {
                    16
                },
            ),
    )
}

/// A table's text has its size and holds hexadecimal digits, which read
/// back as the entries.
proof fn lemma_table_text(t: Seq<u8>, size: nat)
    requires
        t.len() <= size,
        forall|e: int| 0 <= e < t.len() ==> #[trigger] t[e] < 16,
    ensures
        table_text(t, size).len() == size,
        forall|i: int| 0 <= i < size ==> is_hex_digit(#[trigger] table_text(t, size)[i]),
        digit_values(table_text(t, size)) == padded_table(t, size),
{
    let tt = table_text(t, size);
    assert forall|i: int| 0 <= i < size implies is_hex_digit(#[trigger] tt[i]) by {
        if i < t.len() {
            assert(tt[i] == hex_digit(t[i]));
        } else {
            assert(tt[i] == 48u8);
        }
    }
    {
        assert forall|i: int| 0 <= i < size implies #[trigger] digit_values(tt)[i] == padded_table(t, size)[i] by {
            if i < t.len() {
                let v = t[i];
                assert(tt[i] == hex_digit(v));
                assert(v < 16 ==> hex_value(hex_digit(v)) == v) by (bit_vector);
            } else {
                assert(tt[i] == 48u8);
            }
        }
        assert(digit_values(tt) =~= padded_table(t, size));
    }
}

/// The encoding string of tables that fit is accepted by the crunch
/// options, and reads back as the tables, filled up with 0 entries.
pub proof fn law_encoding_text_roundtrip(four: bool, tabs: Seq<Seq<u8>>)
    requires
        tabs.len() == table_count(four),
        tabs[1].len() <= 4,
        forall|k: int| 0 <= k < tabs.len() ==> (#[trigger] tabs[k]).len() <= 16,
        forall|k: int, e: int| 0 <= k < tabs.len() && 0 <= e < tabs[k].len() ==> #[trigger] tabs[k][e] < 16,
    ensures
        is_encoding(encoding_text(four, tabs), four),
        parse_encoding(encoding_text(four, tabs), four) == Some(padded_tables(four, tabs)),
{
    let last = if four {
        4int
    } else {
        3int
    };
    let b = encoding_text(four, tabs);
    let a0 = table_text(tabs[0], 16);
    let a1 = table_text(tabs[1], 4);
    let a2 = table_text(tabs[2], 16);
    let a3 = table_text(tabs[3], 16);
    let al = table_text(tabs[last], 16);
    lemma_table_text(tabs[0], 16);
    lemma_table_text(tabs[1], 4);
    lemma_table_text(tabs[2], 16);
    lemma_table_text(tabs[3], 16);
    lemma_table_text(tabs[last], 16);
    let mid = if four {
        seq![44u8] + a3
    } else {
        Seq::<u8>::empty()
    };
    assert(b == a0 + seq![44u8] + a1 + seq![44u8] + a2 + mid + seq![44u8] + al);
    assert(b.subrange(0, 16) =~= a0);
    assert(b.subrange(17, 21) =~= a1);
    assert(b.subrange(22, 38) =~= a2);
    if four {
        assert(b.subrange(39, 55) =~= a3);
        assert(b.subrange(56, 72) =~= al);
    } else {
        assert(b.subrange(39, 55) =~= al);
    }
    assert(b.len() == encoding_len(four));
    assert forall|i: int| 0 <= i < b.len() implies if i == 16 || i == 21 || i == 38 || i == 55 {
        b[i] == 44
    } else {
        is_hex_digit(#[trigger] b[i])
    } by {
        if i < 16 {
            assert(b[i] == a0[i]);
        } else if 16 < i < 21 {
            assert(b[i] == b.subrange(17, 21)[i - 17]);
        } else if 21 < i < 38 {
            assert(b[i] == b.subrange(22, 38)[i - 22]);
        } else if 38 < i < 55 {
            assert(b[i] == b.subrange(39, 55)[i - 39]);
        } else if 55 < i {
            assert(b[i] == b.subrange(56, 72)[i - 56]);
        }
    }
    law_accepted_encoding_parses(b, four);
    {
        let pt = padded_tables(four, tabs);
        let ft = fixed_tables(b, four);
        assert(pt.len() == ft.len());
        assert forall|k: int| 0 <= k < pt.len() implies pt[k] == ft[k] by {
            if four && k == 3 {
                assert(ft[k] == digit_values(a3));
            }
        }
        assert(pt =~= ft);
    }
}

} // verus!
