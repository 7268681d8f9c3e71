//! What the simple decrunchers read back of a stream that the cruncher
//! wrote.
//!
//! For the protos that they support (bits taken most significant first,
//! no marker byte at the start, no whole bytes inside wide values), the
//! simple reader and the decruncher of every proto see the same bits: the
//! decruncher keeps the bits that are left of the current byte in front of
//! a marker bit, the simple reader keeps them as a number and a count. So
//! the simple decrunch loop follows the general one step by step, writing
//! backwards into its buffer what the general loop appends, as long as
//! the stream asks for nothing that only the general loop accepts.
use crate::original::exodec::{empty_dtables, exo_decrunch, start_state, cooked, copy_count, copy_forward, dtables_wf, lemma_copy_forward_len, xrun, flags_of, lemma_xstep, xcommand, xmeasure, xstate_wf, xstep, XCmd, XState, XStep, get_bits, lemma_get_bits, offset_table, read_bit, read_dtables, read_gamma, read_plain, read_width, rotate, DTables, Flags, RState};
use crate::original::roundtrip::{gstart, header_dtables, header_len, header_widths, lemma_header_widths_at, lemma_written_stream_read, path_covers, path_fits, path_genuine, tables_fit};
use crate::original::stream::{write_stream, PathItem};
use crate::simple::dynamic::is_supported_proto;
use crate::simple::DecrunchError;
use crate::simple::common::{decrunched, empty_tables, start_cursor, table_entries, bits_left, copy_literal, copy_match, lemma_copy_literal_len, lemma_copy_match_len, next_command, run, state_wf, step, Command, DecState, Step, cursor_wf, lemma_read_bits, offset_index, proto_bits, read_bits, read_coded, read_tables, read_unary, BitCursor, Tables};
use vstd::arithmetic::div_mod::*;
use vstd::arithmetic::power2::*;
use vstd::prelude::*;

verus! {

/// The simple reader at `c` holds the bits that the general reader at `r`
/// holds: the same place in the input, and the bits left of the current
/// byte, which the general reader keeps in front of a marker bit (a
/// general reader that has taken no byte yet holds 0).
pub open spec fn holds(r: RState, c: BitCursor) -> bool {
    &&& r.pos == c.pos
    &&& c.cnt < 8
    &&& c.acc < pow2(c.cnt)
    &&& (r.bitbuf == (2 * c.acc + 1) * pow2((7 - c.cnt) as nat) || (c.cnt == 0 && r.bitbuf == 0))
}

proof fn lemma_shift_byte(b: u8)
    ensures
        ((b << 1u8) as u8) == (b * 2) % 256,
        ((b & 0x80u8) != 0) == (b >= 128),
        ((((b << 1u8) as u8) | 1u8) as u8) == (b * 2) % 256 + 1,
{
    assert(((b << 1u8) as u8) == (b * 2) % 256 && ((b & 0x80u8) != 0) == (b >= 128) && ((((b << 1u8) as u8) | 1u8)
        as u8) == (b * 2) % 256 + 1) by (bit_vector);
}

/// The top bit of a byte that holds `k` bits in front of its marker.
proof fn lemma_marked_top(acc: nat, k: nat)
    requires
        1 <= k < 8,
        acc < pow2(k),
    ensures
        ((2 * acc + 1) * pow2((7 - k) as nat) >= 128) == (acc / pow2((k - 1) as nat) == 1),
        acc / pow2((k - 1) as nat) <= 1,
        ((2 * acc + 1) * pow2((7 - k) as nat) * 2) % 256 == (2 * (acc % pow2((k - 1) as nat)) + 1) * pow2(
            (8 - k) as nat,
        ),
        (2 * acc + 1) * pow2((7 - k) as nat) < 256,
{
    let p = pow2((k - 1) as nat);
    let q = pow2((7 - k) as nat);
    lemma_pow2_adds((k - 1) as nat, (7 - k) as nat);
    lemma_pow2_unfold(k);
    lemma_pow2_unfold((8 - k) as nat);
    lemma2_to64();
    assert(((k - 1) as nat + (7 - k) as nat) as nat == 6);
    assert(p * q == 64);
    assert((k - 1) as nat == (k - 1) as nat && pow2(k) == 2 * p);
    assert(pow2((8 - k) as nat) == 2 * q) by {
        assert(((8 - k) as nat - 1) as nat == (7 - k) as nat);
    }
    lemma_pow2_pos((k - 1) as nat);
    lemma_pow2_pos((7 - k) as nat);
    let x = (2 * acc + 1) * q;
    if acc < p {
        lemma_basic_div(acc as int, p as int);
        lemma_small_mod(acc, p);
        assert(x * 2 < 256 && x < 128 && x * 2 == (2 * acc + 1) * (2 * q)) by (nonlinear_arith)
            requires
                x == (2 * acc + 1) * q,
                acc < p,
                p * q == 64,
                q > 0,
        ;
        lemma_small_mod((x * 2) as nat, 256);
    } else {
        let a2 = (acc - p) as nat;
        lemma_fundamental_div_mod_converse(acc as int, p as int, 1, a2 as int);
        assert(x * 2 == (2 * a2 + 1) * (2 * q) + 256 && (2 * a2 + 1) * (2 * q) < 256 && x >= 128 && x < 256)
            by (nonlinear_arith)
            requires
                x == (2 * acc + 1) * q,
                acc == p + a2,
                acc < 2 * p,
                p * q == 64,
                q > 0,
        ;
        lemma_fundamental_div_mod_converse((x * 2) as int, 256, 1, ((2 * a2 + 1) * (2 * q)) as int);
    }
}

/// One bit: the general reader and the simple reader read the same bit,
/// and still hold the same bits.
pub proof fn lemma_read_bit_bits(src: Seq<u8>, r: RState, c: BitCursor)
    requires
        holds(r, c),
        c.pos <= src.len(),
    ensures
        match (read_bit(src, true, r), read_bits(src, c, 1)) {
            (None, None) => true,
            (Some((b, r2)), Some((v, c2))) => (b <==> v == 1) && holds(r2, c2),
            _ => false,
        },
{
    lemma2_to64();
    lemma_shift_byte(r.bitbuf);
    if c.cnt == 0 {
        assert(c.acc == 0);
        assert((7 - c.cnt) as nat == 7);
        assert(pow2(7) == 128);
        assert((2 * c.acc + 1) * pow2((7 - c.cnt) as nat) == 128) by (nonlinear_arith)
            requires
                c.acc == 0,
                pow2((7 - c.cnt) as nat) == 128,
        ;
        assert(r.bitbuf == 128 || r.bitbuf == 0);
        assert(rotate(r.bitbuf, false, true).1 == 0);
        if c.pos < src.len() {
            let y = src[c.pos as int];
            lemma_shift_byte(y);
            let c1 = BitCursor { pos: c.pos + 1, acc: (c.acc * 256 + y) as nat, cnt: 8 };
            assert(read_bits(src, c, 1) == read_bits(src, c1, 1));
            let c2 = BitCursor { pos: c.pos + 1, acc: y as nat % 128, cnt: 7 };
            assert(read_bits(src, c1, 1) == Some(((y / 128) as nat, c2)));
            assert(rotate(y, true, true) == ((y >= 128), ((y * 2) % 256 + 1) as u8));
            assert((y * 2) % 256 == 2 * (y as nat % 128)) by (nonlinear_arith)
                requires
                    y < 256,
            ;
            assert((7 - c2.cnt) as nat == 0);
            assert((2 * c2.acc + 1) * pow2((7 - c2.cnt) as nat) == 2 * c2.acc + 1) by (nonlinear_arith)
                requires
                    pow2((7 - c2.cnt) as nat) == 1,
            ;
            assert(holds(RState { pos: c.pos + 1, bitbuf: ((y * 2) % 256 + 1) as u8 }, c2));
        }
    } else {
        let k = c.cnt;
        lemma_marked_top(c.acc, k);
        let b = r.bitbuf;
        assert(b == (2 * c.acc + 1) * pow2((7 - k) as nat));
        let rest = (k - 1) as nat;
        let c2 = BitCursor { pos: c.pos, acc: c.acc % pow2(rest), cnt: rest };
        assert(read_bits(src, c, 1) == Some((c.acc / pow2(rest), c2)));
        lemma_pow2_pos(rest);
        lemma_mod_bound(c.acc as int, pow2(rest) as int);
        assert((8 - k) as nat == (7 - rest) as nat);
        assert(rotate(b, false, true).1 == ((b * 2) % 256) as u8);
        lemma_pow2_pos((8 - k) as nat);
        let m = c.acc % pow2(rest);
        let w = pow2((8 - k) as nat);
        assert((2 * m + 1) * w > 0) by (nonlinear_arith)
            requires
                w > 0,
        ;
        assert(rotate(b, false, true).1 != 0);
        assert(holds(RState { pos: c.pos, bitbuf: ((b * 2) % 256) as u8 }, c2));
        assert((b & 0x80u8 != 0) <==> (c.acc / pow2(rest) == 1));
    }
}

/// Reading `n` bits at once is reading the first bit, then the `n - 1`
/// others.
pub proof fn lemma_read_bits_first(src: Seq<u8>, c: BitCursor, n: nat)
    requires
        cursor_wf(c),
        c.pos <= src.len(),
        n >= 1,
    ensures
        read_bits(src, c, n) == (match read_bits(src, c, 1) {
            None => None,
            Some((b, c1)) => match read_bits(src, c1, (n - 1) as nat) {
                None => None,
                Some((v, c2)) => Some(((b * pow2((n - 1) as nat) + v) as nat, c2)),
            },
        }),
    decreases (if c.cnt < n {
        n - c.cnt
    } else {
        0
    }),
{
    let m = (n - 1) as nat;
    if n <= c.cnt {
        let a: int = pow2((c.cnt - n) as nat) as int;
        let b: int = pow2(m) as int;
        lemma_pow2_adds((c.cnt - n) as nat, m);
        assert(((c.cnt - n) as nat + m) as nat == (c.cnt - 1) as nat);
        lemma_pow2_pos((c.cnt - n) as nat);
        lemma_pow2_pos(m);
        let x = c.acc as int;
        lemma_mod_mod(x, a, b);
        lemma_div_denominator(x, a, b);
        lemma_mod_breakdown(x, a, b);
        lemma_fundamental_div_mod(x / a, b);
        lemma_mod_bound(x, a);
        lemma_mod_bound(x / a, b);
        lemma_fundamental_div_mod_converse(x % (a * b), a, (x / a) % b, x % a);
        let c1 = BitCursor { pos: c.pos, acc: (x % (a * b)) as nat, cnt: (c.cnt - 1) as nat };
        assert(read_bits(src, c, 1) == Some(((x / (a * b)) as nat, c1)));
        assert(read_bits(src, c1, m) == Some((((x % (a * b)) / a) as nat, BitCursor { pos: c.pos, acc: (x % a) as nat, cnt: (c.cnt
            - n) as nat })));
        assert(read_bits(src, c, n) == Some(((x / a) as nat, BitCursor { pos: c.pos, acc: (x % a) as nat, cnt: (c.cnt
            - n) as nat })));
        assert((x / (a * b)) * b + (x % (a * b)) / a == x / a) by (nonlinear_arith)
            requires
                x / a == b * ((x / a) / b) + (x / a) % b,
                x / (a * b) == (x / a) / b,
                (x % (a * b)) / a == (x / a) % b,
        ;
    } else if c.pos < src.len() {
        let y = src[c.pos as int];
        let cy = BitCursor { pos: c.pos + 1, acc: (c.acc * 256 + y) as nat, cnt: c.cnt + 8 };
        lemma_read_bits(src, c, 1);
        lemma_pow2_adds(c.cnt, 8);
        lemma2_to64();
        assert(cy.acc < pow2(cy.cnt)) by (nonlinear_arith)
            requires
                c.acc < pow2(c.cnt),
                cy.acc == c.acc * 256 + y,
                pow2(cy.cnt) == pow2(c.cnt) * 256,
                y < 256,
        ;
        lemma_read_bits_first(src, cy, n);
        assert(read_bits(src, c, n) == read_bits(src, cy, n));
        if c.cnt == 0 {
            assert(read_bits(src, c, 1) == read_bits(src, cy, 1));
        } else {
            let pp: int = pow2((c.cnt - 1) as nat) as int;
            lemma_pow2_pos((c.cnt - 1) as nat);
            lemma_pow2_adds((c.cnt - 1) as nat, 8);
            assert(((c.cnt - 1) as nat + 8) as nat == (cy.cnt - 1) as nat);
            let x = cy.acc as int;
            let c1 = BitCursor { pos: c.pos, acc: (c.acc as int % pp) as nat, cnt: (c.cnt - 1) as nat };
            assert(read_bits(src, c, 1) == Some(((c.acc as int / pp) as nat, c1)));
            let cy1 = BitCursor { pos: c.pos + 1, acc: (x % (256 * pp)) as nat, cnt: (cy.cnt - 1) as nat };
            assert(read_bits(src, cy, 1) == Some(((x / (256 * pp)) as nat, cy1)));
            lemma_div_denominator(x, 256, pp);
            lemma_mod_breakdown(x, 256, pp);
            lemma_fundamental_div_mod_converse(x, 256, c.acc as int, y as int);
            assert(x / (256 * pp) == c.acc as int / pp);
            assert(x % (256 * pp) == 256 * (c.acc as int % pp) + y);
            let f1 = BitCursor { pos: c.pos + 1, acc: (c1.acc * 256 + y) as nat, cnt: c1.cnt + 8 };
            assert(cy1 == f1);
            assert(read_bits(src, c1, m) == read_bits(src, f1, m));
        }
    } else {
        if c.cnt >= 1 {
            let c1 = BitCursor { pos: c.pos, acc: c.acc % pow2((c.cnt - 1) as nat), cnt: (c.cnt - 1) as nat };
            assert(read_bits(src, c, 1) == Some((c.acc / pow2((c.cnt - 1) as nat), c1)));
            assert(read_bits(src, c1, m) is None);
        }
    }
}

/// `n` bits: the general reader reads them onto its number as the simple
/// reader reads them, and the two still hold the same bits.
pub proof fn lemma_plain_bits(src: Seq<u8>, r: RState, c: BitCursor, n: nat, acc: nat)
    requires
        holds(r, c),
        c.pos <= src.len(),
    ensures
        match (read_plain(src, true, r, n, acc), read_bits(src, c, n)) {
            (None, None) => true,
            (Some((v, r2)), Some((w, c2))) => v == acc * pow2(n) + w && holds(r2, c2),
            _ => false,
        },
    decreases n,
{
    lemma2_to64();
    if n == 0 {
        lemma_small_mod(c.acc, pow2(c.cnt));
        lemma_basic_div(c.acc as int, pow2(c.cnt) as int);
        assert(read_bits(src, c, 0) == Some((0nat, c)));
    } else {
        let m = (n - 1) as nat;
        lemma_read_bit_bits(src, r, c);
        lemma_read_bits_first(src, c, n);
        lemma_read_bits(src, c, 1);
        if let Some((b, r1)) = read_bit(src, true, r) {
            let (bv, c1) = read_bits(src, c, 1).unwrap();
            let acc1 = acc * 2 + (if b {
                1nat
            } else {
                0nat
            });
            lemma_plain_bits(src, r1, c1, m, acc1);
            lemma_read_bits(src, c1, m);
            if let Some((v, r2)) = read_plain(src, true, r1, m, acc1) {
                let (w, c2) = read_bits(src, c1, m).unwrap();
                lemma_pow2_unfold(n);
                assert(bv <= 1);
                assert(acc1 * pow2(m) + w == acc * pow2(n) + (bv * pow2(m) + w)) by (nonlinear_arith)
                    requires
                        acc1 == acc * 2 + bv,
                        pow2(n) == 2 * pow2(m),
                ;
            }
        }
    }
}

/// A gamma code: the two readers count the same 0 bits before the 1.
pub proof fn lemma_gamma_unary(src: Seq<u8>, r: RState, c: BitCursor, zeros: nat)
    requires
        holds(r, c),
        c.pos <= src.len(),
    ensures
        match (read_gamma(src, true, r, zeros), read_unary(src, c, zeros)) {
            (None, None) => true,
            (Some((v, r2)), Some((w, c2))) => v == w && holds(r2, c2) && c2.pos <= src.len(),
            _ => false,
        },
    decreases bits_left(src, c),
{
    lemma_read_bit_bits(src, r, c);
    lemma_read_bits(src, c, 1);
    lemma2_to64();
    if let Some((b, r2)) = read_bit(src, true, r) {
        let (bv, c2) = read_bits(src, c, 1).unwrap();
        if !b {
            lemma_gamma_unary(src, r2, c2, zeros + 1);
        }
    }
}

/// `count` bits of the general reader, for a proto that reads no whole
/// bytes inside values.
pub proof fn lemma_get_bits_bits(src: Seq<u8>, f: Flags, r: RState, c: BitCursor, count: nat)
    requires
        f.be,
        !f.copy_gt7,
        holds(r, c),
        c.pos <= src.len(),
    ensures
        match (get_bits(src, f, r, count), read_bits(src, c, count)) {
            (None, None) => true,
            (Some((v, r2)), Some((w, c2))) => v == w && holds(r2, c2) && c2.pos <= src.len(),
            _ => false,
        },
{
    lemma_plain_bits(src, r, c, count, 0);
    lemma_read_bits(src, c, count);
}

/// The general decruncher's tables and the simple decruncher's hold the
/// same entries; the entries that only the general one has are 0.
pub open spec fn same_tables(t: DTables, tt: Tables) -> bool {
    &&& t.bi.len() == 100
    &&& t.base.len() == 100
    &&& tt.bits.len() == 68
    &&& tt.base.len() == 68
    &&& forall|k: int|
        #![trigger t.bi[k]]
        #![trigger t.base[k]]
        0 <= k < 68 ==> t.bi[k] == tt.bits[k] && t.base[k] == tt.base[k]
    &&& forall|k: int|
        #![trigger t.bi[k]]
        #![trigger t.base[k]]
        68 <= k < 100 ==> t.bi[k] == 0 && t.base[k] == 0
}

/// Reading table entries leaves the others as they were.
proof fn lemma_dtables_frame(src: Seq<u8>, f: Flags, s: RState, i: nat, end: nat, a: nat, b: nat, t: DTables)
    requires
        end <= t.bi.len(),
        t.bi.len() == t.base.len(),
    ensures
        read_dtables(src, f, s, i, end, a, b, t) matches Some((t2, s2)) ==> t2.bi.len() == t.bi.len()
            && t2.base.len() == t.base.len() && forall|k: int|
            #![trigger t2.bi[k]]
            #![trigger t2.base[k]]
            0 <= k < i ==> t2.bi[k] == t.bi[k] && t2.base[k] == t.base[k],
    decreases end - i,
{
    if i < end {
        let a2: nat = if i % 16 != 0 {
            a + pow2(b)
        } else {
            1
        };
        if let Some((b2, s2)) = read_width(src, f, s) {
            let t1 = DTables { bi: t.bi.update(i as int, b2 as u8), base: t.base.update(i as int, (a2 % 65536) as u16) };
            lemma_dtables_frame(src, f, s2, i + 1, end, a2, b2, t1);
            if let Some((t2, s3)) = read_dtables(src, f, s2, i + 1, end, a2, b2, t1) {
                assert forall|k: int| 0 <= k < i implies #[trigger] t2.bi[k] == t.bi[k] && t2.base[k] == t.base[k] by {
                    assert(t2.bi[k] == t1.bi[k] && t2.base[k] == t1.base[k]);
                }
            }
        }
    }
}

/// The table entries `i..end`: where the general reader reads the widths
/// `ws` and no interval reaches past 65535, the simple reader reads the
/// same entries.
#[verifier::spinoff_prover]
pub proof fn lemma_tables_read(
    src: Seq<u8>,
    f: Flags,
    r: RState,
    c: BitCursor,
    i: nat,
    end: nat,
    a: nat,
    b: nat,
    t: DTables,
    nb: nat,
    tt: Tables,
    ws: Seq<u8>,
)
    requires
        f.be,
        !f.copy_gt7,
        holds(r, c),
        c.pos <= src.len(),
        i <= end <= 68,
        end <= ws.len(),
        same_tables(t, tt),
        i % 16 != 0 ==> a == gstart(ws, (i - 1) as nat) && b == ws[i - 1] && nb == a + pow2(b),
        read_dtables(src, f, r, i, end, a, b, t) matches Some((t2, r2)) && forall|k: int|
            i <= k < end ==> #[trigger] t2.bi[k] == ws[k],
        forall|k: nat| #![trigger gstart(ws, k)] i <= k < end ==> gstart(ws, k) + pow2(ws[k as int] as nat) <= 65535,
    ensures
        read_dtables(src, f, r, i, end, a, b, t) matches Some((t2, r2)) && read_tables(src, c, i, end, nb, tt) matches Ok(
            (tt2, c2),
        ) && same_tables(t2, tt2) && holds(r2, c2) && c2.pos <= src.len(),
    decreases end - i,
{
    if i < end {
        let a2: nat = if i % 16 != 0 {
            a + pow2(b)
        } else {
            1
        };
        assert(a2 == gstart(ws, i));
        let b2s: nat = if i % 16 == 0 {
            1
        } else {
            nb
        };
        assert(b2s == a2);
        lemma_get_bits_bits(src, f, r, c, 4);
        lemma_get_bits(src, f, r, 4);
        lemma2_to64();
        let (w, r1) = read_width(src, f, r).unwrap();
        let (w2, c1) = read_bits(src, c, 4).unwrap();
        assert(w == w2 && w < 16);
        let t1 = DTables { bi: t.bi.update(i as int, w as u8), base: t.base.update(i as int, (a2 % 65536) as u16) };
        let (t2, r2) = read_dtables(src, f, r, i, end, a, b, t).unwrap();
        assert(read_dtables(src, f, r1, i + 1, end, a2, w, t1) == Some((t2, r2)));
        lemma_dtables_frame(src, f, r1, i + 1, end, a2, w, t1);
        assert(t2.bi[i as int] == t1.bi[i as int]);
        assert(w == ws[i as int]);
        assert(gstart(ws, i) + pow2(ws[i as int] as nat) <= 65535);
        assert(!(b2s + pow2(w) > 65535));
        lemma_small_mod(a2, 65536);
        let tt1 = Tables { base: tt.base.update(i as int, b2s as u16), bits: tt.bits.update(i as int, w as u8) };
        assert(read_tables(src, c, i, end, nb, tt) == read_tables(src, c1, i + 1, end, b2s + pow2(w), tt1));
        assert(same_tables(t1, tt1));
        lemma_tables_read(src, f, r1, c1, i + 1, end, a2, w, t1, b2s + pow2(w), tt1, ws);
    }
}

/// A value coded by table entry `i`, where both readers hold the same
/// tables.
pub proof fn lemma_cooked_coded(src: Seq<u8>, f: Flags, t: DTables, tt: Tables, r: RState, c: BitCursor, i: nat)
    requires
        f.be,
        !f.copy_gt7,
        same_tables(t, tt),
        holds(r, c),
        c.pos <= src.len(),
        i < 68,
    ensures
        match (cooked(src, f, r, t, i), read_coded(src, c, tt, i)) {
            (None, None) => true,
            (Some((v, r2)), Some((w, c2))) => v == w && holds(r2, c2) && c2.pos <= src.len(),
            _ => false,
        },
{
    assert(t.bi[i as int] == tt.bits[i as int] && t.base[i as int] == tt.base[i as int]);
    lemma_get_bits_bits(src, f, r, c, t.bi[i as int] as nat);
}

/// The offset of a copied sequence of length `len`, at least 1: where the
/// general reader reads one, the simple reader reads the same.
#[verifier::spinoff_prover]
pub proof fn lemma_offset_read(
    src: Seq<u8>,
    p: u8,
    t: DTables,
    tt: Tables,
    r: RState,
    c: BitCursor,
    len: nat,
    rstate: nat,
    prev: nat,
)
    requires
        p & 1 != 0,
        p & 2 == 0,
        same_tables(t, tt),
        holds(r, c),
        c.pos <= src.len(),
        len >= 1,
    ensures
        crate::original::exodec::read_offset(src, flags_of(p), t, r, len, rstate, prev) matches Ok((o, r2))
            ==> crate::simple::common::read_offset(src, c, tt, proto_bits(p), len, rstate, prev) matches Some((o2, c2))
            && o2 == o && holds(r2, c2) && c2.pos <= src.len(),
{
    let f = flags_of(p);
    let pb = proto_bits(p);
    lemma2_to64();
    lemma_get_bits_bits(src, f, r, c, 1);
    lemma_read_bits(src, c, 1);
    let reuse: Option<(nat, RState)> = if f.reuse && rstate == 1 {
        get_bits(src, f, r, 1)
    } else {
        Some((0, r))
    };
    let reuse_bit: Option<(bool, BitCursor)> = if pb.reuse_offset && rstate == 1 {
        match read_bits(src, c, 1) {
            None => None,
            Some((b, c2)) => Some((b != 0, c2)),
        }
    } else {
        Some((false, c))
    };
    if let Some((rv, s2)) = reuse {
        let (rb, c2) = reuse_bit.unwrap();
        assert((rv != 0) == rb && holds(s2, c2) && c2.pos <= src.len());
        if rv == 0 {
            let th: nat = if f.four {
                4
            } else {
                3
            };
            let k: nat = ((if len > th {
                th
            } else {
                len
            }) - 1) as nat;
            let (table, width) = offset_table(f.four, k);
            lemma_get_bits_bits(src, f, s2, c2, width);
            lemma_read_bits(src, c2, width);
            if let Some((v, s3)) = get_bits(src, f, s2, width) {
                let (w, c3) = read_bits(src, c2, width).unwrap();
                assert(offset_index(src, c2, pb.four_offset_tables, len) == Some((w + table, c3)));
                assert(table + v < 68);
                lemma_cooked_coded(src, f, t, tt, s3, c3, table + v);
            }
        }
    }
}

/// Where the general reader stands after the flag bit and the gamma code
/// that start a sequence (for an end marker: after the whole marker).
pub open spec fn end_read(src: Seq<u8>, f: Flags, x: XState) -> Option<RState> {
    match read_bit(src, f.be, x.rs) {
        Some((false, r2)) => match read_gamma(src, f.be, r2, 0) {
            Some((_, r3)) => Some(r3),
            None => None,
        },
        _ => None,
    }
}

/// The next sequence asks only for what the simple decrunch loop accepts
/// too: copies of at least one byte, and an end marker that ends the
/// input.
pub open spec fn common_step(src: Seq<u8>, f: Flags, t: DTables, x: XState) -> bool {
    match xcommand(src, f, t, x) {
        XCmd::Literal { len, .. } => len >= 1,
        XCmd::Match { len, .. } => len >= 1,
        XCmd::End => end_read(src, f, x) matches Some(r3) && r3.pos == src.len(),
        XCmd::Fail { .. } => true,
    }
}

/// Every sequence of the run from `x` on asks only for what the simple
/// decrunch loop accepts too.
pub open spec fn common_run(src: Seq<u8>, f: Flags, t: DTables, x: XState) -> bool
    decreases xmeasure(src, f, x),
{
    if !xstate_wf(src, x) || !dtables_wf(t) {
        true
    } else {
        common_step(src, f, t, x) && match xstep(src, f, t, x) {
            XStep::Next(x2) => {
                proof {
                    lemma_xstep(src, f, t, x);
                }
                common_run(src, f, t, x2)
            },
            XStep::Done(_) => true,
        }
    }
}

/// The simple decrunch loop at `d` follows the general one at `x`: the
/// readers hold the same bits, the tail of the buffer holds the output so
/// far, last byte first, and the two loops agree on what decides the next
/// sequence (before the first one, each in its own way).
pub open spec fn follows(x: XState, d: DecState) -> bool {
    &&& holds(x.rs, d.cur)
    &&& d.written == x.out.len()
    &&& d.written <= d.out.len()
    &&& d.out.subrange(d.out.len() - d.written, d.out.len() as int) == x.out.reverse()
    &&& x.lit_next == d.first
    &&& x.lit_next ==> x.out.len() == 0
    &&& x.offset == d.offset
    &&& if x.out.len() == 0 {
        x.reuse_state == 1 && x.literal && d.reuse == 0 && d.literal
    } else {
        x.literal == d.literal && x.reuse_state % 2 == d.reuse % 2
    }
}

proof fn lemma_reuse_parity(a: nat, b: nat, l: nat)
    requires
        a % 2 == b % 2,
    ensures
        (a * 2 + l) % 4 == (b * 2 + l) % 4,
{
    assert((a * 2 + l) % 4 == (b * 2 + l) % 4) by (nonlinear_arith)
        requires
            a % 2 == b % 2,
    ;
}

/// The next sequence: where it is one that both loops accept, the simple
/// loop reads the same sequence as the general one.
#[verifier::spinoff_prover]
#[verifier::rlimit(40)]
pub proof fn lemma_command(src: Seq<u8>, p: u8, t: DTables, tt: Tables, x: XState, d: DecState)
    requires
        p & 1 != 0,
        p & 2 == 0,
        same_tables(t, tt),
        follows(x, d),
        x.rs.pos <= src.len(),
        common_step(src, flags_of(p), t, x),
    ensures
        match xcommand(src, flags_of(p), t, x) {
            XCmd::Literal { len, rs, reuse_state } => next_command(src, tt, proto_bits(p), d) matches Command::Copy {
                literal,
                len: n,
                offset,
                reuse,
                cur,
            } && literal && n == len && offset == d.offset && reuse % 2 == reuse_state % 2 && holds(rs, cur) && cur.pos
                <= src.len(),
            XCmd::Match { len, offset, rs, reuse_state } => x.out.len() > 0 ==> (next_command(
                src,
                tt,
                proto_bits(p),
                d,
            ) matches Command::Copy { literal, len: n, offset: o, reuse, cur } && !literal && n == len && o == offset
                && reuse == reuse_state && holds(rs, cur) && cur.pos <= src.len()),
            XCmd::End => next_command(src, tt, proto_bits(p), d) matches Command::End { cur } && cur.pos == src.len(),
            XCmd::Fail { .. } => true,
        },
{
    let f = flags_of(p);
    let pb = proto_bits(p);
    lemma2_to64();
    let lx: nat = if x.literal {
        1
    } else {
        0
    };
    let ld: nat = if d.literal {
        1
    } else {
        0
    };
    let rx: nat = ((x.reuse_state * 2 + lx) % 4) as nat;
    let rd: nat = ((d.reuse * 2 + ld) % 4) as nat;
    if x.out.len() > 0 {
        lemma_reuse_parity(x.reuse_state, d.reuse, lx);
        assert(rx == rd);
    } else {
        assert(rx == 3 && rd == 1);
    }
    if !x.lit_next {
        lemma_read_bit_bits(src, x.rs, d.cur);
        lemma_read_bits(src, d.cur, 1);
        if let Some((b, r2)) = read_bit(src, true, x.rs) {
            let (bv, c2) = read_bits(src, d.cur, 1).unwrap();
            if !b {
                lemma_gamma_unary(src, r2, c2, 0);
                if let Some((val, r3)) = read_gamma(src, true, r2, 0) {
                    let (w, c3) = read_unary(src, c2, 0).unwrap();
                    if val == 17 {
                        lemma_get_bits_bits(src, f, r3, c3, 16);
                    } else if val != 16 && val < 100 {
                        if val >= 68 {
                            assert(t.bi[val as int] == 0 && t.base[val as int] == 0);
                            assert(get_bits(src, f, r3, 0) == Some((0nat, r3)));
                        } else {
                            lemma_cooked_coded(src, f, t, tt, r3, c3, val);
                            lemma_get_bits(src, f, r3, t.bi[val as int] as nat);
                            if let Some((len, r4)) = cooked(src, f, r3, t, val) {
                                let (len2, c4) = read_coded(src, c3, tt, val).unwrap();
                                if len >= 1 {
                                    lemma_offset_read(src, p, t, tt, r4, c4, len, rx, x.offset);
                                }
                            }
                        }
                    }
                }
            }
        }
    }
}

/// Copying `n` input bytes backwards from `p` puts them, last first, in
/// front of the tail from `p` on.
proof fn lemma_copy_literal_tail(out: Seq<u8>, p: nat, src: Seq<u8>, pos: nat, n: nat)
    requires
        n <= p <= out.len(),
        pos + n <= src.len(),
    ensures
        copy_literal(out, p, src, pos, n).len() == out.len(),
        copy_literal(out, p, src, pos, n).subrange(p - n, out.len() as int) == src.subrange(pos as int, (pos + n) as int).reverse()
            + out.subrange(p as int, out.len() as int),
    decreases n,
{
    lemma_copy_literal_len(out, p, src, pos, n);
    if n == 0 {
        assert(src.subrange(pos as int, pos as int).reverse() =~= Seq::<u8>::empty());
        assert(Seq::<u8>::empty() + out.subrange(p as int, out.len() as int) =~= out.subrange(p as int, out.len() as int));
    } else {
        let out2 = out.update(p - 1, src[pos as int]);
        lemma_copy_literal_tail(out2, (p - 1) as nat, src, pos + 1, (n - 1) as nat);
        assert(copy_literal(out, p, src, pos, n) == copy_literal(out2, (p - 1) as nat, src, pos + 1, (n - 1) as nat));
        assert(out2.subrange(p - 1, out.len() as int) =~= seq![src[pos as int]] + out.subrange(p as int, out.len() as int));
        assert(src.subrange(pos as int, (pos + n) as int).reverse() =~= src.subrange((pos + 1) as int, (pos + n) as int).reverse()
            + seq![src[pos as int]]);
    }
}

/// Copying a match backwards from `p` is, read from the end, copying it
/// forwards.
proof fn lemma_copy_match_tail(out: Seq<u8>, p: nat, offset: nat, n: nat)
    requires
        n <= p <= out.len(),
        1 <= offset <= out.len() - p,
    ensures
        copy_match(out, p, offset, n).len() == out.len(),
        copy_match(out, p, offset, n).subrange(p - n, out.len() as int).reverse() == copy_forward(
            out.subrange(p as int, out.len() as int).reverse(),
            (out.len() - p - offset) as nat,
            n,
        ),
    decreases n,
{
    lemma_copy_match_len(out, p, offset, n);
    let tail = out.subrange(p as int, out.len() as int).reverse();
    if n == 0 {
    } else {
        let q = (p - 1) as nat;
        let out2 = out.update(q as int, out[(q + offset) as int]);
        lemma_copy_match_tail(out2, q, offset, (n - 1) as nat);
        assert(copy_match(out, p, offset, n) == copy_match(out2, q, offset, (n - 1) as nat));
        let m = (out.len() - p) as nat;
        assert(tail[m - offset] == out[(q + offset) as int]);
        assert(out2.subrange(q as int, out.len() as int).reverse() =~= tail.push(out[(q + offset) as int]));
        assert((out.len() - q - offset) as nat == (m - offset) as nat + 1);
    }
}

/// One sequence: where both loops accept it, the simple loop takes the
/// step that the general one takes, and still follows it.
#[verifier::spinoff_prover]
pub proof fn lemma_step_follows(src: Seq<u8>, p: u8, t: DTables, tt: Tables, x: XState, d: DecState)
    requires
        p & 1 != 0,
        p & 2 == 0,
        same_tables(t, tt),
        dtables_wf(t),
        follows(x, d),
        xstate_wf(src, x),
        common_step(src, flags_of(p), t, x),
        xstep(src, flags_of(p), t, x) matches XStep::Next(x2) ==> x2.out.len() <= d.out.len(),
    ensures
        match xstep(src, flags_of(p), t, x) {
            XStep::Next(x2) => step(src, tt, proto_bits(p), d) matches Step::Next(d2) && follows(x2, d2) && d2.out.len()
                == d.out.len(),
            XStep::Done(Ok(o)) => step(src, tt, proto_bits(p), d) matches Step::Done(Ok(d2)) && d2.out == d.out
                && d2.written == d.written && o == x.out,
            XStep::Done(Err(_)) => true,
        },
{
    let f = flags_of(p);
    let pb = proto_bits(p);
    lemma_command(src, p, t, tt, x, d);
    let big_l = d.out.len();
    let w = d.written;
    let pp = (big_l - w) as nat;
    assert(d.out.subrange(pp as int, big_l as int) == x.out.reverse());
    match xcommand(src, f, t, x) {
        XCmd::Literal { len, rs, reuse_state } => {
            if src.len() - rs.pos >= copy_count(len) {
                assert(copy_count(len) == len);
                lemma_copy_literal_tail(d.out, pp, src, rs.pos, len);
                let x2 = XState {
                    rs: RState { pos: rs.pos + len, ..rs },
                    out: x.out + src.subrange(rs.pos as int, (rs.pos + len) as int),
                    literal: true,
                    reuse_state,
                    offset: x.offset,
                    lit_next: false,
                };
                assert(xstep(src, f, t, x) == XStep::Next(x2));
                let out2 = copy_literal(d.out, pp, src, rs.pos, len);
                assert(out2.subrange(big_l - (w + len), big_l as int) =~= x2.out.reverse());
            }
        },
        XCmd::Match { len, offset, rs, reuse_state } => {
            if offset != 0 && offset <= x.out.len() {
                assert(copy_count(len) == len);
                lemma_copy_forward_len(x.out, (x.out.len() - offset) as nat, len);
                lemma_copy_match_tail(d.out, pp, offset, len);
                assert(d.out.subrange(pp as int, big_l as int).reverse() =~= x.out);
                let out2 = copy_match(d.out, pp, offset, len);
                assert(out2.subrange(big_l - (w + len), big_l as int) =~= out2.subrange(big_l - (w + len), big_l as int).reverse().reverse());
            }
        },
        XCmd::End => {},
        XCmd::Fail { .. } => {},
    }
}

/// A run of the general loop that ends well makes its output no shorter.
proof fn lemma_xrun_grows(src: Seq<u8>, f: Flags, t: DTables, x: XState)
    ensures
        xrun(src, f, t, x) matches Ok(o) ==> x.out.len() <= o.len(),
    decreases xmeasure(src, f, x),
{
    if xstate_wf(src, x) && dtables_wf(t) {
        lemma_xstep(src, f, t, x);
        if let XStep::Next(x2) = xstep(src, f, t, x) {
            match xcommand(src, f, t, x) {
                XCmd::Match { len, offset, .. } => {
                    lemma_copy_forward_len(x.out, (x.out.len() - offset) as nat, copy_count(len));
                },
                _ => {},
            }
            lemma_xrun_grows(src, f, t, x2);
        }
    }
}

/// The whole run: where every sequence is one that both loops accept and
/// the buffer has room, the simple loop ends with the general loop's
/// output, last byte first, in the tail of its buffer.
#[verifier::spinoff_prover]
pub proof fn lemma_run_follows(src: Seq<u8>, p: u8, t: DTables, tt: Tables, x: XState, d: DecState)
    requires
        p & 1 != 0,
        p & 2 == 0,
        same_tables(t, tt),
        dtables_wf(t),
        follows(x, d),
        xstate_wf(src, x),
        common_run(src, flags_of(p), t, x),
        xrun(src, flags_of(p), t, x) matches Ok(o) && o.len() <= d.out.len(),
    ensures
        xrun(src, flags_of(p), t, x) matches Ok(o) && run(src, tt, proto_bits(p), d) matches Ok(d2) && d2.out.len()
            == d.out.len() && d2.written == o.len() && d2.out.subrange(d2.out.len() - d2.written, d2.out.len() as int)
            == o.reverse(),
    decreases xmeasure(src, flags_of(p), x),
{
    let f = flags_of(p);
    let pb = proto_bits(p);
    let o = xrun(src, f, t, x).unwrap();
    lemma_xstep(src, f, t, x);
    if let XStep::Next(x2) = xstep(src, f, t, x) {
        lemma_xrun_grows(src, f, t, x2);
    }
    lemma_step_follows(src, p, t, tt, x, d);
    assert(state_wf(src, d));
    match xstep(src, f, t, x) {
        XStep::Next(x2) => {
            let d2 = match step(src, tt, pb, d) {
                Step::Next(d2) => d2,
                Step::Done(_) => d,
            };
            lemma_run_follows(src, p, t, tt, x2, d2);
        },
        XStep::Done(_) => {},
    }
}

/// Where two width lists agree before entry `k`, entry `k` starts at the
/// same value.
proof fn lemma_gstart_agree(a: Seq<u8>, b: Seq<u8>, k: nat)
    requires
        forall|j: int| 0 <= j < k ==> #[trigger] a[j] == b[j],
    ensures
        gstart(a, k) == gstart(b, k),
    decreases k,
{
    if k % 16 != 0 {
        lemma_gstart_agree(a, b, (k - 1) as nat);
        assert(a[k - 1] == b[k - 1]);
    }
}

/// The decrunchers on a stream of a supported proto: where the general
/// decruncher reads tables whose intervals stay below 65536 and a run whose
/// sequences the simple loop accepts too, the simple decruncher gives the
/// same data, last byte first, into the tail of a buffer that has room.
#[verifier::spinoff_prover]
proof fn lemma_simple_follows_general(p: u8, src: Seq<u8>, dst: Seq<u8>, t: DTables, r1: RState)
    requires
        p & 1 != 0,
        p & 2 == 0,
        p & 8 != 0,
        read_dtables(src, flags_of(p), RState { pos: 0, bitbuf: 0 }, 0, header_len(p & 16 != 0), 0, 0, empty_dtables())
            == Some((t, r1)),
        spans_in_range(t.bi, header_len(p & 16 != 0)),
        common_run(
            src,
            flags_of(p),
            t,
            XState { rs: r1, out: Seq::empty(), literal: true, reuse_state: 1, offset: 0, lit_next: flags_of(p).impl1literal },
        ),
        exo_decrunch(p, None, src) matches Ok(o) && o.len() <= dst.len(),
    ensures
        exo_decrunch(p, None, src) matches Ok(o) && decrunched(p, src, dst) == Ok::<Seq<u8>, DecrunchError>(o.reverse()),
{
    let f = flags_of(p);
    let pb = proto_bits(p);
    let end = header_len(p & 16 != 0);
    assert(start_state(src, f) == Some(RState { pos: 0, bitbuf: 0 }));
    let x0 = XState { rs: r1, out: Seq::empty(), literal: true, reuse_state: 1, offset: 0, lit_next: f.impl1literal };
    let o = exo_decrunch(p, None, src).unwrap();
    assert(xrun(src, f, t, x0) == Ok::<Seq<u8>, DecrunchError>(o));
    assert(xstate_wf(src, x0) && dtables_wf(t));
    let r0 = RState { pos: 0, bitbuf: 0 };
    let c0 = start_cursor();
    lemma2_to64();
    assert(holds(r0, c0));
    assert(same_tables(empty_dtables(), empty_tables()));
    assert(table_entries(pb) == end);
    lemma_tables_read(src, f, r0, c0, 0, end, 0, 0, empty_dtables(), 1, empty_tables(), t.bi);
    let (tt, c1) = read_tables(src, c0, 0, end, 1, empty_tables()).unwrap();
    let d0 = DecState { cur: c1, out: dst, written: 0, literal: true, first: pb.impl1literal, reuse: 0, offset: 0 };
    assert(d0.out.subrange(d0.out.len() - d0.written, d0.out.len() as int) =~= x0.out.reverse());
    assert(follows(x0, d0));
    lemma_run_follows(src, p, t, tt, x0, d0);
}

/// The intervals of the first `n` entries of the width list `ws` all end
/// below 65536: each entry's start plus its size.
pub open spec fn spans_in_range(ws: Seq<u8>, n: nat) -> bool {
    forall|k: nat| #![trigger gstart(ws, k)] k < n ==> gstart(ws, k) + pow2(ws[k as int] as nat) <= 65535
}

/// The intervals of the tables all end below 65536, in the order that a
/// header holds them.
pub open spec fn tables_in_range(p: u8, tabs: Seq<Seq<u8>>) -> bool {
    spans_in_range(header_widths(p & 16 != 0, tabs), header_len(p & 16 != 0))
}

/// The intervals of the tables that a reader builds from a header are
/// those of the tables the header holds.
proof fn lemma_spans_of_tables(p: u8, tabs: Seq<Seq<u8>>, t: DTables)
    requires
        tables_fit(p, tabs),
        tables_in_range(p, tabs),
        header_dtables(p, tabs, t),
    ensures
        spans_in_range(t.bi, header_len(p & 16 != 0)),
{
    let four = p & 16 != 0;
    let hw = header_widths(four, tabs);
    lemma_header_widths_at(four, tabs, 0);
    assert forall|k: nat| #![trigger gstart(t.bi, k)] k < header_len(four) implies gstart(t.bi, k) + pow2(t.bi[k as int] as nat) <= 65535 by {
        assert forall|j: int| 0 <= j < k implies #[trigger] t.bi[j] == hw[j] by {
            assert(t.bi[j] == hw[j]);
        }
        lemma_gstart_agree(t.bi, hw, k);
        assert(t.bi[k as int] == hw[k as int]);
        assert(gstart(hw, k) + pow2(hw[k as int] as nat) <= 65535);
    }
}

/// A stream that the stream writer produces for a supported proto,
/// crunching the data backwards, is decrunched by the simple decrunchers,
/// fed its bytes in reverse order, into the data, in the tail of a buffer
/// that has room for it. The path and tables must be those that the
/// general decruncher reads back (see `law_written_stream_decrunches`),
/// and no interval of the tables may end past 65535, which the simple
/// decrunchers refuse.
#[verifier::spinoff_prover]
pub proof fn law_simple_decrunches_written_stream(
    p: u8,
    notrait: u8,
    tabs: Seq<Seq<u8>>,
    data: Seq<u8>,
    items: Seq<PathItem>,
    dst: Seq<u8>,
)
    requires
        is_supported_proto(p),
        tables_fit(p, tabs),
        tables_in_range(p, tabs),
        path_covers(data, items),
        path_genuine(data, items),
        path_fits(p, notrait, items),
        write_stream(Seq::empty(), p, notrait, tabs, data, Some(items), true) is Some,
        data.len() <= dst.len(),
    ensures
        write_stream(Seq::empty(), p, notrait, tabs, data, Some(items), true) matches Some((bytes, w)) && decrunched(
            p,
            bytes.reverse(),
            dst,
        ) == Ok::<Seq<u8>, DecrunchError>(data),
{
    assert(p & 1 != 0 && p & 2 == 0 && p & 8 != 0) by (bit_vector)
        requires
            (p | 4 | 16 | 32) == 61,
    ;
    let (t, r1) = lemma_written_stream_read(p, notrait, tabs, data, items);
    let (bytes, w) = write_stream(Seq::empty(), p, notrait, tabs, data, Some(items), true).unwrap();
    let src = bytes.reverse();
    lemma_spans_of_tables(p, tabs, t);
    assert(data.reverse().len() == data.len());
    lemma_simple_follows_general(p, src, dst, t, r1);
    assert(data.reverse().reverse() =~= data);
}

} // verus!
