//! What the decruncher reads back of what the cruncher writes.
//!
//! The writer gathers bits into a byte and appends whole bytes; the reader
//! takes the written bytes in reverse order and shifts the bits out of each
//! byte behind a marker bit. While the reader has still to read what the
//! writer wrote up to some point, the two are said to correspond: the bytes
//! left to the reader are the bytes written so far, last first, and the
//! reader's byte holds the writer's pending bits with the marker after
//! them.
use crate::original::bitstream::{alignment, flush, put_bit, put_bits, put_gamma, WState};
use crate::original::encoding::{encoding_text, header_bytes, law_encoding_text_roundtrip, padded_tables, put_entry, put_header, put_table, table_entry};
use crate::original::stream::{find_interval, offset_table_of, put_bytes, put_int, put_item, put_items, put_match, write_pass, write_stream, PathItem, WInfo};
use crate::original::exodec::{cooked, copy_count, copy_forward, dtables_wf, empty_dtables, exo_decrunch, flags_of, start_state, offset_table, read_offset, xcommand, xrun, xstate_wf, xstep, XCmd, XState, XStep, get_bits, read_bit, read_bytes, read_dtables, read_gamma, read_plain, read_width, rotate, DTables, Flags, RState};
use crate::original::decrunch::{decrunched_raw, imported_header};
use crate::original::decrunch_options::DecrunchOptions;
use crate::simple::readback::{common_run, common_step, end_read};
use vstd::arithmetic::div_mod::*;
use vstd::arithmetic::power2::*;
use vstd::prelude::*;

verus! {

/// The reader's byte for `k` pending bits `bb` of the writer: the bits, then
/// a marker bit.
pub open spec fn marked(bb: u8, k: u8, be: bool) -> u8 {
    if be {
        (bb | (0x80u8 >> k)) as u8
    } else {
        (bb | (1u8 << k)) as u8
    }
}

/// The writer's byte holds nothing but its pending bits.
pub open spec fn clean(s: WState, be: bool) -> bool {
    &&& s.bitcount < 8
    &&& if be {
        (s.bitbuf & (0xffu8 >> s.bitcount)) == 0
    } else {
        (s.bitbuf >> s.bitcount) == 0
    }
}

/// The reader at `r` has still to read all that the writer wrote up to `s`.
pub open spec fn corr(src: Seq<u8>, be: bool, s: WState, r: RState) -> bool {
    &&& clean(s, be)
    &&& r.pos + s.out.len() == src.len()
    &&& forall|i: int| 0 <= i < s.out.len() ==> #[trigger] src[r.pos + i] == s.out[s.out.len() - 1 - i]
    &&& (r.bitbuf == marked(s.bitbuf, s.bitcount, be) || (s.bitcount == 0 && r.bitbuf == 0))
}

/// A bit keeps the writer's byte clean.
#[verifier::spinoff_prover]
pub proof fn lemma_put_bit_clean(s: WState, be: bool, b: bool)
    requires
        clean(s, be),
    ensures
        clean(put_bit(s, be, b), be),
        put_bit(s, be, b).bitcount == (s.bitcount + 1) % 8,
{
    let bb = s.bitbuf;
    let k = s.bitcount;
    if k + 1 < 8 {
        if be {
            assert((bb & (0xffu8 >> k)) == 0 && k < 7 ==> (((bb >> 1u8) | 0x80u8) as u8 & (0xffu8 >> ((k + 1) as u8))) == 0)
                by (bit_vector);
            assert((bb & (0xffu8 >> k)) == 0 && k < 7 ==> (((bb >> 1u8) | 0u8) as u8 & (0xffu8 >> ((k + 1) as u8))) == 0)
                by (bit_vector);
        } else {
            assert((bb >> k) == 0 && k < 7 ==> ((((bb << 1u8) as u8) | 1u8) as u8 >> ((k + 1) as u8)) == 0)
                by (bit_vector);
            assert((bb >> k) == 0 && k < 7 ==> ((((bb << 1u8) as u8) | 0u8) as u8 >> ((k + 1) as u8)) == 0)
                by (bit_vector);
        }
    } else {
        assert((0u8 & (0xffu8 >> 0u8)) == 0) by (bit_vector);
        assert((0u8 >> 0u8) == 0) by (bit_vector);
    }
}

/// The reader reads back the last bit written, and then corresponds to the
/// writer before that bit.
#[verifier::spinoff_prover]
pub proof fn lemma_read_put_bit(src: Seq<u8>, be: bool, s: WState, b: bool, r: RState)
    requires
        clean(s, be),
        corr(src, be, put_bit(s, be, b), r),
    ensures
        read_bit(src, be, r) matches Some((b2, r2)) && b2 == b && corr(src, be, s, r2),
{
    let bb = s.bitbuf;
    let k = s.bitcount;
    let s1 = put_bit(s, be, b);
    if k + 1 < 8 {
        let kk = (k + 1) as u8;
        assert(kk == s1.bitcount);
        if be {
            if b {
                assert((bb & (0xffu8 >> k)) == 0 && k < 7 ==> {
                    let m = (((bb >> 1u8) | 0x80u8) as u8 | (0x80u8 >> ((k + 1) as u8))) as u8;
                    (m & 0x80u8) != 0 && ((m << 1u8) as u8) == ((bb | (0x80u8 >> k)) as u8) && ((m << 1u8) as u8)
                        != 0
                }) by (bit_vector);
            } else {
                assert((bb & (0xffu8 >> k)) == 0 && k < 7 ==> {
                    let m = (((bb >> 1u8) | 0u8) as u8 | (0x80u8 >> ((k + 1) as u8))) as u8;
                    (m & 0x80u8) == 0 && ((m << 1u8) as u8) == ((bb | (0x80u8 >> k)) as u8) && ((m << 1u8) as u8)
                        != 0
                }) by (bit_vector);
            }
        } else {
            if b {
                assert((bb >> k) == 0 && k < 7 ==> {
                    let m = ((((bb << 1u8) as u8) | 1u8) as u8 | (1u8 << ((k + 1) as u8))) as u8;
                    (m & 1u8) != 0 && (m >> 1u8) == ((bb | (1u8 << k)) as u8) && (m >> 1u8) != 0
                }) by (bit_vector);
            } else {
                assert((bb >> k) == 0 && k < 7 ==> {
                    let m = ((((bb << 1u8) as u8) | 0u8) as u8 | (1u8 << ((k + 1) as u8))) as u8;
                    (m & 1u8) == 0 && (m >> 1u8) == ((bb | (1u8 << k)) as u8) && (m >> 1u8) != 0
                }) by (bit_vector);
            }
        }
    } else {
        assert(k == 7);
        let nb = s1.out.last();
        assert(src[r.pos + 0int] == s1.out[s1.out.len() - 1 - 0int]);
        assert(r.bitbuf == 0x80u8 || r.bitbuf == 1u8 || r.bitbuf == 0u8) by {
            assert((0u8 | (0x80u8 >> 0u8)) as u8 == 0x80u8) by (bit_vector);
            assert((0u8 | (1u8 << 0u8)) as u8 == 1u8) by (bit_vector);
        }
        if be {
            assert(((0x80u8 << 1u8) as u8) == 0 && ((0u8 << 1u8) as u8) == 0 && ((1u8 << 1u8) as u8) != 0)
                by (bit_vector);
            assert(r.bitbuf != 1u8) by {
                assert((0u8 | (0x80u8 >> 0u8)) as u8 == 0x80u8) by (bit_vector);
            }
            if b {
                assert((bb & (0xffu8 >> 7u8)) == 0 ==> {
                    let m = ((bb >> 1u8) | 0x80u8) as u8;
                    (m & 0x80u8) != 0 && ((((m << 1u8) as u8) | 1u8) as u8) == ((bb | (0x80u8 >> 7u8)) as u8)
                }) by (bit_vector);
            } else {
                assert((bb & (0xffu8 >> 7u8)) == 0 ==> {
                    let m = ((bb >> 1u8) | 0u8) as u8;
                    (m & 0x80u8) == 0 && ((((m << 1u8) as u8) | 1u8) as u8) == ((bb | (0x80u8 >> 7u8)) as u8)
                }) by (bit_vector);
            }
        } else {
            assert((0x80u8 >> 1u8) != 0 && (0u8 >> 1u8) == 0 && (1u8 >> 1u8) == 0) by (bit_vector);
            assert(r.bitbuf != 0x80u8) by {
                assert((0u8 | (1u8 << 0u8)) as u8 == 1u8) by (bit_vector);
            }
            if b {
                assert((bb >> 7u8) == 0 ==> {
                    let m = (((bb << 1u8) as u8) | 1u8) as u8;
                    (m & 1u8) != 0 && (((m >> 1u8) | 0x80u8) as u8) == ((bb | (1u8 << 7u8)) as u8)
                }) by (bit_vector);
            } else {
                assert((bb >> 7u8) == 0 ==> {
                    let m = (((bb << 1u8) as u8) | 0u8) as u8;
                    (m & 1u8) == 0 && (((m >> 1u8) | 0x80u8) as u8) == ((bb | (1u8 << 7u8)) as u8)
                }) by (bit_vector);
            }
        }
        let r2 = RState { pos: r.pos + 1, bitbuf: marked(bb, 7, be) };
        assert forall|i: int| 0 <= i < s.out.len() implies #[trigger] src[r2.pos + i] == s.out[s.out.len() - 1 - i] by {
            assert(src[r.pos + (i + 1)] == s1.out[s1.out.len() - 1 - (i + 1)]);
        }
    }
}

/// A byte appended directly is the next byte the reader takes.
#[verifier::spinoff_prover]
pub proof fn lemma_read_put_byte(src: Seq<u8>, be: bool, s: WState, v: u8, r: RState)
    requires
        corr(src, be, WState { out: s.out.push(v), ..s }, r),
    ensures
        r.pos < src.len(),
        src[r.pos as int] == v,
        corr(src, be, s, RState { pos: r.pos + 1, ..r }),
{
    let s1 = WState { out: s.out.push(v), ..s };
    assert(src[r.pos + 0int] == s1.out[s1.out.len() - 1 - 0int]);
    let r2 = RState { pos: r.pos + 1, ..r };
    assert forall|i: int| 0 <= i < s.out.len() implies #[trigger] src[r2.pos + i] == s.out[s.out.len() - 1 - i] by {
        assert(src[r.pos + (i + 1)] == s1.out[s1.out.len() - 1 - (i + 1)]);
    }
}

/// Bits keep the writer's byte clean.
#[verifier::spinoff_prover]
pub proof fn lemma_put_bits_clean(s: WState, be: bool, gt7: bool, n: nat, v: nat)
    requires
        clean(s, be),
    ensures
        clean(put_bits(s, be, gt7, n, v), be),
    decreases n,
{
    if gt7 && n > 7 {
        lemma_put_bits_clean(WState { out: s.out.push((v % 256) as u8), ..s }, be, gt7, (n - 8) as nat, v / 256);
    } else if n > 0 {
        lemma_put_bit_clean(s, be, v % 2 == 1);
        lemma_put_bits_clean(put_bit(s, be, v % 2 == 1), be, gt7, (n - 1) as nat, v / 2);
    }
}

/// A gamma code keeps the writer's byte clean.
#[verifier::spinoff_prover]
pub proof fn lemma_put_gamma_clean(s: WState, be: bool, code: nat)
    requires
        clean(s, be),
    ensures
        clean(put_gamma(s, be, code), be),
    decreases code,
{
    if code == 0 {
        lemma_put_bit_clean(s, be, true);
    } else {
        lemma_put_gamma_clean(s, be, (code - 1) as nat);
        lemma_put_bit_clean(put_gamma(s, be, (code - 1) as nat), be, false);
    }
}

/// The last of `n` bits written one by one is bit `n - 1` of the value.
#[verifier::spinoff_prover]
proof fn lemma_put_bits_last(s: WState, be: bool, gt7: bool, n: nat, v: nat)
    requires
        n >= 1,
        !gt7 || n <= 7,
    ensures
        put_bits(s, be, gt7, n, v) == put_bit(put_bits(s, be, gt7, (n - 1) as nat, v), be, (v / pow2((n - 1) as nat)) % 2 == 1),
    decreases n,
{
    if n == 1 {
        assert(v / pow2(0) == v) by {
            lemma2_to64();
        }
        assert(put_bits(s, be, gt7, 0, v) == s);
        assert(put_bits(s, be, gt7, 1, v) == put_bits(put_bit(s, be, v % 2 == 1), be, gt7, 0, v / 2));
    } else {
        let s1 = put_bit(s, be, v % 2 == 1);
        lemma_put_bits_last(s1, be, gt7, (n - 1) as nat, v / 2);
        assert(put_bits(s, be, gt7, n, v) == put_bits(s1, be, gt7, (n - 1) as nat, v / 2));
        assert(put_bits(s, be, gt7, (n - 1) as nat, v) == put_bits(s1, be, gt7, (n - 2) as nat, v / 2));
        lemma_pow2_unfold((n - 1) as nat);
        lemma_pow2_pos((n - 2) as nat);
        lemma_div_denominator(v as int, 2, pow2((n - 2) as nat) as int);
        assert((v / 2) / pow2((n - 2) as nat) == v / pow2((n - 1) as nat));
    }
}

/// Reading `n` bits one by one gives back the `n` low bits written.
#[verifier::spinoff_prover]
pub proof fn lemma_read_plain_put_bits(src: Seq<u8>, be: bool, gt7: bool, s: WState, n: nat, v: nat, r: RState, acc: nat)
    requires
        clean(s, be),
        !gt7 || n <= 7,
        corr(src, be, put_bits(s, be, gt7, n, v), r),
    ensures
        read_plain(src, be, r, n, acc) matches Some((a, r2)) && a == acc * pow2(n) + v % pow2(n) && corr(src, be, s, r2),
        read_plain(src, be, r, n, acc) matches Some((a, r2)) && (acc == 0 ==> a == v % pow2(n)),
    decreases n,
{
    let pn = pow2(n);
    assert(acc == 0 ==> acc * pn == 0) by (nonlinear_arith);
    if n == 0 {
        lemma2_to64();
        assert(v % 1 == 0);
    } else {
        lemma_put_bits_last(s, be, gt7, n, v);
        let x = put_bits(s, be, gt7, (n - 1) as nat, v);
        let top = (v / pow2((n - 1) as nat)) % 2 == 1;
        lemma_put_bits_clean(s, be, gt7, (n - 1) as nat, v);
        lemma_read_put_bit(src, be, x, top, r);
        let (b, r1) = read_bit(src, be, r).unwrap();
        let tb: nat = if top {
            1
        } else {
            0
        };
        lemma_read_plain_put_bits(src, be, gt7, s, (n - 1) as nat, v, r1, acc * 2 + tb);
        let p = pow2((n - 1) as nat);
        lemma_pow2_pos((n - 1) as nat);
        lemma_pow2_unfold(n);
        lemma_mod_breakdown(v as int, p as int, 2);
        assert(tb == (v / p) % 2);
        assert((acc * 2 + tb) * p + v % p == acc * (2 * p) + (p * tb + v % p)) by (nonlinear_arith);
        assert(p * 2 == 2 * p);
    }
}

/// Reading bytes one more at the end.
#[verifier::spinoff_prover]
proof fn lemma_read_bytes_snoc(src: Seq<u8>, r: RState, m: nat, acc: nat)
    ensures
        read_bytes(src, r, m + 1, acc) == (match read_bytes(src, r, m, acc) {
            None => None,
            Some((a, r1)) => read_bytes(src, r1, 1, a),
        }),
    decreases m,
{
    if m > 0 && r.pos < src.len() {
        lemma_read_bytes_snoc(src, RState { pos: r.pos + 1, ..r }, (m - 1) as nat, (acc * 256 + src[r.pos as int]) as nat);
    }
}

/// With whole bytes copied, reading the top bits and then the bytes gives
/// back the value written.
#[verifier::spinoff_prover]
proof fn lemma_read_gt7_put_bits(src: Seq<u8>, be: bool, s: WState, n: nat, v: nat, r: RState, acc: nat)
    requires
        clean(s, be),
        corr(src, be, put_bits(s, be, true, n, v), r),
    ensures
        read_plain(src, be, r, n % 8, acc) matches Some((a1, r1)) && read_bytes(src, r1, n / 8, a1) matches Some((a2, r2))
            && a2 == acc * pow2(n) + v % pow2(n) && corr(src, be, s, r2),
        read_plain(src, be, r, n % 8, acc) matches Some((a1, r1)) && read_bytes(src, r1, n / 8, a1) matches Some((a2, r2))
            && (acc == 0 ==> a2 == v % pow2(n)),
    decreases n,
{
    let pn = pow2(n);
    assert(acc == 0 ==> acc * pn == 0) by (nonlinear_arith);
    if n <= 7 {
        lemma_read_plain_put_bits(src, be, true, s, n, v, r, acc);
        assert(n % 8 == n && n / 8 == 0);
        let (a1, r1) = read_plain(src, be, r, n, acc).unwrap();
        assert(read_bytes(src, r1, 0, a1) == Some((a1, r1)));
    } else {
        let s1 = WState { out: s.out.push((v % 256) as u8), ..s };
        lemma_read_gt7_put_bits(src, be, s1, (n - 8) as nat, v / 256, r, acc);
        assert((n - 8) as nat % 8 == n % 8);
        assert((n - 8) as nat / 8 + 1 == n / 8);
        let (a1, r1) = read_plain(src, be, r, n % 8, acc).unwrap();
        lemma_read_bytes_snoc(src, r1, (n / 8 - 1) as nat, a1);
        let (a2, r2) = read_bytes(src, r1, (n / 8 - 1) as nat, a1).unwrap();
        lemma_read_put_byte(src, be, s, (v % 256) as u8, r2);
        let q = pow2((n - 8) as nat);
        lemma_pow2_pos((n - 8) as nat);
        lemma_pow2_adds((n - 8) as nat, 8);
        lemma2_to64();
        lemma_mod_breakdown(v as int, 256, q as int);
        let hi = (v / 256) % q;
        assert((acc * q + hi) * 256 + v % 256 == acc * (q * 256) + (256 * hi + v % 256)) by (nonlinear_arith);
        assert(q * 256 == 256 * q);
        assert(pow2(n) == q * 256);
        assert(v % pow2(n) == 256 * hi + v % 256);
        assert(src[r2.pos as int] == v % 256);
        let r3 = RState { pos: r2.pos + 1, ..r2 };
        assert(read_bytes(src, r3, 0, (a2 * 256 + src[r2.pos as int]) as nat) == Some(((a2 * 256 + src[r2.pos as int]) as nat, r3)));
        assert(read_bytes(src, r2, 1, a2) == Some(((a2 * 256 + src[r2.pos as int]) as nat, r3)));
    }
}

/// Reading a value of `n` bits gives back the `n` low bits written.
#[verifier::spinoff_prover]
pub proof fn lemma_get_bits_put_bits(src: Seq<u8>, f: Flags, s: WState, n: nat, v: nat, r: RState)
    requires
        clean(s, f.be),
        corr(src, f.be, put_bits(s, f.be, f.copy_gt7, n, v), r),
    ensures
        get_bits(src, f, r, n) matches Some((a, r2)) && a == v % pow2(n) && corr(src, f.be, s, r2),
{
    if f.copy_gt7 {
        lemma_read_gt7_put_bits(src, f.be, s, n, v, r, 0);
        if n <= 7 {
            assert(n % 8 == n && n / 8 == 0);
        }
        let (a1, r1) = read_plain(src, f.be, r, n % 8, 0).unwrap();
        let (a2, r2) = read_bytes(src, r1, n / 8, a1).unwrap();

    } else {
        lemma_read_plain_put_bits(src, f.be, false, s, n, v, r, 0);
        let (a1, r1) = read_plain(src, f.be, r, n, 0).unwrap();
        assert(read_bytes(src, r1, 0, a1) == Some((a1, r1)));

    }
}

/// Reading a gamma code gives back the code written.
#[verifier::spinoff_prover]
pub proof fn lemma_read_gamma_put_gamma(src: Seq<u8>, be: bool, s: WState, code: nat, r: RState, zeros: nat)
    requires
        clean(s, be),
        corr(src, be, put_gamma(s, be, code), r),
    ensures
        read_gamma(src, be, r, zeros) matches Some((z, r2)) && z == zeros + code && corr(src, be, s, r2),
    decreases code,
{
    if code == 0 {
        lemma_read_put_bit(src, be, s, true, r);
    } else {
        let x = put_gamma(s, be, (code - 1) as nat);
        lemma_put_gamma_clean(s, be, (code - 1) as nat);
        lemma_read_put_bit(src, be, x, false, r);
        let (b, r1) = read_bit(src, be, r).unwrap();
        lemma_read_gamma_put_gamma(src, be, s, (code - 1) as nat, r1, zeros + 1);
    }
}

/// An entry keeps the writer's byte clean.
#[verifier::spinoff_prover]
pub proof fn lemma_put_entry_clean(s: WState, be: bool, gt7: bool, v: u8)
    requires
        clean(s, be),
    ensures
        clean(put_entry(s, be, gt7, v), be),
{
    if gt7 {
        lemma_put_bits_clean(s, be, gt7, 1, (v >> 3u8) as nat);
        lemma_put_bits_clean(put_bits(s, be, gt7, 1, (v >> 3u8) as nat), be, gt7, 3, (v & 7u8) as nat);
    } else {
        lemma_put_bits_clean(s, be, gt7, 4, v as nat);
    }
}

/// Reading a width gives back the table entry written.
#[verifier::spinoff_prover]
pub proof fn lemma_read_width_put_entry(src: Seq<u8>, f: Flags, s: WState, v: u8, r: RState)
    requires
        v < 16,
        clean(s, f.be),
        corr(src, f.be, put_entry(s, f.be, f.copy_gt7, v), r),
    ensures
        read_width(src, f, r) matches Some((w, r2)) && w == v && corr(src, f.be, s, r2),
{
    lemma2_to64();
    if f.copy_gt7 {
        let hi = (v >> 3u8) as nat;
        let lo = (v & 7u8) as nat;
        let s1 = put_bits(s, f.be, true, 1, hi);
        lemma_put_bits_clean(s, f.be, true, 1, hi);
        lemma_get_bits_put_bits(src, f, s1, 3, lo, r);
        let (l2, r1) = get_bits(src, f, r, 3).unwrap();
        lemma_get_bits_put_bits(src, f, s, 1, hi, r1);
        assert(v < 16 ==> (v & 7u8) < 8 && (v >> 3u8) < 2 && (v & 7u8) + (v >> 3u8) * 8 == v) by (bit_vector);
    } else {
        lemma_get_bits_put_bits(src, f, s, 4, v as nat, r);
    }
}

/// Writes the widths `ws` so that a reader meets them in order: the last
/// one is written first.
pub open spec fn put_widths(s: WState, be: bool, gt7: bool, ws: Seq<u8>) -> WState
    decreases ws.len(),
{
    if ws.len() == 0 {
        s
    } else {
        put_widths(put_entry(s, be, gt7, ws.last()), be, gt7, ws.drop_last())
    }
}

/// Entries 1 to `k` of a table.
pub open spec fn entries(t: Seq<u8>, k: nat) -> Seq<u8> {
    Seq::new(k, |i: int| table_entry(t, (i + 1) as nat))
}

#[verifier::spinoff_prover]
proof fn lemma_put_table_widths(s: WState, be: bool, gt7: bool, t: Seq<u8>, k: nat)
    ensures
        put_table(s, be, gt7, t, k) == put_widths(s, be, gt7, entries(t, k)),
    decreases k,
{
    if k > 0 {
        let e = entries(t, k);
        assert(e.drop_last() =~= entries(t, (k - 1) as nat));
        assert(e.last() == table_entry(t, k));
        lemma_put_table_widths(put_entry(s, be, gt7, table_entry(t, k)), be, gt7, t, (k - 1) as nat);
    }
}

/// Writing `a + b` is writing `b`, then `a`.
#[verifier::spinoff_prover]
proof fn lemma_put_widths_concat(s: WState, be: bool, gt7: bool, a: Seq<u8>, b: Seq<u8>)
    ensures
        put_widths(s, be, gt7, a + b) == put_widths(put_widths(s, be, gt7, b), be, gt7, a),
    decreases b.len(),
{
    if b.len() == 0 {
        assert(a + b =~= a);
    } else {
        let ab = a + b;
        assert(ab.last() == b.last());
        assert(ab.drop_last() =~= a + b.drop_last());
        lemma_put_widths_concat(put_entry(s, be, gt7, b.last()), be, gt7, a, b.drop_last());
    }
}

#[verifier::spinoff_prover]
proof fn lemma_put_widths_clean(s: WState, be: bool, gt7: bool, ws: Seq<u8>)
    requires
        clean(s, be),
    ensures
        clean(put_widths(s, be, gt7, ws), be),
    decreases ws.len(),
{
    if ws.len() > 0 {
        lemma_put_entry_clean(s, be, gt7, ws.last());
        lemma_put_widths_clean(put_entry(s, be, gt7, ws.last()), be, gt7, ws.drop_last());
    }
}

/// The start of entry `i` of a group of 16: 1 for the first entry of a
/// group, else where the entry before it ends.
pub open spec fn gstart(ws: Seq<u8>, i: nat) -> nat
    decreases i,
{
    if i % 16 == 0 {
        1
    } else {
        gstart(ws, (i - 1) as nat) + pow2(ws[i - 1] as nat)
    }
}

/// The tables that a reader builds from the widths `ws`.
pub open spec fn widths_read(t: DTables, ws: Seq<u8>, i: nat, end: nat, t2: DTables) -> bool {
    &&& t2.bi.len() == t.bi.len()
    &&& t2.base.len() == t.base.len()
    &&& forall|x: int|
        #![trigger t2.bi[x]]
        #![trigger t2.base[x]]
        0 <= x < t.bi.len() && (x < i || x >= end) ==> t2.bi[x] == t.bi[x] && t2.base[x] == t.base[x]
    &&& forall|x: int|
        #![trigger t2.bi[x]]
        #![trigger t2.base[x]]
        i <= x < end ==> t2.bi[x] == ws[x] && t2.base[x] == (gstart(ws, x as nat) % 65536) as u16
}

/// Reading the widths `ws[i..end]` gives the tables that they stand for.
#[verifier::spinoff_prover]
pub proof fn lemma_read_dtables_widths(
    src: Seq<u8>,
    f: Flags,
    s0: WState,
    ws: Seq<u8>,
    i: nat,
    end: nat,
    a: nat,
    b: nat,
    t: DTables,
    r: RState,
)
    requires
        i <= end <= ws.len(),
        end <= t.bi.len(),
        t.bi.len() == t.base.len(),
        forall|x: int| 0 <= x < ws.len() ==> #[trigger] ws[x] < 16,
        i % 16 != 0 ==> a == gstart(ws, (i - 1) as nat) && b == ws[i - 1],
        clean(s0, f.be),
        corr(src, f.be, put_widths(s0, f.be, f.copy_gt7, ws.subrange(i as int, end as int)), r),
    ensures
        read_dtables(src, f, r, i, end, a, b, t) matches Some((t2, r2)) && widths_read(t, ws, i, end, t2) && corr(
            src,
            f.be,
            s0,
            r2,
        ),
    decreases end - i,
{
    let sub = ws.subrange(i as int, end as int);
    if i < end {
        let rest = ws.subrange((i + 1) as int, end as int);
        assert(sub =~= seq![ws[i as int]] + rest);
        lemma_put_widths_concat(s0, f.be, f.copy_gt7, seq![ws[i as int]], rest);
        let x = put_widths(s0, f.be, f.copy_gt7, rest);
        assert(put_widths(x, f.be, f.copy_gt7, seq![ws[i as int]]) == put_entry(x, f.be, f.copy_gt7, ws[i as int])) by {
            let one = seq![ws[i as int]];
            assert(one.drop_last() =~= Seq::<u8>::empty());
            assert(one.last() == ws[i as int]);
            let y = put_entry(x, f.be, f.copy_gt7, ws[i as int]);
            assert(put_widths(y, f.be, f.copy_gt7, Seq::<u8>::empty()) == y);
        }
        lemma_put_widths_clean(s0, f.be, f.copy_gt7, rest);
        lemma_read_width_put_entry(src, f, x, ws[i as int], r);
        let (w, r1) = read_width(src, f, r).unwrap();
        let a2: nat = if i % 16 != 0 {
            a + pow2(b)
        } else {
            1
        };
        assert(a2 == gstart(ws, i));
        let t1 = DTables { bi: t.bi.update(i as int, w as u8), base: t.base.update(i as int, (a2 % 65536) as u16) };
        lemma_read_dtables_widths(src, f, s0, ws, i + 1, end, a2, w, t1, r1);
        let (t2, r2) = read_dtables(src, f, r1, i + 1, end, a2, w, t1).unwrap();
        assert(read_dtables(src, f, r, i, end, a, b, t) == Some((t2, r2)));
        assert forall|x: int| 0 <= x < t.bi.len() && (x < i || x >= end) implies t2.bi[x] == t.bi[x] && t2.base[x]
            == t.base[x] by {
            assert(t2.bi[x] == t1.bi[x]);
        }
        assert forall|x: int| i <= x < end implies t2.bi[x] == ws[x] && t2.base[x] == (gstart(ws, x as nat) % 65536) as u16 by {
            if x == i {
                assert(t2.bi[x] == t1.bi[x] && t2.base[x] == t1.base[x]);
                assert(t1.bi[x] == w as u8);
                assert(t1.base[x] == (a2 % 65536) as u16);
            } else {
                assert(i + 1 <= x < end);
                assert(t2.bi[x] == ws[x]);
            }
        }
    } else {
        assert(sub =~= Seq::<u8>::empty());
        assert(put_widths(s0, f.be, f.copy_gt7, sub) == s0);
    }
}

/// The start of entry `k` of a table: 1 and the sizes of the entries
/// before it.
pub open spec fn istart(t: Seq<u8>, k: nat) -> nat
    decreases k,
{
    if k == 0 {
        1
    } else {
        istart(t, (k - 1) as nat) + pow2(t[k - 1] as nat)
    }
}

/// The interval that the writer finds for a value starts where the table
/// says.
#[verifier::spinoff_prover]
pub proof fn lemma_find_interval_start(t: Seq<u8>, arg: nat, k: nat)
    requires
        k <= t.len(),
    ensures
        find_interval(t, arg, k, istart(t, k)) matches Some((k2, st)) ==> k2 < t.len() && st == istart(t, k2)
            && st <= arg < st + pow2(t[k2 as int] as nat),
    decreases t.len() - k,
{
    if k < t.len() {
        lemma_find_interval_start(t, arg, k + 1);
    }
}

/// Within a group of 16 that holds a table, the reader's starts are the
/// table's.
#[verifier::spinoff_prover]
pub proof fn lemma_gstart_istart(ws: Seq<u8>, g: nat, t: Seq<u8>, j: nat)
    requires
        g % 16 == 0,
        j <= t.len(),
        j < 16,
        g + j <= ws.len(),
        forall|i: int| 0 <= i < j ==> ws[g + i] == t[i],
    ensures
        gstart(ws, g + j) == istart(t, j),
    decreases j,
{
    if j > 0 {
        lemma_gstart_istart(ws, g, t, (j - 1) as nat);
        assert((g + j) % 16 != 0);
        assert(ws[(g + j) - 1] == t[j - 1]);
    }
}

/// The widths of an encoding header in the order that a reader meets
/// them: lengths, then the offset tables from the longest sequences down.
pub open spec fn header_widths(four: bool, tabs: Seq<Seq<u8>>) -> Seq<u8> {
    let last = if four {
        4int
    } else {
        3int
    };
    entries(tabs[0], 16) + (entries(tabs[last], 16) + ((if four {
        entries(tabs[3], 16)
    } else {
        Seq::<u8>::empty()
    }) + (entries(tabs[2], 16) + entries(tabs[1], 4))))
}

/// The header is its widths, written last first.
#[verifier::spinoff_prover]
pub proof fn lemma_put_header_widths(s: WState, be: bool, gt7: bool, four: bool, tabs: Seq<Seq<u8>>)
    ensures
        put_header(s, be, gt7, four, tabs) == put_widths(s, be, gt7, header_widths(four, tabs)),
{
    let last = if four {
        4int
    } else {
        3int
    };
    let e0 = entries(tabs[0], 16);
    let e1 = entries(tabs[1], 4);
    let e2 = entries(tabs[2], 16);
    let e3 = if four {
        entries(tabs[3], 16)
    } else {
        Seq::<u8>::empty()
    };
    let el = entries(tabs[last], 16);
    let s1 = put_table(s, be, gt7, tabs[1], 4);
    lemma_put_table_widths(s, be, gt7, tabs[1], 4);
    let s2 = put_table(s1, be, gt7, tabs[2], 16);
    lemma_put_table_widths(s1, be, gt7, tabs[2], 16);
    lemma_put_widths_concat(s, be, gt7, e2, e1);
    let s3 = if four {
        put_table(s2, be, gt7, tabs[3], 16)
    } else {
        s2
    };
    lemma_put_table_widths(s2, be, gt7, tabs[3], 16);
    lemma_put_widths_concat(s, be, gt7, e3, e2 + e1);
    if !four {
        assert(e3 + (e2 + e1) =~= e2 + e1);
        assert(put_widths(s2, be, gt7, e3) == s2);
    }
    let s4 = put_table(s3, be, gt7, tabs[last], 16);
    lemma_put_table_widths(s3, be, gt7, tabs[last], 16);
    lemma_put_widths_concat(s, be, gt7, el, e3 + (e2 + e1));
    lemma_put_table_widths(s4, be, gt7, tabs[0], 16);
    lemma_put_widths_concat(s, be, gt7, e0, el + (e3 + (e2 + e1)));
}

/// Appending bytes one by one appends them all.
#[verifier::spinoff_prover]
pub proof fn lemma_put_bytes_out(s: WState, data: Seq<u8>, from: nat, n: nat)
    requires
        from + n <= data.len(),
    ensures
        put_bytes(s, data, from, n) == (WState { out: s.out + data.subrange(from as int, (from + n) as int), ..s }),
    decreases n,
{
    if n == 0 {
        assert(s.out + data.subrange(from as int, from as int) =~= s.out);
    } else {
        let s1 = WState { out: s.out.push(data[from as int]), ..s };
        lemma_put_bytes_out(s1, data, from + 1, (n - 1) as nat);
        assert(s1.out + data.subrange((from + 1) as int, (from + n) as int) =~= s.out + data.subrange(from as int, (from + n) as int));
    }
}

/// Bytes appended directly are the next bytes the reader takes, last first.
#[verifier::spinoff_prover]
pub proof fn lemma_read_put_bytes(src: Seq<u8>, be: bool, s: WState, d: Seq<u8>, r: RState)
    requires
        corr(src, be, WState { out: s.out + d, ..s }, r),
    ensures
        r.pos + d.len() <= src.len(),
        src.subrange(r.pos as int, (r.pos + d.len()) as int) == d.reverse(),
        corr(src, be, s, RState { pos: r.pos + d.len(), ..r }),
{
    let s1 = WState { out: s.out + d, ..s };
    let r2 = RState { pos: r.pos + d.len(), ..r };
    assert forall|i: int| 0 <= i < d.len() implies #[trigger] src.subrange(r.pos as int, (r.pos + d.len()) as int)[i]
        == d.reverse()[i] by {
        assert(src[r.pos + i] == s1.out[s1.out.len() - 1 - i]);
    }
    assert(src.subrange(r.pos as int, (r.pos + d.len()) as int) =~= d.reverse());
    assert forall|i: int| 0 <= i < s.out.len() implies #[trigger] src[r2.pos + i] == s.out[s.out.len() - 1 - i] by {
        assert(src[r.pos + (i + d.len())] == s1.out[s1.out.len() - 1 - (i + d.len())]);
    }
}

/// Copying a match forward onto the reversed end of the data gives a
/// longer reversed end when each copied byte equals the one `o` further on.
#[verifier::spinoff_prover]
pub proof fn lemma_copy_forward_rev(d: Seq<u8>, q: nat, o: nat, n: nat)
    requires
        n <= q <= d.len(),
        1 <= o <= d.len() - q,
        forall|i: int| q - n <= i < q ==> #[trigger] d[i] == d[i + o],
    ensures
        copy_forward(d.subrange(q as int, d.len() as int).reverse(), (d.len() - q - o) as nat, n) == d.subrange(
            q - n,
            d.len() as int,
        ).reverse(),
    decreases n,
{
    let nn = d.len();
    let out = d.subrange(q as int, nn as int).reverse();
    if n == 0 {
    } else {
        let from = (nn - q - o) as nat;
        assert(out[from as int] == d[q - 1 + o]);
        assert(d[q - 1] == d[q - 1 + o]);
        let out2 = d.subrange(q - 1, nn as int).reverse();
        assert(out.push(out[from as int]) =~= out2);
        lemma_copy_forward_rev(d, (q - 1) as nat, o, (n - 1) as nat);
        assert(from + 1 == (nn - (q - 1) - o) as nat);
    }
}

/// The tables that the stream writer can use and the reader can read: as
/// many as the proto asks for, 16 entries at most (4 for 1-byte
/// sequences), each below 16.
pub open spec fn tables_fit(p: u8, tabs: Seq<Seq<u8>>) -> bool {
    &&& tabs.len() == (if p & 16 != 0 {
        5int
    } else {
        4int
    })
    &&& tabs[1].len() <= 4
    &&& forall|k: int| 0 <= k < tabs.len() ==> (#[trigger] tabs[k]).len() <= 16
    &&& forall|k: int, e: int| 0 <= k < tabs.len() && 0 <= e < tabs[k].len() ==> #[trigger] tabs[k][e] < 16
}

/// The table whose widths a header holds from entry `g` on.
pub open spec fn group_table(four: bool, g: nat) -> int {
    if g < 16 {
        0
    } else if g < 32 {
        if four {
            4
        } else {
            3
        }
    } else if g < 48 {
        if four {
            3
        } else {
            2
        }
    } else if g < 64 {
        if four {
            2
        } else {
            1
        }
    } else {
        1
    }
}

/// The number of header entries: 52, or 68 with four offset tables.
pub open spec fn header_len(four: bool) -> nat {
    if four {
        68
    } else {
        52
    }
}

/// Each group of a header holds the entries of its table.
#[verifier::spinoff_prover]
pub proof fn lemma_header_widths_at(four: bool, tabs: Seq<Seq<u8>>, x: nat)
    requires
        x < header_len(four),
        tabs.len() == (if four {
            5int
        } else {
            4int
        }),
    ensures
        header_widths(four, tabs).len() == header_len(four),
        header_widths(four, tabs)[x as int] == table_entry(tabs[group_table(four, (x - x % 16) as nat)], (x % 16 + 1) as nat),
{
    let last = if four {
        4int
    } else {
        3int
    };
    let e0 = entries(tabs[0], 16);
    let e1 = entries(tabs[1], 4);
    let e2 = entries(tabs[2], 16);
    let e3 = if four {
        entries(tabs[3], 16)
    } else {
        Seq::<u8>::empty()
    };
    let el = entries(tabs[last], 16);
    let hw = header_widths(four, tabs);
    assert(hw == e0 + (el + (e3 + (e2 + e1))));
    if x < 16 {
        assert(hw[x as int] == e0[x as int]);
    } else if x < 32 {
        assert(hw[x as int] == el[x - 16]);
    } else if four {
        if x < 48 {
            assert(hw[x as int] == e3[x - 32]);
        } else if x < 64 {
            assert(hw[x as int] == e2[x - 48]);
        } else {
            assert(hw[x as int] == e1[x - 64]);
        }
    } else {
        if x < 48 {
            assert(hw[x as int] == e2[x - 32]);
        } else {
            assert(hw[x as int] == e1[x - 48]);
        }
    }
}

/// The tables that a reader builds from the header of `tabs`.
pub open spec fn header_dtables(p: u8, tabs: Seq<Seq<u8>>, t: DTables) -> bool {
    let four = p & 16 != 0;
    let hw = header_widths(four, tabs);
    &&& t.bi.len() == 100
    &&& t.base.len() == 100
    &&& forall|x: int|
        #![trigger t.bi[x]]
        #![trigger t.base[x]]
        0 <= x < header_len(four) ==> t.bi[x] == hw[x] && t.base[x] == (gstart(hw, x as nat) % 65536) as u16
    &&& forall|x: int| header_len(four) <= x < 100 ==> #[trigger] t.bi[x] == 0
}

/// In the header group from entry `g` on stand the entries of its table,
/// and the reader's starts there are the table's.
#[verifier::spinoff_prover]
proof fn lemma_header_group(four: bool, tabs: Seq<Seq<u8>>, g: nat, kk: nat)
    requires
        tabs.len() == (if four {
            5int
        } else {
            4int
        }),
        g % 16 == 0,
        kk < tabs[group_table(four, g)].len(),
        kk < 16,
        g + kk < header_len(four),
    ensures
        header_widths(four, tabs)[(g + kk) as int] == tabs[group_table(four, g)][kk as int],
        gstart(header_widths(four, tabs), g + kk) == istart(tabs[group_table(four, g)], kk),
{
    let tab = tabs[group_table(four, g)];
    let hw = header_widths(four, tabs);
    assert forall|i: int| 0 <= i <= kk implies hw[g + i] == tab[i] by {
        lemma_header_widths_at(four, tabs, (g + i) as nat);
        assert((g + i) % 16 == i);
        assert(((g + i) - (g + i) % 16) as nat == g);
    }
    lemma_gstart_istart(hw, g, tab, kk);
}

/// A value coded with entry `kk` of the table in the header group from
/// entry `g` on reads back as that value.
#[verifier::spinoff_prover]
#[verifier::rlimit(40)]
pub proof fn lemma_read_cooked(
    src: Seq<u8>,
    f: Flags,
    p: u8,
    tabs: Seq<Seq<u8>>,
    t: DTables,
    g: nat,
    kk: nat,
    arg: nat,
    s: WState,
    r: RState,
)
    requires
        f.be == (p & 1 != 0),
        f.copy_gt7 == (p & 2 != 0),
        tables_fit(p, tabs),
        header_dtables(p, tabs, t),
        g % 16 == 0,
        g < header_len(p & 16 != 0),
        kk < tabs[group_table(p & 16 != 0, g)].len(),
        g + kk < header_len(p & 16 != 0),
        istart(tabs[group_table(p & 16 != 0, g)], kk) <= arg < istart(tabs[group_table(p & 16 != 0, g)], kk) + pow2(
            tabs[group_table(p & 16 != 0, g)][kk as int] as nat,
        ),
        arg < 65536,
        clean(s, f.be),
        corr(
            src,
            f.be,
            put_bits(
                s,
                f.be,
                f.copy_gt7,
                tabs[group_table(p & 16 != 0, g)][kk as int] as nat,
                (arg - istart(tabs[group_table(p & 16 != 0, g)], kk)) as nat,
            ),
            r,
        ),
    ensures
        cooked(src, f, r, t, g + kk) matches Some((v, r2)) && v == arg && corr(src, f.be, s, r2),
{
    let four = p & 16 != 0;
    let tab = tabs[group_table(four, g)];
    let hw = header_widths(four, tabs);
    let st = istart(tab, kk);
    lemma_header_group(four, tabs, g, kk);
    assert(t.bi[(g + kk) as int] == tab[kk as int]);
    assert(t.base[(g + kk) as int] == (st % 65536) as u16);
    let width = tab[kk as int] as nat;
    lemma_get_bits_put_bits(src, f, s, width, (arg - st) as nat, r);
    lemma_pow2_pos(width);
    lemma_small_mod((arg - st) as nat, pow2(width));
    lemma_small_mod(st, 65536);
}

/// A coded value keeps the writer's byte clean.
#[verifier::spinoff_prover]
pub proof fn lemma_put_int_clean(s: WState, be: bool, gt7: bool, t: Seq<u8>, arg: nat, gamma: bool, prefix: nat)
    requires
        clean(s, be),
    ensures
        put_int(s, be, gt7, t, arg, gamma, prefix) matches Some(s2) ==> clean(s2, be),
{
    if let Some((k, st)) = find_interval(t, arg, 0, 1) {
        let s1 = put_bits(s, be, gt7, t[k as int] as nat, (arg - st) as nat);
        lemma_put_bits_clean(s, be, gt7, t[k as int] as nat, (arg - st) as nat);
        lemma_put_gamma_clean(s1, be, k);
        lemma_put_bits_clean(s1, be, gt7, prefix, k);
    }
}

/// The reuse state that the reader computes before a sequence.
pub open spec fn next_reuse_state(x: XState) -> nat {
    ((x.reuse_state * 2 + (if x.literal {
        1nat
    } else {
        0nat
    })) % 4) as nat
}

/// One bit is written as itself.
#[verifier::spinoff_prover]
proof fn lemma_put_bits_one(s: WState, be: bool, gt7: bool, v: nat)
    ensures
        put_bits(s, be, gt7, 1, v) == put_bit(s, be, v % 2 == 1),
{
    assert(put_bits(put_bit(s, be, v % 2 == 1), be, gt7, 0, v / 2) == put_bit(s, be, v % 2 == 1));
}

/// What the writer puts down for the offset of a copied sequence: the
/// offset (unless it reuses the latest one, or is a 1-byte copy that the
/// traits leave out), then the reuse bit when there is a latest offset.
pub open spec fn offset_part(s: WState, p: u8, notrait: u8, tabs: Seq<Seq<u8>>, len: nat, offset: nat, latest: nat) -> Option<WState> {
    let be = p & 1 != 0;
    let gt7 = p & 2 != 0;
    let four = p & 16 != 0;
    let sa: Option<WState> = if offset != latest && !(len == 1 && notrait & 2 != 0) {
        let (ti, prefix) = offset_table_of(four, len);
        put_int(s, be, gt7, tabs[ti], offset, false, prefix)
    } else {
        Some(s)
    };
    match sa {
        None => None,
        Some(sa) => Some(
            if latest > 0 {
                put_bits(sa, be, gt7, 1, if offset == latest {
                    1
                } else {
                    0
                })
            } else {
                sa
            },
        ),
    }
}

/// The reader reads back the offset of a copied sequence, or takes the
/// latest offset when the reuse bit says so.
#[verifier::spinoff_prover]
#[verifier::rlimit(40)]
pub proof fn lemma_decode_offset(
    src: Seq<u8>,
    p: u8,
    notrait: u8,
    tabs: Seq<Seq<u8>>,
    t: DTables,
    len: nat,
    offset: nat,
    latest: nat,
    sj: WState,
    r: RState,
    rstate: nat,
    prev: nat,
)
    requires
        tables_fit(p, tabs),
        header_dtables(p, tabs, t),
        1 <= offset <= 65535,
        len >= 1,
        notrait & 2 != 0 ==> len != 1,
        (latest > 0) == (p & 32 != 0 && rstate == 1),
        latest > 0 ==> latest == prev,
        clean(sj, p & 1 != 0),
        offset_part(sj, p, notrait, tabs, len, offset, latest) matches Some(s2) && corr(src, p & 1 != 0, s2, r),
    ensures
        read_offset(src, flags_of(p), t, r, len, rstate, prev) matches Ok((o, r2)) && o == offset && corr(
            src,
            p & 1 != 0,
            sj,
            r2,
        ),
{
    let f = flags_of(p);
    let be = p & 1 != 0;
    let gt7 = p & 2 != 0;
    let four = p & 16 != 0;
    let write_offset = offset != latest;
    let (ti, prefix) = offset_table_of(four, len);
    lemma_put_int_clean(sj, be, gt7, tabs[ti], offset, false, prefix);
    let sa = if write_offset {
        put_int(sj, be, gt7, tabs[ti], offset, false, prefix).unwrap()
    } else {
        sj
    };
    let th: nat = if four {
        4
    } else {
        3
    };
    let kd: nat = ((if len > th {
        th
    } else {
        len
    }) - 1) as nat;
    let (table, width) = offset_table(four, kd);
    assert(group_table(four, table) == ti && width == prefix && table % 16 == 0 && table < header_len(four));
    lemma2_to64();
    let ra = if latest > 0 {
        lemma_get_bits_put_bits(src, f, sa, 1, if offset == latest {
            1
        } else {
            0
        }, r);
        get_bits(src, f, r, 1).unwrap().1
    } else {
        r
    };
    assert(corr(src, be, sa, ra));
    if !write_offset {
        assert(sa == sj);
    } else {
        let tab = tabs[ti];
        lemma_find_interval_start(tab, offset, 0);
        let (kk, st2) = find_interval(tab, offset, 0, 1).unwrap();
        let ob = put_bits(sj, be, gt7, tab[kk as int] as nat, (offset - st2) as nat);
        lemma_put_bits_clean(sj, be, gt7, tab[kk as int] as nat, (offset - st2) as nat);
        assert(sa == put_bits(ob, be, gt7, prefix, kk));
        lemma_get_bits_put_bits(src, f, ob, width, kk, ra);
        assert(kk < pow2(width)) by {
            if ti == 1 {
                assert(tab.len() <= 4);
            }
        }
        lemma_small_mod(kk, pow2(width));
        let (kk2, r6) = get_bits(src, f, ra, width).unwrap();
        assert(kk2 == kk);
        lemma_read_cooked(src, f, p, tabs, t, table, kk, offset, sj, r6);
    }
}

/// The reader decodes a copied sequence that the writer wrote: it reads
/// its flag, length and offset (or the reuse of the latest offset) and
/// copies its bytes, which puts the data from the sequence's start on in
/// front of its output.
#[verifier::spinoff_prover]
#[verifier::rlimit(40)]
pub proof fn lemma_decode_match(
    src: Seq<u8>,
    p: u8,
    notrait: u8,
    tabs: Seq<Seq<u8>>,
    t: DTables,
    data: Seq<u8>,
    it: PathItem,
    sj: WState,
    w: WInfo,
    last: bool,
    x: XState,
)
    requires
        tables_fit(p, tabs),
        header_dtables(p, tabs, t),
        it.offset != 0,
        it.len >= 1,
        it.offset <= 65535,
        notrait & 2 != 0 ==> it.len != 1,
        it.index + it.len + it.offset <= data.len(),
        forall|i: int| it.index <= i < it.index + it.len ==> #[trigger] data[i] == data[i + it.offset],
        clean(sj, p & 1 != 0),
        put_item(sj, w, p, notrait, tabs, data, it, last) is Some,
        corr(src, p & 1 != 0, put_item(sj, w, p, notrait, tabs, data, it, last).unwrap().0, x.rs),
        !x.lit_next,
        x.out == data.subrange(it.index + it.len, data.len() as int).reverse(),
        (it.latest_offset > 0) == (p & 32 != 0 && next_reuse_state(x) == 1),
        it.latest_offset > 0 ==> it.latest_offset == x.offset,
    ensures
        xstep(src, flags_of(p), t, x) matches XStep::Next(x2) && x2.out == data.subrange(it.index as int, data.len() as int).reverse()
            && corr(src, p & 1 != 0, sj, x2.rs) && !x2.literal && x2.reuse_state == next_reuse_state(x) && x2.offset
            == it.offset && !x2.lit_next,
        common_step(src, flags_of(p), t, x),
{
    let f = flags_of(p);
    let be = p & 1 != 0;
    let gt7 = p & 2 != 0;
    let len = it.len as nat;
    let offset = it.offset as nat;
    let latest = it.latest_offset as nat;
    let rstate = next_reuse_state(x);
    assert(put_match(sj, p, notrait, tabs, len, offset, latest) == (match offset_part(
        sj,
        p,
        notrait,
        tabs,
        len,
        offset,
        latest,
    ) {
        None => None,
        Some(s2) => put_int(s2, be, gt7, tabs[0], len, true, 0),
    }));
    let s2 = offset_part(sj, p, notrait, tabs, len, offset, latest).unwrap();
    let s1 = put_int(s2, be, gt7, tabs[0], len, true, 0).unwrap();
    assert(put_item(sj, w, p, notrait, tabs, data, it, last).unwrap().0 == put_bits(s1, be, gt7, 1, 0));
    // cleanliness
    let (ti, prefix) = offset_table_of(p & 16 != 0, len);
    lemma_put_int_clean(sj, be, gt7, tabs[ti], offset, false, prefix);
    if offset != latest && !(len == 1 && notrait & 2 != 0) {
        let sa = put_int(sj, be, gt7, tabs[ti], offset, false, prefix).unwrap();
        lemma_put_bits_clean(sa, be, gt7, 1, 0);
    } else {
        lemma_put_bits_clean(sj, be, gt7, 1, 1);
    }
    assert(clean(s2, be));
    lemma_put_int_clean(s2, be, gt7, tabs[0], len, true, 0);
    // the flag
    lemma_put_bits_one(s1, be, gt7, 0);
    lemma_read_put_bit(src, be, s1, false, x.rs);
    let (b0, r2) = read_bit(src, be, x.rs).unwrap();
    // the length
    lemma_find_interval_start(tabs[0], len, 0);
    let (k, st) = find_interval(tabs[0], len, 0, 1).unwrap();
    let bb = put_bits(s2, be, gt7, tabs[0][k as int] as nat, (len - st) as nat);
    lemma_put_bits_clean(s2, be, gt7, tabs[0][k as int] as nat, (len - st) as nat);
    assert(s1 == put_gamma(bb, be, k));
    lemma_read_gamma_put_gamma(src, be, bb, k, r2, 0);
    let (val, r3) = read_gamma(src, be, r2, 0).unwrap();
    assert(val == k && k < 16);
    assert(group_table(p & 16 != 0, 0) == 0);
    lemma_read_cooked(src, f, p, tabs, t, 0, k, len, s2, r3);
    let (len2, r4) = cooked(src, f, r3, t, k).unwrap();
    assert(len2 == len);
    // the offset
    lemma_decode_offset(src, p, notrait, tabs, t, len, offset, latest, sj, r4, rstate, x.offset);
    let (o2, r_end) = read_offset(src, f, t, r4, len, rstate, x.offset).unwrap();
    assert(xcommand(src, f, t, x) == XCmd::Match { len, offset, rs: r_end, reuse_state: rstate });
    // the copy
    let n = data.len();
    let q = (it.index + it.len) as nat;
    lemma_copy_forward_rev(data, q, offset, len);
    assert(copy_count(len) == len);
    assert(x.out.len() == n - q);
}

/// The reversed end of the data from `a` on is the reversed end from
/// `a + m` on followed by the reversed `m` bytes from `a` on.
#[verifier::spinoff_prover]
pub proof fn lemma_reverse_split(d: Seq<u8>, a: nat, m: nat)
    requires
        a + m <= d.len(),
    ensures
        d.subrange(a as int, d.len() as int).reverse() == d.subrange((a + m) as int, d.len() as int).reverse() + d.subrange(
            a as int,
            (a + m) as int,
        ).reverse(),
{
    let lhs = d.subrange(a as int, d.len() as int).reverse();
    let rhs = d.subrange((a + m) as int, d.len() as int).reverse() + d.subrange(a as int, (a + m) as int).reverse();
    assert(lhs.len() == rhs.len());
    assert forall|i: int| 0 <= i < lhs.len() implies lhs[i] == rhs[i] by {
        let k = d.len() - (a + m);
        if i < k {
            assert(rhs[i] == d.subrange((a + m) as int, d.len() as int).reverse()[i]);
        } else {
            assert(rhs[i] == d.subrange(a as int, (a + m) as int).reverse()[i - k]);
        }
    }
    assert(lhs =~= rhs);
}

/// The reader decodes a literal byte that has no flag bit before it.
#[verifier::spinoff_prover]
pub proof fn lemma_decode_byte_unflagged(src: Seq<u8>, p: u8, t: DTables, data: Seq<u8>, idx: nat, sj: WState, x: XState)
    requires
        idx < data.len(),
        corr(src, p & 1 != 0, put_bytes(sj, data, idx, 1), x.rs),
        x.lit_next,
        x.out == data.subrange((idx + 1) as int, data.len() as int).reverse(),
    ensures
        xstep(src, flags_of(p), t, x) matches XStep::Next(x2) && x2.out == data.subrange(idx as int, data.len() as int).reverse()
            && corr(src, p & 1 != 0, sj, x2.rs) && x2.literal && x2.reuse_state == x.reuse_state && x2.offset
            == x.offset && !x2.lit_next,
        common_step(src, flags_of(p), t, x),
{
    let be = p & 1 != 0;
    lemma_put_bytes_out(sj, data, idx, 1);
    lemma_read_put_bytes(src, be, sj, data.subrange(idx as int, (idx + 1) as int), x.rs);
    lemma_reverse_split(data, idx, 1);
    assert(copy_count(1) == 1);
}

/// The reader decodes a literal byte behind a 1 flag bit.
#[verifier::spinoff_prover]
pub proof fn lemma_decode_byte_flagged(src: Seq<u8>, p: u8, t: DTables, data: Seq<u8>, idx: nat, sj: WState, x: XState)
    requires
        idx < data.len(),
        clean(sj, p & 1 != 0),
        corr(src, p & 1 != 0, put_bits(put_bytes(sj, data, idx, 1), p & 1 != 0, p & 2 != 0, 1, 1), x.rs),
        !x.lit_next,
        x.out == data.subrange((idx + 1) as int, data.len() as int).reverse(),
    ensures
        xstep(src, flags_of(p), t, x) matches XStep::Next(x2) && x2.out == data.subrange(idx as int, data.len() as int).reverse()
            && corr(src, p & 1 != 0, sj, x2.rs) && x2.literal && x2.reuse_state == next_reuse_state(x) && x2.offset
            == x.offset && !x2.lit_next,
        common_step(src, flags_of(p), t, x),
{
    let be = p & 1 != 0;
    let gt7 = p & 2 != 0;
    let sb = put_bytes(sj, data, idx, 1);
    lemma_put_bytes_out(sj, data, idx, 1);
    lemma_put_bits_one(sb, be, gt7, 1);
    lemma_read_put_bit(src, be, sb, true, x.rs);
    let (b, r2) = read_bit(src, be, x.rs).unwrap();
    lemma_read_put_bytes(src, be, sj, data.subrange(idx as int, (idx + 1) as int), r2);
    lemma_reverse_split(data, idx, 1);
    assert(copy_count(1) == 1);
}

/// The reader decodes a run of `m` literal bytes: a 0 flag bit, gamma code
/// 17, the count in 16 bits, then the bytes.
#[verifier::spinoff_prover]
pub proof fn lemma_decode_run(src: Seq<u8>, p: u8, t: DTables, data: Seq<u8>, idx: nat, m: nat, sj: WState, x: XState)
    requires
        1 <= m < 65536,
        idx + m <= data.len(),
        clean(sj, p & 1 != 0),
        corr(
            src,
            p & 1 != 0,
            put_bits(
                put_gamma(put_bits(put_bytes(sj, data, idx, m), p & 1 != 0, p & 2 != 0, 16, m), p & 1 != 0, 17),
                p & 1 != 0,
                p & 2 != 0,
                1,
                0,
            ),
            x.rs,
        ),
        !x.lit_next,
        x.out == data.subrange((idx + m) as int, data.len() as int).reverse(),
    ensures
        xstep(src, flags_of(p), t, x) matches XStep::Next(x2) && x2.out == data.subrange(idx as int, data.len() as int).reverse()
            && corr(src, p & 1 != 0, sj, x2.rs) && x2.literal && x2.reuse_state == next_reuse_state(x) && x2.offset
            == x.offset && !x2.lit_next,
        common_step(src, flags_of(p), t, x),
{
    let f = flags_of(p);
    let be = p & 1 != 0;
    let gt7 = p & 2 != 0;
    let sb = put_bytes(sj, data, idx, m);
    lemma_put_bytes_out(sj, data, idx, m);
    let sc = put_bits(sb, be, gt7, 16, m);
    let sd = put_gamma(sc, be, 17);
    lemma_put_bits_clean(sb, be, gt7, 16, m);
    lemma_put_gamma_clean(sc, be, 17);
    lemma_put_bits_one(sd, be, gt7, 0);
    lemma_read_put_bit(src, be, sd, false, x.rs);
    let (b, r2) = read_bit(src, be, x.rs).unwrap();
    lemma_read_gamma_put_gamma(src, be, sc, 17, r2, 0);
    let (g, r3) = read_gamma(src, be, r2, 0).unwrap();
    lemma_get_bits_put_bits(src, f, sb, 16, m, r3);
    lemma2_to64();
    lemma_small_mod(m, pow2(16));
    let (m2, r4) = get_bits(src, f, r3, 16).unwrap();
    assert(m2 == m);
    lemma_read_put_bytes(src, be, sj, data.subrange(idx as int, (idx + m) as int), r4);
    lemma_reverse_split(data, idx, m);
    assert(copy_count(m) == m);
}

/// The sequences of a path follow one another through the whole data,
/// each at least one byte long.
pub open spec fn path_covers(data: Seq<u8>, items: Seq<PathItem>) -> bool {
    let n = items.len();
    &&& (n == 0 ==> data.len() == 0)
    &&& (n > 0 ==> items[0].index == 0)
    &&& forall|k: int|
        0 <= k < n ==> (#[trigger] items[k]).len >= 1 && items[k].index + items[k].len <= data.len() && items[k].index
            + items[k].len == (if k + 1 < n {
            items[k + 1].index as int
        } else {
            data.len() as int
        })
}

/// Each copied sequence copies bytes equal to its own, from further on in
/// the data.
pub open spec fn path_genuine(data: Seq<u8>, items: Seq<PathItem>) -> bool {
    &&& forall|k: int|
        0 <= k < items.len() && (#[trigger] items[k]).offset != 0 ==> items[k].index + items[k].len + items[k].offset
            <= data.len()
    &&& forall|k: int, i: int|
        #![trigger items[k], data[i]]
        0 <= k < items.len() && items[k].offset != 0 && items[k].index <= i < items[k].index + items[k].len ==> data[i]
            == data[i + items[k].offset]
}

/// Whether the last sequence the reader decoded was literal, and its reuse
/// state, once it has decoded the sequences from `j` to the end.
pub open spec fn dec_after(p: u8, items: Seq<PathItem>, j: nat) -> (bool, nat)
    decreases items.len() - j,
{
    if j >= items.len() {
        (true, 1)
    } else {
        let (lit, rs) = dec_after(p, items, j + 1);
        if p & 4 != 0 && j + 1 == items.len() && items[j as int].offset == 0 && items[j as int].len == 1 {
            (true, rs)
        } else {
            (items[j as int].offset == 0, ((rs * 2 + (if lit {
                1nat
            } else {
                0nat
            })) % 4) as nat)
        }
    }
}

/// The reuse state the reader computes before the sequence in front of `j`:
/// 1 when it may reuse the latest offset.
pub open spec fn reuse_expected(p: u8, items: Seq<PathItem>, j: nat) -> nat {
    let (lit, rs) = dec_after(p, items, j);
    ((rs * 2 + (if lit {
        1nat
    } else {
        0nat
    })) % 4) as nat
}

/// The offset of the nearest copied sequence from `j` on, 0 if none.
pub open spec fn prev_match_offset(items: Seq<PathItem>, j: nat) -> nat
    decreases items.len() - j,
{
    if j >= items.len() {
        0
    } else if items[j as int].offset != 0 {
        items[j as int].offset as nat
    } else {
        prev_match_offset(items, j + 1)
    }
}

/// The sequences suit the proto: with `Impl1Literal` the data ends with a
/// literal; offsets fit 16 bits; 1-byte copies only where the traits allow
/// them; and each copy notes the latest offset exactly where the reader
/// looks for a reuse bit (after a literal that follows a copy, with
/// `ReuseOffset`), and then the offset of that copy.
pub open spec fn path_fits(p: u8, notrait: u8, items: Seq<PathItem>) -> bool {
    let n = items.len();
    &&& (p & 4 != 0 ==> n >= 1 && items[n - 1].offset == 0)
    &&& forall|k: int|
        0 <= k < n && (#[trigger] items[k]).offset != 0 ==> {
            &&& items[k].offset <= 65535
            &&& (notrait & 2 != 0 ==> items[k].len != 1)
            &&& (items[k].latest_offset > 0) == (p & 32 != 0 && reuse_expected(p, items, (k + 1) as nat) == 1)
            &&& (items[k].latest_offset > 0 ==> items[k].latest_offset == prev_match_offset(items, (k + 1) as nat))
        }
}

/// The writer's state after the sequences before `j`.
pub open spec fn written(
    s0: WState,
    w0: WInfo,
    p: u8,
    notrait: u8,
    tabs: Seq<Seq<u8>>,
    data: Seq<u8>,
    items: Seq<PathItem>,
    j: nat,
) -> Option<(WState, WInfo)>
    decreases j,
{
    if j == 0 {
        Some((s0, w0))
    } else {
        match written(s0, w0, p, notrait, tabs, data, items, (j - 1) as nat) {
            None => None,
            Some((s, w)) => put_item(s, w, p, notrait, tabs, data, items[j - 1], j == items.len()),
        }
    }
}

/// Writing the remaining sequences from the state after the first `j`.
#[verifier::spinoff_prover]
proof fn lemma_put_items_written(
    s0: WState,
    w0: WInfo,
    p: u8,
    notrait: u8,
    tabs: Seq<Seq<u8>>,
    data: Seq<u8>,
    items: Seq<PathItem>,
    j: nat,
)
    requires
        j <= items.len(),
    ensures
        match written(s0, w0, p, notrait, tabs, data, items, j) {
            Some((s, w)) => put_items(s, w, p, notrait, tabs, data, items, j) == written(
                s0,
                w0,
                p,
                notrait,
                tabs,
                data,
                items,
                items.len(),
            ),
            None => written(s0, w0, p, notrait, tabs, data, items, items.len()) is None,
        },
    decreases items.len() - j,
{
    if j < items.len() {
        lemma_put_items_written(s0, w0, p, notrait, tabs, data, items, j + 1);
    }
}

/// A state is written only when the ones before it are.
#[verifier::spinoff_prover]
proof fn lemma_written_prefix(
    s0: WState,
    w0: WInfo,
    p: u8,
    notrait: u8,
    tabs: Seq<Seq<u8>>,
    data: Seq<u8>,
    items: Seq<PathItem>,
    j: nat,
    m: nat,
)
    requires
        j <= m,
        written(s0, w0, p, notrait, tabs, data, items, m) is Some,
    ensures
        written(s0, w0, p, notrait, tabs, data, items, j) is Some,
    decreases m - j,
{
    if j < m {
        lemma_written_prefix(s0, w0, p, notrait, tabs, data, items, j + 1, m);
    }
}

/// Bytes keep the writer's byte clean.
#[verifier::spinoff_prover]
proof fn lemma_put_bytes_clean(s: WState, be: bool, data: Seq<u8>, from: nat, n: nat)
    requires
        clean(s, be),
        from + n <= data.len(),
    ensures
        clean(put_bytes(s, data, from, n), be),
{
    lemma_put_bytes_out(s, data, from, n);
}

/// A sequence keeps the writer's byte clean.
#[verifier::spinoff_prover]
proof fn lemma_put_item_clean(s: WState, w: WInfo, p: u8, notrait: u8, tabs: Seq<Seq<u8>>, data: Seq<u8>, it: PathItem, last: bool)
    requires
        clean(s, p & 1 != 0),
    ensures
        put_item(s, w, p, notrait, tabs, data, it, last) matches Some((s2, w2)) ==> clean(s2, p & 1 != 0),
{
    let be = p & 1 != 0;
    let gt7 = p & 2 != 0;
    let four = p & 16 != 0;
    let len = it.len as nat;
    if len > 0 && it.index + len <= data.len() {
        if it.offset == 0 {
            let split = last && p & 4 != 0;
            let n: nat = if split {
                (len - 1) as nat
            } else {
                len
            };
            if len > 1 {
                let sb = put_bytes(s, data, it.index as nat, n);
                lemma_put_bytes_clean(s, be, data, it.index as nat, n);
                lemma_put_bits_clean(sb, be, gt7, 16, n);
                let sc = put_bits(sb, be, gt7, 16, n);
                lemma_put_gamma_clean(sc, be, 17);
                let s1 = put_bits(put_gamma(sc, be, 17), be, gt7, 1, 0);
                lemma_put_bits_clean(put_gamma(sc, be, 17), be, gt7, 1, 0);
                if n < len {
                    lemma_put_bytes_clean(s1, be, data, (it.index + n) as nat, 1);
                }
            } else {
                lemma_put_bytes_clean(s, be, data, it.index as nat, 1);
                lemma_put_bits_clean(put_bytes(s, data, it.index as nat, 1), be, gt7, 1, 1);
            }
        }
    }
    if it.offset != 0 && len > 0 {
        let offset = it.offset as nat;
        let latest = it.latest_offset as nat;
        let (ti, prefix) = offset_table_of(four, len);
        lemma_put_int_clean(s, be, gt7, tabs[ti], offset, false, prefix);
        let sa = if offset != latest && !(len == 1 && notrait & 2 != 0) {
            put_int(s, be, gt7, tabs[ti], offset, false, prefix)
        } else {
            Some(s)
        };
        if let Some(sa) = sa {
            lemma_put_bits_clean(sa, be, gt7, 1, if offset == latest {
                1
            } else {
                0
            });
            let s2 = if latest > 0 {
                put_bits(sa, be, gt7, 1, if offset == latest {
                    1
                } else {
                    0
                })
            } else {
                sa
            };
            lemma_put_int_clean(s2, be, gt7, tabs[0], len, true, 0);
            if let Some(s3) = put_int(s2, be, gt7, tabs[0], len, true, 0) {
                lemma_put_bits_clean(s3, be, gt7, 1, 0);
            }
        }
    }
}

/// Every written state is clean.
#[verifier::spinoff_prover]
proof fn lemma_written_clean(
    s0: WState,
    w0: WInfo,
    p: u8,
    notrait: u8,
    tabs: Seq<Seq<u8>>,
    data: Seq<u8>,
    items: Seq<PathItem>,
    j: nat,
)
    requires
        clean(s0, p & 1 != 0),
    ensures
        written(s0, w0, p, notrait, tabs, data, items, j) matches Some((s, w)) ==> clean(s, p & 1 != 0),
    decreases j,
{
    if j > 0 {
        lemma_written_clean(s0, w0, p, notrait, tabs, data, items, (j - 1) as nat);
        if let Some((s, w)) = written(s0, w0, p, notrait, tabs, data, items, (j - 1) as nat) {
            lemma_put_item_clean(s, w, p, notrait, tabs, data, items[j - 1], j == items.len());
        }
    }
}

/// The latest offset stays within 16 bits.
#[verifier::spinoff_prover]
proof fn lemma_prev_match_offset_small(p: u8, notrait: u8, items: Seq<PathItem>, j: nat)
    requires
        path_fits(p, notrait, items),
    ensures
        prev_match_offset(items, j) <= 65535,
    decreases items.len() - j,
{
    if j < items.len() {
        assert(items[j as int] == items[j as int]);
        lemma_prev_match_offset_small(p, notrait, items, j + 1);
    }
}

/// Where the sequence `j` starts: the end of the data past the last one.
pub open spec fn item_pos(data: Seq<u8>, items: Seq<PathItem>, j: nat) -> nat {
    if j < items.len() {
        items[j as int].index as nat
    } else {
        data.len()
    }
}

/// The tables read from a header that fits are well formed.
#[verifier::spinoff_prover]
proof fn lemma_header_dtables_wf(p: u8, tabs: Seq<Seq<u8>>, t: DTables)
    requires
        tables_fit(p, tabs),
        header_dtables(p, tabs, t),
    ensures
        dtables_wf(t),
{
    let four = p & 16 != 0;
    assert forall|i: int| 0 <= i < 100 implies t.bi[i] < 16 by {
        if i < header_len(four) {
            lemma_header_widths_at(four, tabs, i as nat);
            let tab = tabs[group_table(four, (i - i % 16) as nat)];
            let k = (i % 16 + 1) as nat;
            if 1 <= k <= tab.len() {
                assert(tab[k - 1] < 16);
            }
        }
    }
}

/// The end marker: a 0 flag bit and gamma code 16.
pub open spec fn end_marker(sz: WState, be: bool, gt7: bool) -> WState {
    put_bits(put_gamma(sz, be, 16), be, gt7, 1, 0)
}

/// What the reader knows of sequence `k` of a path that fits: its length,
/// where it ends, that its copies are genuine, and its reuse bit.
pub open spec fn item_ok(p: u8, notrait: u8, data: Seq<u8>, items: Seq<PathItem>, k: nat) -> bool {
    let it = items[k as int];
    let j = k + 1;
    &&& k < items.len()
    &&& it.len >= 1
    &&& it.index + it.len <= data.len()
    &&& it.index + it.len == item_pos(data, items, j)
    &&& (p & 4 != 0 && j == items.len() ==> it.offset == 0)
    &&& it.offset != 0 ==> {
        &&& it.offset <= 65535
        &&& (notrait & 2 != 0 ==> it.len != 1)
        &&& (it.latest_offset > 0) == (p & 32 != 0 && reuse_expected(p, items, j) == 1)
        &&& (it.latest_offset > 0 ==> it.latest_offset == prev_match_offset(items, j))
        &&& it.index + it.len + it.offset <= data.len()
        &&& forall|i: int| it.index <= i < it.index + it.len ==> #[trigger] data[i] == data[i + it.offset]
    }
}

/// The reader's state once it has decoded the sequences from `j` on, with
/// `s` the writer's state before them.
pub open spec fn decoded_from(src: Seq<u8>, p: u8, data: Seq<u8>, items: Seq<PathItem>, j: nat, s: WState, x: XState) -> bool {
    &&& corr(src, p & 1 != 0, s, x.rs)
    &&& x.out == data.subrange(item_pos(data, items, j) as int, data.len() as int).reverse()
    &&& x.literal == dec_after(p, items, j).0
    &&& x.reuse_state == dec_after(p, items, j).1
    &&& x.offset == prev_match_offset(items, j)
    &&& x.offset <= 65535
    &&& x.lit_next == (p & 4 != 0 && j == items.len())
}

/// The reader decodes sequence `k`, in one step or two.
#[verifier::spinoff_prover]
#[verifier::rlimit(60)]
proof fn lemma_item_step(
    src: Seq<u8>,
    p: u8,
    notrait: u8,
    tabs: Seq<Seq<u8>>,
    t: DTables,
    data: Seq<u8>,
    items: Seq<PathItem>,
    sk: WState,
    wk: WInfo,
    k: nat,
    x: XState,
) -> (x2: XState)
    requires
        tables_fit(p, tabs),
        header_dtables(p, tabs, t),
        dtables_wf(t),
        item_ok(p, notrait, data, items, k),
        prev_match_offset(items, k) <= 65535,
        clean(sk, p & 1 != 0),
        put_item(sk, wk, p, notrait, tabs, data, items[k as int], k + 1 == items.len()) matches Some((sj, wj))
            && decoded_from(src, p, data, items, k + 1, sj, x),
    ensures
        xrun(src, flags_of(p), t, x) == xrun(src, flags_of(p), t, x2),
        common_run(src, flags_of(p), t, x2) ==> common_run(src, flags_of(p), t, x),
        decoded_from(src, p, data, items, k, sk, x2),
{
    let f = flags_of(p);
    let be = p & 1 != 0;
    let gt7 = p & 2 != 0;
    let n = items.len();
    let j = k + 1;
    let it = items[k as int];
    let last = j == n;
    let (sj, wj) = put_item(sk, wk, p, notrait, tabs, data, it, last).unwrap();
    let idx = it.index as nat;
    let len = it.len as nat;
    assert(item_pos(data, items, k) == it.index);
    assert(xstate_wf(src, x));
    if it.offset != 0 {
        assert(next_reuse_state(x) == reuse_expected(p, items, j));
        lemma_decode_match(src, p, notrait, tabs, t, data, it, sk, wk, last, x);
        let x2 = match xstep(src, f, t, x) {
            XStep::Next(x2) => x2,
            XStep::Done(_) => x,
        };
        x2
    } else if len == 1 {
        if last && p & 4 != 0 {
            assert(sj == put_bytes(sk, data, idx, 1));
            lemma_decode_byte_unflagged(src, p, t, data, idx, sk, x);
            let x2 = match xstep(src, f, t, x) {
                XStep::Next(x2) => x2,
                XStep::Done(_) => x,
            };
            x2
        } else {
            assert(sj == put_bits(put_bytes(sk, data, idx, 1), be, gt7, 1, 1));
            lemma_decode_byte_flagged(src, p, t, data, idx, sk, x);
            let x2 = match xstep(src, f, t, x) {
                XStep::Next(x2) => x2,
                XStep::Done(_) => x,
            };
            x2
        }
    } else {
        if last && p & 4 != 0 {
            let m = (len - 1) as nat;
            let s1 = put_bits(put_gamma(put_bits(put_bytes(sk, data, idx, m), be, gt7, 16, m), be, 17), be, gt7, 1, 0);
            assert(sj == put_bytes(s1, data, idx + m, 1));
            lemma_put_bytes_clean(sk, be, data, idx, m);
            lemma_put_bits_clean(put_bytes(sk, data, idx, m), be, gt7, 16, m);
            lemma_put_gamma_clean(put_bits(put_bytes(sk, data, idx, m), be, gt7, 16, m), be, 17);
            lemma_decode_byte_unflagged(src, p, t, data, idx + m, s1, x);
            let x1 = match xstep(src, f, t, x) {
                XStep::Next(x2) => x2,
                XStep::Done(_) => x,
            };
            lemma_decode_run(src, p, t, data, idx, m, sk, x1);
            let x2 = match xstep(src, f, t, x1) {
                XStep::Next(x2) => x2,
                XStep::Done(_) => x1,
            };
            assert(xstate_wf(src, x1));
            assert(xrun(src, f, t, x1) == xrun(src, f, t, x2));
            assert(common_run(src, f, t, x2) ==> common_run(src, f, t, x1));
            x2
        } else {
            assert(sj == put_bits(put_gamma(put_bits(put_bytes(sk, data, idx, len), be, gt7, 16, len), be, 17), be, gt7, 1, 0));
            lemma_decode_run(src, p, t, data, idx, len, sk, x);
            let x2 = match xstep(src, f, t, x) {
                XStep::Next(x2) => x2,
                XStep::Done(_) => x,
            };
            x2
        }
    }
}

/// Each sequence of a path that covers the data, is genuine and fits the
/// proto is what the reader expects.
#[verifier::spinoff_prover]
#[verifier::rlimit(60)]
proof fn lemma_items_ok(p: u8, notrait: u8, data: Seq<u8>, items: Seq<PathItem>, k: nat)
    requires
        path_covers(data, items),
        path_genuine(data, items),
        path_fits(p, notrait, items),
        k < items.len(),
    ensures
        item_ok(p, notrait, data, items, k),
{
    let it = items[k as int];
    let n = items.len();
    assert(it.len >= 1 && it.index + it.len <= data.len() && it.index + it.len == (if k + 1 < n {
        items[(k + 1) as int].index as int
    } else {
        data.len() as int
    }));
    if it.offset != 0 {
        assert(it.offset <= 65535);
        assert(it.index + it.len + it.offset <= data.len());
        assert forall|i: int| it.index <= i < it.index + it.len implies #[trigger] data[i] == data[i + it.offset] by {
            assert(items[k as int] == it);
        }
    }
    if p & 4 != 0 && k + 1 == n {
        assert(items[n - 1].offset == 0);
    }
}

/// From the state after the sequences before `j`, the reader decodes the
/// whole data, reversed.
#[verifier::spinoff_prover]
#[verifier::rlimit(60)]
proof fn lemma_run_items(
    src: Seq<u8>,
    p: u8,
    notrait: u8,
    tabs: Seq<Seq<u8>>,
    t: DTables,
    data: Seq<u8>,
    items: Seq<PathItem>,
    sz: WState,
    w0: WInfo,
    j: nat,
    x: XState,
)
    requires
        tables_fit(p, tabs),
        header_dtables(p, tabs, t),
        path_covers(data, items),
        path_genuine(data, items),
        path_fits(p, notrait, items),
        j <= items.len(),
        clean(sz, p & 1 != 0),
        written(end_marker(sz, p & 1 != 0, p & 2 != 0), w0, p, notrait, tabs, data, items, items.len()) is Some,
        written(end_marker(sz, p & 1 != 0, p & 2 != 0), w0, p, notrait, tabs, data, items, j) matches Some((sj, wj))
            && decoded_from(src, p, data, items, j, sj, x),
        sz.out.len() == 0,
    ensures
        xrun(src, flags_of(p), t, x) == Ok::<Seq<u8>, crate::simple::DecrunchError>(data.reverse()),
        common_run(src, flags_of(p), t, x),
    decreases j,
{
    let f = flags_of(p);
    let be = p & 1 != 0;
    let gt7 = p & 2 != 0;
    let n = items.len();
    let s0 = end_marker(sz, be, gt7);
    lemma_header_dtables_wf(p, tabs, t);
    lemma_put_gamma_clean(sz, be, 16);
    lemma_put_bits_clean(put_gamma(sz, be, 16), be, gt7, 1, 0);
    if j == 0 {
        let g = put_gamma(sz, be, 16);
        lemma_put_bits_one(g, be, gt7, 0);
        lemma_read_put_bit(src, be, g, false, x.rs);
        let (b, r2) = read_bit(src, be, x.rs).unwrap();
        lemma_read_gamma_put_gamma(src, be, sz, 16, r2, 0);
        assert(!x.lit_next);
        assert(xstate_wf(src, x));
        assert(xcommand(src, f, t, x) == XCmd::End);
        assert(end_read(src, f, x) == Some(read_gamma(src, be, r2, 0).unwrap().1));
        assert(common_step(src, f, t, x));
        assert(item_pos(data, items, 0) == 0);
        assert(data.subrange(0, data.len() as int) =~= data);
    } else {
        let k = (j - 1) as nat;
        lemma_written_prefix(s0, w0, p, notrait, tabs, data, items, k, n);
        let (sk, wk) = written(s0, w0, p, notrait, tabs, data, items, k).unwrap();
        lemma_written_clean(s0, w0, p, notrait, tabs, data, items, k);
        lemma_items_ok(p, notrait, data, items, k);
        lemma_prev_match_offset_small(p, notrait, items, k);
        let x2 = lemma_item_step(src, p, notrait, tabs, t, data, items, sk, wk, k, x);
        lemma_run_items(src, p, notrait, tabs, t, data, items, sz, w0, k, x2);
    }
}

/// Two writer states whose pending bit counts differ by `d` (modulo 8).
pub open spec fn shifted(a: WState, b: WState, d: nat) -> bool {
    &&& a.bitcount < 8
    &&& b.bitcount < 8
    &&& (a.bitcount + d) % 8 == b.bitcount
}

#[verifier::spinoff_prover]
proof fn lemma_shift_put_bits(a: WState, b: WState, d: nat, be: bool, gt7: bool, n: nat, v: nat, u: nat)
    requires
        shifted(a, b, d),
    ensures
        shifted(put_bits(a, be, gt7, n, v), put_bits(b, be, gt7, n, u), d),
    decreases n,
{
    if gt7 && n > 7 {
        lemma_shift_put_bits(
            WState { out: a.out.push((v % 256) as u8), ..a },
            WState { out: b.out.push((u % 256) as u8), ..b },
            d,
            be,
            gt7,
            (n - 8) as nat,
            v / 256,
            u / 256,
        );
    } else if n > 0 {
        lemma_shift_put_bits(put_bit(a, be, v % 2 == 1), put_bit(b, be, u % 2 == 1), d, be, gt7, (n - 1) as nat, v / 2, u / 2);
    }
}

#[verifier::spinoff_prover]
proof fn lemma_shift_put_gamma(a: WState, b: WState, d: nat, be: bool, code: nat)
    requires
        shifted(a, b, d),
    ensures
        shifted(put_gamma(a, be, code), put_gamma(b, be, code), d),
    decreases code,
{
    if code > 0 {
        lemma_shift_put_gamma(a, b, d, be, (code - 1) as nat);
    }
}

#[verifier::spinoff_prover]
proof fn lemma_shift_put_bytes(a: WState, b: WState, d: nat, data: Seq<u8>, from: nat, n: nat)
    requires
        shifted(a, b, d),
    ensures
        shifted(put_bytes(a, data, from, n), put_bytes(b, data, from, n), d),
    decreases n,
{
    if n > 0 {
        lemma_shift_put_bytes(
            WState { out: a.out.push(data[from as int]), ..a },
            WState { out: b.out.push(data[from as int]), ..b },
            d,
            data,
            from + 1,
            (n - 1) as nat,
        );
    }
}

#[verifier::spinoff_prover]
proof fn lemma_shift_put_int(a: WState, b: WState, d: nat, be: bool, gt7: bool, t: Seq<u8>, arg: nat, gamma: bool, prefix: nat)
    requires
        shifted(a, b, d),
    ensures
        put_int(a, be, gt7, t, arg, gamma, prefix) is Some == put_int(b, be, gt7, t, arg, gamma, prefix) is Some,
        put_int(a, be, gt7, t, arg, gamma, prefix) matches Some(a2) ==> shifted(a2, put_int(b, be, gt7, t, arg, gamma, prefix).unwrap(), d),
{
    if let Some((k, st)) = find_interval(t, arg, 0, 1) {
        let w = t[k as int] as nat;
        lemma_shift_put_bits(a, b, d, be, gt7, w, (arg - st) as nat, (arg - st) as nat);
        let a1 = put_bits(a, be, gt7, w, (arg - st) as nat);
        let b1 = put_bits(b, be, gt7, w, (arg - st) as nat);
        lemma_shift_put_gamma(a1, b1, d, be, k);
        lemma_shift_put_bits(a1, b1, d, be, gt7, prefix, k, k);
    }
}

#[verifier::spinoff_prover]
proof fn lemma_shift_put_item(
    a: WState,
    b: WState,
    d: nat,
    wa: WInfo,
    wb: WInfo,
    p: u8,
    notrait: u8,
    tabs: Seq<Seq<u8>>,
    data: Seq<u8>,
    it: PathItem,
    last: bool,
)
    requires
        shifted(a, b, d),
    ensures
        put_item(a, wa, p, notrait, tabs, data, it, last) is Some == put_item(b, wb, p, notrait, tabs, data, it, last) is Some,
        put_item(a, wa, p, notrait, tabs, data, it, last) matches Some((a2, wa2)) ==> shifted(
            a2,
            put_item(b, wb, p, notrait, tabs, data, it, last).unwrap().0,
            d,
        ),
{
    let be = p & 1 != 0;
    let gt7 = p & 2 != 0;
    let four = p & 16 != 0;
    let len = it.len as nat;
    if len > 0 {
        if it.offset == 0 {
            if it.index + len <= data.len() {
                let split = last && p & 4 != 0;
                let n: nat = if split {
                    (len - 1) as nat
                } else {
                    len
                };
                let i: nat = if len > 1 {
                    n
                } else {
                    0
                };
                let (a1, b1) = if len > 1 {
                    lemma_shift_put_bytes(a, b, d, data, it.index as nat, n);
                    let ab = put_bytes(a, data, it.index as nat, n);
                    let bb = put_bytes(b, data, it.index as nat, n);
                    lemma_shift_put_bits(ab, bb, d, be, gt7, 16, n, n);
                    let ac = put_bits(ab, be, gt7, 16, n);
                    let bc = put_bits(bb, be, gt7, 16, n);
                    lemma_shift_put_gamma(ac, bc, d, be, 17);
                    lemma_shift_put_bits(put_gamma(ac, be, 17), put_gamma(bc, be, 17), d, be, gt7, 1, 0, 0);
                    (put_bits(put_gamma(ac, be, 17), be, gt7, 1, 0), put_bits(put_gamma(bc, be, 17), be, gt7, 1, 0))
                } else {
                    (a, b)
                };
                if i < len {
                    lemma_shift_put_bytes(a1, b1, d, data, (it.index + i) as nat, 1);
                    let sa = put_bytes(a1, data, (it.index + i) as nat, 1);
                    let sb = put_bytes(b1, data, (it.index + i) as nat, 1);
                    lemma_shift_put_bits(sa, sb, d, be, gt7, 1, 1, 1);
                }
            }
        } else {
            let offset = it.offset as nat;
            let latest = it.latest_offset as nat;
            let (ti, prefix) = offset_table_of(four, len);
            lemma_shift_put_int(a, b, d, be, gt7, tabs[ti], offset, false, prefix);
            let bit: nat = if offset == latest {
                1
            } else {
                0
            };
            let (oa, ob) = if offset != latest && !(len == 1 && notrait & 2 != 0) {
                (put_int(a, be, gt7, tabs[ti], offset, false, prefix), put_int(b, be, gt7, tabs[ti], offset, false, prefix))
            } else {
                (Some(a), Some(b))
            };
            if let Some(sa) = oa {
                let sb = ob.unwrap();
                lemma_shift_put_bits(sa, sb, d, be, gt7, 1, bit, bit);
                let (a2, b2) = if latest > 0 {
                    (put_bits(sa, be, gt7, 1, bit), put_bits(sb, be, gt7, 1, bit))
                } else {
                    (sa, sb)
                };
                assert(offset_part(a, p, notrait, tabs, len, offset, latest) == Some(a2));
                assert(offset_part(b, p, notrait, tabs, len, offset, latest) == Some(b2));
                lemma_shift_put_int(a2, b2, d, be, gt7, tabs[0], len, true, 0);
                if let Some(a3) = put_int(a2, be, gt7, tabs[0], len, true, 0) {
                    let b3 = put_int(b2, be, gt7, tabs[0], len, true, 0).unwrap();
                    lemma_shift_put_bits(a3, b3, d, be, gt7, 1, 0, 0);
                }
            } else {
                assert(offset_part(a, p, notrait, tabs, len, offset, latest) is None);
                assert(offset_part(b, p, notrait, tabs, len, offset, latest) is None);
            }
        }
    }
}

#[verifier::spinoff_prover]
proof fn lemma_shift_written(
    a0: WState,
    b0: WState,
    d: nat,
    wa: WInfo,
    wb: WInfo,
    p: u8,
    notrait: u8,
    tabs: Seq<Seq<u8>>,
    data: Seq<u8>,
    items: Seq<PathItem>,
    j: nat,
)
    requires
        shifted(a0, b0, d),
    ensures
        written(a0, wa, p, notrait, tabs, data, items, j) is Some == written(b0, wb, p, notrait, tabs, data, items, j) is Some,
        written(a0, wa, p, notrait, tabs, data, items, j) matches Some((a, w)) ==> shifted(
            a,
            written(b0, wb, p, notrait, tabs, data, items, j).unwrap().0,
            d,
        ),
    decreases j,
{
    if j > 0 {
        lemma_shift_written(a0, b0, d, wa, wb, p, notrait, tabs, data, items, (j - 1) as nat);
        if let Some((a, w1)) = written(a0, wa, p, notrait, tabs, data, items, (j - 1) as nat) {
            let (b, w2) = written(b0, wb, p, notrait, tabs, data, items, (j - 1) as nat).unwrap();
            lemma_shift_put_item(a, b, d, w1, w2, p, notrait, tabs, data, items[j - 1], j == items.len());
        }
    }
}

#[verifier::spinoff_prover]
proof fn lemma_shift_put_widths(a: WState, b: WState, d: nat, be: bool, gt7: bool, ws: Seq<u8>)
    requires
        shifted(a, b, d),
    ensures
        shifted(put_widths(a, be, gt7, ws), put_widths(b, be, gt7, ws), d),
    decreases ws.len(),
{
    if ws.len() > 0 {
        let v = ws.last();
        if gt7 {
            lemma_shift_put_bits(a, b, d, be, gt7, 1, (v >> 3u8) as nat, (v >> 3u8) as nat);
            lemma_shift_put_bits(
                put_bits(a, be, gt7, 1, (v >> 3u8) as nat),
                put_bits(b, be, gt7, 1, (v >> 3u8) as nat),
                d,
                be,
                gt7,
                3,
                (v & 7u8) as nat,
                (v & 7u8) as nat,
            );
        } else {
            lemma_shift_put_bits(a, b, d, be, gt7, 4, v as nat, v as nat);
        }
        lemma_shift_put_widths(put_entry(a, be, gt7, v), put_entry(b, be, gt7, v), d, be, gt7, ws.drop_last());
    }
}

/// A few bits from an empty byte leave that many bits pending.
#[verifier::spinoff_prover]
proof fn lemma_put_bits_count(s: WState, be: bool, gt7: bool, n: nat, v: nat)
    requires
        clean(s, be),
        n <= 7,
        s.bitcount + n < 8,
    ensures
        put_bits(s, be, gt7, n, v).bitcount == s.bitcount + n,
        put_bits(s, be, gt7, n, v).out == s.out,
    decreases n,
{
    if n > 0 {
        lemma_put_bit_clean(s, be, v % 2 == 1);
        lemma_put_bits_count(put_bit(s, be, v % 2 == 1), be, gt7, (n - 1) as nat, v / 2);
    }
}

/// One writing pass, spelled out: the states before the sequences, after
/// them, and after the header.
pub open spec fn pass_start(p: u8, align: nat) -> WState {
    put_bits(WState { out: Seq::empty(), bitbuf: 0, bitcount: 0 }, p & 1 != 0, p & 2 != 0, align, 0)
}

pub open spec fn pass_info(p: u8, align: nat) -> WInfo {
    let s0 = pass_start(p, align);
    let pos = s0.out.len() as int;
    let w0 = WInfo { traits: 0, max_len: 0, max_offset: 0, max_diff: 0, pos_diff: pos };
    let s1 = end_marker(s0, p & 1 != 0, p & 2 != 0);
    let diff = s1.out.len() - pos;
    WInfo {
        max_diff: if diff > 0 {
            diff
        } else {
            0
        },
        ..w0
    }
}

#[verifier::spinoff_prover]
proof fn lemma_write_pass(p: u8, notrait: u8, tabs: Seq<Seq<u8>>, data: Seq<u8>, items: Seq<PathItem>, align: nat)
    ensures
        write_pass(Seq::empty(), p, notrait, tabs, data, Some(items), true, align) == (match written(
            end_marker(pass_start(p, align), p & 1 != 0, p & 2 != 0),
            pass_info(p, align),
            p,
            notrait,
            tabs,
            data,
            items,
            items.len(),
        ) {
            None => None,
            Some((s, w)) => Some((put_widths(s, p & 1 != 0, p & 2 != 0, header_widths(p & 16 != 0, tabs)), w)),
        }),
{
    let s0 = end_marker(pass_start(p, align), p & 1 != 0, p & 2 != 0);
    let w0 = pass_info(p, align);
    lemma_put_items_written(s0, w0, p, notrait, tabs, data, items, 0);
    if let Some((s, w)) = written(s0, w0, p, notrait, tabs, data, items, items.len()) {
        lemma_put_header_widths(s, p & 1 != 0, p & 2 != 0, p & 16 != 0, tabs);
    }
}

/// The kept pass of the writer: the state after the sequences, and the
/// number of 0 bits written first; with `AlignStart` the stream then ends
/// on a byte boundary.
#[verifier::spinoff_prover]
#[verifier::rlimit(60)]
proof fn lemma_stream_shape(p: u8, notrait: u8, tabs: Seq<Seq<u8>>, data: Seq<u8>, items: Seq<PathItem>) -> (r: (
    WState,
    WInfo,
    nat,
))
    requires
        write_stream(Seq::empty(), p, notrait, tabs, data, Some(items), true) is Some,
    ensures
        written(
            end_marker(pass_start(p, r.2), p & 1 != 0, p & 2 != 0),
            pass_info(p, r.2),
            p,
            notrait,
            tabs,
            data,
            items,
            items.len(),
        ) == Some((r.0, r.1)),
        write_stream(Seq::empty(), p, notrait, tabs, data, Some(items), true) == Some(
            (flush(put_widths(r.0, p & 1 != 0, p & 2 != 0, header_widths(p & 16 != 0, tabs)), p & 1 != 0, p & 8 == 0).out, r.1),
        ),
        p & 8 != 0 ==> put_widths(r.0, p & 1 != 0, p & 2 != 0, header_widths(p & 16 != 0, tabs)).bitcount == 0,
        clean(pass_start(p, r.2), p & 1 != 0),
        clean(r.0, p & 1 != 0),
        pass_start(p, r.2).out.len() == 0,
{
    let be = p & 1 != 0;
    let gt7 = p & 2 != 0;
    let four = p & 16 != 0;
    let align_start = p & 8 != 0;
    let n = items.len();
    let hw = header_widths(four, tabs);
    let e = WState { out: Seq::empty(), bitbuf: 0, bitcount: 0 };
    assert(clean(e, be)) by {
        assert((0u8 & (0xffu8 >> 0u8)) == 0 && (0u8 >> 0u8) == 0) by (bit_vector);
    }
    lemma_write_pass(p, notrait, tabs, data, items, 0);
    let sz1 = pass_start(p, 0);
    assert(sz1 == e);
    let (sn1, wn1) = written(end_marker(sz1, be, gt7), pass_info(p, 0), p, notrait, tabs, data, items, n).unwrap();
    let h1 = put_widths(sn1, be, gt7, hw);
    let al: nat = if align_start {
        alignment(h1)
    } else {
        0
    };
    lemma_write_pass(p, notrait, tabs, data, items, al);
    let sz = pass_start(p, al);
    lemma_put_bits_clean(e, be, gt7, al, 0);
    lemma_put_bits_count(e, be, gt7, al, 0);
    let s0 = end_marker(sz, be, gt7);
    lemma_put_gamma_clean(sz, be, 16);
    lemma_put_bits_clean(put_gamma(sz, be, 16), be, gt7, 1, 0);
    assert(shifted(e, sz, al));
    lemma_shift_put_gamma(e, sz, al, be, 16);
    lemma_shift_put_bits(put_gamma(e, be, 16), put_gamma(sz, be, 16), al, be, gt7, 1, 0, 0);
    lemma_shift_written(end_marker(e, be, gt7), s0, al, pass_info(p, 0), pass_info(p, al), p, notrait, tabs, data, items, n);
    let (sn, wn) = written(s0, pass_info(p, al), p, notrait, tabs, data, items, n).unwrap();
    lemma_shift_put_widths(sn1, sn, al, be, gt7, hw);
    lemma_written_clean(s0, pass_info(p, al), p, notrait, tabs, data, items, n);
    (sn, wn, al)
}

/// The reader's start corresponds to the writer's end.
#[verifier::spinoff_prover]
proof fn lemma_reader_start(src: Seq<u8>, p: u8, h: WState)
    requires
        clean(h, p & 1 != 0),
        p & 8 != 0 ==> h.bitcount == 0,
        src == flush(h, p & 1 != 0, p & 8 == 0).out.reverse(),
    ensures
        start_state(src, flags_of(p)) matches Some(r0) && corr(src, p & 1 != 0, h, r0),
{
    let be = p & 1 != 0;
    let bytes = flush(h, be, p & 8 == 0).out;
    let r0 = start_state(src, flags_of(p)).unwrap();
    if p & 8 != 0 {
        assert(bytes == h.out);
        assert(r0 == RState { pos: 0, bitbuf: 0 });
    } else {
        assert(bytes.len() == h.out.len() + 1);
        assert(src[0] == bytes.last());
        let bb = h.bitbuf;
        let k = h.bitcount;
        assert(((bb | ((0x80u8 >> k) as u8)) as u8) == ((bb | (0x80u8 >> k)) as u8) && ((bb | ((1u8 << k) as u8)) as u8)
            == ((bb | (1u8 << k)) as u8)) by (bit_vector);
        assert(r0.bitbuf == marked(bb, k, be));
    }
    assert forall|i: int| 0 <= i < h.out.len() implies #[trigger] src[r0.pos + i] == h.out[h.out.len() - 1 - i] by {
        assert(src[r0.pos + i] == bytes[bytes.len() - 1 - (r0.pos + i)]);
    }
}

/// The reader builds from a header the tables that it holds.
#[verifier::spinoff_prover]
proof fn lemma_reader_header(src: Seq<u8>, p: u8, tabs: Seq<Seq<u8>>, sn: WState, r0: RState) -> (r: (DTables, RState))
    requires
        tables_fit(p, tabs),
        clean(sn, p & 1 != 0),
        corr(src, p & 1 != 0, put_widths(sn, p & 1 != 0, p & 2 != 0, header_widths(p & 16 != 0, tabs)), r0),
    ensures
        read_dtables(src, flags_of(p), r0, 0, header_len(p & 16 != 0), 0, 0, empty_dtables()) == Some(r),
        header_dtables(p, tabs, r.0),
        corr(src, p & 1 != 0, sn, r.1),
{
    let f = flags_of(p);
    let four = p & 16 != 0;
    let hw = header_widths(four, tabs);
    lemma_header_widths_at(four, tabs, 0);
    let end = header_len(four);
    assert(hw.subrange(0, end as int) =~= hw);
    assert forall|x: int| 0 <= x < hw.len() implies #[trigger] hw[x] < 16 by {
        lemma_header_widths_at(four, tabs, x as nat);
        let tab = tabs[group_table(four, (x - x % 16) as nat)];
        let kk = (x % 16 + 1) as nat;
        if 1 <= kk <= tab.len() {
            assert(tab[kk - 1] < 16);
        }
    }
    lemma_read_dtables_widths(src, f, sn, hw, 0, end, 0, 0, empty_dtables(), r0);
    read_dtables(src, f, r0, 0, end, 0, 0, empty_dtables()).unwrap()
}

/// The decruncher on a stream that the writer produced, step by step: the
/// tables it reads from the header, where it stands after them, and the
/// run of the decrunch loop from there, which gives the data reversed and
/// asks only for what the simple decrunch loop accepts too.
#[verifier::spinoff_prover]
pub proof fn lemma_written_stream_read(p: u8, notrait: u8, tabs: Seq<Seq<u8>>, data: Seq<u8>, items: Seq<PathItem>) -> (r: (
    DTables,
    RState,
))
    requires
        tables_fit(p, tabs),
        path_covers(data, items),
        path_genuine(data, items),
        path_fits(p, notrait, items),
        write_stream(Seq::empty(), p, notrait, tabs, data, Some(items), true) is Some,
    ensures
        write_stream(Seq::empty(), p, notrait, tabs, data, Some(items), true) matches Some((bytes, w)) && start_state(
            bytes.reverse(),
            flags_of(p),
        ) matches Some(r0) && read_dtables(bytes.reverse(), flags_of(p), r0, 0, header_len(p & 16 != 0), 0, 0, empty_dtables())
            == Some(r) && header_dtables(p, tabs, r.0) && xrun(
            bytes.reverse(),
            flags_of(p),
            r.0,
            XState { rs: r.1, out: Seq::empty(), literal: true, reuse_state: 1, offset: 0, lit_next: flags_of(p).impl1literal },
        ) == Ok::<Seq<u8>, crate::simple::DecrunchError>(data.reverse()) && common_run(
            bytes.reverse(),
            flags_of(p),
            r.0,
            XState { rs: r.1, out: Seq::empty(), literal: true, reuse_state: 1, offset: 0, lit_next: flags_of(p).impl1literal },
        ),
{
    let f = flags_of(p);
    let be = p & 1 != 0;
    let gt7 = p & 2 != 0;
    let n = items.len();
    let (sn, wn, al) = lemma_stream_shape(p, notrait, tabs, data, items);
    let h = put_widths(sn, be, gt7, header_widths(p & 16 != 0, tabs));
    lemma_put_widths_clean(sn, be, gt7, header_widths(p & 16 != 0, tabs));
    let bytes = flush(h, be, p & 8 == 0).out;
    let src = bytes.reverse();
    lemma_reader_start(src, p, h);
    let r0 = start_state(src, f).unwrap();
    let (t, r1) = lemma_reader_header(src, p, tabs, sn, r0);
    let x = XState { rs: r1, out: Seq::empty(), literal: true, reuse_state: 1, offset: 0, lit_next: f.impl1literal };
    assert(data.subrange(data.len() as int, data.len() as int).reverse() =~= Seq::<u8>::empty());
    assert(decoded_from(src, p, data, items, n, sn, x));
    lemma_run_items(src, p, notrait, tabs, t, data, items, pass_start(p, al), pass_info(p, al), n, x);
    (t, r1)
}

/// A stream that the writer produces for a path of sequences through the
/// data decodes back to the data: the decruncher, taking the written bytes
/// in reverse order, gives the data reversed (the data is crunched from its
/// end). The path must cover the data, copy only equal bytes from further
/// on, and suit the proto; the tables must fit the header.
#[verifier::spinoff_prover]
pub proof fn law_written_stream_decrunches(p: u8, notrait: u8, tabs: Seq<Seq<u8>>, data: Seq<u8>, items: Seq<PathItem>)
    requires
        tables_fit(p, tabs),
        path_covers(data, items),
        path_genuine(data, items),
        path_fits(p, notrait, items),
        write_stream(Seq::empty(), p, notrait, tabs, data, Some(items), true) is Some,
    ensures
        write_stream(Seq::empty(), p, notrait, tabs, data, Some(items), true) matches Some((bytes, w)) && exo_decrunch(
            p,
            None,
            bytes.reverse(),
        ) == Ok::<Seq<u8>, crate::simple::DecrunchError>(data.reverse()),
{
    lemma_written_stream_read(p, notrait, tabs, data, items);
}

/// Decrunching a stream crunched backwards for a path through the data, with
/// the same proto and no imported encoding, gives back the data.
#[verifier::spinoff_prover]
pub proof fn law_crunched_stream_decrunches(
    p: u8,
    notrait: u8,
    tabs: Seq<Seq<u8>>,
    data: Seq<u8>,
    items: Seq<PathItem>,
    opts: DecrunchOptions,
)
    requires
        tables_fit(p, tabs),
        path_covers(data, items),
        path_genuine(data, items),
        path_fits(p, notrait, items),
        write_stream(Seq::empty(), p, notrait, tabs, data, Some(items), true) is Some,
        opts.options.flags_proto.num() == p,
        !opts.options.direction_forward,
        !opts.options.write_reverse,
        opts.enc is None,
    ensures
        write_stream(Seq::empty(), p, notrait, tabs, data, Some(items), true) matches Some((bytes, w)) && decrunched_raw(
            bytes,
            opts,
        ) == Ok::<Seq<u8>, crate::simple::DecrunchError>(data),
{
    law_written_stream_decrunches(p, notrait, tabs, data, items);
    let (bytes, w) = write_stream(Seq::empty(), p, notrait, tabs, data, Some(items), true).unwrap();
    assert(imported_header(opts) == Ok::<Option<Seq<u8>>, crate::simple::DecrunchError>(None));
    assert(data.reverse().reverse() =~= data);
}

/// The bytes that a crunch hands out for a written stream: crunching
/// forwards, the stream was written for the data reversed and is reversed
/// itself; `write_reverse` reverses the result once more.
pub open spec fn crunch_arranged(forward: bool, write_reverse: bool, bytes: Seq<u8>) -> Seq<u8> {
    let b1 = if forward {
        bytes.reverse()
    } else {
        bytes
    };
    if write_reverse {
        b1.reverse()
    } else {
        b1
    }
}

/// The data that a crunch writes a stream for: reversed when crunching
/// forwards.
pub open spec fn crunch_input(forward: bool, data: Seq<u8>) -> Seq<u8> {
    if forward {
        data.reverse()
    } else {
        data
    }
}

/// Whatever the direction and `write_reverse` of a crunch, decrunching with
/// the same proto, the same `write_reverse` and the direction that is
/// forwards exactly when one of the two was set gives back the data (for
/// the usual pairing: crunched backwards with `write_reverse`, decrunched
/// forwards with `write_reverse`).
#[verifier::spinoff_prover]
pub proof fn law_crunch_settings_roundtrip(
    p: u8,
    notrait: u8,
    tabs: Seq<Seq<u8>>,
    data: Seq<u8>,
    items: Seq<PathItem>,
    forward: bool,
    write_reverse: bool,
    opts: DecrunchOptions,
)
    requires
        tables_fit(p, tabs),
        path_covers(crunch_input(forward, data), items),
        path_genuine(crunch_input(forward, data), items),
        path_fits(p, notrait, items),
        write_stream(Seq::empty(), p, notrait, tabs, crunch_input(forward, data), Some(items), true) is Some,
        opts.options.flags_proto.num() == p,
        opts.options.direction_forward == (forward != write_reverse),
        opts.options.write_reverse == write_reverse,
        opts.enc is None,
    ensures
        write_stream(Seq::empty(), p, notrait, tabs, crunch_input(forward, data), Some(items), true) matches Some(
            (bytes, w),
        ) && decrunched_raw(crunch_arranged(forward, write_reverse, bytes), opts) == Ok::<
            Seq<u8>,
            crate::simple::DecrunchError,
        >(data),
{
    let d = crunch_input(forward, data);
    law_written_stream_decrunches(p, notrait, tabs, d, items);
    let (bytes, w) = write_stream(Seq::empty(), p, notrait, tabs, d, Some(items), true).unwrap();
    assert(imported_header(opts) == Ok::<Option<Seq<u8>>, crate::simple::DecrunchError>(None));
    assert(bytes.reverse().reverse() =~= bytes);
    assert(data.reverse().reverse() =~= data);
    assert(d.reverse().reverse() =~= d);
}

// ---------------------------------------------------------------------------
// Streams without a header
// ---------------------------------------------------------------------------
#[verifier::spinoff_prover]
proof fn lemma_write_pass_bare(p: u8, notrait: u8, tabs: Seq<Seq<u8>>, data: Seq<u8>, items: Seq<PathItem>, align: nat)
    ensures
        write_pass(Seq::empty(), p, notrait, tabs, data, Some(items), false, align) == written(
            end_marker(pass_start(p, align), p & 1 != 0, p & 2 != 0),
            pass_info(p, align),
            p,
            notrait,
            tabs,
            data,
            items,
            items.len(),
        ),
{
    let s0 = end_marker(pass_start(p, align), p & 1 != 0, p & 2 != 0);
    let w0 = pass_info(p, align);
    lemma_put_items_written(s0, w0, p, notrait, tabs, data, items, 0);
}

/// The kept pass of the writer for a stream without a header, as
/// [`lemma_stream_shape`] gives it for a stream with one.
#[verifier::spinoff_prover]
#[verifier::rlimit(60)]
proof fn lemma_stream_shape_bare(p: u8, notrait: u8, tabs: Seq<Seq<u8>>, data: Seq<u8>, items: Seq<PathItem>) -> (r: (
    WState,
    WInfo,
    nat,
))
    requires
        write_stream(Seq::empty(), p, notrait, tabs, data, Some(items), false) is Some,
    ensures
        written(
            end_marker(pass_start(p, r.2), p & 1 != 0, p & 2 != 0),
            pass_info(p, r.2),
            p,
            notrait,
            tabs,
            data,
            items,
            items.len(),
        ) == Some((r.0, r.1)),
        write_stream(Seq::empty(), p, notrait, tabs, data, Some(items), false) == Some(
            (flush(r.0, p & 1 != 0, p & 8 == 0).out, r.1),
        ),
        p & 8 != 0 ==> r.0.bitcount == 0,
        clean(pass_start(p, r.2), p & 1 != 0),
        clean(r.0, p & 1 != 0),
        pass_start(p, r.2).out.len() == 0,
{
    let be = p & 1 != 0;
    let gt7 = p & 2 != 0;
    let align_start = p & 8 != 0;
    let n = items.len();
    let e = WState { out: Seq::empty(), bitbuf: 0, bitcount: 0 };
    assert(clean(e, be)) by {
        assert((0u8 & (0xffu8 >> 0u8)) == 0 && (0u8 >> 0u8) == 0) by (bit_vector);
    }
    lemma_write_pass_bare(p, notrait, tabs, data, items, 0);
    let sz1 = pass_start(p, 0);
    assert(sz1 == e);
    let (sn1, wn1) = written(end_marker(sz1, be, gt7), pass_info(p, 0), p, notrait, tabs, data, items, n).unwrap();
    let al: nat = if align_start {
        alignment(sn1)
    } else {
        0
    };
    lemma_write_pass_bare(p, notrait, tabs, data, items, al);
    let sz = pass_start(p, al);
    lemma_put_bits_clean(e, be, gt7, al, 0);
    lemma_put_bits_count(e, be, gt7, al, 0);
    let s0 = end_marker(sz, be, gt7);
    lemma_put_gamma_clean(sz, be, 16);
    lemma_put_bits_clean(put_gamma(sz, be, 16), be, gt7, 1, 0);
    assert(shifted(e, sz, al));
    lemma_shift_put_gamma(e, sz, al, be, 16);
    lemma_shift_put_bits(put_gamma(e, be, 16), put_gamma(sz, be, 16), al, be, gt7, 1, 0, 0);
    lemma_shift_written(end_marker(e, be, gt7), s0, al, pass_info(p, 0), pass_info(p, al), p, notrait, tabs, data, items, n);
    lemma_written_clean(s0, pass_info(p, al), p, notrait, tabs, data, items, n);
    let (sn, wn) = written(s0, pass_info(p, al), p, notrait, tabs, data, items, n).unwrap();
    (sn, wn, al)
}

/// The decruncher reads from the header bytes of `tabs` the tables that
/// they hold.
#[verifier::spinoff_prover]
#[verifier::rlimit(40)]
proof fn lemma_header_bytes_read(p: u8, tabs: Seq<Seq<u8>>) -> (r: (DTables, RState))
    requires
        tables_fit(p, tabs),
    ensures
        start_state(header_bytes(p, tabs), flags_of(p)) matches Some(r0) && read_dtables(
            header_bytes(p, tabs),
            flags_of(p),
            r0,
            0,
            header_len(p & 16 != 0),
            0,
            0,
            empty_dtables(),
        ) == Some(r) && header_dtables(p, tabs, r.0),
{
    let be = p & 1 != 0;
    let gt7 = p & 2 != 0;
    let four = p & 16 != 0;
    let align_start = p & 8 != 0;
    let hw = header_widths(four, tabs);
    let e = WState { out: Seq::empty(), bitbuf: 0, bitcount: 0 };
    assert(clean(e, be)) by {
        assert((0u8 & (0xffu8 >> 0u8)) == 0 && (0u8 >> 0u8) == 0) by (bit_vector);
    }
    lemma_put_header_widths(e, be, gt7, four, tabs);
    let al: nat = if align_start {
        alignment(put_header(e, be, gt7, four, tabs))
    } else {
        0
    };
    let sz = put_bits(e, be, gt7, al, 0);
    lemma_put_bits_clean(e, be, gt7, al, 0);
    lemma_put_bits_count(e, be, gt7, al, 0);
    lemma_put_header_widths(sz, be, gt7, four, tabs);
    let h = put_widths(sz, be, gt7, hw);
    lemma_put_widths_clean(sz, be, gt7, hw);
    assert(shifted(e, sz, al));
    lemma_shift_put_widths(e, sz, al, be, gt7, hw);
    let hb = header_bytes(p, tabs);
    assert(hb == flush(h, be, p & 8 == 0).out.reverse());
    lemma_reader_start(hb, p, h);
    let r0 = start_state(hb, flags_of(p)).unwrap();
    lemma_reader_header(hb, p, tabs, sz, r0)
}

/// Filling the tables up to their full sizes leaves the header as it was.
proof fn lemma_padded_header_widths(four: bool, tabs: Seq<Seq<u8>>)
    requires
        tabs.len() == (if four {
            5int
        } else {
            4int
        }),
    ensures
        header_widths(four, padded_tables(four, tabs)) == header_widths(four, tabs),
{
    let pt = padded_tables(four, tabs);
    assert forall|k: int, n: nat| 0 <= k < tabs.len() && n <= (if k == 1 {
        4nat
    } else {
        16nat
    }) implies #[trigger] entries(pt[k], n) == entries(tabs[k], n) by {
        assert(entries(pt[k], n) =~= entries(tabs[k], n));
    }
    let last = if four {
        4int
    } else {
        3int
    };
    assert(entries(pt[0], 16) == entries(tabs[0], 16));
    assert(entries(pt[1], 4) == entries(tabs[1], 4));
    assert(entries(pt[2], 16) == entries(tabs[2], 16));
    assert(entries(pt[last], 16) == entries(tabs[last], 16));
    if four {
        assert(entries(pt[3], 16) == entries(tabs[3], 16));
    }
}

/// A stream written without its header, for a path of sequences through
/// the data, decrunches back to the data with the encoding string of its
/// tables imported, crunched backwards with the same proto.
#[verifier::spinoff_prover]
pub proof fn law_headerless_stream_decrunches(
    p: u8,
    notrait: u8,
    tabs: Seq<Seq<u8>>,
    data: Seq<u8>,
    items: Seq<PathItem>,
    opts: DecrunchOptions,
)
    requires
        tables_fit(p, tabs),
        path_covers(data, items),
        path_genuine(data, items),
        path_fits(p, notrait, items),
        write_stream(Seq::empty(), p, notrait, tabs, data, Some(items), false) is Some,
        opts.options.flags_proto.num() == p,
        !opts.options.direction_forward,
        !opts.options.write_reverse,
        opts.enc matches Some(e) && e@ == encoding_text(p & 16 != 0, tabs),
    ensures
        write_stream(Seq::empty(), p, notrait, tabs, data, Some(items), false) matches Some((bytes, w)) && decrunched_raw(
            bytes,
            opts,
        ) == Ok::<Seq<u8>, crate::simple::DecrunchError>(data),
{
    let f = flags_of(p);
    let be = p & 1 != 0;
    let four = p & 16 != 0;
    let n = items.len();
    law_encoding_text_roundtrip(four, tabs);
    let pt = padded_tables(four, tabs);
    assert(imported_header(opts) == Ok::<Option<Seq<u8>>, crate::simple::DecrunchError>(Some(header_bytes(p, pt))));
    lemma_padded_header_widths(four, tabs);
    assert(tables_fit(p, pt)) by {
        assert forall|k: int, e: int| 0 <= k < pt.len() && 0 <= e < pt[k].len() implies #[trigger] pt[k][e] < 16 by {
            assert(pt[k][e] == table_entry(tabs[k], (e + 1) as nat));
        }
    }
    let (t, r1) = lemma_header_bytes_read(p, pt);
    assert(header_dtables(p, tabs, t));
    let (sn, wn, al) = lemma_stream_shape_bare(p, notrait, tabs, data, items);
    let bytes = flush(sn, be, p & 8 == 0).out;
    let src = bytes.reverse();
    lemma_reader_start(src, p, sn);
    let r0 = start_state(src, f).unwrap();
    let x = XState { rs: r0, out: Seq::empty(), literal: true, reuse_state: 1, offset: 0, lit_next: f.impl1literal };
    assert(data.subrange(data.len() as int, data.len() as int).reverse() =~= Seq::<u8>::empty());
    assert(decoded_from(src, p, data, items, n, sn, x));
    lemma_run_items(src, p, notrait, tabs, t, data, items, pass_start(p, al), pass_info(p, al), n, x);
    assert(exo_decrunch(p, Some(header_bytes(p, pt)), src) == Ok::<Seq<u8>, crate::simple::DecrunchError>(data.reverse()));
    assert(data.reverse().reverse() =~= data);
}

} // verus!
