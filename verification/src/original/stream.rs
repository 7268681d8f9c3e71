//! Writing a crunched stream: the sequences that the search chose, coded
//! with the encoding tables, then the encoding header.
//!
//! The stream is written from its end: the end marker first, then the
//! sequences in the order of the data, then the header. The decruncher reads
//! it the other way round.
use crate::original::bitstream::{alignment, flush, put_bit, put_bits, put_gamma, OutputCtx, WState};
use crate::original::crunch::CrunchInfo;
use crate::original::encoding::{put_entry, put_header, put_table, table_count, tables_view, write_header};
use crate::original::flags::TraitFlags;
use crate::original::matches::Match;
use vstd::arithmetic::power2::*;
use vstd::bits::*;
use vstd::prelude::*;

verus! {

/// One sequence of the chosen path: `len` bytes from `index` of the data,
/// copied from `offset` bytes further on (a literal run when `offset` is 0);
/// `latest_offset` is the offset that the sequence may reuse.
#[derive(Clone, Copy, Debug)]
pub struct PathItem {
    pub index: usize,
    pub len: u16,
    pub offset: u32,
    pub latest_offset: u32,
}

/// A node of the path that the search chose: the sequence `m` that starts
/// at `index`, the node where the data after it goes on (`None` at the
/// end), and the latest offset noted when the search reached this node.
#[derive(Clone, Copy, Debug)]
pub struct PathNode {
    pub index: usize,
    pub m: Match,
    pub prev: Option<usize>,
    pub latest_offset: u32,
}

/// Each node leads on to a node further on.
pub open spec fn path_nodes_wf(nodes: Seq<PathNode>) -> bool {
    forall|i: int| 0 <= i < nodes.len() ==> ((#[trigger] nodes[i]).prev matches Some(p) ==> (i < p && p < nodes.len()))
}

/// The sequences of the path from node `c` on, in the order of the data:
/// it ends at a node with no sequence (length 0), or with no node after
/// it. Each sequence may reuse the latest offset noted at the node after
/// it.
pub open spec fn path_from(nodes: Seq<PathNode>, c: int) -> Seq<PathItem>
    decreases nodes.len() - c,
{
    if c < 0 || c >= nodes.len() || nodes[c].m.len == 0 {
        Seq::empty()
    } else {
        let nd = nodes[c];
        let latest: u32 = match nd.prev {
            Some(p) => if p < nodes.len() {
                nodes[p as int].latest_offset
            } else {
                0
            },
            None => 0,
        };
        let item = PathItem { index: nd.index, len: nd.m.len, offset: nd.m.offset, latest_offset: latest };
        match nd.prev {
            Some(p) => if c < p && p < nodes.len() {
                seq![item] + path_from(nodes, p as int)
            } else {
                seq![item]
            },
            None => seq![item],
        }
    }
}

/// The sequences of the path from node `cur` on, none when there is no node.
pub open spec fn path_rest(nodes: Seq<PathNode>, cur: Option<usize>) -> Seq<PathItem> {
    match cur {
        Some(c) => path_from(nodes, c as int),
        None => Seq::empty(),
    }
}

/// The path that starts at node 0, as the stream writer takes it (see
/// [`path_from`]).
pub fn path_items(nodes: &Vec<PathNode>) -> (r: Vec<PathItem>)
    requires
        path_nodes_wf(nodes@),
    ensures
        r@ == path_from(nodes@, 0),
{
    let mut out: Vec<PathItem> = Vec::new();
    let mut cur: Option<usize> = if nodes.len() == 0 {
        None
    } else {
        Some(0)
    };
    assert(out@ + path_rest(nodes@, cur) =~= path_from(nodes@, 0));
    while cur.is_some()
        invariant
            path_nodes_wf(nodes@),
            cur matches Some(c) ==> c < nodes@.len(),
            out@ + path_rest(nodes@, cur) == path_from(nodes@, 0),
        decreases (match cur {
            Some(c) => nodes@.len() + 1 - c,
            None => 0,
        }),
    {
        let c = cur.unwrap();
        let nd = nodes[c];
        if nd.m.len == 0 {
            assert(path_rest(nodes@, cur) =~= Seq::<PathItem>::empty());
            assert(out@ + Seq::<PathItem>::empty() =~= out@);
            cur = None;
        } else {
            let latest: u32 = match nd.prev {
                Some(p) => nodes[p].latest_offset,
                None => 0,
            };
            let item = PathItem { index: nd.index, len: nd.m.len, offset: nd.m.offset, latest_offset: latest };
            let ghost before = out@;
            out.push(item);
            assert(nodes@[c as int] == nd);
            match nd.prev {
                Some(p) => {
                    assert(path_from(nodes@, c as int) == seq![item] + path_from(nodes@, p as int));
                },
                None => {
                    assert(path_from(nodes@, c as int) == seq![item]);
                    assert(out@ =~= before + seq![item]);
                },
            }
            assert(out@ + path_rest(nodes@, nd.prev) =~= before + path_rest(nodes@, cur));
            cur = nd.prev;
        }
    }
    assert(out@ + Seq::<PathItem>::empty() =~= out@);
    out
}

/// The sequence of a path item.
pub open spec fn item_match(it: PathItem) -> Match {
    Match { offset: it.offset, len: it.len }
}

/// The sequences of the path that starts at node 0, in the order of the
/// data (see [`path_from`]).
pub fn path_matches(nodes: &Vec<PathNode>) -> (r: Vec<Match>)
    requires
        path_nodes_wf(nodes@),
    ensures
        r@ == path_from(nodes@, 0).map_values(|it: PathItem| item_match(it)),
{
    let items = path_items(nodes);
    let mut out: Vec<Match> = Vec::new();
    let mut k: usize = 0;
    while k < items.len()
        invariant
            k <= items@.len(),
            out@ == items@.subrange(0, k as int).map_values(|it: PathItem| item_match(it)),
        decreases items@.len() - k,
    {
        let it = items[k];
        out.push(Match { offset: it.offset, len: it.len });
        assert(items@.subrange(0, k + 1) == items@.subrange(0, k as int).push(it));
        assert(out@ =~= items@.subrange(0, k + 1 as int).map_values(|it: PathItem| item_match(it)));
        k = k + 1;
    }
    assert(items@.subrange(0, items@.len() as int) =~= items@);
    out
}

/// The interval of a table that holds `arg`: intervals follow one another
/// from `start`, entry `k` being `2^t[k]` values wide. Gives the entry and
/// the start of its interval.
pub open spec fn find_interval(t: Seq<u8>, arg: nat, k: nat, start: nat) -> Option<(nat, nat)>
    decreases t.len() - k,
{
    if k >= t.len() {
        None
    } else if start <= arg < start + pow2(t[k as int] as nat) {
        Some((k, start))
    } else {
        find_interval(t, arg, k + 1, start + pow2(t[k as int] as nat))
    }
}

/// Writes `arg` with table `t`: its place in its interval, then the entry
/// of the interval, as a gamma code (`gamma`) or as `prefix` bits. `None`
/// when no interval holds `arg`.
pub open spec fn put_int(s: WState, be: bool, gt7: bool, t: Seq<u8>, arg: nat, gamma: bool, prefix: nat) -> Option<WState> {
    match find_interval(t, arg, 0, 1) {
        None => None,
        Some((k, start)) => {
            let s1 = put_bits(s, be, gt7, t[k as int] as nat, (arg - start) as nat);
            Some(
                if gamma {
                    put_gamma(s1, be, k)
                } else {
                    put_bits(s1, be, gt7, prefix, k)
                },
            )
        },
    }
}

/// The table that codes the offset of a sequence of length `len`, and the
/// width of its entry numbers.
pub open spec fn offset_table_of(four: bool, len: nat) -> (int, nat) {
    if len == 1 {
        (1, 2)
    } else if len == 2 {
        (2, 4)
    } else if len == 3 && four {
        (3, 4)
    } else {
        (if four {
            4
        } else {
            3
        }, 4)
    }
}

/// Writes a copied sequence: its offset (unless it reuses the latest one,
/// or is a 1-byte sequence that the traits leave out), the reuse bit when
/// there is a latest offset, then its length.
pub open spec fn put_match(s: WState, p: u8, notrait: u8, tabs: Seq<Seq<u8>>, len: nat, offset: nat, latest: nat) -> Option<WState> {
    let be = p & 1 != 0;
    let gt7 = p & 2 != 0;
    let four = p & 16 != 0;
    let s1: Option<WState> = if offset != latest && !(len == 1 && notrait & 2 != 0) {
        let (ti, prefix) = offset_table_of(four, len);
        put_int(s, be, gt7, tabs[ti], offset, false, prefix)
    } else {
        Some(s)
    };
    match s1 {
        None => None,
        Some(s1) => {
            let s2 = if latest > 0 {
                put_bits(
                    s1,
                    be,
                    gt7,
                    1,
                    if offset == latest {
                        1
                    } else {
                        0
                    },
                )
            } else {
                s1
            };
            put_int(s2, be, gt7, tabs[0], len, true, 0)
        },
    }
}

/// What the writer notes while writing: the traits used, the longest
/// sequence and offset, and how far the written stream ran ahead of the
/// data it codes.
pub struct WInfo {
    pub traits: u8,
    pub max_len: nat,
    pub max_offset: nat,
    pub max_diff: int,
    pub pos_diff: int,
}

/// Appends the bytes `data[from..from + n]` one by one.
pub open spec fn put_bytes(s: WState, data: Seq<u8>, from: nat, n: nat) -> WState
    decreases n,
{
    if n == 0 {
        s
    } else {
        put_bytes(WState { out: s.out.push(data[from as int]), ..s }, data, from + 1, (n - 1) as nat)
    }
}

/// Writes one sequence; `last` says whether it is the last one of the data.
pub open spec fn put_item(s: WState, w: WInfo, p: u8, notrait: u8, tabs: Seq<Seq<u8>>, data: Seq<u8>, it: PathItem, last: bool) -> Option<(WState, WInfo)> {
    let be = p & 1 != 0;
    let gt7 = p & 2 != 0;
    let len = it.len as nat;
    if len == 0 {
        Some((s, w))
    } else if it.offset == 0 {
        if it.index + len > data.len() {
            None
        } else {
            let split = last && p & 4 != 0;
            let (s1, w1, i): (WState, WInfo, nat) = if len > 1 {
                let n: nat = if split {
                    (len - 1) as nat
                } else {
                    len
                };
                let s1 = put_bits(
                    put_gamma(put_bits(put_bytes(s, data, it.index as nat, n), be, gt7, 16, n), be, 17),
                    be,
                    gt7,
                    1,
                    0,
                );
                (
                    s1,
                    WInfo {
                        traits: w.traits | 1u8,
                        max_len: if n > w.max_len {
                            n
                        } else {
                            w.max_len
                        },
                        ..w
                    },
                    n,
                )
            } else {
                (s, w, 0)
            };
            let s2 = if i < len {
                let sb = put_bytes(s1, data, (it.index + i) as nat, 1);
                if split {
                    sb
                } else {
                    put_bits(sb, be, gt7, 1, 1)
                }
            } else {
                s1
            };
            let pos_diff = w1.pos_diff + len;
            let diff = s2.out.len() - pos_diff;
            Some(
                (
                    s2,
                    WInfo {
                        pos_diff,
                        max_diff: if diff > w1.max_diff {
                            diff
                        } else {
                            w1.max_diff
                        },
                        ..w1
                    },
                ),
            )
        }
    } else {
        match put_match(s, p, notrait, tabs, len, it.offset as nat, it.latest_offset as nat) {
            None => None,
            Some(s1) => {
                let s2 = put_bits(s1, be, gt7, 1, 0);
                let lo = len % 256;
                let hi = len - lo;
                let skip: nat = if p & 16 != 0 {
                    4
                } else {
                    3
                };
                let traits: u8 = if len == 1 {
                    w.traits | 2u8
                } else if hi > 0 && lo < skip {
                    w.traits | 4u8
                } else {
                    w.traits
                };
                let pos_diff = w.pos_diff + len;
                let diff = s2.out.len() - pos_diff;
                Some(
                    (
                        s2,
                        WInfo {
                            traits,
                            max_len: if len > w.max_len {
                                len
                            } else {
                                w.max_len
                            },
                            max_offset: if it.offset > w.max_offset {
                                it.offset as nat
                            } else {
                                w.max_offset
                            },
                            pos_diff,
                            max_diff: if diff > w.max_diff {
                                diff
                            } else {
                                w.max_diff
                            },
                        },
                    ),
                )
            },
        }
    }
}

/// Writes the sequences `k..` of the path.
pub open spec fn put_items(s: WState, w: WInfo, p: u8, notrait: u8, tabs: Seq<Seq<u8>>, data: Seq<u8>, items: Seq<PathItem>, k: nat) -> Option<(WState, WInfo)>
    decreases items.len() - k,
{
    if k >= items.len() {
        Some((s, w))
    } else {
        match put_item(s, w, p, notrait, tabs, data, items[k as int], k + 1 == items.len()) {
            None => None,
            Some((s2, w2)) => put_items(s2, w2, p, notrait, tabs, data, items, k + 1),
        }
    }
}

/// One writing pass: `align` 0 bits, the end marker and the sequences of
/// the path when there is one, and the header when asked for.
pub open spec fn write_pass(out: Seq<u8>, p: u8, notrait: u8, tabs: Seq<Seq<u8>>, data: Seq<u8>, path: Option<Seq<PathItem>>, header: bool, align: nat) -> Option<(WState, WInfo)> {
    let be = p & 1 != 0;
    let gt7 = p & 2 != 0;
    let s0 = put_bits(WState { out, bitbuf: 0, bitcount: 0 }, be, gt7, align, 0);
    let pos = s0.out.len() as int;
    let w0 = WInfo { traits: 0, max_len: 0, max_offset: 0, max_diff: 0, pos_diff: pos };
    let r: Option<(WState, WInfo)> = match path {
        None => Some((s0, w0)),
        Some(items) => {
            let s1 = put_bits(put_gamma(s0, be, 16), be, gt7, 1, 0);
            let diff = s1.out.len() - pos;
            put_items(
                s1,
                WInfo {
                    max_diff: if diff > 0 {
                        diff
                    } else {
                        0
                    },
                    ..w0
                },
                p,
                notrait,
                tabs,
                data,
                items,
                0,
            )
        },
    };
    match r {
        None => None,
        Some((s2, w2)) => Some(
            (
                if header {
                    put_header(s2, be, gt7, p & 16 != 0, tabs)
                } else {
                    s2
                },
                w2,
            ),
        ),
    }
}

/// The crunched stream appended to `out`, and what was noted on the way:
/// with `AlignStart` a first pass measures the 0 bits that make the stream
/// end on a byte boundary and a second pass writes them first; else the
/// stream is closed with a marker bit. `None` when a value cannot be coded
/// with the tables, or a literal run lies outside the data.
pub open spec fn write_stream(out: Seq<u8>, p: u8, notrait: u8, tabs: Seq<Seq<u8>>, data: Seq<u8>, path: Option<Seq<PathItem>>, header: bool) -> Option<(Seq<u8>, WInfo)> {
    let align_start = p & 8 != 0;
    match write_pass(out, p, notrait, tabs, data, path, header, 0) {
        None => None,
        Some((s1, w1)) => {
            let second = if align_start {
                write_pass(out, p, notrait, tabs, data, path, header, alignment(s1))
            } else {
                Some((s1, w1))
            };
            match second {
                None => None,
                Some((s2, w2)) => Some((flush(s2, p & 1 != 0, !align_start).out, w2)),
            }
        },
    }
}


pub open spec fn table_ok(t: Seq<u8>) -> bool {
    &&& t.len() <= 255
    &&& forall|i: int| 0 <= i < t.len() ==> t[i] < 16
}

pub open spec fn tables_ok(p: u8, tabs: Seq<Vec<u8>>) -> bool {
    &&& tabs.len() == table_count(p & 16 != 0)
    &&& forall|i: int| 0 <= i < tabs.len() ==> table_ok(#[trigger] tabs[i]@)
}

/// Finds the interval that holds `arg` (see [`find_interval`]).
fn find_interval_exec(t: &Vec<u8>, arg: u32) -> (r: Option<(usize, u32)>)
    requires
        table_ok(t@),
    ensures
        match find_interval(t@, arg as nat, 0, 1) {
            None => r is None,
            Some((k, start)) => r == Some((k as usize, start as u32)),
        },
{
    let mut k: usize = 0;
    let mut start: u32 = 1;
    while k < t.len()
        invariant
            table_ok(t@),
            k <= t@.len(),
            start <= 1 + 32768 * k,
            find_interval(t@, arg as nat, 0, 1) == find_interval(t@, arg as nat, k as nat, start as nat),
        decreases t@.len() - k,
    {
        proof {
            lemma_u32_pow2_no_overflow(t@[k as int] as nat);
            lemma_u32_shl_is_mul(1, t@[k as int] as u32);
            lemma2_to64();
            if t@[k as int] < 15 {
                lemma_pow2_strictly_increases(t@[k as int] as nat, 15);
            }
        }
        let w: u32 = 1u32 << (t[k] as u32);
        if start <= arg && arg - start < w {
            return Some((k, start));
        }
        start = start + w;
        k = k + 1;
    }
    None
}

pub proof fn lemma_find_interval(t: Seq<u8>, arg: nat, k: nat, start: nat)
    ensures
        find_interval(t, arg, k, start) matches Some((k2, st)) ==> k2 < t.len() && st <= arg < st + pow2(
            t[k2 as int] as nat,
        ),
    decreases t.len() - k,
{
    if k < t.len() {
        lemma_find_interval(t, arg, k + 1, start + pow2(t[k as int] as nat));
    }
}

/// Writes `arg` with table `t` (see [`put_int`]); false when no interval
/// holds it.
fn put_int_exec(out: &mut OutputCtx, t: &Vec<u8>, arg: u32, gamma: bool, prefix: u32) -> (ok: bool)
    requires
        old(out).wf(),
        table_ok(t@),
    ensures
        final(out).wf(),
        final(out).be == old(out).be,
        final(out).copy_gt7 == old(out).copy_gt7,
        match put_int(old(out).state(), old(out).be, old(out).copy_gt7, t@, arg as nat, gamma, prefix as nat) {
            None => !ok,
            Some(s) => ok && final(out).state() == s,
        },
{
    proof {
        lemma_find_interval(t@, arg as nat, 0, 1);
    }
    match find_interval_exec(t, arg) {
        None => false,
        Some((k, start)) => {
            out.output_bits(t[k] as u32, arg - start);
            if gamma {
                out.output_gamma_code(k as u32);
            } else {
                out.output_bits(prefix, k as u32);
            }
            true
        },
    }
}

/// Writes a copied sequence (see [`put_match`]).
fn put_match_exec(out: &mut OutputCtx, p: u8, notrait: u8, tabs: &Vec<Vec<u8>>, len: u16, offset: u32, latest: u32) -> (ok: bool)
    requires
        old(out).wf(),
        old(out).be == (p & 1 != 0),
        old(out).copy_gt7 == (p & 2 != 0),
        tables_ok(p, tabs@),
    ensures
        final(out).wf(),
        final(out).be == old(out).be,
        final(out).copy_gt7 == old(out).copy_gt7,
        match put_match(old(out).state(), p, notrait, tables_view(tabs@), len as nat, offset as nat, latest as nat) {
            None => !ok,
            Some(s) => ok && final(out).state() == s,
        },
{
    let ghost tv = tables_view(tabs@);
    let four = p & 16 != 0;
    if offset != latest && !(len == 1 && notrait & 2 != 0) {
        let (ti, prefix): (usize, u32) = if len == 1 {
            (1, 2)
        } else if len == 2 {
            (2, 4)
        } else if len == 3 && four {
            (3, 4)
        } else {
            (if four {
                4
            } else {
                3
            }, 4)
        };
        assert(tv[ti as int] == tabs@[ti as int]@);
        assert(table_ok(tabs@[ti as int]@));
        if !put_int_exec(out, &tabs[ti], offset, false, prefix) {
            return false;
        }
    }
    if latest > 0 {
        out.output_bits(1, if offset == latest {
            1
        } else {
            0
        });
    }
    assert(tv[0] == tabs@[0]@);
    assert(table_ok(tabs@[0]@));
    put_int_exec(out, &tabs[0], len as u32, true, 0)
}

/// What the writer notes (see [`WInfo`]).
pub struct WInfoExec {
    pub traits: u8,
    pub max_len: usize,
    pub max_offset: u32,
    pub max_diff: usize,
    pub pos_diff: usize,
}

impl WInfoExec {
    pub open spec fn view(&self) -> WInfo {
        WInfo {
            traits: self.traits,
            max_len: self.max_len as nat,
            max_offset: self.max_offset as nat,
            max_diff: self.max_diff as int,
            pos_diff: self.pos_diff as int,
        }
    }
}

/// Appends `n` bytes of `data` from `from` (see [`put_bytes`]).
fn put_bytes_exec(out: &mut OutputCtx, data: &[u8], from: usize, n: usize)
    requires
        from + n <= data.len(),
    ensures
        final(out).state() == put_bytes(old(out).state(), data@, from as nat, n as nat),
        final(out).bitcount == old(out).bitcount,
        final(out).be == old(out).be,
        final(out).copy_gt7 == old(out).copy_gt7,
{
    let mut k: usize = 0;
    while k < n
        invariant
            k <= n,
            from + n <= data.len(),
            out.bitcount == old(out).bitcount,
            out.be == old(out).be,
            out.copy_gt7 == old(out).copy_gt7,
            put_bytes(out.state(), data@, (from + k) as nat, (n - k) as nat) == put_bytes(
                old(out).state(),
                data@,
                from as nat,
                n as nat,
            ),
        decreases n - k,
    {
        out.output_byte(data[from + k]);
        k = k + 1;
    }
}

/// Notes how far the stream has run ahead of the data, after a sequence of
/// `len` bytes.
fn note_diff(w: &mut WInfoExec, pos: usize, len: u16)
    requires
        old(w).pos_diff + len <= usize::MAX,
    ensures
        final(w)@ == (WInfo {
            pos_diff: old(w)@.pos_diff + len,
            max_diff: if pos - (old(w)@.pos_diff + len) > old(w)@.max_diff {
                pos - (old(w)@.pos_diff + len)
            } else {
                old(w)@.max_diff
            },
            ..old(w)@
        }),
{
    w.pos_diff = w.pos_diff + len as usize;
    if pos > w.pos_diff && pos - w.pos_diff > w.max_diff {
        w.max_diff = pos - w.pos_diff;
    }
}

/// Writes one sequence (see [`put_item`]).
fn put_item_exec(
    out: &mut OutputCtx,
    w: &mut WInfoExec,
    p: u8,
    notrait: u8,
    tabs: &Vec<Vec<u8>>,
    data: &[u8],
    it: PathItem,
    last: bool,
) -> (ok: bool)
    requires
        old(out).wf(),
        old(out).be == (p & 1 != 0),
        old(out).copy_gt7 == (p & 2 != 0),
        tables_ok(p, tabs@),
        old(w).pos_diff + 65536 <= usize::MAX,
        old(w).max_diff >= 0,
    ensures
        final(out).wf(),
        final(out).be == old(out).be,
        final(out).copy_gt7 == old(out).copy_gt7,
        final(w).pos_diff <= old(w).pos_diff + 65535,
        match put_item(old(out).state(), old(w)@, p, notrait, tables_view(tabs@), data@, it, last) {
            None => !ok,
            Some((s, wi)) => ok && final(out).state() == s && final(w)@ == wi,
        },
{
    let len = it.len;
    if len == 0 {
        return true;
    }
    if it.offset == 0 {
        if it.index > data.len() || data.len() - it.index < len as usize {
            return false;
        }
        let split = last && p & 4 != 0;
        let mut i: usize = 0;
        if len > 1 {
            let n: usize = if split {
                (len - 1) as usize
            } else {
                len as usize
            };
            put_bytes_exec(out, data, it.index, n);
            out.output_bits(16, n as u32);
            out.output_gamma_code(17);
            out.output_bits(1, 0);
            w.traits = w.traits | 1;
            if n > w.max_len {
                w.max_len = n;
            }
            i = n;
        }
        if i < len as usize {
            put_bytes_exec(out, data, it.index + i, 1);
            if !split {
                out.output_bits(1, 1);
            }
        }
        let pos = out.buf.len();
        note_diff(w, pos, len);
        true
    } else {
        if !put_match_exec(out, p, notrait, tabs, len, it.offset, it.latest_offset) {
            return false;
        }
        out.output_bits(1, 0);
        let lo = len % 256;
        let hi = len - lo;
        let skip: u16 = if p & 16 != 0 {
            4
        } else {
            3
        };
        if len == 1 {
            w.traits = w.traits | 2;
        } else if hi > 0 && lo < skip {
            w.traits = w.traits | 4;
        }
        if len as usize > w.max_len {
            w.max_len = len as usize;
        }
        if it.offset > w.max_offset {
            w.max_offset = it.offset;
        }
        let pos = out.buf.len();
        note_diff(w, pos, len);
        true
    }
}


/// One writing pass (see [`write_pass`]).
fn write_pass_exec(
    out0: &[u8],
    p: u8,
    notrait: u8,
    tabs: &Vec<Vec<u8>>,
    data: &[u8],
    path: Option<&Vec<PathItem>>,
    header: bool,
    align: u32,
) -> (r: Option<(OutputCtx, WInfoExec)>)
    requires
        tables_ok(p, tabs@),
        align < 8,
        path matches Some(items) ==> out0@.len() + 65536 * (items@.len() + 1) <= usize::MAX,
    ensures
        match write_pass(
            out0@,
            p,
            notrait,
            tables_view(tabs@),
            data@,
            match path {
                Some(items) => Some(items@),
                None => None,
            },
            header,
            align as nat,
        ) {
            None => r is None,
            Some((s, w)) => r matches Some((o, wi)) && o.state() == s && wi@ == w && o.wf() && o.be == (p & 1
                != 0) && o.copy_gt7 == (p & 2 != 0),
        },
{
    let ghost expected = write_pass(
        out0@,
        p,
        notrait,
        tables_view(tabs@),
        data@,
        match path {
            Some(items) => Some(items@),
            None => None,
        },
        header,
        align as nat,
    );
    let mut out = OutputCtx::new(vstd::slice::slice_to_vec(out0), p);
    out.output_bits(align, 0);
    proof {
        lemma_put_bits_len(WState { out: out0@, bitbuf: 0, bitcount: 0 }, p & 1 != 0, p & 2 != 0, align as nat, 0);
    }
    let pos = out.buf.len();
    let mut w = WInfoExec { traits: 0, max_len: 0, max_offset: 0, max_diff: 0, pos_diff: pos };
    match path {
        None => {},
        Some(items) => {
            out.output_gamma_code(16);
            out.output_bits(1, 0);
            if out.buf.len() > pos {
                w.max_diff = out.buf.len() - pos;
            }
            let ghost w_start = w@;
            let ghost s_start = out.state();
            let mut k: usize = 0;
            while k < items.len()
                invariant
                    expected == (match put_items(s_start, w_start, p, notrait, tables_view(tabs@), data@, items@, 0) {
                        None => None,
                        Some((s2, w2)) => Some(
                            (
                                if header {
                                    put_header(s2, p & 1 != 0, p & 2 != 0, p & 16 != 0, tables_view(tabs@))
                                } else {
                                    s2
                                },
                                w2,
                            ),
                        ),
                    }),
                    expected == write_pass(
                        out0@,
                        p,
                        notrait,
                        tables_view(tabs@),
                        data@,
                        match path {
                            Some(items) => Some(items@),
                            None => None,
                        },
                        header,
                        align as nat,
                    ),
                    k <= items@.len(),
                    out.wf(),
                    out.be == (p & 1 != 0),
                    out.copy_gt7 == (p & 2 != 0),
                    tables_ok(p, tabs@),
                    w.max_diff >= 0,
                    w.pos_diff <= out0@.len() + 65536 + 65535 * k,
                    out0@.len() + 65536 * (items@.len() + 1) <= usize::MAX,
                    put_items(s_start, w_start, p, notrait, tables_view(tabs@), data@, items@, 0) == put_items(
                        out.state(),
                        w@,
                        p,
                        notrait,
                        tables_view(tabs@),
                        data@,
                        items@,
                        k as nat,
                    ),
                decreases items@.len() - k,
            {
                let last = k + 1 == items.len();
                if !put_item_exec(&mut out, &mut w, p, notrait, tabs, data, items[k], last) {
                    return None;
                }
                k = k + 1;
            }
        },
    }
    if header {
        write_header(&mut out, p & 16 != 0, tabs);
    }
    Some((out, w))
}

pub proof fn lemma_put_bits_len(s: WState, be: bool, gt7: bool, count: nat, val: nat)
    ensures
        put_bits(s, be, gt7, count, val).out.len() <= s.out.len() + count,
    decreases count,
{
    if gt7 && count > 7 {
        lemma_put_bits_len(WState { out: s.out.push((val % 256) as u8), ..s }, be, gt7, (count - 8) as nat, val / 256);
    } else if count > 0 {
        lemma_put_bits_len(crate::original::bitstream::put_bit(s, be, val % 2 == 1), be, gt7, (count - 1) as nat, val / 2);
    }
}

/// Whether `b` begins with the bytes of `a`.
pub open spec fn begins_with(b: Seq<u8>, a: Seq<u8>) -> bool {
    &&& a.len() <= b.len()
    &&& forall|i: int| 0 <= i < a.len() ==> #[trigger] b[i] == a[i]
}

proof fn lemma_put_bits_grows(s: WState, be: bool, gt7: bool, count: nat, val: nat)
    ensures
        begins_with(put_bits(s, be, gt7, count, val).out, s.out),
    decreases count,
{
    if gt7 && count > 7 {
        let s1 = WState { out: s.out.push((val % 256) as u8), ..s };
        lemma_put_bits_grows(s1, be, gt7, (count - 8) as nat, val / 256);
        assert(begins_with(s1.out, s.out));
    } else if count > 0 {
        let s1 = put_bit(s, be, val % 2 == 1);
        lemma_put_bits_grows(s1, be, gt7, (count - 1) as nat, val / 2);
        assert(begins_with(s1.out, s.out));
    }
}

proof fn lemma_put_gamma_grows(s: WState, be: bool, code: nat)
    ensures
        begins_with(put_gamma(s, be, code).out, s.out),
    decreases code,
{
    if code > 0 {
        lemma_put_gamma_grows(s, be, (code - 1) as nat);
        let s1 = put_gamma(s, be, (code - 1) as nat);
        assert(begins_with(put_bit(s1, be, false).out, s1.out));
    } else {
        assert(begins_with(put_bit(s, be, true).out, s.out));
    }
}

proof fn lemma_put_bytes_grows(s: WState, data: Seq<u8>, from: nat, n: nat)
    ensures
        begins_with(put_bytes(s, data, from, n).out, s.out),
    decreases n,
{
    if n > 0 {
        let s1 = WState { out: s.out.push(data[from as int]), ..s };
        lemma_put_bytes_grows(s1, data, from + 1, (n - 1) as nat);
        assert(begins_with(s1.out, s.out));
    }
}

proof fn lemma_put_table_grows(s: WState, be: bool, gt7: bool, t: Seq<u8>, k: nat)
    ensures
        begins_with(put_table(s, be, gt7, t, k).out, s.out),
    decreases k,
{
    if k > 0 {
        let v = crate::original::encoding::table_entry(t, k);
        let s1 = put_entry(s, be, gt7, v);
        if gt7 {
            lemma_put_bits_grows(s, be, gt7, 1, (v >> 3u8) as nat);
            lemma_put_bits_grows(put_bits(s, be, gt7, 1, (v >> 3u8) as nat), be, gt7, 3, (v & 7u8) as nat);
        } else {
            lemma_put_bits_grows(s, be, gt7, 4, v as nat);
        }
        lemma_put_table_grows(s1, be, gt7, t, (k - 1) as nat);
    }
}

proof fn lemma_put_header_grows(s: WState, be: bool, gt7: bool, four: bool, tabs: Seq<Seq<u8>>)
    ensures
        begins_with(put_header(s, be, gt7, four, tabs).out, s.out),
{
    let s1 = put_table(s, be, gt7, tabs[1], 4);
    let s2 = put_table(s1, be, gt7, tabs[2], 16);
    let s3 = if four {
        put_table(s2, be, gt7, tabs[3], 16)
    } else {
        s2
    };
    let s4 = put_table(s3, be, gt7, tabs[if four {
        4int
    } else {
        3int
    }], 16);
    lemma_put_table_grows(s, be, gt7, tabs[1], 4);
    lemma_put_table_grows(s1, be, gt7, tabs[2], 16);
    if four {
        lemma_put_table_grows(s2, be, gt7, tabs[3], 16);
    }
    lemma_put_table_grows(s3, be, gt7, tabs[if four {
        4int
    } else {
        3int
    }], 16);
    lemma_put_table_grows(s4, be, gt7, tabs[0], 16);
}

proof fn lemma_put_int_grows(s: WState, be: bool, gt7: bool, t: Seq<u8>, arg: nat, gamma: bool, prefix: nat)
    ensures
        put_int(s, be, gt7, t, arg, gamma, prefix) matches Some(s2) ==> begins_with(s2.out, s.out),
{
    if let Some((k, start)) = find_interval(t, arg, 0, 1) {
        let s1 = put_bits(s, be, gt7, t[k as int] as nat, (arg - start) as nat);
        lemma_put_bits_grows(s, be, gt7, t[k as int] as nat, (arg - start) as nat);
        if gamma {
            lemma_put_gamma_grows(s1, be, k);
        } else {
            lemma_put_bits_grows(s1, be, gt7, prefix, k);
        }
    }
}

proof fn lemma_put_match_grows(s: WState, p: u8, notrait: u8, tabs: Seq<Seq<u8>>, len: nat, offset: nat, latest: nat)
    ensures
        put_match(s, p, notrait, tabs, len, offset, latest) matches Some(s2) ==> begins_with(s2.out, s.out),
{
    let be = p & 1 != 0;
    let gt7 = p & 2 != 0;
    let four = p & 16 != 0;
    if offset != latest && !(len == 1 && notrait & 2 != 0) {
        let (ti, prefix) = offset_table_of(four, len);
        lemma_put_int_grows(s, be, gt7, tabs[ti], offset, false, prefix);
    }
    let s1: Option<WState> = if offset != latest && !(len == 1 && notrait & 2 != 0) {
        let (ti, prefix) = offset_table_of(four, len);
        put_int(s, be, gt7, tabs[ti], offset, false, prefix)
    } else {
        Some(s)
    };
    if let Some(s1) = s1 {
        let v: nat = if offset == latest {
            1
        } else {
            0
        };
        lemma_put_bits_grows(s1, be, gt7, 1, v);
        let s2 = if latest > 0 {
            put_bits(s1, be, gt7, 1, v)
        } else {
            s1
        };
        lemma_put_int_grows(s2, be, gt7, tabs[0], len, true, 0);
    }
}

/// The safety offset noted after a sequence: the data it covers is added to
/// what is covered, and the noted offset is at least the one before and at
/// least the length of the stream written so far, the sequence included,
/// less the data covered up to and including it.
pub proof fn law_put_item_safety(s: WState, w: WInfo, p: u8, notrait: u8, tabs: Seq<Seq<u8>>, data: Seq<u8>, it: PathItem, last: bool)
    ensures
        put_item(s, w, p, notrait, tabs, data, it, last) matches Some((s2, w2)) ==> {
            &&& w2.pos_diff == w.pos_diff + it.len
            &&& w2.max_diff >= w.max_diff
            &&& (it.len > 0 ==> w2.max_diff >= s2.out.len() - w2.pos_diff)
        },
{
}

/// The data bytes that the sequences from `k` on cover.
pub open spec fn covered(items: Seq<PathItem>, k: nat) -> nat
    decreases items.len() - k,
{
    if k >= items.len() {
        0
    } else {
        items[k as int].len as nat + covered(items, k + 1)
    }
}

/// Over the sequences from `k` on: the noted safety offset never drops, and
/// after the last sequence (when it covers any data) it is at least the
/// length of the stream written less the data covered.
pub proof fn law_put_items_safety(s: WState, w: WInfo, p: u8, notrait: u8, tabs: Seq<Seq<u8>>, data: Seq<u8>, items: Seq<PathItem>, k: nat)
    ensures
        put_items(s, w, p, notrait, tabs, data, items, k) matches Some((s2, w2)) ==> {
            &&& w2.max_diff >= w.max_diff
            &&& w2.pos_diff == w.pos_diff + covered(items, k)
            &&& (k < items.len() && items.last().len > 0 ==> w2.max_diff >= s2.out.len() - w2.pos_diff)
        },
    decreases items.len() - k,
{
    if k < items.len() {
        law_put_item_safety(s, w, p, notrait, tabs, data, items[k as int], k + 1 == items.len());
        if let Some((s1, w1)) = put_item(s, w, p, notrait, tabs, data, items[k as int], k + 1 == items.len()) {
            law_put_items_safety(s1, w1, p, notrait, tabs, data, items, k + 1);
            if k + 1 == items.len() {
                assert(put_items(s1, w1, p, notrait, tabs, data, items, k + 1) == Some((s1, w1)));
            }
        }
    }
}

/// A writing pass of a path: the data covered is counted from where the
/// stream stood before its end marker, and the noted safety offset is at
/// least how far the end marker alone runs ahead.
pub proof fn law_write_pass_safety(out: Seq<u8>, p: u8, notrait: u8, tabs: Seq<Seq<u8>>, data: Seq<u8>, items: Seq<PathItem>, header: bool, align: nat)
    ensures
        write_pass(out, p, notrait, tabs, data, Some(items), header, align) matches Some((s, w)) ==> {
            let s0 = put_bits(WState { out, bitbuf: 0, bitcount: 0 }, p & 1 != 0, p & 2 != 0, align, 0);
            let s1 = put_bits(put_gamma(s0, p & 1 != 0, 16), p & 1 != 0, p & 2 != 0, 1, 0);
            &&& w.pos_diff == s0.out.len() + covered(items, 0)
            &&& w.max_diff >= s1.out.len() - s0.out.len()
            &&& w.max_diff >= 0
        },
{
    let be = p & 1 != 0;
    let gt7 = p & 2 != 0;
    let s0 = put_bits(WState { out, bitbuf: 0, bitcount: 0 }, be, gt7, align, 0);
    let pos = s0.out.len() as int;
    let w0 = WInfo { traits: 0, max_len: 0, max_offset: 0, max_diff: 0, pos_diff: pos };
    let s1 = put_bits(put_gamma(s0, be, 16), be, gt7, 1, 0);
    let diff = s1.out.len() - pos;
    let w1 = WInfo {
        max_diff: if diff > 0 {
            diff
        } else {
            0
        },
        ..w0
    };
    law_put_items_safety(s1, w1, p, notrait, tabs, data, items, 0);
}

/// What one sequence does to the notes, and that it only appends.
proof fn lemma_put_item_notes(s: WState, w: WInfo, p: u8, notrait: u8, tabs: Seq<Seq<u8>>, data: Seq<u8>, it: PathItem, last: bool)
    ensures
        put_item(s, w, p, notrait, tabs, data, it, last) matches Some((s2, w2)) ==> {
            &&& begins_with(s2.out, s.out)
            &&& (w.traits < 8 ==> w2.traits < 8)
            &&& w2.max_offset == (if it.len > 0 && it.offset != 0 && it.offset > w.max_offset {
                it.offset as nat
            } else {
                w.max_offset
            })
        },
{
    let be = p & 1 != 0;
    let gt7 = p & 2 != 0;
    let len = it.len as nat;
    let t = w.traits;
    assert(t < 8 ==> (t | 1u8) < 8 && (t | 2u8) < 8 && (t | 4u8) < 8) by (bit_vector);
    if len > 0 {
        if it.offset == 0 {
            if it.index + len <= data.len() {
                let split = last && p & 4 != 0;
                let n: nat = if split {
                    (len - 1) as nat
                } else {
                    len
                };
                let a = put_bytes(s, data, it.index as nat, n);
                let b = put_bits(a, be, gt7, 16, n);
                let c = put_gamma(b, be, 17);
                lemma_put_bytes_grows(s, data, it.index as nat, n);
                lemma_put_bits_grows(a, be, gt7, 16, n);
                lemma_put_gamma_grows(b, be, 17);
                lemma_put_bits_grows(c, be, gt7, 1, 0);
                let s1 = if len > 1 {
                    put_bits(c, be, gt7, 1, 0)
                } else {
                    s
                };
                let i: nat = if len > 1 {
                    n
                } else {
                    0
                };
                if i < len {
                    let sb = put_bytes(s1, data, (it.index + i) as nat, 1);
                    lemma_put_bytes_grows(s1, data, (it.index + i) as nat, 1);
                    lemma_put_bits_grows(sb, be, gt7, 1, 1);
                }
            }
        } else {
            lemma_put_match_grows(s, p, notrait, tabs, len, it.offset as nat, it.latest_offset as nat);
            if let Some(s1) = put_match(s, p, notrait, tabs, len, it.offset as nat, it.latest_offset as nat) {
                lemma_put_bits_grows(s1, be, gt7, 1, 0);
            }
        }
    }
}

/// What the sequences from `k` on do to the notes, and that they only
/// append.
proof fn lemma_put_items_notes(s: WState, w: WInfo, p: u8, notrait: u8, tabs: Seq<Seq<u8>>, data: Seq<u8>, items: Seq<PathItem>, k: nat)
    ensures
        put_items(s, w, p, notrait, tabs, data, items, k) matches Some((s2, w2)) ==> {
            &&& begins_with(s2.out, s.out)
            &&& (w.traits < 8 ==> w2.traits < 8)
            &&& w2.max_offset >= w.max_offset
            &&& forall|j: int|
                k <= j < items.len() && (#[trigger] items[j]).len > 0 && items[j].offset != 0 ==> items[j].offset
                    <= w2.max_offset
            &&& (w2.max_offset == w.max_offset || exists|j: int|
                k <= j < items.len() && (#[trigger] items[j]).len > 0 && items[j].offset != 0 && items[j].offset
                    == w2.max_offset)
        },
    decreases items.len() - k,
{
    if k < items.len() {
        lemma_put_item_notes(s, w, p, notrait, tabs, data, items[k as int], k + 1 == items.len());
        if let Some((s1, w1)) = put_item(s, w, p, notrait, tabs, data, items[k as int], k + 1 == items.len()) {
            lemma_put_items_notes(s1, w1, p, notrait, tabs, data, items, k + 1);
            if let Some((s2, w2)) = put_items(s1, w1, p, notrait, tabs, data, items, k + 1) {
                assert(items[k as int] == items[k as int]);
                if w2.max_offset != w.max_offset && w2.max_offset == w1.max_offset {
                    assert(items[k as int].offset == w2.max_offset);
                }
            }
        }
    }
}

/// What a writing pass notes, and that it only appends.
proof fn lemma_write_pass_notes(out: Seq<u8>, p: u8, notrait: u8, tabs: Seq<Seq<u8>>, data: Seq<u8>, path: Option<Seq<PathItem>>, header: bool, align: nat)
    ensures
        write_pass(out, p, notrait, tabs, data, path, header, align) matches Some((s, w)) ==> {
            &&& begins_with(s.out, out)
            &&& w.traits < 8
            &&& stream_max_offset(path, w.max_offset)
        },
{
    let be = p & 1 != 0;
    let gt7 = p & 2 != 0;
    let s00 = WState { out, bitbuf: 0, bitcount: 0 };
    let s0 = put_bits(s00, be, gt7, align, 0);
    lemma_put_bits_grows(s00, be, gt7, align, 0);
    let pos = s0.out.len() as int;
    let w0 = WInfo { traits: 0, max_len: 0, max_offset: 0, max_diff: 0, pos_diff: pos };
    let r: Option<(WState, WInfo)> = match path {
        None => Some((s0, w0)),
        Some(items) => {
            let g = put_gamma(s0, be, 16);
            lemma_put_gamma_grows(s0, be, 16);
            let s1 = put_bits(g, be, gt7, 1, 0);
            lemma_put_bits_grows(g, be, gt7, 1, 0);
            let diff = s1.out.len() - pos;
            let w1 = WInfo {
                max_diff: if diff > 0 {
                    diff
                } else {
                    0
                },
                ..w0
            };
            lemma_put_items_notes(s1, w1, p, notrait, tabs, data, items, 0);
            put_items(s1, w1, p, notrait, tabs, data, items, 0)
        },
    };
    if let Some((s2, w2)) = r {
        if header {
            lemma_put_header_grows(s2, be, gt7, p & 16 != 0, tabs);
        }
    }
}

/// Whether `m` is the largest offset of the sequences of `path` that copy
/// (0 when none does).
pub open spec fn stream_max_offset(path: Option<Seq<PathItem>>, m: nat) -> bool {
    match path {
        None => m == 0,
        Some(items) => {
            &&& forall|j: int|
                0 <= j < items.len() && (#[trigger] items[j]).len > 0 && items[j].offset != 0 ==> items[j].offset <= m
            &&& (m == 0 || exists|j: int|
                0 <= j < items.len() && (#[trigger] items[j]).len > 0 && items[j].offset != 0 && items[j].offset == m)
        },
    }
}

/// The written stream begins with the bytes it was appended to, only the
/// three trait bits can be noted, and the largest offset noted is the
/// largest offset of the sequences that copy.
pub proof fn law_write_stream_notes(out: Seq<u8>, p: u8, notrait: u8, tabs: Seq<Seq<u8>>, data: Seq<u8>, path: Option<Seq<PathItem>>, header: bool)
    ensures
        write_stream(out, p, notrait, tabs, data, path, header) matches Some((bytes, w)) ==> {
            &&& begins_with(bytes, out)
            &&& w.traits < 8
            &&& stream_max_offset(path, w.max_offset)
        },
{
    lemma_write_pass_notes(out, p, notrait, tabs, data, path, header, 0);
    if let Some((s1, w1)) = write_pass(out, p, notrait, tabs, data, path, header, 0) {
        let align_start = p & 8 != 0;
        if align_start {
            lemma_write_pass_notes(out, p, notrait, tabs, data, path, header, alignment(s1));
        }
        let second = if align_start {
            write_pass(out, p, notrait, tabs, data, path, header, alignment(s1))
        } else {
            Some((s1, w1))
        };
        if let Some((s2, w2)) = second {
            let f = flush(s2, p & 1 != 0, !align_start);
            assert(begins_with(f.out, s2.out));
        }
    }
}

/// Writes the crunched stream of `path` over `data`, appended to `out0`,
/// with the encoding tables `tabs` (see [`write_stream`]).
pub fn do_output_backwards(
    out0: &[u8],
    p: u8,
    notrait: u8,
    tabs: &Vec<Vec<u8>>,
    data: &[u8],
    path: Option<&Vec<PathItem>>,
    header: bool,
) -> (r: Option<(Vec<u8>, CrunchInfo)>)
    requires
        tables_ok(p, tabs@),
        path matches Some(items) ==> out0@.len() + 65536 * (items@.len() + 1) <= usize::MAX,
    ensures
        match write_stream(
            out0@,
            p,
            notrait,
            tables_view(tabs@),
            data@,
            match path {
                Some(items) => Some(items@),
                None => None,
            },
            header,
        ) {
            None => r is None,
            Some((bytes, w)) => r matches Some((v, info)) && v@ == bytes && info.traits_used == TraitFlags::of_num(
                w.traits,
            ) && info.max_len == w.max_len && info.max_offset == w.max_offset && info.needed_safety_offset
                == w.max_diff,
        },
        r matches Some((v, info)) ==> {
            &&& begins_with(v@, out0@)
            &&& info.traits_used.num() < 8
            &&& stream_max_offset(
                match path {
                    Some(items) => Some(items@),
                    None => None,
                },
                info.max_offset as nat,
            )
        },
{
    proof {
        law_write_stream_notes(out0@, p, notrait, tables_view(tabs@), data@, match path {
            Some(items) => Some(items@),
            None => None,
        }, header);
    }
    let align_start = p & 8 != 0;
    let (first, w1) = match write_pass_exec(out0, p, notrait, tabs, data, path, header, 0) {
        None => {
            return None;
        },
        Some(x) => x,
    };
    let (mut out, w) = if align_start {
        let align = first.output_bits_alignment();
        match write_pass_exec(out0, p, notrait, tabs, data, path, header, align) {
            None => {
                return None;
            },
            Some(x) => x,
        }
    } else {
        (first, w1)
    };
    out.output_bits_flush(!align_start);
    let info = CrunchInfo {
        traits_used: TraitFlags::from_num(w.traits),
        max_len: w.max_len,
        max_offset: w.max_offset as usize,
        needed_safety_offset: w.max_diff,
    };
    Some((out.buf, info))
}

} // verus!
