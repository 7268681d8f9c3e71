//! Finding the sequences that repeat in the data to crunch.
//!
//! For every position the finder keeps the run lengths of equal bytes
//! around it and a list of matches: the literal, then matches at greater
//! offsets (the data is crunched from its end, so a match copies bytes that
//! come later in the buffer). The matches of a position that is not marked
//! in the no-read buffer never copy from a marked byte.
use vstd::prelude::*;
use crate::original::stream::PathItem;
use crate::original::roundtrip::path_genuine;

verus! {

/// A candidate sequence: `len` bytes copied from `offset` bytes further on,
/// or a literal when `offset` is 0.
#[derive(Clone, Copy, Debug, PartialEq, Eq, Structural)]
pub struct Match {
    pub offset: u32,
    pub len: u16,
}

/// The bytes of an optional buffer.
pub open spec fn opt_view(o: Option<Vec<u8>>) -> Option<Seq<u8>> {
    match o {
        None => None,
        Some(n) => Some(n@),
    }
}

/// Whether byte `i` may be copied from.
pub open spec fn readable(noread: Option<Seq<u8>>, i: int) -> bool {
    match noread {
        None => true,
        Some(n) => n[i] == 0,
    }
}

/// `l + 1`, but at most `max_len`.
pub open spec fn capped_succ(l: u16, max_len: u16) -> u16 {
    if l + 1 > max_len {
        max_len
    } else {
        (l + 1) as u16
    }
}

/// The run before byte `i`: how many bytes in a row in front of it are equal
/// to it and may be copied from, at most `max_len`.
pub open spec fn rle_at(data: Seq<u8>, noread: Option<Seq<u8>>, max_len: u16, i: nat) -> u16
    decreases i,
{
    if i == 0 || i >= data.len() {
        0
    } else if readable(noread, i - 1) && data[i as int] == data[i - 1] {
        capped_succ(rle_at(data, noread, max_len, (i - 1) as nat), max_len)
    } else {
        0
    }
}

/// The byte that the backward run at `i` is compared with: the next one,
/// but for the last but one byte the first byte of the buffer.
pub open spec fn rle_r_peer(len: nat, i: nat) -> int {
    if i + 2 == len {
        0int
    } else {
        (i + 1) as int
    }
}

/// The run after byte `i`, at most `max_len`; 0 for the last byte.
pub open spec fn rle_r_at(data: Seq<u8>, noread: Option<Seq<u8>>, max_len: u16, i: nat) -> u16
    decreases data.len() - i,
{
    if i + 1 >= data.len() {
        0
    } else {
        let q = rle_r_peer(data.len(), i);
        if readable(noread, q) && data[i as int] == data[q] {
            capped_succ(rle_r_at(data, noread, max_len, i + 1), max_len)
        } else {
            0
        }
    }
}

/// The literal that every list of matches starts with.
pub open spec fn literal_match(max_len: u16) -> Match {
    Match {
        offset: 0,
        len: if max_len >= 1 {
            1
        } else {
            0
        },
    }
}

/// A list of matches for position `i`: the literal first, then matches that
/// copy from a byte equal to the one at `i`, no further away than
/// `max_offset` and inside the data, and no longer than `max_len` or than
/// the bytes from the start of the data up to `i`.
pub open spec fn matches_in_bounds(
    data: Seq<u8>,
    noread: Option<Seq<u8>>,
    max_len: u16,
    max_offset: u32,
    i: int,
    ms: Seq<Match>,
) -> bool {
    &&& ms.len() >= 1
    &&& ms[0] == literal_match(max_len)
    &&& forall|k: int|
        1 <= k < ms.len() ==> {
            let m = #[trigger] ms[k];
            &&& 1 <= m.offset <= max_offset
            &&& i + m.offset < data.len()
            &&& data[i + m.offset] == data[i]
            &&& m.len <= max_len
            &&& m.len <= i + 1
        }
}

/// The match finder of one buffer.
pub struct MatchCtx {
    pub data: Vec<u8>,
    pub noread: Option<Vec<u8>>,
    pub rle: Vec<u16>,
    pub rle_r: Vec<u16>,
    /// The matches of every position, the literal first; the later a match
    /// stands in its list, the better the finder found it.
    pub matches: Vec<Vec<Match>>,
    pub max_len: u16,
    pub max_offset: u32,
}

impl MatchCtx {
    pub open spec fn noread_view(&self) -> Option<Seq<u8>> {
        opt_view(self.noread)
    }

    /// The finder's tables are those of its data, and its matches lie in
    /// the data; those of a position that may be copied from copy bytes
    /// that agree.
    pub open spec fn wf(&self) -> bool {
        let d = self.data@;
        let nr = self.noread_view();
        &&& d.len() < 0x8000_0000
        &&& (self.noread matches Some(n) ==> n@.len() == d.len())
        &&& self.rle@.len() == d.len() + 1
        &&& self.rle_r@.len() == d.len() + 1
        &&& (forall|i: int| 0 <= i <= d.len() ==> #[trigger] self.rle@[i] == rle_at(d, nr, self.max_len, i as nat))
        &&& (forall|i: int| 0 <= i <= d.len() ==> #[trigger] self.rle_r@[i] == rle_r_at(d, nr, self.max_len, i as nat))
        &&& self.matches@.len() == d.len()
        &&& (forall|i: int|
            0 <= i < d.len() ==> matches_in_bounds(d, nr, self.max_len, self.max_offset, i, #[trigger] self.matches@[i]@))
        &&& (self.max_len >= 1 ==> forall|i: int|
            0 <= i < d.len() && readable(nr, i) ==> matches_copy(d, nr, i, #[trigger] self.matches@[i]@))
    }
}

/// Whether byte `i` may be copied from (see [`readable`]).
fn readable_exec(noread: &Option<Vec<u8>>, i: usize) -> (r: bool)
    requires
        noread matches Some(n) ==> i < n@.len(),
    ensures
        r == readable(
            opt_view(*noread),
            i as int,
        ),
{
    match noread {
        None => true,
        Some(n) => n[i] == 0,
    }
}

fn capped_succ_exec(l: u16, max_len: u16) -> (r: u16)
    ensures
        r == capped_succ(l, max_len),
{
    if l as u32 + 1 > max_len as u32 {
        max_len
    } else {
        l + 1
    }
}

/// The runs before each byte (see [`rle_at`]), one more entry than bytes.
fn compute_rle(data: &Vec<u8>, noread: &Option<Vec<u8>>, max_len: u16) -> (rle: Vec<u16>)
    requires
        noread matches Some(n) ==> n@.len() == data@.len(),
    ensures
        rle@.len() == data@.len() + 1,
        forall|i: int|
            0 <= i <= data@.len() ==> #[trigger] rle@[i] == rle_at(
                data@,
                opt_view(*noread),
                max_len,
                i as nat,
            ),
{
    let ghost nr = opt_view(*noread);
    let n = data.len();
    let mut rle: Vec<u16> = Vec::new();
    let mut i: usize = 0;
    while i < n
        invariant
            n == data@.len(),
            i <= n,
            rle@.len() == i,
            noread matches Some(nv) ==> nv@.len() == data@.len(),
            nr == opt_view(*noread),
            forall|k: int| 0 <= k < i ==> #[trigger] rle@[k] == rle_at(data@, nr, max_len, k as nat),
        decreases n - i,
    {
        let v: u16 = if i > 0 && readable_exec(noread, i - 1) && data[i] == data[i - 1] {
            capped_succ_exec(rle[i - 1], max_len)
        } else {
            0
        };
        rle.push(v);
        i = i + 1;
    }
    rle.push(0);
    rle
}

/// The runs after each byte (see [`rle_r_at`]), one more entry than bytes.
fn compute_rle_r(data: &Vec<u8>, noread: &Option<Vec<u8>>, max_len: u16) -> (rle_r: Vec<u16>)
    requires
        noread matches Some(n) ==> n@.len() == data@.len(),
        data@.len() < 0x8000_0000,
    ensures
        rle_r@.len() == data@.len() + 1,
        forall|i: int|
            0 <= i <= data@.len() ==> #[trigger] rle_r@[i] == rle_r_at(
                data@,
                opt_view(*noread),
                max_len,
                i as nat,
            ),
{
    let ghost nr = opt_view(*noread);
    let n = data.len();
    let mut rle_r: Vec<u16> = Vec::new();
    let mut k: usize = 0;
    while k <= n
        invariant
            n == data@.len(),
            n < 0x8000_0000,
            k <= n + 1,
            rle_r@.len() == k,
            forall|j: int| 0 <= j < k ==> #[trigger] rle_r@[j] == 0u16,
        decreases n + 1 - k,
    {
        rle_r.push(0);
        k = k + 1;
    }
    let mut i: usize = n;
    while i > 0
        invariant
            n == data@.len(),
            i <= n,
            rle_r@.len() == n + 1,
            noread matches Some(nv) ==> nv@.len() == data@.len(),
            nr == opt_view(*noread),
            forall|j: int| i <= j <= n ==> #[trigger] rle_r@[j] == rle_r_at(data@, nr, max_len, j as nat),
            forall|j: int| 0 <= j < i ==> #[trigger] rle_r@[j] == 0u16,
        decreases i,
    {
        i = i - 1;
        if i + 1 < n {
            let q: usize = if i + 2 == n {
                0
            } else {
                i + 1
            };
            let v: u16 = if readable_exec(noread, q) && data[i] == data[q] {
                capped_succ_exec(rle_r[i + 1], max_len)
            } else {
                0
            };
            rle_r.set(i, v);
        } else {
            assert(rle_r_at(data@, nr, max_len, i as nat) == 0);
            assert(rle_r@[i as int] == 0);
        }
    }
    rle_r
}

/// A position that matches may copy from, and the next such position that
/// holds the same byte.
pub struct Node {
    pub index: usize,
    pub next: Option<usize>,
}

/// The positions of the finder: each node lies in the data, and its next
/// node lies further on and holds the same byte; `single` gives for each
/// position its node, if it has one.
pub open spec fn graph_wf(data: Seq<u8>, nodes: Seq<Node>, single: Seq<Option<usize>>) -> bool {
    &&& single.len() == data.len()
    &&& forall|k: int|
        0 <= k < nodes.len() ==> {
            let nd = #[trigger] nodes[k];
            &&& nd.index < data.len()
            &&& match nd.next {
                None => true,
                Some(m) => m < nodes.len() && nodes[m as int].index > nd.index && data[nodes[m as int].index as int]
                    == data[nd.index as int],
            }
        }
    &&& forall|i: int|
        0 <= i < single.len() ==> match #[trigger] single[i] {
            None => true,
            Some(k) => k < nodes.len() && nodes[k as int].index == i,
        }
}

/// The nodes with the link of each node in `chain[0..k]` set to `next`, in
/// that order.
pub open spec fn relink(nodes: Seq<Node>, chain: Seq<usize>, k: nat, next: Option<usize>) -> Seq<Node>
    decreases k,
{
    if k == 0 {
        nodes
    } else {
        let r = relink(nodes, chain, (k - 1) as nat, next);
        let x = chain[k - 1] as int;
        r.update(x, Node { index: r[x].index, next })
    }
}

/// What the forward pass keeps between positions: the nodes, the node of
/// each position, the run lengths seen, the last node made, and the nodes
/// that wait to be linked to the next node that may be copied from.
pub type FwdState = (Seq<Node>, Seq<Option<usize>>, Seq<bool>, Option<usize>, Seq<usize>);

/// The forward pass at position `i` (see `link_forward`).
#[verifier::opaque]
pub open spec fn fwd_step(
    data: Seq<u8>,
    nr: Option<Seq<u8>>,
    rle: Seq<u16>,
    rle_r: Seq<u16>,
    favor_speed: bool,
    c: u8,
    s: FwdState,
    i: int,
) -> FwdState {
    if data[i] != c {
        s
    } else {
        let rle_len = rle[i];
        let fresh = !s.2[rle_len as int];
        if !(fresh && rle_r[i] > 16) && !(favor_speed && rle_r[i] != 0 && rle[i] != 0) {
            let np = s.0.len() as usize;
            let nodes1 = s.0.push(Node { index: i as usize, next: None });
            let map1 = s.2.update(rle_len as int, true);
            let nodes2 = match s.3 {
                Some(p) => nodes1.update(p as int, Node { index: nodes1[p as int].index, next: Some(np) }),
                None => nodes1,
            };
            let chain2 = match s.3 {
                Some(p) => if readable(nr, nodes1[p as int].index as int) {
                    seq![p]
                } else {
                    s.4
                },
                None => s.4,
            };
            let nodes3 = if chain2.len() > 0 && readable(nr, i) {
                relink(nodes2, chain2, chain2.len(), Some(np))
            } else {
                nodes2
            };
            let chain3 = if chain2.len() > 0 && readable(nr, i) {
                Seq::<usize>::empty()
            } else if chain2.len() > 0 {
                chain2.push(np)
            } else {
                chain2
            };
            (nodes3, s.1.update(i, Some(np)), map1, Some(np), chain3)
        } else {
            s
        }
    }
}

/// A position that gets no node leaves the forward pass as it was.
proof fn lemma_fwd_skip(
    data: Seq<u8>,
    nr: Option<Seq<u8>>,
    rle: Seq<u16>,
    rle_r: Seq<u16>,
    favor_speed: bool,
    c: u8,
    s: FwdState,
    i: int,
)
    requires
        data[i] != c || !(!(!s.2[rle[i] as int] && rle_r[i] > 16) && !(favor_speed && rle_r[i] != 0 && rle[i] != 0)),
    ensures
        fwd_step(data, nr, rle, rle_r, favor_speed, c, s, i) == s,
{
    reveal(fwd_step);
}

/// A position that gets a node: the forward pass as `fwd_step` spells it.
proof fn lemma_fwd_take(
    data: Seq<u8>,
    nr: Option<Seq<u8>>,
    rle: Seq<u16>,
    rle_r: Seq<u16>,
    favor_speed: bool,
    c: u8,
    s: FwdState,
    i: int,
    np: usize,
    nodes1: Seq<Node>,
    nodes2: Seq<Node>,
    chain2: Seq<usize>,
    t: FwdState,
)
    requires
        data[i] == c,
        !(!s.2[rle[i] as int] && rle_r[i] > 16) && !(favor_speed && rle_r[i] != 0 && rle[i] != 0),
        np == s.0.len(),
        nodes1 == s.0.push(Node { index: i as usize, next: None }),
        nodes2 == (match s.3 {
            Some(p) => nodes1.update(p as int, Node { index: nodes1[p as int].index, next: Some(np) }),
            None => nodes1,
        }),
        chain2 == (match s.3 {
            Some(p) => if readable(nr, nodes1[p as int].index as int) {
                seq![p]
            } else {
                s.4
            },
            None => s.4,
        }),
        t.0 == (if chain2.len() > 0 && readable(nr, i) {
            relink(nodes2, chain2, chain2.len(), Some(np))
        } else {
            nodes2
        }),
        t.4 == (if chain2.len() > 0 && readable(nr, i) {
            Seq::<usize>::empty()
        } else if chain2.len() > 0 {
            chain2.push(np)
        } else {
            chain2
        }),
        t.1 == s.1.update(i, Some(np)),
        t.2 == s.2.update(rle[i] as int, true),
        t.3 == Some(np),
    ensures
        fwd_step(data, nr, rle, rle_r, favor_speed, c, s, i) == t,
{
    reveal(fwd_step);
}

/// The forward pass over the positions before `i`, from `init`.
pub open spec fn fwd_run(
    data: Seq<u8>,
    nr: Option<Seq<u8>>,
    rle: Seq<u16>,
    rle_r: Seq<u16>,
    favor_speed: bool,
    c: u8,
    init: FwdState,
    i: nat,
) -> FwdState
    decreases i,
{
    if i == 0 {
        init
    } else {
        fwd_step(data, nr, rle, rle_r, favor_speed, c, fwd_run(data, nr, rle, rle_r, favor_speed, c, init, (i - 1) as nat), i - 1)
    }
}

/// The whole forward pass for byte `c` from the nodes `nodes`: the nodes,
/// the node of each position and the run lengths seen at the end, the
/// nodes still waiting left without a link.
pub open spec fn fwd_pass(
    data: Seq<u8>,
    nr: Option<Seq<u8>>,
    rle: Seq<u16>,
    rle_r: Seq<u16>,
    favor_speed: bool,
    c: u8,
    nodes: Seq<Node>,
    single: Seq<Option<usize>>,
) -> (Seq<Node>, Seq<Option<usize>>, Seq<bool>) {
    let init: FwdState = (nodes, single, Seq::new(65536, |j: int| false), None, Seq::empty());
    let e = fwd_run(data, nr, rle, rle_r, favor_speed, c, init, data.len());
    (relink(e.0, e.4, e.4.len(), None), e.1, e.2)
}

/// What the backward pass keeps between positions: the nodes, the node of
/// each position, the run lengths seen, and the nearest later node that
/// may be copied from.
pub type BwdState = (Seq<Node>, Seq<Option<usize>>, Seq<bool>, Option<usize>);

/// The run length noted for a position whose run after it ends there: one
/// more than its run before it (0 past 65535).
pub open spec fn next_run_len(l: u16) -> int {
    if l == 65535 {
        0
    } else {
        l + 1
    }
}

/// The backward pass at position `i` (see `link_backward`).
#[verifier::opaque]
pub open spec fn bwd_step(data: Seq<u8>, nr: Option<Seq<u8>>, rle: Seq<u16>, rle_r: Seq<u16>, c: u8, s: BwdState, i: int) -> BwdState {
    if data[i] != c {
        s
    } else {
        let rle_len = rle_r[i];
        let add = s.1[i] is None && s.2[rle_len as int] && rle_len > 0 && s.3 is Some;
        let nodes1 = if add {
            s.0.push(Node { index: i as usize, next: s.3 })
        } else {
            s.0
        };
        let single1 = if add {
            s.1.update(i, Some(s.0.len() as usize))
        } else {
            s.1
        };
        let prev1 = match s.1[i] {
            Some(k) => if readable(nr, i) {
                Some(k)
            } else {
                s.3
            },
            None => s.3,
        };
        let map1 = if rle_r[i] == 0 {
            s.2.update(next_run_len(rle[i]), true)
        } else {
            s.2
        };
        (nodes1, single1, map1, prev1)
    }
}

proof fn lemma_bwd_step(data: Seq<u8>, nr: Option<Seq<u8>>, rle: Seq<u16>, rle_r: Seq<u16>, c: u8, s: BwdState, i: int, t: BwdState)
    requires
        data[i] != c ==> t == s,
        data[i] == c ==> {
            let rle_len = rle_r[i];
            let add = s.1[i] is None && s.2[rle_len as int] && rle_len > 0 && s.3 is Some;
            &&& t.0 == (if add {
                s.0.push(Node { index: i as usize, next: s.3 })
            } else {
                s.0
            })
            &&& t.1 == (if add {
                s.1.update(i, Some(s.0.len() as usize))
            } else {
                s.1
            })
            &&& t.3 == (match s.1[i] {
                Some(k) => if readable(nr, i) {
                    Some(k)
                } else {
                    s.3
                },
                None => s.3,
            })
            &&& t.2 == (if rle_r[i] == 0 {
                s.2.update(next_run_len(rle[i]), true)
            } else {
                s.2
            })
        },
    ensures
        bwd_step(data, nr, rle, rle_r, c, s, i) == t,
{
    reveal(bwd_step);
}

/// The backward pass over the positions from `i` to the end, from `init`.
pub open spec fn bwd_run(data: Seq<u8>, nr: Option<Seq<u8>>, rle: Seq<u16>, rle_r: Seq<u16>, c: u8, init: BwdState, i: nat) -> BwdState
    decreases data.len() - i,
{
    if i >= data.len() {
        init
    } else {
        bwd_step(data, nr, rle, rle_r, c, bwd_run(data, nr, rle, rle_r, c, init, i + 1), i as int)
    }
}

/// The whole backward pass for byte `c` from the nodes `nodes`: the
/// nodes, the node of each position and the run lengths seen at the end.
pub open spec fn bwd_pass(
    data: Seq<u8>,
    nr: Option<Seq<u8>>,
    rle: Seq<u16>,
    rle_r: Seq<u16>,
    c: u8,
    nodes: Seq<Node>,
    single: Seq<Option<usize>>,
) -> (Seq<Node>, Seq<Option<usize>>, Seq<bool>) {
    let init: BwdState = (nodes, single, Seq::new(65536, |j: int| false), None);
    let e = bwd_run(data, nr, rle, rle_r, c, init, 0);
    (e.0, e.1, e.2)
}

/// Sets all `len` entries of `map` to false.
fn clear_map(map: &mut Vec<bool>, len: usize)
    requires
        old(map)@.len() == len,
    ensures
        final(map)@ == Seq::new(len as nat, |j: int| false),
{
    let mut k: usize = 0;
    while k < len
        invariant
            map@.len() == len,
            k <= len,
            forall|j: int| 0 <= j < k ==> !#[trigger] map@[j],
        decreases len - k,
    {
        map.set(k, false);
        k = k + 1;
    }
    assert(map@ =~= Seq::new(len as nat, |j: int| false));
}

/// The forward pass for byte `c`: a node for each position of `c` whose run
/// length has not been seen yet or whose run after it is short, linked to
/// the next node that may be copied from.
#[verifier::spinoff_prover]
#[verifier::rlimit(50)]
fn link_forward(
    data: &Vec<u8>,
    noread: &Option<Vec<u8>>,
    rle: &Vec<u16>,
    rle_r: &Vec<u16>,
    favor_speed: bool,
    c: u8,
    nodes: &mut Vec<Node>,
    single: &mut Vec<Option<usize>>,
    rle_map: &mut Vec<bool>,
)
    requires
        graph_wf(data@, old(nodes)@, old(single)@),
        noread matches Some(n) ==> n@.len() == data@.len(),
        rle@.len() == data@.len() + 1,
        rle_r@.len() == data@.len() + 1,
        old(rle_map)@.len() == 65536,
    ensures
        graph_wf(data@, final(nodes)@, final(single)@),
        final(rle_map)@.len() == 65536,
        links_ok(opt_view(*noread), old(nodes)@, old(single)@) ==> links_ok(opt_view(*noread), final(nodes)@, final(single)@),
        (final(nodes)@, final(single)@, final(rle_map)@) == fwd_pass(
            data@,
            opt_view(*noread),
            rle@,
            rle_r@,
            favor_speed,
            c,
            old(nodes)@,
            old(single)@,
        ),
{
    let ghost nr = opt_view(*noread);
    let ghost init: FwdState = (nodes@, single@, Seq::new(65536, |j: int| false), None, Seq::empty());
    clear_map(rle_map, 65536);
    let n = data.len();
    let mut prev: Option<usize> = None;
    let mut chain: Vec<usize> = Vec::new();
    assert(chain@ =~= Seq::<usize>::empty());
    assert(links_ok(nr, init.0, init.1) ==> fwd_links(data@, nr, (nodes@, single@, rle_map@, prev, chain@))) by {
        reveal(fwd_links);
        assert(nodes@.len() == nodes.len());
    }
    let mut i: usize = 0;
    while i < n
        invariant
            n == data@.len(),
            i <= n,
            graph_wf(data@, nodes@, single@),
            noread matches Some(nv) ==> nv@.len() == data@.len(),
            rle@.len() == n + 1,
            rle_r@.len() == n + 1,
            rle_map@.len() == 65536,
            prev matches Some(p) ==> p < nodes@.len() && nodes@[p as int].index < i && data@[nodes@[p as int].index as int] == c,
            forall|j: int|
                0 <= j < chain@.len() ==> #[trigger] chain@[j] < nodes@.len() && nodes@[chain@[j] as int].index
                    < i && data@[nodes@[chain@[j] as int].index as int] == c,
            nr == opt_view(*noread),
            (nodes@, single@, rle_map@, prev, chain@) == fwd_run(data@, nr, rle@, rle_r@, favor_speed, c, init, i as nat),
            links_ok(nr, init.0, init.1) ==> fwd_links(data@, nr, (nodes@, single@, rle_map@, prev, chain@)),
        decreases n - i,
    {
        let ghost s0: FwdState = (nodes@, single@, rle_map@, prev, chain@);
        if data[i] == c {
            let rle_len = rle[i];
            let fresh_len = !rle_map[rle_len as usize];
            if !(fresh_len && rle_r[i] > 16) && !(favor_speed && rle_r[i] != 0 && rle[i] != 0) {
                let np = nodes.len();
                nodes.push(Node { index: i, next: None });
                rle_map.set(rle_len as usize, true);
                let np_readable = readable_exec(noread, i);
                let ghost nodes1 = nodes@;
                match prev {
                    Some(p) => {
                        let pi = nodes[p].index;
                        nodes.set(p, Node { index: pi, next: Some(np) });
                        if readable_exec(noread, pi) {
                            chain = Vec::new();
                            chain.push(p);
                            assert(chain@ =~= seq![p]);
                        }
                    },
                    None => {},
                }
                let ghost nodes2 = nodes@;
                let ghost chain2 = chain@;
                if chain.len() > 0 && np_readable {
                    let ghost before = nodes@;
                    let mut k: usize = 0;
                    while k < chain.len()
                        invariant
                            nodes@ == relink(before, chain@, k as nat, Some(np)),
                            k <= chain@.len(),
                            graph_wf(data@, nodes@, single@),
                            nodes@.len() == before.len(),
                            forall|x: int| 0 <= x < before.len() ==> #[trigger] nodes@[x].index == before[x].index,
                            np < nodes@.len(),
                            nodes@[np as int].index == i,
                            data@[i as int] == c,
                            n == data@.len(),
                            i < n,
                            forall|j: int|
                                0 <= j < chain@.len() ==> #[trigger] chain@[j] < nodes@.len()
                                    && nodes@[chain@[j] as int].index < i && data@[nodes@[chain@[j] as int].index as int]
                                    == c,
                        decreases chain@.len() - k,
                    {
                        let x = chain[k];
                        let xi = nodes[x].index;
                        nodes.set(x, Node { index: xi, next: Some(np) });
                        k = k + 1;
                    }
                    chain = Vec::new();
                    assert(chain@ =~= Seq::<usize>::empty());
                } else if chain.len() > 0 {
                    chain.push(np);
                }
                single.set(i, Some(np));
                prev = Some(np);
                proof {
                    lemma_fwd_take(data@, nr, rle@, rle_r@, favor_speed, c, s0, i as int, np, nodes1, nodes2, chain2, (nodes@, single@, rle_map@, prev, chain@));
                }
            } else {
                proof {
                    lemma_fwd_skip(data@, nr, rle@, rle_r@, favor_speed, c, s0, i as int);
                }
            }
        } else {
            proof {
                lemma_fwd_skip(data@, nr, rle@, rle_r@, favor_speed, c, s0, i as int);
            }
        }
        assert((nodes@, single@, rle_map@, prev, chain@) == fwd_step(data@, nr, rle@, rle_r@, favor_speed, c, s0, i as int));
        assert(links_ok(nr, init.0, init.1) ==> fwd_links(data@, nr, (nodes@, single@, rle_map@, prev, chain@))) by {
            assert(nodes@.len() == nodes.len());
            if links_ok(nr, init.0, init.1) {
                lemma_fwd_step_links(data@, nr, rle@, rle_r@, favor_speed, c, s0, i as int);
            }
        }
        i = i + 1;
    }
    let ghost e: FwdState = (nodes@, single@, rle_map@, prev, chain@);
    let mut k: usize = 0;
    while k < chain.len()
        invariant
            nodes@ == relink(e.0, chain@, k as nat, None),
            chain@ == e.4,
            k <= chain@.len(),
            graph_wf(data@, nodes@, single@),
            n == data@.len(),
            forall|j: int| 0 <= j < chain@.len() ==> #[trigger] chain@[j] < nodes@.len(),
        decreases chain@.len() - k,
    {
        let x = chain[k];
        let xi = nodes[x].index;
        nodes.set(x, Node { index: xi, next: None });
        k = k + 1;
    }
    proof {
        if links_ok(nr, init.0, init.1) {
            lemma_fwd_end_links(data@, nr, e);
        }
    }
}

/// The backward pass for byte `c`: positions of `c` without a node get one
/// when their run after them has been seen as a run before a later
/// position, linked to the nearest later node that may be copied from.
fn link_backward(
    data: &Vec<u8>,
    noread: &Option<Vec<u8>>,
    rle: &Vec<u16>,
    rle_r: &Vec<u16>,
    c: u8,
    nodes: &mut Vec<Node>,
    single: &mut Vec<Option<usize>>,
    rle_map: &mut Vec<bool>,
)
    requires
        graph_wf(data@, old(nodes)@, old(single)@),
        noread matches Some(n) ==> n@.len() == data@.len(),
        rle@.len() == data@.len() + 1,
        rle_r@.len() == data@.len() + 1,
        old(rle_map)@.len() == 65536,
    ensures
        graph_wf(data@, final(nodes)@, final(single)@),
        final(rle_map)@.len() == 65536,
        links_ok(opt_view(*noread), old(nodes)@, old(single)@) ==> links_ok(opt_view(*noread), final(nodes)@, final(single)@),
        (final(nodes)@, final(single)@, final(rle_map)@) == bwd_pass(
            data@,
            opt_view(*noread),
            rle@,
            rle_r@,
            c,
            old(nodes)@,
            old(single)@,
        ),
{
    let ghost nr = opt_view(*noread);
    let ghost init: BwdState = (nodes@, single@, Seq::new(65536, |j: int| false), None);
    clear_map(rle_map, 65536);
    let n = data.len();
    let mut prev: Option<usize> = None;
    let mut i: usize = n;
    assert(links_ok(nr, init.0, init.1) ==> bwd_links(data@, nr, (nodes@, single@, rle_map@, prev))) by {
        reveal(bwd_links);
        assert(nodes@.len() == nodes.len());
    }
    while i > 0
        invariant
            n == data@.len(),
            i <= n,
            graph_wf(data@, nodes@, single@),
            noread matches Some(nv) ==> nv@.len() == data@.len(),
            rle@.len() == n + 1,
            rle_r@.len() == n + 1,
            rle_map@.len() == 65536,
            prev matches Some(p) ==> p < nodes@.len() && nodes@[p as int].index >= i && data@[nodes@[p as int].index as int] == c,
            nr == opt_view(*noread),
            (nodes@, single@, rle_map@, prev) == bwd_run(data@, nr, rle@, rle_r@, c, init, i as nat),
            links_ok(nr, init.0, init.1) ==> bwd_links(data@, nr, (nodes@, single@, rle_map@, prev)),
        decreases i,
    {
        i = i - 1;
        let ghost s0: BwdState = (nodes@, single@, rle_map@, prev);
        if data[i] == c {
            let rle_len = rle_r[i];
            match single[i] {
                None => {
                    if rle_map[rle_len as usize] && rle_len > 0 {
                        match prev {
                            Some(p) => {
                                let np = nodes.len();
                                nodes.push(Node { index: i, next: Some(p) });
                                single.set(i, Some(np));
                            },
                            None => {},
                        }
                    }
                },
                Some(k) => {
                    if readable_exec(noread, i) {
                        prev = Some(k);
                    }
                },
            }
            if rle_r[i] == 0 {
                let next_len: u16 = if rle[i] == 65535 {
                    0
                } else {
                    rle[i] + 1
                };
                rle_map.set(next_len as usize, true);
            }
        }
        proof {
            lemma_bwd_step(data@, nr, rle@, rle_r@, c, s0, i as int, (nodes@, single@, rle_map@, prev));
            assert(nodes@.len() == nodes.len());
            if links_ok(nr, init.0, init.1) {
                lemma_bwd_step_links(data@, nr, rle@, rle_r@, c, s0, i as nat);
            }
        }
    }
    proof {
        reveal(bwd_links);
    }
}

/// A match of `len` bytes, but at most `max_len`, from `offset` on.
pub open spec fn capped_match(len: int, offset: int, max_len: u16) -> Match {
    Match {
        offset: offset as u32,
        len: if len > max_len {
            max_len
        } else {
            len as u16
        },
    }
}

/// Whether byte `a` equals byte `b` and `b` may be copied from.
pub open spec fn copies_at(data: Seq<u8>, nr: Option<Seq<u8>>, a: int, b: int) -> bool {
    readable(nr, b) && data[a] == data[b]
}

/// Checks that the `len` bytes from `pos` on agree with those `offset`
/// further on, jumping over the runs that both places start: what is left
/// of `len` where a pair disagrees, or 1 or less when all agree.
pub open spec fn check_run(data: Seq<u8>, nr: Option<Seq<u8>>, rle_r: Seq<u16>, pos: int, len: int, offset: int) -> int
    decreases (if len > 0 {
        len
    } else {
        0
    }),
{
    if len > 1 && copies_at(data, nr, pos, pos + offset) {
        let o: int = if rle_r[pos] < rle_r[pos + offset] {
            rle_r[pos] as int
        } else {
            rle_r[pos + offset] as int
        };
        check_run(data, nr, rle_r, pos + 1 + o, len - (1 + o), offset)
    } else {
        len
    }
}

/// Grows a match backwards from `pos` while the bytes agree with those
/// `offset` further on, up to one more than `max_len`: its length and the
/// place before it.
pub open spec fn grow_back(data: Seq<u8>, nr: Option<Seq<u8>>, max_len: u16, pos: int, len: int, offset: int) -> (int, int)
    decreases pos + 1,
{
    if len <= max_len && pos >= 0 && copies_at(data, nr, pos, pos + offset) {
        grow_back(data, nr, max_len, pos - 1, len + 1, offset)
    } else {
        (len, pos)
    }
}

/// The index in the data of node `np`, or the end of the data.
pub open spec fn node_place(data: Seq<u8>, nodes: Seq<Node>, np: Option<usize>) -> int {
    match np {
        Some(k) => if k < nodes.len() {
            nodes[k as int].index as int
        } else {
            data.len() as int
        },
        None => data.len() as int,
    }
}

/// The matches of position `index`, from the list `ms` whose last match is
/// `mp`, walking the nodes from `np` on. At each node of the same byte
/// within `max_offset`: when the best match so far (of more than one byte)
/// does not hold at the node's offset, a 1-byte match for an offset below
/// 17, and the longest match at that offset grown from the best length
/// so far, kept when it is longer (or as long, without `favor_speed`);
/// the walk ends past `max_offset`, at a match longer than `max_len`, or
/// at the start of the data.
pub open spec fn calc_from(
    data: Seq<u8>,
    nr: Option<Seq<u8>>,
    rle_r: Seq<u16>,
    nodes: Seq<Node>,
    max_len: u16,
    max_offset: u32,
    favor_speed: bool,
    index: int,
    ms: Seq<Match>,
    mp: Match,
    np: Option<usize>,
) -> Seq<Match>
    decreases data.len() - node_place(data, nodes, np),
{
    match np {
        None => ms,
        Some(k) => if k >= nodes.len() || nodes[k as int].index >= data.len() {
            ms
        } else {
            let ni = nodes[k as int].index as int;
            let nxt = nodes[k as int].next;
            let go_on = ni < node_place(data, nodes, nxt) <= data.len();
            if ni > index + max_offset {
                ms
            } else {
                let mp_len: int = if mp.offset > 0 {
                    mp.len as int
                } else {
                    0
                };
                let offset = ni - index;
                let left = check_run(data, nr, rle_r, index + 1 - mp_len, mp_len, offset);
                if left <= 1 {
                    let m1 = capped_match(1, offset, max_len);
                    let ms1 = if offset < 17 {
                        ms.push(m1)
                    } else {
                        ms
                    };
                    let mp1 = if offset < 17 {
                        m1
                    } else {
                        mp
                    };
                    let (len2, pos2) = grow_back(data, nr, max_len, index - mp_len, mp_len, offset);
                    let keep = len2 > mp_len || (!favor_speed && len2 == mp_len);
                    let m2 = capped_match(index - pos2, offset, max_len);
                    let ms2 = if keep {
                        ms1.push(m2)
                    } else {
                        ms1
                    };
                    let mp2 = if keep {
                        m2
                    } else {
                        mp1
                    };
                    if len2 > max_len || pos2 < 0 || !go_on {
                        ms2
                    } else {
                        calc_from(data, nr, rle_r, nodes, max_len, max_offset, favor_speed, index, ms2, mp2, nxt)
                    }
                } else if !go_on {
                    ms
                } else {
                    calc_from(data, nr, rle_r, nodes, max_len, max_offset, favor_speed, index, ms, mp, nxt)
                }
            }
        },
    }
}

/// Whether every node that a walk of the nodes from `np` for position
/// `index` meets lies no more than `m` bytes after `index`.
pub open spec fn walk_within(data: Seq<u8>, nodes: Seq<Node>, index: int, np: Option<usize>, m: int) -> bool
    decreases data.len() - node_place(data, nodes, np),
{
    match np {
        None => true,
        Some(k) => if k >= nodes.len() || nodes[k as int].index >= data.len() {
            true
        } else {
            let ni = nodes[k as int].index as int;
            let nxt = nodes[k as int].next;
            let go_on = ni < node_place(data, nodes, nxt) <= data.len();
            &&& ni <= index + m
            &&& (go_on ==> walk_within(data, nodes, index, nxt, m))
        },
    }
}

proof fn lemma_calc_from_max_offset(
    data: Seq<u8>,
    nr: Option<Seq<u8>>,
    rle_r: Seq<u16>,
    nodes: Seq<Node>,
    max_len: u16,
    m1: u32,
    m2: u32,
    favor_speed: bool,
    index: int,
    ms: Seq<Match>,
    mp: Match,
    np: Option<usize>,
)
    requires
        m1 <= m2,
        walk_within(data, nodes, index, np, m1 as int),
    ensures
        calc_from(data, nr, rle_r, nodes, max_len, m1, favor_speed, index, ms, mp, np) == calc_from(
            data,
            nr,
            rle_r,
            nodes,
            max_len,
            m2,
            favor_speed,
            index,
            ms,
            mp,
            np,
        ),
    decreases data.len() - node_place(data, nodes, np),
{
    match np {
        None => {},
        Some(k) => {
            if !(k >= nodes.len() || nodes[k as int].index >= data.len()) {
                let ni = nodes[k as int].index as int;
                let nxt = nodes[k as int].next;
                let go_on = ni < node_place(data, nodes, nxt) <= data.len();
                let mp_len: int = if mp.offset > 0 {
                    mp.len as int
                } else {
                    0
                };
                let offset = ni - index;
                let left = check_run(data, nr, rle_r, index + 1 - mp_len, mp_len, offset);
                if left <= 1 {
                    let m1m = capped_match(1, offset, max_len);
                    let ms1 = if offset < 17 {
                        ms.push(m1m)
                    } else {
                        ms
                    };
                    let mp1 = if offset < 17 {
                        m1m
                    } else {
                        mp
                    };
                    let (len2, pos2) = grow_back(data, nr, max_len, index - mp_len, mp_len, offset);
                    let keep = len2 > mp_len || (!favor_speed && len2 == mp_len);
                    let m2m = capped_match(index - pos2, offset, max_len);
                    let ms2 = if keep {
                        ms1.push(m2m)
                    } else {
                        ms1
                    };
                    let mp2 = if keep {
                        m2m
                    } else {
                        mp1
                    };
                    if !(len2 > max_len || pos2 < 0 || !go_on) {
                        lemma_calc_from_max_offset(
                            data,
                            nr,
                            rle_r,
                            nodes,
                            max_len,
                            m1,
                            m2,
                            favor_speed,
                            index,
                            ms2,
                            mp2,
                            nxt,
                        );
                    }
                } else if go_on {
                    lemma_calc_from_max_offset(
                        data,
                        nr,
                        rle_r,
                        nodes,
                        max_len,
                        m1,
                        m2,
                        favor_speed,
                        index,
                        ms,
                        mp,
                        nxt,
                    );
                }
            }
        },
    }
}

/// The matches that the finder keeps for position `index`: the literal,
/// then those found walking the nodes after the node of `index` (see
/// [`calc_from`]).
pub open spec fn calc_matches(
    data: Seq<u8>,
    nr: Option<Seq<u8>>,
    rle_r: Seq<u16>,
    nodes: Seq<Node>,
    single: Seq<Option<usize>>,
    max_len: u16,
    max_offset: u32,
    favor_speed: bool,
    index: int,
) -> Seq<Match> {
    let lit = capped_match(1, 0, max_len);
    let np = match single[index] {
        Some(k) => if k < nodes.len() {
            nodes[k as int].next
        } else {
            None
        },
        None => None,
    };
    calc_from(data, nr, rle_r, nodes, max_len, max_offset, favor_speed, index, seq![lit], lit, np)
}


/// Whether every match after the literal copies at least one byte, and
/// each of its bytes equals the one `offset` further on, which may be
/// copied from.
pub open spec fn matches_copy(data: Seq<u8>, nr: Option<Seq<u8>>, i: int, ms: Seq<Match>) -> bool {
    forall|k: int|
        1 <= k < ms.len() ==> {
            let m = #[trigger] ms[k];
            &&& m.len >= 1
            &&& forall|t: int| i + 1 - m.len <= t <= i ==> #[trigger] copies_at(data, nr, t, t + m.offset)
        }
}

/// A backward run is a run of equal bytes that may be copied from, as far
/// as it stays before the last byte.
proof fn lemma_rle_r_run(data: Seq<u8>, nr: Option<Seq<u8>>, max_len: u16, i: int, j: int)
    requires
        0 <= i,
        1 <= j <= rle_r_at(data, nr, max_len, i as nat),
        i + j < data.len() - 1,
    ensures
        readable(nr, i + j),
        data[i + j] == data[i],
    decreases j,
{
    assert(i + 1 < data.len());
    assert(rle_r_peer(data.len(), i as nat) == i + 1);
    if j > 1 {
        lemma_rle_r_run(data, nr, max_len, i + 1, j - 1);
    }
}

/// Every node that may be copied from links to a node that may be copied
/// from.
pub open spec fn readable_links(nr: Option<Seq<u8>>, nodes: Seq<Node>) -> bool {
    forall|k: int|
        0 <= k < nodes.len() && readable(nr, nodes[k].index as int) ==> match #[trigger] nodes[k].next {
            Some(m) => m < nodes.len() ==> readable(nr, nodes[m as int].index as int),
            None => true,
        }
}

/// A check that passes leaves only agreeing pairs from `pos` up to `index`.
proof fn lemma_check_run_copy(
    data: Seq<u8>,
    nr: Option<Seq<u8>>,
    max_len: u16,
    rle_r: Seq<u16>,
    pos: int,
    len: int,
    offset: int,
    index: int,
)
    requires
        rle_r == run_r_table(data, nr, max_len),
        offset >= 1,
        pos >= 0,
        pos + len - 1 == index,
        index + offset < data.len(),
        copies_at(data, nr, index, index + offset),
        check_run(data, nr, rle_r, pos, len, offset) <= 1,
    ensures
        forall|t: int| pos <= t <= index ==> #[trigger] copies_at(data, nr, t, t + offset),
    decreases (if len > 0 {
        len
    } else {
        0
    }),
{
    if len > 1 && copies_at(data, nr, pos, pos + offset) {
        let o: int = if rle_r[pos] < rle_r[pos + offset] {
            rle_r[pos] as int
        } else {
            rle_r[pos + offset] as int
        };
        lemma_check_run_copy(data, nr, max_len, rle_r, pos + 1 + o, len - (1 + o), offset, index);
        assert forall|t: int| pos <= t <= index implies #[trigger] copies_at(data, nr, t, t + offset) by {
            if pos < t <= pos + o {
                lemma_rle_r_run(data, nr, max_len, pos, t - pos);
                if pos + offset + (t - pos) < data.len() - 1 {
                    lemma_rle_r_run(data, nr, max_len, pos + offset, t - pos);
                }
            }
        }
    }
}

/// Growing backwards leaves only agreeing pairs after where it stopped.
proof fn lemma_grow_back(data: Seq<u8>, nr: Option<Seq<u8>>, max_len: u16, pos: int, len: int, offset: int)
    requires
        pos >= -1,
    ensures
        grow_back(data, nr, max_len, pos, len, offset).1 <= pos,
        grow_back(data, nr, max_len, pos, len, offset).1 >= -1,
        grow_back(data, nr, max_len, pos, len, offset).0 - len == pos - grow_back(data, nr, max_len, pos, len, offset).1,
        forall|t: int|
            grow_back(data, nr, max_len, pos, len, offset).1 < t <= pos ==> #[trigger] copies_at(data, nr, t, t + offset),
    decreases pos + 1,
{
    if len <= max_len && pos >= 0 && copies_at(data, nr, pos, pos + offset) {
        lemma_grow_back(data, nr, max_len, pos - 1, len + 1, offset);
    }
}

/// Every match that the walk from `np` adds copies agreeing bytes.
proof fn lemma_calc_from_copy(
    data: Seq<u8>,
    nr: Option<Seq<u8>>,
    rle_r: Seq<u16>,
    nodes: Seq<Node>,
    single: Seq<Option<usize>>,
    max_len: u16,
    max_offset: u32,
    favor_speed: bool,
    index: int,
    ms: Seq<Match>,
    mp: Match,
    np: Option<usize>,
)
    requires
        graph_wf(data, nodes, single),
        readable_links(nr, nodes),
        rle_r == run_r_table(data, nr, max_len),
        max_len >= 1,
        0 <= index < data.len() < 0x8000_0000,
        matches_copy(data, nr, index, ms),
        mp.offset > 0 ==> {
            &&& 1 <= mp.len <= index + 1
            &&& forall|t: int| index + 1 - mp.len <= t <= index ==> #[trigger] copies_at(data, nr, t, t + mp.offset)
        },
        np matches Some(k) ==> (k < nodes.len() ==> nodes[k as int].index > index && data[nodes[k as int].index as int]
            == data[index] && readable(nr, nodes[k as int].index as int)),
    ensures
        matches_copy(
            data,
            nr,
            index,
            calc_from(data, nr, rle_r, nodes, max_len, max_offset, favor_speed, index, ms, mp, np),
        ),
    decreases data.len() - node_place(data, nodes, np),
{
    match np {
        None => {},
        Some(k) => {
            if k < nodes.len() && nodes[k as int].index < data.len() {
                let ni = nodes[k as int].index as int;
                let nxt = nodes[k as int].next;
                let go_on = ni < node_place(data, nodes, nxt) <= data.len();
                if ni <= index + max_offset {
                    let mp_len: int = if mp.offset > 0 {
                        mp.len as int
                    } else {
                        0
                    };
                    let offset = ni - index;
                    let left = check_run(data, nr, rle_r, index + 1 - mp_len, mp_len, offset);
                    if left <= 1 {
                        lemma_check_run_copy(data, nr, max_len, rle_r, index + 1 - mp_len, mp_len, offset, index);
                        let m1 = capped_match(1, offset, max_len);
                        let ms1 = if offset < 17 {
                            ms.push(m1)
                        } else {
                            ms
                        };
                        let mp1 = if offset < 17 {
                            m1
                        } else {
                            mp
                        };
                        assert(copies_at(data, nr, index, index + offset));
                        assert(matches_copy(data, nr, index, ms1)) by {
                            assert forall|kk: int| 1 <= kk < ms1.len() implies ({
                                let m = #[trigger] ms1[kk];
                                &&& m.len >= 1
                                &&& forall|t: int|
                                    index + 1 - m.len <= t <= index ==> #[trigger] copies_at(data, nr, t, t + m.offset)
                            }) by {
                                if kk < ms.len() {
                                    assert(ms1[kk] == ms[kk]);
                                }
                            }
                        }
                        lemma_grow_back(data, nr, max_len, index - mp_len, mp_len, offset);
                        let (len2, pos2) = grow_back(data, nr, max_len, index - mp_len, mp_len, offset);
                        if mp_len == 0 {
                            assert(len2 >= 1) by {
                                assert(grow_back(data, nr, max_len, index, 0, offset) == grow_back(
                                    data,
                                    nr,
                                    max_len,
                                    index - 1,
                                    1,
                                    offset,
                                ));
                                lemma_grow_back(data, nr, max_len, index - 1, 1, offset);
                            }
                        }
                        let keep = len2 > mp_len || (!favor_speed && len2 == mp_len);
                        let m2 = capped_match(index - pos2, offset, max_len);
                        let ms2 = if keep {
                            ms1.push(m2)
                        } else {
                            ms1
                        };
                        let mp2 = if keep {
                            m2
                        } else {
                            mp1
                        };
                        assert forall|t: int| index + 1 - m2.len <= t <= index implies #[trigger] copies_at(
                            data,
                            nr,
                            t,
                            t + m2.offset,
                        ) by {
                            if t <= index - mp_len {
                                assert(pos2 < t);
                            }
                        }
                        assert(matches_copy(data, nr, index, ms2)) by {
                            assert forall|kk: int| 1 <= kk < ms2.len() implies ({
                                let m = #[trigger] ms2[kk];
                                &&& m.len >= 1
                                &&& forall|t: int|
                                    index + 1 - m.len <= t <= index ==> #[trigger] copies_at(data, nr, t, t + m.offset)
                            }) by {
                                if kk < ms1.len() {
                                    assert(ms2[kk] == ms1[kk]);
                                }
                            }
                        }
                        if !(len2 > max_len || pos2 < 0 || !go_on) {
                            lemma_calc_from_copy(
                                data,
                                nr,
                                rle_r,
                                nodes,
                                single,
                                max_len,
                                max_offset,
                                favor_speed,
                                index,
                                ms2,
                                mp2,
                                nxt,
                            );
                        }
                    } else if go_on {
                        lemma_calc_from_copy(
                            data,
                            nr,
                            rle_r,
                            nodes,
                            single,
                            max_len,
                            max_offset,
                            favor_speed,
                            index,
                            ms,
                            mp,
                            nxt,
                        );
                    }
                }
            }
        },
    }
}

/// Every match that the finder keeps for a position that may be copied
/// from copies at least one byte, and each equals the one `offset` further
/// on, which may be copied from.
proof fn lemma_calc_matches_copy(
    data: Seq<u8>,
    nr: Option<Seq<u8>>,
    rle_r: Seq<u16>,
    nodes: Seq<Node>,
    single: Seq<Option<usize>>,
    max_len: u16,
    max_offset: u32,
    favor_speed: bool,
    index: int,
)
    requires
        graph_wf(data, nodes, single),
        readable_links(nr, nodes),
        rle_r == run_r_table(data, nr, max_len),
        readable(nr, index),
        max_len >= 1,
        0 <= index < data.len() < 0x8000_0000,
    ensures
        matches_copy(
            data,
            nr,
            index,
            calc_matches(data, nr, rle_r, nodes, single, max_len, max_offset, favor_speed, index),
        ),
{
    let lit = capped_match(1, 0, max_len);
    let np = match single[index] {
        Some(k) => if k < nodes.len() {
            nodes[k as int].next
        } else {
            None
        },
        None => None,
    };
    assert(matches_copy(data, nr, index, seq![lit]));
    lemma_calc_from_copy(data, nr, rle_r, nodes, single, max_len, max_offset, favor_speed, index, seq![lit], lit, np);
}

/// The node of each position lies at that position, every link leads to a
/// node, and every node that may be copied from links to one that may be.
pub open spec fn links_ok(nr: Option<Seq<u8>>, nodes: Seq<Node>, single: Seq<Option<usize>>) -> bool {
    &&& forall|i: int|
        0 <= i < single.len() ==> match #[trigger] single[i] {
            Some(k) => k < nodes.len() && nodes[k as int].index == i,
            None => true,
        }
    &&& forall|k: int|
        0 <= k < nodes.len() ==> match #[trigger] nodes[k].next {
            Some(m) => m < nodes.len(),
            None => true,
        }
    &&& readable_links(nr, nodes)
}

proof fn lemma_relink(nodes: Seq<Node>, chain: Seq<usize>, k: nat, next: Option<usize>)
    requires
        nodes.len() <= usize::MAX + 1,
        k <= chain.len(),
        forall|j: int| 0 <= j < k ==> #[trigger] chain[j] < nodes.len(),
    ensures
        relink(nodes, chain, k, next).len() == nodes.len(),
        forall|x: int|
            0 <= x < nodes.len() ==> (#[trigger] relink(nodes, chain, k, next)[x]).index == nodes[x].index
                && relink(nodes, chain, k, next)[x].next == (if chain.subrange(0, k as int).contains(x as usize) {
                next
            } else {
                nodes[x].next
            }),
    decreases k,
{
    if k > 0 {
        lemma_relink(nodes, chain, (k - 1) as nat, next);
        let r = relink(nodes, chain, (k - 1) as nat, next);
        let x0 = chain[k - 1] as int;
        let sub = chain.subrange(0, k - 1);
        let sub2 = chain.subrange(0, k as int);
        assert(sub2 =~= sub.push(chain[k - 1]));
        assert(relink(nodes, chain, k, next) == r.update(x0, Node { index: r[x0].index, next }));
        assert forall|x: int| 0 <= x < nodes.len() implies (#[trigger] relink(nodes, chain, k, next)[x]).index
            == nodes[x].index && relink(nodes, chain, k, next)[x].next == (if chain.subrange(
            0,
            k as int,
        ).contains(x as usize) {
            next
        } else {
            nodes[x].next
        }) by {
            assert(r[x].index == nodes[x].index);
            if x == x0 {
                assert(sub2[k - 1] == x as usize);
            } else {
                if sub.contains(x as usize) {
                    let j = choose|j: int| 0 <= j < sub.len() && sub[j] == x as usize;
                    assert(sub2[j] == x as usize);
                }
                if sub2.contains(x as usize) {
                    let j = choose|j: int| 0 <= j < sub2.len() && sub2[j] == x as usize;
                    assert(j != k - 1);
                    assert(sub[j] == x as usize);
                }
            }
        }
    }
}

/// What the forward pass keeps between positions: the links are right but
/// for the nodes that wait to be linked on.
#[verifier::opaque]
pub open spec fn fwd_links(data: Seq<u8>, nr: Option<Seq<u8>>, s: FwdState) -> bool {
    &&& s.0.len() <= usize::MAX
    &&& s.1.len() == data.len()
    &&& forall|i: int|
        0 <= i < s.1.len() ==> match #[trigger] s.1[i] {
            Some(k) => k < s.0.len() && s.0[k as int].index == i,
            None => true,
        }
    &&& forall|k: int|
        0 <= k < s.0.len() ==> match #[trigger] s.0[k].next {
            Some(m) => m < s.0.len(),
            None => true,
        }
    &&& forall|k: int|
        0 <= k < s.0.len() && readable(nr, s.0[k].index as int) && !s.4.contains(k as usize) ==> match #[trigger] s.0[k].next {
            Some(m) => readable(nr, s.0[m as int].index as int),
            None => true,
        }
    &&& forall|j: int| 0 <= j < s.4.len() ==> #[trigger] s.4[j] < s.0.len()
    &&& s.3 matches Some(p) ==> p < s.0.len() && s.0[p as int].next is None && (readable(nr, s.0[p as int].index as int) ==> s.4.len() == 0)
}

proof fn lemma_fwd_step_links(
    data: Seq<u8>,
    nr: Option<Seq<u8>>,
    rle: Seq<u16>,
    rle_r: Seq<u16>,
    favor_speed: bool,
    c: u8,
    s: FwdState,
    i: int,
)
    requires
        fwd_links(data, nr, s),
        0 <= i < data.len() <= usize::MAX,
        fwd_step(data, nr, rle, rle_r, favor_speed, c, s, i).0.len() <= usize::MAX,
    ensures
        fwd_links(data, nr, fwd_step(data, nr, rle, rle_r, favor_speed, c, s, i)),
{
    reveal(fwd_step);
    reveal(fwd_links);
    if data[i] == c {
        let rle_len = rle[i];
        let fresh = !s.2[rle_len as int];
        if !(fresh && rle_r[i] > 16) && !(favor_speed && rle_r[i] != 0 && rle[i] != 0) {
            let np = s.0.len() as usize;
            let nodes1 = s.0.push(Node { index: i as usize, next: None });
            let nodes2 = match s.3 {
                Some(p) => nodes1.update(p as int, Node { index: nodes1[p as int].index, next: Some(np) }),
                None => nodes1,
            };
            let chain2 = match s.3 {
                Some(p) => if readable(nr, nodes1[p as int].index as int) {
                    seq![p]
                } else {
                    s.4
                },
                None => s.4,
            };
            let t = fwd_step(data, nr, rle, rle_r, favor_speed, c, s, i);
            assert(forall|j: int| 0 <= j < chain2.len() ==> #[trigger] chain2[j] < nodes2.len());
            if chain2.len() > 0 && readable(nr, i) {
                lemma_relink(nodes2, chain2, chain2.len(), Some(np));
                assert(chain2.subrange(0, chain2.len() as int) =~= chain2);
                assert(t.0 == relink(nodes2, chain2, chain2.len(), Some(np)));
                assert(t.0[np as int].index == i as usize);
                assert forall|k: int|
                    0 <= k < t.0.len() && readable(nr, t.0[k].index as int) && !t.4.contains(k as usize) implies match #[trigger] t.0[k].next {
                    Some(m) => readable(nr, t.0[m as int].index as int),
                    None => true,
                } by {
                    if chain2.contains(k as usize) {
                        assert(t.0[k].next == Some(np));
                    } else if k == np {
                        assert(t.0[k].next == nodes2[k].next);
                    } else if s.3 == Some(k as usize) {
                        assert(t.0[k].next == Some(np));
                    } else {
                        assert(t.0[k].next == s.0[k].next);
                        assert(t.0[k].index == s.0[k].index);
                        if let Some(p) = s.3 {
                            if readable(nr, nodes1[p as int].index as int) {
                                assert(s.4.len() == 0);
                            }
                        }
                        assert(!s.4.contains(k as usize));
                        if let Some(m) = s.0[k].next {
                            assert(t.0[m as int].index == s.0[m as int].index);
                        }
                    }
                }
            } else {
                assert forall|k: int|
                    0 <= k < t.0.len() && readable(nr, t.0[k].index as int) && !t.4.contains(k as usize) implies match #[trigger] t.0[k].next {
                    Some(m) => readable(nr, t.0[m as int].index as int),
                    None => true,
                } by {
                    if k != np && s.3 != Some(k as usize) {
                        assert(t.0[k] == s.0[k]);
                        if s.4.contains(k as usize) {
                            if chain2.len() > 0 {
                                if chain2 == s.4 {
                                    assert(t.4 == chain2.push(np));
                                    let j = choose|j: int| 0 <= j < s.4.len() && s.4[j] == k as usize;
                                    assert(t.4[j] == k as usize);
                                }
                            }
                        }
                    } else if k != np {
                        if chain2.len() > 0 && !readable(nr, i) {
                            assert(t.4 == chain2.push(np));
                            assert(t.4[0] == chain2[0]);
                        }
                    }
                }
            }
            assert forall|i2: int| 0 <= i2 < t.1.len() implies match #[trigger] t.1[i2] {
                Some(k) => k < t.0.len() && t.0[k as int].index == i2,
                None => true,
            } by {
                if i2 != i {
                    assert(t.1[i2] == s.1[i2]);
                }
            }
            assert forall|j: int| 0 <= j < t.4.len() implies #[trigger] t.4[j] < t.0.len() by {
                if chain2.len() > 0 && !readable(nr, i) && j < chain2.len() {
                    assert(t.4[j] == chain2[j]);
                }
            }
        }
    }
}

/// The end of the forward pass: the nodes still waiting are left without
/// a link, and all links are right.
proof fn lemma_fwd_end_links(data: Seq<u8>, nr: Option<Seq<u8>>, e: FwdState)
    requires
        fwd_links(data, nr, e),
    ensures
        links_ok(nr, relink(e.0, e.4, e.4.len(), None), e.1),
{
    reveal(fwd_links);
    lemma_relink(e.0, e.4, e.4.len(), None);
    assert(e.4.subrange(0, e.4.len() as int) =~= e.4);
    let r = relink(e.0, e.4, e.4.len(), None);
    assert forall|k: int|
        0 <= k < r.len() && readable(nr, r[k].index as int) implies match #[trigger] r[k].next {
        Some(m) => m < r.len() ==> readable(nr, r[m as int].index as int),
        None => true,
    } by {
        if !e.4.contains(k as usize) {
            assert(r[k].next == e.0[k].next);
            if let Some(m) = e.0[k].next {
                assert(r[m as int].index == e.0[m as int].index);
            }
        }
    }
    assert forall|k: int| 0 <= k < r.len() implies match #[trigger] r[k].next {
        Some(m) => m < r.len(),
        None => true,
    } by {
        if !e.4.contains(k as usize) {
            assert(r[k].next == e.0[k].next);
        }
    }
    assert forall|i: int| 0 <= i < e.1.len() implies match #[trigger] e.1[i] {
        Some(k) => k < r.len() && r[k as int].index == i,
        None => true,
    } by {
        if let Some(k) = e.1[i] {
            assert(r[k as int].index == e.0[k as int].index);
        }
    }
}

/// What the backward pass keeps between positions: the links are right,
/// and the node it links new nodes to may be copied from.
#[verifier::opaque]
pub open spec fn bwd_links(data: Seq<u8>, nr: Option<Seq<u8>>, s: BwdState) -> bool {
    &&& s.0.len() <= usize::MAX
    &&& links_ok(nr, s.0, s.1)
    &&& s.1.len() == data.len()
    &&& s.3 matches Some(p) ==> p < s.0.len() && readable(nr, s.0[p as int].index as int)
}

proof fn lemma_bwd_step_links(data: Seq<u8>, nr: Option<Seq<u8>>, rle: Seq<u16>, rle_r: Seq<u16>, c: u8, s: BwdState, i: nat)
    requires
        bwd_links(data, nr, s),
        i < data.len() <= usize::MAX,
        bwd_step(data, nr, rle, rle_r, c, s, i as int).0.len() <= usize::MAX,
    ensures
        bwd_links(data, nr, bwd_step(data, nr, rle, rle_r, c, s, i as int)),
{
    reveal(bwd_links);
    {
        reveal(bwd_step);
        let t = bwd_step(data, nr, rle, rle_r, c, s, i as int);
        if data[i as int] == c {
            let rle_len = rle_r[i as int];
            let add = s.1[i as int] is None && s.2[rle_len as int] && rle_len > 0 && s.3 is Some;
            if add {
                assert(t.0 == s.0.push(Node { index: i as usize, next: s.3 }));
                assert(t.1 == s.1.update(i as int, Some(s.0.len() as usize)));
            } else {
                assert(t.0 == s.0);
                assert(t.1 == s.1);
            }
            assert forall|i2: int| 0 <= i2 < t.1.len() implies match #[trigger] t.1[i2] {
                Some(k) => k < t.0.len() && t.0[k as int].index == i2,
                None => true,
            } by {
                if i2 != i {
                    assert(t.1[i2] == s.1[i2]);
                    if let Some(k) = s.1[i2] {
                        assert(t.0[k as int] == s.0[k as int]);
                    }
                } else if add {
                    assert(t.1[i2] == Some(s.0.len() as usize));
                    assert(t.0[s.0.len() as int].index == i as usize);
                } else {
                    assert(t.1[i2] == s.1[i2]);
                }
            }
            assert forall|k: int| 0 <= k < t.0.len() implies match #[trigger] t.0[k].next {
                Some(m) => m < t.0.len(),
                None => true,
            } by {
                if k < s.0.len() {
                    assert(t.0[k] == s.0[k]);
                }
            }
            assert forall|k: int| 0 <= k < t.0.len() && readable(nr, t.0[k].index as int) implies match #[trigger] t.0[k].next {
                Some(m) => m < t.0.len() ==> readable(nr, t.0[m as int].index as int),
                None => true,
            } by {
                if k < s.0.len() {
                    assert(t.0[k] == s.0[k]);
                    if let Some(m) = s.0[k].next {
                        assert(t.0[m as int] == s.0[m as int]);
                    }
                } else {
                    if let Some(m) = s.3 {
                        assert(t.0[m as int] == s.0[m as int]);
                    }
                }
            }
            if let Some(p) = t.3 {
                if t.3 != s.3 {
                    assert(s.1[i as int] == Some(p));
                }
                assert(t.0[p as int] == s.0[p as int]);
            }
        }
    }
}

/// A match of `len` bytes, but at most `max_len` (see [`capped_match`]).
fn new_match(len: i64, offset: u32, max_len: u16) -> (m: Match)
    requires
        0 <= len,
    ensures
        m == capped_match(len as int, offset as int, max_len),
        m.offset == offset,
        m.len == (if len > max_len {
            max_len as int
        } else {
            len as int
        }),
{
    if len > max_len as i64 {
        Match { offset, len: max_len }
    } else {
        Match { offset, len: len as u16 }
    }
}

/// Whether byte `a` equals byte `b` and `b` may be copied from.
fn copies(data: &Vec<u8>, noread: &Option<Vec<u8>>, a: usize, b: usize) -> (r: bool)
    requires
        a < data@.len(),
        b < data@.len(),
        noread matches Some(n) ==> n@.len() == data@.len(),
    ensures
        r == (readable(opt_view(*noread), b as int) && data@[a as int] == data@[b as int]),
{
    readable_exec(noread, b) && data[a] == data[b]
}

/// The matches of position `index`: for each later node of the same byte,
/// within `max_offset`, a 1-byte match when the offset is small, and the
/// longest match at that offset when it is at least as long as the best so
/// far (longer, with `favor_speed`).
fn matches_calc(
    data: &Vec<u8>,
    noread: &Option<Vec<u8>>,
    rle_r: &Vec<u16>,
    nodes: &Vec<Node>,
    single: &Vec<Option<usize>>,
    max_len: u16,
    max_offset: u32,
    favor_speed: bool,
    index: usize,
) -> (ms: Vec<Match>)
    requires
        graph_wf(data@, nodes@, single@),
        noread matches Some(n) ==> n@.len() == data@.len(),
        rle_r@.len() == data@.len() + 1,
        index < data@.len(),
        data@.len() < 0x8000_0000,
    ensures
        matches_in_bounds(
            data@,
            opt_view(*noread),
            max_len,
            max_offset,
            index as int,
            ms@,
        ),
        ms@ == calc_matches(data@, opt_view(*noread), rle_r@, nodes@, single@, max_len, max_offset, favor_speed, index as int),
        max_len >= 1 && rle_r@ == run_r_table(data@, opt_view(*noread), max_len) && readable_links(
            opt_view(*noread),
            nodes@,
        ) && readable(opt_view(*noread), index as int) ==> matches_copy(data@, opt_view(*noread), index as int, ms@),
{
    proof {
        let nr = opt_view(*noread);
        if max_len >= 1 && rle_r@ == run_r_table(data@, nr, max_len) && readable_links(nr, nodes@) && readable(
            nr,
            index as int,
        ) {
            lemma_calc_matches_copy(data@, nr, rle_r@, nodes@, single@, max_len, max_offset, favor_speed, index as int);
        }
    }
    let ghost nr = opt_view(*noread);
    let ghost target = calc_matches(data@, nr, rle_r@, nodes@, single@, max_len, max_offset, favor_speed, index as int);
    let mut ms: Vec<Match> = Vec::new();
    let lit = new_match(1, 0, max_len);
    ms.push(lit);
    assert(ms@ =~= seq![lit]);
    let mut mp: Match = lit;
    let mut np: Option<usize> = match single[index] {
        None => None,
        Some(k) => nodes[k].next,
    };
    let idx = index as i64;
    while np.is_some()
        invariant_except_break
            target == calc_from(data@, nr, rle_r@, nodes@, max_len, max_offset, favor_speed, index as int, ms@, mp, np),
        invariant
            target == calc_matches(data@, nr, rle_r@, nodes@, single@, max_len, max_offset, favor_speed, index as int),
            graph_wf(data@, nodes@, single@),
            noread matches Some(nv) ==> nv@.len() == data@.len(),
            rle_r@.len() == data@.len() + 1,
            index < data@.len(),
            data@.len() < 0x8000_0000,
            idx == index,
            nr == opt_view(*noread),
            matches_in_bounds(data@, nr, max_len, max_offset, index as int, ms@),
            mp == ms@.last(),
            np matches Some(k) ==> k < nodes@.len() && nodes@[k as int].index > index && data@[nodes@[k as int].index as int]
                == data@[index as int],
        ensures
            ms@ == target,
        decreases data@.len() - (match np {
            Some(k) => nodes@[k as int].index as int,
            None => data@.len() as int,
        }),
    {
        let k = match np {
            Some(k) => k,
            None => 0,
        };
        let ni = nodes[k].index;
        if (ni as i64) > idx + max_offset as i64 {
            break;
        }
        proof {
            if ms@.len() > 1 {
                assert(ms@[ms@.len() - 1] == mp);
            }
        }
        let mp_len: i64 = if mp.offset > 0 {
            mp.len as i64
        } else {
            0
        };
        let offset: usize = ni - index;
        let ghost ms0 = ms@;
        let ghost mp0 = mp;
        let mut len: i64 = mp_len;
        let mut pos: i64 = idx + 1 - len;
        while len > 1 && copies(data, noread, pos as usize, pos as usize + offset)
            invariant
                check_run(data@, nr, rle_r@, idx + 1 - mp_len, mp_len as int, offset as int) == check_run(
                    data@,
                    nr,
                    rle_r@,
                    pos as int,
                    len as int,
                    offset as int,
                ),
                nr == opt_view(*noread),
                pos + len == idx + 1,
                0 <= pos,
                len >= -65535,
                idx == index,
                index < ni,
                ni < data@.len(),
                offset == ni - index,
                rle_r@.len() == data@.len() + 1,
                data@.len() < 0x8000_0000,
                noread matches Some(nv) ==> nv@.len() == data@.len(),
            decreases len + 65536,
        {
            let o1 = rle_r[pos as usize] as i64;
            let o2 = rle_r[pos as usize + offset] as i64;
            let o = if o1 < o2 {
                o1
            } else {
                o2
            };
            len = len - (1 + o);
            pos = pos + (1 + o);
        }
        if len <= 1 {
            if offset < 17 {
                let m1 = new_match(1, offset as u32, max_len);
                ms.push(m1);
                mp = m1;
            }
            len = mp_len;
            pos = idx - len;
            while len <= max_len as i64 && pos >= 0 && copies(data, noread, pos as usize, pos as usize + offset)
                invariant
                    grow_back(data@, nr, max_len, idx - mp_len, mp_len as int, offset as int) == grow_back(
                        data@,
                        nr,
                        max_len,
                        pos as int,
                        len as int,
                        offset as int,
                    ),
                    nr == opt_view(*noread),
                    pos + len == idx,
                    -1 <= pos,
                    0 <= len <= max_len + 1,
                    idx == index,
                    index < ni,
                    ni < data@.len(),
                    offset == ni - index,
                    data@.len() < 0x8000_0000,
                    noread matches Some(nv) ==> nv@.len() == data@.len(),
                decreases pos + 1,
            {
                len = len + 1;
                pos = pos - 1;
            }
            if len > mp_len || (!favor_speed && len == mp_len) {
                let m2 = new_match(idx - pos, offset as u32, max_len);
                ms.push(m2);
                mp = m2;
            }
            if len > max_len as i64 {
                break;
            }
            if pos < 0 {
                break;
            }
        }
        np = nodes[k].next;
    }
    ms
}

/// The runs before each byte of the data (see [`rle_at`]), one more entry
/// than bytes.
pub open spec fn run_table(data: Seq<u8>, nr: Option<Seq<u8>>, max_len: u16) -> Seq<u16> {
    Seq::new(data.len() + 1, |i: int| rle_at(data, nr, max_len, i as nat))
}

/// The runs after each byte of the data (see [`rle_r_at`]), one more entry
/// than bytes.
pub open spec fn run_r_table(data: Seq<u8>, nr: Option<Seq<u8>>, max_len: u16) -> Seq<u16> {
    Seq::new(data.len() + 1, |i: int| rle_r_at(data, nr, max_len, i as nat))
}

/// The nodes of the finder and the node of each position after the
/// forward and backward passes of the bytes below `c`, from no nodes.
pub open spec fn finder_graph(
    data: Seq<u8>,
    nr: Option<Seq<u8>>,
    rle: Seq<u16>,
    rle_r: Seq<u16>,
    favor_speed: bool,
    c: nat,
) -> (Seq<Node>, Seq<Option<usize>>)
    decreases c,
{
    if c == 0 {
        (Seq::empty(), Seq::new(data.len(), |j: int| None))
    } else {
        let g = finder_graph(data, nr, rle, rle_r, favor_speed, (c - 1) as nat);
        let f = fwd_pass(data, nr, rle, rle_r, favor_speed, (c - 1) as u8, g.0, g.1);
        let b = bwd_pass(data, nr, rle, rle_r, (c - 1) as u8, f.0, f.1);
        (b.0, b.1)
    }
}

/// The matches that the finder keeps for position `i` of `data` (see
/// [`calc_matches`]), with the nodes that the passes of all 256 byte values
/// leave.
pub open spec fn finder_matches(
    data: Seq<u8>,
    nr: Option<Seq<u8>>,
    max_len: u16,
    max_offset: u32,
    favor_speed: bool,
    i: int,
) -> Seq<Match> {
    let rle = run_table(data, nr, max_len);
    let rle_r = run_r_table(data, nr, max_len);
    let g = finder_graph(data, nr, rle, rle_r, favor_speed, 256);
    calc_matches(data, nr, rle_r, g.0, g.1, max_len, max_offset, favor_speed, i)
}

/// The limit on offsets only cuts the walk of the nodes: where every node
/// the walk for position `i` meets lies no more than `m1` bytes away (a node
/// exactly `m1` away included), the finder keeps for `i` the same matches
/// with any larger limit `m2`.
pub proof fn law_finder_max_offset(
    data: Seq<u8>,
    nr: Option<Seq<u8>>,
    max_len: u16,
    m1: u32,
    m2: u32,
    favor_speed: bool,
    i: int,
)
    requires
        m1 <= m2,
        walk_within(
            data,
            finder_graph(data, nr, run_table(data, nr, max_len), run_r_table(data, nr, max_len), favor_speed, 256).0,
            i,
            match finder_graph(data, nr, run_table(data, nr, max_len), run_r_table(data, nr, max_len), favor_speed, 256).1[i] {
                Some(k) => if k < finder_graph(data, nr, run_table(data, nr, max_len), run_r_table(data, nr, max_len), favor_speed, 256).0.len() {
                    finder_graph(data, nr, run_table(data, nr, max_len), run_r_table(data, nr, max_len), favor_speed, 256).0[k as int].next
                } else {
                    None
                },
                None => None,
            },
            m1 as int,
        ),
    ensures
        finder_matches(data, nr, max_len, m1, favor_speed, i) == finder_matches(data, nr, max_len, m2, favor_speed, i),
{
    let rle = run_table(data, nr, max_len);
    let rle_r = run_r_table(data, nr, max_len);
    let g = finder_graph(data, nr, rle, rle_r, favor_speed, 256);
    let lit = capped_match(1, 0, max_len);
    let np = match g.1[i] {
        Some(k) => if k < g.0.len() {
            g.0[k as int].next
        } else {
            None
        },
        None => None,
    };
    lemma_calc_from_max_offset(data, nr, rle_r, g.0, max_len, m1, m2, favor_speed, i, seq![lit], lit, np);
}

/// Prepares the finder for `data`: the runs before and after each byte,
/// and the matches of each position, found with sequences of at most
/// `max_len` bytes and offsets of at most `max_offset`. The matches of a
/// position where `noread` is 0 copy only from bytes where it is 0 too.
pub fn match_ctx_init(data: Vec<u8>, noread: Option<Vec<u8>>, max_len: u16, max_offset: u32, favor_speed: bool) -> (ctx:
    MatchCtx)
    requires
        data@.len() < 0x8000_0000,
        noread matches Some(n) ==> n@.len() == data@.len(),
    ensures
        ctx.wf(),
        ctx.data@ == data@,
        ctx.noread == noread,
        ctx.max_len == max_len,
        ctx.max_offset == max_offset,
        forall|i: int|
            0 <= i < data@.len() ==> #[trigger] ctx.matches@[i]@ == finder_matches(
                data@,
                opt_view(noread),
                max_len,
                max_offset,
                favor_speed,
                i,
            ),
        max_len >= 1 ==> forall|i: int|
            0 <= i < data@.len() && readable(opt_view(noread), i) ==> matches_copy(
                data@,
                opt_view(noread),
                i,
                #[trigger] ctx.matches@[i]@,
            ),
{
    let ghost nr = opt_view(noread);
    let rle = compute_rle(&data, &noread, max_len);
    let rle_r = compute_rle_r(&data, &noread, max_len);
    assert(rle@ =~= run_table(data@, nr, max_len));
    assert(rle_r@ =~= run_r_table(data@, nr, max_len));
    let n = data.len();
    let mut nodes: Vec<Node> = Vec::new();
    let mut single: Vec<Option<usize>> = Vec::new();
    let mut k: usize = 0;
    while k < n
        invariant
            k <= n,
            single@.len() == k,
            forall|j: int| 0 <= j < k ==> #[trigger] single@[j] is None,
        decreases n - k,
    {
        single.push(None);
        k = k + 1;
    }
    let mut rle_map: Vec<bool> = Vec::new();
    let mut k: usize = 0;
    while k < 65536
        invariant
            k <= 65536,
            rle_map@.len() == k,
        decreases 65536 - k,
    {
        rle_map.push(false);
        k = k + 1;
    }
    assert(graph_wf(data@, nodes@, single@));
    assert(links_ok(nr, nodes@, single@));
    assert(nodes@ =~= Seq::<Node>::empty());
    assert(single@ =~= Seq::new(n as nat, |j: int| None::<usize>));
    let mut c: u32 = 0;
    while c < 256
        invariant
            c <= 256,
            nr == opt_view(noread),
            rle@ == run_table(data@, nr, max_len),
            rle_r@ == run_r_table(data@, nr, max_len),
            (nodes@, single@) == finder_graph(data@, nr, rle@, rle_r@, favor_speed, c as nat),
            graph_wf(data@, nodes@, single@),
            links_ok(nr, nodes@, single@),
            n == data@.len(),
            n < 0x8000_0000,
            noread matches Some(nv) ==> nv@.len() == data@.len(),
            rle@.len() == n + 1,
            rle_r@.len() == n + 1,
            rle_map@.len() == 65536,
        decreases 256 - c,
    {
        link_forward(&data, &noread, &rle, &rle_r, favor_speed, c as u8, &mut nodes, &mut single, &mut rle_map);
        link_backward(&data, &noread, &rle, &rle_r, c as u8, &mut nodes, &mut single, &mut rle_map);
        c = c + 1;
    }
    let mut matches: Vec<Vec<Match>> = Vec::new();
    let mut i: usize = 0;
    while i < n
        invariant
            i <= n,
            n == data@.len(),
            n < 0x8000_0000,
            graph_wf(data@, nodes@, single@),
            noread matches Some(nv) ==> nv@.len() == data@.len(),
            rle_r@.len() == n + 1,
            nr == opt_view(noread),
            matches@.len() == i,
            forall|j: int| 0 <= j < i ==> matches_in_bounds(data@, nr, max_len, max_offset, j, #[trigger] matches@[j]@),
            rle_r@ == run_r_table(data@, nr, max_len),
            (nodes@, single@) == finder_graph(data@, nr, run_table(data@, nr, max_len), rle_r@, favor_speed, 256),
            forall|j: int| 0 <= j < i ==> #[trigger] matches@[j]@ == finder_matches(data@, nr, max_len, max_offset, favor_speed, j),
            links_ok(nr, nodes@, single@),
            max_len >= 1 ==> forall|j: int|
                0 <= j < i && readable(nr, j) ==> matches_copy(data@, nr, j, #[trigger] matches@[j]@),
        decreases n - i,
    {
        let ms = matches_calc(&data, &noread, &rle_r, &nodes, &single, max_len, max_offset, favor_speed, i);
        matches.push(ms);
        i = i + 1;
    }
    MatchCtx { data, noread, rle, rle_r, matches, max_len, max_offset }
}

/// A path whose every copy is a match that the finder kept for the
/// position of its last byte, a position that may be copied from, copies
/// only bytes that agree.
pub proof fn law_finder_path_genuine(ctx: MatchCtx, items: Seq<PathItem>)
    requires
        ctx.wf(),
        ctx.max_len >= 1,
        forall|k: int|
            0 <= k < items.len() && (#[trigger] items[k]).offset != 0 ==> {
                let p = items[k].index + items[k].len - 1;
                &&& 0 <= p < ctx.data@.len()
                &&& readable(ctx.noread_view(), p)
                &&& ctx.matches@[p]@.contains(Match { offset: items[k].offset, len: items[k].len })
            },
    ensures
        path_genuine(ctx.data@, items),
{
    let d = ctx.data@;
    assert forall|k: int| 0 <= k < items.len() && (#[trigger] items[k]).offset != 0 implies items[k].index
        + items[k].len + items[k].offset <= d.len() && items[k].len >= 1 && forall|i: int|
        items[k].index <= i < items[k].index + items[k].len ==> #[trigger] d[i] == d[i + items[k].offset] by {
        let p = items[k].index + items[k].len - 1;
        let ms = ctx.matches@[p]@;
        let m = Match { offset: items[k].offset, len: items[k].len };
        let j = choose|j: int| 0 <= j < ms.len() && ms[j] == m;
        assert(matches_in_bounds(d, ctx.noread_view(), ctx.max_len, ctx.max_offset, p, ms));
        assert(matches_copy(d, ctx.noread_view(), p, ms));
        assert(j != 0);
        assert(ms[j] == m);
        assert forall|i: int| items[k].index <= i < items[k].index + items[k].len implies #[trigger] d[i] == d[i
            + items[k].offset] by {
            assert(copies_at(d, ctx.noread_view(), i, i + m.offset));
        }
    }
}

/// Whether a match is worth counting: not a 1-byte match from further
/// than 34 bytes away.
pub open spec fn keep_match(m: Match) -> bool {
    !(m.len == 1 && m.offset > 34)
}

fn keep_match_exec(m: Match) -> (r: bool)
    ensures
        r == keep_match(m),
{
    !(m.len == 1 && m.offset > 34)
}

/// The better of two candidate sequences: the longer one, or the nearer of
/// two as long.
pub open spec fn better_seq(m: Match, best: Option<Match>) -> bool {
    match best {
        None => true,
        Some(b) => m.len > b.len || (m.len == b.len && m.offset < b.offset),
    }
}

/// Weighs one candidate `v` of position `p`: the best sequence worth
/// counting so far, and the 1-byte copy (or the literal) to count, taken
/// from the nearest candidate and moved closer by the run in front of it.
pub open spec fn peek_step(rle: Seq<u16>, p: int, acc: (Match, Option<Match>), v: Match) -> (Match, Option<Match>) {
    let (lit, seq) = acc;
    if v.offset == 0 {
        acc
    } else {
        let seq2 = if keep_match(v) && better_seq(v, seq) {
            Some(v)
        } else {
            seq
        };
        let lit2 = if lit.offset == 0 || lit.offset > v.offset {
            let at = p + v.offset;
            let diff: int = if at < rle.len() {
                rle[at] as int
            } else {
                0
            };
            let off: int = if v.offset > diff {
                v.offset - diff
            } else {
                1
            };
            let cand = Match { offset: off as u32, len: 1 };
            if keep_match(cand) {
                cand
            } else {
                lit
            }
        } else {
            lit
        };
        (lit2, seq2)
    }
}

/// Weighs the candidates `list[k - 1]`, `list[k - 2]`, ..., `list[0]` in
/// that order.
pub open spec fn peek_list(rle: Seq<u16>, p: int, list: Seq<Match>, k: nat, acc: (Match, Option<Match>)) -> (
    Match,
    Option<Match>,
)
    decreases k,
{
    if k == 0 {
        acc
    } else {
        peek_list(rle, p, list, (k - 1) as nat, peek_step(rle, p, acc, list[k - 1]))
    }
}

impl MatchCtx {
    /// What position `p` offers: starting from its literal, the near 1-byte
    /// copy that the runs around it give (when both are there) is weighed,
    /// then its matches from the last to the first.
    pub open spec fn peek(&self, p: int) -> (Match, Option<Match>) {
        let list = self.matches@[p]@;
        let acc0 = (list[0], None::<Match>);
        let inject = self.rle_r@[p] > 0 && self.rle@[p + 1] > 0;
        let injected = Match { offset: 1, len: self.rle@[p + 1] };
        let acc1 = if inject {
            peek_step(self.rle@, p, acc0, injected)
        } else {
            acc0
        };
        peek_list(self.rle@, p, list, list.len(), acc1)
    }

    /// The sequence that the statistics walk takes at `p`: the best one
    /// unless the position before offers a clearly longer one (longer by
    /// one more at odd positions when that one is short), else the literal.
    pub open spec fn enum_pick(&self, p: int) -> Match {
        let (l, sq) = self.peek(p);
        let before: Option<Match> = if p - 1 < 0 {
            None
        } else {
            self.peek(p - 1).1
        };
        match sq {
            None => l,
            Some(q) => match before {
                None => q,
                Some(nx) => {
                    let bonus: int = if p % 2 == 1 && nx.len < 3 {
                        1
                    } else {
                        0
                    };
                    if q.len >= nx.len + bonus {
                        q
                    } else {
                        l
                    }
                },
            },
        }
    }
}

impl MatchCtx {
    /// The matches of position `i`, the literal first.
    pub fn matches_get(&self, i: usize) -> (r: &Vec<Match>)
        requires
            self.wf(),
            i < self.data@.len(),
        ensures
            *r == self.matches@[i as int],
            matches_in_bounds(self.data@, self.noread_view(), self.max_len, self.max_offset, i as int, r@),
    {
        &self.matches[i]
    }

    /// What position `pos` offers for gathering statistics: a 1-byte
    /// literal or near 1-byte copy, and the best sequence worth counting.
    /// Positions before the start offer nothing.
    pub fn cache_peek(&self, pos: i64) -> (r: (Option<Match>, Option<Match>))
        requires
            self.wf(),
            pos < self.data@.len(),
        ensures
            pos < 0 ==> r.0 is None && r.1 is None,
            pos >= 0 ==> r.0 == Some(self.peek(pos as int).0) && r.1 == self.peek(pos as int).1,
            pos >= 0 ==> (r.0 matches Some(l) && l.len <= 1),
            r.1 matches Some(q) ==> q.offset >= 1 && keep_match(q),
    {
        if pos < 0 {
            return (None, None);
        }
        let p = pos as usize;
        proof {
            assert(matches_in_bounds(self.data@, self.noread_view(), self.max_len, self.max_offset, p as int, self.matches@[p as int]@));
        }
        let list = &self.matches[p];
        let mut lit: Match = list[0];
        let mut seq: Option<Match> = None;
        let n = list.len();
        let mut k: usize = n;
        let inject = self.rle_r[p] > 0 && self.rle[p + 1] > 0;
        let injected = Match { offset: 1, len: self.rle[p + 1] };
        let mut done_injected = !inject;
        while k > 0 || !done_injected
            invariant
                self.wf(),
                p < self.data@.len(),
                *list == self.matches@[p as int],
                n == list@.len(),
                k <= n,
                matches_in_bounds(self.data@, self.noread_view(), self.max_len, self.max_offset, p as int, list@),
                lit.len <= 1,
                seq matches Some(q) ==> q.offset >= 1 && keep_match(q),
                injected.offset == 1,
                injected == (Match { offset: 1, len: self.rle@[p + 1] }),
                inject == (self.rle_r@[p as int] > 0 && self.rle@[p + 1] > 0),
                !done_injected ==> inject && k == n,
                self.peek(p as int) == peek_list(self.rle@, p as int, list@, k as nat, if done_injected {
                    (lit, seq)
                } else {
                    peek_step(self.rle@, p as int, (lit, seq), injected)
                }),
            decreases k + (if done_injected {
                0int
            } else {
                1int
            }),
        {
            let ghost before = (lit, seq);
            let v: Match = if !done_injected {
                done_injected = true;
                injected
            } else {
                k = k - 1;
                list[k]
            };
            if v.offset != 0 {
                if keep_match_exec(v) && (match seq {
                    None => true,
                    Some(b) => v.len > b.len || (v.len == b.len && v.offset < b.offset),
                }) {
                    seq = Some(v);
                }
                if lit.offset == 0 || lit.offset > v.offset {
                    proof {
                        if k < n && v == list@[k as int] && k >= 1 {
                            assert(p + list@[k as int].offset < self.data@.len());
                        }
                    }
                    let at = p as u64 + v.offset as u64;
                    let diff: u32 = if at < self.rle.len() as u64 {
                        self.rle[at as usize] as u32
                    } else {
                        0
                    };
                    let off: u32 = if v.offset > diff {
                        v.offset - diff
                    } else {
                        1
                    };
                    let cand = Match { offset: off, len: 1 };
                    if keep_match_exec(cand) {
                        lit = cand;
                    }
                }
            }
            assert((lit, seq) == peek_step(self.rle@, p as int, before, v));
        }
        (Some(lit), seq)
    }

    /// The next sequence of a walk from the end of the data to its start
    /// that gathers statistics: at `*pos`, the best sequence unless the
    /// position before offers a clearly longer one, else the literal; the
    /// walk then moves back by its length. Past the start it gives nothing
    /// and starts over from the end.
    pub fn cache_enum_next(&self, pos: &mut i64) -> (r: Option<Match>)
        requires
            self.wf(),
            *old(pos) < self.data@.len(),
        ensures
            *old(pos) < 0 ==> r is None && *final(pos) == self.data@.len() - 1,
            *old(pos) >= 0 ==> r == Some(self.enum_pick(*old(pos) as int)) && *final(pos) == *old(pos) - self.enum_pick(
                *old(pos) as int,
            ).len,
            *final(pos) < self.data@.len(),
    {
        let (lit, seq) = self.cache_peek(*pos);
        match lit {
            None => {
                *pos = self.data.len() as i64 - 1;
                None
            },
            Some(l) => {
                let mut val = l;
                if let Some(q) = seq {
                    let (_, next) = self.cache_peek(*pos - 1);
                    match next {
                        None => {
                            val = q;
                        },
                        Some(nx) => {
                            let pp: i64 = *pos;
                            assert(pp >= 1 ==> ((pp & 1) != 0) == (pp % 2 == 1)) by (bit_vector);
                            let bonus: u32 = if (*pos & 1) != 0 && nx.len < 3 {
                                1
                            } else {
                                0
                            };
                            if q.len as u32 >= nx.len as u32 + bonus {
                                val = q;
                            }
                        },
                    }
                }
                *pos = *pos - val.len as i64;
                Some(val)
            },
        }
    }
}

} // verus!
