//! The choice of an encoding table from value statistics.
//!
//! A table splits the values from 1 on into intervals: each interval starts
//! where the one before it ended and holds `2^bits` values. For every
//! interval, starting from value 1 with entry number 0, each width from 0
//! to 15 is tried; the rest of the table is chosen the same way from where
//! the interval ends, and the cheapest choice is kept (the first of equal
//! ones). Scores are `i32` and wrap as the machine's do.
use vstd::prelude::*;
use vstd::arithmetic::power2::{pow2, lemma2_to64, lemma_pow2_unfold, lemma_pow2_strictly_increases};
use vstd::hash_map::HashMapWithView;

verus! {

broadcast use vstd::std_specs::hash::group_hash_axioms;

/// One interval of a table: values from `start` on, `2^bits` of them,
/// coded with `prefix` bits of entry number (`depth`), and the score with
/// which it (and the rest of the table after it) was chosen.
#[derive(Clone, Copy, Debug)]
pub struct Interval {
    pub start: i32,
    pub score: i32,
    pub prefix: i8,
    pub bits: i8,
    pub depth: i8,
    pub flags: i8,
}

/// The number of entries of a statistics table.
pub const STATS_LEN: usize = 1_000_000;

/// The score of an interval that has values after it and no table to code
/// them, when no second table of penalties is given.
pub const NO_TABLE_PENALTY: i32 = 100_000_000;

/// The second statistics table, by its view.
pub open spec fn stats2_view(stats2: Option<&[i32]>) -> Option<Seq<i32>> {
    match stats2 {
        Some(s) => Some(s@),
        None => None,
    }
}

/// The count at index `i`, or 0 outside the table.
pub open spec fn count_at(stats: Seq<i32>, i: int) -> i32 {
    if 0 <= i < stats.len() {
        stats[i]
    } else {
        0
    }
}

/// The count at `end`, read only where `start` and `end` lie below the
/// table's end (0 elsewhere).
pub open spec fn end_count(stats: Seq<i32>, start: int, end: int) -> i32 {
    if start < STATS_LEN && end < STATS_LEN {
        count_at(stats, end)
    } else {
        0
    }
}

/// The entry-number bits of an interval at entry `depth`: `flags` where it
/// is not negative, else one more than the entry number.
pub open spec fn interval_prefix(flags: i32, depth: int) -> i8 {
    (if flags >= 0 {
        flags
    } else {
        (depth + 1) as i32
    }) as i8
}

/// Where an interval of width `i` from `start` ends.
pub open spec fn interval_end(start: int, i: int) -> int {
    start + pow2(i as nat)
}

/// Whether the choice of width `i` at (`start`, `depth`) is followed by a
/// further interval: some values lie beyond its end and an entry is left.
pub open spec fn has_next(stats: Seq<i32>, max_depth: int, start: int, depth: int, i: int) -> bool {
    &&& depth + 1 < max_depth
    &&& end_count(stats, start, interval_end(start, i)) > 0
}

/// The score of the interval alone: the values it holds, each coded with
/// its entry number and `i` bits.
pub open spec fn own_score(stats: Seq<i32>, flags: i32, start: int, depth: int, i: int) -> i32 {
    let sc: i32 = if start < STATS_LEN {
        count_at(stats, start)
    } else {
        0
    };
    let ec = end_count(stats, start, interval_end(start, i));
    sc.wrapping_sub(ec).wrapping_mul((interval_prefix(flags, depth) as int + i) as i32)
}

/// The score of width `i` at (`start`, `depth`): its own score, plus, where
/// values lie beyond it, the lesser of the penalty for them and the score of
/// the best rest of the table.
pub open spec fn cand_score(
    stats: Seq<i32>,
    stats2: Option<Seq<i32>>,
    max_depth: int,
    flags: i32,
    start: int,
    depth: int,
    i: int,
) -> i32
    decreases max_depth - depth, 0int, 0int,
{
    let end = interval_end(start, i);
    let own = own_score(stats, flags, start, depth, i);
    if end_count(stats, start, end) > 0 {
        let base: i32 = match stats2 {
            Some(s2) => count_at(s2, end),
            None => NO_TABLE_PENALTY,
        };
        let next = if depth + 1 < max_depth {
            best_node(stats, stats2, max_depth, flags, end, depth + 1)
        } else {
            None
        };
        let penalty: i32 = match next {
            Some(n) => if n.score < base {
                n.score
            } else {
                base
            },
            None => base,
        };
        own.wrapping_add(penalty)
    } else {
        own
    }
}

/// The width among the first `k` with the least score, the first of equal
/// ones.
pub open spec fn best_index(
    stats: Seq<i32>,
    stats2: Option<Seq<i32>>,
    max_depth: int,
    flags: i32,
    start: int,
    depth: int,
    k: int,
) -> int
    decreases max_depth - depth, 1int, k,
{
    if k <= 1 {
        0
    } else {
        let b = best_index(stats, stats2, max_depth, flags, start, depth, k - 1);
        if cand_score(stats, stats2, max_depth, flags, start, depth, k - 1) < cand_score(
            stats,
            stats2,
            max_depth,
            flags,
            start,
            depth,
            b,
        ) {
            k - 1
        } else {
            b
        }
    }
}

/// The best interval at (`start`, `depth`), or `None` where no value is
/// counted from `start` on.
pub open spec fn best_node(
    stats: Seq<i32>,
    stats2: Option<Seq<i32>>,
    max_depth: int,
    flags: i32,
    start: int,
    depth: int,
) -> Option<Interval>
    decreases max_depth - depth, 2int, 0int,
{
    if count_at(stats, start) == 0 {
        None
    } else {
        let i = best_index(stats, stats2, max_depth, flags, start, depth, 16);
        Some(
            Interval {
                start: start as i32,
                score: cand_score(stats, stats2, max_depth, flags, start, depth, i),
                prefix: interval_prefix(flags, depth),
                bits: i as i8,
                depth: depth as i8,
                flags: flags as i8,
            },
        )
    }
}

/// The best table from (`start`, `depth`) on: the best interval there, then
/// the best table from where it ends.
pub open spec fn table_from(
    stats: Seq<i32>,
    stats2: Option<Seq<i32>>,
    max_depth: int,
    flags: i32,
    start: int,
    depth: int,
) -> Seq<Interval>
    decreases max_depth - depth,
{
    match best_node(stats, stats2, max_depth, flags, start, depth) {
        None => Seq::empty(),
        Some(n) => {
            let i = best_index(stats, stats2, max_depth, flags, start, depth, 16);
            if has_next(stats, max_depth, start, depth, i) {
                seq![n] + table_from(
                    stats,
                    stats2,
                    max_depth,
                    flags,
                    interval_end(start, i),
                    depth + 1,
                )
            } else {
                seq![n]
            }
        },
    }
}

/// The best table for the counts `stats`, with at most `max_depth` entries.
pub open spec fn best_table(stats: Seq<i32>, stats2: Option<Seq<i32>>, max_depth: int, flags: i32) -> Seq<
    Interval,
> {
    table_from(stats, stats2, max_depth, flags, 1, 0)
}

/// The key under which the interval at (`start`, `depth`) is kept.
pub open spec fn node_key(start: int, depth: int) -> u64 {
    (start * 32 + depth) as u64
}

/// The key of the interval after width `i` at (`start`, `depth`), where
/// there is one.
pub open spec fn cand_next(stats: Seq<i32>, max_depth: int, start: int, depth: int, i: int) -> Option<
    u64,
> {
    if has_next(stats, max_depth, start, depth, i) {
        Some(node_key(interval_end(start, i), depth + 1))
    } else {
        None
    }
}

/// Every kept interval is the best one for its key, kept with the key of the
/// interval after it, which is kept too.
pub open spec fn memo_ok(
    m: Map<u64, (Interval, Option<u64>)>,
    stats: Seq<i32>,
    stats2: Option<Seq<i32>>,
    max_depth: int,
    flags: i32,
) -> bool {
    forall|k: u64|
        #![trigger m.contains_key(k)]
        m.contains_key(k) ==> {
            let s = k / 32;
            let d = k % 32;
            &&& 1 <= s < STATS_LEN
            &&& 0 <= d < max_depth
            &&& best_node(stats, stats2, max_depth, flags, s as int, d as int) == Some(m[k].0)
            &&& m[k].1 == cand_next(stats, max_depth, s as int, d as int, best_index(stats, stats2, max_depth, flags, s as int, d as int, 16))
            &&& (m[k].1 matches Some(k2) ==> m.contains_key(k2))
        }
}

/// The rest of the table from the kept interval under `key`.
pub open spec fn rest_table(
    m: Map<u64, (Interval, Option<u64>)>,
    stats: Seq<i32>,
    stats2: Option<Seq<i32>>,
    max_depth: int,
    flags: i32,
    key: Option<u64>,
) -> Seq<Interval> {
    match key {
        Some(k) => table_from(stats, stats2, max_depth, flags, (k / 32) as int, (k % 32) as int),
        None => Seq::empty(),
    }
}

proof fn lemma_node_key(start: int, depth: int)
    requires
        0 <= start < STATS_LEN,
        0 <= depth < 32,
    ensures
        node_key(start, depth) / 32 == start,
        node_key(start, depth) % 32 == depth,
        node_key(start, depth) == start * 32 + depth,
{
}

proof fn lemma_best_index_range(
    stats: Seq<i32>,
    stats2: Option<Seq<i32>>,
    max_depth: int,
    flags: i32,
    start: int,
    depth: int,
    k: int,
)
    requires
        k >= 1,
    ensures
        0 <= best_index(stats, stats2, max_depth, flags, start, depth, k) < k,
    decreases k,
{
    if k > 1 {
        lemma_best_index_range(stats, stats2, max_depth, flags, start, depth, k - 1);
    }
}

/// The width chosen among the first `k` has the least score of them, and
/// every width before it scores more: the first of the cheapest.
pub proof fn law_best_index_first_minimum(
    stats: Seq<i32>,
    stats2: Option<Seq<i32>>,
    max_depth: int,
    flags: i32,
    start: int,
    depth: int,
    k: int,
)
    requires
        k >= 1,
    ensures
        ({
            let b = best_index(stats, stats2, max_depth, flags, start, depth, k);
            &&& 0 <= b < k
            &&& forall|j: int|
                0 <= j < k ==> cand_score(stats, stats2, max_depth, flags, start, depth, b) <= #[trigger] cand_score(
                    stats,
                    stats2,
                    max_depth,
                    flags,
                    start,
                    depth,
                    j,
                )
            &&& forall|j: int|
                0 <= j < b ==> cand_score(stats, stats2, max_depth, flags, start, depth, b) < #[trigger] cand_score(
                    stats,
                    stats2,
                    max_depth,
                    flags,
                    start,
                    depth,
                    j,
                )
        }),
    decreases k,
{
    if k > 1 {
        law_best_index_first_minimum(stats, stats2, max_depth, flags, start, depth, k - 1);
    }
}

/// The shape of the table from (`start`, `depth`) on.
pub open spec fn table_shape(t: Seq<Interval>, start: int, depth: int) -> bool {
    &&& t.len() > 0 ==> t[0].start == start
    &&& forall|k: int| 0 <= k < t.len() ==> 0 <= #[trigger] t[k].bits <= 15 && t[k].depth == depth + k
    &&& forall|k: int|
        0 < k < t.len() ==> #[trigger] t[k].start == t[k - 1].start + pow2(t[k - 1].bits as nat)
}

proof fn lemma_table_from_shape(
    stats: Seq<i32>,
    stats2: Option<Seq<i32>>,
    max_depth: int,
    flags: i32,
    start: int,
    depth: int,
)
    requires
        1 <= start < STATS_LEN,
        0 <= depth < max_depth <= 16,
    ensures
        table_from(stats, stats2, max_depth, flags, start, depth).len() <= max_depth - depth,
        table_shape(table_from(stats, stats2, max_depth, flags, start, depth), start, depth),
    decreases max_depth - depth,
{
    let t = table_from(stats, stats2, max_depth, flags, start, depth);
    match best_node(stats, stats2, max_depth, flags, start, depth) {
        None => {},
        Some(n) => {
            let i = best_index(stats, stats2, max_depth, flags, start, depth, 16);
            lemma_best_index_range(stats, stats2, max_depth, flags, start, depth, 16);
            if has_next(stats, max_depth, start, depth, i) {
                let end = interval_end(start, i);
                vstd::arithmetic::power2::lemma_pow2_pos(i as nat);
                let rest = table_from(stats, stats2, max_depth, flags, end, depth + 1);
                lemma_table_from_shape(stats, stats2, max_depth, flags, end, depth + 1);
                assert(t == seq![n] + rest);
                assert forall|k: int| 0 < k < t.len() implies #[trigger] t[k].start == t[k - 1].start
                    + pow2(t[k - 1].bits as nat) by {
                    if k > 1 {
                        assert(t[k - 1] == rest[k - 2]);
                        assert(t[k] == rest[k - 1]);
                    } else {
                        assert(t[0] == n);
                        assert(t[1] == rest[0]);
                        assert(n.bits as int == i);
                        assert(n.start as int == start);
                        assert(rest[0].start as int == end);
                    }
                }
                assert forall|k: int| 0 <= k < t.len() implies 0 <= #[trigger] t[k].bits <= 15 && t[k].depth
                    == depth + k by {
                    if k > 0 {
                        assert(t[k] == rest[k - 1]);
                    }
                }
            }
        },
    }
}

proof fn lemma_table_from_covers(
    stats: Seq<i32>,
    stats2: Option<Seq<i32>>,
    max_depth: int,
    flags: i32,
    start: int,
    depth: int,
)
    requires
        1 <= start < STATS_LEN,
        0 <= depth < max_depth <= 16,
    ensures
        ({
            let t = table_from(stats, stats2, max_depth, flags, start, depth);
            0 < t.len() < max_depth - depth ==> end_count(
                stats,
                t.last().start as int,
                t.last().start + pow2(t.last().bits as nat),
            ) <= 0
        }),
    decreases max_depth - depth,
{
    let t = table_from(stats, stats2, max_depth, flags, start, depth);
    match best_node(stats, stats2, max_depth, flags, start, depth) {
        None => {},
        Some(n) => {
            let i = best_index(stats, stats2, max_depth, flags, start, depth, 16);
            lemma_best_index_range(stats, stats2, max_depth, flags, start, depth, 16);
            assert(n.start as int == start);
            assert(n.bits as int == i);
            if has_next(stats, max_depth, start, depth, i) {
                let end = interval_end(start, i);
                vstd::arithmetic::power2::lemma_pow2_pos(i as nat);
                let rest = table_from(stats, stats2, max_depth, flags, end, depth + 1);
                lemma_table_from_covers(stats, stats2, max_depth, flags, end, depth + 1);
                assert(t == seq![n] + rest);
                assert(count_at(stats, end) != 0);
                assert(rest.len() > 0);
                assert(t.last() == rest.last());
            } else {
                assert(t == seq![n]);
            }
        },
    }
}

/// A table may use every one of its `max_depth` entries: one that stops
/// short of them leaves no value uncounted, the count at the end of its
/// last interval being no more than 0.
pub proof fn law_short_table_covers(stats: Seq<i32>, stats2: Option<Seq<i32>>, max_depth: int, flags: i32)
    requires
        stats.len() == STATS_LEN,
        1 <= max_depth <= 16,
    ensures
        ({
            let t = best_table(stats, stats2, max_depth, flags);
            0 < t.len() < max_depth ==> end_count(stats, t.last().start as int, t.last().start + pow2(t.last().bits as nat))
                <= 0
        }),
{
    lemma_table_from_covers(stats, stats2, max_depth, flags, 1, 0);
}

/// A chosen table runs without a gap from value 1 on: it is empty where no
/// value is counted, else its first interval starts at 1 and each next one
/// where the one before ends; it has at most `max_depth` entries, numbered
/// from 0 on, each at most 15 bits wide.
pub proof fn law_table_shape(stats: Seq<i32>, stats2: Option<Seq<i32>>, max_depth: int, flags: i32)
    requires
        stats.len() == STATS_LEN,
        1 <= max_depth <= 16,
    ensures
        best_table(stats, stats2, max_depth, flags).len() <= max_depth,
        best_table(stats, stats2, max_depth, flags).len() == 0 <==> stats[1] == 0,
        table_shape(best_table(stats, stats2, max_depth, flags), 1, 0),
{
    lemma_table_from_shape(stats, stats2, max_depth, flags, 1, 0);
}

/// The best interval at (`start`, `depth`), kept in `memo` with the key of
/// the interval after it; gives its key, or `None` where no value is counted
/// from `start` on.
fn optimize1(
    memo: &mut HashMapWithView<u64, (Interval, Option<u64>)>,
    stats: &[i32],
    stats2: Option<&[i32]>,
    max_depth: i32,
    flags: i32,
    start: i32,
    depth: i32,
) -> (r: Option<u64>)
    requires
        stats@.len() == STATS_LEN,
        stats2 matches Some(s2) ==> s2@.len() == STATS_LEN,
        1 <= max_depth <= 16,
        0 <= depth < max_depth,
        1 <= start < STATS_LEN,
        memo_ok(old(memo)@, stats@, stats2_view(stats2), max_depth as int, flags),
    ensures
        memo_ok(final(memo)@, stats@, stats2_view(stats2), max_depth as int, flags),
        forall|k: u64| old(memo)@.contains_key(k) ==> #[trigger] final(memo)@.contains_key(k),
        r == (if best_node(stats@, stats2_view(stats2), max_depth as int, flags, start as int, depth as int) is Some {
            Some(node_key(start as int, depth as int))
        } else {
            None::<u64>
        }),
        r matches Some(k) ==> final(memo)@.contains_key(k),
    decreases max_depth - depth,
{
    let ghost s2v = stats2_view(stats2);
    if stats[start as usize] == 0 {
        return None;
    }
    let key: u64 = (start as u64) * 32 + (depth as u64);
    proof {
        lemma_node_key(start as int, depth as int);
    }
    if memo.contains_key(&key) {
        return Some(key);
    }
    let prefix: i8 = (if flags >= 0 {
        flags
    } else {
        depth + 1
    }) as i8;
    let mut best_i: i32 = 0;
    let mut best_score: i32 = 0;
    let mut best_next: Option<u64> = None;
    let mut w: i32 = 1;
    let mut i: i32 = 0;
    proof {
        lemma2_to64();
    }
    while i < 16
        invariant
            0 <= i <= 16,
            w as int == pow2(i as nat),
            stats@.len() == STATS_LEN,
            stats2 matches Some(s2) ==> s2@.len() == STATS_LEN,
            s2v == stats2_view(stats2),
            1 <= max_depth <= 16,
            0 <= depth < max_depth,
            1 <= start < STATS_LEN,
            prefix == interval_prefix(flags, depth as int),
            memo_ok(memo@, stats@, s2v, max_depth as int, flags),
            forall|k: u64| old(memo)@.contains_key(k) ==> #[trigger] memo@.contains_key(k),
            i > 0 ==> best_i as int == best_index(stats@, s2v, max_depth as int, flags, start as int, depth as int, i as int),
            i > 0 ==> best_score == cand_score(stats@, s2v, max_depth as int, flags, start as int, depth as int, best_i as int),
            i > 0 ==> best_next == cand_next(stats@, max_depth as int, start as int, depth as int, best_i as int),
            best_next matches Some(k2) ==> memo@.contains_key(k2),
        decreases 16 - i,
    {
        proof {
            lemma2_to64();
            if i < 15 {
                lemma_pow2_strictly_increases(i as nat, 15);
            }
            lemma_pow2_unfold((i + 1) as nat);
        }
        let end: i32 = start + w;
        let mut start_count: i32 = 0;
        let mut end_count: i32 = 0;
        if start < 1_000_000 {
            start_count = stats[start as usize];
            if end < 1_000_000 {
                end_count = stats[end as usize];
            }
        }
        let mut score: i32 = start_count.wrapping_sub(end_count).wrapping_mul(prefix as i32 + i);
        let mut next: Option<u64> = None;
        if end_count > 0 {
            if depth + 1 < max_depth {
                next = optimize1(memo, stats, stats2, max_depth, flags, end, depth + 1);
            }
            let mut penalty: i32 = NO_TABLE_PENALTY;
            match stats2 {
                Some(s2) => {
                    penalty = s2[end as usize];
                },
                None => {},
            }
            match next {
                Some(nk) => {
                    proof {
                        lemma_node_key(end as int, depth + 1);
                    }
                    match memo.get(&nk) {
                        Some(v) => {
                            if v.0.score < penalty {
                                penalty = v.0.score;
                            }
                        },
                        None => {},
                    }
                },
                None => {},
            }
            score = score.wrapping_add(penalty);
        }
        assert(score == cand_score(stats@, s2v, max_depth as int, flags, start as int, depth as int, i as int));
        assert(next == cand_next(stats@, max_depth as int, start as int, depth as int, i as int));
        if i == 0 || score < best_score {
            best_i = i;
            best_score = score;
            best_next = next;
        }
        i = i + 1;
        w = w * 2;
    }
    proof {
        lemma_best_index_range(stats@, s2v, max_depth as int, flags, start as int, depth as int, 16);
    }
    let node = Interval {
        start,
        score: best_score,
        prefix,
        bits: best_i as i8,
        depth: depth as i8,
        flags: flags as i8,
    };
    memo.insert(key, (node, best_next));
    Some(key)
}

/// The best table for the counts `stats` (the number of values at least as
/// large as each index), with at most `max_depth` entries: intervals from
/// value 1 on, each chosen with the cheapest table after it. Where
/// `stats2` is given, its count at the end of the last interval is the
/// penalty for values left beyond it; else a fixed large penalty.
pub fn optimize_table(stats: &[i32], stats2: Option<&[i32]>, max_depth: i32, flags: i32) -> (r: Vec<Interval>)
    requires
        stats@.len() == STATS_LEN,
        stats2 matches Some(s2) ==> s2@.len() == STATS_LEN,
        1 <= max_depth <= 16,
    ensures
        r@ == best_table(stats@, stats2_view(stats2), max_depth as int, flags),
        r@.len() <= max_depth,
        table_shape(r@, 1, 0),
        0 < r@.len() < max_depth ==> end_count(stats@, r@.last().start as int, r@.last().start + pow2(r@.last().bits as nat))
            <= 0,
{
    proof {
        law_short_table_covers(stats@, stats2_view(stats2), max_depth as int, flags);
    }
    let ghost s2v = stats2_view(stats2);
    let mut memo: HashMapWithView<u64, (Interval, Option<u64>)> = HashMapWithView::new();
    let mut key = optimize1(&mut memo, stats, stats2, max_depth, flags, 1, 0);
    let mut list: Vec<Interval> = Vec::new();
    proof {
        lemma_node_key(1, 0);
        law_table_shape(stats@, s2v, max_depth as int, flags);
    }
    while key.is_some()
        invariant
            1 <= max_depth <= 16,
            stats@.len() == STATS_LEN,
            best_table(stats@, s2v, max_depth as int, flags).len() <= max_depth,
            table_shape(best_table(stats@, s2v, max_depth as int, flags), 1, 0),
            memo_ok(memo@, stats@, s2v, max_depth as int, flags),
            key matches Some(k) ==> memo@.contains_key(k),
            list@ + rest_table(memo@, stats@, s2v, max_depth as int, flags, key) == best_table(stats@, s2v, max_depth as int, flags),
        decreases rest_table(memo@, stats@, s2v, max_depth as int, flags, key).len(),
    {
        let k = key.unwrap();
        match memo.get(&k) {
            Some(v) => {
                let ghost s = k / 32;
                let ghost d = k % 32;
                proof {
                    lemma_best_index_range(stats@, s2v, max_depth as int, flags, s as int, d as int, 16);
                }
                list.push(v.0);
                key = v.1;
                proof {
                    match key {
                        Some(k2) => {
                            let i = best_index(stats@, s2v, max_depth as int, flags, s as int, d as int, 16);
                            lemma_node_key(interval_end(s as int, i), d + 1);
                        },
                        None => {},
                    }
                }
            },
            None => {
                key = None;
            },
        }
    }
    list
}

} // verus!
