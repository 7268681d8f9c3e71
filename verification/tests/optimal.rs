use exomizer::original::optimal::{optimize_table, Interval, STATS_LEN};

fn counts(lens: &[usize]) -> Vec<i32> {
    let mut stats = vec![0i32; STATS_LEN];
    for &l in lens {
        for i in 0..=l {
            stats[i] += 1;
        }
    }
    stats
}

fn fields(t: &[Interval]) -> Vec<(i32, i32, i8, i8, i8, i8)> {
    t.iter().map(|n| (n.start, n.score, n.prefix, n.bits, n.depth, n.flags)).collect()
}

#[test]
fn table_of_one_length() {
    let stats = counts(&[1, 1, 1]);
    let t = optimize_table(&stats, None, 16, -1);
    assert_eq!(fields(&t), vec![(1, 3, 1, 0, 0, -1)]);
}

#[test]
fn table_of_two_lengths() {
    let stats = counts(&[1, 1, 2]);
    let t = optimize_table(&stats, None, 16, -1);
    assert_eq!(fields(&t), vec![(1, 4, 1, 0, 0, -1), (2, 2, 2, 0, 1, -1)]);
}

#[test]
fn table_with_penalties() {
    let stats = counts(&[1, 1, 2]);
    let mut penalties = vec![0i32; STATS_LEN];
    penalties[2] = 1;
    let t = optimize_table(&stats, Some(&penalties), 16, 4);
    // Prefix 4 from the flags: the first interval costs 2 * 4, the next
    // 1 * 4, and the penalty 1 is less than that.
    assert_eq!(fields(&t), vec![(1, 9, 4, 0, 0, 4), (2, 4, 4, 0, 1, 4)]);
}

#[test]
fn table_of_one_entry() {
    let stats = counts(&[1, 1, 2]);
    let t = optimize_table(&stats, None, 1, -1);
    // No entry is left for value 2: width 1 covers both values.
    assert_eq!(fields(&t), vec![(1, 6, 1, 1, 0, -1)]);
}

#[test]
fn table_of_nothing() {
    let stats = vec![0i32; STATS_LEN];
    assert!(optimize_table(&stats, None, 16, -1).is_empty());
}

#[test]
fn table_is_contiguous() {
    let stats = counts(&[1, 2, 3, 5, 9, 17, 40, 40, 300, 1000]);
    let t = optimize_table(&stats, None, 16, -1);
    assert!(!t.is_empty() && t.len() <= 16);
    assert_eq!(t[0].start, 1);
    for k in 1..t.len() {
        assert_eq!(t[k].start, t[k - 1].start + (1 << t[k - 1].bits));
        assert_eq!(t[k].depth as usize, k);
    }
}
