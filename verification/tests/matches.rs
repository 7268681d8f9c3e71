use exomizer::original::matches::{match_ctx_init, Match};

fn lit() -> Match {
    Match { offset: 0, len: 1 }
}

#[test]
fn runs_before_and_after_bytes() {
    let ctx = match_ctx_init(b"aaaa".to_vec(), None, 65535, 65535, false);
    assert_eq!(ctx.rle, vec![0, 1, 2, 3, 0]);
    assert_eq!(ctx.rle_r, vec![3, 2, 1, 0, 0]);
    let capped = match_ctx_init(b"aaaa".to_vec(), None, 2, 65535, false);
    assert_eq!(capped.rle, vec![0, 1, 2, 2, 0]);
    assert_eq!(capped.rle_r, vec![2, 2, 1, 0, 0]);
    // the last but one byte is compared with the first one
    let odd = match_ctx_init(b"abab".to_vec(), None, 65535, 65535, false);
    assert_eq!(odd.rle_r, vec![0, 0, 1, 0, 0]);
    let unreadable = match_ctx_init(b"aaaa".to_vec(), Some(vec![0, 1, 0, 0]), 65535, 65535, false);
    assert_eq!(unreadable.rle, vec![0, 1, 0, 1, 0]);
}

#[test]
fn matches_of_a_repeat() {
    let ctx = match_ctx_init(b"abcabc".to_vec(), None, 65535, 65535, false);
    assert_eq!(ctx.matches.len(), 6);
    for i in 0..6 {
        let ms = ctx.matches_get(i);
        assert_eq!(ms[0], lit());
        for m in &ms[1..] {
            assert!(m.offset >= 1 && i + (m.offset as usize) < 6);
            assert_eq!(ctx.data[i], ctx.data[i + m.offset as usize]);
            assert!(m.len as usize <= i + 1);
        }
    }
    assert_eq!(ctx.matches_get(2).last(), Some(&Match { offset: 3, len: 3 }));
    for i in 3..6 {
        assert_eq!(ctx.matches_get(i), &vec![lit()]);
    }
}

#[test]
fn matches_respect_limits() {
    let data = b"xyxyxyxyxyxyxyxyxyxy".to_vec();
    let ctx = match_ctx_init(data.clone(), None, 4, 6, false);
    for i in 0..data.len() {
        for m in &ctx.matches_get(i)[1..] {
            assert!(m.len <= 4);
            assert!(m.offset <= 6);
        }
    }
}

#[test]
fn statistics_walk_covers_the_data() {
    let data = b"abcabcabcaaaaaaaaxyz".to_vec();
    let ctx = match_ctx_init(data.clone(), None, 65535, 65535, false);
    let mut pos = data.len() as i64 - 1;
    let mut total = 0usize;
    while let Some(m) = ctx.cache_enum_next(&mut pos) {
        assert!(m.len >= 1);
        total += m.len as usize;
    }
    assert!(total >= data.len());
    assert_eq!(pos, data.len() as i64 - 1);
    let (lit, _) = ctx.cache_peek(0);
    assert!(lit.unwrap().len <= 1);
    assert_eq!(ctx.cache_peek(-1), (None, None));
}

#[test]
fn statistics_walk_of_a_repeat() {
    let ctx = match_ctx_init(b"abcabc".to_vec(), None, 65535, 65535, false);
    assert_eq!(ctx.cache_peek(5), (Some(lit()), None));
    assert_eq!(
        ctx.cache_peek(2),
        (Some(Match { offset: 3, len: 1 }), Some(Match { offset: 3, len: 3 }))
    );
    let mut pos = 5i64;
    let mut walk = Vec::new();
    while let Some(m) = ctx.cache_enum_next(&mut pos) {
        walk.push(m);
    }
    assert_eq!(walk, vec![lit(), lit(), lit(), Match { offset: 3, len: 3 }]);
    assert_eq!(pos, 5);
}

#[test]
fn kept_matches_copy_equal_bytes() {
    let data = b"abracadabra abracadabra aaaaaaaaaaaaaaaaaaaaaaa zzzz abra".to_vec();
    let ctx = match_ctx_init(data.clone(), None, 255, 65535, false);
    for (i, ms) in ctx.matches.iter().enumerate() {
        for m in &ms[1..] {
            assert!(m.len >= 1);
            let len = m.len as usize;
            let off = m.offset as usize;
            for t in i + 1 - len..=i {
                assert_eq!(data[t], data[t + off]);
            }
        }
    }
}

#[test]
fn unreadable_position_keeps_its_chain() {
    // Both bytes are barred from being copied: the finder still offers the
    // second byte to the first, and a match of no bytes.
    let ctx = match_ctx_init(b"aa".to_vec(), Some(vec![1, 1]), 65535, 65535, false);
    assert_eq!(ctx.matches[0], vec![lit(), Match { offset: 1, len: 1 }, Match { offset: 1, len: 0 }]);
}

#[test]
fn matches_of_readable_positions_copy_readable_bytes() {
    let data = b"aaaaabaaaaabbbbbaaaaacabcabcabcaaaaaaaaaaaaxaaaa".to_vec();
    let noread: Vec<u8> = (0..data.len()).map(|i| if i % 7 == 3 || i % 11 == 0 { 1 } else { 0 }).collect();
    let ctx = match_ctx_init(data.clone(), Some(noread.clone()), 255, 65535, false);
    for (i, ms) in ctx.matches.iter().enumerate() {
        if noread[i] != 0 {
            continue;
        }
        for m in &ms[1..] {
            assert!(m.len >= 1);
            let len = m.len as usize;
            let off = m.offset as usize;
            for t in i + 1 - len..=i {
                assert_eq!(noread[t + off], 0);
                assert_eq!(data[t], data[t + off]);
            }
        }
    }
}
