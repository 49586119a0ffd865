use eml_sr::params::{biased_logits, fits, input_blocks, n_params};

#[test]
fn param_counts_match_paper() {
    assert_eq!(n_params(1), 4);
    assert_eq!(n_params(2), 14);
    assert_eq!(n_params(3), 34);
    assert_eq!(n_params(4), 74);
}

#[test]
fn n_params_of_empty_tree_is_zero() {
    assert_eq!(n_params(0), 0);
}

#[test]
fn n_params_closed_form() {
    for depth in 1..=20usize {
        assert_eq!(n_params(depth), 5 * (1usize << depth) - 6);
    }
}

#[test]
fn input_blocks_depth_one() {
    assert_eq!(input_blocks(1), vec![(1, 0, true, 0, 2), (1, 0, false, 2, 2)]);
}

#[test]
fn input_blocks_depth_two() {
    assert_eq!(
        input_blocks(2),
        vec![
            (1, 0, true, 0, 2),
            (1, 0, false, 2, 2),
            (1, 1, true, 4, 2),
            (1, 1, false, 6, 2),
            (2, 0, true, 8, 3),
            (2, 0, false, 11, 3),
        ]
    );
}

#[test]
fn input_blocks_empty_for_depth_zero() {
    assert!(input_blocks(0).is_empty());
}

#[test]
fn input_blocks_tile_the_parameters() {
    for depth in 1..=8usize {
        let blocks = input_blocks(depth);
        assert_eq!(blocks.len(), 2 * ((1usize << depth) - 1));
        assert_eq!(blocks[0].3, 0);
        for w in blocks.windows(2) {
            assert_eq!(w[1].3, w[0].3 + w[0].4);
        }
        let last = blocks[blocks.len() - 1];
        assert_eq!(last.3 + last.4, n_params(depth));
    }
}

#[test]
fn input_blocks_keys_are_unique() {
    let blocks = input_blocks(4);
    for (i, a) in blocks.iter().enumerate() {
        for b in &blocks[i + 1..] {
            assert!((a.0, a.1, a.2) != (b.0, b.1, b.2));
        }
        let expected_logits = if a.0 == 1 { 2 } else { 3 };
        assert_eq!(a.4, expected_logits);
        assert!(a.1 < (1usize << (4 - a.0)));
    }
}

#[test]
fn fits_bounds_the_depth() {
    assert!(fits(0));
    assert!(fits(1));
    assert!(fits(30));
    assert!(!fits(usize::BITS as usize));
    assert!(!fits(1000));
    // 5·2^d − 6 fits exactly up to the largest such d
    let mut last = 0;
    for d in 1..(usize::BITS as usize) {
        if fits(d) {
            last = d;
        }
    }
    assert!((5u128 << last) - 6 <= usize::MAX as u128);
    assert!((5u128 << (last + 1)) - 6 > usize::MAX as u128);
}

#[test]
fn biased_logits_mark_last_of_each_input() {
    assert_eq!(biased_logits(1), vec![false, true, false, true]);
    let mask = biased_logits(2);
    assert_eq!(
        mask,
        vec![
            false, true, false, true, false, true, false, true, false, false, true, false,
            false, true
        ]
    );
    for depth in 1..=6usize {
        let mask = biased_logits(depth);
        assert_eq!(mask.len(), n_params(depth));
        for (_, _, _, start, n) in input_blocks(depth) {
            for t in 0..n {
                assert_eq!(mask[start + t], t + 1 == n);
            }
        }
    }
}
